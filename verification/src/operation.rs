//! Rendering one record-change operation against the relational store as a
//! SQL statement: an insert, update or delete of a single row, identified by
//! its primary key.

use vstd::prelude::*;
use vstd::string::StringExecFns;

verus! {

/// The kind of record change an [`Operation`] applies.
pub enum OperationType {
    Insert,
    Update,
    Delete,
}

/// A SQL value, carried as the literal text it renders to inside a query.
pub struct SqlType {
    pub text: String,
}

impl SqlType {
    /// Wrap the rendered literal text of a value.
    pub fn new(text: String) -> (r: SqlType)
        ensures
            r.text == text,
    {
        SqlType { text }
    }

    /// The literal text this value renders to.
    pub fn to_string(&self) -> (r: String)
        ensures
            r@ == self.text@,
    {
        self.text.clone()
    }
}

/// One record change: the target table, the primary key that identifies the
/// row, and the column data, as column name and value pairs.
pub struct Operation {
    pub schema_name: String,
    pub table_name: String,
    pub primary_key_column_name: String,
    pub op_type: OperationType,
    pub primary_key: SqlType,
    pub data: Vec<(String, SqlType)>,
}

/// Whether the column names of `data` are pairwise distinct: the shape a
/// row's data has, one value per column.
pub open spec fn distinct_columns(data: Seq<(String, SqlType)>) -> bool {
    forall|a: int, b: int|
        0 <= a < b < data.len() ==> (#[trigger] data[a].0)@ != (#[trigger] data[b].0)@
}

/// The column names of `data`, joined by `,`.
pub open spec fn spec_columns(data: Seq<(String, SqlType)>) -> Seq<char>
    decreases data.len(),
{
    if data.len() == 0 {
        Seq::empty()
    } else if data.len() == 1 {
        data[0].0@
    } else {
        spec_columns(data.drop_last()) + ","@ + data.last().0@
    }
}

/// The values of `data`, joined by `,`.
pub open spec fn spec_values(data: Seq<(String, SqlType)>) -> Seq<char>
    decreases data.len(),
{
    if data.len() == 0 {
        Seq::empty()
    } else if data.len() == 1 {
        data[0].1.text@
    } else {
        spec_values(data.drop_last()) + ","@ + data.last().1.text@
    }
}

/// The `column=value` assignments of `data`, joined by `,`.
pub open spec fn spec_assignments(data: Seq<(String, SqlType)>) -> Seq<char>
    decreases data.len(),
{
    if data.len() == 0 {
        Seq::empty()
    } else if data.len() == 1 {
        data[0].0@ + "="@ + data[0].1.text@
    } else {
        spec_assignments(data.drop_last()) + ","@ + data.last().0@ + "="@ + data.last().1.text@
    }
}

impl Operation {
    /// The SQL statement this operation renders to.
    pub open spec fn spec_query(self) -> Seq<char> {
        match self.op_type {
            OperationType::Delete => "DELETE FROM "@ + self.schema_name@ + "."@ + self.table_name@
                + " WHERE "@ + self.primary_key_column_name@ + " = "@ + self.primary_key.text@,
            OperationType::Insert => "INSERT INTO "@ + self.schema_name@ + "."@ + self.table_name@
                + " ("@ + spec_columns(self.data@) + ") VALUES ("@ + spec_values(self.data@)
                + ")"@,
            OperationType::Update => "UPDATE "@ + self.schema_name@ + "."@ + self.table_name@
                + " SET "@ + spec_assignments(self.data@) + " WHERE "@
                + self.primary_key_column_name@ + "="@ + self.primary_key.text@,
        }
    }

    /// Bundle the parts of one record change.
    pub fn new(
        schema_name: String,
        table_name: String,
        primary_key_column_name: String,
        op_type: OperationType,
        primary_key: SqlType,
        data: Vec<(String, SqlType)>,
    ) -> (r: Operation)
        ensures
            r == (Operation {
                schema_name,
                table_name,
                primary_key_column_name,
                op_type,
                primary_key,
                data,
            }),
    {
        Operation { schema_name, table_name, primary_key_column_name, op_type, primary_key, data }
    }

    /// Render the operation as its SQL statement. Inserts and updates need
    /// at least one column of data, one value per column; a delete needs
    /// none.
    pub fn build_query(&self) -> (q: String)
        requires
            !(self.op_type is Delete) ==> self.data@.len() > 0 && distinct_columns(self.data@),
        ensures
            q@ == self.spec_query(),
    {
        let mut q = String::new();
        match self.op_type {
            OperationType::Delete => {
                q.append("DELETE FROM ");
                q.append(self.schema_name.as_str());
                q.append(".");
                q.append(self.table_name.as_str());
                q.append(" WHERE ");
                q.append(self.primary_key_column_name.as_str());
                q.append(" = ");
                q.append(self.primary_key.text.as_str());
                proof {
                    assert(q@ =~= self.spec_query());
                }
            },
            OperationType::Insert => {
                let (keys, values) = self.joined_columns_and_values();
                q.append("INSERT INTO ");
                q.append(self.schema_name.as_str());
                q.append(".");
                q.append(self.table_name.as_str());
                q.append(" (");
                q.append(keys.as_str());
                q.append(") VALUES (");
                q.append(values.as_str());
                q.append(")");
                proof {
                    assert(q@ =~= self.spec_query());
                }
            },
            OperationType::Update => {
                let assignments = self.joined_assignments();
                q.append("UPDATE ");
                q.append(self.schema_name.as_str());
                q.append(".");
                q.append(self.table_name.as_str());
                q.append(" SET ");
                q.append(assignments.as_str());
                q.append(" WHERE ");
                q.append(self.primary_key_column_name.as_str());
                q.append("=");
                q.append(self.primary_key.text.as_str());
                proof {
                    assert(q@ =~= self.spec_query());
                }
            },
        }
        q
    }

    /// The comma-joined column list and value list of `data`.
    fn joined_columns_and_values(&self) -> (r: (String, String))
        ensures
            r.0@ == spec_columns(self.data@),
            r.1@ == spec_values(self.data@),
    {
        let mut keys = String::new();
        let mut values = String::new();
        let n = self.data.len();
        let mut i: usize = 0;
        while i < n
            invariant
                n == self.data@.len(),
                0 <= i <= n,
                keys@ == spec_columns(self.data@.take(i as int)),
                values@ == spec_values(self.data@.take(i as int)),
            decreases n - i,
        {
            if i > 0 {
                keys.append(",");
                values.append(",");
            }
            keys.append(self.data[i].0.as_str());
            values.append(self.data[i].1.text.as_str());
            proof {
                assert(self.data@.take(i + 1).drop_last() =~= self.data@.take(i as int));
                assert(self.data@.take(i + 1).last() == self.data@[i as int]);
                assert(keys@ =~= spec_columns(self.data@.take(i + 1)));
                assert(values@ =~= spec_values(self.data@.take(i + 1)));
            }
            i = i + 1;
        }
        proof {
            assert(self.data@.take(n as int) =~= self.data@);
        }
        (keys, values)
    }

    /// The comma-joined `column=value` assignments of `data`.
    fn joined_assignments(&self) -> (r: String)
        ensures
            r@ == spec_assignments(self.data@),
    {
        let mut assignments = String::new();
        let n = self.data.len();
        let mut i: usize = 0;
        while i < n
            invariant
                n == self.data@.len(),
                0 <= i <= n,
                assignments@ == spec_assignments(self.data@.take(i as int)),
            decreases n - i,
        {
            if i > 0 {
                assignments.append(",");
            }
            assignments.append(self.data[i].0.as_str());
            assignments.append("=");
            assignments.append(self.data[i].1.text.as_str());
            proof {
                assert(self.data@.take(i + 1).drop_last() =~= self.data@.take(i as int));
                assert(self.data@.take(i + 1).last() == self.data@[i as int]);
                assert(assignments@ =~= spec_assignments(self.data@.take(i + 1)));
            }
            i = i + 1;
        }
        proof {
            assert(self.data@.take(n as int) =~= self.data@);
        }
        assignments
    }
}

} // verus!
