//! Stream positions handed back by the upstream block source: a block
//! reference and the cursor that resumption starts from.

use vstd::prelude::*;

verus! {

/// A reference to one block of the upstream chain.
#[derive(Debug, PartialEq)]
pub struct BlockRef {
    pub id: String,
    pub num: u64,
}

impl Clone for BlockRef {
    fn clone(&self) -> (r: Self)
        ensures
            r == *self,
    {
        BlockRef { id: self.id.clone(), num: self.num }
    }
}

impl BlockRef {
    /// A reference to the block `id` at height `num`.
    pub fn new(id: String, num: u64) -> (r: Self)
        ensures
            r == (BlockRef { id, num }),
    {
        Self { id, num }
    }
}

/// A resumption cursor: the upstream stream continues after the position
/// this cursor names. A blank cursor means the stream starts from scratch.
#[derive(Debug, PartialEq)]
pub struct Cursor {
    pub cursor: String,
    pub block: BlockRef,
}

impl Clone for Cursor {
    fn clone(&self) -> (r: Self)
        ensures
            r == *self,
    {
        Cursor { cursor: self.cursor.clone(), block: self.block.clone() }
    }
}

impl Cursor {
    /// A cursor at `block` with the opaque position `cursor`.
    pub fn new(cursor: String, block: BlockRef) -> (r: Self)
        ensures
            r == (Cursor { cursor, block }),
    {
        Self { cursor, block }
    }

    /// The blank cursor: no position, block zero.
    pub fn new_blank_cursor() -> (r: Self)
        ensures
            r.cursor@ == Seq::<char>::empty(),
            r.block.id@ == Seq::<char>::empty(),
            r.block.num == 0,
    {
        Cursor { cursor: String::new(), block: BlockRef { id: String::new(), num: 0 } }
    }

    /// Whether this cursor names no position.
    pub fn is_blank(&self) -> (r: bool)
        ensures
            r == (self.cursor@.len() == 0),
    {
        self.cursor.as_str().unicode_len() == 0
    }

    /// Whether two cursors name the same position; the block is not part of
    /// the comparison.
    pub fn is_equal_to(&self, other: &Self) -> (r: bool)
        ensures
            r == (self.cursor@ == other.cursor@),
    {
        self.cursor.eq(&other.cursor)
    }

    /// The opaque position this cursor names.
    pub fn to_string(&self) -> (r: String)
        ensures
            r@ == self.cursor@,
    {
        self.cursor.clone()
    }
}

} // verus!
