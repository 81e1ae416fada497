//! Scheme extraction from a URI. Routing needs nothing else of the URI: a
//! task is dispatched by the scheme in front of the first `:`, written as the
//! usual grammar has it — a letter followed by letters, digits, `+`, `-` or
//! `.`. A URI without such a prefix has no scheme and cannot be routed.
//!
//! Validation stops at the scheme. A URI whose scheme is well-formed but
//! whose remainder a full parser would reject is handed to the downloader
//! as it stands, fails there, and ends `DownloadFailed` after its retries
//! rather than `UnknownURI`.

use vstd::prelude::*;

verus! {

/// An ASCII letter.
pub open spec fn is_alpha(c: char) -> bool {
    ('a' as u32 <= c as u32 && c as u32 <= 'z' as u32) || ('A' as u32 <= c as u32 && c as u32
        <= 'Z' as u32)
}

/// A character allowed in a scheme after the leading letter.
pub open spec fn is_scheme_char(c: char) -> bool {
    is_alpha(c) || ('0' as u32 <= c as u32 && c as u32 <= '9' as u32) || c == '+' || c == '-' || c
        == '.'
}

/// A well-formed scheme: non-empty, a letter first, scheme characters after.
pub open spec fn valid_scheme(s: Seq<char>) -> bool {
    &&& s.len() > 0
    &&& is_alpha(s[0])
    &&& forall|j: int| 0 < j < s.len() ==> is_scheme_char(#[trigger] s[j])
}

/// Whether `uri` splits at `i` into a scheme and the rest: the first `:` of
/// `uri` stands at `i`, and what precedes it is a well-formed scheme. At most
/// one such `i` exists for a given `uri`.
pub open spec fn scheme_split_at(uri: Seq<char>, i: int) -> bool {
    &&& 0 <= i < uri.len()
    &&& uri[i] == ':'
    &&& forall|j: int| 0 <= j < i ==> (#[trigger] uri[j]) != ':'
    &&& valid_scheme(uri.take(i))
}

fn is_alpha_char(c: char) -> (r: bool)
    ensures
        r == is_alpha(c),
{
    let u = c as u32;
    (97 <= u && u <= 122) || (65 <= u && u <= 90)
}

fn is_scheme_char_exec(c: char) -> (r: bool)
    ensures
        r == is_scheme_char(c),
{
    let u = c as u32;
    is_alpha_char(c) || (48 <= u && u <= 57) || c == '+' || c == '-' || c == '.'
}

/// The scheme of `uri`: the well-formed scheme in front of the first `:`, or
/// `None` if the URI has no `:` or what precedes the first one is not a
/// well-formed scheme.
pub fn uri_scheme(uri: &str) -> (r: Option<String>)
    ensures
        match r {
            Some(s) => scheme_split_at(uri@, s@.len() as int) && s@ == uri@.take(s@.len() as int),
            None => forall|i: int| !scheme_split_at(uri@, i),
        },
{
    let len = uri.unicode_len();
    if len == 0 {
        return None;
    }
    let c0 = uri.get_char(0);
    if c0 == ':' {
        proof {
            assert forall|i: int| !scheme_split_at(uri@, i) by {
                if 0 < i < uri@.len() {
                    assert(uri@[0] == ':');
                } else if i == 0 {
                    assert(!valid_scheme(uri@.take(0)));
                }
            }
        }
        return None;
    }
    let mut valid: bool = is_alpha_char(c0);
    let mut i: usize = 1;
    while i < len
        invariant
            len == uri@.len(),
            1 <= i <= len,
            forall|j: int| 0 <= j < i ==> (#[trigger] uri@[j]) != ':',
            valid == valid_scheme(uri@.take(i as int)),
        decreases len - i,
    {
        let c = uri.get_char(i);
        if c == ':' {
            if valid {
                let scheme = uri.substring_char(0, i);
                let s = String::from_str(scheme);
                proof {
                    assert(s@ =~= uri@.take(i as int));
                    assert(scheme_split_at(uri@, i as int));
                }
                return Some(s);
            } else {
                proof {
                    assert forall|k: int| !scheme_split_at(uri@, k) by {
                        if 0 <= k < i {
                            assert(uri@[k] != ':');
                        } else if k == i {
                            assert(!valid_scheme(uri@.take(i as int)));
                        } else if i < k < uri@.len() {
                            assert(uri@[i as int] == ':');
                        }
                    }
                }
                return None;
            }
        }
        let c_ok = is_scheme_char_exec(c);
        proof {
            assert(uri@.take(i + 1).len() == i + 1);
            assert(uri@.take(i + 1)[0] == uri@[0]);
            assert(uri@.take(i + 1)[i as int] == uri@[i as int]);
            assert forall|j: int| 0 <= j < i implies uri@.take(i + 1)[j] == uri@.take(i as int)[j]
                by {}
            if valid && c_ok {
                assert(valid_scheme(uri@.take(i + 1)));
            } else if !valid {
                assert(uri@.take(i as int).len() == i as int);
                if i == 1 {
                    assert(!is_alpha(uri@.take(i + 1)[0]));
                } else {
                    if !(uri@.take(i as int).len() > 0 && is_alpha(uri@.take(i as int)[0])) {
                        assert(!valid_scheme(uri@.take(i + 1)));
                    } else {
                        let bad = choose|j: int|
                            0 < j < i && !is_scheme_char(#[trigger] uri@.take(i as int)[j]);
                        assert(!is_scheme_char(uri@.take(i + 1)[bad]));
                        assert(!valid_scheme(uri@.take(i + 1)));
                    }
                }
            } else {
                assert(!is_scheme_char(uri@.take(i + 1)[i as int]));
                assert(!valid_scheme(uri@.take(i + 1)));
            }
        }
        valid = valid && c_ok;
        i = i + 1;
    }
    proof {
        assert forall|k: int| !scheme_split_at(uri@, k) by {
            if 0 <= k < uri@.len() {
                assert(uri@[k] != ':');
            }
        }
    }
    None
}

} // verus!
