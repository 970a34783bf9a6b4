//! A parsed JSON or TOML document, as plain values: what the library reads of
//! Codex's session files, auth files and profile files.
use vstd::prelude::*;

use crate::text::str_eq;

verus! {

/// A JSON or TOML value. Numbers keep their text, except TOML's non-integer
/// numbers, which are `Other` like TOML's dates.
/// A table keeps its entries in the order the parser walks them.
pub enum Doc {
    Null,
    Bool(bool),
    Number(String),
    Str(String),
    List(Vec<Doc>),
    Table(Vec<(String, Doc)>),
    Other,
}

/// The first entry of `es` with key `k`.
pub open spec fn table_get(es: Seq<(String, Doc)>, k: Seq<char>) -> Option<Doc>
    decreases es.len(),
{
    if es.len() == 0 {
        None
    } else if es[0].0@ == k {
        Some(es[0].1)
    } else {
        table_get(es.drop_first(), k)
    }
}

/// `value.get(k)`: the member `k` of a table, nothing for any other value.
pub open spec fn doc_get(d: Doc, k: Seq<char>) -> Option<Doc> {
    match d {
        Doc::Table(es) => table_get(es@, k),
        _ => None,
    }
}

/// `value.as_str()`.
pub open spec fn doc_str(d: Option<Doc>) -> Option<Seq<char>> {
    match d {
        Some(Doc::Str(s)) => Some(s@),
        _ => None,
    }
}

/// The value behind an optional reference.
pub open spec fn opt_doc(d: Option<&Doc>) -> Option<Doc> {
    match d {
        Some(x) => Some(*x),
        None => None,
    }
}

impl Doc {
    /// The member `key` of a table.
    pub fn get(&self, key: &str) -> (res: Option<&Doc>)
        ensures
            match res {
                Some(v) => doc_get(*self, key@) == Some(*v),
                None => doc_get(*self, key@) is None,
            },
    {
        match self {
            Doc::Table(es) => {
                let mut i: usize = 0;
                assert(es@.skip(0) =~= es@);
                while i < es.len()
                    invariant
                        i <= es@.len(),
                        doc_get(*self, key@) == table_get(es@, key@),
                        table_get(es@, key@) == table_get(es@.skip(i as int), key@),
                    decreases es@.len() - i,
                {
                    assert(es@.skip(i as int)[0] == es@[i as int]);
                    if str_eq(es[i].0.as_str(), key) {
                        return Some(&es[i].1);
                    }
                    assert(es@.skip(i as int).drop_first() =~= es@.skip(i + 1));
                    i = i + 1;
                }
                None
            },
            _ => None,
        }
    }

    /// The text of a string value.
    pub fn as_str(&self) -> (res: Option<&String>)
        ensures
            match res {
                Some(s) => doc_str(Some(*self)) == Some(s@),
                None => doc_str(Some(*self)) is None,
            },
    {
        match self {
            Doc::Str(s) => Some(s),
            _ => None,
        }
    }
}

} // verus!
