//! A JSON document as the parsers of the library read it: the responses of
//! the platforms and of the dashboard, once decoded.
//!
//! Numbers are kept as the signed integer they write, when they write one,
//! beside the text that writes them: the parsers here read no other kind of
//! number, and a document rewritten keeps the others as they were. The
//! members of an object keep the order in which the decoder hands them out.

use crate::text::{chars_of, same_chars};
use vstd::prelude::*;

verus! {

#[derive(Debug)]
pub enum Json {
    Null,
    Bool(bool),
    /// A number: the `i64` it writes when it writes one, and its text.
    Number(Option<i64>, String),
    Text(String),
    Array(Vec<Json>),
    Object(Vec<(String, Json)>),
}

/// The first member of an object named `key`.
pub open spec fn member_in(fields: Seq<(String, Json)>, key: Seq<char>) -> Option<Json>
    decreases fields.len(),
{
    if fields.len() == 0 {
        None
    } else if fields[0].0@ == key {
        Some(fields[0].1)
    } else {
        member_in(fields.drop_first(), key)
    }
}

/// `value.get(key)`: the member of an object, nothing for anything else.
pub open spec fn member(value: Json, key: Seq<char>) -> Option<Json> {
    match value {
        Json::Object(fields) => member_in(fields@, key),
        _ => None,
    }
}

/// `value.as_str()`.
pub open spec fn text_in(value: Option<Json>) -> Option<Seq<char>> {
    match value {
        Some(Json::Text(t)) => Some(t@),
        _ => None,
    }
}

/// `value.as_i64()`.
pub open spec fn integer_in(value: Option<Json>) -> Option<i64> {
    match value {
        Some(Json::Number(n, _)) => n,
        _ => None,
    }
}

impl Json {
    /// The member named `key`, when the value is an object that has one.
    pub fn get(&self, key: &str) -> (r: Option<&Json>)
        ensures
            match member(*self, key@) {
                Some(m) => r matches Some(x) && *x == m,
                None => r is None,
            },
    {
        match self {
            Json::Object(fields) => {
                let wanted = chars_of(key);
                let mut k: usize = 0;
                assert(fields@.skip(0) =~= fields@);
                while k < fields.len()
                    invariant
                        k <= fields@.len(),
                        wanted@ == key@,
                        member(*self, key@) == member_in(fields@, key@),
                        member_in(fields@, key@) == member_in(fields@.skip(k as int), key@),
                    decreases fields@.len() - k,
                {
                    proof {
                        assert(fields@.skip(k as int).drop_first() =~= fields@.skip(k + 1));
                        assert(fields@.skip(k as int)[0] == fields@[k as int]);
                    }
                    if same_chars(&chars_of(fields[k].0.as_str()), &wanted) {
                        assert(member_in(fields@.skip(k as int), key@) == Some(fields@[k as int].1));
                        return Some(&fields[k].1);
                    }
                    k = k + 1;
                }
                assert(fields@.skip(k as int).len() == 0);
                None
            },
            _ => None,
        }
    }

    /// The text, when the value is one.
    pub fn as_text(&self) -> (r: Option<&String>)
        ensures
            match *self {
                Json::Text(t) => r == Some(&t),
                _ => r is None,
            },
    {
        match self {
            Json::Text(t) => Some(t),
            _ => None,
        }
    }

    /// The integer, when the value is a number that writes an `i64`.
    pub fn as_i64(&self) -> (r: Option<i64>)
        ensures
            r == integer_in(Some(*self)),
    {
        match self {
            Json::Number(n, _) => *n,
            _ => None,
        }
    }
}

/// The text of the member `key`, as `value.get(key).and_then(as_str)` gives it.
pub fn member_text(value: &Json, key: &str) -> (r: Option<String>)
    ensures
        match text_in(member(*value, key@)) {
            Some(t) => r matches Some(x) && x@ == t,
            None => r is None,
        },
{
    match value.get(key) {
        Some(Json::Text(t)) => Some(t.clone()),
        _ => None,
    }
}

/// The integer of the member `key`, as `value.get(key).and_then(as_i64)` gives it.
pub fn member_integer(value: &Json, key: &str) -> (r: Option<i64>)
    ensures
        r == integer_in(member(*value, key@)),
{
    match value.get(key) {
        Some(Json::Number(n, _)) => *n,
        _ => None,
    }
}

} // verus!
