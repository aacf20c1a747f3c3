//! The JSON values the League client sends, as plain data: what the engine reads of
//! events, sessions and lobbies.

use vstd::prelude::*;

use crate::text::str_eq;

verus! {

/// A JSON value. Numbers that are integers keep their value; other numbers keep the
/// text that writes them. An object keeps its members in order.
#[derive(Debug, PartialEq)]
pub enum Json {
    Null,
    Bool(bool),
    Int(i128),
    Float(String),
    Str(String),
    Array(Vec<Json>),
    Object(Vec<(String, Json)>),
}

/// The first member of `members` named `key`.
pub open spec fn find_member(members: Seq<(String, Json)>, key: Seq<char>) -> Option<Json>
    decreases members.len(),
{
    if members.len() == 0 {
        None
    } else if members[0].0@ == key {
        Some(members[0].1)
    } else {
        find_member(members.drop_first(), key)
    }
}

/// The member `key` of an object (`Value::get` with a string).
pub open spec fn field(j: Json, key: Seq<char>) -> Option<Json> {
    match j {
        Json::Object(members) => find_member(members@, key),
        _ => None,
    }
}

/// The element at `index` of an array (`Value::get` with an index).
pub open spec fn element(j: Json, index: int) -> Option<Json> {
    match j {
        Json::Array(items) => if 0 <= index < items@.len() {
            Some(items@[index])
        } else {
            None
        },
        _ => None,
    }
}

/// The value as an `i64`, when it is an integer that fits (`Value::as_i64`).
pub open spec fn int_of(j: Json) -> Option<i64> {
    match j {
        Json::Int(v) => if i64::MIN <= v <= i64::MAX {
            Some(v as i64)
        } else {
            None
        },
        _ => None,
    }
}

/// The text of a string value (`Value::as_str`).
pub open spec fn str_of(j: Json) -> Option<Seq<char>> {
    match j {
        Json::Str(s) => Some(s@),
        _ => None,
    }
}

pub open spec fn and_then_field(j: Option<Json>, key: Seq<char>) -> Option<Json> {
    match j {
        Some(v) => field(v, key),
        None => None,
    }
}

pub open spec fn and_then_element(j: Option<Json>, index: int) -> Option<Json> {
    match j {
        Some(v) => element(v, index),
        None => None,
    }
}

pub open spec fn and_then_int(j: Option<Json>) -> Option<i64> {
    match j {
        Some(v) => int_of(v),
        None => None,
    }
}

pub open spec fn and_then_str(j: Option<Json>) -> Option<Seq<char>> {
    match j {
        Some(v) => str_of(v),
        None => None,
    }
}

impl Json {
    /// The member `key` of an object; `None` for anything else or a missing member.
    pub fn get(&self, key: &str) -> (r: Option<&Json>)
        ensures
            r matches Some(v) ==> field(*self, key@) == Some(*v),
            r is None ==> field(*self, key@) is None,
    {
        match self {
            Json::Object(members) => {
                let mut i: usize = 0;
                assert(members@.skip(0) =~= members@);
                while i < members.len()
                    invariant
                        *self == Json::Object(*members),
                        i <= members@.len(),
                        find_member(members@, key@) == find_member(members@.skip(i as int), key@),
                    decreases members.len() - i,
                {
                    assert(members@.skip(i as int)[0] == members@[i as int]);
                    if str_eq(members[i].0.as_str(), key) {
                        assert(find_member(members@.skip(i as int), key@) == Some(members@[i as int].1));
                        return Some(&members[i].1);
                    }
                    assert(members@.skip(i as int).drop_first() =~= members@.skip(i + 1));
                    i += 1;
                }
                None
            },
            _ => None,
        }
    }

    /// The element at `index` of an array; `None` for anything else or out of range.
    pub fn at(&self, index: usize) -> (r: Option<&Json>)
        ensures
            r matches Some(v) ==> element(*self, index as int) == Some(*v),
            r is None ==> element(*self, index as int) is None,
    {
        match self {
            Json::Array(items) => if index < items.len() {
                Some(&items[index])
            } else {
                None
            },
            _ => None,
        }
    }

    /// The value as an `i64`, when it is an integer that fits.
    pub fn as_i64(&self) -> (r: Option<i64>)
        ensures
            r == int_of(*self),
    {
        match self {
            Json::Int(v) => if -9223372036854775808i128 <= *v && *v <= 9223372036854775807i128 {
                Some(*v as i64)
            } else {
                None
            },
            _ => None,
        }
    }

    /// The text of a string value.
    pub fn as_str(&self) -> (r: Option<&str>)
        ensures
            r matches Some(s) ==> str_of(*self) == Some(s@),
            r is None ==> str_of(*self) is None,
    {
        match self {
            Json::Str(s) => Some(s.as_str()),
            _ => None,
        }
    }
}

} // verus!
