//! The JSON values hooks record with each event, as plain data: what
//! relay reads of them is keys, strings and whole numbers.

use vstd::prelude::*;

use crate::text::{chars_of, str_eq};

verus! {

/// A JSON value. Numbers that are not whole and non-negative are kept as
/// `OtherNumber`: nothing relay reads needs their value.
#[derive(Debug)]
pub enum Json {
    Null,
    Bool(bool),
    Uint(u64),
    OtherNumber,
    Str(String),
    Array(Vec<Json>),
    Object(Vec<(String, Json)>),
}

/// The entry for `key` in an object's members: the first one named so.
pub open spec fn member(members: Seq<(String, Json)>, key: Seq<char>) -> Option<Json>
    decreases members.len(),
{
    if members.len() == 0 {
        None
    } else if members[0].0@ == key {
        Some(members[0].1)
    } else {
        member(members.drop_first(), key)
    }
}

impl Json {
    /// `value[key]`: the member of an object, `Null` for a missing key or a
    /// value that is not an object.
    pub open spec fn at(self, key: Seq<char>) -> Json {
        match self {
            Json::Object(m) => match member(m@, key) {
                Some(v) => v,
                None => Json::Null,
            },
            _ => Json::Null,
        }
    }

    pub open spec fn str_of(self) -> Option<Seq<char>> {
        match self {
            Json::Str(s) => Some(s@),
            _ => None,
        }
    }

    pub open spec fn u64_of(self) -> Option<u64> {
        match self {
            Json::Uint(n) => Some(n),
            _ => None,
        }
    }

    pub fn get(&self, key: &str) -> (r: &Json)
        ensures
            *r == self.at(key@),
    {
        match self {
            Json::Object(m) => {
                let mut i: usize = 0;
                proof {
                    assert(m@.skip(0) =~= m@);
                }
                while i < m.len()
                    invariant
                        *self == Json::Object(*m),
                        i <= m.len(),
                        member(m@.skip(i as int), key@) == member(m@, key@),
                    decreases m.len() - i,
                {
                    proof {
                        assert(m@.skip(i as int)[0] == m@[i as int]);
                        assert(m@.skip(i as int).drop_first() =~= m@.skip(i + 1));
                    }
                    if str_eq(m[i].0.as_str(), key) {
                        proof {
                            let rest = m@.skip(i as int);
                            assert(rest.len() > 0);
                            assert(rest[0].0@ == key@);
                            assert(member(rest, key@) == Some(rest[0].1));
                            assert(rest[0] == m@[i as int]);
                            assert(member(m@, key@) == Some(m@[i as int].1));
                            assert(*self == Json::Object(*m));
                            assert(self.at(key@) == m@[i as int].1);
                        }
                        return &m[i].1;
                    }
                    i += 1;
                }
                &JSON_NULL
            },
            _ => &JSON_NULL,
        }
    }

    pub fn as_str(&self) -> (r: Option<&str>)
        ensures
            r.is_some() == self.str_of().is_some(),
            r.is_some() ==> r.unwrap()@ == self.str_of().unwrap(),
    {
        match self {
            Json::Str(s) => Some(s.as_str()),
            _ => None,
        }
    }

    pub fn as_u64(&self) -> (r: Option<u64>)
        ensures
            r == self.u64_of(),
    {
        match self {
            Json::Uint(n) => Some(*n),
            _ => None,
        }
    }

    /// `value == "text"`: a string equal to `s`.
    pub fn is_str(&self, s: &str) -> (r: bool)
        ensures
            r == (self.str_of() == Some(s@)),
    {
        match self {
            Json::Str(t) => str_eq(t.as_str(), s),
            _ => false,
        }
    }

    /// `value[key]` as a string.
    pub fn str_at(&self, key: &str) -> (r: Option<&str>)
        ensures
            r.is_some() == self.at(key@).str_of().is_some(),
            r.is_some() ==> r.unwrap()@ == self.at(key@).str_of().unwrap(),
    {
        self.get(key).as_str()
    }

    /// `value[key]` as a whole number.
    pub fn u64_at(&self, key: &str) -> (r: Option<u64>)
        ensures
            r == self.at(key@).u64_of(),
    {
        self.get(key).as_u64()
    }
}

pub const JSON_NULL: Json = Json::Null;

} // verus!
