//! A JSON document as the backend adapters read it.
//!
//! Responses of the telemetry stores are parsed into this type at the I/O
//! edge; the adapters then pick the fields they need out of it.
use vstd::prelude::*;
use crate::text::{parse_i64, parse_i64_spec};

verus! {

/// A JSON number, kept in the form it was read in.
#[derive(Clone, Copy, PartialEq, Eq, Structural, Debug)]
pub enum JsonNumber {
    /// A non-negative integer.
    PosInt(u64),
    /// A negative integer.
    NegInt(i64),
    /// Any other number, as the bit pattern of its binary64 value.
    Float(u64),
}

/// A JSON value.
#[derive(Debug)]
pub enum Json {
    Null,
    Bool(bool),
    Number(JsonNumber),
    String(String),
    Array(Vec<Json>),
    /// The members of an object, in document order; keys are distinct.
    Object(Vec<(String, Json)>),
}

/// The index of the first member of `members` whose key is `key`.
pub open spec fn member_index(members: Seq<(String, Json)>, key: Seq<char>) -> Option<int>
    decreases members.len(),
{
    if members.len() == 0 {
        None
    } else if members[0].0@ == key {
        Some(0)
    } else {
        match member_index(members.drop_first(), key) {
            Some(i) => Some(i + 1),
            None => None,
        }
    }
}

/// `v[key]`: the member `key` of an object, or `null` when `v` is not an
/// object or has no such member.
pub open spec fn at(v: Json, key: Seq<char>) -> Json {
    match v {
        Json::Object(members) => match member_index(members@, key) {
            Some(i) => members@[i].1,
            None => Json::Null,
        },
        _ => Json::Null,
    }
}

/// `v.as_str()`: the text of a JSON string.
pub open spec fn as_str(v: Json) -> Option<Seq<char>> {
    match v {
        Json::String(s) => Some(s@),
        _ => None,
    }
}

/// `v.as_array()`: the items of a JSON array.
pub open spec fn as_array(v: Json) -> Option<Seq<Json>> {
    match v {
        Json::Array(items) => Some(items@),
        _ => None,
    }
}

/// `v.as_i64()`: an integer that fits in an `i64`.
pub open spec fn as_i64(v: Json) -> Option<i64> {
    match v {
        Json::Number(JsonNumber::PosInt(n)) => if n <= i64::MAX as u64 { Some(n as i64) } else { None },
        Json::Number(JsonNumber::NegInt(n)) => Some(n),
        _ => None,
    }
}

/// `v.as_u64()`: a non-negative integer.
pub open spec fn as_u64(v: Json) -> Option<u64> {
    match v {
        Json::Number(JsonNumber::PosInt(n)) => Some(n),
        _ => None,
    }
}

/// The items of an array, or none when `v` is not an array.
pub open spec fn items_or_empty(v: Json) -> Seq<Json> {
    match as_array(v) {
        Some(items) => items,
        None => Seq::empty(),
    }
}

/// The text of a string, or `d` when `v` is not a string.
pub open spec fn str_or(v: Json, d: Seq<char>) -> Seq<char> {
    match as_str(v) {
        Some(s) => s,
        None => d,
    }
}

/// A decimal nanosecond field, or `d` when it is missing or unreadable.
pub open spec fn nanos_or(v: Json, d: i64) -> i64 {
    match as_str(v) {
        Some(s) => match parse_i64_spec(s) {
            Some(n) => n,
            None => d,
        },
        None => d,
    }
}

/// The decimal field `key` of `sp`, or `d` when it is missing or unreadable.
pub fn nanos_field(sp: &Json, key: &str, d: i64) -> (r: i64)
    ensures
        r == nanos_or(at(*sp, key@), d),
{
    match text_of(member(sp, key)) {
        Some(s) => match parse_i64(s) {
            Some(n) => n,
            None => d,
        },
        None => d,
    }
}

proof fn lemma_member_index_bounds(members: Seq<(String, Json)>, key: Seq<char>)
    ensures
        match member_index(members, key) {
            Some(i) => 0 <= i < members.len() && members[i].0@ == key,
            None => forall|j: int| 0 <= j < members.len() ==> members[j].0@ != key,
        },
    decreases members.len(),
{
    if members.len() > 0 && members[0].0@ != key {
        lemma_member_index_bounds(members.drop_first(), key);
        match member_index(members.drop_first(), key) {
            Some(i) => {},
            None => {
                assert forall|j: int| 0 <= j < members.len() implies members[j].0@ != key by {
                    if j > 0 {
                        assert(members[j] == members.drop_first()[j - 1]);
                    }
                }
            },
        }
    }
}

fn str_eq(a: &str, b: &str) -> (r: bool)
    ensures
        r == (a@ == b@),
{
    let x = crate::text::chars_of(a);
    let y = crate::text::chars_of(b);
    if x.len() != y.len() {
        return false;
    }
    let mut i: usize = 0;
    while i < x.len()
        invariant
            x@ == a@,
            y@ == b@,
            x@.len() == y@.len(),
            i <= x@.len(),
            forall|j: int| 0 <= j < i ==> x@[j] == y@[j],
        decreases x@.len() - i,
    {
        if x[i] != y[i] {
            return false;
        }
        i = i + 1;
    }
    assert(x@ =~= y@);
    true
}

/// Whether two strings hold the same text.
pub fn text_eq(a: &str, b: &str) -> (r: bool)
    ensures
        r == (a@ == b@),
{
    str_eq(a, b)
}

impl Json {
    /// `self[key]`, as `None` where the indexing would give `null` because
    /// `self` is not an object or has no member `key`.
    pub fn field(&self, key: &str) -> (r: Option<&Json>)
        ensures
            match r {
                Some(x) => at(*self, key@) == *x,
                None => at(*self, key@) == Json::Null,
            },
    {
        match self {
            Json::Object(members) => {
                let mut i: usize = 0;
                proof {
                    lemma_member_index_bounds(members@, key@);
                }
                while i < members.len()
                    invariant
                        i <= members@.len(),
                        at(*self, key@) == (match member_index(members@, key@) {
                            Some(k) => members@[k].1,
                            None => Json::Null,
                        }),
                        forall|j: int| 0 <= j < i ==> members@[j].0@ != key@,
                        match member_index(members@, key@) {
                            Some(k) => 0 <= k < members@.len() && members@[k].0@ == key@,
                            None => forall|j: int| 0 <= j < members@.len() ==> members@[j].0@ != key@,
                        },
                    decreases members@.len() - i,
                {
                    if str_eq(members[i].0.as_str(), key) {
                        proof {
                            lemma_member_index_first(members@, key@, i as int);
                            assert(members@[i as int].1 == members[i as int].1);
                        }
                        return Some(&members[i].1);
                    }
                    i = i + 1;
                }
                None
            },
            _ => None,
        }
    }

    /// `self.as_str()`.
    pub fn as_str(&self) -> (r: Option<&str>)
        ensures
            match r {
                Some(s) => as_str(*self) == Some(s@),
                None => as_str(*self) is None,
            },
    {
        match self {
            Json::String(s) => Some(s.as_str()),
            _ => None,
        }
    }

    /// `self.as_array()`.
    pub fn as_array(&self) -> (r: Option<&Vec<Json>>)
        ensures
            match r {
                Some(items) => as_array(*self) == Some(items@),
                None => as_array(*self) is None,
            },
    {
        match self {
            Json::Array(items) => Some(items),
            _ => None,
        }
    }

    /// `self.as_i64()`.
    pub fn as_i64(&self) -> (r: Option<i64>)
        ensures
            r == as_i64(*self),
    {
        match self {
            Json::Number(JsonNumber::PosInt(n)) => if *n <= 9223372036854775807u64 {
                Some(*n as i64)
            } else {
                None
            },
            Json::Number(JsonNumber::NegInt(n)) => Some(*n),
            _ => None,
        }
    }

    /// `self.as_u64()`.
    pub fn as_u64(&self) -> (r: Option<u64>)
        ensures
            r == as_u64(*self),
    {
        match self {
            Json::Number(JsonNumber::PosInt(n)) => Some(*n),
            _ => None,
        }
    }
}

/// `v[key]`, with `null` when indexing gives `null`.
pub fn member<'a>(v: &'a Json, key: &str) -> (r: Option<&'a Json>)
    ensures
        match r {
            Some(x) => at(*v, key@) == *x,
            None => at(*v, key@) == Json::Null,
        },
{
    v.field(key)
}

/// `v[outer][inner]`.
pub fn member2<'a>(v: &'a Json, outer: &str, inner: &str) -> (r: Option<&'a Json>)
    ensures
        match r {
            Some(x) => at(at(*v, outer@), inner@) == *x,
            None => at(at(*v, outer@), inner@) == Json::Null,
        },
{
    match v.field(outer) {
        Some(x) => x.field(inner),
        None => None,
    }
}

/// The text of `x` when it is a string.
pub fn text_of<'a>(x: Option<&'a Json>) -> (r: Option<&'a str>)
    ensures
        match x {
            Some(j) => match r {
                Some(s) => as_str(*j) == Some(s@),
                None => as_str(*j) is None,
            },
            None => r is None,
        },
{
    match x {
        Some(j) => j.as_str(),
        None => None,
    }
}

/// The items of `x` when it is an array.
pub fn items_of<'a>(x: Option<&'a Json>) -> (r: Option<&'a Vec<Json>>)
    ensures
        match x {
            Some(j) => match r {
                Some(items) => as_array(*j) == Some(items@),
                None => as_array(*j) is None,
            },
            None => r is None,
        },
{
    match x {
        Some(j) => j.as_array(),
        None => None,
    }
}

proof fn lemma_member_index_first(members: Seq<(String, Json)>, key: Seq<char>, i: int)
    requires
        0 <= i < members.len(),
        members[i].0@ == key,
        forall|j: int| 0 <= j < i ==> members[j].0@ != key,
    ensures
        member_index(members, key) == Some(i),
    decreases members.len(),
{
    if i > 0 {
        assert forall|j: int| 0 <= j < i - 1 implies members.drop_first()[j].0@ != key by {
            assert(members.drop_first()[j] == members[j + 1]);
        }
        lemma_member_index_first(members.drop_first(), key, i - 1);
    }
}

} // verus!
