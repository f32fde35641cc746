//! The algebraic datum carried on every tuple edge, together with its
//! mathematical abstraction.

use vstd::prelude::*;

verus! {

use crate::{Aid, Eid};

/// A 32-bit rational number, held as an explicit numerator and
/// denominator pair.
#[derive(Clone, Copy, PartialEq, Eq, Structural, Hash, PartialOrd, Ord, Debug)]
pub struct Rational32 {
    /// Numerator.
    pub numer: i32,
    /// Denominator.
    pub denom: i32,
}

/// The mathematical abstraction of a [`Value`]: strings become
/// character sequences, every other payload stays a plain value.
pub enum Val {
    /// An attribute identifier.
    Aid(Seq<char>),
    /// A string.
    Str(Seq<char>),
    /// A boolean.
    Bool(bool),
    /// A 64-bit signed integer.
    Number(i64),
    /// A 32-bit rational, as numerator and denominator.
    Rational32(int, int),
    /// An entity identifier.
    Eid(u64),
    /// Milliseconds since midnight, January 1, 1970 UTC.
    Instant(u64),
    /// A 16-byte unique identifier, as its 128-bit value.
    Uuid(u128),
    /// A fixed-precision real number, as its raw 32-bit representation
    /// (16 integer bits, 16 fractional bits).
    Real(i32),
}

/// Possible data values.
///
/// This enum captures the currently supported data types, and is the
/// least common denominator for the types of records moved around.
#[derive(Clone, PartialEq, Eq, Hash, PartialOrd, Ord, Debug)]
pub enum Value {
    /// An attribute identifier
    Aid(Aid),
    /// A string
    String(String),
    /// A boolean
    Bool(bool),
    /// A 64 bit signed integer
    Number(i64),
    /// A 32 bit rational
    Rational32(Rational32),
    /// An entity identifier
    Eid(Eid),
    /// Milliseconds since midnight, January 1, 1970 UTC
    Instant(u64),
    /// A 16 byte unique identifier, as its 128-bit value.
    Uuid(u128),
    /// A fixed-precision real number, as its raw 32-bit representation.
    Real(i32),
}

impl View for Value {
    type V = Val;

    open spec fn view(&self) -> Val {
        match self {
            Value::Aid(a) => Val::Aid(a@),
            Value::String(s) => Val::Str(s@),
            Value::Bool(b) => Val::Bool(*b),
            Value::Number(n) => Val::Number(*n),
            Value::Rational32(r) => Val::Rational32(r.numer as int, r.denom as int),
            Value::Eid(e) => Val::Eid(*e),
            Value::Instant(t) => Val::Instant(*t),
            Value::Uuid(u) => Val::Uuid(*u),
            Value::Real(x) => Val::Real(*x),
        }
    }
}

impl DeepView for Value {
    type V = Val;

    open spec fn deep_view(&self) -> Val {
        self.view()
    }
}

/// What an outside UUID parser returns for a given character
/// sequence: `Some` of the 128-bit value on well-formed textual
/// UUIDs, `None` otherwise.
pub uninterp spec fn uuid_of_str(s: Seq<char>) -> Option<u128>;

/// Relies on `uuid::Uuid::parse_str` and `uuid::Uuid::as_u128`: the
/// outcome depends on the characters of the input alone.
#[verifier::external_body]
fn parse_uuid(v: &str) -> (r: Option<u128>)
    ensures
        r == uuid_of_str(v@),
{
    match uuid::Uuid::parse_str(v) {
        Ok(u) => Some(u.as_u128()),
        Err(_) => None,
    }
}

impl Value {
    /// Helper to create an Aid value from a string representation.
    pub fn aid(v: &str) -> (r: Self)
        ensures
            r@ == Val::Aid(v@),
    {
        Value::Aid(v.to_owned())
    }

    /// Helper to create a UUID value from a string representation;
    /// `None` when the string is not a textual UUID.
    pub fn uuid_str(v: &str) -> (r: Option<Self>)
        ensures
            match r {
                Some(u) => uuid_of_str(v@) matches Some(bits) && u@ == Val::Uuid(bits),
                None => uuid_of_str(v@) is None,
            },
    {
        match parse_uuid(v) {
            Some(bits) => Some(Value::Uuid(bits)),
            None => None,
        }
    }

    /// The entity id held by this value, if it is one.
    pub fn as_eid(&self) -> (r: Option<Eid>)
        ensures
            match r {
                Some(e) => self@ == Val::Eid(e),
                None => !(self@ is Eid),
            },
    {
        match self {
            Value::Eid(e) => Some(*e),
            _ => None,
        }
    }

    /// Structural equality, decided exactly by the abstractions.
    pub fn eqv(&self, other: &Value) -> (r: bool)
        ensures
            r == (self@ == other@),
    {
        match (self, other) {
            (Value::Aid(a), Value::Aid(b)) => a.eq(b),
            (Value::String(a), Value::String(b)) => a.eq(b),
            (Value::Bool(a), Value::Bool(b)) => *a == *b,
            (Value::Number(a), Value::Number(b)) => *a == *b,
            (Value::Rational32(a), Value::Rational32(b)) => *a == *b,
            (Value::Eid(a), Value::Eid(b)) => *a == *b,
            (Value::Instant(a), Value::Instant(b)) => *a == *b,
            (Value::Uuid(a), Value::Uuid(b)) => *a == *b,
            (Value::Real(a), Value::Real(b)) => *a == *b,
            _ => false,
        }
    }

    /// A copy with the same abstraction.
    pub fn duplicate(&self) -> (r: Value)
        ensures
            r@ == self@,
    {
        match self {
            Value::Aid(a) => Value::Aid(a.clone()),
            Value::String(s) => Value::String(s.clone()),
            Value::Bool(b) => Value::Bool(*b),
            Value::Number(n) => Value::Number(*n),
            Value::Rational32(r) => Value::Rational32(*r),
            Value::Eid(e) => Value::Eid(*e),
            Value::Instant(t) => Value::Instant(*t),
            Value::Uuid(u) => Value::Uuid(*u),
            Value::Real(x) => Value::Real(*x),
        }
    }

    /// A plain string datum.
    pub fn from_str(v: &str) -> (r: Self)
        ensures
            r@ == Val::Str(v@),
    {
        Value::String(v.to_owned())
    }
}

/// A copy of a whole row, with the same abstraction.
pub fn row_dup(row: &Vec<Value>) -> (r: Vec<Value>)
    ensures
        r.deep_view() == row.deep_view(),
{
    let mut out: Vec<Value> = Vec::new();
    let mut i: usize = 0;
    while i < row.len()
        invariant
            i <= row@.len(),
            out.deep_view().len() == i,
            forall|j: int| 0 <= j < i ==> out.deep_view()[j] == row.deep_view()[j],
        decreases row@.len() - i,
    {
        let ghost prev = out.deep_view();
        let v = row[i].duplicate();
        let ghost pushed = v@;
        out.push(v);
        proof {
            assert(out.deep_view() =~= prev.push(pushed));
        }
        i = i + 1;
    }
    proof {
        assert(out.deep_view() =~= row.deep_view());
    }
    out
}

/// Structural equality on whole rows.
pub fn row_eq(a: &Vec<Value>, b: &Vec<Value>) -> (r: bool)
    ensures
        r == (a.deep_view() == b.deep_view()),
{
    if a.len() != b.len() {
        assert(a.deep_view().len() != b.deep_view().len());
        return false;
    }
    let mut i: usize = 0;
    while i < a.len()
        invariant
            i <= a.len(),
            a.len() == b.len(),
            forall|k: int| 0 <= k < i ==> a.deep_view()[k] == b.deep_view()[k],
        decreases a.len() - i,
    {
        if !a[i].eqv(&b[i]) {
            assert(a.deep_view()[i as int] != b.deep_view()[i as int]);
            return false;
        }
        i = i + 1;
    }
    proof {
        assert(a.deep_view() =~= b.deep_view());
    }
    true
}

} // verus!
