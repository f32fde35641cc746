//! Core of a declarative, incrementally maintained relational query
//! engine: the plan-to-dataflow compiler and its relational operator
//! algebra, modelled over explicit batches of `(row, time, diff)`
//! updates.

use vstd::prelude::*;

pub mod binding;
pub mod context;
pub mod laws;
pub mod operators;
pub mod plan;
pub mod collection;
pub mod relation;
pub mod sources;
pub mod shutdown;
pub mod value;

verus! {

/// Marker for types fit to serve as the value domain: plain data
/// with structural equality.
pub trait AsValue {
}

/// Marker for types fit to serve as the attribute-identifier domain.
pub trait AsAid {
}

impl AsValue for crate::value::Value {
}

impl AsAid for String {
}

/// A unique entity identifier.
pub type Eid = u64;

/// A unique attribute identifier (an interned attribute name).
pub type Aid = String;

/// A logical variable symbol shared between plan nodes to declare
/// equalities.
pub type Var = i64;

/// Source of fresh entity ids and fresh gensym variables.
///
/// Fresh user variables are drawn from `0` upward by the front-end;
/// gensym variables are drawn from the top of the `Var` space
/// downward, so no collision is possible provided neither counter
/// wraps.
pub struct Generators {
    /// The next entity id that `next_id` will hand out.
    pub next_eid: Eid,
    /// The next gensym variable that `gensym` will hand out.
    pub next_sym: Var,
}

impl Generators {
    /// Fresh counters: entity ids start at zero, gensym variables at
    /// the top of the `Var` space.
    pub fn new() -> (r: Generators)
        ensures
            r.next_eid == 0,
            r.next_sym == i64::MAX,
    {
        Generators { next_eid: 0, next_sym: i64::MAX }
    }
}

/// Draws a fresh entity id; the counter is monotone.
pub fn next_id(gen: &mut Generators) -> (r: Eid)
    requires
        old(gen).next_eid < u64::MAX,
    ensures
        r == old(gen).next_eid,
        final(gen).next_eid == old(gen).next_eid + 1,
        final(gen).next_sym == old(gen).next_sym,
{
    let r = gen.next_eid;
    gen.next_eid = gen.next_eid + 1;
    r
}

/// Draws a fresh gensym variable; the counter is monotone
/// (decreasing), so gensym variables never repeat.
pub fn gensym(gen: &mut Generators) -> (r: Var)
    requires
        old(gen).next_sym > i64::MIN,
    ensures
        r == old(gen).next_sym,
        final(gen).next_sym == old(gen).next_sym - 1,
        final(gen).next_eid == old(gen).next_eid,
{
    let r = gen.next_sym;
    gen.next_sym = gen.next_sym - 1;
    r
}

} // verus!
