//! The differential-algebraic laws of the relational operators,
//! stated and proved over the weight semantics of collections.

use vstd::prelude::*;

verus! {

use crate::collection::{
    Update,
    weight_at,
    weight_le,
    weight_lt,
    set_weight,
    rows_arity,
    project_row,
    project_update,
    project_entries,
    join_entries,
    join_row_entries,
    join_update,
    key_matches,
    max_time,
};
use crate::value::Val;

/// Exact weights are additive over concatenation.
pub proof fn lemma_weight_at_concat(a: Seq<Update>, b: Seq<Update>, row: Seq<Val>, t: u64)
    ensures
        weight_at(a + b, row, t) == weight_at(a, row, t) + weight_at(b, row, t),
    decreases b.len(),
{
    if b.len() == 0 {
        assert(a + b =~= a);
    } else {
        lemma_weight_at_concat(a, b.drop_last(), row, t);
        assert((a + b).drop_last() =~= a + b.drop_last());
        assert((a + b).last() == b.last());
    }
}

/// Accumulated weights are additive over concatenation.
pub proof fn lemma_weight_le_concat(a: Seq<Update>, b: Seq<Update>, row: Seq<Val>, t: u64)
    ensures
        weight_le(a + b, row, t) == weight_le(a, row, t) + weight_le(b, row, t),
        weight_lt(a + b, row, t) == weight_lt(a, row, t) + weight_lt(b, row, t),
    decreases b.len(),
{
    if b.len() == 0 {
        assert(a + b =~= a);
    } else {
        lemma_weight_le_concat(a, b.drop_last(), row, t);
        assert((a + b).drop_last() =~= a + b.drop_last());
        assert((a + b).last() == b.last());
    }
}

/// Some position of `idx` names column `j`.
pub open spec fn position_covered(idx: Seq<usize>, j: int) -> bool {
    exists|k: int| 0 <= k < idx.len() && (#[trigger] idx[k]) == j
}

/// A permutation of the column positions `0 .. n`.
pub open spec fn is_permutation(idx: Seq<usize>, n: nat) -> bool {
    &&& idx.len() == n
    &&& forall|k: int| 0 <= k < idx.len() ==> (#[trigger] idx[k]) < n
    &&& forall|j: int| 0 <= j < n ==> #[trigger] position_covered(idx, j)
}

/// Projection by a permutation is injective on rows of the right
/// arity.
pub proof fn lemma_project_row_injective(r1: Seq<Val>, r2: Seq<Val>, idx: Seq<usize>, n: nat)
    requires
        is_permutation(idx, n),
        r1.len() == n,
        r2.len() == n,
        project_row(r1, idx) == project_row(r2, idx),
    ensures
        r1 == r2,
{
    assert forall|j: int| 0 <= j < n implies r1[j] == r2[j] by {
        assert(position_covered(idx, j));
        let k = choose|k: int| 0 <= k < idx.len() && (#[trigger] idx[k]) == j;
        assert(project_row(r1, idx)[k] == r1[j]);
        assert(project_row(r2, idx)[k] == r2[j]);
    }
    assert(r1 =~= r2);
}

/// Under a permutation, each projected row carries exactly the
/// weights of its unique source row.
pub proof fn lemma_project_weights(
    c: Seq<Update>,
    idx: Seq<usize>,
    n: nat,
    row: Seq<Val>,
    t: u64,
)
    requires
        rows_arity(c, n),
        is_permutation(idx, n),
        row.len() == n,
    ensures
        weight_at(project_entries(c, idx), project_row(row, idx), t) == weight_at(c, row, t),
        weight_le(project_entries(c, idx), project_row(row, idx), t) == weight_le(c, row, t),
        weight_lt(project_entries(c, idx), project_row(row, idx), t) == weight_lt(c, row, t),
    decreases c.len(),
{
    if c.len() > 0 {
        assert forall|i: int| 0 <= i < c.drop_last().len() implies (#[trigger] c.drop_last(
        )[i]).0.len() == n by {
            assert(c.drop_last()[i] == c[i]);
        }
        lemma_project_weights(c.drop_last(), idx, n, row, t);
        let p = project_entries(c, idx);
        assert(p.drop_last() =~= project_entries(c.drop_last(), idx));
        assert(p.last() == project_update(c.last(), idx));
        assert(c.last() == c[c.len() - 1]);
        if p.last().0 == project_row(row, idx) {
            lemma_project_row_injective(c.last().0, row, idx, n);
        }
    }
}

/// A row that no source row projects onto carries no weight.
pub proof fn lemma_project_weights_zero(
    c: Seq<Update>,
    idx: Seq<usize>,
    n: nat,
    prow: Seq<Val>,
    t: u64,
)
    requires
        rows_arity(c, n),
        forall|r2: Seq<Val>| r2.len() == n ==> #[trigger] project_row(r2, idx) != prow,
    ensures
        weight_at(project_entries(c, idx), prow, t) == 0,
        weight_le(project_entries(c, idx), prow, t) == 0,
        weight_lt(project_entries(c, idx), prow, t) == 0,
    decreases c.len(),
{
    if c.len() > 0 {
        assert forall|i: int| 0 <= i < c.drop_last().len() implies (#[trigger] c.drop_last(
        )[i]).0.len() == n by {
            assert(c.drop_last()[i] == c[i]);
        }
        lemma_project_weights_zero(c.drop_last(), idx, n, prow, t);
        let p = project_entries(c, idx);
        assert(p.drop_last() =~= project_entries(c.drop_last(), idx));
        assert(p.last() == project_update(c.last(), idx));
        assert(c.last() == c[c.len() - 1]);
        assert(project_row(c.last().0, idx) != prow);
    }
}

/// Projection commutes with union: for any two union-compatible
/// batches and any permutation of their columns, projecting the
/// set-semantic union is the same collection as taking the
/// set-semantic union of the projections — on every row and at every
/// timestamp.  Concatenation and projection commute literally, and
/// the set-semantic (distinct) weight of the projected union at a
/// projected row equals that of the union at its source row, while
/// rows that no source row projects onto carry no weight at all.
pub proof fn lemma_projection_commutes_with_union(
    a: Seq<Update>,
    b: Seq<Update>,
    idx: Seq<usize>,
    n: nat,
    row: Seq<Val>,
    t: u64,
)
    requires
        rows_arity(a, n),
        rows_arity(b, n),
        is_permutation(idx, n),
        row.len() == n,
    ensures
        project_entries(a + b, idx) == project_entries(a, idx) + project_entries(b, idx),
        set_weight(project_entries(a + b, idx), project_row(row, idx), t) == set_weight(
            a + b,
            row,
            t,
        ),
        forall|prow: Seq<Val>|
            (forall|r2: Seq<Val>| r2.len() == n ==> #[trigger] project_row(r2, idx) != prow)
                ==> #[trigger] set_weight(project_entries(a + b, idx), prow, t) == 0,
{
    assert(project_entries(a + b, idx) =~= project_entries(a, idx) + project_entries(b, idx));
    assert forall|i: int| 0 <= i < (a + b).len() implies (#[trigger] (a + b)[i]).0.len() == n by {
        if i < a.len() {
            assert((a + b)[i] == a[i]);
        } else {
            assert((a + b)[i] == b[i - a.len()]);
        }
    }
    lemma_project_weights(a + b, idx, n, row, t);
    assert forall|prow: Seq<Val>|
        (forall|r2: Seq<Val>| r2.len() == n ==> #[trigger] project_row(r2, idx) != prow) implies
    #[trigger] set_weight(project_entries(a + b, idx), prow, t) == 0 by {
        lemma_project_weights_zero(a + b, idx, n, prow, t);
    }
}

/// Splitting a three-way concatenation with known segment lengths.
pub proof fn lemma_concat3_eq(
    a1: Seq<Val>,
    a2: Seq<Val>,
    a3: Seq<Val>,
    b1: Seq<Val>,
    b2: Seq<Val>,
    b3: Seq<Val>,
)
    requires
        a1.len() == b1.len(),
        a2.len() == b2.len(),
        a3.len() == b3.len(),
    ensures
        (a1 + a2 + a3 == b1 + b2 + b3) <==> (a1 == b1 && a2 == b2 && a3 == b3),
{
    if a1 + a2 + a3 == b1 + b2 + b3 {
        let l = a1 + a2 + a3;
        assert(a1 =~= l.subrange(0, a1.len() as int));
        assert(b1 =~= l.subrange(0, a1.len() as int));
        assert(a2 =~= l.subrange(a1.len() as int, a1.len() + a2.len() as int));
        assert(b2 =~= l.subrange(a1.len() as int, a1.len() + a2.len() as int));
        assert(a3 =~= l.subrange(a1.len() + a2.len() as int, l.len() as int));
        assert(b3 =~= l.subrange(a1.len() + a2.len() as int, l.len() as int));
    }
    if a1 == b1 && a2 == b2 && a3 == b3 {
        assert(a1 + a2 + a3 =~= b1 + b2 + b3);
    }
}

/// Growing the right operand of a join by one update adds exactly the
/// swapped-schema matches of that update.
proof fn lemma_join_grow_right(
    b: Seq<Update>,
    a: Seq<Update>,
    e: Update,
    kl: Seq<usize>,
    rl: Seq<usize>,
    kr: Seq<usize>,
    rr: Seq<usize>,
    k: Seq<Val>,
    x: Seq<Val>,
    y: Seq<Val>,
    t: u64,
)
    requires
        k.len() == kl.len(),
        k.len() == kr.len(),
        x.len() == rl.len(),
        y.len() == rr.len(),
    ensures
        weight_at(join_entries(b, a.push(e), kr, rr, kl, rl), k + y + x, t) == weight_at(
            join_entries(b, a, kr, rr, kl, rl),
            k + y + x,
            t,
        ) + weight_at(join_row_entries(e, b, kl, rl, kr, rr), k + x + y, t),
    decreases b.len(),
{
    if b.len() == 0 {
    } else {
        lemma_join_grow_right(b.drop_last(), a, e, kl, rl, kr, rr, k, x, y, t);
        let f = b.last();
        // join_entries over b.push: peel the last left update f
        lemma_weight_at_concat(
            join_entries(b.drop_last(), a.push(e), kr, rr, kl, rl),
            join_row_entries(f, a.push(e), kr, rr, kl, rl),
            k + y + x,
            t,
        );
        lemma_weight_at_concat(
            join_entries(b.drop_last(), a, kr, rr, kl, rl),
            join_row_entries(f, a, kr, rr, kl, rl),
            k + y + x,
            t,
        );
        // jr(f, a.push(e)) appends at most one match against e
        assert((a.push(e)).drop_last() =~= a);
        assert((a.push(e)).last() == e);
        let jr_old = join_row_entries(f, a, kr, rr, kl, rl);
        let jr_new = join_row_entries(f, a.push(e), kr, rr, kl, rl);
        let here = join_row_entries(e, b, kl, rl, kr, rr);
        if key_matches(f, e, kr, kl) {
            let ju_swapped = join_update(f, e, kr, rr, rl);
            assert(jr_new =~= jr_old.push(ju_swapped));
            assert(jr_new.drop_last() =~= jr_old);
            let ju_here = join_update(e, f, kl, rl, rr);
            assert(key_matches(e, f, kl, kr));
            assert(here == join_row_entries(e, b.drop_last(), kl, rl, kr, rr).push(ju_here));
            assert(here.drop_last() =~= join_row_entries(e, b.drop_last(), kl, rl, kr, rr));
            assert(here.last() == ju_here);
            lemma_concat3_eq(
                project_row(f.0, kr),
                project_row(f.0, rr),
                project_row(e.0, rl),
                k,
                y,
                x,
            );
            lemma_concat3_eq(
                project_row(e.0, kl),
                project_row(e.0, rl),
                project_row(f.0, rr),
                k,
                x,
                y,
            );
            assert(ju_swapped.0 == project_row(f.0, kr) + project_row(f.0, rr) + project_row(
                e.0,
                rl,
            ));
            assert(ju_here.0 == project_row(e.0, kl) + project_row(e.0, rl) + project_row(
                f.0,
                rr,
            ));
            assert(max_time(f.1, e.1) == max_time(e.1, f.1));
            assert(f.2 * e.2 == e.2 * f.2) by (nonlinear_arith);
        } else {
            assert(!key_matches(e, f, kl, kr));
            assert(jr_new =~= jr_old);
            assert(here == join_row_entries(e, b.drop_last(), kl, rl, kr, rr));
        }
    }
}

/// Joining against an empty right operand yields nothing.
proof fn lemma_join_empty_right(
    b: Seq<Update>,
    kl: Seq<usize>,
    rl: Seq<usize>,
    kr: Seq<usize>,
    rr: Seq<usize>,
    row: Seq<Val>,
    t: u64,
)
    ensures
        weight_at(join_entries(b, Seq::empty(), kl, rl, kr, rr), row, t) == 0,
    decreases b.len(),
{
    if b.len() > 0 {
        lemma_join_empty_right(b.drop_last(), kl, rl, kr, rr, row, t);
        lemma_weight_at_concat(
            join_entries(b.drop_last(), Seq::empty(), kl, rl, kr, rr),
            join_row_entries(b.last(), Seq::empty(), kl, rl, kr, rr),
            row,
            t,
        );
    }
}

/// Join commutativity: for any two batches and any key columns, the
/// weighted output of joining left-with-right equals that of joining
/// right-with-left, up to the column reordering that swaps the two
/// remainders — on every row and at every timestamp.
pub proof fn lemma_join_commutative(
    a: Seq<Update>,
    b: Seq<Update>,
    kl: Seq<usize>,
    rl: Seq<usize>,
    kr: Seq<usize>,
    rr: Seq<usize>,
    k: Seq<Val>,
    x: Seq<Val>,
    y: Seq<Val>,
    t: u64,
)
    requires
        k.len() == kl.len(),
        k.len() == kr.len(),
        x.len() == rl.len(),
        y.len() == rr.len(),
    ensures
        weight_at(join_entries(a, b, kl, rl, kr, rr), k + x + y, t) == weight_at(
            join_entries(b, a, kr, rr, kl, rl),
            k + y + x,
            t,
        ),
    decreases a.len(),
{
    if a.len() == 0 {
        assert(a =~= Seq::<Update>::empty());
        lemma_join_empty_right(b, kr, rr, kl, rl, k + y + x, t);
    } else {
        lemma_join_commutative(a.drop_last(), b, kl, rl, kr, rr, k, x, y, t);
        lemma_weight_at_concat(
            join_entries(a.drop_last(), b, kl, rl, kr, rr),
            join_row_entries(a.last(), b, kl, rl, kr, rr),
            k + x + y,
            t,
        );
        assert(a.drop_last().push(a.last()) =~= a);
        lemma_join_grow_right(b, a.drop_last(), a.last(), kl, rl, kr, rr, k, x, y, t);
        assert(join_entries(b, a.drop_last().push(a.last()), kr, rr, kl, rl) == join_entries(
            b,
            a,
            kr,
            rr,
            kl,
            rl,
        ));
        assert(weight_at(join_entries(a, b, kl, rl, kr, rr), k + x + y, t) == weight_at(
            join_entries(a.drop_last(), b, kl, rl, kr, rr),
            k + x + y,
            t,
        ) + weight_at(join_row_entries(a.last(), b, kl, rl, kr, rr), k + x + y, t));
        assert(weight_at(join_entries(b, a, kr, rr, kl, rl), k + y + x, t) == weight_at(
            join_entries(b, a.drop_last(), kr, rr, kl, rl),
            k + y + x,
            t,
        ) + weight_at(join_row_entries(a.last(), b, kl, rl, kr, rr), k + x + y, t));
        assert(weight_at(join_entries(a, b, kl, rl, kr, rr), k + x + y, t) == weight_at(
            join_entries(b, a, kr, rr, kl, rl),
            k + y + x,
            t,
        ));
    }
}

/// Idempotence of equal insertion: inserting the same tuple twice
/// into a base attribute accumulates to count two, and retracting it
/// twice returns the count to zero — at that row and time the four
/// updates cancel exactly, and every other row and time is untouched.
pub proof fn lemma_insert_retract_idempotent(
    c: Seq<Update>,
    row: Seq<Val>,
    t: u64,
    row2: Seq<Val>,
    t2: u64,
)
    ensures
        weight_le(c + twice(row, t, 1isize), row, t) == weight_le(c, row, t) + 2,
        weight_le(c + twice(row, t, 1isize) + twice(row, t, (-1) as isize), row, t) == weight_le(c, row, t),
        !(row2 == row && t2 >= t) ==> weight_le(
            c + twice(row, t, 1isize) + twice(row, t, (-1) as isize),
            row2,
            t2,
        ) == weight_le(c, row2, t2),
{
    reveal_with_fuel(weight_le, 4);
    reveal_with_fuel(weight_lt, 4);
    lemma_weight_le_concat(c, twice(row, t, 1isize), row, t);
    lemma_weight_le_concat(c + twice(row, t, 1isize), twice(row, t, (-1) as isize), row, t);
    lemma_weight_le_concat(c, twice(row, t, 1isize), row2, t2);
    lemma_weight_le_concat(c + twice(row, t, 1isize), twice(row, t, (-1) as isize), row2, t2);
    assert(twice(row, t, 1isize).drop_last() =~= seq![(row, t, 1isize)]);
    assert(seq![(row, t, 1isize)].drop_last() =~= Seq::<Update>::empty());
    assert(twice(row, t, (-1) as isize).drop_last() =~= seq![(row, t, (-1) as isize)]);
    assert(seq![(row, t, (-1) as isize)].drop_last() =~= Seq::<Update>::empty());
    assert(weight_le(twice(row, t, 1isize), row, t) == 2);
    assert(weight_le(twice(row, t, (-1) as isize), row, t) == -2);
}

/// Two identical updates.
pub open spec fn twice(row: Seq<Val>, t: u64, diff: isize) -> Seq<Update> {
    seq![(row, t, diff), (row, t, diff)]
}

} // verus!
