//! Materialised collections: batches of `(row, time, diff)` updates
//! and the relational operators over them.
//!
//! A collection is a multiset of rows whose membership counts change
//! over time: an update `(row, t, diff)` changes the multiplicity of
//! `row` by `diff` at time `t`.  The spec functions here give every
//! operator its meaning as a weight function over rows and times.

use vstd::prelude::*;

verus! {

use crate::value::{Val, Value};
use crate::value::{row_dup, row_eq};

/// Signed change in multiplicity at a timestamp.
pub type Diff = isize;

/// One update: a row, the time at which it takes effect, and the
/// change in multiplicity.
pub type Tuple = (Vec<Value>, u64, Diff);

/// The abstraction of one update.
pub type Update = (Seq<Val>, u64, Diff);

/// The multiplicity change that `c` applies to `row` exactly at time
/// `t`.
pub open spec fn weight_at(c: Seq<Update>, row: Seq<Val>, t: u64) -> int
    decreases c.len(),
{
    if c.len() == 0 {
        0
    } else {
        weight_at(c.drop_last(), row, t) + if c.last().0 == row && c.last().1 == t {
            c.last().2 as int
        } else {
            0
        }
    }
}

/// The accumulated multiplicity of `row` at time `t`: every update at
/// a time less than or equal to `t` has taken effect.
pub open spec fn weight_le(c: Seq<Update>, row: Seq<Val>, t: u64) -> int
    decreases c.len(),
{
    if c.len() == 0 {
        0
    } else {
        weight_le(c.drop_last(), row, t) + if c.last().0 == row && c.last().1 <= t {
            c.last().2 as int
        } else {
            0
        }
    }
}

/// The accumulated multiplicity of `row` strictly before time `t`.
pub open spec fn weight_lt(c: Seq<Update>, row: Seq<Val>, t: u64) -> int
    decreases c.len(),
{
    if c.len() == 0 {
        0
    } else {
        weight_lt(c.drop_last(), row, t) + if c.last().0 == row && c.last().1 < t {
            c.last().2 as int
        } else {
            0
        }
    }
}

/// Set-semantic presence: one when the count is positive, zero
/// otherwise.
pub open spec fn step(x: int) -> int {
    if x > 0 {
        1
    } else {
        0
    }
}

/// The multiplicity change at `(row, t)` of the set-semantic
/// (distinct) reading of `c`: presence after `t` minus presence
/// before `t`.
pub open spec fn set_weight(c: Seq<Update>, row: Seq<Val>, t: u64) -> int {
    step(weight_le(c, row, t)) - step(weight_lt(c, row, t))
}

/// Every row of `c` has arity `n`.
pub open spec fn rows_arity(c: Seq<Update>, n: nat) -> bool {
    forall|i: int| 0 <= i < c.len() ==> (#[trigger] c[i]).0.len() == n
}

/// The positional permutation/subsetting of a row.
pub open spec fn project_row(row: Seq<Val>, idx: Seq<usize>) -> Seq<Val> {
    Seq::new(idx.len(), |k: int| row[idx[k] as int])
}

/// One projected update.
pub open spec fn project_update(e: Update, idx: Seq<usize>) -> Update {
    (project_row(e.0, idx), e.1, e.2)
}

/// The positional permutation/subsetting of every row of a
/// collection; multiset-preserving, no deduplication.
pub open spec fn project_entries(c: Seq<Update>, idx: Seq<usize>) -> Seq<Update> {
    Seq::new(c.len(), |i: int| project_update(c[i], idx))
}

/// One update with its diff negated.
pub open spec fn negate_update(e: Update) -> Update {
    (e.0, e.1, (-(e.2 as int)) as isize)
}

/// Every diff negated: rows carry negative counts.
pub open spec fn negate_entries(c: Seq<Update>) -> Seq<Update> {
    Seq::new(c.len(), |i: int| negate_update(c[i]))
}

/// Projects a single row.
pub fn project_one(row: &Vec<Value>, indices: &Vec<usize>) -> (r: Vec<Value>)
    requires
        forall|k: int| 0 <= k < indices@.len() ==> (#[trigger] indices@[k]) < row@.len(),
    ensures
        r.deep_view() == project_row(row.deep_view(), indices@),
{
    let mut out: Vec<Value> = Vec::new();
    let mut k: usize = 0;
    while k < indices.len()
        invariant
            k <= indices@.len(),
            forall|j: int| 0 <= j < indices@.len() ==> (#[trigger] indices@[j]) < row@.len(),
            out.deep_view().len() == k,
            forall|j: int| 0 <= j < k ==> out.deep_view()[j] == row.deep_view()[indices@[j] as int],
        decreases indices@.len() - k,
    {
        let ghost prev = out.deep_view();
        let v = row[indices[k]].duplicate();
        out.push(v);
        proof {
            assert(out.deep_view() =~= prev.push(row.deep_view()[indices@[k as int] as int]));
        }
        k = k + 1;
    }
    proof {
        assert(out.deep_view() =~= project_row(row.deep_view(), indices@));
    }
    out
}

/// Projects every update of a batch to the chosen positions;
/// multiset-preserving.
pub fn project_tuples(tuples: &Vec<Tuple>, indices: &Vec<usize>) -> (r: Vec<Tuple>)
    requires
        forall|i: int, k: int|
            0 <= i < tuples.deep_view().len() && 0 <= k < indices@.len() ==> (
            #[trigger] indices@[k]) < (#[trigger] tuples.deep_view()[i]).0.len(),
    ensures
        r.deep_view() == project_entries(tuples.deep_view(), indices@),
{
    let mut out: Vec<Tuple> = Vec::new();
    let mut i: usize = 0;
    while i < tuples.len()
        invariant
            i <= tuples@.len(),
            tuples@.len() == tuples.deep_view().len(),
            forall|j: int, k: int|
                0 <= j < tuples.deep_view().len() && 0 <= k < indices@.len() ==> (
                #[trigger] indices@[k]) < (#[trigger] tuples.deep_view()[j]).0.len(),
            out.deep_view().len() == i,
            forall|j: int|
                0 <= j < i ==> out.deep_view()[j] == project_update(
                    tuples.deep_view()[j],
                    indices@,
                ),
        decreases tuples@.len() - i,
    {
        let entry = &tuples[i];
        proof {
            assert(tuples.deep_view()[i as int].0 == entry.0.deep_view());
        }
        let row = project_one(&entry.0, indices);
        let ghost prev = out.deep_view();
        let ghost pushed = (row.deep_view(), entry.1, entry.2);
        out.push((row, entry.1, entry.2));
        proof {
            assert(out.deep_view() =~= prev.push(pushed));
        }
        i = i + 1;
    }
    proof {
        assert(out.deep_view() =~= project_entries(tuples.deep_view(), indices@));
    }
    out
}

/// Concatenates two batches.
pub fn concat_tuples(left: Vec<Tuple>, right: Vec<Tuple>) -> (r: Vec<Tuple>)
    ensures
        r.deep_view() == left.deep_view() + right.deep_view(),
{
    let ghost lv = left.deep_view();
    let ghost rv = right.deep_view();
    let mut out = left;
    let mut rest = right;
    out.append(&mut rest);
    proof {
        assert(out.deep_view() =~= lv + rv);
    }
    out
}

/// Negates every diff of a batch.
pub fn negate_tuples(tuples: &Vec<Tuple>) -> (r: Vec<Tuple>)
    requires
        forall|i: int|
            0 <= i < tuples.deep_view().len() ==> (#[trigger] tuples.deep_view()[i]).2
                != isize::MIN,
    ensures
        r.deep_view() == negate_entries(tuples.deep_view()),
{
    let mut out: Vec<Tuple> = Vec::new();
    let mut i: usize = 0;
    while i < tuples.len()
        invariant
            i <= tuples@.len(),
            tuples@.len() == tuples.deep_view().len(),
            forall|j: int|
                0 <= j < tuples.deep_view().len() ==> (#[trigger] tuples.deep_view()[j]).2
                    != isize::MIN,
            out.deep_view().len() == i,
            forall|j: int|
                0 <= j < i ==> out.deep_view()[j] == negate_update(tuples.deep_view()[j]),
        decreases tuples@.len() - i,
    {
        let entry = &tuples[i];
        let row = row_dup(&entry.0);
        proof {
            assert(tuples.deep_view()[i as int].2 == entry.2);
        }
        let ghost prev = out.deep_view();
        let ghost pushed = (row.deep_view(), entry.1, (-(entry.2 as int)) as isize);
        out.push((row, entry.1, -entry.2));
        proof {
            assert(out.deep_view() =~= prev.push(pushed));
        }
        i = i + 1;
    }
    proof {
        assert(out.deep_view() =~= negate_entries(tuples.deep_view()));
    }
    out
}

/// Whether `c` holds an update for exactly this row and time.
pub open spec fn appears(c: Seq<Update>, row: Seq<Val>, t: u64) -> bool {
    exists|j: int| 0 <= j < c.len() && (#[trigger] c[j]).0 == row && c[j].1 == t
}

/// Whether position `i` of `c` is the first update carrying its row
/// and time.
pub open spec fn first_occurrence(c: Seq<Update>, i: int) -> bool {
    !appears(c.take(i), c[i].0, c[i].1)
}

/// The set-semantic (distinct) reading of the first `n` updates of
/// `c`: one update per distinct `(row, time)` pair, carrying the
/// change in presence of that row.
pub open spec fn distinct_prefix(c: Seq<Update>, n: int) -> Seq<Update>
    decreases n,
{
    if n <= 0 {
        Seq::empty()
    } else {
        let rest = distinct_prefix(c, n - 1);
        let e = c[n - 1];
        if first_occurrence(c, n - 1) && set_weight(c, e.0, e.1) != 0 {
            rest.push((e.0, e.1, set_weight(c, e.0, e.1) as isize))
        } else {
            rest
        }
    }
}

/// The set-semantic (distinct) reading of a whole batch.
pub open spec fn distinct_entries(c: Seq<Update>) -> Seq<Update> {
    distinct_prefix(c, c.len() as int)
}

/// Whether some update of `src` carries exactly this row.
pub open spec fn row_present(src: Seq<Update>, row: Seq<Val>) -> bool {
    exists|j: int| 0 <= j < src.len() && (#[trigger] src[j]).0 == row
}

/// Every row of `c` occurs as a row of `src`.
pub open spec fn rows_from(c: Seq<Update>, src: Seq<Update>) -> bool {
    forall|i: int| 0 <= i < c.len() ==> row_present(src, (#[trigger] c[i]).0)
}

/// Appending one update extends the appearing pairs by exactly that
/// update's pair.
pub proof fn lemma_appears_push(c: Seq<Update>, e: Update, row: Seq<Val>, t: u64)
    ensures
        appears(c.push(e), row, t) <==> (appears(c, row, t) || (e.0 == row && e.1 == t)),
{
    if appears(c, row, t) {
        let j = choose|j: int| 0 <= j < c.len() && (#[trigger] c[j]).0 == row && c[j].1 == t;
        assert(c.push(e)[j].0 == row && c.push(e)[j].1 == t);
    }
    if e.0 == row && e.1 == t {
        assert(c.push(e)[c.len() as int].0 == row && c.push(e)[c.len() as int].1 == t);
    }
    if appears(c.push(e), row, t) {
        let j = choose|j: int|
            0 <= j < c.push(e).len() && (#[trigger] c.push(e)[j]).0 == row && c.push(e)[j].1 == t;
        if j < c.len() {
            assert(c[j].0 == row && c[j].1 == t);
        }
    }
}

/// A pair that never appears has equal accumulated weight below and
/// at its time, hence set-semantic weight zero.
pub proof fn lemma_absent_set_weight_zero(c: Seq<Update>, row: Seq<Val>, t: u64)
    requires
        !appears(c, row, t),
    ensures
        weight_le(c, row, t) == weight_lt(c, row, t),
        set_weight(c, row, t) == 0,
    decreases c.len(),
{
    if c.len() > 0 {
        assert forall|j: int| 0 <= j < c.drop_last().len() implies !((#[trigger] c.drop_last()[j]).0
            == row && c.drop_last()[j].1 == t) by {
            assert(c[j] == c.drop_last()[j]);
        }
        lemma_absent_set_weight_zero(c.drop_last(), row, t);
        assert(c[c.len() - 1] == c.last());
        assert(!(c.last().0 == row && c.last().1 == t));
    }
}

/// Bound on accumulated weights: each update contributes at most one
/// `isize` worth of diff.
pub proof fn lemma_weight_le_bound(c: Seq<Update>, row: Seq<Val>, t: u64)
    ensures
        -(c.len() as int * 0x8000_0000_0000_0000) <= weight_le(c, row, t),
        weight_le(c, row, t) <= c.len() as int * 0x8000_0000_0000_0000,
        -(c.len() as int * 0x8000_0000_0000_0000) <= weight_lt(c, row, t),
        weight_lt(c, row, t) <= c.len() as int * 0x8000_0000_0000_0000,
    decreases c.len(),
{
    if c.len() > 0 {
        lemma_weight_le_bound(c.drop_last(), row, t);
    }
}

/// Sums the diffs of all updates of this row at times less than or
/// equal to `t` (when `strict` is set: strictly less than `t`).
fn sum_diffs(tuples: &Vec<Tuple>, row: &Vec<Value>, t: u64, strict: bool) -> (r: i128)
    ensures
        !strict ==> r == weight_le(tuples.deep_view(), row.deep_view(), t),
        strict ==> r == weight_lt(tuples.deep_view(), row.deep_view(), t),
{
    let ghost c = tuples.deep_view();
    let ghost rv = row.deep_view();
    let mut acc: i128 = 0;
    let mut j: usize = 0;
    while j < tuples.len()
        invariant
            j <= tuples@.len(),
            tuples@.len() == c.len(),
            c == tuples.deep_view(),
            rv == row.deep_view(),
            !strict ==> acc == weight_le(c.take(j as int), rv, t),
            strict ==> acc == weight_lt(c.take(j as int), rv, t),
        decreases tuples@.len() - j,
    {
        proof {
            lemma_weight_le_bound(c.take(j as int), rv, t);
            assert(c.take(j as int).len() <= usize::MAX);
            assert(c.take(j + 1).drop_last() =~= c.take(j as int));
            assert(c.take(j + 1).last() == c[j as int]);
        }
        let entry = &tuples[j];
        let in_time = if strict {
            entry.1 < t
        } else {
            entry.1 <= t
        };
        if in_time && row_eq(&entry.0, row) {
            acc = acc + (entry.2 as i128);
        }
        j = j + 1;
    }
    proof {
        assert(c.take(c.len() as int) =~= c);
    }
    acc
}

/// Whether some update before position `upto` carries this row and
/// time.
fn appears_before(tuples: &Vec<Tuple>, upto: usize, row: &Vec<Value>, t: u64) -> (r: bool)
    requires
        upto <= tuples@.len(),
    ensures
        r == appears(tuples.deep_view().take(upto as int), row.deep_view(), t),
{
    let ghost c = tuples.deep_view();
    let ghost rv = row.deep_view();
    let mut j: usize = 0;
    while j < upto
        invariant
            j <= upto <= tuples@.len(),
            tuples@.len() == c.len(),
            c == tuples.deep_view(),
            rv == row.deep_view(),
            !appears(c.take(j as int), rv, t),
        decreases upto - j,
    {
        proof {
            assert(c.take(j + 1) =~= c.take(j as int).push(c[j as int]));
            lemma_appears_push(c.take(j as int), c[j as int], rv, t);
        }
        let entry = &tuples[j];
        if entry.1 == t && row_eq(&entry.0, row) {
            proof {
                assert(c.take(upto as int)[j as int] == c[j as int]);
            }
            return true;
        }
        j = j + 1;
    }
    false
}

/// The set-semantic (distinct) reading of a batch: one update per
/// distinct `(row, time)` pair of the input, carrying the change in
/// presence of that row at that time.
pub fn distinct_tuples(tuples: &Vec<Tuple>) -> (r: Vec<Tuple>)
    ensures
        r.deep_view() == distinct_entries(tuples.deep_view()),
{
    let ghost c = tuples.deep_view();
    let mut out: Vec<Tuple> = Vec::new();
    let mut i: usize = 0;
    while i < tuples.len()
        invariant
            i <= tuples@.len(),
            tuples@.len() == c.len(),
            c == tuples.deep_view(),
            out.deep_view() == distinct_prefix(c, i as int),
        decreases tuples@.len() - i,
    {
        let entry_row = row_dup(&tuples[i].0);
        let t_i = tuples[i].1;
        proof {
            assert(entry_row.deep_view() == c[i as int].0);
        }
        if !appears_before(tuples, i, &entry_row, t_i) {
            let sle = sum_diffs(tuples, &entry_row, t_i, false);
            let slt = sum_diffs(tuples, &entry_row, t_i, true);
            let pos_le: isize = if sle > 0 {
                1
            } else {
                0
            };
            let pos_lt: isize = if slt > 0 {
                1
            } else {
                0
            };
            let d = pos_le - pos_lt;
            proof {
                assert(d as int == set_weight(c, c[i as int].0, c[i as int].1));
            }
            if d != 0 {
                let ghost prev = out.deep_view();
                let ghost pushed = (entry_row.deep_view(), t_i, d);
                out.push((entry_row, t_i, d));
                proof {
                    assert(out.deep_view() =~= prev.push(pushed));
                }
            }
        }
        i = i + 1;
    }
    out
}

/// The set-semantic reading is pointwise the change in presence:
/// its weight at every row and time is the set-semantic weight of
/// the input, and its rows all occur in the input.
pub proof fn lemma_distinct_prefix_weight(c: Seq<Update>, n: int, row: Seq<Val>, t: u64)
    requires
        0 <= n <= c.len(),
    ensures
        weight_at(distinct_prefix(c, n), row, t) == if appears(c.take(n), row, t) {
            set_weight(c, row, t)
        } else {
            0
        },
    decreases n,
{
    if n == 0 {
        assert(c.take(0) =~= Seq::<Update>::empty());
        assert(!appears(c.take(0), row, t));
    } else {
        lemma_distinct_prefix_weight(c, n - 1, row, t);
        assert(c.take(n) =~= c.take(n - 1).push(c[n - 1]));
        lemma_appears_push(c.take(n - 1), c[n - 1], row, t);
        let e = c[n - 1];
        let rest = distinct_prefix(c, n - 1);
        if first_occurrence(c, n - 1) && set_weight(c, e.0, e.1) != 0 {
            let pushed = (e.0, e.1, set_weight(c, e.0, e.1) as isize);
            assert(distinct_prefix(c, n) == rest.push(pushed));
            assert(distinct_prefix(c, n).drop_last() =~= rest);
            assert(distinct_prefix(c, n).last() == pushed);
        }
    }
}

/// Set-semantic weights of a whole batch.
pub proof fn lemma_distinct_weight(c: Seq<Update>, row: Seq<Val>, t: u64)
    ensures
        weight_at(distinct_entries(c), row, t) == set_weight(c, row, t),
{
    lemma_distinct_prefix_weight(c, c.len() as int, row, t);
    assert(c.take(c.len() as int) =~= c);
    if !appears(c, row, t) {
        lemma_absent_set_weight_zero(c, row, t);
    }
}

/// The distinct reading keeps row arity.
pub proof fn lemma_distinct_arity(c: Seq<Update>, n: int, arity: nat)
    requires
        rows_arity(c, arity),
        0 <= n <= c.len(),
    ensures
        rows_arity(distinct_prefix(c, n), arity),
    decreases n,
{
    if n > 0 {
        lemma_distinct_arity(c, n - 1, arity);
        let rest = distinct_prefix(c, n - 1);
        let e = c[n - 1];
        if first_occurrence(c, n - 1) && set_weight(c, e.0, e.1) != 0 {
            let pushed = (e.0, e.1, set_weight(c, e.0, e.1) as isize);
            assert forall|i: int| 0 <= i < rest.push(pushed).len() implies (#[trigger] rest.push(
                pushed,
            )[i]).0.len() == arity by {
                if i < rest.len() {
                    assert(rest.push(pushed)[i] == rest[i]);
                }
            }
        }
    }
}


/// The later of two timestamps.
pub open spec fn max_time(a: u64, b: u64) -> u64 {
    if a >= b {
        a
    } else {
        b
    }
}

/// Whether two updates agree on their join keys.
pub open spec fn key_matches(e: Update, f: Update, kl: Seq<usize>, kr: Seq<usize>) -> bool {
    project_row(e.0, kl) == project_row(f.0, kr)
}

/// The update produced by joining a matching pair: key columns, then
/// the left remainder, then the right remainder; the time is the
/// later of the two, the diff their product.
pub open spec fn join_update(e: Update, f: Update, kl: Seq<usize>, rl: Seq<usize>, rr: Seq<
    usize,
>) -> Update {
    (
        project_row(e.0, kl) + project_row(e.0, rl) + project_row(f.0, rr),
        max_time(e.1, f.1),
        (e.2 * f.2) as isize,
    )
}

/// All updates produced by joining one left update against a batch of
/// right updates.
pub open spec fn join_row_entries(
    e: Update,
    b: Seq<Update>,
    kl: Seq<usize>,
    rl: Seq<usize>,
    kr: Seq<usize>,
    rr: Seq<usize>,
) -> Seq<Update>
    decreases b.len(),
{
    if b.len() == 0 {
        Seq::empty()
    } else {
        let rest = join_row_entries(e, b.drop_last(), kl, rl, kr, rr);
        if key_matches(e, b.last(), kl, kr) {
            rest.push(join_update(e, b.last(), kl, rl, rr))
        } else {
            rest
        }
    }
}

/// The equijoin of two batches: every matching pair contributes one
/// update.
pub open spec fn join_entries(
    a: Seq<Update>,
    b: Seq<Update>,
    kl: Seq<usize>,
    rl: Seq<usize>,
    kr: Seq<usize>,
    rr: Seq<usize>,
) -> Seq<Update>
    decreases a.len(),
{
    if a.len() == 0 {
        Seq::empty()
    } else {
        join_entries(a.drop_last(), b, kl, rl, kr, rr) + join_row_entries(
            a.last(),
            b,
            kl,
            rl,
            kr,
            rr,
        )
    }
}

/// Concatenates three rows.
fn concat_rows(a: Vec<Value>, b: Vec<Value>, c: Vec<Value>) -> (r: Vec<Value>)
    ensures
        r.deep_view() == a.deep_view() + b.deep_view() + c.deep_view(),
{
    let ghost av = a.deep_view();
    let ghost bv = b.deep_view();
    let ghost cv = c.deep_view();
    let mut out = a;
    let mut rest_b = b;
    let mut rest_c = c;
    out.append(&mut rest_b);
    out.append(&mut rest_c);
    proof {
        assert(out.deep_view() =~= av + bv + cv);
    }
    out
}

/// Joins two batches by their key columns: the output schema is the
/// key columns, then the left remainder columns, then the right
/// remainder columns.
pub fn join_tuples(
    left: &Vec<Tuple>,
    right: &Vec<Tuple>,
    key_l: &Vec<usize>,
    rest_l: &Vec<usize>,
    key_r: &Vec<usize>,
    rest_r: &Vec<usize>,
) -> (r: Vec<Tuple>)
    requires
        forall|i: int, k: int|
            0 <= i < left.deep_view().len() && 0 <= k < key_l@.len() ==> (#[trigger] key_l@[k]) < (
            #[trigger] left.deep_view()[i]).0.len(),
        forall|i: int, k: int|
            0 <= i < left.deep_view().len() && 0 <= k < rest_l@.len() ==> (#[trigger] rest_l@[k])
                < (#[trigger] left.deep_view()[i]).0.len(),
        forall|i: int, k: int|
            0 <= i < right.deep_view().len() && 0 <= k < key_r@.len() ==> (#[trigger] key_r@[k]) < (
            #[trigger] right.deep_view()[i]).0.len(),
        forall|i: int, k: int|
            0 <= i < right.deep_view().len() && 0 <= k < rest_r@.len() ==> (#[trigger] rest_r@[k])
                < (#[trigger] right.deep_view()[i]).0.len(),
        forall|i: int, j: int|
            0 <= i < left.deep_view().len() && 0 <= j < right.deep_view().len() ==> isize::MIN <= (
            #[trigger] left.deep_view()[i]).2 * (#[trigger] right.deep_view()[j]).2 <= isize::MAX,
    ensures
        r.deep_view() == join_entries(
            left.deep_view(),
            right.deep_view(),
            key_l@,
            rest_l@,
            key_r@,
            rest_r@,
        ),
{
    let ghost la = left.deep_view();
    let ghost rb = right.deep_view();
    let mut out: Vec<Tuple> = Vec::new();
    let mut i: usize = 0;
    while i < left.len()
        invariant
            i <= left@.len(),
            left@.len() == la.len(),
            la == left.deep_view(),
            rb == right.deep_view(),
            right@.len() == rb.len(),
            forall|i2: int, k: int|
                0 <= i2 < la.len() && 0 <= k < key_l@.len() ==> (#[trigger] key_l@[k]) < (
                #[trigger] la[i2]).0.len(),
            forall|i2: int, k: int|
                0 <= i2 < la.len() && 0 <= k < rest_l@.len() ==> (#[trigger] rest_l@[k]) < (
                #[trigger] la[i2]).0.len(),
            forall|i2: int, k: int|
                0 <= i2 < rb.len() && 0 <= k < key_r@.len() ==> (#[trigger] key_r@[k]) < (
                #[trigger] rb[i2]).0.len(),
            forall|i2: int, k: int|
                0 <= i2 < rb.len() && 0 <= k < rest_r@.len() ==> (#[trigger] rest_r@[k]) < (
                #[trigger] rb[i2]).0.len(),
            forall|i2: int, j2: int|
                0 <= i2 < la.len() && 0 <= j2 < rb.len() ==> isize::MIN <= (#[trigger] la[i2]).2 * (
                #[trigger] rb[j2]).2 <= isize::MAX,
            out.deep_view() == join_entries(la.take(i as int), rb, key_l@, rest_l@, key_r@, rest_r@),
        decreases left@.len() - i,
    {
        let le_time = left[i].1;
        let le_diff = left[i].2;
        proof {
            assert(la[i as int].0 == left@[i as int].0.deep_view());
            assert(left@[i as int].0.deep_view().len() == left@[i as int].0@.len());
        }
        let lkey = project_one(&left[i].0, key_l);
        let mut j: usize = 0;
        while j < right.len()
            invariant
                i < left@.len(),
                j <= right@.len(),
                left@.len() == la.len(),
                la == left.deep_view(),
                rb == right.deep_view(),
                right@.len() == rb.len(),
                le_time == la[i as int].1,
                le_diff == la[i as int].2,
                lkey.deep_view() == project_row(la[i as int].0, key_l@),
                forall|i2: int, k: int|
                    0 <= i2 < la.len() && 0 <= k < key_l@.len() ==> (#[trigger] key_l@[k]) < (
                    #[trigger] la[i2]).0.len(),
                forall|i2: int, k: int|
                    0 <= i2 < la.len() && 0 <= k < rest_l@.len() ==> (#[trigger] rest_l@[k]) < (
                    #[trigger] la[i2]).0.len(),
                forall|i2: int, k: int|
                    0 <= i2 < rb.len() && 0 <= k < key_r@.len() ==> (#[trigger] key_r@[k]) < (
                    #[trigger] rb[i2]).0.len(),
                forall|i2: int, k: int|
                    0 <= i2 < rb.len() && 0 <= k < rest_r@.len() ==> (#[trigger] rest_r@[k]) < (
                    #[trigger] rb[i2]).0.len(),
                forall|i2: int, j2: int|
                    0 <= i2 < la.len() && 0 <= j2 < rb.len() ==> isize::MIN <= (
                    #[trigger] la[i2]).2 * (#[trigger] rb[j2]).2 <= isize::MAX,
                out.deep_view() == join_entries(
                    la.take(i as int),
                    rb,
                    key_l@,
                    rest_l@,
                    key_r@,
                    rest_r@,
                ) + join_row_entries(
                    la[i as int],
                    rb.take(j as int),
                    key_l@,
                    rest_l@,
                    key_r@,
                    rest_r@,
                ),
            decreases right@.len() - j,
        {
            proof {
                assert(rb.take(j + 1).drop_last() =~= rb.take(j as int));
                assert(rb.take(j + 1).last() == rb[j as int]);
            }
            proof {
                assert(rb[j as int].0 == right@[j as int].0.deep_view());
                assert(right@[j as int].0.deep_view().len() == right@[j as int].0@.len());
            }
            let rkey = project_one(&right[j].0, key_r);
            if row_eq(&lkey, &rkey) {
                let lrest = project_one(&left[i].0, rest_l);
                let rrest = project_one(&right[j].0, rest_r);
                let combined = concat_rows(row_dup(&lkey), lrest, rrest);
                let tm = if le_time >= right[j].1 {
                    le_time
                } else {
                    right[j].1
                };
                let d = le_diff * right[j].2;
                let ghost prev = out.deep_view();
                let ghost pushed = (combined.deep_view(), tm, d);
                out.push((combined, tm, d));
                proof {
                    assert(out.deep_view() =~= prev.push(pushed));
                    assert(pushed == join_update(
                        la[i as int],
                        rb[j as int],
                        key_l@,
                        rest_l@,
                        rest_r@,
                    ));
                }
            } else {
                proof {
                    assert(!key_matches(la[i as int], rb[j as int], key_l@, key_r@));
                }
            }
            j = j + 1;
        }
        proof {
            assert(rb.take(rb.len() as int) =~= rb);
            assert(la.take(i + 1).drop_last() =~= la.take(i as int));
            assert(la.take(i + 1).last() == la[i as int]);
        }
        i = i + 1;
    }
    proof {
        assert(la.take(la.len() as int) =~= la);
    }
    out
}

/// Projection fixes row arity at the number of chosen positions.
pub proof fn lemma_project_arity(c: Seq<Update>, idx: Seq<usize>)
    ensures
        rows_arity(project_entries(c, idx), idx.len() as nat),
{
    assert forall|i: int| 0 <= i < project_entries(c, idx).len() implies (#[trigger] project_entries(
        c,
        idx,
    )[i]).0.len() == idx.len() by {
        assert(project_entries(c, idx)[i] == project_update(c[i], idx));
    }
}

/// Negation keeps row arity.
pub proof fn lemma_negate_arity(c: Seq<Update>, n: nat)
    requires
        rows_arity(c, n),
    ensures
        rows_arity(negate_entries(c), n),
{
    assert forall|i: int| 0 <= i < negate_entries(c).len() implies (#[trigger] negate_entries(
        c,
    )[i]).0.len() == n by {
        assert(negate_entries(c)[i] == negate_update(c[i]));
    }
}

/// Concatenation keeps row arity.
pub proof fn lemma_concat_arity(a: Seq<Update>, b: Seq<Update>, n: nat)
    requires
        rows_arity(a, n),
        rows_arity(b, n),
    ensures
        rows_arity(a + b, n),
{
    assert forall|i: int| 0 <= i < (a + b).len() implies (#[trigger] (a + b)[i]).0.len() == n by {
        if i < a.len() {
            assert((a + b)[i] == a[i]);
        } else {
            assert((a + b)[i] == b[i - a.len()]);
        }
    }
}

/// Joining one update against a batch yields rows of the combined
/// arity.
pub proof fn lemma_join_row_arity(
    e: Update,
    b: Seq<Update>,
    kl: Seq<usize>,
    rl: Seq<usize>,
    kr: Seq<usize>,
    rr: Seq<usize>,
)
    ensures
        rows_arity(
            join_row_entries(e, b, kl, rl, kr, rr),
            (kl.len() + rl.len() + rr.len()) as nat,
        ),
    decreases b.len(),
{
    let n = (kl.len() + rl.len() + rr.len()) as nat;
    if b.len() > 0 {
        lemma_join_row_arity(e, b.drop_last(), kl, rl, kr, rr);
        let rest = join_row_entries(e, b.drop_last(), kl, rl, kr, rr);
        if key_matches(e, b.last(), kl, kr) {
            let pushed = join_update(e, b.last(), kl, rl, rr);
            assert(pushed.0.len() == n);
            assert forall|i: int| 0 <= i < rest.push(pushed).len() implies (#[trigger] rest.push(
                pushed,
            )[i]).0.len() == n by {
                if i < rest.len() {
                    assert(rest.push(pushed)[i] == rest[i]);
                }
            }
        }
    }
}

/// Joined batches carry rows of the combined arity.
pub proof fn lemma_join_arity(
    a: Seq<Update>,
    b: Seq<Update>,
    kl: Seq<usize>,
    rl: Seq<usize>,
    kr: Seq<usize>,
    rr: Seq<usize>,
)
    ensures
        rows_arity(join_entries(a, b, kl, rl, kr, rr), (kl.len() + rl.len() + rr.len()) as nat),
    decreases a.len(),
{
    let n = (kl.len() + rl.len() + rr.len()) as nat;
    if a.len() > 0 {
        lemma_join_arity(a.drop_last(), b, kl, rl, kr, rr);
        lemma_join_row_arity(a.last(), b, kl, rl, kr, rr);
        lemma_concat_arity(
            join_entries(a.drop_last(), b, kl, rl, kr, rr),
            join_row_entries(a.last(), b, kl, rl, kr, rr),
            n,
        );
    }
}

/// The distinct reading of a whole batch keeps row arity.
pub proof fn lemma_distinct_entries_arity(c: Seq<Update>, arity: nat)
    requires
        rows_arity(c, arity),
    ensures
        rows_arity(distinct_entries(c), arity),
{
    lemma_distinct_arity(c, c.len() as int, arity);
}

} // verus!
