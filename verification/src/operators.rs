//! Stateful per-key overwrite semantics: each new datum retracts the
//! previously observed one, so at most one value per entity is ever
//! present downstream.

use vstd::prelude::*;

verus! {

use crate::collection::Diff;
use crate::relation::{PairTuple, PairUpdate};
use crate::value::{Val, Value};

/// One per-key event: a value, a time, and a diff.
pub type Event = (Value, u64, Diff);

/// The abstraction of one per-key event.
pub type EventModel = (Val, u64, Diff);

/// Events sorted by ascending time.
pub open spec fn sorted_by_time(s: Seq<EventModel>) -> bool {
    forall|i: int, j: int| 0 <= i < j < s.len() ==> (#[trigger] s[i]).1 <= (#[trigger] s[j]).1
}

/// Stable insertion of one event into a time-sorted run: it lands
/// after every event of its own or an earlier time.
pub open spec fn insert_sorted(sorted: Seq<EventModel>, e: EventModel) -> Seq<EventModel>
    decreases sorted.len(),
{
    if sorted.len() == 0 {
        seq![e]
    } else if sorted.last().1 <= e.1 {
        sorted.push(e)
    } else {
        insert_sorted(sorted.drop_last(), e).push(sorted.last())
    }
}

/// Stable sort of events by ascending time.
pub open spec fn sort_by_time(s: Seq<EventModel>) -> Seq<EventModel>
    decreases s.len(),
{
    if s.len() == 0 {
        Seq::empty()
    } else {
        insert_sorted(sort_by_time(s.drop_last()), s.last())
    }
}

/// One transition of the per-key state machine.  With no value
/// present a positive diff installs the new value; with a value
/// present a positive diff retracts it and installs the new one, and
/// a retraction clears the state.
pub open spec fn co_step(state: Option<Val>, v: Val, t: u64, diff: Diff) -> (
    Seq<EventModel>,
    Option<Val>,
) {
    match state {
        None => (seq![(v, t, 1isize)], Some(v)),
        Some(old_v) => if diff > 0 {
            (seq![(old_v, t, (-1) as isize), (v, t, 1isize)], Some(v))
        } else {
            (seq![(old_v, t, (-1) as isize)], None)
        },
    }
}

/// The run of the per-key state machine over a sequence of events:
/// the emitted updates and the final state.
pub open spec fn co_run(events: Seq<EventModel>) -> (Seq<EventModel>, Option<Val>)
    decreases events.len(),
{
    if events.len() == 0 {
        (Seq::empty(), None)
    } else {
        let prev = co_run(events.drop_last());
        let stepped = co_step(prev.1, events.last().0, events.last().1, events.last().2);
        (prev.0 + stepped.0, stepped.1)
    }
}

/// No retraction ever reaches a key with no present value.
pub open spec fn co_valid(events: Seq<EventModel>) -> bool
    decreases events.len(),
{
    if events.len() == 0 {
        true
    } else {
        co_valid(events.drop_last()) && !(co_run(events.drop_last()).1 is None
            && events.last().2 <= 0)
    }
}

/// The consolidated count of one value in an update sequence.
pub open spec fn value_total(out: Seq<EventModel>, v: Val) -> int
    decreases out.len(),
{
    if out.len() == 0 {
        0
    } else {
        value_total(out.drop_last(), v) + if out.last().0 == v {
            out.last().2 as int
        } else {
            0
        }
    }
}

/// Totals distribute over concatenation.
proof fn lemma_value_total_concat(a: Seq<EventModel>, b: Seq<EventModel>, v: Val)
    ensures
        value_total(a + b, v) == value_total(a, v) + value_total(b, v),
    decreases b.len(),
{
    if b.len() == 0 {
        assert(a + b =~= a);
    } else {
        lemma_value_total_concat(a, b.drop_last(), v);
        assert((a + b).drop_last() =~= a + b.drop_last());
        assert((a + b).last() == b.last());
    }
}

/// CardinalityOne uniqueness: after any valid event sequence the
/// consolidated output of the state machine holds exactly one value
/// with count one when a value is present — that is, when at least
/// one insertion has been applied and not yet retracted — and no
/// value at all otherwise.
pub proof fn lemma_cardinality_one_unique(events: Seq<EventModel>)
    requires
        co_valid(events),
    ensures
        match co_run(events).1 {
            Some(v) => value_total(co_run(events).0, v) == 1 && forall|w: Val|
                w != v ==> value_total(co_run(events).0, w) == 0,
            None => forall|w: Val| value_total(co_run(events).0, w) == 0,
        },
    decreases events.len(),
{
    if events.len() > 0 {
        reveal_with_fuel(value_total, 4);
        lemma_cardinality_one_unique(events.drop_last());
        let prev = co_run(events.drop_last());
        let stepped = co_step(prev.1, events.last().0, events.last().1, events.last().2);
        assert forall|w: Val| true implies value_total(prev.0 + stepped.0, w) == value_total(
            prev.0,
            w,
        ) + value_total(stepped.0, w) by {
            lemma_value_total_concat(prev.0, stepped.0, w);
        }
        match prev.1 {
            None => {
                let v = events.last().0;
                assert(stepped.0 =~= seq![(v, events.last().1, 1isize)]);
                assert(stepped.0.drop_last() =~= Seq::<EventModel>::empty());
                assert(value_total(stepped.0, v) == 1);
            },
            Some(old_v) => {
                let v = events.last().0;
                let t = events.last().1;
                if events.last().2 > 0 {
                    assert(stepped.0 =~= seq![(old_v, t, (-1) as isize)].push((v, t, 1isize)));
                    assert(stepped.0.drop_last() =~= seq![(old_v, t, (-1) as isize)]);
                    assert(seq![(old_v, t, (-1) as isize)].drop_last() =~= Seq::<
                        EventModel,
                    >::empty());
                } else {
                    assert(stepped.0 =~= seq![(old_v, t, (-1) as isize)]);
                    assert(stepped.0.drop_last() =~= Seq::<EventModel>::empty());
                }
            },
        }
    }
}

/// Stable insertion keeps a run sorted.
proof fn lemma_insert_sorted(sorted: Seq<EventModel>, e: EventModel)
    requires
        sorted_by_time(sorted),
    ensures
        sorted_by_time(insert_sorted(sorted, e)),
        insert_sorted(sorted, e).len() == sorted.len() + 1,
    decreases sorted.len(),
{
    if sorted.len() == 0 {
    } else if sorted.last().1 <= e.1 {
        let out = sorted.push(e);
        assert forall|i: int, j: int| 0 <= i < j < out.len() implies (#[trigger] out[i]).1 <= (
        #[trigger] out[j]).1 by {
            if j < sorted.len() {
                assert(out[i] == sorted[i] && out[j] == sorted[j]);
            } else {
                if i < sorted.len() {
                    assert(out[i] == sorted[i]);
                    assert(sorted[i].1 <= sorted.last().1);
                }
            }
        }
    } else {
        assert forall|i: int, j: int|
            0 <= i < j < sorted.drop_last().len() implies (#[trigger] sorted.drop_last()[i]).1 <= (
        #[trigger] sorted.drop_last()[j]).1 by {
            assert(sorted.drop_last()[i] == sorted[i]);
            assert(sorted.drop_last()[j] == sorted[j]);
        }
        lemma_insert_sorted(sorted.drop_last(), e);
        let inner = insert_sorted(sorted.drop_last(), e);
        let out = inner.push(sorted.last());
        assert forall|i: int, j: int| 0 <= i < j < out.len() implies (#[trigger] out[i]).1 <= (
        #[trigger] out[j]).1 by {
            if j < inner.len() {
                assert(out[i] == inner[i] && out[j] == inner[j]);
            } else {
                assert(out[j] == sorted.last());
                if i < inner.len() {
                    assert(out[i] == inner[i]);
                    assert forall|k: int|
                        0 <= k < sorted.drop_last().len() implies (#[trigger] sorted.drop_last(
                    )[k]).1 <= sorted.last().1 by {
                        assert(sorted.drop_last()[k] == sorted[k]);
                    }
                    lemma_insert_sorted_bound(sorted.drop_last(), e, sorted.last().1);
                }
            }
        }
    }
}

/// Insertion keeps every event at or below a common time bound.
proof fn lemma_insert_sorted_bound(sorted: Seq<EventModel>, e: EventModel, bound: u64)
    requires
        e.1 <= bound,
        forall|k: int| 0 <= k < sorted.len() ==> (#[trigger] sorted[k]).1 <= bound,
    ensures
        forall|i: int|
            0 <= i < insert_sorted(sorted, e).len() ==> (#[trigger] insert_sorted(sorted, e)[i]).1
                <= bound,
    decreases sorted.len(),
{
    if sorted.len() == 0 {
    } else if sorted.last().1 <= e.1 {
        let out = sorted.push(e);
        assert forall|i: int| 0 <= i < out.len() implies (#[trigger] out[i]).1 <= bound by {
            if i < sorted.len() {
                assert(out[i] == sorted[i]);
            }
        }
    } else {
        assert forall|k: int|
            0 <= k < sorted.drop_last().len() implies (#[trigger] sorted.drop_last()[k]).1
            <= bound by {
            assert(sorted.drop_last()[k] == sorted[k]);
        }
        lemma_insert_sorted_bound(sorted.drop_last(), e, bound);
        let inner = insert_sorted(sorted.drop_last(), e);
        let out = inner.push(sorted.last());
        assert forall|i: int| 0 <= i < out.len() implies (#[trigger] out[i]).1 <= bound by {
            if i < inner.len() {
                assert(out[i] == inner[i]);
            }
        }
    }
}

/// Sorts events by ascending time, stably.
fn sort_events(events: Vec<Event>) -> (r: Vec<Event>)
    ensures
        r.deep_view() == sort_by_time(events.deep_view()),
{
    let ghost evs = events.deep_view();
    let mut out: Vec<Event> = Vec::new();
    let mut input = events;
    let mut i: usize = 0;
    while i < input.len()
        invariant
            i <= input@.len(),
            input.deep_view() == evs,
            input@.len() == evs.len(),
            out.deep_view() == sort_by_time(evs.take(i as int)),
        decreases input@.len() - i,
    {
        proof {
            assert(evs.take(i + 1).drop_last() =~= evs.take(i as int));
            assert(evs.take(i + 1).last() == evs[i as int]);
        }
        let e = (input[i].0.duplicate(), input[i].1, input[i].2);
        proof {
            assert(e.deep_view() == evs[i as int]);
        }
        // stable insertion from the back
        let mut j: usize = out.len();
        while j > 0 && out[j - 1].1 > e.1
            invariant
                j <= out@.len(),
                forall|k: int| j <= k < out@.len() ==> (#[trigger] out.deep_view()[k]).1 > e.1,
            decreases j,
        {
            j = j - 1;
        }
        let ghost sorted_prev = out.deep_view();
        out.insert(j, e);
        proof {
            lemma_insert_at_is_insert_sorted(sorted_prev, e.deep_view(), j as int);
            assert(out.deep_view() =~= sorted_prev.insert(j as int, e.deep_view()));
        }
        i = i + 1;
    }
    proof {
        assert(evs.take(evs.len() as int) =~= evs);
    }
    out
}

/// Inserting before the run of strictly-later events is exactly the
/// stable insertion.
proof fn lemma_insert_at_is_insert_sorted(sorted: Seq<EventModel>, e: EventModel, j: int)
    requires
        0 <= j <= sorted.len(),
        forall|k: int| j <= k < sorted.len() ==> (#[trigger] sorted[k]).1 > e.1,
        j > 0 ==> sorted[j - 1].1 <= e.1,
    ensures
        sorted.insert(j, e) == insert_sorted(sorted, e),
    decreases sorted.len(),
{
    if sorted.len() == 0 {
        assert(sorted.insert(0, e) =~= seq![e]);
    } else if sorted.last().1 <= e.1 {
        assert(j == sorted.len());
        assert(sorted.insert(j, e) =~= sorted.push(e));
    } else {
        lemma_insert_at_is_insert_sorted(sorted.drop_last(), e, j);
        assert(sorted.insert(j, e) =~= insert_sorted(sorted.drop_last(), e).push(sorted.last()));
    }
}

/// The events of one key, in input order: each pair keyed by the
/// entity, projected to its value.
pub open spec fn gather_prefix(c: Seq<PairUpdate>, key: Val, n: int) -> Seq<EventModel>
    decreases n,
{
    if n <= 0 {
        Seq::empty()
    } else {
        let rest = gather_prefix(c, key, n - 1);
        if c[n - 1].0.0 == key {
            rest.push((c[n - 1].0.1, c[n - 1].1, c[n - 1].2))
        } else {
            rest
        }
    }
}

/// All events of one key, in input order.
pub open spec fn gather(c: Seq<PairUpdate>, key: Val) -> Seq<EventModel> {
    gather_prefix(c, key, c.len() as int)
}

/// Whether a key stands in a key list.
pub open spec fn key_in(keys: Seq<Val>, key: Val) -> bool {
    exists|i: int| 0 <= i < keys.len() && keys[i] == key
}

/// The keys of a batch, in order of first appearance.
pub open spec fn keys_prefix(c: Seq<PairUpdate>, n: int) -> Seq<Val>
    decreases n,
{
    if n <= 0 {
        Seq::empty()
    } else {
        let rest = keys_prefix(c, n - 1);
        if key_in(rest, c[n - 1].0.0) {
            rest
        } else {
            rest.push(c[n - 1].0.0)
        }
    }
}

/// The keys of a batch, in order of first appearance.
pub open spec fn key_list(c: Seq<PairUpdate>) -> Seq<Val> {
    keys_prefix(c, c.len() as int)
}

/// Pairs each emitted value back up with its key.
pub open spec fn pair_up(key: Val, out: Seq<EventModel>) -> Seq<PairUpdate> {
    Seq::new(out.len(), |i: int| ((key, out[i].0), out[i].1, out[i].2))
}

/// The per-key outputs for a list of keys, in order.
pub open spec fn co_out_keys(c: Seq<PairUpdate>, keys: Seq<Val>) -> Seq<PairUpdate>
    decreases keys.len(),
{
    if keys.len() == 0 {
        Seq::empty()
    } else {
        co_out_keys(c, keys.drop_last()) + pair_up(
            keys.last(),
            co_run(sort_by_time(gather(c, keys.last()))).0,
        )
    }
}

/// The whole overwrite reading of a batch: for each entity, in order
/// of first appearance, the state machine's output over that
/// entity's time-sorted events.
pub open spec fn cardinality_one_entries(c: Seq<PairUpdate>) -> Seq<PairUpdate> {
    co_out_keys(c, key_list(c))
}

/// The input never retracts an entity with no present value, however
/// its updates are interleaved.
pub open spec fn co_input_valid(c: Seq<PairUpdate>) -> bool {
    forall|key: Val| co_valid(sort_by_time(#[trigger] gather(c, key)))
}

/// Whether the vector holds a value whose abstraction is that key.
fn contains_key(keys: &Vec<Value>, key: &Value) -> (r: bool)
    ensures
        r == key_in(keys.deep_view(), key@),
{
    let mut i: usize = 0;
    while i < keys.len()
        invariant
            i <= keys@.len(),
            forall|j: int| 0 <= j < i ==> keys.deep_view()[j] != key@,
        decreases keys@.len() - i,
    {
        if keys[i].eqv(key) {
            proof {
                assert(keys.deep_view()[i as int] == key@);
            }
            return true;
        }
        i = i + 1;
    }
    false
}

/// The consolidated count of one `(key, value)` pair in a batch of
/// updates.
pub open spec fn pair_total(out: Seq<PairUpdate>, key: Val, v: Val) -> int
    decreases out.len(),
{
    if out.len() == 0 {
        0
    } else {
        pair_total(out.drop_last(), key, v) + if out.last().0 == (key, v) {
            out.last().2 as int
        } else {
            0
        }
    }
}

/// Pair totals distribute over concatenation.
proof fn lemma_pair_total_concat(a: Seq<PairUpdate>, b: Seq<PairUpdate>, key: Val, v: Val)
    ensures
        pair_total(a + b, key, v) == pair_total(a, key, v) + pair_total(b, key, v),
    decreases b.len(),
{
    if b.len() == 0 {
        assert(a + b =~= a);
    } else {
        lemma_pair_total_concat(a, b.drop_last(), key, v);
        assert((a + b).drop_last() =~= a + b.drop_last());
        assert((a + b).last() == b.last());
    }
}

/// A paired-up segment contributes its per-key totals under its own
/// key, and nothing under any other key.
proof fn lemma_pair_up_total(k: Val, evs: Seq<EventModel>, key: Val, v: Val)
    ensures
        pair_total(pair_up(k, evs), key, v) == if k == key {
            value_total(evs, v)
        } else {
            0
        },
    decreases evs.len(),
{
    if evs.len() > 0 {
        lemma_pair_up_total(k, evs.drop_last(), key, v);
        assert(pair_up(k, evs).drop_last() =~= pair_up(k, evs.drop_last()));
        assert(pair_up(k, evs).last() == ((k, evs.last().0), evs.last().1, evs.last().2));
    } else {
        assert(pair_up(k, evs) =~= Seq::<PairUpdate>::empty());
    }
}

/// A key that never appears gathers no events.
proof fn lemma_gather_absent(c: Seq<PairUpdate>, key: Val, n: int)
    requires
        0 <= n <= c.len(),
        forall|i: int| 0 <= i < c.len() ==> (#[trigger] c[i]).0.0 != key,
    ensures
        gather_prefix(c, key, n) == Seq::<EventModel>::empty(),
    decreases n,
{
    if n > 0 {
        lemma_gather_absent(c, key, n - 1);
    }
}

/// The key list holds exactly the keys that appear.
proof fn lemma_keys_prefix_complete(c: Seq<PairUpdate>, n: int, key: Val)
    requires
        0 <= n <= c.len(),
    ensures
        key_in(keys_prefix(c, n), key) <==> exists|i: int|
            0 <= i < n && (#[trigger] c[i]).0.0 == key,
    decreases n,
{
    if n > 0 {
        lemma_keys_prefix_complete(c, n - 1, key);
        let rest = keys_prefix(c, n - 1);
        if key_in(rest, c[n - 1].0.0) {
            if c[n - 1].0.0 == key {
                assert(key_in(keys_prefix(c, n), key));
            }
        } else {
            let out = rest.push(c[n - 1].0.0);
            if key_in(out, key) {
                let i = choose|i: int| 0 <= i < out.len() && out[i] == key;
                if i < rest.len() {
                    assert(key_in(rest, key));
                }
            }
            if key_in(rest, key) {
                let i = choose|i: int| 0 <= i < rest.len() && rest[i] == key;
                assert(out[i] == key);
            }
            if c[n - 1].0.0 == key {
                assert(out[rest.len() as int] == key);
            }
        }
    }
}

/// The key list never repeats a key.
proof fn lemma_keys_prefix_unique(c: Seq<PairUpdate>, n: int)
    requires
        0 <= n <= c.len(),
    ensures
        forall|i: int, j: int|
            0 <= i < j < keys_prefix(c, n).len() ==> (#[trigger] keys_prefix(c, n)[i]) != (
            #[trigger] keys_prefix(c, n)[j]),
    decreases n,
{
    if n > 0 {
        lemma_keys_prefix_unique(c, n - 1);
        let rest = keys_prefix(c, n - 1);
        if !key_in(rest, c[n - 1].0.0) {
            let out = rest.push(c[n - 1].0.0);
            assert forall|i: int, j: int| 0 <= i < j < out.len() implies (#[trigger] out[i]) != (
            #[trigger] out[j]) by {
                if j < rest.len() {
                    assert(out[i] == rest[i] && out[j] == rest[j]);
                } else {
                    assert(out[i] == rest[i]);
                    if out[i] == out[j] {
                        assert(key_in(rest, c[n - 1].0.0));
                    }
                }
            }
        }
    }
}

/// Per-key totals of the per-key outputs: the segment of the asked
/// key contributes its machine totals, every other segment nothing.
proof fn lemma_co_out_keys_total(c: Seq<PairUpdate>, keys: Seq<Val>, key: Val, v: Val)
    requires
        forall|i: int, j: int|
            0 <= i < j < keys.len() ==> (#[trigger] keys[i]) != (#[trigger] keys[j]),
    ensures
        pair_total(co_out_keys(c, keys), key, v) == if key_in(keys, key) {
            value_total(co_run(sort_by_time(gather(c, key))).0, v)
        } else {
            0
        },
    decreases keys.len(),
{
    if keys.len() == 0 {
    } else {
        assert forall|i: int, j: int|
            0 <= i < j < keys.drop_last().len() implies (#[trigger] keys.drop_last()[i]) != (
        #[trigger] keys.drop_last()[j]) by {
            assert(keys.drop_last()[i] == keys[i]);
            assert(keys.drop_last()[j] == keys[j]);
        }
        lemma_co_out_keys_total(c, keys.drop_last(), key, v);
        lemma_pair_total_concat(
            co_out_keys(c, keys.drop_last()),
            pair_up(keys.last(), co_run(sort_by_time(gather(c, keys.last()))).0),
            key,
            v,
        );
        lemma_pair_up_total(keys.last(), co_run(sort_by_time(gather(c, keys.last()))).0, key, v);
        if key_in(keys.drop_last(), key) {
            let i = choose|i: int| 0 <= i < keys.drop_last().len() && keys.drop_last()[i] == key;
            assert(keys[i] == key);
            assert(keys.last() != key);
            assert(key_in(keys, key));
        } else if keys.last() == key {
            assert(keys[keys.len() - 1] == key);
            assert(key_in(keys, key));
        } else {
            if key_in(keys, key) {
                let i = choose|i: int| 0 <= i < keys.len() && keys[i] == key;
                if i < keys.len() - 1 {
                    assert(keys.drop_last()[i] == key);
                }
            }
        }
    }
}

/// CardinalityOne uniqueness over whole batches: for every entity,
/// the consolidated output of the overwrite reading holds exactly
/// one value with count one when the entity's time-sorted events end
/// with a value present — at least one insertion, not yet retracted
/// — and no value at all otherwise.
pub proof fn lemma_cardinality_one_batch_unique(c: Seq<PairUpdate>, key: Val)
    requires
        co_valid(sort_by_time(gather(c, key))),
    ensures
        match co_run(sort_by_time(gather(c, key))).1 {
            Some(v) => pair_total(cardinality_one_entries(c), key, v) == 1 && forall|w: Val|
                w != v ==> pair_total(cardinality_one_entries(c), key, w) == 0,
            None => forall|w: Val| pair_total(cardinality_one_entries(c), key, w) == 0,
        },
{
    lemma_keys_prefix_unique(c, c.len() as int);
    lemma_cardinality_one_unique(sort_by_time(gather(c, key)));
    assert forall|w: Val| true implies pair_total(cardinality_one_entries(c), key, w) == if key_in(
        key_list(c),
        key,
    ) {
        value_total(co_run(sort_by_time(gather(c, key))).0, w)
    } else {
        0
    } by {
        lemma_co_out_keys_total(c, key_list(c), key, w);
    }
    if !key_in(key_list(c), key) {
        lemma_keys_prefix_complete(c, c.len() as int, key);
        assert forall|i: int| 0 <= i < c.len() implies (#[trigger] c[i]).0.0 != key by {
            if c[i].0.0 == key {
                assert(exists|j: int| 0 <= j < c.len() && (#[trigger] c[j]).0.0 == key);
            }
        }
        lemma_gather_absent(c, key, c.len() as int);
        assert(gather(c, key) == Seq::<EventModel>::empty());
        assert(sort_by_time(gather(c, key)) == Seq::<EventModel>::empty());
    }
}

/// Pairing distributes over concatenation.
proof fn lemma_pair_up_concat(key: Val, a: Seq<EventModel>, b: Seq<EventModel>)
    ensures
        pair_up(key, a + b) == pair_up(key, a) + pair_up(key, b),
{
    assert(pair_up(key, a + b) =~= pair_up(key, a) + pair_up(key, b));
}

/// Runs the per-key state machine over one entity's time-sorted
/// events.
fn co_run_exec(key: &Value, events: &Vec<Event>) -> (r: Vec<PairTuple>)
    ensures
        r.deep_view() == pair_up(key@, co_run(events.deep_view()).0),
{
    let ghost evs = events.deep_view();
    let mut out: Vec<PairTuple> = Vec::new();
    let mut state: Option<Value> = None;
    let mut i: usize = 0;
    while i < events.len()
        invariant
            i <= events@.len(),
            events@.len() == evs.len(),
            evs == events.deep_view(),
            match state {
                Some(v) => co_run(evs.take(i as int)).1 == Some(v@),
                None => co_run(evs.take(i as int)).1 is None,
            },
            out.deep_view() == pair_up(key@, co_run(evs.take(i as int)).0),
        decreases events@.len() - i,
    {
        proof {
            assert(evs.take(i + 1).drop_last() =~= evs.take(i as int));
            assert(evs.take(i + 1).last() == evs[i as int]);
        }
        let v = events[i].0.duplicate();
        let t = events[i].1;
        let diff = events[i].2;
        let ghost prev_out = out.deep_view();
        let ghost prev_run = co_run(evs.take(i as int));
        let ghost stepped = co_step(prev_run.1, evs[i as int].0, evs[i as int].1, evs[i as int].2);
        proof {
            assert(v@ == evs[i as int].0);
            assert(co_run(evs.take(i + 1)).0 == prev_run.0 + stepped.0);
            lemma_pair_up_concat(key@, prev_run.0, stepped.0);
        }
        match state {
            None => {
                out.push(((key.duplicate(), v.duplicate()), t, 1));
                state = Some(v);
                proof {
                    assert(stepped.0 =~= seq![(evs[i as int].0, t, 1isize)]);
                    assert(out.deep_view() =~= prev_out.push(((key@, evs[i as int].0), t, 1isize)));
                    assert(pair_up(key@, stepped.0) =~= seq![((key@, evs[i as int].0), t, 1isize)]);
                    assert(out.deep_view() =~= pair_up(key@, co_run(evs.take(i + 1)).0));
                }
            },
            Some(old_v) => {
                let ghost ov = old_v@;
                if diff > 0 {
                    out.push(((key.duplicate(), old_v.duplicate()), t, -1));
                    out.push(((key.duplicate(), v.duplicate()), t, 1));
                    state = Some(v);
                    proof {
                        assert(stepped.0 =~= seq![(ov, t, (-1) as isize), (evs[i as int].0, t, 1isize)]);
                        assert(out.deep_view() =~= prev_out.push(((key@, ov), t, (-1) as isize)).push(
                            ((key@, evs[i as int].0), t, 1isize),
                        ));
                        assert(pair_up(key@, stepped.0) =~= seq![
                            ((key@, ov), t, (-1) as isize),
                            ((key@, evs[i as int].0), t, 1isize),
                        ]);
                        assert(out.deep_view() =~= pair_up(key@, co_run(evs.take(i + 1)).0));
                    }
                } else {
                    out.push(((key.duplicate(), old_v.duplicate()), t, -1));
                    state = None;
                    proof {
                        assert(stepped.0 =~= seq![(ov, t, (-1) as isize)]);
                        assert(out.deep_view() =~= prev_out.push(((key@, ov), t, (-1) as isize)));
                        assert(pair_up(key@, stepped.0) =~= seq![((key@, ov), t, (-1) as isize)]);
                        assert(out.deep_view() =~= pair_up(key@, co_run(evs.take(i + 1)).0));
                    }
                }
            },
        }
        i = i + 1;
    }
    proof {
        assert(evs.take(evs.len() as int) =~= evs);
    }
    out
}

/// Provides the `cardinality_one` method.
pub trait CardinalityOne {
    /// The abstraction of the updates the operator reads.
    spec fn updates_model(&self) -> Seq<PairUpdate>;

    /// Ensures that only a single value per entity exists within an
    /// attribute, by retracting any previous value upon a new
    /// update. The input carries explicit retractions only for
    /// present values.
    fn cardinality_one(&self) -> (r: Vec<PairTuple>)
        ensures
            r.deep_view() == cardinality_one_entries(self.updates_model()),
    ;
}

impl CardinalityOne for Vec<PairTuple> {
    open spec fn updates_model(&self) -> Seq<PairUpdate> {
        self.deep_view()
    }

    fn cardinality_one(&self) -> (r: Vec<PairTuple>) {
        overwrite_updates(self)
    }
}

/// Runs the per-entity overwrite reading of a whole batch.
fn overwrite_updates(input: &Vec<PairTuple>) -> (r: Vec<PairTuple>)
    ensures
        r.deep_view() == cardinality_one_entries(input.deep_view()),
{
    let ghost c = input.deep_view();
    // keys in order of first appearance
    let mut keys: Vec<Value> = Vec::new();
    let mut i: usize = 0;
    while i < input.len()
        invariant
            i <= input@.len(),
            input@.len() == c.len(),
            c == input.deep_view(),
            keys.deep_view() == keys_prefix(c, i as int),
        decreases input@.len() - i,
    {
        let k = &input[i].0.0;
        proof {
            assert(k@ == c[i as int].0.0);
        }
        if !contains_key(&keys, k) {
            let ghost prev = keys.deep_view();
            keys.push(k.duplicate());
            proof {
                assert(keys.deep_view() =~= prev.push(c[i as int].0.0));
            }
        }
        i = i + 1;
    }
    proof {
        assert(c.take(c.len() as int) =~= c);
    }
    // per key: gather, sort, run
    let mut out: Vec<PairTuple> = Vec::new();
    let mut k: usize = 0;
    while k < keys.len()
        invariant
            k <= keys@.len(),
            c == input.deep_view(),
            input@.len() == c.len(),
            keys.deep_view() == key_list(c),
            out.deep_view() == co_out_keys(c, key_list(c).take(k as int)),
        decreases keys@.len() - k,
    {
        proof {
            assert(key_list(c).take(k + 1).drop_last() =~= key_list(c).take(k as int));
            assert(key_list(c).take(k + 1).last() == key_list(c)[k as int]);
        }
        let key = &keys[k];
        proof {
            assert(key@ == key_list(c)[k as int]);
        }
        let mut events: Vec<Event> = Vec::new();
        let mut j: usize = 0;
        while j < input.len()
            invariant
                j <= input@.len(),
                input@.len() == c.len(),
                c == input.deep_view(),
                key@ == key_list(c)[k as int],
                k < keys@.len(),
                events.deep_view() == gather_prefix(c, key@, j as int),
            decreases input@.len() - j,
        {
            let entry = &input[j];
            if entry.0.0.eqv(key) {
                let ghost prev = events.deep_view();
                events.push((entry.0.1.duplicate(), entry.1, entry.2));
                proof {
                    assert(events.deep_view() =~= prev.push(
                        (c[j as int].0.1, c[j as int].1, c[j as int].2),
                    ));
                }
            }
            j = j + 1;
        }
        proof {
            assert(gather_prefix(c, key@, c.len() as int) == gather(c, key@));
        }
        let sorted = sort_events(events);
        let key_out = co_run_exec(key, &sorted);
        out = concat_pairs(out, key_out);
        k = k + 1;
    }
    proof {
        assert(key_list(c).take(key_list(c).len() as int) =~= key_list(c));
    }
    out
}

/// Concatenates two pair batches.
fn concat_pairs(left: Vec<PairTuple>, right: Vec<PairTuple>) -> (r: Vec<PairTuple>)
    ensures
        r.deep_view() == left.deep_view() + right.deep_view(),
{
    let ghost lv = left.deep_view();
    let ghost rv = right.deep_view();
    let mut out = left;
    let mut rest = right;
    out.append(&mut rest);
    proof {
        assert(out.deep_view() =~= lv + rv);
    }
    out
}

} // verus!
