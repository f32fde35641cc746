//! The carrier dichotomy: a compiled plan is either an attribute
//! binding (not yet materialised) or a materialised collection of
//! tuples.

use vstd::prelude::*;

verus! {

use crate::Var;
use crate::collection::{key_matches, join_update, join_row_entries, join_entries};
use crate::binding::AttributeBinding;
use crate::collection::{Diff, Tuple, Update, rows_arity};
use crate::value::{Val, Value, row_dup};

/// One update of an attribute's `(entity, value)` pairs.
pub type PairTuple = ((Value, Value), u64, Diff);

/// The abstraction of one attribute update.
pub type PairUpdate = ((Val, Val), u64, Diff);

/// A materialised, timestamped, multiset-differenced stream of
/// tuples whose positional schema is `variables`.
pub struct CollectionRelation {
    /// The positional schema.
    pub variables: Vec<Var>,
    /// The materialised updates.
    pub tuples: Vec<Tuple>,
}

impl CollectionRelation {
    /// Schema well-formedness: every row has the arity of the
    /// variable list.
    pub open spec fn wf(self) -> bool {
        rows_arity(self.tuples.deep_view(), self.variables@.len() as nat)
    }
}

/// The abstraction of an [`Implemented`] carrier.
pub enum ImpModel {
    /// An attribute binding: its variables and source attribute.
    Attribute((Var, Var), Seq<char>),
    /// A materialised relation: its schema and updates.
    Collection(Seq<Var>, Seq<Update>),
}

/// A relation, implemented either as an attribute binding or as a
/// materialised collection.
pub enum Implemented {
    /// A binding of two variables to an attribute's pairs.
    Attribute(AttributeBinding),
    /// A materialised relation.
    Collection(CollectionRelation),
}

impl View for Implemented {
    type V = ImpModel;

    open spec fn view(&self) -> ImpModel {
        match self {
            Implemented::Attribute(ab) => ImpModel::Attribute(
                ab.variables,
                ab.source_attribute@,
            ),
            Implemented::Collection(rel) => ImpModel::Collection(
                rel.variables@,
                rel.tuples.deep_view(),
            ),
        }
    }
}

impl Implemented {
    /// The variables bound by this carrier, entity before value for
    /// an attribute binding.
    pub open spec fn model_variables(self) -> Seq<Var> {
        match self {
            Implemented::Attribute(ab) => seq![ab.variables.0, ab.variables.1],
            Implemented::Collection(rel) => rel.variables@,
        }
    }

    /// The variables bound by this carrier.
    pub fn variables(&self) -> (r: Vec<Var>)
        ensures
            r@ == self.model_variables(),
    {
        match self {
            Implemented::Attribute(ab) => {
                let mut vars: Vec<Var> = Vec::new();
                vars.push(ab.variables.0);
                vars.push(ab.variables.1);
                proof {
                    assert(vars@ =~= seq![ab.variables.0, ab.variables.1]);
                }
                vars
            },
            Implemented::Collection(rel) => {
                let mut vars: Vec<Var> = Vec::new();
                let mut i: usize = 0;
                while i < rel.variables.len()
                    invariant
                        i <= rel.variables@.len(),
                        vars@ == rel.variables@.take(i as int),
                    decreases rel.variables@.len() - i,
                {
                    proof {
                        assert(rel.variables@.take(i + 1) =~= rel.variables@.take(i as int).push(
                            rel.variables@[i as int],
                        ));
                    }
                    vars.push(rel.variables[i]);
                    i = i + 1;
                }
                proof {
                    assert(rel.variables@.take(rel.variables@.len() as int) =~= rel.variables@);
                }
                vars
            },
        }
    }
}

/// The position of the first occurrence of `v` in `s`.
pub open spec fn find_var(s: Seq<Var>, v: Var) -> Option<int>
    decreases s.len(),
{
    if s.len() == 0 {
        None
    } else if s[0] == v {
        Some(0int)
    } else {
        match find_var(s.subrange(1, s.len() as int), v) {
            None => None,
            Some(i) => Some(i + 1),
        }
    }
}

/// A found position is a real occurrence, and the first one.
pub proof fn lemma_find_var_valid(s: Seq<Var>, v: Var)
    ensures
        match find_var(s, v) {
            Some(i) => 0 <= i < s.len() && s[i] == v && forall|j: int| 0 <= j < i ==> s[j] != v,
            None => forall|j: int| 0 <= j < s.len() ==> s[j] != v,
        },
    decreases s.len(),
{
    if s.len() > 0 && s[0] != v {
        let sub = s.subrange(1, s.len() as int);
        lemma_find_var_valid(sub, v);
        match find_var(sub, v) {
            Some(i) => {
                assert(sub[i] == s[i + 1]);
                assert forall|j: int| 0 <= j < i + 1 implies s[j] != v by {
                    if j > 0 {
                        assert(sub[j - 1] == s[j]);
                    }
                }
            },
            None => {
                assert forall|j: int| 0 <= j < s.len() implies s[j] != v by {
                    if j > 0 {
                        assert(sub[j - 1] == s[j]);
                    }
                }
            },
        }
    }
}

/// The first match determines `find_var`.
pub proof fn lemma_find_var_first(s: Seq<Var>, v: Var, i: int)
    requires
        0 <= i < s.len(),
        s[i] == v,
        forall|j: int| 0 <= j < i ==> s[j] != v,
    ensures
        find_var(s, v) == Some(i),
    decreases s.len(),
{
    if i > 0 {
        lemma_find_var_first(s.subrange(1, s.len() as int), v, i - 1);
    }
}

/// An absent variable is never found.
pub proof fn lemma_find_var_none(s: Seq<Var>, v: Var)
    requires
        forall|j: int| 0 <= j < s.len() ==> s[j] != v,
    ensures
        find_var(s, v) is None,
    decreases s.len(),
{
    if s.len() > 0 {
        lemma_find_var_none(s.subrange(1, s.len() as int), v);
    }
}

/// Whether every target variable occurs among the bound variables.
pub open spec fn all_bound(bound: Seq<Var>, target: Seq<Var>) -> bool {
    forall|k: int| 0 <= k < target.len() ==> find_var(bound, #[trigger] target[k]) is Some
}

/// The column positions at which the target variables stand among
/// the bound ones.
pub open spec fn indices_of(bound: Seq<Var>, target: Seq<Var>) -> Seq<usize> {
    Seq::new(target.len(), |k: int| find_var(bound, target[k])->Some_0 as usize)
}

/// Looks each target variable up among the bound variables of a
/// relation: the positions on success, `None` as soon as one target
/// is unbound.
pub fn var_indices(bound: &Vec<Var>, target: &Vec<Var>) -> (r: Option<Vec<usize>>)
    ensures
        r is Some <==> all_bound(bound@, target@),
        r matches Some(idx) ==> idx@ == indices_of(bound@, target@),
{
    let mut out: Vec<usize> = Vec::new();
    let mut k: usize = 0;
    while k < target.len()
        invariant
            k <= target@.len(),
            out@.len() == k,
            forall|k2: int|
                0 <= k2 < k ==> find_var(bound@, #[trigger] target@[k2]) is Some,
            forall|k2: int|
                0 <= k2 < k ==> out@[k2] == find_var(bound@, target@[k2])->Some_0 as usize,
        decreases target@.len() - k,
    {
        let v = target[k];
        let mut i: usize = 0;
        let mut found = false;
        while i < bound.len() && !found
            invariant
                i <= bound@.len(),
                !found ==> forall|j: int| 0 <= j < i ==> bound@[j] != v,
                found ==> i < bound@.len() && bound@[i as int] == v && forall|j: int|
                    0 <= j < i ==> bound@[j] != v,
            decreases bound@.len() - i + if found {
                0int
            } else {
                1int
            },
        {
            if bound[i] == v {
                found = true;
            } else {
                i = i + 1;
            }
        }
        if !found {
            proof {
                lemma_find_var_none(bound@, v);
            }
            return None;
        }
        proof {
            lemma_find_var_first(bound@, v, i as int);
        }
        out.push(i);
        k = k + 1;
    }
    proof {
        assert(out@ =~= indices_of(bound@, target@));
    }
    Some(out)
}

/// Bound positions stay inside the schema.
pub proof fn lemma_indices_in_range(bound: Seq<Var>, target: Seq<Var>)
    requires
        all_bound(bound, target),
    ensures
        forall|k: int|
            0 <= k < target.len() ==> (#[trigger] indices_of(bound, target)[k]) < bound.len(),
{
    assert forall|k: int| 0 <= k < target.len() implies (#[trigger] indices_of(bound, target)[k])
        < bound.len() by {
        assert(find_var(bound, target[k]) is Some);
        lemma_find_var_valid(bound, target[k]);
    }
}

/// The rows of an attribute's pairs, entity before value.
pub open spec fn attr_rows(s: Seq<PairUpdate>) -> Seq<Update> {
    Seq::new(s.len(), |i: int| (seq![s[i].0.0, s[i].0.1], s[i].1, s[i].2))
}

/// Materialises an attribute's pairs as two-column rows.
pub fn pairs_to_rows(pairs: &Vec<PairTuple>) -> (r: Vec<Tuple>)
    ensures
        r.deep_view() == attr_rows(pairs.deep_view()),
{
    let ghost c = pairs.deep_view();
    let mut out: Vec<Tuple> = Vec::new();
    let mut i: usize = 0;
    while i < pairs.len()
        invariant
            i <= pairs@.len(),
            pairs@.len() == c.len(),
            c == pairs.deep_view(),
            out.deep_view().len() == i,
            forall|j: int|
                0 <= j < i ==> out.deep_view()[j] == (#[trigger] attr_rows(c)[j]),
        decreases pairs@.len() - i,
    {
        let entry = &pairs[i];
        let mut row: Vec<Value> = Vec::new();
        row.push(entry.0.0.duplicate());
        row.push(entry.0.1.duplicate());
        proof {
            assert(row.deep_view() =~= seq![c[i as int].0.0, c[i as int].0.1]);
        }
        let ghost prev = out.deep_view();
        let ghost pushed = (row.deep_view(), entry.1, entry.2);
        out.push((row, entry.1, entry.2));
        proof {
            assert(out.deep_view() =~= prev.push(pushed));
        }
        i = i + 1;
    }
    proof {
        assert(out.deep_view() =~= attr_rows(c));
    }
    out
}

/// Rows whose key equals the given entity, projected to their value
/// column.
pub open spec fn match_ea_prefix(s: Seq<PairUpdate>, e: u64, n: int) -> Seq<Update>
    decreases n,
{
    if n <= 0 {
        Seq::empty()
    } else {
        let rest = match_ea_prefix(s, e, n - 1);
        if s[n - 1].0.0 == Val::Eid(e) {
            rest.push((seq![s[n - 1].0.1], s[n - 1].1, s[n - 1].2))
        } else {
            rest
        }
    }
}

/// All pairs of an attribute whose entity is `e`, as single-column
/// value rows.
pub open spec fn match_ea_rows(s: Seq<PairUpdate>, e: u64) -> Seq<Update> {
    match_ea_prefix(s, e, s.len() as int)
}

/// Filters an attribute's pairs to one entity and keeps the values.
pub fn filter_entity(pairs: &Vec<PairTuple>, e: u64) -> (r: Vec<Tuple>)
    ensures
        r.deep_view() == match_ea_rows(pairs.deep_view(), e),
{
    let ghost c = pairs.deep_view();
    let mut out: Vec<Tuple> = Vec::new();
    let mut i: usize = 0;
    while i < pairs.len()
        invariant
            i <= pairs@.len(),
            pairs@.len() == c.len(),
            c == pairs.deep_view(),
            out.deep_view() == match_ea_prefix(c, e, i as int),
        decreases pairs@.len() - i,
    {
        let entry = &pairs[i];
        let is_match = match &entry.0.0 {
            Value::Eid(key) => *key == e,
            _ => false,
        };
        if is_match {
            let mut row: Vec<Value> = Vec::new();
            row.push(entry.0.1.duplicate());
            proof {
                assert(row.deep_view() =~= seq![c[i as int].0.1]);
            }
            let ghost prev = out.deep_view();
            let ghost pushed = (row.deep_view(), entry.1, entry.2);
            out.push((row, entry.1, entry.2));
            proof {
                assert(out.deep_view() =~= prev.push(pushed));
            }
        }
        i = i + 1;
    }
    out
}

/// Rows whose value equals the given literal, projected to their key
/// column.
pub open spec fn match_av_prefix(s: Seq<PairUpdate>, v: Val, n: int) -> Seq<Update>
    decreases n,
{
    if n <= 0 {
        Seq::empty()
    } else {
        let rest = match_av_prefix(s, v, n - 1);
        if s[n - 1].0.1 == v {
            rest.push((seq![s[n - 1].0.0], s[n - 1].1, s[n - 1].2))
        } else {
            rest
        }
    }
}

/// All pairs of an attribute whose value is `v`, as single-column
/// entity rows.
pub open spec fn match_av_rows(s: Seq<PairUpdate>, v: Val) -> Seq<Update> {
    match_av_prefix(s, v, s.len() as int)
}

/// Filters an attribute's pairs to one value and keeps the keys.
pub fn filter_value(pairs: &Vec<PairTuple>, v: &Value) -> (r: Vec<Tuple>)
    ensures
        r.deep_view() == match_av_rows(pairs.deep_view(), v@),
{
    let ghost c = pairs.deep_view();
    let mut out: Vec<Tuple> = Vec::new();
    let mut i: usize = 0;
    while i < pairs.len()
        invariant
            i <= pairs@.len(),
            pairs@.len() == c.len(),
            c == pairs.deep_view(),
            out.deep_view() == match_av_prefix(c, v@, i as int),
        decreases pairs@.len() - i,
    {
        let entry = &pairs[i];
        if entry.0.1.eqv(v) {
            let mut row: Vec<Value> = Vec::new();
            row.push(entry.0.0.duplicate());
            proof {
                assert(row.deep_view() =~= seq![c[i as int].0.0]);
            }
            let ghost prev = out.deep_view();
            let ghost pushed = (row.deep_view(), entry.1, entry.2);
            out.push((row, entry.1, entry.2));
            proof {
                assert(out.deep_view() =~= prev.push(pushed));
            }
        }
        i = i + 1;
    }
    out
}

/// Copies a batch of tuples, keeping the abstraction.
pub fn tuples_dup(tuples: &Vec<Tuple>) -> (r: Vec<Tuple>)
    ensures
        r.deep_view() == tuples.deep_view(),
{
    let ghost c = tuples.deep_view();
    let mut out: Vec<Tuple> = Vec::new();
    let mut i: usize = 0;
    while i < tuples.len()
        invariant
            i <= tuples@.len(),
            tuples@.len() == c.len(),
            c == tuples.deep_view(),
            out.deep_view().len() == i,
            forall|j: int| 0 <= j < i ==> out.deep_view()[j] == c[j],
        decreases tuples@.len() - i,
    {
        let entry = &tuples[i];
        let row = row_dup(&entry.0);
        let ghost prev = out.deep_view();
        let ghost pushed = (row.deep_view(), entry.1, entry.2);
        out.push((row, entry.1, entry.2));
        proof {
            assert(out.deep_view() =~= prev.push(pushed));
        }
        i = i + 1;
    }
    proof {
        assert(out.deep_view() =~= c);
    }
    out
}

/// Attribute pair rows have two columns.
pub proof fn lemma_attr_rows_arity(s: Seq<PairUpdate>)
    ensures
        rows_arity(attr_rows(s), 2),
{
    assert forall|i: int| 0 <= i < attr_rows(s).len() implies (#[trigger] attr_rows(s)[i]).0.len()
        == 2 by {
        assert(attr_rows(s)[i].0 =~= seq![s[i].0.0, s[i].0.1]);
    }
}

/// Entity-filtered rows have one column.
pub proof fn lemma_match_ea_arity(s: Seq<PairUpdate>, e: u64, n: int)
    ensures
        rows_arity(match_ea_prefix(s, e, n), 1),
    decreases n,
{
    if n > 0 {
        lemma_match_ea_arity(s, e, n - 1);
        let rest = match_ea_prefix(s, e, n - 1);
        if s[n - 1].0.0 == Val::Eid(e) {
            let pushed = (seq![s[n - 1].0.1], s[n - 1].1, s[n - 1].2);
            assert forall|i: int| 0 <= i < rest.push(pushed).len() implies (#[trigger] rest.push(
                pushed,
            )[i]).0.len() == 1 by {
                if i < rest.len() {
                    assert(rest.push(pushed)[i] == rest[i]);
                }
            }
        }
    }
}

/// Value-filtered rows have one column.
pub proof fn lemma_match_av_arity(s: Seq<PairUpdate>, v: Val, n: int)
    ensures
        rows_arity(match_av_prefix(s, v, n), 1),
    decreases n,
{
    if n > 0 {
        lemma_match_av_arity(s, v, n - 1);
        let rest = match_av_prefix(s, v, n - 1);
        if s[n - 1].0.1 == v {
            let pushed = (seq![s[n - 1].0.0], s[n - 1].1, s[n - 1].2);
            assert forall|i: int| 0 <= i < rest.push(pushed).len() implies (#[trigger] rest.push(
                pushed,
            )[i]).0.len() == 1 by {
                if i < rest.len() {
                    assert(rest.push(pushed)[i] == rest[i]);
                }
            }
        }
    }
}

/// Whether a variable occurs in a list.
pub fn contains_var_exec(vars: &Vec<Var>, v: Var) -> (r: bool)
    ensures
        r == (find_var(vars@, v) is Some),
{
    let mut i: usize = 0;
    while i < vars.len()
        invariant
            i <= vars@.len(),
            forall|j: int| 0 <= j < i ==> vars@[j] != v,
        decreases vars@.len() - i,
    {
        if vars[i] == v {
            proof {
                lemma_find_var_first(vars@, v, i as int);
            }
            return true;
        }
        i = i + 1;
    }
    proof {
        lemma_find_var_none(vars@, v);
    }
    false
}

/// The first target variable that the bound list misses.
pub fn find_unbound(bound: &Vec<Var>, target: &Vec<Var>) -> (r: Var)
    requires
        !all_bound(bound@, target@),
{
    let mut k: usize = 0;
    while k < target.len()
        invariant
            k <= target@.len(),
            forall|k2: int|
                0 <= k2 < k ==> find_var(bound@, #[trigger] target@[k2]) is Some,
        decreases target@.len() - k,
    {
        if !contains_var_exec(bound, target[k]) {
            return target[k];
        }
        k = k + 1;
    }
    proof {
        assert(false);
    }
    0
}

} // verus!
