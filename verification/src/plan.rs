//! Types and traits for implementing query plans: the `Plan`
//! algebraic data type and its recursive operations.

use vstd::prelude::*;

verus! {

use crate::{Aid, Eid, Var};
use crate::collection::{Update, rows_arity, project_entries, negate_entries, distinct_entries, join_entries};
use crate::context::{ImplContext, VariableMap};
use crate::relation::{CollectionRelation, ImpModel, Implemented, all_bound, indices_of, find_var, find_unbound, var_indices, contains_var_exec, attr_rows, match_ea_rows, match_av_rows, pairs_to_rows, filter_entity, filter_value, tuples_dup, lemma_find_var_valid, lemma_indices_in_range, lemma_attr_rows_arity, lemma_match_ea_arity, lemma_match_av_arity};
use crate::binding::{AttributeBinding, Binding};
use crate::value::Val;
use crate::{Generators, gensym, next_id};
use crate::collection::{Tuple, project_tuples, concat_tuples, negate_tuples, distinct_tuples, join_tuples, lemma_project_arity, lemma_negate_arity, lemma_concat_arity, lemma_join_arity, lemma_distinct_entries_arity};
use crate::shutdown::{ShutdownButton, ShutdownHandle, handle_model};
use crate::value::Value;

/// A named rule: a plan registered under a name.
pub struct Rule {
    /// The rule's name.
    pub name: Aid,
    /// The rule's plan.
    pub plan: Plan,
}

/// Whether some string of the sequence reads `n`.
pub open spec fn str_seq_contains(s: Seq<String>, n: Seq<char>) -> bool {
    exists|i: int| 0 <= i < s.len() && (#[trigger] s[i])@ == n
}

/// No two strings of the sequence read the same.
pub open spec fn str_seq_unique(s: Seq<String>) -> bool {
    forall|i: int, j: int| 0 <= i < j < s.len() ==> (#[trigger] s[i])@ != (#[trigger] s[j])@
}

/// Whether the vector holds a string reading like `s`.
pub fn contains_string(v: &Vec<String>, s: &String) -> (r: bool)
    ensures
        r == str_seq_contains(v@, s@),
{
    let mut i: usize = 0;
    while i < v.len()
        invariant
            i <= v@.len(),
            forall|j: int| 0 <= j < i ==> (#[trigger] v@[j])@ != s@,
        decreases v@.len() - i,
    {
        if v[i].eq(s) {
            return true;
        }
        i = i + 1;
    }
    false
}

/// Description of everything a plan needs prior to synthesis: the
/// named rules and the attributes it touches, as two disjoint string
/// sets.
pub struct Dependencies {
    /// Names of other plans this plan sources.
    pub names: Vec<String>,
    /// Attributes queried in pattern expressions.
    pub attributes: Vec<String>,
}

impl Dependencies {
    /// The set of names depended on.
    pub open spec fn names_set(self) -> Set<Seq<char>> {
        Set::new(|n: Seq<char>| str_seq_contains(self.names@, n))
    }

    /// The set of attributes depended on.
    pub open spec fn attributes_set(self) -> Set<Seq<char>> {
        Set::new(|n: Seq<char>| str_seq_contains(self.attributes@, n))
    }

    /// Set representation: no name and no attribute is listed twice.
    pub open spec fn wf(self) -> bool {
        str_seq_unique(self.names@) && str_seq_unique(self.attributes@)
    }

    /// A description representing a dependency on nothing.
    pub fn none() -> (r: Dependencies)
        ensures
            r.names_set() == Set::<Seq<char>>::empty(),
            r.attributes_set() == Set::<Seq<char>>::empty(),
            r.wf(),
    {
        let r = Dependencies { names: Vec::new(), attributes: Vec::new() };
        proof {
            assert(r.names_set() =~= Set::<Seq<char>>::empty());
            assert(r.attributes_set() =~= Set::<Seq<char>>::empty());
        }
        r
    }

    /// A description representing a dependency on a single name.
    pub fn name(name: &str) -> (r: Dependencies)
        ensures
            r.names_set() == Set::<Seq<char>>::empty().insert(name@),
            r.attributes_set() == Set::<Seq<char>>::empty(),
            r.wf(),
    {
        let mut names: Vec<String> = Vec::new();
        names.push(name.to_owned());
        let r = Dependencies { names, attributes: Vec::new() };
        proof {
            assert(r.names@[0]@ == name@);
            assert(r.names_set() =~= Set::<Seq<char>>::empty().insert(name@));
            assert(r.attributes_set() =~= Set::<Seq<char>>::empty());
        }
        r
    }

    /// A description representing a dependency on a single attribute.
    pub fn attribute(aid: &str) -> (r: Dependencies)
        ensures
            r.names_set() == Set::<Seq<char>>::empty(),
            r.attributes_set() == Set::<Seq<char>>::empty().insert(aid@),
            r.wf(),
    {
        let mut attributes: Vec<String> = Vec::new();
        attributes.push(aid.to_owned());
        let r = Dependencies { names: Vec::new(), attributes };
        proof {
            assert(r.attributes@[0]@ == aid@);
            assert(r.names_set() =~= Set::<Seq<char>>::empty());
            assert(r.attributes_set() =~= Set::<Seq<char>>::empty().insert(aid@));
        }
        r
    }

    /// Merges two dependency descriptions into one, representing
    /// their union.
    pub fn merge(left: Dependencies, right: Dependencies) -> (r: Dependencies)
        requires
            left.wf(),
            right.wf(),
        ensures
            r.names_set() == left.names_set().union(right.names_set()),
            r.attributes_set() == left.attributes_set().union(right.attributes_set()),
            r.wf(),
    {
        let ghost lns = left.names_set();
        let ghost las = left.attributes_set();
        let ghost rns = right.names_set();
        let ghost ras = right.attributes_set();
        let mut names = left.names;
        let mut attributes = left.attributes;
        let mut i: usize = 0;
        while i < right.names.len()
            invariant
                i <= right.names@.len(),
                str_seq_unique(names@),
                str_seq_unique(right.names@),
                forall|n: Seq<char>|
                    #[trigger] str_seq_contains(names@, n) <==> (str_seq_contains(left.names@, n)
                        || str_seq_contains(right.names@.take(i as int), n)),
            decreases right.names@.len() - i,
        {
            proof {
                assert(right.names@.take(i + 1) =~= right.names@.take(i as int).push(
                    right.names@[i as int],
                ));
            }
            let candidate = right.names[i].clone();
            proof {
                assert(candidate@ == right.names@[i as int]@);
            }
            if !contains_string(&names, &candidate) {
                let ghost prev = names@;
                names.push(candidate);
                proof {
                    lemma_take_push_membership(right.names@, i as int);
                    assert forall|n: Seq<char>| #[trigger] str_seq_contains(names@, n) implies (
                    str_seq_contains(prev, n) || n == right.names@[i as int]@) by {
                        let k = choose|k: int|
                            0 <= k < names@.len() && (#[trigger] names@[k])@ == n;
                        if k < prev.len() {
                            assert(prev[k]@ == n);
                        }
                    }
                    assert forall|n: Seq<char>| (str_seq_contains(prev, n) || n
                        == right.names@[i as int]@) implies #[trigger] str_seq_contains(
                        names@,
                        n,
                    ) by {
                        if str_seq_contains(prev, n) {
                            let k = choose|k: int|
                                0 <= k < prev.len() && (#[trigger] prev[k])@ == n;
                            assert(names@[k]@ == n);
                        } else {
                            assert(names@[prev.len() as int]@ == n);
                        }
                    }
                }
            } else {
                proof {
                    lemma_take_push_membership(right.names@, i as int);
                }
            }
            i = i + 1;
        }
        proof {
            assert(right.names@.take(right.names@.len() as int) =~= right.names@);
        }
        let mut j: usize = 0;
        while j < right.attributes.len()
            invariant
                j <= right.attributes@.len(),
                str_seq_unique(attributes@),
                str_seq_unique(right.attributes@),
                forall|n: Seq<char>|
                    #[trigger] str_seq_contains(attributes@, n) <==> (str_seq_contains(
                        left.attributes@,
                        n,
                    ) || str_seq_contains(right.attributes@.take(j as int), n)),
            decreases right.attributes@.len() - j,
        {
            proof {
                assert(right.attributes@.take(j + 1) =~= right.attributes@.take(j as int).push(
                    right.attributes@[j as int],
                ));
            }
            let candidate = right.attributes[j].clone();
            proof {
                assert(candidate@ == right.attributes@[j as int]@);
            }
            if !contains_string(&attributes, &candidate) {
                let ghost prev = attributes@;
                attributes.push(candidate);
                proof {
                    lemma_take_push_membership(right.attributes@, j as int);
                    assert forall|n: Seq<char>| #[trigger] str_seq_contains(attributes@, n) implies
                    (str_seq_contains(prev, n) || n == right.attributes@[j as int]@) by {
                        let k = choose|k: int|
                            0 <= k < attributes@.len() && (#[trigger] attributes@[k])@ == n;
                        if k < prev.len() {
                            assert(prev[k]@ == n);
                        }
                    }
                    assert forall|n: Seq<char>| (str_seq_contains(prev, n) || n
                        == right.attributes@[j as int]@) implies #[trigger] str_seq_contains(
                        attributes@,
                        n,
                    ) by {
                        if str_seq_contains(prev, n) {
                            let k = choose|k: int|
                                0 <= k < prev.len() && (#[trigger] prev[k])@ == n;
                            assert(attributes@[k]@ == n);
                        } else {
                            assert(attributes@[prev.len() as int]@ == n);
                        }
                    }
                }
            } else {
                proof {
                    lemma_take_push_membership(right.attributes@, j as int);
                }
            }
            j = j + 1;
        }
        proof {
            assert(right.attributes@.take(right.attributes@.len() as int) =~= right.attributes@);
        }
        let r = Dependencies { names, attributes };
        proof {
            assert(r.names_set() =~= lns.union(rns));
            assert(r.attributes_set() =~= las.union(ras));
        }
        r
    }
}

/// Membership in one more taken element.
proof fn lemma_take_push_membership(s: Seq<String>, i: int)
    requires
        0 <= i < s.len(),
    ensures
        forall|n: Seq<char>|
            str_seq_contains(s.take(i + 1), n) <==> (str_seq_contains(s.take(i), n) || n == s[i]@),
{
    assert(s.take(i + 1) =~= s.take(i).push(s[i]));
    assert forall|n: Seq<char>| #[trigger] str_seq_contains(s.take(i + 1), n) implies (
    str_seq_contains(s.take(i), n) || n == s[i]@) by {
        let k = choose|k: int| 0 <= k < s.take(i + 1).len() && (#[trigger] s.take(i + 1)[k])@ == n;
        if k < i {
            assert(s.take(i)[k]@ == n);
        }
    }
    assert forall|n: Seq<char>| (str_seq_contains(s.take(i), n) || n == s[i]@) implies
    #[trigger] str_seq_contains(s.take(i + 1), n) by {
        if str_seq_contains(s.take(i), n) {
            let k = choose|k: int| 0 <= k < s.take(i).len() && (#[trigger] s.take(i)[k])@ == n;
            assert(s.take(i + 1)[k]@ == n);
        } else {
            assert(s.take(i + 1)[i]@ == n);
        }
    }
}

/// A plan stage projecting its source to only the specified sequence
/// of variables. Refuses unbound variables at compile time.
pub struct Project {
    /// The variables to keep, in order.
    pub variables: Vec<Var>,
    /// Plan for the data source.
    pub plan: Box<Plan>,
}

/// A plan stage taking the union over its sources. Front-ends are
/// responsible to ensure that the sources are union-compatible
/// (i.e. bind all of the same variables in the same order).
pub struct Union {
    /// The variables each source binds.
    pub variables: Vec<Var>,
    /// Plans for the data sources.
    pub plans: Vec<Plan>,
}

/// A plan stage joining two source relations on the specified
/// variables. Refuses at compile time any join variable that is not
/// bound by both sources.
pub struct Join {
    /// The target (join) variables; must be non-empty.
    pub variables: Vec<Var>,
    /// Plan for the left input.
    pub left_plan: Box<Plan>,
    /// Plan for the right input.
    pub right_plan: Box<Plan>,
}

/// Possible query plan types.
pub enum Plan {
    /// Projection
    Project(Project),
    /// Union
    Union(Union),
    /// Equijoin
    Join(Join),
    /// Negation
    Negate(Box<Plan>),
    /// Data pattern of the form [?e a ?v]
    MatchA(Var, Aid, Var),
    /// Data pattern of the form [e a ?v]
    MatchEA(Eid, Aid, Var),
    /// Data pattern of the form [?e a v]
    MatchAV(Var, Aid, Value),
    /// Sources data from another relation.
    NameExpr(Vec<Var>, String),
}

impl Plan {
    /// The variables bound by this plan.
    pub open spec fn variables_model(self) -> Seq<Var>
        decreases self,
    {
        match self {
            Plan::Project(p) => p.variables@,
            Plan::Union(u) => u.variables@,
            Plan::Join(j) => j.variables@,
            Plan::Negate(p) => p.variables_model(),
            Plan::MatchA(e, _, v) => seq![e, v],
            Plan::MatchEA(_, _, v) => seq![v],
            Plan::MatchAV(e, _, _) => seq![e],
            Plan::NameExpr(vars, _) => vars@,
        }
    }

    /// Structural well-formedness: every join targets at least one
    /// variable.
    pub open spec fn wf(self) -> bool
        decreases self,
    {
        match self {
            Plan::Project(p) => p.plan.wf(),
            Plan::Union(u) => plans_wf(u.plans@),
            Plan::Join(j) => j.variables@.len() > 0 && j.left_plan.wf() && j.right_plan.wf(),
            Plan::Negate(p) => p.wf(),
            Plan::MatchA(_, _, _) => true,
            Plan::MatchEA(_, _, _) => true,
            Plan::MatchAV(_, _, _) => true,
            Plan::NameExpr(_, _) => true,
        }
    }

    /// The names of other plans this plan sources.
    pub open spec fn names_model(self) -> Set<Seq<char>>
        decreases self,
    {
        match self {
            Plan::Project(p) => p.plan.names_model(),
            Plan::Union(u) => plans_names(u.plans@),
            Plan::Join(j) => j.left_plan.names_model().union(j.right_plan.names_model()),
            Plan::Negate(p) => p.names_model(),
            Plan::MatchA(_, _, _) => Set::empty(),
            Plan::MatchEA(_, _, _) => Set::empty(),
            Plan::MatchAV(_, _, _) => Set::empty(),
            Plan::NameExpr(_, name) => Set::empty().insert(name@),
        }
    }

    /// The attributes this plan queries in pattern expressions.
    pub open spec fn attributes_model(self) -> Set<Seq<char>>
        decreases self,
    {
        match self {
            Plan::Project(p) => p.plan.attributes_model(),
            Plan::Union(u) => plans_attributes(u.plans@),
            Plan::Join(j) => j.left_plan.attributes_model().union(
                j.right_plan.attributes_model(),
            ),
            Plan::Negate(p) => p.attributes_model(),
            Plan::MatchA(_, a, _) => Set::empty().insert(a@),
            Plan::MatchEA(_, a, _) => Set::empty().insert(a@),
            Plan::MatchAV(_, a, _) => Set::empty().insert(a@),
            Plan::NameExpr(_, _) => Set::empty(),
        }
    }

    /// The variables bound by this plan.
    pub fn variables(&self) -> (r: Vec<Var>)
        ensures
            r@ == self.variables_model(),
        decreases *self,
    {
        match self {
            Plan::Project(p) => copy_vars(&p.variables),
            Plan::Union(u) => copy_vars(&u.variables),
            Plan::Join(j) => copy_vars(&j.variables),
            Plan::Negate(p) => p.variables(),
            Plan::MatchA(e, _, v) => {
                let mut vars: Vec<Var> = Vec::new();
                vars.push(*e);
                vars.push(*v);
                proof {
                    assert(vars@ =~= seq![*e, *v]);
                }
                vars
            },
            Plan::MatchEA(_, _, v) => {
                let mut vars: Vec<Var> = Vec::new();
                vars.push(*v);
                proof {
                    assert(vars@ =~= seq![*v]);
                }
                vars
            },
            Plan::MatchAV(e, _, _) => {
                let mut vars: Vec<Var> = Vec::new();
                vars.push(*e);
                proof {
                    assert(vars@ =~= seq![*e]);
                }
                vars
            },
            Plan::NameExpr(vars, _) => copy_vars(vars),
        }
    }

    /// The monoidal union of this plan's dependencies: attribute and
    /// name leaves, merged bottom-up.
    pub fn dependencies(&self) -> (r: Dependencies)
        ensures
            r.names_set() == self.names_model(),
            r.attributes_set() == self.attributes_model(),
            r.wf(),
        decreases *self,
    {
        match self {
            Plan::Project(p) => p.plan.dependencies(),
            Plan::Union(u) => {
                let mut deps = Dependencies::none();
                let mut i: usize = 0;
                while i < u.plans.len()
                    invariant
                        *self is Union,
                        (*self)->Union_0 == *u,
                        i <= u.plans@.len(),
                        deps.wf(),
                        deps.names_set() == plans_names(u.plans@.take(i as int)),
                        deps.attributes_set() == plans_attributes(u.plans@.take(i as int)),
                    decreases u.plans@.len() - i,
                {
                    proof {
                        assert(u.plans@.take(i + 1).drop_last() =~= u.plans@.take(i as int));
                        assert(u.plans@.take(i + 1).last() == u.plans@[i as int]);
                    }
                    proof {
                        assert(*self is Union);
                        assert((*self)->Union_0 == *u);
                        assert(decreases_to!(*self => (*self)->Union_0));
                        assert(decreases_to!((*self)->Union_0 => u.plans));
                        assert(decreases_to!(u.plans => u.plans@));
                        assert(decreases_to!(u.plans@ => u.plans@[i as int]));
                        assert(decreases_to!(*self => u.plans@[i as int]));
                    }
                    let child = u.plans[i].dependencies();
                    deps = Dependencies::merge(deps, child);
                    i = i + 1;
                }
                proof {
                    assert(u.plans@.take(u.plans@.len() as int) =~= u.plans@);
                }
                deps
            },
            Plan::Join(j) => Dependencies::merge(
                j.left_plan.dependencies(),
                j.right_plan.dependencies(),
            ),
            Plan::Negate(p) => p.dependencies(),
            Plan::MatchA(_, a, _) => Dependencies::attribute(a.as_str()),
            Plan::MatchEA(_, a, _) => Dependencies::attribute(a.as_str()),
            Plan::MatchAV(_, a, _) => Dependencies::attribute(a.as_str()),
            Plan::NameExpr(_, name) => Dependencies::name(name.as_str()),
        }
    }
}

/// Structural well-formedness of a sequence of plans.
pub open spec fn plans_wf(plans: Seq<Plan>) -> bool
    decreases plans,
{
    if plans.len() == 0 {
        true
    } else {
        plans_wf(plans.drop_last()) && plans.last().wf()
    }
}

/// The names sourced by any plan of the sequence.
pub open spec fn plans_names(plans: Seq<Plan>) -> Set<Seq<char>>
    decreases plans,
{
    if plans.len() == 0 {
        Set::empty()
    } else {
        plans_names(plans.drop_last()).union(plans.last().names_model())
    }
}

/// The attributes queried by any plan of the sequence.
pub open spec fn plans_attributes(plans: Seq<Plan>) -> Set<Seq<char>>
    decreases plans,
{
    if plans.len() == 0 {
        Set::empty()
    } else {
        plans_attributes(plans.drop_last()).union(plans.last().attributes_model())
    }
}

/// Copies a variable list.
pub fn copy_vars(vars: &Vec<Var>) -> (r: Vec<Var>)
    ensures
        r@ == vars@,
{
    let mut out: Vec<Var> = Vec::new();
    let mut i: usize = 0;
    while i < vars.len()
        invariant
            i <= vars@.len(),
            out@ == vars@.take(i as int),
        decreases vars@.len() - i,
    {
        proof {
            assert(vars@.take(i + 1) =~= vars@.take(i as int).push(vars@[i as int]));
        }
        out.push(vars[i]);
        i = i + 1;
    }
    proof {
        assert(vars@.take(vars@.len() as int) =~= vars@);
    }
    out
}

/// Errors a malformed plan surfaces at compile time.
#[derive(Debug)]
pub enum CompileError {
    /// A join target variable does not appear in a child.
    UnboundJoinTarget,
    /// A projection target variable is not bound by the source.
    UnboundVariable(Var),
    /// A pattern references an unknown attribute.
    MissingAttribute(Aid),
    /// A name expression references a rule that is not in scope.
    UnknownRule(String),
    /// A name expression references a relation that was never
    /// registered.
    UnknownArrangement(String),
    /// An attribute-to-attribute join over more than two target
    /// variables.
    JoinArityExceeded,
    /// An attribute-to-attribute join over exactly two target
    /// variables, reserved for a future intersection operator.
    UnimplementedShape,
}

/// Lookup errors carry evidence: a missing attribute, rule or
/// arrangement that an error names really is absent from the catalog
/// or the scope-local arrangements.
pub open spec fn error_evidence<C: ImplContext>(
    e: CompileError,
    local: VariableMap,
    ctx: &C,
) -> bool {
    match e {
        CompileError::MissingAttribute(a) => !ctx.attr_names().contains(a@),
        CompileError::UnknownRule(n) => ctx.underconstrained_names().contains(n@)
            && !local.names().contains(n@),
        CompileError::UnknownArrangement(n) => !ctx.underconstrained_names().contains(n@)
            && !ctx.global_names().contains(n@),
        _ => true,
    }
}

/// The variables bound by a carrier model, entity before value for
/// an attribute binding.
pub open spec fn imp_vars(m: ImpModel) -> Seq<Var> {
    match m {
        ImpModel::Attribute(vars, _) => seq![vars.0, vars.1],
        ImpModel::Collection(vars, _) => vars,
    }
}

/// Positions of the variables not among the targets, in order.
pub open spec fn rest_indices_prefix(vars: Seq<Var>, target: Seq<Var>, n: int) -> Seq<usize>
    decreases n,
{
    if n <= 0 {
        Seq::empty()
    } else {
        let rest = rest_indices_prefix(vars, target, n - 1);
        if find_var(target, vars[n - 1]) is None {
            rest.push((n - 1) as usize)
        } else {
            rest
        }
    }
}

/// Positions of the variables not among the targets.
pub open spec fn rest_indices(vars: Seq<Var>, target: Seq<Var>) -> Seq<usize> {
    rest_indices_prefix(vars, target, vars.len() as int)
}

/// The variables not among the targets, in order.
pub open spec fn rest_vars(vars: Seq<Var>, target: Seq<Var>) -> Seq<Var> {
    Seq::new(
        rest_indices(vars, target).len(),
        |k: int| vars[rest_indices(vars, target)[k] as int],
    )
}

/// Remainder positions stay inside the schema.
pub proof fn lemma_rest_indices_in_range(vars: Seq<Var>, target: Seq<Var>, n: int)
    requires
        0 <= n <= vars.len(),
    ensures
        forall|k: int|
            0 <= k < rest_indices_prefix(vars, target, n).len() ==> (
            #[trigger] rest_indices_prefix(vars, target, n)[k]) < n,
    decreases n,
{
    if n > 0 {
        lemma_rest_indices_in_range(vars, target, n - 1);
        let rest = rest_indices_prefix(vars, target, n - 1);
        if find_var(target, vars[n - 1]) is None {
            assert forall|k: int| 0 <= k < rest.push((n - 1) as usize).len() implies (
            #[trigger] rest.push((n - 1) as usize)[k]) < n by {
                if k < rest.len() {
                    assert(rest.push((n - 1) as usize)[k] == rest[k]);
                }
            }
        }
    }
}

/// Materialising and permuting a carrier: the projected updates and
/// the names of the arrangements the projection had to import.
pub open spec fn projected_parts<C: ImplContext>(m: ImpModel, target: Seq<Var>, ctx: &C) -> Option<
    (Seq<Update>, Seq<Seq<char>>),
> {
    match m {
        ImpModel::Collection(vars, tups) => if all_bound(vars, target) {
            Some((project_entries(tups, indices_of(vars, target)), Seq::empty()))
        } else {
            None
        },
        ImpModel::Attribute(vars, a) => {
            let bound = seq![vars.0, vars.1];
            if ctx.attr_names().contains(a) && all_bound(bound, target) {
                Some(
                    (
                        project_entries(
                            attr_rows(ctx.fwd_propose_model(a)),
                            indices_of(bound, target),
                        ),
                        seq![a],
                    ),
                )
            } else {
                None
            }
        },
    }
}

/// The pieces of an equijoin, by the carrier kinds of its children:
/// the two joined batches, their key and remainder columns, the
/// output schema, and the arrangements imported by this node.  `None`
/// when the shape is refused.
pub open spec fn join_parts<C: ImplContext>(target: Seq<Var>, lm: ImpModel, rm: ImpModel, ctx: &C) -> Option<
    (Seq<Update>, Seq<usize>, Seq<usize>, Seq<Update>, Seq<usize>, Seq<usize>, Seq<Var>, Seq<
        Seq<char>,
    >),
> {
    match (lm, rm) {
        (ImpModel::Attribute(lv, la), ImpModel::Attribute(rv, ra)) => {
            if target.len() != 1 || !ctx.attr_names().contains(la) || !ctx.attr_names().contains(
                ra,
            ) {
                None
            } else {
                let t = target[0];
                if (t == lv.0 || t == lv.1) && (t == rv.0 || t == rv.1) {
                    let lrows = if t == lv.0 {
                        attr_rows(ctx.fwd_propose_model(la))
                    } else {
                        attr_rows(ctx.rev_propose_model(la))
                    };
                    let other_l = if t == lv.0 {
                        lv.1
                    } else {
                        lv.0
                    };
                    let rrows = if t == rv.0 {
                        attr_rows(ctx.fwd_propose_model(ra))
                    } else {
                        attr_rows(ctx.rev_propose_model(ra))
                    };
                    let other_r = if t == rv.0 {
                        rv.1
                    } else {
                        rv.0
                    };
                    Some(
                        (
                            lrows,
                            seq![0usize],
                            seq![1usize],
                            rrows,
                            seq![0usize],
                            seq![1usize],
                            seq![t, other_l, other_r],
                            seq![la, ra],
                        ),
                    )
                } else {
                    None
                }
            }
        },
        (ImpModel::Attribute(lv, la), ImpModel::Collection(cv, ct)) => collection_parts(
            target,
            cv,
            ct,
            seq![lv.0, lv.1],
            attr_rows(ctx.fwd_propose_model(la)),
            seq![la],
            ctx.attr_names().contains(la),
        ),
        (ImpModel::Collection(cv, ct), ImpModel::Attribute(rv, ra)) => collection_parts(
            target,
            cv,
            ct,
            seq![rv.0, rv.1],
            attr_rows(ctx.fwd_propose_model(ra)),
            seq![ra],
            ctx.attr_names().contains(ra),
        ),
        (ImpModel::Collection(lv, lt), ImpModel::Collection(rv, rt)) => collection_parts(
            target,
            lv,
            lt,
            rv,
            rt,
            Seq::empty(),
            true,
        ),
    }
}

/// The pieces of a collection-by-collection equijoin; the attribute
/// side, if any, has already been materialised as the right side.
pub open spec fn collection_parts(
    target: Seq<Var>,
    lv: Seq<Var>,
    lt: Seq<Update>,
    rv: Seq<Var>,
    rt: Seq<Update>,
    case_buttons: Seq<Seq<char>>,
    available: bool,
) -> Option<
    (Seq<Update>, Seq<usize>, Seq<usize>, Seq<Update>, Seq<usize>, Seq<usize>, Seq<Var>, Seq<
        Seq<char>,
    >),
> {
    if available && all_bound(lv, target) && all_bound(rv, target) {
        Some(
            (
                lt,
                indices_of(lv, target),
                rest_indices(lv, target),
                rt,
                indices_of(rv, target),
                rest_indices(rv, target),
                target + rest_vars(lv, target) + rest_vars(rv, target),
                case_buttons,
            ),
        )
    } else {
        None
    }
}

/// Whether a plan can be lowered against this catalog and these
/// scope-local arrangements.
pub open spec fn compiles<C: ImplContext>(p: Plan, local: VariableMap, ctx: &C) -> bool
    decreases p,
{
    match p {
        Plan::Project(pr) => compiles(*pr.plan, local, ctx) && projected_parts(
            imp_model(*pr.plan, local, ctx),
            pr.variables@,
            ctx,
        ) is Some,
        Plan::Union(u) => union_compiles(u.plans@, u.variables@, local, ctx),
        Plan::Join(j) => compiles(*j.left_plan, local, ctx) && compiles(*j.right_plan, local, ctx)
            && join_parts(
            j.variables@,
            imp_model(*j.left_plan, local, ctx),
            imp_model(*j.right_plan, local, ctx),
            ctx,
        ) is Some,
        Plan::Negate(inner) => compiles(*inner, local, ctx) && projected_parts(
            imp_model(*inner, local, ctx),
            imp_vars(imp_model(*inner, local, ctx)),
            ctx,
        ) is Some,
        Plan::MatchA(_, a, _) => ctx.attr_names().contains(a@),
        Plan::MatchEA(_, a, _) => ctx.attr_names().contains(a@),
        Plan::MatchAV(_, a, _) => ctx.attr_names().contains(a@),
        Plan::NameExpr(_, name) => if ctx.underconstrained_names().contains(name@) {
            local.names().contains(name@)
        } else {
            ctx.global_names().contains(name@)
        },
    }
}

/// The carrier a plan lowers to.
pub open spec fn imp_model<C: ImplContext>(p: Plan, local: VariableMap, ctx: &C) -> ImpModel
    decreases p,
{
    match p {
        Plan::Project(pr) => ImpModel::Collection(
            pr.variables@,
            projected_parts(imp_model(*pr.plan, local, ctx), pr.variables@, ctx)->Some_0.0,
        ),
        Plan::Union(u) => ImpModel::Collection(
            u.variables@,
            distinct_entries(union_tuples(u.plans@, u.variables@, local, ctx)),
        ),
        Plan::Join(j) => {
            let parts = join_parts(
                j.variables@,
                imp_model(*j.left_plan, local, ctx),
                imp_model(*j.right_plan, local, ctx),
                ctx,
            )->Some_0;
            ImpModel::Collection(
                parts.6,
                join_entries(parts.0, parts.3, parts.1, parts.2, parts.4, parts.5),
            )
        },
        Plan::Negate(inner) => {
            let m = imp_model(*inner, local, ctx);
            ImpModel::Collection(
                imp_vars(m),
                negate_entries(projected_parts(m, imp_vars(m), ctx)->Some_0.0),
            )
        },
        Plan::MatchA(e, a, v) => ImpModel::Attribute((e, v), a@),
        Plan::MatchEA(match_e, a, sym) => ImpModel::Collection(
            seq![sym],
            match_ea_rows(ctx.fwd_propose_model(a@), match_e),
        ),
        Plan::MatchAV(sym, a, v) => ImpModel::Collection(
            seq![sym],
            match_av_rows(ctx.fwd_propose_model(a@), v@),
        ),
        Plan::NameExpr(syms, name) => if ctx.underconstrained_names().contains(name@) {
            ImpModel::Collection(syms@, local.model(name@))
        } else {
            ImpModel::Collection(syms@, ctx.global_model(name@))
        },
    }
}

/// The names of the arrangements a compiled plan imported: one
/// shutdown button each.
pub open spec fn buttons_model<C: ImplContext>(p: Plan, local: VariableMap, ctx: &C) -> Seq<
    Seq<char>,
>
    decreases p,
{
    match p {
        Plan::Project(pr) => buttons_model(*pr.plan, local, ctx) + projected_parts(
            imp_model(*pr.plan, local, ctx),
            pr.variables@,
            ctx,
        )->Some_0.1,
        Plan::Union(u) => union_buttons(u.plans@, u.variables@, local, ctx),
        Plan::Join(j) => join_parts(
            j.variables@,
            imp_model(*j.left_plan, local, ctx),
            imp_model(*j.right_plan, local, ctx),
            ctx,
        )->Some_0.7 + buttons_model(*j.left_plan, local, ctx) + buttons_model(
            *j.right_plan,
            local,
            ctx,
        ),
        Plan::Negate(inner) => {
            let m = imp_model(*inner, local, ctx);
            buttons_model(*inner, local, ctx) + projected_parts(m, imp_vars(m), ctx)->Some_0.1
        },
        Plan::MatchA(_, _, _) => Seq::empty(),
        Plan::MatchEA(_, a, _) => seq![a@],
        Plan::MatchAV(_, a, _) => seq![a@],
        Plan::NameExpr(_, name) => if ctx.underconstrained_names().contains(name@) {
            Seq::empty()
        } else {
            seq![name@]
        },
    }
}

/// Whether every child of a union compiles and projects onto the
/// union's variables.
pub open spec fn union_compiles<C: ImplContext>(
    plans: Seq<Plan>,
    vars: Seq<Var>,
    local: VariableMap,
    ctx: &C,
) -> bool
    decreases plans,
{
    if plans.len() == 0 {
        true
    } else {
        union_compiles(plans.drop_last(), vars, local, ctx) && compiles(plans.last(), local, ctx)
            && projected_parts(imp_model(plans.last(), local, ctx), vars, ctx) is Some
    }
}

/// The concatenation of every union child, projected onto the
/// union's variables.
pub open spec fn union_tuples<C: ImplContext>(
    plans: Seq<Plan>,
    vars: Seq<Var>,
    local: VariableMap,
    ctx: &C,
) -> Seq<Update>
    decreases plans,
{
    if plans.len() == 0 {
        Seq::empty()
    } else {
        union_tuples(plans.drop_last(), vars, local, ctx) + projected_parts(
            imp_model(plans.last(), local, ctx),
            vars,
            ctx,
        )->Some_0.0
    }
}

/// The arrangements imported across every union child.
pub open spec fn union_buttons<C: ImplContext>(
    plans: Seq<Plan>,
    vars: Seq<Var>,
    local: VariableMap,
    ctx: &C,
) -> Seq<Seq<char>>
    decreases plans,
{
    if plans.len() == 0 {
        Seq::empty()
    } else {
        union_buttons(plans.drop_last(), vars, local, ctx) + buttons_model(
            plans.last(),
            local,
            ctx,
        ) + projected_parts(imp_model(plans.last(), local, ctx), vars, ctx)->Some_0.1
    }
}

/// No diff of the batch is the smallest machine integer, so each can
/// be negated.
pub open spec fn no_min_diff(c: Seq<Update>) -> bool {
    forall|i: int| 0 <= i < c.len() ==> (#[trigger] c[i]).2 != isize::MIN
}

/// Every pairwise diff product stays within machine range.
pub open spec fn products_fit(a: Seq<Update>, b: Seq<Update>) -> bool {
    forall|i: int, j: int|
        0 <= i < a.len() && 0 <= j < b.len() ==> isize::MIN <= (#[trigger] a[i]).2 * (
        #[trigger] b[j]).2 <= isize::MAX
}

/// Machine-limit side conditions on the updates a compilation will
/// combine: join diff products fit, negated diffs fit, and
/// scope-local or global arrangements carry rows of the arity their
/// name expression declares.
pub open spec fn inputs_fit<C: ImplContext>(p: Plan, local: VariableMap, ctx: &C) -> bool
    decreases p,
{
    match p {
        Plan::Project(pr) => inputs_fit(*pr.plan, local, ctx),
        Plan::Union(u) => union_inputs_fit(u.plans@, local, ctx),
        Plan::Join(j) => inputs_fit(*j.left_plan, local, ctx) && inputs_fit(
            *j.right_plan,
            local,
            ctx,
        ) && (compiles(j.left_plan_box(), local, ctx) && compiles(j.right_plan_box(), local, ctx)
            && join_parts(
            j.variables@,
            imp_model(*j.left_plan, local, ctx),
            imp_model(*j.right_plan, local, ctx),
            ctx,
        ) is Some ==> products_fit(
            join_parts(
                j.variables@,
                imp_model(*j.left_plan, local, ctx),
                imp_model(*j.right_plan, local, ctx),
                ctx,
            )->Some_0.0,
            join_parts(
                j.variables@,
                imp_model(*j.left_plan, local, ctx),
                imp_model(*j.right_plan, local, ctx),
                ctx,
            )->Some_0.3,
        )),
        Plan::Negate(inner) => inputs_fit(*inner, local, ctx) && (compiles(*inner, local, ctx)
            && projected_parts(
            imp_model(*inner, local, ctx),
            imp_vars(imp_model(*inner, local, ctx)),
            ctx,
        ) is Some ==> no_min_diff(
            projected_parts(
                imp_model(*inner, local, ctx),
                imp_vars(imp_model(*inner, local, ctx)),
                ctx,
            )->Some_0.0,
        )),
        Plan::MatchA(_, _, _) => true,
        Plan::MatchEA(_, _, _) => true,
        Plan::MatchAV(_, _, _) => true,
        Plan::NameExpr(syms, name) => if ctx.underconstrained_names().contains(name@) {
            local.names().contains(name@) ==> rows_arity(
                local.model(name@),
                syms@.len() as nat,
            )
        } else {
            ctx.global_names().contains(name@) ==> rows_arity(
                ctx.global_model(name@),
                syms@.len() as nat,
            )
        },
    }
}

/// Machine-limit side conditions across union children.
pub open spec fn union_inputs_fit<C: ImplContext>(
    plans: Seq<Plan>,
    local: VariableMap,
    ctx: &C,
) -> bool
    decreases plans,
{
    if plans.len() == 0 {
        true
    } else {
        union_inputs_fit(plans.drop_last(), local, ctx) && inputs_fit(plans.last(), local, ctx)
    }
}

impl Join {
    /// The boxed left child, as a plan.
    pub open spec fn left_plan_box(self) -> Plan {
        *self.left_plan
    }

    /// The boxed right child, as a plan.
    pub open spec fn right_plan_box(self) -> Plan {
        *self.right_plan
    }
}

/// Buttons for the named sources, all unpressed.
pub open spec fn buttons_as_model(srcs: Seq<Seq<char>>) -> Seq<(Seq<char>, bool)> {
    Seq::new(srcs.len(), |i: int| (srcs[i], false))
}

/// Every list of variables binds itself.
pub proof fn lemma_all_bound_refl(vars: Seq<Var>)
    ensures
        all_bound(vars, vars),
{
    assert forall|k: int| 0 <= k < vars.len() implies find_var(vars, #[trigger] vars[k]) is Some by {
        if find_var(vars, vars[k]) is None {
            lemma_find_var_valid(vars, vars[k]);
        }
    }
}

/// A compiled collection carrier is well-formed: its rows have the
/// arity of its schema.
pub proof fn lemma_imp_model_arity<C: ImplContext>(p: Plan, local: VariableMap, ctx: &C)
    requires
        compiles(p, local, ctx),
        inputs_fit(p, local, ctx),
    ensures
        imp_model(p, local, ctx) matches ImpModel::Collection(vars, tups) ==> rows_arity(
            tups,
            vars.len() as nat,
        ),
{
    match p {
        Plan::Project(pr) => {
            let m = imp_model(*pr.plan, local, ctx);
            let parts = projected_parts(m, pr.variables@, ctx)->Some_0;
            match m {
                ImpModel::Collection(vars, tups) => {
                    lemma_project_arity(tups, indices_of(vars, pr.variables@));
                },
                ImpModel::Attribute(vars, a) => {
                    lemma_project_arity(
                        attr_rows(ctx.fwd_propose_model(a)),
                        indices_of(seq![vars.0, vars.1], pr.variables@),
                    );
                },
            }
        },
        Plan::Union(u) => {
            lemma_union_tuples_arity(u.plans@, u.variables@, local, ctx);
            lemma_distinct_entries_arity(
                union_tuples(u.plans@, u.variables@, local, ctx),
                u.variables@.len() as nat,
            );
        },
        Plan::Join(j) => {
            let parts = join_parts(
                j.variables@,
                imp_model(*j.left_plan, local, ctx),
                imp_model(*j.right_plan, local, ctx),
                ctx,
            )->Some_0;
            lemma_join_arity(parts.0, parts.3, parts.1, parts.2, parts.4, parts.5);
            assert(parts.6.len() == parts.1.len() + parts.2.len() + parts.5.len());
        },
        Plan::Negate(inner) => {
            let m = imp_model(*inner, local, ctx);
            let proj = projected_parts(m, imp_vars(m), ctx)->Some_0;
            match m {
                ImpModel::Collection(vars, tups) => {
                    lemma_project_arity(tups, indices_of(vars, imp_vars(m)));
                },
                ImpModel::Attribute(vars, a) => {
                    lemma_project_arity(
                        attr_rows(ctx.fwd_propose_model(a)),
                        indices_of(seq![vars.0, vars.1], imp_vars(m)),
                    );
                },
            }
            lemma_negate_arity(proj.0, imp_vars(m).len() as nat);
        },
        Plan::MatchA(_, _, _) => {
        },
        Plan::MatchEA(match_e, a, _) => {
            lemma_match_ea_arity(
                ctx.fwd_propose_model(a@),
                match_e,
                ctx.fwd_propose_model(a@).len() as int,
            );
        },
        Plan::MatchAV(_, a, v) => {
            lemma_match_av_arity(
                ctx.fwd_propose_model(a@),
                v@,
                ctx.fwd_propose_model(a@).len() as int,
            );
        },
        Plan::NameExpr(_, _) => {
        },
    }
}

/// Concatenated union children keep the union's arity.
pub proof fn lemma_union_tuples_arity<C: ImplContext>(
    plans: Seq<Plan>,
    vars: Seq<Var>,
    local: VariableMap,
    ctx: &C,
)
    requires
        union_compiles(plans, vars, local, ctx),
    ensures
        rows_arity(union_tuples(plans, vars, local, ctx), vars.len() as nat),
    decreases plans,
{
    if plans.len() == 0 {
    } else {
        lemma_union_tuples_arity(plans.drop_last(), vars, local, ctx);
        let m = imp_model(plans.last(), local, ctx);
        match m {
            ImpModel::Collection(cvars, tups) => {
                lemma_project_arity(tups, indices_of(cvars, vars));
            },
            ImpModel::Attribute(avars, a) => {
                lemma_project_arity(
                    attr_rows(ctx.fwd_propose_model(a)),
                    indices_of(seq![avars.0, avars.1], vars),
                );
            },
        }
        lemma_concat_arity(
            union_tuples(plans.drop_last(), vars, local, ctx),
            projected_parts(m, vars, ctx)->Some_0.0,
            vars.len() as nat,
        );
    }
}

/// A compiling union compiles over every prefix of its children.
pub proof fn lemma_union_compiles_take<C: ImplContext>(
    plans: Seq<Plan>,
    vars: Seq<Var>,
    local: VariableMap,
    ctx: &C,
    m: int,
)
    requires
        union_compiles(plans, vars, local, ctx),
        0 <= m <= plans.len(),
    ensures
        union_compiles(plans.take(m), vars, local, ctx),
    decreases plans.len() - m,
{
    if m == plans.len() {
        assert(plans.take(m) =~= plans);
    } else {
        lemma_union_compiles_take(plans, vars, local, ctx, m + 1);
        assert(plans.take(m + 1).drop_last() =~= plans.take(m));
        assert(plans.take(m + 1).last() == plans[m]);
    }
}

/// Machine-limit conditions hold of every union child.
pub proof fn lemma_union_fits_at<C: ImplContext>(
    plans: Seq<Plan>,
    local: VariableMap,
    ctx: &C,
    i: int,
)
    requires
        union_inputs_fit(plans, local, ctx),
        0 <= i < plans.len(),
    ensures
        inputs_fit(plans[i], local, ctx),
    decreases plans.len(),
{
    if i == plans.len() - 1 {
        assert(plans.last() == plans[i]);
    } else {
        assert(plans.drop_last()[i] == plans[i]);
        lemma_union_fits_at(plans.drop_last(), local, ctx, i);
    }
}

/// Positions of the variables not among the targets.
pub fn rest_positions(vars: &Vec<Var>, target: &Vec<Var>) -> (r: Vec<usize>)
    ensures
        r@ == rest_indices(vars@, target@),
{
    let mut out: Vec<usize> = Vec::new();
    let mut i: usize = 0;
    while i < vars.len()
        invariant
            i <= vars@.len(),
            out@ == rest_indices_prefix(vars@, target@, i as int),
        decreases vars@.len() - i,
    {
        if !contains_var_exec(target, vars[i]) {
            out.push(i);
        }
        i = i + 1;
    }
    out
}

/// The variables not among the targets, in order.
pub fn rest_variables(vars: &Vec<Var>, target: &Vec<Var>) -> (r: Vec<Var>)
    ensures
        r@ == rest_vars(vars@, target@),
{
    let positions = rest_positions(vars, target);
    proof {
        lemma_rest_indices_in_range(vars@, target@, vars@.len() as int);
    }
    let mut out: Vec<Var> = Vec::new();
    let mut k: usize = 0;
    while k < positions.len()
        invariant
            k <= positions@.len(),
            positions@ == rest_indices(vars@, target@),
            forall|k2: int|
                0 <= k2 < positions@.len() ==> (#[trigger] positions@[k2]) < vars@.len(),
            out@.len() == k,
            forall|k2: int| 0 <= k2 < k ==> out@[k2] == vars@[positions@[k2] as int],
        decreases positions@.len() - k,
    {
        out.push(vars[positions[k]]);
        k = k + 1;
    }
    proof {
        assert(out@ =~= rest_vars(vars@, target@));
    }
    out
}

/// Concatenates two variable lists.
pub fn append_vars(a: Vec<Var>, b: Vec<Var>) -> (r: Vec<Var>)
    ensures
        r@ == a@ + b@,
{
    let ghost av = a@;
    let ghost bv = b@;
    let mut out = a;
    let mut rest = b;
    out.append(&mut rest);
    proof {
        assert(out@ =~= av + bv);
    }
    out
}

/// Materialises a carrier and permutes it onto the target variables:
/// the positional projection of its tuples, and a shutdown button
/// for each arrangement the materialisation imported.
pub fn projected_implemented<C: ImplContext>(
    imp: &Implemented,
    target: &Vec<Var>,
    context: &C,
) -> (r: Result<(Vec<Tuple>, ShutdownHandle), CompileError>)
    requires
        imp@ matches ImpModel::Collection(vars, tups) ==> rows_arity(tups, vars.len() as nat),
    ensures
        r is Ok <==> projected_parts(imp@, target@, context) is Some,
        r matches Ok(p) ==> p.0.deep_view() == projected_parts(imp@, target@, context)->Some_0.0
            && handle_model(p.1) == buttons_as_model(
            projected_parts(imp@, target@, context)->Some_0.1,
        ),
        r matches Err(e) ==> forall|local: VariableMap| error_evidence(e, local, context),
{
    match imp {
        Implemented::Collection(rel) => {
            match var_indices(&rel.variables, target) {
                None => Err(CompileError::UnboundVariable(find_unbound(&rel.variables, target))),
                Some(idx) => {
                    proof {
                        lemma_indices_in_range(rel.variables@, target@);
                    }
                    let tuples = project_tuples(&rel.tuples, &idx);
                    let handle = ShutdownHandle::empty();
                    proof {
                        assert(handle_model(handle) =~= buttons_as_model(Seq::empty()));
                    }
                    Ok((tuples, handle))
                },
            }
        },
        Implemented::Attribute(ab) => {
            match context.forward_propose(ab.source_attribute.as_str()) {
                None => Err(CompileError::MissingAttribute(ab.source_attribute.clone())),
                Some(pairs) => {
                    let rows = pairs_to_rows(pairs);
                    let mut bound: Vec<Var> = Vec::new();
                    bound.push(ab.variables.0);
                    bound.push(ab.variables.1);
                    proof {
                        assert(bound@ =~= seq![ab.variables.0, ab.variables.1]);
                    }
                    match var_indices(&bound, target) {
                        None => Err(
                            CompileError::UnboundVariable(find_unbound(&bound, target)),
                        ),
                        Some(idx) => {
                            proof {
                                lemma_indices_in_range(bound@, target@);
                                lemma_attr_rows_arity(pairs.deep_view());
                            }
                            let tuples = project_tuples(&rows, &idx);
                            let handle = ShutdownHandle::from_button(
                                ShutdownButton::new(ab.source_attribute.clone()),
                            );
                            proof {
                                assert(handle_model(handle) =~= buttons_as_model(
                                    seq![ab.source_attribute@],
                                ));
                            }
                            Ok((tuples, handle))
                        },
                    }
                },
            }
        },
    }
}

/// A carrier that stayed an attribute binding came from a compiled
/// pattern, so its attribute is indexed.
pub proof fn lemma_attribute_model_available<C: ImplContext>(p: Plan, local: VariableMap, ctx: &C)
    requires
        compiles(p, local, ctx),
    ensures
        imp_model(p, local, ctx) matches ImpModel::Attribute(_, a) ==> ctx.attr_names().contains(
            a,
        ) && p.attributes_model().contains(a),
{
}

impl Join {
    /// Attribute-by-attribute join over a single target variable:
    /// each side contributes its propose trace keyed by the target,
    /// forward when the target is its entity variable, reverse when
    /// it is its value variable.
    fn attribute_attribute<C: ImplContext>(
        context: &C,
        target: Var,
        left: &AttributeBinding,
        right: &AttributeBinding,
    ) -> (r: Result<(Implemented, ShutdownHandle), CompileError>)
        requires
            join_parts(
                seq![target],
                ImpModel::Attribute(left.variables, left.source_attribute@),
                ImpModel::Attribute(right.variables, right.source_attribute@),
                context,
            ) matches Some(parts) ==> products_fit(parts.0, parts.3),
        ensures
            r is Ok <==> join_parts(
                seq![target],
                ImpModel::Attribute(left.variables, left.source_attribute@),
                ImpModel::Attribute(right.variables, right.source_attribute@),
                context,
            ) is Some,
            r matches Ok(p) ==> ({
                let parts = join_parts(
                    seq![target],
                    ImpModel::Attribute(left.variables, left.source_attribute@),
                    ImpModel::Attribute(right.variables, right.source_attribute@),
                    context,
                )->Some_0;
                p.0@ == ImpModel::Collection(
                    parts.6,
                    join_entries(parts.0, parts.3, parts.1, parts.2, parts.4, parts.5),
                ) && handle_model(p.1) == buttons_as_model(parts.7)
            }),
            r matches Err(e) ==> forall|local: VariableMap| error_evidence(e, local, context),
    {
        let ghost lm = ImpModel::Attribute(left.variables, left.source_attribute@);
        let ghost rm = ImpModel::Attribute(right.variables, right.source_attribute@);
        let (lpairs, other_l) = if target == left.variables.0 {
            match context.forward_propose(left.source_attribute.as_str()) {
                None => {
                    return Err(CompileError::MissingAttribute(left.source_attribute.clone()));
                },
                Some(b) => (b, left.variables.1),
            }
        } else if target == left.variables.1 {
            match context.reverse_propose(left.source_attribute.as_str()) {
                None => {
                    return Err(CompileError::MissingAttribute(left.source_attribute.clone()));
                },
                Some(b) => (b, left.variables.0),
            }
        } else {
            return Err(CompileError::UnboundJoinTarget);
        };
        let (rpairs, other_r) = if target == right.variables.0 {
            match context.forward_propose(right.source_attribute.as_str()) {
                None => {
                    return Err(CompileError::MissingAttribute(right.source_attribute.clone()));
                },
                Some(b) => (b, right.variables.1),
            }
        } else if target == right.variables.1 {
            match context.reverse_propose(right.source_attribute.as_str()) {
                None => {
                    return Err(CompileError::MissingAttribute(right.source_attribute.clone()));
                },
                Some(b) => (b, right.variables.0),
            }
        } else {
            return Err(CompileError::UnboundJoinTarget);
        };
        let lrows = pairs_to_rows(lpairs);
        let rrows = pairs_to_rows(rpairs);
        let mut key_idx: Vec<usize> = Vec::new();
        key_idx.push(0);
        let mut rest_idx: Vec<usize> = Vec::new();
        rest_idx.push(1);
        let ghost parts = join_parts(seq![target], lm, rm, context)->Some_0;
        proof {
            assert(key_idx@ =~= seq![0usize]);
            assert(rest_idx@ =~= seq![1usize]);
            lemma_attr_rows_arity(lpairs.deep_view());
            lemma_attr_rows_arity(rpairs.deep_view());
            assert(lrows.deep_view() == parts.0);
            assert(rrows.deep_view() == parts.3);
        }
        let tuples = join_tuples(&lrows, &rrows, &key_idx, &rest_idx, &key_idx, &rest_idx);
        let mut variables: Vec<Var> = Vec::new();
        variables.push(target);
        variables.push(other_l);
        variables.push(other_r);
        let mut handle = ShutdownHandle::from_button(
            ShutdownButton::new(left.source_attribute.clone()),
        );
        handle.add_button(ShutdownButton::new(right.source_attribute.clone()));
        proof {
            assert(variables@ =~= parts.6);
            assert(handle_model(handle) =~= buttons_as_model(parts.7));
        }
        Ok((Implemented::Collection(CollectionRelation { variables, tuples }), handle))
    }

    /// Collection-by-collection join: each side is keyed by the
    /// target variables; the output is the target columns, then each
    /// side's remaining columns in their original order.
    fn collection_collection(target: &Vec<Var>, left: CollectionRelation, right: CollectionRelation) -> (r:
        Result<(Implemented, ShutdownHandle), CompileError>)
        requires
            rows_arity(left.tuples.deep_view(), left.variables@.len() as nat),
            rows_arity(right.tuples.deep_view(), right.variables@.len() as nat),
            collection_parts(
                target@,
                left.variables@,
                left.tuples.deep_view(),
                right.variables@,
                right.tuples.deep_view(),
                Seq::empty(),
                true,
            ) matches Some(parts) ==> products_fit(parts.0, parts.3),
        ensures
            r is Ok <==> collection_parts(
                target@,
                left.variables@,
                left.tuples.deep_view(),
                right.variables@,
                right.tuples.deep_view(),
                Seq::empty(),
                true,
            ) is Some,
            r matches Ok(p) ==> ({
                let parts = collection_parts(
                    target@,
                    left.variables@,
                    left.tuples.deep_view(),
                    right.variables@,
                    right.tuples.deep_view(),
                    Seq::empty(),
                    true,
                )->Some_0;
                p.0@ == ImpModel::Collection(
                    parts.6,
                    join_entries(parts.0, parts.3, parts.1, parts.2, parts.4, parts.5),
                ) && handle_model(p.1) == buttons_as_model(parts.7)
            }),
            r matches Err(e) ==> (e is UnboundJoinTarget),
    {
        let kl = match var_indices(&left.variables, target) {
            None => {
                return Err(CompileError::UnboundJoinTarget);
            },
            Some(idx) => idx,
        };
        let kr = match var_indices(&right.variables, target) {
            None => {
                return Err(CompileError::UnboundJoinTarget);
            },
            Some(idx) => idx,
        };
        let rl = rest_positions(&left.variables, target);
        let rr = rest_positions(&right.variables, target);
        proof {
            lemma_indices_in_range(left.variables@, target@);
            lemma_indices_in_range(right.variables@, target@);
            lemma_rest_indices_in_range(left.variables@, target@, left.variables@.len() as int);
            lemma_rest_indices_in_range(right.variables@, target@, right.variables@.len() as int);
        }
        let tuples = join_tuples(&left.tuples, &right.tuples, &kl, &rl, &kr, &rr);
        let variables = append_vars(
            append_vars(copy_vars(target), rest_variables(&left.variables, target)),
            rest_variables(&right.variables, target),
        );
        let handle = ShutdownHandle::empty();
        proof {
            assert(variables@ =~= target@ + rest_vars(left.variables@, target@) + rest_vars(
                right.variables@,
                target@,
            ));
            assert(handle_model(handle) =~= buttons_as_model(Seq::empty()));
        }
        Ok((Implemented::Collection(CollectionRelation { variables, tuples }), handle))
    }

    /// Collection-by-attribute join: the attribute side is first
    /// materialised from its forward propose trace as a two-column
    /// collection, then joined as the right side.
    fn collection_attribute<C: ImplContext>(
        context: &C,
        target: &Vec<Var>,
        coll: CollectionRelation,
        attr: &AttributeBinding,
    ) -> (r: Result<(Implemented, ShutdownHandle), CompileError>)
        requires
            rows_arity(coll.tuples.deep_view(), coll.variables@.len() as nat),
            collection_parts(
                target@,
                coll.variables@,
                coll.tuples.deep_view(),
                seq![attr.variables.0, attr.variables.1],
                attr_rows(context.fwd_propose_model(attr.source_attribute@)),
                seq![attr.source_attribute@],
                context.attr_names().contains(attr.source_attribute@),
            ) matches Some(parts) ==> products_fit(parts.0, parts.3),
        ensures
            r is Ok <==> collection_parts(
                target@,
                coll.variables@,
                coll.tuples.deep_view(),
                seq![attr.variables.0, attr.variables.1],
                attr_rows(context.fwd_propose_model(attr.source_attribute@)),
                seq![attr.source_attribute@],
                context.attr_names().contains(attr.source_attribute@),
            ) is Some,
            r matches Ok(p) ==> ({
                let parts = collection_parts(
                    target@,
                    coll.variables@,
                    coll.tuples.deep_view(),
                    seq![attr.variables.0, attr.variables.1],
                    attr_rows(context.fwd_propose_model(attr.source_attribute@)),
                    seq![attr.source_attribute@],
                    context.attr_names().contains(attr.source_attribute@),
                )->Some_0;
                p.0@ == ImpModel::Collection(
                    parts.6,
                    join_entries(parts.0, parts.3, parts.1, parts.2, parts.4, parts.5),
                ) && handle_model(p.1) == buttons_as_model(parts.7)
            }),
            r matches Err(e) ==> forall|local: VariableMap| error_evidence(e, local, context),
    {
        match context.forward_propose(attr.source_attribute.as_str()) {
            None => Err(CompileError::MissingAttribute(attr.source_attribute.clone())),
            Some(pairs) => {
                let rows = pairs_to_rows(pairs);
                let mut avars: Vec<Var> = Vec::new();
                avars.push(attr.variables.0);
                avars.push(attr.variables.1);
                proof {
                    assert(avars@ =~= seq![attr.variables.0, attr.variables.1]);
                    lemma_attr_rows_arity(pairs.deep_view());
                }
                let right_rel = CollectionRelation { variables: avars, tuples: rows };
                match Join::collection_collection(target, coll, right_rel) {
                    Err(e) => Err(e),
                    Ok((imp, mut handle)) => {
                        let ghost before = handle_model(handle);
                        handle.add_button(ShutdownButton::new(attr.source_attribute.clone()));
                        proof {
                            assert(handle_model(handle) =~= buttons_as_model(
                                seq![attr.source_attribute@],
                            ));
                        }
                        Ok((imp, handle))
                    },
                }
            },
        }
    }
}

impl Plan {
    /// Lowers this plan against the catalog and the scope-local
    /// arrangements, into either an attribute binding or a
    /// materialised collection, together with one shutdown button per
    /// arrangement import.  Succeeds exactly when the plan compiles;
    /// every button it returns names an arrangement of the plan's
    /// dependencies.
    pub fn implement<C: ImplContext>(&self, local: &VariableMap, context: &C) -> (r: Result<
        (Implemented, ShutdownHandle),
        CompileError,
    >)
        requires
            self.wf(),
            inputs_fit(*self, *local, context),
        ensures
            r is Ok <==> compiles(*self, *local, context),
            r matches Ok(p) ==> p.0@ == imp_model(*self, *local, context) && handle_model(p.1)
                == buttons_as_model(buttons_model(*self, *local, context)),
            r matches Err(e) ==> error_evidence(e, *local, context),
        decreases *self,
    {
        match self {
            Plan::Project(pr) => {
                match pr.plan.implement(local, context) {
                    Err(e) => Err(e),
                    Ok((imp, mut handle)) => {
                        proof {
                            lemma_imp_model_arity(*pr.plan, *local, context);
                        }
                        match projected_implemented(&imp, &pr.variables, context) {
                            Err(e) => Err(e),
                            Ok((tuples, proj_handle)) => {
                                let ghost before = handle_model(handle);
                                handle.merge_with(proj_handle);
                                let variables = copy_vars(&pr.variables);
                                proof {
                                    assert(handle_model(handle) =~= buttons_as_model(
                                        buttons_model(*self, *local, context),
                                    ));
                                }
                                Ok(
                                    (
                                        Implemented::Collection(
                                            CollectionRelation { variables, tuples },
                                        ),
                                        handle,
                                    ),
                                )
                            },
                        }
                    },
                }
            },
            Plan::Union(u) => {
                let mut acc: Vec<Tuple> = Vec::new();
                let mut handle = ShutdownHandle::empty();
                let mut i: usize = 0;
                proof {
                    assert(acc.deep_view() =~= union_tuples(
                        u.plans@.take(0),
                        u.variables@,
                        *local,
                        context,
                    ));
                    assert(handle_model(handle) =~= buttons_as_model(
                        union_buttons(u.plans@.take(0), u.variables@, *local, context),
                    ));
                }
                while i < u.plans.len()
                    invariant
                        *self is Union,
                        (*self)->Union_0 == *u,
                        i <= u.plans@.len(),
                        plans_wf(u.plans@),
                        inputs_fit(*self, *local, context),
                        union_compiles(u.plans@.take(i as int), u.variables@, *local, context),
                        acc.deep_view() == union_tuples(
                            u.plans@.take(i as int),
                            u.variables@,
                            *local,
                            context,
                        ),
                        handle_model(handle) == buttons_as_model(
                            union_buttons(u.plans@.take(i as int), u.variables@, *local, context),
                        ),
                    decreases u.plans@.len() - i,
                {
                    proof {
                        assert(decreases_to!(*self => (*self)->Union_0));
                        assert(decreases_to!((*self)->Union_0 => u.plans));
                        assert(decreases_to!(u.plans => u.plans@));
                        assert(decreases_to!(u.plans@ => u.plans@[i as int]));
                        assert(decreases_to!(*self => u.plans@[i as int]));
                        lemma_union_fits_at(u.plans@, *local, context, i as int);
                        lemma_plans_wf_at(u.plans@, i as int);
                        assert(u.plans@.take(i + 1).drop_last() =~= u.plans@.take(i as int));
                        assert(u.plans@.take(i + 1).last() == u.plans@[i as int]);
                    }
                    match u.plans[i].implement(local, context) {
                        Err(e) => {
                            proof {
                                if compiles(*self, *local, context) {
                                    lemma_union_compiles_take(
                                        u.plans@,
                                        u.variables@,
                                        *local,
                                        context,
                                        i + 1,
                                    );
                                }
                            }
                            return Err(e);
                        },
                        Ok((imp, child_handle)) => {
                            proof {
                                lemma_imp_model_arity(u.plans@[i as int], *local, context);
                            }
                            match projected_implemented(&imp, &u.variables, context) {
                                Err(e) => {
                                    proof {
                                        if compiles(*self, *local, context) {
                                            lemma_union_compiles_take(
                                                u.plans@,
                                                u.variables@,
                                                *local,
                                                context,
                                                i + 1,
                                            );
                                        }
                                    }
                                    return Err(e);
                                },
                                Ok((proj, proj_handle)) => {
                                    handle.merge_with(child_handle);
                                    handle.merge_with(proj_handle);
                                    acc = concat_tuples(acc, proj);
                                    proof {
                                        assert(handle_model(handle) =~= buttons_as_model(
                                            union_buttons(
                                                u.plans@.take(i + 1),
                                                u.variables@,
                                                *local,
                                                context,
                                            ),
                                        ));
                                    }
                                },
                            }
                        },
                    }
                    i = i + 1;
                }
                proof {
                    assert(u.plans@.take(u.plans@.len() as int) =~= u.plans@);
                }
                let tuples = distinct_tuples(&acc);
                let variables = copy_vars(&u.variables);
                Ok((Implemented::Collection(CollectionRelation { variables, tuples }), handle))
            },
            Plan::Join(j) => {
                let (left_imp, shutdown_left) = match j.left_plan.implement(local, context) {
                    Err(e) => {
                        return Err(e);
                    },
                    Ok(p) => p,
                };
                let (right_imp, shutdown_right) = match j.right_plan.implement(local, context) {
                    Err(e) => {
                        return Err(e);
                    },
                    Ok(p) => p,
                };
                proof {
                    lemma_imp_model_arity(*j.left_plan, *local, context);
                    lemma_imp_model_arity(*j.right_plan, *local, context);
                }
                let case_result = match (left_imp, right_imp) {
                    (Implemented::Attribute(lab), Implemented::Attribute(rab)) => {
                        if j.variables.len() == 1 {
                            proof {
                                assert(seq![j.variables@[0]] =~= j.variables@);
                            }
                            Join::attribute_attribute(context, j.variables[0], &lab, &rab)
                        } else if j.variables.len() == 2 {
                            Err(CompileError::UnimplementedShape)
                        } else {
                            Err(CompileError::JoinArityExceeded)
                        }
                    },
                    (Implemented::Attribute(lab), Implemented::Collection(rrel)) => {
                        Join::collection_attribute(context, &j.variables, rrel, &lab)
                    },
                    (Implemented::Collection(lrel), Implemented::Attribute(rab)) => {
                        Join::collection_attribute(context, &j.variables, lrel, &rab)
                    },
                    (Implemented::Collection(lrel), Implemented::Collection(rrel)) => {
                        Join::collection_collection(&j.variables, lrel, rrel)
                    },
                };
                match case_result {
                    Err(e) => Err(e),
                    Ok((imp, mut case_handle)) => {
                        case_handle.merge_with(shutdown_left);
                        case_handle.merge_with(shutdown_right);
                        proof {
                            assert(handle_model(case_handle) =~= buttons_as_model(
                                buttons_model(*self, *local, context),
                            ));
                        }
                        Ok((imp, case_handle))
                    },
                }
            },
            Plan::Negate(inner) => {
                match inner.implement(local, context) {
                    Err(e) => Err(e),
                    Ok((imp, mut handle)) => {
                        proof {
                            lemma_imp_model_arity(**inner, *local, context);
                        }
                        let vars = imp.variables();
                        proof {
                            assert(vars@ == imp_vars(imp@));
                        }
                        match projected_implemented(&imp, &vars, context) {
                            Err(e) => Err(e),
                            Ok((proj, proj_handle)) => {
                                handle.merge_with(proj_handle);
                                let tuples = negate_tuples(&proj);
                                proof {
                                    assert(handle_model(handle) =~= buttons_as_model(
                                        buttons_model(*self, *local, context),
                                    ));
                                }
                                Ok(
                                    (
                                        Implemented::Collection(
                                            CollectionRelation { variables: vars, tuples },
                                        ),
                                        handle,
                                    ),
                                )
                            },
                        }
                    },
                }
            },
            Plan::MatchA(e, a, v) => {
                if context.has_attribute(a.as_str()) {
                    let binding = AttributeBinding {
                        variables: (*e, *v),
                        source_attribute: a.clone(),
                    };
                    let handle = ShutdownHandle::empty();
                    proof {
                        assert(handle_model(handle) =~= buttons_as_model(
                            buttons_model(*self, *local, context),
                        ));
                    }
                    Ok((Implemented::Attribute(binding), handle))
                } else {
                    Err(CompileError::MissingAttribute(a.clone()))
                }
            },
            Plan::MatchEA(match_e, a, sym) => {
                match context.forward_propose(a.as_str()) {
                    None => Err(CompileError::MissingAttribute(a.clone())),
                    Some(pairs) => {
                        let tuples = filter_entity(pairs, *match_e);
                        let mut variables: Vec<Var> = Vec::new();
                        variables.push(*sym);
                        let handle = ShutdownHandle::from_button(ShutdownButton::new(a.clone()));
                        proof {
                            assert(variables@ =~= seq![*sym]);
                            assert(handle_model(handle) =~= buttons_as_model(
                                buttons_model(*self, *local, context),
                            ));
                        }
                        Ok(
                            (
                                Implemented::Collection(
                                    CollectionRelation { variables, tuples },
                                ),
                                handle,
                            ),
                        )
                    },
                }
            },
            Plan::MatchAV(sym, a, match_v) => {
                match context.forward_propose(a.as_str()) {
                    None => Err(CompileError::MissingAttribute(a.clone())),
                    Some(pairs) => {
                        let tuples = filter_value(pairs, match_v);
                        let mut variables: Vec<Var> = Vec::new();
                        variables.push(*sym);
                        let handle = ShutdownHandle::from_button(ShutdownButton::new(a.clone()));
                        proof {
                            assert(variables@ =~= seq![*sym]);
                            assert(handle_model(handle) =~= buttons_as_model(
                                buttons_model(*self, *local, context),
                            ));
                        }
                        Ok(
                            (
                                Implemented::Collection(
                                    CollectionRelation { variables, tuples },
                                ),
                                handle,
                            ),
                        )
                    },
                }
            },
            Plan::NameExpr(syms, name) => {
                if context.is_underconstrained(name.as_str()) {
                    match local.get(name.as_str()) {
                        None => Err(CompileError::UnknownRule(name.clone())),
                        Some(named) => {
                            let variables = copy_vars(syms);
                            let tuples = tuples_dup(named);
                            let handle = ShutdownHandle::empty();
                            proof {
                                assert(handle_model(handle) =~= buttons_as_model(
                                    buttons_model(*self, *local, context),
                                ));
                            }
                            Ok(
                                (
                                    Implemented::Collection(
                                        CollectionRelation { variables, tuples },
                                    ),
                                    handle,
                                ),
                            )
                        },
                    }
                } else {
                    match context.global_arrangement(name.as_str()) {
                        None => Err(CompileError::UnknownArrangement(name.clone())),
                        Some(named) => {
                            let variables = copy_vars(syms);
                            let tuples = tuples_dup(named);
                            let handle = ShutdownHandle::from_button(
                                ShutdownButton::new(name.clone()),
                            );
                            proof {
                                assert(handle_model(handle) =~= buttons_as_model(
                                    buttons_model(*self, *local, context),
                                ));
                            }
                            Ok(
                                (
                                    Implemented::Collection(
                                        CollectionRelation { variables, tuples },
                                    ),
                                    handle,
                                ),
                            )
                        },
                    }
                }
            },
        }
    }
}

/// Every button source is a member of one of the two sets.
pub open spec fn buttons_within(
    buttons: Seq<Seq<char>>,
    names: Set<Seq<char>>,
    attrs: Set<Seq<char>>,
) -> bool {
    forall|k: int|
        0 <= k < buttons.len() ==> names.contains(#[trigger] buttons[k]) || attrs.contains(
            buttons[k],
        )
}

/// Dependencies are complete: every arrangement a compiled plan
/// imports — every shutdown button it hands back — is named in the
/// plan's own dependency sets.
#[verifier::rlimit(60)]
pub proof fn lemma_dependencies_complete<C: ImplContext>(p: Plan, local: VariableMap, ctx: &C)
    requires
        compiles(p, local, ctx),
    ensures
        buttons_within(buttons_model(p, local, ctx), p.names_model(), p.attributes_model()),
    decreases p,
{
    let buttons = buttons_model(p, local, ctx);
    match p {
        Plan::Project(pr) => {
            lemma_dependencies_complete(*pr.plan, local, ctx);
            lemma_attribute_model_available(*pr.plan, local, ctx);
            let child = buttons_model(*pr.plan, local, ctx);
            let proj = projected_parts(imp_model(*pr.plan, local, ctx), pr.variables@, ctx)
                ->Some_0.1;
            assert forall|k: int| 0 <= k < buttons.len() implies p.names_model().contains(
                #[trigger] buttons[k],
            ) || p.attributes_model().contains(buttons[k]) by {
                if k < child.len() {
                    assert(buttons[k] == child[k]);
                } else {
                    assert(buttons[k] == proj[k - child.len()]);
                }
            }
        },
        Plan::Union(u) => {
            lemma_union_buttons_complete(u.plans@, u.variables@, local, ctx);
        },
        Plan::Join(j) => {
            lemma_dependencies_complete(*j.left_plan, local, ctx);
            lemma_dependencies_complete(*j.right_plan, local, ctx);
            lemma_attribute_model_available(*j.left_plan, local, ctx);
            lemma_attribute_model_available(*j.right_plan, local, ctx);
            let parts = join_parts(
                j.variables@,
                imp_model(*j.left_plan, local, ctx),
                imp_model(*j.right_plan, local, ctx),
                ctx,
            )->Some_0;
            let lb = buttons_model(*j.left_plan, local, ctx);
            let rb = buttons_model(*j.right_plan, local, ctx);
            assert forall|k: int| 0 <= k < buttons.len() implies p.names_model().contains(
                #[trigger] buttons[k],
            ) || p.attributes_model().contains(buttons[k]) by {
                if k < parts.7.len() {
                    assert(buttons[k] == parts.7[k]);
                } else if k < parts.7.len() + lb.len() {
                    assert(buttons[k] == lb[k - parts.7.len()]);
                } else {
                    assert(buttons[k] == rb[k - parts.7.len() - lb.len()]);
                }
            }
        },
        Plan::Negate(inner) => {
            lemma_dependencies_complete(*inner, local, ctx);
            lemma_attribute_model_available(*inner, local, ctx);
            let child = buttons_model(*inner, local, ctx);
            let m = imp_model(*inner, local, ctx);
            let proj = projected_parts(m, imp_vars(m), ctx)->Some_0.1;
            assert forall|k: int| 0 <= k < buttons.len() implies p.names_model().contains(
                #[trigger] buttons[k],
            ) || p.attributes_model().contains(buttons[k]) by {
                if k < child.len() {
                    assert(buttons[k] == child[k]);
                } else {
                    assert(buttons[k] == proj[k - child.len()]);
                }
            }
        },
        Plan::MatchA(_, _, _) => {
        },
        Plan::MatchEA(_, a, _) => {
            assert(buttons[0] == a@);
        },
        Plan::MatchAV(_, a, _) => {
            assert(buttons[0] == a@);
        },
        Plan::NameExpr(_, name) => {
            if !ctx.underconstrained_names().contains(name@) {
                assert(buttons[0] == name@);
            }
        },
    }
}

/// Dependencies are complete across every union child.
pub proof fn lemma_union_buttons_complete<C: ImplContext>(
    plans: Seq<Plan>,
    vars: Seq<Var>,
    local: VariableMap,
    ctx: &C,
)
    requires
        union_compiles(plans, vars, local, ctx),
    ensures
        buttons_within(
            union_buttons(plans, vars, local, ctx),
            plans_names(plans),
            plans_attributes(plans),
        ),
    decreases plans,
{
    if plans.len() > 0 {
        lemma_union_buttons_complete(plans.drop_last(), vars, local, ctx);
        lemma_dependencies_complete(plans.last(), local, ctx);
        lemma_attribute_model_available(plans.last(), local, ctx);
        let buttons = union_buttons(plans, vars, local, ctx);
        let prefix = union_buttons(plans.drop_last(), vars, local, ctx);
        let child = buttons_model(plans.last(), local, ctx);
        let proj = projected_parts(imp_model(plans.last(), local, ctx), vars, ctx)->Some_0.1;
        assert forall|k: int| 0 <= k < buttons.len() implies plans_names(plans).contains(
            #[trigger] buttons[k],
        ) || plans_attributes(plans).contains(buttons[k]) by {
            if k < prefix.len() {
                assert(buttons[k] == prefix[k]);
            } else if k < prefix.len() + child.len() {
                assert(buttons[k] == child[k - prefix.len()]);
            } else {
                assert(buttons[k] == proj[k - prefix.len() - child.len()]);
            }
        }
    }
}

/// The abstraction of one binding.
pub type BindingModel = (Seq<Var>, Option<Seq<char>>, Option<Val>);

/// The abstractions of a binding list.
pub open spec fn bindings_models(v: Seq<Binding>) -> Seq<BindingModel> {
    Seq::new(v.len(), |i: int| v[i].model())
}

/// Whether a plan can be turned into bindings (name expressions
/// cannot).
pub open spec fn bindings_supported(p: Plan) -> bool
    decreases p,
{
    match p {
        Plan::Project(pr) => bindings_supported(*pr.plan),
        Plan::Union(u) => plans_bindings_supported(u.plans@),
        Plan::Join(j) => bindings_supported(*j.left_plan) && bindings_supported(*j.right_plan),
        Plan::Negate(inner) => bindings_supported(*inner),
        Plan::MatchA(_, _, _) => true,
        Plan::MatchEA(_, _, _) => true,
        Plan::MatchAV(_, _, _) => true,
        Plan::NameExpr(_, _) => false,
    }
}

/// Whether every plan of the sequence supports bindings.
pub open spec fn plans_bindings_supported(plans: Seq<Plan>) -> bool
    decreases plans,
{
    if plans.len() == 0 {
        true
    } else {
        plans_bindings_supported(plans.drop_last()) && bindings_supported(plans.last())
    }
}

/// How many gensym variables a plan's bindings draw.
pub open spec fn gensym_count(p: Plan) -> int
    decreases p,
{
    match p {
        Plan::Project(pr) => gensym_count(*pr.plan),
        Plan::Union(u) => plans_gensym_count(u.plans@),
        Plan::Join(j) => gensym_count(*j.left_plan) + gensym_count(*j.right_plan),
        Plan::Negate(inner) => gensym_count(*inner),
        Plan::MatchA(_, _, _) => 0,
        Plan::MatchEA(_, _, _) => 1,
        Plan::MatchAV(_, _, _) => 1,
        Plan::NameExpr(_, _) => 0,
    }
}

/// Gensym draws across a sequence of plans.
pub open spec fn plans_gensym_count(plans: Seq<Plan>) -> int
    decreases plans,
{
    if plans.len() == 0 {
        0
    } else {
        plans_gensym_count(plans.drop_last()) + gensym_count(plans.last())
    }
}

/// Gensym counts are never negative.
pub proof fn lemma_gensym_count_nonneg(p: Plan)
    ensures
        gensym_count(p) >= 0,
    decreases p,
{
    match p {
        Plan::Project(pr) => lemma_gensym_count_nonneg(*pr.plan),
        Plan::Union(u) => lemma_plans_gensym_count_nonneg(u.plans@),
        Plan::Join(j) => {
            lemma_gensym_count_nonneg(*j.left_plan);
            lemma_gensym_count_nonneg(*j.right_plan);
        },
        Plan::Negate(inner) => lemma_gensym_count_nonneg(*inner),
        _ => {
        },
    }
}

/// Gensym counts of plan sequences are never negative.
pub proof fn lemma_plans_gensym_count_nonneg(plans: Seq<Plan>)
    ensures
        plans_gensym_count(plans) >= 0,
    decreases plans,
{
    if plans.len() > 0 {
        lemma_plans_gensym_count_nonneg(plans.drop_last());
        lemma_gensym_count_nonneg(plans.last());
    }
}

/// The bindings a plan flattens to, and the gensym counter after
/// drawing its fresh variables.
pub open spec fn bindings_spec(p: Plan, sym: Var) -> (Seq<BindingModel>, Var)
    decreases p,
{
    match p {
        Plan::Project(pr) => bindings_spec(*pr.plan, sym),
        Plan::Union(u) => plans_bindings_spec(u.plans@, sym),
        Plan::Join(j) => {
            let left = bindings_spec(*j.left_plan, sym);
            let right = bindings_spec(*j.right_plan, left.1);
            (left.0 + right.0, right.1)
        },
        Plan::Negate(inner) => bindings_spec(*inner, sym),
        Plan::MatchA(e, a, v) => (seq![(seq![e, v], Some(a@), None)], sym),
        Plan::MatchEA(match_e, a, v) => (
            seq![
                (seq![sym, v], Some(a@), None),
                (seq![sym], None, Some(Val::Eid(match_e))),
            ],
            (sym - 1) as i64,
        ),
        Plan::MatchAV(e, a, match_v) => (
            seq![
                (seq![e, sym], Some(a@), None),
                (seq![sym], None, Some(match_v@)),
            ],
            (sym - 1) as i64,
        ),
        Plan::NameExpr(_, _) => (Seq::empty(), sym),
    }
}

/// The bindings of a sequence of plans, threading the counter left
/// to right.
pub open spec fn plans_bindings_spec(plans: Seq<Plan>, sym: Var) -> (Seq<BindingModel>, Var)
    decreases plans,
{
    if plans.len() == 0 {
        (Seq::empty(), sym)
    } else {
        let prev = plans_bindings_spec(plans.drop_last(), sym);
        let last = bindings_spec(plans.last(), prev.1);
        (prev.0 + last.0, last.1)
    }
}

/// The counter after drawing is the counter before, less the draws.
pub proof fn lemma_bindings_spec_counter(p: Plan, sym: Var)
    requires
        sym - gensym_count(p) >= i64::MIN,
    ensures
        bindings_spec(p, sym).1 == sym - gensym_count(p),
    decreases p,
{
    match p {
        Plan::Project(pr) => lemma_bindings_spec_counter(*pr.plan, sym),
        Plan::Union(u) => lemma_plans_bindings_spec_counter(u.plans@, sym),
        Plan::Join(j) => {
            lemma_gensym_count_nonneg(*j.left_plan);
            lemma_gensym_count_nonneg(*j.right_plan);
            lemma_bindings_spec_counter(*j.left_plan, sym);
            lemma_bindings_spec_counter(*j.right_plan, bindings_spec(*j.left_plan, sym).1);
        },
        Plan::Negate(inner) => lemma_bindings_spec_counter(*inner, sym),
        _ => {
        },
    }
}

/// The counter after a sequence of plans.
pub proof fn lemma_plans_bindings_spec_counter(plans: Seq<Plan>, sym: Var)
    requires
        sym - plans_gensym_count(plans) >= i64::MIN,
    ensures
        plans_bindings_spec(plans, sym).1 == sym - plans_gensym_count(plans),
    decreases plans,
{
    if plans.len() > 0 {
        lemma_plans_gensym_count_nonneg(plans.drop_last());
        lemma_gensym_count_nonneg(plans.last());
        lemma_plans_bindings_spec_counter(plans.drop_last(), sym);
        lemma_bindings_spec_counter(
            plans.last(),
            plans_bindings_spec(plans.drop_last(), sym).1,
        );
    }
}

/// Concatenates two binding lists.
fn append_bindings(a: Vec<Binding>, b: Vec<Binding>) -> (r: Vec<Binding>)
    ensures
        bindings_models(r@) == bindings_models(a@) + bindings_models(b@),
{
    let ghost av = a@;
    let ghost bv = b@;
    let mut out = a;
    let mut rest = b;
    out.append(&mut rest);
    proof {
        assert(bindings_models(out@) =~= bindings_models(av) + bindings_models(bv));
    }
    out
}

impl Plan {
    /// Transforms this plan into an equivalent flat list of logical
    /// bindings for the worst-case-optimal evaluator, drawing fresh
    /// gensym variables for the bound positions of patterns.
    pub fn into_bindings(&self, gen: &mut Generators) -> (r: Vec<Binding>)
        requires
            bindings_supported(*self),
            old(gen).next_sym - gensym_count(*self) >= i64::MIN,
        ensures
            bindings_models(r@) == bindings_spec(*self, old(gen).next_sym).0,
            final(gen).next_sym == bindings_spec(*self, old(gen).next_sym).1,
            final(gen).next_eid == old(gen).next_eid,
        decreases *self,
    {
        match self {
            Plan::Project(pr) => pr.plan.into_bindings(gen),
            Plan::Union(u) => {
                let mut out: Vec<Binding> = Vec::new();
                let mut i: usize = 0;
                proof {
                    assert(bindings_models(out@) =~= plans_bindings_spec(
                        u.plans@.take(0),
                        gen.next_sym,
                    ).0);
                }
                let ghost sym0 = gen.next_sym;
                while i < u.plans.len()
                    invariant
                        *self is Union,
                        (*self)->Union_0 == *u,
                        i <= u.plans@.len(),
                        plans_bindings_supported(u.plans@),
                        sym0 - plans_gensym_count(u.plans@) >= i64::MIN,
                        gen.next_sym == plans_bindings_spec(u.plans@.take(i as int), sym0).1,
                        gen.next_eid == old(gen).next_eid,
                        sym0 == old(gen).next_sym,
                        bindings_models(out@) == plans_bindings_spec(
                            u.plans@.take(i as int),
                            sym0,
                        ).0,
                    decreases u.plans@.len() - i,
                {
                    proof {
                        assert(decreases_to!(*self => (*self)->Union_0));
                        assert(decreases_to!((*self)->Union_0 => u.plans));
                        assert(decreases_to!(u.plans => u.plans@));
                        assert(decreases_to!(u.plans@ => u.plans@[i as int]));
                        assert(decreases_to!(*self => u.plans@[i as int]));
                        assert(u.plans@.take(i + 1).drop_last() =~= u.plans@.take(i as int));
                        assert(u.plans@.take(i + 1).last() == u.plans@[i as int]);
                        lemma_plans_supported_take(u.plans@, i + 1);
                        lemma_plans_counts_split(u.plans@, i as int, sym0);
                    }
                    let child = u.plans[i].into_bindings(gen);
                    out = append_bindings(out, child);
                    i = i + 1;
                }
                proof {
                    assert(u.plans@.take(u.plans@.len() as int) =~= u.plans@);
                }
                out
            },
            Plan::Join(j) => {
                proof {
                    lemma_gensym_count_nonneg(*j.left_plan);
                    lemma_gensym_count_nonneg(*j.right_plan);
                    lemma_bindings_spec_counter(*j.left_plan, gen.next_sym);
                }
                let left = j.left_plan.into_bindings(gen);
                let right = j.right_plan.into_bindings(gen);
                append_bindings(left, right)
            },
            Plan::Negate(inner) => inner.into_bindings(gen),
            Plan::MatchA(e, a, v) => {
                let mut out: Vec<Binding> = Vec::new();
                out.push(Binding::attribute(*e, a, *v));
                proof {
                    assert(bindings_models(out@) =~= bindings_spec(*self, gen.next_sym).0);
                }
                out
            },
            Plan::MatchEA(match_e, a, v) => {
                let e = gensym(gen);
                let mut out: Vec<Binding> = Vec::new();
                out.push(Binding::attribute(e, a, *v));
                out.push(Binding::constant(e, Value::Eid(*match_e)));
                proof {
                    assert(bindings_models(out@) =~= bindings_spec(
                        *self,
                        old(gen).next_sym,
                    ).0);
                }
                out
            },
            Plan::MatchAV(e, a, match_v) => {
                let v = gensym(gen);
                let mut out: Vec<Binding> = Vec::new();
                out.push(Binding::attribute(*e, a, v));
                out.push(Binding::constant(v, match_v.duplicate()));
                proof {
                    assert(bindings_models(out@) =~= bindings_spec(
                        *self,
                        old(gen).next_sym,
                    ).0);
                }
                out
            },
            Plan::NameExpr(_, _) => {
                proof {
                    assert(false);
                }
                Vec::new()
            },
        }
    }
}

/// Well-formedness of each plan of a sequence.
proof fn lemma_plans_wf_at(plans: Seq<Plan>, i: int)
    requires
        plans_wf(plans),
        0 <= i < plans.len(),
    ensures
        plans[i].wf(),
    decreases plans.len(),
{
    if i == plans.len() - 1 {
        assert(plans.last() == plans[i]);
    } else {
        assert(plans.drop_last()[i] == plans[i]);
        lemma_plans_wf_at(plans.drop_last(), i);
    }
}

/// Support of a prefix of plans.
proof fn lemma_plans_supported_take(plans: Seq<Plan>, m: int)
    requires
        plans_bindings_supported(plans),
        0 <= m <= plans.len(),
    ensures
        plans_bindings_supported(plans.take(m)),
        m > 0 ==> bindings_supported(plans[m - 1]),
    decreases plans.len() - m,
{
    if m == plans.len() {
        assert(plans.take(m) =~= plans);
        if m > 0 {
            assert(plans.last() == plans[m - 1]);
        }
    } else {
        lemma_plans_supported_take(plans, m + 1);
        assert(plans.take(m + 1).drop_last() =~= plans.take(m));
        if m > 0 {
            assert(plans_bindings_supported(plans.take(m)));
            assert(plans.take(m).len() > 0);
            assert(bindings_supported(plans.take(m).last()));
            assert(plans.take(m).last() == plans[m - 1]);
        }
    }
}

/// Room for the remaining draws after a prefix of plans.
proof fn lemma_plans_counts_split(plans: Seq<Plan>, i: int, sym0: Var)
    requires
        0 <= i < plans.len(),
        sym0 - plans_gensym_count(plans) >= i64::MIN,
    ensures
        plans_bindings_spec(plans.take(i), sym0).1 - gensym_count(plans[i]) >= i64::MIN,
        plans_bindings_spec(plans.take(i), sym0).1 - plans_gensym_count(plans.take(i + 1))
            + plans_gensym_count(plans.take(i)) >= i64::MIN,
    decreases plans.len(),
{
    lemma_plans_gensym_count_nonneg(plans.take(i));
    lemma_gensym_count_nonneg(plans[i]);
    lemma_plans_counts_rest(plans, i);
    lemma_plans_bindings_spec_counter(plans.take(i), sym0);
    assert(plans.take(i + 1).drop_last() =~= plans.take(i));
    assert(plans.take(i + 1).last() == plans[i]);
}

/// The total draws dominate the draws of any prefix.
proof fn lemma_plans_counts_rest(plans: Seq<Plan>, i: int)
    requires
        0 <= i <= plans.len(),
    ensures
        plans_gensym_count(plans.take(i)) <= plans_gensym_count(plans),
        i < plans.len() ==> plans_gensym_count(plans.take(i)) + gensym_count(plans[i])
            <= plans_gensym_count(plans),
    decreases plans.len() - i,
{
    if i == plans.len() {
        assert(plans.take(i) =~= plans);
    } else {
        lemma_plans_counts_rest(plans, i + 1);
        lemma_gensym_count_nonneg(plans[i]);
        assert(plans.take(i + 1).drop_last() =~= plans.take(i));
        assert(plans.take(i + 1).last() == plans[i]);
    }
}

/// The abstraction of one produced datum.
pub type DatumModel = (Eid, Seq<char>, Val);

/// The abstractions of produced data.
pub open spec fn datafy_models(v: Seq<(Eid, Aid, Value)>) -> Seq<DatumModel> {
    Seq::new(v.len(), |i: int| (v[i].0, v[i].1@, v[i].2@))
}

/// How many entity ids a plan's data production draws.
pub open spec fn id_count(p: Plan) -> int
    decreases p,
{
    match p {
        Plan::Project(pr) => 1 + id_count(*pr.plan),
        Plan::Union(_) => 0,
        Plan::Join(j) => 1 + id_count(*j.left_plan) + id_count(*j.right_plan),
        Plan::Negate(inner) => id_count(*inner),
        Plan::MatchA(_, _, _) => 1,
        Plan::MatchEA(_, _, _) => 2,
        Plan::MatchAV(_, _, _) => 2,
        Plan::NameExpr(_, _) => 0,
    }
}

/// Id counts are never negative.
pub proof fn lemma_id_count_nonneg(p: Plan)
    ensures
        id_count(p) >= 0,
    decreases p,
{
    match p {
        Plan::Project(pr) => lemma_id_count_nonneg(*pr.plan),
        Plan::Join(j) => {
            lemma_id_count_nonneg(*j.left_plan);
            lemma_id_count_nonneg(*j.right_plan);
        },
        Plan::Negate(inner) => lemma_id_count_nonneg(*inner),
        _ => {
        },
    }
}

/// One reference datum per data row of a join child.
pub open spec fn join_refs(s: Seq<DatumModel>, eid: Eid) -> Seq<DatumModel> {
    Seq::new(s.len(), |i: int| (eid, "df.join/binding"@, Val::Eid(s[i].0)))
}

/// The data a plan produces when reified as facts, and the entity id
/// counter after drawing its fresh ids.
pub open spec fn datafy_spec(p: Plan, eid: Eid) -> (Seq<DatumModel>, Eid)
    decreases p,
{
    match p {
        Plan::Project(pr) => {
            let child = datafy_spec(*pr.plan, (eid + 1) as u64);
            if child.0.len() == 0 {
                (Seq::empty(), child.1)
            } else {
                (child.0.push((eid, "df.project/binding"@, Val::Eid(child.0[0].0))), child.1)
            }
        },
        Plan::Union(_) => (Seq::empty(), eid),
        Plan::Join(j) => {
            let left = datafy_spec(*j.left_plan, (eid + 1) as u64);
            let right = datafy_spec(*j.right_plan, left.1);
            (
                left.0 + right.0 + join_refs(left.0, eid) + join_refs(right.0, eid),
                right.1,
            )
        },
        Plan::Negate(inner) => datafy_spec(*inner, eid),
        Plan::MatchA(_, a, _) => (seq![(eid, "df.pattern/a"@, Val::Aid(a@))], (eid + 1) as u64),
        Plan::MatchEA(e, a, _) => (
            seq![
                (eid, "df.pattern/e"@, Val::Eid(e)),
                ((eid + 1) as u64, "df.pattern/a"@, Val::Aid(a@)),
            ],
            (eid + 2) as u64,
        ),
        Plan::MatchAV(_, a, v) => (
            seq![
                (eid, "df.pattern/a"@, Val::Aid(a@)),
                ((eid + 1) as u64, "df.pattern/v"@, v@),
            ],
            (eid + 2) as u64,
        ),
        Plan::NameExpr(_, _) => (Seq::empty(), eid),
    }
}

/// The id counter after production is the counter before, plus the
/// draws.
pub proof fn lemma_datafy_spec_counter(p: Plan, eid: Eid)
    requires
        eid + id_count(p) <= u64::MAX,
    ensures
        datafy_spec(p, eid).1 == eid + id_count(p),
    decreases p,
{
    match p {
        Plan::Project(pr) => {
            lemma_id_count_nonneg(*pr.plan);
            lemma_datafy_spec_counter(*pr.plan, (eid + 1) as u64);
        },
        Plan::Join(j) => {
            lemma_id_count_nonneg(*j.left_plan);
            lemma_id_count_nonneg(*j.right_plan);
            lemma_datafy_spec_counter(*j.left_plan, (eid + 1) as u64);
            lemma_datafy_spec_counter(*j.right_plan, datafy_spec(*j.left_plan, (eid + 1) as u64).1);
        },
        Plan::Negate(inner) => lemma_datafy_spec_counter(*inner, eid),
        _ => {
        },
    }
}

/// Concatenates two data lists.
fn append_data(a: Vec<(Eid, Aid, Value)>, b: Vec<(Eid, Aid, Value)>) -> (r: Vec<
    (Eid, Aid, Value),
>)
    ensures
        datafy_models(r@) == datafy_models(a@) + datafy_models(b@),
{
    let ghost av = a@;
    let ghost bv = b@;
    let mut out = a;
    let mut rest = b;
    out.append(&mut rest);
    proof {
        assert(datafy_models(out@) =~= datafy_models(av) + datafy_models(bv));
    }
    out
}

/// One reference datum per data row of a join child.
fn build_join_refs(data: &Vec<(Eid, Aid, Value)>, eid: Eid) -> (r: Vec<(Eid, Aid, Value)>)
    ensures
        datafy_models(r@) == join_refs(datafy_models(data@), eid),
{
    let mut out: Vec<(Eid, Aid, Value)> = Vec::new();
    let mut i: usize = 0;
    while i < data.len()
        invariant
            i <= data@.len(),
            out@.len() == i,
            forall|j: int|
                0 <= j < i ==> datafy_models(out@)[j] == (
                    eid,
                    "df.join/binding"@,
                    Val::Eid(data@[j].0),
                ),
        decreases data@.len() - i,
    {
        let ghost prev = out@;
        out.push((eid, "df.join/binding".to_owned(), Value::Eid(data[i].0)));
        proof {
            assert(datafy_models(out@) =~= datafy_models(prev).push(
                (eid, "df.join/binding"@, Val::Eid(data@[i as int].0)),
            ));
        }
        i = i + 1;
    }
    proof {
        assert(datafy_models(out@) =~= join_refs(datafy_models(data@), eid));
    }
    out
}

impl Plan {
    /// Reifies this plan as data: fresh entity ids describing its
    /// patterns and the bindings between them.
    pub fn datafy(&self, gen: &mut Generators) -> (r: Vec<(Eid, Aid, Value)>)
        requires
            old(gen).next_eid + id_count(*self) <= u64::MAX,
        ensures
            datafy_models(r@) == datafy_spec(*self, old(gen).next_eid).0,
            final(gen).next_eid == datafy_spec(*self, old(gen).next_eid).1,
            final(gen).next_sym == old(gen).next_sym,
        decreases *self,
    {
        match self {
            Plan::Project(pr) => {
                proof {
                    lemma_id_count_nonneg(*pr.plan);
                }
                let eid = next_id(gen);
                let data = pr.plan.datafy(gen);
                if data.len() == 0 {
                    proof {
                        assert(datafy_models(Seq::<(Eid, Aid, Value)>::empty()) =~= Seq::<
                            DatumModel,
                        >::empty());
                        assert(datafy_models(data@).len() == 0);
                    }
                    Vec::new()
                } else {
                    let child_eid = data[0].0;
                    let ghost prev = data@;
                    let mut out = data;
                    out.push((eid, "df.project/binding".to_owned(), Value::Eid(child_eid)));
                    proof {
                        assert(datafy_models(out@) =~= datafy_models(prev).push(
                            (eid, "df.project/binding"@, Val::Eid(prev[0].0)),
                        ));
                        assert(datafy_models(prev)[0] == datafy_spec(
                            *self,
                            old(gen).next_eid,
                        ).0[0]);
                    }
                    out
                }
            },
            Plan::Union(_) => Vec::new(),
            Plan::Join(j) => {
                proof {
                    lemma_id_count_nonneg(*j.left_plan);
                    lemma_id_count_nonneg(*j.right_plan);
                }
                let eid = next_id(gen);
                let left = j.left_plan.datafy(gen);
                proof {
                    lemma_datafy_spec_counter(*j.left_plan, (old(gen).next_eid + 1) as u64);
                }
                let right = j.right_plan.datafy(gen);
                let left_refs = build_join_refs(&left, eid);
                let right_refs = build_join_refs(&right, eid);
                append_data(append_data(append_data(left, right), left_refs), right_refs)
            },
            Plan::Negate(inner) => inner.datafy(gen),
            Plan::MatchA(_, a, _) => {
                let eid = next_id(gen);
                let mut out: Vec<(Eid, Aid, Value)> = Vec::new();
                out.push((eid, "df.pattern/a".to_owned(), Value::Aid(a.clone())));
                proof {
                    assert(datafy_models(out@) =~= datafy_spec(*self, old(gen).next_eid).0);
                }
                out
            },
            Plan::MatchEA(e, a, _) => {
                let eid1 = next_id(gen);
                let eid2 = next_id(gen);
                let mut out: Vec<(Eid, Aid, Value)> = Vec::new();
                out.push((eid1, "df.pattern/e".to_owned(), Value::Eid(*e)));
                out.push((eid2, "df.pattern/a".to_owned(), Value::Aid(a.clone())));
                proof {
                    assert(datafy_models(out@) =~= datafy_spec(*self, old(gen).next_eid).0);
                }
                out
            },
            Plan::MatchAV(_, a, v) => {
                let eid1 = next_id(gen);
                let eid2 = next_id(gen);
                let mut out: Vec<(Eid, Aid, Value)> = Vec::new();
                out.push((eid1, "df.pattern/a".to_owned(), Value::Aid(a.clone())));
                out.push((eid2, "df.pattern/v".to_owned(), v.duplicate()));
                proof {
                    assert(datafy_models(out@) =~= datafy_spec(*self, old(gen).next_eid).0);
                }
                out
            },
            Plan::NameExpr(_, _) => Vec::new(),
        }
    }
}

} // verus!
