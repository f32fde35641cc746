//! The compilation-time facade over the trace catalog: per-attribute
//! indexed traces and named-rule arrangements.

use vstd::prelude::*;

verus! {

use crate::collection::{Diff, Tuple, Update};
use crate::plan::Rule;
use crate::relation::{PairTuple, PairUpdate};
use crate::value::Val;
use crate::value::Value;
use crate::Aid;

/// One update of a count trace: a key, a time, and a diff.
pub type CountTuple = (Value, u64, Diff);

/// The abstraction of one count update.
pub type CountUpdate = (Val, u64, Diff);

/// Whether an association list holds the given name.
pub open spec fn assoc_contains<T>(s: Seq<(String, T)>, name: Seq<char>) -> bool {
    exists|i: int| 0 <= i < s.len() && (#[trigger] s[i]).0@ == name
}

/// The first entry of an association list under the given name.
pub open spec fn assoc_find<T>(s: Seq<(String, T)>, name: Seq<char>) -> Option<T>
    decreases s.len(),
{
    if s.len() == 0 {
        None
    } else if s[0].0@ == name {
        Some(s[0].1)
    } else {
        assoc_find(s.subrange(1, s.len() as int), name)
    }
}

/// The first matching entry determines `assoc_find`.
pub proof fn lemma_assoc_find_first<T>(s: Seq<(String, T)>, name: Seq<char>, i: int)
    requires
        0 <= i < s.len(),
        s[i].0@ == name,
        forall|j: int| 0 <= j < i ==> (#[trigger] s[j]).0@ != name,
    ensures
        assoc_find(s, name) == Some(s[i].1),
        assoc_contains(s, name),
    decreases s.len(),
{
    if i > 0 {
        let sub = s.subrange(1, s.len() as int);
        assert forall|j: int| 0 <= j < i - 1 implies (#[trigger] sub[j]).0@ != name by {
            assert(sub[j] == s[j + 1]);
        }
        assert(sub[i - 1] == s[i]);
        lemma_assoc_find_first(sub, name, i - 1);
    }
}

/// A name matched by no entry is not contained.
pub proof fn lemma_assoc_find_none<T>(s: Seq<(String, T)>, name: Seq<char>)
    requires
        forall|j: int| 0 <= j < s.len() ==> (#[trigger] s[j]).0@ != name,
    ensures
        !assoc_contains(s, name),
        assoc_find(s, name) is None,
    decreases s.len(),
{
    if s.len() > 0 {
        let sub = s.subrange(1, s.len() as int);
        assert forall|j: int| 0 <= j < sub.len() implies (#[trigger] sub[j]).0@ != name by {
            assert(sub[j] == s[j + 1]);
        }
        lemma_assoc_find_none(sub, name);
    }
}

/// The six logical indices of one attribute, in pairs of forward
/// (keyed by entity) and reverse (keyed by value) variants.
pub struct AttributeTraces {
    /// Entity to distinct-count.
    pub forward_count: Vec<CountTuple>,
    /// Entity to value.
    pub forward_propose: Vec<PairTuple>,
    /// `(entity, value)` presence.
    pub forward_validate: Vec<PairTuple>,
    /// Value to distinct-count.
    pub reverse_count: Vec<CountTuple>,
    /// Value to entity.
    pub reverse_propose: Vec<PairTuple>,
    /// `(value, entity)` presence.
    pub reverse_validate: Vec<PairTuple>,
}

/// A thing that can provide global state required during the
/// implementation of plans: the per-attribute indexed traces and the
/// named-rule arrangements.
pub trait ImplContext {
    /// The attributes the catalog indexes.
    spec fn attr_names(&self) -> Set<Seq<char>>;

    /// The forward propose trace of an attribute.
    spec fn fwd_propose_model(&self, name: Seq<char>) -> Seq<PairUpdate>;

    /// The reverse propose trace of an attribute.
    spec fn rev_propose_model(&self, name: Seq<char>) -> Seq<PairUpdate>;

    /// The forward count trace of an attribute.
    spec fn fwd_count_model(&self, name: Seq<char>) -> Seq<CountUpdate>;

    /// The reverse count trace of an attribute.
    spec fn rev_count_model(&self, name: Seq<char>) -> Seq<CountUpdate>;

    /// The forward validate trace of an attribute.
    spec fn fwd_validate_model(&self, name: Seq<char>) -> Seq<PairUpdate>;

    /// The reverse validate trace of an attribute.
    spec fn rev_validate_model(&self, name: Seq<char>) -> Seq<PairUpdate>;

    /// The rules the catalog defines.
    spec fn rule_names(&self) -> Set<Seq<char>>;

    /// The names under which materialised relations are registered.
    spec fn global_names(&self) -> Set<Seq<char>>;

    /// The contents of a materialised named relation.
    spec fn global_model(&self, name: Seq<char>) -> Seq<Update>;

    /// The rules considered underconstrained.
    spec fn underconstrained_names(&self) -> Set<Seq<char>>;

    /// Returns the definition for the rule of the given name.
    fn rule(&self, name: &str) -> (r: Option<&Rule>)
        ensures
            r is Some <==> self.rule_names().contains(name@),
    ;

    /// Returns a materialised (non-base) relation, if one is
    /// registered under the given name.
    fn global_arrangement(&self, name: &str) -> (r: Option<&Vec<Tuple>>)
        ensures
            match r {
                Some(t) => self.global_names().contains(name@) && t.deep_view()
                    == self.global_model(name@),
                None => !self.global_names().contains(name@),
            },
    ;

    /// Checks whether an attribute of that name exists.
    fn has_attribute(&self, name: &str) -> (r: bool)
        ensures
            r == self.attr_names().contains(name@),
    ;

    /// Retrieves the forward count trace for the specified aid.
    fn forward_count(&self, name: &str) -> (r: Option<&Vec<CountTuple>>)
        ensures
            match r {
                Some(t) => self.attr_names().contains(name@) && t.deep_view()
                    == self.fwd_count_model(name@),
                None => !self.attr_names().contains(name@),
            },
    ;

    /// Retrieves the forward propose trace for the specified aid.
    fn forward_propose(&self, name: &str) -> (r: Option<&Vec<PairTuple>>)
        ensures
            match r {
                Some(t) => self.attr_names().contains(name@) && t.deep_view()
                    == self.fwd_propose_model(name@),
                None => !self.attr_names().contains(name@),
            },
    ;

    /// Retrieves the forward validate trace for the specified aid.
    fn forward_validate(&self, name: &str) -> (r: Option<&Vec<PairTuple>>)
        ensures
            match r {
                Some(t) => self.attr_names().contains(name@) && t.deep_view()
                    == self.fwd_validate_model(name@),
                None => !self.attr_names().contains(name@),
            },
    ;

    /// Retrieves the reverse count trace for the specified aid.
    fn reverse_count(&self, name: &str) -> (r: Option<&Vec<CountTuple>>)
        ensures
            match r {
                Some(t) => self.attr_names().contains(name@) && t.deep_view()
                    == self.rev_count_model(name@),
                None => !self.attr_names().contains(name@),
            },
    ;

    /// Retrieves the reverse propose trace for the specified aid.
    fn reverse_propose(&self, name: &str) -> (r: Option<&Vec<PairTuple>>)
        ensures
            match r {
                Some(t) => self.attr_names().contains(name@) && t.deep_view()
                    == self.rev_propose_model(name@),
                None => !self.attr_names().contains(name@),
            },
    ;

    /// Retrieves the reverse validate trace for the specified aid.
    fn reverse_validate(&self, name: &str) -> (r: Option<&Vec<PairTuple>>)
        ensures
            match r {
                Some(t) => self.attr_names().contains(name@) && t.deep_view()
                    == self.rev_validate_model(name@),
                None => !self.attr_names().contains(name@),
            },
    ;

    /// The current opinion as to whether this rule is
    /// underconstrained. Underconstrained rules cannot be safely
    /// materialised and re-used on their own.
    fn is_underconstrained(&self, name: &str) -> (r: bool)
        ensures
            r == self.underconstrained_names().contains(name@),
    ;
}

/// Scope-local collections for rules under compilation, by name.
pub struct VariableMap {
    /// Name to scope-local collection.
    pub entries: Vec<(String, Vec<Tuple>)>,
}

impl VariableMap {
    /// The names bound in this map.
    pub open spec fn names(&self) -> Set<Seq<char>> {
        Set::new(|n: Seq<char>| assoc_contains(self.entries@, n))
    }

    /// The collection bound under a name.
    pub open spec fn model(&self, name: Seq<char>) -> Seq<Update> {
        match assoc_find(self.entries@, name) {
            Some(t) => t.deep_view(),
            None => Seq::empty(),
        }
    }

    /// An empty map.
    pub fn new() -> (r: VariableMap)
        ensures
            r.names() == Set::<Seq<char>>::empty(),
    {
        let r = VariableMap { entries: Vec::new() };
        proof {
            assert(r.names() =~= Set::<Seq<char>>::empty());
        }
        r
    }

    /// Binds a name to a collection; the newest binding of a name
    /// shadows older ones.
    pub fn bind(&mut self, name: String, tuples: Vec<Tuple>)
        ensures
            final(self).names() == old(self).names().insert(name@),
            final(self).model(name@) == tuples.deep_view(),
    {
        let ghost n = name@;
        let ghost tv = tuples.deep_view();
        self.entries.insert(0, (name, tuples));
        proof {
            assert(self.entries@[0].0@ == n);
            lemma_assoc_find_first(self.entries@, n, 0);
            assert forall|m: Seq<char>| self.names().contains(m) implies old(
                self,
            ).names().contains(m) || m == n by {
                let i = choose|i: int|
                    0 <= i < self.entries@.len() && (#[trigger] self.entries@[i]).0@ == m;
                if i > 0 {
                    assert(old(self).entries@[i - 1] == self.entries@[i]);
                }
            }
            assert forall|m: Seq<char>| old(self).names().contains(m) implies self.names().contains(
                m,
            ) by {
                let i = choose|i: int|
                    0 <= i < old(self).entries@.len() && (#[trigger] old(self).entries@[i]).0@ == m;
                assert(self.entries@[i + 1] == old(self).entries@[i]);
            }
            assert(self.names() =~= old(self).names().insert(n));
        }
    }

    /// Looks a name up.
    pub fn get(&self, name: &str) -> (r: Option<&Vec<Tuple>>)
        ensures
            match r {
                Some(t) => self.names().contains(name@) && t.deep_view() == self.model(name@),
                None => !self.names().contains(name@),
            },
    {
        let owned = name.to_owned();
        let mut i: usize = 0;
        while i < self.entries.len()
            invariant
                i <= self.entries@.len(),
                owned@ == name@,
                forall|j: int| 0 <= j < i ==> (#[trigger] self.entries@[j]).0@ != name@,
            decreases self.entries@.len() - i,
        {
            if self.entries[i].0.eq(&owned) {
                proof {
                    lemma_assoc_find_first(self.entries@, name@, i as int);
                }
                return Some(&self.entries[i].1);
            }
            i = i + 1;
        }
        proof {
            lemma_assoc_find_none(self.entries@, name@);
        }
        None
    }
}

/// An in-memory catalog: attributes with their six indices, named
/// rules, materialised global relations, and the names considered
/// underconstrained.
pub struct InMemoryContext {
    /// Attribute name to its indexed traces.
    pub attributes: Vec<(String, AttributeTraces)>,
    /// Rule name to its definition.
    pub rules: Vec<(String, Rule)>,
    /// Relation name to its materialised contents.
    pub globals: Vec<(String, Vec<Tuple>)>,
    /// Rules that cannot be materialised stand-alone.
    pub underconstrained: Vec<String>,
}

/// Whether some string of the sequence reads `n`.
pub open spec fn names_seq_contains(s: Seq<String>, n: Seq<char>) -> bool {
    exists|i: int| 0 <= i < s.len() && (#[trigger] s[i])@ == n
}

impl InMemoryContext {
    /// An empty catalog.
    pub fn new() -> (r: InMemoryContext)
        ensures
            r.attr_names() == Set::<Seq<char>>::empty(),
            r.rule_names() == Set::<Seq<char>>::empty(),
            r.global_names() == Set::<Seq<char>>::empty(),
            r.underconstrained_names() == Set::<Seq<char>>::empty(),
    {
        let r = InMemoryContext {
            attributes: Vec::new(),
            rules: Vec::new(),
            globals: Vec::new(),
            underconstrained: Vec::new(),
        };
        proof {
            assert(r.attr_names() =~= Set::<Seq<char>>::empty());
            assert(r.rule_names() =~= Set::<Seq<char>>::empty());
            assert(r.global_names() =~= Set::<Seq<char>>::empty());
            assert(r.underconstrained_names() =~= Set::<Seq<char>>::empty());
        }
        r
    }

    /// Registers an attribute with its traces; the newest entry of a
    /// name shadows older ones.
    pub fn add_attribute(&mut self, name: String, traces: AttributeTraces)
        ensures
            final(self).attr_names() == old(self).attr_names().insert(name@),
            final(self).fwd_propose_model(name@) == traces.forward_propose.deep_view(),
            final(self).rev_propose_model(name@) == traces.reverse_propose.deep_view(),
            final(self).rule_names() == old(self).rule_names(),
            final(self).global_names() == old(self).global_names(),
            final(self).underconstrained_names() == old(self).underconstrained_names(),
    {
        let ghost n = name@;
        self.attributes.insert(0, (name, traces));
        proof {
            lemma_assoc_find_first(self.attributes@, n, 0);
            assert forall|m: Seq<char>| self.attr_names().contains(m) implies old(
                self,
            ).attr_names().contains(m) || m == n by {
                let i = choose|i: int|
                    0 <= i < self.attributes@.len() && (#[trigger] self.attributes@[i]).0@ == m;
                if i > 0 {
                    assert(old(self).attributes@[i - 1] == self.attributes@[i]);
                }
            }
            assert forall|m: Seq<char>| old(self).attr_names().contains(m) implies
            self.attr_names().contains(m) by {
                let i = choose|i: int|
                    0 <= i < old(self).attributes@.len() && (#[trigger] old(
                        self,
                    ).attributes@[i]).0@ == m;
                assert(self.attributes@[i + 1] == old(self).attributes@[i]);
            }
            assert(self.attr_names() =~= old(self).attr_names().insert(n));
            assert(self.rule_names() =~= old(self).rule_names());
            assert(self.global_names() =~= old(self).global_names());
        }
    }

    /// Registers a materialised relation under a name.
    pub fn add_global(&mut self, name: String, tuples: Vec<Tuple>)
        ensures
            final(self).global_names() == old(self).global_names().insert(name@),
            final(self).global_model(name@) == tuples.deep_view(),
            final(self).attr_names() == old(self).attr_names(),
            final(self).rule_names() == old(self).rule_names(),
            final(self).underconstrained_names() == old(self).underconstrained_names(),
    {
        let ghost n = name@;
        self.globals.insert(0, (name, tuples));
        proof {
            lemma_assoc_find_first(self.globals@, n, 0);
            assert forall|m: Seq<char>| self.global_names().contains(m) implies old(
                self,
            ).global_names().contains(m) || m == n by {
                let i = choose|i: int|
                    0 <= i < self.globals@.len() && (#[trigger] self.globals@[i]).0@ == m;
                if i > 0 {
                    assert(old(self).globals@[i - 1] == self.globals@[i]);
                }
            }
            assert forall|m: Seq<char>| old(self).global_names().contains(m) implies
            self.global_names().contains(m) by {
                let i = choose|i: int|
                    0 <= i < old(self).globals@.len() && (#[trigger] old(self).globals@[i]).0@
                        == m;
                assert(self.globals@[i + 1] == old(self).globals@[i]);
            }
            assert(self.global_names() =~= old(self).global_names().insert(n));
            assert(self.attr_names() =~= old(self).attr_names());
            assert(self.rule_names() =~= old(self).rule_names());
        }
    }

    /// Finds an attribute's traces by name.
    fn find_attr(&self, name: &str) -> (r: Option<&AttributeTraces>)
        ensures
            match r {
                Some(t) => assoc_contains(self.attributes@, name@) && assoc_find(
                    self.attributes@,
                    name@,
                ) == Some(*t),
                None => !assoc_contains(self.attributes@, name@),
            },
    {
        let owned = name.to_owned();
        let mut i: usize = 0;
        while i < self.attributes.len()
            invariant
                i <= self.attributes@.len(),
                owned@ == name@,
                forall|j: int| 0 <= j < i ==> (#[trigger] self.attributes@[j]).0@ != name@,
            decreases self.attributes@.len() - i,
        {
            if self.attributes[i].0.eq(&owned) {
                proof {
                    lemma_assoc_find_first(self.attributes@, name@, i as int);
                }
                return Some(&self.attributes[i].1);
            }
            i = i + 1;
        }
        proof {
            lemma_assoc_find_none(self.attributes@, name@);
        }
        None
    }
}

impl ImplContext for InMemoryContext {
    open spec fn attr_names(&self) -> Set<Seq<char>> {
        Set::new(|n: Seq<char>| assoc_contains(self.attributes@, n))
    }

    open spec fn fwd_propose_model(&self, name: Seq<char>) -> Seq<PairUpdate> {
        match assoc_find(self.attributes@, name) {
            Some(t) => t.forward_propose.deep_view(),
            None => Seq::empty(),
        }
    }

    open spec fn rev_propose_model(&self, name: Seq<char>) -> Seq<PairUpdate> {
        match assoc_find(self.attributes@, name) {
            Some(t) => t.reverse_propose.deep_view(),
            None => Seq::empty(),
        }
    }

    open spec fn fwd_count_model(&self, name: Seq<char>) -> Seq<CountUpdate> {
        match assoc_find(self.attributes@, name) {
            Some(t) => t.forward_count.deep_view(),
            None => Seq::empty(),
        }
    }

    open spec fn rev_count_model(&self, name: Seq<char>) -> Seq<CountUpdate> {
        match assoc_find(self.attributes@, name) {
            Some(t) => t.reverse_count.deep_view(),
            None => Seq::empty(),
        }
    }

    open spec fn fwd_validate_model(&self, name: Seq<char>) -> Seq<PairUpdate> {
        match assoc_find(self.attributes@, name) {
            Some(t) => t.forward_validate.deep_view(),
            None => Seq::empty(),
        }
    }

    open spec fn rev_validate_model(&self, name: Seq<char>) -> Seq<PairUpdate> {
        match assoc_find(self.attributes@, name) {
            Some(t) => t.reverse_validate.deep_view(),
            None => Seq::empty(),
        }
    }

    open spec fn rule_names(&self) -> Set<Seq<char>> {
        Set::new(|n: Seq<char>| assoc_contains(self.rules@, n))
    }

    open spec fn global_names(&self) -> Set<Seq<char>> {
        Set::new(|n: Seq<char>| assoc_contains(self.globals@, n))
    }

    open spec fn global_model(&self, name: Seq<char>) -> Seq<Update> {
        match assoc_find(self.globals@, name) {
            Some(t) => t.deep_view(),
            None => Seq::empty(),
        }
    }

    open spec fn underconstrained_names(&self) -> Set<Seq<char>> {
        Set::new(|n: Seq<char>| names_seq_contains(self.underconstrained@, n))
    }

    fn rule(&self, name: &str) -> (r: Option<&Rule>) {
        let owned = name.to_owned();
        let mut i: usize = 0;
        while i < self.rules.len()
            invariant
                i <= self.rules@.len(),
                owned@ == name@,
                forall|j: int| 0 <= j < i ==> (#[trigger] self.rules@[j]).0@ != name@,
            decreases self.rules@.len() - i,
        {
            if self.rules[i].0.eq(&owned) {
                proof {
                    lemma_assoc_find_first(self.rules@, name@, i as int);
                }
                return Some(&self.rules[i].1);
            }
            i = i + 1;
        }
        proof {
            lemma_assoc_find_none(self.rules@, name@);
        }
        None
    }

    fn global_arrangement(&self, name: &str) -> (r: Option<&Vec<Tuple>>) {
        let owned = name.to_owned();
        let mut i: usize = 0;
        while i < self.globals.len()
            invariant
                i <= self.globals@.len(),
                owned@ == name@,
                forall|j: int| 0 <= j < i ==> (#[trigger] self.globals@[j]).0@ != name@,
            decreases self.globals@.len() - i,
        {
            if self.globals[i].0.eq(&owned) {
                proof {
                    lemma_assoc_find_first(self.globals@, name@, i as int);
                }
                return Some(&self.globals[i].1);
            }
            i = i + 1;
        }
        proof {
            lemma_assoc_find_none(self.globals@, name@);
        }
        None
    }

    fn has_attribute(&self, name: &str) -> (r: bool) {
        self.find_attr(name).is_some()
    }

    fn forward_count(&self, name: &str) -> (r: Option<&Vec<CountTuple>>) {
        match self.find_attr(name) {
            None => None,
            Some(t) => Some(&t.forward_count),
        }
    }

    fn forward_propose(&self, name: &str) -> (r: Option<&Vec<PairTuple>>) {
        match self.find_attr(name) {
            None => None,
            Some(t) => Some(&t.forward_propose),
        }
    }

    fn forward_validate(&self, name: &str) -> (r: Option<&Vec<PairTuple>>) {
        match self.find_attr(name) {
            None => None,
            Some(t) => Some(&t.forward_validate),
        }
    }

    fn reverse_count(&self, name: &str) -> (r: Option<&Vec<CountTuple>>) {
        match self.find_attr(name) {
            None => None,
            Some(t) => Some(&t.reverse_count),
        }
    }

    fn reverse_propose(&self, name: &str) -> (r: Option<&Vec<PairTuple>>) {
        match self.find_attr(name) {
            None => None,
            Some(t) => Some(&t.reverse_propose),
        }
    }

    fn reverse_validate(&self, name: &str) -> (r: Option<&Vec<PairTuple>>) {
        match self.find_attr(name) {
            None => None,
            Some(t) => Some(&t.reverse_validate),
        }
    }

    fn is_underconstrained(&self, name: &str) -> (r: bool) {
        let owned = name.to_owned();
        let mut i: usize = 0;
        while i < self.underconstrained.len()
            invariant
                i <= self.underconstrained@.len(),
                owned@ == name@,
                forall|j: int| 0 <= j < i ==> (#[trigger] self.underconstrained@[j])@ != name@,
            decreases self.underconstrained@.len() - i,
        {
            if self.underconstrained[i].eq(&owned) {
                return true;
            }
            i = i + 1;
        }
        false
    }
}

} // verus!
