//! Logical bindings produced by plans for the worst-case-optimal
//! evaluator.

use vstd::prelude::*;

verus! {

use crate::{Aid, Var};
use crate::value::{Val, Value};

/// A pair of variables bound to all `(e, v)` pairs of a named
/// attribute; a logical edge not yet materialised.
pub struct AttributeBinding {
    /// The entity and value variables, in this order.
    pub variables: (Var, Var),
    /// The attribute whose pairs bind the variables.
    pub source_attribute: Aid,
}

/// A variable bound to a literal value.
pub struct ConstantBinding {
    /// The bound variable.
    pub variable: Var,
    /// The literal it is bound to.
    pub value: Value,
}

/// A logical binding for downstream worst-case-optimal evaluation.
pub enum Binding {
    /// All `(e, v)` pairs of an attribute.
    Attribute(AttributeBinding),
    /// A constant.
    Constant(ConstantBinding),
}

impl Binding {
    /// An attribute binding of `(e, v)` over attribute `a`.
    pub fn attribute(e: Var, a: &Aid, v: Var) -> (r: Binding)
        ensures
            r matches Binding::Attribute(ab) && ab.variables == (e, v) && ab.source_attribute@
                == a@,
    {
        Binding::Attribute(
            AttributeBinding { variables: (e, v), source_attribute: a.clone() },
        )
    }

    /// A constant binding of `variable` to `value`.
    pub fn constant(variable: Var, value: Value) -> (r: Binding)
        ensures
            r matches Binding::Constant(cb) && cb.variable == variable && cb.value@ == value@,
    {
        Binding::Constant(ConstantBinding { variable, value })
    }

    /// The abstraction of this binding: the variables it binds and
    /// the attribute name or constant it binds them to.
    pub open spec fn model(self) -> (Seq<Var>, Option<Seq<char>>, Option<Val>) {
        match self {
            Binding::Attribute(ab) => (
                seq![ab.variables.0, ab.variables.1],
                Some(ab.source_attribute@),
                None,
            ),
            Binding::Constant(cb) => (seq![cb.variable], None, Some(cb.value@)),
        }
    }
}

} // verus!
