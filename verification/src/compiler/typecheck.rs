//! Monotonic type resolution for authored programs: the diagnostics of the
//! type arena and the questions resolution asks of it.

use vstd::prelude::*;

pub mod arena;

use crate::compiler::stack::StackCompatibility;
use crate::diagnostic::{BuiltinDiagnostic, Diagnostic};
use crate::model::ValueType;
use crate::source::SourceSpan;
use arena::{spec_concrete, spec_type_bits, TypeArena, TypeConflict, TypeDomain, TypeVarId};

verus! {

/// What a name in a program body's scope stands for during type resolution.
#[derive(Clone, Copy, Debug, PartialEq, Eq, Structural)]
pub enum LocalSlot {
    /// A graph value, typed by a variable of the arena.
    Value(TypeVarId),
    /// A scalar parameter, which is no graph value.
    Parameter,
}

/// What an input requires of the value bound to it.
#[derive(Clone, Copy, Debug, PartialEq, Eq, Structural)]
pub enum Requirement {
    /// Exactly one value type.
    Exact(ValueType),
    /// The type of a generic type variable.
    Generic(TypeVarId),
}

/// The diagnostic for a generic type that resolves to two value types.
pub fn type_mismatch(span: &SourceSpan) -> (error: Diagnostic)
    ensures
        error.code@ == "E_GENERIC_TYPE_MISMATCH"@,
        error.message@ == "generic inputs and outputs must resolve to one value type"@,
        error.span == *span,
{
    Diagnostic::builtin(
        BuiltinDiagnostic::GenericTypeMismatch,
        String::from_str("generic inputs and outputs must resolve to one value type"),
        span.clone_span(),
    )
}

/// The diagnostic for a generic type that depends on an unresolved stack selection.
pub fn inference_dependency(span: &SourceSpan) -> (error: Diagnostic)
    ensures
        error.code@ == "E_TYPE_INFERENCE_DEPENDENCY"@,
        error.message@ == "generic type inference depends on an unresolved stack selection; add `<Video>` or `<Audio>`"@,
        error.span == *span,
{
    Diagnostic::builtin(
        BuiltinDiagnostic::TypeInferenceDependency,
        String::from_str("generic type inference depends on an unresolved stack selection; add `<Video>` or `<Audio>`"),
        span.clone_span(),
    )
}

/// Unify two type variables, reporting `E_GENERIC_TYPE_MISMATCH` at `span` when their domains are disjoint.
pub fn equate(arena: &mut TypeArena, left: TypeVarId, right: TypeVarId, span: &SourceSpan) -> (result: Result<(), Diagnostic>)
    requires
        old(arena).wf(),
        left.0 < old(arena).len(),
        right.0 < old(arena).len(),
        old(arena).spec_revision() < u64::MAX,
    ensures
        final(arena).wf(),
        ({
            let l = old(arena).domain_of(left.0 as int);
            let r = old(arena).domain_of(right.0 as int);
            &&& l.0 & r.0 == 0 ==> final(arena).unchanged_from(*old(arena))
                && (result matches Err(error) && error.code@ == "E_GENERIC_TYPE_MISMATCH"@ && error.span == *span)
            &&& l.0 & r.0 != 0 ==> result is Ok
                && final(arena).merged_from(*old(arena), left.0 as int, right.0 as int, TypeDomain(l.0 & r.0))
        }),
{
    match arena.equate(left, right) {
        Ok(()) => Ok(()),
        Err(_) => Err(type_mismatch(span)),
    }
}

/// Narrow a type variable to `value_type`, reporting `E_GENERIC_TYPE_MISMATCH` at `span` when its domain excludes it.
pub fn constrain(arena: &mut TypeArena, variable: TypeVarId, value_type: ValueType, span: &SourceSpan) -> (result: Result<(), Diagnostic>)
    requires
        old(arena).wf(),
        variable.0 < old(arena).len(),
        old(arena).spec_revision() < u64::MAX,
    ensures
        final(arena).wf(),
        ({
            let current = old(arena).domain_of(variable.0 as int);
            let narrowed = TypeDomain(current.0 & spec_type_bits(value_type));
            &&& narrowed.0 == 0 ==> final(arena).unchanged_from(*old(arena))
                && (result matches Err(error) && error.code@ == "E_GENERIC_TYPE_MISMATCH"@ && error.span == *span)
            &&& narrowed.0 != 0 && narrowed == current ==> result is Ok && final(arena).unchanged_from(*old(arena))
            &&& narrowed.0 != 0 && narrowed != current ==> result is Ok
                && final(arena).narrowed_from(*old(arena), variable.0 as int, narrowed)
                && final(arena).spec_revision() == old(arena).spec_revision() + 1
        }),
{
    match arena.constrain(variable, value_type) {
        Ok(()) => Ok(()),
        Err(_) => Err(type_mismatch(span)),
    }
}

/// Return the single type of a resolved variable, or `E_TYPE_INFERENCE_DEPENDENCY` at `span`.
pub fn concrete_type(arena: &TypeArena, value: TypeVarId, span: &SourceSpan) -> (result: Result<ValueType, Diagnostic>)
    requires
        arena.wf(),
        value.0 < arena.len(),
    ensures
        spec_concrete(arena.domain_of(value.0 as int)) matches Some(t) ==> result == Ok::<ValueType, Diagnostic>(t),
        spec_concrete(arena.domain_of(value.0 as int)) is None ==> (result matches Err(error)
            && error.code@ == "E_TYPE_INFERENCE_DEPENDENCY"@ && error.span == *span),
{
    match arena.domain(value).concrete() {
        Some(value_type) => Ok(value_type),
        None => Err(inference_dependency(span)),
    }
}

/// The domain a requirement admits.
pub open spec fn spec_required_domain(arena: TypeArena, requirement: Requirement) -> TypeDomain {
    match requirement {
        Requirement::Exact(value_type) => TypeDomain(spec_type_bits(value_type)),
        Requirement::Generic(variable) => arena.domain_of(variable.0 as int),
    }
}

/// Decide whether a value of variable `value` can satisfy `requirement`: never, possibly, or surely.
pub fn compatibility(arena: &TypeArena, value: TypeVarId, requirement: Requirement) -> (result: StackCompatibility)
    requires
        arena.wf(),
        value.0 < arena.len(),
        requirement matches Requirement::Generic(variable) ==> variable.0 < arena.len(),
    ensures
        ({
            let have = arena.domain_of(value.0 as int);
            let need = spec_required_domain(*arena, requirement);
            &&& have.0 & need.0 == 0 ==> result == StackCompatibility::Incompatible
            &&& have.0 & need.0 != 0 && have.0 & !need.0 == 0 ==> result == StackCompatibility::Definite
            &&& have.0 & need.0 != 0 && have.0 & !need.0 != 0 ==> result == StackCompatibility::Possible
        }),
{
    let value_domain = arena.domain(value);
    let required_domain = match requirement {
        Requirement::Exact(value_type) => TypeDomain::from_value_type(value_type),
        Requirement::Generic(variable) => arena.domain(variable),
    };
    if !value_domain.overlaps(required_domain) {
        StackCompatibility::Incompatible
    } else if value_domain.is_subset_of(required_domain) {
        StackCompatibility::Definite
    } else {
        StackCompatibility::Possible
    }
}

/// What the scope entry named `name` stands for, if any.
pub open spec fn spec_slot(slots: Seq<(String, LocalSlot)>, name: Seq<char>) -> Option<LocalSlot> {
    if exists|i: int| 0 <= i < slots.len() && #[trigger] slots[i].0@ == name {
        Some(slots[choose|i: int| 0 <= i < slots.len() && #[trigger] slots[i].0@ == name].1)
    } else {
        None
    }
}

/// Return the type variable of the graph value named `name`.
///
/// Fails with `E_PARAMETER_NOT_VALUE` for a scalar parameter and with
/// `E_MISSING_REFERENCE` for a name the scope does not hold.
pub fn value_slot(slots: &Vec<(String, LocalSlot)>, name: &str, span: &SourceSpan) -> (result: Result<TypeVarId, Diagnostic>)
    requires
        crate::compiler::entrypoint::spec_distinct_names(slots@),
    ensures
        match spec_slot(slots@, name@) {
            Some(LocalSlot::Value(variable)) => result == Ok::<TypeVarId, Diagnostic>(variable),
            Some(LocalSlot::Parameter) => result matches Err(error)
                && error.code@ == "E_PARAMETER_NOT_VALUE"@
                && error.message@ == "parameter `$"@ + name@ + "` is not a graph value"@
                && error.span == *span,
            None => result matches Err(error)
                && error.code@ == "E_MISSING_REFERENCE"@
                && error.message@ == "reference `$"@ + name@ + "` does not name an input, body alias, or output binding"@
                && error.span == *span,
        },
{
    let mut i: usize = 0;
    while i < slots.len()
        invariant
            i <= slots@.len(),
            crate::compiler::entrypoint::spec_distinct_names(slots@),
            forall|j: int| 0 <= j < i ==> #[trigger] slots@[j].0@ != name@,
        decreases slots@.len() - i,
    {
        if crate::text::str_eq(slots[i].0.as_str(), name) {
            proof {
                assert(slots@[i as int].0@ == name@);
                let k = choose|k: int| 0 <= k < slots@.len() && #[trigger] slots@[k].0@ == name@;
                if k != i as int {
                    assert(slots@[k].0@ != slots@[i as int].0@);
                }
            }
            return match slots[i].1 {
                LocalSlot::Value(variable) => Ok(variable),
                LocalSlot::Parameter => {
                    let mut message = String::from_str("parameter `$");
                    message.append(name);
                    message.append("` is not a graph value");
                    Err(Diagnostic::builtin(BuiltinDiagnostic::ParameterNotValue, message, span.clone_span()))
                },
            };
        }
        i = i + 1;
    }
    let mut message = String::from_str("reference `$");
    message.append(name);
    message.append("` does not name an input, body alias, or output binding");
    Err(Diagnostic::builtin(BuiltinDiagnostic::MissingReference, message, span.clone_span()))
}

} // verus!
