use clipasm::compiler::stack::StackCompatibility;
use clipasm::compiler::typecheck::arena::{TypeArena, TypeConflict, TypeDomain};
use clipasm::compiler::typecheck::{compatibility, concrete_type, constrain, equate, value_slot, LocalSlot, Requirement};
use clipasm::model::ValueType;
use clipasm::source::SourceSpan;

fn domains_represent_the_closed_set() {
    let all = TypeDomain::timeline();
    let video = TypeDomain::from(ValueType::Video);
    let audio = TypeDomain::from(ValueType::Audio);

    assert!(all.contains(ValueType::Video));
    assert!(all.contains(ValueType::Audio));
    assert_eq!(video.concrete(), Some(ValueType::Video));
    assert_eq!(audio.concrete(), Some(ValueType::Audio));
    assert!(video.intersection(audio).is_empty());
    assert_eq!(all.intersection(video), video);
    assert_eq!(TypeDomain::timeline(), all);
}

fn narrow_once() {
    let mut arena = TypeArena::default();
    let variable = arena.allocate();
    let after_allocation = arena.revision();

    arena.constrain(variable, ValueType::Audio).expect("Audio satisfies Timeline");
    assert_eq!(arena.domain(variable).concrete(), Some(ValueType::Audio));
    assert!(arena.revision() > after_allocation);

    let after_narrowing = arena.revision();
    arena.constrain(variable, ValueType::Audio).expect("repeating a constraint is harmless");
    assert_eq!(arena.revision(), after_narrowing);
}

fn equate_transitively() {
    let mut arena = TypeArena::default();
    let first = arena.allocate();
    let second = arena.allocate_exact(ValueType::Video);
    let third = arena.allocate();

    arena.equate(first, second).expect("domains overlap");
    arena.equate(third, first).expect("domains overlap");

    for variable in [first, second, third] {
        assert_eq!(arena.domain(variable).concrete(), Some(ValueType::Video));
    }
}

fn conflicts_unchanged() {
    let mut arena = TypeArena::default();
    let video = arena.allocate_exact(ValueType::Video);
    let audio = arena.allocate_exact(ValueType::Audio);
    let before_conflict = arena.revision();

    assert_eq!(
        arena.equate(video, audio),
        Err(TypeConflict {
            left: TypeDomain::from(ValueType::Video),
            right: TypeDomain::from(ValueType::Audio),
        })
    );
    assert_eq!(arena.revision(), before_conflict);
    assert_eq!(arena.domain(video).concrete(), Some(ValueType::Video));
    assert_eq!(arena.domain(audio).concrete(), Some(ValueType::Audio));

    assert!(arena.constrain(video, ValueType::Audio).is_err());
    assert_eq!(arena.revision(), before_conflict);
    assert_eq!(arena.domain(video).concrete(), Some(ValueType::Video));
}

fn clone_for_retry() {
    let mut original = TypeArena::default();
    let variable = original.allocate();
    let mut attempt = original.clone();

    attempt.constrain(variable, ValueType::Video).expect("Video satisfies Timeline");

    assert_eq!(original.domain(variable).concrete(), None);
    assert_eq!(attempt.domain(variable).concrete(), Some(ValueType::Video));
    assert!(attempt.revision() > original.revision());
}

#[test]
fn typecheck_domains_represent_the_closed_value_type_set() {
    domains_represent_the_closed_set();
}

#[test]
fn typecheck_constraints_narrow_a_variable_once() {
    narrow_once();
}

#[test]
fn typecheck_equating_variables_intersects_their_domains_transitively() {
    equate_transitively();
}

#[test]
fn typecheck_conflicts_leave_the_arena_unchanged() {
    conflicts_unchanged();
}

#[test]
fn typecheck_a_clone_can_be_narrowed_for_a_retry_without_changing_the_original() {
    clone_for_retry();
}

#[test]
fn infer_constraints_narrow_a_variable_once() {
    narrow_once();
}

#[test]
fn infer_equating_variables_intersects_their_domains_transitively() {
    equate_transitively();
}

#[test]
fn infer_conflicts_leave_the_arena_unchanged() {
    conflicts_unchanged();
}

#[test]
fn infer_a_clone_can_be_narrowed_for_a_retry_without_changing_the_original() {
    clone_for_retry();
}

#[test]
fn type_conflicts_are_reported_at_the_construct() {
    let span = SourceSpan::at("program.clipasm", 4, 2);
    let mut arena = TypeArena::default();
    let video = arena.allocate_exact(ValueType::Video);
    let audio = arena.allocate_exact(ValueType::Audio);
    let open = arena.allocate();

    let error = equate(&mut arena, video, audio, &span).expect_err("disjoint");
    assert_eq!(error.code, "E_GENERIC_TYPE_MISMATCH");
    assert_eq!(error.message, "generic inputs and outputs must resolve to one value type");
    assert_eq!(error.span, span);

    let error = constrain(&mut arena, audio, ValueType::Video, &span).expect_err("excluded");
    assert_eq!(error.code, "E_GENERIC_TYPE_MISMATCH");

    let error = concrete_type(&arena, open, &span).expect_err("unresolved");
    assert_eq!(error.code, "E_TYPE_INFERENCE_DEPENDENCY");
    constrain(&mut arena, open, ValueType::Audio, &span).expect("narrow");
    assert_eq!(concrete_type(&arena, open, &span).expect("resolved"), ValueType::Audio);
}

#[test]
fn compatibility_distinguishes_impossible_possible_and_definite_values() {
    let mut arena = TypeArena::default();
    let video = arena.allocate_exact(ValueType::Video);
    let open = arena.allocate();

    assert_eq!(compatibility(&arena, video, Requirement::Exact(ValueType::Audio)), StackCompatibility::Incompatible);
    assert_eq!(compatibility(&arena, video, Requirement::Exact(ValueType::Video)), StackCompatibility::Definite);
    assert_eq!(compatibility(&arena, open, Requirement::Exact(ValueType::Video)), StackCompatibility::Possible);
    assert_eq!(compatibility(&arena, video, Requirement::Generic(open)), StackCompatibility::Definite);
}

#[test]
fn value_slots_reject_parameters_and_unknown_names() {
    let span = SourceSpan::file_start("program.clipasm");
    let mut arena = TypeArena::default();
    let variable = arena.allocate();
    let slots = vec![("clip".to_string(), LocalSlot::Value(variable)), ("count".to_string(), LocalSlot::Parameter)];

    assert_eq!(value_slot(&slots, "clip", &span).expect("value"), variable);
    let error = value_slot(&slots, "count", &span).expect_err("parameter");
    assert_eq!(error.code, "E_PARAMETER_NOT_VALUE");
    assert_eq!(error.message, "parameter `$count` is not a graph value");
    let error = value_slot(&slots, "missing", &span).expect_err("unknown");
    assert_eq!(error.code, "E_MISSING_REFERENCE");
    assert_eq!(error.message, "reference `$missing` does not name an input, body alias, or output binding");
}
