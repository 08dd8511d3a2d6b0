use clipasm::compiler::stack::{
    EvaluationStack, PlannedStackInput, StackBindingFailure, StackBindingInput, StackBindingOutcome,
    StackCompatibility, StackCompatible, StackFrame,
};
use clipasm::diagnostic::{BuiltinDiagnostic, Diagnostic};
use clipasm::model::{ValueId, ValueRef, ValueType};
use clipasm::program::{Cardinality, InputSlot, StackAccess};
use clipasm::source::SourceSpan;

const VIDEO_DOMAIN: u8 = 1;
const AUDIO_DOMAIN: u8 = 2;
const TIMELINE_DOMAIN: u8 = VIDEO_DOMAIN | AUDIO_DOMAIN;

#[derive(Clone, Copy, Debug, Eq, PartialEq)]
struct AbstractValue {
    id: u8,
    domain: u8,
}

fn abstract_compatibility(value: AbstractValue, required: u8) -> StackCompatibility {
    match value.domain & required {
        0 => StackCompatibility::Incompatible,
        _ if value.domain == required => StackCompatibility::Definite,
        _ => StackCompatibility::Possible,
    }
}

impl StackCompatible<u8> for AbstractValue {
    fn spec_compatibility(self, required: u8) -> StackCompatibility {
        abstract_compatibility(self, required)
    }

    fn compatibility(self, required: u8) -> StackCompatibility {
        abstract_compatibility(self, required)
    }
}

fn value(id: u32) -> ValueRef {
    ValueRef::new(ValueId::new(id), ValueType::Video)
}

fn take_one_matching(
    stack: &mut EvaluationStack<ValueRef>,
    frame: &StackFrame,
    access: StackAccess,
    required: ValueType,
    program: &str,
    port: &str,
    span: &SourceSpan,
) -> Result<ValueRef, Diagnostic> {
    let inputs = [StackBindingInput {
        port: InputSlot::new(0),
        requirement: required,
        cardinality: Cardinality::One,
    }];
    let plan = match stack.plan_bindings(frame, access, &inputs) {
        StackBindingOutcome::Resolved(plan) => plan,
        StackBindingOutcome::Deferred => unreachable!("exact compatibility is concrete"),
        StackBindingOutcome::Impossible(failure) => {
            return Err(stack.underflow(
                frame,
                access,
                BuiltinDiagnostic::StackUnderflow,
                &format!("`{program}.{port}` needs one preceding {} value", required.label()),
                required,
                failure.available,
                &failure.selected,
                span.clone(),
            ));
        }
    };
    Ok(stack.apply_binding_plan(&plan)[0].values[0])
}

#[allow(clippy::too_many_arguments)]
fn take_all_matching(
    stack: &mut EvaluationStack<ValueRef>,
    frame: &StackFrame,
    access: StackAccess,
    required: ValueType,
    min: usize,
    program: &str,
    port: &str,
    span: &SourceSpan,
) -> Result<Vec<ValueRef>, Diagnostic> {
    let inputs = [StackBindingInput {
        port: InputSlot::new(0),
        requirement: required,
        cardinality: Cardinality::Variadic { min },
    }];
    let plan = match stack.plan_bindings(frame, access, &inputs) {
        StackBindingOutcome::Resolved(plan) => plan,
        StackBindingOutcome::Deferred => unreachable!("exact compatibility is concrete"),
        StackBindingOutcome::Impossible(failure) => {
            return Err(stack.underflow(
                frame,
                access,
                BuiltinDiagnostic::MissingRequiredInput,
                &format!("`{program}.{port}` needs at least {min} {} value(s)", required.label()),
                required,
                failure.available,
                &failure.selected,
                span.clone(),
            ));
        }
    };
    Ok(stack.apply_binding_plan(&plan)[0].values.clone())
}

fn span() -> SourceSpan {
    SourceSpan::file_start("workflow.clipasm")
}

fn root() -> (EvaluationStack<ValueRef>, StackFrame) {
    EvaluationStack::isolated("source program".to_string(), span())
}

fn abstract_root() -> (EvaluationStack<AbstractValue>, StackFrame) {
    EvaluationStack::isolated("inference".to_string(), span())
}

#[test]
fn planner_selects_missing_fixed_inputs_from_last_port_to_first() {
    let (mut stack, frame) = abstract_root();
    stack.extend(
        &frame,
        vec![
            AbstractValue { id: 0, domain: VIDEO_DOMAIN },
            AbstractValue { id: 1, domain: AUDIO_DOMAIN },
            AbstractValue { id: 2, domain: VIDEO_DOMAIN },
        ],
    );
    let inputs = [
        StackBindingInput { port: InputSlot::new(0), requirement: VIDEO_DOMAIN, cardinality: Cardinality::One },
        StackBindingInput { port: InputSlot::new(2), requirement: VIDEO_DOMAIN, cardinality: Cardinality::One },
    ];

    let StackBindingOutcome::Resolved(plan) = stack.plan_bindings(&frame, StackAccess::Owned, &inputs) else {
        panic!("fixed binding should resolve");
    };
    assert_eq!(
        plan.inputs,
        vec![
            PlannedStackInput { port: InputSlot::new(0), indices: vec![0] },
            PlannedStackInput { port: InputSlot::new(2), indices: vec![2] },
        ]
    );

    let bound = stack.apply_binding_plan(&plan);
    assert_eq!(bound[0].values[0].id, 0);
    assert_eq!(bound[1].values[0].id, 2);
    assert_eq!(stack.values().iter().map(|value| value.id).collect::<Vec<_>>(), [1]);
}

#[test]
fn planner_defers_when_a_nearer_value_may_match_a_fixed_input() {
    let (mut stack, frame) = abstract_root();
    stack.extend(
        &frame,
        vec![
            AbstractValue { id: 0, domain: VIDEO_DOMAIN },
            AbstractValue { id: 1, domain: TIMELINE_DOMAIN },
        ],
    );
    let inputs = [StackBindingInput { port: InputSlot::new(0), requirement: VIDEO_DOMAIN, cardinality: Cardinality::One }];

    assert_eq!(stack.plan_bindings(&frame, StackAccess::Owned, &inputs), StackBindingOutcome::Deferred);
    assert_eq!(stack.values().len(), 2, "planning is pure");
}

#[test]
fn planner_defers_a_variadic_binding_when_its_consumed_set_is_uncertain() {
    let (mut stack, frame) = abstract_root();
    stack.extend(
        &frame,
        vec![
            AbstractValue { id: 0, domain: VIDEO_DOMAIN },
            AbstractValue { id: 1, domain: TIMELINE_DOMAIN },
        ],
    );
    let inputs = [StackBindingInput {
        port: InputSlot::new(0),
        requirement: VIDEO_DOMAIN,
        cardinality: Cardinality::Variadic { min: 1 },
    }];

    assert_eq!(stack.plan_bindings(&frame, StackAccess::Owned, &inputs), StackBindingOutcome::Deferred);
}

#[test]
fn planner_distinguishes_impossible_binding_from_deferred_binding() {
    let (mut stack, frame) = abstract_root();
    stack.push(&frame, AbstractValue { id: 0, domain: AUDIO_DOMAIN });
    let inputs = [StackBindingInput {
        port: InputSlot::new(3),
        requirement: VIDEO_DOMAIN,
        cardinality: Cardinality::Variadic { min: 1 },
    }];

    assert_eq!(
        stack.plan_bindings(&frame, StackAccess::Owned, &inputs),
        StackBindingOutcome::Impossible(StackBindingFailure {
            port: InputSlot::new(3),
            available: 0,
            selected: vec![],
        })
    );
}

#[test]
fn owned_binding_consumes_only_values_owned_by_the_current_body() {
    let (mut stack, root) = root();
    stack.extend(&root, vec![value(0), value(1)]);
    let child = EvaluationStack::<ValueRef>::enter_body(&root, StackAccess::Visible, "body".to_string(), span());
    stack.push(&child, value(2));

    let consumed = take_one_matching(&mut stack, &child, StackAccess::Owned, ValueType::Video, "repeat", "video", &span())
        .expect("owned value");

    assert_eq!(consumed, value(2));
    assert_eq!(stack.values(), &[value(0), value(1)]);
}

#[test]
fn visible_binding_can_consume_ancestor_values_without_capturing_neighbors() {
    let (mut stack, root) = root();
    stack.extend(&root, vec![value(0), value(1)]);
    let child = EvaluationStack::<ValueRef>::enter_body(&root, StackAccess::Visible, "body".to_string(), span());
    stack.push(&child, value(2));

    let after = take_one_matching(&mut stack, &child, StackAccess::Visible, ValueType::Video, "flash_cut", "after", &span())
        .expect("after");
    let before = take_one_matching(&mut stack, &child, StackAccess::Visible, ValueType::Video, "flash_cut", "before", &span())
        .expect("before");

    assert_eq!([before, after], [value(1), value(2)]);
    assert_eq!(stack.values(), &[value(0)]);
}

#[test]
fn finishing_a_child_returns_only_child_owned_values() {
    let (mut stack, root) = root();
    stack.extend(&root, vec![value(0), value(1)]);
    let child = EvaluationStack::<ValueRef>::enter_body(&root, StackAccess::Visible, "body".to_string(), span());
    stack.push(&child, value(2));

    let owned = stack.finish_body(&child);

    assert_eq!(owned, vec![value(2)]);
    assert_eq!(stack.values(), &[value(0), value(1)]);
}

#[test]
fn owned_body_establishes_a_new_visibility_boundary() {
    let (mut stack, root) = root();
    stack.push(&root, value(0));
    let child = EvaluationStack::<ValueRef>::enter_body(&root, StackAccess::Owned, "during".to_string(), span());
    stack.push(&child, value(1));
    let _ = take_one_matching(&mut stack, &child, StackAccess::Visible, ValueType::Video, "flash_cut", "after", &span())
        .expect("child value");

    let error = take_one_matching(&mut stack, &child, StackAccess::Visible, ValueType::Video, "flash_cut", "before", &span())
        .expect_err("boundary blocks outer value");

    assert!(error.message.contains("only 0 visible Video"));
    assert!(error.notes.iter().any(|note| note.contains("during")));
}

#[test]
fn owned_variadic_underflow_reports_visible_values_outside_ownership() {
    let (mut stack, root) = root();
    stack.push(&root, value(0));
    let child = EvaluationStack::<ValueRef>::enter_body(&root, StackAccess::Visible, "stack block".to_string(), span());

    let error = take_all_matching(&mut stack, &child, StackAccess::Owned, ValueType::Video, 1, "concat", "videos", &span())
        .expect_err("owned concat cannot capture");

    assert_eq!(error.code, "E_MISSING_REQUIRED_INPUT");
    assert!(error.message.contains("only 0 owned Video"));
    assert!(error.notes.iter().any(|note| note.contains("1 additional Video value")));
}

#[test]
fn visible_variadic_consumes_all_matching_values_in_physical_order() {
    let (mut stack, root) = root();
    stack.extend(&root, vec![value(0), value(1)]);
    let child = EvaluationStack::<ValueRef>::enter_body(&root, StackAccess::Visible, "stack block".to_string(), span());
    stack.push(&child, value(2));

    let consumed = take_all_matching(&mut stack, &child, StackAccess::Visible, ValueType::Video, 1, "concat", "videos", &span())
        .expect("visible suffix");

    assert_eq!(consumed, vec![value(0), value(1), value(2)]);
    assert!(stack.values().is_empty());
}

#[test]
fn nonmatching_values_remain_ordered_when_matching_values_are_removed() {
    let (mut stack, root) = root();
    let test = |id| ValueRef::new(ValueId::new(id), ValueType::Audio);
    stack.extend(&root, vec![value(0), test(1), value(2), test(3)]);
    let consumed = take_all_matching(&mut stack, &root, StackAccess::Owned, ValueType::Video, 1, "concat", "videos", &span())
        .expect("Videos");

    assert_eq!(consumed, vec![value(0), value(2)]);
    assert_eq!(stack.values(), &[test(1), test(3)]);
}

#[test]
fn nested_visible_bodies_share_the_nearest_visibility_boundary() {
    let (mut stack, root) = root();
    stack.push(&root, value(0));
    let parent = EvaluationStack::<ValueRef>::enter_body(&root, StackAccess::Visible, "parent".to_string(), span());
    stack.push(&parent, value(1));
    let child = EvaluationStack::<ValueRef>::enter_body(&parent, StackAccess::Visible, "child".to_string(), span());
    stack.push(&child, value(2));

    let values = take_all_matching(&mut stack, &child, StackAccess::Visible, ValueType::Video, 1, "concat", "videos", &span())
        .expect("visible values");

    assert_eq!(values, vec![value(0), value(1), value(2)]);
}

#[test]
fn planner_defers_only_because_of_a_reachable_possible_match() {
    let (mut stack, frame) = abstract_root();
    stack.extend(
        &frame,
        vec![
            AbstractValue { id: 0, domain: TIMELINE_DOMAIN },
            AbstractValue { id: 1, domain: AUDIO_DOMAIN },
        ],
    );
    let inputs = [StackBindingInput { port: InputSlot::new(0), requirement: VIDEO_DOMAIN, cardinality: Cardinality::Variadic { min: 0 } }];

    assert_eq!(stack.plan_bindings(&frame, StackAccess::Owned, &inputs), StackBindingOutcome::Deferred);

    let (mut stack, frame) = abstract_root();
    stack.extend(&frame, vec![AbstractValue { id: 1, domain: AUDIO_DOMAIN }]);
    let StackBindingOutcome::Resolved(plan) = stack.plan_bindings(&frame, StackAccess::Owned, &inputs) else {
        panic!("nothing may match, so nothing defers");
    };
    assert_eq!(plan.inputs, vec![PlannedStackInput { port: InputSlot::new(0), indices: vec![] }]);
}
