use clipasm::model::ValueType;
use clipasm::program::{
    Cardinality, InputPort, InputSlot, ParameterDescriptor, ParameterType, ProgramDescriptor, StackAccess,
    ValueTypeSpec,
};

fn port(name: &str, value_type: ValueTypeSpec) -> InputPort {
    InputPort { name: name.to_string(), value_type, cardinality: Cardinality::One }
}

fn descriptor(inputs: Vec<InputPort>, outputs: Vec<ValueTypeSpec>) -> ProgramDescriptor {
    ProgramDescriptor {
        name: "mix".to_string(),
        semantic_version: 1,
        default_stack_access: StackAccess::Visible,
        inputs,
        parameters: vec![
            ParameterDescriptor { name: "gain".to_string(), parameter_type: ParameterType::Number, required: true },
            ParameterDescriptor { name: "gain".to_string(), parameter_type: ParameterType::Integer, required: false },
        ],
        outputs,
    }
}

#[test]
fn parameter_types_are_named_as_in_source() {
    assert_eq!(ParameterType::from_source_name("Number", None), Some(ParameterType::Number));
    assert_eq!(ParameterType::from_source_name("TimeRange", None), Some(ParameterType::TimeRange));
    assert_eq!(ParameterType::from_source_name("Keyword", None), None);
    assert_eq!(
        ParameterType::from_source_name("Keyword", Some(vec!["fit".to_string()])),
        Some(ParameterType::Keyword(vec!["fit".to_string()]))
    );
    assert_eq!(ParameterType::from_source_name("number", None), None);
}

#[test]
fn slots_find_the_first_port_with_a_name() {
    let program = descriptor(
        vec![port("a", ValueTypeSpec::Generic), port("b", ValueTypeSpec::Exact(ValueType::Audio))],
        vec![ValueTypeSpec::Generic],
    );
    assert_eq!(program.input_slot("b"), Some(InputSlot::new(1)));
    assert_eq!(program.input_slot("c"), None);
    assert_eq!(program.parameter_slot("gain").map(|slot| slot.index()), Some(0));
    assert_eq!(program.input(InputSlot::new(1)).name, "b");
}

#[test]
fn generic_ports_resolve_to_the_given_type() {
    let generic = descriptor(
        vec![port("a", ValueTypeSpec::Generic), port("b", ValueTypeSpec::Exact(ValueType::Audio))],
        vec![ValueTypeSpec::Generic],
    );
    assert!(generic.is_generic());
    let signature = generic.resolve_signature(Some(ValueType::Video));
    assert_eq!(signature.inputs, vec![ValueType::Video, ValueType::Audio]);
    assert_eq!(signature.outputs, vec![ValueType::Video]);

    let exact = descriptor(vec![port("a", ValueTypeSpec::Exact(ValueType::Video))], vec![ValueTypeSpec::Generic]);
    assert!(exact.is_generic());
    let exact = descriptor(vec![port("a", ValueTypeSpec::Exact(ValueType::Video))], Vec::new());
    assert!(!exact.is_generic());
    assert_eq!(exact.resolve_signature(None).inputs, vec![ValueType::Video]);
    assert_eq!(ValueTypeSpec::from(ValueType::Audio).exact(), Some(ValueType::Audio));
}
