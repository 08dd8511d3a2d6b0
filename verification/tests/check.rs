use clipasm::compiler::check::{
    ensure_local_types_resolved, insert_local, missing_reference, validate_local_dependencies, value_local,
    LocalTable, LocalType,
};
use clipasm::model::ValueType;
use clipasm::program::ParameterType;
use clipasm::source::SourceSpan;

fn span(line: usize) -> SourceSpan {
    SourceSpan::at("main.clipasm", line, 1)
}

fn inferred(dependencies: &[&str], line: usize) -> LocalType {
    LocalType::Inferred { dependencies: dependencies.iter().map(|name| name.to_string()).collect(), span: span(line) }
}

fn table(locals: Vec<(&str, LocalType)>) -> LocalTable {
    let mut table = LocalTable::new();
    for (name, local) in locals {
        insert_local(&mut table, name, local, &span(1)).expect("distinct names");
    }
    table
}

#[test]
fn locals_are_kept_in_name_order_and_bound_once() {
    let mut locals = table(vec![("b", LocalType::Value(ValueType::Video)), ("a", LocalType::Value(ValueType::Audio))]);
    let names: Vec<&str> = locals.entries().iter().map(|(name, _)| name.as_str()).collect();
    assert_eq!(names, vec!["a", "b"]);

    let error = insert_local(&mut locals, "a", LocalType::Parameter(ParameterType::Number), &span(7)).expect_err("duplicate");
    assert_eq!(error.code, "E_DUPLICATE_NAME");
    assert_eq!(error.message, "duplicate local name `a`");
    assert_eq!(error.span, span(7));
    assert_eq!(locals.get("a"), Some(&LocalType::Parameter(ParameterType::Number)));
    assert_eq!(locals.entries().len(), 2);
}

#[test]
fn value_locals_must_be_graph_values_of_settled_type() {
    let locals = table(vec![
        ("clip", LocalType::Value(ValueType::Video)),
        ("count", LocalType::Parameter(ParameterType::Integer)),
        ("later", inferred(&["clip"], 3)),
    ]);
    assert_eq!(value_local(&locals, "clip", &span(9)).expect("value"), ValueType::Video);

    let error = value_local(&locals, "count", &span(9)).expect_err("parameter");
    assert_eq!(error.code, "E_PARAMETER_NOT_VALUE");
    assert_eq!(error.message, "parameter `$count` is not a graph value");

    let error = value_local(&locals, "later", &span(9)).expect_err("inferred");
    assert_eq!(error.code, "E_UNRESOLVED_LOCAL_TYPE");
    assert_eq!(error.message, "named value `$later` has not finished type inference");

    let error = value_local(&locals, "nothing", &span(9)).expect_err("missing");
    assert_eq!(error, missing_reference("nothing", &span(9)));
    assert_eq!(
        error.message,
        "reference `$nothing` does not name an input, parameter, body alias, or output binding"
    );
}

#[test]
fn inferred_dependencies_on_bound_names_without_cycles_are_accepted() {
    let locals = table(vec![
        ("clip", LocalType::Value(ValueType::Video)),
        ("first", inferred(&["clip"], 2)),
        ("second", inferred(&["clip", "first"], 3)),
        ("third", inferred(&["first", "second"], 4)),
    ]);
    validate_local_dependencies(&locals).expect("acyclic dependencies");
}

#[test]
fn a_dependency_on_an_unbound_name_is_a_missing_reference() {
    let locals = table(vec![("first", inferred(&["ghost"], 2))]);
    let error = validate_local_dependencies(&locals).expect_err("missing dependency");
    assert_eq!(error.code, "E_MISSING_REFERENCE");
    assert_eq!(
        error.message,
        "reference `$ghost` does not name an input, parameter, body alias, or output binding"
    );
    assert_eq!(error.span, span(2));
}

#[test]
fn an_inference_cycle_names_its_values_from_the_repeated_one() {
    let locals = table(vec![
        ("a", inferred(&["b"], 2)),
        ("b", inferred(&["c"], 3)),
        ("c", inferred(&["a"], 4)),
    ]);
    let error = validate_local_dependencies(&locals).expect_err("cycle");
    assert_eq!(error.code, "E_DEPENDENCY_CYCLE");
    assert_eq!(error.message, "named-value dependency cycle: a -> b -> c -> a");
    assert_eq!(error.span, span(2));

    let locals = table(vec![("self", inferred(&["self"], 5))]);
    let error = validate_local_dependencies(&locals).expect_err("self cycle");
    assert_eq!(error.message, "named-value dependency cycle: self -> self");
}

#[test]
fn every_local_type_must_be_settled_in_the_end() {
    let settled = table(vec![("clip", LocalType::Value(ValueType::Audio))]);
    ensure_local_types_resolved(&settled).expect("settled");

    let locals = table(vec![("b", inferred(&[], 3)), ("a", inferred(&[], 2))]);
    let error = ensure_local_types_resolved(&locals).expect_err("unsettled");
    assert_eq!(error.code, "E_TYPE_INFERENCE_DEPENDENCY");
    assert_eq!(
        error.message,
        "cannot infer the type of named value `$a` from available constraints; add `<Video>` or `<Audio>`"
    );
    assert_eq!(error.span, span(2));
}
