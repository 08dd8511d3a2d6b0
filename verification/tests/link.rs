use clipasm::compiler::link::source_unit_order;
use clipasm::source::{ResolvedImport, SourcePackage, SourceSpan, SourceUnit, SourceUnitId, Spanned};

fn import(alias: &str, file: &str, target: usize) -> ResolvedImport {
    ResolvedImport {
        alias: Spanned::new(alias.to_owned(), SourceSpan::at(file, 2, 8)),
        target: SourceUnitId(target),
    }
}

fn unit(path: &str, imports: Vec<ResolvedImport>) -> SourceUnit {
    SourceUnit { path: path.to_owned(), imports }
}

/// `root.clipasm` imports `middle.clipasm`, which imports `leaf.clipasm`; stored leaf first.
fn chain_package() -> SourcePackage {
    SourcePackage {
        root: SourceUnitId(2),
        units: vec![
            unit("leaf.clipasm", Vec::new()),
            unit("middle.clipasm", vec![import("leaf", "middle.clipasm", 0)]),
            unit("root.clipasm", vec![import("middle", "root.clipasm", 1)]),
        ],
    }
}

/// The same package stored with its units in the order `old_indices`.
fn reorder(package: &SourcePackage, old_indices: &[usize]) -> SourcePackage {
    let mut old_to_new = vec![usize::MAX; package.units.len()];
    for (new, old) in old_indices.iter().copied().enumerate() {
        old_to_new[old] = new;
    }
    let units = old_indices
        .iter()
        .map(|old| {
            let mut unit = package.units[*old].clone();
            for import in &mut unit.imports {
                import.target = SourceUnitId(old_to_new[import.target.index()]);
            }
            unit
        })
        .collect();
    SourcePackage { root: SourceUnitId(old_to_new[package.root.index()]), units }
}

#[test]
fn dependency_order_is_independent_of_unit_storage() {
    let ordered = chain_package();
    assert_eq!(
        source_unit_order(&ordered).expect("ordered package"),
        vec![SourceUnitId(0), SourceUnitId(1), SourceUnitId(2)]
    );

    let root_first = reorder(&ordered, &[2, 1, 0]);
    assert_eq!(
        source_unit_order(&root_first).expect("root-first package"),
        vec![SourceUnitId(2), SourceUnitId(1), SourceUnitId(0)]
    );
}

#[test]
fn compiler_rejects_a_linked_package_cycle() {
    let mut package = chain_package();
    let root = package.root;
    package.units[0].imports.push(ResolvedImport {
        alias: Spanned::new("root".to_owned(), SourceSpan::file_start("leaf.clipasm")),
        target: root,
    });

    let error = source_unit_order(&package).expect_err("cyclic linked package");
    assert_eq!(error.code, "E_PROGRAM_IMPORT_CYCLE");
    assert!(error.message.contains("leaf.clipasm"));
    assert!(error.message.contains("middle.clipasm"));
    assert!(error.message.contains("root.clipasm"));
}

#[test]
fn compiler_rejects_missing_source_unit_targets() {
    let mut package = chain_package();
    let root = package.root.index();
    package.units[root].imports[0].target = SourceUnitId(99);

    let error = source_unit_order(&package).expect_err("missing import target");
    assert_eq!(error.code, "E_INTERNAL_PROGRAM_LINK");
    assert!(error.message.contains("missing source unit 99"));
}

#[test]
fn compiler_rejects_a_missing_root_source_unit() {
    let mut package = chain_package();
    package.root = SourceUnitId(99);

    let error = source_unit_order(&package).expect_err("missing package root");
    assert_eq!(error.code, "E_INTERNAL_PROGRAM_LINK");
    assert!(error.message.contains("missing source unit 99"));
}

#[test]
fn cycle_message_names_the_units_from_the_repeated_one_and_points_at_the_closing_import() {
    let mut package = chain_package();
    let span = SourceSpan::at("leaf.clipasm", 3, 8);
    package.units[0].imports.push(ResolvedImport {
        alias: Spanned::new("root".to_owned(), span.clone()),
        target: SourceUnitId(2),
    });

    let error = source_unit_order(&package).expect_err("cyclic linked package");
    assert_eq!(
        error.message,
        "program import cycle: leaf.clipasm -> root.clipasm -> middle.clipasm -> leaf.clipasm"
    );
    assert_eq!(error.span, SourceSpan::at("middle.clipasm", 2, 8));
    assert!(error.notes.is_empty());
}

#[test]
fn self_import_is_a_cycle_of_one_unit() {
    let package = SourcePackage {
        root: SourceUnitId(0),
        units: vec![unit("self.clipasm", vec![import("again", "self.clipasm", 0)])],
    };

    let error = source_unit_order(&package).expect_err("self import");
    assert_eq!(error.code, "E_PROGRAM_IMPORT_CYCLE");
    assert_eq!(error.message, "program import cycle: self.clipasm -> self.clipasm");
    assert_eq!(error.span, SourceSpan::at("self.clipasm", 2, 8));
}

#[test]
fn missing_target_names_the_alias_and_its_span() {
    let mut package = chain_package();
    package.units[1].imports[0].target = SourceUnitId(7);

    let error = source_unit_order(&package).expect_err("missing import target");
    assert_eq!(error.message, "import `leaf` refers to missing source unit 7");
    assert_eq!(error.span, SourceSpan::at("middle.clipasm", 2, 8));
}

#[test]
fn missing_root_points_at_the_first_unit_or_the_package() {
    let mut package = chain_package();
    package.root = SourceUnitId(3);
    let error = source_unit_order(&package).expect_err("missing package root");
    assert_eq!(error.message, "source package root refers to missing source unit 3");
    assert_eq!(error.span, SourceSpan::file_start("leaf.clipasm"));

    let empty = SourcePackage { root: SourceUnitId(0), units: Vec::new() };
    let error = source_unit_order(&empty).expect_err("empty package");
    assert_eq!(error.code, "E_INTERNAL_PROGRAM_LINK");
    assert_eq!(error.span, SourceSpan::file_start("<source-package>"));
}

#[test]
fn disconnected_units_are_ordered_too() {
    let mut package = chain_package();
    package.units.push(unit("disconnected.clipasm", vec![import("leaf", "disconnected.clipasm", 0)]));

    let order = source_unit_order(&package).expect("linked package");
    assert_eq!(order, vec![SourceUnitId(0), SourceUnitId(1), SourceUnitId(2), SourceUnitId(3)]);
}

#[test]
fn shared_imports_are_listed_once_before_every_importer() {
    let package = SourcePackage {
        root: SourceUnitId(0),
        units: vec![
            unit("root.clipasm", vec![import("a", "root.clipasm", 1), import("b", "root.clipasm", 2)]),
            unit("a.clipasm", vec![import("shared", "a.clipasm", 3)]),
            unit("b.clipasm", vec![import("shared", "b.clipasm", 3)]),
            unit("shared.clipasm", Vec::new()),
        ],
    };

    let order = source_unit_order(&package).expect("linked package");
    assert_eq!(order, vec![SourceUnitId(3), SourceUnitId(1), SourceUnitId(2), SourceUnitId(0)]);
}
