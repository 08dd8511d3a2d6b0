use std::collections::BTreeSet;

use clipasm::contracts::{references, MachineContract, MachineContractStability};

#[test]
fn catalog_is_complete_unique_and_well_formed() {
    let references = references();
    assert_eq!(references.len(), MachineContract::all().len());

    let mut contracts = BTreeSet::new();
    let mut slugs = BTreeSet::new();
    for reference in &references {
        assert!(contracts.insert(reference.contract()));
        assert!(slugs.insert(reference.slug()));
        assert!(!reference.title().trim().is_empty());
        assert!(!reference.summary().trim().is_empty());
        assert!(!reference.versions().is_empty());
        for version in reference.versions() {
            assert!(!version.field().trim().is_empty());
            assert!(version.value() > 0);
            assert!(!version.meaning().trim().is_empty());
        }
    }
    assert_eq!(contracts, MachineContract::all().into_iter().collect::<BTreeSet<_>>());
    assert_eq!(
        references
            .iter()
            .filter(|reference| reference.stability() == MachineContractStability::Versioned)
            .count(),
        3
    );
}

#[test]
fn documentation_routes_are_built_from_slugs() {
    for reference in references() {
        assert_eq!(reference.documentation_route(), format!("reference/machine-contracts.html#{}", reference.slug()));
    }
}
