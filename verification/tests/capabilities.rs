use std::collections::HashSet;

use oo_spreadsheet::catalog::{
    spreadsheet_capability_catalog, spreadsheet_command_registry, spreadsheet_function_catalog,
    whiteboard_command_registry, SpreadsheetCapability, SpreadsheetFunctionCategory,
};

#[test]
fn catalog_is_stable_and_does_not_leak_document_names() {
    let catalog = spreadsheet_capability_catalog();
    assert_eq!(catalog.version, 1);
    assert_eq!(catalog.namespace, "spreadsheet");
    assert!(catalog
        .capabilities
        .iter()
        .any(|item| item.id == "spreadsheet.freezePane"));
    assert!(catalog
        .capabilities
        .iter()
        .all(|item| !item.id.contains("block")));
}

#[test]
fn command_registry_is_unique_and_engine_owned() {
    let registry = whiteboard_command_registry();
    assert_eq!(registry.len(), 6);
    let unique = registry
        .iter()
        .map(|descriptor| descriptor.type_id)
        .collect::<HashSet<_>>();
    assert_eq!(unique.len(), registry.len());
    assert!(registry.iter().all(|descriptor| {
        descriptor.type_id.starts_with("whiteboard.") && descriptor.scope.starts_with("whiteboard")
    }));
}

#[test]
fn capability_ids_are_namespaced_and_commands_map_to_type_ids() {
    let catalog = spreadsheet_capability_catalog();
    assert_eq!(catalog.capabilities.len(), 17);
    for item in &catalog.capabilities {
        assert!(item.id.starts_with("spreadsheet."));
        if let Some(type_id) = &item.command_type_id {
            assert!(type_id.starts_with("spreadsheet."));
        }
    }
    assert_eq!(SpreadsheetCapability::FreezePane.id(), "spreadsheet.freezePane");
}

#[test]
fn spreadsheet_command_registry_has_unique_type_ids() {
    let registry = spreadsheet_command_registry();
    assert_eq!(registry.len(), 31);
    let unique = registry
        .iter()
        .map(|descriptor| descriptor.type_id)
        .collect::<HashSet<_>>();
    assert_eq!(unique.len(), registry.len());
    assert!(registry.iter().all(|d| d.type_id.starts_with("spreadsheet.")));
}

#[test]
fn only_today_and_now_are_volatile() {
    let functions = spreadsheet_function_catalog();
    assert_eq!(functions.len(), 58);
    let volatile: Vec<&str> = functions.iter().filter(|f| f.volatile).map(|f| f.name).collect();
    assert_eq!(volatile, vec!["TODAY", "NOW"]);
    assert_eq!(functions[0].name, "SUM");
    assert_eq!(functions[0].category, SpreadsheetFunctionCategory::Aggregate);
}

#[test]
fn capability_ids_are_pairwise_distinct() {
    let catalog = spreadsheet_capability_catalog();
    let ids = catalog.capabilities.iter().map(|item| item.id.clone()).collect::<HashSet<_>>();
    assert_eq!(ids.len(), catalog.capabilities.len());
    assert!(ids.iter().all(|id| !id.contains('b')));
}
