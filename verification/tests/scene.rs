use oo_spreadsheet::scene::{
    SceneElement, WhiteboardCommand, WhiteboardCommandBatch, WhiteboardEngine, WhiteboardEngineError,
    WhiteboardModel, WhiteboardMutation,
};

const DEFAULT_CAMERA: &str = "{\"x\":0.0,\"y\":0.0,\"scale\":1.0}";

fn engine() -> WhiteboardEngine {
    WhiteboardEngine::new(WhiteboardModel { elements: Vec::new(), camera: DEFAULT_CAMERA.into() }, 0)
}

fn element(id: &str) -> SceneElement {
    SceneElement {
        id: id.into(),
        type_id: "shape".into(),
        transform: "{}".into(),
        attrs: "{}".into(),
        children: Vec::new(),
    }
}

fn group(id: &str, children: &[&str]) -> SceneElement {
    SceneElement {
        type_id: "group".into(),
        children: children.iter().map(|c| c.to_string()).collect(),
        ..element(id)
    }
}

fn update_type(id: &str, type_id: &str) -> WhiteboardCommand {
    WhiteboardCommand::UpdateElement {
        element_id: id.into(),
        type_id: Some(type_id.into()),
        transform: None,
        attrs: None,
        children: None,
    }
}

#[test]
fn element_and_camera_operations_are_atomic() {
    let mut engine = engine();
    let camera = "{\"x\":12.0,\"y\":4.0,\"scale\":1.5}".to_string();
    let result = engine
        .execute(WhiteboardCommandBatch {
            base_revision: 0,
            commands: vec![
                WhiteboardCommand::AddElement { element: element("shape-1"), index: 0 },
                WhiteboardCommand::SetCamera { camera: camera.clone() },
            ],
        })
        .unwrap();
    assert_eq!(result.revision, 1);
    assert_eq!(result.invalidation.changed_entities[0].entity_id, "shape-1");
    assert_eq!(result.mutations[0].type_id(), "whiteboard.elementInserted");
    assert!(result.invalidation.changed_entities.iter().any(|entity| entity.entity_type == "whiteboard.camera"));
    assert!(matches!(&result.mutations[0], WhiteboardMutation::AddElement { element, .. } if element.id == "shape-1"));
    assert!(result.mutations.iter().any(|m| m.type_id() == "whiteboard.cameraChanged"));
    assert_eq!(engine.model().camera, camera);

    let before_failed_batch = engine.model().clone();
    let error = engine
        .execute(WhiteboardCommandBatch {
            base_revision: 1,
            commands: vec![update_type("shape-1", "text"), WhiteboardCommand::DeleteElement { element_id: "missing".into() }],
        })
        .unwrap_err();
    assert!(matches!(error, WhiteboardEngineError::MissingElement(_)));
    assert_eq!(engine.model(), &before_failed_batch);
    assert_eq!(engine.revision(), 1);
}

#[test]
fn hot_update_keeps_untouched_element_identity() {
    let model = WhiteboardModel { elements: vec![element("target"), element("untouched")], camera: DEFAULT_CAMERA.into() };
    let mut engine = WhiteboardEngine::new(model, 0);
    let untouched_before = format!("{:p}", &engine.model().elements[1]);
    engine
        .execute(WhiteboardCommandBatch { base_revision: 0, commands: vec![update_type("target", "text")] })
        .unwrap();
    let untouched_after = format!("{:p}", &engine.model().elements[1]);
    assert_eq!(untouched_before, untouched_after);
    assert_eq!(engine.model().elements[0].type_id, "text");
}

#[test]
fn deleting_group_removes_descendants() {
    let model = WhiteboardModel { elements: vec![group("group", &["child"]), element("child")], camera: DEFAULT_CAMERA.into() };
    let mut engine = WhiteboardEngine::new(model, 0);
    engine
        .execute(WhiteboardCommandBatch {
            base_revision: 0,
            commands: vec![WhiteboardCommand::DeleteElement { element_id: "group".into() }],
        })
        .unwrap();
    assert!(engine.model().elements.is_empty());
}

#[test]
fn deleting_nested_element_detaches_it_from_its_parent() {
    let model = WhiteboardModel { elements: vec![group("group", &["child"]), element("child")], camera: DEFAULT_CAMERA.into() };
    let mut engine = WhiteboardEngine::new(model, 0);
    engine
        .execute(WhiteboardCommandBatch {
            base_revision: 0,
            commands: vec![WhiteboardCommand::DeleteElement { element_id: "child".into() }],
        })
        .unwrap();
    assert_eq!(engine.model().elements[0].children, Vec::<String>::new());
}

#[test]
fn cyclic_children_are_rejected_without_hanging_or_mutating() {
    let mut engine = engine();
    engine
        .execute(WhiteboardCommandBatch {
            base_revision: 0,
            commands: vec![WhiteboardCommand::AddElement { element: element("group"), index: 0 }],
        })
        .unwrap();
    let error = engine
        .execute(WhiteboardCommandBatch {
            base_revision: 1,
            commands: vec![
                WhiteboardCommand::UpdateElement {
                    element_id: "group".into(),
                    type_id: None,
                    transform: None,
                    attrs: None,
                    children: Some(vec!["group".into()]),
                },
                WhiteboardCommand::DeleteElement { element_id: "group".into() },
            ],
        })
        .unwrap_err();
    assert!(matches!(error, WhiteboardEngineError::Cycle(_)));
    assert!(engine.model().elements[0].children.is_empty());
    assert_eq!(engine.revision(), 1);
}

#[test]
fn delete_records_removed_elements_and_parent_children() {
    let model = WhiteboardModel {
        elements: vec![group("outer", &["inner"]), group("inner", &["leaf"]), element("leaf"), element("other")],
        camera: DEFAULT_CAMERA.into(),
    };
    let mut engine = WhiteboardEngine::new(model, 3);
    let change = engine
        .execute(WhiteboardCommandBatch {
            base_revision: 3,
            commands: vec![WhiteboardCommand::DeleteElement { element_id: "inner".into() }],
        })
        .unwrap();
    assert_eq!(change.revision, 4);
    match &change.mutations[0] {
        WhiteboardMutation::DeleteElements { removed, parent_id, parent_children_before } => {
            let positions: Vec<(usize, String)> = removed.iter().map(|r| (r.position, r.element.id.clone())).collect();
            assert_eq!(positions, vec![(1, "inner".to_string()), (2, "leaf".to_string())]);
            assert_eq!(parent_id.as_deref(), Some("outer"));
            assert_eq!(parent_children_before.clone(), Some(vec!["inner".to_string()]));
        },
        other => panic!("unexpected mutation {:?}", other),
    }
    let ids: Vec<&str> = engine.model().elements.iter().map(|e| e.id.as_str()).collect();
    assert_eq!(ids, vec!["outer", "other"]);
    assert!(engine.model().elements[0].children.is_empty());
}

#[test]
fn add_refusals_name_their_cause() {
    let mut engine = engine();
    let cases = vec![
        (WhiteboardCommand::AddElement { element: element("  "), index: 0 }, WhiteboardEngineError::EmptyElementIdentity),
        (
            WhiteboardCommand::AddElement { element: element("a"), index: 1 },
            WhiteboardEngineError::InvalidIndex { index: 1, len: 0 },
        ),
        (update_type("a", "text"), WhiteboardEngineError::MissingElement("a".into())),
    ];
    for (command, expected) in cases {
        let error = engine.execute(WhiteboardCommandBatch { base_revision: 0, commands: vec![command] }).unwrap_err();
        assert_eq!(error, expected);
    }
    engine
        .execute(WhiteboardCommandBatch {
            base_revision: 0,
            commands: vec![WhiteboardCommand::AddElement { element: element("a"), index: 0 }],
        })
        .unwrap();
    let duplicate = engine
        .execute(WhiteboardCommandBatch {
            base_revision: 1,
            commands: vec![WhiteboardCommand::AddElement { element: element("a"), index: 0 }],
        })
        .unwrap_err();
    assert_eq!(duplicate, WhiteboardEngineError::DuplicateElement("a".into()));
    let blank_type = engine
        .execute(WhiteboardCommandBatch { base_revision: 1, commands: vec![update_type("a", " ")] })
        .unwrap_err();
    assert_eq!(blank_type, WhiteboardEngineError::EmptyElementIdentity);
}

#[test]
fn batch_checks_come_before_commands() {
    let mut engine = engine();
    assert_eq!(
        engine.execute(WhiteboardCommandBatch { base_revision: 0, commands: Vec::new() }).unwrap_err(),
        WhiteboardEngineError::EmptyBatch
    );
    assert_eq!(
        engine
            .execute(WhiteboardCommandBatch {
                base_revision: 7,
                commands: vec![WhiteboardCommand::AddElement { element: element("a"), index: 0 }],
            })
            .unwrap_err(),
        WhiteboardEngineError::RevisionConflict { expected: 0, actual: 7 }
    );
    let mut full = WhiteboardEngine::new(WhiteboardModel { elements: Vec::new(), camera: DEFAULT_CAMERA.into() }, u64::MAX);
    assert_eq!(
        full.execute(WhiteboardCommandBatch {
            base_revision: u64::MAX,
            commands: vec![WhiteboardCommand::AddElement { element: element("a"), index: 0 }],
        })
        .unwrap_err(),
        WhiteboardEngineError::RevisionOverflow
    );
    assert!(full.model().elements.is_empty());
}

#[test]
fn update_replaces_only_given_fields() {
    let model = WhiteboardModel { elements: vec![group("g", &["x"]), element("x")], camera: DEFAULT_CAMERA.into() };
    let mut engine = WhiteboardEngine::new(model, 0);
    let change = engine
        .execute(WhiteboardCommandBatch {
            base_revision: 0,
            commands: vec![WhiteboardCommand::UpdateElement {
                element_id: "g".into(),
                type_id: None,
                transform: Some("{\"x\":5.0}".into()),
                attrs: None,
                children: None,
            }],
        })
        .unwrap();
    let updated = &engine.model().elements[0];
    assert_eq!(updated.transform, "{\"x\":5.0}");
    assert_eq!(updated.type_id, "group");
    assert_eq!(updated.children, vec!["x".to_string()]);
    match &change.mutations[0] {
        WhiteboardMutation::UpdateElement { element_id, before, after } => {
            assert_eq!(element_id, "g");
            assert_eq!(before.transform, "{}");
            assert_eq!(after, updated);
        },
        other => panic!("unexpected mutation {:?}", other),
    }
}

#[test]
fn invalidation_lists_each_touched_element_once_in_id_order() {
    let model = WhiteboardModel { elements: vec![element("b"), group("g", &["z"]), element("z")], camera: DEFAULT_CAMERA.into() };
    let mut engine = WhiteboardEngine::new(model, 0);
    let change = engine
        .execute(WhiteboardCommandBatch {
            base_revision: 0,
            commands: vec![
                update_type("b", "text"),
                WhiteboardCommand::AddElement { element: element("a"), index: 0 },
                update_type("b", "note"),
                WhiteboardCommand::DeleteElement { element_id: "g".into() },
            ],
        })
        .unwrap();
    let entities: Vec<(String, String)> = change
        .invalidation
        .changed_entities
        .iter()
        .map(|e| (e.entity_type.clone(), e.entity_id.clone()))
        .collect();
    let element_ref = |id: &str| ("whiteboard.element".to_string(), id.to_string());
    assert_eq!(entities, vec![element_ref("a"), element_ref("b"), element_ref("g"), element_ref("z")]);
    assert!(change.invalidation.structure_changed);
    assert_eq!(change.invalidation.changed_containers.len(), 1);
    assert_eq!(change.invalidation.changed_containers[0].entity_type, "whiteboard.scene");
    assert_eq!(change.invalidation.changed_containers[0].entity_id, "root");

    let camera_only = engine
        .execute(WhiteboardCommandBatch {
            base_revision: 1,
            commands: vec![WhiteboardCommand::SetCamera { camera: "{\"x\":1.0,\"y\":2.0,\"scale\":2.0}".into() }],
        })
        .unwrap();
    assert!(!camera_only.invalidation.structure_changed);
    assert_eq!(camera_only.invalidation.changed_entities.len(), 1);
    assert_eq!(camera_only.invalidation.changed_entities[0].entity_type, "whiteboard.camera");
    assert_eq!(camera_only.invalidation.changed_entities[0].entity_id, "viewport");
}
