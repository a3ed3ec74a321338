use oo_spreadsheet::whiteboard::{SelectionMode, WhiteboardSelection};

fn ids(values: &[&str]) -> Vec<String> {
    values.iter().map(|value| value.to_string()).collect()
}

fn order() -> Vec<(String, usize)> {
    vec![("a".into(), 0), ("b".into(), 1), ("c".into(), 2), ("d".into(), 3)]
}

#[test]
fn replace_keeps_only_hits_in_scene_order() {
    let current = WhiteboardSelection { element_ids: ids(&["a"]) };
    let next = current.combine(&ids(&["a", "b", "c", "d"]), &ids(&["c", "b", "c"]), &order(), SelectionMode::Replace);
    assert_eq!(next.element_ids, ids(&["b", "c"]));
}

#[test]
fn add_extends_and_drops_deleted_elements() {
    let current = WhiteboardSelection { element_ids: ids(&["d", "gone", "a"]) };
    let next = current.combine(&ids(&["a", "b", "c", "d"]), &ids(&["c", "a"]), &order(), SelectionMode::Add);
    assert_eq!(next.element_ids, ids(&["a", "c", "d"]));
}

#[test]
fn toggle_removes_hit_selected_and_adds_new() {
    let current = WhiteboardSelection { element_ids: ids(&["a", "b"]) };
    let next = current.combine(&ids(&["a", "b", "c", "d"]), &ids(&["b", "c"]), &order(), SelectionMode::Toggle);
    assert_eq!(next.element_ids, ids(&["a", "c"]));
}

#[test]
fn ids_without_scene_order_come_last_in_hit_order() {
    let current = WhiteboardSelection::default();
    let next = current.combine(&ids(&["x", "y", "b"]), &ids(&["y", "x", "b"]), &order(), SelectionMode::Replace);
    assert_eq!(next.element_ids, ids(&["b", "y", "x"]));
}

#[test]
fn repeated_hits_never_list_an_element_twice() {
    let current = WhiteboardSelection { element_ids: ids(&["b"]) };
    let added = current.combine(&ids(&["a", "b", "c", "d"]), &ids(&["b", "a", "a", "b"]), &order(), SelectionMode::Add);
    assert_eq!(added.element_ids, ids(&["a", "b"]));
    let toggled = current.combine(&ids(&["a", "b", "c", "d"]), &ids(&["c", "c", "c"]), &order(), SelectionMode::Toggle);
    assert_eq!(toggled.element_ids, ids(&["b", "c"]));
}
