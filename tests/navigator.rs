use cqlpanels::action::Action;
use cqlpanels::key::{KeyCode, KeyEvent};
use cqlpanels::keyspace_list::KeyspaceList;
use cqlpanels::tree::{Node, TreeError};

fn press(code: KeyCode) -> KeyEvent {
    KeyEvent::plain(code)
}

fn ids(v: &[&str]) -> Vec<String> {
    v.iter().map(|s| s.to_string()).collect()
}

fn leaf(id: &str) -> Node {
    Node::new_leaf(id.to_string(), id.to_string())
}

#[test]
fn sample_tree_scenario() {
    let mut k = KeyspaceList::new();
    assert_eq!(k.visible_len(), 2);
    assert_eq!(k.handle_key_event(press(KeyCode::Home)), None);
    assert_eq!(k.selected(), ids(&["keyspace1"]));
    k.handle_key_event(press(KeyCode::Down));
    assert_eq!(k.selected(), ids(&["keyspace2"]));
    k.handle_key_event(press(KeyCode::Char(' ')));
    assert!(k.is_open(&vec![1]));
    assert_eq!(k.visible_len(), 4);
    k.handle_key_event(press(KeyCode::Right));
    assert_eq!(k.selected(), ids(&["keyspace2", "table1"]));
    assert_eq!(k.selected_path(), vec![1, 0]);
}

#[test]
fn tab_returns_focus_forward_and_keeps_state() {
    let mut k = KeyspaceList::new();
    k.select_last();
    let before = (k.selected_path(), k.visible_len(), k.offset());
    assert_eq!(k.handle_key_event(press(KeyCode::Tab)), Some(Action::SwitchFocusForward));
    assert_eq!((k.selected_path(), k.visible_len(), k.offset()), before);
    assert_eq!(k.handle_key_event(press(KeyCode::BackTab)), Some(Action::SwitchFocusBackward));
    assert_eq!((k.selected_path(), k.visible_len(), k.offset()), before);
}

#[test]
fn distinct_ids_build() {
    let inner = Node::new("ks".to_string(), "ks".to_string(), vec![leaf("a"), leaf("b")]);
    assert!(inner.is_ok());
    let roots = vec![inner.unwrap(), leaf("other")];
    assert!(KeyspaceList::from_roots(roots).is_ok());
}

#[test]
fn duplicate_children_fail() {
    let r = Node::new("ks".to_string(), "ks".to_string(), vec![leaf("a"), leaf("a")]);
    assert_eq!(r.err(), Some(TreeError::DuplicateId));
}

#[test]
fn duplicate_roots_fail() {
    let r = KeyspaceList::from_roots(vec![leaf("x"), leaf("y"), leaf("x")]);
    assert!(matches!(r, Err(TreeError::DuplicateId)));
}

#[test]
fn duplicate_deep_fail() {
    let inner = Node { id: "ks".to_string(), label: "ks".to_string(), children: vec![leaf("t"), leaf("t")] };
    let r = KeyspaceList::from_roots(vec![leaf("a"), inner]);
    assert!(matches!(r, Err(TreeError::DuplicateId)));
}

#[test]
fn same_id_at_different_levels_is_fine() {
    let inner = Node { id: "a".to_string(), label: "a".to_string(), children: vec![leaf("a")] };
    assert!(KeyspaceList::from_roots(vec![inner]).is_ok());
}

#[test]
fn opening_adds_lines() {
    let mut k = KeyspaceList::new();
    assert!(k.visible_len() >= 2);
    k.select_last();
    let n = k.visible_len();
    k.key_right();
    assert!(k.visible_len() > n);
    assert_eq!(k.visible_len(), 4);
}

#[test]
fn down_then_up_returns() {
    let mut k = KeyspaceList::new();
    k.select_first();
    k.key_right();
    let start = k.selected_path();
    k.key_down();
    assert_eq!(k.selected_path(), vec![1]);
    k.key_up();
    assert_eq!(k.selected_path(), start);
}

#[test]
fn down_at_last_line_stays() {
    let mut k = KeyspaceList::new();
    k.select_last();
    k.key_down();
    assert_eq!(k.selected(), ids(&["keyspace2"]));
}

#[test]
fn up_at_first_line_stays() {
    let mut k = KeyspaceList::new();
    k.select_first();
    k.key_up();
    assert_eq!(k.selected(), ids(&["keyspace1"]));
}

#[test]
fn down_without_selection_picks_first() {
    let mut k = KeyspaceList::new();
    k.handle_key_event(press(KeyCode::Char('j')));
    assert_eq!(k.selected(), ids(&["keyspace1"]));
}

#[test]
fn up_without_selection_picks_last() {
    let mut k = KeyspaceList::new();
    k.handle_key_event(press(KeyCode::Char('k')));
    assert_eq!(k.selected(), ids(&["keyspace2"]));
}

#[test]
fn toggle_on_leaf_does_nothing() {
    let mut k = KeyspaceList::new();
    k.select_first();
    k.toggle_selected();
    assert!(!k.is_open(&vec![0]));
    assert_eq!(k.selected_path(), vec![0]);
    k.toggle_selected();
    assert!(!k.is_open(&vec![0]));
    assert_eq!(k.visible_len(), 2);
}

#[test]
fn toggle_twice_closes_again() {
    let mut k = KeyspaceList::new();
    k.select_last();
    k.handle_key_event(press(KeyCode::Enter));
    assert_eq!(k.visible_len(), 4);
    k.handle_key_event(press(KeyCode::Enter));
    assert_eq!(k.visible_len(), 2);
    assert!(!k.is_open(&vec![1]));
}

#[test]
fn toggle_without_selection_does_nothing() {
    let mut k = KeyspaceList::new();
    k.toggle_selected();
    assert_eq!(k.visible_len(), 2);
}

#[test]
fn left_collapses_then_goes_to_parent() {
    let mut k = KeyspaceList::new();
    k.select_last();
    k.key_right();
    k.key_right();
    assert_eq!(k.selected(), ids(&["keyspace2", "table1"]));
    k.key_left();
    assert_eq!(k.selected(), ids(&["keyspace2"]));
    assert!(k.is_open(&vec![1]));
    k.key_left();
    assert!(!k.is_open(&vec![1]));
    assert_eq!(k.selected(), ids(&["keyspace2"]));
    k.handle_key_event(press(KeyCode::Char('h')));
    assert!(k.selected().is_empty());
}

#[test]
fn right_on_leaf_does_nothing() {
    let mut k = KeyspaceList::new();
    k.select_first();
    k.handle_key_event(press(KeyCode::Char('l')));
    assert_eq!(k.selected(), ids(&["keyspace1"]));
    assert_eq!(k.visible_len(), 2);
}

#[test]
fn end_selects_last_visible_child() {
    let mut k = KeyspaceList::new();
    k.select_last();
    k.key_right();
    k.handle_key_event(press(KeyCode::End));
    assert_eq!(k.selected(), ids(&["keyspace2", "table2"]));
}

#[test]
fn page_down_is_clamped() {
    let mut k = KeyspaceList::new();
    k.select_last();
    k.key_right();
    k.set_viewport_height(2);
    k.handle_key_event(press(KeyCode::PageDown));
    assert_eq!(k.offset(), 2);
    k.scroll_down();
    assert_eq!(k.offset(), 2);
    assert_eq!(k.selected(), ids(&["keyspace2"]));
}

#[test]
fn page_down_by_three() {
    let inner = Node { id: "r".to_string(), label: "r".to_string(), children: (0..10).map(|i| leaf(&i.to_string())).collect() };
    let mut k = KeyspaceList::from_roots(vec![inner]).unwrap();
    k.select_first();
    k.key_right();
    assert_eq!(k.visible_len(), 11);
    k.set_viewport_height(3);
    k.scroll_down();
    assert_eq!(k.offset(), 3);
    k.scroll_down();
    assert_eq!(k.offset(), 6);
    k.scroll_down();
    assert_eq!(k.offset(), 8);
    k.handle_key_event(press(KeyCode::PageUp));
    assert_eq!(k.offset(), 5);
    k.scroll_up();
    k.scroll_up();
    assert_eq!(k.offset(), 0);
}

#[test]
fn page_up_stops_at_top() {
    let mut k = KeyspaceList::new();
    k.scroll_up();
    assert_eq!(k.offset(), 0);
}

#[test]
fn esc_clears_selection() {
    let mut k = KeyspaceList::new();
    k.select_last();
    assert_eq!(k.handle_key_event(press(KeyCode::Esc)), None);
    assert!(k.selected().is_empty());
    k.clear_selection();
    assert!(k.selected_path().is_empty());
}

#[test]
fn other_keys_are_ignored() {
    let mut k = KeyspaceList::new();
    k.select_last();
    assert_eq!(k.handle_key_event(press(KeyCode::Char('x'))), None);
    assert_eq!(k.handle_key_event(press(KeyCode::F(2))), None);
    assert_eq!(k.selected(), ids(&["keyspace2"]));
    assert_eq!(k.visible_len(), 2);
}

#[test]
fn navigator_update_does_nothing() {
    let mut k = KeyspaceList::new();
    assert_eq!(k.update(Action::SwitchFocusForward), None);
    assert!(k.selected().is_empty());
}

#[test]
fn visible_lines_in_order() {
    let mut k = KeyspaceList::new();
    k.select_last();
    k.key_right();
    let paths: Vec<Vec<usize>> = k.visible_lines().into_iter().map(|e| e.path).collect();
    assert_eq!(paths, vec![vec![0], vec![1], vec![1, 0], vec![1, 1]]);
    let counts: Vec<usize> = k.visible_lines().into_iter().map(|e| e.children).collect();
    assert_eq!(counts, vec![0, 2, 0, 0]);
}
