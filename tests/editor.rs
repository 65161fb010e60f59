use cqlpanels::action::Action;
use cqlpanels::key::{KeyCode, KeyEvent};
use cqlpanels::repl::Repl;

fn press(code: KeyCode) -> KeyEvent {
    KeyEvent::plain(code)
}

#[test]
fn new_editor_is_empty() {
    let r = Repl::new();
    assert_eq!(r.lines(), vec![String::new()]);
    assert_eq!(r.cursor(), (0, 0));
}

#[test]
fn typing_select() {
    let mut r = Repl::new();
    for c in "select".chars() {
        assert_eq!(r.handle_key_event(press(KeyCode::Char(c))), None);
    }
    assert_eq!(r.lines(), vec!["select".to_string()]);
    assert_eq!(r.cursor(), (0, 6));
}

#[test]
fn tab_in_editor_switches_focus() {
    let mut r = Repl::new();
    r.handle_key_event(press(KeyCode::Char('a')));
    assert_eq!(r.handle_key_event(press(KeyCode::Tab)), Some(Action::SwitchFocusForward));
    assert_eq!(r.handle_key_event(press(KeyCode::BackTab)), Some(Action::SwitchFocusBackward));
    assert_eq!(r.lines(), vec!["a".to_string()]);
    assert_eq!(r.cursor(), (0, 1));
}

#[test]
fn editing_keys_reach_the_buffer() {
    let mut r = Repl::new();
    r.handle_key_event(press(KeyCode::Char('a')));
    r.handle_key_event(press(KeyCode::Char('c')));
    r.handle_key_event(press(KeyCode::Left));
    r.handle_key_event(press(KeyCode::Char('b')));
    assert_eq!(r.lines(), vec!["abc".to_string()]);
    r.handle_key_event(press(KeyCode::End));
    r.handle_key_event(press(KeyCode::Enter));
    r.handle_key_event(press(KeyCode::Char('d')));
    assert_eq!(r.lines(), vec!["abc".to_string(), "d".to_string()]);
    assert_eq!(r.cursor(), (1, 1));
    r.handle_key_event(press(KeyCode::Backspace));
    assert_eq!(r.lines(), vec!["abc".to_string(), String::new()]);
}

#[test]
fn ctrl_chars_are_not_typed() {
    let mut r = Repl::new();
    r.handle_key_event(KeyEvent { code: KeyCode::Char('x'), ctrl: true, alt: false, shift: false });
    assert_eq!(r.lines(), vec![String::new()]);
}

#[test]
fn editor_update_does_nothing() {
    let mut r = Repl::new();
    assert_eq!(r.update(Action::SwitchFocusBackward), None);
    assert_eq!(r.lines(), vec![String::new()]);
}

#[test]
fn enter_splits_line_at_cursor() {
    let mut r = Repl::new();
    r.handle_key_event(press(KeyCode::Char('a')));
    r.handle_key_event(press(KeyCode::Char('b')));
    r.handle_key_event(press(KeyCode::Left));
    r.handle_key_event(press(KeyCode::Enter));
    assert_eq!(r.lines(), vec!["a".to_string(), "b".to_string()]);
    assert_eq!(r.cursor(), (1, 0));
}
