use xi_text_core::{Command, EditOp, Key, KeyBindings, Movement};

#[test]
fn characters_insert_unless_ctrl() {
    let mut kb = KeyBindings;
    match kb.map_key(&Key::Character("a".to_string()), false) {
        Some(Command::Edit(EditOp::Insert(s))) => assert_eq!(s, "a"),
        _ => panic!("expected an insertion"),
    }
    assert!(kb.map_key(&Key::Character("a".to_string()), true).is_none());
}

#[test]
fn special_keys() {
    let mut kb = KeyBindings;
    match kb.map_key(&Key::Enter, false) {
        Some(Command::Edit(EditOp::Insert(s))) => assert_eq!(s, "\n"),
        _ => panic!("expected a newline"),
    }
    assert!(matches!(kb.map_key(&Key::Backspace, false), Some(Command::Edit(EditOp::Backspace))));
    assert!(matches!(kb.map_key(&Key::ArrowLeft, false), Some(Command::Move(Movement::Left))));
    assert!(matches!(kb.map_key(&Key::ArrowRight, false), Some(Command::Move(Movement::Right))));
    assert!(matches!(kb.map_key(&Key::ArrowUp, false), Some(Command::Move(Movement::Up))));
    assert!(matches!(kb.map_key(&Key::ArrowDown, false), Some(Command::Move(Movement::Down))));
    assert!(kb.map_key(&Key::Other, false).is_none());
}
