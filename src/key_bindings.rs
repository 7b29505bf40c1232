//! Edit key bindings.
use vstd::prelude::*;
use vstd::string::StringExecFns;

use crate::edit::EditOp;
use crate::movement::Movement;

verus! {

/// A key press, as the key-binding layer sees it.
pub enum Key {
    /// A key that types text.
    Character(String),
    Enter,
    Backspace,
    ArrowLeft,
    ArrowRight,
    ArrowUp,
    ArrowDown,
    /// Any other key.
    Other,
}

/// What a key press asks of the editor.
pub enum Command {
    /// Change the text.
    Edit(EditOp),
    /// Move the selection.
    Move(Movement),
}

/// `r` is the command bound to `key`; `ctrl` says whether Control is held.
pub open spec fn is_binding(key: Key, ctrl: bool, r: Option<Command>) -> bool {
    match key {
        Key::Character(c) => if !ctrl {
            r == Some(Command::Edit(EditOp::Insert(c)))
        } else {
            r is None
        },
        Key::Enter => r matches Some(Command::Edit(EditOp::Insert(s))) && s@ == seq!['\n'],
        Key::Backspace => r == Some(Command::Edit(EditOp::Backspace)),
        Key::ArrowLeft => r == Some(Command::Move(Movement::Left)),
        Key::ArrowRight => r == Some(Command::Move(Movement::Right)),
        Key::ArrowUp => r == Some(Command::Move(Movement::Up)),
        Key::ArrowDown => r == Some(Command::Move(Movement::Down)),
        Key::Other => r is None,
    }
}

/// A map from keys to edit commands.
///
/// For now, this is just a stateless map, but it could load preferences or
/// do vi-like bindings.
pub struct KeyBindings;

impl KeyBindings {
    pub fn map_key(&mut self, key: &Key, ctrl: bool) -> (r: Option<Command>)
        ensures
            is_binding(*key, ctrl, r),
    {
        match key {
            Key::Character(c) => {
                if !ctrl {
                    let s = c.clone();
                    assert(s == *c);
                    Some(Command::Edit(EditOp::Insert(s)))
                } else {
                    None
                }
            },
            Key::Enter => {
                proof {
                    reveal_strlit("\n");
                }
                let s = String::from_str("\n");
                assert(s@ == seq!['\n']);
                Some(Command::Edit(EditOp::Insert(s)))
            },
            Key::Backspace => Some(Command::Edit(EditOp::Backspace)),
            Key::ArrowLeft => Some(Command::Move(Movement::Left)),
            Key::ArrowRight => Some(Command::Move(Movement::Right)),
            Key::ArrowUp => Some(Command::Move(Movement::Up)),
            Key::ArrowDown => Some(Command::Move(Movement::Down)),
            Key::Other => None,
        }
    }
}

} // verus!
