use vstd::prelude::*;

use crate::action::Action;
use crate::key::{key_action, KeyCode, KeyEvent};
use tui_textarea::{Input, Key, TextArea};

verus! {

/// A text buffer of the editor crate, hidden from the proofs: what they know of
/// it is what the functions below state.
#[verifier::external_body]
pub struct Buffer {
    pub textarea: TextArea<'static>,
}

#[verifier::external_type_specification]
pub struct ExKey(Key);

#[verifier::external_type_specification]
pub struct ExInput(Input);

/// The lines that a text buffer holds.
pub uninterp spec fn buffer_lines(t: Buffer) -> Seq<Seq<char>>;

/// The cursor of a text buffer: line index, then column counted in characters.
pub uninterp spec fn buffer_cursor(t: Buffer) -> (nat, nat);

/// Whether a text buffer has a selection under way.
pub uninterp spec fn buffer_selecting(t: Buffer) -> bool;

/// The cursor stands on a line, at most one past its last character.
pub open spec fn cursor_in_range(lines: Seq<Seq<char>>, cur: (nat, nat)) -> bool {
    cur.0 < lines.len() && cur.1 <= lines[cur.0 as int].len()
}

/// `lines` with `c` put in at `cur`.
pub open spec fn insert_at(lines: Seq<Seq<char>>, cur: (nat, nat), c: char) -> Seq<Seq<char>> {
    let line = lines[cur.0 as int];
    lines.update(cur.0 as int, line.take(cur.1 as int) + seq![c] + line.skip(cur.1 as int))
}

/// The buffer's key for a key press.
pub open spec fn key_of(code: KeyCode) -> Key {
    match code {
        KeyCode::Char(c) => Key::Char(c),
        KeyCode::F(n) => Key::F(n),
        KeyCode::Backspace => Key::Backspace,
        KeyCode::Enter => Key::Enter,
        KeyCode::Left => Key::Left,
        KeyCode::Right => Key::Right,
        KeyCode::Up => Key::Up,
        KeyCode::Down => Key::Down,
        KeyCode::Tab => Key::Tab,
        KeyCode::Delete => Key::Delete,
        KeyCode::Home => Key::Home,
        KeyCode::End => Key::End,
        KeyCode::PageUp => Key::PageUp,
        KeyCode::PageDown => Key::PageDown,
        KeyCode::Esc => Key::Esc,
        _ => Key::Null,
    }
}

/// The character that a press types into the buffer as it stands, if any:
/// one with neither Ctrl nor Alt held that does not break the line.
pub open spec fn typed_char(input: Input) -> Option<char> {
    match input.key {
        Key::Char(c) => {
            if !input.ctrl && !input.alt && c != '\n' && c != '\r' {
                Some(c)
            } else {
                None
            }
        },
        _ => None,
    }
}

/// A press that breaks the line at the cursor: Enter, a newline character
/// with neither Ctrl nor Alt held, or Ctrl-M.
pub open spec fn breaks_line(input: Input) -> bool {
    match input.key {
        Key::Enter => true,
        Key::Char(c) => (!input.ctrl && !input.alt && (c == '\n' || c == '\r')) || (c == 'm'
            && input.ctrl && !input.alt),
        _ => false,
    }
}

/// `lines` with the line at `cur` broken in two there.
pub open spec fn split_at(lines: Seq<Seq<char>>, cur: (nat, nat)) -> Seq<Seq<char>> {
    let line = lines[cur.0 as int];
    lines.take(cur.0 as int) + seq![line.take(cur.1 as int), line.skip(cur.1 as int)]
        + lines.skip(cur.0 as int + 1)
}

/// What is known of a buffer `b1` that `b0` became on `input`: a typed
/// character goes in at the cursor, which moves one column right; a line
/// break splits the line at the cursor and moves the cursor to the start of
/// the new line. Either ends any selection, and where no selection was under
/// way and the cursor stood in range nothing else in the lines changes.
pub open spec fn edit_effect(b0: Buffer, b1: Buffer, input: Input) -> bool {
    let l0 = buffer_lines(b0);
    let c0 = buffer_cursor(b0);
    let plain = !buffer_selecting(b0) && cursor_in_range(l0, c0);
    &&& typed_char(input) matches Some(c) ==> {
        &&& !buffer_selecting(b1)
        &&& plain ==> buffer_lines(b1) == insert_at(l0, c0, c) && buffer_cursor(b1) == (
        c0.0,
        c0.1 + 1,
        )
    }
    &&& breaks_line(input) ==> {
        &&& !buffer_selecting(b1)
        &&& plain ==> buffer_lines(b1) == split_at(l0, c0) && buffer_cursor(b1) == (
        c0.0 + 1,
        0nat,
        )
    }
}

/// Relies on `TextArea::default`: one empty line, the cursor at its start and
/// no selection.
#[verifier::external_body]
fn empty_buffer() -> (r: Buffer)
    ensures
        buffer_lines(r) == seq![Seq::<char>::empty()],
        buffer_cursor(r) == (0nat, 0nat),
        !buffer_selecting(r),
{
    Buffer { textarea: TextArea::default() }
}

/// Relies on `TextArea::input`, which inserts typed characters with
/// `insert_char` and breaks lines with `insert_newline`.
#[verifier::external_body]
fn buffer_input(t: &mut Buffer, input: Input) -> (r: bool)
    ensures
        edit_effect(*old(t), *final(t), input),
{
    t.textarea.input(input)
}

/// Relies on `TextArea::lines`, which hands out the lines as they stand.
#[verifier::external_body]
fn buffer_lines_of(t: &Buffer) -> (r: Vec<String>)
    ensures
        r.deep_view() == buffer_lines(*t),
{
    t.textarea.lines().to_vec()
}

/// Relies on `TextArea::cursor`, which hands out the cursor as it stands.
#[verifier::external_body]
fn buffer_cursor_of(t: &Buffer) -> (r: (usize, usize))
    ensures
        (r.0 as nat, r.1 as nat) == buffer_cursor(*t),
{
    t.textarea.cursor()
}

/// The buffer's input for a key press.
pub fn input_of(key: KeyEvent) -> (r: Input)
    ensures
        r == input_of_spec(key),
{
    let k = match key.code {
        KeyCode::Char(c) => Key::Char(c),
        KeyCode::F(n) => Key::F(n),
        KeyCode::Backspace => Key::Backspace,
        KeyCode::Enter => Key::Enter,
        KeyCode::Left => Key::Left,
        KeyCode::Right => Key::Right,
        KeyCode::Up => Key::Up,
        KeyCode::Down => Key::Down,
        KeyCode::Tab => Key::Tab,
        KeyCode::Delete => Key::Delete,
        KeyCode::Home => Key::Home,
        KeyCode::End => Key::End,
        KeyCode::PageUp => Key::PageUp,
        KeyCode::PageDown => Key::PageDown,
        KeyCode::Esc => Key::Esc,
        KeyCode::BackTab => Key::Null,
        KeyCode::Null => Key::Null,
    };
    Input { key: k, ctrl: key.ctrl, alt: key.alt, shift: key.shift }
}

/// The query editor: a text buffer that takes every key but the focus keys.
pub struct Repl {
    pub buffer: Buffer,
}

impl Repl {
    /// An editor over one empty line.
    pub fn new() -> (r: Repl)
        ensures
            buffer_lines(r.buffer) == seq![Seq::<char>::empty()],
            buffer_cursor(r.buffer) == (0nat, 0nat),
            !buffer_selecting(r.buffer),
    {
        Repl { buffer: empty_buffer() }
    }

    /// Reads one key: the focus keys come back as commands and leave the
    /// buffer alone; every other key goes to the buffer.
    pub fn handle_key_event(&mut self, key: KeyEvent) -> (r: Option<Action>)
        ensures
            r == key_action(key.code),
            r is Some ==> *final(self) == *old(self),
            r is None ==> edit_effect(old(self).buffer, final(self).buffer, input_of_spec(key)),
    {
        match key.code {
            KeyCode::Tab => return Some(Action::SwitchFocusForward),
            KeyCode::BackTab => return Some(Action::SwitchFocusBackward),
            _ => {},
        }
        buffer_input(&mut self.buffer, input_of(key));
        None
    }

    /// Takes a command from elsewhere; the editor acts on none.
    pub fn update(&mut self, action: Action) -> (r: Option<Action>)
        ensures
            r is None,
            *final(self) == *old(self),
    {
        None
    }

    /// The buffer's lines.
    pub fn lines(&self) -> (r: Vec<String>)
        ensures
            r.deep_view() == buffer_lines(self.buffer),
    {
        buffer_lines_of(&self.buffer)
    }

    /// The buffer's cursor: line, then column.
    pub fn cursor(&self) -> (r: (usize, usize))
        ensures
            (r.0 as nat, r.1 as nat) == buffer_cursor(self.buffer),
    {
        buffer_cursor_of(&self.buffer)
    }
}

/// The buffer's input for a key press, as a value.
pub open spec fn input_of_spec(key: KeyEvent) -> Input {
    Input { key: key_of(key.code), ctrl: key.ctrl, alt: key.alt, shift: key.shift }
}

} // verus!
