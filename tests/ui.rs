use vndf::ui::{InputEvent, Ui};

#[test]
fn plain_keys() {
    let mut ui = Ui::new();
    assert_eq!(ui.broadcast_list_height(), 5);
    assert_eq!(
        ui.process_input(&['a', '\x7f', '\n', ' ']),
        vec![InputEvent::Char('a'), InputEvent::Backspace, InputEvent::Enter, InputEvent::Char(' ')]
    );
}

#[test]
fn cursor_keys() {
    let mut ui = Ui::new();
    let chars: Vec<char> = "\x1b[A\x1b[B\x1b[C\x1b[Dz".chars().collect();
    assert_eq!(
        ui.process_input(&chars),
        vec![
            InputEvent::CursorUp,
            InputEvent::CursorDown,
            InputEvent::CursorRight,
            InputEvent::CursorLeft,
            InputEvent::Char('z'),
        ]
    );
}

#[test]
fn escape_sequence_over_two_reads() {
    let mut ui = Ui::new();
    assert_eq!(ui.process_input(&['\x1b']), vec![]);
    assert_eq!(ui.process_input(&['[', 'A']), vec![InputEvent::CursorUp]);
}

#[test]
fn unexpected_characters_end_a_sequence() {
    let mut ui = Ui::new();
    assert_eq!(ui.process_input(&['\x1b', 'x', 'y']), vec![InputEvent::Char('y')]);
    assert_eq!(ui.process_input(&['\x1b', '[', 'Q', 'A']), vec![InputEvent::Char('A')]);
}
