//! Turning the characters a terminal sends into input events, escape
//! sequences for the cursor keys included.
use vstd::prelude::*;

use crate::screen::Pos;

verus! {

/// What a key press means to the user interface.
#[derive(Clone, Copy, Debug, PartialEq, Eq, Structural)]
pub enum InputEvent {
    Backspace,
    Char(char),
    CursorDown,
    CursorLeft,
    CursorRight,
    CursorUp,
    Enter,
}

/// Where the reader is in an escape sequence.
#[derive(Clone, Copy, Debug, PartialEq, Eq, Structural)]
pub enum TextInputMode {
    /// Plain characters.
    Regular,
    /// After an escape character.
    Escape,
    /// After an escape character and `[`.
    Cursor,
}

/// The mode after `c`, and the event that `c` completes, if any.
pub open spec fn key_step(mode: TextInputMode, c: char) -> (TextInputMode, Option<InputEvent>) {
    match mode {
        TextInputMode::Regular => if c == '\x1b' {
            (TextInputMode::Escape, None)
        } else if c == '\x7f' {
            (TextInputMode::Regular, Some(InputEvent::Backspace))
        } else if c == '\n' {
            (TextInputMode::Regular, Some(InputEvent::Enter))
        } else {
            (TextInputMode::Regular, Some(InputEvent::Char(c)))
        },
        TextInputMode::Escape => if c == '[' {
            (TextInputMode::Cursor, None)
        } else {
            (TextInputMode::Regular, None)
        },
        TextInputMode::Cursor => (
            TextInputMode::Regular,
            if c == 'A' {
                Some(InputEvent::CursorUp)
            } else if c == 'B' {
                Some(InputEvent::CursorDown)
            } else if c == 'C' {
                Some(InputEvent::CursorRight)
            } else if c == 'D' {
                Some(InputEvent::CursorLeft)
            } else {
                None
            },
        ),
    }
}

/// The mode after `chars`, read from `mode` on, and the events they make, in order.
pub open spec fn read_keys(mode: TextInputMode, chars: Seq<char>) -> (TextInputMode, Seq<InputEvent>)
    decreases chars.len(),
{
    if chars.len() == 0 {
        (mode, Seq::empty())
    } else {
        let (m, events) = read_keys(mode, chars.drop_last());
        let (next, event) = key_step(m, chars.last());
        (next, match event {
            Some(e) => events.push(e),
            None => events,
        })
    }
}

/// The state of the terminal user interface that input goes through.
pub struct Ui {
    mode: TextInputMode,
    broadcast_list_height: Pos,
}

impl Ui {
    /// Where the reader is in an escape sequence.
    pub closed spec fn mode(&self) -> TextInputMode {
        self.mode
    }

    /// How many broadcasts the list shows at once.
    pub closed spec fn list_height(&self) -> Pos {
        self.broadcast_list_height
    }

    /// How many broadcasts the list shows at once.
    pub fn broadcast_list_height(&self) -> (r: Pos)
        ensures
            r == self.list_height(),
    {
        self.broadcast_list_height
    }

    /// A user interface that expects plain characters.
    pub fn new() -> (r: Ui)
        ensures
            r.mode() == TextInputMode::Regular,
            r.list_height() == 5,
    {
        Ui { mode: TextInputMode::Regular, broadcast_list_height: 5 }
    }

    /// Reads the characters typed since the last call and returns the
    /// events they make. An escape sequence may run over several calls; an
    /// unexpected character in one ends it.
    pub fn process_input(&mut self, chars: &[char]) -> (r: Vec<InputEvent>)
        ensures
            (final(self).mode(), r@) == read_keys(old(self).mode(), chars@),
            final(self).list_height() == old(self).list_height(),
    {
        let mut events: Vec<InputEvent> = Vec::new();
        let mut i: usize = 0;
        while i < chars.len()
            invariant
                i <= chars@.len(),
                (self.mode, events@) == read_keys(old(self).mode(), chars@.subrange(0, i as int)),
                self.broadcast_list_height == old(self).broadcast_list_height,
            decreases chars@.len() - i,
        {
            let c = chars[i];
            assert(chars@.subrange(0, i + 1).drop_last() =~= chars@.subrange(0, i as int));
            match self.mode {
                TextInputMode::Regular => {
                    if c == '\x1b' {
                        self.mode = TextInputMode::Escape;
                    } else if c == '\x7f' {
                        events.push(InputEvent::Backspace);
                    } else if c == '\n' {
                        events.push(InputEvent::Enter);
                    } else {
                        events.push(InputEvent::Char(c));
                    }
                },
                TextInputMode::Escape => {
                    if c == '[' {
                        self.mode = TextInputMode::Cursor;
                    } else {
                        self.mode = TextInputMode::Regular;
                    }
                },
                TextInputMode::Cursor => {
                    let event = if c == 'A' {
                        Some(InputEvent::CursorUp)
                    } else if c == 'B' {
                        Some(InputEvent::CursorDown)
                    } else if c == 'C' {
                        Some(InputEvent::CursorRight)
                    } else if c == 'D' {
                        Some(InputEvent::CursorLeft)
                    } else {
                        None
                    };
                    if let Some(event) = event {
                        events.push(event);
                    }
                    self.mode = TextInputMode::Regular;
                },
            }
            i = i + 1;
        }
        assert(chars@.subrange(0, i as int) =~= chars@);
        events
    }
}

} // verus!
