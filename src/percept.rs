//! Percepts: the events the server sends to a client.
use vstd::prelude::*;
use vstd::utf8::*;

use crate::part::{
    broadcast_keyword, broadcast_word, lemma_keywords, Field, MessagePart, PartError,
};
use crate::text::{
    bytes_equal, find, find_byte, lacks, lemma_ascii_valid_utf8, lemma_find_after,
    lemma_find_bounds, push_bytes, text_bytes, text_field, NEWLINE, SPACE,
};

verus! {

broadcast use encode_utf8_valid_utf8, encode_utf8_decode_utf8, valid_utf8_concat;

/// One thing that a client perceives of the world.
#[derive(Clone, Debug, PartialEq, Eq)]
pub enum Percept {
    /// A broadcast is on the air: who sends it, and what it says.
    Broadcast { sender: String, message: String },
}

/// A percept as a mathematical value.
pub enum PerceptView {
    Broadcast { sender: Seq<char>, message: Seq<char> },
}

impl View for Percept {
    type V = PerceptView;

    open spec fn view(&self) -> PerceptView {
        match self {
            Percept::Broadcast { sender, message } => PerceptView::Broadcast {
                sender: sender@,
                message: message@,
            },
        }
    }
}

/// The line of a percept: `BROADCAST <sender> <message>`.
pub open spec fn percept_line(v: PerceptView) -> Seq<u8> {
    match v {
        PerceptView::Broadcast { sender, message } => broadcast_word() + seq![SPACE]
            + encode_utf8(sender) + seq![SPACE] + encode_utf8(message),
    }
}

/// The sender is one field: no space in it; neither field holds a line end.
pub open spec fn percept_encodable(v: PerceptView) -> bool {
    match v {
        PerceptView::Broadcast { sender, message } => {
            &&& lacks(encode_utf8(sender), SPACE)
            &&& lacks(encode_utf8(sender), NEWLINE)
            &&& lacks(encode_utf8(message), NEWLINE)
        },
    }
}

/// What a line reads as.
pub open spec fn parse_percept(line: Seq<u8>) -> Result<PerceptView, PartError> {
    let t = find(line, SPACE) as int;
    let rest = line.subrange(t + 1, line.len() as int);
    let u = find(rest, SPACE) as int;
    let sender = rest.subrange(0, u);
    let message = rest.subrange(u + 1, rest.len() as int);
    if line.subrange(0, t) != broadcast_word() {
        Err(PartError::UnknownTag)
    } else if t == line.len() {
        Err(PartError::MissingField(Field::Sender))
    } else if u == rest.len() {
        Err(PartError::MissingField(Field::Message))
    } else if !valid_utf8(sender) {
        Err(PartError::InvalidText(Field::Sender))
    } else if !valid_utf8(message) {
        Err(PartError::InvalidText(Field::Message))
    } else {
        Ok(PerceptView::Broadcast { sender: decode_utf8(sender), message: decode_utf8(message) })
    }
}

/// Whether `b` holds neither of two bytes.
fn lacks_both(b: &[u8], c: u8, d: u8) -> (r: bool)
    ensures
        r == (lacks(b@, c) && lacks(b@, d)),
{
    let i = find_byte(b, 0, b.len(), c);
    let j = find_byte(b, 0, b.len(), d);
    proof {
        assert(b@.subrange(0, b@.len() as int) =~= b@);
        lemma_find_bounds(b@, c);
        lemma_find_bounds(b@, d);
        if i < b.len() {
            assert(b@[i as int] == c);
        } else {
            assert(b@.subrange(0, i as int) =~= b@);
        }
        if j < b.len() {
            assert(b@[j as int] == d);
        } else {
            assert(b@.subrange(0, j as int) =~= b@);
        }
    }
    i == b.len() && j == b.len()
}

impl MessagePart for Percept {
    open spec fn encodable(v: PerceptView) -> bool {
        percept_encodable(v)
    }

    open spec fn line(v: PerceptView) -> Seq<u8> {
        percept_line(v)
    }

    open spec fn parse(line: Seq<u8>) -> Result<PerceptView, PartError> {
        parse_percept(line)
    }

    proof fn lemma_line(v: PerceptView) {
        lemma_keywords();
        let line = percept_line(v);
        match v {
            PerceptView::Broadcast { sender, message } => {
                let w = broadcast_word();
                let s = encode_utf8(sender);
                let m = encode_utf8(message);
                let rest = s + seq![SPACE] + m;
                assert(line =~= w + seq![SPACE] + rest);
                lemma_find_after(w, SPACE, rest);
                lemma_find_after(s, SPACE, m);
                lemma_ascii_valid_utf8(w);
                lemma_ascii_valid_utf8(seq![SPACE]);
                assert(valid_utf8(w + seq![SPACE]));
                assert(valid_utf8(w + seq![SPACE] + s));
                assert(valid_utf8(w + seq![SPACE] + s + seq![SPACE]));
                assert(valid_utf8(line));
                assert(lacks(line, NEWLINE)) by {
                    assert forall|i: int| 0 <= i < line.len() implies #[trigger] line[i] != NEWLINE by {
                        if i < w.len() {
                            assert(line[i] == w[i]);
                        } else if w.len() < i < w.len() + 1 + s.len() {
                            assert(line[i] == s[i - w.len() - 1]);
                        } else if i > w.len() + 1 + s.len() {
                            assert(line[i] == m[i - w.len() - 2 - s.len()]);
                        }
                    }
                }
            },
        }
    }

    fn is_encodable(&self) -> (r: bool) {
        match self {
            Percept::Broadcast { sender, message } => {
                lacks_both(text_bytes(sender), SPACE, NEWLINE)
                    && lacks_both(text_bytes(message), NEWLINE, NEWLINE)
            },
        }
    }

    fn write(&self, out: &mut Vec<u8>) {
        match self {
            Percept::Broadcast { sender, message } => {
                let w = broadcast_keyword();
                push_bytes(out, w.as_slice());
                out.push(SPACE);
                push_bytes(out, text_bytes(sender));
                out.push(SPACE);
                push_bytes(out, text_bytes(message));
            },
        }
        assert(final(out)@ =~= old(out)@ + percept_line(self@));
    }

    fn read(b: &[u8], start: usize, end: usize) -> (r: Result<Percept, PartError>) {
        let ghost line = b@.subrange(start as int, end as int);
        let t = find_byte(b, start, end, SPACE);
        assert(b@.subrange(start as int, t as int) =~= line.subrange(0, t - start));
        let broadcast = broadcast_keyword();
        if !bytes_equal(b, start, t, broadcast.as_slice()) {
            return Err(PartError::UnknownTag);
        }
        if t == end {
            return Err(PartError::MissingField(Field::Sender));
        }
        let ghost rest = line.subrange(t - start + 1, line.len() as int);
        assert(b@.subrange(t + 1, end as int) =~= rest);
        let u = find_byte(b, t + 1, end, SPACE);
        if u == end {
            return Err(PartError::MissingField(Field::Message));
        }
        let ghost k = u - (t + 1);
        assert(b@.subrange(t + 1, u as int) =~= rest.subrange(0, k));
        assert(b@.subrange(u + 1, end as int) =~= rest.subrange(k + 1, rest.len() as int));
        let sender = match text_field(b, t + 1, u) {
            None => return Err(PartError::InvalidText(Field::Sender)),
            Some(s) => s,
        };
        let message = match text_field(b, u + 1, end) {
            None => return Err(PartError::InvalidText(Field::Message)),
            Some(m) => m,
        };
        Ok(Percept::Broadcast { sender, message })
    }
}

} // verus!
