//! Steps: the events a client sends to the server.
use vstd::prelude::*;
use vstd::utf8::*;

use crate::part::{
    broadcast_keyword, broadcast_word, lemma_keyword_alone, lemma_keywords, login_keyword, login_word,
    schedule_maneuver_keyword, schedule_maneuver_word, stop_broadcast_keyword,
    stop_broadcast_word, Field, MessagePart, PartError,
};
use crate::text::{
    bytes_equal, decimal, find, find_byte, is_ascii_bytes, is_digit, lacks,
    lemma_ascii_valid_utf8, lemma_decimal, lemma_find_after, lemma_find_bounds,
    lemma_parse_decimal, parse_decimal, push_bytes, read_decimal,
    text_bytes, text_field, write_decimal, NEWLINE, SPACE,
};

verus! {

broadcast use encode_utf8_valid_utf8, encode_utf8_decode_utf8, valid_utf8_concat;

/// One thing that a player does.
#[derive(Clone, Debug, PartialEq, Eq)]
pub enum Step {
    /// Joins the game.
    Login,
    /// Begins broadcasting this text.
    Broadcast(String),
    /// Ends the current broadcast.
    StopBroadcast,
    /// Turns the ship to `angle` (milliradians) after `delay` (seconds).
    ScheduleManeuver { delay: u64, angle: u64 },
}

/// A step as a mathematical value.
pub enum StepView {
    Login,
    Broadcast(Seq<char>),
    StopBroadcast,
    ScheduleManeuver { delay: u64, angle: u64 },
}

impl View for Step {
    type V = StepView;

    open spec fn view(&self) -> StepView {
        match self {
            Step::Login => StepView::Login,
            Step::Broadcast(t) => StepView::Broadcast(t@),
            Step::StopBroadcast => StepView::StopBroadcast,
            Step::ScheduleManeuver { delay, angle } => StepView::ScheduleManeuver {
                delay: *delay,
                angle: *angle,
            },
        }
    }
}

/// The line of a step: `LOGIN`, `BROADCAST <text>`, `STOP_BROADCAST` or
/// `SCHEDULE_MANEUVER <delay> <angle>`.
pub open spec fn step_line(v: StepView) -> Seq<u8> {
    match v {
        StepView::Login => login_word(),
        StepView::Broadcast(t) => broadcast_word() + seq![SPACE] + encode_utf8(t),
        StepView::StopBroadcast => stop_broadcast_word(),
        StepView::ScheduleManeuver { delay, angle } => schedule_maneuver_word() + seq![SPACE]
            + decimal(delay as nat) + seq![SPACE] + decimal(angle as nat),
    }
}

/// Only broadcast text can break a line: it must hold no line end.
pub open spec fn step_encodable(v: StepView) -> bool {
    match v {
        StepView::Broadcast(t) => lacks(encode_utf8(t), NEWLINE),
        _ => true,
    }
}

/// What a line reads as: the keyword up to the first space picks the variant.
pub open spec fn parse_step(line: Seq<u8>) -> Result<StepView, PartError> {
    let t = find(line, SPACE) as int;
    let tag = line.subrange(0, t);
    let rest = line.subrange(t + 1, line.len() as int);
    if tag == login_word() {
        if t < line.len() { Err(PartError::UnexpectedField) } else { Ok(StepView::Login) }
    } else if tag == stop_broadcast_word() {
        if t < line.len() { Err(PartError::UnexpectedField) } else { Ok(StepView::StopBroadcast) }
    } else if tag == broadcast_word() {
        if t == line.len() {
            Err(PartError::MissingField(Field::Text))
        } else if !valid_utf8(rest) {
            Err(PartError::InvalidText(Field::Text))
        } else {
            Ok(StepView::Broadcast(decode_utf8(rest)))
        }
    } else if tag == schedule_maneuver_word() {
        let u = find(rest, SPACE) as int;
        if t == line.len() {
            Err(PartError::MissingField(Field::Delay))
        } else if u == rest.len() {
            Err(PartError::MissingField(Field::Angle))
        } else {
            match parse_decimal(rest.subrange(0, u)) {
                None => Err(PartError::InvalidNumber(Field::Delay)),
                Some(delay) => match parse_decimal(rest.subrange(u + 1, rest.len() as int)) {
                    None => Err(PartError::InvalidNumber(Field::Angle)),
                    Some(angle) => Ok(StepView::ScheduleManeuver { delay, angle }),
                },
            }
        }
    } else {
        Err(PartError::UnknownTag)
    }
}

impl MessagePart for Step {
    open spec fn encodable(v: StepView) -> bool {
        step_encodable(v)
    }

    open spec fn line(v: StepView) -> Seq<u8> {
        step_line(v)
    }

    open spec fn parse(line: Seq<u8>) -> Result<StepView, PartError> {
        parse_step(line)
    }

    proof fn lemma_line(v: StepView) {
        lemma_keywords();
        let line = step_line(v);
        match v {
            StepView::Login => {
                lemma_keyword_alone(login_word());
                assert(valid_utf8(line));
            },
            StepView::StopBroadcast => {
                lemma_keyword_alone(stop_broadcast_word());
            },
            StepView::Broadcast(t) => {
                let w = broadcast_word();
                let rest = encode_utf8(t);
                lemma_find_after(w, SPACE, rest);
                lemma_ascii_valid_utf8(w);
                lemma_ascii_valid_utf8(seq![SPACE]);
                assert(valid_utf8(w + seq![SPACE]));
                assert(valid_utf8(line));
                assert(lacks(line, NEWLINE)) by {
                    assert forall|i: int| 0 <= i < line.len() implies #[trigger] line[i] != NEWLINE by {
                        if i < w.len() {
                            assert(line[i] == w[i]);
                        } else if i > w.len() {
                            assert(line[i] == rest[i - w.len() - 1]);
                        }
                    }
                }
            },
            StepView::ScheduleManeuver { delay, angle } => {
                let w = schedule_maneuver_word();
                let d = decimal(delay as nat);
                let a = decimal(angle as nat);
                lemma_decimal(delay as nat);
                lemma_decimal(angle as nat);
                lemma_parse_decimal(delay);
                lemma_parse_decimal(angle);
                let rest = d + seq![SPACE] + a;
                assert(line =~= w + seq![SPACE] + rest);
                lemma_find_after(w, SPACE, rest);
                assert(lacks(d, SPACE)) by {
                    assert forall|i: int| 0 <= i < d.len() implies #[trigger] d[i] != SPACE by {
                        assert(is_digit(d[i]));
                    }
                }
                lemma_find_after(d, SPACE, a);
                assert(is_ascii_bytes(line)) by {
                    assert forall|i: int| 0 <= i < line.len() implies #[trigger] line[i] < 128 by {
                        if i < w.len() {
                            assert(line[i] == w[i]);
                        } else if w.len() < i < w.len() + 1 + d.len() {
                            assert(line[i] == d[i - w.len() - 1]);
                            assert(is_digit(d[i - w.len() - 1]));
                        } else if i > w.len() + 1 + d.len() {
                            assert(line[i] == a[i - w.len() - 2 - d.len()]);
                            assert(is_digit(a[i - w.len() - 2 - d.len()]));
                        }
                    }
                }
                lemma_ascii_valid_utf8(line);
            },
        }
    }

    fn is_encodable(&self) -> (r: bool) {
        match self {
            Step::Broadcast(t) => {
                let b = text_bytes(t);
                let n = find_byte(b, 0, b.len(), NEWLINE);
                proof {
                    assert(b@.subrange(0, b@.len() as int) =~= b@);
                    lemma_find_bounds(b@, NEWLINE);
                    if n < b.len() {
                        assert(b@[n as int] == NEWLINE);
                    } else {
                        assert(b@.subrange(0, n as int) =~= b@);
                    }
                }
                n == b.len()
            },
            _ => true,
        }
    }

    fn write(&self, out: &mut Vec<u8>) {
        match self {
            Step::Login => {
                let w = login_keyword();
                push_bytes(out, w.as_slice());
            },
            Step::Broadcast(t) => {
                let w = broadcast_keyword();
                push_bytes(out, w.as_slice());
                out.push(SPACE);
                push_bytes(out, text_bytes(t));
            },
            Step::StopBroadcast => {
                let w = stop_broadcast_keyword();
                push_bytes(out, w.as_slice());
            },
            Step::ScheduleManeuver { delay, angle } => {
                let w = schedule_maneuver_keyword();
                push_bytes(out, w.as_slice());
                out.push(SPACE);
                write_decimal(*delay, out);
                out.push(SPACE);
                write_decimal(*angle, out);
            },
        }
        assert(final(out)@ =~= old(out)@ + step_line(self@));
    }

    fn read(b: &[u8], start: usize, end: usize) -> (r: Result<Step, PartError>) {
        let ghost line = b@.subrange(start as int, end as int);
        let t = find_byte(b, start, end, SPACE);
        let ghost tag = line.subrange(0, t - start);
        let ghost rest = line.subrange(t - start + 1, line.len() as int);
        assert(b@.subrange(start as int, t as int) =~= tag);
        let login = login_keyword();
        let stop = stop_broadcast_keyword();
        let broadcast = broadcast_keyword();
        let schedule = schedule_maneuver_keyword();
        if bytes_equal(b, start, t, login.as_slice()) {
            if t < end { Err(PartError::UnexpectedField) } else { Ok(Step::Login) }
        } else if bytes_equal(b, start, t, stop.as_slice()) {
            if t < end { Err(PartError::UnexpectedField) } else { Ok(Step::StopBroadcast) }
        } else if bytes_equal(b, start, t, broadcast.as_slice()) {
            if t == end {
                Err(PartError::MissingField(Field::Text))
            } else {
                assert(b@.subrange(t + 1, end as int) =~= rest);
                match text_field(b, t + 1, end) {
                    None => Err(PartError::InvalidText(Field::Text)),
                    Some(text) => Ok(Step::Broadcast(text)),
                }
            }
        } else if bytes_equal(b, start, t, schedule.as_slice()) {
            if t == end {
                return Err(PartError::MissingField(Field::Delay));
            }
            assert(b@.subrange(t + 1, end as int) =~= rest);
            let u = find_byte(b, t + 1, end, SPACE);
            if u == end {
                return Err(PartError::MissingField(Field::Angle));
            }
            let ghost k = u - (t + 1);
            assert(b@.subrange(t + 1, u as int) =~= rest.subrange(0, k));
            assert(b@.subrange(u + 1, end as int) =~= rest.subrange(k + 1, rest.len() as int));
            match read_decimal(b, t + 1, u) {
                None => Err(PartError::InvalidNumber(Field::Delay)),
                Some(delay) => match read_decimal(b, u + 1, end) {
                    None => Err(PartError::InvalidNumber(Field::Angle)),
                    Some(angle) => Ok(Step::ScheduleManeuver { delay, angle }),
                },
            }
        } else {
            Err(PartError::UnknownTag)
        }
    }
}

} // verus!
