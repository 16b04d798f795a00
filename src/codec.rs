//! Packets: a header line followed by one line per part.
use vstd::prelude::*;
use vstd::utf8::*;

use crate::part::{Field, MessagePart, PartError};
use crate::text::{
    decimal, find, find_byte, is_ascii_bytes, is_digit, lacks, lemma_ascii_valid_utf8,
    lemma_decimal, lemma_find_after, lemma_find_bounds, lemma_parse_decimal, parse_decimal, read_decimal, text_field,
    write_decimal, NEWLINE,
};

verus! {

/// No packet is ever larger than this many bytes.
pub const MAX_PACKET_SIZE: usize = 512;

/// Why a packet could not be read.
#[derive(Clone, Copy, Debug, PartialEq, Eq, Structural)]
pub enum DecodeError {
    /// The bytes are not valid UTF-8 text.
    EncodingError,
    /// The packet is empty: it has no header line.
    MissingHeader,
    /// The header line is not a sequence number.
    HeaderDecodeError(PartError),
    /// A part line could not be read.
    PartDecodeError(PartError),
}

/// Why a packet could not be written.
#[derive(Clone, Copy, Debug, PartialEq, Eq, Structural)]
pub enum EncodeError {
    /// The packet would be larger than the capacity it must fit in.
    CapacityExceeded,
}

/// The views of a run of parts.
pub open spec fn views<P: View>(v: Seq<P>) -> Seq<P::V> {
    v.map_values(|p: P| p@)
}

pub open spec fn all_encodable<P: MessagePart>(ps: Seq<P::V>) -> bool {
    forall|i: int| 0 <= i < ps.len() ==> P::encodable(#[trigger] ps[i])
}

/// The part lines of a packet, each ended by a line end.
pub open spec fn parts_bytes<P: MessagePart>(ps: Seq<P::V>) -> Seq<u8>
    decreases ps.len(),
{
    if ps.len() == 0 {
        Seq::empty()
    } else {
        P::line(ps[0]) + seq![NEWLINE] + parts_bytes::<P>(ps.drop_first())
    }
}

/// The bytes of a packet: the header's sequence number in decimal on the
/// first line, then one line per part.
pub open spec fn packet_bytes<P: MessagePart>(header: u64, ps: Seq<P::V>) -> Seq<u8> {
    decimal(header as nat) + seq![NEWLINE] + parts_bytes::<P>(ps)
}

/// Where the line that starts `b` ends, and where the next one starts.
pub open spec fn next_line_start(b: Seq<u8>) -> int {
    let e = find(b, NEWLINE) as int;
    if e < b.len() { e + 1 } else { b.len() as int }
}

/// The parts that the lines of `b` read as; empty lines are skipped and the
/// first line that cannot be read decides the error.
pub open spec fn parse_parts<P: MessagePart>(b: Seq<u8>) -> Result<Seq<P::V>, PartError>
    decreases b.len(),
{
    if b.len() == 0 {
        Ok(Seq::empty())
    } else {
        let e = find(b, NEWLINE) as int;
        let rest = b.subrange(next_line_start(b), b.len() as int);
        if e == 0 {
            parse_parts::<P>(rest)
        } else {
            match P::parse(b.subrange(0, e)) {
                Err(x) => Err(x),
                Ok(p) => match parse_parts::<P>(rest) {
                    Ok(ps) => Ok(seq![p] + ps),
                    Err(x) => Err(x),
                },
            }
        }
    }
}

/// What a packet reads as: its header and its parts, in order.
pub open spec fn parse_packet<P: MessagePart>(b: Seq<u8>) -> Result<(u64, Seq<P::V>), DecodeError> {
    let e = find(b, NEWLINE) as int;
    let rest = b.subrange(next_line_start(b), b.len() as int);
    if !valid_utf8(b) {
        Err(DecodeError::EncodingError)
    } else if b.len() == 0 {
        Err(DecodeError::MissingHeader)
    } else {
        match parse_decimal(b.subrange(0, e)) {
            None => Err(DecodeError::HeaderDecodeError(PartError::InvalidNumber(Field::Sequence))),
            Some(h) => match parse_parts::<P>(rest) {
                Ok(ps) => Ok((h, ps)),
                Err(x) => Err(DecodeError::PartDecodeError(x)),
            },
        }
    }
}

pub open spec fn decoded_view<P: View>(r: Result<(u64, Vec<P>), DecodeError>) -> Result<(u64, Seq<P::V>), DecodeError> {
    match r {
        Ok((h, v)) => Ok((h, views(v@))),
        Err(e) => Err(e),
    }
}

pub open spec fn prepend<V>(xs: Seq<V>, r: Result<Seq<V>, PartError>) -> Result<Seq<V>, PartError> {
    match r {
        Ok(ys) => Ok(xs + ys),
        Err(x) => Err(x),
    }
}

/// Reads a packet.
pub fn decode<P: MessagePart>(b: &[u8]) -> (r: Result<(u64, Vec<P>), DecodeError>)
    ensures
        decoded_view(r) == parse_packet::<P>(b@),
{
    if text_field(b, 0, b.len()).is_none() {
        assert(b@.subrange(0, b@.len() as int) =~= b@);
        return Err(DecodeError::EncodingError);
    }
    assert(b@.subrange(0, b@.len() as int) =~= b@);
    if b.len() == 0 {
        return Err(DecodeError::MissingHeader);
    }
    let len = b.len();
    let e = find_byte(b, 0, len, NEWLINE);
    let header = match read_decimal(b, 0, e) {
        None => return Err(DecodeError::HeaderDecodeError(PartError::InvalidNumber(Field::Sequence))),
        Some(h) => h,
    };
    let first: usize = if e < len { e + 1 } else { len };
    let ghost body = b@.subrange(first as int, len as int);
    assert(body == b@.subrange(next_line_start(b@), b@.len() as int));
    let mut parts: Vec<P> = Vec::new();
    let mut pos: usize = first;
    while pos < len
        invariant
            first <= pos <= len == b@.len(),
            body == b@.subrange(first as int, len as int),
            parse_packet::<P>(b@) == match parse_parts::<P>(body) {
                Ok(ps) => Ok((header, ps)),
                Err(x) => Err(DecodeError::PartDecodeError(x)),
            },
            parse_parts::<P>(body) == prepend(views(parts@), parse_parts::<P>(b@.subrange(pos as int, len as int))),
        decreases len - pos,
    {
        let ghost tail = b@.subrange(pos as int, len as int);
        let end = find_byte(b, pos, len, NEWLINE);
        let next: usize = if end < len { end + 1 } else { len };
        proof {
            lemma_find_bounds(tail, NEWLINE);
            assert(tail.subrange(next_line_start(tail), tail.len() as int) =~= b@.subrange(next as int, len as int));
            assert(tail.subrange(0, end - pos) =~= b@.subrange(pos as int, end as int));
        }
        if end > pos {
            match P::read(b, pos, end) {
                Err(x) => {
                    assert(parse_parts::<P>(tail) == Err::<Seq<P::V>, PartError>(x));
                    assert(parse_parts::<P>(body) == Err::<Seq<P::V>, PartError>(x));
                    return Err(DecodeError::PartDecodeError(x));
                },
                Ok(p) => {
                    let ghost before = views(parts@);
                    parts.push(p);
                    assert(views(parts@) =~= before.push(p@));
                    proof {
                        let r = parse_parts::<P>(b@.subrange(next as int, len as int));
                        if r is Ok {
                            assert(before + (seq![p@] + r->Ok_0) =~= before.push(p@) + r->Ok_0);
                        }
                    }
                },
            }
        }
        pos = next;
    }
    assert(views(parts@) + Seq::<P::V>::empty() =~= views(parts@));
    Ok((header, parts))
}


/// Adding a part adds its line and a line end.
pub proof fn lemma_parts_bytes_push<P: MessagePart>(ps: Seq<P::V>, p: P::V)
    ensures
        parts_bytes::<P>(ps.push(p)) == parts_bytes::<P>(ps) + P::line(p) + seq![NEWLINE],
    decreases ps.len(),
{
    if ps.len() == 0 {
        assert(ps.push(p).drop_first() =~= Seq::<P::V>::empty());
        assert(parts_bytes::<P>(Seq::<P::V>::empty()) == Seq::<u8>::empty());
        assert(parts_bytes::<P>(ps.push(p)) =~= P::line(p) + seq![NEWLINE]);
    } else {
        assert(ps.push(p).drop_first() =~= ps.drop_first().push(p));
        lemma_parts_bytes_push::<P>(ps.drop_first(), p);
        assert(parts_bytes::<P>(ps.push(p)) =~= parts_bytes::<P>(ps) + P::line(p) + seq![NEWLINE]);
    }
}

/// The part lines of encodable parts are text, and read back as the parts.
proof fn lemma_parts_round_trip<P: MessagePart>(ps: Seq<P::V>)
    requires
        all_encodable::<P>(ps),
    ensures
        valid_utf8(parts_bytes::<P>(ps)),
        parse_parts::<P>(parts_bytes::<P>(ps)) == Ok::<Seq<P::V>, PartError>(ps),
    decreases ps.len(),
{
    broadcast use valid_utf8_concat;

    if ps.len() > 0 {
        let line = P::line(ps[0]);
        let tail = ps.drop_first();
        assert(all_encodable::<P>(tail)) by {
            assert forall|i: int| 0 <= i < tail.len() implies P::encodable(#[trigger] tail[i]) by {
                assert(P::encodable(ps[i + 1]));
            }
        }
        lemma_parts_round_trip::<P>(tail);
        P::lemma_line(ps[0]);
        let rest = parts_bytes::<P>(tail);
        let b = parts_bytes::<P>(ps);
        lemma_find_after(line, NEWLINE, rest);
        lemma_ascii_valid_utf8(seq![NEWLINE]);
        assert(valid_utf8(line + seq![NEWLINE]));
        assert(b =~= line + seq![NEWLINE] + rest);
        assert(next_line_start(b) == line.len() + 1);
        assert(b.subrange(0, line.len() as int) == line);
        assert(seq![ps[0]] + tail =~= ps);
        assert(parse_parts::<P>(b) == prepend(seq![ps[0]], parse_parts::<P>(rest)));
    } else {
        assert(ps =~= Seq::<P::V>::empty());
        assert(parts_bytes::<P>(ps).len() == 0);
    }
}

/// Reading a packet gives back the header and the parts it was written from.
pub proof fn lemma_round_trip<P: MessagePart>(header: u64, ps: Seq<P::V>)
    requires
        all_encodable::<P>(ps),
        packet_bytes::<P>(header, ps).len() <= MAX_PACKET_SIZE,
    ensures
        parse_packet::<P>(packet_bytes::<P>(header, ps)) == Ok::<(u64, Seq<P::V>), DecodeError>((header, ps)),
{
    broadcast use valid_utf8_concat;

    let d = decimal(header as nat);
    let rest = parts_bytes::<P>(ps);
    let b = packet_bytes::<P>(header, ps);
    lemma_decimal(header as nat);
    lemma_parse_decimal(header);
    lemma_parts_round_trip::<P>(ps);
    assert(lacks(d, NEWLINE)) by {
        assert forall|i: int| 0 <= i < d.len() implies #[trigger] d[i] != NEWLINE by {
            assert(is_digit(d[i]));
        }
    }
    assert(is_ascii_bytes(d + seq![NEWLINE])) by {
        assert forall|i: int| 0 <= i < d.len() + 1 implies #[trigger] (d + seq![NEWLINE])[i] < 128 by {
            if i < d.len() {
                assert(is_digit(d[i]));
            }
        }
    }
    lemma_ascii_valid_utf8(d + seq![NEWLINE]);
    lemma_find_after(d, NEWLINE, rest);
    assert(next_line_start(b) == d.len() + 1);
}

/// Writes a packet of the header and all the parts, if it fits in
/// `capacity` bytes; nothing is cut short.
pub fn encode<P: MessagePart>(header: u64, parts: &[P], capacity: usize) -> (r: Result<Vec<u8>, EncodeError>)
    requires
        all_encodable::<P>(views(parts@)),
    ensures
        match r {
            Ok(v) => v@ == packet_bytes::<P>(header, views(parts@)) && v@.len() <= capacity,
            Err(e) => e == EncodeError::CapacityExceeded
                && packet_bytes::<P>(header, views(parts@)).len() > capacity,
        },
{
    let mut out: Vec<u8> = Vec::new();
    write_decimal(header, &mut out);
    out.push(NEWLINE);
    let mut i: usize = 0;
    while i < parts.len()
        invariant
            i <= parts@.len(),
            all_encodable::<P>(views(parts@)),
            out@ == packet_bytes::<P>(header, views(parts@).subrange(0, i as int)),
        decreases parts@.len() - i,
    {
        let ghost done = views(parts@).subrange(0, i as int);
        assert(P::encodable(views(parts@)[i as int]));
        parts[i].write(&mut out);
        out.push(NEWLINE);
        proof {
            lemma_parts_bytes_push::<P>(done, parts@[i as int]@);
            assert(views(parts@).subrange(0, i + 1) =~= done.push(parts@[i as int]@));
        }
        i = i + 1;
        assert(out@ =~= packet_bytes::<P>(header, views(parts@).subrange(0, i as int)));
    }
    assert(views(parts@).subrange(0, i as int) =~= views(parts@));
    if out.len() > capacity {
        Err(EncodeError::CapacityExceeded)
    } else {
        Ok(out)
    }
}

} // verus!
