//! The contract that every kind of message part meets: one value, one line.
use vstd::prelude::*;
use vstd::utf8::*;

use crate::text::{
    find, is_ascii_bytes, lacks, lemma_ascii_valid_utf8, lemma_find_unique, NEWLINE, SPACE,
};

verus! {

/// The field of a line that could not be read.
#[derive(Clone, Copy, Debug, PartialEq, Eq, Structural)]
pub enum Field {
    Sequence,
    Id,
    Kind,
    Text,
    Sender,
    Message,
    Delay,
    Angle,
}

/// Why a line could not be read as a part.
#[derive(Clone, Copy, Debug, PartialEq, Eq, Structural)]
pub enum PartError {
    /// The leading keyword names no variant.
    UnknownTag,
    /// The line ends before this field.
    MissingField(Field),
    /// The line holds more than its variant's fields.
    UnexpectedField,
    /// This field is not a decimal number that fits in 64 bits.
    InvalidNumber(Field),
    /// This field is not valid UTF-8 text.
    InvalidText(Field),
}

/// What `read` hands back, seen through the part's view.
pub open spec fn read_view<P: View>(r: Result<P, PartError>) -> Result<P::V, PartError> {
    match r {
        Ok(p) => Ok(p@),
        Err(e) => Err(e),
    }
}

/// A typed unit that is written as, and read from, exactly one line.
pub trait MessagePart: Sized + View {
    /// Whether the value can be written as one line.
    spec fn encodable(v: Self::V) -> bool;

    /// The line that stands for the value, without its line end.
    spec fn line(v: Self::V) -> Seq<u8>;

    /// What a line reads as.
    spec fn parse(line: Seq<u8>) -> Result<Self::V, PartError>;

    /// An encodable value gives a non-empty line of text with no line end
    /// in it, which reads back as the value.
    proof fn lemma_line(v: Self::V)
        requires
            Self::encodable(v),
        ensures
            Self::line(v).len() > 0,
            lacks(Self::line(v), NEWLINE),
            valid_utf8(Self::line(v)),
            Self::parse(Self::line(v)) == Ok::<Self::V, PartError>(v),
    ;

    /// Whether the value can be written as one line.
    fn is_encodable(&self) -> (r: bool)
        ensures
            r == Self::encodable(self@),
    ;

    /// Appends the value's line, without its line end.
    fn write(&self, out: &mut Vec<u8>)
        requires
            Self::encodable(self@),
        ensures
            final(out)@ == old(out)@ + Self::line(self@),
    ;

    /// Reads the line `b[start..end]`.
    fn read(b: &[u8], start: usize, end: usize) -> (r: Result<Self, PartError>)
        requires
            start <= end <= b@.len(),
        ensures
            read_view(r) == Self::parse(b@.subrange(start as int, end as int)),
    ;
}


/// The keyword `LOGIN`.
pub open spec fn login_word() -> Seq<u8> {
    seq![76u8, 79, 71, 73, 78]
}

/// The keyword `BROADCAST`.
pub open spec fn broadcast_word() -> Seq<u8> {
    seq![66u8, 82, 79, 65, 68, 67, 65, 83, 84]
}

/// The keyword `STOP_BROADCAST`.
pub open spec fn stop_broadcast_word() -> Seq<u8> {
    seq![83u8, 84, 79, 80, 95, 66, 82, 79, 65, 68, 67, 65, 83, 84]
}

/// The keyword `SCHEDULE_MANEUVER`.
pub open spec fn schedule_maneuver_word() -> Seq<u8> {
    seq![83u8, 67, 72, 69, 68, 85, 76, 69, 95, 77, 65, 78, 69, 85, 86, 69, 82]
}

pub fn login_keyword() -> (r: Vec<u8>)
    ensures
        r@ == login_word(),
{
    let r: Vec<u8> = vec![76u8, 79, 71, 73, 78];
    assert(r@ =~= login_word());
    r
}

pub fn broadcast_keyword() -> (r: Vec<u8>)
    ensures
        r@ == broadcast_word(),
{
    let r: Vec<u8> = vec![66u8, 82, 79, 65, 68, 67, 65, 83, 84];
    assert(r@ =~= broadcast_word());
    r
}

pub fn stop_broadcast_keyword() -> (r: Vec<u8>)
    ensures
        r@ == stop_broadcast_word(),
{
    let r: Vec<u8> = vec![83u8, 84, 79, 80, 95, 66, 82, 79, 65, 68, 67, 65, 83, 84];
    assert(r@ =~= stop_broadcast_word());
    r
}

pub fn schedule_maneuver_keyword() -> (r: Vec<u8>)
    ensures
        r@ == schedule_maneuver_word(),
{
    let r: Vec<u8> = vec![83u8, 67, 72, 69, 68, 85, 76, 69, 95, 77, 65, 78, 69, 85, 86, 69, 82];
    assert(r@ =~= schedule_maneuver_word());
    r
}


/// A keyword is plain ASCII with no field separator or line end in it.
pub open spec fn is_keyword(w: Seq<u8>) -> bool {
    &&& w.len() > 0
    &&& is_ascii_bytes(w)
    &&& lacks(w, SPACE)
    &&& lacks(w, NEWLINE)
}

pub proof fn lemma_keywords()
    ensures
        is_keyword(login_word()),
        is_keyword(broadcast_word()),
        is_keyword(stop_broadcast_word()),
        is_keyword(schedule_maneuver_word()),
{
    let a = login_word();
    assert forall|i: int| 0 <= i < a.len() implies 65 <= #[trigger] a[i] <= 95 by {
        assert(i == 0 || i == 1 || i == 2 || i == 3 || i == 4);
    }
    let b = broadcast_word();
    assert forall|i: int| 0 <= i < b.len() implies 65 <= #[trigger] b[i] <= 95 by {
        assert(0 <= i < 9);
    }
    let c = stop_broadcast_word();
    assert forall|i: int| 0 <= i < c.len() implies 65 <= #[trigger] c[i] <= 95 by {
        assert(0 <= i < 14);
    }
    let d = schedule_maneuver_word();
    assert forall|i: int| 0 <= i < d.len() implies 65 <= #[trigger] d[i] <= 95 by {
        assert(0 <= i < 17);
    }
}


/// A line that is a keyword alone.
pub proof fn lemma_keyword_alone(w: Seq<u8>)
    requires
        is_keyword(w),
    ensures
        valid_utf8(w),
        find(w, SPACE) == w.len(),
        w.subrange(0, w.len() as int) == w,
{
    lemma_ascii_valid_utf8(w);
    assert(w.subrange(0, w.len() as int) =~= w);
    lemma_find_unique(w, SPACE, w.len() as int);
}

} // verus!
