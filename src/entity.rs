//! Entity messages of the word-based protocol: each is one line of words
//! separated by spaces, the first word naming the message.
use vstd::prelude::*;
use vstd::utf8::*;

use crate::part::{Field, PartError};
use crate::text::{
    decimal, is_ascii_bytes, is_digit, lemma_ascii_valid_utf8, lemma_decimal, parse_decimal,
    push_bytes, read_decimal, string_from_utf8, text_bytes, write_decimal, SPACE,
};

verus! {

broadcast use encode_utf8_valid_utf8, valid_utf8_concat, decode_utf8_encode_utf8;

/// The word `SELF_ID`.
pub open spec fn self_id_word() -> Seq<u8> {
    seq![83u8, 69, 76, 70, 95, 73, 68]
}

/// The word `CREATE`.
pub open spec fn create_word() -> Seq<u8> {
    seq![67u8, 82, 69, 65, 84, 69]
}

/// The word `REMOVE`.
pub open spec fn remove_word() -> Seq<u8> {
    seq![82u8, 69, 77, 79, 86, 69]
}

/// A word followed by a number, as text bytes.
pub open spec fn word_and_number(w: Seq<u8>, n: u64) -> Seq<u8> {
    w + seq![SPACE] + decimal(n as nat)
}

proof fn lemma_word_and_number_ascii(w: Seq<u8>, n: u64)
    requires
        is_ascii_bytes(w),
    ensures
        is_ascii_bytes(word_and_number(w, n)),
        valid_utf8(word_and_number(w, n)),
{
    let d = decimal(n as nat);
    let s = word_and_number(w, n);
    lemma_decimal(n as nat);
    assert forall|i: int| 0 <= i < s.len() implies #[trigger] s[i] < 128 by {
        if i < w.len() {
            assert(s[i] == w[i]);
        } else if i > w.len() {
            assert(s[i] == d[i - w.len() - 1]);
            assert(is_digit(d[i - w.len() - 1]));
        }
    }
    lemma_ascii_valid_utf8(s);
}

/// The id that word `i` of `words` holds.
fn read_id(words: &[&str], i: usize) -> (r: Result<u64, PartError>)
    ensures
        r == id_at(words@, i as int),
{
    if words.len() <= i {
        return Err(PartError::MissingField(Field::Id));
    }
    let b = words[i].as_bytes();
    match read_decimal(b, 0, b.len()) {
        None => {
            assert(b@.subrange(0, b@.len() as int) =~= b@);
            Err(PartError::InvalidNumber(Field::Id))
        },
        Some(id) => {
            assert(b@.subrange(0, b@.len() as int) =~= b@);
            Ok(id)
        },
    }
}

/// What word `i` of `words` reads as, taken as an id.
pub open spec fn id_at(words: Seq<&str>, i: int) -> Result<u64, PartError> {
    if words.len() <= i {
        Err(PartError::MissingField(Field::Id))
    } else {
        match parse_decimal(encode_utf8(words[i]@)) {
            None => Err(PartError::InvalidNumber(Field::Id)),
            Some(id) => Ok(id),
        }
    }
}

/// Builds the text of ASCII bytes.
fn ascii_text(v: Vec<u8>) -> (r: String)
    requires
        is_ascii_bytes(v@),
    ensures
        encode_utf8(r@) == v@,
{
    proof { lemma_ascii_valid_utf8(v@); }
    match string_from_utf8(v) {
        Some(t) => t,
        None => {
            assert(false);
            String::new()
        },
    }
}

/// Tells a client which entity is its own.
#[derive(Clone, Copy, Debug, PartialEq, Eq, Structural)]
pub struct SelfInfo {
    pub id: u64,
}

impl SelfInfo {
    /// Reads the words of a `SELF_ID <id>` line; the first word is not looked at.
    pub fn from_words(words: &[&str]) -> (r: Result<SelfInfo, PartError>)
        ensures
            match r {
                Ok(m) => id_at(words@, 1) == Ok::<u64, PartError>(m.id),
                Err(e) => id_at(words@, 1) == Err::<u64, PartError>(e),
            },
    {
        match read_id(words, 1) {
            Ok(id) => Ok(SelfInfo { id }),
            Err(e) => Err(e),
        }
    }

    /// The line `SELF_ID <id>`.
    pub fn to_str(&self) -> (r: String)
        ensures
            encode_utf8(r@) == word_and_number(self_id_word(), self.id),
    {
        let mut v: Vec<u8> = vec![83u8, 69, 76, 70, 95, 73, 68];
        assert(v@ =~= self_id_word());
        v.push(SPACE);
        write_decimal(self.id, &mut v);
        assert(v@ =~= word_and_number(self_id_word(), self.id));
        proof {
            assert(is_ascii_bytes(self_id_word())) by {
                assert forall|i: int| 0 <= i < 7 implies #[trigger] self_id_word()[i] < 128 by {}
            }
            lemma_word_and_number_ascii(self_id_word(), self.id);
        }
        ascii_text(v)
    }
}

/// Tells a client that an entity of some kind has appeared.
#[derive(Clone, Debug, PartialEq, Eq)]
pub struct Create {
    pub id: u64,
    pub kind: String,
}

impl Create {
    /// Reads the words of a `CREATE <id> <kind>` line; the first word is not looked at.
    pub fn from_words(words: &[&str]) -> (r: Result<Create, PartError>)
        ensures
            match r {
                Ok(m) => id_at(words@, 1) == Ok::<u64, PartError>(m.id) && words@.len() > 2
                    && m.kind@ == words@[2]@,
                Err(e) => match id_at(words@, 1) {
                    Err(x) => e == x,
                    Ok(_) => words@.len() <= 2 && e == PartError::MissingField(Field::Kind),
                },
            },
    {
        let id = match read_id(words, 1) {
            Ok(id) => id,
            Err(e) => return Err(e),
        };
        if words.len() <= 2 {
            return Err(PartError::MissingField(Field::Kind));
        }
        let kind = words[2].to_owned();
        Ok(Create { id, kind })
    }

    /// The line `CREATE <id> <kind>`.
    pub fn to_str(&self) -> (r: String)
        ensures
            encode_utf8(r@) == word_and_number(create_word(), self.id) + seq![SPACE] + encode_utf8(self.kind@),
    {
        let mut v: Vec<u8> = vec![67u8, 82, 69, 65, 84, 69];
        assert(v@ =~= create_word());
        v.push(SPACE);
        write_decimal(self.id, &mut v);
        assert(v@ =~= word_and_number(create_word(), self.id));
        proof {
            assert(is_ascii_bytes(create_word())) by {
                assert forall|i: int| 0 <= i < 6 implies #[trigger] create_word()[i] < 128 by {}
            }
            lemma_word_and_number_ascii(create_word(), self.id);
            lemma_ascii_valid_utf8(seq![SPACE]);
        }
        v.push(SPACE);
        push_bytes(&mut v, text_bytes(&self.kind));
        let ghost bytes = v@;
        assert(bytes =~= word_and_number(create_word(), self.id) + seq![SPACE] + encode_utf8(self.kind@));
        assert(valid_utf8(word_and_number(create_word(), self.id) + seq![SPACE]));
        assert(valid_utf8(bytes));
        match string_from_utf8(v) {
            Some(t) => t,
            None => {
                assert(false);
                String::new()
            },
        }
    }
}

/// Tells a client that an entity is gone.
#[derive(Clone, Copy, Debug, PartialEq, Eq, Structural)]
pub struct Remove {
    pub id: u64,
}

impl Remove {
    /// Reads the words of a `REMOVE <id>` line; the first word is not looked at.
    pub fn from_words(words: &[&str]) -> (r: Result<Remove, PartError>)
        ensures
            match r {
                Ok(m) => id_at(words@, 1) == Ok::<u64, PartError>(m.id),
                Err(e) => id_at(words@, 1) == Err::<u64, PartError>(e),
            },
    {
        match read_id(words, 1) {
            Ok(id) => Ok(Remove { id }),
            Err(e) => Err(e),
        }
    }

    /// The line `REMOVE <id>`.
    pub fn to_str(&self) -> (r: String)
        ensures
            encode_utf8(r@) == word_and_number(remove_word(), self.id),
    {
        let mut v: Vec<u8> = vec![82u8, 69, 77, 79, 86, 69];
        assert(v@ =~= remove_word());
        v.push(SPACE);
        write_decimal(self.id, &mut v);
        assert(v@ =~= word_and_number(remove_word(), self.id));
        proof {
            assert(is_ascii_bytes(remove_word())) by {
                assert forall|i: int| 0 <= i < 6 implies #[trigger] remove_word()[i] < 128 by {}
            }
            lemma_word_and_number_ascii(remove_word(), self.id);
        }
        ascii_text(v)
    }
}

} // verus!
