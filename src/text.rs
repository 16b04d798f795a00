//! Byte-level building blocks of the wire format: decimal numbers,
//! line and field boundaries, and text validity.
use vstd::prelude::*;
use vstd::utf8::*;

verus! {

/// The byte that ends every line of a packet.
pub const NEWLINE: u8 = 10;

/// The byte that separates the fields of a line.
pub const SPACE: u8 = 32;

pub open spec fn is_digit(b: u8) -> bool {
    48 <= b <= 57
}

pub open spec fn all_digits(s: Seq<u8>) -> bool {
    forall|i: int| 0 <= i < s.len() ==> is_digit(#[trigger] s[i])
}

/// The number that a run of decimal digits denotes, most significant first.
pub open spec fn digits_value(s: Seq<u8>) -> nat
    decreases s.len(),
{
    if s.len() == 0 {
        0
    } else {
        digits_value(s.drop_last()) * 10 + (s.last() - 48) as nat
    }
}

/// The canonical decimal form of `n`: no sign and no leading zeros.
pub open spec fn decimal(n: nat) -> Seq<u8>
    decreases n,
{
    if n < 10 {
        seq![(48 + n) as u8]
    } else {
        decimal(n / 10).push((48 + n % 10) as u8)
    }
}

/// What a numeric field holds: a non-empty run of digits whose value fits in a `u64`.
pub open spec fn parse_decimal(s: Seq<u8>) -> Option<u64> {
    if s.len() > 0 && all_digits(s) && digits_value(s) <= u64::MAX {
        Some(digits_value(s) as u64)
    } else {
        None
    }
}

pub proof fn lemma_decimal(n: nat)
    ensures
        decimal(n).len() > 0,
        all_digits(decimal(n)),
        digits_value(decimal(n)) == n,
    decreases n,
{
    if n >= 10 {
        lemma_decimal(n / 10);
        let d = decimal(n);
        assert(d.drop_last() =~= decimal(n / 10));
        assert(d.last() == (48 + n % 10) as u8);
        assert((n / 10) * 10 + n % 10 == n);
        assert(all_digits(d)) by {
            assert forall|i: int| 0 <= i < d.len() implies is_digit(#[trigger] d[i]) by {
                if i < d.len() - 1 {
                    assert(d[i] == decimal(n / 10)[i]);
                }
            }
        }
    } else {
        assert(decimal(n).drop_last() =~= Seq::<u8>::empty());
        assert(digits_value(decimal(n).drop_last()) == 0);
    }
}

pub proof fn lemma_parse_decimal(n: u64)
    ensures
        parse_decimal(decimal(n as nat)) == Some(n),
{
    lemma_decimal(n as nat);
}

/// Ten to the power of `k`.
pub open spec fn pow10(k: nat) -> nat
    decreases k,
{
    if k == 0 { 1 } else { 10 * pow10((k - 1) as nat) }
}

proof fn lemma_decimal_len_below(n: nat, k: nat)
    requires
        0 < k,
        n < pow10(k),
    ensures
        decimal(n).len() <= k,
    decreases n,
{
    if n >= 10 {
        let p = pow10((k - 1) as nat);
        assert(k > 1) by {
            if k == 1 {
                assert(pow10(0) == 1);
            }
        }
        assert(n / 10 < p) by (nonlinear_arith)
            requires
                n < 10 * p,
        ;
        lemma_decimal_len_below(n / 10, (k - 1) as nat);
    }
}

/// A 64-bit number takes at most twenty digits.
pub proof fn lemma_decimal_len(n: u64)
    ensures
        decimal(n as nat).len() <= 20,
{
    reveal_with_fuel(pow10, 21);
    assert(pow10(20) == 100000000000000000000);
    lemma_decimal_len_below(n as nat, 20);
}

/// Appends the canonical decimal form of `n`.
pub fn write_decimal(n: u64, out: &mut Vec<u8>)
    ensures
        final(out)@ == old(out)@ + decimal(n as nat),
    decreases n,
{
    if n >= 10 {
        write_decimal(n / 10, out);
    }
    let d: u8 = (n % 10) as u8;
    out.push(48 + d);
    assert(final(out)@ =~= old(out)@ + decimal(n as nat));
}


proof fn lemma_digits_prefix(s: Seq<u8>, k: int)
    requires
        0 <= k <= s.len(),
        all_digits(s),
    ensures
        digits_value(s.subrange(0, k)) <= digits_value(s),
    decreases s.len(),
{
    if k < s.len() {
        let t = s.drop_last();
        assert(all_digits(t)) by {
            assert forall|i: int| 0 <= i < t.len() implies is_digit(#[trigger] t[i]) by {
                assert(t[i] == s[i]);
            }
        }
        lemma_digits_prefix(t, k);
        assert(t.subrange(0, k) =~= s.subrange(0, k));
    } else {
        assert(s.subrange(0, k) =~= s);
    }
}

/// Reads the numeric field `b[start..end]`.
pub fn read_decimal(b: &[u8], start: usize, end: usize) -> (r: Option<u64>)
    requires
        start <= end <= b@.len(),
    ensures
        r == parse_decimal(b@.subrange(start as int, end as int)),
{
    let ghost s = b@.subrange(start as int, end as int);
    if start == end {
        return None;
    }
    let mut acc: u64 = 0;
    let mut i: usize = start;
    while i < end
        invariant
            start <= i <= end <= b@.len(),
            s == b@.subrange(start as int, end as int),
            all_digits(s.subrange(0, i - start)),
            acc as nat == digits_value(s.subrange(0, i - start)),
        decreases end - i,
    {
        let c = b[i];
        if c < 48 || c > 57 {
            assert(s[i - start] == c);
            return None;
        }
        let ghost prev = s.subrange(0, i - start);
        let ghost next = s.subrange(0, i - start + 1);
        assert(next.drop_last() =~= prev);
        assert(next.last() == c);
        assert(all_digits(next)) by {
            assert forall|j: int| 0 <= j < next.len() implies is_digit(#[trigger] next[j]) by {
                if j < prev.len() {
                    assert(next[j] == prev[j]);
                }
            }
        }
        let d: u64 = (c - 48) as u64;
        match acc.checked_mul(10) {
            Some(m) => match m.checked_add(d) {
                Some(v) => {
                    acc = v;
                },
                None => {
                    proof { lemma_too_large(s, i - start + 1); }
                    return None;
                },
            },
            None => {
                proof { lemma_too_large(s, i - start + 1); }
                return None;
            },
        }
        i = i + 1;
    }
    assert(s.subrange(0, i - start) =~= s);
    Some(acc)
}

proof fn lemma_too_large(s: Seq<u8>, k: int)
    requires
        0 < k <= s.len(),
        digits_value(s.subrange(0, k)) > u64::MAX,
    ensures
        parse_decimal(s).is_none(),
{
    if all_digits(s) {
        lemma_digits_prefix(s, k);
    }
}


/// The position of the first `c` in `s`, or the length of `s` where there is none.
pub open spec fn find(s: Seq<u8>, c: u8) -> nat
    decreases s.len(),
{
    if s.len() == 0 {
        0
    } else if s[0] == c {
        0
    } else {
        1 + find(s.drop_first(), c)
    }
}

pub open spec fn lacks(s: Seq<u8>, c: u8) -> bool {
    forall|i: int| 0 <= i < s.len() ==> #[trigger] s[i] != c
}

pub open spec fn is_ascii_bytes(s: Seq<u8>) -> bool {
    forall|i: int| 0 <= i < s.len() ==> #[trigger] s[i] < 128
}

pub proof fn lemma_find_bounds(s: Seq<u8>, c: u8)
    ensures
        find(s, c) <= s.len(),
        lacks(s.subrange(0, find(s, c) as int), c),
        find(s, c) < s.len() ==> s[find(s, c) as int] == c,
    decreases s.len(),
{
    if s.len() > 0 && s[0] != c {
        let t = s.drop_first();
        lemma_find_bounds(t, c);
        let k = find(s, c) as int;
        assert forall|i: int| 0 <= i < k implies #[trigger] s.subrange(0, k)[i] != c by {
            if i > 0 {
                assert(s.subrange(0, k)[i] == t.subrange(0, k - 1)[i - 1]);
            }
        }
    }
}

/// `find` is fixed by the first `k` bytes lacking `c` and the next being `c`, or the end.
pub proof fn lemma_find_unique(s: Seq<u8>, c: u8, k: int)
    requires
        0 <= k <= s.len(),
        lacks(s.subrange(0, k), c),
        k == s.len() || s[k] == c,
    ensures
        find(s, c) == k,
    decreases s.len(),
{
    if k > 0 {
        assert(s[0] == s.subrange(0, k)[0]);
        let t = s.drop_first();
        assert forall|i: int| 0 <= i < k - 1 implies #[trigger] t.subrange(0, k - 1)[i] != c by {
            assert(t.subrange(0, k - 1)[i] == s.subrange(0, k)[i + 1]);
        }
        lemma_find_unique(t, c, k - 1);
    }
}

/// The line `x` followed by its line end and whatever comes after it.
pub proof fn lemma_find_after(x: Seq<u8>, c: u8, rest: Seq<u8>)
    requires
        lacks(x, c),
    ensures
        find(x + seq![c] + rest, c) == x.len(),
        find(x, c) == x.len(),
        (x + seq![c] + rest).subrange(0, x.len() as int) == x,
        (x + seq![c] + rest).subrange(x.len() as int + 1, (x + seq![c] + rest).len() as int) == rest,
{
    let s = x + seq![c] + rest;
    assert(s.subrange(0, x.len() as int) =~= x);
    assert(x.subrange(0, x.len() as int) =~= x);
    assert(s[x.len() as int] == c);
    lemma_find_unique(s, c, x.len() as int);
    lemma_find_unique(x, c, x.len() as int);
    assert(s.subrange(x.len() as int + 1, s.len() as int) =~= rest);
}

pub proof fn lemma_ascii_valid_utf8(s: Seq<u8>)
    requires
        is_ascii_bytes(s),
    ensures
        valid_utf8(s),
{
    assert(s.subrange(0, 0) =~= Seq::<u8>::empty());
    assert(partial_valid_utf8(s, 0));
    assert forall|i: int| 0 <= 0 <= i < s.len() <= s.len() implies #[trigger] is_leading_byte_width_1(s[i]) by {}
    partial_valid_utf8_extend_ascii_block(s, 0, s.len() as int);
    assert(s.subrange(0, s.len() as int) =~= s);
}

/// The position of the first `c` in `b[start..end]`, counted from `start`; `end` where there is none.
pub fn find_byte(b: &[u8], start: usize, end: usize, c: u8) -> (r: usize)
    requires
        start <= end <= b@.len(),
    ensures
        r == start + find(b@.subrange(start as int, end as int), c),
        start <= r <= end,
{
    let ghost s = b@.subrange(start as int, end as int);
    let mut i: usize = start;
    while i < end && b[i] != c
        invariant
            start <= i <= end <= b@.len(),
            s == b@.subrange(start as int, end as int),
            lacks(s.subrange(0, i - start), c),
        decreases end - i,
    {
        assert forall|j: int| 0 <= j < i + 1 - start implies #[trigger] s.subrange(0, i + 1 - start)[j] != c by {
            if j < i - start {
                assert(s.subrange(0, i + 1 - start)[j] == s.subrange(0, i - start)[j]);
            }
        }
        i = i + 1;
    }
    proof { lemma_find_unique(s, c, i - start); }
    i
}

/// Appends the bytes of `b`.
pub fn push_bytes(out: &mut Vec<u8>, b: &[u8])
    ensures
        final(out)@ == old(out)@ + b@,
{
    let mut i: usize = 0;
    while i < b.len()
        invariant
            i <= b@.len(),
            out@ == old(out)@ + b@.subrange(0, i as int),
        decreases b@.len() - i,
    {
        out.push(b[i]);
        assert(out@ =~= old(out)@ + b@.subrange(0, i + 1));
        i = i + 1;
    }
    assert(b@.subrange(0, i as int) =~= b@);
}

/// Relies on String::from_utf8: it accepts exactly the valid UTF-8 byte
/// strings and hands back the text that they encode.
#[verifier::external_body]
pub(crate) fn string_from_utf8(v: Vec<u8>) -> (r: Option<String>)
    ensures
        r.is_some() == valid_utf8(v@),
        r matches Some(t) ==> t@ == decode_utf8(v@),
{
    String::from_utf8(v).ok()
}

/// The text that `b[start..end]` encodes, where it is valid UTF-8.
pub fn text_field(b: &[u8], start: usize, end: usize) -> (r: Option<String>)
    requires
        start <= end <= b@.len(),
    ensures
        r.is_some() == valid_utf8(b@.subrange(start as int, end as int)),
        r matches Some(t) ==> t@ == decode_utf8(b@.subrange(start as int, end as int)),
{
    let v = vstd::slice::slice_to_vec(vstd::slice::slice_subrange(b, start, end));
    string_from_utf8(v)
}

/// Whether `b[start..end]` holds exactly the bytes of `word`.
pub fn bytes_equal(b: &[u8], start: usize, end: usize, word: &[u8]) -> (r: bool)
    requires
        start <= end <= b@.len(),
    ensures
        r == (b@.subrange(start as int, end as int) == word@),
{
    if end - start != word.len() {
        return false;
    }
    let mut i: usize = 0;
    while i < word.len()
        invariant
            end - start == word@.len(),
            start <= end <= b@.len(),
            i <= word@.len(),
            forall|j: int| 0 <= j < i ==> b@[start + j] == word@[j],
        decreases word@.len() - i,
    {
        if b[start + i] != word[i] {
            assert(b@.subrange(start as int, end as int)[i as int] != word@[i as int]);
            return false;
        }
        i = i + 1;
    }
    assert(b@.subrange(start as int, end as int) =~= word@);
    true
}

/// The UTF-8 bytes of `t`.
pub fn text_bytes(t: &String) -> (r: &[u8])
    ensures
        r@ == encode_utf8(t@),
{
    t.as_str().as_bytes()
}

} // verus!
