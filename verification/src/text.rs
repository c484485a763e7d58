//! Text helpers: bytes read as characters, and numbers written in decimal.

use vstd::prelude::*;
use vstd::string::*;
use vstd::utf8::encode_utf8;

verus! {

/// ASCII `0`.
pub const DIGIT_0: u8 = 48;

/// The characters that bytes stand for, one character for each byte.
pub open spec fn chars_of(bytes: Seq<u8>) -> Seq<char> {
    Seq::new(bytes.len(), |i: int| bytes[i] as char)
}

/// The decimal digits of `n` in ASCII, without leading zeros.
pub open spec fn decimal(n: nat) -> Seq<u8>
    decreases n,
{
    if n < 10 {
        seq![(DIGIT_0 + n) as u8]
    } else {
        decimal(n / 10).push((DIGIT_0 + n % 10) as u8)
    }
}

/// ASCII `+`.
pub const PLUS: u8 = 43;

/// Whether the byte is an ASCII digit.
pub open spec fn is_digit(b: u8) -> bool {
    DIGIT_0 <= b <= DIGIT_0 + 9
}

/// Whether every byte is an ASCII digit.
pub open spec fn all_digits(text: Seq<u8>) -> bool {
    forall|i: int| 0 <= i < text.len() ==> is_digit(#[trigger] text[i])
}

/// The number that digits spell in decimal.
pub open spec fn digits_value(digits: Seq<u8>) -> nat
    decreases digits.len(),
{
    if digits.len() == 0 {
        0
    } else {
        digits_value(digits.drop_last()) * 10 + (digits.last() - DIGIT_0) as nat
    }
}

/// The number that a text spells: an optional plus sign, then at least one
/// digit and nothing but digits. A text of another form spells no number,
/// nor does one whose number does not fit in 64 bits.
pub open spec fn parsed(text: Seq<u8>) -> Option<u64> {
    let digits = if text.len() > 0 && text[0] == PLUS {
        text.drop_first()
    } else {
        text
    };
    if digits.len() > 0 && all_digits(digits) && digits_value(digits) <= u64::MAX {
        Some(digits_value(digits) as u64)
    } else {
        None
    }
}

/// The digits of a number spell the number.
pub proof fn lemma_decimal_digits(n: nat)
    ensures
        decimal(n).len() > 0,
        all_digits(decimal(n)),
        digits_value(decimal(n)) == n,
    decreases n,
{
    if n < 10 {
        assert(decimal(n).drop_last() =~= Seq::<u8>::empty());
        assert(digits_value(Seq::<u8>::empty()) == 0);
    } else {
        lemma_decimal_digits(n / 10);
        assert(decimal(n).drop_last() =~= decimal(n / 10));
    }
}

/// A number written in decimal is read back as the number.
pub proof fn lemma_parsed_decimal(n: u64)
    ensures
        parsed(decimal(n as nat)) == Some(n),
{
    lemma_decimal_digits(n as nat);
    assert(is_digit(decimal(n as nat)[0]));
}

/// The digits of a text spell no less than any of its beginnings does.
pub proof fn lemma_digits_value_grows(digits: Seq<u8>, k: int)
    requires
        0 <= k <= digits.len(),
        all_digits(digits),
    ensures
        digits_value(digits.take(k)) <= digits_value(digits),
    decreases digits.len() - k,
{
    if k == digits.len() {
        assert(digits.take(k) =~= digits);
    } else {
        lemma_digits_value_grows(digits, k + 1);
        assert(digits.take(k + 1).drop_last() =~= digits.take(k));
        assert(is_digit(digits[k]));
    }
}

/// Appends `c` to `s` with `String::push` of the standard library. That the
/// string then spells what it spelled before, followed by `c`, is what the
/// documentation of `String::push` says; it is not proved here.
#[verifier::external_body]
fn push_char(s: &mut String, c: char)
    ensures
        final(s)@ == old(s)@.push(c),
{
    s.push(c)
}

/// Creates a string from a designated part of a byte buffer, one character
/// for each byte. Inclusive start, exclusive end.
pub fn bytes_to_str(buf: &[u8], start: usize, end: usize) -> (s: String)
    requires
        start <= end <= buf@.len(),
    ensures
        s@ == chars_of(buf@.subrange(start as int, end as int)),
{
    let mut s: String = String::new();
    for i in start..end
        invariant
            start <= end <= buf@.len(),
            s@ == chars_of(buf@.subrange(start as int, i as int)),
    {
        push_char(&mut s, buf[i] as char);
        assert(s@ =~= chars_of(buf@.subrange(start as int, i + 1)));
    }
    s
}

/// Read the number that the bytes of `buf` from `start` up to `end` spell
/// in decimal.
pub fn parse_decimal(buf: &[u8], start: usize, end: usize) -> (r: Option<u64>)
    requires
        start <= end <= buf@.len(),
    ensures
        r == parsed(buf@.subrange(start as int, end as int)),
{
    let ghost text = buf@.subrange(start as int, end as int);
    let mut i: usize = start;
    if i < end && buf[i] == PLUS {
        i += 1;
    }
    let first: usize = i;
    let ghost digits = buf@.subrange(first as int, end as int);
    assert(digits =~= if text.len() > 0 && text[0] == PLUS {
        text.drop_first()
    } else {
        text
    });
    if first == end {
        return None;
    }
    let mut value: u64 = 0;
    assert(digits.take(0) =~= Seq::<u8>::empty());
    while i < end
        invariant
            start <= first <= i <= end <= buf@.len(),
            text == buf@.subrange(start as int, end as int),
            digits == buf@.subrange(first as int, end as int),
            digits == if text.len() > 0 && text[0] == PLUS {
                text.drop_first()
            } else {
                text
            },
            all_digits(digits.take(i - first)),
            value == digits_value(digits.take(i - first)),
        decreases end - i,
    {
        let b: u8 = buf[i];
        assert(digits[i - first] == b);
        if b < DIGIT_0 || b > DIGIT_0 + 9 {
            assert(!is_digit(digits[i - first]));
            return None;
        }
        let d: u64 = (b - DIGIT_0) as u64;
        proof {
            assert(digits.take(i - first + 1).drop_last() =~= digits.take(i - first));
            assert(all_digits(digits.take(i - first + 1))) by {
                assert forall|j: int| 0 <= j < i - first + 1 implies is_digit(
                    #[trigger] digits.take(i - first + 1)[j],
                ) by {
                    if j < i - first {
                        assert(digits.take(i - first)[j] == digits[j]);
                    }
                }
            }
        }
        if value > (u64::MAX - d) / 10 {
            proof {
                if all_digits(digits) {
                    lemma_digits_value_grows(digits, i - first + 1);
                }
            }
            return None;
        }
        value = value * 10 + d;
        i += 1;
    }
    assert(digits.take(end - first) =~= digits);
    Some(value)
}

/// Whether `data` holds `pattern` at position `at`.
pub open spec fn holds_at(data: Seq<u8>, at: int, pattern: Seq<u8>) -> bool {
    &&& 0 <= at
    &&& at + pattern.len() <= data.len()
    &&& data.subrange(at, at + pattern.len()) == pattern
}

/// Tell whether `data` holds `pattern` at position `at`.
pub fn matches_at(data: &[u8], at: usize, pattern: &[u8]) -> (r: bool)
    ensures
        r == holds_at(data@, at as int, pattern@),
{
    if at > data.len() || pattern.len() > data.len() - at {
        return false;
    }
    let ghost part = data@.subrange(at as int, at + pattern@.len());
    let size: usize = data.len();
    for i in 0..pattern.len()
        invariant
            at + pattern@.len() <= data@.len() == size,
            part == data@.subrange(at as int, at + pattern@.len()),
            forall|j: int| 0 <= j < i ==> part[j] == pattern@[j],
    {
        if data[at + i] != pattern[i] {
            assert(part[i as int] != pattern@[i as int]);
            return false;
        }
    }
    assert(part =~= pattern@);
    true
}

/// Appends the bytes of `bytes` to `out`.
pub fn push_bytes(out: &mut Vec<u8>, bytes: &[u8])
    ensures
        final(out)@ == old(out)@ + bytes@,
{
    for i in 0..bytes.len()
        invariant
            out@ == old(out)@ + bytes@.take(i as int),
    {
        out.push(bytes[i]);
        assert(out@ =~= old(out)@ + bytes@.take(i + 1));
    }
    assert(bytes@.take(bytes@.len() as int) =~= bytes@);
}

/// Appends the UTF-8 bytes of `text` to `out`.
pub fn push_str(out: &mut Vec<u8>, text: &str)
    ensures
        final(out)@ == old(out)@ + encode_utf8(text@),
{
    push_bytes(out, text.as_bytes());
}

/// Appends the decimal digits of `n` to `out`.
pub fn push_decimal(out: &mut Vec<u8>, n: u64)
    ensures
        final(out)@ == old(out)@ + decimal(n as nat),
    decreases n,
{
    if n >= 10 {
        push_decimal(out, n / 10);
    }
    out.push(DIGIT_0 + (n % 10) as u8);
    assert(out@ =~= old(out)@ + decimal(n as nat));
}

/// The decimal digits of `n` as a string.
pub fn decimal_string(n: u64) -> (s: String)
    ensures
        s@ == chars_of(decimal(n as nat)),
{
    let mut digits: Vec<u8> = Vec::new();
    push_decimal(&mut digits, n);
    assert(digits@ =~= decimal(n as nat));
    let s = bytes_to_str(digits.as_slice(), 0, digits.len());
    assert(digits@.subrange(0, digits@.len() as int) =~= digits@);
    s
}

} // verus!
