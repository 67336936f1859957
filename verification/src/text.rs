//! Text fields of the feeds: decoding a column's bytes as UTF-8, trimming
//! surrounding whitespace, and reading an unsigned decimal number.

use vstd::prelude::*;
use vstd::utf8::{decode_utf8, valid_utf8};

verus! {

/// Whether `c` is whitespace for the purpose of trimming: whether it has the
/// Unicode `White_Space` property, by which `str::trim` decides what to drop.
pub open spec fn white_space(c: char) -> bool {
    let u = c as u32;
    ||| 0x09 <= u <= 0x0D
    ||| u == 0x20
    ||| u == 0x85
    ||| u == 0xA0
    ||| u == 0x1680
    ||| 0x2000 <= u <= 0x200A
    ||| u == 0x2028
    ||| u == 0x2029
    ||| u == 0x202F
    ||| u == 0x205F
    ||| u == 0x3000
}

/// A text that neither starts nor ends with whitespace is left as it is.
pub proof fn lemma_trimmed_of_tight(s: Seq<char>)
    requires
        s.len() > 0 ==> !white_space(s[0]) && !white_space(s.last()),
    ensures
        trimmed(s) == s,
{
}

/// A text of whitespace only trims to nothing.
pub proof fn lemma_trimmed_of_blank(s: Seq<char>)
    requires
        forall|i: int| 0 <= i < s.len() ==> white_space(#[trigger] s[i]),
    ensures
        trimmed(s) == Seq::<char>::empty(),
{
    lemma_trim_start_of_blank(s);
}

/// Bytes below 128 are valid UTF-8 and encode one character each, the
/// character with the byte's number.
pub proof fn lemma_ascii_text(bytes: Seq<u8>)
    requires
        forall|i: int| 0 <= i < bytes.len() ==> (#[trigger] bytes[i]) < 128,
    ensures
        text_of(bytes) == Some(Seq::new(bytes.len(), |i: int| bytes[i] as char)),
{
    let chars = Seq::new(bytes.len(), |i: int| bytes[i] as char);
    assert(vstd::utf8::is_ascii_chars(chars));
    vstd::utf8::is_ascii_chars_encode_utf8(chars);
    assert(vstd::utf8::encode_utf8(chars) =~= bytes);
    vstd::utf8::encode_utf8_valid_utf8(chars);
    vstd::utf8::encode_utf8_decode_utf8(chars);
}

/// A text of whitespace only has nothing left after its leading whitespace.
pub proof fn lemma_trim_start_of_blank(s: Seq<char>)
    requires
        forall|i: int| 0 <= i < s.len() ==> white_space(#[trigger] s[i]),
    ensures
        trim_start(s) == Seq::<char>::empty(),
    decreases s.len(),
{
    if s.len() > 0 {
        let rest = s.drop_first();
        assert forall|i: int| 0 <= i < rest.len() implies white_space(#[trigger] rest[i]) by {
            assert(rest[i] == s[i + 1]);
        }
        lemma_trim_start_of_blank(rest);
    } else {
        assert(s =~= Seq::<char>::empty());
    }
}

/// `s` without its leading whitespace.
pub open spec fn trim_start(s: Seq<char>) -> Seq<char>
    decreases s.len(),
{
    if s.len() > 0 && white_space(s[0]) {
        trim_start(s.drop_first())
    } else {
        s
    }
}

/// `s` without its trailing whitespace.
pub open spec fn trim_end(s: Seq<char>) -> Seq<char>
    decreases s.len(),
{
    if s.len() > 0 && white_space(s.last()) {
        trim_end(s.drop_last())
    } else {
        s
    }
}

/// `s` without leading and trailing whitespace.
pub open spec fn trimmed(s: Seq<char>) -> Seq<char> {
    trim_end(trim_start(s))
}

/// The text that `bytes` encode, or `None` when they are not valid UTF-8.
pub open spec fn text_of(bytes: Seq<u8>) -> Option<Seq<char>> {
    if valid_utf8(bytes) {
        Some(decode_utf8(bytes))
    } else {
        None
    }
}

/// The trimmed text that `bytes` encode, or `None` when they are not valid
/// UTF-8. The text may be empty.
pub open spec fn trimmed_text_of(bytes: Seq<u8>) -> Option<Seq<char>> {
    match text_of(bytes) {
        Some(t) => Some(trimmed(t)),
        None => None,
    }
}

/// A field's value with a fallback: `text` unless it is empty, else `fallback`.
pub open spec fn present_or(text: Seq<char>, fallback: Option<Seq<char>>) -> Option<Seq<char>> {
    if text.len() > 0 {
        Some(text)
    } else {
        fallback
    }
}

/// `b` is an ASCII decimal digit.
pub open spec fn is_digit(b: u8) -> bool {
    48 <= b <= 57
}

/// The number that the decimal digits `s` write, most significant first.
pub open spec fn digits_value(s: Seq<u8>) -> nat
    decreases s.len(),
{
    if s.len() == 0 {
        0
    } else {
        digits_value(s.drop_last()) * 10 + (s.last() - 48) as nat
    }
}

/// The digits of a number's text: the text without one leading plus sign.
pub open spec fn unsigned_digits(s: Seq<u8>) -> Seq<u8> {
    if s.len() > 0 && s[0] == 43 {
        s.drop_first()
    } else {
        s
    }
}

/// The `u32` that `s` writes in decimal: an optional plus sign followed by
/// one or more digits and nothing else, with a value that fits in 32 bits.
/// Any other text is no number.
pub open spec fn decimal_u32(s: Seq<u8>) -> Option<u32> {
    let d = unsigned_digits(s);
    if d.len() > 0 && (forall|i: int| 0 <= i < d.len() ==> is_digit(#[trigger] d[i]))
        && digits_value(d) <= u32::MAX {
        Some(digits_value(d) as u32)
    } else {
        None
    }
}

/// `std::str::from_utf8`: the string slice over `bytes` when they are valid
/// UTF-8, nothing when they are not.
#[verifier::external_body]
fn utf8_str(bytes: &[u8]) -> (r: Option<&str>)
    ensures
        r is Some <==> valid_utf8(bytes@),
        r matches Some(s) ==> s@ == decode_utf8(bytes@),
{
    std::str::from_utf8(bytes).ok()
}

/// `str::trim`: the slice of `s` without leading and trailing whitespace.
#[verifier::external_body]
fn trim_str(s: &str) -> (r: &str)
    ensures
        r@ == trimmed(s@),
{
    s.trim()
}

/// `str == str`: whether the two slices hold the same characters.
#[verifier::external_body]
pub(crate) fn str_eq(a: &str, b: &str) -> (r: bool)
    ensures
        r == (a@ == b@),
{
    a == b
}

/// Decodes `bytes` as UTF-8 text.
pub fn decode(bytes: &[u8]) -> (r: Option<String>)
    ensures
        r.deep_view() == text_of(bytes@),
{
    match utf8_str(bytes) {
        Some(s) => Some(s.to_owned()),
        None => None,
    }
}

/// Decodes `bytes` as UTF-8 text and trims it.
pub fn decode_trimmed(bytes: &[u8]) -> (r: Option<String>)
    ensures
        r.deep_view() == trimmed_text_of(bytes@),
{
    match utf8_str(bytes) {
        Some(s) => Some(trim_str(s).to_owned()),
        None => None,
    }
}

/// Whether `s` holds no character.
pub fn is_blank(s: &String) -> (r: bool)
    ensures
        r == (s@.len() == 0),
{
    s.as_str().is_empty()
}

/// The digits read so far never write more than all the digits do.
pub proof fn lemma_digits_value_prefix(s: Seq<u8>, k: int)
    requires
        0 <= k <= s.len(),
    ensures
        digits_value(s.subrange(0, k)) <= digits_value(s),
    decreases s.len() - k,
{
    if k == s.len() {
        assert(s.subrange(0, k) =~= s);
    } else {
        lemma_digits_value_prefix(s, k + 1);
        assert(s.subrange(0, k + 1).drop_last() =~= s.subrange(0, k));
    }
}

/// Reads an unsigned decimal number.
pub fn parse_u32(s: &[u8]) -> (r: Option<u32>)
    ensures
        r == decimal_u32(s@),
{
    let n: usize = s.len();
    let first: usize = if n > 0 && s[0] == 43u8 {
        1
    } else {
        0
    };
    let ghost d = unsigned_digits(s@);
    proof {
        assert(d =~= s@.subrange(first as int, n as int));
    }
    if first == n {
        return None;
    }
    let mut acc: u64 = 0;
    let mut i: usize = first;
    while i < n
        invariant
            first <= i <= n,
            n == s@.len(),
            d == unsigned_digits(s@),
            d == s@.subrange(first as int, n as int),
            forall|j: int| 0 <= j < i - first ==> is_digit(#[trigger] d[j]),
            acc == digits_value(d.subrange(0, i - first)),
            acc <= u32::MAX,
        decreases n - i,
    {
        let b: u8 = s[i];
        if b < 48u8 || b > 57u8 {
            proof {
                assert(d[i - first] == b);
                assert(!is_digit(d[i - first]));
            }
            return None;
        }
        let next: u64 = acc * 10 + (b - 48u8) as u64;
        proof {
            assert(d[i - first] == b);
            assert(d.subrange(0, i - first + 1).drop_last() =~= d.subrange(0, i - first));
            assert(next == digits_value(d.subrange(0, i - first + 1)));
            if next > u32::MAX {
                lemma_digits_value_prefix(d, i - first + 1);
            }
        }
        if next > 0xffff_ffffu64 {
            return None;
        }
        acc = next;
        i = i + 1;
    }
    proof {
        assert(d.subrange(0, i - first) =~= d);
    }
    Some(acc as u32)
}

} // verus!
