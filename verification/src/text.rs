//! Text on the wire: UTF-8, white space, letter case and decimal numbers.

use vstd::prelude::*;
use vstd::utf8::{
    decode_first_scalar, decode_utf8, decode_utf8_split, encode_utf8, encode_utf8_decode_utf8,
    encode_utf8_valid_utf8, is_ascii_chars, is_ascii_chars_encode_utf8, is_char_boundary,
    is_char_boundary_iff_not_is_continuation_byte, is_char_boundary_start_end_of_seq,
    is_continuation_byte, length_of_first_scalar, pop_first_scalar, valid_first_scalar,
    valid_utf8, valid_utf8_concat, valid_utf8_split,
};
use crate::consts::{DIGIT_0, DIGIT_9, PLUS, SPACE};
use crate::wire::{bytes_equal, index_of_first, lemma_index_of_first, split_on};

verus! {

/// Whether `c` has the Unicode property White_Space.
pub open spec fn is_whitespace(c: char) -> bool {
    let u = c as u32;
    ||| 0x09 <= u <= 0x0D
    ||| u == 0x20
    ||| u == 0x85
    ||| u == 0xA0
    ||| u == 0x1680
    ||| 0x2000 <= u <= 0x200A
    ||| u == 0x2028
    ||| u == 0x2029
    ||| u == 0x202F
    ||| u == 0x205F
    ||| u == 0x3000
}

/// `s` without the white space that it begins with.
pub open spec fn trimmed_start(s: Seq<char>) -> Seq<char>
    decreases s.len(),
{
    if s.len() > 0 && is_whitespace(s[0]) {
        trimmed_start(s.skip(1))
    } else {
        s
    }
}

/// `s` without the white space that it ends with.
pub open spec fn trimmed_end(s: Seq<char>) -> Seq<char>
    decreases s.len(),
{
    if s.len() > 0 && is_whitespace(s.last()) {
        trimmed_end(s.drop_last())
    } else {
        s
    }
}

/// `s` without the white space around it.
pub open spec fn trimmed(s: Seq<char>) -> Seq<char> {
    trimmed_end(trimmed_start(s))
}

/// The lower-case form that `str::to_lowercase` gives to a text.
pub uninterp spec fn lowercase_of(s: Seq<char>) -> Seq<char>;

/// The text whose characters are the given ASCII bytes.
pub open spec fn ascii_chars(bytes: Seq<u8>) -> Seq<char> {
    Seq::new(bytes.len(), |i: int| bytes[i] as char)
}

/// All bytes are below 128.
pub open spec fn is_ascii_bytes(bytes: Seq<u8>) -> bool {
    forall|i: int| 0 <= i < bytes.len() ==> bytes[i] < 128
}

/// `std::str::from_utf8`: succeeds exactly on valid UTF-8, and the text that
/// it gives is the one that the bytes encode.
#[verifier::external_body]
pub(crate) fn utf8_str(bytes: &[u8]) -> (r: Option<&str>)
    ensures
        r is Some <==> valid_utf8(bytes@),
        r is Some ==> r.unwrap()@ == decode_utf8(bytes@),
{
    std::str::from_utf8(bytes).ok()
}

/// `str::trim`: the text without the characters with the property White_Space
/// at its two ends.
#[verifier::external_body]
pub(crate) fn trim(s: &str) -> (r: &str)
    ensures
        r@ == trimmed(s@),
{
    s.trim()
}

/// `str::strip_prefix` with a text as the pattern: where `s` begins with
/// `prefix`, what follows the prefix; else nothing.
#[verifier::external_body]
pub(crate) fn strip_prefix<'a>(s: &'a str, prefix: &str) -> (r: Option<&'a str>)
    ensures
        r is Some <==> prefix@.is_prefix_of(s@),
        r is Some ==> r.unwrap()@ == s@.skip(prefix@.len() as int),
{
    s.strip_prefix(prefix)
}

/// `str::to_lowercase`: the result is `lowercase_of` the text, whatever that
/// is; nothing more is claimed of it.
#[verifier::external_body]
pub(crate) fn to_lower(s: &str) -> (r: String)
    ensures
        r@ == lowercase_of(s@),
{
    s.to_lowercase()
}

/// ASCII bytes are valid UTF-8 and encode the characters with the same numbers.
pub proof fn lemma_ascii_is_utf8(bytes: Seq<u8>)
    requires
        is_ascii_bytes(bytes),
    ensures
        valid_utf8(bytes),
        decode_utf8(bytes) == ascii_chars(bytes),
        encode_utf8(ascii_chars(bytes)) == bytes,
        is_ascii_chars(ascii_chars(bytes)),
{
    let chars = ascii_chars(bytes);
    assert(is_ascii_chars(chars));
    is_ascii_chars_encode_utf8(chars);
    assert(encode_utf8(chars) =~= bytes);
    encode_utf8_valid_utf8(chars);
    encode_utf8_decode_utf8(chars);
}

/// Texts with the same UTF-8 encoding are the same text.
pub proof fn lemma_encoding_tells_text(a: Seq<char>, b: Seq<char>)
    ensures
        (encode_utf8(a) == encode_utf8(b)) == (a == b),
{
    encode_utf8_decode_utf8(a);
    encode_utf8_decode_utf8(b);
}

/// Whether two texts are the same.
pub fn str_equal(a: &str, b: &str) -> (r: bool)
    ensures
        r == (a@ == b@),
{
    proof {
        lemma_encoding_tells_text(a@, b@);
    }
    bytes_equal(a.as_bytes(), b.as_bytes())
}

/// The text made of the given ASCII bytes.
pub fn ascii_string(bytes: &[u8]) -> (r: String)
    requires
        is_ascii_bytes(bytes@),
    ensures
        r@ == ascii_chars(bytes@),
{
    proof {
        lemma_ascii_is_utf8(bytes@);
    }
    match utf8_str(bytes) {
        Some(s) => s.to_owned(),
        None => String::new(),
    }
}

/// In valid UTF-8, the bytes between two positions that do not fall inside a
/// character are valid UTF-8 themselves.
pub proof fn lemma_valid_between(bytes: Seq<u8>, i: int, j: int)
    requires
        valid_utf8(bytes),
        0 <= i <= j <= bytes.len(),
        i == bytes.len() || !is_continuation_byte(bytes[i]),
        j == bytes.len() || !is_continuation_byte(bytes[j]),
    ensures
        valid_utf8(bytes.subrange(i, j)),
{
    is_char_boundary_start_end_of_seq(bytes);
    if j < bytes.len() {
        is_char_boundary_iff_not_is_continuation_byte(bytes, j);
    }
    valid_utf8_split(bytes, j);
    let prefix = bytes.subrange(0, j);
    is_char_boundary_start_end_of_seq(prefix);
    if i < j {
        assert(prefix[i] == bytes[i]);
        is_char_boundary_iff_not_is_continuation_byte(prefix, i);
    }
    assert(is_char_boundary(prefix, i));
    valid_utf8_split(prefix, i);
    assert(prefix.subrange(i, prefix.len() as int) =~= bytes.subrange(i, j));
}

/// In valid UTF-8, a byte below 128 is a whole character: what stands before
/// it and what stands behind it are valid UTF-8 too.
pub proof fn lemma_around_ascii(bytes: Seq<u8>, i: int)
    requires
        valid_utf8(bytes),
        0 <= i < bytes.len(),
        bytes[i] < 128,
    ensures
        valid_utf8(bytes.subrange(0, i)),
        valid_utf8(bytes.subrange(i + 1, bytes.len() as int)),
        i + 1 == bytes.len() || !is_continuation_byte(bytes[i + 1]),
{
    is_char_boundary_iff_not_is_continuation_byte(bytes, i);
    valid_utf8_split(bytes, i);
    let suffix = bytes.subrange(i, bytes.len() as int);
    assert(suffix[0] == bytes[i]);
    let after = bytes.subrange(i + 1, bytes.len() as int);
    assert(pop_first_scalar(suffix) =~= after);
    assert(valid_utf8(after));
    if i + 1 < bytes.len() {
        assert(after[0] == bytes[i + 1]);
        assert(valid_first_scalar(after));
    }
}

/// The number that a run of decimal digits stands for.
pub open spec fn decimal_value(digits: Seq<u8>) -> nat
    decreases digits.len(),
{
    if digits.len() == 0 {
        0
    } else {
        decimal_value(digits.drop_last()) * 10 + (digits.last() - DIGIT_0) as nat
    }
}

/// Every byte is one of `0` to `9`.
pub open spec fn all_digits(s: Seq<u8>) -> bool {
    forall|i: int| 0 <= i < s.len() ==> DIGIT_0 <= #[trigger] s[i] <= DIGIT_9
}

/// The number that `s` denotes: an optional `+`, then one digit or more and
/// nothing else.
pub open spec fn parse_decimal(s: Seq<u8>) -> Option<nat> {
    let digits = if s.len() > 0 && s[0] == PLUS {
        s.skip(1)
    } else {
        s
    };
    if digits.len() > 0 && all_digits(digits) {
        Some(decimal_value(digits))
    } else {
        None
    }
}

/// The digits of `n`, without leading zeros.
pub open spec fn decimal_digits(n: nat) -> Seq<u8>
    decreases n,
{
    if n < 10 {
        seq![(DIGIT_0 + n) as u8]
    } else {
        decimal_digits(n / 10).push((DIGIT_0 + n % 10) as u8)
    }
}

/// A longer run of digits stands for no smaller a number.
proof fn lemma_decimal_value_grows(digits: Seq<u8>, k: int)
    requires
        all_digits(digits),
        0 <= k <= digits.len(),
    ensures
        decimal_value(digits.take(k)) <= decimal_value(digits),
    decreases digits.len() - k,
{
    if k < digits.len() {
        lemma_decimal_value_grows(digits, k + 1);
        assert(digits.take(k + 1).drop_last() =~= digits.take(k));
        assert(digits.take(k + 1).last() == digits[k]);
    } else {
        assert(digits.take(k) =~= digits);
    }
}

/// Reads a decimal number that fits the machine.
pub fn parse_usize(s: &[u8]) -> (r: Option<usize>)
    ensures
        r == match parse_decimal(s@) {
            Some(n) => if n <= usize::MAX {
                Some(n as usize)
            } else {
                None
            },
            None => None,
        },
{
    let from: usize = if s.len() > 0 && s[0] == PLUS {
        1
    } else {
        0
    };
    let ghost digits = s@.skip(from as int);
    assert(from == 0 ==> digits =~= s@);
    if from == s.len() {
        return None;
    }
    let mut value: usize = 0;
    let mut i: usize = from;
    while i < s.len()
        invariant
            from <= i <= s@.len(),
            digits == s@.skip(from as int),
            parse_decimal(s@) == if digits.len() > 0 && all_digits(digits) {
                Some(decimal_value(digits))
            } else {
                None
            },
            all_digits(digits.take(i - from)),
            value == decimal_value(digits.take(i - from)),
        decreases s.len() - i,
    {
        let b = s[i];
        if b < DIGIT_0 || b > DIGIT_9 {
            assert(digits[i - from] == b);
            return None;
        }
        let ghost longer = digits.take(i - from + 1);
        proof {
            assert(longer.drop_last() =~= digits.take(i - from));
            assert(longer.last() == b);
            assert(all_digits(longer)) by {
                assert forall|j: int| 0 <= j < longer.len() implies DIGIT_0 <= #[trigger] longer[j]
                    <= DIGIT_9 by {
                    if j < i - from {
                        assert(longer[j] == digits.take(i - from)[j]);
                    }
                }
            }
        }
        let d: usize = (b - DIGIT_0) as usize;
        if value > (usize::MAX - d) / 10 {
            proof {
                assert(decimal_value(longer) > usize::MAX) by (nonlinear_arith)
                    requires
                        decimal_value(longer) == value * 10 + d,
                        value > (usize::MAX - d) / 10,
                        0 <= d <= 9,
                ;
                if all_digits(digits) {
                    lemma_decimal_value_grows(digits, i - from + 1);
                }
            }
            return None;
        }
        assert(value * 10 + d <= usize::MAX) by (nonlinear_arith)
            requires
                value <= (usize::MAX - d) / 10,
                0 <= d <= 9,
        ;
        value = value * 10 + d;
        i += 1;
    }
    assert(digits.take(i - from) =~= digits);
    Some(value)
}

/// The decimal digits of `n`.
pub fn format_usize(n: usize) -> (r: Vec<u8>)
    ensures
        r@ == decimal_digits(n as nat),
    decreases n,
{
    if n < 10 {
        let mut r: Vec<u8> = Vec::new();
        r.push(DIGIT_0 + n as u8);
        assert(r@ =~= decimal_digits(n as nat));
        r
    } else {
        let mut r = format_usize(n / 10);
        r.push(DIGIT_0 + (n % 10) as u8);
        r
    }
}

/// The digits of a number are digits, and they denote that number.
pub proof fn lemma_decimal_round_trip(n: nat)
    ensures
        all_digits(decimal_digits(n)),
        decimal_digits(n).len() > 0,
        decimal_value(decimal_digits(n)) == n,
        parse_decimal(decimal_digits(n)) == Some(n),
        is_ascii_bytes(decimal_digits(n)),
    decreases n,
{
    let d = decimal_digits(n);
    if n < 10 {
        assert(d.drop_last() =~= Seq::<u8>::empty());
        assert(decimal_value(d.drop_last()) == 0);
    } else {
        lemma_decimal_round_trip(n / 10);
        assert(d.drop_last() =~= decimal_digits(n / 10));
        assert(d.last() == (DIGIT_0 + n % 10) as u8);
    }
    assert(d[0] != PLUS);
}

/// The lower-case form of an ASCII letter; any other byte is itself.
pub open spec fn ascii_lower(b: u8) -> u8 {
    if 65 <= b <= 90 {
        (b + 32) as u8
    } else {
        b
    }
}

/// Two byte strings are the same but for the case of ASCII letters.
pub open spec fn same_ignoring_ascii_case(a: Seq<u8>, b: Seq<u8>) -> bool {
    a.len() == b.len() && forall|i: int| 0 <= i < a.len() ==> ascii_lower(a[i]) == ascii_lower(b[i])
}

/// Whether two byte strings are the same but for the case of ASCII letters.
pub fn eq_ignore_ascii_case(a: &[u8], b: &[u8]) -> (r: bool)
    ensures
        r == same_ignoring_ascii_case(a@, b@),
{
    if a.len() != b.len() {
        return false;
    }
    let mut i: usize = 0;
    while i < a.len()
        invariant
            a@.len() == b@.len(),
            i <= a@.len(),
            forall|j: int| 0 <= j < i ==> ascii_lower(a@[j]) == ascii_lower(b@[j]),
        decreases a.len() - i,
    {
        let x = a[i];
        let y = b[i];
        let lx = if 65 <= x && x <= 90 {
            x + 32
        } else {
            x
        };
        let ly = if 65 <= y && y <= 90 {
            y + 32
        } else {
            y
        };
        if lx != ly {
            return false;
        }
        i += 1;
    }
    true
}

/// The encoding of two texts in a row is their encodings in a row.
pub proof fn lemma_encode_concat(a: Seq<char>, b: Seq<char>)
    ensures
        encode_utf8(a + b) == encode_utf8(a) + encode_utf8(b),
    decreases a.len(),
{
    if a.len() == 0 {
        assert(a + b =~= b);
        assert(encode_utf8(a) + encode_utf8(b) =~= encode_utf8(b));
    } else {
        lemma_encode_concat(a.drop_first(), b);
        assert((a + b).drop_first() =~= a.drop_first() + b);
        assert((a + b)[0] == a[0]);
        assert(encode_utf8(a + b) =~= encode_utf8(a) + encode_utf8(b));
    }
}

/// In valid UTF-8, a byte below 128 is the character with that number.
pub proof fn lemma_ascii_byte_is_char(bytes: Seq<u8>, i: int)
    requires
        valid_utf8(bytes),
        0 <= i < bytes.len(),
        bytes[i] < 128,
    ensures
        decode_utf8(bytes).contains(bytes[i] as char),
    decreases bytes.len(),
{
    let width = length_of_first_scalar(bytes);
    let rest = pop_first_scalar(bytes);
    let first = decode_first_scalar(bytes) as char;
    assert(decode_utf8(bytes) =~= seq![first] + decode_utf8(rest));
    if i < width {
        let b = bytes[0];
        assert(i == 0);
        assert(b < 128 ==> (b & 0x7f) as u32 == b as u32) by (bit_vector);
        assert(first == bytes[0] as char);
        assert(decode_utf8(bytes)[0] == first);
    } else {
        assert(rest[i - width] == bytes[i]);
        lemma_ascii_byte_is_char(rest, i - width);
        let k = choose|k: int| 0 <= k < decode_utf8(rest).len() && decode_utf8(rest)[k] == bytes[i] as char;
        assert(decode_utf8(bytes)[k + 1] == bytes[i] as char);
    }
}

/// A text that does not hold an ASCII character has no byte with that
/// number in its encoding.
pub proof fn lemma_no_char_no_byte(text: Seq<char>, b: u8)
    requires
        b < 128,
        !text.contains(b as char),
    ensures
        !encode_utf8(text).contains(b),
{
    let bytes = encode_utf8(text);
    encode_utf8_valid_utf8(text);
    encode_utf8_decode_utf8(text);
    if bytes.contains(b) {
        let i = choose|i: int| 0 <= i < bytes.len() && bytes[i] == b;
        lemma_ascii_byte_is_char(bytes, i);
    }
}

/// What stands behind a leading space is read as the space and then the rest.
pub proof fn lemma_decode_after_space(bytes: Seq<u8>)
    requires
        valid_utf8(bytes),
    ensures
        valid_utf8(seq![SPACE] + bytes),
        decode_utf8(seq![SPACE] + bytes) == seq![' '] + decode_utf8(bytes),
{
    let space = seq![SPACE];
    let all = space + bytes;
    lemma_ascii_is_utf8(space);
    valid_utf8_concat(space, bytes);
    lemma_around_ascii(all, 0);
    if 1 < all.len() {
        is_char_boundary_iff_not_is_continuation_byte(all, 1);
    } else {
        is_char_boundary_start_end_of_seq(all);
    }
    decode_utf8_split(all, 1);
    assert(all.subrange(0, 1) =~= space);
    assert(all.subrange(1, all.len() as int) =~= bytes);
    assert(ascii_chars(space) =~= seq![' ']);
}

/// The pieces into which bytes below 128 cut valid UTF-8 are valid UTF-8.
pub proof fn lemma_split_valid(s: Seq<u8>, sep: u8)
    requires
        valid_utf8(s),
        sep < 128,
    ensures
        forall|k: int| 0 <= k < split_on(s, sep).len() ==> valid_utf8(#[trigger] split_on(s, sep)[k]),
    decreases s.len(),
{
    if s.contains(sep) {
        lemma_index_of_first(s, sep);
        let p = index_of_first(s, sep);
        if 0 <= p < s.len() {
            lemma_around_ascii(s, p);
            assert(s.take(p) =~= s.subrange(0, p));
            assert(s.skip(p + 1) =~= s.subrange(p + 1, s.len() as int));
            lemma_split_valid(s.skip(p + 1), sep);
            let rest = split_on(s.skip(p + 1), sep);
            assert forall|k: int| 0 <= k < split_on(s, sep).len() implies valid_utf8(
                #[trigger] split_on(s, sep)[k],
            ) by {
                if k > 0 {
                    assert(split_on(s, sep)[k] == rest[k - 1]);
                }
            }
        }
    }
}

} // verus!
