//! Conversions between strings, characters and bytes, and the decimal
//! notation of numbers.
use vstd::prelude::*;
use vstd::utf8::{decode_utf8, encode_utf8, valid_utf8};

verus! {

/// The error of `core::str::from_utf8`; nothing is read from it.
#[verifier::external_type_specification]
#[verifier::external_body]
pub struct ExUtf8Error(core::str::Utf8Error);

/// `String::push` of the standard library appends one character to the string.
pub assume_specification[ String::push ](s: &mut String, c: char)
    ensures
        final(s)@ == old(s)@.push(c),
;

/// `core::str::from_utf8` accepts exactly the byte strings that are valid
/// UTF-8, and the string it gives has those bytes.
pub assume_specification[ core::str::from_utf8 ](v: &[u8]) -> (r: Result<
    &str,
    core::str::Utf8Error,
>)
    ensures
        r is Ok <==> valid_utf8(v@),
        r matches Ok(s) ==> encode_utf8(s@) == v@,
;

/// Whether a character has the Unicode property `White_Space`: the
/// controls from the tab to the carriage return, the space, the next-line
/// control, the no-break space, the Ogham space mark, the spaces of fixed
/// width, the line and the paragraph separator, the narrow no-break space,
/// the medium mathematical space and the ideographic space.
pub open spec fn char_is_whitespace(c: char) -> bool {
    ||| '\u{9}' <= c <= '\u{d}'
    ||| c == ' '
    ||| c == '\u{85}'
    ||| c == '\u{a0}'
    ||| c == '\u{1680}'
    ||| '\u{2000}' <= c <= '\u{200a}'
    ||| c == '\u{2028}'
    ||| c == '\u{2029}'
    ||| c == '\u{202f}'
    ||| c == '\u{205f}'
    ||| c == '\u{3000}'
}

/// `char::is_whitespace` tells whether a character has the Unicode property
/// `White_Space`.
pub assume_specification[ char::is_whitespace ](c: char) -> (b: bool)
    ensures
        b == char_is_whitespace(c),
;

/// The text that `String::from_utf8_lossy` makes of a byte string.
pub uninterp spec fn lossy_text(bytes: Seq<u8>) -> Seq<char>;

/// `String::from_utf8_lossy` decodes a byte string, putting the replacement
/// character where the bytes are not UTF-8. Bytes that are UTF-8 become the
/// text they encode; of other bytes the contract only names the result.
#[verifier::external_body]
pub(crate) fn to_string(bytes: &[u8]) -> (text: String)
    ensures
        text@ == lossy_text(bytes@),
        valid_utf8(bytes@) ==> text@ == decode_utf8(bytes@),
{
    String::from_utf8_lossy(bytes).into_owned()
}

/// The text of a byte string: what the bytes encode where they are UTF-8,
/// and else what `String::from_utf8_lossy` makes of them.
pub open spec fn text_of(bytes: Seq<u8>) -> Seq<char> {
    if valid_utf8(bytes) {
        decode_utf8(bytes)
    } else {
        lossy_text(bytes)
    }
}

/// Reads bytes as text, putting the replacement character where they are
/// not UTF-8.
pub fn lossy(bytes: &[u8]) -> (text: String)
    ensures
        text@ == text_of(bytes@),
{
    to_string(bytes)
}

/// The characters of a string, in order.
pub fn chars_of(s: &str) -> (chars: Vec<char>)
    ensures
        chars@ == s@,
{
    let mut chars: Vec<char> = Vec::new();
    for c in it: s.chars()
        invariant
            chars@ == it.seq().take(it.index() as int),
            it.seq() == s@,
    {
        chars.push(c);
    }
    chars
}

/// The string made of the given characters.
pub fn string_of(chars: &Vec<char>) -> (s: String)
    ensures
        s@ == chars@,
{
    let mut s = String::new();
    let mut i: usize = 0;
    while i < chars.len()
        invariant
            i <= chars.len(),
            s@ == chars@.take(i as int),
        decreases chars.len() - i,
    {
        s.push(chars[i]);
        i += 1;
    }
    s
}

/// `s` without the whitespace at its end.
pub open spec fn trimmed_end(s: Seq<char>) -> Seq<char>
    decreases s.len(),
{
    if s.len() > 0 && char_is_whitespace(s.last()) {
        trimmed_end(s.drop_last())
    } else {
        s
    }
}

/// Removes the whitespace at the end of a string.
pub fn trim_end(s: &str) -> (trimmed: String)
    ensures
        trimmed@ == trimmed_end(s@),
{
    let mut chars = chars_of(s);
    while chars.len() > 0 && chars[chars.len() - 1].is_whitespace()
        invariant
            trimmed_end(chars@) == trimmed_end(s@),
        decreases chars.len(),
    {
        let ghost before = chars@;
        chars.pop();
        assert(chars@ == before.drop_last());
    }
    string_of(&chars)
}

/// Whether two byte strings are the same.
pub fn same_bytes(a: &[u8], b: &[u8]) -> (same: bool)
    ensures
        same == (a@ == b@),
{
    if a.len() != b.len() {
        return false;
    }
    let mut i: usize = 0;
    while i < a.len()
        invariant
            i <= a.len(),
            a.len() == b.len(),
            a@.take(i as int) == b@.take(i as int),
        decreases a.len() - i,
    {
        if a[i] != b[i] {
            assert(a@[i as int] != b@[i as int]);
            return false;
        }
        assert(a@.take(i as int + 1) == a@.take(i as int).push(a@[i as int]));
        assert(b@.take(i as int + 1) == b@.take(i as int).push(b@[i as int]));
        i += 1;
    }
    assert(a@.take(a.len() as int) == a@);
    assert(b@.take(b.len() as int) == b@);
    true
}

/// Whether two strings are the same text.
pub fn same_text(a: &str, b: &str) -> (same: bool)
    ensures
        same == (a@ == b@),
{
    let x = chars_of(a);
    let y = chars_of(b);
    if x.len() != y.len() {
        return false;
    }
    let mut i: usize = 0;
    while i < x.len()
        invariant
            i <= x.len(),
            x.len() == y.len(),
            x@ == a@,
            y@ == b@,
            x@.take(i as int) == y@.take(i as int),
        decreases x.len() - i,
    {
        if x[i] != y[i] {
            assert(x@[i as int] != y@[i as int]);
            return false;
        }
        assert(x@.take(i as int + 1) == x@.take(i as int).push(x@[i as int]));
        assert(y@.take(i as int + 1) == y@.take(i as int).push(y@[i as int]));
        i += 1;
    }
    assert(x@.take(x.len() as int) == x@);
    assert(y@.take(y.len() as int) == y@);
    true
}

/// Appends bytes to a buffer.
pub fn append_bytes(out: &mut Vec<u8>, bytes: &[u8])
    ensures
        final(out)@ == old(out)@ + bytes@,
{
    let mut i: usize = 0;
    while i < bytes.len()
        invariant
            i <= bytes.len(),
            out@ == old(out)@ + bytes@.take(i as int),
        decreases bytes.len() - i,
    {
        out.push(bytes[i]);
        assert(bytes@.take(i as int + 1) == bytes@.take(i as int).push(bytes@[i as int]));
        i += 1;
    }
    assert(bytes@.take(bytes.len() as int) == bytes@);
}

/// Appends the UTF-8 bytes of a string to a buffer.
pub fn append_str(out: &mut Vec<u8>, s: &str)
    ensures
        final(out)@ == old(out)@ + encode_utf8(s@),
{
    append_bytes(out, s.as_bytes());
}

/// The decimal digit of a number below ten.
pub open spec fn digit(d: nat) -> u8
    recommends
        d < 10,
{
    (48 + d) as u8
}

/// The decimal notation of a natural number, without leading zeros.
pub open spec fn decimal(n: nat) -> Seq<u8>
    decreases n,
{
    if n < 10 {
        seq![digit(n)]
    } else {
        decimal(n / 10).push(digit(n % 10))
    }
}

/// The decimal notation of an integer: a minus sign before a negative one.
pub open spec fn signed_decimal(i: int) -> Seq<u8> {
    if i < 0 {
        seq![45u8] + decimal((-i) as nat)
    } else {
        decimal(i as nat)
    }
}

/// The decimal notation of `n`, with zeros in front up to `width` digits.
pub open spec fn zero_padded(n: nat, width: nat) -> Seq<u8> {
    let digits = decimal(n);
    if digits.len() >= width {
        digits
    } else {
        Seq::new((width - digits.len()) as nat, |i: int| 48u8) + digits
    }
}

/// Appends the decimal notation of `n`, with zeros in front up to `width` digits.
pub fn append_zero_padded(out: &mut Vec<u8>, n: u128, width: usize)
    ensures
        final(out)@ == old(out)@ + zero_padded(n as nat, width as nat),
{
    // the digits, the lowest first
    let mut digits: Vec<u8> = Vec::new();
    let mut m: u128 = n;
    digits.push(48 + (m % 10) as u8);
    m = m / 10;
    while m > 0
        invariant
            digits@.len() > 0,
            decimal(n as nat) == (if m > 0 {
                decimal(m as nat)
            } else {
                Seq::<u8>::empty()
            }) + digits@.reverse(),
        decreases m,
    {
        let ghost before = digits@;
        digits.push(48 + (m % 10) as u8);
        proof {
            let d = digit((m % 10) as nat);
            assert(digits@.reverse() =~= seq![d] + before.reverse());
            let rest = if m / 10 > 0 {
                decimal((m / 10) as nat)
            } else {
                Seq::<u8>::empty()
            };
            assert(decimal(m as nat) =~= rest + seq![d]);
            assert(decimal(n as nat) =~= rest + digits@.reverse());
        }
        m = m / 10;
    }
    assert(decimal(n as nat) =~= digits@.reverse());
    let ghost start = out@;
    let mut k: usize = digits.len();
    while k < width
        invariant
            digits@.len() <= k,
            k <= width || k == digits@.len(),
            out@ == start + Seq::new((k - digits@.len()) as nat, |i: int| 48u8),
        decreases width - k,
    {
        out.push(48);
        k += 1;
        assert(out@ =~= start + Seq::new((k - digits@.len()) as nat, |i: int| 48u8));
    }
    let ghost padded = out@;
    let mut i: usize = digits.len();
    while i > 0
        invariant
            i <= digits@.len(),
            out@ == padded + digits@.reverse().take(digits@.len() - i),
        decreases i,
    {
        i -= 1;
        out.push(digits[i]);
        assert(out@ =~= padded + digits@.reverse().take(digits@.len() - i));
    }
    assert(digits@.reverse().take(digits@.len() as int) =~= digits@.reverse());
    assert(out@ =~= start + zero_padded(n as nat, width as nat));
}

/// Appends the decimal notation of a natural number.
pub fn append_decimal(out: &mut Vec<u8>, n: u128)
    ensures
        final(out)@ == old(out)@ + decimal(n as nat),
{
    append_zero_padded(out, n, 0);
}

/// The size of an integer without its sign.
pub fn magnitude(i: i64) -> (m: u64)
    ensures
        m == if i < 0 {
            -i
        } else {
            i as int
        },
{
    if i < 0 {
        (-(i + 1)) as u64 + 1
    } else {
        i as u64
    }
}

/// Appends the decimal notation of an integer.
pub fn append_signed_decimal(out: &mut Vec<u8>, i: i64)
    ensures
        final(out)@ == old(out)@ + signed_decimal(i as int),
{
    let ghost start = out@;
    if i < 0 {
        out.push(45);
    }
    append_decimal(out, magnitude(i) as u128);
    assert(out@ =~= start + signed_decimal(i as int));
}

/// The decimal notation of a natural number, as text.
pub open spec fn decimal_text(n: nat) -> Seq<char> {
    decimal(n).map_values(|b: u8| b as char)
}

/// Appends the decimal notation of a natural number to a string.
pub fn append_decimal_text(s: &mut String, n: u128)
    ensures
        final(s)@ == old(s)@ + decimal_text(n as nat),
{
    let mut digits: Vec<u8> = Vec::new();
    append_decimal(&mut digits, n);
    assert(digits@ =~= decimal(n as nat));
    let mut i: usize = 0;
    while i < digits.len()
        invariant
            i <= digits.len(),
            digits@ == decimal(n as nat),
            s@ == old(s)@ + decimal_text(n as nat).take(i as int),
        decreases digits.len() - i,
    {
        s.push(digits[i] as char);
        assert(s@ =~= old(s)@ + decimal_text(n as nat).take(i as int + 1));
        i += 1;
    }
    assert(decimal_text(n as nat).take(digits.len() as int) =~= decimal_text(n as nat));
}

/// The number of bytes before the first line feed, or of all bytes where
/// there is none.
pub open spec fn first_line_len(bytes: Seq<u8>) -> int
    decreases bytes.len(),
{
    if bytes.len() == 0 || bytes[0] == 10 {
        0
    } else {
        1 + first_line_len(bytes.drop_first())
    }
}

/// Where no line feed stands from `from` up to `end`, and one stands at
/// `end` or the bytes end there, the line that begins at `from` ends at `end`.
pub proof fn lemma_first_line_ends(bytes: Seq<u8>, from: int, end: int)
    requires
        0 <= from <= end <= bytes.len(),
        forall|i: int| from <= i < end ==> bytes[i] != 10,
        end < bytes.len() ==> bytes[end] == 10,
    ensures
        first_line_len(bytes.skip(from)) == end - from,
    decreases end - from,
{
    let rest = bytes.skip(from);
    if from < end {
        assert(rest[0] == bytes[from]);
        assert(rest.drop_first() =~= bytes.skip(from + 1));
        lemma_first_line_ends(bytes, from + 1, end);
    } else if end < bytes.len() {
        assert(rest[0] == bytes[end]);
    }
}

/// The pieces into which line feeds cut some bytes: one more piece than
/// there are line feeds, the last one what follows the last line feed.
pub open spec fn pieces(bytes: Seq<u8>) -> Seq<Seq<u8>>
    decreases bytes.len(),
{
    let n = first_line_len(bytes);
    if 0 <= n < bytes.len() {
        seq![bytes.take(n)] + pieces(bytes.skip(n + 1))
    } else {
        seq![bytes]
    }
}

/// The byte strings of some vectors.
pub open spec fn byte_strings(lines: Seq<Vec<u8>>) -> Seq<Seq<u8>> {
    Seq::new(lines.len(), |i: int| lines[i]@)
}

/// Cuts bytes at the line feeds.
pub fn split_lines(bytes: &[u8]) -> (lines: Vec<Vec<u8>>)
    ensures
        byte_strings(lines@) == pieces(bytes@),
{
    let mut lines: Vec<Vec<u8>> = Vec::new();
    let mut line: Vec<u8> = Vec::new();
    let mut from: usize = 0;
    let mut i: usize = 0;
    assert(bytes@.skip(0) =~= bytes@);
    assert(byte_strings(lines@) =~= Seq::<Seq<u8>>::empty());
    while i < bytes.len()
        invariant
            from <= i <= bytes.len(),
            line@ == bytes@.subrange(from as int, i as int),
            forall|j: int| from <= j < i ==> bytes@[j] != 10,
            byte_strings(lines@) + pieces(bytes@.skip(from as int)) == pieces(bytes@),
        decreases bytes.len() - i,
    {
        if bytes[i] == 10 {
            proof {
                lemma_first_line_ends(bytes@, from as int, i as int);
                let rest = bytes@.skip(from as int);
                assert(rest.take(i - from) =~= line@);
                assert(rest.skip(i - from + 1) =~= bytes@.skip(i as int + 1));
            }
            let ghost before = lines@;
            lines.push(line);
            proof {
                assert(byte_strings(lines@) =~= byte_strings(before).push(lines@.last()@));
                assert(byte_strings(lines@) + pieces(bytes@.skip(i as int + 1)) =~= byte_strings(
                    before,
                ) + pieces(bytes@.skip(from as int)));
            }
            line = Vec::new();
            from = i + 1;
            assert(bytes@.subrange(from as int, from as int) =~= Seq::<u8>::empty());
        } else {
            line.push(bytes[i]);
            assert(line@ =~= bytes@.subrange(from as int, i as int + 1));
        }
        i += 1;
    }
    proof {
        lemma_first_line_ends(bytes@, from as int, bytes.len() as int);
        assert(bytes@.skip(from as int) =~= line@);
    }
    let ghost before = lines@;
    lines.push(line);
    assert(byte_strings(lines@) =~= byte_strings(before).push(lines@.last()@));
    lines
}

/// Whether all bytes are decimal digits.
pub open spec fn are_digits(bytes: Seq<u8>) -> bool {
    forall|i: int| 0 <= i < bytes.len() ==> 48 <= #[trigger] bytes[i] <= 57
}

/// The number that decimal digits denote.
pub open spec fn digits_value(bytes: Seq<u8>) -> nat
    decreases bytes.len(),
{
    if bytes.len() == 0 {
        0
    } else {
        (digits_value(bytes.drop_last()) * 10 + (bytes.last() - 48)) as nat
    }
}

/// The number that a byte string denotes: it is made of one or more
/// decimal digits, behind a plus sign or behind none, and denotes a
/// number of this machine.
pub open spec fn number_of(bytes: Seq<u8>) -> Option<usize> {
    let digits = if bytes.len() > 0 && bytes[0] == 43 {
        bytes.drop_first()
    } else {
        bytes
    };
    if digits.len() > 0 && are_digits(digits) && digits_value(digits) <= usize::MAX {
        Some(digits_value(digits) as usize)
    } else {
        None
    }
}

/// More digits do not denote less.
proof fn lemma_digits_value_grows(bytes: Seq<u8>, n: int)
    requires
        0 <= n <= bytes.len(),
        are_digits(bytes),
    ensures
        digits_value(bytes.take(n)) <= digits_value(bytes),
    decreases bytes.len() - n,
{
    if n < bytes.len() {
        lemma_digits_value_grows(bytes, n + 1);
        assert(bytes.take(n + 1).drop_last() =~= bytes.take(n));
        assert(bytes.take(n + 1).last() == bytes[n]);
    } else {
        assert(bytes.take(n) =~= bytes);
    }
}

/// Reads a number in decimal notation.
pub fn parse_number(bytes: &[u8]) -> (number: Option<usize>)
    ensures
        number == number_of(bytes@),
{
    let start: usize = if bytes.len() > 0 && bytes[0] == 43 {
        1
    } else {
        0
    };
    let ghost digits = bytes@.skip(start as int);
    assert(digits =~= if bytes@.len() > 0 && bytes@[0] == 43 {
        bytes@.drop_first()
    } else {
        bytes@
    });
    if start == bytes.len() {
        return None;
    }
    let mut value: usize = 0;
    let mut i: usize = start;
    assert(digits.take(0) =~= Seq::<u8>::empty());
    while i < bytes.len()
        invariant
            start <= i <= bytes.len(),
            digits == bytes@.skip(start as int),
            digits == if bytes@.len() > 0 && bytes@[0] == 43 {
                bytes@.drop_first()
            } else {
                bytes@
            },
            are_digits(digits.take(i - start)),
            value == digits_value(digits.take(i - start)),
        decreases bytes.len() - i,
    {
        let b = bytes[i];
        proof {
            assert(digits.take(i - start + 1).drop_last() =~= digits.take(i - start));
            assert(digits.take(i - start + 1).last() == b);
            assert(digits[i - start] == b);
        }
        if b < 48 || b > 57 {
            return None;
        }
        let d = (b - 48) as usize;
        if value > (usize::MAX - d) / 10 {
            proof {
                assert(digits_value(digits.take(i - start + 1)) > usize::MAX);
                assert(are_digits(digits) ==> digits_value(digits) > usize::MAX) by {
                    if are_digits(digits) {
                        lemma_digits_value_grows(digits, i - start + 1);
                    }
                }
            }
            return None;
        }
        value = value * 10 + d;
        i += 1;
    }
    assert(digits.take(digits.len() as int) =~= digits);
    Some(value)
}

/// A string read from UTF-8 bytes is the decoding of those bytes.
pub proof fn lemma_text_of_bytes(s: &str, bytes: Seq<u8>)
    requires
        encode_utf8(s@) == bytes,
    ensures
        s@ == decode_utf8(bytes),
        valid_utf8(bytes),
{
    vstd::utf8::encode_utf8_decode_utf8(s@);
    vstd::utf8::encode_utf8_valid_utf8(s@);
}

} // verus!
