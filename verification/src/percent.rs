//! Percent-encoding of texts for use in URLs.

use vstd::prelude::*;
use vstd::string::StringExecFns;
use vstd::utf8::{
    decode_utf8, encode_utf8, encode_utf8_decode_utf8, encode_utf8_valid_utf8, is_ascii_chars,
    is_ascii_chars_concat, is_ascii_chars_encode_utf8, valid_utf8,
};

use crate::text::chars_of;

verus! {

/// The marks that a URI component keeps.
pub const COMPONENT_MARKS: &'static str = "-_.!~*'()";

/// The marks that a path segment or a query value keeps.
pub const SEGMENT_MARKS: &'static str = "-_.~";

/// The upper-case hexadecimal digit of a number below sixteen.
pub open spec fn hex_digit(n: int) -> char {
    if n < 10 {
        (48 + n) as char
    } else {
        (55 + n) as char
    }
}

/// The percent-encoding of a byte.
pub open spec fn byte_code(b: u8) -> Seq<char> {
    seq!['%', hex_digit(b as int / 16), hex_digit(b as int % 16)]
}

/// `percent_encoding::percent_encode_byte` gives a percent sign and the two
/// upper-case hexadecimal digits of the byte.
pub assume_specification[ percent_encoding::percent_encode_byte ](byte: u8) -> (r: &'static str)
    ensures
        r@ == byte_code(byte),
;

/// Whether a byte is that of an ASCII letter or digit.
pub open spec fn is_alphanumeric_byte(b: u8) -> bool {
    48 <= b <= 57 || 65 <= b <= 90 || 97 <= b <= 122
}

/// Whether a byte stays as it is: the letters and digits do, and the marks.
pub open spec fn is_kept(b: u8, marks: Seq<char>) -> bool {
    b < 128 && (is_alphanumeric_byte(b) || marks.contains(b as char))
}

/// What stands for a byte.
pub open spec fn byte_text(b: u8, marks: Seq<char>) -> Seq<char> {
    if is_kept(b, marks) {
        seq![b as char]
    } else {
        byte_code(b)
    }
}

/// What stands for a run of bytes.
pub open spec fn bytes_text(bytes: Seq<u8>, marks: Seq<char>) -> Seq<char>
    decreases bytes.len(),
{
    if bytes.len() == 0 {
        Seq::empty()
    } else {
        byte_text(bytes[0], marks) + bytes_text(bytes.drop_first(), marks)
    }
}

/// The percent-encoding of a text: every byte of its UTF-8 form that is no
/// letter, digit or mark is encoded.
pub open spec fn percent_encoded(t: Seq<char>, marks: Seq<char>) -> Seq<char> {
    bytes_text(encode_utf8(t), marks)
}

fn is_mark(b: u8, marks: &[char]) -> (r: bool)
    requires
        b < 128,
    ensures
        r == marks@.contains(b as char),
{
    let mut i: usize = 0;
    while i < marks.len()
        invariant
            b < 128,
            i <= marks.len(),
            forall|k: int| 0 <= k < i ==> marks@[k] != b as char,
        decreases marks.len() - i,
    {
        if marks[i] == b as char {
            assert(marks@[i as int] == b as char);
            return true;
        }
        i += 1;
    }
    false
}

/// Percent-encodes every byte of a text that is no letter, digit or mark.
pub fn percent_encode(t: &str, marks: &str) -> (r: String)
    ensures
        r@ == percent_encoded(t@, marks@),
{
    let marks_list = chars_of(marks);
    let bytes = t.as_bytes();
    let ghost all = encode_utf8(t@);
    let mut out: String = String::new();
    let mut i: usize = 0;
    assert(bytes@.skip(0) =~= bytes@);
    while i < bytes.len()
        invariant
            marks_list@ == marks@,
            bytes@ == all,
            i <= bytes.len(),
            out@ + bytes_text(all.skip(i as int), marks@) == bytes_text(all, marks@),
        decreases bytes.len() - i,
    {
        let ghost before = out@;
        let b: u8 = bytes[i];
        let alphanumeric = (48 <= b && b <= 57) || (65 <= b && b <= 90) || (97 <= b && b <= 122);
        if alphanumeric || (b < 128 && is_mark(b, &marks_list)) {
            out.push(b as char);
            assert(out@ =~= before + byte_text(b, marks@));
        } else {
            out.append(percent_encoding::percent_encode_byte(b));
        }
        proof {
            assert(all.skip(i as int).drop_first() =~= all.skip(i + 1));
            assert(before + (byte_text(b, marks@) + bytes_text(all.skip(i + 1), marks@)) =~= before
                + byte_text(b, marks@) + bytes_text(all.skip(i + 1), marks@));
        }
        i += 1;
    }
    assert(out@ =~= bytes_text(all, marks@));
    out
}

/// The value of a hexadecimal digit.
pub open spec fn hex_value(b: u8) -> Option<int> {
    if 48 <= b <= 57 {
        Some(b - 48)
    } else if 65 <= b <= 70 {
        Some(b - 55)
    } else if 97 <= b <= 102 {
        Some(b - 87)
    } else {
        None
    }
}

/// The bytes that percent-encoded bytes stand for. A percent sign that is not
/// followed by two hexadecimal digits stands for itself.
pub open spec fn percent_decoded_bytes(b: Seq<u8>) -> Seq<u8>
    decreases b.len(),
{
    if b.len() == 0 {
        Seq::empty()
    } else if b.len() >= 3 && b[0] == 37 && hex_value(b[1]) is Some && hex_value(b[2]) is Some {
        seq![(hex_value(b[1])->0 * 16 + hex_value(b[2])->0) as u8] + percent_decoded_bytes(
            b.skip(3),
        )
    } else {
        seq![b[0]] + percent_decoded_bytes(b.skip(1))
    }
}

/// The text that `percent_encoding::percent_decode_str` and
/// `decode_utf8_lossy` make of a text.
pub uninterp spec fn percent_decoded(t: Seq<char>) -> Seq<char>;

/// `percent_encoding::percent_decode_str(..).decode_utf8_lossy()`: the bytes
/// that the text stands for, read as UTF-8. Where these are not UTF-8, the
/// replacement characters that come in are left to the named result.
#[verifier::external_body]
pub(crate) fn percent_decode(t: &str) -> (r: String)
    ensures
        r@ == percent_decoded(t@),
        valid_utf8(percent_decoded_bytes(encode_utf8(t@))) ==> r@ == decode_utf8(
            percent_decoded_bytes(encode_utf8(t@)),
        ),
{
    percent_encoding::percent_decode_str(t).decode_utf8_lossy().into_owned()
}

proof fn lemma_bytes_text_ascii(bytes: Seq<u8>, marks: Seq<char>)
    ensures
        is_ascii_chars(bytes_text(bytes, marks)),
    decreases bytes.len(),
{
    if bytes.len() > 0 {
        let head = byte_text(bytes[0], marks);
        let tail = bytes_text(bytes.drop_first(), marks);
        lemma_bytes_text_ascii(bytes.drop_first(), marks);
        assert(is_ascii_chars(head));
        is_ascii_chars_concat(bytes_text(bytes, marks), head, tail);
    }
}

pub proof fn lemma_decode_bytes_text(bytes: Seq<u8>, marks: Seq<char>)
    requires
        !marks.contains('%'),
    ensures
        percent_decoded_bytes(encode_utf8(bytes_text(bytes, marks))) == bytes,
    decreases bytes.len(),
{
    let t = bytes_text(bytes, marks);
    lemma_bytes_text_ascii(bytes, marks);
    is_ascii_chars_encode_utf8(t);
    let coded = encode_utf8(t);
    if bytes.len() > 0 {
        let rest = bytes.drop_first();
        lemma_decode_bytes_text(rest, marks);
        lemma_bytes_text_ascii(rest, marks);
        is_ascii_chars_encode_utf8(bytes_text(rest, marks));
        let b = bytes[0];
        let head = byte_text(b, marks);
        if is_kept(b, marks) {
            assert(coded.skip(1) =~= encode_utf8(bytes_text(rest, marks)));
            assert(coded[0] == b);
            assert(b != 37);
        } else {
            assert(coded.skip(3) =~= encode_utf8(bytes_text(rest, marks)));
            assert(t[0] == head[0] && t[1] == head[1] && t[2] == head[2]);
            assert(coded[0] == 37);
            assert(hex_value(coded[1]) == Some(b as int / 16));
            assert(hex_value(coded[2]) == Some(b as int % 16));
        }
        assert(percent_decoded_bytes(coded) =~= seq![b] + rest);
        assert(seq![b] + rest =~= bytes);
    } else {
        assert(percent_decoded_bytes(coded) =~= bytes);
    }
}

/// Decoding undoes encoding: the bytes that an encoded text stands for are
/// the UTF-8 form of the text it was made from.
pub proof fn law_percent_round_trip(t: Seq<char>, marks: Seq<char>)
    requires
        !marks.contains('%'),
    ensures
        valid_utf8(percent_decoded_bytes(encode_utf8(percent_encoded(t, marks)))),
        decode_utf8(percent_decoded_bytes(encode_utf8(percent_encoded(t, marks)))) == t,
{
    lemma_decode_bytes_text(encode_utf8(t), marks);
    encode_utf8_valid_utf8(t);
    encode_utf8_decode_utf8(t);
}

/// An encoded text holds letters, digits, the marks and percent signs only.
pub proof fn law_percent_encoded_is_safe(t: Seq<char>, marks: Seq<char>, i: int)
    requires
        0 <= i < percent_encoded(t, marks).len(),
    ensures
        ({
            let c = percent_encoded(t, marks)[i];
            ||| '0' <= c <= '9'
            ||| 'A' <= c <= 'Z'
            ||| 'a' <= c <= 'z'
            ||| c == '%'
            ||| marks.contains(c)
        }),
{
    lemma_bytes_text_safe(encode_utf8(t), marks, i);
}

proof fn lemma_bytes_text_safe(bytes: Seq<u8>, marks: Seq<char>, i: int)
    requires
        0 <= i < bytes_text(bytes, marks).len(),
    ensures
        ({
            let c = bytes_text(bytes, marks)[i];
            ||| '0' <= c <= '9'
            ||| 'A' <= c <= 'Z'
            ||| 'a' <= c <= 'z'
            ||| c == '%'
            ||| marks.contains(c)
        }),
    decreases bytes.len(),
{
    if bytes.len() > 0 {
        let head = byte_text(bytes[0], marks);
        if i >= head.len() {
            lemma_bytes_text_safe(bytes.drop_first(), marks, i - head.len());
        } else {
            assert(bytes_text(bytes, marks)[i] == head[i]);
        }
    }
}

} // verus!
