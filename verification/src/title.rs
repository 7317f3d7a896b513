//! Titles: the raw form in which the tables carry them, with escapes and
//! with `_` for a space, and the text that a raw title stands for.

use vstd::prelude::*;
use vstd::utf8::{valid_utf8, decode_utf8, encode_utf8, encode_scalar, leading_byte_width_1, leading_byte_width_2, leading_byte_width_3, leading_byte_width_4, last_continuation_byte, second_last_continuation_byte, third_last_continuation_byte, char_is_scalar, char_u32_cast, encode_utf8_valid_utf8, encode_utf8_decode_utf8};

verus! {

pub const BACKSLASH: u8 = 0x5c;

pub const UNDERSCORE: u8 = 0x5f;

pub const SPACE: u8 = 0x20;

/// Why a raw title stands for no text.
#[derive(Clone, Copy, Debug, PartialEq, Eq, Structural)]
pub enum DecodeError {
    /// The title ends in the middle of an escape.
    UnfinishedEscape,
    /// A backslash is followed by a byte that names no escape.
    UnknownEscape,
    /// `\x` is followed by something else than two hexadecimal digits.
    BadHexDigit,
    /// With the escapes replaced, the bytes are not UTF-8.
    InvalidUtf8,
}

/// The byte that a backslash and the letter `b` stand for, if any:
/// `\b`, `\f`, `\n`, `\r`, `\t`, `\\`, `\'` and `\"`.
pub open spec fn simple_escape(b: u8) -> Option<u8> {
    if b == 0x62 {
        Some(0x08u8)
    } else if b == 0x66 {
        Some(0x0cu8)
    } else if b == 0x6e {
        Some(0x0au8)
    } else if b == 0x72 {
        Some(0x0du8)
    } else if b == 0x74 {
        Some(0x09u8)
    } else if b == 0x5c || b == 0x27 || b == 0x22 {
        Some(b)
    } else {
        None
    }
}

/// The value of the hexadecimal digit `b`, if it is one.
pub open spec fn hex_value(b: u8) -> Option<u8> {
    if 0x30 <= b <= 0x39 {
        Some((b - 0x30) as u8)
    } else if 0x61 <= b <= 0x66 {
        Some((b - 0x61 + 10) as u8)
    } else if 0x41 <= b <= 0x46 {
        Some((b - 0x41 + 10) as u8)
    } else {
        None
    }
}

/// `head` followed by `tail`, where there is a `tail`.
pub open spec fn prepend(head: Seq<u8>, tail: Result<Seq<u8>, DecodeError>) -> Result<Seq<u8>, DecodeError> {
    match tail {
        Ok(t) => Ok(head + t),
        Err(e) => Err(e),
    }
}

/// The bytes of the raw title `s` with every escape replaced by the byte it
/// stands for and every `_` by a space, or the first fault met on the way.
pub open spec fn unescaped(s: Seq<u8>) -> Result<Seq<u8>, DecodeError>
    decreases s.len(),
{
    if s.len() == 0 {
        Ok(Seq::empty())
    } else if s[0] == UNDERSCORE {
        prepend(seq![SPACE], unescaped(s.skip(1)))
    } else if s[0] != BACKSLASH {
        prepend(seq![s[0]], unescaped(s.skip(1)))
    } else if s.len() < 2 {
        Err(DecodeError::UnfinishedEscape)
    } else if simple_escape(s[1]) is Some {
        prepend(seq![simple_escape(s[1]).unwrap()], unescaped(s.skip(2)))
    } else if s[1] != 0x78 {
        Err(DecodeError::UnknownEscape)
    } else if s.len() < 4 {
        Err(DecodeError::UnfinishedEscape)
    } else if hex_value(s[2]) is None || hex_value(s[3]) is None {
        Err(DecodeError::BadHexDigit)
    } else {
        prepend(
            seq![(16 * hex_value(s[2]).unwrap() + hex_value(s[3]).unwrap()) as u8],
            unescaped(s.skip(4)),
        )
    }
}

/// The text that the raw title `s` stands for.
pub open spec fn decoded_title(s: Seq<u8>) -> Result<Seq<char>, DecodeError> {
    match unescaped(s) {
        Ok(bytes) => if valid_utf8(bytes) {
            Ok(decode_utf8(bytes))
        } else {
            Err(DecodeError::InvalidUtf8)
        },
        Err(e) => Err(e),
    }
}

/// No byte of `s` is a backslash or a `_`.
pub open spec fn is_plain(s: Seq<u8>) -> bool {
    forall|i: int| 0 <= i < s.len() ==> #[trigger] s[i] != BACKSLASH && s[i] != UNDERSCORE
}

proof fn lemma_unescaped_step(s: Seq<u8>, i: int, k: int, out: Seq<u8>, b: u8)
    requires
        0 <= i,
        0 < k,
        i + k <= s.len(),
        unescaped(s) == prepend(out, unescaped(s.skip(i))),
        unescaped(s.skip(i)) == prepend(seq![b], unescaped(s.skip(i).skip(k))),
    ensures
        unescaped(s) == prepend(out.push(b), unescaped(s.skip(i + k))),
{
    assert(s.skip(i).skip(k) =~= s.skip(i + k));
    match unescaped(s.skip(i + k)) {
        Ok(t) => {
            assert(out + (seq![b] + t) =~= out.push(b) + t);
        },
        Err(e) => {},
    }
}

/// Bytes without a backslash or a `_` stand for themselves.
pub proof fn lemma_unescaped_plain(s: Seq<u8>)
    requires
        is_plain(s),
    ensures
        unescaped(s) == Ok::<Seq<u8>, DecodeError>(s),
    decreases s.len(),
{
    if s.len() > 0 {
        let rest = s.skip(1);
        assert forall|i: int| 0 <= i < rest.len() implies #[trigger] rest[i] != BACKSLASH && rest[i] != UNDERSCORE by {
            assert(rest[i] == s[i + 1]);
        }
        lemma_unescaped_plain(rest);
        assert(seq![s[0]] + rest =~= s);
    } else {
        assert(s =~= Seq::<u8>::empty());
    }
}

/// No character of `text` is a backslash or a `_`.
pub open spec fn is_plain_text(text: Seq<char>) -> bool {
    forall|i: int| 0 <= i < text.len() ==> #[trigger] text[i] != '\\' && text[i] != '_'
}

proof fn lemma_high_bytes(c: u32)
    ensures
        leading_byte_width_2(c) >= 0x80,
        leading_byte_width_3(c) >= 0x80,
        leading_byte_width_4(c) >= 0x80,
        last_continuation_byte(c) >= 0x80,
        second_last_continuation_byte(c) >= 0x80,
        third_last_continuation_byte(c) >= 0x80,
        c <= 0x7f ==> leading_byte_width_1(c) == c,
{
    assert(0xC0u8 | ((c >> 6) & 0x1F) as u8 >= 0x80) by (bit_vector);
    assert(0xE0u8 | ((c >> 12) & 0x0F) as u8 >= 0x80) by (bit_vector);
    assert(0xF0u8 | ((c >> 18) & 0x7) as u8 >= 0x80) by (bit_vector);
    assert(0x80u8 | (c & 0x3F) as u8 >= 0x80) by (bit_vector);
    assert(0x80u8 | ((c >> 6) & 0x3F) as u8 >= 0x80) by (bit_vector);
    assert(0x80u8 | ((c >> 12) & 0x3F) as u8 >= 0x80) by (bit_vector);
    assert(c <= 0x7f ==> (c & 0x7F) as u8 == c) by (bit_vector);
}

/// The UTF-8 form of a text without a backslash and without a `_` has
/// neither of the two bytes.
pub proof fn lemma_plain_text(text: Seq<char>)
    requires
        is_plain_text(text),
    ensures
        is_plain(encode_utf8(text)),
    decreases text.len(),
{
    if text.len() > 0 {
        let c = text[0] as u32;
        let head = encode_scalar(c);
        let rest = text.drop_first();
        assert forall|i: int| 0 <= i < rest.len() implies #[trigger] rest[i] != '\\' && rest[i] != '_' by {
            assert(rest[i] == text[i + 1]);
        }
        lemma_plain_text(rest);
        lemma_high_bytes(c);
        char_is_scalar(text[0]);
        assert(text[0] != '\\' && text[0] != '_');
        assert(c != 0x5c && c != 0x5f) by {
            char_u32_cast(text[0], c);
            char_u32_cast('\\', 0x5c);
            char_u32_cast('_', 0x5f);
        }
        let tail = encode_utf8(rest);
        assert forall|i: int| 0 <= i < (head + tail).len() implies #[trigger] (head + tail)[i] != BACKSLASH && (
        head + tail)[i] != UNDERSCORE by {
            if i >= head.len() {
                assert((head + tail)[i] == tail[i - head.len()]);
            }
        }
    }
}

/// A text without a backslash and without a `_` stands for itself: to
/// decode it changes nothing, however often it is done.
pub proof fn lemma_plain_title_unchanged(text: Seq<char>)
    requires
        is_plain_text(text),
    ensures
        decoded_title(encode_utf8(text)) == Ok::<Seq<char>, DecodeError>(text),
{
    lemma_plain_text(text);
    lemma_unescaped_plain(encode_utf8(text));
    encode_utf8_valid_utf8(text);
    encode_utf8_decode_utf8(text);
}

/// `String::from_utf8`: the text that `bytes` are the UTF-8 form of, or `None`
/// where they are the UTF-8 form of no text.
#[verifier::external_body]
pub(crate) fn text_of(bytes: Vec<u8>) -> (r: Option<String>)
    ensures
        r is Some <==> valid_utf8(bytes@),
        r matches Some(s) ==> s@ == decode_utf8(bytes@),
{
    String::from_utf8(bytes).ok()
}

fn escape_byte(b: u8) -> (r: Option<u8>)
    ensures
        r == simple_escape(b),
{
    if b == 0x62 {
        Some(0x08)
    } else if b == 0x66 {
        Some(0x0c)
    } else if b == 0x6e {
        Some(0x0a)
    } else if b == 0x72 {
        Some(0x0d)
    } else if b == 0x74 {
        Some(0x09)
    } else if b == 0x5c || b == 0x27 || b == 0x22 {
        Some(b)
    } else {
        None
    }
}

fn hex_digit(b: u8) -> (r: Option<u8>)
    ensures
        r == hex_value(b),
        r matches Some(v) ==> v < 16,
{
    if 0x30 <= b && b <= 0x39 {
        Some(b - 0x30)
    } else if 0x61 <= b && b <= 0x66 {
        Some(b - 0x61 + 10)
    } else if 0x41 <= b && b <= 0x46 {
        Some(b - 0x41 + 10)
    } else {
        None
    }
}

/// Replaces the escapes of the raw title `raw` and its `_`.
pub fn unescape(raw: &[u8]) -> (r: Result<Vec<u8>, DecodeError>)
    ensures
        match r {
            Ok(bytes) => unescaped(raw@) == Ok::<Seq<u8>, DecodeError>(bytes@),
            Err(e) => unescaped(raw@) == Err::<Seq<u8>, DecodeError>(e),
        },
{
    let n = raw.len();
    let mut out: Vec<u8> = Vec::new();
    let mut i: usize = 0;
    assert(raw@.skip(0) =~= raw@);
    assert(unescaped(raw@) == prepend(out@, unescaped(raw@.skip(0)))) by {
        match unescaped(raw@) {
            Ok(t) => {
                assert(out@ + t =~= t);
            },
            Err(e) => {},
        }
    }
    while i < n
        invariant
            n == raw@.len(),
            i <= n,
            unescaped(raw@) == prepend(out@, unescaped(raw@.skip(i as int))),
        decreases n - i,
    {
        let ghost rest = raw@.skip(i as int);
        let ghost before = out@;
        assert(rest.len() == n - i);
        assert(rest[0] == raw@[i as int]);
        let b = raw[i];
        if b == UNDERSCORE {
            out.push(SPACE);
            proof {
                lemma_unescaped_step(raw@, i as int, 1, before, SPACE);
            }
            i += 1;
        } else if b != BACKSLASH {
            out.push(b);
            proof {
                lemma_unescaped_step(raw@, i as int, 1, before, b);
            }
            i += 1;
        } else if n - i < 2 {
            return Err(DecodeError::UnfinishedEscape);
        } else {
            assert(rest[1] == raw@[i + 1]);
            let c = raw[i + 1];
            match escape_byte(c) {
                Some(v) => {
                    out.push(v);
                    proof {
                        lemma_unescaped_step(raw@, i as int, 2, before, v);
                    }
                    i += 2;
                },
                None => {
                    if c != 0x78 {
                        return Err(DecodeError::UnknownEscape);
                    }
                    if n - i < 4 {
                        return Err(DecodeError::UnfinishedEscape);
                    }
                    assert(rest[2] == raw@[i + 2]);
                    assert(rest[3] == raw@[i + 3]);
                    match (hex_digit(raw[i + 2]), hex_digit(raw[i + 3])) {
                        (Some(high), Some(low)) => {
                            let v = 16 * high + low;
                            out.push(v);
                            proof {
                                lemma_unescaped_step(raw@, i as int, 4, before, v);
                            }
                            i += 4;
                        },
                        _ => {
                            return Err(DecodeError::BadHexDigit);
                        },
                    }
                },
            }
        }
    }
    assert(raw@.skip(n as int) =~= Seq::<u8>::empty());
    assert(out@ + Seq::<u8>::empty() =~= out@);
    Ok(out)
}

/// The text that the raw title `raw` stands for.
pub fn decode_title(raw: &[u8]) -> (r: Result<String, DecodeError>)
    ensures
        match r {
            Ok(text) => decoded_title(raw@) == Ok::<Seq<char>, DecodeError>(text@),
            Err(e) => decoded_title(raw@) == Err::<Seq<char>, DecodeError>(e),
        },
{
    match unescape(raw) {
        Ok(bytes) => match text_of(bytes) {
            Some(text) => Ok(text),
            None => Err(DecodeError::InvalidUtf8),
        },
        Err(e) => Err(e),
    }
}

/// The text that the raw title `s` stands for: every escape replaced by what
/// it stands for, every `_` by a space, everything else as it is.
pub fn cleanup_name(s: &str) -> (r: Result<String, DecodeError>)
    ensures
        match r {
            Ok(text) => decoded_title(encode_utf8(s@)) == Ok::<Seq<char>, DecodeError>(text@),
            Err(e) => decoded_title(encode_utf8(s@)) == Err::<Seq<char>, DecodeError>(e),
        },
{
    decode_title(s.as_bytes())
}

} // verus!
