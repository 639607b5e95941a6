//! The text of a file in one of the encodings that .rdp files come in.
use vstd::prelude::*;
use vstd::slice::slice_subrange;
use vstd::string::StringExecFns;
use vstd::utf8::{
    decode_utf8, encode_utf8, encode_utf8_decode_utf8, encode_utf8_first_scalar,
    encode_utf8_valid_utf8, valid_utf8,
};

use crate::text::text_result;

verus! {

/// What `encoding_rs::UTF_16LE.decode` makes of some bytes.
pub uninterp spec fn utf16le_text(bytes: Seq<u8>) -> Seq<char>;

/// What `String::from_utf8_lossy` makes of some bytes.
pub uninterp spec fn lossy_utf8_text(bytes: Seq<u8>) -> Seq<char>;

/// How the error of `String::from_utf8` describes what is wrong with some bytes.
pub uninterp spec fn utf8_fault(bytes: Seq<u8>) -> Seq<char>;

/// The two bytes of a UTF-16 code unit, low byte first.
pub open spec fn unit_bytes(unit: int) -> Seq<u8> {
    seq![(unit % 0x100) as u8, (unit / 0x100) as u8]
}

/// A character in UTF-16, low bytes first: one code unit, or two where it lies beyond 0xffff.
pub open spec fn char_utf16le(c: char) -> Seq<u8> {
    let n = c as u32 as int;
    if n < 0x10000 {
        unit_bytes(n)
    } else {
        unit_bytes(0xd800 + (n - 0x10000) / 0x400) + unit_bytes(0xdc00 + (n - 0x10000) % 0x400)
    }
}

/// A text in UTF-16, low bytes first, without a mark.
pub open spec fn encode_utf16le(text: Seq<char>) -> Seq<u8>
    decreases text.len(),
{
    if text.len() == 0 {
        seq![]
    } else {
        char_utf16le(text[0]) + encode_utf16le(text.skip(1))
    }
}

/// The bytes begin with the mark of UTF-8 or with that of UTF-16 in either order of bytes.
pub open spec fn begins_with_mark(bytes: Seq<u8>) -> bool {
    ||| has_utf8_mark(bytes)
    ||| has_utf16_mark(bytes)
    ||| bytes.len() >= 2 && bytes[0] == 0xfe && bytes[1] == 0xff
}

/// The bytes are ASCII characters in two bytes each, low byte first.
pub open spec fn is_wide_ascii(bytes: Seq<u8>) -> bool {
    &&& bytes.len() % 2 == 0
    &&& forall|i: int| 0 <= i < bytes.len() && i % 2 == 0 ==> #[trigger] bytes[i] < 0x80
    &&& forall|i: int| 0 <= i < bytes.len() && i % 2 == 1 ==> #[trigger] bytes[i] == 0
}

/// Every second byte as a character.
pub open spec fn narrowed(bytes: Seq<u8>) -> Seq<char> {
    Seq::new(bytes.len() / 2, |i: int| bytes[2 * i] as char)
}

/// Calls `encoding_rs::UTF_16LE.decode` and keeps the text. The result depends on the bytes alone;
/// a text in UTF-16 is decoded to that text, unless its bytes begin with a mark, by which the
/// decoder would choose another encoding or which it would drop. The call panics where the size of
/// its buffer overflows, which the bound on the length rules out.
#[verifier::external_body]
pub(crate) fn decode_utf16le(bytes: &[u8]) -> (r: String)
    requires
        bytes@.len() <= usize::MAX / 16,
    ensures
        r@ == utf16le_text(bytes@),
        forall|text: Seq<char>|
            bytes@ == #[trigger] encode_utf16le(text) && !begins_with_mark(bytes@) ==> r@ == text,
{
    let (text, _, _) = encoding_rs::UTF_16LE.decode(bytes);
    text.into_owned()
}

/// Calls `String::from_utf8`: the text that the bytes encode where they are valid UTF-8, else an
/// error, of which the description is kept.
#[verifier::external_body]
pub(crate) fn decode_utf8_strictly(bytes: Vec<u8>) -> (r: Result<String, String>)
    ensures
        text_result(r) == (if valid_utf8(bytes@) {
            Ok(decode_utf8(bytes@))
        } else {
            Err(utf8_fault(bytes@))
        }),
{
    String::from_utf8(bytes).map_err(|e| e.to_string())
}

/// Calls `String::from_utf8_lossy`. The result depends on the bytes alone; where they are valid
/// UTF-8 it is the text that they encode.
#[verifier::external_body]
pub(crate) fn decode_utf8_lossily(bytes: &[u8]) -> (r: String)
    ensures
        r@ == lossy_utf8_text(bytes@),
        valid_utf8(bytes@) ==> r@ == decode_utf8(bytes@),
{
    String::from_utf8_lossy(bytes).into_owned()
}

/// The bytes begin with the mark of UTF-16, low byte first.
pub open spec fn has_utf16_mark(raw: Seq<u8>) -> bool {
    raw.len() >= 2 && raw[0] == 0xff && raw[1] == 0xfe
}

/// The bytes begin with the mark of UTF-8.
pub open spec fn has_utf8_mark(raw: Seq<u8>) -> bool {
    raw.len() >= 3 && raw[0] == 0xef && raw[1] == 0xbb && raw[2] == 0xbf
}

/// The text of a file's bytes. A mark at the beginning tells the encoding and is dropped; without
/// one the bytes are taken for UTF-8, and what is not is replaced.
pub open spec fn decoded(raw: Seq<u8>) -> Result<Seq<char>, Seq<char>> {
    if has_utf16_mark(raw) {
        Ok(utf16le_text(raw.skip(2)))
    } else if has_utf8_mark(raw) {
        if valid_utf8(raw.skip(3)) {
            Ok(decode_utf8(raw.skip(3)))
        } else {
            Err("UTF-8 decode error: "@ + utf8_fault(raw.skip(3)))
        }
    } else {
        Ok(lossy_utf8_text(raw))
    }
}

/// The text of the file at `path`, of which the bytes or the reason why they could not be read are
/// given.
pub open spec fn file_text(path: Seq<char>, raw: Result<Vec<u8>, String>) -> Result<
    Seq<char>,
    Seq<char>,
> {
    match raw {
        Ok(raw) => decoded(raw@),
        Err(reason) => Err("Cannot read "@ + path + ": "@ + reason@),
    }
}

/// The bytes of a file hold the text: as UTF-16 or UTF-8 after the mark of that encoding, or as
/// UTF-8 without a mark. No second mark follows that of UTF-16.
pub open spec fn holds_text(raw: Seq<u8>, text: Seq<char>) -> bool {
    if has_utf16_mark(raw) {
        raw.skip(2) == encode_utf16le(text) && !begins_with_mark(raw.skip(2))
    } else if has_utf8_mark(raw) {
        valid_utf8(raw.skip(3)) && decode_utf8(raw.skip(3)) == text
    } else {
        valid_utf8(raw) && decode_utf8(raw) == text
    }
}

/// A text in UTF-16 is its characters one after another; each takes two bytes, low byte first, or,
/// beyond 0xffff, the two bytes each of a high and a low surrogate.
pub proof fn utf16_is_per_character(a: Seq<char>, b: Seq<char>, c: char)
    ensures
        encode_utf16le(a + b) == encode_utf16le(a) + encode_utf16le(b),
        ({
            let n = c as u32 as int;
            let high = 0xd800 + (n - 0x10000) / 0x400;
            let low = 0xdc00 + (n - 0x10000) % 0x400;
            encode_utf16le(seq![c]) == if n < 0x10000 {
                seq![(n % 0x100) as u8, (n / 0x100) as u8]
            } else {
                seq![
                    (high % 0x100) as u8,
                    (high / 0x100) as u8,
                    (low % 0x100) as u8,
                    (low / 0x100) as u8,
                ]
            }
        }),
    decreases a.len(),
{
    let one = seq![c];
    assert(one.skip(1).len() == 0);
    assert(encode_utf16le(one.skip(1)) == Seq::<u8>::empty());
    assert(encode_utf16le(one) =~= char_utf16le(c));
    if a.len() == 0 {
        assert(a + b =~= b);
        assert(encode_utf16le(a) + encode_utf16le(b) =~= encode_utf16le(b));
    } else {
        utf16_is_per_character(a.skip(1), b, c);
        assert((a + b).skip(1) =~= a.skip(1) + b);
        assert((a + b)[0] == a[0]);
        assert(encode_utf16le(a + b) =~= encode_utf16le(a) + encode_utf16le(b));
    }
}

/// ASCII characters in two bytes each, low byte first, are a text in UTF-16.
pub proof fn wide_ascii_is_utf16(bytes: Seq<u8>)
    requires
        is_wide_ascii(bytes),
    ensures
        encode_utf16le(narrowed(bytes)) == bytes,
        !begins_with_mark(bytes),
    decreases bytes.len(),
{
    if bytes.len() > 0 {
        let text = narrowed(bytes);
        let rest = bytes.skip(2);
        assert(bytes[0] < 0x80);
        assert(bytes[1] == 0);
        assert(text[0] == bytes[0] as char);
        assert(char_utf16le(text[0]) =~= seq![bytes[0], bytes[1]]);
        assert forall|i: int| 0 <= i < rest.len() && i % 2 == 0 implies #[trigger] rest[i] < 0x80 by {
            assert(rest[i] == bytes[i + 2]);
        }
        assert forall|i: int| 0 <= i < rest.len() && i % 2 == 1 implies #[trigger] rest[i] == 0 by {
            assert(rest[i] == bytes[i + 2]);
        }
        wide_ascii_is_utf16(rest);
        assert(text.skip(1) =~= narrowed(rest)) by {
            assert forall|i: int| 0 <= i < narrowed(rest).len() implies text.skip(1)[i] == narrowed(
                rest,
            )[i] by {
                assert(rest[2 * i] == bytes[2 * (i + 1)]);
            }
        }
        assert(bytes =~= seq![bytes[0], bytes[1]] + rest);
    } else {
        assert(narrowed(bytes) =~= seq![]);
        assert(encode_utf16le(narrowed(bytes)) =~= bytes);
    }
}

/// A text that begins with an ASCII character, or is empty, looks in UTF-16 like none that bears a
/// mark.
pub proof fn ascii_start_bears_no_mark(text: Seq<char>)
    requires
        text.len() > 0 ==> (text[0] as u32) < 0x80,
    ensures
        !begins_with_mark(encode_utf16le(text)),
{
    if text.len() > 0 {
        let n = text[0] as u32 as int;
        assert(0 <= n < 0x80);
        assert(char_utf16le(text[0]) == unit_bytes(n));
        assert(n % 0x100 == n);
        assert(encode_utf16le(text)[0] == n as u8);
    }
}

/// A file holds the same text whether that is written as UTF-8, as UTF-8 after a mark or as UTF-16
/// after a mark, unless in UTF-16 the text itself begins like a mark.
pub proof fn encodings_hold_one_text(text: Seq<char>)
    requires
        !begins_with_mark(encode_utf16le(text)),
    ensures
        holds_text(encode_utf8(text), text),
        holds_text(seq![0xefu8, 0xbb, 0xbf] + encode_utf8(text), text),
        holds_text(seq![0xffu8, 0xfe] + encode_utf16le(text), text),
{
    let plain = encode_utf8(text);
    encode_utf8_valid_utf8(text);
    encode_utf8_decode_utf8(text);
    let marked = seq![0xefu8, 0xbb, 0xbf] + plain;
    assert(marked.skip(3) =~= plain);
    let wide = seq![0xffu8, 0xfe] + encode_utf16le(text);
    assert(wide.skip(2) =~= encode_utf16le(text));
    if text.len() > 0 {
        encode_utf8_first_scalar(text);
        if has_utf8_mark(plain) {
            assert(((0xefu8 & 0x0fu8) as u32) << 12 | ((0xbbu8 & 0x3fu8) as u32) << 6 | ((0xbfu8
                & 0x3fu8) as u32) == 0xfeffu32) by (bit_vector);
            assert(text[0] as u32 == 0xfeff);
            assert(char_utf16le(text[0]) =~= seq![0xffu8, 0xfe]);
            assert(encode_utf16le(text)[0] == 0xff && encode_utf16le(text)[1] == 0xfe);
        }
    }
}

/// The bytes, if they are to be decoded from UTF-16, are few enough for the decoder's buffer.
pub open spec fn decodable(raw: Result<Vec<u8>, String>) -> bool {
    raw matches Ok(raw) ==> has_utf16_mark(raw@) ==> raw@.len() <= usize::MAX / 16
}

/// Turns the outcome of reading the file at `path` into its text.
pub fn read_rdp_file(path: &str, raw: Result<Vec<u8>, String>) -> (r: Result<String, String>)
    requires
        decodable(raw),
    ensures
        text_result(r) == file_text(path@, raw),
        raw matches Ok(raw) ==> forall|text: Seq<char>| #[trigger]
            holds_text(raw@, text) ==> text_result(r) == Ok::<Seq<char>, Seq<char>>(text),
        raw matches Err(reason) ==> (r matches Err(e) && e@ == "Cannot read "@ + path@ + ": "@
            + reason@),
        raw matches Ok(raw) ==> {
            let bytes = raw@;
            if bytes.len() >= 2 && bytes[0] == 0xff && bytes[1] == 0xfe {
                r matches Ok(text) && text@ == utf16le_text(bytes.skip(2)) && forall|t: Seq<char>|
                    bytes.skip(2) == #[trigger] encode_utf16le(t) && !begins_with_mark(
                        bytes.skip(2),
                    ) ==> text@ == t
            } else if bytes.len() >= 3 && bytes[0] == 0xef && bytes[1] == 0xbb && bytes[2] == 0xbf {
                match r {
                    Ok(text) => valid_utf8(bytes.skip(3)) && text@ == decode_utf8(bytes.skip(3)),
                    Err(e) => !valid_utf8(bytes.skip(3)) && e@ == "UTF-8 decode error: "@
                        + utf8_fault(bytes.skip(3)),
                }
            } else {
                r matches Ok(text) && text@ == lossy_utf8_text(bytes) && (valid_utf8(bytes)
                    ==> text@ == decode_utf8(bytes))
            }
        },
{
    let raw = match raw {
        Ok(raw) => raw,
        Err(reason) => {
            let mut message = "Cannot read ".to_string();
            message.append(path);
            message.append(": ");
            message.append(reason.as_str());
            return Err(message);
        },
    };
    let n: usize = raw.len();
    if n >= 2 && raw[0] == 0xff && raw[1] == 0xfe {
        let rest = slice_subrange(raw.as_slice(), 2, n);
        assert(rest@ == raw@.skip(2));
        Ok(decode_utf16le(rest))
    } else if n >= 3 && raw[0] == 0xef && raw[1] == 0xbb && raw[2] == 0xbf {
        let rest = slice_subrange(raw.as_slice(), 3, n);
        assert(rest@ == raw@.skip(3));
        match decode_utf8_strictly(vstd::slice::slice_to_vec(rest)) {
            Ok(text) => Ok(text),
            Err(fault) => {
                let mut message = "UTF-8 decode error: ".to_string();
                message.append(fault.as_str());
                Err(message)
            },
        }
    } else {
        Ok(decode_utf8_lossily(raw.as_slice()))
    }
}

} // verus!
