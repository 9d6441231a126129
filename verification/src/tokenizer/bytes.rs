//! The GPT-2 byte alphabet.
//!
//! Byte-level BPE vocabs cannot store raw bytes as token text, because a token
//! has to be valid UTF-8 to live in a JSON or GGUF string. So every byte is
//! mapped to a printable code point: byte 0x20 is stored as U+0120 `Ġ`, which
//! is why tokens in those vocabs look like `Ġhello`.
//!
//! Printable ASCII and most of Latin-1 map to themselves; the remaining 68
//! bytes are assigned to U+0100 upward in byte order.

use vstd::prelude::*;
use vstd::utf8::encode_utf8;

use crate::text;

verus! {

/// Bytes that stand for themselves.
pub open spec fn printable(byte: u8) -> bool {
    0x21 <= byte <= 0x7E || 0xA1 <= byte <= 0xAC || 0xAE <= byte
}

/// How many bytes below `n` do not stand for themselves.
pub open spec fn spill(n: nat) -> nat
    decreases n,
{
    if n == 0 {
        0
    } else {
        spill((n - 1) as nat) + if printable((n - 1) as u8) { 0nat } else { 1nat }
    }
}

/// The code point a byte is stored as.
pub open spec fn code(byte: u8) -> u32 {
    if printable(byte) {
        byte as u32
    } else {
        (256 + spill(byte as nat)) as u32
    }
}

/// The character a byte is stored as.
pub open spec fn stored(byte: u8) -> char {
    code(byte) as char
}

/// The byte that a character stands for.
pub open spec fn meant(ch: char) -> Option<u8> {
    if exists|byte: u8| #[trigger] stored(byte) == ch {
        Some(choose|byte: u8| #[trigger] stored(byte) == ch)
    } else {
        None
    }
}

/// The code points, written out.
spec fn code_by_range(byte: u8) -> u32 {
    if printable(byte) {
        byte as u32
    } else if byte <= 0x20 {
        (256 + byte) as u32
    } else if byte <= 0xA0 {
        (289 + (byte - 0x7F)) as u32
    } else {
        323
    }
}

proof fn lemma_spill(n: nat)
    requires
        n <= 256,
    ensures
        n <= 0x21 ==> spill(n) == n,
        0x21 <= n <= 0x7F ==> spill(n) == 33,
        0x7F <= n <= 0xA1 ==> spill(n) == 33 + (n - 0x7F),
        0xA1 <= n <= 0xAD ==> spill(n) == 67,
        0xAE <= n ==> spill(n) == 68,
    decreases n,
{
    if n > 0 {
        lemma_spill((n - 1) as nat);
    }
}

proof fn lemma_code(byte: u8)
    ensures
        code(byte) == code_by_range(byte),
        code(byte) < 324,
        stored(byte) as u32 == code(byte),
{
    lemma_spill(byte as nat);
}

/// The alphabet, range by range: the visible characters of ASCII and of the next
/// half stand for themselves, the other bytes for the characters from U+0100 on,
/// in order, so that a space is U+0120.
pub proof fn lemma_alphabet(byte: u8)
    ensures
        '!' as u32 <= byte <= '~' as u32 ==> stored(byte) as u32 == byte,
        0xA1 <= byte <= 0xAC ==> stored(byte) as u32 == byte,
        0xAE <= byte ==> stored(byte) as u32 == byte,
        byte <= ' ' as u32 ==> stored(byte) as u32 == 0x100 + byte,
        0x7F <= byte <= 0xA0 ==> stored(byte) as u32 == 0x121 + (byte - 0x7F),
        byte == 0xAD ==> stored(byte) as u32 == 0x143,
{
    lemma_code(byte);
}

/// No two bytes are stored alike.
pub proof fn lemma_stored_injective(a: u8, b: u8)
    requires
        stored(a) == stored(b),
    ensures
        a == b,
{
    lemma_code(a);
    lemma_code(b);
}

/// Every byte is understood again.
pub proof fn lemma_byte_round_trip(byte: u8)
    ensures
        meant(stored(byte)) == Some(byte),
{
    let other = choose|other: u8| #[trigger] stored(other) == stored(byte);
    lemma_stored_injective(other, byte);
}

/// Byte to its stored code point.
pub fn encode_byte(byte: u8) -> (ch: char)
    ensures
        ch == stored(byte),
{
    proof {
        lemma_code(byte);
    }
    let plain: bool = (0x21 <= byte && byte <= 0x7E) || (0xA1 <= byte && byte <= 0xAC) || 0xAE <= byte;
    if plain {
        byte as char
    } else {
        let code: u32 = if byte <= 0x20 {
            256 + byte as u32
        } else if byte <= 0xA0 {
            289 + (byte as u32 - 0x7F)
        } else {
            323
        };
        match char::from_u32(code) {
            Some(ch) => ch,
            None => ' ',
        }
    }
}

/// Stored code point back to the byte, or `None` for a character that is not
/// part of the alphabet at all.
pub fn decode_char(ch: char) -> (byte: Option<u8>)
    ensures
        byte == meant(ch),
{
    let code: u32 = ch as u32;
    let byte: Option<u8> = if (0x21 <= code && code <= 0x7E) || (0xA1 <= code && code <= 0xAC) || (0xAE <= code && code
        <= 0xFF) {
        Some(code as u8)
    } else if 256 <= code && code < 289 {
        Some((code - 256) as u8)
    } else if 289 <= code && code < 323 {
        Some((code - 289 + 0x7F) as u8)
    } else if code == 323 {
        Some(0xAD)
    } else {
        None
    };
    proof {
        match byte {
            Some(b) => {
                lemma_code(b);
                assert(stored(b) == ch);
                lemma_byte_round_trip(b);
            },
            None => {
                assert forall|b: u8| #[trigger] stored(b) != ch by {
                    lemma_code(b);
                }
            },
        }
    }
    byte
}

/// The stored form of bytes.
pub open spec fn stored_form(bytes: Seq<u8>) -> Seq<char> {
    bytes.map_values(|b: u8| stored(b))
}

/// The bytes of one character of a token: the byte it stands for, or its own
/// UTF-8 if it is not of the alphabet.
pub open spec fn bytes_of_char(ch: char) -> Seq<u8> {
    match meant(ch) {
        Some(byte) => seq![byte],
        None => encode_utf8(seq![ch]),
    }
}

/// The bytes of a stored text.
pub open spec fn meant_bytes(text: Seq<char>) -> Seq<u8>
    decreases text.len(),
{
    if text.len() == 0 {
        Seq::empty()
    } else {
        meant_bytes(text.drop_last()) + bytes_of_char(text.last())
    }
}

/// Text to the byte-mapped form a byte-level vocab stores.
pub fn encode_str(text: &str) -> (out: String)
    ensures
        out@ == stored_form(encode_utf8(text@)),
{
    let bytes = text.as_bytes();
    let mut out = String::new();
    let mut i: usize = 0;
    while i < bytes.len()
        invariant
            i <= bytes@.len(),
            out@ == stored_form(bytes@.take(i as int)),
        decreases bytes@.len() - i,
    {
        out.push(encode_byte(bytes[i]));
        proof {
            assert(stored_form(bytes@.take(i + 1)) =~= stored_form(bytes@.take(i as int)).push(
                stored(bytes@[i as int]),
            ));
        }
        i += 1;
    }
    proof {
        assert(bytes@.take(i as int) =~= bytes@);
    }
    out
}

/// Byte-mapped form back to raw bytes. Characters outside the alphabet are
/// passed through as their own UTF-8 encoding, which is what makes decoding a
/// vocab that mixes byte tokens and literal special tokens work.
pub fn decode_str(text: &str) -> (out: Vec<u8>)
    ensures
        out@ == meant_bytes(text@),
{
    let chars = text::to_chars(text);
    let mut out: Vec<u8> = Vec::new();
    let mut i: usize = 0;
    while i < chars.len()
        invariant
            chars@ == text@,
            i <= chars@.len(),
            out@ == meant_bytes(chars@.take(i as int)),
        decreases chars@.len() - i,
    {
        let ch = chars[i];
        let ghost before = out@;
        match decode_char(ch) {
            Some(byte) => out.push(byte),
            None => {
                let mut alone = String::new();
                alone.push(ch);
                proof {
                    assert(alone@ =~= seq![ch]);
                }
                out.extend_from_slice(alone.as_str().as_bytes());
            },
        }
        proof {
            assert(out@ =~= before + bytes_of_char(ch));
            let next = chars@.take(i + 1);
            assert(next.drop_last() =~= chars@.take(i as int));
            assert(next.last() == ch);
        }
        i += 1;
    }
    proof {
        assert(chars@.take(i as int) =~= chars@);
    }
    out
}

/// Bytes that were stored are understood again.
pub proof fn lemma_bytes_round_trip(bytes: Seq<u8>)
    ensures
        meant_bytes(stored_form(bytes)) == bytes,
    decreases bytes.len(),
{
    let form = stored_form(bytes);
    if bytes.len() > 0 {
        lemma_bytes_round_trip(bytes.drop_last());
        lemma_byte_round_trip(bytes.last());
        assert(form.drop_last() =~= stored_form(bytes.drop_last()));
        assert(meant_bytes(form) =~= bytes);
    } else {
        assert(meant_bytes(form) =~= bytes);
    }
}

/// Decoding what was encoded gives the text's own bytes.
pub proof fn lemma_text_round_trip(text: Seq<char>)
    ensures
        meant_bytes(stored_form(encode_utf8(text))) == encode_utf8(text),
{
    lemma_bytes_round_trip(encode_utf8(text));
}

/// Decoding goes piece by piece.
pub proof fn lemma_meant_bytes_concat(a: Seq<char>, b: Seq<char>)
    ensures
        meant_bytes(a + b) == meant_bytes(a) + meant_bytes(b),
    decreases b.len(),
{
    if b.len() == 0 {
        assert(a + b =~= a);
        assert(meant_bytes(a) + meant_bytes(b) =~= meant_bytes(a));
    } else {
        assert((a + b).drop_last() =~= a + b.drop_last());
        lemma_meant_bytes_concat(a, b.drop_last());
        assert(meant_bytes(a + b) =~= meant_bytes(a) + meant_bytes(b));
    }
}

} // verus!
