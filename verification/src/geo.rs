use vstd::prelude::*;

use crate::errors::GeoCacheError;
use crate::text::push_char;
use vstd::string::StringSliceAdditionalSpecFns;
use vstd::utf8::{encode_utf8, is_ascii_chars, is_ascii_chars_encode_utf8};

verus! {

/// An ASCII letter, `A..=Z` or `a..=z`.
pub open spec fn is_ascii_letter(b: u8) -> bool {
    (0x41 <= b && b <= 0x5A) || (0x61 <= b && b <= 0x7A)
}

/// The two bytes of a language code packed big-endian into a `u16`.
pub open spec fn pack_lang(b1: u8, b2: u8) -> u16 {
    (b1 as int * 256 + b2 as int) as u16
}

/// The high (first) byte of a packed language code.
pub open spec fn lang_high(code: u16) -> u8 {
    (code as int / 256) as u8
}

/// The low (second) byte of a packed language code.
pub open spec fn lang_low(code: u16) -> u8 {
    (code as int % 256) as u8
}

/// A packed code whose two bytes are both ASCII letters.
pub open spec fn is_lang_code(code: u16) -> bool {
    is_ascii_letter(lang_high(code)) && is_ascii_letter(lang_low(code))
}

/// The upper-case hexadecimal digit of `d`, for `0 <= d < 16`.
pub open spec fn hex_digit(d: int) -> char {
    if d < 10 {
        (48 + d) as char
    } else {
        (55 + d) as char
    }
}

/// `code` written as `0x` followed by four upper-case hexadecimal digits.
pub open spec fn hex_text(code: u16) -> Seq<char> {
    seq![
        '0',
        'x',
        hex_digit(code as int / 4096),
        hex_digit((code as int / 256) % 16),
        hex_digit((code as int / 16) % 16),
        hex_digit(code as int % 16),
    ]
}

fn is_letter(b: u8) -> (r: bool)
    ensures
        r == is_ascii_letter(b),
{
    (0x41 <= b && b <= 0x5A) || (0x61 <= b && b <= 0x7A)
}

fn hex_char(d: u16) -> (c: char)
    requires
        d < 16,
    ensures
        c == hex_digit(d as int),
{
    if d < 10 {
        ((d as u8) + 48) as char
    } else {
        ((d as u8) + 55) as char
    }
}

/// Packs a two-letter language code into a `u16`, first byte high.
///
/// A code that is not two bytes long is rejected with
/// `CountryCodeWrongLength`; two bytes that are not both ASCII letters are
/// rejected with `InvalidCountryCode`, which carries the code itself.
pub fn convert_lang_to_u16(lang: &str) -> (r: Result<u16, GeoCacheError>)
    ensures
        ({
            let b = lang.spec_bytes();
            match r {
                Ok(code) => b.len() == 2 && is_ascii_letter(b[0]) && is_ascii_letter(b[1]) && code
                    == pack_lang(b[0], b[1]),
                Err(GeoCacheError::InvalidCountryCode { code }) => b.len() == 2 && !(
                is_ascii_letter(b[0]) && is_ascii_letter(b[1])) && code@ == lang@,
                Err(GeoCacheError::CountryCodeWrongLength { len }) => b.len() != 2 && len == b.len(),
                Err(_) => false,
            }
        }),
{
    let bytes = lang.as_bytes();
    if bytes.len() == 2 {
        let b1 = bytes[0];
        let b2 = bytes[1];
        if is_letter(b1) && is_letter(b2) {
            Ok((b1 as u16) * 256 + (b2 as u16))
        } else {
            Err(GeoCacheError::InvalidCountryCode { code: lang.to_owned() })
        }
    } else {
        Err(GeoCacheError::CountryCodeWrongLength { len: bytes.len() })
    }
}

/// Unpacks a `u16` into its two-letter language code, the inverse of
/// [`convert_lang_to_u16`].
///
/// A code whose bytes are not both ASCII letters is rejected with
/// `InvalidCountryCode`, which carries the code in hexadecimal (`0x0041`).
pub fn convert_u16_to_lang(code: u16) -> (r: Result<String, GeoCacheError>)
    ensures
        match r {
            Ok(s) => is_lang_code(code) && s@ == seq![lang_high(code) as char, lang_low(code) as char],
            Err(GeoCacheError::InvalidCountryCode { code: text }) => !is_lang_code(code) && text@
                == hex_text(code),
            Err(_) => false,
        },
{
    let b1 = (code / 256) as u8;
    let b2 = (code % 256) as u8;
    if !is_letter(b1) || !is_letter(b2) {
        let mut text = String::new();
        push_char(&mut text, '0');
        push_char(&mut text, 'x');
        push_char(&mut text, hex_char(code / 4096));
        push_char(&mut text, hex_char((code / 256) % 16));
        push_char(&mut text, hex_char((code / 16) % 16));
        push_char(&mut text, hex_char(code % 16));
        assert(text@ =~= hex_text(code));
        return Err(GeoCacheError::InvalidCountryCode { code: text });
    }
    let mut s = String::new();
    push_char(&mut s, b1 as char);
    push_char(&mut s, b2 as char);
    assert(s@ =~= seq![lang_high(code) as char, lang_low(code) as char]);
    Ok(s)
}

/// `convert_u16_to_lang` inverts `convert_lang_to_u16`: a code packed from
/// two letters unpacks into them, and the text of the two letters is, byte
/// for byte, the language code that was packed.
pub proof fn lemma_lang_round_trip(b0: u8, b1: u8)
    requires
        is_ascii_letter(b0),
        is_ascii_letter(b1),
    ensures
        is_lang_code(pack_lang(b0, b1)),
        lang_high(pack_lang(b0, b1)) == b0,
        lang_low(pack_lang(b0, b1)) == b1,
        encode_utf8(seq![b0 as char, b1 as char]) == seq![b0, b1],
{
    let t = seq![b0 as char, b1 as char];
    assert(is_ascii_chars(t));
    is_ascii_chars_encode_utf8(t);
    assert(encode_utf8(t) =~= seq![b0, b1]);
}

/// `convert_lang_to_u16` inverts `convert_u16_to_lang`: a code whose bytes
/// are letters packs back from them.
pub proof fn lemma_lang_unpack_pack(code: u16)
    requires
        is_lang_code(code),
    ensures
        pack_lang(lang_high(code), lang_low(code)) == code,
{
}

} // verus!
