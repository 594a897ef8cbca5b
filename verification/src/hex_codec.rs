//! Hexadecimal notation, and transaction identifiers written in it.
use vstd::prelude::*;

verus! {

/// The UTF-8 form of `text`.
pub open spec fn utf8(text: Seq<char>) -> Seq<u8> {
    vstd::utf8::encode_utf8(text)
}

/// The value of a hexadecimal digit, of either case.
pub open spec fn digit_value(digit: u8) -> Option<nat> {
    if 48 <= digit <= 57 {
        Some((digit - 48) as nat)
    } else if 65 <= digit <= 70 {
        Some((digit - 65 + 10) as nat)
    } else if 97 <= digit <= 102 {
        Some((digit - 97 + 10) as nat)
    } else {
        None
    }
}

/// Whether `text` is an even number of hexadecimal digits.
pub open spec fn is_hex(text: Seq<u8>) -> bool {
    &&& text.len() % 2 == 0
    &&& forall|i: int| 0 <= i < text.len() ==> digit_value(#[trigger] text[i]) is Some
}

/// The bytes that hexadecimal digits stand for, two digits a byte.
pub open spec fn hex_bytes(text: Seq<u8>) -> Seq<u8> {
    Seq::new(
        text.len() / 2,
        |i: int| (16 * digit_value(text[2 * i])->0 + digit_value(text[2 * i + 1])->0) as u8,
    )
}

/// `hex::FromHexError`: why `hex::decode` refused a text.
#[verifier::external_type_specification]
#[verifier::external_body]
pub struct ExFromHexError(hex::FromHexError);

/// `hex_simd::Error`: that `hex_simd::decode_to_vec` refused a text.
#[verifier::external_type_specification]
#[verifier::external_body]
pub struct ExHexSimdError(hex_simd::Error);

/// `hex::decode`: succeeds on an even number of hexadecimal digits of either
/// case, and on nothing else, and gives the bytes that they stand for.
#[verifier::external_body]
fn decode(text: &str) -> (r: Result<Vec<u8>, hex::FromHexError>)
    ensures
        match r {
            Ok(bytes) => is_hex(utf8(text@)) && bytes@ == hex_bytes(utf8(text@)),
            Err(_) => !is_hex(utf8(text@)),
        },
{
    hex::decode(text)
}

/// `hex_simd::decode_to_vec`: succeeds on an even number of hexadecimal digits
/// of either case, and on nothing else, and gives the bytes that they stand for.
#[verifier::external_body]
pub(crate) fn decode_to_vec(text: &str) -> (r: Result<Vec<u8>, hex_simd::Error>)
    ensures
        match r {
            Ok(bytes) => is_hex(utf8(text@)) && bytes@ == hex_bytes(utf8(text@)),
            Err(_) => !is_hex(utf8(text@)),
        },
{
    hex_simd::decode_to_vec(text)
}

/// Whether `text` is hexadecimal and long enough for the first eight bytes of an identifier.
pub open spec fn is_txid(text: Seq<u8>) -> bool {
    is_hex(text) && text.len() >= 16
}

/// The first eight bytes of an identifier.
pub open spec fn short_txid(text: Seq<u8>) -> Seq<u8> {
    hex_bytes(text).take(8)
}

/// Whether `text` is an identifier behind two bytes (usually `0x`) that can be cut off.
pub open spec fn is_prefixed_txid(text: Seq<u8>) -> bool {
    &&& vstd::utf8::is_char_boundary(text, 2)
    &&& is_txid(text.skip(2))
}

/// The first eight bytes of an identifier behind two bytes that are cut off.
pub open spec fn short_prefixed_txid(text: Seq<u8>) -> Seq<u8> {
    short_txid(text.skip(2))
}

/// The first eight bytes of the identifier `text`.
pub fn parse_txid(text: &str) -> (r: Option<[u8; 8]>)
    ensures
        match r {
            Some(txid) => is_txid(utf8(text@)) && txid@ == short_txid(utf8(text@)),
            None => !is_txid(utf8(text@)),
        },
{
    match decode(text) {
        Ok(bytes) => {
            if bytes.len() < 8 {
                return None;
            }
            let txid: [u8; 8] = crate::wire::eight_bytes_at(bytes.as_slice(), 0);
            assert(txid@ =~= short_txid(utf8(text@)));
            Some(txid)
        },
        Err(_) => None,
    }
}

/// The first eight bytes of the identifier that stands in `text` behind two bytes.
pub fn parse_prefixed_txid(text: &str) -> (r: Option<[u8; 8]>)
    ensures
        match r {
            Some(txid) => {
                &&& is_prefixed_txid(utf8(text@))
                &&& txid@ == short_prefixed_txid(utf8(text@))
            },
            None => !is_prefixed_txid(utf8(text@)),
        },
{
    broadcast use vstd::utf8::group_utf8_lib;

    if !text.is_char_boundary(2) {
        return None;
    }
    let (_, digits) = text.split_at(2);
    assert(utf8(digits@) =~= utf8(text@).skip(2));
    parse_txid(digits)
}

/// A character of the ASCII range is its own byte.
pub proof fn lemma_ascii_scalar(c: char)
    requires
        c as u32 <= 0x7f,
    ensures
        vstd::utf8::encode_scalar(c as u32) == seq![c as u8],
{
    let scalar = c as u32;
    assert(scalar & 0x7f == scalar) by (bit_vector)
        requires
            scalar <= 0x7f,
    ;
}

/// A character of the ASCII range in front of a text is one byte in front of the text's bytes.
proof fn lemma_ascii_in_front(first: char, rest: Seq<char>)
    requires
        first as u32 <= 0x7f,
    ensures
        utf8(seq![first] + rest) == seq![first as u8] + utf8(rest),
{
    let whole = seq![first] + rest;
    assert(whole.drop_first() =~= rest);
    lemma_ascii_scalar(first);
}

/// An identifier reads the same with `0x` in front of it, where two bytes are
/// cut off, as without.
pub proof fn law_prefixed_txid(text: Seq<char>)
    ensures
        is_prefixed_txid(utf8("0x"@ + text)) == is_txid(utf8(text)),
        short_prefixed_txid(utf8("0x"@ + text)) == short_txid(utf8(text)),
{
    broadcast use vstd::utf8::group_utf8_lib;

    reveal_strlit("0x");
    let rest = seq!['x'] + text;
    let whole = "0x"@ + text;
    assert(whole =~= seq!['0'] + rest);
    lemma_ascii_in_front('0', rest);
    lemma_ascii_in_front('x', text);
    let bytes = utf8(whole);
    assert(bytes.skip(2) =~= utf8(text));
    assert(vstd::utf8::pop_first_scalar(bytes) =~= utf8(rest));
    assert(vstd::utf8::pop_first_scalar(utf8(rest)) =~= utf8(text));
    assert(vstd::utf8::is_char_boundary(utf8(text), 0));
    assert(vstd::utf8::is_char_boundary(utf8(rest), 1));
    assert(vstd::utf8::is_char_boundary(bytes, 2));
}

/// Text is hexadecimal just when it has an even number of characters, all of
/// them decimal digits or letters up to F, of either case.
pub proof fn law_hexadecimal_text(text: Seq<u8>)
    ensures
        is_hex(text) <==> text.len() % 2 == 0 && forall|i: int|
            0 <= i < text.len() ==> 48 <= #[trigger] text[i] <= 57 || 65 <= text[i] <= 70 || 97
                <= text[i] <= 102,
{
    assert forall|i: int| 0 <= i < text.len() && is_hex(text) implies 48 <= #[trigger] text[i]
        <= 57 || 65 <= text[i] <= 70 || 97 <= text[i] <= 102 by {
        assert(digit_value(text[i]) is Some);
    }
}

/// Hexadecimal text reads as the bytes that it was written for: the upper half
/// of each byte comes first, and the letters may be of either case.
pub proof fn law_hex_read_of_write(bytes: Seq<u8>, text: Seq<u8>)
    requires
        text.len() == 2 * bytes.len(),
        forall|i: int|
            #![trigger bytes[i]]
            0 <= i < bytes.len() ==> {
                let high = bytes[i] / 16;
                let low = bytes[i] % 16;
                &&& if high < 10 {
                    text[2 * i] == 48 + high
                } else {
                    text[2 * i] == 55 + high || text[2 * i] == 87 + high
                }
                &&& if low < 10 {
                    text[2 * i + 1] == 48 + low
                } else {
                    text[2 * i + 1] == 55 + low || text[2 * i + 1] == 87 + low
                }
            },
    ensures
        is_hex(text),
        hex_bytes(text) == bytes,
{
    assert forall|i: int| 0 <= i < text.len() implies digit_value(#[trigger] text[i]) is Some by {
        let byte = bytes[i / 2];
        assert(i == 2 * (i / 2) || i == 2 * (i / 2) + 1);
    }
    assert forall|i: int| 0 <= i < bytes.len() implies hex_bytes(text)[i]
        == #[trigger] bytes[i] by {
        let high = bytes[i] / 16;
        let low = bytes[i] % 16;
        assert(digit_value(text[2 * i]) == Some(high as nat));
        assert(digit_value(text[2 * i + 1]) == Some(low as nat));
        assert(bytes[i] == 16 * high + low);
    }
    assert(hex_bytes(text) =~= bytes);
}

/// Text holds an identifier just when it is hexadecimal and has sixteen digits
/// or more, and the identifier is what the first sixteen stand for.
pub proof fn law_identifier_in_text(text: Seq<u8>, i: int)
    requires
        0 <= i < 8,
    ensures
        is_txid(text) <==> is_hex(text) && text.len() >= 16,
        is_txid(text) ==> short_txid(text).len() == 8 && short_txid(text)[i] == hex_bytes(text)[i],
        is_prefixed_txid(text) <==> vstd::utf8::is_char_boundary(text, 2) && is_hex(text.skip(2))
            && text.skip(2).len() >= 16,
        is_prefixed_txid(text) ==> short_prefixed_txid(text).len() == 8
            && short_prefixed_txid(text)[i] == hex_bytes(text.skip(2))[i],
{
}

/// Text is taken in its usual form in bytes.
pub proof fn law_text_in_bytes(text: Seq<char>)
    ensures
        utf8(text) == vstd::utf8::encode_utf8(text),
{
}

} // verus!
