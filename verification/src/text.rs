//! Decimal notation, and text cut at byte positions.
use crate::hex_codec;
use vstd::arithmetic::{div_mod, power};
use vstd::prelude::*;
use vstd::string::*;

verus! {

/// The decimal digit `n`.
pub open spec fn digit(n: nat) -> char {
    (48 + n) as char
}

/// `n` in decimal notation, without leading zeros.
pub open spec fn decimal(n: nat) -> Seq<char>
    decreases n,
{
    if n < 10 {
        seq![digit(n)]
    } else {
        decimal(n / 10).push(digit(n % 10))
    }
}

fn digit_text(n: u32) -> (r: &'static str)
    requires
        n < 10,
    ensures
        r@ == seq![digit(n as nat)],
{
    proof {
        reveal_strlit("0");
        reveal_strlit("1");
        reveal_strlit("2");
        reveal_strlit("3");
        reveal_strlit("4");
        reveal_strlit("5");
        reveal_strlit("6");
        reveal_strlit("7");
        reveal_strlit("8");
        reveal_strlit("9");
    }
    let r: &'static str = match n {
        0 => "0",
        1 => "1",
        2 => "2",
        3 => "3",
        4 => "4",
        5 => "5",
        6 => "6",
        7 => "7",
        8 => "8",
        _ => "9",
    };
    assert(r@ =~= seq![digit(n as nat)]);
    r
}

/// Appends `n` in decimal notation to `out`.
pub(crate) fn push_decimal(out: &mut String, n: u32)
    ensures
        final(out)@ == old(out)@ + decimal(n as nat),
    decreases n,
{
    if n < 10 {
        out.append(digit_text(n));
    } else {
        push_decimal(out, n / 10);
        out.append(digit_text(n % 10));
        assert(out@ =~= old(out)@ + decimal(n as nat));
    }
}

/// Whether two bytes can be cut off at the end of `text`.
pub open spec fn can_cut(text: Seq<char>) -> bool {
    let bytes = hex_codec::utf8(text);
    bytes.len() >= 2 && vstd::utf8::is_char_boundary(bytes, bytes.len() - 2)
}

/// `text` without its last two bytes.
pub open spec fn cut(text: Seq<char>) -> Seq<char> {
    let bytes = hex_codec::utf8(text);
    vstd::utf8::decode_utf8(bytes.take(bytes.len() - 2))
}

/// `text` without its last two bytes, if they can be cut off.
pub(crate) fn without_last_two_bytes(text: &str) -> (r: Option<&str>)
    ensures
        match r {
            Some(front) => can_cut(text@) && front@ == cut(text@),
            None => !can_cut(text@),
        },
{
    broadcast use vstd::utf8::group_utf8_lib;

    let bytes = text.as_bytes();
    let len: usize = bytes.len();
    if len < 2 || !text.is_char_boundary(len - 2) {
        return None;
    }
    let (front, _) = text.split_at(len - 2);
    assert(hex_codec::utf8(front@) =~= hex_codec::utf8(text@).take(len - 2));
    Some(front)
}

proof fn lemma_utf8_push_ascii(text: Seq<char>, last: char)
    requires
        last as u32 <= 0x7f,
    ensures
        hex_codec::utf8(text.push(last)) == hex_codec::utf8(text).push(last as u8),
    decreases text.len(),
{
    let whole = text.push(last);
    if text.len() == 0 {
        assert(hex_codec::utf8(text) =~= Seq::empty());
        assert(whole.drop_first() =~= text);
        hex_codec::lemma_ascii_scalar(last);
        assert(hex_codec::utf8(whole) =~= hex_codec::utf8(text).push(last as u8));
    } else {
        lemma_utf8_push_ascii(text.drop_first(), last);
        assert(whole.drop_first() =~= text.drop_first().push(last));
        assert(hex_codec::utf8(whole) =~= hex_codec::utf8(text).push(last as u8));
    }
}

/// Where the last two characters are in the ASCII range, they are what is cut off.
pub proof fn law_cut_takes_two_characters(front: Seq<char>, a: char, b: char)
    requires
        a as u32 <= 0x7f,
        b as u32 <= 0x7f,
    ensures
        can_cut(front.push(a).push(b)),
        cut(front.push(a).push(b)) == front,
{
    broadcast use vstd::utf8::group_utf8_lib;

    lemma_utf8_push_ascii(front, a);
    lemma_utf8_push_ascii(front.push(a), b);
    let bytes = hex_codec::utf8(front.push(a).push(b));
    let at = bytes.len() - 2;
    assert(bytes[at] == a as u8);
    vstd::utf8::encode_utf8_valid_utf8(front.push(a).push(b));
    vstd::utf8::is_char_boundary_iff_not_is_continuation_byte(bytes, at);
    assert(bytes.take(at) =~= hex_codec::utf8(front));
    vstd::utf8::encode_utf8_decode_utf8(front);
}

/// The digits of a decimal number stand for it, place by place, and there are
/// no more of them than it takes.
pub proof fn law_decimal_digits(n: nat, i: int)
    requires
        0 <= i < decimal(n).len(),
    ensures
        decimal(n)[i] as int == 48 + (n as int / power::pow(
            10,
            (decimal(n).len() - 1 - i) as nat,
        )) % 10,
        n < power::pow(10, decimal(n).len()),
        n >= 10 ==> power::pow(10, (decimal(n).len() - 1) as nat) <= n,
        n < 10 ==> decimal(n).len() == 1,
    decreases n,
{
    let len = decimal(n).len();
    if n < 10 {
        power::lemma_pow0(10);
        reveal(power::pow);
    } else {
        let front = decimal(n / 10);
        lemma_decimal_len(n / 10);
        law_decimal_digits(n / 10, if i < len - 1 {
            i
        } else {
            0
        });
        assert(power::pow(10, len) == 10 * power::pow(10, (len - 1) as nat)) by {
            reveal(power::pow);
        }
        if n / 10 >= 10 {
            assert(power::pow(10, (len - 1) as nat) == 10 * power::pow(10, (len - 2) as nat)) by {
                reveal(power::pow);
            }
        } else {
            power::lemma_pow0(10);
            reveal(power::pow);
        }
        if i == len - 1 {
            power::lemma_pow0(10);
        } else {
            let weight = power::pow(10, (len - 2 - i) as nat);
            power::lemma_pow_positive(10, (len - 2 - i) as nat);
            div_mod::lemma_div_denominator(n as int, 10, weight);
            assert(power::pow(10, (len - 1 - i) as nat) == 10 * weight) by {
                reveal(power::pow);
            }
        }
    }
}

proof fn lemma_decimal_len(n: nat)
    ensures
        decimal(n).len() >= 1,
    decreases n,
{
    if n >= 10 {
        lemma_decimal_len(n / 10);
    }
}

proof fn lemma_utf8_concat(front: Seq<char>, tail: Seq<char>)
    ensures
        hex_codec::utf8(front + tail) == hex_codec::utf8(front) + hex_codec::utf8(tail),
    decreases front.len(),
{
    let whole = front + tail;
    if front.len() == 0 {
        assert(whole =~= tail);
        assert(hex_codec::utf8(front) =~= Seq::empty());
        assert(hex_codec::utf8(whole) =~= hex_codec::utf8(front) + hex_codec::utf8(tail));
    } else {
        lemma_utf8_concat(front.drop_first(), tail);
        assert(whole.drop_first() =~= front.drop_first() + tail);
        assert(hex_codec::utf8(whole) =~= hex_codec::utf8(front) + hex_codec::utf8(tail));
    }
}

/// Whatever characters take up the last two bytes, they are what is cut off.
pub proof fn law_cut_takes_two_bytes(front: Seq<char>, tail: Seq<char>)
    requires
        vstd::utf8::encode_utf8(tail).len() == 2,
    ensures
        can_cut(front + tail),
        cut(front + tail) == front,
{
    broadcast use vstd::utf8::group_utf8_lib;

    let bytes = hex_codec::utf8(front + tail);
    let at = bytes.len() - 2;
    lemma_utf8_concat(front, tail);
    vstd::utf8::encode_utf8_valid_utf8(front + tail);
    vstd::utf8::encode_utf8_valid_utf8(tail);
    vstd::utf8::is_char_boundary_iff_not_is_continuation_byte(bytes, at);
    vstd::utf8::is_char_boundary_iff_not_is_continuation_byte(hex_codec::utf8(tail), 0);
    assert(bytes[at] == hex_codec::utf8(tail)[0]);
    assert(bytes.take(at) =~= hex_codec::utf8(front));
    vstd::utf8::encode_utf8_decode_utf8(front);
}

/// Where two bytes can be cut off, they are the end of the text, and what is
/// left is the rest.
pub proof fn law_cut_leaves_the_front(text: Seq<char>)
    requires
        can_cut(text),
    ensures
        exists|tail: Seq<char>|
            #![trigger vstd::utf8::encode_utf8(tail)]
            vstd::utf8::encode_utf8(tail).len() == 2 && text == cut(text) + tail,
{
    broadcast use vstd::utf8::group_utf8_lib;

    let bytes = hex_codec::utf8(text);
    let at = bytes.len() - 2;
    vstd::utf8::encode_utf8_valid_utf8(text);
    vstd::utf8::encode_utf8_decode_utf8(text);
    vstd::utf8::valid_utf8_split(bytes, at);
    vstd::utf8::decode_utf8_split(bytes, at);
    let back = bytes.skip(at);
    assert(back =~= bytes.subrange(at, bytes.len() as int));
    assert(bytes.take(at) =~= bytes.subrange(0, at));
    let tail = vstd::utf8::decode_utf8(back);
    vstd::utf8::decode_utf8_encode_utf8(back);
    assert(vstd::utf8::encode_utf8(tail).len() == 2);
    assert(text =~= cut(text) + tail);
}

} // verus!
