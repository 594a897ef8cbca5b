//! Big-endian integers and byte comparison.
use vstd::arithmetic::{div_mod, power};
use vstd::prelude::*;

verus! {

/// The number that a big-endian byte string stands for.
pub open spec fn be_value(s: Seq<u8>) -> nat
    decreases s.len(),
{
    if s.len() == 0 {
        0
    } else {
        be_value(s.drop_last()) * 256 + s.last() as nat
    }
}

/// The last `width` base-256 digits of `n`, most significant first.
pub open spec fn be_bytes(n: nat, width: nat) -> Seq<u8>
    decreases width,
{
    if width == 0 {
        Seq::empty()
    } else {
        be_bytes(n / 256, (width - 1) as nat).push((n % 256) as u8)
    }
}

/// 256 to the power of `width`: how many numbers `width` bytes can hold.
pub open spec fn be_limit(width: nat) -> nat
    decreases width,
{
    if width == 0 {
        1
    } else {
        256 * be_limit((width - 1) as nat)
    }
}

pub proof fn lemma_be_limits()
    ensures
        be_limit(1) == 0x100,
        be_limit(2) == 0x1_0000,
        be_limit(4) == 0x1_0000_0000,
        be_limit(8) == 0x1_0000_0000_0000_0000,
{
    reveal_with_fuel(be_limit, 9);
}

pub proof fn lemma_be_bytes_len(n: nat, width: nat)
    ensures
        be_bytes(n, width).len() == width,
    decreases width,
{
    if width > 0 {
        lemma_be_bytes_len(n / 256, (width - 1) as nat);
    }
}

pub proof fn lemma_be_value_bound(s: Seq<u8>)
    ensures
        be_value(s) < be_limit(s.len()),
    decreases s.len(),
{
    if s.len() > 0 {
        lemma_be_value_bound(s.drop_last());
    }
}

/// Reading back a number that fits in `width` bytes gives that number.
pub proof fn law_be_read_of_write(n: nat, width: nat)
    requires
        n < be_limit(width),
    ensures
        be_value(be_bytes(n, width)) == n,
    decreases width,
{
    if width > 0 {
        law_be_read_of_write(n / 256, (width - 1) as nat);
        assert(be_bytes(n, width).drop_last() =~= be_bytes(n / 256, (width - 1) as nat));
    }
}

/// Writing the number that a byte string stands for gives that byte string.
pub proof fn law_be_write_of_read(s: Seq<u8>)
    ensures
        be_bytes(be_value(s), s.len()) =~= s,
    decreases s.len(),
{
    if s.len() > 0 {
        let n = be_value(s);
        law_be_write_of_read(s.drop_last());
        assert(n / 256 == be_value(s.drop_last()));
        assert(n % 256 == s.last() as nat);
        assert(s.drop_last().push(s.last()) =~= s);
    }
}

/// Appends the `width` byte big-endian form of `n` to `out`.
pub(crate) fn push_be(out: &mut Vec<u8>, n: u64, width: usize)
    ensures
        final(out)@ == old(out)@ + be_bytes(n as nat, width as nat),
    decreases width,
{
    if width > 0 {
        push_be(out, n / 256, width - 1);
        out.push((n % 256) as u8);
        assert(out@ =~= old(out)@ + be_bytes(n as nat, width as nat));
    } else {
        assert(out@ =~= old(out)@ + be_bytes(n as nat, 0));
    }
}

/// The number held by the `width` bytes at `pos`.
pub(crate) fn be_at(bytes: &[u8], pos: usize, width: usize) -> (n: u64)
    requires
        width <= 8,
        pos + width <= bytes@.len(),
    ensures
        n == be_value(bytes@.subrange(pos as int, pos + width)),
        n < be_limit(width as nat),
{
    let mut n: u64 = 0;
    let mut i: usize = 0;
    proof {
        lemma_be_limits();
    }
    while i < width
        invariant
            i <= width <= 8,
            pos + width <= bytes.len(),
            n == be_value(bytes@.subrange(pos as int, pos + i)),
            be_limit(8) == 0x1_0000_0000_0000_0000,
        decreases width - i,
    {
        let ghost s = bytes@.subrange(pos as int, pos + i + 1);
        proof {
            assert(s.drop_last() =~= bytes@.subrange(pos as int, pos + i));
            lemma_be_value_bound(s);
            lemma_be_limit_monotone(i as nat + 1, 8);
        }
        n = n * 256 + bytes[pos + i] as u64;
        i = i + 1;
    }
    proof {
        lemma_be_value_bound(bytes@.subrange(pos as int, pos + width));
    }
    n
}

proof fn lemma_be_limit_monotone(a: nat, b: nat)
    requires
        a <= b,
    ensures
        be_limit(a) <= be_limit(b),
    decreases b,
{
    if a < b {
        lemma_be_limit_monotone(a, (b - 1) as nat);
    }
}

/// The eight bytes at `pos`.
pub(crate) fn eight_bytes_at(bytes: &[u8], pos: usize) -> (r: [u8; 8])
    requires
        pos + 8 <= bytes@.len(),
    ensures
        r@ == bytes@.subrange(pos as int, pos + 8),
{
    let r = [
        bytes[pos],
        bytes[pos + 1],
        bytes[pos + 2],
        bytes[pos + 3],
        bytes[pos + 4],
        bytes[pos + 5],
        bytes[pos + 6],
        bytes[pos + 7],
    ];
    assert(r@ =~= bytes@.subrange(pos as int, pos + 8));
    r
}

/// Appends all of `more` to `out`.
pub(crate) fn push_all(out: &mut Vec<u8>, more: &[u8])
    ensures
        final(out)@ == old(out)@ + more@,
{
    let mut i: usize = 0;
    while i < more.len()
        invariant
            i <= more@.len(),
            out@ == old(out)@ + more@.take(i as int),
        decreases more@.len() - i,
    {
        out.push(more[i]);
        i = i + 1;
        assert(out@ =~= old(out)@ + more@.take(i as int));
    }
    assert(more@.take(i as int) =~= more@);
}

/// Whether two byte strings are equal.
pub(crate) fn same_bytes(a: &[u8], b: &[u8]) -> (r: bool)
    ensures
        r == (a@ == b@),
{
    if a.len() != b.len() {
        return false;
    }
    let mut i: usize = 0;
    while i < a.len()
        invariant
            i <= a@.len() == b@.len(),
            a@.take(i as int) =~= b@.take(i as int),
        decreases a@.len() - i,
    {
        if a[i] != b[i] {
            return false;
        }
        i = i + 1;
        assert(a@.take(i as int) =~= a@.take(i - 1).push(a@[i - 1]));
        assert(b@.take(i as int) =~= b@.take(i - 1).push(b@[i - 1]));
    }
    assert(a@ =~= a@.take(i as int));
    assert(b@ =~= b@.take(i as int));
    true
}

/// The first byte counts most: each byte is a digit to the base 256, and the
/// digit in front of `k` others stands for so many times 256 to the power of `k`.
pub proof fn law_be_first_byte_counts_most(s: Seq<u8>)
    ensures
        s.len() == 0 ==> be_value(s) == 0,
        s.len() > 0 ==> be_value(s) == s[0] * power::pow(256, (s.len() - 1) as nat) + be_value(
            s.skip(1),
        ),
    decreases s.len(),
{
    if s.len() == 1 {
        power::lemma_pow0(256);
        assert(be_value(s.drop_last()) == 0);
        assert(be_value(s.skip(1)) == 0);
    } else if s.len() > 1 {
        let front = s.drop_last();
        let weight = power::pow(256, (s.len() - 2) as nat);
        law_be_first_byte_counts_most(front);
        assert(power::pow(256, (s.len() - 1) as nat) == 256 * weight) by {
            reveal(power::pow);
        }
        assert(s.skip(1).drop_last() =~= front.skip(1));
        assert(s[0] * weight * 256 == s[0] * (256 * weight)) by (nonlinear_arith);
        assert(be_value(s) == be_value(front) * 256 + s.last());
    }
}

/// Every byte of the big-endian form of `n` is the digit of `n` for its place.
pub proof fn law_be_bytes_are_digits(n: nat, width: nat, i: int)
    requires
        0 <= i < width,
    ensures
        be_bytes(n, width).len() == width,
        be_bytes(n, width)[i] == (n as int / power::pow(256, (width - 1 - i) as nat)) % 256,
    decreases width,
{
    lemma_be_bytes_len(n, width);
    lemma_be_bytes_len(n / 256, (width - 1) as nat);
    if i == width - 1 {
        power::lemma_pow0(256);
    } else {
        let weight = power::pow(256, (width - 2 - i) as nat);
        law_be_bytes_are_digits(n / 256, (width - 1) as nat, i);
        power::lemma_pow_positive(256, (width - 2 - i) as nat);
        div_mod::lemma_div_denominator(n as int, 256, weight);
        assert(power::pow(256, (width - 1 - i) as nat) == 256 * weight) by {
            reveal(power::pow);
        }
    }
}

/// So many numbers can be held by `width` bytes.
pub proof fn law_be_limit_is_a_power(width: nat)
    ensures
        be_limit(width) == power::pow(256, width),
    decreases width,
{
    reveal(power::pow);
    if width > 0 {
        law_be_limit_is_a_power((width - 1) as nat);
    }
}

} // verus!
