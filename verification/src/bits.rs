//! Keys as bit strings: prefixes, single bits, and the length of the prefix
//! that two keys share. A key has 128 bits; bit 0 is the most significant.

use vstd::arithmetic::div_mod::lemma_div_denominator;
use vstd::arithmetic::power2::{
    lemma2_to64, lemma2_to64_rest, lemma_pow2_adds, lemma_pow2_pos, lemma_pow2_unfold, pow2,
};
use vstd::bits::lemma_u128_shr_is_div;
use vstd::prelude::*;

verus! {

/// The first `len` bits of `key`, read as a number.
pub open spec fn key_prefix(key: u128, len: nat) -> u128
    decreases 128 - len,
{
    if len >= 128 {
        key
    } else {
        key_prefix(key, len + 1) / 2
    }
}

/// Bit `i` of `key`, counted from the most significant bit.
pub open spec fn key_bit(key: u128, i: nat) -> bool {
    key_prefix(key, i + 1) % 2 == 1
}

/// The number of bits needed to write `x`: zero for zero, else one more than
/// the position of the highest set bit.
pub open spec fn bit_width(x: u128) -> nat
    decreases x,
{
    if x == 0 {
        0
    } else {
        1 + bit_width(x / 2)
    }
}

/// The number of leading bits that `a` and `b` have in common.
pub open spec fn shared_prefix_len(a: u128, b: u128) -> nat {
    (128 - bit_width(a ^ b)) as nat
}

/// `u128::leading_zeros` of std, taken on trust: it returns the number of
/// zero bits above the highest set bit, which is 128 less the number of bits
/// needed to write the value (128 for zero).
pub assume_specification[ u128::leading_zeros ](x: u128) -> (r: u32)
    ensures
        r == 128 - bit_width(x),
;

/// The number of leading bits that two keys have in common.
pub fn shared_prefix(a: u128, b: u128) -> (len: u32)
    ensures
        len == shared_prefix_len(a, b),
        len <= 128,
{
    (a ^ b).leading_zeros()
}

/// Bit `pos` of `key`, counted from the most significant bit.
pub fn crit_bit(key: u128, pos: u32) -> (bit: bool)
    requires
        pos < 128,
    ensures
        bit == key_bit(key, pos as nat),
{
    let shift: u32 = 127 - pos;
    let crit_bit_mask: u128 = 1u128 << shift;
    proof {
        let n = shift as u128;
        lemma_shift_is_prefix(key, n);
        assert((key & (1u128 << n)) != 0 <==> (key >> n) % 2 == 1) by (bit_vector)
            requires
                n < 128,
        ;
        assert(1u128 << shift == 1u128 << n) by (bit_vector)
            requires
                n == shift,
        ;
    }
    (key & crit_bit_mask) != 0
}

/// The prefix of `len + 1` bits is the prefix of `len` bits followed by
/// bit `len`.
pub proof fn lemma_prefix_step(key: u128, len: nat)
    requires
        len < 128,
    ensures
        key_prefix(key, len + 1) == 2 * key_prefix(key, len) + (if key_bit(key, len) {
            1int
        } else {
            0int
        }),
{
}

/// Keys that agree on `len` bits agree on every shorter prefix.
pub proof fn lemma_prefix_shorter(a: u128, b: u128, len: nat, shorter: nat)
    requires
        shorter <= len,
        key_prefix(a, len) == key_prefix(b, len),
    ensures
        key_prefix(a, shorter) == key_prefix(b, shorter),
    decreases len - shorter,
{
    if shorter < len {
        lemma_prefix_shorter(a, b, len, shorter + 1);
    }
}

/// Keys that agree on `len` bits agree on each of those bits.
pub proof fn lemma_prefix_bits(a: u128, b: u128, len: nat, i: nat)
    requires
        i < len,
        key_prefix(a, len) == key_prefix(b, len),
    ensures
        key_bit(a, i) == key_bit(b, i),
{
    lemma_prefix_shorter(a, b, len, i + 1);
}

/// Prefixes order keys: a smaller prefix means a smaller key.
pub proof fn lemma_prefix_orders(a: u128, b: u128, len: nat)
    requires
        key_prefix(a, len) < key_prefix(b, len),
    ensures
        a < b,
    decreases 128 - len,
{
    if len < 128 {
        lemma_prefix_orders(a, b, len + 1);
    }
}

/// A smaller prefix stays smaller when both prefixes are made longer.
pub proof fn lemma_prefix_order_extends(a: u128, b: u128, len: nat, longer: nat)
    requires
        len <= longer,
        key_prefix(a, len) < key_prefix(b, len),
    ensures
        key_prefix(a, longer) < key_prefix(b, longer),
    decreases longer - len,
{
    if len < longer {
        lemma_prefix_order_extends(a, b, len + 1, longer);
    }
}

/// The empty prefix of every key is zero.
pub proof fn lemma_prefix_empty(key: u128)
    ensures
        key_prefix(key, 0) == 0,
{
    lemma_prefix_width(key, 0);
    lemma_width_bound(key);
}

/// No key needs more than 128 bits.
pub proof fn lemma_width_bound(x: u128)
    ensures
        bit_width(x) <= 128,
{
    assert(pow2(128) == 0x1_0000_0000_0000_0000_0000_0000_0000_0000) by {
        lemma2_to64_rest();
        lemma_pow2_adds(64, 64);
    }
    lemma_width_below(x, 128);
}

/// A number below 2^n needs at most n bits.
proof fn lemma_width_below(x: u128, n: nat)
    requires
        x < pow2(n),
    ensures
        bit_width(x) <= n,
    decreases n,
{
    if x != 0 {
        if n == 0 {
            lemma2_to64();
        } else {
            lemma_pow2_unfold(n);
            lemma_width_below(x / 2, (n - 1) as nat);
        }
    }
}

/// The width of a prefix: what is left of the key's width after the low
/// `128 - len` bits are dropped.
pub proof fn lemma_prefix_width(key: u128, len: nat)
    requires
        len <= 128,
    ensures
        bit_width(key_prefix(key, len)) == if bit_width(key) >= 128 - len {
            bit_width(key) - (128 - len)
        } else {
            0
        },
    decreases 128 - len,
{
    if len < 128 {
        lemma_prefix_width(key, len + 1);
    }
}

/// The prefix of an exclusive or is the exclusive or of the prefixes.
pub proof fn lemma_prefix_xor(a: u128, b: u128, len: nat)
    ensures
        key_prefix(a ^ b, len) == key_prefix(a, len) ^ key_prefix(b, len),
    decreases 128 - len,
{
    if len < 128 {
        lemma_prefix_xor(a, b, len + 1);
        let p = key_prefix(a, len + 1);
        let q = key_prefix(b, len + 1);
        assert((p ^ q) / 2 == (p / 2) ^ (q / 2)) by (bit_vector);
    }
}

/// What the shared prefix length says of two keys: they agree on that many
/// bits, and differ in the next bit unless they are equal.
pub proof fn lemma_shared_prefix(a: u128, b: u128)
    ensures
        shared_prefix_len(a, b) <= 128,
        key_prefix(a, shared_prefix_len(a, b)) == key_prefix(b, shared_prefix_len(a, b)),
        shared_prefix_len(a, b) < 128 ==> key_bit(a, shared_prefix_len(a, b)) != key_bit(
            b,
            shared_prefix_len(a, b),
        ),
        shared_prefix_len(a, b) == 128 <==> a == b,
{
    let x = a ^ b;
    let s = shared_prefix_len(a, b);
    lemma_width_bound(x);
    lemma_prefix_width(x, s);
    lemma_prefix_xor(a, b, s);
    let p = key_prefix(a, s);
    let q = key_prefix(b, s);
    assert(p ^ q == 0 ==> p == q) by (bit_vector);
    if s < 128 {
        lemma_prefix_width(x, s + 1);
        lemma_prefix_xor(a, b, s + 1);
        let p1 = key_prefix(a, s + 1);
        let q1 = key_prefix(b, s + 1);
        assert(p1 ^ q1 == 1 ==> p1 % 2 != q1 % 2) by (bit_vector);
        assert(a != b) by {
            if a == b {
                assert(a ^ a == 0) by (bit_vector);
            }
        }
    } else {
        assert(a ^ b == 0 ==> a == b) by (bit_vector);
    }
}

/// Keys that agree on `len` bits share a prefix of at least that length.
pub proof fn lemma_shared_prefix_at_least(a: u128, b: u128, len: nat)
    requires
        len <= 128,
        key_prefix(a, len) == key_prefix(b, len),
    ensures
        shared_prefix_len(a, b) >= len,
{
    let s = shared_prefix_len(a, b);
    lemma_shared_prefix(a, b);
    if s < len {
        lemma_prefix_bits(a, b, len, s);
    }
}

/// The prefix of `128 - n` bits is the key divided by 2^n.
proof fn lemma_prefix_is_quotient(key: u128, n: nat)
    requires
        n <= 128,
    ensures
        key_prefix(key, (128 - n) as nat) == key as nat / pow2(n),
    decreases n,
{
    if n == 0 {
        lemma2_to64();
    } else {
        let m = (n - 1) as nat;
        lemma_prefix_is_quotient(key, m);
        lemma_pow2_unfold(n);
        lemma_pow2_pos(m);
        lemma_div_denominator(key as int, pow2(m) as int, 2);
    }
}

/// A right shift keeps the leading bits: `key >> n` is the prefix of
/// `128 - n` bits.
pub proof fn lemma_shift_is_prefix(key: u128, n: u128)
    requires
        n < 128,
    ensures
        key >> n == key_prefix(key, (128 - n) as nat),
{
    lemma_u128_shr_is_div(key, n);
    lemma_prefix_is_quotient(key, n as nat);
}

} // verus!
