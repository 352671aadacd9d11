//! Bit sequences and the numbers they spell.

use vstd::arithmetic::div_mod::*;
use vstd::arithmetic::mul::*;
use vstd::arithmetic::power2::*;
use vstd::prelude::*;

verus! {

/// The number that `bits` spells when its first bit is the most significant one.
pub open spec fn be_value(bits: Seq<bool>) -> nat
    decreases bits.len(),
{
    if bits.len() == 0 {
        0
    } else {
        2 * be_value(bits.drop_last()) + if bits.last() {
            1nat
        } else {
            0nat
        }
    }
}

/// The number that `bits` spells when its first bit is the least significant one.
pub open spec fn le_value(bits: Seq<bool>) -> nat {
    be_value(bits.reverse())
}

/// Bit `position` of `n`, counted from the least significant one.
pub open spec fn bit_of(n: nat, position: nat) -> bool {
    (n / pow2(position)) % 2 == 1
}

/// The `width` low bits of `n`, least significant first.
pub open spec fn low_bits(n: nat, width: nat) -> Seq<bool> {
    Seq::new(width, |j: int| bit_of(n, j as nat))
}

/// How many zero bits bring `len` bits up to a multiple of `window`.
pub open spec fn padding(len: nat, window: nat) -> nat {
    ((window - len % window) % (window as int)) as nat
}

/// The number of windows of `window` bits that `len` bits need.
pub open spec fn window_count(len: nat, window: nat) -> nat {
    (len + padding(len, window)) / window
}

/// `1 + 2^w + 2^(2w) + ... + 2^((count - 1) w)`: how often a value that is added once per
/// window is counted after `count` windows, each of them shifting by `window` bits.
pub open spec fn repunit(window: nat, count: nat) -> nat
    decreases count,
{
    if count == 0 {
        0
    } else {
        repunit(window, (count - 1) as nat) * pow2(window) + 1
    }
}

pub proof fn lemma_padding(len: nat, window: nat)
    requires
        window > 0,
    ensures
        padding(len, window) < window,
        (len + padding(len, window)) % window == 0,
        len % window == 0 ==> padding(len, window) == 0,
        window_count(len, window) * window == len + padding(len, window),
        len > 0 ==> window_count(len, window) >= 1,
        len > window ==> window_count(len, window) >= 2,
{
    let w = window as int;
    let r = len as int % w;
    let p = padding(len, window) as int;
    lemma_fundamental_div_mod(len as int, w);
    if r == 0 {
        lemma_mod_self_0(w);
        assert(p == 0);
    } else {
        lemma_small_mod((w - r) as nat, window);
        assert(p == w - r);
        // len + p == w * (len / w) + w
        assert(len + p == w * (len as int / w + 1)) by (nonlinear_arith)
            requires
                len == w * (len as int / w) + r,
                p == w - r,
        ;
        lemma_mod_multiples_basic(len as int / w + 1, w);
        assert(w * (len as int / w + 1) == (len as int / w + 1) * w) by (nonlinear_arith);
    }
    let total = len as int + p;
    lemma_fundamental_div_mod(total, w);
    assert(window_count(len, window) * window == total) by (nonlinear_arith)
        requires
            total == w * (total / w) + total % w,
            total % w == 0,
            window_count(len, window) == total / w,
            w == window,
            total >= 0,
            w > 0,
    ;
    let m = window_count(len, window) as int;
    if len > 0 {
        assert(m >= 1) by (nonlinear_arith)
            requires
                m * w == total,
                total > 0,
                w > 0,
                m >= 0,
        ;
    }
    if len > window {
        assert(m >= 2) by (nonlinear_arith)
            requires
                m * w == total,
                total > w,
                w > 0,
                m >= 0,
        ;
    }
}

pub proof fn lemma_be_value_bound(bits: Seq<bool>)
    ensures
        be_value(bits) < pow2(bits.len()),
    decreases bits.len(),
{
    if bits.len() == 0 {
        lemma2_to64();
    } else {
        lemma_be_value_bound(bits.drop_last());
        lemma_pow2_unfold(bits.len());
    }
}

/// Appending bits at the least significant end shifts what was there.
pub proof fn lemma_be_value_concat(high: Seq<bool>, low: Seq<bool>)
    ensures
        be_value(high + low) == be_value(high) * pow2(low.len()) + be_value(low),
    decreases low.len(),
{
    if low.len() == 0 {
        assert(high + low =~= high);
        lemma2_to64();
    } else {
        let rest = low.drop_last();
        assert((high + low).drop_last() =~= high + rest);
        assert((high + low).last() == low.last());
        lemma_be_value_concat(high, rest);
        lemma_pow2_unfold(low.len());
        let h = be_value(high) as int;
        let p = pow2(rest.len()) as int;
        assert(2 * (h * p + be_value(rest)) == h * (2 * p) + 2 * be_value(rest))
            by (nonlinear_arith);
    }
}

/// Zero bits in front change nothing.
pub proof fn lemma_be_value_leading_zeros(count: nat, bits: Seq<bool>)
    ensures
        be_value(Seq::new(count, |i: int| false) + bits) == be_value(bits),
{
    let zeros = Seq::new(count, |i: int| false);
    lemma_be_value_zeros(count);
    lemma_be_value_concat(zeros, bits);
    assert(0 * pow2(bits.len()) == 0);
}

pub proof fn lemma_be_value_zeros(count: nat)
    ensures
        be_value(Seq::new(count, |i: int| false)) == 0,
    decreases count,
{
    if count > 0 {
        let zeros = Seq::new(count, |i: int| false);
        assert(zeros.drop_last() =~= Seq::new((count - 1) as nat, |i: int| false));
        lemma_be_value_zeros((count - 1) as nat);
    }
}

/// The low bits of a number spell the number, reduced to their width.
pub proof fn lemma_low_bits_value(n: nat, width: nat)
    ensures
        le_value(low_bits(n, width)) == n % pow2(width),
        n < pow2(width) ==> le_value(low_bits(n, width)) == n,
    decreases width,
{
    lemma_pow2_pos(width);
    if width == 0 {
        lemma2_to64();
        assert(low_bits(n, width).reverse() =~= Seq::<bool>::empty());
    } else {
        let k = (width - 1) as nat;
        let be = low_bits(n, width).reverse();
        let half = n / 2;
        lemma_low_bits_value(half, k);
        lemma_pow2_pos(k);
        lemma_pow2_unfold(width);
        assert(pow2(0) == 1) by {
            lemma2_to64();
        }
        assert(be.last() == bit_of(n, 0));
        assert(be.drop_last() =~= low_bits(half, k).reverse()) by {
            assert forall|i: int| 0 <= i < k implies be.drop_last()[i] == low_bits(
                half,
                k,
            ).reverse()[i] by {
                let j = (k - 1 - i) as nat;
                // bit j of n / 2 is bit j + 1 of n
                lemma_pow2_pos(j);
                lemma_pow2_unfold(j + 1);
                lemma_div_denominator(n as int, 2, pow2(j) as int);
                assert(2 * pow2(j) == pow2(j + 1));
                assert(be.drop_last()[i] == bit_of(n, j + 1));
                assert(low_bits(half, k).reverse()[i] == bit_of(half, j));
            }
        }
        lemma_breakdown(n as int, 2, pow2(k) as int);
        assert(n / 1 == n);
        assert(n % 2 == 0 || n % 2 == 1);
    }
    if n < pow2(width) {
        lemma_small_mod(n, pow2(width));
    }
}

} // verus!
