//! Allocation of virtual IPv4 addresses inside a configured subnet.
//!
//! Addresses are carried as their 32-bit value. The host part of an address
//! (the bits where the netmask is zero) is compressed to a dense index by
//! walking the host bits from the least significant end, so the allocator can
//! hand out host indices 0, 1, 2, ... in order even for a non-contiguous
//! netmask. Expansion is the inverse mapping from an index back to host bits.

use vstd::prelude::*;
use vstd::arithmetic::power2::*;
use vstd::bits::*;

verus! {

/// True when bit `i` of `x` is set.
pub open spec fn bit_set(x: u32, i: u32) -> bool {
    x & (1u32 << i) != 0
}

/// Number of set bits of `mask` strictly below position `n`.
pub open spec fn count_below(mask: u32, n: int) -> nat
    decreases n,
{
    if n <= 0 {
        0
    } else {
        count_below(mask, n - 1) + (if bit_set(mask, (n - 1) as u32) {
            1nat
        } else {
            0nat
        })
    }
}

/// Number of set bits of `mask`.
pub open spec fn popcount(mask: u32) -> nat {
    count_below(mask, 32)
}

/// Value of the low `n` bits of `x`.
pub open spec fn low_val(x: u32, n: int) -> nat
    decreases n,
{
    if n <= 0 {
        0
    } else {
        low_val(x, n - 1) + (if bit_set(x, (n - 1) as u32) {
            pow2((n - 1) as nat)
        } else {
            0nat
        })
    }
}

/// Dense host index of `addr` under `mask`, restricted to positions below
/// `n`: bit `k` of the result equals the bit of `addr` at the position of
/// the `k`-th set bit of `mask`.
pub open spec fn compress_below(mask: u32, addr: u32, n: int) -> nat
    decreases n,
{
    if n <= 0 {
        0
    } else {
        compress_below(mask, addr, n - 1) + (if bit_set(mask, (n - 1) as u32) && bit_set(
            addr,
            (n - 1) as u32,
        ) {
            pow2(count_below(mask, n - 1))
        } else {
            0nat
        })
    }
}

/// Dense host index of `addr` under `mask`.
pub open spec fn compress(mask: u32, addr: u32) -> nat {
    compress_below(mask, addr, 32)
}

/// Inverse of compression, restricted to positions below `n`: the bit of the
/// result at the position of the `k`-th set bit of `mask` equals bit `k` of
/// `idx`.
pub open spec fn expand_below(mask: u32, idx: u32, n: int) -> u32
    decreases n,
{
    if n <= 0 {
        0u32
    } else {
        expand_below(mask, idx, n - 1) | (if bit_set(mask, (n - 1) as u32) && bit_set(
            idx,
            count_below(mask, n - 1) as u32,
        ) {
            1u32 << ((n - 1) as u32)
        } else {
            0u32
        })
    }
}

/// Host bits whose dense index under `mask` is `idx`.
pub open spec fn expand(mask: u32, idx: u32) -> u32 {
    expand_below(mask, idx, 32)
}

proof fn lemma_or_zero(x: u32)
    ensures
        x | 0u32 == x,
        0u32 | x == x,
{
    assert(x | 0u32 == x && 0u32 | x == x) by (bit_vector);
}

proof fn lemma_or_pow2(x: u32, k: u32)
    requires
        k < 32,
        x < (1u32 << k),
    ensures
        (x | (1u32 << k)) == x + (1u32 << k),
{
    assert((x | (1u32 << k)) == x + (1u32 << k)) by (bit_vector)
        requires
            k < 32,
            x < (1u32 << k),
    ;
}

proof fn lemma_bit_or(a: u32, b: u32, p: u32)
    requires
        p < 32,
    ensures
        bit_set(a | b, p) == (bit_set(a, p) || bit_set(b, p)),
{
    assert(((a | b) & (1u32 << p) != 0) == ((a & (1u32 << p) != 0) || (b & (1u32 << p) != 0)))
        by (bit_vector);
}

proof fn lemma_bit_pow2(q: u32, p: u32)
    requires
        p < 32,
        q < 32,
    ensures
        bit_set(1u32 << q, p) == (p == q),
        !bit_set(0u32, p),
{
    assert((((1u32 << q) & (1u32 << p) != 0) == (p == q)) && (0u32 & (1u32 << p) == 0))
        by (bit_vector)
        requires
            p < 32,
            q < 32,
    ;
}

proof fn lemma_bit_and(a: u32, b: u32, p: u32)
    requires
        p < 32,
    ensures
        bit_set(a & b, p) == (bit_set(a, p) && bit_set(b, p)),
{
    assert(((a & b) & (1u32 << p) != 0) == ((a & (1u32 << p) != 0) && (b & (1u32 << p) != 0)))
        by (bit_vector);
}

proof fn lemma_bit_not(x: u32, p: u32)
    requires
        p < 32,
    ensures
        bit_set(!x, p) == !bit_set(x, p),
{
    assert(((!x) & (1u32 << p) != 0) == !(x & (1u32 << p) != 0)) by (bit_vector)
        requires
            p < 32,
    ;
}

proof fn lemma_shift_decomp(x: u32, p: u32, q: u32)
    requires
        p < 31,
        q == p + 1,
    ensures
        (x >> p) == 2 * (x >> q) + (if bit_set(x, p) {
            1int
        } else {
            0int
        }),
{
    assert((x >> p) == 2 * (x >> q) + (if x & (1u32 << p) != 0 {
        1int
    } else {
        0int
    })) by (bit_vector)
        requires
            p < 31,
            q == p + 1,
    ;
}

proof fn lemma_high_bit_zero(x: u32, m: u32, p: u32)
    requires
        m <= p < 32,
        x < (1u32 << m),
    ensures
        !bit_set(x, p),
{
    assert(x & (1u32 << p) == 0) by (bit_vector)
        requires
            m <= p < 32,
            x < (1u32 << m),
    ;
}

/// The low 32 bits of a `u32` make up its value.
proof fn lemma_low_val_full(x: u32)
    ensures
        low_val(x, 32) == x,
{
    assert forall|m: u32| m < 32 implies x as nat == low_val(x, m as int) + pow2(m as nat) * ((x
        >> m) as nat) by {
        lemma_low_val_decomp(x, m);
    }
    lemma_low_val_decomp(x, 31);
    assert((x >> 31u32) == (if bit_set(x, 31u32) {
        1u32
    } else {
        0u32
    })) by (bit_vector);
    assert(low_val(x, 32) == low_val(x, 31) + (if bit_set(x, 31u32) {
        pow2(31)
    } else {
        0nat
    }));
    if bit_set(x, 31u32) {
        assert(pow2(31) * 1nat == pow2(31)) by (nonlinear_arith);
    } else {
        assert(pow2(31) * 0nat == 0nat) by (nonlinear_arith);
    }
}

proof fn lemma_low_val_decomp(x: u32, m: u32)
    requires
        m < 32,
    ensures
        x as nat == low_val(x, m as int) + pow2(m as nat) * ((x >> m) as nat),
    decreases m,
{
    if m == 0 {
        assert(x >> 0u32 == x) by (bit_vector);
        lemma2_to64();
        assert(pow2(0) == 1);
        assert(1nat * (x as nat) == x as nat) by (nonlinear_arith);
    } else {
        let p = (m - 1) as u32;
        lemma_low_val_decomp(x, p);
        lemma_shift_decomp(x, p, m);
        let b: nat = if bit_set(x, p) {
            1nat
        } else {
            0nat
        };
        assert((x >> p) as nat == 2 * ((x >> m) as nat) + b);
        lemma_pow2_adds(p as nat, 1);
        lemma2_to64();
        assert(pow2(m as nat) == pow2(p as nat) * 2);
        assert(pow2(p as nat) * (2 * ((x >> m) as nat) + b) == pow2(p as nat) * b + (pow2(
            p as nat,
        ) * 2) * ((x >> m) as nat)) by (nonlinear_arith);
        if bit_set(x, p) {
            assert(pow2(p as nat) * 1nat == pow2(p as nat)) by (nonlinear_arith);
        } else {
            assert(pow2(p as nat) * 0nat == 0nat) by (nonlinear_arith);
        }
        assert(low_val(x, m as int) == low_val(x, p as int) + (if bit_set(x, p) {
            pow2(p as nat)
        } else {
            0nat
        }));
    }
}

/// Bits at or above `m` do not contribute below `n` when they are clear.
proof fn lemma_low_val_stable(x: u32, m: int, n: int)
    requires
        0 <= m <= n <= 32,
        forall|p: u32| m <= p < n ==> !bit_set(x, p),
    ensures
        low_val(x, n) == low_val(x, m),
    decreases n,
{
    if n > m {
        assert(!bit_set(x, (n - 1) as u32));
        lemma_low_val_stable(x, m, n - 1);
    }
}

/// A value below `pow2(m)` equals the value of its low `m` bits.
proof fn lemma_low_val_id(x: u32, m: int)
    requires
        0 <= m <= 32,
        x < pow2(m as nat),
    ensures
        low_val(x, m) == x,
{
    if m < 32 {
        lemma_u32_pow2_no_overflow(m as nat);
        lemma_u32_shl_is_mul(1u32, m as u32);
        assert((1u32 << (m as u32)) == pow2(m as nat));
        assert forall|p: u32| m <= p < 32 implies !bit_set(x, p) by {
            lemma_high_bit_zero(x, m as u32, p);
        }
    }
    lemma_low_val_stable(x, m, 32);
    lemma_low_val_full(x);
}

/// If every bit of `x` below `n` is clear, `x`'s low bits have value zero;
/// with `n == 32` this shows `x == 0`.
proof fn lemma_zero_of_no_bits(x: u32)
    requires
        forall|p: u32| p < 32 ==> !bit_set(x, p),
    ensures
        x == 0,
{
    lemma_low_val_stable(x, 0, 32);
    lemma_low_val_full(x);
}

/// Counting set bits below `n` never exceeds `n`.
proof fn lemma_count_le(mask: u32, n: int)
    requires
        n >= 0,
    ensures
        count_below(mask, n) <= n,
    decreases n,
{
    if n > 0 {
        lemma_count_le(mask, n - 1);
    }
}

/// A full count below `n` forces every bit below `n` to be set.
proof fn lemma_count_full(mask: u32, n: int)
    requires
        0 <= n <= 32,
        count_below(mask, n) == n,
    ensures
        forall|p: u32| p < n ==> bit_set(mask, p),
    decreases n,
{
    if n > 0 {
        lemma_count_le(mask, n - 1);
        lemma_count_full(mask, n - 1);
    }
}

/// A nonzero netmask leaves fewer than 32 host bits.
pub proof fn lemma_host_bits_lt_32(netmask: u32)
    requires
        netmask != 0,
    ensures
        popcount(!netmask) < 32,
{
    lemma_count_le(!netmask, 32);
    if popcount(!netmask) == 32 {
        lemma_count_full(!netmask, 32);
        assert forall|p: u32| p < 32 implies !bit_set(netmask, p) by {
            lemma_bit_not(netmask, p);
        }
        lemma_zero_of_no_bits(netmask);
    }
}

/// Bit `p` of an expansion is set exactly when `p` is a mask position below
/// `n` and the corresponding index bit is set.
proof fn lemma_expand_bit(mask: u32, idx: u32, n: int, p: u32)
    requires
        0 <= n <= 32,
        p < 32,
    ensures
        bit_set(expand_below(mask, idx, n), p) == (p < n && bit_set(mask, p) && bit_set(
            idx,
            count_below(mask, p as int) as u32,
        )),
    decreases n,
{
    if n == 0 {
        lemma_bit_pow2(0, p);
    } else {
        lemma_expand_bit(mask, idx, n - 1, p);
        let prev = expand_below(mask, idx, n - 1);
        let q = (n - 1) as u32;
        if bit_set(mask, q) && bit_set(idx, count_below(mask, n - 1) as u32) {
            lemma_bit_or(prev, 1u32 << q, p);
            lemma_bit_pow2(q, p);
        } else {
            lemma_bit_or(prev, 0u32, p);
            lemma_bit_pow2(0, p);
        }
    }
}

/// Every set bit of an expansion lies on a set bit of the mask.
proof fn lemma_expand_within_mask(mask: u32, idx: u32, p: u32)
    requires
        p < 32,
        !bit_set(mask, p),
    ensures
        !bit_set(expand(mask, idx), p),
{
    lemma_expand_bit(mask, idx, 32, p);
}

/// Compressing an expansion recovers the low index bits.
proof fn lemma_compress_below_of_expand(mask: u32, idx: u32, n: int)
    requires
        0 <= n <= 32,
    ensures
        compress_below(mask, expand(mask, idx), n) == low_val(idx, count_below(mask, n) as int),
    decreases n,
{
    if n > 0 {
        lemma_compress_below_of_expand(mask, idx, n - 1);
        let q = (n - 1) as u32;
        lemma_count_le(mask, n - 1);
        if bit_set(mask, q) {
            lemma_expand_bit(mask, idx, 32, q);
        }
    }
}

/// Expansion inverts compression: for an index within the host space, the
/// expanded host bits compress back to the same index.
pub proof fn lemma_compress_of_expand(mask: u32, idx: u32)
    requires
        idx < pow2(popcount(mask)),
    ensures
        compress(mask, expand(mask, idx)) == idx,
{
    lemma_compress_below_of_expand(mask, idx, 32);
    lemma_count_le(mask, 32);
    lemma_low_val_id(idx, popcount(mask) as int);
}

/// Counting is monotonic in the position bound.
proof fn lemma_count_mono(mask: u32, m: int, n: int)
    requires
        0 <= m <= n,
    ensures
        count_below(mask, m) <= count_below(mask, n),
    decreases n,
{
    if n > m {
        lemma_count_mono(mask, m, n - 1);
    }
}

/// The compressed index always fits below `pow2` of the number of mask bits.
pub proof fn lemma_compress_bound(mask: u32, addr: u32, n: int)
    requires
        0 <= n <= 32,
    ensures
        compress_below(mask, addr, n) < pow2(count_below(mask, n)),
    decreases n,
{
    if n == 0 {
        lemma2_to64();
    } else {
        lemma_compress_bound(mask, addr, n - 1);
        if bit_set(mask, (n - 1) as u32) {
            lemma_pow2_adds(count_below(mask, n - 1), 1);
            lemma2_to64();
        }
    }
}

/// The compressed contribution of the mask positions in `[base, n)`, scaled
/// down by `pow2` of the bit count below `base`.
spec fn tail_factor(mask: u32, addr: u32, base: int, n: int) -> nat
    decreases n - base,
{
    if n <= base {
        0
    } else {
        tail_factor(mask, addr, base, n - 1) + (if bit_set(mask, (n - 1) as u32) && bit_set(
            addr,
            (n - 1) as u32,
        ) {
            pow2((count_below(mask, n - 1) - count_below(mask, base)) as nat)
        } else {
            0nat
        })
    }
}

/// Splitting a compressed index at a position bound: everything from `base`
/// up is a multiple of `pow2` of the bit count below `base`.
proof fn lemma_compress_split(mask: u32, addr: u32, base: int, n: int)
    requires
        0 <= base <= n <= 32,
    ensures
        compress_below(mask, addr, n) == compress_below(mask, addr, base) + pow2(
            count_below(mask, base),
        ) * tail_factor(mask, addr, base, n),
    decreases n,
{
    let cb = count_below(mask, base);
    if n == base {
        assert(pow2(cb) * 0nat == 0nat) by (nonlinear_arith);
    } else {
        lemma_compress_split(mask, addr, base, n - 1);
        let tf = tail_factor(mask, addr, base, n - 1);
        if bit_set(mask, (n - 1) as u32) && bit_set(addr, (n - 1) as u32) {
            lemma_count_mono(mask, base, n - 1);
            let d = (count_below(mask, n - 1) - cb) as nat;
            lemma_pow2_adds(cb, d);
            assert(pow2(count_below(mask, n - 1)) == pow2(cb) * pow2(d));
            assert(pow2(cb) * tf + pow2(cb) * pow2(d) == pow2(cb) * (tf + pow2(d)))
                by (nonlinear_arith);
        } else {
            assert(tail_factor(mask, addr, base, n) == tf);
        }
    }
}

/// Reading bit `k` of a value decomposed as low bits, bit `k`, and a high
/// part.
proof fn lemma_bit_of_decomp(x: u32, k: u32, lo: nat, b: nat, hi: nat)
    requires
        k < 32,
        lo < pow2(k as nat),
        b <= 1,
        x as nat == lo + pow2(k as nat) * (b + 2 * hi),
    ensures
        bit_set(x, k) == (b == 1),
{
    lemma_u32_shr_is_div(x, k);
    lemma_pow2_pos(k as nat);
    assert(x as int == ((b + 2 * hi) as int) * (pow2(k as nat) as int) + (lo as int))
        by (nonlinear_arith)
        requires
            x as nat == lo + pow2(k as nat) * (b + 2 * hi),
    ;
    vstd::arithmetic::div_mod::lemma_fundamental_div_mod_converse(
        x as int,
        pow2(k as nat) as int,
        (b + 2 * hi) as int,
        lo as int,
    );
    assert((x >> k) as nat == b + 2 * hi);
    vstd::arithmetic::div_mod::lemma_fundamental_div_mod_converse(
        (b + 2 * hi) as int,
        2,
        hi as int,
        b as int,
    );
    assert((x >> k) as nat % 2 == b);
    let y = x >> k;
    assert((x & (1u32 << k) != 0) == (y % 2 == 1)) by (bit_vector)
        requires
            k < 32,
            y == x >> k,
    ;
}

/// On a mask position `p`, bit `count_below(mask, p)` of the compressed
/// index is exactly bit `p` of the address.
proof fn lemma_compress_bit(mask: u32, addr: u32, p: u32)
    requires
        p < 32,
        bit_set(mask, p),
    ensures
        compress(mask, addr) < pow2(32),
        bit_set((compress(mask, addr) as u32), count_below(mask, p as int) as u32) == bit_set(
            addr,
            p,
        ),
{
    let k = count_below(mask, p as int);
    lemma_count_le(mask, p as int);
    lemma_compress_bound(mask, addr, p as int);
    lemma_compress_bound(mask, addr, 32);
    lemma_count_le(mask, 32);
    if count_below(mask, 32) < 32 {
        lemma_pow2_strictly_increases(count_below(mask, 32), 32);
    }
    assert(compress(mask, addr) < pow2(32));
    lemma_compress_split(mask, addr, p as int + 1, 32);
    assert(count_below(mask, p as int + 1) == k + 1);
    lemma_pow2_adds(k, 1);
    lemma2_to64();
    let b: nat = if bit_set(addr, p) {
        1nat
    } else {
        0nat
    };
    let tf = tail_factor(mask, addr, p as int + 1, 32);
    assert(compress_below(mask, addr, p as int + 1) == compress_below(mask, addr, p as int) + b
        * pow2(k)) by (nonlinear_arith)
        requires
            compress_below(mask, addr, p as int + 1) == compress_below(mask, addr, p as int) + (
            if bit_set(mask, p) && bit_set(addr, p) {
                pow2(k)
            } else {
                0nat
            }),
            bit_set(mask, p),
            b == (if bit_set(addr, p) {
                1nat
            } else {
                0nat
            }),
    ;
    assert(compress(mask, addr) == compress_below(mask, addr, p as int) + b * pow2(k) + (pow2(k)
        * 2) * tf);
    assert(compress_below(mask, addr, p as int) + b * pow2(k) + (pow2(k) * 2) * tf
        == compress_below(mask, addr, p as int) + pow2(k) * (b + 2 * tf)) by (nonlinear_arith);
    let c32 = compress(mask, addr) as u32;
    assert(c32 as nat == compress(mask, addr));
    lemma_bit_of_decomp(c32, k as u32, compress_below(mask, addr, p as int), b, tf);
}

/// Two values with the same bits are equal.
proof fn lemma_eq_of_bits(x: u32, y: u32)
    requires
        forall|p: u32| p < 32 ==> bit_set(x, p) == bit_set(y, p),
    ensures
        x == y,
{
    assert forall|n: int| 0 <= n <= 32 implies low_val(x, n) == low_val(y, n) by {
        lemma_low_val_congruent(x, y, n);
    }
    lemma_low_val_full(x);
    lemma_low_val_full(y);
}

proof fn lemma_low_val_congruent(x: u32, y: u32, n: int)
    requires
        0 <= n <= 32,
        forall|p: u32| p < 32 ==> bit_set(x, p) == bit_set(y, p),
    ensures
        low_val(x, n) == low_val(y, n),
    decreases n,
{
    if n > 0 {
        lemma_low_val_congruent(x, y, n - 1);
        assert(bit_set(x, (n - 1) as u32) == bit_set(y, (n - 1) as u32));
    }
}

/// Compression inverts expansion as well: compressing an address and
/// expanding the index again recovers exactly the address's mask bits.
pub proof fn lemma_expand_of_compress(mask: u32, addr: u32)
    ensures
        compress(mask, addr) < pow2(32),
        expand(mask, (compress(mask, addr) as u32)) == addr & mask,
{
    lemma_compress_bound(mask, addr, 32);
    lemma_count_le(mask, 32);
    if count_below(mask, 32) < 32 {
        lemma_pow2_strictly_increases(count_below(mask, 32), 32);
    }
    let c32 = compress(mask, addr) as u32;
    assert forall|p: u32| p < 32 implies bit_set(expand(mask, c32), p) == bit_set(
        addr & mask,
        p,
    ) by {
        lemma_expand_bit(mask, c32, 32, p);
        lemma_bit_and(addr, mask, p);
        if bit_set(mask, p) {
            lemma_compress_bit(mask, addr, p);
        }
    }
    lemma_eq_of_bits(expand(mask, c32), addr & mask);
}

/// Compression only reads bits on the mask, so bits off the mask may be ORed
/// in without changing the result.
pub proof fn lemma_compress_ignores_unmasked(mask: u32, a: u32, s: u32, n: int)
    requires
        0 <= n <= 32,
        s & mask == 0,
    ensures
        compress_below(mask, a | s, n) == compress_below(mask, a, n),
    decreases n,
{
    if n > 0 {
        lemma_compress_ignores_unmasked(mask, a, s, n - 1);
        let q = (n - 1) as u32;
        if bit_set(mask, q) {
            lemma_bit_or(a, s, q);
            lemma_bit_and(s, mask, q);
            lemma_bit_pow2(0, q);
        }
    }
}

/// If no bit position carries a set bit of both `a` and `b`, then `a & b` is
/// zero.
proof fn lemma_and_zero_of_bits(a: u32, b: u32)
    requires
        forall|p: u32| p < 32 ==> !(bit_set(a, p) && bit_set(b, p)),
    ensures
        a & b == 0,
{
    assert forall|p: u32| p < 32 implies !bit_set(a & b, p) by {
        lemma_bit_and(a, b, p);
    }
    lemma_zero_of_no_bits(a & b);
}

/// Expanded host bits avoid every netmask bit.
pub proof fn lemma_expand_avoids_netmask(netmask: u32, idx: u32)
    ensures
        expand(!netmask, idx) & netmask == 0,
{
    assert forall|p: u32| p < 32 implies !(bit_set(expand(!netmask, idx), p) && bit_set(
        netmask,
        p,
    )) by {
        lemma_bit_not(netmask, p);
        if !bit_set(!netmask, p) {
            lemma_expand_within_mask(!netmask, idx, p);
        }
    }
    lemma_and_zero_of_bits(expand(!netmask, idx), netmask);
}

/// Joining a host part that avoids the netmask with the network part leaves
/// the network part intact under the netmask.
pub proof fn lemma_join_network(host: u32, subnet: u32, netmask: u32)
    requires
        host & netmask == 0,
        subnet & netmask == subnet,
    ensures
        (host | subnet) & netmask == subnet,
{
    assert((host | subnet) & netmask == subnet) by (bit_vector)
        requires
            host & netmask == 0,
            subnet & netmask == subnet,
    ;
}

/// Counts the set bits of `mask`.
fn popcount_u32(mask: u32) -> (c: u32)
    ensures
        c as nat == popcount(mask),
        c <= 32,
{
    let mut c: u32 = 0;
    let mut i: u32 = 0;
    while i < 32
        invariant
            i <= 32,
            c as nat == count_below(mask, i as int),
            c <= i,
        decreases 32 - i,
    {
        if mask & (1u32 << i) != 0 {
            c = c + 1;
        }
        i = i + 1;
    }
    c
}

/// Gathers the bits of `addr` that lie on `mask` into a dense index.
fn compress_bits(mask: u32, addr: u32) -> (r: u32)
    ensures
        r as nat == compress(mask, addr),
        (r as nat) < pow2(popcount(mask)),
{
    let mut res: u32 = 0;
    let mut k: u32 = 0;
    let mut i: u32 = 0;
    proof {
        lemma2_to64();
    }
    while i < 32
        invariant
            i <= 32,
            k <= i,
            k as nat == count_below(mask, i as int),
            res as nat == compress_below(mask, addr, i as int),
            (res as nat) < pow2(k as nat),
        decreases 32 - i,
    {
        if mask & (1u32 << i) != 0 {
            if addr & (1u32 << i) != 0 {
                proof {
                    lemma_u32_pow2_no_overflow(k as nat);
                    lemma_u32_shl_is_mul(1u32, k);
                    lemma_or_pow2(res, k);
                    lemma_pow2_adds(k as nat, 1);
                    lemma2_to64();
                }
                res = res | (1u32 << k);
            } else {
                proof {
                    lemma_pow2_adds(k as nat, 1);
                    lemma2_to64();
                }
            }
            k = k + 1;
        }
        i = i + 1;
    }
    res
}

/// Scatters the bits of a dense index `idx` onto the set bits of `mask`.
fn expand_bits_exec(mask: u32, idx: u32) -> (r: u32)
    ensures
        r == expand(mask, idx),
{
    let mut res: u32 = 0;
    let mut k: u32 = 0;
    let mut i: u32 = 0;
    while i < 32
        invariant
            i <= 32,
            k <= i,
            k as nat == count_below(mask, i as int),
            res == expand_below(mask, idx, i as int),
        decreases 32 - i,
    {
        if mask & (1u32 << i) != 0 {
            if idx & (1u32 << k) != 0 {
                res = res | (1u32 << i);
            } else {
                proof {
                    lemma_or_zero(res);
                }
            }
            k = k + 1;
        } else {
            proof {
                lemma_or_zero(res);
            }
        }
        i = i + 1;
    }
    res
}

/// Ghost model of the allocator: the subnet, the netmask, the size of the
/// host space, the smallest free host index, and the set of blocked indices.
pub struct IpSpace {
    pub subnet: u32,
    pub netmask: u32,
    pub subnet_size: u32,
    pub min_free: u32,
    pub blocked: Set<u32>,
}

impl IpSpace {
    /// The allocator's invariant: the subnet is normalized onto the netmask,
    /// the host space size is two to the number of host bits, blocked indices
    /// lie inside the host space, and `min_free` is the smallest index not in
    /// `blocked` (equal to `subnet_size` when the space is full).
    pub open spec fn inv(self) -> bool {
        &&& self.netmask != 0
        &&& self.subnet & self.netmask == self.subnet
        &&& self.subnet_size as nat == pow2(popcount(!self.netmask))
        &&& forall|j: u32| self.blocked.contains(j) ==> j < self.subnet_size
        &&& self.min_free <= self.subnet_size
        &&& forall|j: u32| j < self.min_free ==> self.blocked.contains(j)
        &&& !self.blocked.contains(self.min_free)
    }

    /// True when `addr` lies in the managed subnet.
    pub open spec fn in_subnet(self, addr: u32) -> bool {
        addr & self.netmask == self.subnet
    }

    /// The dense host index of `addr`.
    pub open spec fn host_index(self, addr: u32) -> u32 {
        compress(!self.netmask, addr) as u32
    }

    /// The address whose dense host index is `idx`.
    pub open spec fn addr_at(self, idx: u32) -> u32 {
        expand(!self.netmask, idx) | self.subnet
    }

    /// The address the allocator hands out next, if any is free.
    pub open spec fn free_addr(self) -> Option<u32> {
        if self.min_free < self.subnet_size {
            Some(self.addr_at(self.min_free))
        } else {
            None
        }
    }
}

/// Strictly increasing, hence duplicate-free.
spec fn sorted(s: Seq<u32>) -> bool {
    forall|i: int, j: int| 0 <= i < j < s.len() ==> s[i] < s[j]
}

/// Allocator of virtual addresses within a subnet: tracks blocked host
/// indices in an ordered set and the smallest free index.
pub struct IpManager {
    blocked: Vec<u32>,
    subnet: u32,
    netmask: u32,
    min_free: u32,
    subnet_size: u32,
}

impl View for IpManager {
    type V = IpSpace;

    closed spec fn view(&self) -> IpSpace {
        IpSpace {
            subnet: self.subnet,
            netmask: self.netmask,
            subnet_size: self.subnet_size,
            min_free: self.min_free,
            blocked: Set::new(|v: u32| self.blocked@.contains(v)),
        }
    }
}

impl IpManager {
    /// The backing vector is an ordered set.
    pub closed spec fn wf_internal(&self) -> bool {
        sorted(self.blocked@)
    }

    /// Well-formed: the model invariant holds and the backing vector is an
    /// ordered set.
    pub open spec fn wf(&self) -> bool {
        &&& self@.inv()
        &&& self.wf_internal()
    }

    /// Builds an allocator for the subnet `subnet & netmask`, with no index
    /// blocked yet.
    pub fn new(subnet: u32, netmask: u32) -> (r: IpManager)
        requires
            netmask != 0,
        ensures
            r.wf(),
            r@.netmask == netmask,
            r@.subnet == subnet & netmask,
            r@.min_free == 0,
            r@.blocked == Set::<u32>::empty(),
            r@.subnet_size as nat == pow2(popcount(!netmask)),
    {
        let mask = !netmask;
        let c = popcount_u32(mask);
        proof {
            lemma_host_bits_lt_32(netmask);
            lemma_u32_pow2_no_overflow(c as nat);
            lemma_u32_shl_is_mul(1u32, c);
        }
        let size = 1u32 << c;
        let r = IpManager {
            blocked: Vec::new(),
            subnet: subnet & netmask,
            netmask,
            min_free: 0,
            subnet_size: size,
        };
        proof {
            assert((subnet & netmask) & netmask == subnet & netmask) by (bit_vector);
            assert(r@.blocked =~= Set::<u32>::empty());
        }
        r
    }

    /// Linear scan for a blocked index.
    fn contains_idx(&self, x: u32) -> (b: bool)
        ensures
            b == self@.blocked.contains(x),
    {
        let mut i: usize = 0;
        while i < self.blocked.len()
            invariant
                i <= self.blocked@.len(),
                forall|m: int| 0 <= m < i ==> self.blocked@[m] != x,
            decreases self.blocked@.len() - i,
        {
            if self.blocked[i] == x {
                assert(self.blocked@[i as int] == x);
                return true;
            }
            i = i + 1;
        }
        assert(!self.blocked@.contains(x));
        false
    }

    /// Inserts `x` into the ordered set of blocked indices.
    fn insert_idx(&mut self, x: u32)
        requires
            sorted(old(self).blocked@),
        ensures
            sorted(final(self).blocked@),
            final(self).subnet == old(self).subnet,
            final(self).netmask == old(self).netmask,
            final(self).min_free == old(self).min_free,
            final(self).subnet_size == old(self).subnet_size,
            forall|y: u32|
                final(self).blocked@.contains(y) == (old(self).blocked@.contains(y) || y == x),
    {
        let ghost s0 = self.blocked@;
        let mut i: usize = 0;
        while i < self.blocked.len() && self.blocked[i] < x
            invariant
                i <= self.blocked@.len(),
                self.blocked@ == s0,
                forall|m: int| 0 <= m < i ==> self.blocked@[m] < x,
            decreases self.blocked@.len() - i,
        {
            i = i + 1;
        }
        if i < self.blocked.len() && self.blocked[i] == x {
            assert(self.blocked@.contains(x));
            return ;
        }
        assert(i < s0.len() ==> s0[i as int] > x);
        self.blocked.insert(i, x);
        proof {
            let s1 = self.blocked@;
            assert(s1 == s0.insert(i as int, x));
            assert forall|a: int, b: int| 0 <= a < b < s1.len() implies s1[a] < s1[b] by {
                if a < i && b > i {
                    assert(s1[a] == s0[a] && s1[b] == s0[b - 1]);
                    assert(s0[a] < x);
                    assert(s0[b - 1] > x);
                }
            }
            assert forall|y: u32| s1.contains(y) == (s0.contains(y) || y == x) by {
                if s1.contains(y) {
                    let m = choose|m: int| 0 <= m < s1.len() && s1[m] == y;
                    if m < i {
                        assert(s0[m] == y);
                    } else if m > i {
                        assert(s0[m - 1] == y);
                    }
                }
                if s0.contains(y) {
                    let m = choose|m: int| 0 <= m < s0.len() && s0[m] == y;
                    if m < i {
                        assert(s1[m] == y);
                    } else {
                        assert(s1[m + 1] == y);
                    }
                }
                if y == x {
                    assert(s1[i as int] == y);
                }
            }
        }
    }

    /// Removes `x` from the ordered set of blocked indices; reports whether
    /// it was present.
    fn remove_idx(&mut self, x: u32) -> (removed: bool)
        requires
            sorted(old(self).blocked@),
        ensures
            sorted(final(self).blocked@),
            final(self).subnet == old(self).subnet,
            final(self).netmask == old(self).netmask,
            final(self).min_free == old(self).min_free,
            final(self).subnet_size == old(self).subnet_size,
            removed == old(self).blocked@.contains(x),
            forall|y: u32|
                final(self).blocked@.contains(y) == (old(self).blocked@.contains(y) && y != x),
    {
        let ghost s0 = self.blocked@;
        let mut i: usize = 0;
        while i < self.blocked.len() && self.blocked[i] < x
            invariant
                i <= self.blocked@.len(),
                self.blocked@ == s0,
                forall|m: int| 0 <= m < i ==> self.blocked@[m] < x,
            decreases self.blocked@.len() - i,
        {
            i = i + 1;
        }
        if i < self.blocked.len() && self.blocked[i] == x {
            self.blocked.remove(i);
            proof {
                let s1 = self.blocked@;
                assert(s1 == s0.remove(i as int));
                assert forall|m: int| 0 <= m < s0.len() && m != i implies s0[m] != x by {
                    if m > i {
                        assert(s0[m] > s0[i as int]);
                    }
                }
                assert(s0[i as int] == x);
                assert(s0.contains(x));
                assert forall|y: u32| s1.contains(y) == (s0.contains(y) && y != x) by {
                    if s1.contains(y) {
                        let m = choose|m: int| 0 <= m < s1.len() && s1[m] == y;
                        if m < i {
                            assert(s0[m] == y);
                        } else {
                            assert(s0[m + 1] == y);
                        }
                    }
                    if s0.contains(y) && y != x {
                        let m = choose|m: int| 0 <= m < s0.len() && s0[m] == y;
                        if m < i {
                            assert(s1[m] == y);
                        } else {
                            assert(m > i);
                            assert(s1[m - 1] == y);
                        }
                    }
                }
            }
            true
        } else {
            proof {
                assert forall|m: int| 0 <= m < s0.len() implies s0[m] != x by {
                    if m >= i {
                        if i < s0.len() {
                            assert(s0[m] >= s0[i as int]);
                        }
                    }
                }
            }
            false
        }
    }

    /// Compresses an address of the subnet to its dense host index.
    pub fn compress_address(&self, addr_bits: u32) -> (r: u32)
        requires
            self.wf(),
        ensures
            r == self@.host_index(addr_bits),
            r < self@.subnet_size,
    {
        let r = compress_bits(!self.netmask, addr_bits);
        r
    }

    /// Expands a dense host index back to the address it stands for.
    fn expand_bits(&self, bits: u32) -> (r: u32)
        requires
            self.wf(),
        ensures
            r == self@.addr_at(bits),
    {
        let host = expand_bits_exec(!self.netmask, bits);
        host | self.subnet
    }

    /// Marks an address of the subnet as taken; an address outside the
    /// subnet is ignored. `min_free` moves up to the next free index.
    pub fn block(&mut self, addr: u32)
        requires
            old(self).wf(),
        ensures
            final(self).wf(),
            final(self)@.netmask == old(self)@.netmask,
            final(self)@.subnet == old(self)@.subnet,
            final(self)@.subnet_size == old(self)@.subnet_size,
            !old(self)@.in_subnet(addr) ==> final(self)@ == old(self)@,
            old(self)@.in_subnet(addr) ==> final(self)@.blocked == old(self)@.blocked.insert(
                old(self)@.host_index(addr),
            ),
    {
        if addr & self.netmask != self.subnet {
            return ;
        }
        let idx = self.compress_address(addr);
        let ghost m0 = old(self)@;
        self.insert_idx(idx);
        proof {
            assert(self@.blocked =~= m0.blocked.insert(idx));
        }
        loop
            invariant
                sorted(self.blocked@),
                self.netmask == m0.netmask,
                self.subnet == m0.subnet,
                self.subnet_size == m0.subnet_size,
                self@.blocked == m0.blocked.insert(idx),
                m0.inv(),
                idx < self.subnet_size,
                self.min_free <= self.subnet_size,
                forall|j: u32| j < self.min_free ==> self@.blocked.contains(j),
            ensures
                sorted(self.blocked@),
                self.netmask == m0.netmask,
                self.subnet == m0.subnet,
                self.subnet_size == m0.subnet_size,
                self@.blocked == m0.blocked.insert(idx),
                self.min_free <= self.subnet_size,
                forall|j: u32| j < self.min_free ==> self@.blocked.contains(j),
                !self@.blocked.contains(self.min_free),
            decreases self.subnet_size - self.min_free,
        {
            if !self.contains_idx(self.min_free) {
                break ;
            }
            assert(self.min_free < self.subnet_size);
            self.min_free = self.min_free + 1;
        }
    }

    /// Returns an address of the subnet to the free pool; an address outside
    /// the subnet, or one that is not blocked, leaves the state unchanged
    /// except that `min_free` may move down to the freed index.
    pub fn release(&mut self, addr: u32)
        requires
            old(self).wf(),
        ensures
            final(self).wf(),
            final(self)@.netmask == old(self)@.netmask,
            final(self)@.subnet == old(self)@.subnet,
            final(self)@.subnet_size == old(self)@.subnet_size,
            !old(self)@.in_subnet(addr) ==> final(self)@ == old(self)@,
            old(self)@.in_subnet(addr) ==> {
                &&& final(self)@.blocked == old(self)@.blocked.remove(old(self)@.host_index(addr))
                &&& final(self)@.min_free == (if old(self)@.blocked.contains(
                    old(self)@.host_index(addr),
                ) && old(self)@.host_index(addr) < old(self)@.min_free {
                    old(self)@.host_index(addr)
                } else {
                    old(self)@.min_free
                })
            },
    {
        if addr & self.netmask != self.subnet {
            return ;
        }
        let idx = self.compress_address(addr);
        let ghost m0 = old(self)@;
        let removed = self.remove_idx(idx);
        proof {
            assert(self@.blocked =~= m0.blocked.remove(idx));
        }
        if removed && idx < self.min_free {
            self.min_free = idx;
            proof {
                assert forall|j: u32| j < self@.min_free implies self@.blocked.contains(j) by {
                    assert(m0.blocked.contains(j));
                }
            }
        } else {
            proof {
                assert forall|j: u32| j < self@.min_free implies self@.blocked.contains(j) by {
                    assert(m0.blocked.contains(j));
                    if removed {
                        assert(j < idx || j > idx || j == idx);
                    }
                }
                if !removed {
                    assert(!self@.blocked.contains(self@.min_free));
                }
            }
        }
    }

    /// Hands out the smallest free address of the subnet, or `None` when
    /// every host index is blocked. The address is not blocked by this call.
    pub fn get_free(&self) -> (r: Option<u32>)
        requires
            self.wf(),
        ensures
            r == self@.free_addr(),
            r is Some <==> self@.min_free < self@.subnet_size,
            r is Some ==> self@.in_subnet(r->0) && self@.host_index(r->0) == self@.min_free
                && !self@.blocked.contains(self@.host_index(r->0)),
    {
        if self.min_free < self.subnet_size {
            proof {
                lemma_addr_at_index(self@, self@.min_free);
            }
            Some(self.expand_bits(self.min_free))
        } else {
            None
        }
    }
}

proof fn lemma_network_off_host_mask(subnet: u32, netmask: u32)
    requires
        subnet & netmask == subnet,
    ensures
        subnet & !netmask == 0,
{
    assert(subnet & netmask == subnet ==> subnet & !netmask == 0) by (bit_vector);
}

/// The address at a host index of the space compresses back to that index
/// and lies in the subnet.
pub proof fn lemma_addr_at_index(m: IpSpace, idx: u32)
    requires
        m.inv(),
        idx < m.subnet_size,
    ensures
        m.in_subnet(m.addr_at(idx)),
        m.host_index(m.addr_at(idx)) == idx,
{
    let mask = !m.netmask;
    lemma_expand_avoids_netmask(m.netmask, idx);
    lemma_join_network(expand(mask, idx), m.subnet, m.netmask);
    lemma_network_off_host_mask(m.subnet, m.netmask);
    lemma_compress_ignores_unmasked(mask, expand(mask, idx), m.subnet, 32);
    lemma_compress_of_expand(mask, idx);
}

/// Address uniqueness: an allocation lies in the subnet, and as long as its
/// host index stays blocked, any later well-formed state of the same subnet
/// allocates a different address, whatever blocks and releases happened in
/// between.
pub proof fn lemma_address_uniqueness(m1: IpSpace, m2: IpSpace)
    requires
        m1.inv(),
        m2.inv(),
        m2.netmask == m1.netmask,
        m2.subnet == m1.subnet,
        m1.free_addr() is Some,
        m2.blocked.contains(m1.min_free),
    ensures
        m1.in_subnet(m1.free_addr()->Some_0),
        m2.free_addr() is Some ==> m2.free_addr()->Some_0 != m1.free_addr()->Some_0,
{
    lemma_addr_at_index(m1, m1.min_free);
    if m2.free_addr() is Some {
        assert(m2.min_free != m1.min_free);
        lemma_addr_at_index(m2, m2.min_free);
    }
}

/// Dense allocation: when exactly the host indices below `k` are blocked,
/// the next allocation is the address of host index `k`, and blocking it
/// leaves exactly the indices below `k + 1` blocked.
pub proof fn lemma_dense_allocation(m: IpSpace, k: u32)
    requires
        m.inv(),
        m.blocked == Set::new(|j: u32| j < k),
        k < m.subnet_size,
    ensures
        m.free_addr() == Some(m.addr_at(k)),
        m.host_index(m.addr_at(k)) == k,
        m.blocked.insert(m.host_index(m.addr_at(k))) == Set::new(|j: u32| j < k + 1),
{
    assert(!m.blocked.contains(k));
    assert(m.min_free >= k);
    assert(m.min_free == k);
    lemma_addr_at_index(m, k);
    assert(m.blocked.insert(k) =~= Set::new(|j: u32| j < k + 1));
}

/// Full space: when every host index is blocked, nothing is free.
pub proof fn lemma_full_space(m: IpSpace)
    requires
        m.inv(),
        forall|j: u32| j < m.subnet_size ==> m.blocked.contains(j),
    ensures
        m.free_addr() is None,
{
    assert(!m.blocked.contains(m.min_free));
}

/// Every address of the subnet is the canonical address of its host index:
/// compressing and expanding again recovers it.
pub proof fn lemma_canonical_address(m: IpSpace, addr: u32)
    requires
        m.inv(),
        m.in_subnet(addr),
    ensures
        m.host_index(addr) < m.subnet_size,
        m.addr_at(m.host_index(addr)) == addr,
{
    let mask = !m.netmask;
    lemma_compress_bound(mask, addr, 32);
    lemma_expand_of_compress(mask, addr);
    let netmask = m.netmask;
    let subnet = m.subnet;
    assert(addr & netmask == subnet ==> ((addr & !netmask) | subnet) == addr) by (bit_vector);
}

/// Reuse after release: when the space was full and one address of the
/// subnet has been released, the next allocation is exactly the released
/// address.
pub proof fn lemma_release_reuse(m: IpSpace, m2: IpSpace, addr: u32)
    requires
        m.inv(),
        m2.inv(),
        m2.netmask == m.netmask,
        m2.subnet == m.subnet,
        m.in_subnet(addr),
        forall|j: u32| j < m.subnet_size ==> m.blocked.contains(j),
        m2.blocked == m.blocked.remove(m.host_index(addr)),
    ensures
        m2.free_addr() == Some(addr),
{
    lemma_canonical_address(m, addr);
    let idx = m.host_index(addr);
    assert(m2.subnet_size == m.subnet_size);
    assert(!m2.blocked.contains(idx));
    assert(m2.min_free <= idx);
    assert forall|j: u32| j < idx implies m2.blocked.contains(j) by {
        assert(m.blocked.contains(j));
    }
    assert(m2.min_free == idx);
    assert(m2.addr_at(idx) == m.addr_at(idx));
}

} // verus!
