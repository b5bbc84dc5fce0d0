//! Modular lane arithmetic: addition with a single conditional subtraction,
//! bit tests on masks, and the end-of-run reduction of a lane accumulator to
//! one scalar.  The modulus `0` is a sentinel meaning "no modulus": values
//! then wrap naturally at the `u64` width.

use vstd::arithmetic::div_mod::{
    lemma_add_mod_noop, lemma_fundamental_div_mod,
    lemma_fundamental_div_mod_converse, lemma_mod_bound, lemma_small_mod,
};
use vstd::arithmetic::power2::{lemma2_to64, pow2};
use vstd::bits::lemma_u64_shr_is_div;
use vstd::prelude::*;

verus! {

/// The order of the ring the lane arithmetic works in: the modulus itself,
/// or `2^64` when the modulus is the sentinel `0` (native wraparound).
pub open spec fn ring(m: u64) -> int {
    if m == 0 {
        0x1_0000_0000_0000_0000
    } else {
        m as int
    }
}

/// A modulus is usable when every sum of two reduced values still fits in a
/// `u64`, so that one conditional subtraction can reduce it.
pub open spec fn modulus_ok(m: u64) -> bool {
    m <= 0x8000_0000_0000_0000
}

/// A value is reduced when it lies in `[0, ring(m))`; every `u64` is reduced
/// under the sentinel modulus `0`.
pub open spec fn reduced(m: u64, x: u64) -> bool {
    m != 0 ==> x < m
}

/// Lane-wise modular addition: `x + y` brought back below the modulus by a
/// single conditional subtraction (no division), or native wraparound when
/// `m == 0`.
pub fn add(m: u64, x: u64, y: u64) -> (z: u64)
    requires
        modulus_ok(m),
        reduced(m, x),
        reduced(m, y),
    ensures
        z as int == (x + y) % ring(m),
        reduced(m, z),
{
    if m == 0 {
        let z = x.wrapping_add(y);
        proof {
            if x + y <= u64::MAX {
                lemma_small_mod((x + y) as nat, 0x1_0000_0000_0000_0000);
            } else {
                lemma_fundamental_div_mod_converse(
                    x + y,
                    0x1_0000_0000_0000_0000,
                    1,
                    x + y - 0x1_0000_0000_0000_0000,
                );
            }
        }
        z
    } else {
        let z = x + y;
        if z >= m {
            proof {
                lemma_fundamental_div_mod_converse(x + y, m as int, 1, x + y - m);
            }
            z - m
        } else {
            proof {
                lemma_small_mod((x + y) as nat, m as nat);
            }
            z
        }
    }
}

/// Whether bit `u` of `x` is set, stated over `pow2` arithmetic.
pub open spec fn bit_set(x: nat, u: nat) -> bool {
    (x / pow2(u)) % 2 == 1
}

/// Lane-wise addition in the ring, at the level of mathematical integers:
/// what `add` computes on reduced values.  The parallel reduction combines
/// per-batch contributions with this operation.
pub open spec fn lane_add(m: u64, x: int, y: int) -> int {
    (x + y) % ring(m)
}

/// On reduced values, `lane_add` is associative, so a reduction may group
/// the summands arbitrarily.
pub proof fn lemma_lane_add_assoc(m: u64, x: int, y: int, z: int)
    requires
        0 <= x < ring(m),
        0 <= y < ring(m),
        0 <= z < ring(m),
    ensures
        lane_add(m, lane_add(m, x, y), z) == lane_add(m, x, lane_add(m, y, z)),
{
    let w = ring(m);
    lemma_small_mod(x as nat, w as nat);
    lemma_small_mod(z as nat, w as nat);
    lemma_add_mod_noop(x + y, z, w);
    lemma_add_mod_noop(x, y + z, w);
}

/// On reduced values, `lane_add` is commutative, so a reduction may combine
/// contributions in any order.
pub proof fn lemma_lane_add_comm(m: u64, x: int, y: int)
    ensures
        lane_add(m, x, y) == lane_add(m, y, x),
{
}

/// Zero is the identity of `lane_add` on reduced values, so a reduction may
/// start any branch from the zero vector.
pub proof fn lemma_lane_add_identity(m: u64, x: int)
    requires
        0 <= x < ring(m),
    ensures
        lane_add(m, 0, x) == x,
{
    lemma_small_mod(x as nat, ring(m) as nat);
}

/// Whether bit `u` of the lane's mask value `x` is set.
pub fn test_bit(x: u64, u: u32) -> (b: bool)
    requires
        u < 64,
    ensures
        b == bit_set(x as nat, u as nat),
{
    let s = x >> (u as u64);
    let b = s & 1 == 1;
    proof {
        lemma_u64_shr_is_div(x, u as u64);
        let sv = s;
        assert((sv & 1) == sv % 2) by (bit_vector);
    }
    b
}

/// The number of set bits of `x`.
pub open spec fn pop(x: nat) -> nat
    decreases x,
{
    if x == 0 {
        0
    } else {
        x % 2 + pop(x / 2)
    }
}

/// A set-bit count never exceeds the value itself.
proof fn lemma_pop_le(x: nat)
    ensures
        pop(x) <= x,
    decreases x,
{
    if x > 0 {
        lemma_pop_le(x / 2);
    }
}

/// The number of set bits of the mask value `x`.
pub fn popcount(x: u64) -> (c: u64)
    ensures
        c == pop(x as nat),
{
    let mut c: u64 = 0;
    let mut y = x;
    proof {
        lemma_pop_le(x as nat);
    }
    while y != 0
        invariant
            c + pop(y as nat) == pop(x as nat),
            pop(x as nat) <= x,
        decreases y,
    {
        proof {
            lemma_pop_le(y as nat);
            lemma_u64_shr_is_div(y, 1);
            lemma2_to64();
            let yv = y;
            assert((yv & 1) == yv % 2) by (bit_vector);
            assert(yv >= 1 ==> yv >> 1u64 < yv) by (bit_vector);
        }
        c = c + (y & 1);
        y = y >> 1u64;
    }
    c
}

/// Negation in the ring: for `e >= 0`, the residue of `-e` is the reduced
/// complement of the residue of `e`.
pub proof fn lemma_neg_mod(e: int, w: int)
    requires
        w >= 1,
        e >= 0,
    ensures
        (-e) % w == if e % w == 0 {
            0int
        } else {
            w - (e % w)
        },
{
    lemma_fundamental_div_mod(e, w);
    lemma_mod_bound(e, w);
    let q = e / w;
    let r = e % w;
    if r == 0 {
        assert((-q) * w == -(w * q)) by (nonlinear_arith);
        lemma_fundamental_div_mod_converse(-e, w, -q, 0);
    } else {
        assert((-q - 1) * w == -(w * q) - w) by (nonlinear_arith);
        lemma_fundamental_div_mod_converse(-e, w, -q - 1, w - r);
    }
}

/// The sum, as a mathematical integer, of a vector of lane values.
pub open spec fn lane_values_sum(s: Seq<u64>) -> int
    decreases s.len(),
{
    if s.len() == 0 {
        0
    } else {
        s.first() + lane_values_sum(s.drop_first())
    }
}

/// Reduces a whole lane accumulator to one scalar: under the sentinel
/// modulus the lanes are summed with native wraparound; when `M * B` has
/// headroom in a `u64` the lanes are summed and reduced once; otherwise the
/// lanes are folded with a reduction after every addition.
pub fn finalize(m: u64, lanes: &Vec<u64>) -> (r: u64)
    requires
        modulus_ok(m),
        forall|i: int| 0 <= i < lanes@.len() ==> reduced(m, #[trigger] lanes@[i]),
    ensures
        r as int == lane_values_sum(lanes@) % ring(m),
        reduced(m, r),
{
    let ghost w = ring(m);
    let ghost total = lane_values_sum(lanes@);
    proof {
        assert(lanes@.skip(0) =~= lanes@);
    }
    if m == 0 {
        let mut r: u64 = 0;
        for j in 0..lanes.len()
            invariant
                r as int == (total - lane_values_sum(lanes@.skip(j as int))) % ring(0),
                total == lane_values_sum(lanes@),
        {
            proof {
                assert(lanes@.skip(j as int).first() == lanes@[j as int]);
                assert(lanes@.skip(j as int).drop_first() =~= lanes@.skip(j + 1));
                lemma_add_mod_noop(
                    total - lane_values_sum(lanes@.skip(j as int)),
                    lanes@[j as int] as int,
                    ring(0),
                );
                lemma_small_mod(lanes@[j as int] as nat, ring(0) as nat);
            }
            r = crate::arith::add(0, r, lanes[j]);
        }
        proof {
            assert(lanes@.skip(lanes@.len() as int) =~= Seq::<u64>::empty());
        }
        r
    } else if m.checked_mul(8).is_some() && lanes.len() <= 8 {
        let mut s: u64 = 0;
        for j in 0..lanes.len()
            invariant
                m != 0,
                m.checked_mul(8).is_some(),
                lanes@.len() <= 8,
                forall|i: int| 0 <= i < lanes@.len() ==> reduced(m, #[trigger] lanes@[i]),
                s as int == total - lane_values_sum(lanes@.skip(j as int)),
                s <= j * ((m - 1) as u64),
                total == lane_values_sum(lanes@),
        {
            proof {
                assert(lanes@.skip(j as int).first() == lanes@[j as int]);
                assert(lanes@.skip(j as int).drop_first() =~= lanes@.skip(j + 1));
                let jj = j as int;
                let mm = (m - 1) as int;
                assert(jj * mm + mm == (jj + 1) * mm) by (nonlinear_arith);
                assert((jj + 1) * mm <= 8 * mm) by (nonlinear_arith)
                    requires
                        jj + 1 <= 8,
                        mm >= 0,
                ;
            }
            s = s + lanes[j];
        }
        proof {
            assert(lanes@.skip(lanes@.len() as int) =~= Seq::<u64>::empty());
            lemma_mod_bound(total, m as int);
        }
        s % m
    } else {
        let mut r: u64 = 0;
        proof {
            assert(lanes@.skip(0) =~= lanes@);
            assert(total - lane_values_sum(lanes@.skip(0)) == 0);
            assert(0int % ring(m) == 0);
        }
        for j in 0..lanes.len()
            invariant
                m != 0,
                modulus_ok(m),
                forall|i: int| 0 <= i < lanes@.len() ==> reduced(m, #[trigger] lanes@[i]),
                r as int == (total - lane_values_sum(lanes@.skip(j as int))) % ring(m),
                total == lane_values_sum(lanes@),
        {
            proof {
                assert(lanes@.skip(j as int).first() == lanes@[j as int]);
                assert(lanes@.skip(j as int).drop_first() =~= lanes@.skip(j + 1));
                lemma_add_mod_noop(
                    total - lane_values_sum(lanes@.skip(j as int)),
                    lanes@[j as int] as int,
                    ring(m),
                );
                lemma_small_mod(lanes@[j as int] as nat, ring(m) as nat);
            }
            r = crate::arith::add(m, r, lanes[j]);
        }
        proof {
            assert(lanes@.skip(lanes@.len() as int) =~= Seq::<u64>::empty());
        }
        r
    }
}

} // verus!
