//! The subset-restricted walk counter with its inclusion–exclusion
//! combination: for every vertex-exclusion mask a short relaxation recurrence
//! counts restricted walks, and the per-mask counts are folded together with
//! a sign given by the mask's set-bit parity.  Masks are processed in batches
//! of eight consecutive values held in lockstep lanes, with an optional
//! bit-tier refinement that tests batch-uniform high mask bits once per
//! batch instead of once per lane.

use crate::arith::{bit_set, lane_add, lane_values_sum, modulus_ok, pop, reduced, ring};
use rayon::iter::{IntoParallelIterator, ParallelIterator};
use crate::graph::{adjacency_of, edges_in_range, empty_adjacency, Graph};
use vstd::arithmetic::div_mod::{
    lemma_add_mod_noop, lemma_add_mod_noop_right, lemma_mod_bound, lemma_small_mod,
};
use vstd::arithmetic::power2::{lemma2_to64, lemma2_to64_rest, lemma_pow2_adds, pow2};
use vstd::prelude::*;

verus! {

/// The exact sum, over one vertex's ordered successor row, of the previous
/// round's walk counts.
pub open spec fn row_sum(prev: Seq<nat>, succ: Seq<usize>) -> nat
    decreases succ.len(),
{
    if succ.len() == 0 {
        0
    } else {
        row_sum(prev, succ.drop_last()) + prev[succ.last() as int]
    }
}

/// The walk-counter recurrence, exact (no reduction).  Entry `u` after `k`
/// rounds is the number of length-`k` walks that follow edges forward from
/// `u`, end anywhere, and touch only vertices whose exclusion bit in `mask`
/// is clear: round 0 holds 1 at every non-excluded vertex (the empty walk),
/// and each further round zeroes every excluded vertex and otherwise sums
/// the previous round over the vertex's successors.
pub open spec fn walks(adj: Seq<Seq<usize>>, mask: nat, k: nat) -> Seq<nat>
    decreases k,
{
    if k == 0 {
        Seq::new(
            adj.len(),
            |u: int|
                if bit_set(mask, u as nat) {
                    0nat
                } else {
                    1nat
                },
        )
    } else {
        let prev = walks(adj, mask, (k - 1) as nat);
        Seq::new(
            adj.len(),
            |u: int|
                if bit_set(mask, u as nat) {
                    0nat
                } else {
                    row_sum(prev, adj[u])
                },
        )
    }
}

/// The signed contribution of one mask: the count of restricted length-
/// `N - 1` walks starting at vertex 0 (and ending anywhere), negated when
/// the mask excludes an odd number of vertices.  Summed over all masks,
/// the contributions single out the walks that touch every vertex: the
/// Hamiltonian paths starting at vertex 0.
pub open spec fn contribution(adj: Seq<Seq<usize>>, mask: nat) -> int {
    let e = walks(adj, mask, (adj.len() - 1) as nat)[0];
    if pop(mask) % 2 == 0 {
        e as int
    } else {
        -(e as int)
    }
}

/// The inclusion–exclusion sum of the signed contributions of the masks in
/// `[lo, hi)`.
pub open spec fn signed_range(adj: Seq<Seq<usize>>, lo: nat, hi: nat) -> int
    decreases hi - lo,
{
    if hi <= lo {
        0
    } else {
        signed_range(adj, lo, (hi - 1) as nat) + contribution(adj, (hi - 1) as nat)
    }
}

/// The exact value the counter reduces: for a single vertex the raw edge
/// count, and otherwise the inclusion–exclusion sum over all `2^N`
/// exclusion masks.
pub open spec fn exact_total(adj: Seq<Seq<usize>>) -> int {
    if adj.len() == 1 {
        adj[0].len() as int
    } else {
        signed_range(adj, 0, pow2(adj.len()))
    }
}

/// What the counter returns: the exact total reduced into the ring of the
/// active modulus.
pub open spec fn count_spec(adj: Seq<Seq<usize>>, m: u64) -> int {
    exact_total(adj) % ring(m)
}

/// The signed contributions handled by lane `i` over the first `t` batches:
/// the masks `8 j + i` for `j < t`.
spec fn lane_sum(adj: Seq<Seq<usize>>, i: nat, t: nat) -> int
    decreases t,
{
    if t == 0 {
        0
    } else {
        lane_sum(adj, i, (t - 1) as nat) + contribution(adj, ((t - 1) * 8 + i) as nat)
    }
}

/// The sum of `lane_sum` over the lanes `i, i + 1, ..., 7`.
spec fn lanes_tail(adj: Seq<Seq<usize>>, i: nat, t: nat) -> int
    decreases 8 - i,
{
    if i >= 8 {
        0
    } else {
        lane_sum(adj, i, t) + lanes_tail(adj, (i + 1) as nat, t)
    }
}

/// A signed range can be peeled at its lower end.
proof fn lemma_signed_range_prepend(adj: Seq<Seq<usize>>, lo: nat, hi: nat)
    requires
        lo < hi,
    ensures
        signed_range(adj, lo, hi) == contribution(adj, lo) + signed_range(adj, (lo + 1) as nat, hi),
    decreases hi - lo,
{
    if lo + 1 < hi {
        lemma_signed_range_prepend(adj, lo, (hi - 1) as nat);
    } else {
        assert(signed_range(adj, lo, lo) == 0);
        assert(signed_range(adj, (lo + 1) as nat, hi) == 0);
    }
}

/// Adjacent signed ranges concatenate.
proof fn lemma_signed_range_concat(adj: Seq<Seq<usize>>, lo: nat, mid: nat, hi: nat)
    requires
        lo <= mid <= hi,
    ensures
        signed_range(adj, lo, hi) == signed_range(adj, lo, mid) + signed_range(adj, mid, hi),
    decreases hi - mid,
{
    if mid < hi {
        lemma_signed_range_concat(adj, lo, mid, (hi - 1) as nat);
    }
}

/// With no batches processed, every lane tail is empty.
proof fn lemma_lanes_tail_zero(adj: Seq<Seq<usize>>, i: nat)
    ensures
        lanes_tail(adj, i, 0) == 0,
    decreases 8 - i,
{
    if i < 8 {
        lemma_lanes_tail_zero(adj, (i + 1) as nat);
    }
}

/// One more batch adds, across the lanes `i..8`, exactly the contributions
/// of the masks `[8 t + i, 8 t + 8)`.
proof fn lemma_lanes_tail_step(adj: Seq<Seq<usize>>, i: nat, t: nat)
    requires
        i <= 8,
    ensures
        lanes_tail(adj, i, (t + 1) as nat) == lanes_tail(adj, i, t) + signed_range(
            adj,
            (8 * t + i) as nat,
            (8 * t + 8) as nat,
        ),
    decreases 8 - i,
{
    if i == 8 {
    } else {
        lemma_lanes_tail_step(adj, (i + 1) as nat, t);
        lemma_signed_range_prepend(adj, (8 * t + i) as nat, (8 * t + 8) as nat);
        assert(lane_sum(adj, i, (t + 1) as nat) == lane_sum(adj, i, t) + contribution(
            adj,
            (t * 8 + i) as nat,
        ));
    }
}

/// Splitting the mask space `[0, 8 t)` by lane index and summing the lanes
/// recovers the inclusion–exclusion sum in mask order.
proof fn lemma_lanes_regroup(adj: Seq<Seq<usize>>, t: nat)
    ensures
        lanes_tail(adj, 0, t) == signed_range(adj, 0, (8 * t) as nat),
    decreases t,
{
    if t == 0 {
        lemma_lanes_tail_zero(adj, 0);
    } else {
        lemma_lanes_regroup(adj, (t - 1) as nat);
        lemma_lanes_tail_step(adj, 0, (t - 1) as nat);
        lemma_signed_range_concat(adj, 0, (8 * (t - 1)) as nat, (8 * t) as nat);
    }
}

/// A lane accumulator holding each lane's reduced partial sum reduces, lane
/// by lane, to the reduced sum of the lane tails.
proof fn lemma_residue_fold(adj: Seq<Seq<usize>>, acc: Seq<u64>, i: nat, t: nat, m: u64)
    requires
        i <= 8,
        acc.len() == 8,
        forall|j: int| i <= j < 8 ==> (#[trigger] acc[j]) as int == lane_sum(adj, j as nat, t)
            % ring(m),
    ensures
        lane_values_sum(acc.skip(i as int)) % ring(m) == lanes_tail(adj, i, t) % ring(m),
    decreases 8 - i,
{
    let w = ring(m);
    if i == 8 {
        assert(acc.skip(8) =~= Seq::<u64>::empty());
        assert(0int % w == 0);
    } else {
        lemma_residue_fold(adj, acc, (i + 1) as nat, t, m);
        let ls = lane_sum(adj, i, t);
        let t1 = lanes_tail(adj, (i + 1) as nat, t);
        let lvs1 = lane_values_sum(acc.skip(i as int + 1));
        assert(acc.skip(i as int).first() == acc[i as int]);
        assert(acc.skip(i as int).drop_first() =~= acc.skip(i as int + 1));
        lemma_add_mod_noop_right(acc[i as int] as int, lvs1, w);
        lemma_add_mod_noop_right(acc[i as int] as int, t1, w);
        lemma_add_mod_noop_right(ls % w, t1, w);
        lemma_add_mod_noop(ls, t1, w);
    }
}

/// What a full lane accumulator reduces to: the inclusion–exclusion sum of
/// every mask the `t` batches covered.
proof fn lemma_total_from_lanes(adj: Seq<Seq<usize>>, acc: Seq<u64>, t: nat, m: u64)
    requires
        acc.len() == 8,
        forall|j: int| 0 <= j < 8 ==> (#[trigger] acc[j]) as int == lane_sum(adj, j as nat, t)
            % ring(m),
    ensures
        lane_values_sum(acc) % ring(m) == signed_range(adj, 0, (8 * t) as nat) % ring(m),
{
    lemma_residue_fold(adj, acc, 0, t, m);
    lemma_lanes_regroup(adj, t);
    assert(acc.skip(0) =~= acc);
}

/// The lane view of a vector of lane vectors.
spec fn lanes_view(v: Seq<Vec<u64>>) -> Seq<Seq<u64>> {
    Seq::new(v.len(), |u: int| v[u]@)
}

/// The lockstep DP state after `k` rounds: row `u`, lane `i` holds the
/// reduced walk count of mask `base + i`.
spec fn state_ok(
    adj: Seq<Seq<usize>>,
    m: u64,
    base: u64,
    st: Seq<Seq<u64>>,
    k: nat,
) -> bool {
    &&& st.len() == adj.len()
    &&& forall|u: int| 0 <= u < st.len() ==> (#[trigger] st[u]).len() == 8
    &&& forall|u: int, i: int|
        0 <= u < st.len() && 0 <= i < 8 ==> reduced(m, #[trigger] st[u][i]) && st[u][i] as int
            == (walks(adj, (base + i) as nat, k)[u] as int) % ring(m)
}

/// A lane vector holding `x` in every lane.
fn lane_splat(x: u64) -> (v: Vec<u64>)
    ensures
        v@.len() == 8,
        forall|i: int| 0 <= i < 8 ==> v@[i] == x,
{
    let mut v: Vec<u64> = Vec::new();
    for j in 0..8usize
        invariant
            v@.len() == j,
            forall|i: int| 0 <= i < j ==> v@[i] == x,
    {
        v.push(x);
    }
    v
}

/// The reduced partial accumulator value for vertex `u` after the first `j`
/// successors of the row were folded in: zero wherever the lane's mask
/// excludes `u`.
spec fn acc_val(
    adj: Seq<Seq<usize>>,
    m: u64,
    base: u64,
    u: int,
    j: int,
    i: int,
    k: nat,
) -> int {
    if bit_set((base + i) as nat, u as nat) {
        0int
    } else {
        (row_sum(walks(adj, (base + i) as nat, k), adj[u].take(j)) as int) % ring(m)
    }
}

/// One relaxation round over a batch, testing every vertex's exclusion bit
/// once per lane.
fn relax_round_plain(
    g: &Graph,
    m: u64,
    base: u64,
    old: &Vec<Vec<u64>>,
    Ghost(k): Ghost<nat>,
) -> (next: Vec<Vec<u64>>)
    requires
        g.wf(),
        modulus_ok(m),
        base + 8 <= u64::MAX,
        state_ok(g@, m, base, lanes_view(old@), k),
    ensures
        state_ok(g@, m, base, lanes_view(next@), (k + 1) as nat),
{
    let n = g.vertex_count();
    let mut next: Vec<Vec<u64>> = Vec::new();
    for u in 0..n
        invariant
            g.wf(),
            modulus_ok(m),
            base + 8 <= u64::MAX,
            n == g@.len(),
            state_ok(g@, m, base, lanes_view(old@), k),
            next@.len() == u,
            forall|uu: int| 0 <= uu < u ==> (#[trigger] next@[uu]@).len() == 8,
            forall|uu: int, i: int|
                0 <= uu < u && 0 <= i < 8 ==> reduced(m, #[trigger] next@[uu]@[i])
                    && next@[uu]@[i] as int == (walks(g@, (base + i) as nat, (k + 1) as nat)[uu] as int)
                    % ring(m),
    {
        let succ = g.successors(u);
        let mut acc = lane_splat(0);
        proof {
            assert(g@[u as int].take(0) =~= Seq::<usize>::empty());
            assert(0int % ring(m) == 0);
        }
        let slen = succ.len();
        for j in 0..slen
            invariant
                g.wf(),
                modulus_ok(m),
                base + 8 <= u64::MAX,
                n == g@.len(),
                u < n,
                state_ok(g@, m, base, lanes_view(old@), k),
                succ@ == g@[u as int],
                slen == succ@.len(),
                acc@.len() == 8,
                forall|i: int| 0 <= i < 8 ==> reduced(m, #[trigger] acc@[i]),
                forall|i: int|
                    0 <= i < 8 ==> (#[trigger] acc@[i]) as int == acc_val(
                        g@,
                        m,
                        base,
                        u as int,
                        j as int,
                        i,
                        k,
                    ),
        {
            let v = succ[j];
            assert(v < n);
            let ghost jj = j as int;
            for i in 0..8usize
                invariant
                    g.wf(),
                    modulus_ok(m),
                    base + 8 <= u64::MAX,
                    n == g@.len(),
                    u < n,
                    0 <= jj < g@[u as int].len(),
                    v == g@[u as int][jj],
                    v < n,
                    state_ok(g@, m, base, lanes_view(old@), k),
                    acc@.len() == 8,
                    forall|ii: int| 0 <= ii < 8 ==> reduced(m, #[trigger] acc@[ii]),
                    forall|ii: int|
                        i <= ii < 8 ==> (#[trigger] acc@[ii]) as int == acc_val(
                            g@,
                            m,
                            base,
                            u as int,
                            jj,
                            ii,
                            k,
                        ),
                    forall|ii: int|
                        0 <= ii < i ==> (#[trigger] acc@[ii]) as int == acc_val(
                            g@,
                            m,
                            base,
                            u as int,
                            jj + 1,
                            ii,
                            k,
                        ),
            {
                proof {
                    assert(lanes_view(old@).len() == old@.len());
                    assert(lanes_view(old@)[v as int] == old@[v as int]@);
                }
                let cand = crate::arith::add(m, acc[i], old[v][i]);
                let excl = crate::arith::test_bit(base + (i as u64), u as u32);
                proof {
                    let w = ring(m);
                    let mask = (base + i) as nat;
                    let prev = walks(g@, mask, k);
                    let row = g@[u as int];
                    assert(row.take(jj + 1).drop_last() =~= row.take(jj));
                    assert(row.take(jj + 1).last() == row[jj]);
                    assert(lanes_view(old@)[v as int][i as int] == old@[v as int]@[i as int]);
                    if !bit_set(mask, u as nat) {
                        lemma_add_mod_noop(
                            row_sum(prev, row.take(jj)) as int,
                            prev[v as int] as int,
                            w,
                        );
                    }
                }
                if !excl {
                    acc[i] = cand;
                }
            }
        }
        proof {
            assert(g@[u as int].take(slen as int) =~= g@[u as int]);
            assert(0int % ring(m) == 0);
            assert(forall|i: int|
                0 <= i < 8 ==> #[trigger] walks(g@, (base + i) as nat, (k + 1) as nat)[u as int]
                    == (if bit_set((base + i) as nat, u as nat) {
                    0nat
                } else {
                    row_sum(walks(g@, (base + i) as nat, k), g@[u as int])
                }));
        }
        next.push(acc);
    }
    next
}

/// The initial DP state: one empty walk at every vertex the lane's mask
/// does not exclude.
fn initial_state(n: usize, Ghost(adj): Ghost<Seq<Seq<usize>>>, m: u64, base: u64) -> (st: Vec<
    Vec<u64>,
>)
    requires
        adj.len() == n,
        n <= 31,
        modulus_ok(m),
        base + 8 <= u64::MAX,
    ensures
        state_ok(adj, m, base, lanes_view(st@), 0),
{
    let one = if m == 0 {
        1
    } else {
        1 % m
    };
    proof {
        if m == 0 {
            lemma_small_mod(1, 0x1_0000_0000_0000_0000);
        }
        assert(0int % ring(m) == 0);
    }
    let mut st: Vec<Vec<u64>> = Vec::new();
    for u in 0..n
        invariant
            n == adj.len(),
            n <= 31,
            modulus_ok(m),
            base + 8 <= u64::MAX,
            one as int == 1int % ring(m),
            reduced(m, one),
            st@.len() == u,
            forall|uu: int| 0 <= uu < u ==> (#[trigger] st@[uu]@).len() == 8,
            forall|uu: int, i: int|
                0 <= uu < u && 0 <= i < 8 ==> reduced(m, #[trigger] st@[uu]@[i]) && st@[uu]@[i]
                    == (if bit_set((base + i) as nat, uu as nat) {
                    0u64
                } else {
                    one
                }),
    {
        let mut row: Vec<u64> = Vec::new();
        for i in 0..8usize
            invariant
                n <= 31,
                u < n,
                base + 8 <= u64::MAX,
                row@.len() == i,
                forall|ii: int|
                    0 <= ii < i ==> (#[trigger] row@[ii]) == (if bit_set(
                        (base + ii) as nat,
                        u as nat,
                    ) {
                        0u64
                    } else {
                        one
                    }),
        {
            if crate::arith::test_bit(base + (i as u64), u as u32) {
                row.push(0);
            } else {
                row.push(one);
            }
        }
        st.push(row);
    }
    proof {
        assert(0int % ring(m) == 0);
    }
    st
}

/// Runs the `N - 1` relaxation rounds for one batch of eight masks, with
/// the bit-tier refinement switched by `tiered`.
fn batch_walks(g: &Graph, m: u64, base: u64, tiered: bool) -> (st: Vec<Vec<u64>>)
    requires
        g.wf(),
        modulus_ok(m),
        base % 8 == 0,
        base + 8 <= u64::MAX,
    ensures
        state_ok(g@, m, base, lanes_view(st@), (g@.len() - 1) as nat),
{
    let n = g.vertex_count();
    let mut st = initial_state(n, Ghost(g@), m, base);
    let mut k: usize = 0;
    while k < n - 1
        invariant
            g.wf(),
            modulus_ok(m),
            base % 8 == 0,
            base + 8 <= u64::MAX,
            n == g@.len(),
            n >= 1,
            k <= n - 1,
            state_ok(g@, m, base, lanes_view(st@), k as nat),
        decreases n - k,
    {
        if tiered {
            st = relax_round_tiered(g, m, base, &st, Ghost(k as nat));
        } else {
            st = relax_round_plain(g, m, base, &st, Ghost(k as nat));
        }
        k = k + 1;
    }
    st
}

/// Applies the inclusion–exclusion sign to one batch's final walk counts:
/// lane `i` becomes the reduced signed contribution of mask `base + i`.
fn batch_signs(
    m: u64,
    base: u64,
    row0: &Vec<u64>,
    Ghost(adj): Ghost<Seq<Seq<usize>>>,
) -> (c: Vec<u64>)
    requires
        modulus_ok(m),
        base + 8 <= u64::MAX,
        row0@.len() == 8,
        forall|i: int|
            0 <= i < 8 ==> reduced(m, #[trigger] row0@[i]) && row0@[i] as int == (walks(
                adj,
                (base + i) as nat,
                (adj.len() - 1) as nat,
            )[0] as int) % ring(m),
    ensures
        c@.len() == 8,
        forall|i: int|
            0 <= i < 8 ==> reduced(m, #[trigger] c@[i]) && c@[i] as int == contribution(
                adj,
                (base + i) as nat,
            ) % ring(m),
{
    let mut c: Vec<u64> = Vec::new();
    for i in 0..8usize
        invariant
            modulus_ok(m),
            base + 8 <= u64::MAX,
            row0@.len() == 8,
            forall|ii: int|
                0 <= ii < 8 ==> reduced(m, #[trigger] row0@[ii]) && row0@[ii] as int == (walks(
                    adj,
                    (base + ii) as nat,
                    (adj.len() - 1) as nat,
                )[0] as int) % ring(m),
            c@.len() == i,
            forall|ii: int|
                0 <= ii < i ==> reduced(m, #[trigger] c@[ii]) && c@[ii] as int == contribution(
                    adj,
                    (base + ii) as nat,
                ) % ring(m),
    {
        let d = row0[i];
        let pc = crate::arith::popcount(base + (i as u64));
        let val = if pc % 2 == 0 {
            d
        } else if d == 0 {
            0
        } else if m == 0 {
            (0u64).wrapping_sub(d)
        } else {
            m - d
        };
        proof {
            let w = ring(m);
            let e = walks(adj, (base + i) as nat, (adj.len() - 1) as nat)[0];
            if pc % 2 != 0 {
                crate::arith::lemma_neg_mod(e as int, w);
            }
        }
        c.push(val);
    }
    c
}

/// The signed lane contributions of the batch of masks `[base, base + 8)`.
fn batch_contribution(g: &Graph, m: u64, base: u64, tiered: bool) -> (c: Vec<u64>)
    requires
        g.wf(),
        modulus_ok(m),
        base % 8 == 0,
        base + 8 <= u64::MAX,
    ensures
        c@.len() == 8,
        forall|i: int|
            0 <= i < 8 ==> reduced(m, #[trigger] c@[i]) && c@[i] as int == contribution(
                g@,
                (base + i) as nat,
            ) % ring(m),
{
    let st = batch_walks(g, m, base, tiered);
    proof {
        assert(lanes_view(st@)[0] == st@[0]@);
    }
    batch_signs(m, base, &st[0], Ghost(g@))
}

/// Folds the first `cnt` lanes of a batch's signed contributions into one
/// reduced scalar, in mask order.
fn fold_lanes_prefix(
    m: u64,
    c: &Vec<u64>,
    cnt: usize,
    base: u64,
    Ghost(adj): Ghost<Seq<Seq<usize>>>,
) -> (r: u64)
    requires
        modulus_ok(m),
        c@.len() == 8,
        cnt <= 8,
        base + 8 <= u64::MAX,
        forall|i: int|
            0 <= i < 8 ==> reduced(m, #[trigger] c@[i]) && c@[i] as int == contribution(
                adj,
                (base + i) as nat,
            ) % ring(m),
    ensures
        r as int == signed_range(adj, base as nat, (base + cnt) as nat) % ring(m),
        reduced(m, r),
{
    let mut r: u64 = 0;
    proof {
        assert(signed_range(adj, base as nat, base as nat) == 0);
        assert(0int % ring(m) == 0);
    }
    for j in 0..cnt
        invariant
            modulus_ok(m),
            c@.len() == 8,
            cnt <= 8,
            base + 8 <= u64::MAX,
            forall|i: int|
                0 <= i < 8 ==> reduced(m, #[trigger] c@[i]) && c@[i] as int == contribution(
                    adj,
                    (base + i) as nat,
                ) % ring(m),
            r as int == signed_range(adj, base as nat, (base + j) as nat) % ring(m),
            reduced(m, r),
    {
        proof {
            let w = ring(m);
            let s = signed_range(adj, base as nat, (base + j) as nat);
            let ctr = contribution(adj, (base + j) as nat);
            assert(signed_range(adj, base as nat, (base + j + 1) as nat) == s + ctr);
            lemma_add_mod_noop(s, ctr, w);
        }
        r = crate::arith::add(m, r, c[j]);
    }
    r
}

/// The shared driver: enumerates the mask space in aligned batches of
/// eight, keeps one reduced partial sum per lane, and reduces the lane
/// accumulator to a scalar at the end of the run.
fn count_core(g: &Graph, m: u64, tiered: bool) -> (r: u64)
    requires
        g.wf(),
        modulus_ok(m),
    ensures
        r as int == count_spec(g@, m),
        reduced(m, r),
{
    let n = g.vertex_count();
    if n == 1 {
        let k = g.successors(0).len();
        let kk = k as u64;
        if m == 0 {
            proof {
                lemma_small_mod(k as nat, 0x1_0000_0000_0000_0000);
            }
            kk
        } else {
            proof {
                lemma_mod_bound(k as int, m as int);
            }
            kk % m
        }
    } else if n == 2 {
        let c = batch_contribution(g, m, 0, tiered);
        let r = fold_lanes_prefix(m, &c, 4, 0, Ghost(g@));
        proof {
            lemma2_to64();
        }
        r
    } else {
        let batches = 1u64 << ((n as u64) - 3);
        proof {
            lemma2_to64();
            lemma2_to64_rest();
            vstd::arithmetic::power2::lemma_pow2_strictly_increases((n - 3) as nat, 29);
            vstd::bits::lemma_u64_shl_is_mul(1u64, (n - 3) as u64);
        }
        let mut acc = lane_splat(0);
        let mut t: u64 = 0;
        proof {
            assert(0int % ring(m) == 0);
        }
        while t < batches
            invariant
                g.wf(),
                modulus_ok(m),
                n == g@.len(),
                3 <= n <= 31,
                batches == pow2((n - 3) as nat),
                batches <= 0x1000_0000,
                t <= batches,
                acc@.len() == 8,
                forall|i: int|
                    0 <= i < 8 ==> reduced(m, #[trigger] acc@[i]) && acc@[i] as int == lane_sum(
                        g@,
                        i as nat,
                        t as nat,
                    ) % ring(m),
            decreases batches - t,
        {
            let base = t * 8;
            proof {
                vstd::arithmetic::div_mod::lemma_mod_multiples_basic(t as int, 8);
            }
            let c = batch_contribution(g, m, base, tiered);
            for i in 0..8usize
                invariant
                    modulus_ok(m),
                    t < batches,
                    batches <= 0x1000_0000,
                    base == t * 8,
                    c@.len() == 8,
                    acc@.len() == 8,
                    forall|ii: int|
                        0 <= ii < 8 ==> reduced(m, #[trigger] c@[ii]) && c@[ii] as int
                            == contribution(g@, (base + ii) as nat) % ring(m),
                    forall|ii: int|
                        i <= ii < 8 ==> reduced(m, #[trigger] acc@[ii]) && acc@[ii] as int
                            == lane_sum(g@, ii as nat, t as nat) % ring(m),
                    forall|ii: int|
                        0 <= ii < i ==> reduced(m, #[trigger] acc@[ii]) && acc@[ii] as int
                            == lane_sum(g@, ii as nat, (t + 1) as nat) % ring(m),
            {
                proof {
                    let w = ring(m);
                    let ls = lane_sum(g@, i as nat, t as nat);
                    let ctr = contribution(g@, (t * 8 + i) as nat);
                    assert(lane_sum(g@, i as nat, (t + 1) as nat) == ls + ctr);
                    lemma_add_mod_noop(ls, ctr, w);
                }
                acc[i] = crate::arith::add(m, acc[i], c[i]);
            }
            t = t + 1;
        }
        let r = crate::arith::finalize(m, &acc);
        proof {
            lemma_total_from_lanes(g@, acc@, batches as nat, m);
            lemma_pow2_adds(3, (n - 3) as nat);
            assert(8 * (batches as nat) == pow2(n as nat));
        }
        r
    }
}

/// High mask bits are batch-uniform: the eight lanes of an aligned batch of
/// consecutive masks agree with the batch's base mask on every bit of index
/// at least 4 (`2^u >= 2 B`), since the batch spans fewer than `2^u` values.
proof fn lemma_high_bit_uniform(base: u64, i: u64, u: u64)
    requires
        base % 8 == 0,
        base <= 0xFFFF_FFFF_FFFF_FFF7,
        i < 8,
        4 <= u < 64,
    ensures
        bit_set((base + i) as nat, u as nat) == bit_set(base as nat, u as nat),
{
    let y = (base + i) as u64;
    assert((y >> u) & 1 == (base >> u) & 1 && y == base + i) by (bit_vector)
        requires
            base % 8 == 0,
            base <= 0xFFFF_FFFF_FFFF_FFF7u64,
            i < 8,
            4 <= u < 64,
            y == (base + i) as u64,
    ;
    vstd::bits::lemma_u64_shr_is_div(y, u);
    vstd::bits::lemma_u64_shr_is_div(base, u);
    let sy = y >> u;
    let sb = base >> u;
    assert((sy & 1) == sy % 2 && (sb & 1) == sb % 2) by (bit_vector);
}

/// One relaxation round over a batch with the bit-tier refinement: exclusion
/// bits of index at least 4 are tested once per batch on the base mask (and
/// the whole accumulation skipped when set); lower bits vary across the
/// lanes and are tested per lane.
fn relax_round_tiered(
    g: &Graph,
    m: u64,
    base: u64,
    old: &Vec<Vec<u64>>,
    Ghost(k): Ghost<nat>,
) -> (next: Vec<Vec<u64>>)
    requires
        g.wf(),
        modulus_ok(m),
        base % 8 == 0,
        base + 8 <= u64::MAX,
        state_ok(g@, m, base, lanes_view(old@), k),
    ensures
        state_ok(g@, m, base, lanes_view(next@), (k + 1) as nat),
{
    let n = g.vertex_count();
    let mut next: Vec<Vec<u64>> = Vec::new();
    for u in 0..n
        invariant
            g.wf(),
            modulus_ok(m),
            base % 8 == 0,
            base + 8 <= u64::MAX,
            n == g@.len(),
            n <= 31,
            state_ok(g@, m, base, lanes_view(old@), k),
            next@.len() == u,
            forall|uu: int| 0 <= uu < u ==> (#[trigger] next@[uu]@).len() == 8,
            forall|uu: int, i: int|
                0 <= uu < u && 0 <= i < 8 ==> reduced(m, #[trigger] next@[uu]@[i])
                    && next@[uu]@[i] as int == (walks(g@, (base + i) as nat, (k + 1) as nat)[uu]
                    as int) % ring(m),
    {
        if u >= 4 && crate::arith::test_bit(base, u as u32) {
            proof {
                assert forall|i: int| 0 <= i < 8 implies #[trigger] bit_set(
                    (base + i) as nat,
                    u as nat,
                ) by {
                    lemma_high_bit_uniform(base, i as u64, u as u64);
                }
                assert(0int % ring(m) == 0);
            }
            next.push(lane_splat(0));
        } else {
            let ghost tier_clear = u >= 4;
            proof {
                if tier_clear {
                    assert forall|i: int| 0 <= i < 8 implies !(#[trigger] bit_set(
                        (base + i) as nat,
                        u as nat,
                    )) by {
                        lemma_high_bit_uniform(base, i as u64, u as u64);
                    }
                }
            }
            let succ = g.successors(u);
            let mut acc = lane_splat(0);
            proof {
                assert(g@[u as int].take(0) =~= Seq::<usize>::empty());
                assert(0int % ring(m) == 0);
            }
            let slen = succ.len();
            for j in 0..slen
                invariant
                    g.wf(),
                    modulus_ok(m),
                    base % 8 == 0,
                    base + 8 <= u64::MAX,
                    n == g@.len(),
                    u < n,
                    u < 64,
                    state_ok(g@, m, base, lanes_view(old@), k),
                    succ@ == g@[u as int],
                    slen == succ@.len(),
                    tier_clear == (u >= 4),
                    tier_clear ==> forall|i: int|
                        0 <= i < 8 ==> !(#[trigger] bit_set((base + i) as nat, u as nat)),
                    acc@.len() == 8,
                    forall|i: int| 0 <= i < 8 ==> reduced(m, #[trigger] acc@[i]),
                    forall|i: int|
                        0 <= i < 8 ==> (#[trigger] acc@[i]) as int == acc_val(
                            g@,
                            m,
                            base,
                            u as int,
                            j as int,
                            i,
                            k,
                        ),
            {
                let v = succ[j];
                assert(v < n);
                let ghost jj = j as int;
                for i in 0..8usize
                    invariant
                        g.wf(),
                        modulus_ok(m),
                        base % 8 == 0,
                        base + 8 <= u64::MAX,
                        n == g@.len(),
                        u < n,
                        u < 64,
                        0 <= jj < g@[u as int].len(),
                        v == g@[u as int][jj],
                        v < n,
                        state_ok(g@, m, base, lanes_view(old@), k),
                        tier_clear == (u >= 4),
                        tier_clear ==> forall|ii: int|
                            0 <= ii < 8 ==> !(#[trigger] bit_set((base + ii) as nat, u as nat)),
                        acc@.len() == 8,
                        forall|ii: int| 0 <= ii < 8 ==> reduced(m, #[trigger] acc@[ii]),
                        forall|ii: int|
                            i <= ii < 8 ==> (#[trigger] acc@[ii]) as int == acc_val(
                                g@,
                                m,
                                base,
                                u as int,
                                jj,
                                ii,
                                k,
                            ),
                        forall|ii: int|
                            0 <= ii < i ==> (#[trigger] acc@[ii]) as int == acc_val(
                                g@,
                                m,
                                base,
                                u as int,
                                jj + 1,
                                ii,
                                k,
                            ),
                {
                    proof {
                        assert(lanes_view(old@).len() == old@.len());
                        assert(lanes_view(old@)[v as int] == old@[v as int]@);
                    }
                    let cand = crate::arith::add(m, acc[i], old[v][i]);
                    proof {
                        let w = ring(m);
                        let mask = (base + i) as nat;
                        let prev = walks(g@, mask, k);
                        let row = g@[u as int];
                        assert(row.take(jj + 1).drop_last() =~= row.take(jj));
                        assert(row.take(jj + 1).last() == row[jj]);
                        if !bit_set(mask, u as nat) {
                            lemma_add_mod_noop(
                                row_sum(prev, row.take(jj)) as int,
                                prev[v as int] as int,
                                w,
                            );
                        }
                    }
                    if u >= 4 {
                        acc[i] = cand;
                    } else {
                        let excl = crate::arith::test_bit(base + (i as u64), u as u32);
                        if !excl {
                            acc[i] = cand;
                        }
                    }
                }
            }
            proof {
                assert(g@[u as int].take(slen as int) =~= g@[u as int]);
                assert(0int % ring(m) == 0);
                assert(forall|i: int|
                    0 <= i < 8 ==> #[trigger] walks(g@, (base + i) as nat, (k + 1) as nat)[u as int]
                        == (if bit_set((base + i) as nat, u as nat) {
                        0nat
                    } else {
                        row_sum(walks(g@, (base + i) as nat, k), g@[u as int])
                    }));
            }
            next.push(acc);
        }
    }
    next
}

/// Counts the directed Hamiltonian paths starting at vertex 0: for every
/// vertex-exclusion mask the restricted length-`N - 1` walks from vertex 0
/// are counted and the per-mask counts folded with alternating signs into
/// one scalar, reduced by the modulus `m` (`0` meaning native `u64`
/// wraparound); a single-vertex graph reports its raw edge count.  High
/// exclusion bits are tested once per batch (the bit-tier refinement).
pub fn count_hamiltonian_paths(g: &Graph, m: u64) -> (r: u64)
    requires
        g.wf(),
        modulus_ok(m),
    ensures
        r as int == count_spec(g@, m),
        reduced(m, r),
{
    count_core(g, m, true)
}

/// The same count with the bit-tier refinement disabled: every exclusion
/// bit is tested per lane.
pub fn count_hamiltonian_paths_plain(g: &Graph, m: u64) -> (r: u64)
    requires
        g.wf(),
        modulus_ok(m),
    ensures
        r as int == count_spec(g@, m),
        reduced(m, r),
{
    count_core(g, m, false)
}

/// The exact partial sum a flat edge list contributes to vertex `u`: over
/// the pairs seen so far, the previous round's count at each pair's target,
/// for the pairs whose source is `u`.
spec fn edge_partial(prev: Seq<nat>, edges: Seq<(usize, usize)>, u: int) -> nat
    decreases edges.len(),
{
    if edges.len() == 0 {
        0
    } else {
        edge_partial(prev, edges.drop_last(), u) + (if edges.last().0 == u {
            prev[edges.last().1 as int]
        } else {
            0nat
        })
    }
}

/// Grouping a flat edge list by source vertex keeps its row count.
proof fn lemma_adjacency_of_len(n: nat, edges: Seq<(usize, usize)>)
    requires
        edges_in_range(n, edges),
    ensures
        adjacency_of(n, edges).len() == n,
    decreases edges.len(),
{
    if edges.len() > 0 {
        let rest = edges.drop_last();
        assert(edges_in_range(n, rest)) by {
            assert(forall|i: int| 0 <= i < rest.len() ==> rest[i] == #[trigger] edges[i]);
        }
        lemma_adjacency_of_len(n, rest);
        let prev = adjacency_of(n, rest);
        let e = edges.last();
        assert(e == edges[edges.len() - 1]);
        assert(adjacency_of(n, edges) == prev.update(e.0 as int, prev[e.0 as int].push(e.1)));
    } else {
        assert(adjacency_of(n, edges) == empty_adjacency(n));
        assert(empty_adjacency(n).len() == n);
    }
}

/// Folding a flat edge list edge by edge or vertex by vertex gives the same
/// sums: the list's partial sums equal the row sums of its grouped
/// adjacency lists.
proof fn lemma_edge_partial_grouped(prev: Seq<nat>, n: nat, edges: Seq<(usize, usize)>, u: int)
    requires
        0 <= u < n,
        edges_in_range(n, edges),
    ensures
        edge_partial(prev, edges, u) == row_sum(prev, adjacency_of(n, edges)[u]),
    decreases edges.len(),
{
    if edges.len() == 0 {
    } else {
        let rest = edges.drop_last();
        assert(edges_in_range(n, rest)) by {
            assert(forall|i: int| 0 <= i < rest.len() ==> rest[i] == #[trigger] edges[i]);
        }
        lemma_edge_partial_grouped(prev, n, rest, u);
        lemma_adjacency_of_len(n, rest);
        let e = edges.last();
        let prevadj = adjacency_of(n, rest);
        assert(edges[edges.len() - 1] == e);
        assert(e.0 < n);
        if e.0 == u {
            let row = prevadj[u];
            assert(row.push(e.1).drop_last() =~= row);
            assert(row.push(e.1).last() == e.1);
        }
    }
}

/// A single-vertex graph's grouped adjacency row holds every pair.
proof fn lemma_single_vertex_edges(el: Seq<(usize, usize)>)
    requires
        edges_in_range(1, el),
    ensures
        adjacency_of(1, el)[0].len() == el.len(),
    decreases el.len(),
{
    if el.len() > 0 {
        let rest = el.drop_last();
        assert(edges_in_range(1, rest)) by {
            assert(forall|i: int| 0 <= i < rest.len() ==> rest[i] == #[trigger] el[i]);
        }
        lemma_single_vertex_edges(rest);
        lemma_adjacency_of_len(1, rest);
        assert(el[el.len() - 1] == el.last());
        assert(el.last().0 == 0);
    }
}

/// The reduced partial value of row `u`, lane `i`, after the pairs `taken`
/// of the flat list were folded in: zero wherever the lane's mask excludes
/// `u`.
spec fn edge_acc_val(
    adj: Seq<Seq<usize>>,
    m: u64,
    base: u64,
    taken: Seq<(usize, usize)>,
    u: int,
    i: int,
    k: nat,
) -> int {
    if bit_set((base + i) as nat, u as nat) {
        0int
    } else {
        (edge_partial(walks(adj, (base + i) as nat, k), taken, u) as int) % ring(m)
    }
}

/// One relaxation round over a batch, reading the graph in its flat
/// edge-list form: the update runs once per pair, with a per-lane exclusion
/// test on the pair's source vertex.
fn relax_round_edges(
    n: usize,
    edges: &Vec<(usize, usize)>,
    m: u64,
    base: u64,
    old: &Vec<Vec<u64>>,
    Ghost(k): Ghost<nat>,
) -> (next: Vec<Vec<u64>>)
    requires
        1 <= n <= 31,
        edges_in_range(n as nat, edges@),
        modulus_ok(m),
        base + 8 <= u64::MAX,
        state_ok(adjacency_of(n as nat, edges@), m, base, lanes_view(old@), k),
    ensures
        state_ok(adjacency_of(n as nat, edges@), m, base, lanes_view(next@), (k + 1) as nat),
{
    let ghost adj = adjacency_of(n as nat, edges@);
    proof {
        lemma_adjacency_of_len(n as nat, edges@);
        assert(edges@.take(0) =~= Seq::<(usize, usize)>::empty());
        assert(0int % ring(m) == 0);
    }
    let mut next: Vec<Vec<u64>> = Vec::new();
    for u in 0..n
        invariant
            next@.len() == u,
            forall|uu: int| 0 <= uu < u ==> (#[trigger] next@[uu]@).len() == 8,
            forall|uu: int, i: int|
                0 <= uu < u && 0 <= i < 8 ==> (#[trigger] next@[uu]@[i]) == 0u64,
    {
        next.push(lane_splat(0));
    }
    for idx in 0..edges.len()
        invariant
            1 <= n <= 31,
            edges_in_range(n as nat, edges@),
            modulus_ok(m),
            base + 8 <= u64::MAX,
            adj == adjacency_of(n as nat, edges@),
            adj.len() == n,
            state_ok(adj, m, base, lanes_view(old@), k),
            next@.len() == n,
            forall|uu: int| 0 <= uu < n ==> (#[trigger] next@[uu]@).len() == 8,
            forall|uu: int, i: int|
                0 <= uu < n && 0 <= i < 8 ==> reduced(m, #[trigger] next@[uu]@[i])
                    && next@[uu]@[i] as int == edge_acc_val(
                    adj,
                    m,
                    base,
                    edges@.take(idx as int),
                    uu,
                    i,
                    k,
                ),
    {
        let (eu, ev) = edges[idx];
        assert(eu < n && ev < n);
        let ghost ii_dx = idx as int;
        for i in 0..8usize
            invariant
                1 <= n <= 31,
                edges_in_range(n as nat, edges@),
                modulus_ok(m),
                base + 8 <= u64::MAX,
                adj == adjacency_of(n as nat, edges@),
                adj.len() == n,
                state_ok(adj, m, base, lanes_view(old@), k),
                0 <= ii_dx < edges@.len(),
                (eu, ev) == edges@[ii_dx],
                eu < n,
                ev < n,
                next@.len() == n,
                forall|uu: int| 0 <= uu < n ==> (#[trigger] next@[uu]@).len() == 8,
                forall|uu: int, ii: int|
                    0 <= uu < n && 0 <= ii < 8 ==> reduced(m, #[trigger] next@[uu]@[ii]),
                forall|uu: int, ii: int|
                    0 <= uu < n && 0 <= ii < 8 && !(uu == eu && ii < i) ==> (#[trigger] next@[uu]@[ii])
                        as int == edge_acc_val(adj, m, base, edges@.take(ii_dx), uu, ii, k),
                forall|ii: int|
                    0 <= ii < i ==> (#[trigger] next@[eu as int]@[ii]) as int == edge_acc_val(
                        adj,
                        m,
                        base,
                        edges@.take(ii_dx + 1),
                        eu as int,
                        ii,
                        k,
                    ),
        {
            proof {
                assert(lanes_view(old@).len() == old@.len());
                assert(lanes_view(old@)[ev as int] == old@[ev as int]@);
            }
            let cand = crate::arith::add(m, next[eu][i], old[ev][i]);
            let excl = crate::arith::test_bit(base + (i as u64), eu as u32);
            proof {
                let w = ring(m);
                let mask = (base + i) as nat;
                let prev = walks(adj, mask, k);
                assert(edges@.take(ii_dx + 1).drop_last() =~= edges@.take(ii_dx));
                assert(edges@.take(ii_dx + 1).last() == edges@[ii_dx]);
                if !bit_set(mask, eu as nat) {
                    lemma_add_mod_noop(
                        edge_partial(prev, edges@.take(ii_dx), eu as int) as int,
                        prev[ev as int] as int,
                        w,
                    );
                }
            }
            if !excl {
                next[eu][i] = cand;
            }
        }
        proof {
            assert(edges@.take(ii_dx + 1).drop_last() =~= edges@.take(ii_dx));
            assert(edges@.take(ii_dx + 1).last() == edges@[ii_dx]);
            assert(forall|uu: int, ii: int|
                0 <= uu < n && 0 <= ii < 8 && uu != eu ==> edge_acc_val(
                    adj,
                    m,
                    base,
                    edges@.take(ii_dx + 1),
                    uu,
                    ii,
                    k,
                ) == #[trigger] edge_acc_val(adj, m, base, edges@.take(ii_dx), uu, ii, k));
        }
    }
    proof {
        assert(edges@.take(edges@.len() as int) =~= edges@);
        assert(0int % ring(m) == 0);
        assert forall|uu: int, i: int| 0 <= uu < n && 0 <= i < 8 implies lanes_view(next@)[uu][i]
            as int == (walks(adj, (base + i) as nat, (k + 1) as nat)[uu] as int) % ring(m) by {
            let mask = (base + i) as nat;
            let prev = walks(adj, mask, k);
            lemma_edge_partial_grouped(prev, n as nat, edges@, uu);
            assert(walks(adj, mask, (k + 1) as nat)[uu] == (if bit_set(mask, uu as nat) {
                0nat
            } else {
                row_sum(prev, adj[uu])
            }));
        }
    }
    next
}

/// Runs the `N - 1` relaxation rounds for one batch, reading the graph in
/// its flat edge-list form.
fn batch_walks_edges(n: usize, edges: &Vec<(usize, usize)>, m: u64, base: u64) -> (st: Vec<
    Vec<u64>,
>)
    requires
        1 <= n <= 31,
        edges_in_range(n as nat, edges@),
        modulus_ok(m),
        base + 8 <= u64::MAX,
    ensures
        state_ok(
            adjacency_of(n as nat, edges@),
            m,
            base,
            lanes_view(st@),
            (adjacency_of(n as nat, edges@).len() - 1) as nat,
        ),
{
    proof {
        lemma_adjacency_of_len(n as nat, edges@);
    }
    let mut st = initial_state(n, Ghost(adjacency_of(n as nat, edges@)), m, base);
    let mut k: usize = 0;
    while k < n - 1
        invariant
            1 <= n <= 31,
            edges_in_range(n as nat, edges@),
            modulus_ok(m),
            base + 8 <= u64::MAX,
            k <= n - 1,
            adjacency_of(n as nat, edges@).len() == n,
            state_ok(adjacency_of(n as nat, edges@), m, base, lanes_view(st@), k as nat),
        decreases n - k,
    {
        st = relax_round_edges(n, edges, m, base, &st, Ghost(k as nat));
        k = k + 1;
    }
    st
}

/// The signed lane contributions of one batch, from the flat edge-list form.
fn batch_contribution_edges(n: usize, edges: &Vec<(usize, usize)>, m: u64, base: u64) -> (c: Vec<
    u64,
>)
    requires
        1 <= n <= 31,
        edges_in_range(n as nat, edges@),
        modulus_ok(m),
        base + 8 <= u64::MAX,
    ensures
        c@.len() == 8,
        forall|i: int|
            0 <= i < 8 ==> reduced(m, #[trigger] c@[i]) && c@[i] as int == contribution(
                adjacency_of(n as nat, edges@),
                (base + i) as nat,
            ) % ring(m),
{
    let st = batch_walks_edges(n, edges, m, base);
    proof {
        lemma_adjacency_of_len(n as nat, edges@);
        assert(lanes_view(st@)[0] == st@[0]@);
    }
    batch_signs(m, base, &st[0], Ghost(adjacency_of(n as nat, edges@)))
}

/// Counts from the flat edge-list form of the graph, folding the update
/// once per pair each round.  Rejects exactly the inputs whose vertex count
/// is unsupported or that name a vertex out of range; on the same graph it
/// returns what the adjacency-list form returns.
pub fn count_hamiltonian_paths_edges(n: usize, edges: &Vec<(usize, usize)>, m: u64) -> (r: Option<
    u64,
>)
    requires
        modulus_ok(m),
    ensures
        r is Some <==> 1 <= n <= 31 && edges_in_range(n as nat, edges@),
        r is Some ==> r->Some_0 as int == count_spec(adjacency_of(n as nat, edges@), m) && reduced(
            m,
            r->Some_0,
        ),
{
    if n < 1 || n > 31 {
        return None;
    }
    for idx in 0..edges.len()
        invariant
            edges_in_range(n as nat, edges@.take(idx as int)),
            n >= 1,
    {
        let (eu, ev) = edges[idx];
        if eu >= n || ev >= n {
            return None;
        }
        proof {
            let taken = edges@.take(idx + 1);
            assert(taken.drop_last() =~= edges@.take(idx as int));
            assert(taken.last() == edges@[idx as int]);
            assert(edges_in_range(n as nat, taken)) by {
                assert(forall|j: int|
                    0 <= j < taken.len() - 1 ==> #[trigger] taken[j] == edges@.take(idx as int)[j]);
            }
        }
    }
    proof {
        assert(edges@.take(edges@.len() as int) =~= edges@);
        lemma_adjacency_of_len(n as nat, edges@);
    }
    let ghost adj = adjacency_of(n as nat, edges@);
    if n == 1 {
        proof {
            lemma_single_vertex_edges(edges@);
        }
        let k = edges.len();
        let kk = k as u64;
        if m == 0 {
            proof {
                lemma_small_mod(k as nat, 0x1_0000_0000_0000_0000);
            }
            Some(kk)
        } else {
            proof {
                lemma_mod_bound(k as int, m as int);
            }
            Some(kk % m)
        }
    } else if n == 2 {
        let c = batch_contribution_edges(n, edges, m, 0);
        let r = fold_lanes_prefix(m, &c, 4, 0, Ghost(adj));
        proof {
            lemma2_to64();
        }
        Some(r)
    } else {
        let batches = 1u64 << ((n - 3) as u64);
        proof {
            lemma2_to64();
            lemma2_to64_rest();
            vstd::arithmetic::power2::lemma_pow2_strictly_increases((n - 3) as nat, 29);
            vstd::bits::lemma_u64_shl_is_mul(1u64, (n - 3) as u64);
        }
        let mut acc = lane_splat(0);
        let mut t: u64 = 0;
        proof {
            assert(0int % ring(m) == 0);
        }
        while t < batches
            invariant
                1 <= n <= 31,
                edges_in_range(n as nat, edges@),
                modulus_ok(m),
                adj == adjacency_of(n as nat, edges@),
                adj.len() == n,
                3 <= n <= 31,
                batches == pow2((n - 3) as nat),
                batches <= 0x1000_0000,
                t <= batches,
                acc@.len() == 8,
                forall|i: int|
                    0 <= i < 8 ==> reduced(m, #[trigger] acc@[i]) && acc@[i] as int == lane_sum(
                        adj,
                        i as nat,
                        t as nat,
                    ) % ring(m),
            decreases batches - t,
        {
            let base = t * 8;
            let c = batch_contribution_edges(n, edges, m, base);
            for i in 0..8usize
                invariant
                    modulus_ok(m),
                    t < batches,
                    batches <= 0x1000_0000,
                    base == t * 8,
                    c@.len() == 8,
                    acc@.len() == 8,
                    forall|ii: int|
                        0 <= ii < 8 ==> reduced(m, #[trigger] c@[ii]) && c@[ii] as int
                            == contribution(adj, (base + ii) as nat) % ring(m),
                    forall|ii: int|
                        i <= ii < 8 ==> reduced(m, #[trigger] acc@[ii]) && acc@[ii] as int
                            == lane_sum(adj, ii as nat, t as nat) % ring(m),
                    forall|ii: int|
                        0 <= ii < i ==> reduced(m, #[trigger] acc@[ii]) && acc@[ii] as int
                            == lane_sum(adj, ii as nat, (t + 1) as nat) % ring(m),
            {
                proof {
                    let w = ring(m);
                    let ls = lane_sum(adj, i as nat, t as nat);
                    let ctr = contribution(adj, (t * 8 + i) as nat);
                    assert(lane_sum(adj, i as nat, (t + 1) as nat) == ls + ctr);
                    lemma_add_mod_noop(ls, ctr, w);
                }
                acc[i] = crate::arith::add(m, acc[i], c[i]);
            }
            t = t + 1;
        }
        let r = crate::arith::finalize(m, &acc);
        proof {
            lemma_total_from_lanes(adj, acc@, batches as nat, m);
            lemma_pow2_adds(3, (n - 3) as nat);
            assert(8 * (batches as nat) == pow2(n as nat));
        }
        Some(r)
    }
}

/// Lane-wise ring addition of two contribution vectors: the combine
/// operation of the parallel reduction.
fn add_lanes(m: u64, x: Vec<u64>, y: Vec<u64>) -> (z: Vec<u64>)
    requires
        modulus_ok(m),
        x@.len() == 8,
        y@.len() == 8,
        forall|i: int| 0 <= i < 8 ==> reduced(m, #[trigger] x@[i]) && reduced(m, y@[i]),
    ensures
        z@.len() == 8,
        forall|i: int|
            0 <= i < 8 ==> reduced(m, #[trigger] z@[i]) && z@[i] as int == lane_add(
                m,
                x@[i] as int,
                y@[i] as int,
            ),
{
    let mut z: Vec<u64> = Vec::new();
    for i in 0..8usize
        invariant
            modulus_ok(m),
            x@.len() == 8,
            y@.len() == 8,
            forall|ii: int| 0 <= ii < 8 ==> reduced(m, #[trigger] x@[ii]) && reduced(m, y@[ii]),
            z@.len() == i,
            forall|ii: int|
                0 <= ii < i ==> reduced(m, #[trigger] z@[ii]) && z@[ii] as int == lane_add(
                    m,
                    x@[ii] as int,
                    y@[ii] as int,
                ),
    {
        z.push(crate::arith::add(m, x[i], y[i]));
    }
    z
}

/// The signed lane contributions of batch `t`: the masks `[8 t, 8 t + 8)`.
fn batch_contribution_at(g: &Graph, m: u64, t: u64) -> (c: Vec<u64>)
    requires
        g.wf(),
        modulus_ok(m),
        t <= 0x1000_0000,
    ensures
        c@.len() == 8,
        forall|i: int|
            0 <= i < 8 ==> reduced(m, #[trigger] c@[i]) && c@[i] as int == contribution(
                g@,
                (t * 8 + i) as nat,
            ) % ring(m),
{
    let base = t * 8;
    proof {
        vstd::arithmetic::div_mod::lemma_mod_multiples_basic(t as int, 8);
    }
    batch_contribution(g, m, base, true)
}

/// Relies on rayon's `ParallelIterator::map` and `reduce` over the batch
/// index range: `reduce`, given a true identity and an operation that is
/// associative and commutative on the values produced (here lane-wise ring
/// addition on reduced vectors — `lemma_lane_add_assoc`,
/// `lemma_lane_add_comm`, `lemma_lane_add_identity`), returns the value of
/// the sequential left fold of the mapped batch contributions whatever the
/// split across workers; lane by lane, that fold is `lane_sum` reduced into
/// the ring.
#[verifier::external_body]
fn par_batch_reduce(g: &Graph, m: u64, batches: u64) -> (r: Vec<u64>)
    requires
        g.wf(),
        modulus_ok(m),
        batches <= 0x1000_0000,
    ensures
        r@.len() == 8,
        forall|i: int|
            0 <= i < 8 ==> reduced(m, #[trigger] r@[i]) && r@[i] as int == lane_sum(
                g@,
                i as nat,
                batches as nat,
            ) % ring(m),
{
    (0..batches)
        .into_par_iter()
        .map(|t| batch_contribution_at(g, m, t))
        .reduce(|| lane_splat(0), |x, y| add_lanes(m, x, y))
}

/// The same count as `count_hamiltonian_paths`, with the batches
/// distributed over a worker pool and the per-batch contributions combined
/// by the associative, commutative lane-wise addition, so the result does
/// not depend on scheduling.
pub fn count_hamiltonian_paths_par(g: &Graph, m: u64) -> (r: u64)
    requires
        g.wf(),
        modulus_ok(m),
    ensures
        r as int == count_spec(g@, m),
        reduced(m, r),
{
    let n = g.vertex_count();
    if n <= 2 {
        count_hamiltonian_paths(g, m)
    } else {
        let batches = 1u64 << ((n - 3) as u64);
        proof {
            lemma2_to64();
            lemma2_to64_rest();
            vstd::arithmetic::power2::lemma_pow2_strictly_increases((n - 3) as nat, 29);
            vstd::bits::lemma_u64_shl_is_mul(1u64, (n - 3) as u64);
        }
        let acc = par_batch_reduce(g, m, batches);
        let r = crate::arith::finalize(m, &acc);
        proof {
            lemma_total_from_lanes(g@, acc@, batches as nat, m);
            lemma_pow2_adds(3, (n - 3) as nat);
            assert(8 * (batches as nat) == pow2(n as nat));
        }
        r
    }
}

} // verus!
