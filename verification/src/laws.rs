//! Laws relating the counter's variants, representations and moduli.  The
//! public counters all pin their result to `count_spec`, so the agreement
//! laws follow from the contracts; the laws about moduli and edgeless
//! graphs are proved from the recurrence itself.

use crate::arith::ring;
use crate::counter::{contribution, count_spec, exact_total, row_sum, signed_range, walks};
use crate::graph::adjacency_of;
use vstd::arithmetic::div_mod::lemma_small_mod;
use vstd::prelude::*;

verus! {

/// Agreement across representations: on one and the same graph — adjacency
/// lists on one side, a flat edge list grouped by `adjacency_of` on the
/// other — the adjacency-list counter and the flat edge-list counter return
/// equal values, since the contracts of `count_hamiltonian_paths` and
/// `count_hamiltonian_paths_edges` pin both results to `count_spec` of the
/// same adjacency lists.
pub proof fn lemma_representation_agreement(
    n: nat,
    edges: Seq<(usize, usize)>,
    m: u64,
    r_adj: u64,
    r_flat: u64,
)
    requires
        r_adj as int == count_spec(adjacency_of(n, edges), m),
        r_flat as int == count_spec(adjacency_of(n, edges), m),
    ensures
        r_adj == r_flat,
{
}

/// Bit-tier equivalence: the counter with the high-bit refinement enabled
/// and the counter with it disabled return bit-for-bit identical values on
/// every graph and modulus, since the contracts of
/// `count_hamiltonian_paths` and `count_hamiltonian_paths_plain` pin both
/// results to `count_spec`.
pub proof fn lemma_bit_tier_equivalence(adj: Seq<Seq<usize>>, m: u64, r_tiered: u64, r_plain: u64)
    requires
        r_tiered as int == count_spec(adj, m),
        r_plain as int == count_spec(adj, m),
    ensures
        r_tiered == r_plain,
{
}

/// Determinism: any two runs on the same graph and modulus — sequential or
/// distributed over any number of workers and batches — return identical
/// values, since every counter's contract pins its result to `count_spec`.
pub proof fn lemma_determinism(adj: Seq<Seq<usize>>, m: u64, r1: u64, r2: u64)
    requires
        r1 as int == count_spec(adj, m),
        r2 as int == count_spec(adj, m),
    ensures
        r1 == r2,
{
}

/// Modular consistency: whenever the exact inclusion–exclusion total is
/// nonnegative and fits the native width, the no-modulus (wraparound)
/// result reduced by a modulus equals the modulus-specific result.
pub proof fn lemma_modular_consistency(adj: Seq<Seq<usize>>, p: u64)
    requires
        p >= 1,
        0 <= exact_total(adj) < 0x1_0000_0000_0000_0000,
    ensures
        count_spec(adj, p) == count_spec(adj, 0) % (p as int),
{
    lemma_small_mod(exact_total(adj) as nat, 0x1_0000_0000_0000_0000);
}

/// Every contribution of an edgeless graph on at least two vertices is
/// zero: after the first round no walks remain.
proof fn lemma_empty_contribution(adj: Seq<Seq<usize>>, mask: nat)
    requires
        adj.len() >= 2,
        forall|u: int| 0 <= u < adj.len() ==> (#[trigger] adj[u]).len() == 0,
    ensures
        contribution(adj, mask) == 0,
{
    let r = (adj.len() - 1) as nat;
    let prev = walks(adj, mask, (r - 1) as nat);
    assert(row_sum(prev, adj[0]) == 0);
    assert(walks(adj, mask, r)[0] == 0);
}

/// The inclusion–exclusion sum over any mask range of an edgeless graph is
/// zero.
proof fn lemma_empty_range(adj: Seq<Seq<usize>>, hi: nat)
    requires
        adj.len() >= 2,
        forall|u: int| 0 <= u < adj.len() ==> (#[trigger] adj[u]).len() == 0,
    ensures
        signed_range(adj, 0, hi) == 0,
    decreases hi,
{
    if hi > 0 {
        lemma_empty_range(adj, (hi - 1) as nat);
        lemma_empty_contribution(adj, (hi - 1) as nat);
    }
}

/// Empty graph: a graph with more than one vertex and no edges counts zero
/// under every modulus.
pub proof fn lemma_empty_graph(adj: Seq<Seq<usize>>, m: u64)
    requires
        adj.len() >= 2,
        forall|u: int| 0 <= u < adj.len() ==> (#[trigger] adj[u]).len() == 0,
    ensures
        count_spec(adj, m) == 0,
{
    lemma_empty_range(adj, vstd::arithmetic::power2::pow2(adj.len()));
    assert(0int % ring(m) == 0);
}

} // verus!
