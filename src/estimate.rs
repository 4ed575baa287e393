//! The influence estimate `hits · n / total_samples`, kept as an exact fraction.
use crate::accumulator::{consume_all, hit_flags, lemma_all_hits_stop_at_threshold, Accumulator};
use crate::seeds::meets;
use vstd::prelude::*;

verus! {

/// The estimate `numerator / denominator` of the expected number of nodes
/// that the seed set activates.
pub struct Estimate {
    pub numerator: u128,
    pub denominator: u64,
}

/// Whether the fraction `n1 / d1` is at most `n2 / d2` (positive denominators).
pub open spec fn fraction_le(n1: int, d1: int, n2: int, d2: int) -> bool {
    n1 * d2 <= n2 * d1
}

/// The estimate from `hits` samples that met the seeds out of `total_samples`
/// on a graph of `node_count` nodes: `hits · node_count / total_samples`, or
/// `None` while no sample has been taken.
pub fn influence_estimate(hits: u64, total_samples: u64, node_count: u64) -> (r: Option<Estimate>)
    ensures
        r is None <==> total_samples == 0,
        r matches Some(e) ==> e.numerator == hits * node_count && e.denominator == total_samples,
{
    if total_samples == 0 {
        None
    } else {
        proof {
            vstd::arithmetic::mul::lemma_mul_upper_bound(
                hits as int,
                u64::MAX as int,
                node_count as int,
                u64::MAX as int,
            );
        }
        Some(Estimate { numerator: (hits as u128) * (node_count as u128), denominator: total_samples })
    }
}

impl Accumulator {
    /// The estimate from the totals of this run on a graph of `node_count` nodes.
    pub fn estimate(&self, node_count: u64) -> (r: Option<Estimate>)
        ensures
            r is None <==> self.totals().1 == 0,
            r matches Some(e) ==> e.numerator == self.totals().0 * node_count
                && e.denominator == self.totals().1,
    {
        influence_estimate(self.hits(), self.total_samples(), node_count)
    }
}

/// For a fixed number of samples, the estimate does not decrease as the
/// number of hits grows.
pub proof fn lemma_estimate_monotone_in_hits(h1: nat, h2: nat, total_samples: nat, node_count: nat)
    requires
        h1 <= h2,
        total_samples > 0,
    ensures
        fraction_le(
            (h1 * node_count) as int,
            total_samples as int,
            (h2 * node_count) as int,
            total_samples as int,
        ),
{
    assert(h1 * node_count <= h2 * node_count) by (nonlinear_arith)
        requires
            h1 <= h2,
    ;
    assert((h1 * node_count) * total_samples <= (h2 * node_count) * total_samples)
        by (nonlinear_arith)
        requires
            h1 * node_count <= h2 * node_count,
    ;
}

/// When every node `0..node_count` is a seed and every sample holds at least
/// one node, a run stops after exactly `threshold` samples and its estimate
/// is `node_count`.
pub proof fn lemma_all_nodes_seeded(
    threshold: nat,
    node_count: nat,
    seeds: Set<usize>,
    batch: Seq<Vec<usize>>,
)
    requires
        threshold > 0,
        forall|v: usize| v < node_count ==> seeds.contains(v),
        forall|i: int|
            0 <= i < batch.len() ==> #[trigger] batch[i]@.len() > 0 && batch[i]@[0] < node_count,
        batch.len() >= threshold,
    ensures
        consume_all((0nat, 0nat), threshold, hit_flags(batch, seeds)) == (threshold, threshold),
        // the estimate hits · node_count / total_samples equals node_count
        consume_all((0nat, 0nat), threshold, hit_flags(batch, seeds)).0 * node_count == node_count
            * consume_all((0nat, 0nat), threshold, hit_flags(batch, seeds)).1,
{
    let flags = hit_flags(batch, seeds);
    assert forall|i: int| 0 <= i < flags.len() implies flags[i] by {
        assert(batch[i]@.len() > 0);
        assert(seeds.contains(batch[i]@[0]));
        assert(meets(batch[i]@, seeds));
    }
    lemma_all_hits_stop_at_threshold(threshold, flags);
    vstd::arithmetic::mul::lemma_mul_is_commutative(threshold as int, node_count as int);
}

} // verus!
