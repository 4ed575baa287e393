//! The stopping accumulator: consumes samples in order, counts those that meet
//! the seed set, and stops as soon as the hit threshold is reached.
use crate::seeds::{meets, SeedSet};
use vstd::prelude::*;

verus! {

/// The number of samples drawn for each batch.
pub const BATCH_SIZE: usize = 10000;

/// Progress is due once every this many batches.
pub const PROGRESS_PERIOD: u64 = 10;

/// The running totals `(hits, total_samples)`.
pub type Totals = (nat, nat);

/// One sample consumed: it is counted, and counted as a hit when it met the seeds.
pub open spec fn consume_one(t: Totals, hit: bool) -> Totals {
    (if hit { t.0 + 1 } else { t.0 }, t.1 + 1)
}

/// The totals after consuming the samples whose hit flags are `flags`, in
/// order, from `t`; once `threshold` hits are reached the rest is discarded
/// uncounted.
pub open spec fn consume_all(t: Totals, threshold: nat, flags: Seq<bool>) -> Totals
    decreases flags.len(),
{
    if flags.len() == 0 {
        t
    } else {
        let before = consume_all(t, threshold, flags.drop_last());
        if before.0 >= threshold {
            before
        } else {
            consume_one(before, flags.last())
        }
    }
}

/// The hit flag of each sample of a batch against the seed set.
pub open spec fn hit_flags(batch: Seq<Vec<usize>>, seeds: Set<usize>) -> Seq<bool> {
    Seq::new(batch.len(), |i: int| meets(batch[i]@, seeds))
}

/// The state of one estimation run: `Accumulating` while `hits < threshold`,
/// `Done` once they are equal.
pub struct Accumulator {
    hits: u64,
    total_samples: u64,
    threshold: u64,
}

impl Accumulator {
    /// The running totals.
    pub closed spec fn totals(&self) -> Totals {
        (self.hits as nat, self.total_samples as nat)
    }

    /// The number of hits at which the run stops.
    pub closed spec fn spec_threshold(&self) -> nat {
        self.threshold as nat
    }

    /// Hits never pass the threshold (they stop there) and never outnumber samples.
    pub closed spec fn wf(&self) -> bool {
        &&& self.hits <= self.threshold
        &&& self.hits <= self.total_samples
    }

    /// A run with no sample consumed yet.
    pub fn new(threshold: u64) -> (a: Accumulator)
        ensures
            a.wf(),
            a.totals() == (0nat, 0nat),
            a.spec_threshold() == threshold,
    {
        Accumulator { hits: 0, total_samples: 0, threshold }
    }

    /// The samples so far that met the seeds.
    pub fn hits(&self) -> (r: u64)
        ensures
            r == self.totals().0,
    {
        self.hits
    }

    /// The samples consumed so far.
    pub fn total_samples(&self) -> (r: u64)
        ensures
            r == self.totals().1,
    {
        self.total_samples
    }

    /// The number of hits at which the run stops.
    pub fn threshold(&self) -> (r: u64)
        ensures
            r == self.spec_threshold(),
    {
        self.threshold
    }

    /// Whether the threshold has been reached.
    pub fn is_done(&self) -> (r: bool)
        ensures
            r == (self.totals().0 >= self.spec_threshold()),
    {
        self.hits >= self.threshold
    }

    /// The hits still needed.
    pub fn remaining(&self) -> (r: u64)
        requires
            self.wf(),
        ensures
            r == self.spec_threshold() - self.totals().0,
    {
        self.threshold - self.hits
    }

    /// Whether a progress event is due after a batch: when the number of
    /// whole batches' worth of samples consumed is a multiple of the period.
    pub fn progress_due(&self) -> (r: bool)
        ensures
            r == ((self.totals().1 / (BATCH_SIZE as nat)) % (PROGRESS_PERIOD as nat) == 0),
    {
        (self.total_samples / (BATCH_SIZE as u64)) % PROGRESS_PERIOD == 0
    }

    /// Consumes one sample whose hit flag is `hit`, unless the run is done.
    pub fn consume(&mut self, hit: bool)
        requires
            old(self).wf(),
            old(self).totals().1 < u64::MAX,
        ensures
            final(self).wf(),
            final(self).spec_threshold() == old(self).spec_threshold(),
            final(self).totals() == consume_all(
                old(self).totals(),
                old(self).spec_threshold(),
                seq![hit],
            ),
            final(self).totals().1 <= old(self).totals().1 + 1,
    {
        proof {
            assert(seq![hit].drop_last() =~= Seq::<bool>::empty());
            assert(consume_all(self.totals(), self.threshold as nat, Seq::<bool>::empty())
                == self.totals());
        }
        if self.hits < self.threshold {
            self.total_samples = self.total_samples + 1;
            if hit {
                self.hits = self.hits + 1;
            }
        }
    }

    /// Consumes a batch in order on this thread, testing each sample against
    /// `seeds`, and stops within the batch as soon as the threshold is
    /// reached; returns whether it was. A run whose seeds no sample meets
    /// (an empty seed set, say) never reaches a positive threshold, however
    /// many batches it is given.
    pub fn consume_batch(&mut self, batch: &Vec<Vec<usize>>, seeds: &SeedSet) -> (done: bool)
        requires
            old(self).wf(),
            old(self).totals().1 + batch.len() <= u64::MAX,
        ensures
            final(self).wf(),
            final(self).spec_threshold() == old(self).spec_threshold(),
            final(self).totals() == consume_all(
                old(self).totals(),
                old(self).spec_threshold(),
                hit_flags(batch@, seeds@),
            ),
            final(self).totals().1 <= old(self).totals().1 + batch.len(),
            done == (final(self).totals().0 >= final(self).spec_threshold()),
    {
        let ghost start = self.totals();
        let ghost flags = hit_flags(batch@, seeds@);
        let mut i: usize = 0;
        while i < batch.len() && self.hits < self.threshold
            invariant
                i <= batch.len(),
                self.wf(),
                self.threshold == old(self).threshold,
                flags == hit_flags(batch@, seeds@),
                start == old(self).totals(),
                self.total_samples == old(self).total_samples + i,
                old(self).totals().1 + batch.len() <= u64::MAX,
                self.totals() == consume_all(start, self.threshold as nat, flags.take(i as int)),
            decreases batch.len() - i,
        {
            let hit = seeds.meets(&batch[i]);
            proof {
                assert(flags.take(i as int + 1).drop_last() =~= flags.take(i as int));
                assert(hit == meets(batch@[i as int]@, seeds@));
                assert(0 <= i < batch@.len());
                assert(hit_flags(batch@, seeds@)[i as int] == meets(batch@[i as int]@, seeds@));
                assert(flags[i as int] == hit);
                assert(flags.take(i as int + 1).last() == hit);
            }
            let ghost before = self.totals();
            self.consume(hit);
            proof {
                lemma_consume_single(before, self.threshold as nat, hit);
            }
            i = i + 1;
        }
        proof {
            lemma_consume_rest_when_done(start, self.threshold as nat, flags, i as int);
        }
        self.hits >= self.threshold
    }
}

/// Consuming a single sample.
proof fn lemma_consume_single(t: Totals, threshold: nat, hit: bool)
    ensures
        consume_all(t, threshold, seq![hit]) == (if t.0 >= threshold {
            t
        } else {
            consume_one(t, hit)
        }),
{
    assert(seq![hit].drop_last() =~= Seq::<bool>::empty());
    assert(consume_all(t, threshold, Seq::<bool>::empty()) == t);
}

/// Once the threshold is reached, consuming more samples changes nothing.
pub proof fn lemma_done_absorbs(t: Totals, threshold: nat, flags: Seq<bool>)
    requires
        t.0 >= threshold,
    ensures
        consume_all(t, threshold, flags) == t,
    decreases flags.len(),
{
    if flags.len() > 0 {
        lemma_done_absorbs(t, threshold, flags.drop_last());
    }
}

/// Consuming `a` then `b` is consuming `a + b`: how the samples are split
/// into batches does not change the totals.
pub proof fn lemma_batches_compose(t: Totals, threshold: nat, a: Seq<bool>, b: Seq<bool>)
    ensures
        consume_all(consume_all(t, threshold, a), threshold, b) == consume_all(t, threshold, a + b),
    decreases b.len(),
{
    if b.len() == 0 {
        assert(a + b =~= a);
    } else {
        lemma_batches_compose(t, threshold, a, b.drop_last());
        assert((a + b).drop_last() =~= a + b.drop_last());
        assert((a + b).last() == b.last());
    }
}

/// With every sample a hit, the first `k <= threshold` samples give `k` hits.
proof fn lemma_all_hits_below_threshold(threshold: nat, flags: Seq<bool>)
    requires
        flags.len() <= threshold,
        forall|i: int| 0 <= i < flags.len() ==> flags[i],
    ensures
        consume_all((0nat, 0nat), threshold, flags) == (flags.len(), flags.len()),
    decreases flags.len(),
{
    if flags.len() > 0 {
        lemma_all_hits_below_threshold(threshold, flags.drop_last());
    }
}

/// When every sample meets the seeds, a run stops after exactly `threshold`
/// samples, with `total_samples == threshold`, however many more were drawn.
pub proof fn lemma_all_hits_stop_at_threshold(threshold: nat, flags: Seq<bool>)
    requires
        flags.len() >= threshold,
        forall|i: int| 0 <= i < flags.len() ==> flags[i],
    ensures
        consume_all((0nat, 0nat), threshold, flags) == (threshold, threshold),
{
    let head = flags.take(threshold as int);
    let tail = flags.skip(threshold as int);
    lemma_all_hits_below_threshold(threshold, head);
    lemma_batches_compose((0nat, 0nat), threshold, head, tail);
    assert(head + tail =~= flags);
    lemma_done_absorbs((threshold, threshold), threshold, tail);
}

/// When no sample meets the seeds, a run that has not reached its threshold
/// never does: every sample is counted and no hit is added.
pub proof fn lemma_no_hits_never_stop(t: Totals, threshold: nat, flags: Seq<bool>)
    requires
        t.0 < threshold,
        forall|i: int| 0 <= i < flags.len() ==> !flags[i],
    ensures
        consume_all(t, threshold, flags) == (t.0, t.1 + flags.len()),
        consume_all(t, threshold, flags).0 < threshold,
    decreases flags.len(),
{
    if flags.len() > 0 {
        lemma_no_hits_never_stop(t, threshold, flags.drop_last());
    }
}

/// With an empty seed set, no batch of any size brings a run with a positive
/// threshold to its end: the hits stay at zero and every sample is counted.
pub proof fn lemma_empty_seeds_never_stop(threshold: nat, batch: Seq<Vec<usize>>)
    requires
        threshold > 0,
    ensures
        consume_all((0nat, 0nat), threshold, hit_flags(batch, Set::empty()))
            == (0nat, batch.len()),
{
    lemma_no_hits_never_stop((0nat, 0nat), threshold, hit_flags(batch, Set::empty()));
}

/// Where the loop of `consume_batch` stops, the rest of the batch is consumed
/// already or discarded.
proof fn lemma_consume_rest_when_done(t: Totals, threshold: nat, flags: Seq<bool>, i: int)
    requires
        0 <= i <= flags.len(),
        i == flags.len() || consume_all(t, threshold, flags.take(i)).0 >= threshold,
    ensures
        consume_all(t, threshold, flags) == consume_all(t, threshold, flags.take(i)),
{
    if i == flags.len() {
        assert(flags.take(i) =~= flags);
    } else {
        lemma_batches_compose(t, threshold, flags.take(i), flags.skip(i));
        assert(flags.take(i) + flags.skip(i) =~= flags);
        lemma_done_absorbs(consume_all(t, threshold, flags.take(i)), threshold, flags.skip(i));
    }
}

} // verus!
