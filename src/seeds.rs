//! The seed set whose influence is estimated.
use std::collections::BTreeSet;
use vstd::prelude::*;

verus! {

broadcast use {vstd::std_specs::btree::group_btree_axioms, vstd::laws_cmp::group_laws_cmp};

/// Whether a sample (a reverse-reachable set, as a list of node ids) shares
/// at least one node with `seeds`.
pub open spec fn meets(sample: Seq<usize>, seeds: Set<usize>) -> bool {
    exists|i: int| 0 <= i < sample.len() && seeds.contains(#[trigger] sample[i])
}

/// A deduplicated set of node identifiers, fixed for one estimation run.
pub struct SeedSet {
    ids: BTreeSet<usize>,
}

impl View for SeedSet {
    type V = Set<usize>;

    closed spec fn view(&self) -> Set<usize> {
        self.ids@
    }
}

impl SeedSet {
    /// Builds the set of the given ids; duplicates and order are irrelevant.
    pub fn from_ids(ids: &Vec<usize>) -> (s: SeedSet)
        ensures
            s@ == ids@.to_set(),
    {
        let mut set: BTreeSet<usize> = BTreeSet::new();
        let mut i: usize = 0;
        while i < ids.len()
            invariant
                i <= ids.len(),
                set@ == ids@.take(i as int).to_set(),
            decreases ids.len() - i,
        {
            let id = ids[i];
            set.insert(id);
            proof {
                assert(ids@.take(i as int + 1) =~= ids@.take(i as int) + seq![id]);
                Seq::lemma_to_set_insert_commutes(ids@.take(i as int), id);
            }
            i = i + 1;
        }
        assert(ids@.take(ids.len() as int) == ids@);
        SeedSet { ids: set }
    }

    /// Whether `id` is a seed.
    pub fn contains(&self, id: usize) -> (r: bool)
        ensures
            r == self@.contains(id),
    {
        self.ids.contains(&id)
    }

    /// The number of distinct seeds.
    pub fn len(&self) -> (r: usize)
        ensures
            r == self@.len(),
    {
        self.ids.len()
    }

    /// Whether `sample` holds at least one seed; stops at the first one found.
    pub fn meets(&self, sample: &Vec<usize>) -> (r: bool)
        ensures
            r == meets(sample@, self@),
    {
        let mut i: usize = 0;
        while i < sample.len()
            invariant
                i <= sample.len(),
                forall|j: int| 0 <= j < i ==> !self@.contains(#[trigger] sample@[j]),
            decreases sample.len() - i,
        {
            if self.ids.contains(&sample[i]) {
                return true;
            }
            i = i + 1;
        }
        false
    }
}

/// Building a seed set does not depend on the order of the input list, nor on
/// how often an id is repeated: two lists with the same members give the same
/// set.
pub proof fn lemma_seed_set_order_independent(a: Seq<usize>, b: Seq<usize>)
    requires
        forall|x: usize| a.contains(x) <==> b.contains(x),
    ensures
        a.to_set() == b.to_set(),
{
    assert(a.to_set() =~= b.to_set());
}

} // verus!
