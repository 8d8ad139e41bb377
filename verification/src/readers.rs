//! The per-thread reader cache.
//!
//! Each reading thread keeps its own handles to the segments it has
//! visited, keyed by generation, so reads never contend on a shared
//! handle.  When the writer publishes a new merge generation, every
//! older handle points at a retired file; the cache drops those lazily,
//! on its thread's next read, with no cross-thread coordination.  This
//! module carries the cache's bookkeeping: which generations are held,
//! and the rule that cleaning keeps exactly the still-live ones.

use vstd::prelude::*;

verus! {

/// The generations one reading thread holds a handle for.
pub struct ReaderCache {
    gens: Vec<u64>,
}

impl ReaderCache {
    /// The held generations, in the order they were opened.
    pub closed spec fn spec_gens(&self) -> Seq<u64> {
        self.gens@
    }

    /// A cache holding nothing.
    pub fn new() -> (r: ReaderCache)
        ensures
            r.spec_gens() == Seq::<u64>::empty(),
    {
        ReaderCache { gens: Vec::new() }
    }

    /// Whether a handle for `gen` is held.
    pub fn contains(&self, gen: u64) -> (r: bool)
        ensures
            r == self.spec_gens().contains(gen),
    {
        let mut i: usize = 0;
        while i < self.gens.len()
            invariant
                i <= self.gens@.len(),
                forall|t: int| 0 <= t < i ==> self.gens@[t] != gen,
            decreases self.gens@.len() - i,
        {
            if self.gens[i] == gen {
                return true;
            }
            i = i + 1;
        }
        proof {
            assert(!self.spec_gens().contains(gen));
        }
        false
    }

    /// Record that a handle for `gen` was opened.
    pub fn insert(&mut self, gen: u64)
        requires
            !old(self).spec_gens().contains(gen),
        ensures
            final(self).spec_gens() == old(self).spec_gens().push(gen),
    {
        self.gens.push(gen);
    }

    /// Drop every handle of a generation older than `merge_gen`: those
    /// files are retired or about to be.  Exactly the handles from
    /// `merge_gen` on stay, in their order.
    pub fn drop_stale(&mut self, merge_gen: u64)
        ensures
            final(self).spec_gens() == old(self).spec_gens().filter(|g: u64| g >= merge_gen),
            forall|t: int|
                0 <= t < final(self).spec_gens().len() ==> (#[trigger] final(self).spec_gens()[t])
                    >= merge_gen,
    {
        let ghost orig = self.gens@;
        let mut kept: Vec<u64> = Vec::new();
        let mut i: usize = 0;
        while i < self.gens.len()
            invariant
                i <= self.gens@.len(),
                self.gens@ == orig,
                kept@ == orig.take(i as int).filter(|g: u64| g >= merge_gen),
            decreases self.gens@.len() - i,
        {
            let g = self.gens[i];
            proof {
                assert(orig.take(i as int + 1).drop_last() =~= orig.take(i as int));
                assert(orig.take(i as int + 1).last() == orig[i as int]);
                reveal_with_fuel(Seq::filter, 2);
            }
            if g >= merge_gen {
                kept.push(g);
            }
            proof {
                assert(kept@ =~= orig.take(i as int + 1).filter(|g2: u64| g2 >= merge_gen));
            }
            i = i + 1;
        }
        proof {
            assert(orig.take(orig.len() as int) =~= orig);
        }
        self.gens = kept;
        proof {
            let fin = self.gens@;
            assert forall|t: int| 0 <= t < fin.len() implies (#[trigger] fin[t]) >= merge_gen by {
                orig.lemma_filter_pred(|g2: u64| g2 >= merge_gen, t);
            }
        }
    }
}

} // verus!
