//! The feature map that each FastSLAM particle owns: one estimate per
//! landmark identifier, added on the landmark's first sighting and refined
//! in place afterwards.
use vstd::prelude::*;

verus! {

/// Feature estimates keyed by landmark identifier, in order of first sighting.
#[derive(Clone)]
pub struct FeatureMap<F> {
    ids: Vec<u32>,
    features: Vec<F>,
}

/// What a particle does with an observation of a landmark.
#[derive(Clone, Copy, Debug, PartialEq, Eq, Structural)]
pub enum Sighting {
    /// First sighting: a new feature is to be initialised.
    New,
    /// Seen before: the feature at this slot is to be corrected.
    Seen(usize),
}

impl<F: Copy> FeatureMap<F> {
    /// Identifiers of the stored features, by slot.
    pub closed spec fn ids(&self) -> Seq<u32> {
        self.ids@
    }

    /// The stored features, by slot.
    pub closed spec fn features(&self) -> Seq<F> {
        self.features@
    }

    /// One feature per identifier, and no identifier twice.
    pub closed spec fn wf(&self) -> bool {
        &&& self.ids.len() == self.features.len()
        &&& forall|a: int, b: int| 0 <= a < b < self.ids.len() ==> self.ids@[a] != self.ids@[b]
    }

    pub fn new() -> (m: FeatureMap<F>)
        ensures
            m.wf(),
            m.ids() == Seq::<u32>::empty(),
            m.features() == Seq::<F>::empty(),
    {
        FeatureMap { ids: Vec::new(), features: Vec::new() }
    }

    pub fn len(&self) -> (n: usize)
        requires
            self.wf(),
        ensures
            n == self.ids().len(),
            n == self.features().len(),
    {
        self.ids.len()
    }

    /// Whether `id` is new to this map, or the slot of its feature.
    pub fn sighting(&self, id: u32) -> (s: Sighting)
        requires
            self.wf(),
        ensures
            s == Sighting::New <==> !self.ids().contains(id),
            s matches Sighting::Seen(i) ==> i < self.ids().len() && self.ids()[i as int] == id,
    {
        let mut i: usize = 0;
        while i < self.ids.len()
            invariant
                i <= self.ids.len(),
                forall|j: int| 0 <= j < i ==> self.ids@[j] != id,
            decreases self.ids.len() - i,
        {
            if self.ids[i] == id {
                return Sighting::Seen(i);
            }
            i = i + 1;
        }
        Sighting::New
    }

    /// The feature at `slot`.
    pub fn get(&self, slot: usize) -> (f: F)
        requires
            self.wf(),
            slot < self.ids().len(),
        ensures
            f == self.features()[slot as int],
    {
        self.features[slot]
    }

    /// Adds the feature of a landmark seen for the first time.
    pub fn insert(&mut self, id: u32, f: F)
        requires
            old(self).wf(),
            !old(self).ids().contains(id),
        ensures
            final(self).wf(),
            final(self).ids() == old(self).ids().push(id),
            final(self).features() == old(self).features().push(f),
    {
        self.ids.push(id);
        self.features.push(f);
        proof {
            assert forall|a: int, b: int| 0 <= a < b < self.ids.len() implies self.ids@[a] != self.ids@[b] by {
                if b == self.ids.len() - 1 {
                    assert(old(self).ids@.contains(self.ids@[a]) || self.ids@[a] != id);
                }
            }
        }
    }

    /// Replaces the feature at `slot` with its corrected estimate.
    pub fn update(&mut self, slot: usize, f: F)
        requires
            old(self).wf(),
            slot < old(self).ids().len(),
        ensures
            final(self).wf(),
            final(self).ids() == old(self).ids(),
            final(self).features() == old(self).features().update(slot as int, f),
    {
        self.features.set(slot, f);
    }
}

} // verus!
