//! Known-correspondence measurement selection.
//!
//! Each measurement carries the identifier of the landmark it observed. The
//! landmark table maps identifiers to the slot where the landmark's data is
//! stored; a measurement whose identifier is not in the table is skipped.
use std::collections::HashMap;
use vstd::prelude::*;

verus! {

broadcast use vstd::std_specs::hash::group_hash_axioms;

/// Identifier-to-slot map, fixed once the estimator is built.
pub struct LandmarkTable {
    slots: HashMap<u32, usize>,
}

/// The table that `ids` builds: each identifier maps to the last position
/// at which it occurs.
pub open spec fn slot_map(ids: Seq<u32>) -> Map<u32, usize>
    decreases ids.len(),
{
    if ids.len() == 0 {
        Map::empty()
    } else {
        slot_map(ids.drop_last()).insert(ids.last(), (ids.len() - 1) as usize)
    }
}

/// The corrections that a batch of tagged measurements yields, in order:
/// for each measurement whose identifier is in the table, its landmark slot
/// and its payload.
pub open spec fn folded<Z>(table: Map<u32, usize>, ms: Seq<(u32, Z)>) -> Seq<(usize, Z)>
    decreases ms.len(),
{
    if ms.len() == 0 {
        Seq::empty()
    } else {
        let rest = folded(table, ms.drop_last());
        let (id, z) = ms.last();
        if table.contains_key(id) {
            rest.push((table[id], z))
        } else {
            rest
        }
    }
}

impl View for LandmarkTable {
    type V = Map<u32, usize>;

    closed spec fn view(&self) -> Map<u32, usize> {
        self.slots@
    }
}

impl LandmarkTable {
    /// The table in which `ids[k]` names slot `k`.
    pub fn new(ids: &Vec<u32>) -> (t: LandmarkTable)
        ensures
            t@ == slot_map(ids@),
    {
        let mut slots: HashMap<u32, usize> = HashMap::new();
        let mut k: usize = 0;
        while k < ids.len()
            invariant
                k <= ids.len(),
                slots@ == slot_map(ids@.subrange(0, k as int)),
            decreases ids.len() - k,
        {
            proof {
                let s = ids@.subrange(0, k as int + 1);
                assert(s.drop_last() =~= ids@.subrange(0, k as int));
            }
            slots.insert(ids[k], k);
            k = k + 1;
        }
        proof {
            assert(ids@.subrange(0, ids.len() as int) =~= ids@);
        }
        LandmarkTable { slots }
    }

    /// Whether the table holds identifier `id`.
    pub fn contains(&self, id: u32) -> (r: bool)
        ensures
            r == self@.contains_key(id),
    {
        self.slots.contains_key(&id)
    }

    /// The slot of identifier `id`, if the table holds it.
    pub fn slot(&self, id: u32) -> (r: Option<usize>)
        ensures
            r == (if self@.contains_key(id) { Some(self@[id]) } else { None::<usize> }),
    {
        match self.slots.get(&id) {
            Some(s) => Some(*s),
            None => None,
        }
    }

    /// The corrections to fold, in measurement order: each measurement whose
    /// identifier the table holds, paired with its landmark's slot.
    pub fn known_corrections<Z: Copy>(&self, measurements: &Vec<(u32, Z)>) -> (r: Vec<(usize, Z)>)
        ensures
            r@ == folded(self@, measurements@),
    {
        let mut r: Vec<(usize, Z)> = Vec::new();
        let mut k: usize = 0;
        while k < measurements.len()
            invariant
                k <= measurements.len(),
                r@ == folded(self@, measurements@.subrange(0, k as int)),
            decreases measurements.len() - k,
        {
            let (id, z) = measurements[k];
            proof {
                let s = measurements@.subrange(0, k as int + 1);
                assert(s.drop_last() =~= measurements@.subrange(0, k as int));
            }
            match self.slot(id) {
                Some(s) => r.push((s, z)),
                None => {},
            }
            k = k + 1;
        }
        proof {
            assert(measurements@.subrange(0, measurements.len() as int) =~= measurements@);
        }
        r
    }
}

/// A measurement whose identifier the table lacks changes nothing: the
/// corrections of a batch with it inserted anywhere are those of the batch
/// without it.
pub proof fn lemma_unknown_measurement_ignored<Z>(table: Map<u32, usize>, ms: Seq<(u32, Z)>, k: int, m: (u32, Z))
    requires
        0 <= k <= ms.len(),
        !table.contains_key(m.0),
    ensures
        folded(table, ms.insert(k, m)) == folded(table, ms),
    decreases ms.len(),
{
    let with = ms.insert(k, m);
    if k == ms.len() {
        assert(with.drop_last() =~= ms);
    } else {
        lemma_unknown_measurement_ignored(table, ms.drop_last(), k, m);
        assert(with.drop_last() =~= ms.drop_last().insert(k, m));
        assert(with.last() == ms.last());
    }
}

} // verus!
