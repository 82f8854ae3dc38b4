//! Stores generated [FlowField]s, each keyed by the [RouteStep] (the sector
//! and its goal or exit portal) it was generated for

use vstd::prelude::*;
use crate::fields::flow_field::FlowField;
use crate::route::RouteStep;
use crate::sectors::SectorID;

verus! {

/// The flow field stored for `step` among `entries`, if any
pub open spec fn lookup(entries: Seq<(RouteStep, FlowField)>, step: RouteStep) -> Option<FlowField> {
    if exists|i: int| 0 <= i < entries.len() && (#[trigger] entries[i]).0 == step {
        let i = choose|i: int| 0 <= i < entries.len() && (#[trigger] entries[i]).0 == step;
        Some(entries[i].1)
    } else {
        None
    }
}

/// No step is stored twice
pub open spec fn distinct_steps(entries: Seq<(RouteStep, FlowField)>) -> bool {
    forall|i: int, j: int| 0 <= i < j < entries.len() ==> (#[trigger] entries[i]).0 != (#[trigger] entries[j]).0
}

/// Stores generated flowfields that actors can read
#[derive(Debug)]
pub struct FlowFieldCache {
    /// Cache of [FlowField]s with the [RouteStep] they were generated for
    cache: Vec<(RouteStep, FlowField)>,
}

impl FlowFieldCache {
    /// The stored steps with their flow fields
    pub closed spec fn entries(&self) -> Seq<(RouteStep, FlowField)> {
        self.cache@
    }

    /// The flow field stored for a step, if any
    pub open spec fn stored(&self, step: RouteStep) -> Option<FlowField> {
        lookup(self.entries(), step)
    }

    /// A cache stores each step once
    pub open spec fn wf(&self) -> bool {
        distinct_steps(self.entries())
    }

    /// Create an empty cache
    pub fn new() -> (r: FlowFieldCache)
        ensures
            r.wf(),
            forall|step: RouteStep| #[trigger] r.stored(step) is None,
            r.entries().len() == 0,
    {
        FlowFieldCache { cache: Vec::new() }
    }

    /// Number of [FlowField]s stored
    pub fn len(&self) -> (r: usize)
        ensures
            r == self.entries().len(),
    {
        self.cache.len()
    }

    /// Position of a step in the list, if stored
    fn position(&self, route_step: &RouteStep) -> (r: Option<usize>)
        requires
            self.wf(),
        ensures
            match r {
                Some(i) => i < self.entries().len() && self.entries()[i as int].0 == *route_step,
                None => forall|i: int| 0 <= i < self.entries().len() ==> (#[trigger] self.entries()[i]).0 != *route_step,
            },
    {
        let mut i: usize = 0;
        while i < self.cache.len()
            invariant
                0 <= i <= self.cache@.len(),
                forall|k: int| 0 <= k < i ==> (#[trigger] self.cache@[k]).0 != *route_step,
            decreases self.cache@.len() - i,
        {
            if self.cache[i].0 == *route_step {
                return Some(i);
            }
            i = i + 1;
        }
        None
    }

    /// Insert a [FlowField] into the cache, replacing any stored for the same
    /// step
    pub fn insert(&mut self, route_step: &RouteStep, flowfield: FlowField)
        requires
            old(self).wf(),
        ensures
            final(self).wf(),
            forall|step: RouteStep| #[trigger] final(self).stored(step) == if step == *route_step {
                Some(flowfield)
            } else {
                old(self).stored(step)
            },
    {
        let ghost before = self.entries();
        match self.position(route_step) {
            Some(i) => {
                self.cache.set(i, (*route_step, flowfield));
                proof {
                    let after = self.entries();
                    assert forall|step: RouteStep| #[trigger] lookup(after, step) == if step == *route_step {
                        Some(flowfield)
                    } else {
                        lookup(before, step)
                    } by {
                        if step == *route_step {
                            assert(after[i as int].0 == step);
                            let j = choose|j: int| 0 <= j < after.len() && (#[trigger] after[j]).0 == step;
                            if j != i {
                                assert(before[j].0 == before[i as int].0);
                            }
                        } else {
                            if exists|j: int| 0 <= j < before.len() && (#[trigger] before[j]).0 == step {
                                let j = choose|j: int| 0 <= j < before.len() && (#[trigger] before[j]).0 == step;
                                assert(after[j] == before[j]);
                                let j2 = choose|j2: int| 0 <= j2 < after.len() && (#[trigger] after[j2]).0 == step;
                                assert(before[j2] == after[j2]);
                            }
                            if exists|j: int| 0 <= j < after.len() && (#[trigger] after[j]).0 == step {
                                let j = choose|j: int| 0 <= j < after.len() && (#[trigger] after[j]).0 == step;
                                assert(before[j] == after[j]);
                            }
                        }
                    }
                }
            },
            None => {
                self.cache.push((*route_step, flowfield));
                proof {
                    let after = self.entries();
                    let n = before.len() as int;
                    assert forall|step: RouteStep| #[trigger] lookup(after, step) == if step == *route_step {
                        Some(flowfield)
                    } else {
                        lookup(before, step)
                    } by {
                        if step == *route_step {
                            assert(after[n].0 == step);
                            let j = choose|j: int| 0 <= j < after.len() && (#[trigger] after[j]).0 == step;
                            if j != n {
                                assert(before[j].0 == step);
                            }
                        } else {
                            if exists|j: int| 0 <= j < before.len() && (#[trigger] before[j]).0 == step {
                                let j = choose|j: int| 0 <= j < before.len() && (#[trigger] before[j]).0 == step;
                                assert(after[j] == before[j]);
                                let j2 = choose|j2: int| 0 <= j2 < after.len() && (#[trigger] after[j2]).0 == step;
                                assert(j2 < n);
                                assert(before[j2] == after[j2]);
                            }
                            if exists|j: int| 0 <= j < after.len() && (#[trigger] after[j]).0 == step {
                                let j = choose|j: int| 0 <= j < after.len() && (#[trigger] after[j]).0 == step;
                                assert(j < n);
                                assert(before[j] == after[j]);
                            }
                        }
                    }
                }
            },
        }
    }

    /// Remove a [FlowField] from the cache
    pub fn remove(&mut self, route_step: &RouteStep)
        requires
            old(self).wf(),
        ensures
            final(self).wf(),
            forall|step: RouteStep| #[trigger] final(self).stored(step) == if step == *route_step {
                None
            } else {
                old(self).stored(step)
            },
    {
        let ghost before = self.entries();
        if let Some(i) = self.position(route_step) {
            self.cache.remove(i);
            proof {
                let after = self.entries();
                assert(after == before.remove(i as int));
                assert forall|step: RouteStep| #[trigger] lookup(after, step) == if step == *route_step {
                    None
                } else {
                    lookup(before, step)
                } by {
                    if exists|j: int| 0 <= j < after.len() && (#[trigger] after[j]).0 == step {
                        let j = choose|j: int| 0 <= j < after.len() && (#[trigger] after[j]).0 == step;
                        let bj = if j < i { j } else { j + 1 };
                        assert(before[bj] == after[j]);
                        if step == *route_step {
                            assert(before[bj].0 == before[i as int].0);
                        }
                        let b2 = choose|b2: int| 0 <= b2 < before.len() && (#[trigger] before[b2]).0 == step;
                        assert(b2 == bj);
                    }
                    if step != *route_step && exists|j: int| 0 <= j < before.len() && (#[trigger] before[j]).0 == step {
                        let j = choose|j: int| 0 <= j < before.len() && (#[trigger] before[j]).0 == step;
                        assert(j != i);
                        let aj = if j < i { j } else { j - 1 };
                        assert(after[aj] == before[j]);
                    }
                }
            }
        } else {
            proof {
                assert forall|step: RouteStep| #[trigger] lookup(before, step) == if step == *route_step {
                    None
                } else {
                    lookup(before, step)
                } by {}
            }
        }
    }

    /// Get a [FlowField] for a particular [RouteStep] if it exists/has been
    /// generated
    pub fn get(&self, route_step: &RouteStep) -> (r: Option<&FlowField>)
        requires
            self.wf(),
        ensures
            r is Some <==> self.stored(*route_step) is Some,
            r matches Some(f) ==> self.stored(*route_step) == Some(*f),
    {
        match self.position(route_step) {
            Some(i) => {
                proof {
                    let e = self.entries();
                    let j = choose|j: int| 0 <= j < e.len() && (#[trigger] e[j]).0 == *route_step;
                    if j != i {
                        assert(e[j].0 == e[i as int].0);
                    }
                }
                Some(&self.cache[i].1)
            },
            None => None,
        }
    }

    /// Using a slice of sectors remove any [FlowField]s that correspond to the
    /// sectors
    pub fn remove_steps_with_sectors(&mut self, sectors: &[SectorID])
        requires
            old(self).wf(),
        ensures
            final(self).wf(),
            forall|step: RouteStep| #[trigger] final(self).stored(step) == if sectors@.contains(step.sector) {
                None
            } else {
                old(self).stored(step)
            },
    {
        let ghost before = self.entries();
        let mut kept: Vec<(RouteStep, FlowField)> = Vec::new();
        let ghost mut origin: Seq<int> = Seq::empty();
        let mut i: usize = 0;
        while i < self.cache.len()
            invariant
                self.entries() == before,
                distinct_steps(before),
                0 <= i <= before.len(),
                origin.len() == kept@.len(),
                forall|k: int| 0 <= k < origin.len() ==> 0 <= #[trigger] origin[k] < i && kept@[k] == before[origin[k]],
                forall|k: int, l: int| 0 <= k < l < origin.len() ==> #[trigger] origin[k] < #[trigger] origin[l],
                forall|k: int| 0 <= k < kept@.len() ==> !sectors@.contains((#[trigger] kept@[k]).0.sector),
                forall|j: int|
                    0 <= j < i && !sectors@.contains((#[trigger] before[j]).0.sector) ==> exists|k: int|
                        0 <= k < origin.len() && origin[k] == j,
            decreases before.len() - i,
        {
            let step = self.cache[i].0;
            let ghost prev_origin = origin;
            if !slice_contains(sectors, step.get_sector()) {
                kept.push(self.cache[i]);
                proof {
                    origin = origin.push(i as int);
                }
            }
            proof {
                assert forall|j: int|
                    0 <= j < i + 1 && !sectors@.contains((#[trigger] before[j]).0.sector) implies exists|k: int|
                    0 <= k < origin.len() && origin[k] == j by {
                    if j == i {
                        assert(origin[origin.len() - 1] == j);
                    } else {
                        let k = choose|k: int| 0 <= k < prev_origin.len() && prev_origin[k] == j;
                        assert(origin[k] == j);
                    }
                }
            }
            i = i + 1;
        }
        self.cache = kept;
        proof {
            let after = self.entries();
            assert forall|a: int, b: int| 0 <= a < b < after.len() implies (#[trigger] after[a]).0 != (#[trigger] after[b]).0 by {
                assert(origin[a] < origin[b]);
            }
            assert forall|step: RouteStep| #[trigger] lookup(after, step) == if sectors@.contains(step.sector) {
                None
            } else {
                lookup(before, step)
            } by {
                if exists|k: int| 0 <= k < after.len() && (#[trigger] after[k]).0 == step {
                    let k = choose|k: int| 0 <= k < after.len() && (#[trigger] after[k]).0 == step;
                    assert(before[origin[k]] == after[k]);
                    let b2 = choose|b2: int| 0 <= b2 < before.len() && (#[trigger] before[b2]).0 == step;
                    if b2 != origin[k] {
                        if b2 < origin[k] {
                            assert(before[b2].0 != before[origin[k]].0);
                        } else {
                            assert(before[origin[k]].0 != before[b2].0);
                        }
                    }
                }
                if !sectors@.contains(step.sector) && exists|j: int| 0 <= j < before.len() && (#[trigger] before[j]).0 == step {
                    let j = choose|j: int| 0 <= j < before.len() && (#[trigger] before[j]).0 == step;
                    let k = choose|k: int| 0 <= k < origin.len() && origin[k] == j;
                    assert(after[k].0 == step);
                }
            }
        }
    }
}

impl Default for FlowFieldCache {
    /// An empty cache
    fn default() -> (r: FlowFieldCache)
        ensures
            r.wf(),
            r.entries().len() == 0,
    {
        FlowFieldCache::new()
    }
}

/// Whether a slice of sectors holds `sector`
fn slice_contains(sectors: &[SectorID], sector: &SectorID) -> (r: bool)
    ensures
        r == sectors@.contains(*sector),
{
    let mut i: usize = 0;
    while i < sectors.len()
        invariant
            0 <= i <= sectors@.len(),
            forall|k: int| 0 <= k < i ==> sectors@[k] != *sector,
        decreases sectors@.len() - i,
    {
        if sectors[i] == *sector {
            assert(sectors@[i as int] == *sector);
            return true;
        }
        i = i + 1;
    }
    false
}

} // verus!
