//! Entity handles and the slot allocator that issues them.
use vstd::prelude::*;
use crate::error::EcsError;

verus! {

/// A handle to an entity: a slot index and the generation that the slot had
/// when the handle was issued.
#[derive(Debug, Clone, Copy, PartialEq, Eq, Hash, Structural)]
pub struct Entity {
    pub id: u32,
    pub generation: u32,
}

/// The abstract state of one slot: its current generation and whether an
/// entity lives in it.
pub type SlotView = (u32, bool);

/// Whether `e` names the entity that currently lives in its slot.
pub open spec fn handle_live(slots: Seq<SlotView>, e: Entity) -> bool {
    &&& (e.id as int) < slots.len()
    &&& slots[e.id as int].1
    &&& slots[e.id as int].0 == e.generation
}

/// The number of live slots.
pub open spec fn live_count(slots: Seq<SlotView>) -> nat
    decreases slots.len(),
{
    if slots.len() == 0 {
        0
    } else {
        live_count(slots.drop_last()) + if slots.last().1 {
            1nat
        } else {
            0nat
        }
    }
}

/// One step of an allocator's life: no slot disappears, no generation goes
/// down, and a slot that stops being live has a strictly larger generation.
pub open spec fn advances(before: Seq<SlotView>, after: Seq<SlotView>) -> bool {
    &&& before.len() <= after.len()
    &&& forall|i: int|
        0 <= i < before.len() ==> {
            &&& (#[trigger] after[i]).0 >= before[i].0
            &&& (before[i].1 && !after[i].1 ==> after[i].0 > before[i].0)
        }
}

/// Two steps make a step.
pub proof fn lemma_advances_trans(a: Seq<SlotView>, b: Seq<SlotView>, c: Seq<SlotView>)
    requires
        advances(a, b),
        advances(b, c),
    ensures
        advances(a, c),
{
    assert forall|i: int| 0 <= i < a.len() implies {
        &&& (#[trigger] c[i]).0 >= a[i].0
        &&& (a[i].1 && !c[i].1 ==> c[i].0 > a[i].0)
    } by {
        assert(b[i].0 >= a[i].0);
        assert(c[i].0 >= b[i].0);
    }
}

/// Generations never go down along a run of allocator steps.
pub proof fn lemma_generation_monotone(run: Seq<Seq<SlotView>>, a: int, b: int, s: int)
    requires
        forall|t: int| 0 <= t < run.len() - 1 ==> advances(#[trigger] run[t], run[t + 1]),
        0 <= a <= b < run.len(),
        0 <= s < run[a].len(),
    ensures
        s < run[b].len(),
        run[b][s].0 >= run[a][s].0,
    decreases b - a,
{
    if a < b {
        assert(advances(run[a], run[a + 1]));
        lemma_generation_monotone(run, a + 1, b, s);
    }
}

/// For any run of allocator steps (each an `allocate` or a `free`), once a
/// slot has been freed its generation stays strictly greater than every
/// generation it had before, so a handle issued for it later never equals
/// an earlier one.
pub proof fn lemma_freed_generation_grows(
    run: Seq<Seq<SlotView>>,
    i: int,
    k: int,
    j: int,
    s: int,
)
    requires
        forall|t: int| 0 <= t < run.len() - 1 ==> advances(#[trigger] run[t], run[t + 1]),
        0 <= i <= k < j < run.len(),
        0 <= s < run[i].len(),
        run[k][s].1,
        !run[k + 1][s].1,
    ensures
        run[j][s].0 > run[i][s].0,
{
    lemma_generation_monotone(run, i, k, s);
    assert(advances(run[k], run[k + 1]));
    lemma_generation_monotone(run, k + 1, j, s);
}

/// Issues handles and recycles their slots; a slot's generation goes
/// up each time it is freed, so that old handles to it are recognised as
/// stale.
pub struct Allocator {
    generations: Vec<u32>,
    live: Vec<bool>,
    /// Free slots that may be issued again, the most recently freed last.
    free: Vec<u32>,
}

impl View for Allocator {
    type V = Seq<SlotView>;

    closed spec fn view(&self) -> Seq<SlotView> {
        Seq::new(self.generations@.len(), |i: int| (self.generations@[i], self.live@[i]))
    }
}

impl Allocator {
    /// The allocator's internal invariant.
    pub closed spec fn wf(&self) -> bool {
        &&& self.generations@.len() == self.live@.len()
        &&& self.generations@.len() <= u32::MAX
        &&& self.free@.no_duplicates()
        &&& forall|k: int|
            0 <= k < self.free@.len() ==> {
                &&& (#[trigger] self.free@[k] as int) < self.generations@.len()
                &&& !self.live@[self.free@[k] as int]
                &&& self.generations@[self.free@[k] as int] < u32::MAX
            }
        &&& forall|i: int|
            0 <= i < self.live@.len() && #[trigger] self.live@[i] ==> self.generations@[i]
                < u32::MAX
    }

    /// An allocator with no slots.
    pub fn new() -> (r: Allocator)
        ensures
            r.wf(),
            r@ == Seq::<SlotView>::empty(),
    {
        let r = Allocator { generations: Vec::new(), live: Vec::new(), free: Vec::new() };
        assert(r@ =~= Seq::<SlotView>::empty());
        r
    }

    /// The number of slots ever used.
    pub fn slot_count(&self) -> (r: usize)
        requires
            self.wf(),
        ensures
            r == self@.len(),
            r <= u32::MAX,
    {
        self.generations.len()
    }

    /// The number of live slots.
    pub fn live_count(&self) -> (n: usize)
        requires
            self.wf(),
        ensures
            n == live_count(self@),
    {
        let mut n: usize = 0;
        let mut i: usize = 0;
        while i < self.live.len()
            invariant
                self.wf(),
                i <= self@.len(),
                n <= i,
                n == live_count(self@.take(i as int)),
            decreases self@.len() - i,
        {
            proof {
                assert(self@.take(i + 1).drop_last() =~= self@.take(i as int));
            }
            if self.live[i] {
                n = n + 1;
            }
            i = i + 1;
        }
        assert(self@.take(i as int) =~= self@);
        n
    }

    /// A copy of the allocator.
    pub fn duplicate(&self) -> (r: Allocator)
        requires
            self.wf(),
        ensures
            r.wf(),
            r@ == self@,
    {
        let r = Allocator {
            generations: crate::archetype::copy_column(&self.generations),
            live: crate::archetype::copy_column(&self.live),
            free: crate::archetype::copy_column(&self.free),
        };
        assert(r@ =~= self@);
        r
    }

    /// Whether `e` names a live entity.
    pub fn contains(&self, e: Entity) -> (r: bool)
        requires
            self.wf(),
        ensures
            r == handle_live(self@, e),
    {
        let i = e.id as usize;
        i < self.generations.len() && self.live[i] && self.generations[i] == e.generation
    }

    /// Whether slot `id` holds a live entity, and with which generation.
    pub fn slot(&self, id: u32) -> (r: Option<u32>)
        requires
            self.wf(),
        ensures
            (id as int) < self@.len() && self@[id as int].1 ==> r == Some(self@[id as int].0),
            !((id as int) < self@.len() && self@[id as int].1) ==> r is None,
    {
        let i = id as usize;
        if i < self.generations.len() && self.live[i] {
            Some(self.generations[i])
        } else {
            None
        }
    }

    /// Live slots never carry the largest generation.
    pub proof fn lemma_live_generation(&self, i: int)
        requires
            self.wf(),
            0 <= i < self@.len(),
            self@[i].1,
        ensures
            self@[i].0 < u32::MAX,
    {
        assert(self.live@[i]);
    }

    /// Makes the slot of `e` live with `e`'s generation, growing the slot
    /// table (with free slots) as far as needed. Fails with
    /// `DuplicateEntity` where the slot is live, and with `CapacityOverflow`
    /// where `e` carries the largest generation or the largest index.
    pub fn claim(&mut self, e: Entity) -> (r: Result<(), EcsError>)
        requires
            old(self).wf(),
        ensures
            final(self).wf(),
            (e.id as int) < old(self)@.len() && old(self)@[e.id as int].1 ==> r == Err::<
                (),
                EcsError,
            >(EcsError::DuplicateEntity),
            !((e.id as int) < old(self)@.len() && old(self)@[e.id as int].1) && (e.generation
                == u32::MAX || e.id == u32::MAX) ==> r == Err::<(), EcsError>(
                EcsError::CapacityOverflow,
            ),
            !((e.id as int) < old(self)@.len() && old(self)@[e.id as int].1) && e.generation
                < u32::MAX && e.id < u32::MAX ==> r is Ok,
            r is Err ==> final(self)@ == old(self)@,
            r is Ok ==> {
                &&& final(self)@.len() == if (e.id as int) < old(self)@.len() {
                    old(self)@.len() as int
                } else {
                    e.id + 1
                }
                &&& final(self)@[e.id as int] == (e.generation, true)
                &&& forall|i: int|
                    0 <= i < final(self)@.len() && i != e.id ==> #[trigger] final(self)@[i] == if i
                        < old(self)@.len() {
                        old(self)@[i]
                    } else {
                        (0u32, false)
                    }
            },
    {
        let id = e.id as usize;
        if id < self.live.len() && self.live[id] {
            return Err(EcsError::DuplicateEntity);
        }
        if e.generation == u32::MAX || e.id == u32::MAX {
            return Err(EcsError::CapacityOverflow);
        }
        while self.generations.len() <= id
            invariant
                self.wf(),
                id < u32::MAX,
                old(self)@.len() <= self@.len(),
                self@.len() <= id + 1 || self@.len() == old(self)@.len(),
                !((e.id as int) < old(self)@.len() && old(self)@[e.id as int].1),
                forall|i: int| 0 <= i < old(self)@.len() ==> #[trigger] self@[i] == old(self)@[i],
                forall|i: int| old(self)@.len() <= i < self@.len() ==> #[trigger] self@[i] == (0u32, false),
            decreases id + 1 - self@.len(),
        {
            let n = self.generations.len();
            let ghost before = self@;
            proof {
                assert forall|k: int| 0 <= k < self.free@.len() implies #[trigger] self.free@[k] != n as u32 by {}
            }
            self.generations.push(0);
            self.live.push(false);
            self.free.push(n as u32);
            proof {
                assert(self@ =~= before.push((0u32, false)));
            }
        }
        let ghost pre = self@;
        let mut k: usize = 0;
        while k < self.free.len()
            invariant
                self.wf(),
                id < self@.len(),
                !self@[id as int].1,
                forall|j: int| 0 <= j < k ==> #[trigger] self.free@[j] != e.id,
                self@ == pre,
            ensures
                self.wf(),
                self@ == pre,
                forall|q: int| 0 <= q < self.free@.len() ==> #[trigger] self.free@[q] != e.id,
            decreases self.free@.len() - k,
        {
            if self.free[k] == e.id {
                let ghost before = self.free@;
                self.free.remove(k);
                proof {
                    assert forall|a: int, b: int|
                        0 <= a < self.free@.len() && 0 <= b < self.free@.len() && a != b implies
                        self.free@[a] != self.free@[b] by {
                        let a2 = if a < k { a } else { a + 1 };
                        let b2 = if b < k { b } else { b + 1 };
                        assert(self.free@[a] == before[a2]);
                        assert(self.free@[b] == before[b2]);
                    }
                    assert forall|q: int| 0 <= q < self.free@.len() implies #[trigger] self.free@[q] != e.id by {
                        let q2 = if q < k { q } else { q + 1 };
                        assert(self.free@[q] == before[q2]);
                    }
                    assert forall|q: int| 0 <= q < self.free@.len() implies {
                        &&& (#[trigger] self.free@[q] as int) < self.generations@.len()
                        &&& !self.live@[self.free@[q] as int]
                        &&& self.generations@[self.free@[q] as int] < u32::MAX
                    } by {
                        let q2 = if q < k { q } else { q + 1 };
                        assert(self.free@[q] == before[q2]);
                    }
                }
                break;
            }
            k = k + 1;
        }
        let ghost mid = self@;
        self.generations.set(id, e.generation);
        self.live.set(id, true);
        proof {
            assert(self@ =~= mid.update(id as int, (e.generation, true)));
        }
        Ok(())
    }

    /// Issues a handle: the most recently freed slot if there is one (with its
    /// current generation), else a new slot with generation 0.
    pub fn allocate(&mut self) -> (r: Result<Entity, EcsError>)
        requires
            old(self).wf(),
        ensures
            final(self).wf(),
            advances(old(self)@, final(self)@),
            old(self)@.len() < u32::MAX ==> r is Ok,
            r is Err ==> r == Err::<Entity, EcsError>(EcsError::CapacityOverflow) && final(self)@
                == old(self)@,
            r matches Ok(e) ==> {
                &&& handle_live(final(self)@, e)
                &&& final(self)@.len() >= old(self)@.len()
                &&& (e.id as int) < old(self)@.len() ==> {
                    &&& !old(self)@[e.id as int].1
                    &&& old(self)@[e.id as int].0 == e.generation
                    &&& final(self)@ == old(self)@.update(e.id as int, (e.generation, true))
                }
                &&& (e.id as int) >= old(self)@.len() ==> {
                    &&& e.id == old(self)@.len()
                    &&& e.generation == 0
                    &&& final(self)@ == old(self)@.push((0u32, true))
                }
            },
    {
        match self.free.pop() {
            Some(id) => {
                proof {
                    assert(old(self).free@[old(self).free@.len() - 1] == id);
                }
                let i = id as usize;
                self.live.set(i, true);
                let e = Entity { id, generation: self.generations[i] };
                proof {
                    assert(self@ =~= old(self)@.update(i as int, (e.generation, true)));
                    assert forall|k: int| 0 <= k < self.free@.len() implies
                        #[trigger] self.free@[k] != id by {
                        assert(old(self).free@[k] == self.free@[k]);
                    }
                }
                Ok(e)
            },
            None => {
                if self.generations.len() >= u32::MAX as usize {
                    return Err(EcsError::CapacityOverflow);
                }
                let id = self.generations.len() as u32;
                self.generations.push(0);
                self.live.push(true);
                proof {
                    assert(self@ =~= old(self)@.push((0u32, true)));
                }
                Ok(Entity { id, generation: 0 })
            },
        }
    }

    /// Frees the slot of a live entity and raises its generation by one. A
    /// slot whose generation reaches the largest value is not issued again.
    pub fn free(&mut self, e: Entity) -> (r: Result<(), EcsError>)
        requires
            old(self).wf(),
        ensures
            final(self).wf(),
            advances(old(self)@, final(self)@),
            r is Ok <==> handle_live(old(self)@, e),
            r is Err ==> r == Err::<(), EcsError>(EcsError::StaleEntity) && final(self)@ == old(
                self,
            )@,
            r is Ok ==> final(self)@ == old(self)@.update(e.id as int, ((e.generation + 1) as u32, false)),
    {
        if !self.contains(e) {
            return Err(EcsError::StaleEntity);
        }
        let i = e.id as usize;
        proof {
            assert(self.live@[i as int]);
            assert forall|k: int| 0 <= k < self.free@.len() implies #[trigger] self.free@[k] != e.id by {}
        }
        let g = e.generation + 1;
        self.live.set(i, false);
        self.generations.set(i, g);
        if g < u32::MAX {
            self.free.push(e.id);
        }
        proof {
            assert(self@ =~= old(self)@.update(i as int, (g, false)));
        }
        Ok(())
    }
}

} // verus!
