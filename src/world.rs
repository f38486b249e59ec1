//! The store: entities, their locations, and the archetype directory.
use vstd::prelude::*;
use crate::TypeKey;
use crate::error::EcsError;
use crate::entity::{Entity, Allocator, SlotView, handle_live, advances, live_count, lemma_advances_trans};
use crate::archetype::{Archetype, RowView, copy_column};
use crate::clone::CloneRegistry;
use crate::bundle::{Builder, bundle_map, unique_keys, staged, keys_of, without_key, lemma_push_entry, has_key, key_index, lemma_staged_unique};

verus! {

/// The location of a live entity: its archetype and its row there.
pub type Location = (usize, usize);

/// An entity-component store.
pub struct World<V> {
    alloc: Allocator,
    /// The location of each slot's entity; meaningful for live slots only.
    locs: Vec<Location>,
    /// The archetype directory, in order of creation.
    archetypes: Vec<Archetype<V>>,
}

impl<V> World<V> {
    /// The slots of the entity allocator.
    pub closed spec fn slots(&self) -> Seq<SlotView> {
        self.alloc@
    }

    /// The live entities and their components.
    pub closed spec fn entities(&self) -> Map<Entity, Map<TypeKey, V>> {
        Map::new(
            |e: Entity| handle_live(self.alloc@, e),
            |e: Entity| self.archetypes@[self.locs@[e.id as int].0 as int]@[self.locs@[e.id as int].1 as int].1,
        )
    }

    /// The signature of each archetype, in order of creation.
    pub closed spec fn signatures(&self) -> Seq<Set<TypeKey>> {
        Seq::new(self.archetypes@.len(), |a: int| self.archetypes@[a].signature())
    }

    /// The number of rows of each archetype, in order of creation.
    pub closed spec fn row_counts(&self) -> Seq<nat> {
        Seq::new(self.archetypes@.len(), |a: int| self.archetypes@[a]@.len())
    }

    /// The index of the archetype that holds the live entity `e`.
    pub closed spec fn archetype_of(&self, e: Entity) -> int {
        self.locs@[e.id as int].0 as int
    }

    /// A live entity sits in the one archetype whose signature is the set of
    /// its component types.
    pub proof fn lemma_archetype_of(&self, e: Entity)
        requires
            self.wf(),
            self.entities().contains_key(e),
        ensures
            0 <= self.archetype_of(e) < self.signatures().len(),
            self.signatures()[self.archetype_of(e)] == self.entities()[e].dom(),
            forall|b: int|
                0 <= b < self.signatures().len() && #[trigger] self.signatures()[b]
                    == self.entities()[e].dom() ==> b == self.archetype_of(e),
    {
        assert(self.alloc@[e.id as int].1);
        let (a, q) = self.locs@[e.id as int];
        self.archetypes@[a as int].lemma_row_domain(q as int);
        assert forall|b: int|
            0 <= b < self.signatures().len() && #[trigger] self.signatures()[b]
                == self.entities()[e].dom() implies b == self.archetype_of(e) by {
            if b != a {
                assert(self.archetypes@[b].signature() != self.archetypes@[a as int].signature());
            }
        }
    }

    closed spec fn row_of(&self, a: int, r: int) -> RowView<V> {
        self.archetypes@[a]@[r]
    }

    /// The store's internal invariant.
    pub closed spec fn wf(&self) -> bool {
        self.inv(-1)
    }

    /// The invariant, except that slot `skip` may be live without a row yet.
    closed spec fn inv(&self, skip: int) -> bool {
        &&& self.alloc.wf()
        &&& self.locs@.len() == self.alloc@.len()
        &&& forall|a: int| 0 <= a < self.archetypes@.len() ==> (#[trigger] self.archetypes@[a]).wf()
        &&& forall|a: int, b: int|
            0 <= a < self.archetypes@.len() && 0 <= b < self.archetypes@.len() && a != b
                ==> #[trigger] self.archetypes@[a].signature() != #[trigger] self.archetypes@[b].signature()
        &&& forall|i: int|
            0 <= i < self.alloc@.len() && (#[trigger] self.alloc@[i]).1 && i != skip ==> {
                &&& self.locs@[i].0 < self.archetypes@.len()
                &&& self.locs@[i].1 < self.archetypes@[self.locs@[i].0 as int]@.len()
                &&& self.row_of(self.locs@[i].0 as int, self.locs@[i].1 as int).0 == i
            }
        &&& forall|a: int, r: int|
            0 <= a < self.archetypes@.len() && 0 <= r < self.archetypes@[a]@.len() ==> {
                &&& (#[trigger] self.row_of(a, r)).0 < self.alloc@.len()
                &&& self.row_of(a, r).0 != skip
                &&& self.alloc@[self.row_of(a, r).0 as int].1
                &&& (self.locs@[self.row_of(a, r).0 as int].0 == a && self.locs@[self.row_of(a, r).0 as int].1 == r)
            }
    }
}

impl<V: Copy> World<V> {
    /// An empty store.
    pub fn new() -> (w: World<V>)
        ensures
            w.wf(),
            w.entities() == Map::<Entity, Map<TypeKey, V>>::empty(),
            w.slots() == Seq::<SlotView>::empty(),
            w.signatures() == Seq::<Set<TypeKey>>::empty(),
    {
        let w = World { alloc: Allocator::new(), locs: Vec::new(), archetypes: Vec::new() };
        assert(w.entities() =~= Map::<Entity, Map<TypeKey, V>>::empty());
        assert(w.signatures() =~= Seq::<Set<TypeKey>>::empty());
        w
    }

    /// Whether `e` names a live entity.
    pub fn contains(&self, e: Entity) -> (r: bool)
        requires
            self.wf(),
        ensures
            r == self.entities().contains_key(e),
    {
        self.alloc.contains(e)
    }

    /// The number of archetypes created so far.
    pub fn archetype_count(&self) -> (n: usize)
        ensures
            n == self.signatures().len(),
    {
        self.archetypes.len()
    }

    /// The number of rows of archetype `a`.
    pub fn archetype_len(&self, a: usize) -> (n: usize)
        requires
            a < self.signatures().len(),
        ensures
            n == self.row_counts()[a as int],
    {
        self.archetypes[a].len()
    }

    /// The value of component `key` of entity `e`.
    pub fn get(&self, e: Entity, key: TypeKey) -> (r: Result<V, EcsError>)
        requires
            self.wf(),
        ensures
            !self.entities().contains_key(e) ==> r == Err::<V, EcsError>(EcsError::StaleEntity),
            self.entities().contains_key(e) && !self.entities()[e].contains_key(key) ==> r == Err::<
                V,
                EcsError,
            >(EcsError::MissingComponent),
            self.entities().contains_key(e) && self.entities()[e].contains_key(key) ==> r == Ok::<
                V,
                EcsError,
            >(self.entities()[e][key]),
    {
        if !self.alloc.contains(e) {
            return Err(EcsError::StaleEntity);
        }
        let (a, r) = self.locs[e.id as usize];
        proof {
            assert(self.alloc@[e.id as int].1);
        }
        match self.archetypes[a].get(r, key) {
            Some(v) => Ok(v),
            None => Err(EcsError::MissingComponent),
        }
    }

    /// The index of the archetype whose signature is the set of `keys`,
    /// created empty if there is none yet.
    fn find_or_create(&mut self, keys: Vec<TypeKey>, Ghost(skip): Ghost<int>) -> (a: usize)
        requires
            old(self).inv(skip),
            keys@.no_duplicates(),
        ensures
            final(self).inv(skip),
            a < final(self).archetypes@.len(),
            final(self).archetypes@[a as int].signature() == keys@.to_set(),
            final(self).alloc == old(self).alloc,
            final(self).locs == old(self).locs,
            final(self).archetypes@.len() >= old(self).archetypes@.len(),
            forall|b: int|
                0 <= b < old(self).archetypes@.len() ==> #[trigger] final(self).archetypes@[b]
                    == old(self).archetypes@[b],
            a >= old(self).archetypes@.len() ==> final(self).archetypes@[a as int]@.len() == 0
                && final(self).archetypes@.len() == old(self).archetypes@.len() + 1,
    {
        let mut a: usize = 0;
        while a < self.archetypes.len()
            invariant
                self.inv(skip),
                a <= self.archetypes@.len(),
                forall|b: int| 0 <= b < a ==> #[trigger] self.archetypes@[b].signature() != keys@.to_set(),
            decreases self.archetypes@.len() - a,
        {
            if self.archetypes[a].has_signature(&keys) {
                return a;
            }
            a = a + 1;
        }
        let t = Archetype::new(keys);
        self.archetypes.push(t);
        proof {
            let n = old(self).archetypes@.len() as int;
            assert(self.archetypes@[n].signature() == keys@.to_set());
            assert forall|i: int| 0 <= i < self.alloc@.len() && (#[trigger] self.alloc@[i]).1 && i != skip implies {
                &&& self.locs@[i].0 < self.archetypes@.len()
                &&& self.locs@[i].1 < self.archetypes@[self.locs@[i].0 as int]@.len()
                &&& self.row_of(self.locs@[i].0 as int, self.locs@[i].1 as int).0 == i
            } by {
                assert(old(self).row_of(old(self).locs@[i].0 as int, old(self).locs@[i].1 as int).0 == i);
            }
            assert forall|b: int, r: int|
                0 <= b < self.archetypes@.len() && 0 <= r < self.archetypes@[b]@.len() implies {
                    &&& (#[trigger] self.row_of(b, r)).0 < self.alloc@.len()
                    &&& self.row_of(b, r).0 != skip
                    &&& self.alloc@[self.row_of(b, r).0 as int].1
                    &&& (self.locs@[self.row_of(b, r).0 as int].0 == b && self.locs@[self.row_of(b, r).0 as int].1 == r)
                } by {
                assert(old(self).row_of(b, r) == self.row_of(b, r));
            }
        }
        a
    }

    /// Gives the entity `e`, whose slot has just become live, a row holding
    /// the components of `entries`.
    fn attach(&mut self, e: Entity, entries: Vec<(TypeKey, V)>)
        requires
            old(self).inv(e.id as int),
            handle_live(old(self).alloc@, e),
            unique_keys(entries@),
        ensures
            final(self).wf(),
            final(self).alloc == old(self).alloc,
            final(self).entities() == old(self).entities().insert(e, bundle_map(entries@)),
            final(self).signatures().len() >= old(self).signatures().len(),
            forall|b: int|
                0 <= b < old(self).signatures().len() ==> #[trigger] final(self).signatures()[b]
                    == old(self).signatures()[b],
    {
        let keys = keys_of(&entries);
        let a = self.find_or_create(keys, Ghost(e.id as int));
        let row = self.archetypes[a].len();
        let ghost mid = *self;
        self.archetypes[a].push_row(e.id, &entries);
        self.locs.set(e.id as usize, (a, row));
        proof {
            let id = e.id as int;
            assert forall|b: int, r: int|
                0 <= b < self.archetypes@.len() && 0 <= r < self.archetypes@[b]@.len() implies {
                    &&& (#[trigger] self.row_of(b, r)).0 < self.alloc@.len()
                    &&& self.row_of(b, r).0 != -1
                    &&& self.alloc@[self.row_of(b, r).0 as int].1
                    &&& (self.locs@[self.row_of(b, r).0 as int].0 == b && self.locs@[self.row_of(b, r).0 as int].1 == r)
                } by {
                if b != a || r != row {
                    assert(mid.row_of(b, r) == self.row_of(b, r));
                }
            }
            assert forall|i: int| 0 <= i < self.alloc@.len() && (#[trigger] self.alloc@[i]).1 && i != -1 implies {
                &&& self.locs@[i].0 < self.archetypes@.len()
                &&& self.locs@[i].1 < self.archetypes@[self.locs@[i].0 as int]@.len()
                &&& self.row_of(self.locs@[i].0 as int, self.locs@[i].1 as int).0 == i
            } by {
                if i != id {
                    assert(mid.row_of(mid.locs@[i].0 as int, mid.locs@[i].1 as int).0 == i);
                }
            }
            assert forall|x: int, y: int|
                0 <= x < self.archetypes@.len() && 0 <= y < self.archetypes@.len() && x != y
                    implies #[trigger] self.archetypes@[x].signature() != #[trigger] self.archetypes@[y].signature() by {
                assert(mid.archetypes@[x].signature() != mid.archetypes@[y].signature());
            }
            assert forall|f: Entity| #[trigger] self.entities().contains_key(f) implies self.entities()[f]
                == old(self).entities().insert(e, bundle_map(entries@))[f] by {
                if f.id != e.id {
                    assert(mid.row_of(mid.locs@[f.id as int].0 as int, mid.locs@[f.id as int].1 as int) == self.row_of(self.locs@[f.id as int].0 as int, self.locs@[f.id as int].1 as int));
                }
            }
            assert(self.entities() =~= old(self).entities().insert(e, bundle_map(entries@)));
            assert(self.signatures().len() >= old(self).signatures().len());
        }
    }

    /// A store whose allocator has the same slots is in the same state.
    proof fn lemma_same_slots(pre: &World<V>, post: &World<V>)
        requires
            pre.wf(),
            post.alloc.wf(),
            post.alloc@ == pre.alloc@,
            post.archetypes == pre.archetypes,
            post.locs == pre.locs,
        ensures
            post.wf(),
            post.entities() == pre.entities(),
    {
        assert forall|i: int| 0 <= i < post.alloc@.len() && (#[trigger] post.alloc@[i]).1 && i != -1 implies {
            &&& post.locs@[i].0 < post.archetypes@.len()
            &&& post.locs@[i].1 < post.archetypes@[post.locs@[i].0 as int]@.len()
            &&& post.row_of(post.locs@[i].0 as int, post.locs@[i].1 as int).0 == i
        } by {
            assert(pre.alloc@[i].1);
        }
        assert forall|a: int, r: int|
            0 <= a < post.archetypes@.len() && 0 <= r < post.archetypes@[a]@.len() implies {
                &&& (#[trigger] post.row_of(a, r)).0 < post.alloc@.len()
                &&& post.row_of(a, r).0 != -1
                &&& post.alloc@[post.row_of(a, r).0 as int].1
                &&& (post.locs@[post.row_of(a, r).0 as int].0 == a && post.locs@[post.row_of(a, r).0 as int].1 == r)
            } by {
            assert(pre.row_of(a, r) == post.row_of(a, r));
        }
        assert(post.entities() =~= pre.entities());
    }

    /// The slot table stays the same but for slot `e.id`, newly live with
    /// `e`'s generation, and for new free slots.
    proof fn lemma_activated(pre: &World<V>, post: &World<V>, e: Entity)
        requires
            pre.wf(),
            post.alloc.wf(),
            post.archetypes == pre.archetypes,
            post.alloc@.len() >= pre.alloc@.len(),
            post.locs@.len() == post.alloc@.len(),
            forall|i: int| 0 <= i < pre.locs@.len() ==> #[trigger] post.locs@[i] == pre.locs@[i],
            (e.id as int) < post.alloc@.len(),
            post.alloc@[e.id as int] == (e.generation, true),
            (e.id as int) < pre.alloc@.len() ==> !pre.alloc@[e.id as int].1,
            forall|i: int|
                0 <= i < post.alloc@.len() && i != e.id ==> #[trigger] post.alloc@[i] == if i
                    < pre.alloc@.len() {
                    pre.alloc@[i]
                } else {
                    (0u32, false)
                },
        ensures
            post.inv(e.id as int),
            !pre.entities().contains_key(e),
            post.entities().remove(e) == pre.entities(),
    {
        let id = e.id as int;
        assert forall|i: int| 0 <= i < post.alloc@.len() && (#[trigger] post.alloc@[i]).1 && i != id implies {
            &&& post.locs@[i].0 < post.archetypes@.len()
            &&& post.locs@[i].1 < post.archetypes@[post.locs@[i].0 as int]@.len()
            &&& post.row_of(post.locs@[i].0 as int, post.locs@[i].1 as int).0 == i
        } by {
            assert(pre.alloc@[i].1);
        }
        assert forall|a: int, r: int|
            0 <= a < post.archetypes@.len() && 0 <= r < post.archetypes@[a]@.len() implies {
                &&& (#[trigger] post.row_of(a, r)).0 < post.alloc@.len()
                &&& post.row_of(a, r).0 != id
                &&& post.alloc@[post.row_of(a, r).0 as int].1
                &&& (post.locs@[post.row_of(a, r).0 as int].0 == a && post.locs@[post.row_of(a, r).0 as int].1 == r)
            } by {
            assert(pre.row_of(a, r) == post.row_of(a, r));
        }
        assert forall|f: Entity| #[trigger] post.entities().remove(e).contains_key(f) == pre.entities().contains_key(f) by {
            if f.id == e.id {
            } else {
                assert(post.alloc@[f.id as int] == pre.alloc@[f.id as int] || f.id >= pre.alloc@.len());
            }
        }
        assert forall|f: Entity| #[trigger] pre.entities().contains_key(f) implies post.entities().remove(e)[f] == pre.entities()[f] by {
            assert(post.locs@[f.id as int] == pre.locs@[f.id as int]);
        }
        assert(post.entities().remove(e) =~= pre.entities());
    }

    /// Creates an entity holding the components of `bundle`, where a later
    /// entry overrides an earlier one with the same key.
    pub fn spawn(&mut self, bundle: &Vec<(TypeKey, V)>) -> (r: Result<Entity, EcsError>)
        requires
            old(self).wf(),
        ensures
            final(self).wf(),
            advances(old(self).slots(), final(self).slots()),
            old(self).slots().len() < u32::MAX ==> r is Ok,
            final(self).slots().len() <= old(self).slots().len() + 1,
            r is Err ==> r == Err::<Entity, EcsError>(EcsError::CapacityOverflow) && final(self).entities()
                == old(self).entities() && final(self).slots() == old(self).slots(),
            r matches Ok(e) ==> {
                &&& !old(self).entities().contains_key(e)
                &&& final(self).entities() == old(self).entities().insert(e, staged(bundle@))
            },
    {
        let mut b = Builder::from_entries(bundle);
        let entries = b.build();
        let e = match self.alloc.allocate() {
            Ok(e) => e,
            Err(err) => {
                proof {
                    World::lemma_same_slots(old(self), self);
                }
                return Err(err);
            },
        };
        if self.locs.len() <= e.id as usize {
            self.locs.push((0, 0));
        }
        proof {
            World::lemma_activated(old(self), self, e);
            assert(self.entities().remove(e).insert(e, bundle_map(entries@)) =~= self.entities().insert(e, bundle_map(entries@)));
        }
        self.attach(e, entries);
        Ok(e)
    }

    /// Creates an entity under the caller's handle `e`. Fails with
    /// `DuplicateEntity` where `e`'s slot is live, and with
    /// `CapacityOverflow` where `e` carries the largest index or generation.
    pub fn spawn_at(&mut self, e: Entity, bundle: &Vec<(TypeKey, V)>) -> (r: Result<(), EcsError>)
        requires
            old(self).wf(),
        ensures
            final(self).wf(),
            (e.id as int) < old(self).slots().len() && old(self).slots()[e.id as int].1 ==> r == Err::<(), EcsError>(EcsError::DuplicateEntity),
            !((e.id as int) < old(self).slots().len() && old(self).slots()[e.id as int].1) && (e.id == u32::MAX || e.generation == u32::MAX) ==> r == Err::<(), EcsError>(EcsError::CapacityOverflow),
            !((e.id as int) < old(self).slots().len() && old(self).slots()[e.id as int].1) && e.id < u32::MAX && e.generation < u32::MAX ==> r is Ok,
            r is Err ==> final(self).entities() == old(self).entities() && final(self).slots() == old(self).slots(),
            r is Ok ==> !old(self).entities().contains_key(e) && final(self).entities() == old(self).entities().insert(e, staged(bundle@)),
    {
        let mut b = Builder::from_entries(bundle);
        let entries = b.build();
        match self.alloc.claim(e) {
            Ok(()) => {},
            Err(err) => {
                proof {
                    World::lemma_same_slots(old(self), self);
                }
                return Err(err);
            },
        }
        let n = self.alloc.slot_count();
        let ghost claimed = self.alloc;
        while self.locs.len() < n
            invariant
                self.alloc == claimed,
                self.archetypes == old(self).archetypes,
                self.alloc@.len() == n,
                old(self).locs@.len() <= self.locs@.len() <= n,
                forall|i: int| 0 <= i < old(self).locs@.len() ==> #[trigger] self.locs@[i] == old(self).locs@[i],
            decreases n - self.locs@.len(),
        {
            self.locs.push((0, 0));
        }
        proof {
            World::lemma_activated(old(self), self, e);
            assert(self.entities().remove(e).insert(e, bundle_map(entries@)) =~= self.entities().insert(e, bundle_map(entries@)));
        }
        self.attach(e, entries);
        Ok(())
    }

    /// Removes the row of the live entity `e`, keeping its slot live; the row
    /// moved into its place gets its new location.
    fn detach(&mut self, e: Entity)
        requires
            old(self).wf(),
            old(self).entities().contains_key(e),
        ensures
            final(self).inv(e.id as int),
            final(self).alloc == old(self).alloc,
            final(self).locs@.len() == old(self).locs@.len(),
            final(self).signatures() == old(self).signatures(),
            forall|f: Entity|
                f != e && #[trigger] old(self).entities().contains_key(f) ==> final(self).entities().contains_key(f)
                    && final(self).entities()[f] == old(self).entities()[f],
    {
        let id = e.id as usize;
        proof {
            assert(self.alloc@[id as int].1);
        }
        let (a, r) = self.locs[id];
        let ghost pre = *self;
        let ghost last = (pre.archetypes@[a as int]@.len() - 1) as int;
        let ghost m = pre.row_of(a as int, last).0;
        self.archetypes[a].swap_remove(r);
        if r < self.archetypes[a].len() {
            let moved = self.archetypes[a].entity_at(r);
            proof {
                assert(moved == m);
                assert(pre.locs@[m as int] == (a, last as usize));
            }
            self.locs.set(moved as usize, (a, r));
        }
        proof {
            assert forall|b: int| 0 <= b < self.archetypes@.len() implies #[trigger] self.signatures()[b] == pre.signatures()[b] by {}
            assert(self.signatures() =~= pre.signatures());
            assert forall|i: int| 0 <= i < self.alloc@.len() && (#[trigger] self.alloc@[i]).1 && i != id implies {
                &&& self.locs@[i].0 < self.archetypes@.len()
                &&& self.locs@[i].1 < self.archetypes@[self.locs@[i].0 as int]@.len()
                &&& self.row_of(self.locs@[i].0 as int, self.locs@[i].1 as int).0 == i
            } by {
                let (b, q) = pre.locs@[i];
                assert(pre.row_of(b as int, q as int).0 == i);
                if i == m && (r as int) < last {
                } else if b == a {
                    assert(q as int != r);
                    assert(q as int != last);
                }
            }
            assert forall|b: int, q: int|
                0 <= b < self.archetypes@.len() && 0 <= q < self.archetypes@[b]@.len() implies {
                    &&& (#[trigger] self.row_of(b, q)).0 < self.alloc@.len()
                    &&& self.row_of(b, q).0 != id
                    &&& self.alloc@[self.row_of(b, q).0 as int].1
                    &&& (self.locs@[self.row_of(b, q).0 as int].0 == b && self.locs@[self.row_of(b, q).0 as int].1 == q)
                } by {
                assert(pre.locs@[id as int] == (a, r));
                assert(pre.row_of(a as int, last).0 == m);
                assert(pre.locs@[m as int] == (a, last as usize));
                if b == a && q == r {
                    assert(self.row_of(b, q) == pre.row_of(b, last));
                    assert(pre.locs@[m as int] == (a, last as usize));
                } else {
                    assert(self.row_of(b, q) == pre.row_of(b, q));
                    assert(pre.wf());
                    assert(0 <= q < pre.archetypes@[b]@.len());
                    let x = pre.row_of(b, q).0;
                    assert(pre.alloc@[x as int].1);
                    assert((pre.locs@[x as int].0 == b && pre.locs@[x as int].1 == q));
                    if b == a {
                        assert(q != last);
                    }
                    assert(x != m || (r as int) >= last);
                }
            }
            assert forall|x: int, y: int|
                0 <= x < self.archetypes@.len() && 0 <= y < self.archetypes@.len() && x != y
                    implies #[trigger] self.archetypes@[x].signature() != #[trigger] self.archetypes@[y].signature() by {
                assert(pre.archetypes@[x].signature() != pre.archetypes@[y].signature());
            }
            assert forall|f: Entity|
                f != e && #[trigger] old(self).entities().contains_key(f) implies self.entities().contains_key(f)
                    && self.entities()[f] == old(self).entities()[f] by {
                let (b, q) = pre.locs@[f.id as int];
                assert(pre.row_of(b as int, q as int).0 == f.id);
                if f.id as int == m && (r as int) < last {
                    assert(self.row_of(a as int, r as int) == pre.row_of(a as int, last));
                } else if b == a {
                    assert(q as int != r);
                    assert(q as int != last);
                    assert(self.row_of(b as int, q as int) == pre.row_of(b as int, q as int));
                } else {
                    assert(self.row_of(b as int, q as int) == pre.row_of(b as int, q as int));
                }
            }
        }
    }

    /// Destroys the entity `e`, freeing its slot. Fails with `StaleEntity`
    /// where `e` is not live.
    pub fn despawn(&mut self, e: Entity) -> (r: Result<(), EcsError>)
        requires
            old(self).wf(),
        ensures
            final(self).wf(),
            advances(old(self).slots(), final(self).slots()),
            r is Ok <==> old(self).entities().contains_key(e),
            r is Err ==> r == Err::<(), EcsError>(EcsError::StaleEntity) && final(self).entities()
                == old(self).entities() && final(self).slots() == old(self).slots(),
            final(self).entities() == old(self).entities().remove(e),
    {
        if !self.alloc.contains(e) {
            proof {
                assert(old(self).entities().remove(e) =~= old(self).entities());
            }
            return Err(EcsError::StaleEntity);
        }
        self.detach(e);
        let ghost mid = *self;
        let _ = self.alloc.free(e);
        proof {
            let id = e.id as int;
            assert forall|i: int| 0 <= i < self.alloc@.len() && (#[trigger] self.alloc@[i]).1 && i != -1 implies {
                &&& self.locs@[i].0 < self.archetypes@.len()
                &&& self.locs@[i].1 < self.archetypes@[self.locs@[i].0 as int]@.len()
                &&& self.row_of(self.locs@[i].0 as int, self.locs@[i].1 as int).0 == i
            } by {
                assert(mid.alloc@[i].1);
            }
            assert forall|b: int, q: int|
                0 <= b < self.archetypes@.len() && 0 <= q < self.archetypes@[b]@.len() implies {
                    &&& (#[trigger] self.row_of(b, q)).0 < self.alloc@.len()
                    &&& self.row_of(b, q).0 != -1
                    &&& self.alloc@[self.row_of(b, q).0 as int].1
                    &&& (self.locs@[self.row_of(b, q).0 as int].0 == b && self.locs@[self.row_of(b, q).0 as int].1 == q)
                } by {
                assert(mid.row_of(b, q) == self.row_of(b, q));
            }
            assert forall|f: Entity| #[trigger] self.entities().contains_key(f) == old(self).entities().remove(e).contains_key(f) by {
                if f.id != e.id {
                    assert(self.alloc@[f.id as int] == mid.alloc@[f.id as int] || f.id >= self.alloc@.len());
                }
            }
            assert(self.entities() =~= old(self).entities().remove(e));
        }
        Ok(())
    }

    /// Gives the live entity `e` the component `key` with `value`: in place
    /// where it already holds that type, else by moving it to the archetype
    /// of its enlarged signature. Fails with `StaleEntity` where `e` is not
    /// live.
    pub fn insert_component(&mut self, e: Entity, key: TypeKey, value: V) -> (r: Result<(), EcsError>)
        requires
            old(self).wf(),
        ensures
            final(self).wf(),
            final(self).slots() == old(self).slots(),
            r is Ok <==> old(self).entities().contains_key(e),
            r is Err ==> r == Err::<(), EcsError>(EcsError::StaleEntity) && *final(self) == *old(self),
            r is Ok ==> final(self).entities() == old(self).entities().insert(
                e,
                old(self).entities()[e].insert(key, value),
            ),
            final(self).signatures().len() >= old(self).signatures().len(),
            forall|b: int|
                0 <= b < old(self).signatures().len() ==> #[trigger] final(self).signatures()[b]
                    == old(self).signatures()[b],
    {
        if !self.alloc.contains(e) {
            return Err(EcsError::StaleEntity);
        }
        let id = e.id as usize;
        proof {
            assert(self.alloc@[id as int].1);
        }
        let (a, r) = self.locs[id];
        let ghost pre = *self;
        let ghost old_map = pre.entities()[e];
        if self.archetypes[a].has_type(key) {
            self.archetypes[a].set_value(r, key, value);
            proof {
                assert forall|b: int| 0 <= b < self.archetypes@.len() implies #[trigger] self.signatures()[b] == pre.signatures()[b] by {}
                assert(self.signatures() =~= pre.signatures());
                assert forall|i: int| 0 <= i < self.alloc@.len() && (#[trigger] self.alloc@[i]).1 && i != -1 implies {
                    &&& self.locs@[i].0 < self.archetypes@.len()
                    &&& self.locs@[i].1 < self.archetypes@[self.locs@[i].0 as int]@.len()
                    &&& self.row_of(self.locs@[i].0 as int, self.locs@[i].1 as int).0 == i
                } by {
                    assert(pre.row_of(pre.locs@[i].0 as int, pre.locs@[i].1 as int).0 == i);
                }
                assert forall|b: int, q: int|
                    0 <= b < self.archetypes@.len() && 0 <= q < self.archetypes@[b]@.len() implies {
                        &&& (#[trigger] self.row_of(b, q)).0 < self.alloc@.len()
                        &&& self.row_of(b, q).0 != -1
                        &&& self.alloc@[self.row_of(b, q).0 as int].1
                        &&& (self.locs@[self.row_of(b, q).0 as int].0 == b && self.locs@[self.row_of(b, q).0 as int].1 == q)
                    } by {
                    assert(self.row_of(b, q).0 == pre.row_of(b, q).0);
                }
                assert forall|x: int, y: int|
                    0 <= x < self.archetypes@.len() && 0 <= y < self.archetypes@.len() && x != y
                        implies #[trigger] self.archetypes@[x].signature() != #[trigger] self.archetypes@[y].signature() by {
                    assert(pre.archetypes@[x].signature() != pre.archetypes@[y].signature());
                }
                let target = pre.entities().insert(e, old_map.insert(key, value));
                assert forall|f: Entity| #[trigger] self.entities().contains_key(f) implies self.entities()[f] == target[f] by {
                    if f != e {
                        let (b, q) = pre.locs@[f.id as int];
                        assert(pre.row_of(b as int, q as int).0 == f.id);
                        assert(f.id != e.id);
                    }
                }
                assert(self.entities() =~= target);
            }
            return Ok(());
        }
        let mut entries = self.archetypes[a].row_entries(r);
        proof {
            pre.archetypes@[a as int].lemma_row_domain(r as int);
            if has_key(entries@, key) {
                let j = key_index(entries@, key);
                crate::bundle::lemma_bundle_entry(entries@, j);
            }
            lemma_push_entry(entries@, (key, value));
        }
        entries.push((key, value));
        self.detach(e);
        proof {
            assert(handle_live(self.alloc@, e));
        }
        self.attach(e, entries);
        proof {
            assert(self.entities() =~= pre.entities().insert(e, old_map.insert(key, value)));
        }
        Ok(())
    }

    /// Takes the component `key` away from the live entity `e`, moving it to
    /// the archetype of its reduced signature, and returns the value it had.
    /// Fails with `StaleEntity` where `e` is not live and with
    /// `MissingComponent` where it does not hold that type; a failure changes
    /// nothing.
    pub fn remove_component(&mut self, e: Entity, key: TypeKey) -> (r: Result<V, EcsError>)
        requires
            old(self).wf(),
        ensures
            final(self).wf(),
            final(self).slots() == old(self).slots(),
            !old(self).entities().contains_key(e) ==> r == Err::<V, EcsError>(EcsError::StaleEntity),
            old(self).entities().contains_key(e) && !old(self).entities()[e].contains_key(key) ==> r
                == Err::<V, EcsError>(EcsError::MissingComponent),
            old(self).entities().contains_key(e) && old(self).entities()[e].contains_key(key) ==> r
                == Ok::<V, EcsError>(old(self).entities()[e][key]),
            r is Err ==> *final(self) == *old(self),
            r is Ok ==> final(self).entities() == old(self).entities().insert(
                e,
                old(self).entities()[e].remove(key),
            ),
            final(self).signatures().len() >= old(self).signatures().len(),
            forall|b: int|
                0 <= b < old(self).signatures().len() ==> #[trigger] final(self).signatures()[b]
                    == old(self).signatures()[b],
    {
        let v = match self.get(e, key) {
            Ok(v) => v,
            Err(err) => {
                return Err(err);
            },
        };
        let id = e.id as usize;
        proof {
            assert(self.alloc@[id as int].1);
        }
        let (a, r) = self.locs[id];
        let ghost pre = *self;
        let ghost old_map = pre.entities()[e];
        let entries = self.archetypes[a].row_entries(r);
        let rest = without_key(&entries, key);
        self.detach(e);
        proof {
            assert(handle_live(self.alloc@, e));
        }
        self.attach(e, rest);
        proof {
            assert(self.entities() =~= pre.entities().insert(e, old_map.remove(key)));
        }
        Ok(v)
    }

    /// The number of live entities.
    pub fn len(&self) -> (n: usize)
        requires
            self.wf(),
        ensures
            n == live_count(self.slots()),
    {
        self.alloc.live_count()
    }

    /// The values of the components `keys` of entity `e`, in the order of
    /// `keys`.
    pub fn fetch(&self, e: Entity, keys: &Vec<TypeKey>) -> (r: Result<Vec<V>, EcsError>)
        requires
            self.wf(),
        ensures
            !self.entities().contains_key(e) ==> r == Err::<Vec<V>, EcsError>(EcsError::StaleEntity),
            self.entities().contains_key(e) && !keys@.to_set().subset_of(self.entities()[e].dom())
                ==> r == Err::<Vec<V>, EcsError>(EcsError::MissingComponent),
            r matches Ok(v) ==> {
                &&& self.entities().contains_key(e)
                &&& keys@.to_set().subset_of(self.entities()[e].dom())
                &&& v@.len() == keys@.len()
                &&& forall|j: int| 0 <= j < keys@.len() ==> v@[j] == self.entities()[e][#[trigger] keys@[j]]
            },
            self.entities().contains_key(e) && keys@.to_set().subset_of(self.entities()[e].dom()) ==> r is Ok,
    {
        if !self.alloc.contains(e) {
            return Err(EcsError::StaleEntity);
        }
        let mut v: Vec<V> = Vec::new();
        let mut j: usize = 0;
        while j < keys.len()
            invariant
                self.wf(),
                j <= keys@.len(),
                v@.len() == j,
                self.entities().contains_key(e),
                forall|q: int| 0 <= q < j ==> self.entities()[e].contains_key(#[trigger] keys@[q]),
                forall|q: int| 0 <= q < j ==> v@[q] == self.entities()[e][#[trigger] keys@[q]],
            decreases keys@.len() - j,
        {
            match self.get(e, keys[j]) {
                Ok(x) => {
                    v.push(x);
                },
                Err(err) => {
                    proof {
                        if err == EcsError::MissingComponent {
                            assert(keys@.to_set().contains(keys@[j as int]));
                        }
                    }
                    return Err(err);
                },
            }
            j = j + 1;
        }
        proof {
            assert forall|k: TypeKey| keys@.to_set().contains(k) implies self.entities()[e].dom().contains(k) by {
                let q = choose|q: int| 0 <= q < keys@.len() && keys@[q] == k;
                assert(self.entities()[e].contains_key(keys@[q]));
            }
        }
        Ok(v)
    }

    /// Like `query`, with each entity the values of its components `keys`,
    /// in the order of `keys`.
    pub fn query_with(&self, keys: &Vec<TypeKey>) -> (r: Vec<(Entity, Vec<V>)>)
        requires
            self.wf(),
        ensures
            r@.map_values(|p: (Entity, Vec<V>)| p.0).no_duplicates(),
            forall|f: Entity|
                r@.map_values(|p: (Entity, Vec<V>)| p.0).contains(f) <==> self.entities().contains_key(f)
                    && keys@.to_set().subset_of(self.entities()[f].dom()),
            forall|i: int| 0 <= i < r@.len() ==> (#[trigger] r@[i]).1@.len() == keys@.len(),
            forall|i: int, j: int|
                0 <= i < r@.len() && 0 <= j < keys@.len() ==> (#[trigger] r@[i]).1@[j]
                    == self.entities()[r@[i].0][#[trigger] keys@[j]],
    {
        let found = self.query(keys);
        let mut r: Vec<(Entity, Vec<V>)> = Vec::new();
        let mut i: usize = 0;
        while i < found.len()
            invariant
                self.wf(),
                i <= found@.len(),
                r@.len() == i,
                found@.no_duplicates(),
                forall|f: Entity|
                    #[trigger] found@.contains(f) <==> self.entities().contains_key(f) && keys@.to_set().subset_of(
                        self.entities()[f].dom(),
                    ),
                forall|q: int| 0 <= q < i ==> (#[trigger] r@[q]).0 == found@[q],
                forall|q: int| 0 <= q < i ==> (#[trigger] r@[q]).1@.len() == keys@.len(),
                forall|q: int, j: int|
                    0 <= q < i && 0 <= j < keys@.len() ==> (#[trigger] r@[q]).1@[j]
                        == self.entities()[r@[q].0][#[trigger] keys@[j]],
            decreases found@.len() - i,
        {
            let f = found[i];
            proof {
                assert(found@.contains(f));
            }
            match self.fetch(f, keys) {
                Ok(v) => {
                    let ghost rr = r@;
                    r.push((f, v));
                    proof {
                        assert forall|q: int, j: int|
                            0 <= q < i + 1 && 0 <= j < keys@.len() implies (#[trigger] r@[q]).1@[j]
                                == self.entities()[r@[q].0][#[trigger] keys@[j]] by {
                            if q < i {
                                assert(r@[q] == rr[q]);
                            }
                        }
                    }
                },
                Err(_) => {
                    proof {
                        assert(false);
                    }
                    return r;
                },
            }
            i = i + 1;
        }
        proof {
            assert(r@.map_values(|p: (Entity, Vec<V>)| p.0) =~= found@);
        }
        r
    }

    /// The live entities that hold every component type of `keys`, each
    /// once, in order of archetype creation and then of rows.
    pub fn query(&self, keys: &Vec<TypeKey>) -> (r: Vec<Entity>)
        requires
            self.wf(),
        ensures
            r@.no_duplicates(),
            forall|f: Entity|
                #[trigger] r@.contains(f) <==> self.entities().contains_key(f) && keys@.to_set().subset_of(
                    self.entities()[f].dom(),
                ),
    {
        let mut r: Vec<Entity> = Vec::new();
        let mut a: usize = 0;
        while a < self.archetypes.len()
            invariant
                self.wf(),
                a <= self.archetypes@.len(),
                r@.no_duplicates(),
                forall|j: int| 0 <= j < r@.len() ==> {
                    &&& self.entities().contains_key(#[trigger] r@[j])
                    &&& keys@.to_set().subset_of(self.entities()[r@[j]].dom())
                    &&& self.locs@[r@[j].id as int].0 < a
                },
                forall|f: Entity|
                    #[trigger] self.entities().contains_key(f) && keys@.to_set().subset_of(
                        self.entities()[f].dom(),
                    ) && self.locs@[f.id as int].0 < a ==> r@.contains(f),
            decreases self.archetypes@.len() - a,
        {
            if self.archetypes[a].has_all(keys) {
                let n = self.archetypes[a].len();
                let mut q: usize = 0;
                while q < n
                    invariant
                        self.wf(),
                        a < self.archetypes@.len(),
                        n == self.archetypes@[a as int]@.len(),
                        keys@.to_set().subset_of(self.archetypes@[a as int].signature()),
                        q <= n,
                        r@.no_duplicates(),
                        forall|j: int| 0 <= j < r@.len() ==> {
                            &&& self.entities().contains_key(#[trigger] r@[j])
                            &&& keys@.to_set().subset_of(self.entities()[r@[j]].dom())
                            &&& (self.locs@[r@[j].id as int].0 < a || (self.locs@[r@[j].id as int].0 == a
                                && self.locs@[r@[j].id as int].1 < q))
                        },
                        forall|f: Entity|
                            #[trigger] self.entities().contains_key(f) && keys@.to_set().subset_of(
                                self.entities()[f].dom(),
                            ) && (self.locs@[f.id as int].0 < a || (self.locs@[f.id as int].0 == a
                                && self.locs@[f.id as int].1 < q)) ==> r@.contains(f),
                    decreases n - q,
                {
                    let id = self.archetypes[a].entity_at(q);
                    proof {
                        assert(self.row_of(a as int, q as int).0 == id);
                    }
                    let g = match self.alloc.slot(id) {
                        Some(g) => g,
                        None => {
                            proof {
                                assert(false);
                            }
                            return r;
                        },
                    };
                    let f = Entity { id, generation: g };
                    proof {
                        assert(self.entities().contains_key(f));
                        self.archetypes@[a as int].lemma_row_domain(q as int);
                        assert(self.entities()[f] == self.row_of(a as int, q as int).1);
                        assert forall|j: int| 0 <= j < r@.len() implies #[trigger] r@[j] != f by {
                            assert(self.entities().contains_key(r@[j]));
                        }
                    }
                    let ghost rr = r@;
                    r.push(f);
                    proof {
                        assert forall|j: int| 0 <= j < r@.len() implies {
                            &&& self.entities().contains_key(#[trigger] r@[j])
                            &&& keys@.to_set().subset_of(self.entities()[r@[j]].dom())
                            &&& (self.locs@[r@[j].id as int].0 < a || (self.locs@[r@[j].id as int].0 == a
                                && self.locs@[r@[j].id as int].1 < q + 1))
                        } by {}
                        assert forall|x: Entity|
                            #[trigger] self.entities().contains_key(x) && keys@.to_set().subset_of(
                                self.entities()[x].dom(),
                            ) && (self.locs@[x.id as int].0 < a || (self.locs@[x.id as int].0 == a
                                && self.locs@[x.id as int].1 < q + 1)) implies r@.contains(x) by {
                            if self.locs@[x.id as int].0 == a && self.locs@[x.id as int].1 == q {
                                assert(self.alloc@[x.id as int].1);
                                assert(x == f);
                                assert(r@[r@.len() - 1] == f);
                            } else {
                                assert(rr.contains(x));
                                let j = choose|j: int| 0 <= j < rr.len() && rr[j] == x;
                                assert(r@[j] == x);
                            }
                        }
                    }
                    q = q + 1;
                }
            } else {
                proof {
                    assert forall|f: Entity|
                        #[trigger] self.entities().contains_key(f) && keys@.to_set().subset_of(
                            self.entities()[f].dom(),
                        ) implies self.locs@[f.id as int].0 != a by {
                        assert(self.alloc@[f.id as int].1);
                        let (b, q) = self.locs@[f.id as int];
                        self.archetypes@[b as int].lemma_row_domain(q as int);
                    }
                }
            }
            a = a + 1;
        }
        proof {
            assert forall|f: Entity|
                self.entities().contains_key(f) && keys@.to_set().subset_of(
                    self.entities()[f].dom(),
                ) implies #[trigger] r@.contains(f) by {
                if self.entities().contains_key(f) {
                    assert(self.alloc@[f.id as int].1);
                }
            }
        }
        r
    }

    /// Creates one entity per bundle, in order, and returns their handles.
    /// Where the slot table is full it stops, and the entities created
    /// before that stay live.
    pub fn spawn_batch(&mut self, bundles: &Vec<Vec<(TypeKey, V)>>) -> (r: Vec<Entity>)
        requires
            old(self).wf(),
        ensures
            final(self).wf(),
            advances(old(self).slots(), final(self).slots()),
            r@.len() <= bundles@.len(),
            old(self).slots().len() + bundles@.len() < u32::MAX ==> r@.len() == bundles@.len(),
            r@.no_duplicates(),
            forall|i: int|
                0 <= i < r@.len() ==> !old(self).entities().contains_key(#[trigger] r@[i])
                    && final(self).entities()[r@[i]] == staged(bundles@[i]@),
            forall|f: Entity|
                #[trigger] final(self).entities().contains_key(f) <==> old(self).entities().contains_key(f)
                    || r@.contains(f),
            forall|f: Entity|
                #[trigger] old(self).entities().contains_key(f) ==> final(self).entities()[f] == old(
                    self,
                ).entities()[f],
    {
        let mut r: Vec<Entity> = Vec::new();
        let mut i: usize = 0;
        while i < bundles.len()
            invariant
                self.wf(),
                advances(old(self).slots(), self.slots()),
                i <= bundles@.len(),
                r@.len() == i,
                self.slots().len() <= old(self).slots().len() + i,
                r@.no_duplicates(),
                forall|j: int|
                    0 <= j < r@.len() ==> !old(self).entities().contains_key(#[trigger] r@[j])
                        && self.entities().contains_key(r@[j])
                        && self.entities()[r@[j]] == staged(bundles@[j]@),
                forall|f: Entity|
                    #[trigger] self.entities().contains_key(f) <==> old(self).entities().contains_key(f)
                        || r@.contains(f),
                forall|f: Entity|
                    #[trigger] old(self).entities().contains_key(f) ==> self.entities()[f] == old(
                        self,
                    ).entities()[f],
            decreases bundles@.len() - i,
        {
            let ghost mid = *self;
            match self.spawn(&bundles[i]) {
                Ok(e) => {
                    proof {
                        lemma_advances_trans(old(self).slots(), mid.slots(), self.slots());
                        assert forall|j: int| 0 <= j < r@.len() implies #[trigger] r@[j] != e by {
                            assert(mid.entities().contains_key(r@[j]));
                        }
                        assert(!old(self).entities().contains_key(e));
                    }
                    let ghost rr = r@;
                    r.push(e);
                    proof {
                        assert forall|f: Entity|
                            #[trigger] self.entities().contains_key(f) <==> old(self).entities().contains_key(f)
                                || r@.contains(f) by {
                            if rr.contains(f) {
                                let j = choose|j: int| 0 <= j < rr.len() && rr[j] == f;
                                assert(r@[j] == f);
                            }
                            if r@.contains(f) && f != e {
                                let j = choose|j: int| 0 <= j < r@.len() && r@[j] == f;
                                assert(rr[j] == f);
                            }
                            if f == e {
                                assert(r@[r@.len() - 1] == e);
                            }
                        }
                        assert forall|j: int|
                            0 <= j < r@.len() implies !old(self).entities().contains_key(#[trigger] r@[j])
                                && self.entities().contains_key(r@[j])
                                && self.entities()[r@[j]] == staged(bundles@[j]@) by {
                            if j < rr.len() {
                                assert(r@[j] == rr[j]);
                                assert(mid.entities().contains_key(rr[j]));
                            }
                        }
                    }
                },
                Err(_) => {
                    return r;
                },
            }
            i = i + 1;
        }
        r
    }

    /// Whether every live entity holds registered types only.
    fn all_registered(&self, registry: &CloneRegistry) -> (r: bool)
        requires
            self.wf(),
        ensures
            r <==> forall|f: Entity|
                #[trigger] self.entities().contains_key(f) ==> self.entities()[f].dom().subset_of(
                    registry@,
                ),
    {
        let mut a: usize = 0;
        while a < self.archetypes.len()
            invariant
                self.wf(),
                a <= self.archetypes@.len(),
                forall|b: int|
                    0 <= b < a && (#[trigger] self.archetypes@[b])@.len() > 0 ==> self.archetypes@[b].signature().subset_of(
                        registry@,
                    ),
            decreases self.archetypes@.len() - a,
        {
            if self.archetypes[a].len() > 0 && !self.archetypes[a].registered_in(registry) {
                proof {
                    let id = self.row_of(a as int, 0).0;
                    let f = Entity { id, generation: self.alloc@[id as int].0 };
                    assert(self.entities().contains_key(f));
                    self.archetypes@[a as int].lemma_row_domain(0);
                    assert(self.entities()[f] == self.row_of(a as int, 0).1);
                }
                return false;
            }
            a = a + 1;
        }
        proof {
            assert forall|f: Entity| #[trigger] self.entities().contains_key(f) implies self.entities()[f].dom().subset_of(registry@) by {
                assert(self.alloc@[f.id as int].1);
                let (b, q) = self.locs@[f.id as int];
                self.archetypes@[b as int].lemma_row_domain(q as int);
            }
        }
        true
    }

    /// An independent copy of the store made entity by entity: each live
    /// entity is spawned in the copy under its own handle. Where
    /// `omit_unregistered` holds, components of types that `registry` lacks
    /// are left out of the copy; else such a component makes the copy fail
    /// with `Unregistered`.
    pub fn clone_entities(&self, registry: &CloneRegistry, omit_unregistered: bool) -> (r: Result<
        World<V>,
        EcsError,
    >)
        requires
            self.wf(),
        ensures
            r is Err <==> !omit_unregistered && exists|f: Entity|
                #[trigger] self.entities().contains_key(f) && !self.entities()[f].dom().subset_of(
                    registry@,
                ),
            r is Err ==> r == Err::<World<V>, EcsError>(EcsError::Unregistered),
            r matches Ok(w) ==> {
                &&& w.wf()
                &&& w.entities().dom() == self.entities().dom()
                &&& forall|f: Entity|
                    #[trigger] self.entities().contains_key(f) ==> w.entities()[f]
                        == self.entities()[f].restrict(registry@)
            },
    {
        if !omit_unregistered && !self.all_registered(registry) {
            return Err(EcsError::Unregistered);
        }
        let mut w: World<V> = World::new();
        let n = self.alloc.slot_count();
        let mut i: usize = 0;
        while i < n
            invariant
                self.wf(),
                w.wf(),
                n == self.alloc@.len(),
                n <= u32::MAX,
                i <= n,
                forall|f: Entity|
                    #[trigger] w.entities().contains_key(f) <==> self.entities().contains_key(f) && f.id < i,
                forall|f: Entity|
                    #[trigger] w.entities().contains_key(f) ==> w.entities()[f] == self.entities()[f].restrict(
                        registry@,
                    ),
            decreases n - i,
        {
            if let Some(g) = self.alloc.slot(i as u32) {
                let e = Entity { id: i as u32, generation: g };
                proof {
                    assert(self.entities().contains_key(e));
                    self.alloc.lemma_live_generation(i as int);
                    if (i as int) < w.alloc@.len() && w.alloc@[i as int].1 {
                        let h = Entity { id: i as u32, generation: w.alloc@[i as int].0 };
                        assert(w.entities().contains_key(h));
                    }
                }
                let (a, q) = self.locs[i];
                let entries = self.archetypes[a].row_entries(q);
                let kept = registry.registered_entries(&entries);
                proof {
                    lemma_staged_unique(kept@);
                }
                let ghost before = w;
                match w.spawn_at(e, &kept) {
                    Ok(()) => {},
                    Err(_) => {
                        proof {
                            assert(false);
                        }
                        return Err(EcsError::CapacityOverflow);
                    },
                }
                proof {
                    assert forall|f: Entity|
                        #[trigger] w.entities().contains_key(f) <==> self.entities().contains_key(f) && f.id < i + 1 by {
                        if self.entities().contains_key(f) && f.id == i {
                            assert(f.generation == g);
                        }
                    }
                }
            }
            i = i + 1;
        }
        proof {
            assert forall|f: Entity| #[trigger] self.entities().contains_key(f) implies f.id < n by {}
            assert(w.entities().dom() =~= self.entities().dom());
        }
        Ok(w)
    }

    /// An independent copy of the store made archetype by archetype, each
    /// table copied column by column; every entity keeps its handle and its
    /// component values. Fails with `Unregistered`, copying nothing, where a
    /// live entity holds a type that `registry` lacks.
    pub fn clone_with(&self, registry: &CloneRegistry) -> (r: Result<World<V>, EcsError>)
        requires
            self.wf(),
        ensures
            r is Err <==> exists|f: Entity|
                #[trigger] self.entities().contains_key(f) && !self.entities()[f].dom().subset_of(
                    registry@,
                ),
            r is Err ==> r == Err::<World<V>, EcsError>(EcsError::Unregistered),
            r matches Ok(w) ==> {
                &&& w.wf()
                &&& w.entities() == self.entities()
                &&& w.slots() == self.slots()
                &&& w.signatures() == self.signatures()
                &&& w.row_counts() == self.row_counts()
            },
    {
        if !self.all_registered(registry) {
            return Err(EcsError::Unregistered);
        }
        let mut archetypes: Vec<Archetype<V>> = Vec::new();
        let mut b: usize = 0;
        while b < self.archetypes.len()
            invariant
                self.wf(),
                b <= self.archetypes@.len(),
                archetypes@.len() == b,
                forall|c: int| 0 <= c < b ==> {
                    &&& (#[trigger] archetypes@[c]).wf()
                    &&& archetypes@[c]@ == self.archetypes@[c]@
                    &&& archetypes@[c].signature() == self.archetypes@[c].signature()
                },
            decreases self.archetypes@.len() - b,
        {
            archetypes.push(self.archetypes[b].duplicate());
            b = b + 1;
        }
        let w = World { alloc: self.alloc.duplicate(), locs: copy_column(&self.locs), archetypes };
        proof {
            assert forall|x: int, q: int| 0 <= x < w.archetypes@.len() && 0 <= q < w.archetypes@[x]@.len() implies #[trigger] w.row_of(x, q) == self.row_of(x, q) by {}
            assert forall|x: int, y: int|
                0 <= x < w.archetypes@.len() && 0 <= y < w.archetypes@.len() && x != y
                    implies #[trigger] w.archetypes@[x].signature() != #[trigger] w.archetypes@[y].signature() by {
                assert(self.archetypes@[x].signature() != self.archetypes@[y].signature());
            }
            assert forall|i: int| 0 <= i < w.alloc@.len() && (#[trigger] w.alloc@[i]).1 && i != -1 implies {
                &&& w.locs@[i].0 < w.archetypes@.len()
                &&& w.locs@[i].1 < w.archetypes@[w.locs@[i].0 as int]@.len()
                &&& w.row_of(w.locs@[i].0 as int, w.locs@[i].1 as int).0 == i
            } by {
                assert(self.alloc@[i].1);
            }
            assert forall|f: Entity| #[trigger] w.entities().contains_key(f) implies w.entities()[f] == self.entities()[f] by {
                assert(self.alloc@[f.id as int].1);
            }
            assert(w.entities() =~= self.entities());
            assert(w.signatures() =~= self.signatures());
            assert(w.row_counts() =~= self.row_counts());
        }
        Ok(w)
    }
}

/// Inserting a component type that a live entity lacks and then removing it
/// again gives back the entity's components, and the entity sits in the
/// archetype it started in.
pub proof fn lemma_insert_then_remove<V>(
    w0: World<V>,
    w1: World<V>,
    w2: World<V>,
    e: Entity,
    key: TypeKey,
    value: V,
)
    requires
        w0.wf(),
        w1.wf(),
        w2.wf(),
        w0.entities().contains_key(e),
        !w0.entities()[e].contains_key(key),
        w1.entities() == w0.entities().insert(e, w0.entities()[e].insert(key, value)),
        forall|b: int|
            0 <= b < w0.signatures().len() ==> b < w1.signatures().len() && #[trigger] w1.signatures()[b]
                == w0.signatures()[b],
        w2.entities() == w1.entities().insert(e, w1.entities()[e].remove(key)),
        forall|b: int|
            0 <= b < w1.signatures().len() ==> b < w2.signatures().len() && #[trigger] w2.signatures()[b]
                == w1.signatures()[b],
    ensures
        w2.entities() == w0.entities(),
        w2.archetype_of(e) == w0.archetype_of(e),
{
    assert(w0.entities()[e].insert(key, value).remove(key) =~= w0.entities()[e]);
    assert(w0.entities().insert(e, w0.entities()[e]) =~= w0.entities());
    w0.lemma_archetype_of(e);
    w2.lemma_archetype_of(e);
    let a = w0.archetype_of(e);
    assert(w1.signatures()[a] == w0.signatures()[a]);
    assert(w2.signatures()[a] == w1.signatures()[a]);
}

/// A batch of bundles spawned into an empty store, then a query for types
/// that every bundle holds: the query yields exactly the batch's entities,
/// each once, so as many as there were bundles.
pub proof fn lemma_batch_then_query<V>(
    before: World<V>,
    after: World<V>,
    bundles: Seq<Seq<(TypeKey, V)>>,
    ids: Seq<Entity>,
    keys: Set<TypeKey>,
    found: Seq<Entity>,
)
    requires
        before.entities() == Map::<Entity, Map<TypeKey, V>>::empty(),
        ids.len() == bundles.len(),
        ids.no_duplicates(),
        forall|i: int| 0 <= i < ids.len() ==> after.entities()[#[trigger] ids[i]] == staged(bundles[i]),
        forall|f: Entity|
            #[trigger] after.entities().contains_key(f) <==> before.entities().contains_key(f)
                || ids.contains(f),
        forall|i: int| 0 <= i < bundles.len() ==> keys.subset_of(#[trigger] staged(bundles[i]).dom()),
        found.no_duplicates(),
        forall|f: Entity|
            #[trigger] found.contains(f) <==> after.entities().contains_key(f) && keys.subset_of(
                after.entities()[f].dom(),
            ),
    ensures
        found.to_set() == ids.to_set(),
        found.len() == bundles.len(),
{
    assert forall|f: Entity| #[trigger] found.to_set().contains(f) == ids.to_set().contains(f) by {
        if ids.contains(f) {
            let i = choose|i: int| 0 <= i < ids.len() && ids[i] == f;
            assert(after.entities()[ids[i]] == staged(bundles[i]));
            assert(keys.subset_of(staged(bundles[i]).dom()));
        }
    }
    assert(found.to_set() =~= ids.to_set());
    found.unique_seq_to_set();
    ids.unique_seq_to_set();
}

/// A duplicate made by `clone_with` holds as many entities as the source,
/// and under each source handle the same component values.
pub proof fn lemma_clone_same<V>(source: World<V>, copy: World<V>)
    requires
        copy.entities() == source.entities(),
        copy.slots() == source.slots(),
    ensures
        live_count(copy.slots()) == live_count(source.slots()),
        forall|f: Entity|
            #[trigger] source.entities().contains_key(f) ==> copy.entities().contains_key(f)
                && copy.entities()[f] == source.entities()[f],
{
}

/// When every type that the source's entities hold is registered, the
/// entity-by-entity copy holds the same entities, under the same handles,
/// with the same component values.
pub proof fn lemma_clone_entities_same<V>(
    source: World<V>,
    copy: World<V>,
    registry: Set<TypeKey>,
)
    requires
        forall|f: Entity|
            #[trigger] source.entities().contains_key(f) ==> source.entities()[f].dom().subset_of(
                registry,
            ),
        copy.entities().dom() == source.entities().dom(),
        forall|f: Entity|
            #[trigger] source.entities().contains_key(f) ==> copy.entities()[f]
                == source.entities()[f].restrict(registry),
    ensures
        copy.entities() == source.entities(),
{
    assert forall|f: Entity| #[trigger] source.entities().contains_key(f) implies copy.entities()[f]
        == source.entities()[f] by {
        assert(source.entities()[f].restrict(registry) =~= source.entities()[f]);
    }
    assert(copy.entities() =~= source.entities());
}

} // verus!
