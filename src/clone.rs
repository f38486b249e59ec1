//! The duplication registry: the component types that a store may copy.
//!
//! Component values are copied as they are, so the registry records which
//! types a duplicate may hold; a store holding a type that the registry does
//! not know cannot be duplicated.
use vstd::prelude::*;
use crate::TypeKey;
use crate::bundle::{bundle_map, unique_keys, has_key, key_index, lemma_bundle_entry, lemma_push_entry};

verus! {

/// The registry's entry for one component type.
#[derive(Debug, Clone, Copy, PartialEq, Eq, Structural)]
pub struct CloneEntry {
    pub key: TypeKey,
}

/// The entry that enables duplicating columns of type `key`.
pub fn register(key: TypeKey) -> (r: CloneEntry)
    ensures
        r.key == key,
{
    CloneEntry { key }
}

/// The set of component types that a store may be duplicated with.
#[derive(Clone)]
pub struct CloneRegistry {
    entries: Vec<CloneEntry>,
}

impl View for CloneRegistry {
    type V = Set<TypeKey>;

    closed spec fn view(&self) -> Set<TypeKey> {
        Set::new(|k: TypeKey| exists|i: int| 0 <= i < self.entries@.len() && self.entries@[i].key == k)
    }
}

impl Default for CloneRegistry {
    fn default() -> (r: CloneRegistry)
        ensures
            r@ == Set::<TypeKey>::empty(),
    {
        CloneRegistry::new()
    }
}

impl CloneRegistry {
    /// A registry with no types.
    pub fn new() -> (r: CloneRegistry)
        ensures
            r@ == Set::<TypeKey>::empty(),
    {
        let r = CloneRegistry { entries: Vec::new() };
        assert(r@ =~= Set::<TypeKey>::empty());
        r
    }

    /// Registers the type `key`, enabling it to be duplicated in any
    /// archetype that holds it; a type already registered is kept once.
    pub fn register(self, key: TypeKey) -> (r: CloneRegistry)
        ensures
            r@ == self@.insert(key),
    {
        let mut s = self;
        if !s.contains(key) {
            let ghost before = s.entries@;
            s.entries.push(register(key));
            proof {
                assert forall|k: TypeKey| #[trigger] s@.contains(k) == self@.insert(key).contains(k) by {
                    if self@.contains(k) {
                        let i = choose|i: int| 0 <= i < before.len() && before[i].key == k;
                        assert(s.entries@[i] == before[i]);
                    }
                    if k == key {
                        assert(s.entries@[before.len() as int].key == key);
                    }
                    if s@.contains(k) && k != key {
                        let i = choose|i: int| 0 <= i < s.entries@.len() && s.entries@[i].key == k;
                        assert(i < before.len());
                        assert(before[i].key == k);
                    }
                }
                assert(s@ =~= self@.insert(key));
            }
        } else {
            assert(s@ =~= self@.insert(key));
        }
        s
    }

    /// Whether `key` is registered.
    pub fn contains(&self, key: TypeKey) -> (r: bool)
        ensures
            r == self@.contains(key),
    {
        let mut i: usize = 0;
        while i < self.entries.len()
            invariant
                i <= self.entries@.len(),
                forall|j: int| 0 <= j < i ==> self.entries@[j].key != key,
            decreases self.entries@.len() - i,
        {
            if self.entries[i].key == key {
                return true;
            }
            i = i + 1;
        }
        false
    }

    /// The entries of `entries` whose types are registered.
    pub fn registered_entries<V: Copy>(&self, entries: &Vec<(TypeKey, V)>) -> (r: Vec<(TypeKey, V)>)
        requires
            unique_keys(entries@),
        ensures
            unique_keys(r@),
            bundle_map(r@) == bundle_map(entries@).restrict(self@),
    {
        let mut r: Vec<(TypeKey, V)> = Vec::new();
        let mut i: usize = 0;
        while i < entries.len()
            invariant
                i <= entries@.len(),
                unique_keys(entries@),
                unique_keys(r@),
                bundle_map(r@) == bundle_map(entries@.take(i as int)).restrict(self@),
            decreases entries@.len() - i,
        {
            let ghost before = r@;
            let ghost pre = entries@.take(i as int);
            let ghost post = entries@.take(i + 1);
            assert(post =~= pre.push(entries@[i as int]));
            proof {
                assert forall|a: int, b: int| 0 <= a < pre.len() && 0 <= b < pre.len() && a != b implies pre[a].0 != pre[b].0 by {
                    assert(pre[a] == entries@[a]);
                    assert(pre[b] == entries@[b]);
                }
                if has_key(pre, entries@[i as int].0) {
                    let q = key_index(pre, entries@[i as int].0);
                    assert(entries@[q].0 == entries@[i as int].0);
                }
                lemma_push_entry(pre, entries@[i as int]);
            }
            if self.contains(entries[i].0) {
                r.push(entries[i]);
                proof {
                    if has_key(before, entries@[i as int].0) {
                        let q = key_index(before, entries@[i as int].0);
                        lemma_bundle_entry(before, q);
                    }
                    lemma_push_entry(before, entries@[i as int]);
                    assert(bundle_map(r@) =~= bundle_map(post).restrict(self@));
                }
            } else {
                proof {
                    assert(bundle_map(r@) =~= bundle_map(post).restrict(self@));
                }
            }
            i = i + 1;
        }
        assert(entries@.take(i as int) =~= entries@);
        r
    }
}

} // verus!
