//! Archetypes: columnar tables for the entities that share one exact set of
//! component types.
use vstd::prelude::*;
use crate::TypeKey;
use crate::clone::CloneRegistry;
use crate::bundle::{bundle_map, unique_keys, value_of};

verus! {

/// One row of an archetype: the entity's slot index and its components.
pub type RowView<V> = (u32, Map<TypeKey, V>);

/// A table with one column per component type of its signature; row `r` of
/// every column belongs to the entity `entities[r]`.
pub struct Archetype<V> {
    types: Vec<TypeKey>,
    columns: Vec<Vec<V>>,
    entities: Vec<u32>,
}

impl<V> View for Archetype<V> {
    type V = Seq<RowView<V>>;

    closed spec fn view(&self) -> Seq<RowView<V>> {
        Seq::new(self.entities@.len(), |r: int| (self.entities@[r], self.row(r)))
    }
}

impl<V> Archetype<V> {
    /// The components held in row `r`.
    closed spec fn row(&self, r: int) -> Map<TypeKey, V> {
        Map::new(
            |k: TypeKey| self.types@.contains(k),
            |k: TypeKey| self.columns@[self.types@.index_of(k)]@[r],
        )
    }

    /// The set of component types of this archetype.
    pub closed spec fn signature(&self) -> Set<TypeKey> {
        self.types@.to_set()
    }

    /// The table's internal invariant: distinct types, one column per type,
    /// all columns as long as the entity list.
    pub closed spec fn wf(&self) -> bool {
        &&& self.types@.no_duplicates()
        &&& self.columns@.len() == self.types@.len()
        &&& forall|c: int|
            0 <= c < self.columns@.len() ==> (#[trigger] self.columns@[c])@.len()
                == self.entities@.len()
    }

    proof fn lemma_row_at(&self, r: int, c: int)
        requires
            self.wf(),
            0 <= c < self.types@.len(),
        ensures
            self.row(r).contains_key(self.types@[c]),
            self.row(r)[self.types@[c]] == self.columns@[c]@[r],
    {
        let k = self.types@[c];
        assert(self.types@.contains(k));
        let j = self.types@.index_of(k);
        assert(self.types@[j] == k);
    }

    /// Every row holds exactly the signature's component types.
    pub proof fn lemma_row_domain(&self, r: int)
        requires
            self.wf(),
            0 <= r < self@.len(),
        ensures
            self@[r].1.dom() == self.signature(),
    {
        assert(self@[r].1.dom() =~= self.signature());
    }

}

impl<V: Copy> Archetype<V> {
    /// An empty table for the component types `types`.
    pub fn new(types: Vec<TypeKey>) -> (r: Archetype<V>)
        requires
            types@.no_duplicates(),
        ensures
            r.wf(),
            r@ == Seq::<RowView<V>>::empty(),
            r.signature() == types@.to_set(),
    {
        let mut columns: Vec<Vec<V>> = Vec::new();
        let mut c: usize = 0;
        while c < types.len()
            invariant
                c <= types@.len(),
                columns@.len() == c,
                forall|i: int| 0 <= i < c ==> (#[trigger] columns@[i])@.len() == 0,
            decreases types@.len() - c,
        {
            columns.push(Vec::new());
            c = c + 1;
        }
        let r = Archetype { types, columns, entities: Vec::new() };
        assert(r@ =~= Seq::<RowView<V>>::empty());
        r
    }

    /// The number of rows.
    pub fn len(&self) -> (r: usize)
        ensures
            r == self@.len(),
    {
        self.entities.len()
    }

    /// The slot index of the entity in row `r`.
    pub fn entity_at(&self, r: usize) -> (id: u32)
        requires
            r < self@.len(),
        ensures
            id == self@[r as int].0,
    {
        self.entities[r]
    }

    /// Whether every key of `keys` is in the signature.
    pub fn has_all(&self, keys: &Vec<TypeKey>) -> (r: bool)
        requires
            self.wf(),
        ensures
            r == keys@.to_set().subset_of(self.signature()),
    {
        let mut i: usize = 0;
        while i < keys.len()
            invariant
                i <= keys@.len(),
                forall|j: int| 0 <= j < i ==> self.types@.contains(#[trigger] keys@[j]),
            decreases keys@.len() - i,
        {
            if !self.has_type(keys[i]) {
                proof {
                    assert(keys@.to_set().contains(keys@[i as int]));
                }
                return false;
            }
            i = i + 1;
        }
        proof {
            assert forall|k: TypeKey| keys@.to_set().contains(k) implies self.signature().contains(k) by {
                let j = choose|j: int| 0 <= j < keys@.len() && keys@[j] == k;
                assert(self.types@.contains(keys@[j]));
            }
        }
        true
    }

    /// Whether every type of the signature is registered in `registry`.
    pub fn registered_in(&self, registry: &CloneRegistry) -> (r: bool)
        requires
            self.wf(),
        ensures
            r == self.signature().subset_of(registry@),
    {
        let mut i: usize = 0;
        while i < self.types.len()
            invariant
                i <= self.types@.len(),
                forall|j: int| 0 <= j < i ==> registry@.contains(#[trigger] self.types@[j]),
            decreases self.types@.len() - i,
        {
            if !registry.contains(self.types[i]) {
                proof {
                    assert(self.signature().contains(self.types@[i as int]));
                }
                return false;
            }
            i = i + 1;
        }
        proof {
            assert forall|k: TypeKey| self.signature().contains(k) implies registry@.contains(k) by {
                let j = choose|j: int| 0 <= j < self.types@.len() && self.types@[j] == k;
                assert(registry@.contains(self.types@[j]));
            }
        }
        true
    }

    /// Whether `key` is in the signature.
    pub fn has_type(&self, key: TypeKey) -> (r: bool)
        ensures
            r == self.signature().contains(key),
    {
        let mut i: usize = 0;
        while i < self.types.len()
            invariant
                i <= self.types@.len(),
                forall|j: int| 0 <= j < i ==> self.types@[j] != key,
            decreases self.types@.len() - i,
        {
            if self.types[i] == key {
                proof {
                    assert(self.types@.contains(key));
                }
                return true;
            }
            i = i + 1;
        }
        false
    }

    /// Whether the signature is exactly the set of keys of `keys`.
    pub fn has_signature(&self, keys: &Vec<TypeKey>) -> (r: bool)
        requires
            self.wf(),
        ensures
            r == (self.signature() == keys@.to_set()),
    {
        if !self.has_all(keys) {
            return false;
        }
        let mut i: usize = 0;
        while i < self.types.len()
            invariant
                i <= self.types@.len(),
                forall|j: int| 0 <= j < i ==> keys@.contains(#[trigger] self.types@[j]),
            decreases self.types@.len() - i,
        {
            let k = self.types[i];
            let mut found = false;
            let mut j: usize = 0;
            while j < keys.len()
                invariant
                    j <= keys@.len(),
                    found ==> keys@.contains(k),
                    !found ==> forall|q: int| 0 <= q < j ==> keys@[q] != k,
                decreases keys@.len() - j,
            {
                if keys[j] == k {
                    found = true;
                }
                j = j + 1;
            }
            if !found {
                proof {
                    assert(self.signature().contains(k));
                    assert(!keys@.to_set().contains(k));
                }
                return false;
            }
            i = i + 1;
        }
        proof {
            assert forall|k: TypeKey| self.signature().contains(k) implies keys@.to_set().contains(k) by {
                let j = choose|j: int| 0 <= j < self.types@.len() && self.types@[j] == k;
                assert(keys@.contains(self.types@[j]));
            }
            assert(self.signature() =~= keys@.to_set());
        }
        true
    }

    /// Appends a row for entity `id` holding the components of `entries`,
    /// whose keys are exactly the signature.
    pub fn push_row(&mut self, id: u32, entries: &Vec<(TypeKey, V)>)
        requires
            old(self).wf(),
            unique_keys(entries@),
            bundle_map(entries@).dom() == old(self).signature(),
        ensures
            final(self).wf(),
            final(self).signature() == old(self).signature(),
            final(self)@ == old(self)@.push((id, bundle_map(entries@))),
    {
        let ghost m = bundle_map(entries@);
        let mut c: usize = 0;
        while c < self.types.len()
            invariant
                self.types == old(self).types,
                self.entities == old(self).entities,
                old(self).wf(),
                c <= self.types@.len(),
                m == bundle_map(entries@),
                m.dom() == old(self).signature(),
                unique_keys(entries@),
                self.columns@.len() == self.types@.len(),
                forall|i: int|
                    0 <= i < c ==> (#[trigger] self.columns@[i])@ == old(self).columns@[i]@.push(
                        m[self.types@[i]],
                    ),
                forall|i: int|
                    c <= i < self.types@.len() ==> #[trigger] self.columns@[i] == old(
                        self,
                    ).columns@[i],
            decreases self.types@.len() - c,
        {
            let k = self.types[c];
            proof {
                assert(old(self).signature().contains(k));
            }
            let v = match value_of(entries, k) {
                Some(v) => v,
                None => {
                    proof {
                        assert(false);
                    }
                    return;
                },
            };
            self.columns[c].push(v);
            c = c + 1;
        }
        self.entities.push(id);
        proof {
            let n = old(self)@.len();
            assert forall|r: int| 0 <= r <= n implies #[trigger] self@[r] == old(self)@.push(
                (id, m),
            )[r] by {
                assert forall|k: TypeKey| #[trigger] self.row(r).contains_key(k) implies self.row(
                    r,
                )[k] == (if r < n {
                    old(self).row(r)
                } else {
                    m
                })[k] by {
                    let c = self.types@.index_of(k);
                    self.lemma_row_at(r, c);
                    if r < n {
                        old(self).lemma_row_at(r, c);
                    }
                }
                if r < n {
                    assert(self.row(r) =~= old(self).row(r));
                } else {
                    assert(self.row(r).dom() =~= m.dom());
                    assert(self.row(r) =~= m);
                }
            }
            assert(self@ =~= old(self)@.push((id, m)));
        }
    }

    /// Removes row `r`, moving the last row into its place.
    pub fn swap_remove(&mut self, r: usize)
        requires
            old(self).wf(),
            r < old(self)@.len(),
        ensures
            final(self).wf(),
            final(self).signature() == old(self).signature(),
            final(self)@ == old(self)@.update(r as int, old(self)@.last()).drop_last(),
    {
        let ghost n = old(self)@.len();
        let mut c: usize = 0;
        while c < self.types.len()
            invariant
                self.types == old(self).types,
                self.entities == old(self).entities,
                old(self).wf(),
                r < n,
                n == self.entities@.len(),
                c <= self.types@.len(),
                self.columns@.len() == self.types@.len(),
                forall|i: int|
                    0 <= i < c ==> (#[trigger] self.columns@[i])@ == old(self).columns@[i]@.update(
                        r as int,
                        old(self).columns@[i]@.last(),
                    ).drop_last(),
                forall|i: int|
                    c <= i < self.types@.len() ==> #[trigger] self.columns@[i] == old(
                        self,
                    ).columns@[i],
            decreases self.types@.len() - c,
        {
            self.columns[c].swap_remove(r);
            c = c + 1;
        }
        self.entities.swap_remove(r);
        proof {
            let target = old(self)@.update(r as int, old(self)@.last()).drop_last();
            assert forall|q: int| 0 <= q < n - 1 implies #[trigger] self@[q] == target[q] by {
                let src = if q == r { n - 1 } else { q };
                assert forall|k: TypeKey| #[trigger] self.row(q).contains_key(k) implies self.row(
                    q,
                )[k] == old(self).row(src)[k] by {
                    let c = self.types@.index_of(k);
                    self.lemma_row_at(q, c);
                    old(self).lemma_row_at(src, c);
                }
                assert(self.row(q) =~= old(self).row(src));
            }
            assert(self@ =~= target);
        }
    }

    /// The components of row `r` as entries with distinct keys.
    pub fn row_entries(&self, r: usize) -> (e: Vec<(TypeKey, V)>)
        requires
            self.wf(),
            r < self@.len(),
        ensures
            unique_keys(e@),
            bundle_map(e@) == self@[r as int].1,
    {
        let mut e: Vec<(TypeKey, V)> = Vec::new();
        let mut c: usize = 0;
        while c < self.types.len()
            invariant
                self.wf(),
                r < self@.len(),
                c <= self.types@.len(),
                e@.len() == c,
                forall|i: int| 0 <= i < c ==> #[trigger] e@[i] == (self.types@[i], self.columns@[i]@[r as int]),
            decreases self.types@.len() - c,
        {
            e.push((self.types[c], self.columns[c][r]));
            c = c + 1;
        }
        proof {
            assert(e@ == Seq::new(self.types@.len(), |i: int| (self.types@[i], self.columns@[i]@[r as int])));
            assert forall|i: int, j: int| 0 <= i < e@.len() && 0 <= j < e@.len() && i != j implies e@[i].0 != e@[j].0 by {
                assert(e@[i].0 == self.types@[i]);
                assert(e@[j].0 == self.types@[j]);
            }
            let m = bundle_map(e@);
            assert forall|k: TypeKey| m.contains_key(k) == self.row(r as int).contains_key(k) by {
                if self.types@.contains(k) {
                    let c = self.types@.index_of(k);
                    assert(e@[c].0 == k);
                }
                if m.contains_key(k) {
                    let c = crate::bundle::key_index(e@, k);
                    assert(self.types@[c] == k);
                }
            }
            assert forall|k: TypeKey| #[trigger] m.contains_key(k) implies m[k] == self.row(r as int)[k] by {
                let c = crate::bundle::key_index(e@, k);
                crate::bundle::lemma_bundle_entry(e@, c);
                self.lemma_row_at(r as int, c);
            }
            assert(m =~= self.row(r as int));
        }
        e
    }

    fn column_of(&self, key: TypeKey) -> (c: Option<usize>)
        requires
            self.wf(),
        ensures
            c matches Some(i) ==> i < self.types@.len() && self.types@[i as int] == key,
            c is None ==> !self.signature().contains(key),
    {
        let mut i: usize = 0;
        while i < self.types.len()
            invariant
                i <= self.types@.len(),
                forall|j: int| 0 <= j < i ==> self.types@[j] != key,
            decreases self.types@.len() - i,
        {
            if self.types[i] == key {
                return Some(i);
            }
            i = i + 1;
        }
        None
    }

    /// The value of component `key` in row `r`, if the table has that type.
    pub fn get(&self, r: usize, key: TypeKey) -> (v: Option<V>)
        requires
            self.wf(),
            r < self@.len(),
        ensures
            v == if self@[r as int].1.contains_key(key) {
                Some(self@[r as int].1[key])
            } else {
                None
            },
    {
        match self.column_of(key) {
            Some(c) => {
                proof {
                    self.lemma_row_at(r as int, c as int);
                }
                Some(self.columns[c][r])
            },
            None => None,
        }
    }

    /// Overwrites the value of component `key`, one of the signature's
    /// types, in row `r`.
    pub fn set_value(&mut self, r: usize, key: TypeKey, value: V)
        requires
            old(self).wf(),
            r < old(self)@.len(),
            old(self).signature().contains(key),
        ensures
            final(self).wf(),
            final(self).signature() == old(self).signature(),
            final(self)@ == old(self)@.update(
                r as int,
                (old(self)@[r as int].0, old(self)@[r as int].1.insert(key, value)),
            ),
    {
        let c = match self.column_of(key) {
            Some(c) => c,
            None => {
                return;
            },
        };
        self.columns[c].set(r, value);
        proof {
            let target = old(self)@.update(
                r as int,
                (old(self)@[r as int].0, old(self)@[r as int].1.insert(key, value)),
            );
            assert forall|q: int| 0 <= q < self@.len() implies #[trigger] self@[q] == target[q] by {
                assert forall|k: TypeKey| #[trigger] self.row(q).contains_key(k) implies self.row(
                    q,
                )[k] == target[q].1[k] by {
                    let i = self.types@.index_of(k);
                    self.lemma_row_at(q, i);
                    old(self).lemma_row_at(q, i);
                }
                assert(self.row(q) =~= target[q].1);
            }
            assert(self@ =~= target);
        }
    }

    /// A copy of the table, column by column.
    pub fn duplicate(&self) -> (d: Archetype<V>)
        requires
            self.wf(),
        ensures
            d.wf(),
            d@ == self@,
            d.signature() == self.signature(),
    {
        let mut types: Vec<TypeKey> = Vec::new();
        let mut columns: Vec<Vec<V>> = Vec::new();
        let mut c: usize = 0;
        while c < self.types.len()
            invariant
                self.wf(),
                c <= self.types@.len(),
                types@ == self.types@.take(c as int),
                columns@.len() == c,
                forall|i: int| 0 <= i < c ==> (#[trigger] columns@[i])@ == self.columns@[i]@,
            decreases self.types@.len() - c,
        {
            types.push(self.types[c]);
            columns.push(copy_column(&self.columns[c]));
            proof {
                assert(types@ =~= self.types@.take(c + 1));
            }
            c = c + 1;
        }
        let entities = copy_column(&self.entities);
        let d = Archetype { types, columns, entities };
        proof {
            assert(d.types@ =~= self.types@);
            assert forall|q: int| 0 <= q < d@.len() implies #[trigger] d@[q] == self@[q] by {
                assert(d.row(q) =~= self.row(q));
            }
            assert(d@ =~= self@);
        }
        d
    }
}

/// A copy of a column, value by value.
pub fn copy_column<T: Copy>(col: &Vec<T>) -> (r: Vec<T>)
    ensures
        r@ == col@,
{
    let mut r: Vec<T> = Vec::new();
    let mut i: usize = 0;
    while i < col.len()
        invariant
            i <= col@.len(),
            r@ == col@.take(i as int),
        decreases col@.len() - i,
    {
        r.push(col[i]);
        proof {
            assert(r@ =~= col@.take(i + 1));
        }
        i = i + 1;
    }
    assert(r@ =~= col@);
    r
}

} // verus!
