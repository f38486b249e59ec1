//! Bundles: sets of component values staged for insertion.
use vstd::prelude::*;
use crate::TypeKey;

verus! {

/// Whether some entry of `b` has key `k`.
pub open spec fn has_key<V>(b: Seq<(TypeKey, V)>, k: TypeKey) -> bool {
    exists|i: int| 0 <= i < b.len() && b[i].0 == k
}

/// An index of an entry of `b` with key `k`.
pub open spec fn key_index<V>(b: Seq<(TypeKey, V)>, k: TypeKey) -> int {
    choose|i: int| 0 <= i < b.len() && b[i].0 == k
}

/// No two entries of `b` share a key.
pub open spec fn unique_keys<V>(b: Seq<(TypeKey, V)>) -> bool {
    forall|i: int, j: int| 0 <= i < b.len() && 0 <= j < b.len() && i != j ==> b[i].0 != b[j].0
}

/// The components that a bundle with unique keys describes.
pub open spec fn bundle_map<V>(b: Seq<(TypeKey, V)>) -> Map<TypeKey, V> {
    Map::new(|k: TypeKey| has_key(b, k), |k: TypeKey| b[key_index(b, k)].1)
}

/// The components that a sequence of entries describes when each entry
/// overrides any earlier one with the same key.
pub open spec fn staged<V>(b: Seq<(TypeKey, V)>) -> Map<TypeKey, V>
    decreases b.len(),
{
    if b.len() == 0 {
        Map::empty()
    } else {
        staged(b.drop_last()).insert(b.last().0, b.last().1)
    }
}

/// For entries with distinct keys, staging them one by one gives the
/// bundle's components.
pub proof fn lemma_staged_unique<V>(b: Seq<(TypeKey, V)>)
    requires
        unique_keys(b),
    ensures
        staged(b) == bundle_map(b),
    decreases b.len(),
{
    if b.len() == 0 {
        assert(bundle_map(b) =~= Map::<TypeKey, V>::empty());
    } else {
        let p = b.drop_last();
        assert forall|i: int, j: int| 0 <= i < p.len() && 0 <= j < p.len() && i != j implies p[i].0 != p[j].0 by {
            assert(p[i] == b[i] && p[j] == b[j]);
        }
        lemma_staged_unique(p);
        if has_key(p, b.last().0) {
            let j = key_index(p, b.last().0);
            assert(b[j].0 == b[b.len() - 1].0);
        }
        lemma_push_entry(p, b.last());
        assert(p.push(b.last()) =~= b);
    }
}

/// In a bundle with unique keys, each entry gives the value of its key.
pub proof fn lemma_bundle_entry<V>(b: Seq<(TypeKey, V)>, i: int)
    requires
        unique_keys(b),
        0 <= i < b.len(),
    ensures
        bundle_map(b).contains_key(b[i].0),
        bundle_map(b)[b[i].0] == b[i].1,
{
    assert(has_key(b, b[i].0));
    let j = key_index(b, b[i].0);
    assert(b[j].0 == b[i].0);
}

/// The value that `entries` gives for `key`, if any.
pub fn value_of<V: Copy>(entries: &Vec<(TypeKey, V)>, key: TypeKey) -> (r: Option<V>)
    requires
        unique_keys(entries@),
    ensures
        r == if bundle_map(entries@).contains_key(key) {
            Some(bundle_map(entries@)[key])
        } else {
            None
        },
{
    let mut i: usize = 0;
    while i < entries.len()
        invariant
            i <= entries@.len(),
            unique_keys(entries@),
            forall|j: int| 0 <= j < i ==> #[trigger] entries@[j].0 != key,
        decreases entries@.len() - i,
    {
        if entries[i].0 == key {
            proof {
                lemma_bundle_entry(entries@, i as int);
            }
            return Some(entries[i].1);
        }
        i = i + 1;
    }
    None
}

/// The keys of `entries`, in order.
pub fn keys_of<V: Copy>(entries: &Vec<(TypeKey, V)>) -> (r: Vec<TypeKey>)
    requires
        unique_keys(entries@),
    ensures
        r@.len() == entries@.len(),
        forall|i: int| 0 <= i < r@.len() ==> r@[i] == #[trigger] entries@[i].0,
        r@.no_duplicates(),
        r@.to_set() == bundle_map(entries@).dom(),
{
    let mut r: Vec<TypeKey> = Vec::new();
    let mut i: usize = 0;
    while i < entries.len()
        invariant
            i <= entries@.len(),
            unique_keys(entries@),
            r@.len() == i,
            forall|j: int| 0 <= j < i ==> r@[j] == #[trigger] entries@[j].0,
        decreases entries@.len() - i,
    {
        r.push(entries[i].0);
        i = i + 1;
    }
    proof {
        assert forall|a: int, b: int| 0 <= a < r@.len() && 0 <= b < r@.len() && a != b implies r@[a] != r@[b] by {
            assert(r@[a] == entries@[a].0);
            assert(r@[b] == entries@[b].0);
        }
        assert forall|k: TypeKey| r@.to_set().contains(k) == bundle_map(entries@).dom().contains(k) by {
            if has_key(entries@, k) {
                let j = key_index(entries@, k);
                assert(r@[j] == k);
            }
            if r@.to_set().contains(k) {
                let j = choose|j: int| 0 <= j < r@.len() && r@[j] == k;
                assert(entries@[j].0 == k);
            }
        }
        assert(r@.to_set() =~= bundle_map(entries@).dom());
    }
    r
}

/// The entries of `entries` but the one with key `key`.
pub fn without_key<V: Copy>(entries: &Vec<(TypeKey, V)>, key: TypeKey) -> (r: Vec<(TypeKey, V)>)
    requires
        unique_keys(entries@),
    ensures
        unique_keys(r@),
        bundle_map(r@) == bundle_map(entries@).remove(key),
{
    let mut r: Vec<(TypeKey, V)> = Vec::new();
    let mut i: usize = 0;
    while i < entries.len()
        invariant
            i <= entries@.len(),
            unique_keys(entries@),
            unique_keys(r@),
            forall|j: int| 0 <= j < r@.len() ==> #[trigger] r@[j].0 != key,
            bundle_map(r@) == bundle_map(entries@.take(i as int)).remove(key),
        decreases entries@.len() - i,
    {
        let ghost before = r@;
        let ghost pre = entries@.take(i as int);
        let ghost post = entries@.take(i + 1);
        assert(post =~= pre.push(entries@[i as int]));
        proof {
            assert forall|a: int, b: int| 0 <= a < post.len() && 0 <= b < post.len() && a != b implies post[a].0 != post[b].0 by {
                assert(post[a] == entries@[a]);
                assert(post[b] == entries@[b]);
            }
            assert forall|a: int, b: int| 0 <= a < pre.len() && 0 <= b < pre.len() && a != b implies pre[a].0 != pre[b].0 by {
                assert(pre[a] == entries@[a]);
                assert(pre[b] == entries@[b]);
            }
            lemma_push_entry(pre, entries@[i as int]);
        }
        if entries[i].0 != key {
            r.push(entries[i]);
            proof {
                assert forall|a: int| 0 <= a < before.len() implies #[trigger] before[a].0 != entries@[i as int].0 by {
                    assert(bundle_map(before).contains_key(before[a].0)) by {
                        lemma_bundle_entry(before, a);
                    }
                    assert(!bundle_map(pre).contains_key(entries@[i as int].0)) by {
                        if has_key(pre, entries@[i as int].0) {
                            let q = key_index(pre, entries@[i as int].0);
                            assert(entries@[q].0 == entries@[i as int].0);
                        }
                    }
                }
                lemma_push_entry(before, entries@[i as int]);
                assert(bundle_map(r@) =~= bundle_map(post).remove(key));
            }
        } else {
            proof {
                assert(bundle_map(r@) =~= bundle_map(post).remove(key));
            }
        }
        i = i + 1;
    }
    assert(entries@.take(i as int) =~= entries@);
    r
}

/// Appending an entry with a new key adds it to the bundle's components.
pub proof fn lemma_push_entry<V>(b: Seq<(TypeKey, V)>, x: (TypeKey, V))
    requires
        unique_keys(b),
        !has_key(b, x.0),
    ensures
        unique_keys(b.push(x)),
        bundle_map(b.push(x)) == bundle_map(b).insert(x.0, x.1),
{
    let p = b.push(x);
    assert forall|i: int, j: int| 0 <= i < p.len() && 0 <= j < p.len() && i != j implies p[i].0 != p[j].0 by {
        if i < b.len() && j < b.len() {
            assert(p[i] == b[i] && p[j] == b[j]);
        } else if i < b.len() {
            assert(p[i] == b[i]);
        } else if j < b.len() {
            assert(p[j] == b[j]);
        }
    }
    assert forall|k: TypeKey| has_key(p, k) == (has_key(b, k) || k == x.0) by {
        if has_key(b, k) {
            let j = key_index(b, k);
            assert(p[j] == b[j]);
        }
        if has_key(p, k) {
            let j = key_index(p, k);
            if j < b.len() {
                assert(p[j] == b[j]);
            }
        }
        if k == x.0 {
            assert(p[b.len() as int] == x);
        }
    }
    assert forall|k: TypeKey| #[trigger] has_key(p, k) implies bundle_map(p)[k] == bundle_map(b).insert(x.0, x.1)[k] by {
        let j = key_index(p, k);
        lemma_bundle_entry(p, j);
        if j < b.len() {
            assert(p[j] == b[j]);
            lemma_bundle_entry(b, j);
        }
    }
    assert(bundle_map(p) =~= bundle_map(b).insert(x.0, x.1));
}

/// A staging area for the components of one entity. Adding a key that is
/// already staged replaces its value.
pub struct Builder<V> {
    entries: Vec<(TypeKey, V)>,
}

impl<V> View for Builder<V> {
    type V = Map<TypeKey, V>;

    closed spec fn view(&self) -> Map<TypeKey, V> {
        bundle_map(self.entries@)
    }
}

impl<V: Copy> Builder<V> {
    /// The builder's internal invariant.
    pub closed spec fn wf(&self) -> bool {
        unique_keys(self.entries@)
    }

    /// An empty builder.
    pub fn new() -> (r: Builder<V>)
        ensures
            r.wf(),
            r@ == Map::<TypeKey, V>::empty(),
    {
        let r = Builder { entries: Vec::new() };
        assert(r@ =~= Map::<TypeKey, V>::empty());
        r
    }

    /// Stages `value` under `key`, replacing any value staged under it.
    pub fn add(&mut self, key: TypeKey, value: V)
        requires
            old(self).wf(),
        ensures
            final(self).wf(),
            final(self)@ == old(self)@.insert(key, value),
    {
        let ghost before = self.entries@;
        let mut i: usize = 0;
        while i < self.entries.len()
            invariant
                self.entries@ == before,
                old(self).entries@ == before,
                unique_keys(before),
                forall|j: int| 0 <= j < i ==> #[trigger] before[j].0 != key,
            decreases before.len() - i,
        {
            if self.entries[i].0 == key {
                self.entries.set(i, (key, value));
                proof {
                    let after = self.entries@;
                    assert(before[i as int].0 == key);
                    assert(has_key(before, key));
                    assert forall|k: TypeKey| has_key(after, k) == has_key(before, k) by {
                        if has_key(before, k) {
                            let j = key_index(before, k);
                            assert(after[j].0 == k);
                        }
                        if has_key(after, k) {
                            let j = key_index(after, k);
                            assert(before[j].0 == k);
                        }
                    }
                    assert forall|k: TypeKey| #[trigger] has_key(after, k) implies bundle_map(
                        after,
                    )[k] == bundle_map(before).insert(key, value)[k] by {
                        let j = key_index(after, k);
                        lemma_bundle_entry(after, j);
                        if k != key {
                            lemma_bundle_entry(before, j);
                        } else {
                            assert(j == i);
                        }
                    }
                    assert(bundle_map(after) =~= bundle_map(before).insert(key, value));
                }
                return;
            }
            i = i + 1;
        }
        self.entries.push((key, value));
        proof {
            let after = self.entries@;
            assert(after =~= before.push((key, value)));
            assert forall|k: TypeKey| has_key(after, k) == (has_key(before, k) || k == key) by {
                if has_key(before, k) {
                    let j = key_index(before, k);
                    assert(after[j].0 == k);
                }
                if has_key(after, k) {
                    let j = key_index(after, k);
                    if j < before.len() {
                        assert(before[j].0 == k);
                    }
                }
                if k == key {
                    assert(after[before.len() as int].0 == k);
                }
            }
            assert forall|k: TypeKey| #[trigger] has_key(after, k) implies bundle_map(after)[k]
                == bundle_map(before).insert(key, value)[k] by {
                let j = key_index(after, k);
                lemma_bundle_entry(after, j);
                if j < before.len() {
                    lemma_bundle_entry(before, j);
                }
            }
            assert(bundle_map(after) =~= bundle_map(before).insert(key, value));
        }
    }

    /// Stages every entry of `entries` in order, so that a later entry
    /// overrides an earlier one with the same key.
    pub fn from_entries(entries: &Vec<(TypeKey, V)>) -> (r: Builder<V>)
        ensures
            r.wf(),
            r@ == staged(entries@),
    {
        let mut r = Builder::new();
        let mut i: usize = 0;
        while i < entries.len()
            invariant
                i <= entries@.len(),
                r.wf(),
                r@ == staged(entries@.take(i as int)),
            decreases entries@.len() - i,
        {
            let (k, v) = entries[i];
            r.add(k, v);
            proof {
                assert(entries@.take(i + 1).drop_last() =~= entries@.take(i as int));
            }
            i = i + 1;
        }
        proof {
            assert(entries@.take(i as int) =~= entries@);
        }
        r
    }

    /// Hands out the staged entries, leaving the builder empty.
    pub fn build(&mut self) -> (r: Vec<(TypeKey, V)>)
        requires
            old(self).wf(),
        ensures
            final(self).wf(),
            final(self)@ == Map::<TypeKey, V>::empty(),
            unique_keys(r@),
            bundle_map(r@) == old(self)@,
    {
        let mut r = Vec::new();
        core::mem::swap(&mut r, &mut self.entries);
        assert(self@ =~= Map::<TypeKey, V>::empty());
        r
    }
}

} // verus!
