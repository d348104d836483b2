//! The bucket table: a fixed array of ordered lists, one per bucket,
//! dispatching each operation to the list its key digests to, and an item
//! counter moved only when a binding is created or removed.
//!
//! Bucket selection is out of scope for the map's semantics: any stable
//! digest of the key works, and the table reduces the key modulo the
//! bucket count. The count is fixed at construction.

use crate::list::LinkedList;
use vstd::map::*;
use vstd::prelude::*;

verus! {

/// The number of bindings held by the lists from position `i` on.
pub open spec fn items_from(lists: Seq<LinkedList>, i: int) -> int
    decreases lists.len() - i when 0 <= i <= lists.len()
{
    if i < 0 || i >= lists.len() {
        0
    } else {
        (lists[i].chain_len() - 2) + items_from(lists, i + 1)
    }
}

/// Changing one list changes the count of bindings by that list's change
/// in chain length.
proof fn lemma_items_from_update(a: Seq<LinkedList>, b: Seq<LinkedList>, bi: int, i: int)
    requires
        a.len() == b.len(),
        0 <= bi < a.len(),
        0 <= i <= a.len(),
        forall|j: int|
            0 <= j < a.len() && j != bi ==> (#[trigger] a[j]).chain_len() == b[j].chain_len(),
    ensures
        items_from(b, i) == items_from(a, i) + (if i <= bi {
            b[bi].chain_len() - a[bi].chain_len()
        } else {
            0
        }),
    decreases a.len() - i,
{
    if i < a.len() {
        lemma_items_from_update(a, b, bi, i + 1);
    }
}

/// The count of bindings is zero exactly when every list from `i` on is
/// bare sentinels; it is never negative.
proof fn lemma_items_from_zero(lists: Seq<LinkedList>, i: int)
    requires
        0 <= i <= lists.len(),
        forall|j: int| 0 <= j < lists.len() ==> (#[trigger] lists[j]).wf(),
    ensures
        items_from(lists, i) >= 0,
        (items_from(lists, i) == 0) <==> (forall|j: int|
            i <= j < lists.len() ==> (#[trigger] lists[j]).chain_len() == 2),
    decreases lists.len() - i,
{
    if i < lists.len() {
        lemma_items_from_zero(lists, i + 1);
    }
}

/// The count of all bindings is at least what any one list holds.
proof fn lemma_items_from_lower_bound(lists: Seq<LinkedList>, b: int, i: int)
    requires
        0 <= i <= lists.len(),
        i <= b < lists.len(),
        forall|j: int| 0 <= j < lists.len() ==> (#[trigger] lists[j]).wf(),
    ensures
        items_from(lists, i) >= lists[b].chain_len() - 2,
    decreases lists.len() - i,
{
    if i < b {
        lemma_items_from_lower_bound(lists, b, i + 1);
        lemma_items_from_zero(lists, i + 1);
    } else {
        lemma_items_from_zero(lists, i + 1);
    }
}

/// A deferred node handed out by an operation: the bucket it was unlinked
/// from and its arena index there, both in bounds.
pub open spec fn valid_defer(t: Table, e: (usize, usize)) -> bool {
    &&& (e.0 as int) < t.buckets@.len()
    &&& (e.1 as int) < t.buckets@[e.0 as int].nodes@.len()
}

/// A fixed array of ordered lists and the best-effort count of bindings.
pub struct Table {
    pub nbuckets: usize,
    pub buckets: Vec<LinkedList>,
    pub nitems: usize,
}

impl Table {
    /// The bucket `k` digests to.
    pub open spec fn bucket_of(self, k: usize) -> int {
        k as int % self.nbuckets as int
    }

    /// The number of bindings across all buckets.
    pub open spec fn total_items(self) -> int {
        items_from(self.buckets@, 0)
    }

    /// Well-formedness: at least one bucket, every list well-formed, every
    /// key stored in the bucket it digests to, and the item counter exact.
    pub open spec fn wf(self) -> bool {
        &&& self.nbuckets >= 1
        &&& self.buckets@.len() == self.nbuckets
        &&& forall|b: int| 0 <= b < self.buckets@.len() ==> (#[trigger] self.buckets@[b]).wf()
        &&& forall|b: int, k: usize|
            0 <= b < self.buckets@.len() && (#[trigger] self.buckets@[b].has_key(k)) ==> k as int
                % self.nbuckets as int == b
        &&& self.nitems as int == self.total_items()
    }

    /// Room for one more node in the key's bucket and for one more item in
    /// the counter: the machine limits forced by tagged references and by
    /// the counter's width.
    pub open spec fn can_insert(self, key: usize) -> bool {
        &&& self.buckets@[self.bucket_of(key)].nodes@.len() + 1 <= usize::MAX as int / 2
        &&& self.nitems < usize::MAX
    }

    /// A table of `nbuckets` empty lists.
    pub fn new(nbuckets: usize) -> (t: Table)
        requires
            1 <= nbuckets,
        ensures
            t.wf(),
            t@ == Map::<usize, usize>::empty(),
            t.nbuckets == nbuckets,
            t.nitems == 0,
            forall|b: int| 0 <= b < nbuckets ==> (#[trigger] t.buckets@[b]).nodes@.len() == 2,
    {
        let mut buckets: Vec<LinkedList> = Vec::new();
        let mut i: usize = 0;
        while i < nbuckets
            invariant
                i <= nbuckets,
                buckets@.len() == i,
                forall|b: int|
                    0 <= b < i ==> (#[trigger] buckets@[b]).wf() && buckets@[b].chain_len() == 2
                        && buckets@[b].nodes@.len() == 2,
            decreases nbuckets - i,
        {
            buckets.push(LinkedList::default());
            i += 1;
        }
        let t = Table { nbuckets, buckets, nitems: 0 };
        proof {
            lemma_items_from_zero(t.buckets@, 0);
            assert forall|k: usize| !(#[trigger] t.buckets@[t.bucket_of(k)].has_key(k)) by {
                let b = t.bucket_of(k);
                assert(t.buckets@[b].chain_len() == 2);
            }
            assert(t@ =~= Map::<usize, usize>::empty());
        }
        t
    }

    /// Binds `key` to `value` in the key's bucket and returns the prior
    /// value, if any; the counter moves only when the binding is new. A
    /// spare node deferred by an in-place update is tagged with its bucket
    /// and appended to `remove_nodes`.
    #[verifier::rlimit(100)]
    pub fn insert(&mut self, key: usize, value: usize, remove_nodes: &mut Vec<(usize, usize)>) -> (r:
        Option<usize>)
        requires
            old(self).wf(),
            old(self).can_insert(key),
        ensures
            final(self).wf(),
            final(self).nbuckets == old(self).nbuckets,
            final(self).buckets@.len() == old(self).buckets@.len(),
            final(self)@ == old(self)@.insert(key, value),
            r == (if old(self)@.contains_key(key) {
                Some(old(self)@[key])
            } else {
                None::<usize>
            }),
            forall|b: int|
                0 <= b < final(self).buckets@.len() && b != old(self).bucket_of(key) ==> (
                #[trigger] final(self).buckets@[b]).nodes@.len() == old(self).buckets@[b].nodes@.len(),
            final(self).buckets@[old(self).bucket_of(key)].nodes@.len() == old(self).buckets@[old(
                self,
            ).bucket_of(key)].nodes@.len() + 1,
            r is None ==> final(self).nitems == old(self).nitems + 1 && final(remove_nodes)@ == old(
                remove_nodes,
            )@,
            r is Some ==> ({
                let b = old(self).bucket_of(key);
                &&& final(self).nitems == old(self).nitems
                &&& final(remove_nodes)@ == old(remove_nodes)@.push(
                    (b as usize, old(self).buckets@[b].nodes@.len() as usize),
                )
                &&& valid_defer(*final(self), final(remove_nodes)@.last())
            }),
    {
        let idx = key % self.nbuckets;
        let ghost prior = *self;
        let mut l = self.buckets.remove(idx);
        let mut tmp: Vec<usize> = Vec::new();
        let r = l.insert(key, value, &mut tmp);
        let ghost lsnap = l;
        self.buckets.insert(idx, l);
        proof {
            prior.buckets@.remove_ensures(idx as int);
            prior.buckets@.remove(idx as int).insert_ensures(idx as int, lsnap);
            assert(self.buckets@[idx as int] == lsnap);
            assert(lsnap@ == prior.buckets@[idx as int]@.insert(key, value));
            assert forall|j: int|
                0 <= j < prior.buckets@.len() && j != idx implies #[trigger] self.buckets@[j]
                == prior.buckets@[j] by {
                if j < idx {
                    assert(prior.buckets@.remove(idx as int)[j] == prior.buckets@[j]);
                } else {
                    assert(prior.buckets@.remove(idx as int)[j - 1] == prior.buckets@[j]);
                }
            }
            assert(self.buckets@.len() == prior.buckets@.len());
        }
        if r.is_some() {
            let spare = tmp[0];
            remove_nodes.push((idx, spare));
        } else {
            self.nitems = self.nitems + 1;
        }
        proof {
            let fin = *self;
            lemma_items_from_update(prior.buckets@, fin.buckets@, idx as int, 0);
            assert forall|b: int, k: usize|
                0 <= b < fin.buckets@.len() && (#[trigger] fin.buckets@[b].has_key(k)) implies k
                as int % fin.nbuckets as int == b by {
                if b == idx {
                    if k != key {
                        assert(fin.buckets@[b]@.contains_key(k));
                        assert(prior.buckets@[b]@.insert(key, value).contains_key(k));
                        assert(prior.buckets@[b].has_key(k));
                    }
                }
            }
            assert(fin.wf());
            assert_maps_equal!(fin.view(), prior.view().insert(key, value), k => {
                let b = fin.bucket_of(k);
                assert(b == prior.bucket_of(k));
                if b == idx {
                    assert(fin.buckets@[b]@ == prior.buckets@[idx as int]@.insert(key, value));
                    assert(fin.buckets@[b].has_key(k) == fin.buckets@[b]@.contains_key(k));
                    assert(prior.buckets@[b].has_key(k) == prior.buckets@[b]@.contains_key(k));
                    if k == key {
                        assert(fin.buckets@[b]@.contains_key(k));
                        assert(fin.buckets@[b]@[k] == value);
                    } else {
                        assert(fin.buckets@[b]@.contains_key(k) == prior.buckets@[b]@.contains_key(k));
                        if prior.buckets@[b]@.contains_key(k) {
                            assert(fin.buckets@[b]@[k] == prior.buckets@[b]@[k]);
                        }
                    }
                } else {
                    assert(fin.buckets@[b] == prior.buckets@[b]);
                    assert(k != key);
                }
            });
        }
        r
    }

    /// Returns a copy of the value bound to `key`, if any.
    pub fn get(&self, key: usize, remove_nodes: &mut Vec<(usize, usize)>) -> (r: Option<usize>)
        requires
            self.wf(),
        ensures
            r == (if self@.contains_key(key) {
                Some(self@[key])
            } else {
                None::<usize>
            }),
            final(remove_nodes)@ == old(remove_nodes)@,
    {
        let idx = key % self.nbuckets;
        let mut tmp: Vec<usize> = Vec::new();
        self.buckets[idx].get(key, &mut tmp)
    }

    /// Removes the binding for `key` from its bucket and returns its
    /// value, if any; the unlinked node is tagged with its bucket and
    /// appended to `remove_nodes`, and the counter moves down.
    #[verifier::rlimit(100)]
    pub fn delete(&mut self, key: usize, remove_nodes: &mut Vec<(usize, usize)>) -> (r: Option<
        usize,
    >)
        requires
            old(self).wf(),
        ensures
            final(self).wf(),
            final(self).nbuckets == old(self).nbuckets,
            final(self).buckets@.len() == old(self).buckets@.len(),
            final(self)@ == old(self)@.remove(key),
            r == (if old(self)@.contains_key(key) {
                Some(old(self)@[key])
            } else {
                None::<usize>
            }),
            forall|b: int|
                0 <= b < final(self).buckets@.len() ==> (#[trigger] final(self).buckets@[b]).nodes@.len()
                    == old(self).buckets@[b].nodes@.len(),
            r is None ==> final(self).nitems == old(self).nitems && final(remove_nodes)@ == old(
                remove_nodes,
            )@,
            r is Some ==> ({
                let b = old(self).bucket_of(key);
                let lst = old(self).buckets@[b];
                &&& final(self).nitems == old(self).nitems - 1
                &&& final(remove_nodes)@ == old(remove_nodes)@.push(
                    (b as usize, lst.links@[lst.pos_of(key)] as usize),
                )
                &&& valid_defer(*final(self), final(remove_nodes)@.last())
            }),
    {
        let idx = key % self.nbuckets;
        let ghost prior = *self;
        let mut l = self.buckets.remove(idx);
        let mut tmp: Vec<usize> = Vec::new();
        let r = l.delete(key, &mut tmp);
        let ghost lsnap = l;
        self.buckets.insert(idx, l);
        proof {
            prior.buckets@.remove_ensures(idx as int);
            prior.buckets@.remove(idx as int).insert_ensures(idx as int, lsnap);
            assert(self.buckets@[idx as int] == lsnap);
            assert(lsnap@ == prior.buckets@[idx as int]@.remove(key));
            assert forall|j: int|
                0 <= j < prior.buckets@.len() && j != idx implies #[trigger] self.buckets@[j]
                == prior.buckets@[j] by {
                if j < idx {
                    assert(prior.buckets@.remove(idx as int)[j] == prior.buckets@[j]);
                } else {
                    assert(prior.buckets@.remove(idx as int)[j - 1] == prior.buckets@[j]);
                }
            }
            assert(self.buckets@.len() == prior.buckets@.len());
        }
        if r.is_some() {
            let victim = tmp[0];
            remove_nodes.push((idx, victim));
            proof {
                lemma_items_from_lower_bound(prior.buckets@, idx as int, 0);
            }
            self.nitems = self.nitems - 1;
        }
        proof {
            let fin = *self;
            lemma_items_from_update(prior.buckets@, fin.buckets@, idx as int, 0);
            assert forall|b: int, k: usize|
                0 <= b < fin.buckets@.len() && (#[trigger] fin.buckets@[b].has_key(k)) implies k
                as int % fin.nbuckets as int == b by {
                if b == idx {
                    assert(fin.buckets@[b]@.contains_key(k));
                    assert(prior.buckets@[b]@.remove(key).contains_key(k));
                    assert(prior.buckets@[b].has_key(k));
                }
            }
            assert(fin.wf());
            assert_maps_equal!(fin.view(), prior.view().remove(key), k => {
                let b = fin.bucket_of(k);
                assert(b == prior.bucket_of(k));
                if b == idx {
                    assert(fin.buckets@[b]@ == prior.buckets@[idx as int]@.remove(key));
                    assert(fin.buckets@[b].has_key(k) == fin.buckets@[b]@.contains_key(k));
                    assert(prior.buckets@[b].has_key(k) == prior.buckets@[b]@.contains_key(k));
                    if k == key {
                        assert(!fin.buckets@[b]@.contains_key(k));
                    } else {
                        assert(fin.buckets@[b]@.contains_key(k) == prior.buckets@[b]@.contains_key(k));
                        if prior.buckets@[b]@.contains_key(k) {
                            assert(fin.buckets@[b]@[k] == prior.buckets@[b]@[k]);
                        }
                    }
                } else {
                    assert(fin.buckets@[b] == prior.buckets@[b]);
                    assert(k != key);
                }
            });
        }
        r
    }

    /// The value field of one arena slot; cleanup reads it to move a
    /// deferred node's cell onto the deferred-value list before the node
    /// itself is reclaimed.
    pub fn node_val(&self, b: usize, i: usize) -> (v: usize)
        requires
            (b as int) < self.buckets@.len(),
            (i as int) < self.buckets@[b as int].nodes@.len(),
        ensures
            v == self.buckets@[b as int].nodes@[i as int].val,
    {
        self.buckets[b].nodes[i].val
    }
}

impl View for Table {
    type V = Map<usize, usize>;

    /// The union of the buckets' bindings: each key is looked up in the
    /// bucket it digests to.
    open spec fn view(&self) -> Map<usize, usize> {
        Map::new(
            |k: usize| self.buckets@[self.bucket_of(k)].has_key(k),
            |k: usize| self.buckets@[self.bucket_of(k)]@[k],
        )
    }
}

/// The item counter reads zero exactly when no bucket holds a binding.
pub proof fn lemma_counter_empty(t: Table)
    requires
        t.wf(),
    ensures
        (t.nitems == 0) <==> (t@ == Map::<usize, usize>::empty()),
{
    lemma_items_from_zero(t.buckets@, 0);
    if t.nitems == 0 {
        assert forall|k: usize| !(#[trigger] t.buckets@[t.bucket_of(k)].has_key(k)) by {
            let b = t.bucket_of(k);
            assert(t.buckets@[b].chain_len() == 2);
        }
        assert(t@ =~= Map::<usize, usize>::empty());
    } else {
        let j = choose|j: int|
            0 <= j < t.buckets@.len() && (#[trigger] t.buckets@[j]).chain_len() != 2;
        let l = t.buckets@[j];
        assert(l.wf() && l.chain_len() > 2);
        assert(l.interior(1));
        l.lemma_at_pos(1);
        let k = l.key_at(1);
        assert(t.buckets@[j].has_key(k));
        assert(t.bucket_of(k) == j);
        assert(t@.contains_key(k));
        assert(!Map::<usize, usize>::empty().contains_key(k));
        assert(t@ != Map::<usize, usize>::empty());
    }
}

} // verus!
