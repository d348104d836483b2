//! The per-thread facade over the shared map.
//!
//! A handle owns an epoch counter registered in the map's registry. Every
//! public operation increments it once on entry and once on exit, so its
//! parity tells whether the handle stands inside a critical section: even
//! means quiescent. Nodes and value cells unlinked by operations are not
//! reclaimed in place; they go onto the handle's private defer lists, and
//! every `REFRESH_RATE` operations a cleanup round confirms that every
//! registered handle is quiescent and then reclaims everything deferred.
//!
//! The ghost counters `alloc_nodes` and `alloc_vals` instrument
//! allocation: they move up at every allocation site and down at every
//! reclamation site, and well-formedness pins them to the live structure,
//! which is the balance the reclamation law rests on.
//!
//! Under single ownership a map has exactly one live handle, so the
//! registry holds one counter and a cleanup round never finds a peer to
//! wait out; the scan over the registry is still performed, and its
//! quiescence check is proved rather than spun on.

use crate::table::Table;
use crate::table::lemma_counter_empty;
use crate::table::valid_defer;
use vstd::prelude::*;

verus! {

/// How many public operations a handle performs between cleanup rounds.
pub const REFRESH_RATE: usize = 1000;

/// The shared heart of the map: the bucket table and the registry of
/// epoch counters, one per registered handle.
pub struct EpochMap {
    pub table: Table,
    pub handles: Vec<usize>,
}

/// A per-thread facade: the shared map, this handle's slot in the epoch
/// registry, the private defer lists, the operation counter, and the
/// ghost allocation instrumentation.
pub struct MapHandle {
    pub map: EpochMap,
    pub me: usize,
    pub remove_nodes: Vec<(usize, usize)>,
    pub remove_val: Vec<usize>,
    pub refresh: usize,
    pub alloc_nodes: Ghost<int>,
    pub alloc_vals: Ghost<int>,
}

impl MapHandle {
    /// This handle's epoch counter.
    pub open spec fn spec_epoch(self) -> usize {
        self.map.handles@[self.me as int]
    }

    /// Well-formedness: the table is sound, this handle is registered,
    /// every registered handle is quiescent (even epoch), the operation
    /// counter has not yet reached the refresh point, every deferred node
    /// points into its bucket's arena, and the allocation counters equal
    /// what the live structure owes: one node per binding plus two
    /// sentinels per bucket plus the deferred nodes, and one value cell
    /// per binding, per deferred node, and per deferred cell.
    pub open spec fn wf(self) -> bool {
        &&& self.map.table.wf()
        &&& (self.me as int) < self.map.handles@.len()
        &&& forall|i: int|
            0 <= i < self.map.handles@.len() ==> #[trigger] self.map.handles@[i] % 2 == 0
        &&& self.refresh < REFRESH_RATE
        &&& forall|j: int|
            0 <= j < self.remove_nodes@.len() ==> valid_defer(
                self.map.table,
                #[trigger] self.remove_nodes@[j],
            )
        &&& self.alloc_nodes@ == 2 * self.map.table.nbuckets + self.map.table.nitems
            + self.remove_nodes@.len()
        &&& self.alloc_vals@ == self.map.table.nitems + self.remove_nodes@.len()
            + self.remove_val@.len()
    }

    /// Headroom for the two epoch increments of one operation: the
    /// machine limit forced by the counter's width.
    pub open spec fn can_operate(self) -> bool {
        self.spec_epoch() + 2 <= usize::MAX
    }

    /// Binds `key` to `val` and returns the prior value, if any.
    pub fn insert(&mut self, key: usize, val: usize) -> (r: Option<usize>)
        requires
            old(self).wf(),
            old(self).can_operate(),
            old(self).map.table.can_insert(key),
        ensures
            final(self).wf(),
            final(self)@ == old(self)@.insert(key, val),
            r == (if old(self)@.contains_key(key) {
                Some(old(self)@[key])
            } else {
                None::<usize>
            }),
            final(self).spec_epoch() == old(self).spec_epoch() + 2,
            final(self).spec_epoch() % 2 == 0,
            final(self).me == old(self).me,
            final(self).map.table.nbuckets == old(self).map.table.nbuckets,
            final(self).map.table.buckets@.len() == old(self).map.table.buckets@.len(),
            final(self).map.table.nitems <= old(self).map.table.nitems + 1,
            forall|b: int|
                0 <= b < final(self).map.table.buckets@.len()
                    ==> (#[trigger] final(self).map.table.buckets@[b]).nodes@.len()
                    <= old(self).map.table.buckets@[b].nodes@.len() + 1,
            old(self).refresh < REFRESH_RATE - 1 ==> ({
                let t = old(self).map.table;
                let b = t.bucket_of(key);
                &&& final(self).refresh == old(self).refresh + 1
                &&& (r is Some ==> final(self).remove_nodes@ == old(self).remove_nodes@.push(
                    (b as usize, t.buckets@[b].nodes@.len() as usize),
                ) && final(self).remove_val@ == old(self).remove_val@.push(r->Some_0))
                &&& (r is None ==> final(self).remove_nodes@ == old(self).remove_nodes@ && final(self).remove_val@ == old(self).remove_val@)
            }),
            old(self).refresh == REFRESH_RATE - 1 ==> final(self).refresh == 0 && final(self).remove_nodes@.len() == 0 && final(self).remove_val@.len() == 0,
    {
        self.refresh = self.refresh + 1;
        // enter the critical section: epoch becomes odd
        let e0 = self.map.handles[self.me];
        self.map.handles[self.me] = e0 + 1;
        let data = self.map.table.insert(key, val, &mut self.remove_nodes);
        // leave the critical section: epoch becomes even again
        let e1 = self.map.handles[self.me];
        self.map.handles[self.me] = e1 + 1;
        proof {
            // one node was allocated; one cell for a new binding, two for
            // an update (the spare node's cell and the cell swapped in)
            self.alloc_nodes@ = self.alloc_nodes@ + 1;
            if data is Some {
                self.alloc_vals@ = self.alloc_vals@ + 2;
            } else {
                self.alloc_vals@ = self.alloc_vals@ + 1;
            }
        }
        let mut ret: Option<usize> = None;
        if let Some(v) = data {
            ret = Some(v);
            // the replaced cell was read out; defer it for reclamation
            self.remove_val.push(v);
        }
        proof {
            assert forall|i: int| 0 <= i < self.map.handles@.len() implies #[trigger] self.map
                .handles@[i] % 2 == 0 by {
                if i != self.me as int {
                    assert(self.map.handles@[i] == old(self).map.handles@[i]);
                }
            }
        }
        if self.refresh == REFRESH_RATE {
            self.refresh = 0;
            self.cleanup();
        }
        ret
    }

    /// Removes the binding for `key` and returns its value, if any.
    pub fn remove(&mut self, key: usize) -> (r: Option<usize>)
        requires
            old(self).wf(),
            old(self).can_operate(),
        ensures
            final(self).wf(),
            final(self)@ == old(self)@.remove(key),
            r == (if old(self)@.contains_key(key) {
                Some(old(self)@[key])
            } else {
                None::<usize>
            }),
            final(self).spec_epoch() == old(self).spec_epoch() + 2,
            final(self).spec_epoch() % 2 == 0,
            final(self).me == old(self).me,
            final(self).map.table.nbuckets == old(self).map.table.nbuckets,
            final(self).map.table.buckets@.len() == old(self).map.table.buckets@.len(),
            final(self).map.table.nitems <= old(self).map.table.nitems,
            forall|b: int|
                0 <= b < final(self).map.table.buckets@.len()
                    ==> (#[trigger] final(self).map.table.buckets@[b]).nodes@.len()
                    == old(self).map.table.buckets@[b].nodes@.len(),
            old(self).refresh < REFRESH_RATE - 1 ==> ({
                let t = old(self).map.table;
                let b = t.bucket_of(key);
                let lst = t.buckets@[b];
                &&& final(self).refresh == old(self).refresh + 1
                &&& final(self).remove_val@ == old(self).remove_val@
                &&& (r is Some ==> final(self).remove_nodes@ == old(self).remove_nodes@.push(
                    (b as usize, lst.links@[lst.pos_of(key)] as usize),
                ))
                &&& (r is None ==> final(self).remove_nodes@ == old(self).remove_nodes@)
            }),
            old(self).refresh == REFRESH_RATE - 1 ==> final(self).refresh == 0 && final(self).remove_nodes@.len() == 0 && final(self).remove_val@.len() == 0,
    {
        self.refresh = self.refresh + 1;
        let e0 = self.map.handles[self.me];
        self.map.handles[self.me] = e0 + 1;
        let data = self.map.table.delete(key, &mut self.remove_nodes);
        let e1 = self.map.handles[self.me];
        self.map.handles[self.me] = e1 + 1;
        proof {
            // an unlinked node moves from the table to the defer list;
            // nothing was allocated or reclaimed
            assert forall|i: int| 0 <= i < self.map.handles@.len() implies #[trigger] self.map
                .handles@[i] % 2 == 0 by {
                if i != self.me as int {
                    assert(self.map.handles@[i] == old(self).map.handles@[i]);
                }
            }
        }
        if self.refresh == REFRESH_RATE {
            self.refresh = 0;
            self.cleanup();
        }
        data
    }

    /// Returns a copy of the value bound to `key`, if any.
    pub fn get(&mut self, key: usize) -> (r: Option<usize>)
        requires
            old(self).wf(),
            old(self).can_operate(),
        ensures
            final(self).wf(),
            final(self)@ == old(self)@,
            r == (if old(self)@.contains_key(key) {
                Some(old(self)@[key])
            } else {
                None::<usize>
            }),
            final(self).spec_epoch() == old(self).spec_epoch() + 2,
            final(self).spec_epoch() % 2 == 0,
            final(self).me == old(self).me,
            final(self).map.table == old(self).map.table,
            old(self).refresh < REFRESH_RATE - 1 ==> final(self).refresh == old(self).refresh + 1
                && final(self).remove_nodes@ == old(self).remove_nodes@ && final(self).remove_val@
                == old(self).remove_val@,
            old(self).refresh == REFRESH_RATE - 1 ==> final(self).refresh == 0 && final(self).remove_nodes@.len() == 0 && final(self).remove_val@.len() == 0,
    {
        self.refresh = self.refresh + 1;
        let e0 = self.map.handles[self.me];
        self.map.handles[self.me] = e0 + 1;
        let data = self.map.table.get(key, &mut self.remove_nodes);
        let e1 = self.map.handles[self.me];
        self.map.handles[self.me] = e1 + 1;
        proof {
            assert forall|i: int| 0 <= i < self.map.handles@.len() implies #[trigger] self.map
                .handles@[i] % 2 == 0 by {
                if i != self.me as int {
                    assert(self.map.handles@[i] == old(self).map.handles@[i]);
                }
            }
        }
        if self.refresh == REFRESH_RATE {
            self.refresh = 0;
            self.cleanup();
        }
        data
    }

    /// The best-effort count of bindings; exact here, where no operation
    /// races the counter.
    pub fn len(&self) -> (n: usize)
        requires
            self.wf(),
        ensures
            n as int == self.map.table.total_items(),
            (n == 0) <==> self@ == Map::<usize, usize>::empty(),
    {
        proof {
            lemma_counter_empty(self.map.table);
        }
        self.map.table.nitems
    }

    /// Whether the map holds no bindings.
    pub fn is_empty(&self) -> (b: bool)
        requires
            self.wf(),
        ensures
            b <==> self@ == Map::<usize, usize>::empty(),
    {
        proof {
            lemma_counter_empty(self.map.table);
        }
        self.map.table.nitems == 0
    }

    /// This handle's epoch counter: even exactly when quiescent.
    pub fn epoch(&self) -> (e: usize)
        requires
            (self.me as int) < self.map.handles@.len(),
        ensures
            e == self.spec_epoch(),
    {
        self.map.handles[self.me]
    }

    /// Allocation instrumentation: how many unlinked nodes await
    /// reclamation.
    pub fn deferred_nodes(&self) -> (n: usize)
        ensures
            n == self.remove_nodes@.len(),
    {
        self.remove_nodes.len()
    }

    /// Allocation instrumentation: how many value cells await
    /// reclamation.
    pub fn deferred_values(&self) -> (n: usize)
        ensures
            n == self.remove_val@.len(),
    {
        self.remove_val.len()
    }

    /// A cleanup round. The registry is snapshotted and every handle that
    /// was mid-operation at the snapshot would be waited out; on a
    /// quiescent registry the scan finds nothing to wait for. Then every
    /// deferred node is reclaimed—its value cell moved onto the deferred
    /// value list first, since unlinking never freed it—and finally every
    /// deferred value cell is reclaimed and both lists are cleared.
    #[verifier::loop_isolation(false)]
    fn cleanup(&mut self)
        requires
            old(self).wf(),
        ensures
            final(self).wf(),
            final(self)@ == old(self)@,
            final(self).map == old(self).map,
            final(self).me == old(self).me,
            final(self).refresh == old(self).refresh,
            final(self).remove_nodes@.len() == 0,
            final(self).remove_val@.len() == 0,
            final(self).alloc_nodes@ == 2 * final(self).map.table.nbuckets
                + final(self).map.table.nitems,
            final(self).alloc_vals@ == final(self).map.table.nitems,
    {
        // snapshot the registry
        let mut started: Vec<usize> = Vec::new();
        let mut i: usize = 0;
        while i < self.map.handles.len()
            invariant
                *self == *old(self),
                i <= self.map.handles@.len(),
                started@ == self.map.handles@.subrange(0, i as int),
            decreases self.map.handles@.len() - i,
        {
            started.push(self.map.handles[i]);
            i += 1;
            proof {
                assert(started@ =~= self.map.handles@.subrange(0, i as int));
            }
        }
        // wait out any handle that was mid-operation at the snapshot;
        // every snapshot entry here is even, so no waiting is owed
        let mut j: usize = 0;
        while j < started.len()
            invariant
                *self == *old(self),
                started@ == self.map.handles@.subrange(0, self.map.handles@.len() as int),
                j <= started@.len(),
            decreases started@.len() - j,
        {
            if started[j] % 2 == 1 {
                proof {
                    assert(self.map.handles@[j as int] % 2 == 0);
                    assert(false);
                }
            }
            j += 1;
        }
        // reclaim deferred nodes, moving each node's value cell onto the
        // deferred value list first: unlinking never freed it
        let mut k: usize = 0;
        while k < self.remove_nodes.len()
            invariant
                self.map == old(self).map,
                self.me == old(self).me,
                self.refresh == old(self).refresh,
                self.remove_nodes@ == old(self).remove_nodes@,
                k <= self.remove_nodes@.len(),
                self.remove_val@.len() == old(self).remove_val@.len() + k,
                self.alloc_nodes@ == old(self).alloc_nodes@ - k,
                self.alloc_vals@ == old(self).alloc_vals@,
            decreases self.remove_nodes@.len() - k,
        {
            let (b, idx) = self.remove_nodes[k];
            let v = self.map.table.node_val(b, idx);
            self.remove_val.push(v);
            proof {
                self.alloc_nodes@ = self.alloc_nodes@ - 1;
            }
            k += 1;
        }
        self.remove_nodes.clear();
        // reclaim every deferred value cell
        let ghost vals_before: int = self.remove_val@.len() as int;
        let ghost alloc_vals_before: int = self.alloc_vals@;
        let mut m: usize = 0;
        while m < self.remove_val.len()
            invariant
                self.map == old(self).map,
                self.me == old(self).me,
                self.refresh == old(self).refresh,
                self.remove_nodes@.len() == 0,
                self.remove_val@.len() == vals_before,
                m <= vals_before,
                self.alloc_nodes@ == 2 * self.map.table.nbuckets + self.map.table.nitems,
                self.alloc_vals@ == alloc_vals_before - m,
            decreases vals_before - m,
        {
            let _cell: usize = self.remove_val[m];
            proof {
                self.alloc_vals@ = self.alloc_vals@ - 1;
            }
            m += 1;
        }
        self.remove_val.clear();
    }
}

impl View for MapHandle {
    type V = Map<usize, usize>;

    /// The bindings of the shared map this handle operates on.
    open spec fn view(&self) -> Map<usize, usize> {
        self.map.table@
    }
}

impl EpochMap {
    /// Registers one more handle's epoch counter in the registry, fresh
    /// at zero (even: quiescent), and returns its slot. This is the
    /// registration step every new handle performs; the counters already
    /// registered are untouched.
    pub fn register(&mut self) -> (slot: usize)
        ensures
            final(self).handles@ == old(self).handles@.push(0),
            slot == old(self).handles@.len(),
            final(self).table == old(self).table,
    {
        let slot = self.handles.len();
        self.handles.push(0);
        slot
    }

    /// Builds a map with a fixed number of buckets and returns its first
    /// handle: empty defer lists, the operation counter at zero, and a
    /// fresh epoch counter holding the registry's only entry.
    pub fn with_capacity(nbuckets: usize) -> (h: MapHandle)
        requires
            1 <= nbuckets,
        ensures
            h.wf(),
            h@ == Map::<usize, usize>::empty(),
            h.map.table.nbuckets == nbuckets,
            h.map.handles@.len() == 1,
            h.me == 0,
            h.refresh == 0,
            h.spec_epoch() == 0,
            h.remove_nodes@.len() == 0,
            h.remove_val@.len() == 0,
            h.alloc_nodes@ == 2 * nbuckets,
            h.alloc_vals@ == 0,
            h.map.table.nitems == 0,
            forall|b: int|
                0 <= b < nbuckets ==> (#[trigger] h.map.table.buckets@[b]).nodes@.len() == 2,
    {
        let table = Table::new(nbuckets);
        let mut map = EpochMap { table, handles: Vec::new() };
        let me = map.register();
        let ghost an: int = 2 * (nbuckets as int);
        let ghost av: int = 0;
        MapHandle {
            map,
            me,
            remove_nodes: Vec::new(),
            remove_val: Vec::new(),
            refresh: 0,
            alloc_nodes: Ghost(an),
            alloc_vals: Ghost(av),
        }
    }
}

/// Reclamation law: once a cleanup round has drained both defer lists,
/// the nodes still allocated are exactly one per binding plus the two
/// sentinels of every bucket, and the value cells still allocated are
/// exactly one per binding. In particular, when the map holds no
/// bindings, exactly `2 * nbuckets` nodes and no value cells remain.
pub proof fn lemma_reclamation(h: MapHandle)
    requires
        h.wf(),
        h.remove_nodes@.len() == 0,
        h.remove_val@.len() == 0,
    ensures
        h.alloc_nodes@ == 2 * h.map.table.nbuckets + h.map.table.total_items(),
        h.alloc_vals@ == h.map.table.total_items(),
        h@ == Map::<usize, usize>::empty() ==> h.alloc_nodes@ == 2 * h.map.table.nbuckets
            && h.alloc_vals@ == 0,
{
    lemma_counter_empty(h.map.table);
}

} // verus!
