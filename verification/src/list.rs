//! The ordered list underlying every bucket.
//!
//! Nodes live in an arena (`nodes`) and are addressed by index; the list's
//! chain starts at the head sentinel, ends at the tail sentinel, and is
//! strictly ascending in keys. A successor reference is *tagged*: it is
//! twice the successor's arena index, plus one when the node holding it is
//! logically deleted (marked). A ghost sequence `links` records the arena
//! indices of the chain in order; it is the skeleton of every proof here.
//!
//! Deletion is two-phased as in the lock-free protocol: the node's
//! successor reference is first marked (logical delete), then the
//! predecessor is redirected past it (physical unlink), and the node is
//! handed to the caller's defer list instead of being reclaimed in place.

use vstd::map::*;
use vstd::prelude::*;

verus! {

/// A tagged reference is marked when its low bit is set: the node holding
/// it is logically deleted.
pub open spec fn ref_is_marked(r: usize) -> bool {
    r as int % 2 == 1
}

/// The arena index a tagged reference points at, with the mark stripped.
pub open spec fn ref_index(r: usize) -> int {
    r as int / 2
}

/// A node of an ordered list. The two sentinels (head and tail) carry no
/// key and own no value cell. `next` is a tagged successor reference.
#[derive(Clone, Copy)]
pub struct Node {
    pub key: Option<usize>,
    pub val: usize,
    pub next: usize,
}

impl Node {
    /// A sentinel node: no key, no value cell, null successor reference.
    pub fn empty() -> (n: Node)
        ensures
            n.key is None,
            n.val == 0,
            n.next == 0,
    {
        Node { key: None, val: 0, next: 0 }
    }

    /// A node holding the binding `key -> val`; models allocating the node
    /// together with one fresh value cell for `val`.
    pub fn new(key: usize, val: usize) -> (n: Node)
        ensures
            n.key == Some(key),
            n.val == val,
            n.next == 0,
    {
        Node { key: Some(key), val, next: 0 }
    }
}

/// An ordered list: an arena of nodes, the arena indices of the two
/// sentinels, and the ghost chain of arena indices from head to tail.
pub struct LinkedList {
    pub nodes: Vec<Node>,
    pub head: usize,
    pub tail: usize,
    pub links: Ghost<Seq<int>>,
}

impl LinkedList {
    /// The number of nodes on the chain, sentinels included.
    pub open spec fn chain_len(self) -> int {
        self.links@.len() as int
    }

    /// The node standing at chain position `p`.
    pub open spec fn node_at(self, p: int) -> Node {
        self.nodes@[self.links@[p]]
    }

    /// The key of the node at chain position `p` (meaningful on the
    /// interior of the chain, where every node carries a key).
    pub open spec fn key_at(self, p: int) -> usize {
        self.node_at(p).key->Some_0
    }

    /// Chain position `p` lies strictly between the sentinels.
    pub open spec fn interior(self, p: int) -> bool {
        1 <= p < self.chain_len() - 1
    }

    /// Well-formedness: the chain starts at the head sentinel, ends at the
    /// tail sentinel, visits distinct in-bounds arena slots, every chain
    /// reference is unmarked and leads to the next chain position, interior
    /// nodes carry keys, sentinels do not, and keys strictly ascend.
    pub open spec fn wf(self) -> bool {
        &&& self.head == 0
        &&& self.tail == 1
        &&& 2 <= self.nodes@.len()
        &&& self.nodes@.len() <= usize::MAX as int / 2
        &&& 2 <= self.links@.len()
        &&& self.links@[0] == 0
        &&& self.links@[self.chain_len() - 1] == 1
        &&& forall|p: int| 0 <= p < self.chain_len() ==> 0 <= #[trigger] self.links@[p] < self.nodes@.len()
        &&& forall|p: int, q: int|
            0 <= p < q < self.chain_len() ==> self.links@[p] != self.links@[q]
        &&& forall|p: int|
            0 <= p < self.chain_len() - 1 ==> (#[trigger] self.node_at(p)).next == 2 * self.links@[p + 1]
        &&& forall|p: int| self.interior(p) ==> (#[trigger] self.node_at(p)).key is Some
        &&& self.node_at(0).key is None
        &&& self.node_at(self.chain_len() - 1).key is None
        &&& forall|p: int, q: int|
            1 <= p < q < self.chain_len() - 1 ==> #[trigger] self.key_at(p) < #[trigger] self.key_at(q)
    }

    /// Some interior node of the chain carries `k`.
    pub open spec fn has_key(self, k: usize) -> bool {
        exists|p: int| self.interior(p) && #[trigger] self.key_at(p) == k
    }

    /// The chain position carrying `k` (unique on a well-formed list).
    pub open spec fn pos_of(self, k: usize) -> int {
        choose|p: int| self.interior(p) && #[trigger] self.key_at(p) == k
    }

    /// On a well-formed chain, a key is carried at exactly one position.
    pub proof fn lemma_at_pos(self, q: int)
        requires
            self.wf(),
            self.interior(q),
        ensures
            self.has_key(self.key_at(q)),
            self.pos_of(self.key_at(q)) == q,
            self@.contains_key(self.key_at(q)),
            self@[self.key_at(q)] == self.node_at(q).val,
    {
        let k = self.key_at(q);
        assert(self.interior(q) && self.key_at(q) == k);
        let p = self.pos_of(k);
        assert(self.interior(p) && self.key_at(p) == k);
        if p < q {
            assert(self.key_at(p) < self.key_at(q));
        }
        if q < p {
            assert(self.key_at(q) < self.key_at(p));
        }
    }

    /// When the walk stopped at position `p` without meeting `key`, no
    /// interior node carries it.
    pub proof fn lemma_not_found(self, key: usize, p: int)
        requires
            self.wf(),
            1 <= p <= self.chain_len() - 1,
            forall|q: int| 1 <= q < p ==> #[trigger] self.key_at(q) < key,
            p < self.chain_len() - 1 ==> self.key_at(p) > key,
        ensures
            !self.has_key(key),
            !self@.contains_key(key),
    {
        assert forall|q: int| self.interior(q) implies #[trigger] self.key_at(q) != key by {
            if q < p {
                assert(self.key_at(q) < key);
            } else if q == p {
                assert(self.key_at(q) > key);
            } else {
                assert(p < self.chain_len() - 1);
                assert(self.key_at(p) < self.key_at(q));
            }
        }
    }

    /// True of a tagged reference whose low bit is set: the node holding it
    /// is logically deleted.
    pub fn is_marked_reference(r: usize) -> (b: bool)
        ensures
            b == ref_is_marked(r),
    {
        r % 2 == 1
    }

    /// The same reference with the deletion mark set.
    pub fn get_marked_reference(r: usize) -> (m: usize)
        requires
            r < usize::MAX,
        ensures
            ref_is_marked(m),
            ref_index(m) == ref_index(r),
    {
        if r % 2 == 1 {
            r
        } else {
            r + 1
        }
    }

    /// The same reference with the deletion mark cleared; only this form
    /// may be used to address the arena.
    pub fn get_unmarked_reference(r: usize) -> (u: usize)
        ensures
            !ref_is_marked(u),
            ref_index(u) == ref_index(r),
            u == 2 * ref_index(r),
    {
        r - r % 2
    }

    /// Locates the first chain position whose key is at least `key`, or
    /// the tail sentinel when every key is smaller. Returns that node's
    /// arena index with its ghost chain position, and writes the arena
    /// index of its chain predecessor into `left_node`.
    pub fn search(&self, key: usize, left_node: &mut usize) -> (r: (usize, Ghost<int>))
        requires
            self.wf(),
        ensures
            ({
                let (right, p) = r;
                &&& 1 <= p@ <= self.chain_len() - 1
                &&& self.links@[p@ - 1] == *final(left_node) as int
                &&& self.links@[p@] == right as int
                &&& right < self.nodes@.len()
                &&& *final(left_node) < self.nodes@.len()
                &&& forall|q: int| 1 <= q < p@ ==> #[trigger] self.key_at(q) < key
                &&& (p@ < self.chain_len() - 1 ==> self.key_at(p@) >= key)
                &&& (right == self.tail <==> p@ == self.chain_len() - 1)
            }),
    {
        let mut left: usize = self.head;
        let ghost mut lp: int = 0;
        loop
            invariant
                self.wf(),
                0 <= lp < self.chain_len() - 1,
                self.links@[lp] == left as int,
                left < self.nodes@.len(),
                forall|q: int| 1 <= q <= lp ==> #[trigger] self.key_at(q) < key,
            decreases self.chain_len() - lp,
        {
            let next_ref = self.nodes[left].next;
            proof {
                assert(self.node_at(lp).next == 2 * self.links@[lp + 1]);
            }
            let t = Self::get_unmarked_reference(next_ref) / 2;
            proof {
                assert(t as int == self.links@[lp + 1]);
            }
            if t == self.tail {
                proof {
                    if lp + 1 != self.chain_len() - 1 {
                        assert(self.links@[lp + 1] != self.links@[self.chain_len() - 1]);
                    }
                }
                *left_node = left;
                return (t, Ghost(lp + 1));
            }
            proof {
                if lp + 1 == self.chain_len() - 1 {
                    assert(self.links@[lp + 1] == 1);
                }
                assert(self.interior(lp + 1));
                assert((self.node_at(lp + 1)).key is Some);
                assert(self.nodes@[t as int].key is Some);
            }
            let tkey: usize = match self.nodes[t].key {
                Some(k0) => k0,
                None => vstd::pervasive::unreached(),
            };
            proof {
                assert(tkey == self.key_at(lp + 1));
            }
            if tkey >= key {
                *left_node = left;
                return (t, Ghost(lp + 1));
            }
            left = t;
            proof {
                lp = lp + 1;
            }
        }
    }

    /// Returns a copy of the value currently bound to `key`, if any.
    ///
    /// The defer list is untouched: on a quiescent, well-formed chain there
    /// are no marked nodes for the traversal to splice out.
    pub fn get(&self, key: usize, remove_nodes: &mut Vec<usize>) -> (r: Option<usize>)
        requires
            self.wf(),
        ensures
            r == (if self@.contains_key(key) {
                Some(self@[key])
            } else {
                None::<usize>
            }),
            final(remove_nodes)@ == old(remove_nodes)@,
    {
        let mut left: usize = 0;
        let (right, p) = self.search(key, &mut left);
        if right == self.tail {
            proof {
                self.lemma_not_found(key, p@);
            }
            return None;
        }
        proof {
            assert(self.interior(p@));
            assert((self.node_at(p@)).key is Some);
            assert(self.nodes@[right as int].key is Some);
        }
        let rkey: usize = match self.nodes[right].key {
            Some(k0) => k0,
            None => vstd::pervasive::unreached(),
        };
        if rkey != key {
            proof {
                self.lemma_not_found(key, p@);
            }
            None
        } else {
            proof {
                self.lemma_at_pos(p@);
            }
            Some(self.nodes[right].val)
        }
    }
    /// Binds `key` to `val` and returns the prior value, if any. When the
    /// key is already present the value is updated in place: a fresh cell
    /// replaces the node's value and the spare node allocated for the
    /// insertion is deferred onto `remove_nodes`, exactly as the two-phase
    /// protocol does. Otherwise the new node is linked between the
    /// bracketing pair found by `search`.
    ///
    /// The arena bound in `requires` is the machine limit forced by tagged
    /// references: every index must leave room for the mark bit.
    #[verifier::rlimit(100)]
    pub fn insert(&mut self, key: usize, val: usize, remove_nodes: &mut Vec<usize>) -> (r: Option<
        usize,
    >)
        requires
            old(self).wf(),
            old(self).nodes@.len() + 1 <= usize::MAX as int / 2,
        ensures
            final(self).wf(),
            final(self)@ == old(self)@.insert(key, val),
            r == (if old(self)@.contains_key(key) {
                Some(old(self)@[key])
            } else {
                None::<usize>
            }),
            final(self).nodes@.len() == old(self).nodes@.len() + 1,
            r is Some ==> final(remove_nodes)@ == old(remove_nodes)@.push(
                old(self).nodes@.len() as usize,
            ) && final(self).chain_len() == old(self).chain_len(),
            r is None ==> final(remove_nodes)@ == old(remove_nodes)@ && final(self).chain_len()
                == old(self).chain_len() + 1,
    {
        let mut new_node = Node::new(key, val);
        let mut left: usize = 0;
        let (right, p) = self.search(key, &mut left);
        let ghost pp = p@;
        let ghost prior = *self;
        if right != self.tail {
            proof {
                assert(self.interior(pp));
                assert((self.node_at(pp)).key is Some);
                assert(self.nodes@[right as int].key is Some);
            }
            let rkey: usize = match self.nodes[right].key {
                Some(k0) => k0,
                None => vstd::pervasive::unreached(),
            };
            if rkey == key {
                proof {
                    prior.lemma_at_pos(pp);
                }
                // update in place: swap a fresh value cell into the node
                let mut upd = self.nodes[right];
                let old_val = upd.val;
                upd.val = val;
                self.nodes[right] = upd;
                // the spare node is surplus; defer it for reclamation
                let spare = self.nodes.len();
                self.nodes.push(new_node);
                remove_nodes.push(spare);
                proof {
                    assert forall|q: int| 0 <= q < prior.chain_len() implies (#[trigger] self
                        .node_at(q)).key == prior.node_at(q).key && self.node_at(q).next == prior
                        .node_at(q).next by {
                        assert(prior.links@[q] < prior.nodes@.len());
                    }
                    assert forall|q: int| 0 <= q < prior.chain_len() && q != pp implies (
                    #[trigger] self.node_at(q)).val == prior.node_at(q).val by {
                        if q < pp {
                            assert(prior.links@[q] != prior.links@[pp]);
                        } else {
                            assert(prior.links@[pp] != prior.links@[q]);
                        }
                    }
                    assert(2 <= self.nodes@.len() <= usize::MAX as int / 2);
                    assert(self.links@ == prior.links@);
                    assert(self.links@[0] == 0);
                    assert(self.links@[self.chain_len() - 1] == 1);
                    assert(forall|q: int|
                        0 <= q < self.chain_len() ==> 0 <= #[trigger] self.links@[q]
                            < self.nodes@.len());
                    assert(forall|q: int, s: int|
                        0 <= q < s < self.chain_len() ==> self.links@[q] != self.links@[s]);
                    assert forall|q: int| 0 <= q < self.chain_len() - 1 implies (#[trigger] self
                        .node_at(q)).next == 2 * self.links@[q + 1] by {
                        assert(self.node_at(q).next == prior.node_at(q).next);
                    }
                    assert forall|q: int| self.interior(q) implies (#[trigger] self.node_at(
                        q,
                    )).key is Some by {
                        assert(self.node_at(q).key == prior.node_at(q).key);
                    }
                    assert(self.node_at(0).key is None);
                    assert(self.node_at(self.chain_len() - 1).key is None);
                    assert forall|q: int, s: int| 1 <= q < s < self.chain_len() - 1 implies
                    #[trigger] self.key_at(q) < #[trigger] self.key_at(s) by {
                        assert(self.node_at(q).key == prior.node_at(q).key);
                        assert(self.node_at(s).key == prior.node_at(s).key);
                        assert(prior.key_at(q) < prior.key_at(s));
                    }
                    assert(self.wf());
                    lemma_view_update(prior, *self, pp, key, val);
                }
                return Some(old_val);
            }
            proof {
                assert(self.key_at(pp) > key);
            }
        }
        proof {
            prior.lemma_not_found(key, pp);
        }
        // link the new node between `left` and `right`
        let new_idx = self.nodes.len();
        new_node.next = 2 * right;
        self.nodes.push(new_node);
        let mut ln = self.nodes[left];
        ln.next = 2 * new_idx;
        self.nodes[left] = ln;
        proof {
            self.links@ = prior.links@.insert(pp, new_idx as int);
            prior.links@.insert_ensures(pp, new_idx as int);
            let c = self.links@;
            assert(c.len() == prior.chain_len() + 1);
            assert(c[pp] == new_idx as int);
            assert forall|q: int| 0 <= q < c.len() implies 0 <= #[trigger] c[q]
                < self.nodes@.len() by {
                if q < pp {
                    assert(c[q] == prior.links@[q]);
                } else if q > pp {
                    assert(c[q] == prior.links@[q - 1]);
                }
            }
            assert forall|q: int, s: int| 0 <= q < s < c.len() implies c[q] != c[s] by {
                if q < pp && s < pp {
                    assert(prior.links@[q] != prior.links@[s]);
                } else if q < pp && s > pp {
                    assert(prior.links@[q] != prior.links@[s - 1]);
                } else if q > pp && s > pp {
                    assert(prior.links@[q - 1] != prior.links@[s - 1]);
                }
            }
            // every old chain slot keeps its key; only `left`'s successor
            // reference changed, and the new node stands at `new_idx`
            assert forall|q: int| 0 <= q < prior.chain_len() implies (#[trigger] self.nodes@[prior.links@[q]]).key
                == prior.node_at(q).key && self.nodes@[prior.links@[q]].val == prior.node_at(
                q,
            ).val by {
                assert(prior.links@[q] < prior.nodes@.len());
            }
            assert forall|q: int| 0 <= q < prior.chain_len() && q != pp - 1 implies (
            #[trigger] self.nodes@[prior.links@[q]]).next == prior.node_at(q).next by {
                if q < pp - 1 {
                    assert(prior.links@[q] != prior.links@[pp - 1]);
                } else {
                    assert(prior.links@[pp - 1] != prior.links@[q]);
                }
            }
            assert forall|q: int| 0 <= q < c.len() - 1 implies (#[trigger] self.node_at(q)).next
                == 2 * c[q + 1] by {
                if q < pp - 1 {
                    assert(c[q] == prior.links@[q]);
                    assert(c[q + 1] == prior.links@[q + 1]);
                    assert(self.nodes@[prior.links@[q]].next == prior.node_at(q).next);
                } else if q == pp - 1 {
                    assert(c[q] == prior.links@[pp - 1]);
                    assert(self.nodes@[c[q]] == self.nodes@[prior.links@[pp - 1]]);
                } else if q == pp {
                    assert(self.nodes@[c[q]] == self.nodes@[new_idx as int]);
                    assert(c[q + 1] == prior.links@[q]);
                    assert(prior.links@[pp] == prior.links@[q]);
                } else {
                    assert(c[q] == prior.links@[q - 1]);
                    assert(c[q + 1] == prior.links@[q]);
                    assert(self.nodes@[prior.links@[q - 1]].next == prior.node_at(q - 1).next);
                }
            }
            assert forall|q: int| self.interior(q) implies (#[trigger] self.node_at(q)).key
                is Some by {
                if q < pp {
                    assert(self.nodes@[prior.links@[q]].key == prior.node_at(q).key);
                } else if q > pp {
                    assert(c[q] == prior.links@[q - 1]);
                    assert(self.nodes@[prior.links@[q - 1]].key == prior.node_at(q - 1).key);
                    assert(prior.interior(q - 1));
                }
            }
            assert(self.node_at(0).key is None);
            assert(c[c.len() - 1] == prior.links@[prior.chain_len() - 1]);
            assert(self.node_at(self.chain_len() - 1).key is None);
            assert forall|q: int| self.interior(q) && q != pp implies #[trigger] self.key_at(q) == (
            if q < pp {
                prior.key_at(q)
            } else {
                prior.key_at(q - 1)
            }) by {
                if q < pp {
                    assert(self.nodes@[prior.links@[q]].key == prior.node_at(q).key);
                } else {
                    assert(c[q] == prior.links@[q - 1]);
                    assert(self.nodes@[prior.links@[q - 1]].key == prior.node_at(q - 1).key);
                }
            }
            assert forall|q: int, s: int| 1 <= q < s < c.len() - 1 implies #[trigger] self.key_at(
                q,
            ) < #[trigger] self.key_at(s) by {
                if s < pp {
                    assert(prior.key_at(q) < prior.key_at(s));
                } else if q < pp && s == pp {
                    assert(self.key_at(q) == prior.key_at(q));
                    assert(prior.key_at(q) < key);
                } else if q < pp && s > pp {
                    assert(prior.interior(s - 1));
                    if s - 1 == pp {
                        assert(prior.key_at(pp) > key);
                    } else {
                        assert(prior.key_at(pp) > key);
                        assert(prior.key_at(pp) < prior.key_at(s - 1));
                    }
                    assert(self.key_at(q) == prior.key_at(q));
                    assert(prior.key_at(q) < key);
                } else if q == pp {
                    assert(prior.interior(s - 1));
                    if s - 1 == pp {
                        assert(prior.key_at(pp) > key);
                    } else {
                        assert(prior.key_at(pp) > key);
                        assert(prior.key_at(pp) < prior.key_at(s - 1));
                    }
                } else {
                    assert(prior.key_at(q - 1) < prior.key_at(s - 1));
                }
            }
            assert(self.wf());
            lemma_view_insert(prior, *self, pp, key, val);
        }
        None
    }

    /// Removes the binding for `key`, if present, and returns its value.
    ///
    /// Deletion is two-phased: the victim's successor reference is marked
    /// (logical delete), its value is read while the node is still safely
    /// held, the predecessor is redirected past it (physical unlink), and
    /// the victim is deferred onto `remove_nodes` rather than reclaimed.
    pub fn delete(&mut self, key: usize, remove_nodes: &mut Vec<usize>) -> (r: Option<usize>)
        requires
            old(self).wf(),
        ensures
            final(self).wf(),
            final(self)@ == old(self)@.remove(key),
            r == (if old(self)@.contains_key(key) {
                Some(old(self)@[key])
            } else {
                None::<usize>
            }),
            final(self).nodes@.len() == old(self).nodes@.len(),
            r is Some ==> ({
                let victim = old(self).links@[old(self).pos_of(key)];
                &&& final(remove_nodes)@ == old(remove_nodes)@.push(victim as usize)
                &&& 0 <= victim < final(self).nodes@.len()
                &&& ref_is_marked(final(self).nodes@[victim].next)
                &&& final(self).chain_len() == old(self).chain_len() - 1
            }),
            r is None ==> final(remove_nodes)@ == old(remove_nodes)@ && final(self).chain_len()
                == old(self).chain_len(),
    {
        let mut left: usize = 0;
        let (right, p) = self.search(key, &mut left);
        let ghost pp = p@;
        let ghost prior = *self;
        if right == self.tail {
            proof {
                self.lemma_not_found(key, pp);
            }
            return None;
        }
        proof {
            assert(self.interior(pp));
            assert((self.node_at(pp)).key is Some);
            assert(self.nodes@[right as int].key is Some);
        }
        let rkey: usize = match self.nodes[right].key {
            Some(k0) => k0,
            None => vstd::pervasive::unreached(),
        };
        if rkey != key {
            proof {
                self.lemma_not_found(key, pp);
            }
            return None;
        }
        proof {
            prior.lemma_at_pos(pp);
        }
        // logical delete: mark the victim's successor reference
        let right_next = self.nodes[right].next;
        let mut vic = self.nodes[right];
        vic.next = Self::get_marked_reference(right_next);
        self.nodes[right] = vic;
        // read the value while the victim is still safely held
        let old_val = self.nodes[right].val;
        // physical unlink: redirect the predecessor past the victim
        let mut ln = self.nodes[left];
        ln.next = Self::get_unmarked_reference(right_next);
        self.nodes[left] = ln;
        remove_nodes.push(right);
        proof {
            self.links@ = prior.links@.remove(pp);
            prior.links@.remove_ensures(pp);
            let c = self.links@;
            assert(c.len() == prior.chain_len() - 1);
            assert(c[0] == prior.links@[0]);
            assert(c[c.len() - 1] == prior.links@[prior.chain_len() - 1]);
            assert forall|q: int| 0 <= q < c.len() implies 0 <= #[trigger] c[q]
                < self.nodes@.len() by {
                if q >= pp {
                    assert(c[q] == prior.links@[q + 1]);
                }
            }
            assert forall|q: int, s: int| 0 <= q < s < c.len() implies c[q] != c[s] by {
                if q < pp && s < pp {
                    assert(prior.links@[q] != prior.links@[s]);
                } else if q < pp && s >= pp {
                    assert(prior.links@[q] != prior.links@[s + 1]);
                } else {
                    assert(prior.links@[q + 1] != prior.links@[s + 1]);
                }
            }
            // only `left`'s successor reference and the victim changed
            assert forall|q: int| 0 <= q < prior.chain_len() && q != pp implies (#[trigger] self
                .nodes@[prior.links@[q]]).key == prior.node_at(q).key && self.nodes@[prior.links@[q]].val
                == prior.node_at(q).val by {
                if q < pp {
                    assert(prior.links@[q] != prior.links@[pp]);
                } else {
                    assert(prior.links@[pp] != prior.links@[q]);
                }
            }
            assert forall|q: int|
                0 <= q < prior.chain_len() && q != pp && q != pp - 1 implies (#[trigger] self
                .nodes@[prior.links@[q]]).next == prior.node_at(q).next by {
                if q < pp {
                    assert(prior.links@[q] != prior.links@[pp]);
                    assert(prior.links@[q] != prior.links@[pp - 1]);
                } else {
                    assert(prior.links@[pp] != prior.links@[q]);
                    assert(prior.links@[pp - 1] != prior.links@[q]);
                }
            }
            assert forall|q: int| 0 <= q < c.len() - 1 implies (#[trigger] self.node_at(q)).next
                == 2 * c[q + 1] by {
                if q < pp - 1 {
                    assert(c[q] == prior.links@[q]);
                    assert(c[q + 1] == prior.links@[q + 1]);
                } else if q == pp - 1 {
                    assert(c[q] == prior.links@[pp - 1]);
                    assert(c[q + 1] == prior.links@[pp + 1]);
                    assert(self.nodes@[c[q]] == self.nodes@[prior.links@[pp - 1]]);
                } else {
                    assert(c[q] == prior.links@[q + 1]);
                    assert(c[q + 1] == prior.links@[q + 2]);
                }
            }
            assert(self.node_at(0).key is None);
            assert(self.node_at(self.chain_len() - 1).key is None);
            assert forall|q: int| self.interior(q) implies (#[trigger] self.node_at(q)).key == (
            if q < pp {
                prior.node_at(q).key
            } else {
                prior.node_at(q + 1).key
            }) && self.node_at(q).val == (if q < pp {
                prior.node_at(q).val
            } else {
                prior.node_at(q + 1).val
            }) by {
                if q < pp {
                    assert(c[q] == prior.links@[q]);
                } else {
                    assert(c[q] == prior.links@[q + 1]);
                    assert(prior.interior(q + 1));
                }
            }
            assert forall|q: int, s: int| 1 <= q < s < c.len() - 1 implies #[trigger] self.key_at(
                q,
            ) < #[trigger] self.key_at(s) by {
                let qa = if q < pp {
                    q
                } else {
                    q + 1
                };
                let sa = if s < pp {
                    s
                } else {
                    s + 1
                };
                assert(prior.key_at(qa) < prior.key_at(sa));
            }
            assert(self.wf());
            lemma_view_remove(prior, *self, pp, key);
        }
        Some(old_val)
    }

    /// The keys currently bound, in ascending chain order: the traversal a
    /// reader of the structure performs from head to tail.
    pub fn keys(&self) -> (ks: Vec<usize>)
        requires
            self.wf(),
        ensures
            ks@.len() == self.chain_len() - 2,
            forall|q: int| 0 <= q < ks@.len() ==> #[trigger] ks@[q] == self.key_at(q + 1),
            forall|q: int, s: int| 0 <= q < s < ks@.len() ==> ks@[q] < ks@[s],
    {
        let mut ks: Vec<usize> = Vec::new();
        let mut cur: usize = self.head;
        let ghost mut cp: int = 0;
        loop
            invariant
                self.wf(),
                0 <= cp < self.chain_len() - 1,
                self.links@[cp] == cur as int,
                cur < self.nodes@.len(),
                ks@.len() == cp,
                forall|q: int| 0 <= q < ks@.len() ==> #[trigger] ks@[q] == self.key_at(q + 1),
            decreases self.chain_len() - cp,
        {
            let next_ref = self.nodes[cur].next;
            proof {
                assert(self.node_at(cp).next == 2 * self.links@[cp + 1]);
            }
            let t = Self::get_unmarked_reference(next_ref) / 2;
            proof {
                assert(t as int == self.links@[cp + 1]);
            }
            if t == self.tail {
                proof {
                    if cp + 1 != self.chain_len() - 1 {
                        assert(self.links@[cp + 1] != self.links@[self.chain_len() - 1]);
                    }
                }
                return ks;
            }
            proof {
                if cp + 1 == self.chain_len() - 1 {
                    assert(self.links@[cp + 1] == 1);
                }
                assert(self.interior(cp + 1));
                assert((self.node_at(cp + 1)).key is Some);
                assert(self.nodes@[t as int].key is Some);
            }
            let tkey: usize = match self.nodes[t].key {
                Some(k0) => k0,
                None => vstd::pervasive::unreached(),
            };
            ks.push(tkey);
            cur = t;
            proof {
                cp = cp + 1;
            }
        }
    }
}

/// Transfers the view across an update in place: same chain, same keys,
/// one value swapped at position `pp`.
proof fn lemma_view_update(a: LinkedList, b: LinkedList, pp: int, key: usize, val: usize)
    requires
        a.wf(),
        b.wf(),
        b.chain_len() == a.chain_len(),
        a.interior(pp),
        a.key_at(pp) == key,
        b.node_at(pp).key == a.node_at(pp).key,
        b.node_at(pp).val == val,
        forall|q: int|
            0 <= q < a.chain_len() ==> (#[trigger] b.node_at(q)).key == a.node_at(q).key,
        forall|q: int|
            0 <= q < a.chain_len() && q != pp ==> (#[trigger] b.node_at(q)).val == a.node_at(
                q,
            ).val,
    ensures
        b@ == a@.insert(key, val),
{
    assert_maps_equal!(b.view(), a.view().insert(key, val), k => {
        if k == key {
            b.lemma_at_pos(pp);
            a.lemma_at_pos(pp);
        } else {
            if b.has_key(k) {
                let q = b.pos_of(k);
                b.lemma_at_pos(q);
                assert(a.key_at(q) == k);
                a.lemma_at_pos(q);
                assert(q != pp);
            }
            if a.has_key(k) {
                let q = a.pos_of(k);
                a.lemma_at_pos(q);
                assert(b.key_at(q) == k);
                b.lemma_at_pos(q);
            }
        }
    });
}

/// Transfers the view across linking a fresh node carrying `key` at chain
/// position `pp`: positions at and after `pp` shift right by one.
proof fn lemma_view_insert(a: LinkedList, b: LinkedList, pp: int, key: usize, val: usize)
    requires
        a.wf(),
        b.wf(),
        1 <= pp <= a.chain_len() - 1,
        b.chain_len() == a.chain_len() + 1,
        b.node_at(pp).key == Some(key),
        b.node_at(pp).val == val,
        !a.has_key(key),
        forall|q: int|
            1 <= q < pp ==> (#[trigger] b.node_at(q)).key == a.node_at(q).key && b.node_at(q).val
                == a.node_at(q).val,
        forall|q: int|
            pp <= q < a.chain_len() - 1 ==> (#[trigger] b.node_at(q + 1)).key == a.node_at(q).key
                && b.node_at(q + 1).val == a.node_at(q).val,
    ensures
        b@ == a@.insert(key, val),
{
    assert_maps_equal!(b.view(), a.view().insert(key, val), k => {
        if k == key {
            b.lemma_at_pos(pp);
        } else {
            if b.has_key(k) {
                let q = b.pos_of(k);
                b.lemma_at_pos(q);
                assert(q != pp);
                if q < pp {
                    assert(a.key_at(q) == k);
                    a.lemma_at_pos(q);
                } else {
                    assert(a.interior(q - 1));
                    assert(a.key_at(q - 1) == k);
                    a.lemma_at_pos(q - 1);
                }
            }
            if a.has_key(k) {
                let q = a.pos_of(k);
                a.lemma_at_pos(q);
                if q < pp {
                    assert(b.key_at(q) == k);
                    b.lemma_at_pos(q);
                } else {
                    assert(b.key_at(q + 1) == k);
                    b.lemma_at_pos(q + 1);
                }
            }
        }
    });
}

/// Transfers the view across unlinking the node at chain position `pp`,
/// which carried `key`: positions after `pp` shift left by one.
proof fn lemma_view_remove(a: LinkedList, b: LinkedList, pp: int, key: usize)
    requires
        a.wf(),
        b.wf(),
        a.interior(pp),
        a.key_at(pp) == key,
        b.chain_len() == a.chain_len() - 1,
        forall|q: int|
            b.interior(q) ==> (#[trigger] b.node_at(q)).key == (if q < pp {
                a.node_at(q).key
            } else {
                a.node_at(q + 1).key
            }) && b.node_at(q).val == (if q < pp {
                a.node_at(q).val
            } else {
                a.node_at(q + 1).val
            }),
    ensures
        b@ == a@.remove(key),
{
    assert_maps_equal!(b.view(), a.view().remove(key), k => {
        if k == key {
            a.lemma_at_pos(pp);
            if b.has_key(k) {
                let q = b.pos_of(k);
                b.lemma_at_pos(q);
                if q < pp {
                    a.lemma_at_pos(q);
                } else {
                    assert(a.interior(q + 1));
                    assert(a.key_at(q + 1) == k);
                    a.lemma_at_pos(q + 1);
                }
            }
        } else {
            if b.has_key(k) {
                let q = b.pos_of(k);
                b.lemma_at_pos(q);
                if q < pp {
                    assert(a.key_at(q) == k);
                    a.lemma_at_pos(q);
                } else {
                    assert(a.interior(q + 1));
                    assert(a.key_at(q + 1) == k);
                    a.lemma_at_pos(q + 1);
                }
            }
            if a.has_key(k) {
                let q = a.pos_of(k);
                a.lemma_at_pos(q);
                assert(q != pp);
                if q < pp {
                    assert(b.key_at(q) == k);
                    b.lemma_at_pos(q);
                } else {
                    assert(b.interior(q - 1));
                    assert(b.key_at(q - 1) == k);
                    b.lemma_at_pos(q - 1);
                }
            }
        }
    });
}

/// Ordering law: on a well-formed list, the keys of the chain's live
/// interior strictly ascend from head to tail.
pub proof fn lemma_chain_keys_ascend(l: LinkedList)
    requires
        l.wf(),
    ensures
        forall|p: int, q: int|
            1 <= p < q < l.chain_len() - 1 ==> #[trigger] l.key_at(p) < #[trigger] l.key_at(q),
{
}

/// Where a traversal stands after `steps` steps from arena index `i`,
/// each step following the successor reference with the mark stripped.
pub open spec fn advance(l: LinkedList, i: int, steps: nat) -> int
    decreases steps,
{
    if steps == 0 {
        i
    } else {
        ref_index(l.nodes@[advance(l, i, (steps - 1) as nat)].next)
    }
}

proof fn lemma_advance_on_chain(l: LinkedList, k: nat)
    requires
        l.wf(),
        k <= l.chain_len() - 1,
    ensures
        advance(l, l.head as int, k) == l.links@[k as int],
    decreases k,
{
    if k > 0 {
        lemma_advance_on_chain(l, (k - 1) as nat);
        assert(l.node_at(k - 1).next == 2 * l.links@[k as int]);
    }
}

/// Termination law: from the head, following successor references visits
/// one chain node per step and reaches the tail sentinel after finitely
/// many steps, namely one fewer than the chain's length.
pub proof fn lemma_chain_reaches_tail(l: LinkedList)
    requires
        l.wf(),
    ensures
        advance(l, l.head as int, (l.chain_len() - 1) as nat) == l.tail as int,
        forall|k: nat|
            k <= l.chain_len() - 1 ==> advance(l, l.head as int, k) == l.links@[k as int],
{
    assert forall|k: nat| k <= l.chain_len() - 1 implies advance(l, l.head as int, k)
        == l.links@[k as int] by {
        lemma_advance_on_chain(l, k);
    }
}

impl View for LinkedList {
    type V = Map<usize, usize>;

    /// The bindings held by the chain: each interior key maps to the value
    /// of the node carrying it.
    open spec fn view(&self) -> Map<usize, usize> {
        Map::new(|k: usize| self.has_key(k), |k: usize| self.node_at(self.pos_of(k)).val)
    }
}

impl Default for LinkedList {
    /// A fresh list: two sentinels with the head linked to the tail, no
    /// bindings.
    fn default() -> (l: LinkedList)
        ensures
            l.wf(),
            l@ == Map::<usize, usize>::empty(),
            l.chain_len() == 2,
            l.nodes@.len() == 2,
    {
        let mut head = Node::empty();
        let tail = Node::empty();
        head.next = 2;
        let mut nodes: Vec<Node> = Vec::new();
        nodes.push(head);
        nodes.push(tail);
        let ghost chain: Seq<int> = seq![0int, 1int];
        let l = LinkedList { nodes, head: 0, tail: 1, links: Ghost(chain) };
        proof {
            assert(l.node_at(0).next == 2 * l.links@[1]);
            assert(l@ =~= Map::<usize, usize>::empty());
        }
        l
    }
}

} // verus!
