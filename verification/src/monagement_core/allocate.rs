use vstd::prelude::*;

verus! {

use crate::allocated::Allocated;
use crate::counting::{count_true, lemma_count_true_update, lemma_count_true_insert};
use crate::errors::{capacity_error, capacity_error_text, no_fit_error, no_fit_error_text};
use crate::monagement_core::{MonagementCore, slot_filed, slot_taken};
use crate::node_core::{Node, NodeStatus, SlIdx};

impl MonagementCore {
    /// Every category keeps its free blocks, but `(fl, sl)`, which loses the
    /// one at position `p` of its list.
    pub open spec fn cats_after_take(self, new: Self, fl: int, sl: int, p: int) -> bool {
        &&& self.same_shape(new)
        &&& forall|a: int, b: int|
            self.has_category(a, b) ==> #[trigger] new.cat_nodes(a, b) == (if a == fl && b == sl {
                self.cat_nodes(a, b).remove(p)
            } else {
                self.cat_nodes(a, b)
            })
    }

    /// As `cats_after_take`, and then block `c` is filed last in `(nf, nsl)`.
    pub open spec fn cats_after_refile(
        self,
        new: Self,
        fl: int,
        sl: int,
        p: int,
        nf: int,
        nsl: int,
        c: usize,
    ) -> bool {
        &&& self.same_shape(new)
        &&& forall|a: int, b: int|
            self.has_category(a, b) ==> #[trigger] new.cat_nodes(a, b) == ({
                let base = if a == fl && b == sl {
                    self.cat_nodes(a, b).remove(p)
                } else {
                    self.cat_nodes(a, b)
                };
                if a == nf && b == nsl {
                    base.push(c)
                } else {
                    base
                }
            })
    }

    /// Every category keeps its slots, but `(fl, sl)`, whose link in `slot`
    /// is taken out.
    pub open spec fn slots_after_take(self, new: Self, fl: int, sl: int, slot: usize) -> bool {
        forall|a: int, b: int|
            self.has_category(a, b) ==> #[trigger] new.slots_of(a, b) == (if a == fl && b == sl {
                slot_taken(self.slots_of(a, b), slot)
            } else {
                self.slots_of(a, b)
            })
    }

    /// As `slots_after_take`, and then a link is filed last in `(nf, nsl)`.
    pub open spec fn slots_after_refile(
        self,
        new: Self,
        fl: int,
        sl: int,
        slot: usize,
        nf: int,
        nsl: int,
    ) -> bool {
        forall|a: int, b: int|
            self.has_category(a, b) ==> #[trigger] new.slots_of(a, b) == ({
                let base = if a == fl && b == sl {
                    slot_taken(self.slots_of(a, b), slot)
                } else {
                    self.slots_of(a, b)
                };
                if a == nf && b == nsl {
                    slot_filed(base)
                } else {
                    base
                }
            })
    }

    /// The link of the `p`-th block of category `(fl, sl)` lies in its slot and
    /// the block is live and filed there.
    pub(crate) proof fn lemma_filed(self, fl: int, sl: int, p: int)
        requires
            self.levels_wf(),
            self.links_wf(),
            self.has_category(fl, sl),
            0 <= p < self.second(fl, sl).slots@.len(),
        ensures
            self.second(fl, sl).wf(),
            self.second(fl, sl).link_ok(p),
            self.link_target_ok(fl, sl, p),
            self.cat_nodes(fl, sl)[p] == self.second(fl, sl).link(self.second(fl, sl).slots@[p] as int).node_link,
            self.live(self.cat_nodes(fl, sl)[p] as int),
            self.node(self.cat_nodes(fl, sl)[p] as int).status == NodeStatus::Free(
                fl as u64,
                sl as u64,
                SlIdx(self.second(fl, sl).slots@[p]),
            ),
            self.second(fl, sl).slots@.index_of(self.second(fl, sl).slots@[p]) == p,
    {
        assert(self.first_level_ok(fl));
        assert(self.second(fl, sl).wf());
        assert(self.second(fl, sl).link_ok(p));
        assert(self.link_target_ok(fl, sl, p));
        let l = self.second(fl, sl).slots@;
        assert(l.contains(l[p]));
        let q = l.index_of(l[p]);
        assert(l[q] == l[p]);
    }

    /// The entry that a new block takes: the last one kept for reuse, or else
    /// a new entry at the end.
    pub open spec fn next_index(self) -> usize {
        if self.free_linked_list_index@.len() > 0 {
            self.free_linked_list_index@.last()
        } else {
            self.linked_list@.len() as usize
        }
    }

    /// The slot that a block filed at `slot` of `(fl, sl)` takes when it is
    /// refiled in `(nf, nsl)`: its own slot again in the same category, else
    /// the next slot of the new one.
    pub open spec fn refile_slot(self, fl: int, sl: int, slot: usize, nf: int, nsl: int) -> usize {
        if nf == fl && nsl == sl {
            slot
        } else {
            self.second(nf, nsl).next_slot()
        }
    }

    /// The blocks after splitting `target` units off the bottom of the free
    /// block `c` into a new used block `u`: `c` keeps the rest, and the block
    /// below `c` now lies below `u`.
    pub open spec fn split_nodes(self, new: Self, c: int, u: int, target: u64) -> bool {
        let n = self.node(c);
        &&& new.live(u)
        &&& new.node(u) == (Node {
            index: u as usize,
            status: NodeStatus::Used,
            size: target,
            back: Some(c as usize),
            front: n.front,
            start: n.start,
            end: (n.start + target) as u64,
        })
        &&& new.live(c)
        &&& new.node(c).index == n.index
        &&& new.node(c).front == Some(u as usize)
        &&& new.node(c).back == n.back
        &&& new.node(c).size == n.size - target
        &&& new.node(c).start == n.start + target
        &&& new.node(c).end == n.end
        &&& new.node(c).is_free()
        &&& (n.front matches Some(f) ==> new.live(f as int) && new.node(f as int) == Node {
            back: Some(u as usize),
            ..self.node(f as int)
        })
        &&& forall|i: int|
            0 <= i < self.linked_list@.len() && i != c && i != u && n.front != Some(i as usize)
                ==> #[trigger] new.linked_list@[i] == self.linked_list@[i]
        &&& new.linked_list@.len() >= self.linked_list@.len()
        &&& new.linked_list@.len() <= self.linked_list@.len() + 1
        &&& (new.linked_list@.len() > self.linked_list@.len() ==> u == self.linked_list@.len())
    }

    /// Splitting keeps the blocks tiling the range, no two free blocks
    /// adjacent, and the number of free blocks.
    #[verifier::rlimit(50)]
    proof fn lemma_split_chain(self, new: Self, c: int, u: int, target: u64)
        requires
            self.chain_wf(),
            self.coalesced(),
            self.live(c),
            self.node(c).is_free(),
            !self.live(u),
            0 <= u <= usize::MAX,
            target > 0,
            self.node(c).size > target,
            self.split_nodes(new, c, u, target),
            new.order@ == self.order@.insert(self.order@.index_of(c as usize), u as usize),
            new.max_size == self.max_size,
        ensures
            new.chain_wf(),
            new.coalesced(),
            count_true(new.free_flags()) == count_true(self.free_flags()),
    {
        let o = self.order@;
        let q = self.lemma_position(c);
        let o2 = new.order@;
        let n = self.node(c);
        assert(!o.contains(u as usize)) by {
            if o.contains(u as usize) {
                let j = choose|j: int| 0 <= j < o.len() && o[j] == u as usize;
                assert(self.block_ok(j));
                assert((u as usize) as int == u);
            }
        }
        if q > 0 {
            assert(self.block_ok(q - 1));
            assert(n.front == Some(o[q - 1]));
        } else {
            assert(n.front is None);
        }
        if q + 1 < o.len() {
            assert(self.block_ok(q + 1));
        }
        // which blocks each position holds
        assert forall|k: int| 0 <= k < o2.len() implies #[trigger] o2[k] == (if k < q {
            o[k]
        } else if k == q {
            u as usize
        } else {
            o[k - 1]
        }) by {}
        // blocks other than c, u and the one below c are unchanged
        assert forall|j: int| 0 <= j < o.len() && j != q && j != q - 1 implies #[trigger] new.node(o[j] as int)
            == self.node(o[j] as int) by {
            assert(self.block_ok(j));
            assert(o[j] != c as usize);
            if q > 0 {
                assert(o[j] != o[q - 1]);
            }
        }
        assert forall|k: int| 0 <= k < o2.len() implies #[trigger] new.block_ok(k) by {
            if k < q - 1 {
                assert(self.block_ok(k));
                assert(self.block_ok(k + 1));
                if k > 0 {
                    assert(new.node(o[k - 1] as int) == self.node(o[k - 1] as int));
                }
                assert(new.node(o[k] as int) == self.node(o[k] as int));
            } else if k == q - 1 {
                assert(self.block_ok(k));
            } else if k == q {
            } else if k == q + 1 {
                if q + 1 < o.len() {
                    assert(new.node(o[q + 1] as int) == self.node(o[q + 1] as int));
                }
            } else {
                assert(self.block_ok(k - 1));
                assert(new.node(o[k - 1] as int) == self.node(o[k - 1] as int));
                if k < o.len() {
                    assert(self.block_ok(k));
                    assert(new.node(o[k] as int) == self.node(o[k] as int));
                }
            }
        }
        assert(o2.no_duplicates()) by {
            assert forall|a: int, b: int| 0 <= a < b < o2.len() implies o2[a] != o2[b] by {
                if a != q && b != q {
                    let a0 = if a < q { a } else { a - 1 };
                    let b0 = if b < q { b } else { b - 1 };
                    assert(o2[a] == o[a0] && o2[b] == o[b0]);
                } else if a == q {
                    assert(o.contains(o2[b]));
                } else {
                    assert(o.contains(o2[a]));
                }
            }
        }
        assert forall|i: int| #[trigger] new.live(i) implies o2.contains(i as usize) by {
            if i == u {
                assert(o2[q] == u as usize);
            } else if i < self.linked_list@.len() {
                assert(self.linked_list.len() == self.linked_list@.len());
                assert((i as usize) as int == i);
                if i != c && n.front != Some(i as usize) {
                    assert(new.linked_list@[i] == self.linked_list@[i]);
                } else if i != c {
                    assert(o[q - 1] == i as usize);
                    assert(self.block_ok(q - 1));
                }
                assert(self.live(i));
                assert(o.contains(i as usize));
                let j = choose|j: int| 0 <= j < o.len() && o[j] == i as usize;
                if j < q {
                    assert(o2[j] == i as usize);
                } else {
                    assert(o2[j + 1] == i as usize);
                }
            }
        }
        assert forall|k: int| 0 <= k && k + 1 < o2.len() implies !(#[trigger] new.node(o2[k] as int).is_free()
            && new.node(o2[k + 1] as int).is_free()) by {
            if k + 1 < q - 1 {
                assert(!(self.node(o[k] as int).is_free() && self.node(o[k + 1] as int).is_free()));
            } else if k + 1 == q - 1 {
                assert(!(self.node(o[k] as int).is_free() && self.node(o[k + 1] as int).is_free()));
            } else if k == q + 1 {
                assert(!(self.node(o[q] as int).is_free() && self.node(o[q + 1] as int).is_free()));
            } else if k > q + 1 {
                assert(!(self.node(o[k - 1] as int).is_free() && self.node(o[k] as int).is_free()));
            }
        }
        // the free blocks
        let f0 = self.free_flags();
        assert forall|k: int| 0 <= k < o2.len() implies #[trigger] new.free_flags()[k] == f0.insert(q, false)[k] by {
            if k < q - 1 {
                assert(new.node(o[k] as int) == self.node(o[k] as int));
                assert(f0.insert(q, false)[k] == f0[k]);
            } else if k == q - 1 {
                assert(f0.insert(q, false)[k] == f0[k]);
                assert(new.node(o[k] as int).status == self.node(o[k] as int).status);
            } else if k == q {
            } else if k == q + 1 {
                assert(f0.insert(q, false)[k] == f0[q]);
            } else {
                assert(new.node(o[k - 1] as int) == self.node(o[k - 1] as int));
                assert(f0.insert(q, false)[k] == f0[k - 1]);
            }
        }
        assert(new.free_flags() =~= f0.insert(q, false));
        lemma_count_true_insert(f0, q, false);
    }

    /// Hands out the free block `c`, filed at `slot` of category `(fl, sl)`,
    /// whole: it leaves its category and becomes used.
    fn take_whole(&mut self, fl: usize, sl: usize, slot: usize, c: usize)
        requires
            old(self).wf(),
            old(self).has_category(fl as int, sl as int),
            old(self).second(fl as int, sl as int).slots@.contains(slot),
            old(self).second(fl as int, sl as int).link(slot as int).node_link == c,
        ensures
            final(self).wf(),
            final(self).linked_list@ == old(self).linked_list@.update(
                c as int,
                Some(Node { status: NodeStatus::Used, ..old(self).node(c as int) }),
            ),
            final(self).free_linked_list_index@ == old(self).free_linked_list_index@,
            final(self).order@ == old(self).order@,
            final(self).same_config(*old(self)),
            old(self).cats_after_take(
                *final(self),
                fl as int,
                sl as int,
                old(self).second(fl as int, sl as int).slots@.index_of(slot),
            ),
            old(self).slots_after_take(*final(self), fl as int, sl as int, slot),
    {
        let ghost s0 = *self;
        let ghost l = s0.second(fl as int, sl as int).slots@;
        let ghost p = l.index_of(slot);
        proof {
            assert(l[p] == slot);
            s0.lemma_filed(fl as int, sl as int, p);
            s0.lemma_table_bounds();
        }
        self.clean_free_node_in_fl_sl(fl, sl, slot);
        let ghost s1 = *self;
        let mut node = self.linked_list[c].unwrap();
        node.status = NodeStatus::Used;
        self.linked_list.set(c, Some(node));
        proof {
            let s2 = *self;
            let ci = c as int;
            assert forall|i: int| 0 <= i < s0.linked_list@.len() && i != ci implies #[trigger] s2.linked_list@[i] == s0.linked_list@[i] by {}
            // the blocks
            assert forall|k: int| 0 <= k < s2.order@.len() implies #[trigger] s2.block_ok(k) by {
                assert(s0.block_ok(k));
                if k + 1 < s2.order@.len() {
                    assert(s0.block_ok(k + 1));
                }
            }
            assert forall|i: int| #[trigger] s2.live(i) implies s2.order@.contains(i as usize) by {
                assert(s0.live(i));
            }
            assert(s2.chain_wf());
            assert forall|k: int| 0 <= k && k + 1 < s2.order@.len() implies !(#[trigger] s2.node(
                s2.order@[k] as int,
            ).is_free() && s2.node(s2.order@[k + 1] as int).is_free()) by {
                assert(s0.block_ok(k));
                assert(s0.block_ok(k + 1));
                assert(!(s0.node(s0.order@[k] as int).is_free() && s0.node(s0.order@[k + 1] as int).is_free()));
            }
            assert forall|k: int| 0 <= k < s2.free_linked_list_index@.len() implies #[trigger] s2.free_linked_list_index@[k]
                < s2.linked_list@.len() && s2.linked_list@[s2.free_linked_list_index@[k] as int] is None by {
                let j = s2.free_linked_list_index@[k] as int;
                assert(s0.linked_list@[j] is None);
            }
            // the links
            assert forall|a: int, b: int, k: int|
                s2.has_category(a, b) && 0 <= k < s2.second(a, b).slots@.len() implies #[trigger] s2.link_target_ok(
                a,
                b,
                k,
            ) by {
                if a == fl as int && b == sl as int {
                    let k0 = if k < p { k } else { k + 1 };
                    assert(s2.second(a, b).slots@[k] == l[k0]);
                    s0.lemma_filed(a, b, k0);
                    assert(l[k0] != slot);
                    assert(s0.second(a, b).link_ok(k0));
                    let m = s0.cat_nodes(a, b)[k0] as int;
                    assert(s1.second(a, b).link(l[k0] as int).node_link == m);
                    assert(m != ci);
                    assert(s2.node(m) == s0.node(m));
                    assert(s2.live(m));
                    assert(s2.second(a, b).link(s2.second(a, b).slots@[k] as int).node_link == m);
                    assert(s2.node(m).status == NodeStatus::Free(a as u64, b as u64, SlIdx(s2.second(a, b).slots@[k])));
                } else {
                    assert(s1.fl_list@[a].sl_list@.len() == s0.fl_list@[a].sl_list@.len());
                    assert(s0.has_category(a, b));
                    assert(s1.second(a, b) == s0.second(a, b));
                    assert(s2.second(a, b) == s0.second(a, b));
                    s0.lemma_filed(a, b, k);
                    let m = s0.cat_nodes(a, b)[k] as int;
                    assert(s0.first_level_ok(a));
                    assert(0 <= a < 64 && 0 <= b < 64);
                    assert(s0.node(ci).status == NodeStatus::Free(fl as u64, sl as u64, SlIdx(slot)));
                    assert(m != ci);
                    assert(s2.node(m) == s0.node(m));
                    assert(s2.live(m));
                }
            }
            assert forall|i: int| s2.live(i) implies #[trigger] s2.registered(i) by {
                if i != ci {
                    assert(s0.live(i));
                    assert(s0.registered(i));
                    if let NodeStatus::Free(a, b, SlIdx(sk)) = s0.node(i).status {
                        if a == fl as u64 && b == sl as u64 {
                            assert(sk != slot);
                        } else {
                            assert(s1.second(a as int, b as int) == s0.second(a as int, b as int));
                        }
                    }
                }
            }
            // the counts
            let q = s0.lemma_position(ci);
            assert forall|k: int| 0 <= k < s2.order@.len() implies #[trigger] s2.free_flags()[k] == s0.free_flags().update(q, false)[k] by {
                assert(s0.block_ok(k));
                if k != q {
                    assert(s0.order@[k] != c);
                }
            }
            assert(s2.free_flags() =~= s0.free_flags().update(q, false));
            lemma_count_true_update(s0.free_flags(), q, false);
            assert(s2.chain_wf());
            assert(s2.coalesced());
            assert(s2.spare_wf());
            s1.lemma_levels_same(s2);
            assert(s2.links_wf());
            assert(s2.counts_wf());
            // the categories
            assert forall|a: int, b: int| s0.has_category(a, b) implies #[trigger] s2.cat_nodes(a, b) == (if a
                == fl as int && b == sl as int {
                s0.cat_nodes(a, b).remove(p)
            } else {
                s0.cat_nodes(a, b)
            }) by {
                if !(a == fl as int && b == sl as int) {
                    assert(s1.second(a, b) == s0.second(a, b));
                }
            }
            assert forall|a: int, b: int| s0.has_category(a, b) implies #[trigger] s2.slots_of(a, b) == (if a
                == fl as int && b == sl as int {
                slot_taken(s0.slots_of(a, b), slot)
            } else {
                s0.slots_of(a, b)
            }) by {
                if !(a == fl as int && b == sl as int) {
                    assert(s1.second(a, b) == s0.second(a, b));
                }
            }
        }
    }

    /// The facts of taking the block `c` out of slot `slot` of `(fl, sl)`
    /// (from `s0` to `s1`) and filing it again in `(nf, nsl)` (from `s4`, with
    /// the table of `s1`, to `s5`).
    pub open spec fn refiled(
        s0: Self,
        s1: Self,
        s4: Self,
        s5: Self,
        fl: int,
        sl: int,
        slot: usize,
        c: usize,
        nf: int,
        nsl: int,
    ) -> bool {
        let b0 = s0.second(fl, sl);
        let b1 = s1.second(fl, sl);
        let a4 = s4.second(nf, nsl);
        let a5 = s5.second(nf, nsl);
        let new_slot = a4.next_slot();
        &&& s0.has_category(fl, sl)
        &&& b0.slots@.contains(slot)
        &&& b0.link(slot as int).node_link == c
        &&& s0.other_categories_same(s1, fl, sl)
        &&& b1.slots@ == b0.slots@.remove(b0.slots@.index_of(slot))
        &&& b0.links_kept(b1, slot as int)
        &&& b1.link_list@.len() == b0.link_list@.len()
        &&& b1.link_list@[slot as int] is None
        &&& s1.fl_list@ == s4.fl_list@
        &&& s1.levels_wf()
        &&& s4.levels_wf()
        &&& s4.has_category(nf, nsl)
        &&& s4.other_categories_same(s5, nf, nsl)
        &&& !a4.slots@.contains(new_slot)
        &&& a5.slots@ == a4.slots@.push(new_slot)
        &&& new_slot < a5.link_list@.len()
        &&& a5.link_list@[new_slot as int] is Some
        &&& a5.link(new_slot as int).node_link == c
        &&& a4.links_kept(a5, new_slot as int)
        &&& a5.link_list@.len() >= a4.link_list@.len()
        &&& s5.levels_wf()
    }

    /// Refiling a free block keeps every link naming the free block filed
    /// there and every free block filed where a link names it.
    #[verifier::rlimit(50)]
    proof fn lemma_refile_links(
        s0: Self,
        s1: Self,
        s4: Self,
        s5: Self,
        fl: int,
        sl: int,
        slot: usize,
        c: usize,
        nf: int,
        nsl: int,
    )
        requires
            s0.levels_wf(),
            s0.links_wf(),
            Self::refiled(s0, s1, s4, s5, fl, sl, slot, c, nf, nsl),
            s5.live(c as int),
            s5.node(c as int).status == NodeStatus::Free(nf as u64, nsl as u64, SlIdx(s4.second(nf, nsl).next_slot())),
            (nf as u64, nsl as u64) == s5.category(s5.node(c as int).size),
            s5.same_config(s0),
            s5.linked_list@.len() >= s0.linked_list@.len(),
            forall|m: int| s0.live(m) && s0.node(m).is_free() && m != c ==> #[trigger] s5.linked_list@[m] == s0.linked_list@[m],
            forall|i: int| s5.live(i) && i != c && #[trigger] s5.node(i).is_free() ==> s0.live(i) && s5.linked_list@[i] == s0.linked_list@[i],
        ensures
            s5.links_wf(),
    {
        let ci = c as int;
        let l = s0.second(fl, sl).slots@;
        let p = l.index_of(slot);
        let new_slot = s4.second(nf, nsl).next_slot();
        assert(l[p] == slot);
        s0.lemma_filed(fl, sl, p);
        s0.lemma_table_bounds();
        assert(s4.second(nf, nsl) == s1.second(nf, nsl));
        assert forall|a: int, b: int, k: int|
            s5.has_category(a, b) && 0 <= k < s5.second(a, b).slots@.len() implies #[trigger] s5.link_target_ok(
            a,
            b,
            k,
        ) by {
            assert(s4.fl_list@[a].sl_list@.len() == s5.fl_list@[a].sl_list@.len());
            assert(s1.fl_list@[a].sl_list@.len() == s0.fl_list@[a].sl_list@.len());
            assert(s0.has_category(a, b));
            if a == nf && b == nsl && k == s4.second(a, b).slots@.len() {
                assert(s5.second(a, b).slots@[k] == new_slot);
                assert(s5.second(a, b).link(new_slot as int).node_link == c);
                assert(s5.node(ci).status == NodeStatus::Free(a as u64, b as u64, SlIdx(new_slot)));
                assert(s5.link_target_ok(a, b, k));
            } else {
                let sk = s5.second(a, b).slots@[k];
                if a == nf && b == nsl {
                    assert(s4.second(a, b).slots@[k] == sk);
                    assert(s4.first_level_ok(a));
                    assert(s4.second(a, b).wf());
                    assert(s4.second(a, b).link_ok(k));
                    assert(sk != new_slot);
                    assert(s5.second(a, b).link_list@[sk as int] is Some);
                    assert(s5.second(a, b).link(sk as int).node_link == s4.second(a, b).link(sk as int).node_link);
                } else {
                    assert(s5.second(a, b) == s4.second(a, b));
                }
                assert(s4.second(a, b) == s1.second(a, b));
                let k0 = if a == fl && b == sl && k >= p { k + 1 } else { k };
                if a == fl && b == sl {
                    assert(s1.second(a, b).slots@[k] == l[k0]);
                    s0.lemma_filed(a, b, k0);
                    assert(l[k0] != slot);
                } else {
                    assert(s1.second(a, b) == s0.second(a, b));
                    s0.lemma_filed(a, b, k);
                    assert(s0.first_level_ok(a));
                    assert(0 <= a < 64 && 0 <= b < 64);
                }
                let m = s0.cat_nodes(a, b)[k0] as int;
                assert(s0.second(a, b).slots@[k0] == sk);
                assert(s5.second(a, b).link(sk as int).node_link == m);
                assert(s0.node(ci).status == NodeStatus::Free(fl as u64, sl as u64, SlIdx(slot)));
                assert(m != ci);
                assert(s0.node(m).is_free());
                assert(s5.linked_list@[m] == s0.linked_list@[m]);
                assert(s5.link_target_ok(a, b, k));
            }
        }
        assert forall|i: int| s5.live(i) implies #[trigger] s5.registered(i) by {
            if i == ci {
                assert(s4.fl_list@[nf].sl_list@.len() == s5.fl_list@[nf].sl_list@.len());
                assert(s5.has_category(nf, nsl));
                s4.lemma_table_bounds();
                assert(s4.first_level_ok(nf));
                assert(0 <= nf < 64 && 0 <= nsl < 64);
                assert(s5.second(nf, nsl).link(new_slot as int).node_link == c);
                assert(s5.registered(i));
            } else if s5.node(i).is_free() {
                assert(s0.live(i));
                assert(s0.registered(i));
                if let NodeStatus::Free(a, b, SlIdx(sk)) = s0.node(i).status {
                    let ai = a as int;
                    let bi = b as int;
                    assert(s1.fl_list@[ai].sl_list@.len() == s0.fl_list@[ai].sl_list@.len());
                    assert(s4.fl_list@[ai].sl_list@.len() == s5.fl_list@[ai].sl_list@.len());
                    if ai == fl && bi == sl {
                        assert(sk != slot);
                    } else {
                        assert(s1.second(ai, bi) == s0.second(ai, bi));
                    }
                    assert(s1.second(ai, bi).link_list@[sk as int] is Some);
                    if ai == nf && bi == nsl {
                        assert(s4.first_level_ok(ai));
                        assert(s4.second(ai, bi).wf());
                        assert(s4.second(ai, bi).slots@.contains(sk));
                        assert(sk != new_slot);
                    } else {
                        assert(s5.second(ai, bi) == s4.second(ai, bi));
                    }
                    assert(s5.second(ai, bi).link_list@[sk as int] is Some);
                    assert(s5.second(ai, bi).link(sk as int).node_link == i);
                    assert(s5.has_category(ai, bi));
                    assert(sk < s5.second(ai, bi).link_list@.len());
                    assert(s5.registered(i));
                }
            }
        }
    }

    /// Splits the free block `c`, filed at `slot` of category `(fl, sl)`: a
    /// new used block `u` takes its lowest `target` units and `c`, with the
    /// rest, is filed again under the category of the rest.
    fn take_split(&mut self, fl: usize, sl: usize, slot: usize, c: usize, target: u64) -> (u: usize)
        requires
            old(self).wf(),
            old(self).has_category(fl as int, sl as int),
            old(self).second(fl as int, sl as int).slots@.contains(slot),
            old(self).second(fl as int, sl as int).link(slot as int).node_link == c,
            target > 0,
            old(self).node(c as int).size >= target,
            old(self).node(c as int).size - target >= old(self).minimum_size,
        ensures
            final(self).wf(),
            u == old(self).next_index(),
            old(self).split_nodes(*final(self), c as int, u as int, target),
            ({
                let rest = (old(self).node(c as int).size - target) as u64;
                let (nf, nsl) = old(self).category(rest);
                &&& final(self).node(c as int).status == NodeStatus::Free(
                    nf,
                    nsl,
                    SlIdx(old(self).refile_slot(fl as int, sl as int, slot, nf as int, nsl as int)),
                )
                &&& old(self).cats_after_refile(
                    *final(self),
                    fl as int,
                    sl as int,
                    old(self).second(fl as int, sl as int).slots@.index_of(slot),
                    nf as int,
                    nsl as int,
                    c,
                )
                &&& old(self).slots_after_refile(*final(self), fl as int, sl as int, slot, nf as int, nsl as int)
            }),
            final(self).free_linked_list_index@ == (if old(self).free_linked_list_index@.len() > 0 {
                old(self).free_linked_list_index@.drop_last()
            } else {
                old(self).free_linked_list_index@
            }),
            final(self).order@ == old(self).order@.insert(old(self).order@.index_of(c as usize), u),
            final(self).same_config(*old(self)),
            old(self).keeps_used(*final(self), -1),
    {
        let ghost s0 = *self;
        let ghost l = s0.second(fl as int, sl as int).slots@;
        let ghost p = l.index_of(slot);
        let ghost q = s0.order@.index_of(c as usize);
        proof {
            assert(l[p] == slot);
            s0.lemma_filed(fl as int, sl as int, p);
            s0.lemma_table_bounds();
            s0.lemma_position(c as int);
            s0.lemma_end_within(q);
            s0.lemma_order_bound();
            assert(s0.free_total() == count_true(s0.free_flags()));
        }
        let free_node = self.linked_list[c].unwrap();
        let rest = free_node.size - target;

        // the used block
        let back_node_link = Some(free_node.index);
        let front_node_link = free_node.front;
        let offset = free_node.start;
        let (used_node_idx, push_handler) = if let Some(idx) = self.free_linked_list_index.pop() {
            (idx, true)
        } else {
            (self.linked_list.len(), false)
        };
        proof {
            if push_handler {
                let f = s0.free_linked_list_index@;
                assert(f[f.len() - 1] == used_node_idx);
                assert(s0.linked_list@[used_node_idx as int] is None);
            }
        }
        let used_node = Node {
            index: used_node_idx,
            size: target,
            status: NodeStatus::Used,
            back: back_node_link,
            front: front_node_link,
            start: offset,
            end: offset + target,
        };
        if !push_handler {
            self.linked_list.push(Some(used_node));
        } else {
            self.linked_list.set(used_node_idx, Some(used_node));
        }

        // the block below now lies below the used block
        if let Some(front_node_idx) = front_node_link {
            proof {
                assert(s0.block_ok(q - 1));
            }
            let mut front_node = self.linked_list[front_node_idx].unwrap();
            front_node.back = Some(used_node_idx);
            self.linked_list.set(front_node_idx, Some(front_node));
        }
        self.order = Ghost(s0.order@.insert(q, used_node_idx));
        let ghost t0 = *self;
        let ghost ci = c as int;
        let ghost u = used_node_idx as int;
        let ghost fi = s0.node(ci).front;
        proof {
            assert(s0.block_ok(q));
            assert(s0.linked_list.len() == s0.linked_list@.len());
            assert(!s0.live(u));
            assert(s0.node(ci).is_free());
            if let Some(f) = fi {
                assert(s0.block_ok(q - 1));
                assert(!(s0.node(s0.order@[q - 1] as int).is_free() && s0.node(s0.order@[q] as int).is_free()));
                assert(!s0.node(f as int).is_free());
            }
            s0.lemma_levels_same(t0);
            // the links still name the free blocks filed there
            assert forall|a: int, b: int, k: int|
                t0.has_category(a, b) && 0 <= k < t0.second(a, b).slots@.len() implies #[trigger] t0.link_target_ok(
                a,
                b,
                k,
            ) by {
                assert(s0.link_target_ok(a, b, k));
                let m = s0.second(a, b).link(s0.second(a, b).slots@[k] as int).node_link as int;
                assert(m != u);
                assert(fi != Some(m as usize));
                assert(t0.linked_list@[m] == s0.linked_list@[m]);
            }
            assert forall|i: int| t0.live(i) implies #[trigger] t0.registered(i) by {
                if i != u && fi != Some(i as usize) {
                    assert(t0.linked_list@[i] == s0.linked_list@[i]);
                    assert(s0.registered(i));
                }
            }
            assert(t0.links_wf());
            assert(t0.refile_target_ok(fl as u64, sl as u64, slot));
            assert(0 < rest <= s0.max_size);
            crate::tools::lemma_fl_monotone(rest, s0.max_size, s0.minimum_size_raw);
            assert(t0.refile_ok(fl as u64, sl as u64, slot, Some(rest)));
        }

        // the free block keeps the rest, filed under the category of the rest
        let refiling = self.update_free_node(
            None,
            Some(rest),
            None,
            Some(Some(used_node_idx)),
            fl as u64,
            sl as u64,
            slot,
            offset + target,
        );
        proof {
            let s5 = *self;
            assert(refiling is Ok);
            let (n_fl, n_sl) = s0.category(rest);
            let nf = n_fl as int;
            let nsl = n_sl as int;
            let m = choose|m: Self|
                #[trigger] Self::refiled(t0, m, m, s5, fl as int, sl as int, slot, c, nf, nsl)
                    && m.second(nf, nsl).next_slot() == t0.refile_slot(fl as int, sl as int, slot, nf, nsl);
            assert(s0.split_nodes(s5, ci, u, target));
            s0.lemma_split_chain(s5, ci, u, target);
            assert forall|i: int|
                s0.live(i) && i != -1 && s0.node(i).status == NodeStatus::Used implies {
                    &&& #[trigger] s5.live(i)
                    &&& s5.node(i).status == NodeStatus::Used
                    &&& s5.node(i).start == s0.node(i).start
                    &&& s5.node(i).end == s0.node(i).end
                } by {
                assert(i != ci);
                assert(i != u);
                if fi != Some(i as usize) {
                    assert(s5.linked_list@[i] == s0.linked_list@[i]);
                }
            }
            // entries kept for reuse
            let fr = s5.free_linked_list_index@;
            assert forall|k: int| 0 <= k < fr.len() implies #[trigger] fr[k] < s5.linked_list@.len()
                && s5.linked_list@[fr[k] as int] is None by {
                let e = fr[k] as int;
                assert(s0.free_linked_list_index@[k] == fr[k]);
                assert(s0.linked_list@[e] is None);
                if push_handler {
                    assert(fr[k] != s0.free_linked_list_index@[s0.free_linked_list_index@.len() - 1]);
                }
                assert(e != ci && e != u);
                assert(s5.linked_list@[e] == s0.linked_list@[e]);
            }
            assert forall|i: int| 0 <= i < s5.linked_list@.len() && #[trigger] s5.linked_list@[i] is None implies fr.contains(
                i as usize,
            ) by {
                assert(i != ci && i != u);
                assert(fi != Some(i as usize));
                assert(i < s0.linked_list@.len());
                assert(s5.linked_list@[i] == s0.linked_list@[i]);
                let f0 = s0.free_linked_list_index@;
                assert(f0.contains(i as usize));
                let k = choose|k: int| 0 <= k < f0.len() && f0[k] == i as usize;
                if push_handler {
                    assert(k != f0.len() - 1);
                    assert(fr[k] == i as usize);
                } else {
                    assert(fr[k] == i as usize);
                }
            }
            assert(s5.spare_wf());
            // the links
            assert forall|m0: int| t0.live(m0) && t0.node(m0).is_free() && m0 != ci implies #[trigger] s5.linked_list@[m0]
                == t0.linked_list@[m0] by {}
            assert forall|i: int| s5.live(i) && i != ci && #[trigger] s5.node(i).is_free() implies t0.live(i)
                && s5.linked_list@[i] == t0.linked_list@[i] by {}
            Self::lemma_refile_links(t0, m, m, s5, fl as int, sl as int, slot, c, nf, nsl);
            assert(s5.links_wf());
            // the counts
            assert(s5.counts_wf());
            // the categories
            assert forall|a: int, b: int| s0.has_category(a, b) implies #[trigger] s5.cat_nodes(a, b) == ({
                let base = if a == fl as int && b == sl as int {
                    s0.cat_nodes(a, b).remove(p)
                } else {
                    s0.cat_nodes(a, b)
                };
                if a == nf && b == nsl {
                    base.push(c)
                } else {
                    base
                }
            }) by {
                assert(t0.cat_nodes(a, b) == s0.cat_nodes(a, b));
            }
            assert forall|a: int, b: int| s0.has_category(a, b) implies #[trigger] s5.slots_of(a, b) == ({
                let base = if a == fl as int && b == sl as int {
                    slot_taken(s0.slots_of(a, b), slot)
                } else {
                    s0.slots_of(a, b)
                };
                if a == nf && b == nsl {
                    slot_filed(base)
                } else {
                    base
                }
            }) by {
                assert(t0.slots_of(a, b) == s0.slots_of(a, b));
            }
            assert(s0.same_shape(s5)) by {
                assert forall|f: int| 0 <= f < s0.fl_list@.len() implies #[trigger] s5.fl_list@[f].sl_list@.len()
                    == s0.fl_list@[f].sl_list@.len() by {
                    assert(t0.fl_list@[f].sl_list@.len() == s0.fl_list@[f].sl_list@.len());
                }
            }
        }
        used_node_idx
    }

    /// The free block that serves a request of `target`.
    pub open spec fn chosen(self, target: u64) -> usize {
        let (fl, sl, p) = self.search(target)->0;
        self.cat_nodes(fl, sl)[p]
    }

    /// Whether the block that serves `target` is handed out whole: what would
    /// remain of it is below the smallest category.
    pub open spec fn takes_whole(self, target: u64) -> bool {
        self.node(self.chosen(target) as int).size - target < self.minimum_size
    }

    /// Every used block other than `except` stays used, over the same range.
    pub open spec fn keeps_used(self, new: Self, except: int) -> bool {
        forall|i: int|
            self.live(i) && i != except && self.node(i).status == NodeStatus::Used ==> {
                &&& #[trigger] new.live(i)
                &&& new.node(i).status == NodeStatus::Used
                &&& new.node(i).start == self.node(i).start
                &&& new.node(i).end == self.node(i).end
            }
    }

    /// The handle `a` names a used block that spans `[a@.start, a@.node_end)`
    /// within the capacity; the handle's own range `[a@.start, a@.end)` holds
    /// exactly its `a@.size` units, at the bottom of the block.
    pub open spec fn holds(self, a: Allocated) -> bool {
        &&& self.live(a@.link as int)
        &&& self.node(a@.link as int).status == NodeStatus::Used
        &&& self.node(a@.link as int).start == a@.start
        &&& self.node(a@.link as int).end == a@.node_end
        &&& a@.end == a@.start + a@.size
        &&& a@.end <= a@.node_end <= self.max_size
    }

    /// What a request of `size` does, from `self` to `new`, with result `r`.
    pub open spec fn allocate_post(self, new: Self, size: u64, r: Result<Allocated, String>) -> bool {
        &&& new.wf()
        &&& new.same_config(self)
        &&& (r is Ok <==> (size <= self.max_size && self.search(size) is Some))
        &&& (r matches Ok(a) ==> new.holds(a) && self.keeps_used(new, -1))
        &&& match r {
                Err(e) => {
                    &&& new == self
                    &&& (size > self.max_size ==> e@ == capacity_error_text(size, self.max_size))
                    &&& (size <= self.max_size ==> e@ == no_fit_error_text(size))
                },
                Ok(a) => {
                    let (fl, sl, p) = self.search(size)->0;
                    let c = self.chosen(size);
                    let n = self.node(c as int);
                    &&& a@.size == size
                    &&& a@.start == n.start
                    &&& a@.end == n.start + size
                    &&& n.size >= size
                    &&& if self.takes_whole(size) {
                        &&& a@.node_end == n.end
                        &&& a@.link == c
                        &&& new.linked_list@ == self.linked_list@.update(
                            c as int,
                            Some(Node { status: NodeStatus::Used, ..n }),
                        )
                        &&& new.free_linked_list_index@ == self.free_linked_list_index@
                        &&& new.order@ == self.order@
                        &&& self.cats_after_take(new, fl, sl, p)
                        &&& self.slots_after_take(new, fl, sl, self.second(fl, sl).slots@[p])
                    } else {
                        let rest = (n.size - size) as u64;
                        let (nf, nsl) = self.category(rest);
                        let slot = self.second(fl, sl).slots@[p];
                        &&& a@.node_end == n.start + size
                        &&& a@.link == self.next_index()
                        &&& self.split_nodes(new, c as int, a@.link as int, size)
                        &&& new.node(c as int).status == NodeStatus::Free(
                            nf,
                            nsl,
                            SlIdx(self.refile_slot(fl, sl, slot, nf as int, nsl as int)),
                        )
                        &&& self.cats_after_refile(new, fl, sl, p, nf as int, nsl as int, c)
                        &&& self.slots_after_refile(new, fl, sl, slot, nf as int, nsl as int)
                        &&& new.free_linked_list_index@ == (if self.free_linked_list_index@.len()
                            > 0 {
                            self.free_linked_list_index@.drop_last()
                        } else {
                            self.free_linked_list_index@
                        })
                        &&& new.order@ == self.order@.insert(
                            self.order@.index_of(c),
                            a@.link,
                        )
                    }
                },
            }
    }

    /// Hands out `size` units: refuses a request above the capacity, and one
    /// that no category from its own on can serve. Otherwise the chosen free
    /// block is handed out whole when what would remain of it is below the
    /// smallest category, and split otherwise: a new used block takes its
    /// lowest `size` units and the rest stays free, filed under its own
    /// category.
    pub fn allocate(&mut self, size: u64) -> (r: Result<Allocated, String>)
        requires
            old(self).wf(),
            size > 0,
        ensures
            old(self).allocate_post(*final(self), size, r),
            r matches Ok(a) ==> !a@.module,
    {
        let target = size;
        let (fl_target, sl_target) = self.get_fl_sl(target);
        if target > self.max_size {
            return Err(capacity_error(size, self.max_size));
        }
        match self.search_free_node(target, fl_target, sl_target) {
            None => Err(no_fit_error(target)),
            Some((fl_idx, sl_idx, slot, node_idx)) => {
                let ghost s0 = *self;
                let ghost p = s0.found_pos(target);
                proof {
                    s0.lemma_filed(fl_idx as int, sl_idx as int, p);
                    let q = s0.lemma_position(node_idx as int);
                    s0.lemma_end_within(q);
                }
                let free_node = self.linked_list[node_idx].unwrap();
                let mut rest = free_node.size - target;
                if rest < self.minimum_size {
                    rest = 0;
                }
                if rest == 0 {
                    proof {
                        vstd::arithmetic::power2::lemma_pow2_pos(s0.minimum_size_raw as nat);
                    }
                    self.take_whole(fl_idx, sl_idx, slot, node_idx);
                    proof {
                        let s1 = *self;
                        assert forall|i: int|
                            s0.live(i) && i != -1 && s0.node(i).status == NodeStatus::Used implies {
                                &&& #[trigger] s1.live(i)
                                &&& s1.node(i).status == NodeStatus::Used
                                &&& s1.node(i).start == s0.node(i).start
                                &&& s1.node(i).end == s0.node(i).end
                            } by {
                            assert(i != node_idx as int);
                        }
                    }
                    let handle = Allocated {
                        module: false,
                        size: target,
                        start: free_node.start,
                        end: free_node.start + target,
                        node_end: free_node.end,
                        link: free_node.index,
                    };
                    proof {
                        handle.lemma_view();
                    }
                    Ok(handle)
                } else {
                    let used_node_idx = self.take_split(fl_idx, sl_idx, slot, node_idx, target);
                    let handle = Allocated {
                        module: false,
                        size: target,
                        start: free_node.start,
                        end: free_node.start + target,
                        node_end: free_node.start + target,
                        link: used_node_idx,
                    };
                    proof {
                        handle.lemma_view();
                    }
                    Ok(handle)
                }
            },
        }
    }
}

} // verus!
