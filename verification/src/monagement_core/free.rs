use vstd::prelude::*;

verus! {

use crate::allocated::Allocated;
use crate::counting::{count_true, lemma_count_true_concat, lemma_count_true_small, lemma_count_true_update, lemma_count_true_bound};
use crate::monagement_core::{MonagementCore, slot_filed, slot_taken};
use crate::node_core::{Node, NodeStatus, SlIdx};

/// `s` without the first occurrence of `m`, if any.
pub open spec fn drop_node(s: Seq<usize>, m: usize) -> Seq<usize> {
    if s.contains(m) {
        s.remove(s.index_of(m))
    } else {
        s
    }
}

impl MonagementCore {
    /// The category of block `i` when it is free.
    pub open spec fn filed_at(self, i: int) -> (int, int, usize) {
        match self.node(i).status {
            NodeStatus::Free(fl, sl, SlIdx(slot)) => (fl as int, sl as int, slot),
            NodeStatus::Used => (-1, -1, 0),
        }
    }

    /// The category that `x`, once freed and merged, is filed under.
    pub open spec fn freed_category(self, x: int) -> (u64, u64) {
        self.category((self.merged_end(x) - self.merged_start(x)) as u64)
    }

    /// The slot that `x`, once freed and merged, takes: the slot of a merged
    /// neighbour in the same category, the block above taken last, else the
    /// next slot of the category.
    pub open spec fn freed_slot(self, x: int) -> usize {
        let (nf, nsl) = self.freed_category(x);
        let cat = (nf as int, nsl as int);
        match self.merging_back(x) {
            Some(b) if (self.filed_at(b as int).0, self.filed_at(b as int).1) == cat => self.filed_at(
                b as int,
            ).2,
            _ => match self.merging_front(x) {
                Some(f) if (self.filed_at(f as int).0, self.filed_at(f as int).1) == cat => self.filed_at(
                    f as int,
                ).2,
                _ => self.second(nf as int, nsl as int).next_slot(),
            },
        }
    }

    /// The free blocks of category `(a, b)` once `x` is freed and merged: the
    /// merged neighbours leave their categories, and `x` is filed last in its
    /// own.
    pub open spec fn freed_cat(self, x: int, a: int, b: int) -> Seq<usize> {
        let l2 = self.absorbed_cat(x, a, b);
        if (a, b) == (self.freed_category(x).0 as int, self.freed_category(x).1 as int) {
            l2.push(x as usize)
        } else {
            l2
        }
    }

    /// The free blocks of category `(a, b)` once the neighbours that merge
    /// into `x` have left.
    pub open spec fn absorbed_cat(self, x: int, a: int, b: int) -> Seq<usize> {
        let l0 = self.cat_nodes(a, b);
        let l1 = match self.merging_front(x) {
            Some(f) => drop_node(l0, f),
            None => l0,
        };
        match self.merging_back(x) {
            Some(g) => drop_node(l1, g),
            None => l1,
        }
    }

    /// The slot bookkeeping of category `(a, b)` once the neighbours that
    /// merge into `x` have left, the one below first.
    pub open spec fn absorbed_slots(self, x: int, a: int, b: int) -> (Seq<usize>, Seq<usize>, nat) {
        let t0 = self.slots_of(a, b);
        let t1 = match self.merging_front(x) {
            Some(f) => if self.filed_at(f as int).0 == a && self.filed_at(f as int).1 == b {
                slot_taken(t0, self.filed_at(f as int).2)
            } else {
                t0
            },
            None => t0,
        };
        match self.merging_back(x) {
            Some(g) => if self.filed_at(g as int).0 == a && self.filed_at(g as int).1 == b {
                slot_taken(t1, self.filed_at(g as int).2)
            } else {
                t1
            },
            None => t1,
        }
    }

    /// The slot bookkeeping of category `(a, b)` once `x` is freed and
    /// merged: the neighbours have left, and `x` is filed last in its own
    /// category.
    pub open spec fn freed_slots(self, x: int, a: int, b: int) -> (Seq<usize>, Seq<usize>, nat) {
        let t = self.absorbed_slots(x, a, b);
        if (a, b) == (self.freed_category(x).0 as int, self.freed_category(x).1 as int) {
            slot_filed(t)
        } else {
            t
        }
    }

    /// The neighbours that merge into `x`.
    pub open spec fn merged_away(self, x: int) -> Set<usize> {
        let s1 = match self.merging_front(x) {
            Some(f) => Set::empty().insert(f),
            None => Set::empty(),
        };
        match self.merging_back(x) {
            Some(b) => s1.insert(b),
            None => s1,
        }
    }

    /// The entries kept for reuse once `x` is freed: those of the merged
    /// neighbours join, the one below first.
    pub open spec fn freed_spares(self, x: int) -> Seq<usize> {
        let s1 = match self.merging_front(x) {
            Some(f) => self.free_linked_list_index@.push(f),
            None => self.free_linked_list_index@,
        };
        match self.merging_back(x) {
            Some(b) => s1.push(b),
            None => s1,
        }
    }

    /// The free block just below `x`, which merges into it when `x` is freed.
    pub open spec fn merging_front(self, x: int) -> Option<usize> {
        match self.node(x).front {
            Some(f) => if self.node(f as int).is_free() {
                Some(f)
            } else {
                None
            },
            None => None,
        }
    }

    /// The free block just above `x`, which merges into it when `x` is freed.
    pub open spec fn merging_back(self, x: int) -> Option<usize> {
        match self.node(x).back {
            Some(b) => if self.node(b as int).is_free() {
                Some(b)
            } else {
                None
            },
            None => None,
        }
    }

    /// Where `x`, once freed and merged, starts.
    pub open spec fn merged_start(self, x: int) -> u64 {
        match self.merging_front(x) {
            Some(f) => self.node(f as int).start,
            None => self.node(x).start,
        }
    }

    /// Where `x`, once freed and merged, ends.
    pub open spec fn merged_end(self, x: int) -> u64 {
        match self.merging_back(x) {
            Some(b) => self.node(b as int).end,
            None => self.node(x).end,
        }
    }

    /// The block below `x` once freed and merged.
    pub open spec fn merged_front(self, x: int) -> Option<usize> {
        match self.merging_front(x) {
            Some(f) => self.node(f as int).front,
            None => self.node(x).front,
        }
    }

    /// The block above `x` once freed and merged.
    pub open spec fn merged_back(self, x: int) -> Option<usize> {
        match self.merging_back(x) {
            Some(b) => self.node(b as int).back,
            None => self.node(x).back,
        }
    }

    /// How many free neighbours merge into `x`.
    pub open spec fn merge_count(self, x: int) -> int {
        (if self.merging_front(x) is Some { 1int } else { 0int }) + (if self.merging_back(x) is Some {
            1int
        } else {
            0int
        })
    }

    /// The blocks in address order once `x` is freed and merged.
    pub open spec fn merged_order(self, x: int) -> Seq<usize> {
        let o = self.order@;
        let q = o.index_of(x as usize);
        let lo = if self.merging_front(x) is Some { q - 1 } else { q };
        let hi = if self.merging_back(x) is Some { q + 2 } else { q + 1 };
        o.subrange(0, lo).push(x as usize) + o.subrange(hi, o.len() as int)
    }

    /// The blocks after freeing `x`: it spans itself and its free neighbours,
    /// which are gone, and the blocks around the merged range point to it.
    pub open spec fn merge_nodes(self, new: Self, x: int) -> bool {
        let nx = new.node(x);
        &&& new.live(x)
        &&& nx.index == x
        &&& nx.is_free()
        &&& nx.front == self.merged_front(x)
        &&& nx.back == self.merged_back(x)
        &&& nx.start == self.merged_start(x)
        &&& nx.end == self.merged_end(x)
        &&& nx.size == self.merged_end(x) - self.merged_start(x)
        &&& (self.merging_front(x) matches Some(f) ==> !new.live(f as int))
        &&& (self.merging_back(x) matches Some(b) ==> !new.live(b as int))
        &&& (self.merged_front(x) matches Some(g) ==> new.live(g as int) && new.node(g as int) == Node {
            back: Some(x as usize),
            ..self.node(g as int)
        })
        &&& (self.merged_back(x) matches Some(h) ==> new.live(h as int) && new.node(h as int) == Node {
            front: Some(x as usize),
            ..self.node(h as int)
        })
        &&& forall|i: int|
            0 <= i < self.linked_list@.len() && i != x && self.merging_front(x) != Some(i as usize)
                && self.merging_back(x) != Some(i as usize) && self.merged_front(x) != Some(i as usize)
                && self.merged_back(x) != Some(i as usize) ==> #[trigger] new.linked_list@[i]
                == self.linked_list@[i]
        &&& new.linked_list@.len() == self.linked_list@.len()
    }

    /// What freeing the used block `x` does, from `self` to `new`: `x` takes
    /// in its free neighbours and is filed under the category of its new
    /// size; every other used block stays as it was.
    pub open spec fn free_post(self, new: Self, x: int) -> bool {
        &&& new.wf()
        &&& new.same_config(self)
        &&& self.merge_nodes(new, x)
        &&& new.order@ == self.merged_order(x)
        &&& new.node(x).status == NodeStatus::Free(
            self.freed_category(x).0,
            self.freed_category(x).1,
            SlIdx(self.freed_slot(x)),
        )
        &&& new.free_linked_list_index@ == self.freed_spares(x)
        &&& self.same_shape(new)
        &&& self.keeps_used(new, x)
        &&& forall|a: int, b: int|
            self.has_category(a, b) ==> #[trigger] new.cat_nodes(a, b) == self.freed_cat(x, a, b)
        &&& forall|a: int, b: int|
            self.has_category(a, b) ==> #[trigger] new.slots_of(a, b) == self.freed_slots(x, a, b)
    }

    /// The neighbours of `x` in address order, and the order of the merged
    /// range's neighbours.
    pub(crate) proof fn lemma_merge_shape(self, x: int) -> (q: int)
        requires
            self.chain_wf(),
            self.coalesced(),
            self.live(x),
        ensures
            0 <= q < self.order@.len(),
            self.order@[q] == x,
            q == self.order@.index_of(x as usize),
            self.block_ok(q),
            self.node(x).front == (if q == 0 { None } else { Some(self.order@[q - 1]) }),
            self.node(x).back == (if q + 1 == self.order@.len() { None } else { Some(self.order@[q + 1]) }),
            self.merging_front(x) is Some ==> q >= 1 && self.block_ok(q - 1) && self.merging_front(x)
                == Some(self.order@[q - 1]),
            self.merging_back(x) is Some ==> q + 1 < self.order@.len() && self.block_ok(q + 1)
                && self.merging_back(x) == Some(self.order@[q + 1]),
            ({
                let lo = if self.merging_front(x) is Some { q - 1 } else { q };
                let hi = if self.merging_back(x) is Some { q + 2 } else { q + 1 };
                &&& 0 <= lo <= q < hi <= self.order@.len()
                &&& self.merged_front(x) == (if lo == 0 { None } else { Some(self.order@[lo - 1]) })
                &&& self.merged_back(x) == (if hi == self.order@.len() { None } else { Some(self.order@[hi]) })
                &&& (lo > 0 ==> self.block_ok(lo - 1) && !self.node(self.order@[lo - 1] as int).is_free())
                &&& (hi < self.order@.len() ==> self.block_ok(hi) && !self.node(self.order@[hi] as int).is_free())
                &&& self.block_ok(lo)
                &&& self.block_ok(hi - 1)
                &&& self.merged_start(x) == self.node(self.order@[lo] as int).start
                &&& self.merged_end(x) == self.node(self.order@[hi - 1] as int).end
            }),
    {
        let o = self.order@;
        let q = self.lemma_position(x);
        if q > 0 {
            assert(self.block_ok(q - 1));
        }
        if q + 1 < o.len() {
            assert(self.block_ok(q + 1));
        }
        if self.merging_front(x) is Some {
            if q >= 2 {
                assert(self.block_ok(q - 2));
                assert(!(self.node(o[q - 2] as int).is_free() && self.node(o[q - 1] as int).is_free()));
            }
        } else if q >= 1 {
            assert(!self.node(o[q - 1] as int).is_free());
        }
        if self.merging_back(x) is Some {
            if q + 2 < o.len() {
                assert(self.block_ok(q + 2));
                assert(!(self.node(o[q + 1] as int).is_free() && self.node(o[q + 2] as int).is_free()));
            }
        } else if q + 1 < o.len() {
            assert(!self.node(o[q + 1] as int).is_free());
        }
        q
    }

    /// Which block each position holds once `x` is freed and merged, and
    /// the blocks away from the merged range keep everything.
    proof fn lemma_merge_frame(self, new: Self, x: int) -> (q: int)
        requires
            self.chain_wf(),
            self.coalesced(),
            self.live(x),
            self.merge_nodes(new, x),
            new.order@ == self.merged_order(x),
        ensures
            q == self.order@.index_of(x as usize),
            ({
                let o = self.order@;
                let lo = if self.merging_front(x) is Some { q - 1 } else { q };
                let hi = if self.merging_back(x) is Some { q + 2 } else { q + 1 };
                let d = hi - lo - 1;
                &&& 0 <= lo <= q < hi <= o.len()
                &&& o[q] == x
                &&& new.order@.len() == o.len() - d
                &&& forall|k: int|
                    0 <= k < new.order@.len() ==> #[trigger] new.order@[k] == (if k < lo {
                        o[k]
                    } else if k == lo {
                        x as usize
                    } else {
                        o[k + d]
                    })
                &&& forall|j: int|
                    0 <= j < o.len() && (j < lo - 1 || j > hi) ==> #[trigger] new.node(o[j] as int)
                        == self.node(o[j] as int)
            }),
    {
        let o = self.order@;
        let q = self.lemma_merge_shape(x);
        let lo = if self.merging_front(x) is Some { q - 1 } else { q };
        let hi = if self.merging_back(x) is Some { q + 2 } else { q + 1 };
        assert forall|j: int| 0 <= j < o.len() && (j < lo - 1 || j > hi) implies #[trigger] new.node(o[j] as int)
            == self.node(o[j] as int) by {
            assert(self.block_ok(j));
            assert(o[j] != x as usize);
            if lo > 0 {
                assert(o[j] != o[lo - 1]);
            }
            if hi < o.len() {
                assert(o[j] != o[hi]);
            }
            if self.merging_front(x) is Some {
                assert(o[j] != o[q - 1]);
            }
            if self.merging_back(x) is Some {
                assert(o[j] != o[q + 1]);
            }
        }
        q
    }

    /// Freeing and merging keeps the blocks tiling the range.
    #[verifier::rlimit(80)]
    proof fn lemma_merge_blocks(self, new: Self, x: int)
        requires
            self.chain_wf(),
            self.coalesced(),
            self.live(x),
            self.merge_nodes(new, x),
            new.order@ == self.merged_order(x),
            new.max_size == self.max_size,
        ensures
            new.chain_wf(),
    {
        self.lemma_merge_listed(new, x);
        let o = self.order@;
        let q0 = self.lemma_merge_shape(x);
        let q = self.lemma_merge_frame(new, x);
        let lo = if self.merging_front(x) is Some { q - 1 } else { q };
        let hi = if self.merging_back(x) is Some { q + 2 } else { q + 1 };
        let d = hi - lo - 1;
        let o2 = new.order@;
        assert forall|k: int| 0 <= k < o2.len() implies #[trigger] new.block_ok(k) by {
            if k < lo - 1 {
                assert(self.block_ok(k));
                assert(self.block_ok(k + 1));
                if k > 0 {
                    assert(new.node(o[k - 1] as int) == self.node(o[k - 1] as int));
                }
                assert(new.node(o[k] as int) == self.node(o[k] as int));
            } else if k == lo - 1 {
                assert(self.block_ok(k));
                if k > 0 {
                    assert(new.node(o[k - 1] as int) == self.node(o[k - 1] as int));
                }
            } else if k == lo {
            } else if k == lo + 1 {
                assert(self.block_ok(hi));
                if hi + 1 < o.len() {
                    assert(new.node(o[hi + 1] as int) == self.node(o[hi + 1] as int));
                }
            } else {
                assert(self.block_ok(k + d));
                assert(new.node(o[k + d] as int) == self.node(o[k + d] as int));
                if k + d + 1 < o.len() {
                    assert(new.node(o[k + d + 1] as int) == self.node(o[k + d + 1] as int));
                }
            }
        }
    }

    /// Freeing and merging lists each block once, and every block.
    #[verifier::rlimit(40)]
    proof fn lemma_merge_listed(self, new: Self, x: int)
        requires
            self.chain_wf(),
            self.coalesced(),
            self.live(x),
            self.merge_nodes(new, x),
            new.order@ == self.merged_order(x),
        ensures
            new.order@.no_duplicates(),
            forall|i: int| #[trigger] new.live(i) ==> new.order@.contains(i as usize),
    {
        let o = self.order@;
        let q0 = self.lemma_merge_shape(x);
        let q = self.lemma_merge_frame(new, x);
        let lo = if self.merging_front(x) is Some { q - 1 } else { q };
        let hi = if self.merging_back(x) is Some { q + 2 } else { q + 1 };
        let d = hi - lo - 1;
        let o2 = new.order@;
        assert(o2.no_duplicates()) by {
            assert forall|a: int, b: int| 0 <= a < b < o2.len() implies o2[a] != o2[b] by {
                let a0 = if a < lo { a } else if a == lo { q } else { a + d };
                let b0 = if b < lo { b } else if b == lo { q } else { b + d };
                assert(o2[a] == o[a0] && o2[b] == o[b0]);
                assert(a0 < b0);
            }
        }
        assert forall|i: int| #[trigger] new.live(i) implies o2.contains(i as usize) by {
            assert(self.linked_list.len() == self.linked_list@.len());
            assert((i as usize) as int == i);
            if i == x {
                assert(o2[lo] == x as usize);
            } else {
                assert(i < self.linked_list@.len());
                let gone_f = self.merging_front(x) == Some(i as usize);
                let gone_b = self.merging_back(x) == Some(i as usize);
                if !gone_f && !gone_b && self.merged_front(x) != Some(i as usize) && self.merged_back(x) != Some(
                    i as usize,
                ) {
                    assert(new.linked_list@[i] == self.linked_list@[i]);
                }
                assert(!gone_f && !gone_b);
                assert(self.live(i));
                assert(o.contains(i as usize));
                let j = choose|j: int| 0 <= j < o.len() && o[j] == i as usize;
                assert(j != q);
                if j < lo {
                    assert(o2[j] == i as usize);
                } else {
                    assert(j >= hi);
                    assert(o2[j - d] == i as usize);
                }
            }
        }
    }


    /// Freeing and merging keeps no two free blocks adjacent.
    #[verifier::rlimit(40)]
    proof fn lemma_merge_coalesced(self, new: Self, x: int)
        requires
            self.chain_wf(),
            self.coalesced(),
            self.live(x),
            self.merge_nodes(new, x),
            new.order@ == self.merged_order(x),
        ensures
            new.coalesced(),
    {
        let o = self.order@;
        let q0 = self.lemma_merge_shape(x);
        let q = self.lemma_merge_frame(new, x);
        let lo = if self.merging_front(x) is Some { q - 1 } else { q };
        let hi = if self.merging_back(x) is Some { q + 2 } else { q + 1 };
        let d = hi - lo - 1;
        let o2 = new.order@;
        assert forall|k: int| 0 <= k && k + 1 < o2.len() implies !(#[trigger] new.node(o2[k] as int).is_free()
            && new.node(o2[k + 1] as int).is_free()) by {
            if k + 1 < lo - 1 {
                assert(!(self.node(o[k] as int).is_free() && self.node(o[k + 1] as int).is_free()));
            } else if k + 1 == lo - 1 {
                assert(!(self.node(o[k] as int).is_free() && self.node(o[k + 1] as int).is_free()));
            } else if k == lo + 1 {
                assert(!(self.node(o[hi] as int).is_free() && self.node(o[hi + 1] as int).is_free()));
            } else if k > lo + 1 {
                assert(!(self.node(o[k + d] as int).is_free() && self.node(o[k + d + 1] as int).is_free()));
            }
        }
    }

    /// Freeing and merging grows the free blocks by one less than the number
    /// of merged neighbours.
    #[verifier::rlimit(80)]
    proof fn lemma_merge_flags(self, new: Self, x: int)
        requires
            self.chain_wf(),
            self.coalesced(),
            self.live(x),
            self.node(x).status == NodeStatus::Used,
            self.merge_nodes(new, x),
            new.order@ == self.merged_order(x),
        ensures
            count_true(new.free_flags()) == count_true(self.free_flags()) + 1 - self.merge_count(x),
    {
        let o = self.order@;
        let q0 = self.lemma_merge_shape(x);
        let q = self.lemma_merge_frame(new, x);
        let lo = if self.merging_front(x) is Some { q - 1 } else { q };
        let hi = if self.merging_back(x) is Some { q + 2 } else { q + 1 };
        let d = hi - lo - 1;
        let o2 = new.order@;
        let f0 = self.free_flags();
        let pre = f0.subrange(0, lo);
        let mid = f0.subrange(lo, hi);
        let post = f0.subrange(hi, o.len() as int);
        assert(f0 =~= pre + mid + post);
        assert forall|k: int| 0 <= k < o2.len() implies #[trigger] new.free_flags()[k] == (pre.push(true)
            + post)[k] by {
            if k < lo - 1 {
                assert(new.node(o[k] as int) == self.node(o[k] as int));
            } else if k == lo - 1 {
                assert(new.node(o[k] as int).status == self.node(o[k] as int).status);
            } else if k == lo {
            } else if k == lo + 1 {
                assert(new.node(o[hi] as int).status == self.node(o[hi] as int).status);
            } else {
                assert(new.node(o[k + d] as int) == self.node(o[k + d] as int));
            }
        }
        assert(new.free_flags() =~= pre.push(true) + post);
        lemma_count_true_concat(pre + mid, post);
        lemma_count_true_concat(pre, mid);
        lemma_count_true_concat(pre.push(true), post);
        lemma_count_true_concat(pre, seq![true]);
        assert(pre.push(true) =~= pre + seq![true]);
        assert(count_true(seq![true]) == 1) by {
            reveal_with_fuel(count_true, 2);
        }
        lemma_count_true_small(mid);
        assert(mid[q - lo] == false);
        if self.merging_front(x) is Some {
            assert(mid[0] == true);
        }
        if self.merging_back(x) is Some {
            assert(mid[q + 1 - lo] == true);
        }
    }

    /// Takes the free block `i` out of its category and out of the block
    /// list, keeping its entry for reuse.
    fn drop_free_block(&mut self, i: usize, Ghost(gone): Ghost<Set<usize>>)
        requires
            old(self).levels_wf(),
            old(self).links_wf_except(gone),
            old(self).live(i as int),
            old(self).node(i as int).is_free(),
            old(self).node(i as int).index == i,
            !gone.contains(i),
        ensures
            final(self).levels_wf(),
            final(self).links_wf_except(gone.insert(i)),
            final(self).linked_list@ == old(self).linked_list@.update(i as int, None),
            final(self).free_linked_list_index@ == old(self).free_linked_list_index@.push(i),
            final(self).order@ == old(self).order@,
            final(self).same_config(*old(self)),
            final(self).free_total() == old(self).free_total() - 1,
            old(self).same_shape(*final(self)),
            forall|a: int, b: int|
                old(self).has_category(a, b) ==> #[trigger] final(self).cat_nodes(a, b) == drop_node(
                    old(self).cat_nodes(a, b),
                    i,
                ),
            ({
                let (fl, sl, slot) = old(self).filed_at(i as int);
                &&& old(self).other_categories_same(*final(self), fl, sl)
                &&& final(self).second(fl, sl).free_link_list@ == old(self).second(fl, sl).free_link_list@.push(slot)
                &&& forall|a: int, b: int|
                    old(self).has_category(a, b) ==> #[trigger] final(self).slots_of(a, b) == (if a == fl && b
                        == sl {
                        slot_taken(old(self).slots_of(a, b), slot)
                    } else {
                        old(self).slots_of(a, b)
                    })
            }),
    {
        let ghost s0 = *self;
        let node = self.linked_list[i].unwrap();
        if let NodeStatus::Free(fl, sl, sl_idx) = node.status {
            proof {
                assert(s0.registered(i as int));
                s0.lemma_table_bounds();
                assert(s0.first_level_ok(fl as int));
                assert(s0.second(fl as int, sl as int).wf());
                assert(s0.second(fl as int, sl as int).link_list@[sl_idx.0 as int] is Some);
                assert((fl as usize) as int == fl as int);
                assert((sl as usize) as int == sl as int);
                assert(s0.second(fl as int, sl as int).link(sl_idx.0 as int).node_link == i);
            }
            let _ = self.clean_free_node_in_fl_sl(fl as usize, sl as usize, sl_idx.0);
            proof {
                s0.lemma_links_clean(*self, gone, fl as int, sl as int, sl_idx.0);
            }
            let ghost mid = *self;
            self.clean_node_in_linked_list_unchecked(node.index);
            proof {
                mid.lemma_levels_same(*self);
                mid.lemma_links_nodes(*self, gone.insert(i));
                s0.lemma_filed_unique(fl as int, sl as int, i as int, gone);
                assert(self.fl_list@ == mid.fl_list@);
                assert forall|f: int| 0 <= f < s0.fl_list@.len() implies #[trigger] self.fl_list@[f].sl_list@.len()
                    == s0.fl_list@[f].sl_list@.len() by {
                    assert(mid.fl_list@[f].sl_list@.len() == s0.fl_list@[f].sl_list@.len());
                }
                assert forall|f: int, g: int| s0.has_category(f, g) && (f != fl as int || g != sl as int) implies #[trigger] self.second(
                    f,
                    g,
                ) == s0.second(f, g) by {
                    assert(mid.second(f, g) == s0.second(f, g));
                }
                assert(s0.other_categories_same(*self, fl as int, sl as int));
                assert forall|a: int, b: int| s0.has_category(a, b) implies #[trigger] self.slots_of(a, b) == (if a
                    == fl as int && b == sl as int {
                    slot_taken(s0.slots_of(a, b), sl_idx.0)
                } else {
                    s0.slots_of(a, b)
                }) by {
                    if a == fl as int && b == sl as int {
                        assert(self.second(a, b) == mid.second(a, b));
                    }
                }
                assert forall|a: int, b: int| s0.has_category(a, b) implies #[trigger] self.cat_nodes(a, b)
                    == drop_node(s0.cat_nodes(a, b), i) by {
                    assert(mid.fl_list@[a].sl_list@.len() == s0.fl_list@[a].sl_list@.len());
                    if !(a == fl as int && b == sl as int) {
                        assert(mid.second(a, b) == s0.second(a, b));
                        s0.lemma_not_filed_elsewhere(a, b, i as int, gone);
                    }
                }
            }
        }
    }

    /// Takes the free neighbours of the used block `link` out of their
    /// categories and out of the block list, and returns the merged size and
    /// the neighbour links, start and end that the merged block takes.
    #[verifier::rlimit(100)]
    fn absorb_neighbours(&mut self, link: usize) -> (r: (
        u64,
        Option<Option<usize>>,
        Option<Option<usize>>,
        Option<u64>,
        Option<u64>,
        Ghost<Set<usize>>,
    ))
        requires
            old(self).wf(),
            old(self).live(link as int),
            old(self).node(link as int).status == NodeStatus::Used,
        ensures
            ({
                let s0 = *old(self);
                let x = link as int;
                let (size, new_front_link, new_back_link, new_start, new_end, gone) = r;
                &&& size == s0.merged_end(x) - s0.merged_start(x)
                &&& new_front_link == (match s0.merging_front(x) {
                    Some(f) => Some(s0.node(f as int).front),
                    None => None,
                })
                &&& new_back_link == (match s0.merging_back(x) {
                    Some(b) => Some(s0.node(b as int).back),
                    None => None,
                })
                &&& new_start == (match s0.merging_front(x) {
                    Some(f) => Some(s0.node(f as int).start),
                    None => None,
                })
                &&& new_end == (match s0.merging_back(x) {
                    Some(b) => Some(s0.node(b as int).end),
                    None => None,
                })
                &&& gone@ == s0.merged_away(x)
                &&& final(self).levels_wf()
                &&& final(self).links_wf_except(gone@)
                &&& final(self).linked_list@.len() == s0.linked_list@.len()
                &&& forall|i: int|
                    0 <= i < s0.linked_list@.len() ==> #[trigger] final(self).linked_list@[i] == (if gone@.contains(
                        i as usize,
                    ) {
                        None
                    } else {
                        s0.linked_list@[i]
                    })
                &&& final(self).free_linked_list_index@ == s0.freed_spares(x)
                &&& final(self).order@ == s0.order@
                &&& final(self).same_config(s0)
                &&& s0.same_shape(*final(self))
                &&& final(self).free_total() == s0.free_total() - s0.merge_count(x)
                &&& forall|a: int, b: int|
                    s0.has_category(a, b) ==> #[trigger] final(self).cat_nodes(a, b) == s0.absorbed_cat(x, a, b)
                &&& forall|a: int, b: int|
                    s0.has_category(a, b) ==> #[trigger] final(self).slots_of(a, b) == s0.absorbed_slots(x, a, b)
                &&& (size > 0 && size <= s0.max_size ==> final(self).second(
                    s0.freed_category(x).0 as int,
                    s0.freed_category(x).1 as int,
                ).next_slot() == s0.freed_slot(x))
            }),
    {
        let ghost s0 = *self;
        let ghost x = link as int;
        let ghost q = s0.lemma_merge_shape(x);
        proof {
            s0.lemma_table_bounds();
            s0.lemma_end_within(q);
            assert(s0.linked_list.len() == s0.linked_list@.len());
        }
        let allocated_node = self.linked_list[link].unwrap();
        let allocated_node_index = allocated_node.index;
        let allocated_node_back = allocated_node.back;
        let allocated_node_front = allocated_node.front;
        let mut size = allocated_node.size;
        let mut new_front_link: Option<Option<usize>> = None;
        let mut new_back_link: Option<Option<usize>> = None;
        let mut new_start: Option<u64> = None;
        let mut new_end: Option<u64> = None;
        let ghost mut gone: Set<usize> = Set::empty();
        proof {
            s0.lemma_links_except_empty();
        }

        // the free block below merges
        if let Some(front_node_link) = allocated_node_front {
            let front_node = self.linked_list[front_node_link].unwrap();
            if let NodeStatus::Free(_, _, _) = front_node.status {
                proof {
                    assert(s0.block_ok(q - 1));
                    s0.lemma_end_within(q - 1);
                }
                new_front_link = Some(front_node.front);
                new_start = Some(front_node.start);
                size = size + front_node.size;
                self.drop_free_block(front_node.index, Ghost(gone));
                proof {
                    gone = gone.insert(front_node_link);
                }
            }
        }
        let ghost s2 = *self;

        // the free block above merges
        if let Some(back_node_link) = allocated_node_back {
            let back_node = self.linked_list[back_node_link].unwrap();
            if let NodeStatus::Free(_, _, _) = back_node.status {
                proof {
                    assert(s0.block_ok(q + 1));
                    s0.lemma_end_within(q + 1);
                }
                new_back_link = Some(back_node.back);
                new_end = Some(back_node.end);
                size = size + back_node.size;
                self.drop_free_block(back_node.index, Ghost(gone));
                proof {
                    gone = gone.insert(back_node_link);
                }
            }
        }
        let ghost s4 = *self;
        proof {
            assert(size == s0.merged_end(x) - s0.merged_start(x));
            assert(gone == s0.merged_away(x));
            // the categories
            assert forall|a: int, b: int| s0.has_category(a, b) implies #[trigger] s4.cat_nodes(a, b)
                == s0.absorbed_cat(x, a, b) by {
                assert(s2.fl_list@[a].sl_list@.len() == s0.fl_list@[a].sl_list@.len());
                if s0.merging_front(x) is None {
                    assert(s2 == s0);
                }
                if s0.merging_back(x) is None {
                    assert(s4 == s2);
                }
            }
            assert forall|a: int, b: int| s0.has_category(a, b) implies #[trigger] s4.slots_of(a, b)
                == s0.absorbed_slots(x, a, b) by {
                assert(s2.fl_list@[a].sl_list@.len() == s0.fl_list@[a].sl_list@.len());
                if s0.merging_front(x) is None {
                    assert(s2 == s0);
                }
                if let Some(g) = s0.merging_back(x) {
                    assert(s2.node(g as int) == s0.node(g as int));
                } else {
                    assert(s4 == s2);
                }
            }
            // the slot that the merged block takes
            if size > 0 && size <= s0.max_size {
                crate::tools::lemma_fl_monotone(size, s0.max_size, s0.minimum_size_raw);
                crate::tools::lemma_category_bounds(size, s0.minimum_size_raw);
                let (nf64, nsl64) = s0.freed_category(x);
                let nf = nf64 as int;
                let nsl = nsl64 as int;
                assert(s0.first_level_ok(nf));
                assert(s0.has_category(nf, nsl));
                if let Some(b) = s0.merging_back(x) {
                    assert(s2.node(b as int) == s0.node(b as int));
                }
                if s0.merging_back(x) is Some && (s0.filed_at(s0.merging_back(x)->0 as int).0,
                    s0.filed_at(s0.merging_back(x)->0 as int).1) == (nf, nsl) {
                } else {
                    if let Some(b) = s0.merging_back(x) {
                        assert(s2.fl_list@[nf].sl_list@.len() == s0.fl_list@[nf].sl_list@.len());
                        assert(s4.second(nf, nsl) == s2.second(nf, nsl));
                    } else {
                        assert(s4 == s2);
                    }
                    if s0.merging_front(x) is Some && (s0.filed_at(s0.merging_front(x)->0 as int).0,
                        s0.filed_at(s0.merging_front(x)->0 as int).1) == (nf, nsl) {
                    } else if let Some(f) = s0.merging_front(x) {
                        assert(s2.second(nf, nsl) == s0.second(nf, nsl));
                    } else {
                        assert(s2 == s0);
                    }
                }
            }
        }
        (size, new_front_link, new_back_link, new_start, new_end, Ghost(gone))
    }

    /// Gives the block of `allocated` back: it becomes free, merges with a
    /// free block just below it and one just above it, and is filed under the
    /// category of the merged size.
    #[verifier::rlimit(100)]
    pub fn free(&mut self, allocated: &Allocated) -> (r: Result<(), String>)
        requires
            old(self).wf(),
            old(self).live(allocated@.link as int),
            old(self).node(allocated@.link as int).status == NodeStatus::Used,
        ensures
            r is Ok,
            old(self).free_post(*final(self), allocated@.link as int),
    {
        let ghost s0 = *self;
        proof {
            allocated.lemma_view();
        }
        let ghost x = allocated@.link as int;
        let ghost q = s0.lemma_merge_shape(x);
        proof {
            s0.lemma_table_bounds();
            s0.lemma_order_bound();
            s0.lemma_end_within(q);
            assert(s0.linked_list.len() == s0.linked_list@.len());
            lemma_count_true_update(s0.free_flags(), q, true);
            lemma_count_true_bound(s0.free_flags().update(q, true));
            assert(s0.free_total() < u64::MAX);
        }
        let link = allocated.link;
        let allocated_node_index = link;
        let (size, new_front_link, new_back_link, new_start, new_end, Ghost(gone)) = self.absorb_neighbours(link);
        let ghost s4 = *self;
        proof {
            assert(size == s0.merged_end(x) - s0.merged_start(x));
            assert(size <= s0.max_size) by {
                let q1 = s0.lemma_merge_shape(x);
                let hi = if s0.merging_back(x) is Some { q1 + 2 } else { q1 + 1 };
                s0.lemma_end_within(hi - 1);
            }
            crate::tools::lemma_fl_monotone(size, s0.max_size, s0.minimum_size_raw);
            crate::tools::lemma_category_bounds(size, s0.minimum_size_raw);
        }
        let (fl, sl) = self.get_fl_sl(size);

        // the blocks around the merged range point to it
        if let Some(front_link) = new_front_link {
            if let Some(idx) = front_link {
                let mut front_node = self.linked_list[idx].unwrap();
                front_node.back = Some(allocated_node_index);
                self.linked_list.set(idx, Some(front_node));
            }
        }
        if let Some(back_link) = new_back_link {
            if let Some(idx) = back_link {
                let mut back_node = self.linked_list[idx].unwrap();
                back_node.front = Some(allocated_node_index);
                self.linked_list.set(idx, Some(back_node));
            }
        }

        // the merged block
        let mut node = self.linked_list[link].unwrap();
        node.size = size;
        if let Some(front_link) = new_front_link {
            node.front = front_link;
        }
        if let Some(back_link) = new_back_link {
            node.back = back_link;
        }
        if let Some(n_start) = new_start {
            node.start = n_start;
        }
        if let Some(n_end) = new_end {
            node.end = n_end;
        }
        self.linked_list.set(link, Some(node));
        self.order = Ghost(s0.merged_order(x));
        let ghost s5 = *self;
        proof {
            s4.lemma_levels_same(s5);
            s4.lemma_links_nodes(s5, gone);
            assert(s5.first_level_ok(fl as int));
        }
        self.update_via_fl_sl_counter(fl, sl, link);
        proof {
            let s6 = *self;
            s5.lemma_links_file(s6, gone, fl as int, sl as int, link);
            assert(s0.merge_nodes(s6, x));
            assert forall|i: int| 0 <= i < s6.linked_list@.len() && #[trigger] s6.linked_list@[i] is None implies s0.freed_spares(
                x,
            ).contains(i as usize) by {
                assert(s0.linked_list.len() == s0.linked_list@.len());
                let sp = s0.freed_spares(x);
                let f0 = s0.free_linked_list_index@;
                if s0.merging_front(x) == Some(i as usize) {
                    let s1 = f0.push(i as usize);
                    assert(s1[f0.len() as int] == i as usize);
                    if let Some(b) = s0.merging_back(x) {
                        assert(sp == s1.push(b));
                        assert(sp[f0.len() as int] == i as usize);
                    }
                } else if s0.merging_back(x) == Some(i as usize) {
                    assert(sp[sp.len() - 1] == i as usize);
                } else {
                    assert(s6.linked_list@[i] == s0.linked_list@[i]);
                    assert(f0.contains(i as usize));
                    let k = choose|k: int| 0 <= k < f0.len() && f0[k] == i as usize;
                    assert(sp[k] == i as usize);
                }
            }
            assert forall|i: int|
                s0.live(i) && i != x && s0.node(i).status == NodeStatus::Used implies {
                    &&& #[trigger] s6.live(i)
                    &&& s6.node(i).status == NodeStatus::Used
                    &&& s6.node(i).start == s0.node(i).start
                    &&& s6.node(i).end == s0.node(i).end
                } by {
                assert(s0.merging_front(x) != Some(i as usize));
                assert(s0.merging_back(x) != Some(i as usize));
                assert(s0.linked_list.len() == s0.linked_list@.len());
                if s0.merged_front(x) != Some(i as usize) && s0.merged_back(x) != Some(i as usize) {
                    assert(s6.linked_list@[i] == s0.linked_list@[i]);
                }
            }
            s6.lemma_links_except_done(gone);
            s0.lemma_merge_blocks(s6, x);
            s0.lemma_merge_coalesced(s6, x);
            s0.lemma_merge_flags(s6, x);
            let nf = fl as int;
            let nsl = sl as int;
            assert(s5.second(nf, nsl) == s4.second(nf, nsl));
            assert(s0.freed_category(x) == (fl, sl));
            // the categories
            assert forall|a: int, b: int| s0.has_category(a, b) implies #[trigger] s6.cat_nodes(a, b)
                == s0.freed_cat(x, a, b) by {
                assert(s4.fl_list@[a].sl_list@.len() == s0.fl_list@[a].sl_list@.len());
                assert(s4.cat_nodes(a, b) == s0.absorbed_cat(x, a, b));
                assert(s5.cat_nodes(a, b) == s4.cat_nodes(a, b));
                if !(a == nf && b == nsl) {
                    assert(s6.second(a, b) == s5.second(a, b));
                }
            }
            assert forall|a: int, b: int| s0.has_category(a, b) implies #[trigger] s6.slots_of(a, b)
                == s0.freed_slots(x, a, b) by {
                assert(s4.fl_list@[a].sl_list@.len() == s0.fl_list@[a].sl_list@.len());
                assert(s4.slots_of(a, b) == s0.absorbed_slots(x, a, b));
                assert(s5.slots_of(a, b) == s4.slots_of(a, b));
                if !(a == nf && b == nsl) {
                    assert(s6.second(a, b) == s5.second(a, b));
                }
            }
        }
        Ok(())
    }
}

} // verus!
