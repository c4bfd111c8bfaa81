use vstd::prelude::*;

verus! {

use crate::errors::{
    first_level_error,
    first_level_error_text,
    second_level_error,
    second_level_error_text,
    link_range_error,
    link_range_error_text,
    link_none_error,
    link_none_error_text,
    node_range_error,
    node_range_error_text,
    node_none_error,
    node_none_error_text,
};
use crate::monagement_core::{MonagementCore, slot_filed, slot_taken};
use crate::level_core::SecondLevelLink;
use crate::node_core::{Node, NodeStatus, SlIdx};

/// Block `n` moved to `start`, with the index and the neighbours that are
/// given in place of its own.
pub open spec fn moved_node(
    n: Node,
    index: Option<usize>,
    back: Option<Option<usize>>,
    front: Option<Option<usize>>,
    start: u64,
) -> Node {
    Node {
        index: match index {
            Some(i) => i,
            None => n.index,
        },
        back: match back {
            Some(b) => b,
            None => n.back,
        },
        front: match front {
            Some(f) => f,
            None => n.front,
        },
        start: start,
        ..n
    }
}

impl MonagementCore {
    /// Slot `link_idx` of category `(fl, sl)` holds a link, and the link names
    /// an entry of the block list that holds a block.
    pub open spec fn refile_target_ok(self, fl: u64, sl: u64, link_idx: usize) -> bool {
        let second = self.second(fl as int, sl as int);
        &&& self.has_category(fl as int, sl as int)
        &&& link_idx < second.link_list@.len()
        &&& second.link_list@[link_idx as int] is Some
        &&& self.live(second.link(link_idx as int).node_link as int)
    }

    /// The error for a target that is not there, by the first check that
    /// fails: the first level, the second level, the slot, the link, the
    /// entry, the block.
    pub open spec fn refile_error_text(self, fl: u64, sl: u64, link_idx: usize) -> Seq<char> {
        let second = self.second(fl as int, sl as int);
        if fl >= self.fl_list@.len() {
            first_level_error_text(fl)
        } else if sl >= self.fl_list@[fl as int].sl_list@.len() {
            second_level_error_text(sl, fl)
        } else if link_idx >= second.link_list@.len() {
            link_range_error_text(link_idx, fl, sl)
        } else if second.link_list@[link_idx as int] is None {
            link_none_error_text(link_idx, fl, sl)
        } else if second.link(link_idx as int).node_link >= self.linked_list@.len() {
            node_range_error_text(link_idx)
        } else {
            node_none_error_text(link_idx)
        }
    }

    /// The target is there, and a new size, if any, falls in a first level
    /// of the table.
    pub open spec fn refile_ok(self, fl: u64, sl: u64, link_idx: usize, size: Option<u64>) -> bool {
        &&& self.refile_target_ok(fl, sl, link_idx)
        &&& (size matches Some(s) ==> self.category(s).0 < self.fl_list@.len())
    }

    /// Renaming the block that the last link of `(nf, nsl)` names (in `slot`)
    /// keeps the table well formed and every other category as it was; the
    /// category's list names `idx` in place of its last block.
    proof fn lemma_renamed(self, new: Self, nf: int, nsl: int, slot: usize, idx: usize)
        requires
            self.levels_wf(),
            self.has_category(nf, nsl),
            self.second(nf, nsl).slots@.len() > 0,
            self.second(nf, nsl).slots@.last() == slot,
            new.linked_list@ == self.linked_list@,
            new.free_linked_list_index@ == self.free_linked_list_index@,
            new.order@ == self.order@,
            new.same_config(self),
            new.bitmap == self.bitmap,
            new.fl_list@.len() == self.fl_list@.len(),
            forall|g: int| 0 <= g < self.fl_list@.len() && g != nf ==> #[trigger] new.fl_list@[g] == self.fl_list@[g],
            new.fl_list@[nf].count == self.fl_list@[nf].count,
            new.fl_list@[nf].bitmap == self.fl_list@[nf].bitmap,
            new.fl_list@[nf].sl_list@.len() == self.fl_list@[nf].sl_list@.len(),
            forall|h: int|
                0 <= h < self.fl_list@[nf].sl_list@.len() && h != nsl ==> #[trigger] new.fl_list@[nf].sl_list@[h]
                    == self.fl_list@[nf].sl_list@[h],
            ({
                let a = self.second(nf, nsl);
                let b = new.second(nf, nsl);
                &&& b.link_list@ == a.link_list@.update(
                    slot as int,
                    Some(SecondLevelLink { node_link: idx, ..a.link(slot as int) }),
                )
                &&& b.slots@ == a.slots@
                &&& b.free_link_list@ == a.free_link_list@
                &&& b.count == a.count
                &&& b.head_link == a.head_link
                &&& b.end_link == a.end_link
            }),
        ensures
            new.levels_wf(),
            self.same_shape(new),
            self.other_categories_same(new, nf, nsl),
            new.slots_of(nf, nsl) == self.slots_of(nf, nsl),
            new.cat_nodes(nf, nsl) == self.cat_nodes(nf, nsl).drop_last().push(idx),
            new.free_total() == self.free_total(),
    {
        self.lemma_table_bounds();
        let a = self.second(nf, nsl);
        let b = new.second(nf, nsl);
        let l = a.slots@;
        assert(self.first_level_ok(nf));
        assert(a.wf());
        assert(a.link_ok(l.len() - 1));
        assert(b.wf()) by {
            assert forall|k: int| 0 <= k < l.len() implies #[trigger] b.link_ok(k) by {
                assert(a.link_ok(k));
            }
            assert forall|j: int| 0 <= j < b.link_list@.len() implies (#[trigger] b.link_list@[j] is Some
                <==> l.contains(j as usize)) by {
                assert(a.link_list@[j] is Some <==> l.contains(j as usize));
            }
            assert forall|j: int| 0 <= j < b.link_list@.len() && #[trigger] b.link_list@[j] is None implies b.free_link_list@.contains(
                j as usize,
            ) by {
                assert(a.link_list@[j] is None);
            }
        }
        assert forall|g: int| 0 <= g < new.fl_list@.len() implies #[trigger] new.first_level_ok(g) by {
            assert(self.first_level_ok(g));
            if g == nf {
                let fa = self.fl_list@[nf];
                let fb = new.fl_list@[nf];
                assert forall|h: int| 0 <= h < self.second_level_count implies #[trigger] fb.sl_list@[h].wf() by {
                    assert(fa.sl_list@[h].wf());
                }
                assert(crate::monagement_core::sl_counts(fb.sl_list@) =~= crate::monagement_core::sl_counts(
                    fa.sl_list@,
                ));
                assert forall|h: u64| h < 64 implies (#[trigger] crate::bits::bit_set(fb.bitmap, h) <==> (h
                    < self.second_level_count && fb.sl_list@[h as int].count > 0)) by {
                    assert(crate::bits::bit_set(fa.bitmap, h) <==> (h < self.second_level_count
                        && fa.sl_list@[h as int].count > 0));
                }
            }
        }
        assert(crate::monagement_core::fl_counts(new.fl_list@) =~= crate::monagement_core::fl_counts(
            self.fl_list@,
        ));
        assert forall|g: u64| g < 64 implies (#[trigger] crate::bits::bit_set(new.bitmap, g) <==> (g
            < new.fl_list@.len() && new.fl_list@[g as int].count > 0)) by {
            assert(crate::bits::bit_set(self.bitmap, g) <==> (g < self.fl_list@.len()
                && self.fl_list@[g as int].count > 0));
        }
        assert forall|g: int| 0 <= g < self.fl_list@.len() implies #[trigger] new.fl_list@[g].sl_list@.len()
            == self.fl_list@[g].sl_list@.len() by {}
        assert forall|g: int, h: int| self.has_category(g, h) && (g != nf || h != nsl) implies #[trigger] new.second(
            g,
            h,
        ) == self.second(g, h) by {}
        assert forall|k: int| 0 <= k < l.len() implies #[trigger] b.nodes()[k] == a.nodes().drop_last().push(
            idx,
        )[k] by {
            if k < l.len() - 1 {
                assert(l[k] != slot);
                assert(a.link_ok(k));
            }
        }
        assert(b.nodes() =~= a.nodes().drop_last().push(idx));
    }

    /// Rewrites the free block that slot `link_idx` of category `(fl, sl)`
    /// names: it starts at `start`, and takes the index and neighbours that
    /// are given. When `size` is given, its link leaves `(fl, sl)`, and it
    /// takes that size and is filed again, last, under the category of that
    /// size, with a link that names its (possibly new) index. Refuses, and
    /// changes nothing, when the category, the slot, its link or the block is
    /// not there. When the first level of the new size is not in the table,
    /// it refuses with the error that names the first level `fl` of the
    /// target, after the block has moved and its link has left `(fl, sl)`.
    pub fn update_free_node(
        &mut self,
        index: Option<usize>,
        size: Option<u64>,
        back: Option<Option<usize>>,
        front: Option<Option<usize>>,
        fl: u64,
        sl: u64,
        link_idx: usize,
        start: u64,
    ) -> (r: Result<(), String>)
        requires
            old(self).levels_wf(),
            old(self).free_total() <= u64::MAX,
            old(self).refile_target_ok(fl, sl, link_idx) ==> (size matches Some(s) ==> s > 0),
        ensures
            r is Ok <==> old(self).refile_ok(fl, sl, link_idx, size),
            !old(self).refile_target_ok(fl, sl, link_idx) ==> (r matches Err(e) && *final(self) == *old(
                self,
            ) && e@ == old(self).refile_error_text(fl, sl, link_idx)),
            old(self).refile_target_ok(fl, sl, link_idx) ==> {
                let second = old(self).second(fl as int, sl as int);
                let n = second.link(link_idx as int).node_link;
                let p = second.slots@.index_of(link_idx);
                let moved = moved_node(old(self).node(n as int), index, back, front, start);
                &&& final(self).levels_wf()
                &&& final(self).free_linked_list_index@ == old(self).free_linked_list_index@
                &&& final(self).order@ == old(self).order@
                &&& final(self).same_config(*old(self))
                &&& match size {
                    None => {
                        &&& final(self).linked_list@ == old(self).linked_list@.update(
                            n as int,
                            Some(moved),
                        )
                        &&& final(self).fl_list@ == old(self).fl_list@
                        &&& final(self).bitmap == old(self).bitmap
                        &&& final(self).free_total() == old(self).free_total()
                    },
                    Some(s) => {
                        let (nf, nsl) = old(self).category(s);
                        if nf < old(self).fl_list@.len() {
                            &&& final(self).linked_list@ == old(self).linked_list@.update(
                                n as int,
                                Some(
                                    Node {
                                        size: s,
                                        status: NodeStatus::Free(
                                            nf,
                                            nsl,
                                            SlIdx(
                                                old(self).refile_slot(
                                                    fl as int,
                                                    sl as int,
                                                    link_idx,
                                                    nf as int,
                                                    nsl as int,
                                                ),
                                            ),
                                        ),
                                        ..moved
                                    },
                                ),
                            )
                            &&& old(self).cats_after_refile(
                                *final(self),
                                fl as int,
                                sl as int,
                                p,
                                nf as int,
                                nsl as int,
                                moved.index,
                            )
                            &&& old(self).slots_after_refile(
                                *final(self),
                                fl as int,
                                sl as int,
                                link_idx,
                                nf as int,
                                nsl as int,
                            )
                            &&& final(self).free_total() == old(self).free_total()
                            &&& (moved.index == n ==> exists|m: Self|
                                #[trigger] Self::refiled(
                                    *old(self),
                                    m,
                                    m,
                                    *final(self),
                                    fl as int,
                                    sl as int,
                                    link_idx,
                                    n,
                                    nf as int,
                                    nsl as int,
                                ) && m.second(nf as int, nsl as int).next_slot() == old(
                                    self,
                                ).refile_slot(fl as int, sl as int, link_idx, nf as int, nsl as int))
                        } else {
                            &&& r matches Err(e) && e@ == first_level_error_text(fl)
                            &&& final(self).linked_list@ == old(self).linked_list@.update(
                                n as int,
                                Some(moved),
                            )
                            &&& old(self).cats_after_take(*final(self), fl as int, sl as int, p)
                            &&& old(self).slots_after_take(*final(self), fl as int, sl as int, link_idx)
                            &&& final(self).free_total() == old(self).free_total() - 1
                        }
                    },
                }
            },
    {
        if fl >= self.fl_list.len() as u64 {
            return Err(first_level_error(fl));
        }
        let f = fl as usize;
        if sl >= self.fl_list[f].sl_list.len() as u64 {
            return Err(second_level_error(sl, fl));
        }
        let s = sl as usize;
        if link_idx >= self.fl_list[f].sl_list[s].link_list.len() {
            return Err(link_range_error(link_idx, fl, sl));
        }
        let node_link = match self.fl_list[f].sl_list[s].link_list[link_idx] {
            Some(link) => link.node_link,
            None => {
                return Err(link_none_error(link_idx, fl, sl));
            },
        };
        if node_link >= self.linked_list.len() {
            return Err(node_range_error(link_idx));
        }
        let mut node = match self.linked_list[node_link] {
            Some(node) => node,
            None => {
                return Err(node_none_error(link_idx));
            },
        };
        let ghost s0 = *self;
        node.start = start;
        if let Some(new_index) = index {
            node.index = new_index;
        }
        if let Some(back_link) = back {
            node.back = back_link;
        }
        if let Some(front_link) = front {
            node.front = front_link;
        }
        self.linked_list.set(node_link, Some(node));
        let ghost s1 = *self;
        proof {
            s0.lemma_levels_same(s1);
        }
        if let Some(new_size) = size {
            let ghost p = s0.second(fl as int, sl as int).slots@.index_of(link_idx);
            self.clean_free_node_in_fl_sl(f, s, link_idx);
            let ghost s2 = *self;
            proof {
                s0.lemma_table_bounds();
                crate::tools::lemma_category_bounds(new_size, s0.minimum_size_raw);
            }
            let (n_fl, n_sl) = self.get_fl_sl(new_size);
            if n_fl >= self.fl_list.len() as u64 {
                proof {
                    assert forall|a: int, b: int| s0.has_category(a, b) implies #[trigger] s2.cat_nodes(a, b)
                        == (if a == fl as int && b == sl as int {
                        s0.cat_nodes(a, b).remove(p)
                    } else {
                        s0.cat_nodes(a, b)
                    }) by {
                        assert(s2.fl_list@[a].sl_list@.len() == s0.fl_list@[a].sl_list@.len());
                        if !(a == fl as int && b == sl as int) {
                            assert(s2.second(a, b) == s0.second(a, b));
                        }
                    }
                    assert forall|a: int, b: int| s0.has_category(a, b) implies #[trigger] s2.slots_of(a, b)
                        == (if a == fl as int && b == sl as int {
                        slot_taken(s0.slots_of(a, b), link_idx)
                    } else {
                        s0.slots_of(a, b)
                    }) by {
                        assert(s2.fl_list@[a].sl_list@.len() == s0.fl_list@[a].sl_list@.len());
                        if !(a == fl as int && b == sl as int) {
                            assert(s2.second(a, b) == s0.second(a, b));
                        }
                    }
                    assert(s0.same_shape(s2)) by {
                        assert forall|g: int| 0 <= g < s0.fl_list@.len() implies #[trigger] s2.fl_list@[g].sl_list@.len()
                            == s0.fl_list@[g].sl_list@.len() by {
                            assert(s2.fl_list@[g].sl_list@.len() == s0.fl_list@[g].sl_list@.len());
                        }
                    }
                }
                return Err(first_level_error(fl));
            }
            proof {
                assert(s2.first_level_ok(n_fl as int));
            }
            self.update_via_fl_sl_counter(n_fl, n_sl, node_link);
            let ghost s3 = *self;
            let mut node = self.linked_list[node_link].unwrap();
            if node.index != node_link {
                if let NodeStatus::Free(_, _, slot_idx) = node.status {
                    proof {
                        s3.lemma_table_bounds();
                        assert(s3.first_level_ok(n_fl as int));
                        assert(s3.second(n_fl as int, n_sl as int).wf());
                    }
                    self.fl_list[n_fl as usize].sl_list[n_sl as usize].rename_link(slot_idx.0, node.index);
                }
            }
            let ghost s3b = *self;
            proof {
                let nf = n_fl as int;
                let nsl = n_sl as int;
                let slot = s2.second(nf, nsl).next_slot();
                s3.lemma_table_bounds();
                assert(s3.second(nf, nsl).slots@.last() == slot);
                if node.index == node_link {
                    assert(s3.second(nf, nsl).link_list@ =~= s3.second(nf, nsl).link_list@.update(
                        slot as int,
                        Some(SecondLevelLink { node_link: node.index, ..s3.second(nf, nsl).link(slot as int) }),
                    ));
                }
                s3.lemma_renamed(s3b, nf, nsl, slot, node.index);
            }
            node.size = new_size;
            self.linked_list.set(node_link, Some(node));
            proof {
                let s4 = *self;
                s3b.lemma_levels_same(s4);
                let nf = n_fl as int;
                let nsl = n_sl as int;
                if nf == fl as int && nsl == sl as int {
                    assert(s2.second(nf, nsl).next_slot() == link_idx);
                } else {
                    assert(s2.fl_list@[nf].sl_list@.len() == s0.fl_list@[nf].sl_list@.len());
                    assert(s2.second(nf, nsl) == s0.second(nf, nsl));
                }
                assert forall|a: int, b: int| s0.has_category(a, b) implies #[trigger] s4.cat_nodes(a, b)
                    == ({
                    let base = if a == fl as int && b == sl as int {
                        s0.cat_nodes(a, b).remove(p)
                    } else {
                        s0.cat_nodes(a, b)
                    };
                    if a == nf && b == nsl {
                        base.push(node.index)
                    } else {
                        base
                    }
                }) by {
                    assert(s2.fl_list@[a].sl_list@.len() == s0.fl_list@[a].sl_list@.len());
                    if !(a == fl as int && b == sl as int) {
                        assert(s2.second(a, b) == s0.second(a, b));
                    }
                    if !(a == nf && b == nsl) {
                        assert(s3.second(a, b) == s2.second(a, b));
                        assert(s3b.second(a, b) == s3.second(a, b));
                    } else {
                        assert(s2.cat_nodes(a, b).push(node_link).drop_last() =~= s2.cat_nodes(a, b));
                    }
                }
                assert forall|a: int, b: int| s0.has_category(a, b) implies #[trigger] s4.slots_of(a, b)
                    == ({
                    let base = if a == fl as int && b == sl as int {
                        slot_taken(s0.slots_of(a, b), link_idx)
                    } else {
                        s0.slots_of(a, b)
                    };
                    if a == nf && b == nsl {
                        slot_filed(base)
                    } else {
                        base
                    }
                }) by {
                    assert(s2.fl_list@[a].sl_list@.len() == s0.fl_list@[a].sl_list@.len());
                    if !(a == fl as int && b == sl as int) {
                        assert(s2.second(a, b) == s0.second(a, b));
                    }
                    if !(a == nf && b == nsl) {
                        assert(s3.second(a, b) == s2.second(a, b));
                        assert(s3b.second(a, b) == s3.second(a, b));
                    }
                }
                assert(s0.same_shape(s4)) by {
                    assert forall|g: int| 0 <= g < s0.fl_list@.len() implies #[trigger] s4.fl_list@[g].sl_list@.len()
                        == s0.fl_list@[g].sl_list@.len() by {
                        assert(s2.fl_list@[g].sl_list@.len() == s0.fl_list@[g].sl_list@.len());
                        assert(s3.fl_list@[g].sl_list@.len() == s2.fl_list@[g].sl_list@.len());
                        assert(s3b.fl_list@[g].sl_list@.len() == s3.fl_list@[g].sl_list@.len());
                    }
                }
                if node.index == node_link {
                    assert(s3b == s3);
                    assert(s2.other_categories_same(s4, nf, nsl)) by {
                        assert(s4.fl_list@ == s3.fl_list@);
                        assert forall|g: int, h: int| s2.has_category(g, h) && (g != nf || h != nsl) implies #[trigger] s4.second(g, h)
                            == s2.second(g, h) by {
                            assert(s3.second(g, h) == s2.second(g, h));
                        }
                        assert forall|g: int| 0 <= g < s2.fl_list@.len() implies #[trigger] s4.fl_list@[g].sl_list@.len()
                            == s2.fl_list@[g].sl_list@.len() by {
                            assert(s3.fl_list@[g].sl_list@.len() == s2.fl_list@[g].sl_list@.len());
                        }
                    }
                    assert(Self::refiled(s0, s2, s2, s4, fl as int, sl as int, link_idx, node_link, nf, nsl));
                }
                assert(s4.linked_list@ =~= s0.linked_list@.update(
                    node_link as int,
                    s4.linked_list@[node_link as int],
                ));
            }
        }
        Ok(())
    }
}

} // verus!
