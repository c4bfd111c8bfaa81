use vstd::prelude::*;

verus! {

use crate::monagement_core::MonagementCore;
use crate::node_core::{NodeStatus, SlIdx};

impl MonagementCore {
    /// The links are right, save that the blocks in `gone` are no longer
    /// filed (no link names them, and they need not be registered).
    pub open spec fn links_wf_except(self, gone: Set<usize>) -> bool {
        &&& forall|fl: int, sl: int, k: int|
            self.has_category(fl, sl) && 0 <= k < self.second(fl, sl).slots@.len() ==> {
                &&& #[trigger] self.link_target_ok(fl, sl, k)
                &&& !gone.contains(
                    self.second(fl, sl).link(self.second(fl, sl).slots@[k] as int).node_link,
                )
            }
        &&& forall|i: int| self.live(i) && !gone.contains(i as usize) ==> #[trigger] self.registered(i)
    }

    pub proof fn lemma_links_except_empty(self)
        requires
            self.links_wf(),
        ensures
            self.links_wf_except(Set::empty()),
    {
    }

    pub proof fn lemma_links_except_done(self, gone: Set<usize>)
        requires
            self.links_wf_except(gone),
            forall|i: int| #[trigger] self.live(i) ==> !gone.contains(i as usize),
        ensures
            self.links_wf(),
    {
        assert forall|i: int| self.live(i) implies #[trigger] self.registered(i) by {
            assert(!gone.contains(i as usize));
        }
    }

    /// Taking the link in `slot` of `(fl, sl)` out of its list leaves the block
    /// that it named unfiled.
    pub proof fn lemma_links_clean(self, new: Self, gone: Set<usize>, fl: int, sl: int, slot: usize)
        requires
            self.links_wf_except(gone),
            self.levels_wf(),
            new.levels_wf(),
            self.has_category(fl, sl),
            self.second(fl, sl).slots@.contains(slot),
            self.other_categories_same(new, fl, sl),
            new.second(fl, sl).slots@ == self.second(fl, sl).slots@.remove(
                self.second(fl, sl).slots@.index_of(slot),
            ),
            self.second(fl, sl).links_kept(new.second(fl, sl), slot as int),
            new.second(fl, sl).link_list@.len() == self.second(fl, sl).link_list@.len(),
            new.linked_list@ == self.linked_list@,
            new.same_config(self),
        ensures
            new.links_wf_except(gone.insert(self.second(fl, sl).link(slot as int).node_link)),
    {
        let l = self.second(fl, sl).slots@;
        let p = l.index_of(slot);
        let m = self.second(fl, sl).link(slot as int).node_link;
        let g2 = gone.insert(m);
        assert(l.contains(slot));
        assert(l[p] == slot);
        self.lemma_table_bounds();
        assert(self.first_level_ok(fl));
        assert(self.second(fl, sl).wf());
        assert(self.link_target_ok(fl, sl, p));
        assert forall|a: int, b: int, k: int|
            new.has_category(a, b) && 0 <= k < new.second(a, b).slots@.len() implies {
                &&& #[trigger] new.link_target_ok(a, b, k)
                &&& !g2.contains(new.second(a, b).link(new.second(a, b).slots@[k] as int).node_link)
            } by {
            assert(new.fl_list@[a].sl_list@.len() == self.fl_list@[a].sl_list@.len());
            assert(self.has_category(a, b));
            if a == fl && b == sl {
                let k0 = if k < p { k } else { k + 1 };
                assert(new.second(a, b).slots@[k] == l[k0]);
                assert(self.second(a, b).link_ok(k0));
                assert(l[k0] != slot);
                assert(self.link_target_ok(a, b, k0));
                let m2 = self.second(a, b).link(l[k0] as int).node_link;
                assert(new.second(a, b).link(l[k0] as int).node_link == m2);
                assert(m2 != m);
            } else {
                assert(new.second(a, b) == self.second(a, b));
                assert(self.link_target_ok(a, b, k));
                assert(self.first_level_ok(a));
                assert(0 <= a < 64 && 0 <= b < 64);
                let m2 = self.second(a, b).link(self.second(a, b).slots@[k] as int).node_link;
                assert(m2 != m);
            }
        }
        assert forall|i: int| new.live(i) && !g2.contains(i as usize) implies #[trigger] new.registered(i) by {
            assert(self.live(i));
            assert(new.linked_list.len() == new.linked_list@.len());
            assert(i as usize != m);
            assert(self.registered(i));
            if let NodeStatus::Free(a, b, SlIdx(sk)) = self.node(i).status {
                let ai = a as int;
                let bi = b as int;
                assert(new.fl_list@[ai].sl_list@.len() == self.fl_list@[ai].sl_list@.len());
                if ai == fl && bi == sl {
                    assert(sk != slot);
                } else {
                    assert(new.second(ai, bi) == self.second(ai, bi));
                }
            }
        }
    }

    /// Changing blocks that are unfiled, or used blocks but for their status,
    /// keeps the links right.
    pub proof fn lemma_links_nodes(self, new: Self, gone: Set<usize>)
        requires
            self.links_wf_except(gone),
            new.fl_list@ == self.fl_list@,
            new.same_config(self),
            forall|i: int|
                !gone.contains(i as usize) ==> (#[trigger] new.live(i) == self.live(i)),
            forall|i: int|
                self.live(i) && !gone.contains(i as usize) ==> (#[trigger] new.node(i).status == self.node(
                    i,
                ).status && (self.node(i).is_free() ==> new.node(i).size == self.node(i).size)),
        ensures
            new.links_wf_except(gone),
    {
        assert forall|a: int, b: int, k: int|
            new.has_category(a, b) && 0 <= k < new.second(a, b).slots@.len() implies {
                &&& #[trigger] new.link_target_ok(a, b, k)
                &&& !gone.contains(new.second(a, b).link(new.second(a, b).slots@[k] as int).node_link)
            } by {
            assert(self.link_target_ok(a, b, k));
            let m = self.second(a, b).link(self.second(a, b).slots@[k] as int).node_link as int;
            assert(self.linked_list.len() == self.linked_list@.len());
            assert((m as usize) as int == m);
            assert(new.live(m) == self.live(m));
            assert(new.node(m).status == self.node(m).status);
            assert(new.second(a, b) == self.second(a, b));
            assert(!gone.contains(new.second(a, b).link(new.second(a, b).slots@[k] as int).node_link));
            assert(new.link_target_ok(a, b, k));
        }
        assert(forall|a: int, b: int, k: int|
            new.has_category(a, b) && 0 <= k < new.second(a, b).slots@.len() ==> {
                &&& #[trigger] new.link_target_ok(a, b, k)
                &&& !gone.contains(new.second(a, b).link(new.second(a, b).slots@[k] as int).node_link)
            });
        assert forall|i: int| new.live(i) && !gone.contains(i as usize) implies #[trigger] new.registered(i) by {
            assert(self.live(i));
            assert(self.registered(i));
            assert(new.node(i).status == self.node(i).status);
            if self.node(i).is_free() {
                assert(new.node(i).size == self.node(i).size);
            }
        }
    }

    /// Filing the used block `x` in `(fl, sl)`, under the category of its
    /// size, keeps the links right.
    pub proof fn lemma_links_file(self, new: Self, gone: Set<usize>, fl: int, sl: int, x: usize)
        requires
            self.links_wf_except(gone),
            self.levels_wf(),
            new.levels_wf(),
            !gone.contains(x),
            self.live(x as int),
            self.node(x as int).status == NodeStatus::Used,
            self.has_category(fl, sl),
            (fl as u64, sl as u64) == self.category(self.node(x as int).size),
            self.other_categories_same(new, fl, sl),
            ({
                let before = self.second(fl, sl);
                let after = new.second(fl, sl);
                let slot = before.next_slot();
                &&& !before.slots@.contains(slot)
                &&& after.slots@ == before.slots@.push(slot)
                &&& slot < after.link_list@.len()
                &&& after.link_list@[slot as int] is Some
                &&& after.link(slot as int).node_link == x
                &&& before.links_kept(after, slot as int)
                &&& after.link_list@.len() >= before.link_list@.len()
            }),
            new.linked_list@ == self.linked_list@.update(
                x as int,
                Some(
                    crate::node_core::Node {
                        status: NodeStatus::Free(fl as u64, sl as u64, SlIdx(self.second(fl, sl).next_slot())),
                        ..self.node(x as int)
                    },
                ),
            ),
            new.same_config(self),
        ensures
            new.links_wf_except(gone),
    {
        let xi = x as int;
        let new_slot = self.second(fl, sl).next_slot();
        self.lemma_table_bounds();
        assert(self.first_level_ok(fl));
        assert(0 <= fl < 64 && 0 <= sl < 64);
        assert(self.linked_list.len() == self.linked_list@.len());
        assert forall|a: int, b: int, k: int|
            new.has_category(a, b) && 0 <= k < new.second(a, b).slots@.len() implies {
                &&& #[trigger] new.link_target_ok(a, b, k)
                &&& !gone.contains(new.second(a, b).link(new.second(a, b).slots@[k] as int).node_link)
            } by {
            assert(new.fl_list@[a].sl_list@.len() == self.fl_list@[a].sl_list@.len());
            assert(self.has_category(a, b));
            if a == fl && b == sl && k == self.second(a, b).slots@.len() {
                assert(new.second(a, b).slots@[k] == new_slot);
            } else {
                let sk = new.second(a, b).slots@[k];
                if a == fl && b == sl {
                    assert(self.second(a, b).slots@[k] == sk);
                    assert(self.first_level_ok(a));
                    assert(self.second(a, b).wf());
                    assert(self.second(a, b).link_ok(k));
                    assert(sk != new_slot);
                    assert(new.second(a, b).link(sk as int).node_link == self.second(a, b).link(sk as int).node_link);
                } else {
                    assert(new.second(a, b) == self.second(a, b));
                }
                assert(self.link_target_ok(a, b, k));
                let m = self.second(a, b).link(sk as int).node_link as int;
                assert(m != xi);
                assert(new.linked_list@[m] == self.linked_list@[m]);
            }
        }
        assert forall|i: int| new.live(i) && !gone.contains(i as usize) implies #[trigger] new.registered(i) by {
            if i == xi {
                assert(new.fl_list@[fl].sl_list@.len() == self.fl_list@[fl].sl_list@.len());
            } else {
                assert(self.live(i));
                assert(self.registered(i));
                if let NodeStatus::Free(a, b, SlIdx(sk)) = self.node(i).status {
                    let ai = a as int;
                    let bi = b as int;
                    assert(new.fl_list@[ai].sl_list@.len() == self.fl_list@[ai].sl_list@.len());
                    if ai == fl && bi == sl {
                        assert(self.first_level_ok(ai));
                        assert(self.second(ai, bi).wf());
                        assert(self.second(ai, bi).slots@.contains(sk));
                        assert(sk != new_slot);
                    } else {
                        assert(new.second(ai, bi) == self.second(ai, bi));
                    }
                }
            }
        }
    }

    /// A filed block appears in its category's list exactly at its slot's
    /// position.
    pub proof fn lemma_filed_unique(self, fl: int, sl: int, i: int, gone: Set<usize>)
        requires
            self.levels_wf(),
            self.links_wf_except(gone),
            self.live(i),
            !gone.contains(i as usize),
            self.node(i).status matches NodeStatus::Free(f, s, _) && f == fl && s == sl,
        ensures
            self.cat_nodes(fl, sl).contains(i as usize),
            self.cat_nodes(fl, sl).index_of(i as usize) == self.second(fl, sl).slots@.index_of(
                self.node(i).status->Free_2.0,
            ),
    {
        assert(self.linked_list.len() == self.linked_list@.len());
        assert(self.registered(i));
        let slot = self.node(i).status->Free_2.0;
        let second = self.second(fl, sl);
        self.lemma_table_bounds();
        assert(self.first_level_ok(fl));
        assert(second.wf());
        assert(second.slots@.contains(slot));
        let p = second.slots@.index_of(slot);
        assert(second.slots@[p] == slot);
        let nodes = self.cat_nodes(fl, sl);
        assert(nodes[p] == i as usize);
        assert(nodes.contains(i as usize));
        let p2 = nodes.index_of(i as usize);
        assert(0 <= p2 < nodes.len() && nodes[p2] == i as usize);
        assert(self.link_target_ok(fl, sl, p2));
        assert(second.slots@[p2] == slot);
    }

    /// A block filed in one category appears in no other category's list.
    pub proof fn lemma_not_filed_elsewhere(self, a: int, b: int, i: int, gone: Set<usize>)
        requires
            self.levels_wf(),
            self.links_wf_except(gone),
            self.has_category(a, b),
            self.live(i),
            self.node(i).status matches NodeStatus::Free(f, s, _) && (f != a || s != b),
        ensures
            !self.cat_nodes(a, b).contains(i as usize),
    {
        assert(self.linked_list.len() == self.linked_list@.len());
        self.lemma_table_bounds();
        assert(self.first_level_ok(a));
        assert(0 <= a < 64 && 0 <= b < 64);
        let nodes = self.cat_nodes(a, b);
        if nodes.contains(i as usize) {
            let p = choose|p: int| 0 <= p < nodes.len() && nodes[p] == i as usize;
            assert(self.link_target_ok(a, b, p));
        }
    }
}

} // verus!
