use vstd::prelude::*;

verus! {

use crate::bits::{bit_set, lemma_set_bit, lemma_clear_bit};
use crate::counting::{seq_sum, lemma_seq_sum_update, lemma_seq_sum_nonneg};
use crate::level_core::SecondLevel;
use crate::monagement_core::{MonagementCore, fl_counts, sl_counts};
use crate::node_core::{Node, NodeStatus, SlIdx};

impl MonagementCore {
    /// Takes the link in slot `sl_idx` out of category `(fl, sl)`, and clears
    /// the category's bit, and the first-level bit, when they become empty.
    pub fn clean_free_node_in_fl_sl(&mut self, fl: usize, sl: usize, sl_idx: usize) -> (r: Result<(), String>)
        requires
            old(self).levels_wf(),
            old(self).has_category(fl as int, sl as int),
            sl_idx < old(self).second(fl as int, sl as int).link_list@.len(),
            old(self).second(fl as int, sl as int).link_list@[sl_idx as int] is Some,
        ensures
            r is Ok,
            final(self).levels_wf(),
            final(self).same_blocks(*old(self)),
            old(self).other_categories_same(*final(self), fl as int, sl as int),
            old(self).second(fl as int, sl as int).slots@.contains(sl_idx),
            final(self).second(fl as int, sl as int).slots@ == old(self).second(
                fl as int,
                sl as int,
            ).slots@.remove(old(self).second(fl as int, sl as int).slots@.index_of(sl_idx)),
            final(self).second(fl as int, sl as int).link_list@.len() == old(self).second(
                fl as int,
                sl as int,
            ).link_list@.len(),
            final(self).second(fl as int, sl as int).link_list@[sl_idx as int] is None,
            old(self).second(fl as int, sl as int).links_kept(
                final(self).second(fl as int, sl as int),
                sl_idx as int,
            ),
            final(self).second(fl as int, sl as int).free_link_list@ == old(self).second(
                fl as int,
                sl as int,
            ).free_link_list@.push(sl_idx),
            final(self).free_total() == old(self).free_total() - 1,
            final(self).cat_nodes(fl as int, sl as int) == old(self).cat_nodes(fl as int, sl as int).remove(
                old(self).second(fl as int, sl as int).slots@.index_of(sl_idx),
            ),
    {
        proof {
            self.lemma_table_bounds();
            assert(self.first_level_ok(fl as int));
            assert(self.fl_list@[fl as int].sl_list@[sl as int].wf());
        }
        let ghost old_first = self.fl_list@[fl as int];
        self.fl_list[fl].sl_list[sl].unlink(sl_idx);
        let ghost new_second = self.fl_list@[fl as int].sl_list@[sl as int];
        if self.fl_list[fl].sl_list[sl].count == 0 {
            self.fl_list[fl].bitmap = self.fl_list[fl].bitmap & !(1u64 << sl as u64);
        }
        proof {
            let old_counts = sl_counts(old_first.sl_list@);
            lemma_seq_sum_nonneg(old_counts);
            assert(old_counts[sl as int] >= 1);
            lemma_seq_sum_update(old_counts, sl as int, old_counts[sl as int] - 1);
            assert(sl_counts(self.fl_list@[fl as int].sl_list@) =~= old_counts.update(
                sl as int,
                old_counts[sl as int] - 1,
            ));
        }
        self.fl_list[fl].count = self.fl_list[fl].count - 1;
        if self.fl_list[fl].count == 0 {
            self.bitmap = self.bitmap & !(1u64 << fl as u64);
        }
        proof {
            let first = self.fl_list@[fl as int];
            let n = self.second_level_count as int;
            assert forall|s: int| 0 <= s < n implies #[trigger] first.sl_list@[s].wf() by {
                if s != sl as int {
                    assert(old_first.sl_list@[s].wf());
                }
            }
            assert forall|s: u64| s < 64 implies (#[trigger] bit_set(first.bitmap, s) <==> (s < n
                && first.sl_list@[s as int].count > 0)) by {
                assert(bit_set(old_first.bitmap, s) <==> (s < n && old_first.sl_list@[s as int].count > 0));
                lemma_clear_bit(old_first.bitmap, sl as u64, s);
            }
            assert(self.first_level_ok(fl as int));
            assert forall|f: int| 0 <= f < self.fl_list@.len() implies #[trigger] self.first_level_ok(f) by {
                if f != fl as int {
                    assert(old(self).first_level_ok(f));
                }
            }
            let old_top = old(self).fl_list@;
            assert forall|f: u64| f < 64 implies (#[trigger] bit_set(self.bitmap, f) <==> (f
                < self.fl_list@.len() && self.fl_list@[f as int].count > 0)) by {
                assert(bit_set(old(self).bitmap, f) <==> (f < old_top.len() && old_top[f as int].count > 0));
                lemma_clear_bit(old(self).bitmap, fl as u64, f);
            }
            let old_fc = fl_counts(old_top);
            lemma_seq_sum_update(old_fc, fl as int, old_fc[fl as int] - 1);
            assert(fl_counts(self.fl_list@) =~= old_fc.update(fl as int, old_fc[fl as int] - 1));
        }
        Ok(())
    }

    /// Files the free block `free_node_idx` at the end of category `(fl, sl)`
    /// and records the category and link slot in its status.
    pub(crate) fn update_via_fl_sl_counter(&mut self, fl: u64, sl: u64, free_node_idx: usize)
        requires
            old(self).levels_wf(),
            old(self).has_category(fl as int, sl as int),
            old(self).live(free_node_idx as int),
            old(self).free_total() < u64::MAX,
        ensures
            final(self).levels_wf(),
            old(self).other_categories_same(*final(self), fl as int, sl as int),
            final(self).free_linked_list_index@ == old(self).free_linked_list_index@,
            final(self).order@ == old(self).order@,
            final(self).same_config(*old(self)),
            final(self).linked_list@ == old(self).linked_list@.update(
                free_node_idx as int,
                Some(
                    Node {
                        status: NodeStatus::Free(
                            fl,
                            sl,
                            SlIdx(old(self).second(fl as int, sl as int).next_slot()),
                        ),
                        ..old(self).node(free_node_idx as int)
                    },
                ),
            ),
            ({
                let before = old(self).second(fl as int, sl as int);
                let after = final(self).second(fl as int, sl as int);
                let slot = before.next_slot();
                &&& !before.slots@.contains(slot)
                &&& after.slots@ == before.slots@.push(slot)
                &&& after.link_list@.len() == (if before.free_link_list@.len() > 0 {
                    before.link_list@.len()
                } else {
                    before.link_list@.len() + 1
                })
                &&& after.free_link_list@ == (if before.free_link_list@.len() > 0 {
                    before.free_link_list@.drop_last()
                } else {
                    before.free_link_list@
                })
                &&& slot < after.link_list@.len()
                &&& after.link_list@[slot as int] is Some
                &&& after.link(slot as int).node_link == free_node_idx
                &&& before.links_kept(after, slot as int)
            }),
            final(self).free_total() == old(self).free_total() + 1,
            final(self).cat_nodes(fl as int, sl as int) == old(self).cat_nodes(fl as int, sl as int).push(
                free_node_idx,
            ),
    {
        proof {
            self.lemma_table_bounds();
            assert(self.first_level_ok(fl as int));
        }
        let f = fl as usize;
        let s = sl as usize;
        let ghost old_first = self.fl_list@[f as int];
        proof {
            assert(self.first_level_ok(f as int));
            let fc = fl_counts(self.fl_list@);
            lemma_seq_sum_nonneg(fc);
            assert(fc[f as int] == old_first.count);
            let sc = sl_counts(old_first.sl_list@);
            lemma_seq_sum_nonneg(sc);
            assert(sc[s as int] == old_first.sl_list@[s as int].count);
            assert(old_first.sl_list@[s as int].wf());
        }
        self.bitmap = self.bitmap | (1u64 << fl);
        self.fl_list[f].count = self.fl_list[f].count + 1;
        self.fl_list[f].bitmap = self.fl_list[f].bitmap | (1u64 << sl);
        let sl_index = self.fl_list[f].sl_list[s].append(free_node_idx);
        let mut node = self.linked_list[free_node_idx].unwrap();
        node.status = NodeStatus::Free(fl, sl, SlIdx(sl_index));
        self.linked_list.set(free_node_idx, Some(node));
        proof {
            let first = self.fl_list@[f as int];
            let n = self.second_level_count as int;
            let old_counts = sl_counts(old_first.sl_list@);
            lemma_seq_sum_update(old_counts, s as int, old_counts[s as int] + 1);
            assert(sl_counts(first.sl_list@) =~= old_counts.update(s as int, old_counts[s as int] + 1));
            assert forall|k: int| 0 <= k < n implies #[trigger] first.sl_list@[k].wf() by {
                if k != s as int {
                    assert(old_first.sl_list@[k].wf());
                }
            }
            assert forall|k: u64| k < 64 implies (#[trigger] bit_set(first.bitmap, k) <==> (k < n
                && first.sl_list@[k as int].count > 0)) by {
                assert(bit_set(old_first.bitmap, k) <==> (k < n && old_first.sl_list@[k as int].count > 0));
                lemma_set_bit(old_first.bitmap, sl, k);
            }
            assert(self.first_level_ok(f as int));
            assert forall|g: int| 0 <= g < self.fl_list@.len() implies #[trigger] self.first_level_ok(g) by {
                if g != f as int {
                    assert(old(self).first_level_ok(g));
                }
            }
            let old_top = old(self).fl_list@;
            assert forall|g: u64| g < 64 implies (#[trigger] bit_set(self.bitmap, g) <==> (g
                < self.fl_list@.len() && self.fl_list@[g as int].count > 0)) by {
                assert(bit_set(old(self).bitmap, g) <==> (g < old_top.len() && old_top[g as int].count > 0));
                lemma_set_bit(old(self).bitmap, fl, g);
            }
            let old_fc = fl_counts(old_top);
            lemma_seq_sum_update(old_fc, f as int, old_fc[f as int] + 1);
            assert(fl_counts(self.fl_list@) =~= old_fc.update(f as int, old_fc[f as int] + 1));
        }
    }

    /// Empties entry `idx` of the block list and keeps it for reuse, without
    /// looking at what it held.
    pub fn clean_node_in_linked_list_unchecked(&mut self, idx: usize)
        requires
            idx < old(self).linked_list@.len(),
        ensures
            final(self).linked_list@ == old(self).linked_list@.update(idx as int, None),
            final(self).free_linked_list_index@ == old(self).free_linked_list_index@.push(idx),
            final(self).fl_list@ == old(self).fl_list@,
            final(self).bitmap == old(self).bitmap,
            final(self).order@ == old(self).order@,
            final(self).same_config(*old(self)),
    {
        self.linked_list.set(idx, None);
        self.free_linked_list_index.push(idx);
    }

    /// Empties entry `idx` of the block list, which must hold a block, and
    /// keeps it for reuse.
    pub fn clean_node_in_linked_list(&mut self, idx: usize) -> (r: Result<(), String>)
        requires
            old(self).live(idx as int),
        ensures
            r is Ok,
            final(self).linked_list@ == old(self).linked_list@.update(idx as int, None),
            final(self).free_linked_list_index@ == old(self).free_linked_list_index@.push(idx),
            final(self).fl_list@ == old(self).fl_list@,
            final(self).bitmap == old(self).bitmap,
            final(self).order@ == old(self).order@,
            final(self).same_config(*old(self)),
    {
        self.linked_list.set(idx, None);
        self.free_linked_list_index.push(idx);
        Ok(())
    }
}

} // verus!
