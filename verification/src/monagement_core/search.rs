use vstd::prelude::*;

verus! {

use vstd::std_specs::bits::u64_trailing_zeros;
use crate::bits::{bit_set, lemma_lowest_bit, lemma_mask_from, lemma_zero_word, lemma_shl_one_pos};
use crate::counting::{seq_sum, lemma_seq_sum_nonneg};
use crate::monagement_core::{MonagementCore, sl_counts};
use crate::monagement_init::SelectorOpt;

impl MonagementCore {
    /// With the selector that scans, the first position from `from` on whose
    /// block holds at least `target`.
    pub open spec fn first_fit(self, nodes: Seq<usize>, target: u64, from: int) -> Option<int>
        decreases nodes.len() - from,
    {
        if from < 0 || from >= nodes.len() {
            None
        } else if self.node(nodes[from] as int).size >= target {
            Some(from)
        } else {
            self.first_fit(nodes, target, from + 1)
        }
    }

    /// The position in the list of category `(fl, sl)` of the block that the
    /// selector takes for a request of `target`: the first block when it is
    /// large enough (direct), or the first large enough block (scanning).
    pub open spec fn pick(self, fl: int, sl: int, target: u64) -> Option<int> {
        if !self.has_category(fl, sl) {
            None
        } else {
            let nodes = self.cat_nodes(fl, sl);
            match self.selector_option {
                SelectorOpt::DIRECT => {
                    if nodes.len() > 0 && self.node(nodes[0] as int).size >= target {
                        Some(0)
                    } else {
                        None
                    }
                },
                SelectorOpt::SCANNING => self.first_fit(nodes, target, 0),
            }
        }
    }

    /// The first category `(fl, s)` with `s >= sl` where the selector takes a
    /// block, with the block's position in the list.
    pub open spec fn search_sl(self, fl: int, sl: int, target: u64) -> Option<(int, int)>
        decreases 64 - sl,
    {
        if sl >= 64 {
            None
        } else {
            match self.pick(fl, sl, target) {
                Some(p) => Some((sl, p)),
                None => self.search_sl(fl, sl + 1, target),
            }
        }
    }

    /// The first category at or after `(fl, sl)`, in the order of first then
    /// second level, where the selector takes a block.
    pub open spec fn search_fl(self, fl: int, sl: int, target: u64) -> Option<(int, int, int)>
        decreases 64 - fl,
    {
        if fl >= 64 {
            None
        } else {
            match self.search_sl(fl, sl, target) {
                Some((s, p)) => Some((fl, s, p)),
                None => self.search_fl(fl + 1, 0, target),
            }
        }
    }

    /// Where a request of `target` is served: the first category from the
    /// request's own category on where the selector takes a block, with the
    /// block's position in that category's list.
    pub open spec fn search(self, target: u64) -> Option<(int, int, int)> {
        self.search_fl(self.category(target).0 as int, self.category(target).1 as int, target)
    }

    /// The position, in its category's list, of the block that serves `target`.
    pub open spec fn found_pos(self, target: u64) -> int {
        let (_fl, _sl, p) = self.search(target)->0;
        p
    }

    /// No category of first level `fl` holds a block.
    pub open spec fn fl_empty(self, fl: int) -> bool {
        forall|sl: int| self.has_category(fl, sl) ==> #[trigger] self.second(fl, sl).slots@.len() == 0
    }

    pub proof fn lemma_search_sl_empty(self, fl: int, sl: int, target: u64)
        requires
            forall|s: int| sl <= s && self.has_category(fl, s) ==> #[trigger] self.second(fl, s).slots@.len() == 0,
        ensures
            self.search_sl(fl, sl, target) is None,
        decreases 64 - sl,
    {
        if sl < 64 {
            if self.has_category(fl, sl) {
                assert(self.second(fl, sl).slots@.len() == 0);
            }
            self.lemma_search_sl_empty(fl, sl + 1, target);
        }
    }

    pub proof fn lemma_search_fl_skip(self, a: int, b: int, sl: int, target: u64)
        requires
            a < b <= 64,
            forall|f: int| a <= f < b ==> #[trigger] self.fl_empty(f),
        ensures
            self.search_fl(a, sl, target) == self.search_fl(b, 0, target),
        decreases b - a,
    {
        assert(self.fl_empty(a));
        self.lemma_search_sl_empty(a, sl, target);
        if a + 1 < b {
            self.lemma_search_fl_skip(a + 1, b, 0, target);
        }
    }

    pub proof fn lemma_search_fl_none(self, a: int, sl: int, target: u64)
        requires
            a <= 64,
            forall|f: int| a <= f < 64 ==> #[trigger] self.fl_empty(f),
        ensures
            self.search_fl(a, sl, target) is None,
        decreases 64 - a,
    {
        if a < 64 {
            assert(self.fl_empty(a));
            self.lemma_search_sl_empty(a, sl, target);
            self.lemma_search_fl_none(a + 1, 0, target);
        }
    }

    /// A first-level class whose bit is clear holds no block.
    pub proof fn lemma_clear_fl_bit_empty(self, fl: u64)
        requires
            self.levels_wf(),
            fl < 64,
            !bit_set(self.bitmap, fl),
        ensures
            self.fl_empty(fl as int),
    {
        if fl < self.fl_list@.len() {
            assert(self.first_level_ok(fl as int));
            let first = self.fl_list@[fl as int];
            let c = sl_counts(first.sl_list@);
            lemma_seq_sum_nonneg(c);
            assert forall|sl: int| self.has_category(fl as int, sl) implies #[trigger] self.second(
                fl as int,
                sl,
            ).slots@.len() == 0 by {
                assert(c[sl] == 0);
                assert(first.sl_list@[sl].wf());
            }
        }
    }

    /// A second-level class whose bit is clear holds no block.
    pub proof fn lemma_clear_sl_bit_empty(self, fl: int, sl: u64)
        requires
            self.levels_wf(),
            0 <= fl < self.fl_list@.len(),
            sl < 64,
            !bit_set(self.fl_list@[fl].bitmap, sl),
        ensures
            self.has_category(fl, sl as int) ==> self.second(fl, sl as int).slots@.len() == 0,
    {
        assert(self.first_level_ok(fl));
        if self.has_category(fl, sl as int) {
            assert(self.fl_list@[fl].sl_list@[sl as int].wf());
        }
    }

    /// When all positions before `k` hold blocks that are too small, the
    /// first fit from the start is the first fit from `k`.
    proof fn lemma_first_fit_from(self, nodes: Seq<usize>, target: u64, k: int)
        requires
            0 <= k <= nodes.len(),
            forall|j: int| 0 <= j < k ==> #[trigger] self.node(nodes[j] as int).size < target,
        ensures
            self.first_fit(nodes, target, 0) == self.first_fit(nodes, target, k),
        decreases k,
    {
        if k > 0 {
            self.lemma_first_fit_from(nodes, target, k - 1);
            assert(self.node(nodes[k - 1] as int).size < target);
        }
    }

    /// Scans the list of category `(fl, sl)` as the selector does: returns the
    /// slot and the block that it takes, if any.
    fn search_second_level(&self, fl: usize, sl: usize, target: u64) -> (r: Option<(usize, usize)>)
        requires
            self.wf(),
            self.has_category(fl as int, sl as int),
        ensures
            match r {
                None => self.pick(fl as int, sl as int, target) is None,
                Some((slot, n)) => {
                    &&& self.pick(fl as int, sl as int, target) is Some
                    &&& self.second(fl as int, sl as int).slots@[self.pick(fl as int, sl as int, target)->0]
                        == slot
                    &&& self.cat_nodes(fl as int, sl as int)[self.pick(fl as int, sl as int, target)->0]
                        == n
                    &&& self.live(n as int)
                    &&& self.node(n as int).size >= target
                },
            },
    {
        let second_level = &self.fl_list[fl].sl_list[sl];
        let ghost l = second_level.slots@;
        let ghost nodes = self.cat_nodes(fl as int, sl as int);
        proof {
            assert(self.first_level_ok(fl as int));
            assert(second_level.wf());
        }
        if let (Some(head_idx), Some(_bottom_idx)) = (second_level.head_link, second_level.end_link) {
            let mut second_link_list_idx = head_idx;
            let ghost mut k: int = 0;
            loop
                invariant
                    self.wf(),
                    self.has_category(fl as int, sl as int),
                    second_level == &self.fl_list@[fl as int].sl_list@[sl as int],
                    second_level.wf(),
                    l == second_level.slots@,
                    nodes == self.cat_nodes(fl as int, sl as int),
                    l.len() > 0,
                    0 <= k < l.len(),
                    second_link_list_idx == l[k],
                    self.selector_option == SelectorOpt::DIRECT ==> k == 0,
                    forall|j: int| 0 <= j < k ==> #[trigger] self.node(nodes[j] as int).size < target,
                decreases l.len() - k,
            {
                proof {
                    assert(second_level.link_ok(k));
                    assert(self.link_target_ok(fl as int, sl as int, k));
                }
                let second_link_list = second_level.link_list[second_link_list_idx].unwrap();
                let link_idx = second_link_list.node_link;
                let free_node = self.linked_list[link_idx].unwrap();
                proof {
                    assert(nodes[k] == link_idx);
                    self.lemma_first_fit_from(nodes, target, k);
                }
                if free_node.size < target {
                    if let SelectorOpt::DIRECT = self.selector_option {
                        return None;
                    } else if let Some(front_idx) = second_link_list.front {
                        second_link_list_idx = front_idx;
                        proof {
                            k = k + 1;
                        }
                        continue ;
                    } else {
                        proof {
                            self.lemma_first_fit_from(nodes, target, l.len() as int);
                        }
                        return None;
                    }
                }
                return Some((second_link_list.index, link_idx));
            }
        } else {
            None
        }
    }

    /// Walks the categories from the request's own on, through the bitmaps,
    /// and returns the category, slot and block that the request is served
    /// from, if any.
    pub(crate) fn search_free_node(&self, target: u64, fl_target: u64, sl_target: u64) -> (r: Option<
        (usize, usize, usize, usize),
    >)
        requires
            self.wf(),
            target > 0,
            (fl_target, sl_target) == self.category(target),
        ensures
            match r {
                None => self.search(target) is None,
                Some((fl, sl, slot, n)) => {
                    &&& self.search(target) is Some
                    &&& self.search(target) == Some((fl as int, sl as int, self.found_pos(target)))
                    &&& self.has_category(fl as int, sl as int)
                    &&& self.second(fl as int, sl as int).slots@[self.found_pos(target)] == slot
                    &&& self.cat_nodes(fl as int, sl as int)[self.found_pos(target)] == n
                    &&& 0 <= self.found_pos(target) < self.cat_nodes(fl as int, sl as int).len()
                    &&& self.live(n as int)
                    &&& self.node(n as int).size >= target
                },
            },
    {
        proof {
            self.lemma_table_bounds();
            crate::tools::lemma_category_bounds(target, self.minimum_size_raw);
            lemma_shl_one_pos(fl_target);
            lemma_shl_one_pos(sl_target);
        }
        let mut mask_first_level_map = self.bitmap & !((1u64 << fl_target) - 1);
        let ghost mut next_fl: int = fl_target as int;
        proof {
            assert forall|j: u64| j < 64 implies (#[trigger] bit_set(mask_first_level_map, j) <==> (j
                >= next_fl && bit_set(self.bitmap, j))) by {
                lemma_mask_from(self.bitmap, fl_target, j);
            }
        }
        loop
            invariant
                self.wf(),
                fl_target < 64,
                sl_target < 64,
                (fl_target, sl_target) == self.category(target),
                fl_target <= next_fl <= 64,
                1u64 << sl_target >= 1u64,
                self.fl_list@.len() <= 64,
                forall|j: u64|
                    j < 64 ==> (#[trigger] bit_set(mask_first_level_map, j) <==> (j >= next_fl && bit_set(
                        self.bitmap,
                        j,
                    ))),
                self.search(target) == self.search_fl(
                    next_fl,
                    if next_fl == fl_target { sl_target as int } else { 0 },
                    target,
                ),
            decreases 64 - next_fl,
        {
            let fl_idx = mask_first_level_map.trailing_zeros() as u64;
            if fl_idx == 64 {
                proof {
                    assert forall|f: int| next_fl <= f < 64 implies #[trigger] self.fl_empty(f) by {
                        if mask_first_level_map != 0 {
                            lemma_lowest_bit(mask_first_level_map);
                        }
                        lemma_zero_word(f as u64);
                        assert(!bit_set(mask_first_level_map, f as u64));
                        self.lemma_clear_fl_bit_empty(f as u64);
                    }
                    self.lemma_search_fl_none(
                        next_fl,
                        if next_fl == fl_target { sl_target as int } else { 0 },
                        target,
                    );
                }
                return None;
            }
            proof {
                if mask_first_level_map == 0 {
                    vstd::std_specs::bits::axiom_u64_trailing_zeros(0);
                }
                lemma_lowest_bit(mask_first_level_map);
                assert(bit_set(mask_first_level_map, fl_idx));
                assert forall|f: int| next_fl <= f < fl_idx implies #[trigger] self.fl_empty(f) by {
                    assert(!bit_set(mask_first_level_map, f as u64));
                    self.lemma_clear_fl_bit_empty(f as u64);
                }
                if next_fl < fl_idx {
                    self.lemma_search_fl_skip(
                        next_fl,
                        fl_idx as int,
                        if next_fl == fl_target { sl_target as int } else { 0 },
                        target,
                    );
                }
                assert(fl_idx < self.fl_list@.len());
            }
            let searching_from_zero = fl_target == fl_idx;
            let first_level = &self.fl_list[fl_idx as usize];
            let ghost sl_start: int = if searching_from_zero { sl_target as int } else { 0 };
            let mut mask_second_level_map = if searching_from_zero {
                first_level.bitmap & !((1u64 << sl_target) - 1)
            } else {
                first_level.bitmap
            };
            let ghost mut next_sl: int = sl_start;
            let ghost fl_search = self.search(target);
            proof {
                assert(fl_search == self.search_fl(fl_idx as int, sl_start, target));
            }
            proof {
                assert forall|j: u64| j < 64 implies (#[trigger] bit_set(mask_second_level_map, j) <==> (j
                    >= next_sl && bit_set(first_level.bitmap, j))) by {
                    if searching_from_zero {
                        lemma_mask_from(first_level.bitmap, sl_target, j);
                    }
                }
            }
            loop
                invariant
                    self.wf(),
                    fl_idx < self.fl_list@.len(),
                    first_level == &self.fl_list@[fl_idx as int],
                    self.fl_list@.len() <= 64,
                    0 <= next_sl <= 64,
                    forall|j: u64|
                        j < 64 ==> (#[trigger] bit_set(mask_second_level_map, j) <==> (j >= next_sl
                            && bit_set(first_level.bitmap, j))),
                    self.search_sl(fl_idx as int, sl_start, target) == self.search_sl(
                        fl_idx as int,
                        next_sl,
                        target,
                    ),
                    fl_search == self.search(target),
                    fl_search == self.search_fl(fl_idx as int, sl_start, target),
                ensures
                    self.search_sl(fl_idx as int, sl_start, target) is None,
                decreases 64 - next_sl,
            {
                let sl_idx = mask_second_level_map.trailing_zeros() as u64;
                if sl_idx == 64 {
                    proof {
                        if mask_second_level_map != 0 {
                            lemma_lowest_bit(mask_second_level_map);
                        }
                        assert(self.first_level_ok(fl_idx as int));
                        self.lemma_table_bounds();
                        assert forall|s: int| next_sl <= s && self.has_category(
                            fl_idx as int,
                            s,
                        ) implies #[trigger] self.second(fl_idx as int, s).slots@.len() == 0 by {
                            lemma_zero_word(s as u64);
                            assert(!bit_set(mask_second_level_map, s as u64));
                            self.lemma_clear_sl_bit_empty(fl_idx as int, s as u64);
                        }
                        self.lemma_search_sl_empty(fl_idx as int, next_sl, target);
                    }
                    break ;
                }
                proof {
                    if mask_second_level_map == 0 {
                        vstd::std_specs::bits::axiom_u64_trailing_zeros(0);
                    }
                    lemma_lowest_bit(mask_second_level_map);
                    assert(bit_set(mask_second_level_map, sl_idx));
                    assert forall|s: int| next_sl <= s < sl_idx && self.has_category(
                        fl_idx as int,
                        s,
                    ) implies #[trigger] self.second(fl_idx as int, s).slots@.len() == 0 by {
                        assert(!bit_set(mask_second_level_map, s as u64));
                        self.lemma_clear_sl_bit_empty(fl_idx as int, s as u64);
                    }
                    self.lemma_search_sl_skip(fl_idx as int, next_sl, sl_idx as int, target);
                    assert(self.first_level_ok(fl_idx as int));
                    assert(bit_set(self.fl_list@[fl_idx as int].bitmap, sl_idx));
                    assert(sl_idx < self.second_level_count);
                    assert(self.has_category(fl_idx as int, sl_idx as int));
                    assert((fl_idx as usize) as int == fl_idx as int);
                    assert((sl_idx as usize) as int == sl_idx as int);
                }
                match self.search_second_level(fl_idx as usize, sl_idx as usize, target) {
                    Some((slot, n)) => {
                        proof {
                            assert(self.search_sl(fl_idx as int, sl_idx as int, target) == Some(
                                (sl_idx as int, self.pick(fl_idx as int, sl_idx as int, target)->0),
                            ));
                            let p = self.pick(fl_idx as int, sl_idx as int, target)->0;
                            let nodes = self.cat_nodes(fl_idx as int, sl_idx as int);
                            if self.selector_option == SelectorOpt::SCANNING {
                                self.lemma_first_fit_range(nodes, target, 0);
                            }
                            assert(self.search_sl(fl_idx as int, sl_start, target) == Some((sl_idx as int, p)));
                            assert(fl_idx < 64);
                            assert(self.search_fl(fl_idx as int, sl_start, target) == Some(
                                (fl_idx as int, sl_idx as int, p),
                            ));
                            assert(self.found_pos(target) == p);
                        }
                        return Some((fl_idx as usize, sl_idx as usize, slot, n));
                    },
                    None => {},
                }
                proof {
                    lemma_lowest_bit(mask_second_level_map);
                    assert forall|j: u64| j < 64 implies (#[trigger] bit_set(
                        mask_second_level_map & (mask_second_level_map - 1u64) as u64,
                        j,
                    ) <==> (j >= sl_idx + 1 && bit_set(first_level.bitmap, j))) by {
                        assert(bit_set(mask_second_level_map, j) <==> (j >= next_sl && bit_set(
                            first_level.bitmap,
                            j,
                        )));
                    }
                    assert(self.search_sl(fl_idx as int, sl_idx as int, target) == self.search_sl(
                        fl_idx as int,
                        sl_idx + 1,
                        target,
                    ));
                }
                mask_second_level_map = mask_second_level_map & (mask_second_level_map - 1);
                proof {
                    next_sl = sl_idx + 1;
                }
            }
            proof {
                assert(mask_first_level_map != 0);
                lemma_lowest_bit(mask_first_level_map);
                assert forall|j: u64| j < 64 implies (#[trigger] bit_set(
                    mask_first_level_map & (mask_first_level_map - 1u64) as u64,
                    j,
                ) <==> (j >= fl_idx + 1 && bit_set(self.bitmap, j))) by {
                    assert(bit_set(mask_first_level_map, j) <==> (j >= next_fl && bit_set(self.bitmap, j)));
                }
                assert(self.search_fl(fl_idx as int, sl_start, target) == self.search_fl(
                    fl_idx + 1,
                    0,
                    target,
                ));
            }
            mask_first_level_map = mask_first_level_map & (mask_first_level_map - 1);
            proof {
                next_fl = fl_idx + 1;
            }
        }
    }

    pub proof fn lemma_search_sl_skip(self, fl: int, a: int, b: int, target: u64)
        requires
            0 <= a <= b < 64,
            forall|s: int| a <= s < b && self.has_category(fl, s) ==> #[trigger] self.second(fl, s).slots@.len() == 0,
        ensures
            self.search_sl(fl, a, target) == self.search_sl(fl, b, target),
        decreases b - a,
    {
        if a < b {
            if self.has_category(fl, a) {
                assert(self.second(fl, a).slots@.len() == 0);
            }
            self.lemma_search_sl_skip(fl, a + 1, b, target);
        }
    }

    proof fn lemma_first_fit_range(self, nodes: Seq<usize>, target: u64, from: int)
        requires
            0 <= from,
        ensures
            self.first_fit(nodes, target, from) matches Some(p) ==> from <= p < nodes.len()
                && self.node(nodes[p] as int).size >= target,
        decreases nodes.len() - from,
    {
        if from < nodes.len() && self.node(nodes[from] as int).size < target {
            self.lemma_first_fit_range(nodes, target, from + 1);
        }
    }
    /// A position that the selector picks lies in its category's list and
    /// names a block that holds the request.
    proof fn lemma_pick_found(self, fl: int, sl: int, target: u64)
        ensures
            self.pick(fl, sl, target) matches Some(p) ==> {
                &&& self.has_category(fl, sl)
                &&& 0 <= p < self.cat_nodes(fl, sl).len()
                &&& self.node(self.cat_nodes(fl, sl)[p] as int).size >= target
            },
    {
        if self.has_category(fl, sl) {
            self.lemma_first_fit_range(self.cat_nodes(fl, sl), target, 0);
        }
    }

    proof fn lemma_search_sl_found(self, fl: int, sl: int, target: u64)
        ensures
            self.search_sl(fl, sl, target) matches Some((s, p)) ==> self.pick(fl, s, target) == Some(p),
        decreases 64 - sl,
    {
        if sl < 64 && self.pick(fl, sl, target) is None {
            self.lemma_search_sl_found(fl, sl + 1, target);
        }
    }

    proof fn lemma_search_fl_found(self, fl: int, sl: int, target: u64)
        ensures
            self.search_fl(fl, sl, target) matches Some((f, s, p)) ==> self.pick(f, s, target) == Some(p),
        decreases 64 - fl,
    {
        if fl < 64 {
            self.lemma_search_sl_found(fl, sl, target);
            if self.search_sl(fl, sl, target) is None {
                self.lemma_search_fl_found(fl + 1, 0, target);
            }
        }
    }

    /// Where a request is served, the category exists, the position lies in
    /// its list, and the block there holds the request.
    pub proof fn lemma_search_found(self, target: u64)
        requires
            self.search(target) is Some,
        ensures
            ({
                let (fl, sl, p) = self.search(target)->0;
                &&& self.has_category(fl, sl)
                &&& 0 <= p < self.cat_nodes(fl, sl).len()
                &&& self.node(self.cat_nodes(fl, sl)[p] as int).size >= target
            }),
    {
        let (fl, sl) = self.category(target);
        self.lemma_search_fl_found(fl as int, sl as int, target);
        let (f, s, p) = self.search(target)->0;
        self.lemma_pick_found(f, s, target);
    }
}

} // verus!
