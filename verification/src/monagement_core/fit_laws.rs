use vstd::prelude::*;

verus! {

use crate::monagement_core::MonagementCore;
use crate::monagement_init::SelectorOpt;

impl MonagementCore {
    /// Category `(fl, sl)` holds a block that the selector takes for a
    /// request of `target`: with the direct selector, the earliest filed
    /// block of the category is large enough; with the scanning selector,
    /// some block of the category is.
    pub open spec fn serves(self, fl: int, sl: int, target: u64) -> bool {
        &&& self.has_category(fl, sl)
        &&& match self.selector_option {
            SelectorOpt::DIRECT => self.cat_nodes(fl, sl).len() > 0 && self.node(
                self.cat_nodes(fl, sl)[0] as int,
            ).size >= target,
            SelectorOpt::SCANNING => exists|k: int|
                0 <= k < self.cat_nodes(fl, sl).len() && #[trigger] self.node(
                    self.cat_nodes(fl, sl)[k] as int,
                ).size >= target,
        }
    }

    /// Category `(fl, sl)` comes at or after the category of `size`, first
    /// level first, then second level.
    pub open spec fn at_or_after(self, fl: int, sl: int, size: u64) -> bool {
        let (f, s) = self.category(size);
        fl > f || (fl == f && sl >= s)
    }

    proof fn lemma_first_fit_exists(self, nodes: Seq<usize>, target: u64, from: int)
        requires
            0 <= from,
        ensures
            self.first_fit(nodes, target, from) is Some <==> exists|k: int|
                from <= k < nodes.len() && #[trigger] self.node(nodes[k] as int).size >= target,
        decreases nodes.len() - from,
    {
        if from < nodes.len() && self.node(nodes[from] as int).size < target {
            self.lemma_first_fit_exists(nodes, target, from + 1);
            if exists|k: int| from <= k < nodes.len() && #[trigger] self.node(nodes[k] as int).size >= target {
                let k = choose|k: int| from <= k < nodes.len() && #[trigger] self.node(nodes[k] as int).size >= target;
                assert(k != from);
            }
        }
    }

    proof fn lemma_pick_serves(self, fl: int, sl: int, target: u64)
        ensures
            self.pick(fl, sl, target) is Some <==> self.serves(fl, sl, target),
    {
        if self.has_category(fl, sl) {
            self.lemma_first_fit_exists(self.cat_nodes(fl, sl), target, 0);
        }
    }

    proof fn lemma_search_sl_some(self, fl: int, sl: int, target: u64)
        requires
            0 <= sl,
        ensures
            self.search_sl(fl, sl, target) is Some <==> exists|b: int|
                sl <= b < 64 && #[trigger] self.serves(fl, b, target),
        decreases 64 - sl,
    {
        if sl < 64 {
            self.lemma_pick_serves(fl, sl, target);
            self.lemma_search_sl_some(fl, sl + 1, target);
            if exists|b: int| sl <= b < 64 && #[trigger] self.serves(fl, b, target) {
                let b = choose|b: int| sl <= b < 64 && #[trigger] self.serves(fl, b, target);
                if b != sl {
                    assert(sl + 1 <= b < 64 && self.serves(fl, b, target));
                }
            }
        }
    }

    proof fn lemma_search_fl_some(self, fl: int, sl: int, target: u64)
        requires
            0 <= fl,
            0 <= sl,
        ensures
            self.search_fl(fl, sl, target) is Some <==> exists|a: int, b: int|
                0 <= b < 64 && a < 64 && (a > fl || (a == fl && b >= sl)) && #[trigger] self.serves(
                    a,
                    b,
                    target,
                ),
        decreases 64 - fl,
    {
        if fl < 64 {
            self.lemma_search_sl_some(fl, sl, target);
            self.lemma_search_fl_some(fl + 1, 0, target);
            if exists|a: int, b: int|
                0 <= b < 64 && a < 64 && (a > fl || (a == fl && b >= sl)) && #[trigger] self.serves(a, b, target) {
                let (a, b) = choose|a: int, b: int|
                    0 <= b < 64 && a < 64 && (a > fl || (a == fl && b >= sl)) && #[trigger] self.serves(
                        a,
                        b,
                        target,
                    );
                if a == fl {
                    assert(sl <= b < 64 && self.serves(fl, b, target));
                } else {
                    assert(0 <= b < 64 && a < 64 && (a > fl + 1 || (a == fl + 1 && b >= 0)) && self.serves(
                        a,
                        b,
                        target,
                    ));
                }
            }
            if exists|b: int| sl <= b < 64 && #[trigger] self.serves(fl, b, target) {
                let b = choose|b: int| sl <= b < 64 && #[trigger] self.serves(fl, b, target);
                assert(0 <= b < 64 && fl < 64 && (fl > fl || (fl == fl && b >= sl)) && self.serves(fl, b, target));
            }
            if exists|a: int, b: int|
                0 <= b < 64 && a < 64 && (a > fl + 1 || (a == fl + 1 && b >= 0)) && #[trigger] self.serves(
                    a,
                    b,
                    target,
                ) {
                let (a, b) = choose|a: int, b: int|
                    0 <= b < 64 && a < 64 && (a > fl + 1 || (a == fl + 1 && b >= 0)) && #[trigger] self.serves(
                        a,
                        b,
                        target,
                    );
                assert(0 <= b < 64 && a < 64 && (a > fl || (a == fl && b >= sl)) && self.serves(a, b, target));
            }
        } else {
            if exists|a: int, b: int|
                0 <= b < 64 && a < 64 && (a > fl || (a == fl && b >= sl)) && #[trigger] self.serves(a, b, target) {
                let (a, b) = choose|a: int, b: int|
                    0 <= b < 64 && a < 64 && (a > fl || (a == fl && b >= sl)) && #[trigger] self.serves(
                        a,
                        b,
                        target,
                    );
                assert(false);
            }
        }
    }

    /// A request up to the capacity is served exactly when some category at
    /// or after its own holds a block that the selector takes for it: a
    /// category that cannot serve it never ends the search of the categories
    /// after it, in its own first level or a later one.
    pub proof fn lemma_allocate_finds(s0: Self, s1: Self, size: u64, r: Result<crate::allocated::Allocated, String>)
        requires
            s0.wf(),
            0 < size <= s0.max_size,
            s0.allocate_post(s1, size, r),
        ensures
            r is Ok <==> exists|fl: int, sl: int| s0.at_or_after(fl, sl, size) && #[trigger] s0.serves(fl, sl, size),
    {
        s0.lemma_table_bounds();
        crate::tools::lemma_category_bounds(size, s0.minimum_size_raw);
        let (f, s) = s0.category(size);
        s0.lemma_search_fl_some(f as int, s as int, size);
        if exists|fl: int, sl: int| s0.at_or_after(fl, sl, size) && #[trigger] s0.serves(fl, sl, size) {
            let (a, b) = choose|fl: int, sl: int| s0.at_or_after(fl, sl, size) && #[trigger] s0.serves(fl, sl, size);
            assert(s0.first_level_ok(a));
            assert(0 <= b < 64 && a < 64 && (a > f || (a == f && b >= s)) && s0.serves(a, b, size));
        }
        if s0.search(size) is Some {
            let (a, b) = choose|a: int, b: int|
                0 <= b < 64 && a < 64 && (a > f || (a == f && b >= s)) && #[trigger] s0.serves(a, b, size);
            assert(s0.at_or_after(a, b, size) && s0.serves(a, b, size));
        }
    }
    /// Blocks further up in address order start higher.
    proof fn lemma_starts_increase(self, k1: int, k2: int)
        requires
            self.chain_wf(),
            0 <= k1 < k2 < self.order@.len(),
        ensures
            self.node(self.order@[k1] as int).start < self.node(self.order@[k2] as int).start,
        decreases k2 - k1,
    {
        assert(self.block_ok(k2 - 1));
        if k1 < k2 - 1 {
            self.lemma_starts_increase(k1, k2 - 1);
        }
    }

    /// Two blocks that start at the same place are the same block.
    proof fn lemma_start_unique(self, i: int, j: int)
        requires
            self.chain_wf(),
            self.live(i),
            self.live(j),
            self.node(i).start == self.node(j).start,
        ensures
            i == j,
    {
        let qi = self.lemma_position(i);
        let qj = self.lemma_position(j);
        if qi < qj {
            self.lemma_starts_increase(qi, qj);
        } else if qj < qi {
            self.lemma_starts_increase(qj, qi);
        }
    }

    /// A request is served from the bottom of a free block that holds it.
    /// When that block is larger than the request by at least the smallest
    /// category size, it is split: the handle's block ends at start + size,
    /// and the rest stays a free block up to the old block's end. Only a rest
    /// below the smallest category size is handed out with the request.
    pub proof fn lemma_allocate_splits(
        s0: Self,
        s1: Self,
        size: u64,
        a: crate::allocated::Allocated,
        i: int,
    )
        requires
            s0.wf(),
            size > 0,
            s0.allocate_post(s1, size, Ok(a)),
            s0.live(i),
            s0.node(i).start == a@.start,
        ensures
            s0.node(i).is_free(),
            s0.node(i).size >= size,
            a@.end == a@.start + size,
            s0.node(i).size - size >= s0.minimum_size ==> {
                &&& a@.node_end == a@.start + size
                &&& exists|j: int|
                    #[trigger] s1.live(j) && s1.node(j).is_free() && s1.node(j).start == a@.start + size
                        && s1.node(j).end == s0.node(i).end
            },
            s0.node(i).size - size < s0.minimum_size ==> a@.node_end == s0.node(i).end,
    {
        let (fl, sl, p) = s0.search(size)->0;
        let c = s0.chosen(size) as int;
        s0.lemma_search_found(size);
        s0.lemma_filed(fl, sl, p);
        s0.lemma_start_unique(i, c);
        if !s0.takes_whole(size) {
            assert(s0.split_nodes(s1, c, a@.link as int, size));
            assert(s1.live(c) && s1.node(c).is_free() && s1.node(c).start == a@.start + size && s1.node(c).end
                == s0.node(i).end);
        }
    }
    proof fn lemma_first_fit_first(self, nodes: Seq<usize>, target: u64, from: int)
        requires
            0 <= from,
        ensures
            self.first_fit(nodes, target, from) matches Some(p) ==> {
                &&& from <= p < nodes.len()
                &&& self.node(nodes[p] as int).size >= target
                &&& forall|k: int| from <= k < p ==> #[trigger] self.node(nodes[k] as int).size < target
            },
        decreases nodes.len() - from,
    {
        if from < nodes.len() && self.node(nodes[from] as int).size < target {
            self.lemma_first_fit_first(nodes, target, from + 1);
        }
    }

    proof fn lemma_search_sl_first(self, fl: int, sl: int, target: u64)
        requires
            0 <= sl,
        ensures
            self.search_sl(fl, sl, target) matches Some((b, p)) ==> {
                &&& sl <= b < 64
                &&& self.pick(fl, b, target) == Some(p)
                &&& forall|b2: int| sl <= b2 < b ==> !#[trigger] self.serves(fl, b2, target)
            },
        decreases 64 - sl,
    {
        if sl < 64 {
            self.lemma_pick_serves(fl, sl, target);
            self.lemma_search_sl_first(fl, sl + 1, target);
        }
    }

    proof fn lemma_search_fl_first(self, fl: int, sl: int, target: u64)
        requires
            0 <= fl,
            0 <= sl,
        ensures
            self.search_fl(fl, sl, target) matches Some((a, b, p)) ==> {
                &&& (a > fl || (a == fl && b >= sl))
                &&& a < 64 && 0 <= b < 64
                &&& self.pick(a, b, target) == Some(p)
                &&& forall|a2: int, b2: int|
                    0 <= b2 < 64 && (a2 > fl || (a2 == fl && b2 >= sl)) && (a2 < a || (a2 == a && b2 < b))
                        ==> !#[trigger] self.serves(a2, b2, target)
            },
        decreases 64 - fl,
    {
        if fl < 64 {
            self.lemma_search_sl_first(fl, sl, target);
            self.lemma_search_sl_some(fl, sl, target);
            self.lemma_search_fl_first(fl + 1, 0, target);
        }
    }

    /// The block that serves a request is the one the selector takes in the
    /// first category at or after the request's own that can serve it: no
    /// category between the two can, and within its category the block is
    /// the earliest filed one (direct) or the earliest filed one that holds
    /// the request (scanning).
    pub proof fn lemma_allocate_first_fit(
        s0: Self,
        s1: Self,
        size: u64,
        a: crate::allocated::Allocated,
        i: int,
    )
        requires
            s0.wf(),
            size > 0,
            s0.allocate_post(s1, size, Ok(a)),
            s0.live(i),
            s0.node(i).start == a@.start,
        ensures
            exists|fl: int, sl: int, p: int|
                #![trigger s0.serves(fl, sl, size), s0.cat_nodes(fl, sl)[p]]
                {
                    &&& s0.at_or_after(fl, sl, size)
                    &&& s0.serves(fl, sl, size)
                    &&& 0 <= p < s0.cat_nodes(fl, sl).len()
                    &&& s0.cat_nodes(fl, sl)[p] == i
                    &&& (s0.selector_option == SelectorOpt::DIRECT ==> p == 0)
                    &&& (s0.selector_option == SelectorOpt::SCANNING ==> forall|k: int|
                        0 <= k < p ==> #[trigger] s0.node(s0.cat_nodes(fl, sl)[k] as int).size < size)
                    &&& forall|f2: int, s2: int|
                        s0.at_or_after(f2, s2, size) && (f2 < fl || (f2 == fl && s2 < sl)) ==> !#[trigger] s0.serves(
                            f2,
                            s2,
                            size,
                        )
                },
    {
        s0.lemma_table_bounds();
        crate::tools::lemma_category_bounds(size, s0.minimum_size_raw);
        let (f, s) = s0.category(size);
        let (fl, sl, p) = s0.search(size)->0;
        let c = s0.chosen(size) as int;
        s0.lemma_search_found(size);
        s0.lemma_filed(fl, sl, p);
        s0.lemma_start_unique(i, c);
        s0.lemma_search_fl_first(f as int, s as int, size);
        s0.lemma_pick_serves(fl, sl, size);
        if s0.selector_option == SelectorOpt::SCANNING {
            s0.lemma_first_fit_first(s0.cat_nodes(fl, sl), size, 0);
        }
        assert forall|f2: int, s2: int|
            s0.at_or_after(f2, s2, size) && (f2 < fl || (f2 == fl && s2 < sl)) implies !#[trigger] s0.serves(
            f2,
            s2,
            size,
        ) by {
            if s0.serves(f2, s2, size) {
                assert(s0.first_level_ok(f2));
                assert(0 <= s2 < 64);
            }
        }
        assert(s0.at_or_after(fl, sl, size));
    }
}

} // verus!
