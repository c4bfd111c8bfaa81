use vstd::prelude::*;

verus! {

use crate::allocated::Allocated;
use crate::counting::seq_sum;
use crate::monagement_core::MonagementCore;
use crate::node_core::{Node, NodeStatus};

impl MonagementCore {
    /// The sizes of the blocks, in address order.
    pub open spec fn block_sizes(self) -> Seq<int> {
        let ll = self.linked_list@;
        self.order@.map_values(|i: usize| ll[i as int]->0.size as int)
    }

    /// The first `j` blocks add up to where the last of them ends.
    proof fn lemma_prefix_sizes(self, j: int)
        requires
            self.chain_wf(),
            1 <= j <= self.order@.len(),
        ensures
            seq_sum(self.block_sizes().take(j)) == self.node(self.order@[j - 1] as int).end,
        decreases j,
    {
        let t = self.block_sizes().take(j);
        assert(self.block_ok(j - 1));
        assert(t.drop_last() =~= self.block_sizes().take(j - 1));
        assert(t.last() == self.node(self.order@[j - 1] as int).size);
        assert(seq_sum(t) == seq_sum(t.drop_last()) + t.last());
        if j > 1 {
            self.lemma_prefix_sizes(j - 1);
            assert(self.block_ok(j - 2));
        } else {
            assert(seq_sum(t.drop_last()) == 0);
        }
    }

    /// The blocks tile the capacity: their sizes add up to `max_size`.
    pub proof fn lemma_sizes_fill_capacity(self)
        requires
            self.wf(),
        ensures
            seq_sum(self.block_sizes()) == self.max_size,
    {
        let n = self.order@.len() as int;
        self.lemma_prefix_sizes(n);
        assert(self.block_sizes().take(n) =~= self.block_sizes());
        assert(self.block_ok(n - 1));
    }

    /// Once no block is in use, the free blocks have merged into a single
    /// one, which spans the whole capacity and is the only entry in use.
    pub proof fn lemma_all_free_one_block(self)
        requires
            self.wf(),
            forall|i: int| self.live(i) ==> #[trigger] self.node(i).is_free(),
        ensures
            self.order@.len() == 1,
            self.node(self.order@[0] as int).start == 0,
            self.node(self.order@[0] as int).end == self.max_size,
            self.node(self.order@[0] as int).size == self.max_size,
            forall|i: int| #[trigger] self.live(i) ==> i == self.order@[0],
    {
        let o = self.order@;
        assert(self.block_ok(0));
        if o.len() > 1 {
            assert(self.block_ok(1));
            assert(!(self.node(o[0] as int).is_free() && self.node(o[1] as int).is_free()));
        }
        assert forall|i: int| #[trigger] self.live(i) implies i == o[0] by {
            assert(o.contains(i as usize));
            assert(self.linked_list.len() == self.linked_list@.len());
        }
    }
    /// Where block `i` lies, and whether it is free.
    pub open spec fn range_of(self, i: int) -> (u64, u64, bool) {
        (self.node(i).start, self.node(i).end, self.node(i).is_free())
    }

    /// The blocks in address order, each as its range and whether it is free.
    pub open spec fn ranges(self) -> Seq<(u64, u64, bool)> {
        self.order@.map_values(|i: usize| self.range_of(i as int))
    }

    /// Giving back a handle that was just handed out undoes the request: the
    /// blocks lie where they lay before, each free or in use as before.
    #[verifier::rlimit(40)]
    pub proof fn lemma_allocate_free_roundtrip(
        s0: Self,
        s1: Self,
        s2: Self,
        size: u64,
        a: Allocated,
    )
        requires
            s0.wf(),
            s0.allocate_post(s1, size, Ok(a)),
            s1.free_post(s2, a@.link as int),
        ensures
            s2.ranges() == s0.ranges(),
    {
        let o = s0.order@;
        let (fl, sl, p) = s0.search(size)->0;
        let c = s0.chosen(size);
        let n = s0.node(c as int);
        s0.lemma_search_found(size);
        s0.lemma_filed(fl, sl, p);
        let q = s0.lemma_position(c as int);
        assert(n.is_free());
        assert(s0.linked_list.len() == s0.linked_list@.len());
        if q > 0 {
            assert(s0.block_ok(q - 1));
            assert(!(s0.node(o[q - 1] as int).is_free() && s0.node(o[q] as int).is_free()));
        }
        if q + 1 < o.len() {
            assert(s0.block_ok(q + 1));
            assert(!(s0.node(o[q] as int).is_free() && s0.node(o[q + 1] as int).is_free()));
        }
        if s0.takes_whole(size) {
            let x = c as int;
            assert(a@.link == c);
            assert(s1.order@ == o);
            assert(s1.node(x) == Node { status: NodeStatus::Used, ..n });
            if q > 0 {
                assert(s1.node(o[q - 1] as int) == s0.node(o[q - 1] as int));
            }
            if q + 1 < o.len() {
                assert(s1.node(o[q + 1] as int) == s0.node(o[q + 1] as int));
            }
            assert(s1.merging_front(x) is None);
            assert(s1.merging_back(x) is None);
            assert(o.index_of(c) == q);
            assert(s2.order@ =~= o);
            assert forall|k: int| 0 <= k < o.len() implies #[trigger] s2.range_of(o[k] as int)
                == s0.range_of(o[k] as int) by {
                let i = o[k] as int;
                if k != q {
                    assert(s0.block_ok(k));
                    assert(o[k] != c);
                    assert(s1.node(i) == s0.node(i));
                    if s1.merged_front(x) != Some(i as usize) && s1.merged_back(x) != Some(i as usize) {
                        assert(s2.linked_list@[i] == s1.linked_list@[i]);
                    }
                }
            }
        } else {
            let u = a@.link as int;
            let o1 = s1.order@;
            assert(u == s0.next_index());
            assert(!s0.live(u)) by {
                let fr = s0.free_linked_list_index@;
                if fr.len() > 0 {
                    assert(s0.linked_list@[fr[fr.len() - 1] as int] is None);
                }
            }
            assert(!o.contains(u as usize)) by {
                if o.contains(u as usize) {
                    let j = o.index_of(u as usize);
                    assert(s0.block_ok(j));
                }
            }
            assert(o1 == o.insert(q, u as usize));
            assert(o1[q] == u as usize);
            assert(o1.index_of(u as usize) == q) by {
                assert forall|j: int| 0 <= j < q implies o1[j] != u as usize by {
                    assert(o1[j] == o[j]);
                }
            }
            assert(s0.split_nodes(s1, c as int, u, size));
            if q > 0 {
                assert(n.front == Some(o[q - 1]));
                assert(s1.node(o[q - 1] as int).status == s0.node(o[q - 1] as int).status);
            } else {
                assert(n.front is None);
            }
            assert(s1.merging_front(u) is None);
            assert(s1.merging_back(u) == Some(c));
            assert(s2.order@ =~= o.update(q, u as usize));
            assert forall|k: int| 0 <= k < o.len() implies #[trigger] s2.ranges()[k] == s0.ranges()[k] by {
                if k != q {
                    let i = o[k] as int;
                    assert(s0.block_ok(k));
                    assert(o[k] != c);
                    assert(i != u);
                    assert(s1.node(i).start == s0.node(i).start);
                    assert(s1.node(i).end == s0.node(i).end);
                    assert(s1.node(i).status == s0.node(i).status) by {
                        if n.front != Some(i as usize) {
                            assert(s1.linked_list@[i] == s0.linked_list@[i]);
                        }
                    }
                    if s1.merged_front(u) != Some(i as usize) && s1.merged_back(u) != Some(i as usize) {
                        assert(s2.linked_list@[i] == s1.linked_list@[i]);
                    }
                }
            }
        }
        assert(s2.ranges() =~= s0.ranges());
    }
    /// An allocator with no block in use serves every request from the size
    /// of the smallest category up to its capacity.
    pub proof fn lemma_idle_serves(self, size: u64)
        requires
            self.wf(),
            forall|i: int| self.live(i) ==> #[trigger] self.node(i).is_free(),
            self.minimum_size <= size <= self.max_size,
        ensures
            self.search(size) is Some,
    {
        self.lemma_all_free_one_block();
        self.lemma_table_bounds();
        let o = self.order@;
        let b = o[0] as int;
        assert(self.block_ok(0));
        assert(self.node(b).is_free());
        assert(self.registered(b));
        let (bf, bs, bslot) = self.filed_at(b);
        let big = self.category(self.max_size);
        assert(big == (bf as u64, bs as u64));
        assert(self.has_category(bf, bs));
        // every link of the table names `b`, filed at `bslot` of `(bf, bs)`
        assert forall|f: int, s: int, k: int|
            self.has_category(f, s) && 0 <= k < self.second(f, s).slots@.len() && 0 <= f < 64 && 0 <= s
                < 64 implies f == bf && s == bs && #[trigger] self.second(f, s).slots@[k] == bslot by {
            assert(self.link_target_ok(f, s, k));
            let n = self.second(f, s).link(self.second(f, s).slots@[k] as int).node_link as int;
            assert(self.live(n));
            assert(n == b);
        }
        assert forall|f: int, s: int|
            self.has_category(f, s) && (f != bf || s != bs) implies #[trigger] self.second(f, s).slots@.len()
            == 0 by {
            assert(self.first_level_ok(f));
            assert(0 <= f < 64 && 0 <= s < 64);
            if self.second(f, s).slots@.len() > 0 {
                assert(self.second(f, s).slots@[0] == bslot);
            }
        }
        let second = self.second(bf, bs);
        assert(self.first_level_ok(bf));
        assert(second.wf());
        assert(second.slots@.contains(bslot as usize));
        assert(second.slots@.len() == 1) by {
            if second.slots@.len() > 1 {
                assert(second.slots@[0] == bslot);
                assert(second.slots@[1] == bslot);
            }
        }
        assert(self.cat_nodes(bf, bs)[0] == b);
        assert(self.pick(bf, bs, size) == Some(0int));
        // the request's category comes no later than that of the capacity
        vstd::arithmetic::power2::lemma_pow2_pos(self.minimum_size_raw as nat);
        crate::tools::lemma_category_monotone(size, self.max_size, self.minimum_size_raw);
        crate::tools::lemma_category_bounds(size, self.minimum_size_raw);
        crate::tools::lemma_category_bounds(self.max_size, self.minimum_size_raw);
        let (ft, st) = self.category(size);
        let ft = ft as int;
        let st = st as int;
        assert forall|f: int| ft < f < bf implies #[trigger] self.fl_empty(f) by {}
        self.lemma_search_sl_skip(bf, if ft == bf { st } else { 0 }, bs, size);
        if ft < bf {
            assert(self.fl_empty(ft));
            self.lemma_search_sl_empty(ft, st, size);
            if ft + 1 < bf {
                self.lemma_search_fl_skip(ft + 1, bf, 0, size);
            }
        }
    }
    /// The entries that hold a block in use.
    pub open spec fn used_blocks(self) -> Set<usize> {
        Set::new(|i: usize| self.live(i as int) && self.node(i as int).status == NodeStatus::Used)
    }

    /// Handing out a block adds the handle's entry to the blocks in use, and
    /// changes no other entry's use.
    pub proof fn lemma_allocate_uses(s0: Self, s1: Self, size: u64, a: Allocated)
        requires
            s0.wf(),
            s0.allocate_post(s1, size, Ok(a)),
        ensures
            s1.used_blocks() == s0.used_blocks().insert(a@.link),
    {
        let (fl, sl, p) = s0.search(size)->0;
        let c = s0.chosen(size);
        s0.lemma_search_found(size);
        s0.lemma_filed(fl, sl, p);
        let q = s0.lemma_position(c as int);
        assert(s0.linked_list.len() == s0.linked_list@.len());
        assert(s1.linked_list.len() == s1.linked_list@.len());
        let o = s0.order@;
        if q > 0 {
            assert(s0.block_ok(q - 1));
        }
        assert forall|i: usize| #[trigger] s1.used_blocks().contains(i) == s0.used_blocks().insert(a@.link).contains(
            i,
        ) by {
            let ii = i as int;
            if s0.used_blocks().contains(i) {
                assert(s0.live(ii) && ii != -1 && s0.node(ii).status == NodeStatus::Used);
            }
            if s1.used_blocks().contains(i) && i != a@.link {
                if s0.takes_whole(size) {
                    assert(s1.linked_list@[ii] == s0.linked_list@[ii]);
                } else {
                    let u = a@.link as int;
                    assert(s0.split_nodes(s1, c as int, u, size));
                    assert(ii != c as int);
                    if s0.node(c as int).front != Some(i) {
                        assert(ii < s0.linked_list@.len());
                        assert(s1.linked_list@[ii] == s0.linked_list@[ii]);
                    }
                }
            }
        }
        assert(s1.used_blocks() =~= s0.used_blocks().insert(a@.link));
    }

    /// Giving back a block takes its entry out of the blocks in use, and
    /// changes no other entry's use.
    pub proof fn lemma_free_releases(s0: Self, s1: Self, x: int)
        requires
            s0.wf(),
            s0.live(x),
            s0.node(x).status == NodeStatus::Used,
            s0.free_post(s1, x),
        ensures
            s1.used_blocks() == s0.used_blocks().remove(x as usize),
    {
        assert(s0.linked_list.len() == s0.linked_list@.len());
        s0.lemma_merge_shape(x);
        assert forall|i: usize| #[trigger] s1.used_blocks().contains(i) == s0.used_blocks().remove(
            x as usize,
        ).contains(i) by {
            let ii = i as int;
            assert((x as usize) as int == x);
            if s0.used_blocks().contains(i) && ii != x {
                assert(s0.live(ii) && s0.node(ii).status == NodeStatus::Used);
                assert(s1.live(ii) && s1.node(ii).status == NodeStatus::Used);
            }
            if s1.used_blocks().contains(i) {
                assert(ii != x);
                assert(s0.merging_front(x) != Some(i));
                assert(s0.merging_back(x) != Some(i));
                if s0.merged_front(x) != Some(i) && s0.merged_back(x) != Some(i) {
                    assert(s1.linked_list@[ii] == s0.linked_list@[ii]);
                }
            }
        }
        assert(s1.used_blocks() =~= s0.used_blocks().remove(x as usize));
    }

    /// Giving back the last block in use leaves a single free block, which
    /// spans the whole capacity.
    pub proof fn lemma_last_free_one_block(s0: Self, s1: Self, x: int)
        requires
            s0.wf(),
            s0.used_blocks() == Set::empty().insert(x as usize),
            s0.free_post(s1, x),
        ensures
            s1.order@.len() == 1,
            s1.node(s1.order@[0] as int).is_free(),
            s1.node(s1.order@[0] as int).start == 0,
            s1.node(s1.order@[0] as int).end == s1.max_size,
            forall|i: int| #[trigger] s1.live(i) ==> i == s1.order@[0],
    {
        assert(s0.used_blocks().contains(x as usize));
        assert(0 <= x);
        assert((x as usize) as int == x);
        Self::lemma_free_releases(s0, s1, x);
        assert forall|i: int| s1.live(i) implies #[trigger] s1.node(i).is_free() by {
            assert(s1.linked_list.len() == s1.linked_list@.len());
            assert((i as usize) as int == i);
            assert(!s1.used_blocks().contains(i as usize));
        }
        s1.lemma_all_free_one_block();
    }
    /// The blocks form one chain through their links: only the lowest block
    /// has no block below it and it starts at 0, only the highest has none
    /// above it and it ends at the capacity, and the block above each block
    /// starts where that block ends and names it as the block below.
    pub proof fn lemma_chain_links(self)
        requires
            self.wf(),
        ensures
            forall|i: int| #[trigger] self.live(i) ==> ((self.node(i).front is None) <==> i == self.order@[0]),
            forall|i: int| #[trigger] self.live(i) ==> ((self.node(i).back is None) <==> i == self.order@.last()),
            self.node(self.order@[0] as int).start == 0,
            self.node(self.order@.last() as int).end == self.max_size,
            forall|i: int|
                #[trigger] self.live(i) && self.node(i).back is Some ==> {
                    let j = self.node(i).back->0 as int;
                    &&& self.live(j)
                    &&& self.node(j).start == self.node(i).end
                    &&& self.node(j).front == Some(i as usize)
                },
    {
        let o = self.order@;
        assert(self.block_ok(0));
        assert(self.block_ok(o.len() - 1));
        assert forall|i: int| #[trigger] self.live(i) implies ((self.node(i).front is None) <==> i == o[0]) && ((
        self.node(i).back is None) <==> i == o.last()) by {
            let q = self.lemma_position(i);
            if i == o[0] {
                assert(q == 0) by {
                    if q != 0 {
                        assert(o[0] == o[q]);
                    }
                }
            }
            if i == o.last() {
                assert(q == o.len() - 1) by {
                    if q != o.len() - 1 {
                        assert(o[o.len() - 1] == o[q]);
                    }
                }
            }
        }
        assert forall|i: int| #[trigger] self.live(i) && self.node(i).back is Some implies {
            let j = self.node(i).back->0 as int;
            &&& self.live(j)
            &&& self.node(j).start == self.node(i).end
            &&& self.node(j).front == Some(i as usize)
        } by {
            let q = self.lemma_position(i);
            assert(self.block_ok(q + 1));
        }
    }
    /// Following the links from the lowest block visits every block once,
    /// in address order: the blocks of `order` are the blocks in use of the
    /// list, each listed once, and each names the one before it as `front`
    /// and the one after it as `back`, ending where that one starts.
    pub proof fn lemma_chain_walk(self)
        requires
            self.wf(),
        ensures
            self.order@.no_duplicates(),
            forall|i: int| #[trigger] self.live(i) ==> self.order@.contains(i as usize),
            forall|k: int|
                0 <= k < self.order@.len() ==> {
                    let n = #[trigger] self.node(self.order@[k] as int);
                    &&& self.live(self.order@[k] as int)
                    &&& n.front == (if k == 0 { None } else { Some(self.order@[k - 1]) })
                    &&& n.back == (if k + 1 == self.order@.len() { None } else { Some(self.order@[k + 1]) })
                    &&& (k + 1 < self.order@.len() ==> n.end == self.node(self.order@[k + 1] as int).start)
                },
    {
        let o = self.order@;
        assert forall|k: int| 0 <= k < o.len() implies {
            let n = #[trigger] self.node(o[k] as int);
            &&& self.live(o[k] as int)
            &&& n.front == (if k == 0 { None } else { Some(o[k - 1]) })
            &&& n.back == (if k + 1 == o.len() { None } else { Some(o[k + 1]) })
            &&& (k + 1 < o.len() ==> n.end == self.node(o[k + 1] as int).start)
        } by {
            assert(self.block_ok(k));
        }
    }
}

} // verus!
