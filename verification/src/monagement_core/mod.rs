use vstd::prelude::*;

pub mod allocate;
pub mod fit_laws;
pub mod free;
pub mod init;
pub mod levels;
pub mod laws;
pub mod links;
pub mod refile;
pub mod search;

verus! {

use vstd::arithmetic::power2::pow2;
use crate::bits::bit_set;
use crate::counting::{seq_sum, count_true};
use crate::level_core::{FirstLevel, SecondLevel};
use crate::monagement_init::SelectorOpt;
use crate::node_core::{Node, NodeStatus, SlIdx};
use crate::tools::{category_of, fl_of};

/// The state of an allocator: the blocks of `[0, max_size)` in `linked_list`
/// (with `free_linked_list_index` the empty entries to reuse), and the free
/// blocks sorted into categories in `fl_list`, with `bitmap` marking the
/// first-level classes that hold any.
pub struct MonagementCore {
    pub max_size: u64,
    pub bitmap: u64,
    pub minimum_size: u64,
    pub minimum_size_raw: u64,
    pub second_level_count: u64,
    pub fl_list: Vec<FirstLevel>,
    pub linked_list: Vec<Option<Node>>,
    pub free_linked_list_index: Vec<usize>,
    pub selector_option: SelectorOpt,
    /// The entries of `linked_list` that hold blocks, in address order.
    pub order: Ghost<Seq<usize>>,
}

/// Number of free blocks counted in the first-level classes.
pub open spec fn fl_counts(fls: Seq<FirstLevel>) -> Seq<int> {
    fls.map_values(|f: FirstLevel| f.count as int)
}

/// Number of free blocks counted in the second-level classes.
pub open spec fn sl_counts(sls: Seq<SecondLevel>) -> Seq<int> {
    sls.map_values(|s: SecondLevel| s.count as int)
}

/// The slot bookkeeping of a second-level class: the slots of its list from
/// head to end, the empty slots kept for reuse, and how many slots it has.
pub open spec fn slot_state(s: SecondLevel) -> (Seq<usize>, Seq<usize>, nat) {
    (s.slots@, s.free_link_list@, s.link_list@.len())
}

/// The slot bookkeeping once the link in `slot` is taken out: the slot leaves
/// the list and is kept for reuse.
pub open spec fn slot_taken(t: (Seq<usize>, Seq<usize>, nat), slot: usize) -> (
    Seq<usize>,
    Seq<usize>,
    nat,
) {
    (t.0.remove(t.0.index_of(slot)), t.1.push(slot), t.2)
}

/// The slot bookkeeping once a link is filed last: it takes the last slot
/// kept for reuse, or else a new slot at the end.
pub open spec fn slot_filed(t: (Seq<usize>, Seq<usize>, nat)) -> (Seq<usize>, Seq<usize>, nat) {
    if t.1.len() > 0 {
        (t.0.push(t.1.last()), t.1.drop_last(), t.2)
    } else {
        (t.0.push(t.2 as usize), t.1, t.2 + 1)
    }
}

impl MonagementCore {
    /// The slot bookkeeping of category `(fl, sl)`.
    pub open spec fn slots_of(self, fl: int, sl: int) -> (Seq<usize>, Seq<usize>, nat) {
        slot_state(self.second(fl, sl))
    }

    /// Entry `i` of `linked_list` holds a block.
    pub open spec fn live(self, i: int) -> bool {
        0 <= i < self.linked_list@.len() && self.linked_list@[i] is Some
    }

    pub open spec fn node(self, i: int) -> Node {
        self.linked_list@[i]->0
    }

    pub open spec fn second(self, fl: int, sl: int) -> SecondLevel {
        self.fl_list@[fl].sl_list@[sl]
    }

    pub open spec fn has_category(self, fl: int, sl: int) -> bool {
        0 <= fl < self.fl_list@.len() && 0 <= sl < self.fl_list@[fl].sl_list@.len()
    }

    /// The category that a free block of `size` is filed under.
    pub open spec fn category(self, size: u64) -> (u64, u64) {
        category_of(size, self.minimum_size_raw)
    }

    /// The blocks in address order.
    pub open spec fn blocks(self) -> Seq<usize> {
        self.order@
    }

    /// The free blocks of a category, from the earliest to the latest filed.
    pub open spec fn cat_nodes(self, fl: int, sl: int) -> Seq<usize> {
        self.second(fl, sl).nodes()
    }

    /// The `k`-th block in address order is stored under its index, links to
    /// its neighbours, and ends where the next one starts.
    pub open spec fn block_ok(self, k: int) -> bool {
        let o = self.order@;
        let i = o[k] as int;
        let n = self.node(i);
        &&& self.live(i)
        &&& n.index == o[k]
        &&& n.front == (if k == 0 { None } else { Some(o[k - 1]) })
        &&& n.back == (if k + 1 == o.len() { None } else { Some(o[k + 1]) })
        &&& n.start < n.end
        &&& n.size == n.end - n.start
        &&& (k == 0 ==> n.start == 0)
        &&& (k + 1 == o.len() ==> n.end == self.max_size)
        &&& (k + 1 < o.len() ==> n.end == self.node(o[k + 1] as int).start)
    }

    /// Two neighbouring blocks are never both free.
    pub open spec fn coalesced(self) -> bool {
        let o = self.order@;
        forall|k: int|
            0 <= k && k + 1 < o.len() ==> !(#[trigger] self.node(o[k] as int).is_free() && self.node(
                o[k + 1] as int,
            ).is_free())
    }

    /// The blocks tile `[0, max_size)` in address order.
    pub open spec fn chain_wf(self) -> bool {
        let o = self.order@;
        &&& o.len() > 0
        &&& o.no_duplicates()
        &&& forall|k: int| 0 <= k < o.len() ==> #[trigger] self.block_ok(k)
        &&& forall|i: int| #[trigger] self.live(i) ==> o.contains(i as usize)
    }

    /// The entries kept for reuse are exactly the empty ones, each listed
    /// once.
    pub open spec fn spare_wf(self) -> bool {
        let f = self.free_linked_list_index@;
        &&& f.no_duplicates()
        &&& forall|k: int|
            0 <= k < f.len() ==> #[trigger] f[k] < self.linked_list@.len() && self.linked_list@[f[k] as int] is None
        &&& forall|i: int|
            0 <= i < self.linked_list@.len() && #[trigger] self.linked_list@[i] is None ==> f.contains(
                i as usize,
            )
    }

    /// A first-level class: its second-level classes are well formed, its
    /// count is theirs summed, and its bitmap marks the non-empty ones.
    pub open spec fn first_level_ok(self, f: int) -> bool {
        let fl = self.fl_list@[f];
        let n = self.second_level_count as int;
        &&& fl.sl_list@.len() == n
        &&& forall|s: int| 0 <= s < n ==> #[trigger] fl.sl_list@[s].wf()
        &&& fl.count == seq_sum(sl_counts(fl.sl_list@))
        &&& forall|s: u64|
            s < 64 ==> (#[trigger] bit_set(fl.bitmap, s) <==> (s < n && fl.sl_list@[s as int].count > 0))
    }

    /// The category table: one first-level class per possible first level of
    /// a block, `2^minimum_size_raw` second-level classes in each, and the
    /// top bitmap marks the non-empty first-level classes.
    pub open spec fn levels_wf(self) -> bool {
        let raw = self.minimum_size_raw;
        let len = self.fl_list@.len();
        &&& raw <= 6
        &&& self.minimum_size == pow2(raw as nat)
        &&& self.second_level_count == self.minimum_size
        &&& len == fl_of(self.max_size, raw) + 1
        &&& forall|f: int| 0 <= f < len ==> #[trigger] self.first_level_ok(f)
        &&& forall|f: u64|
            f < 64 ==> (#[trigger] bit_set(self.bitmap, f) <==> (f < len && self.fl_list@[f as int].count
                > 0))
    }

    /// The `k`-th link of a category names a free block filed there.
    pub open spec fn link_target_ok(self, fl: int, sl: int, k: int) -> bool {
        let second = self.second(fl, sl);
        let slot = second.slots@[k];
        let n = second.link(slot as int).node_link as int;
        &&& self.live(n)
        &&& self.node(n).status == NodeStatus::Free(fl as u64, sl as u64, SlIdx(slot))
    }

    /// A free block is filed under the category of its size, at a link that
    /// names it.
    pub open spec fn registered(self, i: int) -> bool {
        match self.node(i).status {
            NodeStatus::Free(fl, sl, SlIdx(slot)) => {
                let second = self.second(fl as int, sl as int);
                &&& self.has_category(fl as int, sl as int)
                &&& (fl, sl) == self.category(self.node(i).size)
                &&& slot < second.link_list@.len()
                &&& second.link_list@[slot as int] is Some
                &&& second.link(slot as int).node_link == i
            },
            NodeStatus::Used => true,
        }
    }

    pub open spec fn links_wf(self) -> bool {
        &&& forall|fl: int, sl: int, k: int|
            self.has_category(fl, sl) && 0 <= k < self.second(fl, sl).slots@.len()
                ==> #[trigger] self.link_target_ok(fl, sl, k)
        &&& forall|i: int| self.live(i) ==> #[trigger] self.registered(i)
    }

    /// Whether each block, in address order, is free.
    pub open spec fn free_flags(self) -> Seq<bool> {
        let ll = self.linked_list@;
        self.order@.map_values(|i: usize| ll[i as int]->0.status is Free)
    }

    /// The classes count exactly the free blocks.
    pub open spec fn counts_wf(self) -> bool {
        seq_sum(fl_counts(self.fl_list@)) == count_true(self.free_flags())
    }

    /// The invariant of the allocator.
    pub open spec fn wf(self) -> bool {
        &&& self.chain_wf()
        &&& self.coalesced()
        &&& self.spare_wf()
        &&& self.levels_wf()
        &&& self.links_wf()
        &&& self.counts_wf()
    }

    /// Same capacity, smallest category and selector.
    pub open spec fn same_config(self, other: Self) -> bool {
        &&& self.max_size == other.max_size
        &&& self.minimum_size == other.minimum_size
        &&& self.minimum_size_raw == other.minimum_size_raw
        &&& self.second_level_count == other.second_level_count
        &&& self.selector_option == other.selector_option
    }

    /// Same blocks, same entries kept for reuse, same configuration.
    pub open spec fn same_blocks(self, other: Self) -> bool {
        &&& self.linked_list@ == other.linked_list@
        &&& self.free_linked_list_index@ == other.free_linked_list_index@
        &&& self.order@ == other.order@
        &&& self.same_config(other)
    }

    /// Same category table shape.
    pub open spec fn same_shape(self, other: Self) -> bool {
        &&& self.fl_list@.len() == other.fl_list@.len()
        &&& forall|f: int|
            0 <= f < self.fl_list@.len() ==> #[trigger] other.fl_list@[f].sl_list@.len()
                == self.fl_list@[f].sl_list@.len()
    }

    /// Same category table shape, and every category but `(fl, sl)` unchanged.
    pub open spec fn other_categories_same(self, other: Self, fl: int, sl: int) -> bool {
        &&& self.fl_list@.len() == other.fl_list@.len()
        &&& forall|f: int|
            0 <= f < self.fl_list@.len() ==> #[trigger] other.fl_list@[f].sl_list@.len()
                == self.fl_list@[f].sl_list@.len()
        &&& forall|f: int, s: int|
            self.has_category(f, s) && (f != fl || s != sl) ==> #[trigger] other.second(f, s) == self.second(
                f,
                s,
            )
    }

    /// Number of free blocks that the classes count.
    pub open spec fn free_total(self) -> int {
        seq_sum(fl_counts(self.fl_list@))
    }

    /// The category table has at most 64 classes on either level.
    pub proof fn lemma_table_bounds(self)
        requires
            self.levels_wf(),
        ensures
            self.fl_list@.len() <= 64,
            self.second_level_count <= 64,
            self.second_level_count >= 1,
    {
        crate::tools::lemma_highest_bit_below_64(self.max_size);
        vstd::arithmetic::power2::lemma2_to64();
        crate::tools::lemma_pow2_le(self.minimum_size_raw as nat, 6);
        vstd::arithmetic::power2::lemma_pow2_pos(self.minimum_size_raw as nat);
    }

    /// The category table alone decides `levels_wf`.
    pub proof fn lemma_levels_same(self, other: Self)
        requires
            self.levels_wf(),
            self.fl_list@ == other.fl_list@,
            self.bitmap == other.bitmap,
            self.same_config(other),
        ensures
            other.levels_wf(),
    {
        assert forall|f: int| 0 <= f < other.fl_list@.len() implies #[trigger] other.first_level_ok(f) by {
            assert(self.first_level_ok(f));
        }
    }

    proof fn lemma_start_at_least(self, k: int)
        requires
            self.chain_wf(),
            0 <= k < self.order@.len(),
        ensures
            self.node(self.order@[k] as int).start >= k,
        decreases k,
    {
        assert(self.block_ok(k));
        if k > 0 {
            assert(self.block_ok(k - 1));
            self.lemma_start_at_least(k - 1);
        }
    }

    /// Every block ends within the capacity.
    pub proof fn lemma_end_within(self, k: int)
        requires
            self.chain_wf(),
            0 <= k < self.order@.len(),
        ensures
            self.node(self.order@[k] as int).end <= self.max_size,
        decreases self.order@.len() - k,
    {
        assert(self.block_ok(k));
        if k + 1 < self.order@.len() {
            assert(self.block_ok(k + 1));
            self.lemma_end_within(k + 1);
        }
    }

    /// There are no more blocks than units of capacity, and no more free
    /// blocks than blocks.
    pub proof fn lemma_order_bound(self)
        requires
            self.chain_wf(),
        ensures
            self.order@.len() <= self.max_size,
            count_true(self.free_flags()) <= self.order@.len(),
    {
        let o = self.order@;
        self.lemma_start_at_least(o.len() - 1);
        assert(self.block_ok(o.len() - 1));
        crate::counting::lemma_count_true_bound(self.free_flags());
    }

    /// A block's position in address order.
    pub proof fn lemma_position(self, i: int) -> (q: int)
        requires
            self.chain_wf(),
            self.live(i),
        ensures
            0 <= q < self.order@.len(),
            self.order@[q] == i,
            self.block_ok(q),
            q == self.order@.index_of(i as usize),
    {
        assert(self.linked_list.len() == self.linked_list@.len());
        assert(self.order@.contains(i as usize));
        let q = self.order@.index_of(i as usize);
        assert(self.block_ok(q));
        q
    }

    pub fn get_linked_list(&self) -> (r: &Vec<Option<Node>>)
        ensures
            r == &self.linked_list,
    {
        &self.linked_list
    }

    pub fn get_free_linked_list_index(&self) -> (r: &Vec<usize>)
        ensures
            r == &self.free_linked_list_index,
    {
        &self.free_linked_list_index
    }

    pub fn get_fl_list(&self) -> (r: &Vec<FirstLevel>)
        ensures
            r == &self.fl_list,
    {
        &self.fl_list
    }

    pub fn bitmap(&self) -> (r: u64)
        ensures
            r == self.bitmap,
    {
        self.bitmap
    }

    pub fn get_max_size(&self) -> (r: u64)
        ensures
            r == self.max_size,
    {
        self.max_size
    }

    /// The category of `size` under this allocator's smallest category; a
    /// size of 0, which has no highest bit, gives `(0, 1)`.
    pub(crate) fn get_fl_sl(&self, size: u64) -> (r: (u64, u64))
        ensures
            size > 0 ==> r == self.category(size),
            size == 0 ==> r == (0u64, 1u64),
    {
        if size == 0 {
            (0, 1)
        } else {
            crate::tools::get_fl_sl(size, 0, 0, self.minimum_size_raw)
        }
    }
}

} // verus!
