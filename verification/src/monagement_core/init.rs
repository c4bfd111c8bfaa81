use vstd::prelude::*;

verus! {

use vstd::arithmetic::power2::pow2;
use crate::bits::{bit_set, lemma_set_bit, lemma_zero_word};
use crate::counting::{seq_sum, count_true, lemma_seq_sum_zeros, lemma_seq_sum_update};
use crate::errors::{minimum_error, minimum_error_text};
use crate::level_core::{FirstLevel, SecondLevel, SecondLevelLink};
use crate::monagement_core::{MonagementCore, fl_counts, sl_counts};
use crate::monagement_init::MonagementInit;
use crate::node_core::{Node, NodeStatus, SlIdx};
use crate::tools::{get_fl_sl, category_of, fl_of, lemma_category_bounds};

/// A second-level class without links.
pub open spec fn empty_second(s: SecondLevel) -> bool {
    &&& s.wf()
    &&& s.count == 0
    &&& s.slots@.len() == 0
    &&& s.link_list@.len() == 0
    &&& s.free_link_list@.len() == 0
}

/// A first-level class with `n` second-level classes and no free block.
pub open spec fn empty_first(f: FirstLevel, n: nat) -> bool {
    &&& f.count == 0
    &&& f.bitmap == 0
    &&& f.sl_list@.len() == n
    &&& forall|s: int| 0 <= s < n ==> #[trigger] empty_second(f.sl_list@[s])
}

/// A first-level class with `n` empty second-level classes.
fn new_first_level(n: u64) -> (r: FirstLevel)
    ensures
        empty_first(r, n as nat),
{
    let mut sl_list: Vec<SecondLevel> = Vec::new();
    let mut s: u64 = 0;
    while s < n
        invariant
            s <= n,
            sl_list@.len() == s,
            forall|k: int| 0 <= k < s ==> #[trigger] empty_second(sl_list@[k]),
        decreases n - s,
    {
        sl_list.push(SecondLevel::new());
        s = s + 1;
    }
    FirstLevel { count: 0, bitmap: 0, sl_list }
}

proof fn lemma_empty_first_counts(f: FirstLevel, n: nat)
    requires
        empty_first(f, n),
    ensures
        seq_sum(sl_counts(f.sl_list@)) == 0,
        forall|s: u64| s < 64 ==> !#[trigger] bit_set(f.bitmap, s),
{
    assert forall|k: int| 0 <= k < sl_counts(f.sl_list@).len() implies sl_counts(f.sl_list@)[k] == 0 by {
        assert(empty_second(f.sl_list@[k]));
    }
    lemma_seq_sum_zeros(sl_counts(f.sl_list@));
    assert forall|s: u64| s < 64 implies !#[trigger] bit_set(f.bitmap, s) by {
        lemma_zero_word(s);
    }
}

impl MonagementCore {
    /// What making an allocator from `monagement_init` gives: one free block
    /// spanning the whole capacity, or the error for a capacity below the
    /// smallest category.
    pub open spec fn init_post(monagement_init: &MonagementInit, r: Result<Self, String>) -> bool {
        match r {
            Ok(c) => {
                &&& pow2(monagement_init.start as nat) <= monagement_init.maximum
                &&& c.wf()
                &&& c.max_size == monagement_init.maximum
                &&& c.minimum_size_raw == monagement_init.start
                &&& c.selector_option == monagement_init.selector_opt
                &&& c.blocks() == seq![0usize]
                &&& c.linked_list@.len() == 1
                &&& c.free_linked_list_index@ == Seq::<usize>::empty()
                &&& c.node(0) == (Node {
                    index: 0,
                    status: NodeStatus::Free(
                        c.category(c.max_size).0,
                        c.category(c.max_size).1,
                        SlIdx(0),
                    ),
                    size: c.max_size,
                    back: None,
                    front: None,
                    start: 0,
                    end: c.max_size,
                })
                &&& forall|a: int, b: int|
                    c.has_category(a, b) ==> #[trigger] c.slots_of(a, b) == (if a == c.category(
                        c.max_size,
                    ).0 && b == c.category(c.max_size).1 {
                        (seq![0usize], Seq::<usize>::empty(), 1nat)
                    } else {
                        (Seq::<usize>::empty(), Seq::<usize>::empty(), 0nat)
                    })
            },
            Err(e) => {
                &&& monagement_init.maximum < pow2(monagement_init.start as nat)
                &&& e@ == minimum_error_text(pow2(monagement_init.start as nat) as u64)
            },
        }
    }

    /// Makes an allocator whose whole capacity `[0, maximum)` is one free
    /// block; refuses a capacity below the smallest category `2^start`. A
    /// capacity that is accepted needs `start <= 6`: each first level has
    /// `2^start` second-level classes, marked in one 64-bit bitmap.
    pub fn init(monagement_init: MonagementInit) -> (r: Result<Self, String>)
        requires
            monagement_init.start < 64,
            pow2(monagement_init.start as nat) <= monagement_init.maximum ==> monagement_init.start <= 6,
        ensures
            Self::init_post(&monagement_init, r),
    {
        let max_size = monagement_init.get_maximum();
        let start = monagement_init.get_minimum();
        let start_raw = monagement_init.get_raw_minimum();

        if max_size < start {
            return Err(minimum_error(start));
        }
        proof {
            vstd::arithmetic::power2::lemma2_to64();
            crate::tools::lemma_pow2_le(start_raw as nat, 6);
            lemma_category_bounds(max_size, start_raw);
        }
        let (fl_indexing, sl_indexing) = get_fl_sl(max_size, 0, 0, start_raw);

        // the table of categories
        let mut fl_list: Vec<FirstLevel> = Vec::new();
        let mut f: u64 = 0;
        while f <= fl_indexing
            invariant
                f <= fl_indexing + 1,
                fl_indexing < 64,
                fl_list@.len() == f,
                forall|k: int| 0 <= k < f ==> #[trigger] empty_first(fl_list@[k], start as nat),
            decreases fl_indexing + 1 - f,
        {
            fl_list.push(new_first_level(start));
            f = f + 1;
        }
        let ghost empty_fl = fl_list@;

        // the one free block
        let node = Node {
            index: 0,
            size: max_size,
            status: NodeStatus::Free(fl_indexing, sl_indexing, SlIdx(0)),
            back: None,
            front: None,
            start: 0,
            end: max_size,
        };
        let mut linked_list: Vec<Option<Node>> = Vec::with_capacity(1);
        linked_list.push(Some(node));

        // file it
        let fl = fl_indexing as usize;
        let sl = sl_indexing as usize;
        proof {
            assert(empty_first(fl_list@[fl as int], start as nat));
            assert(empty_second(fl_list@[fl as int].sl_list@[sl as int]));
        }
        let ghost empty_sl = fl_list@[fl as int].sl_list@;
        fl_list[fl].count = 1;
        fl_list[fl].bitmap = 1u64 << sl_indexing;
        fl_list[fl].sl_list[sl].count = 1;
        fl_list[fl].sl_list[sl].head_link = Some(0);
        fl_list[fl].sl_list[sl].end_link = Some(0);
        fl_list[fl].sl_list[sl].link_list.push(
            Some(SecondLevelLink { index: 0, node_link: 0, back: None, front: None }),
        );
        let one_slot: Ghost<Seq<usize>> = Ghost(Seq::empty().push(0usize));
        fl_list[fl].sl_list[sl].slots = one_slot;

        let monagement = MonagementCore {
            max_size,
            bitmap: 1u64 << fl_indexing,
            minimum_size: start,
            minimum_size_raw: start_raw,
            second_level_count: start,
            fl_list,
            linked_list,
            free_linked_list_index: Vec::new(),
            selector_option: monagement_init.selector_opt,
            order: Ghost(Seq::empty().push(0usize)),
        };

        proof {
            let c = monagement;
            let n = start as nat;
            // the filed class
            let second = c.second(fl as int, sl as int);
            assert(second.slots@ =~= seq![0usize]);
            assert(second.link_ok(0));
            assert forall|j: int| 0 <= j < second.link_list@.len() implies (
            #[trigger] second.link_list@[j] is Some <==> second.slots@.contains(j as usize)) by {
                assert(second.slots@[0] == 0);
            }
            assert(second.wf());
            // the first-level classes
            assert forall|k: int| 0 <= k < c.fl_list@.len() implies #[trigger] c.first_level_ok(k) by {
                if k != fl as int {
                    assert(c.fl_list@[k] == empty_fl[k]);
                    assert(empty_first(empty_fl[k], n));
                    lemma_empty_first_counts(empty_fl[k], n);
                    assert forall|s: int| 0 <= s < n implies #[trigger] c.fl_list@[k].sl_list@[s].wf() by {
                        assert(empty_second(c.fl_list@[k].sl_list@[s]));
                    }
                    assert(c.fl_list@[k].count == seq_sum(sl_counts(c.fl_list@[k].sl_list@)));
                    assert(c.fl_list@[k].sl_list@.len() == n);
                    assert forall|s: u64| s < 64 implies (#[trigger] bit_set(c.fl_list@[k].bitmap, s) <==> (s
                        < n && c.fl_list@[k].sl_list@[s as int].count > 0)) by {
                        if s < n {
                            assert(empty_second(empty_fl[k].sl_list@[s as int]));
                        }
                    }
                } else {
                    let first = c.fl_list@[k];
                    assert forall|s: int| 0 <= s < n implies #[trigger] first.sl_list@[s].wf() by {
                        if s != sl as int {
                            assert(first.sl_list@[s] == empty_sl[s]);
                            assert(empty_second(empty_sl[s]));
                        }
                    }
                    assert forall|s: int| 0 <= s < n implies sl_counts(empty_sl)[s] == 0 by {
                        assert(empty_second(empty_sl[s]));
                    }
                    lemma_seq_sum_zeros(sl_counts(empty_sl));
                    lemma_seq_sum_update(sl_counts(empty_sl), sl as int, 1);
                    assert(sl_counts(first.sl_list@) =~= sl_counts(empty_sl).update(sl as int, 1));
                    assert(first.count == seq_sum(sl_counts(first.sl_list@)));
                    assert(first.sl_list@.len() == n);
                    assert forall|s: u64| s < 64 implies (#[trigger] bit_set(first.bitmap, s) <==> (s < n
                        && first.sl_list@[s as int].count > 0)) by {
                        lemma_set_bit(0, sl_indexing, s);
                        assert(0u64 | (1u64 << sl_indexing) == 1u64 << sl_indexing) by (bit_vector);
                        lemma_zero_word(s);
                        if s < n && s != sl_indexing {
                            assert(empty_second(empty_sl[s as int]));
                        }
                    }
                }
            }
            // the top bitmap
            assert forall|k: u64| k < 64 implies (#[trigger] bit_set(c.bitmap, k) <==> (k < c.fl_list@.len()
                && c.fl_list@[k as int].count > 0)) by {
                lemma_set_bit(0, fl_indexing, k);
                assert(0u64 | (1u64 << fl_indexing) == 1u64 << fl_indexing) by (bit_vector);
                lemma_zero_word(k);
                if k < c.fl_list@.len() && k != fl_indexing {
                    assert(empty_first(empty_fl[k as int], n));
                }
            }
            assert(c.levels_wf());
            // the links
            assert forall|a: int, b: int, k: int|
                c.has_category(a, b) && 0 <= k < c.second(a, b).slots@.len() implies #[trigger] c.link_target_ok(
                a,
                b,
                k,
            ) by {
                if a != fl as int {
                    assert(empty_first(empty_fl[a], n));
                    assert(empty_second(empty_fl[a].sl_list@[b]));
                } else if b != sl as int {
                    assert(empty_second(empty_sl[b]));
                }
            }
            assert forall|i: int| c.live(i) implies #[trigger] c.registered(i) by {}
            assert forall|a: int, b: int| c.has_category(a, b) implies #[trigger] c.slots_of(a, b) == (if a
                == fl as int && b == sl as int {
                (seq![0usize], Seq::<usize>::empty(), 1nat)
            } else {
                (Seq::<usize>::empty(), Seq::<usize>::empty(), 0nat)
            }) by {
                if a != fl as int {
                    assert(empty_first(empty_fl[a], n));
                    assert(empty_second(empty_fl[a].sl_list@[b]));
                } else if b != sl as int {
                    assert(empty_second(empty_sl[b]));
                } else {
                    assert(empty_second(empty_sl[b]));
                }
            }
            assert(c.chain_wf()) by {
                assert(c.block_ok(0));
                assert forall|i: int| #[trigger] c.live(i) implies c.order@.contains(i as usize) by {
                    assert(c.order@[0] == 0);
                }
            }
            // the counts
            assert forall|k: int| 0 <= k < fl_counts(empty_fl).len() implies fl_counts(empty_fl)[k] == 0 by {
                assert(empty_first(empty_fl[k], n));
            }
            lemma_seq_sum_zeros(fl_counts(empty_fl));
            lemma_seq_sum_update(fl_counts(empty_fl), fl as int, 1);
            assert(fl_counts(c.fl_list@) =~= fl_counts(empty_fl).update(fl as int, 1));
            assert(c.free_flags() =~= seq![true]);
            assert(count_true(seq![true]) == 1) by {
                reveal_with_fuel(count_true, 2);
                assert(seq![true].drop_last() =~= Seq::<bool>::empty());
            }
        }
        Ok(monagement)
    }
}

} // verus!
