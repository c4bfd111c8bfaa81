use monagement::{get_fl_sl, Monagement, MonagementCore, MonagementInit, NodeStatus, SelectorOpt};

/// The blocks as (start, end, free), in address order.
fn ranges(core: &MonagementCore) -> Vec<(u64, u64, bool)> {
    let mut r: Vec<(u64, u64, bool)> = core
        .get_linked_list()
        .iter()
        .flatten()
        .map(|n| {
            let (s, e) = n.get_range();
            (s, e, matches!(n.get_status(), NodeStatus::Free(_, _, _)))
        })
        .collect();
    r.sort();
    r
}

fn init(start: u64, maximum: u64, selector_opt: SelectorOpt) -> Monagement {
    Monagement::init(MonagementInit { start, maximum, selector_opt }).expect("Init Error")
}

#[test]
fn categories_of_sizes() {
    assert_eq!(get_fl_sl(176, 0, 0, 2), (5, 1));
    assert_eq!(get_fl_sl(1509, 0, 0, 5), (5, 15));
    assert_eq!(get_fl_sl(28, 0, 0, 2), (2, 3));
    assert_eq!(get_fl_sl(1024, 0, 0, 2), (8, 0));
    assert_eq!(get_fl_sl(4, 0, 0, 2), (0, 0));
    assert_eq!(get_fl_sl(3, 0, 0, 2), (0, 1));
    assert_eq!(get_fl_sl(1, 0, 0, 6), (0, 0));
    assert_eq!(get_fl_sl(u64::MAX, 0, 0, 6), (57, 63));
}

#[test]
fn settings_getters() {
    let d = MonagementInit::default();
    assert_eq!(d.get_raw_minimum(), 2);
    assert_eq!(d.get_minimum(), 4);
    assert_eq!(d.get_maximum(), 1024);
    assert_eq!(d.selector_opt, SelectorOpt::DIRECT);
    let s = MonagementInit { start: 6, maximum: 77, selector_opt: SelectorOpt::SCANNING };
    assert_eq!(s.get_minimum(), 64);
}

#[test]
fn init_one_free_block() {
    let allocator = init(3, 1000, SelectorOpt::DIRECT);
    let core = allocator.borrow_core();
    assert_eq!(core.get_max_size(), 1000);
    assert_eq!(core.get_linked_list().len(), 1);
    let node = core.get_linked_list()[0].as_ref().unwrap();
    assert_eq!(node.get_range(), (0, 1000));
    assert_eq!(node.get_size(), 1000);
    assert_eq!(*node.get_status(), NodeStatus::Free(6, 7, monagement::SlIdx(0)));
    assert_eq!(core.bitmap(), 1 << 6);
    assert_eq!(core.get_fl_list().len(), 7);
    assert_eq!(core.get_fl_list()[6].sl_list.len(), 8);
    assert!(core.get_free_linked_list_index().is_empty());
}

#[test]
fn init_refuses_small_capacity() {
    let r = Monagement::init(MonagementInit { start: 2, maximum: 3, selector_opt: SelectorOpt::DIRECT });
    assert_eq!(r.err().unwrap(), "Error, Allocator Minimum Size Is 4");
    let r = MonagementCore::init(MonagementInit { start: 6, maximum: 63, selector_opt: SelectorOpt::DIRECT });
    assert_eq!(r.err().unwrap(), "Error, Allocator Minimum Size Is 64");
    assert!(Monagement::init(MonagementInit { start: 2, maximum: 4, selector_opt: SelectorOpt::DIRECT }).is_ok());
}

#[test]
fn allocate_refuses_above_capacity() {
    let mut allocator = init(2, 256, SelectorOpt::SCANNING);
    let e = allocator.allocate(257).err().unwrap();
    assert_eq!(
        e,
        "The allocator cannot accommodate data with size 257 because the maximum capacity of the allocator is 256"
    );
    assert_eq!(ranges(allocator.borrow_core()), vec![(0, 256, true)]);
}

#[test]
fn allocate_reports_no_fit() {
    // 3 falls in category (0, 1), after the category (0, 0) of the only block
    let mut allocator = init(2, 4, SelectorOpt::SCANNING);
    let e = allocator.allocate(3).err().unwrap();
    assert_eq!(e, "Allocation Error, not finding a node that can be allocated for data of size 3");
    let mut allocator = init(2, 64, SelectorOpt::DIRECT);
    let _a = allocator.allocate(64).unwrap();
    let e = allocator.allocate(1).err().unwrap();
    assert_eq!(e, "Allocation Error, not finding a node that can be allocated for data of size 1");
}

#[test]
fn allocate_splits_or_takes_whole() {
    let mut allocator = init(3, 100, SelectorOpt::DIRECT);
    // the rest, 90, is not below the smallest category: split
    let a = allocator.allocate(10).unwrap();
    assert_eq!(a.get_range(), (0, 10));
    assert_eq!(a.get_size(), 10);
    assert_eq!(a.get_link(), 1);
    // the rest, 5, is below the smallest category: whole
    let b = allocator.allocate(85).unwrap();
    assert_eq!(b.get_range(), (10, 95));
    assert_eq!(b.get_node_range(), (10, 100));
    assert_eq!(b.get_size(), 85);
    assert_eq!(b.get_link(), 0);
    assert_eq!(ranges(allocator.borrow_core()), vec![(0, 10, false), (10, 100, false)]);
}

#[test]
fn free_merges_neighbours() {
    let mut allocator = init(2, 100, SelectorOpt::SCANNING);
    let a = allocator.allocate(10).unwrap();
    let b = allocator.allocate(20).unwrap();
    let c = allocator.allocate(30).unwrap();
    a.free(&mut allocator);
    c.free(&mut allocator);
    assert_eq!(ranges(allocator.borrow_core()), vec![(0, 10, true), (10, 30, false), (30, 100, true)]);
    assert_eq!(allocator.free(b), Ok(()));
    assert_eq!(ranges(allocator.borrow_core()), vec![(0, 100, true)]);
    let core = allocator.borrow_core();
    let live: Vec<_> = core.get_linked_list().iter().flatten().collect();
    assert_eq!(live.len(), 1);
    assert_eq!(live[0].get_size(), 100);
    assert_eq!(live[0].get_back_link_id(), None);
    assert_eq!(live[0].get_front_link_id(), None);
    assert_eq!(core.get_free_linked_list_index().len(), 3);
}

#[test]
fn allocate_then_free_restores_blocks() {
    let mut allocator = init(2, 1000, SelectorOpt::DIRECT);
    let _x = allocator.allocate(100).unwrap();
    let y = allocator.allocate(50).unwrap();
    let _z = allocator.allocate(200).unwrap();
    y.free(&mut allocator);
    for size in [1, 3, 4, 40, 50, 300, 650] {
        let before = ranges(allocator.borrow_core());
        let a = allocator.allocate(size).unwrap();
        assert_eq!(a.get_size(), size);
        let (s, e) = a.get_range();
        assert!(e - s >= size);
        a.free(&mut allocator);
        assert_eq!(ranges(allocator.borrow_core()), before);
    }
}

#[test]
fn sizes_fill_capacity() {
    let mut allocator = init(4, 5000, SelectorOpt::SCANNING);
    let mut kept = Vec::new();
    for size in [17, 300, 5, 1000, 64, 33] {
        kept.push(allocator.allocate(size).unwrap());
    }
    kept.remove(1).free(&mut allocator);
    kept.remove(2).free(&mut allocator);
    let total: u64 = ranges(allocator.borrow_core()).iter().map(|(s, e, _)| e - s).sum();
    assert_eq!(total, 5000);
    let r = ranges(allocator.borrow_core());
    for w in r.windows(2) {
        assert_eq!(w[0].1, w[1].0);
        assert!(!(w[0].2 && w[1].2));
    }
    while let Some(a) = kept.pop() {
        a.free(&mut allocator);
    }
    assert_eq!(ranges(allocator.borrow_core()), vec![(0, 5000, true)]);
}

#[test]
fn idle_allocator_serves_up_to_capacity() {
    for selector in [SelectorOpt::DIRECT, SelectorOpt::SCANNING] {
        for size in [8, 9, 100, 511, 512, 999, 1000] {
            let mut allocator = init(3, 1000, selector);
            let a = allocator.allocate(size).unwrap();
            assert_eq!(a.get_range().0, 0);
        }
    }
}

#[test]
fn direct_and_scanning_choose_differently() {
    for (selector, expected) in [(SelectorOpt::SCANNING, 59), (SelectorOpt::DIRECT, 121)] {
        let mut allocator = init(2, 1024, selector);
        let a = allocator.allocate(28).unwrap();
        let _b = allocator.allocate(31).unwrap();
        let c = allocator.allocate(31).unwrap();
        let _d = allocator.allocate(31).unwrap();
        a.free(&mut allocator);
        c.free(&mut allocator);
        // category (2, 3) lists the block of 28 first, then that of 31
        let h = allocator.allocate(30).unwrap();
        assert_eq!(h.get_range().0, expected);
    }
}

#[test]
fn handle_knows_its_allocator() {
    let mut allocator = init(2, 64, SelectorOpt::DIRECT);
    let a = allocator.allocate(8).unwrap();
    assert!(a.get_module().is_ok());
    let b = allocator.borrow_mut_core().allocate(8).unwrap();
    assert_eq!(b.get_module(), Err("Error, module is not initialized".to_string()));
    let before = ranges(allocator.borrow_core());
    // a handle that no allocator handed out frees nothing
    b.free(&mut allocator);
    assert_eq!(ranges(allocator.borrow_core()), before);
    a.free(&mut allocator);
    assert_eq!(ranges(allocator.borrow_core()), vec![(0, 8, true), (8, 16, false), (16, 64, true)]);
    assert_eq!(allocator.get_core().get_max_size(), 64);
}

#[test]
fn clean_entries_of_block_list() {
    let mut allocator = init(2, 64, SelectorOpt::DIRECT);
    let core = allocator.borrow_mut_core();
    assert_eq!(core.clean_node_in_linked_list(0), Ok(()));
    assert!(core.get_linked_list()[0].is_none());
    assert_eq!(core.get_free_linked_list_index(), &vec![0]);
    core.clean_node_in_linked_list_unchecked(0);
    assert_eq!(core.get_free_linked_list_index(), &vec![0, 0]);
}

#[test]
fn clean_link_of_category() {
    let mut allocator = init(2, 64, SelectorOpt::DIRECT);
    let core = allocator.borrow_mut_core();
    // 64 falls in category (4, 0)
    assert_eq!(core.clean_free_node_in_fl_sl(4, 0, 0), Ok(()));
    assert_eq!(core.bitmap(), 0);
    let second = &core.get_fl_list()[4].sl_list[0];
    assert_eq!(second.count, 0);
    assert_eq!(second.head_link, None);
    assert_eq!(second.end_link, None);
    assert!(second.link_list[0].is_none());
    assert_eq!(second.free_link_list, vec![0]);
}

#[test]
fn update_free_node_refuses_missing_targets() {
    let mut allocator = init(2, 64, SelectorOpt::DIRECT);
    let core = allocator.borrow_mut_core();
    // 64 falls in category (4, 0), filed at slot 0
    assert_eq!(
        core.update_free_node(None, None, None, None, 5, 0, 0, 0),
        Err("Error, The first level with index 5 does not exist".to_string())
    );
    assert_eq!(
        core.update_free_node(None, None, None, None, 4, 4, 0, 0),
        Err("Error, The second level with index 4 in the first level with index 4 does not exist".to_string())
    );
    assert_eq!(
        core.update_free_node(None, None, None, None, 4, 0, 1, 0),
        Err("Error, link index 1 mengarahkan ke pada index yang tidak exist pada first level 4, second level 0"
            .to_string())
    );
    assert_eq!(
        core.update_free_node(None, None, None, None, 3, 1, 0, 0),
        Err("Error, link index 0 mengarahkan ke pada index yang tidak exist pada first level 3, second level 1"
            .to_string())
    );
    core.fl_list[4].sl_list[0].link_list[0].as_mut().unwrap().node_link = 7;
    assert_eq!(
        core.update_free_node(None, None, None, None, 4, 0, 0, 0),
        Err("Error, link index 0 mengarah ke index yang tidak exist pada linked_list".to_string())
    );
    core.fl_list[4].sl_list[0].link_list[0].as_mut().unwrap().node_link = 0;
    core.clean_node_in_linked_list(0).unwrap();
    assert_eq!(
        core.update_free_node(None, None, None, None, 4, 0, 0, 0),
        Err("Error, link index 0 mengarah ke index yang bernilai None linked_list".to_string())
    );
}

#[test]
fn update_free_node_refuses_empty_slot() {
    let mut allocator = init(2, 64, SelectorOpt::DIRECT);
    let _all = allocator.allocate(64).unwrap();
    let core = allocator.borrow_mut_core();
    assert_eq!(
        core.update_free_node(None, None, None, None, 4, 0, 0, 0),
        Err("Error, link index 0 mengarahkan ke pada index yang bernilai Nonde pada first level 4, second level 0"
            .to_string())
    );
}

#[test]
fn update_free_node_moves_and_refiles() {
    let mut allocator = init(2, 64, SelectorOpt::DIRECT);
    let core = allocator.borrow_mut_core();
    assert_eq!(core.update_free_node(Some(3), None, Some(Some(1)), None, 4, 0, 0, 10), Ok(()));
    let node = core.get_linked_list()[0].as_ref().unwrap();
    assert_eq!(node.get_index(), 3);
    assert_eq!(node.get_back_link_id(), Some(1));
    assert_eq!(node.get_front_link_id(), None);
    assert_eq!(node.get_range(), (10, 64));
    assert_eq!(node.get_size(), 64);
    assert_eq!(*node.get_status(), NodeStatus::Free(4, 0, monagement::SlIdx(0)));

    // with a size, the block moves to the category of that size: 20 falls in (2, 1)
    assert_eq!(core.update_free_node(None, Some(20), None, Some(Some(2)), 4, 0, 0, 44), Ok(()));
    let node = core.get_linked_list()[0].as_ref().unwrap();
    assert_eq!(node.get_size(), 20);
    assert_eq!(node.get_range(), (44, 64));
    assert_eq!(node.get_front_link_id(), Some(2));
    assert_eq!(*node.get_status(), NodeStatus::Free(2, 1, monagement::SlIdx(0)));
    // the new link names the block's index, 3, given by the first call
    let link = core.get_fl_list()[2].sl_list[1].link_list[0].as_ref().unwrap();
    assert_eq!(link.node_link, 3);
    assert_eq!(core.get_fl_list()[4].sl_list[0].count, 0);
    assert_eq!(core.get_fl_list()[2].sl_list[1].count, 1);
    assert_eq!(core.bitmap(), 1 << 2);
    assert_eq!(core.get_fl_list()[2].bitmap, 1 << 1);
}

#[test]
fn handle_range_is_the_request() {
    let mut m = init(2, 1024, SelectorOpt::SCANNING);
    let mut kept = Vec::new();
    for n in [28, 31, 31, 31, 29, 31, 31] {
        kept.push(m.allocate(n).unwrap());
    }
    let e = kept.remove(4);
    let c = kept.remove(2);
    let a = kept.remove(0);
    a.free(&mut m);
    c.free(&mut m);
    e.free(&mut m);
    // the block of 31 is handed out whole for a request of 30
    let h = m.allocate(30).unwrap();
    assert_eq!(h.get_size(), 30);
    assert_eq!(h.get_range(), (59, 89));
    assert_eq!(h.get_node_range(), (59, 90));
    let split = m.allocate(100).unwrap();
    assert_eq!(split.get_range(), split.get_node_range());
    assert_eq!(split.get_range().1 - split.get_range().0, 100);
}

#[test]
fn update_free_node_sizes() {
    // a missing target is refused whatever size is given, 0 included
    let mut allocator = init(3, 1000, SelectorOpt::DIRECT);
    let core = allocator.borrow_mut_core();
    assert_eq!(
        core.update_free_node(None, Some(0), None, None, 9, 0, 0, 0),
        Err("Error, The first level with index 9 does not exist".to_string())
    );
    // 1000 falls in category (6, 7); a size above the capacity whose
    // category is in the table is taken
    assert_eq!(core.update_free_node(None, Some(1020), None, None, 6, 7, 0, 0), Ok(()));
    let node = core.get_linked_list()[0].as_ref().unwrap();
    assert_eq!(node.get_size(), 1020);
    assert_eq!(*node.get_status(), NodeStatus::Free(6, 7, monagement::SlIdx(0)));
    // a size beyond the table is refused with the error that names the
    // target's first level, once the block has moved and left its category
    assert_eq!(
        core.update_free_node(None, Some(5000), None, None, 6, 7, 0, 500),
        Err("Error, The first level with index 6 does not exist".to_string())
    );
    let node = core.get_linked_list()[0].as_ref().unwrap();
    assert_eq!(node.get_range(), (500, 1000));
    assert_eq!(node.get_size(), 1020);
    let second = &core.get_fl_list()[6].sl_list[7];
    assert_eq!(second.count, 0);
    assert!(second.link_list[0].is_none());
    assert_eq!(second.free_link_list, vec![0]);
    assert_eq!(core.bitmap(), 0);
}

#[test]
fn init_refuses_small_capacity_for_large_start() {
    let r = Monagement::init(MonagementInit { start: 7, maximum: 100, selector_opt: SelectorOpt::DIRECT });
    assert_eq!(r.err().unwrap(), "Error, Allocator Minimum Size Is 128");
    let r = MonagementCore::init(MonagementInit { start: 63, maximum: 5, selector_opt: SelectorOpt::SCANNING });
    assert_eq!(r.err().unwrap(), "Error, Allocator Minimum Size Is 9223372036854775808");
}
