use monagement::{Monagement, MonagementInit, SelectorOpt};

#[test]
fn second_level_linked_list_small_testing() {
    let mut allocator = Monagement::init(MonagementInit {
        start: 2,
        maximum: 1024,
        selector_opt: SelectorOpt::SCANNING,
    })
    .expect("Init Error");

    let _a = allocator.allocate(28).expect("allocate a error");
    let _b = allocator.allocate(31).expect("allocate b error");
    let _c = allocator.allocate(31).expect("allocate c error");
    let _d = allocator.allocate(31).expect("allocate d error");
    let _e = allocator.allocate(29).expect("allocate e error");
    let _f = allocator.allocate(31).expect("allocate f error");
    let _g = allocator.allocate(31).expect("allocate g error");

    _a.free(&mut allocator);
    _c.free(&mut allocator);
    _e.free(&mut allocator);

    {
        let core = allocator.borrow_core();
        let first_level = core.get_fl_list().get(2).expect("msg");
        let second_level = first_level.sl_list.get(3).expect("msg");
        assert_eq!(3, second_level.count);

        let head_link = second_level.head_link.expect("head idx points to an invalid index");
        assert_eq!(head_link, 0);

        let end_link = second_level.end_link.expect("end idx points to an invalid index");
        assert_eq!(end_link, 2);

        let link = second_level
            .link_list
            .get(0)
            .expect("leads to an invalid index")
            .as_ref()
            .expect("leads to a link that has the value None");
        assert_eq!(0, link.index);
        assert_eq!(1, link.node_link);
        let front_link = link.front.expect("front link not initialized");
        assert_eq!(1, front_link);
        if let Some(_) = link.back {
            panic!("this is the first link, there should be no back links")
        }

        let link = second_level
            .link_list
            .get(1)
            .expect("leads to an invalid index")
            .as_ref()
            .expect("leads to a link that has the value None");
        assert_eq!(1, link.index);
        assert_eq!(3, link.node_link);
        let front_link = link.front.expect("front link not initialized");
        assert_eq!(2, front_link);
        let back_link = link.back.expect("back link not initialized");
        assert_eq!(0, back_link);

        let link = second_level
            .link_list
            .get(2)
            .expect("leads to an invalid index")
            .as_ref()
            .expect("leads to a link that has the value None");
        assert_eq!(2, link.index);
        assert_eq!(5, link.node_link);
        if let Some(_) = link.front {
            panic!("this is the last link, there should be no more front links")
        }
        let back_link = link.back.expect("back link not initialized");
        assert_eq!(1, back_link);
    }

    let _h = allocator.allocate(30).expect("allocate h error");
    let _i = allocator.allocate(29).expect("allocate i error");
}
