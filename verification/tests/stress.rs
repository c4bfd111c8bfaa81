use std::time::SystemTime;

use monagement::{Allocated, Monagement, MonagementInit, SelectorOpt};
use rand::random;

#[test]
fn allocating_free_stress() {
    let maximum = 16777216;
    let mut monagement = Monagement::init(MonagementInit {
        start: 3,
        maximum,
        selector_opt: SelectorOpt::SCANNING,
    })
    .unwrap();

    for _ in 0..1000 {
        // the handles kept in this round are given back at its end, the
        // latest first
        let mut kept: Vec<Allocated> = Vec::new();
        for _ in 0..5 {
            let size = random::<u16>() as u64;
            let a = if size > 0 {
                let drop_stat = rand::random_bool(0.5);
                let a = monagement.allocate(size).unwrap();
                if drop_stat {
                    a.free(&mut monagement);
                    None
                } else {
                    Some(a)
                }
            } else {
                None
            };

            if let Some(allocated) = &a {
                let allocator = monagement.borrow_core();
                let node = allocator
                    .get_linked_list()
                    .get(allocated.get_link())
                    .expect("Error, index points to an invalid index")
                    .as_ref()
                    .expect("Error, Node is None");

                let range = node.get_range();
                if range.1 - range.0 != size {
                    panic!("Error, size and range are not related")
                }
            }
            if let Some(allocated) = a {
                kept.push(allocated);
            }
        }
        while let Some(allocated) = kept.pop() {
            allocated.free(&mut monagement);
        }
    }

    let size = monagement
        .borrow_core()
        .get_linked_list()
        .iter()
        .find(|node| if let Some(_) = node { true } else { false })
        .expect("free node not found")
        .as_ref()
        .unwrap()
        .get_size();

    assert_eq!(maximum, size);
}

#[test]
fn test_peforma() {
    let maximum = 16777216;
    let mut allocator = Monagement::init(MonagementInit {
        start: 5,
        maximum,
        selector_opt: SelectorOpt::SCANNING,
    })
    .unwrap();

    let count = 500000;
    let tick = std::time::SystemTime::now()
        .duration_since(SystemTime::UNIX_EPOCH)
        .unwrap()
        .as_millis();

    for _ in 0..count {
        let allocated = allocator.allocate(1000).unwrap();
        allocated.free(&mut allocator);
    }

    let tock = std::time::SystemTime::now()
        .duration_since(SystemTime::UNIX_EPOCH)
        .unwrap()
        .as_millis();

    println!("\ntested monagement with an allocation of 500,000 times and immediately cleared");
    println!("total\t: {} ms", tock - tick);
    println!("mean\t: {} ms", (tock as f64 - tick as f64) / count as f64)
}
