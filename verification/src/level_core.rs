use vstd::prelude::*;

verus! {

/// One first-level class: how many free blocks it holds, which of its
/// second-level classes hold any, and those classes.
pub struct FirstLevel {
    pub count: u64,
    pub bitmap: u64,
    pub sl_list: Vec<SecondLevel>,
}

/// A link of a second-level class: it sits at position `index` of the
/// class's link list and names the free block `node_link`. `back` is the
/// link before it, `front` the link after it.
#[derive(Debug, Clone, Copy)]
pub struct SecondLevelLink {
    pub index: usize,
    pub node_link: usize,
    pub front: Option<usize>,
    pub back: Option<usize>,
}

/// A second-level class: a doubly linked list of links to its free blocks,
/// kept in the slots of `link_list`; `free_link_list` holds the empty slots
/// that are reused before the list grows.
pub struct SecondLevel {
    pub count: u64,
    pub head_link: Option<usize>,
    pub end_link: Option<usize>,
    pub link_list: Vec<Option<SecondLevelLink>>,
    pub free_link_list: Vec<usize>,
    /// The slots of the list, from head to end.
    pub slots: Ghost<Seq<usize>>,
}

impl SecondLevel {
    pub open spec fn link(self, slot: int) -> SecondLevelLink {
        self.link_list@[slot]->0
    }

    /// The link at position `k` of the list is stored at its slot, names that
    /// slot, and points to its neighbours in the list.
    pub open spec fn link_ok(self, k: int) -> bool {
        let l = self.slots@;
        let slot = l[k] as int;
        &&& 0 <= slot < self.link_list@.len()
        &&& self.link_list@[slot] is Some
        &&& self.link(slot).index == l[k]
        &&& self.link(slot).back == (if k == 0 { None } else { Some(l[k - 1]) })
        &&& self.link(slot).front == (if k + 1 == l.len() { None } else { Some(l[k + 1]) })
    }

    pub open spec fn wf(self) -> bool {
        let l = self.slots@;
        let f = self.free_link_list@;
        &&& l.no_duplicates()
        &&& self.count == l.len()
        &&& forall|k: int| 0 <= k < l.len() ==> #[trigger] self.link_ok(k)
        &&& forall|j: int|
            0 <= j < self.link_list@.len() ==> (#[trigger] self.link_list@[j] is Some <==> l.contains(
                j as usize,
            ))
        &&& self.head_link == (if l.len() == 0 { None } else { Some(l[0]) })
        &&& self.end_link == (if l.len() == 0 { None } else { Some(l.last()) })
        &&& f.no_duplicates()
        &&& forall|k: int|
            0 <= k < f.len() ==> #[trigger] f[k] < self.link_list@.len() && self.link_list@[f[k] as int] is None
        &&& forall|j: int|
            0 <= j < self.link_list@.len() && #[trigger] self.link_list@[j] is None ==> f.contains(j as usize)
    }

    /// The slot that the next link of this class goes into.
    pub open spec fn next_slot(self) -> usize {
        if self.free_link_list@.len() > 0 {
            self.free_link_list@.last()
        } else {
            self.link_list@.len() as usize
        }
    }

    /// The free blocks that the list names, from head to end.
    pub open spec fn nodes(self) -> Seq<usize> {
        self.slots@.map_values(|slot: usize| self.link(slot as int).node_link)
    }

    /// Every slot other than `slot` keeps whether it holds a link and which
    /// free block that link names.
    pub open spec fn links_kept(self, other: Self, slot: int) -> bool {
        forall|j: int|
            0 <= j < self.link_list@.len() && j != slot ==> {
                &&& (#[trigger] other.link_list@[j] is Some <==> self.link_list@[j] is Some)
                &&& (self.link_list@[j] is Some ==> other.link(j).node_link == self.link(j).node_link)
            }
    }

    pub fn new() -> (r: Self)
        ensures
            r.wf(),
            r.slots@ == Seq::<usize>::empty(),
            r.link_list@ == Seq::<Option<SecondLevelLink>>::empty(),
            r.free_link_list@ == Seq::<usize>::empty(),
    {
        SecondLevel {
            count: 0,
            head_link: None,
            end_link: None,
            link_list: Vec::new(),
            free_link_list: Vec::new(),
            slots: Ghost(Seq::empty()),
        }
    }
}

impl SecondLevel {
    /// Takes the link in `slot` out of the list and keeps the slot for reuse.
    pub(crate) fn unlink(&mut self, slot: usize)
        requires
            old(self).wf(),
            slot < old(self).link_list@.len(),
            old(self).link_list@[slot as int] is Some,
        ensures
            final(self).wf(),
            old(self).slots@.contains(slot),
            final(self).slots@ == old(self).slots@.remove(old(self).slots@.index_of(slot)),
            final(self).count == old(self).count - 1,
            final(self).link_list@.len() == old(self).link_list@.len(),
            final(self).link_list@[slot as int] is None,
            old(self).links_kept(*final(self), slot as int),
            final(self).free_link_list@ == old(self).free_link_list@.push(slot),
            final(self).nodes() == old(self).nodes().remove(old(self).slots@.index_of(slot)),
    {
        let ghost l = self.slots@;
        let ghost p = l.index_of(slot);
        proof {
            assert(self.link_list@[slot as int] is Some);
            assert(l.contains(slot));
            assert(l[p] == slot);
            assert(self.link_ok(p));
        }
        let link = self.link_list[slot].unwrap();
        let head_idx = self.head_link.unwrap();
        let end_idx = self.end_link.unwrap();
        proof {
            assert(head_idx == slot <==> p == 0) by {
                if head_idx == slot && p != 0 {
                    assert(l[0] == l[p]);
                }
            }
            assert(end_idx == slot <==> p == l.len() - 1) by {
                if end_idx == slot && p != l.len() - 1 {
                    assert(l[l.len() - 1] == l[p]);
                }
            }
            if p > 0 {
                assert(self.link_ok(p - 1));
            }
            if p + 1 < l.len() {
                assert(self.link_ok(p + 1));
            }
        }
        if head_idx == slot && end_idx == slot {
            self.head_link = None;
            self.end_link = None;
        } else if head_idx == slot {
            self.head_link = link.front;
            if let Some(front_idx) = link.front {
                let mut front_link = self.link_list[front_idx].unwrap();
                front_link.back = None;
                self.link_list.set(front_idx, Some(front_link));
            }
        } else if end_idx == slot {
            self.end_link = link.back;
            if let Some(back_idx) = link.back {
                let mut back_link = self.link_list[back_idx].unwrap();
                back_link.front = None;
                self.link_list.set(back_idx, Some(back_link));
            }
        } else {
            if let Some(front_idx) = link.front {
                let mut front_link = self.link_list[front_idx].unwrap();
                front_link.back = link.back;
                self.link_list.set(front_idx, Some(front_link));
            }
            if let Some(back_idx) = link.back {
                let mut back_link = self.link_list[back_idx].unwrap();
                back_link.front = link.front;
                self.link_list.set(back_idx, Some(back_link));
            }
        }
        self.link_list.set(slot, None);
        self.free_link_list.push(slot);
        self.count = self.count - 1;
        let ghost new_l = l.remove(p);
        self.slots = Ghost(new_l);
        proof {
            assert forall|k: int| 0 <= k < new_l.len() implies #[trigger] self.link_ok(k) by {
                if k < p {
                    assert(old(self).link_ok(k));
                    assert(new_l[k] == l[k]);
                    if k > 0 {
                        assert(new_l[k - 1] == l[k - 1]);
                    }
                    if k + 1 < p {
                        assert(new_l[k + 1] == l[k + 1]);
                    } else {
                        assert(k + 1 == p);
                        if k + 1 < new_l.len() {
                            assert(new_l[k + 1] == l[k + 2]);
                        }
                    }
                } else {
                    assert(old(self).link_ok(k + 1));
                    assert(new_l[k] == l[k + 1]);
                    if k > p {
                        assert(new_l[k - 1] == l[k]);
                    } else if k > 0 {
                        assert(new_l[k - 1] == l[k - 1]);
                    }
                    if k + 1 < new_l.len() {
                        assert(new_l[k + 1] == l[k + 2]);
                    }
                }
            }
            assert forall|j: int| 0 <= j < self.link_list@.len() implies (#[trigger] self.link_list@[j] is Some
                <==> new_l.contains(j as usize)) by {
                if j == slot as int {
                    if new_l.contains(j as usize) {
                        let q = choose|q: int| 0 <= q < new_l.len() && new_l[q] == j as usize;
                        if q < p {
                            assert(l[q] == l[p]);
                        } else {
                            assert(l[q + 1] == l[p]);
                        }
                    }
                } else {
                    assert(self.link_list.len() == self.link_list@.len());
                    assert((j as usize) as int == j);
                    assert(old(self).link_list@[j] is Some <==> l.contains(j as usize));
                    if l.contains(j as usize) {
                        let q = choose|q: int| 0 <= q < l.len() && l[q] == j as usize;
                        assert(q != p);
                        if q < p {
                            assert(new_l[q] == l[q]);
                        } else {
                            assert(new_l[q - 1] == l[q]);
                        }
                    }
                    if new_l.contains(j as usize) {
                        let q = choose|q: int| 0 <= q < new_l.len() && new_l[q] == j as usize;
                        if q < p {
                            assert(l[q] == new_l[q]);
                        } else {
                            assert(l[q + 1] == new_l[q]);
                        }
                    }
                }
            }
            let f = self.free_link_list@;
            assert forall|k: int| 0 <= k < f.len() implies #[trigger] f[k] < self.link_list@.len()
                && self.link_list@[f[k] as int] is None by {
                if k < f.len() - 1 {
                    assert(old(self).free_link_list@[k] == f[k]);
                    assert(f[k] != slot) by {
                        assert(old(self).link_list@[f[k] as int] is None);
                    }
                }
            }
            assert(f.no_duplicates()) by {
                assert forall|a: int, b: int| 0 <= a < b < f.len() implies f[a] != f[b] by {
                    if b == f.len() - 1 {
                        assert(old(self).link_list@[f[a] as int] is None);
                    }
                }
            }
            assert forall|j: int| 0 <= j < self.link_list@.len() && #[trigger] self.link_list@[j] is None implies f.contains(
                j as usize,
            ) by {
                if j == slot as int {
                    assert(f[f.len() - 1] == slot);
                } else {
                    assert(self.link_list.len() == self.link_list@.len());
                    assert((j as usize) as int == j);
                    assert(old(self).link_list@[j] is Some <==> l.contains(j as usize));
                    if l.contains(j as usize) {
                        let q = choose|q: int| 0 <= q < l.len() && l[q] == j as usize;
                        assert(q != p);
                        if q < p {
                            assert(new_l[q] == l[q]);
                        } else {
                            assert(new_l[q - 1] == l[q]);
                        }
                    }
                    let of = old(self).free_link_list@;
                    assert(of.contains(j as usize));
                    let k = choose|k: int| 0 <= k < of.len() && of[k] == j as usize;
                    assert(f[k] == j as usize);
                }
            }
            assert(new_l.no_duplicates()) by {
                assert forall|a: int, b: int| 0 <= a < b < new_l.len() implies new_l[a] != new_l[b] by {
                    let a0 = if a < p { a } else { a + 1 };
                    let b0 = if b < p { b } else { b + 1 };
                    assert(new_l[a] == l[a0] && new_l[b] == l[b0]);
                }
            }
            assert forall|k: int| 0 <= k < new_l.len() implies #[trigger] self.nodes()[k] == old(self).nodes().remove(p)[k] by {
                let k0 = if k < p { k } else { k + 1 };
                assert(new_l[k] == l[k0]);
                assert(old(self).link_ok(k0));
                assert(l[k0] != slot);
            }
            assert(self.nodes() =~= old(self).nodes().remove(p));
            if new_l.len() > 0 {
                if p == 0 {
                    assert(new_l[0] == l[1]);
                } else {
                    assert(new_l[0] == l[0]);
                }
                if p == l.len() - 1 {
                    assert(new_l.last() == l[l.len() - 2]);
                } else {
                    assert(new_l.last() == l.last());
                }
            }
        }
    }

    /// Files a link to `node_link` at the end of the list, in a reused slot
    /// when there is one and in a new slot otherwise.
    pub(crate) fn append(&mut self, node_link: usize) -> (slot: usize)
        requires
            old(self).wf(),
            old(self).count < u64::MAX,
        ensures
            final(self).wf(),
            slot == old(self).next_slot(),
            !old(self).slots@.contains(slot),
            final(self).slots@ == old(self).slots@.push(slot),
            final(self).count == old(self).count + 1,
            final(self).link_list@.len() == (if old(self).free_link_list@.len() > 0 {
                old(self).link_list@.len()
            } else {
                old(self).link_list@.len() + 1
            }),
            final(self).free_link_list@ == (if old(self).free_link_list@.len() > 0 {
                old(self).free_link_list@.drop_last()
            } else {
                old(self).free_link_list@
            }),
            slot < final(self).link_list@.len(),
            final(self).link_list@[slot as int] is Some,
            final(self).link(slot as int).node_link == node_link,
            old(self).links_kept(*final(self), slot as int),
            final(self).nodes() == old(self).nodes().push(node_link),
    {
        let ghost l = self.slots@;
        let ghost old_free = self.free_link_list@;
        let (sl_idx, push_handler) = if let Some(idx) = self.free_link_list.pop() {
            (idx, false)
        } else {
            (self.link_list.len(), true)
        };
        proof {
            if !push_handler {
                assert(old_free[old_free.len() - 1] == sl_idx);
                assert(self.link_list@[sl_idx as int] is None);
            }
            assert(!l.contains(sl_idx)) by {
                if l.contains(sl_idx) {
                    let q = choose|q: int| 0 <= q < l.len() && l[q] == sl_idx;
                    assert(old(self).link_ok(q));
                }
            }
            if l.len() > 0 {
                assert(old(self).link_ok(l.len() - 1));
            }
        }
        if let None = self.head_link {
            self.head_link = Some(sl_idx);
            self.end_link = Some(sl_idx);
            let second_level_link = SecondLevelLink { index: sl_idx, node_link, back: None, front: None };
            if push_handler {
                self.link_list.push(Some(second_level_link));
            } else {
                self.link_list.set(sl_idx, Some(second_level_link));
            }
        } else if let Some(end_idx) = self.end_link {
            self.end_link = Some(sl_idx);
            let mut end_link = self.link_list[end_idx].unwrap();
            end_link.front = Some(sl_idx);
            self.link_list.set(end_idx, Some(end_link));
            let second_level_link = SecondLevelLink {
                index: sl_idx,
                node_link,
                back: Some(end_idx),
                front: None,
            };
            if push_handler {
                self.link_list.push(Some(second_level_link));
            } else {
                self.link_list.set(sl_idx, Some(second_level_link));
            }
        }
        self.count = self.count + 1;
        let ghost new_l = l.push(sl_idx);
        self.slots = Ghost(new_l);
        proof {
            assert forall|k: int| 0 <= k < new_l.len() implies #[trigger] self.link_ok(k) by {
                if k < l.len() {
                    assert(old(self).link_ok(k));
                    assert(new_l[k] == l[k]);
                    if k > 0 {
                        assert(new_l[k - 1] == l[k - 1]);
                    }
                }
            }
            assert forall|j: int| 0 <= j < self.link_list@.len() implies (#[trigger] self.link_list@[j] is Some
                <==> new_l.contains(j as usize)) by {
                if j == sl_idx as int {
                    assert(new_l[l.len() as int] == sl_idx);
                } else {
                    assert(self.link_list.len() == self.link_list@.len());
                    assert((j as usize) as int == j);
                    assert(old(self).link_list@[j] is Some <==> l.contains(j as usize));
                    if l.contains(j as usize) {
                        let q = choose|q: int| 0 <= q < l.len() && l[q] == j as usize;
                        assert(new_l[q] == l[q]);
                    }
                    if new_l.contains(j as usize) {
                        let q = choose|q: int| 0 <= q < new_l.len() && new_l[q] == j as usize;
                        assert(q < l.len());
                        assert(l[q] == new_l[q]);
                    }
                }
            }
            let f = self.free_link_list@;
            assert forall|k: int| 0 <= k < f.len() implies #[trigger] f[k] < self.link_list@.len()
                && self.link_list@[f[k] as int] is None by {
                assert(old_free[k] == f[k]);
                if !push_handler {
                    assert(old_free[k] != old_free[old_free.len() - 1]);
                }
            }
            assert(f.no_duplicates()) by {
                assert forall|a: int, b: int| 0 <= a < b < f.len() implies f[a] != f[b] by {
                    assert(old_free[a] == f[a] && old_free[b] == f[b]);
                }
            }
            assert forall|j: int| 0 <= j < self.link_list@.len() && #[trigger] self.link_list@[j] is None implies f.contains(
                j as usize,
            ) by {
                assert(j != sl_idx as int);
                assert(self.link_list.len() == self.link_list@.len());
                assert((j as usize) as int == j);
                assert(j < old(self).link_list@.len());
                assert(old(self).link_list@[j] is Some <==> l.contains(j as usize));
                if l.contains(j as usize) {
                    let q = choose|q: int| 0 <= q < l.len() && l[q] == j as usize;
                    assert(new_l[q] == l[q]);
                }
                assert(old_free.contains(j as usize));
                let k = choose|k: int| 0 <= k < old_free.len() && old_free[k] == j as usize;
                if !push_handler {
                    assert(k != old_free.len() - 1);
                }
                assert(f[k] == j as usize);
            }
            assert(new_l.no_duplicates()) by {
                assert forall|a: int, b: int| 0 <= a < b < new_l.len() implies new_l[a] != new_l[b] by {
                    if b == l.len() {
                        assert(l[a] == new_l[a]);
                    }
                }
            }
            assert forall|k: int| 0 <= k < new_l.len() implies #[trigger] self.nodes()[k] == old(self).nodes().push(node_link)[k] by {
                if k < l.len() {
                    assert(new_l[k] == l[k]);
                    assert(old(self).link_ok(k));
                    assert(l[k] != sl_idx);
                }
            }
            assert(self.nodes() =~= old(self).nodes().push(node_link));
        }
        sl_idx
    }
    /// Makes the link in `slot` name the free block `node_link`.
    pub(crate) fn rename_link(&mut self, slot: usize, node_link: usize)
        requires
            old(self).wf(),
            slot < old(self).link_list@.len(),
            old(self).link_list@[slot as int] is Some,
        ensures
            final(self).wf(),
            final(self).link_list@ == old(self).link_list@.update(
                slot as int,
                Some(SecondLevelLink { node_link: node_link, ..old(self).link(slot as int) }),
            ),
            final(self).slots@ == old(self).slots@,
            final(self).free_link_list@ == old(self).free_link_list@,
            final(self).count == old(self).count,
            final(self).head_link == old(self).head_link,
            final(self).end_link == old(self).end_link,
    {
        let mut link = self.link_list[slot].unwrap();
        link.node_link = node_link;
        self.link_list.set(slot, Some(link));
        proof {
            assert forall|k: int| 0 <= k < self.slots@.len() implies #[trigger] self.link_ok(k) by {
                assert(old(self).link_ok(k));
            }
        }
    }
    /// Following the links of a well-formed class from `head_link` visits its
    /// slots in list order, each once: every link names its own slot, its
    /// `back` is the slot before and its `front` the slot after; the slots
    /// that hold a link are exactly those of the list, the others are kept
    /// for reuse, and `count` is the number of links.
    pub proof fn lemma_class_chain(self)
        requires
            self.wf(),
        ensures
            self.slots@.no_duplicates(),
            self.count == self.slots@.len(),
            self.head_link == (if self.slots@.len() == 0 { None } else { Some(self.slots@[0]) }),
            self.end_link == (if self.slots@.len() == 0 { None } else { Some(self.slots@.last()) }),
            forall|k: int|
                #![trigger self.slots@[k]]
                0 <= k < self.slots@.len() ==> {
                    let slot = self.slots@[k] as int;
                    &&& 0 <= slot < self.link_list@.len()
                    &&& self.link_list@[slot] is Some
                    &&& self.link(slot).index == self.slots@[k]
                    &&& self.link(slot).back == (if k == 0 { None } else { Some(self.slots@[k - 1]) })
                    &&& self.link(slot).front == (if k + 1 == self.slots@.len() {
                        None
                    } else {
                        Some(self.slots@[k + 1])
                    })
                },
            forall|j: int|
                0 <= j < self.link_list@.len() ==> (#[trigger] self.link_list@[j] is Some <==> self.slots@.contains(
                    j as usize,
                )),
            forall|j: int|
                0 <= j < self.link_list@.len() ==> (#[trigger] self.link_list@[j] is None <==> self.free_link_list@.contains(
                    j as usize,
                )),
    {
        assert forall|k: int| #![trigger self.slots@[k]] 0 <= k < self.slots@.len() implies {
            let slot = self.slots@[k] as int;
            &&& 0 <= slot < self.link_list@.len()
            &&& self.link_list@[slot] is Some
            &&& self.link(slot).index == self.slots@[k]
            &&& self.link(slot).back == (if k == 0 { None } else { Some(self.slots@[k - 1]) })
            &&& self.link(slot).front == (if k + 1 == self.slots@.len() { None } else { Some(self.slots@[k + 1]) })
        } by {
            assert(self.link_ok(k));
        }
        assert forall|j: int| 0 <= j < self.link_list@.len() implies (#[trigger] self.link_list@[j] is None
            <==> self.free_link_list@.contains(j as usize)) by {
            assert(self.link_list.len() == self.link_list@.len());
            if self.free_link_list@.contains(j as usize) {
                let k = choose|k: int| 0 <= k < self.free_link_list@.len() && self.free_link_list@[k] == j as usize;
                assert(self.free_link_list@[k] < self.link_list@.len());
                assert((j as usize) as int == j);
            }
        }
    }
}

} // verus!
