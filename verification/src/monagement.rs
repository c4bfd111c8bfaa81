use vstd::prelude::*;

verus! {

use vstd::arithmetic::power2::pow2;
use crate::allocated::Allocated;
use crate::monagement_core::MonagementCore;
use crate::monagement_init::MonagementInit;
use crate::node_core::NodeStatus;

/// An allocator: the state of its blocks and categories, handed out and
/// taken back through `Allocated` handles.
pub struct Monagement {
    core: MonagementCore,
}

impl View for Monagement {
    type V = MonagementCore;

    closed spec fn view(&self) -> MonagementCore {
        self.core
    }
}

impl Monagement {
    /// The allocator's state is well formed.
    pub open spec fn wf(self) -> bool {
        self@.wf()
    }

    /// The handle `allocated` may be given back to this allocator: its block
    /// is in use.
    pub open spec fn can_free(self, allocated: Allocated) -> bool {
        &&& self@.live(allocated@.link as int)
        &&& self@.node(allocated@.link as int).status == NodeStatus::Used
    }

    /// Makes an allocator whose whole capacity `[0, maximum)` is one free
    /// block; refuses a capacity below the smallest category `2^start`. A
    /// capacity that is accepted needs `start <= 6`: each first level has
    /// `2^start` second-level classes, marked in one 64-bit bitmap.
    pub fn init(monagement_init: MonagementInit) -> (r: Result<Self, String>)
        requires
            monagement_init.start < 64,
            pow2(monagement_init.start as nat) <= monagement_init.maximum ==> monagement_init.start <= 6,
        ensures
            match r {
                Ok(m) => MonagementCore::init_post(&monagement_init, Ok(m@)),
                Err(e) => MonagementCore::init_post(&monagement_init, Err(e)),
            },
    {
        match MonagementCore::init(monagement_init) {
            Ok(core) => Ok(Monagement { core }),
            Err(e) => Err(e),
        }
    }

    /// Hands out `size` units, as `MonagementCore::allocate` does, with a
    /// handle that knows it came from an allocator.
    pub fn allocate(&mut self, size: u64) -> (r: Result<Allocated, String>)
        requires
            old(self).wf(),
            size > 0,
        ensures
            old(self)@.allocate_post(final(self)@, size, r),
            r matches Ok(a) ==> a@.module,
    {
        match self.core.allocate(size) {
            Ok(a) => {
                let handle = Allocated { module: true, ..a };
                proof {
                    a.lemma_view();
                    handle.lemma_view();
                }
                Ok(handle)
            },
            Err(e) => Err(e),
        }
    }

    /// Takes back the block of `allocated`, merging it with the free blocks
    /// next to it.
    pub fn free(&mut self, allocated: Allocated) -> (r: Result<(), String>)
        requires
            old(self).wf(),
            old(self).can_free(allocated),
        ensures
            r is Ok,
            old(self)@.free_post(final(self)@, allocated@.link as int),
    {
        self.core.free(&allocated)
    }

    pub fn borrow_core(&self) -> (r: &MonagementCore)
        ensures
            *r == self@,
    {
        &self.core
    }

    pub fn borrow_mut_core(&mut self) -> (r: &mut MonagementCore)
        ensures
            *r == old(self)@,
            final(self)@ == *final(r),
    {
        &mut self.core
    }

    pub fn get_core(&self) -> (r: &MonagementCore)
        ensures
            *r == self@,
    {
        &self.core
    }
}

impl Allocated {
    /// Gives this handle back to `allocator`, which frees its block; a handle
    /// that no allocator handed out frees nothing.
    pub fn free(self, allocator: &mut Monagement)
        requires
            old(allocator).wf(),
            self@.module ==> old(allocator).can_free(self),
        ensures
            self@.module ==> old(allocator)@.free_post(final(allocator)@, self@.link as int),
            !self@.module ==> final(allocator)@ == old(allocator)@,
    {
        proof {
            self.lemma_view();
        }
        if self.module {
            let _ = allocator.free(self);
        }
    }
}

} // verus!
