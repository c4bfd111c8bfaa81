use vstd::prelude::*;

verus! {

/// Position of a free block's link inside the link list of its category.
#[derive(Debug, Clone, Copy, PartialEq, Eq, Structural)]
pub struct SlIdx(pub usize);

/// Whether a block is free (with its first-level category, second-level
/// category and link position) or handed out.
#[derive(Debug, Clone, Copy, PartialEq, Eq, Structural)]
pub enum NodeStatus {
    Free(u64, u64, SlIdx),
    Used,
}

/// A block of the managed range `[start, end)`. `front` is the block just
/// below it, `back` the block just above it.
#[derive(Debug, Clone, Copy)]
pub struct Node {
    pub index: usize,
    pub status: NodeStatus,
    pub size: u64,
    pub back: Option<usize>,
    pub front: Option<usize>,
    pub start: u64,
    pub end: u64,
}

impl Node {
    pub open spec fn is_free(self) -> bool {
        self.status is Free
    }

    pub fn get_index(&self) -> (r: usize)
        ensures
            r == self.index,
    {
        self.index
    }

    pub fn get_status(&self) -> (r: &NodeStatus)
        ensures
            *r == self.status,
    {
        &self.status
    }

    pub fn get_size(&self) -> (r: u64)
        ensures
            r == self.size,
    {
        self.size
    }

    pub fn get_back_link_id(&self) -> (r: Option<usize>)
        ensures
            r == self.back,
    {
        self.back
    }

    pub fn get_front_link_id(&self) -> (r: Option<usize>)
        ensures
            r == self.front,
    {
        self.front
    }

    pub fn get_range(&self) -> (r: (u64, u64))
        ensures
            r == (self.start, self.end),
    {
        (self.start, self.end)
    }
}

} // verus!
