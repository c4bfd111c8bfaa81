use vstd::prelude::*;

verus! {

/// A handle to an allocated range `[start, end)` of `size` requested units,
/// at the bottom of the block `link`, which spans `[start, node_end)`: the
/// block can be larger when what would have remained of it was too small to
/// keep apart. `module` tells whether an allocator handed it out to its user.
/// Only the library makes handles.
#[derive(Debug)]
pub struct Allocated {
    pub(crate) module: bool,
    pub(crate) size: u64,
    pub(crate) start: u64,
    pub(crate) end: u64,
    pub(crate) node_end: u64,
    pub(crate) link: usize,
}

/// What a handle holds, as the contracts see it.
pub struct AllocatedView {
    pub module: bool,
    pub size: u64,
    pub start: u64,
    pub end: u64,
    pub node_end: u64,
    pub link: usize,
}

impl View for Allocated {
    type V = AllocatedView;

    closed spec fn view(&self) -> AllocatedView {
        AllocatedView {
            module: self.module,
            size: self.size,
            start: self.start,
            end: self.end,
            node_end: self.node_end,
            link: self.link,
        }
    }
}

impl Allocated {
    /// The view holds the handle's fields.
    pub(crate) proof fn lemma_view(&self)
        ensures
            self@ == (AllocatedView {
                module: self.module,
                size: self.size,
                start: self.start,
                end: self.end,
                node_end: self.node_end,
                link: self.link,
            }),
    {
    }
}

impl Allocated {
    /// Succeeds when an allocator handed this handle out.
    pub fn get_module(&self) -> (r: Result<(), String>)
        ensures
            r is Ok <==> self@.module,
            r matches Err(e) ==> e@ == "Error, module is not initialized"@,
    {
        if self.module {
            Ok(())
        } else {
            Err("Error, module is not initialized".to_owned())
        }
    }

    pub fn get_size(&self) -> (r: u64)
        ensures
            r == self@.size,
    {
        self.size
    }

    /// The requested range, `start..start + size`.
    pub fn get_range(&self) -> (r: (u64, u64))
        ensures
            r == (self@.start, self@.end),
    {
        (self.start, self.end)
    }

    /// The range of the whole block that holds the request.
    pub fn get_node_range(&self) -> (r: (u64, u64))
        ensures
            r == (self@.start, self@.node_end),
    {
        (self.start, self.node_end)
    }

    pub fn get_link(&self) -> (r: usize)
        ensures
            r == self@.link,
    {
        self.link
    }
}

} // verus!
