use vstd::prelude::*;

verus! {

use vstd::arithmetic::power2::pow2;

/// How the allocator chooses among the free blocks of one category.
#[allow(non_camel_case_types, clippy::upper_case_acronyms)]
#[derive(Debug, Clone, Copy, PartialEq, Eq, Structural)]
pub enum SelectorOpt {
    /// Look only at the earliest free block of a category.
    DIRECT,
    /// Walk the category's free blocks until one is large enough.
    SCANNING,
}

/// Settings of an allocator: `start` is the exponent of the smallest
/// category (it spans `2^start` sizes and each first-level class has `2^start`
/// second-level classes), `maximum` the capacity.
#[derive(Debug)]
pub struct MonagementInit {
    pub start: u64,
    pub maximum: u64,
    pub selector_opt: SelectorOpt,
}

impl MonagementInit {
    pub fn get_minimum(&self) -> (r: u64)
        requires
            self.start < 64,
        ensures
            r == pow2(self.start as nat),
    {
        proof {
            vstd::bits::lemma_u64_pow2_no_overflow(self.start as nat);
            vstd::bits::lemma_u64_shl_is_mul(1, self.start);
        }
        1u64 << self.start
    }

    pub fn get_raw_minimum(&self) -> (r: u64)
        ensures
            r == self.start,
    {
        self.start
    }

    pub fn get_maximum(&self) -> (r: u64)
        ensures
            r == self.maximum,
    {
        self.maximum
    }
}

impl Default for MonagementInit {
    fn default() -> (r: Self)
        ensures
            r.start == 2,
            r.maximum == 1024,
            r.selector_opt == SelectorOpt::DIRECT,
    {
        MonagementInit { start: 2, maximum: 1024, selector_opt: SelectorOpt::DIRECT }
    }
}

} // verus!
