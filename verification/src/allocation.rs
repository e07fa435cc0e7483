//! Bookkeeping for page-sized arena allocations: how a requested layout is
//! rounded to the page size, how an allocation grows, and how many of its
//! bytes are still free.  The memory itself comes from the operating system
//! and is not modelled here; this is the arithmetic that governs it.

use vstd::prelude::*;

verus! {

/// Every allocation is rounded up to this many bytes.
pub const PAGE_SIZE: usize = 16384;

/// The page size allocations are rounded to.
pub fn page_size() -> (r: usize)
    ensures
        r == PAGE_SIZE,
{
    PAGE_SIZE
}

/// Whether a number is a power of two.
pub open spec fn is_pow2(n: nat) -> bool
    decreases n,
{
    if n == 0 {
        false
    } else if n == 1 {
        true
    } else {
        n % 2 == 0 && is_pow2(n / 2)
    }
}

/// `size` rounded up to the next multiple of `align`.
pub open spec fn round_up(size: nat, align: nat) -> nat {
    ((size + align - 1) / (align as int) * (align as int)) as nat
}

/// Why an allocation request failed.
#[derive(Debug, PartialEq, Eq)]
pub enum AllocFailed {
    /// The operating system refused the request.
    OsAllocFailed,
    /// The rounded size would not fit a valid layout.
    InvalidLayout,
}

/// The bookkeeping of one page-rounded allocation: its total size, its
/// alignment, and how many bytes are already used.
#[derive(Debug, PartialEq, Eq)]
pub struct Allocation {
    size: usize,
    align: usize,
    bytes_used: usize,
}

impl Allocation {
    /// The allocation's total size in bytes.
    pub closed spec fn size(self) -> nat {
        self.size as nat
    }

    /// The allocation's alignment in bytes.
    pub closed spec fn align(self) -> nat {
        self.align as nat
    }

    /// How many bytes of the allocation are used.
    pub closed spec fn used(self) -> nat {
        self.bytes_used as nat
    }

    /// The bookkeeping invariant: a power-of-two alignment, no more bytes
    /// used than exist, and a size a valid layout can carry.
    pub open spec fn wf(self) -> bool {
        &&& is_pow2(self.align())
        &&& self.used() <= self.size()
        &&& self.size() <= isize::MAX as nat
    }

    /// Books a fresh allocation: the alignment is raised to at least the
    /// page size, and the size is padded to a multiple of that alignment.
    /// Fails with `InvalidLayout` exactly when the padded size would
    /// overflow `isize::MAX`.
    pub fn alloc_virtual(size: usize, align: usize) -> (r: Result<Allocation, AllocFailed>)
        requires
            is_pow2(align as nat),
        ensures
            ({
                let align2 = if align >= PAGE_SIZE {
                    align as nat
                } else {
                    PAGE_SIZE as nat
                };
                if size + align2 - 1 <= isize::MAX {
                    match r {
                        Result::Ok(a) => a.wf() && a.align() == align2 && a.size() == round_up(
                            size as nat,
                            align2,
                        ) && a.used() == 0,
                        Result::Err(_) => false,
                    }
                } else {
                    r == Result::<Allocation, AllocFailed>::Err(AllocFailed::InvalidLayout)
                }
            }),
    {
        let align2: usize = if align >= PAGE_SIZE {
            align
        } else {
            PAGE_SIZE
        };
        proof {
            lemma_pow2_page_size();
            assert(align2 >= 1) by {
                if align2 as nat == 0 {
                    assert(!is_pow2(0));
                }
            }
        }
        let limit: usize = isize::MAX as usize;
        if align2 - 1 > limit || size > limit - (align2 - 1) {
            return Result::Err(AllocFailed::InvalidLayout);
        }
        proof {
            assert((size + (align2 - 1)) as int / (align2 as int) * (align2 as int) <= size + (
            align2 - 1)) by (nonlinear_arith)
                requires
                    align2 >= 1,
            ;
        }
        let padded: usize = (size + (align2 - 1)) / align2 * align2;
        Result::Ok(Allocation { size: padded, align: align2, bytes_used: 0 })
    }

    /// Grows the booked size by the desired number of bytes, saturating at
    /// the address-space limit.  Fails with `InvalidLayout` exactly when the
    /// new size, rounded up to the alignment, would overflow `isize::MAX`;
    /// the allocation is then left unchanged.
    pub fn grow(&mut self, additional_bytes_desired: usize) -> (r: Result<(), AllocFailed>)
        requires
            old(self).wf(),
        ensures
            final(self).wf(),
            ({
                let new_size: int = if old(self).size() + additional_bytes_desired <= usize::MAX {
                    old(self).size() + additional_bytes_desired
                } else {
                    usize::MAX as int
                };
                if new_size + old(self).align() - 1 <= isize::MAX {
                    &&& r == Result::<(), AllocFailed>::Ok(())
                    &&& final(self).size() == new_size
                    &&& final(self).align() == old(self).align()
                    &&& final(self).used() == old(self).used()
                } else {
                    &&& r == Result::<(), AllocFailed>::Err(AllocFailed::InvalidLayout)
                    &&& *final(self) == *old(self)
                }
            }),
    {
        let new_size = self.size.saturating_add(additional_bytes_desired);
        let limit: usize = isize::MAX as usize;
        proof {
            assert(self.align >= 1) by {
                if self.align as nat == 0 {
                    assert(!is_pow2(0));
                }
            }
        }
        if self.align - 1 > limit || new_size > limit - (self.align - 1) {
            return Result::Err(AllocFailed::InvalidLayout);
        }
        self.size = new_size;
        Result::Ok(())
    }

    /// How many booked bytes are still free.
    pub fn bytes_remaining(&self) -> (r: u64)
        ensures
            r == if self.used() <= self.size() {
                self.size() - self.used()
            } else {
                0int
            },
    {
        if self.bytes_used <= self.size {
            (self.size - self.bytes_used) as u64
        } else {
            0
        }
    }
}

proof fn lemma_pow2_page_size()
    ensures
        is_pow2(PAGE_SIZE as nat),
{
    reveal_with_fuel(is_pow2, 16);
    assert(is_pow2(16384nat));
}

} // verus!
