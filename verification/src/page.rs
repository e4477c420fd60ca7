//! Pages and physical memory regions.

use vstd::prelude::*;

verus! {

/// Size of one page in bytes.
pub const PAGE_SIZE: usize = 4096;

/// The number of whole pages needed to hold `bytes` bytes.
pub open spec fn min_pages_spec(bytes: nat) -> nat {
    bytes / (PAGE_SIZE as nat) + if bytes % (PAGE_SIZE as nat) == 0 {
        0nat
    } else {
        1nat
    }
}

/// The number of whole pages needed to hold `bytes` bytes.
pub fn min_pages_for_bytes(bytes: usize) -> (r: usize)
    ensures
        r == min_pages_spec(bytes as nat),
{
    bytes / PAGE_SIZE + if bytes % PAGE_SIZE == 0 {
        0
    } else {
        1
    }
}

/// A physical memory region reported by the bootloader: a byte address and
/// a byte size, not necessarily page-aligned.
pub struct MemoryRegion {
    pub base: u64,
    pub size: u64,
}

impl MemoryRegion {
    /// The gap from `base` up to the next page boundary.
    pub open spec fn align_gap_spec(&self) -> int {
        ((PAGE_SIZE - (self.base as int) % (PAGE_SIZE as int)) % (PAGE_SIZE as int))
    }

    /// Trim this region to whole pages: the first page boundary at or after
    /// `base`, and the number of whole pages that fit in what remains.
    /// Returns the page-aligned base address and the page count.
    pub fn page_span(&self) -> (r: (u64, u64))
        requires
            self.align_gap_spec() <= self.size,
            self.base + PAGE_SIZE <= u64::MAX,
        ensures
            r.0 == self.base + self.align_gap_spec(),
            r.0 as nat % (PAGE_SIZE as nat) == 0,
            r.1 == ((self.size - self.align_gap_spec()) as nat) / (PAGE_SIZE as nat),
    {
        let ps = PAGE_SIZE as u64;
        let align = (ps - self.base % ps) % ps;
        let base = self.base + align;
        let count = (self.size - align) / ps;
        proof {
            vstd::arithmetic::div_mod::lemma_mod_division_less_than_divisor(
                self.base as int,
                ps as int,
            );
            assert(base as nat % (PAGE_SIZE as nat) == 0) by {
                let b = self.base as int;
                let p = ps as int;
                if b % p == 0 {
                    assert(align == 0);
                    assert((b + 0) % p == 0);
                } else {
                    assert(align == p - b % p);
                    vstd::arithmetic::div_mod::lemma_fundamental_div_mod(b, p);
                    assert(b + align == p * (b / p) + p);
                    assert((p * (b / p) + p) % p == 0) by {
                        vstd::arithmetic::div_mod::lemma_mod_multiples_vanish(b / p + 1, 0, p);
                    }
                }
            }
        }
        (base, count)
    }
}

} // verus!
