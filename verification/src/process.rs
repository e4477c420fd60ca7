//! Processes: an address space, a handle table, and the threads that run in
//! it. The ELF loader is an external collaborator: given a memory object
//! holding an image, it yields the entry point; this module takes that
//! entry point and builds the ready-to-run process around it.

use crate::address_space::{self, AddressSpace, Mapping, MapError, MemoryObject, RWX};
use crate::page::PAGE_SIZE;
use crate::thread::Thread;
use vstd::prelude::*;

verus! {

/// One process: its user address space, its open handles, and its live
/// threads. Threads point back at their process by plain identifier, so
/// ownership stays acyclic and teardown explicit.
pub struct Process {
    pub id: u64,
    pub address_space: AddressSpace,
    pub handles: Vec<u64>,
    pub threads: Vec<Thread>,
}

impl Process {
    pub open spec fn wf(&self) -> bool {
        self.address_space.wf()
    }

    /// Build a ready-to-run process from a loaded driver image and a fresh
    /// one-page stack object: map both into a new address space with a
    /// guard page between them, and seed one thread whose instruction
    /// pointer is the image's entry point and whose stack pointer is the
    /// top of the stack object's mapping. `kernel_stack` provides the one
    /// page for the thread's kernel stack; `kernel_objects` is the
    /// kernel-global mapping list it goes into.
    pub fn from_elf(id: u64, image: MemoryObject, stack: MemoryObject, entry: u64, kernel_stack: MemoryObject, kernel_objects: &mut Vec<Mapping>) -> (r:
        Result<Process, MapError>)
        requires
            address_space::wf_mappings(old(kernel_objects)@),
            1 <= image.frames@.len(),
            1 <= stack.frames@.len(),
            kernel_stack.frames@.len() == 1,
            (2 + image.frames@.len() + stack.frames@.len()) * 4096 <= u64::MAX,
        ensures
            address_space::wf_mappings(final(kernel_objects)@),
            match r {
                Ok(p) => {
                    &&& p.wf()
                    &&& p.id == id
                    &&& p.threads@.len() == 1
                    &&& p.address_space.objects@.len() == 2
                    // the one thread enters at the image's entry point
                    &&& p.threads@[0].stack_mem()[507] == entry
                    &&& !p.threads@[0].destroyed_spec()
                    &&& p.threads@[0].process_spec() == id
                    // its stack pointer is the top of the stack mapping,
                    // which sits one guard page past the image
                    &&& ({
                        let image_pages = image.frames@.len() as int;
                        let stack_base = (image_pages + 2) * 4096;
                        let stack_top = stack_base + stack.frames@.len() * 4096;
                        &&& p.threads@[0].user_stack_spec() == Some(stack_top as u64)
                        &&& p.threads@[0].stack_mem()[510] == stack_top as u64
                        &&& stack_base < stack_top
                    })
                },
                Err(_) => !(address_space::auto_start(
                    old(kernel_objects)@,
                    address_space::KERNEL_DEFAULT_BASE_PAGE,
                ) + 1 <= address_space::PAGE_LIMIT),
            },
    {
        let mut address_space = match AddressSpace::new() {
            Ok(a) => a,
            Err(_) => {
                return Err(MapError::Arch);
            },
        };
        let ghost image_pages = image.frames@.len() as int;
        let ghost stack_pages = stack.frames@.len() as int;
        let stack_count = stack.physical_pages_len() as u64;
        proof {
            // the requires bound every placement below the page limit
            assert(2 + image.frames@.len() + stack.frames@.len()
                <= crate::address_space::PAGE_LIMIT) by {
                vstd::arithmetic::div_mod::lemma_multiply_divide_le(
                    (2 + image.frames@.len() + stack.frames@.len()) as int,
                    4096,
                    (u64::MAX / 4096) as int,
                );
                assert(4096 * ((u64::MAX / 4096) as int) >= (2 + image.frames@.len()
                    + stack.frames@.len()) * 4096) by (nonlinear_arith)
                    requires
                        (2 + image.frames@.len() + stack.frames@.len()) * 4096 <= u64::MAX,
                        4096 * ((u64::MAX / 4096) as int) + 4095 >= u64::MAX,
                ;
            }
            vstd::arithmetic::div_mod::lemma_fundamental_div_mod(u64::MAX as int, 4096);
            vstd::arithmetic::div_mod::lemma_mod_division_less_than_divisor(u64::MAX as int, 4096);
        }
        let ghost as0 = address_space.objects@;
        let (ibase, _ilen, _immu) = match address_space.map_object(
            None,
            image,
            RWX::RX,
            0,
            usize::MAX,
            0,
        ) {
            Ok(t) => t,
            Err(e) => {
                proof {
                    vstd::arithmetic::div_mod::lemma_small_mod(0, crate::page::PAGE_SIZE as nat);
                    assert(false);
                }
                return Err(e);
            },
        };
        proof {
            // the image landed at the start of the empty user window
            let m0 = Mapping { start: ibase, count: image.frames@.len() as u64, object: image };
            let i0 = choose|i: int|
                0 <= i <= as0.len() && address_space.objects@ == #[trigger] as0.insert(i, m0);
            assert(address_space.objects@.len() == 1);
            assert(address_space.objects@[0] == m0);
            assert(ibase == address_space::USER_DEFAULT_BASE_PAGE);
        }
        let ghost as1 = address_space.objects@;
        let (sbase, _slen, _smmu) = match address_space.map_object(
            None,
            stack,
            RWX::RW,
            0,
            usize::MAX,
            0,
        ) {
            Ok(t) => t,
            Err(e) => {
                proof {
                    vstd::arithmetic::div_mod::lemma_small_mod(0, crate::page::PAGE_SIZE as nat);
                    assert(false);
                }
                return Err(e);
            },
        };
        proof {
            // the stack sits one guard page past the image
            let m1 = Mapping { start: sbase, count: stack.frames@.len() as u64, object: stack };
            let i1 = choose|i: int|
                0 <= i <= as1.len() && address_space.objects@ == #[trigger] as1.insert(i, m1);
            assert(address_space.objects@.len() == 2);
            assert(sbase == as1.last().end_spec() + 2);
            assert(sbase == 1 + image_pages + 1);
            assert(m1.wf()) by {
                assert(address_space.wf());
                assert(address_space.objects@[i1] == m1);
            }
        }
        let sp = (sbase + stack_count) * 4096;
        let thread = match Thread::new(entry, sp, id, 0, kernel_stack, kernel_objects) {
            Ok(t) => t,
            Err(e) => {
                return Err(e);
            },
        };
        let mut threads: Vec<Thread> = Vec::new();
        threads.push(thread);
        Ok(Process { id, address_space, handles: Vec::new(), threads })
    }
}

} // verus!
