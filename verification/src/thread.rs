//! Threads and the scheduler. A thread owns a one-page kernel stack seeded
//! with a synthetic interrupt-return frame; the scheduler picks the
//! runnable thread with the earliest wake deadline. The context switch
//! itself (`iretq`, per-CPU state) lives in the arch layer outside this
//! crate.

use crate::address_space::{self, Mapping, MapError, MemoryObject, RWX};
use vstd::prelude::*;

verus! {

/// Words in the one-page kernel stack.
pub const KERNEL_STACK_WORDS: usize = 512;

/// The `ss` selector of the synthetic return frame: ring-3 data.
pub const FRAME_SS: u64 = 35;

/// The `cs` selector of the synthetic return frame: ring-3 code.
pub const FRAME_CS: u64 = 27;

/// The initial `rflags`: only the reserved bit set, interrupts off until
/// the entry point re-enables them.
pub const FRAME_RFLAGS: u64 = 2;

/// General-purpose registers saved below the return frame, without `rsp`
/// and `rax`.
pub const FRAME_GP_REGS: usize = 14;

/// The operation failed because the target thread is already destroyed.
#[derive(Clone, Copy, PartialEq, Eq, Structural, Debug)]
pub struct Destroyed;

/// One thread: its kernel stack, wake deadline, and wake list. The
/// process link is a plain identifier, not an owning reference, so
/// process teardown stays an explicit protocol.
pub struct Thread {
    user_stack: Option<u64>,
    kernel_stack: Option<usize>,
    kernel_stack_mem: Vec<u64>,
    kernel_stack_base: u64,
    process: u64,
    sleep_until: u64,
    async_deadline: Option<u64>,
    waiters: Vec<u64>,
}

impl Thread {
    pub closed spec fn user_stack_spec(&self) -> Option<u64> {
        self.user_stack
    }

    pub closed spec fn kernel_stack_spec(&self) -> Option<usize> {
        self.kernel_stack
    }

    pub closed spec fn stack_mem(&self) -> Seq<u64> {
        self.kernel_stack_mem@
    }

    pub closed spec fn kernel_stack_base_spec(&self) -> u64 {
        self.kernel_stack_base
    }

    pub closed spec fn process_spec(&self) -> u64 {
        self.process
    }

    pub closed spec fn sleep_until_spec(&self) -> u64 {
        self.sleep_until
    }

    pub closed spec fn async_deadline_spec(&self) -> Option<u64> {
        self.async_deadline
    }

    pub closed spec fn waiters_spec(&self) -> Seq<u64> {
        self.waiters@
    }

    /// Whether this thread has been destroyed: destruction clears the
    /// kernel stack pointer.
    pub open spec fn destroyed_spec(&self) -> bool {
        self.kernel_stack_spec() is None
    }

    /// Both threads agree on everything except their wake deadlines.
    pub open spec fn same_except_deadlines(&self, b: &Thread) -> bool {
        &&& self.user_stack_spec() == b.user_stack_spec()
        &&& self.kernel_stack_spec() == b.kernel_stack_spec()
        &&& self.stack_mem() == b.stack_mem()
        &&& self.kernel_stack_base_spec() == b.kernel_stack_base_spec()
        &&& self.process_spec() == b.process_spec()
        &&& self.waiters_spec() == b.waiters_spec()
    }

    /// Both threads agree on everything except their wake lists.
    pub open spec fn same_except_waiters(&self, b: &Thread) -> bool {
        &&& self.user_stack_spec() == b.user_stack_spec()
        &&& self.kernel_stack_spec() == b.kernel_stack_spec()
        &&& self.stack_mem() == b.stack_mem()
        &&& self.kernel_stack_base_spec() == b.kernel_stack_base_spec()
        &&& self.process_spec() == b.process_spec()
        &&& self.sleep_until_spec() == b.sleep_until_spec()
        &&& self.async_deadline_spec() == b.async_deadline_spec()
    }

    /// A fresh thread ready to enter userspace at `start` with user stack
    /// pointer `stack`. Its one-page kernel stack is built from the given
    /// single-frame object, mapped into the kernel window, and seeded with
    /// a synthetic interrupt-return frame: `ss`, the user stack pointer,
    /// `rflags` with interrupts off, `cs`, the entry point, the thread's
    /// own handle for `rax`, and zeroed space for the remaining registers.
    pub fn new(start: u64, stack: u64, process: u64, handle: u64, stack_frames: MemoryObject, kernel_objects: &mut Vec<Mapping>) -> (r: Result<
        Thread,
        MapError,
    >)
        requires
            address_space::wf_mappings(old(kernel_objects)@),
            stack_frames.frames@.len() == 1,
        ensures
            address_space::wf_mappings(final(kernel_objects)@),
            match r {
                Ok(t) => {
                    &&& !t.destroyed_spec()
                    &&& t.user_stack_spec() == Some(stack)
                    &&& t.process_spec() == process
                    &&& t.sleep_until_spec() == 0
                    &&& t.async_deadline_spec() is None
                    &&& t.waiters_spec().len() == 0
                    &&& t.stack_mem().len() == KERNEL_STACK_WORDS
                    &&& t.stack_mem()[511] == FRAME_SS
                    &&& t.stack_mem()[510] == stack
                    &&& t.stack_mem()[509] == FRAME_RFLAGS
                    &&& t.stack_mem()[508] == FRAME_CS
                    &&& t.stack_mem()[507] == start
                    &&& t.stack_mem()[506] == handle
                    &&& forall|i: int| 492 <= i < 506 ==> t.stack_mem()[i] == 0
                    &&& t.kernel_stack_spec() == Some(492usize)
                    &&& exists|i: int|
                        0 <= i < final(kernel_objects)@.len()
                            && (#[trigger] final(kernel_objects)@[i]).start
                            == t.kernel_stack_base_spec() && final(kernel_objects)@[i].count == 1
                },
                Err(_) => {
                    &&& final(kernel_objects)@ == old(kernel_objects)@
                    &&& !(address_space::auto_start(
                        old(kernel_objects)@,
                        address_space::KERNEL_DEFAULT_BASE_PAGE,
                    ) + 1 <= address_space::PAGE_LIMIT)
                },
            },
    {
        let (base, _mmu) = match address_space::AddressSpace::kernel_map_object(
            kernel_objects,
            None,
            stack_frames,
            RWX::RW,
        ) {
            Ok(p) => p,
            Err(e) => {
                return Err(e);
            },
        };
        let mut mem: Vec<u64> = Vec::new();
        let mut i: usize = 0;
        while i < KERNEL_STACK_WORDS
            invariant
                i <= KERNEL_STACK_WORDS,
                mem@.len() == i,
                forall|j: int| 0 <= j < i ==> mem@[j] == 0,
            decreases KERNEL_STACK_WORDS - i,
        {
            mem.push(0);
            i = i + 1;
        }
        mem.set(511, FRAME_SS);
        mem.set(510, stack);
        mem.set(509, FRAME_RFLAGS);
        mem.set(508, FRAME_CS);
        mem.set(507, start);
        mem.set(506, handle);
        proof {
            let s0 = old(kernel_objects)@;
            let m = Mapping {
                start: base,
                count: stack_frames.frames@.len() as u64,
                object: stack_frames,
            };
            let idx = choose|i2: int|
                0 <= i2 <= s0.len() && kernel_objects@ == #[trigger] s0.insert(i2, m);
            assert(kernel_objects@[idx].start == base && kernel_objects@[idx].count == 1);
        }
        Ok(
            Thread {
                user_stack: Some(stack),
                kernel_stack: Some(506 - FRAME_GP_REGS),
                kernel_stack_mem: mem,
                kernel_stack_base: base,
                process,
                sleep_until: 0,
                async_deadline: None,
                waiters: Vec::new(),
            },
        )
    }

    /// One saved word of the kernel stack: the synthetic return frame and
    /// the zeroed registers below it.
    pub fn frame_word(&self, i: usize) -> (r: u64)
        requires
            i < self.stack_mem().len(),
        ensures
            r == self.stack_mem()[i as int],
    {
        self.kernel_stack_mem[i]
    }

    /// The initial user stack pointer.
    pub fn user_stack(&self) -> (r: Option<u64>)
        ensures
            r == self.user_stack_spec(),
    {
        self.user_stack
    }

    /// The kernel-window page of this thread's kernel stack.
    pub fn kernel_stack_base(&self) -> (r: u64)
        ensures
            r == self.kernel_stack_base_spec(),
    {
        self.kernel_stack_base
    }

    /// The identifier of the owning process.
    pub fn process(&self) -> (r: u64)
        ensures
            r == self.process_spec(),
    {
        self.process
    }

    /// Set the absolute wake deadline.
    pub fn set_sleep_until(&mut self, until: u64)
        ensures
            final(self).same_except_deadlines(old(self)),
            final(self).sleep_until_spec() == until,
            final(self).async_deadline_spec() == old(self).async_deadline_spec(),
    {
        self.sleep_until = until;
    }

    /// The absolute wake deadline.
    pub fn sleep_until(&self) -> (r: u64)
        ensures
            r == self.sleep_until_spec(),
    {
        self.sleep_until
    }

    /// Park until `now + duration`, or until the pending asynchronous
    /// deadline if one was set: that deadline is consumed and wins. The
    /// caller then yields; the scheduler resumes the thread when the
    /// deadline passes or [`Thread::wake`] clears it.
    pub fn sleep(&mut self, now: u64, duration: u64)
        ensures
            final(self).sleep_until_spec() == (match old(self).async_deadline_spec() {
                Some(d) => d,
                None => if now + duration <= u64::MAX {
                    (now + duration) as u64
                } else {
                    u64::MAX
                },
            }),
            final(self).async_deadline_spec() is None,
            final(self).same_except_deadlines(old(self)),
    {
        let t = match self.async_deadline {
            Some(d) => {
                self.async_deadline = None;
                d
            },
            None => {
                if duration <= u64::MAX - now {
                    now + duration
                } else {
                    u64::MAX
                }
            },
        };
        self.sleep_until = t;
    }

    /// Set the asynchronous deadline that the next [`Thread::sleep`] will
    /// use instead of its own duration; this is the only time-based
    /// cancellation.
    pub fn set_async_deadline(&mut self, deadline: u64)
        ensures
            final(self).same_except_deadlines(old(self)),
            final(self).sleep_until_spec() == old(self).sleep_until_spec(),
            final(self).async_deadline_spec() == Some(deadline),
    {
        self.async_deadline = Some(deadline);
    }

    /// Cancel sleep: the thread becomes instantly runnable.
    pub fn wake(&mut self)
        ensures
            final(self).same_except_deadlines(old(self)),
            final(self).async_deadline_spec() == old(self).async_deadline_spec(),
            final(self).sleep_until_spec() == 0,
    {
        self.sleep_until = 0;
    }

    /// Whether this thread has been destroyed.
    pub fn destroyed(&self) -> (r: bool)
        ensures
            r == self.destroyed_spec(),
    {
        self.kernel_stack.is_none()
    }

    /// Register `waker` to be woken when this thread is destroyed, then
    /// park. Returns whether the caller must actually park: a thread that
    /// is already destroyed is not waited for.
    pub fn wait(&mut self, waker: Option<u64>) -> (r: Result<bool, ()>)
        ensures
            match r {
                Ok(true) => {
                    &&& !old(self).destroyed_spec()
                    &&& waker is Some
                    &&& final(self).same_except_waiters(old(self))
                    &&& final(self).waiters_spec() == old(self).waiters_spec().push(
                        waker.unwrap(),
                    )
                },
                Ok(false) => old(self).destroyed_spec() && *final(self) == *old(self),
                Err(_) => !old(self).destroyed_spec() && waker is None && *final(self) == *old(
                    self,
                ),
            },
    {
        if self.destroyed() {
            return Ok(false);
        }
        match waker {
            None => Err(()),
            Some(w) => {
                self.waiters.push(w);
                Ok(true)
            },
        }
    }

    /// Destroy this thread: unmap its kernel stack from the kernel window
    /// and hand back the waiters to wake. No CPU may still be running on
    /// the stack; that is the caller's obligation. A destroyed thread has
    /// no kernel stack and never re-enters the ready queue.
    pub fn destroy(&mut self, kernel_objects: &mut Vec<Mapping>) -> (r: Result<Vec<u64>, Destroyed>)
        requires
            address_space::wf_mappings(old(kernel_objects)@),
            exists|i: int|
                0 <= i < old(kernel_objects)@.len() && (#[trigger] old(
                    kernel_objects,
                )@[i]).start == old(self).kernel_stack_base_spec() && old(kernel_objects)@[i].count
                    == 1,
        ensures
            address_space::wf_mappings(final(kernel_objects)@),
            match r {
                Ok(w) => {
                    &&& !old(self).destroyed_spec()
                    &&& final(self).destroyed_spec()
                    &&& w@ == old(self).waiters_spec()
                    &&& final(self).waiters_spec().len() == 0
                    &&& final(self).user_stack_spec() == old(self).user_stack_spec()
                    &&& final(self).process_spec() == old(self).process_spec()
                    &&& final(self).sleep_until_spec() == old(self).sleep_until_spec()
                    &&& final(self).kernel_stack_base_spec() == old(self).kernel_stack_base_spec()
                    &&& final(kernel_objects)@ == old(kernel_objects)@.remove(
                        address_space::containing_index(
                            old(kernel_objects)@,
                            old(self).kernel_stack_base_spec() as int,
                        ),
                    )
                },
                Err(_) => {
                    &&& old(self).destroyed_spec()
                    &&& *final(self) == *old(self)
                    &&& final(kernel_objects)@ == old(kernel_objects)@
                },
            },
    {
        if self.destroyed() {
            return Err(Destroyed);
        }
        proof {
            let i = choose|i: int|
                0 <= i < kernel_objects@.len() && (#[trigger] kernel_objects@[i]).start
                    == self.kernel_stack_base_spec() && kernel_objects@[i].count == 1;
            assert(kernel_objects@[i].start <= self.kernel_stack_base_spec()
                <= kernel_objects@[i].end_spec());
        }
        let ghost s = kernel_objects@;
        let _res = address_space::AddressSpace::kernel_unmap_object(
            kernel_objects,
            self.kernel_stack_base,
            1,
        );
        proof {
            let ci = address_space::containing_index(s, self.kernel_stack_base_spec() as int);
            let i = choose|i: int|
                0 <= i < s.len() && (#[trigger] s[i]).start == self.kernel_stack_base_spec()
                    && s[i].count == 1;
            address_space::lemma_containing_unique(
                s,
                self.kernel_stack_base_spec() as int,
                i,
                ci,
            );
            assert(s[ci].start == self.kernel_stack_base_spec() && s[ci].count == 1);
        }
        self.kernel_stack = None;
        let mut w: Vec<u64> = Vec::new();
        core::mem::swap(&mut w, &mut self.waiters);
        Ok(w)
    }
}

/// The single-CPU scheduler: the set of live threads and the one running
/// now. The ready queue is implicit: a thread is ready when its wake
/// deadline has passed and it has not been destroyed.
pub struct Scheduler {
    pub threads: Vec<Thread>,
    pub current: Option<usize>,
}

impl Scheduler {
    pub fn new() -> (r: Scheduler)
        ensures
            r.threads@.len() == 0,
            r.current is None,
    {
        Scheduler { threads: Vec::new(), current: None }
    }

    /// Pick the ready thread with the earliest wake deadline: one that is
    /// not destroyed and whose deadline has passed. Destroyed threads are
    /// never picked. `None` when every thread is destroyed or asleep; the
    /// CPU then halts until the next interrupt.
    pub fn next_thread(&self, now: u64) -> (r: Option<usize>)
        ensures
            match r {
                Some(i) => {
                    &&& i < self.threads@.len()
                    &&& !self.threads@[i as int].destroyed_spec()
                    &&& self.threads@[i as int].sleep_until_spec() <= now
                    &&& forall|j: int|
                        0 <= j < self.threads@.len() && !(
                        #[trigger] self.threads@[j]).destroyed_spec()
                            && self.threads@[j].sleep_until_spec() <= now
                            ==> self.threads@[i as int].sleep_until_spec()
                            <= self.threads@[j].sleep_until_spec()
                },
                None => forall|j: int|
                    0 <= j < self.threads@.len() ==> (#[trigger] self.threads@[j]).destroyed_spec()
                        || self.threads@[j].sleep_until_spec() > now,
            },
    {
        let mut best: Option<usize> = None;
        let mut i: usize = 0;
        while i < self.threads.len()
            invariant
                i <= self.threads@.len(),
                match best {
                    Some(b) => {
                        &&& b < i
                        &&& !self.threads@[b as int].destroyed_spec()
                        &&& self.threads@[b as int].sleep_until_spec() <= now
                        &&& forall|j: int|
                            0 <= j < i && !(#[trigger] self.threads@[j]).destroyed_spec()
                                && self.threads@[j].sleep_until_spec() <= now
                                ==> self.threads@[b as int].sleep_until_spec()
                                <= self.threads@[j].sleep_until_spec()
                    },
                    None => forall|j: int|
                        0 <= j < i ==> (#[trigger] self.threads@[j]).destroyed_spec()
                            || self.threads@[j].sleep_until_spec() > now,
                },
            decreases self.threads@.len() - i,
        {
            let t = &self.threads[i];
            if !t.destroyed() && t.sleep_until() <= now {
                match best {
                    None => {
                        best = Some(i);
                    },
                    Some(b) => {
                        if self.threads[b].sleep_until() > t.sleep_until() {
                            best = Some(i);
                        }
                    },
                }
            }
            i = i + 1;
        }
        best
    }

    /// The index of the running thread, if any.
    pub fn current(&self) -> (r: Option<usize>)
        ensures
            r == self.current,
    {
        self.current
    }

    /// Give the CPU up: pick the next ready thread and make it current.
    /// The arch layer then performs the actual context switch.
    pub fn yield_current(&mut self, now: u64) -> (r: Option<usize>)
        ensures
            final(self).threads == old(self).threads,
            final(self).current == r,
            match r {
                Some(i) => {
                    &&& i < old(self).threads@.len()
                    &&& !old(self).threads@[i as int].destroyed_spec()
                    &&& old(self).threads@[i as int].sleep_until_spec() <= now
                },
                None => forall|j: int|
                    0 <= j < old(self).threads@.len() ==> (#[trigger] old(
                        self,
                    ).threads@[j]).destroyed_spec() || old(self).threads@[j].sleep_until_spec()
                        > now,
            },
    {
        let next = self.next_thread(now);
        self.current = next;
        next
    }
}

} // verus!
