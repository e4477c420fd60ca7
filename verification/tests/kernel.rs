//! Threads, the scheduler, tickets, and process boot.

use norostb_core::address_space::{Mapping, MemoryObject};
use norostb_core::errors::Error;
use norostb_core::process::Process;
use norostb_core::thread::{Scheduler, Thread};
use norostb_core::ticket::{TicketPool, TicketValue};

fn one_frame() -> MemoryObject {
    MemoryObject::from_contiguous(0x200, 1)
}

#[test]
fn thread_stacks_are_seeded_for_userspace() {
    let mut kernel_objects: Vec<Mapping> = Vec::new();
    let t = Thread::new(0x4000_1000, 0x7fff_0000, 3, 42, one_frame(), &mut kernel_objects)
        .unwrap();
    assert!(!t.destroyed());
    assert_eq!(t.process(), 3);
    assert_eq!(t.user_stack(), Some(0x7fff_0000));
    // the synthetic return frame, top down: ss, rsp, rflags, cs, rip, rax
    assert_eq!(t.frame_word(511), 35);
    assert_eq!(t.frame_word(510), 0x7fff_0000);
    assert_eq!(t.frame_word(509), 2);
    assert_eq!(t.frame_word(508), 27);
    assert_eq!(t.frame_word(507), 0x4000_1000);
    assert_eq!(t.frame_word(506), 42);
    for i in 492..506 {
        assert_eq!(t.frame_word(i), 0);
    }
    // the kernel stack page is mapped in the kernel window
    assert_eq!(kernel_objects.len(), 1);
    assert_eq!(kernel_objects[0].start, t.kernel_stack_base());
    assert_eq!(kernel_objects[0].count, 1);
}

#[test]
fn destroy_unmaps_the_stack_and_returns_waiters() {
    let mut kernel_objects: Vec<Mapping> = Vec::new();
    let mut t = Thread::new(0x1000, 0x2000, 1, 0, one_frame(), &mut kernel_objects).unwrap();
    assert!(t.wait(Some(9)).unwrap());
    assert!(t.wait(Some(11)).unwrap());
    let waiters = t.destroy(&mut kernel_objects).unwrap();
    assert_eq!(waiters, vec![9, 11]);
    assert!(t.destroyed());
    assert!(kernel_objects.is_empty());
    // waiting on a destroyed thread is a no-op
    assert_eq!(t.wait(Some(5)), Ok(false));
    // destroying twice fails
    assert!(t.destroy(&mut kernel_objects).is_err());
}

#[test]
fn sleep_wake_and_deadlines() {
    let mut kernel_objects: Vec<Mapping> = Vec::new();
    let mut t = Thread::new(0x1000, 0x2000, 1, 0, one_frame(), &mut kernel_objects).unwrap();
    assert_eq!(t.sleep_until(), 0);
    t.sleep(100, 50);
    assert_eq!(t.sleep_until(), 150);
    // a saturating sleep
    t.sleep(u64::MAX - 10, 100);
    assert_eq!(t.sleep_until(), u64::MAX);
    // an asynchronous deadline wins over the duration
    t.set_async_deadline(400);
    t.sleep(0, u64::MAX);
    assert_eq!(t.sleep_until(), 400);
    t.wake();
    assert_eq!(t.sleep_until(), 0);
}

#[test]
fn scheduler_picks_the_earliest_ready_thread() {
    let mut kernel_objects: Vec<Mapping> = Vec::new();
    let mut s = Scheduler::new();
    for i in 0..3u64 {
        let t = Thread::new(0x1000, 0x2000, i, i, one_frame(), &mut kernel_objects).unwrap();
        s.threads.push(t);
    }
    s.threads[0].set_sleep_until(30);
    s.threads[1].set_sleep_until(10);
    s.threads[2].set_sleep_until(20);
    assert_eq!(s.next_thread(25), Some(1));
    assert_eq!(s.next_thread(5), None);
    assert_eq!(s.yield_current(100), Some(1));
    assert_eq!(s.current(), Some(1));
    // destroyed threads never run, even when ready
    let _ = s.threads[1].destroy(&mut kernel_objects).unwrap();
    assert_eq!(s.next_thread(25), Some(2));
}

#[test]
fn cancelled_ticket() {
    // A client parks on a ticket; the server side goes away; the client
    // observes Cancelled and its thread becomes runnable at once.
    let mut kernel_objects: Vec<Mapping> = Vec::new();
    let mut s = Scheduler::new();
    let t = Thread::new(0x1000, 0x2000, 0, 0, one_frame(), &mut kernel_objects).unwrap();
    s.threads.push(t);

    let mut pool = TicketPool::new();
    let (ticket, waker) = pool.new_ticket();
    pool.register_waker(&ticket, 0);
    s.threads[0].set_sleep_until(u64::MAX);
    assert_eq!(s.next_thread(1000), None);

    // dropping the producer half completes the ticket with Cancelled
    let woken = pool.drop_waker(waker);
    assert_eq!(woken, Some(0));
    s.threads[woken.unwrap() as usize].wake();
    assert_eq!(s.next_thread(1000), Some(0));
    assert!(matches!(pool.take(ticket), Err(Error::Cancelled)));
}

#[test]
fn tickets_complete_once_and_deliver_their_value() {
    let mut pool = TicketPool::new();
    let (ticket, waker) = pool.new_ticket();
    let woken = pool.complete(waker, Ok(TicketValue::Num(7)));
    assert_eq!(woken, None);
    match pool.take(ticket) {
        Ok(TicketValue::Num(n)) => assert_eq!(n, 7),
        _ => panic!("wrong ticket value"),
    }
    // a pre-resolved ticket needs no waker at all
    let t2 = pool.new_complete(Err(Error::DoesNotExist));
    assert!(matches!(pool.take(t2), Err(Error::DoesNotExist)));
}

#[test]
fn driver_boot() {
    // An image plus a one-page stack object boots to one thread entering
    // at the image's entry point with its stack inside the stack mapping.
    let mut kernel_objects: Vec<Mapping> = Vec::new();
    let image = MemoryObject::from_contiguous(0x100, 4);
    let stack = MemoryObject::from_contiguous(0x300, 1);
    let entry = 0x1040u64;
    let p = Process::from_elf(7, image, stack, entry, one_frame(), &mut kernel_objects).unwrap();
    assert_eq!(p.id, 7);
    assert_eq!(p.threads.len(), 1);
    let t = &p.threads[0];
    assert_eq!(t.frame_word(507), entry);
    assert_eq!(t.process(), 7);
    // image at pages 1..5, one guard page, stack at page 6
    assert_eq!(p.address_space.objects.len(), 2);
    let stack_base_byte = 6 * 4096u64;
    let stack_top_byte = stack_base_byte + 4096;
    let sp = t.user_stack().unwrap();
    assert!(stack_base_byte < sp && sp <= stack_top_byte);
    assert_eq!(t.frame_word(510), sp);
}
