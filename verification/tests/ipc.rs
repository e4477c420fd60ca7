//! Tables, jobs on the wire, objects, and the syscall surface.

use norostb_core::errors::Error;
use norostb_core::jobs::{
    Job, JobQueue, Ring, SeekFrom, WireJob, ANCHOR_END, JOB_CLOSE, JOB_READ, JOB_WRITE,
    WIRE_JOB_BYTES,
};
use norostb_core::object::BufferObject;
use norostb_core::syscall::{ret, Id, ObjectInfo, Slice, SysLog, TableId, TableInfo};
use norostb_core::tables::{irq_handler, ReadOutcome, TableRegistry, UartId, UartTable};
use norostb_core::ticket::{TicketPool, TicketValue};

#[test]
fn next_table_iteration() {
    let mut reg = TableRegistry::new();
    assert_eq!(reg.register(b"uart".to_vec()), 0);
    assert_eq!(reg.register(b"pci".to_vec()), 1);
    assert_eq!(reg.register(b"virtio-blk".to_vec()), 2);

    let (id0, n0) = reg.next_table(None).unwrap();
    assert_eq!((id0, n0.as_slice()), (0, &b"uart"[..]));
    let (id1, n1) = reg.next_table(Some(0)).unwrap();
    assert_eq!((id1, n1.as_slice()), (1, &b"pci"[..]));
    let (id2, n2) = reg.next_table(Some(1)).unwrap();
    assert_eq!((id2, n2.as_slice()), (2, &b"virtio-blk"[..]));
    assert!(reg.next_table(Some(2)).is_none());

    // repeating a call gives the same answer, registrations only append
    let again = reg.next_table(Some(0)).unwrap();
    assert_eq!(again.0, 1);
    assert_eq!(again.1, b"pci".to_vec());
}

#[test]
fn uart_echo() {
    // Register the kernel uart table, open path "0", write two bytes, let
    // the receive interrupt deliver one byte, and read it back.
    let mut reg = TableRegistry::new();
    let uart = UartTable;
    let id = reg.register(uart.name());
    assert_eq!(id, 0);

    let dev = uart.open(&b"0".to_vec()).unwrap();
    assert_eq!(dev, UartId(0));

    // write(H, b"hi") returns (0, 2): both bytes go out at once
    let (tx, written) = dev.write(&b"hi".to_vec());
    assert_eq!(tx, b"hi".to_vec());
    assert_eq!(written, 2);

    // no byte waits yet: the read parks on a ticket
    let mut pool = TicketPool::new();
    let mut pending: Vec<usize> = Vec::new();
    match dev.read(1, None) {
        ReadOutcome::Park => {
            let (ticket, waker) = pool.new_ticket();
            pending.push(waker.id());
            // one byte arrives over the wire
            let (completions, drained) = irq_handler(&mut pending, &b"h".to_vec());
            assert_eq!(completions.len(), 1);
            assert_eq!(completions[0].1, b'h');
            assert!(drained);
            let woken = pool.complete(waker, Ok(TicketValue::Bytes(vec![completions[0].1])));
            assert_eq!(woken, None);
            match pool.take(ticket) {
                Ok(TicketValue::Bytes(bytes)) => assert_eq!(bytes, b"h".to_vec()),
                _ => panic!("wrong completion"),
            }
        },
        ReadOutcome::Done(_) => panic!("nothing should be available yet"),
    }

    // with a byte already in the receive register the read completes
    match dev.read(1, Some(b'h')) {
        ReadOutcome::Done(bytes) => assert_eq!(bytes, b"h".to_vec()),
        ReadOutcome::Park => panic!("a byte was available"),
    }
}

#[test]
fn uart_paths_and_creation() {
    let uart = UartTable;
    assert_eq!(uart.open(&Vec::new()).err(), Some(Error::InvalidArgument));
    assert_eq!(uart.open(&b"1".to_vec()).err(), Some(Error::DoesNotExist));
    assert_eq!(uart.create(&b"0".to_vec()).err(), Some(Error::NotImplemented));
    assert!(uart.query(&b"tag".to_vec()).is_ok());
    // zero-length reads always succeed with nothing
    match UartId(0).read(0, None) {
        ReadOutcome::Done(bytes) => assert!(bytes.is_empty()),
        ReadOutcome::Park => panic!("zero-length reads never park"),
    }
}

#[test]
fn error_codes_are_stable() {
    let all = [
        (Error::NotImplemented, 1),
        (Error::DoesNotExist, 2),
        (Error::AlreadyExists, 3),
        (Error::InvalidArgument, 4),
        (Error::PermissionDenied, 5),
        (Error::OutOfMemory, 6),
        (Error::Cancelled, 7),
        (Error::Overflow, 8),
        (Error::Unaligned, 9),
    ];
    for (e, code) in all {
        assert_eq!(e.code(), code);
        assert_eq!(Error::from_code(code), Some(e));
    }
    assert_eq!(Error::from_code(0), None);
    assert_eq!(Error::from_code(10), None);
}

#[test]
fn wire_jobs_round_trip() {
    let j = WireJob {
        job_id: 0x1234_5678,
        ty: JOB_READ,
        flags: 3,
        handle: 0xdead_beef,
        arg0_offset: 5,
        arg0_length: 600,
        arg1_offset: 7,
        arg1_length: 8,
        from_anchor: ANCHOR_END,
        from_offset: 0x0102_0304_0506_0708,
        result: 9,
    };
    let mut buf: Vec<u8> = Vec::new();
    j.serialize(&mut buf);
    assert_eq!(buf.len(), WIRE_JOB_BYTES);
    let back = WireJob::deserialize(&buf).unwrap();
    assert_eq!(back, j);
    // a truncated record does not parse
    assert!(WireJob::deserialize(&buf[..39].to_vec()).is_none());
}

#[test]
fn typed_jobs_decode_their_payloads() {
    // a write job carries its payload after the record
    let mut buf: Vec<u8> = Vec::new();
    let w = WireJob::base(5, JOB_WRITE, 77);
    w.serialize(&mut buf);
    buf.extend_from_slice(b"payload");
    match Job::deserialize(&buf) {
        Some(Job::Write { job_id, handle, data }) => {
            assert_eq!(job_id, 5);
            assert_eq!(handle, 77);
            assert_eq!(data, b"payload".to_vec());
        },
        _ => panic!("expected a write"),
    }

    // a read job carries its length
    let mut buf2: Vec<u8> = Vec::new();
    WireJob::base(6, JOB_READ, 1).serialize(&mut buf2);
    buf2.extend_from_slice(&42u64.to_le_bytes());
    match Job::deserialize(&buf2) {
        Some(Job::Read { job_id, handle, length }) => {
            assert_eq!((job_id, handle, length), (6, 1, 42));
        },
        _ => panic!("expected a read"),
    }

    // a close has no job identifier
    let mut buf3: Vec<u8> = Vec::new();
    WireJob::base(0, JOB_CLOSE, 9).serialize(&mut buf3);
    match Job::deserialize(&buf3) {
        Some(Job::Close { handle }) => assert_eq!(handle, 9),
        _ => panic!("expected a close"),
    }

    // an unknown kind does not decode
    let mut buf4: Vec<u8> = Vec::new();
    WireJob::base(0, 200, 0).serialize(&mut buf4);
    assert!(Job::deserialize(&buf4).is_none());
}

#[test]
fn replies_carry_codes_and_payloads() {
    let mut buf: Vec<u8> = Vec::new();
    Job::reply_error(&mut buf, 31, Error::Cancelled);
    let w = WireJob::deserialize(&buf).unwrap();
    assert_eq!(w.job_id, 31);
    assert_eq!(w.result, 7);

    let mut buf2: Vec<u8> = Vec::new();
    Job::reply_read(&mut buf2, 8, &b"ok".to_vec());
    assert_eq!(&buf2[WIRE_JOB_BYTES..], b"ok");
    assert_eq!(WireJob::deserialize(&buf2).unwrap().ty, JOB_READ);

    let mut buf3: Vec<u8> = Vec::new();
    Job::reply_write(&mut buf3, 9, 600);
    assert_eq!(u64::from_le_bytes(buf3[WIRE_JOB_BYTES..].try_into().unwrap()), 600);
}

#[test]
fn job_queue_is_fifo_with_unique_ids() {
    let mut q = JobQueue::new();
    let mut pool = TicketPool::new();
    let (t1, w1) = pool.new_ticket();
    let (t2, w2) = pool.new_ticket();
    q.submit(WireJob::base(1, JOB_READ, 0), w1.id());
    q.submit(WireJob::base(2, JOB_WRITE, 0), w2.id());

    // delivery in submission order
    assert_eq!(q.take_job().unwrap().job_id, 1);
    assert_eq!(q.take_job().unwrap().job_id, 2);
    assert!(q.take_job().is_none());

    // finishing looks the recorded waker up, once
    assert_eq!(q.finish_job(1), Ok(w1.id()));
    assert_eq!(q.finish_job(1), Err(Error::DoesNotExist));
    // cancelling hands the waker back so the ticket can be cancelled
    let wid = q.cancel_job(2).unwrap();
    assert_eq!(wid, w2.id());
    let _ = pool.complete(w1, Ok(TicketValue::Num(0)));
    let woken = pool.drop_waker(w2);
    assert_eq!(woken, None);
    assert!(matches!(pool.take(t2), Err(Error::Cancelled)));
    assert!(pool.take(t1).is_ok());
}

#[test]
fn dying_tables_cancel_their_outstanding_jobs() {
    let mut q = JobQueue::new();
    let mut pool = TicketPool::new();
    let (t1, w1) = pool.new_ticket();
    let (t2, w2) = pool.new_ticket();
    q.submit(WireJob::base(1, JOB_READ, 0), w1.id());
    q.submit(WireJob::base(2, JOB_READ, 0), w2.id());
    // the table dies: every recorded waker comes back for cancellation
    let wakers = q.drain_wakers();
    assert_eq!(wakers, vec![w1.id(), w2.id()]);
    assert!(q.take_job().is_none());
    pool.drop_waker(w1);
    pool.drop_waker(w2);
    assert!(matches!(pool.take(t1), Err(Error::Cancelled)));
    assert!(matches!(pool.take(t2), Err(Error::Cancelled)));
}

#[test]
fn full_rings_are_back_pressure() {
    let mut ring = Ring::new(2);
    assert!(ring.push(WireJob::base(1, JOB_READ, 0)));
    assert!(ring.push(WireJob::base(2, JOB_READ, 0)));
    // the third submission is refused, not lost to an error
    assert!(!ring.push(WireJob::base(3, JOB_READ, 0)));
    assert_eq!(ring.pop().unwrap().job_id, 1);
    assert!(ring.push(WireJob::base(3, JOB_READ, 0)));
    assert_eq!(ring.pop().unwrap().job_id, 2);
    assert_eq!(ring.pop().unwrap().job_id, 3);
    assert!(ring.pop().is_none());
}

#[test]
fn object_write_seek_read_round_trip() {
    let mut o = BufferObject::new();
    let msg = b"hello stream".to_vec();
    assert_eq!(o.write(&msg), msg.len() as u64);
    assert_eq!(o.seek(SeekFrom::Start(0)), Ok(0));
    assert_eq!(o.read(msg.len()), msg);

    // relative and end-relative seeks
    assert_eq!(o.seek(SeekFrom::Current(-2)), Ok(msg.len() as u64 - 2));
    assert_eq!(o.read(100), b"am".to_vec());
    assert_eq!(o.seek(SeekFrom::End(-6)), Ok(6));
    assert_eq!(o.read(6), b"stream".to_vec());
    // seeking before the start is invalid and moves nothing
    assert_eq!(o.seek(SeekFrom::Current(-100)), Err(Error::InvalidArgument));

    // zero-length operations succeed with zero
    assert_eq!(o.write(&Vec::new()), 0);
    assert_eq!(o.read(0), Vec::<u8>::new());
}

#[test]
fn seek_anchors_round_trip() {
    assert_eq!(SeekFrom::try_from_raw(0, 5), Some(SeekFrom::Start(5)));
    assert_eq!(
        SeekFrom::try_from_raw(1, (-3i64) as u64),
        Some(SeekFrom::Current(-3))
    );
    assert_eq!(
        SeekFrom::try_from_raw(2, (-1i64) as u64),
        Some(SeekFrom::End(-1))
    );
    assert_eq!(SeekFrom::try_from_raw(3, 0), None);
    assert_eq!(SeekFrom::End(-1).into_raw(), (2, u64::MAX));
}

#[test]
fn syscall_returns_and_types() {
    assert_eq!(ret(0, 5), Ok(5));
    assert_eq!(ret(3, 9), Err((3, 9)));
    assert_eq!(Id::default(), Id(u64::MAX));
    assert_eq!(TableId::default(), TableId(u32::MAX));
    assert_eq!(Slice { addr: 16, length: 4 }.len(), 4);
}

#[test]
fn table_info_names() {
    let mut info = TableInfo::default();
    assert!(info.name().is_empty());
    info.set_name(&b"uart".to_vec());
    assert_eq!(info.name(), b"uart".to_vec());
}

#[test]
fn object_info_tags() {
    let mut info = ObjectInfo::new(Vec::new());
    assert_eq!(info.id(), Id(u64::MAX));
    assert_eq!(info.tags_count(), 0);
    assert!(info.name().is_empty());
    info.set_id(Id(4));
    assert_eq!(info.id(), Id(4));
    info.push_tag(&b"vendor-id:1af4".to_vec());
    info.push_tag(&b"device-id:1001".to_vec());
    assert_eq!(info.tags_count(), 2);
    assert_eq!(info.tag(0), b"vendor-id:1af4".to_vec());
    assert_eq!(info.tag(1), b"device-id:1001".to_vec());
}

#[test]
fn syslog_gathers_lines() {
    let mut log = SysLog::new();
    assert!(log.push_byte(b'h').is_none());
    assert!(log.push_byte(b'i').is_none());
    let line = log.push_byte(b'\n').unwrap();
    assert_eq!(line, b"hi".to_vec());
    // the buffer starts over after a flush
    assert!(log.push_byte(b'!').is_none());
    assert_eq!(log.flush(), b"!".to_vec());
    assert_eq!(log.flush(), Vec::<u8>::new());
}
