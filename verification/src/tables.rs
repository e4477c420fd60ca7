//! The table registry and the kernel-internal UART table. Tables are
//! registered process-global and discovered by monotonic identifier in
//! registration order; the UART table is served inside the kernel, its
//! device registers living in the arch layer outside this crate.

use crate::errors::Error;
use vstd::prelude::*;

verus! {

/// One registered table: its discoverable name.
pub struct RegisteredTable {
    pub name: Vec<u8>,
}

/// What a table iteration step returns under a given registry state.
pub open spec fn next_table_spec(tables: Seq<Seq<u8>>, prev: Option<u32>) -> Option<(u32, Seq<u8>)> {
    let idx: int = match prev {
        Option::None => 0,
        Option::Some(p) => p + 1,
    };
    if idx < tables.len() {
        Some((idx as u32, tables[idx]))
    } else {
        None
    }
}

/// The process-global table registry. Identifiers are indices in
/// registration order and are never reused or reordered.
pub struct TableRegistry {
    tables: Vec<RegisteredTable>,
}

impl TableRegistry {
    /// The registered names, in registration order.
    pub closed spec fn names(&self) -> Seq<Seq<u8>> {
        self.tables@.map(|i: int, t: RegisteredTable| t.name@)
    }

    pub fn new() -> (r: TableRegistry)
        ensures
            r.names().len() == 0,
    {
        TableRegistry { tables: Vec::new() }
    }

    /// Register a table under the next identifier; already-registered
    /// tables keep their identifiers and names.
    pub fn register(&mut self, name: Vec<u8>) -> (r: u32)
        requires
            old(self).names().len() < 0xffff_ffff,
        ensures
            r == old(self).names().len(),
            final(self).names() == old(self).names().push(name@),
    {
        let id = self.tables.len() as u32;
        self.tables.push(RegisteredTable { name });
        proof {
            assert(self.names() =~= old(self).names().push(
                self.tables@.last().name@,
            ));
        }
        id
    }

    /// How many tables are registered.
    pub fn len(&self) -> (r: usize)
        ensures
            r == self.names().len(),
    {
        self.tables.len()
    }

    /// Iterate the registered tables in registration order: with no
    /// previous identifier the first table, otherwise the one after
    /// `prev`; `None` past the end.
    pub fn next_table(&self, prev: Option<u32>) -> (r: Option<(u32, Vec<u8>)>)
        requires
            self.names().len() < 0xffff_ffff,
        ensures
            match r {
                Some((id, name)) => next_table_spec(self.names(), prev) == Some(
                    (id, name@),
                ),
                None => next_table_spec(self.names(), prev) is None,
            },
    {
        let idx: usize = match prev {
            None => 0,
            Some(p) => {
                if p as usize >= self.tables.len() {
                    return None;
                }
                p as usize + 1
            },
        };
        if idx >= self.tables.len() {
            return None;
        }
        let name = clone_bytes(&self.tables[idx].name);
        proof {
            assert(self.names()[idx as int] == self.tables@[idx as int].name@);
        }
        Some((idx as u32, name))
    }
}

/// Copy a byte vector.
fn clone_bytes(v: &Vec<u8>) -> (r: Vec<u8>)
    ensures
        r@ == v@,
{
    let mut out: Vec<u8> = Vec::new();
    let mut i: usize = 0;
    while i < v.len()
        invariant
            i <= v@.len(),
            out@ == v@.subrange(0, i as int),
        decreases v@.len() - i,
    {
        out.push(v[i]);
        proof {
            assert(out@ =~= v@.subrange(0, i + 1));
        }
        i = i + 1;
    }
    proof {
        assert(out@ =~= v@);
    }
    out
}

/// Tables do not reorder: once `next_table(prev)` answers, registering
/// more tables never changes that answer, so repeating the same call
/// yields the same pair.
pub proof fn lemma_next_table_stable(before: Seq<Seq<u8>>, after: Seq<Seq<u8>>, prev: Option<u32>)
    requires
        before.is_prefix_of(after),
        next_table_spec(before, prev) is Some,
    ensures
        next_table_spec(after, prev) == next_table_spec(before, prev),
{
    let idx: int = match prev {
        Option::None => 0,
        Option::Some(p) => p + 1,
    };
    assert(after[idx] == before[idx]);
}

/// The name of the UART table.
pub open spec fn uart_name_spec() -> Seq<u8> {
    seq![117u8, 97u8, 114u8, 116u8]
}

/// The table of all UART devices, served inside the kernel.
pub struct UartTable;

/// A query with no results.
pub struct NoneQuery;

/// One UART device, named by its index.
#[derive(Clone, Copy, PartialEq, Eq, Structural, Debug)]
pub struct UartId(pub u8);

/// What a read against a UART must do: hand bytes back at once, or park
/// the caller on a fresh ticket and enable the receive interrupt.
pub enum ReadOutcome {
    /// Complete immediately with these bytes.
    Done(Vec<u8>),
    /// No byte is waiting: park on a ticket until the interrupt fires.
    Park,
}

impl UartTable {
    /// The table's discoverable name, `uart`.
    pub fn name(&self) -> (r: Vec<u8>)
        ensures
            r@ == uart_name_spec(),
    {
        let mut v: Vec<u8> = Vec::new();
        v.push(117);
        v.push(97);
        v.push(114);
        v.push(116);
        proof {
            assert(v@ =~= uart_name_spec());
        }
        v
    }

    /// Queries match nothing: every tagged query completes at once with an
    /// empty result set.
    pub fn query(&self, tags: &Vec<u8>) -> (r: Result<NoneQuery, Error>)
        requires
            tags@.len() > 0,
        ensures
            r is Ok,
    {
        Ok(NoneQuery)
    }

    /// Open a device by path. The empty path is invalid; path `0` names
    /// the one UART; nothing else exists.
    pub fn open(&self, path: &Vec<u8>) -> (r: Result<UartId, Error>)
        ensures
            match r {
                Ok(u) => path@ == seq![48u8] && u == UartId(0),
                Err(e) => {
                    &&& (e == Error::InvalidArgument <==> path@.len() == 0)
                    &&& (path@.len() > 0 ==> e == Error::DoesNotExist)
                    &&& path@ != seq![48u8]
                },
            },
    {
        if path.len() == 0 {
            Err(Error::InvalidArgument)
        } else if path.len() == 1 && path[0] == 48 {
            proof {
                assert(path@ =~= seq![48u8]);
            }
            Ok(UartId(0))
        } else {
            proof {
                if path@ == seq![48u8] {
                    assert(path@.len() == 1 && path@[0] == 48);
                }
            }
            Err(Error::DoesNotExist)
        }
    }

    /// UART devices cannot be created.
    pub fn create(&self, path: &Vec<u8>) -> (r: Result<UartId, Error>)
        ensures
            r == Err::<UartId, Error>(Error::NotImplemented),
    {
        let _ = path;
        Err(Error::NotImplemented)
    }
}

impl UartId {
    /// Serve a read of `length` bytes given what the receive register
    /// holds right now: zero-length reads complete empty at once, an
    /// available byte completes with that one byte, and otherwise the
    /// caller parks on a ticket until the receive interrupt fires.
    pub fn read(&self, length: usize, available: Option<u8>) -> (r: ReadOutcome)
        ensures
            match r {
                ReadOutcome::Done(bytes) => (length == 0 && bytes@ == Seq::<u8>::empty()) || (length
                    > 0 && available is Some && bytes@ == seq![available.unwrap()]),
                ReadOutcome::Park => length > 0 && available is None,
            },
    {
        if length == 0 {
            let v: Vec<u8> = Vec::new();
            proof {
                assert(v@ =~= Seq::<u8>::empty());
            }
            ReadOutcome::Done(v)
        } else {
            match available {
                Some(b) => {
                    let mut v: Vec<u8> = Vec::new();
                    v.push(b);
                    proof {
                        assert(v@ =~= seq![b]);
                    }
                    ReadOutcome::Done(v)
                },
                None => ReadOutcome::Park,
            }
        }
    }

    /// Serve a write: every byte goes to the transmit register in order
    /// and the operation completes at once with the full count.
    pub fn write(&self, data: &Vec<u8>) -> (r: (Vec<u8>, usize))
        ensures
            r.0@ == data@,
            r.1 == data@.len(),
    {
        (clone_bytes(data), data.len())
    }
}

/// Serve the receive interrupt: pair parked readers with the bytes the
/// device has, most recently parked reader first, as many as there are
/// bytes. Returns the completions to perform and whether the queue
/// drained, in which case the receive interrupt is disabled again.
pub fn irq_handler(pending: &mut Vec<usize>, rx: &Vec<u8>) -> (r: (Vec<(usize, u8)>, bool))
    ensures
        ({
            let n = if old(pending)@.len() <= rx@.len() {
                old(pending)@.len() as int
            } else {
                rx@.len() as int
            };
            &&& r.0@.len() == n
            &&& forall|k: int|
                0 <= k < n ==> (#[trigger] r.0@[k]) == (
                old(pending)@[old(pending)@.len() - 1 - k],
                rx@[k],
            )
            &&& final(pending)@ == old(pending)@.take(old(pending)@.len() - n)
            &&& r.1 == (final(pending)@.len() == 0)
        }),
{
    let mut out: Vec<(usize, u8)> = Vec::new();
    let mut k: usize = 0;
    while k < rx.len() && pending.len() > 0
        invariant
            k <= rx@.len(),
            k <= old(pending)@.len(),
            pending@ == old(pending)@.take(old(pending)@.len() - k),
            out@.len() == k,
            forall|j: int|
                0 <= j < k ==> (#[trigger] out@[j]) == (
                old(pending)@[old(pending)@.len() - 1 - j],
                rx@[j],
            ),
            k > 0 ==> k == rx@.len() || old(pending)@.len() - k >= 0,
        decreases rx@.len() - k,
    {
        let w = match pending.pop() {
            Some(w) => w,
            None => {
                proof {
                    assert(false);
                }
                return (out, true);
            },
        };
        proof {
            assert(old(pending)@.take(old(pending)@.len() - k).last() == old(pending)@[old(
                pending,
            )@.len() - 1 - k]);
            assert(pending@ =~= old(pending)@.take(old(pending)@.len() - (k + 1)));
        }
        out.push((w, rx[k]));
        k = k + 1;
    }
    proof {
        if k < rx@.len() {
            assert(pending@.len() == 0);
        }
        assert(pending@ =~= old(pending)@.take(old(pending)@.len() - k as int));
    }
    let drained = pending.len() == 0;
    (out, drained)
}

} // verus!
