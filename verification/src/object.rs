//! A random-access byte object advertising write, read and seek: the
//! simplest capability an object table can hand out, and the reference
//! implementation of their round-trip behaviour.

use crate::errors::Error;
use crate::jobs::SeekFrom;
use vstd::prelude::*;

verus! {

/// The bytes after writing `buf` at position `pos`: the object grows as
/// needed, any gap between its old end and `pos` reads as zero.
pub open spec fn write_spec(data: Seq<u8>, pos: nat, buf: Seq<u8>) -> Seq<u8> {
    let grown = if data.len() >= pos + buf.len() {
        data
    } else {
        data + Seq::new((pos + buf.len() - data.len()) as nat, |i: int| 0u8)
    };
    Seq::new(
        grown.len(),
        |i: int|
            if pos <= i < pos + buf.len() {
                buf[i - pos]
            } else {
                grown[i]
            },
    )
}

/// The bytes a read of `len` bytes at position `pos` returns: short at the
/// object's end.
pub open spec fn read_spec(data: Seq<u8>, pos: nat, len: nat) -> Seq<u8> {
    if pos >= data.len() {
        Seq::empty()
    } else if pos + len <= data.len() {
        data.subrange(pos as int, (pos + len) as int)
    } else {
        data.subrange(pos as int, data.len() as int)
    }
}

/// An in-memory byte object with a cursor.
pub struct BufferObject {
    data: Vec<u8>,
    pos: u64,
}

impl BufferObject {
    pub closed spec fn data_spec(&self) -> Seq<u8> {
        self.data@
    }

    pub closed spec fn pos_spec(&self) -> u64 {
        self.pos
    }

    /// An empty object with the cursor at the start.
    pub fn new() -> (r: BufferObject)
        ensures
            r.data_spec().len() == 0,
            r.pos_spec() == 0,
    {
        BufferObject { data: Vec::new(), pos: 0 }
    }

    /// Write `buf` at the cursor, growing the object as needed, and advance
    /// the cursor past it. Returns the number of bytes written: a write
    /// never comes up short, and a zero-length write succeeds with 0.
    pub fn write(&mut self, buf: &Vec<u8>) -> (r: u64)
        requires
            old(self).pos_spec() + buf@.len() <= u64::MAX,
            old(self).pos_spec() + buf@.len() <= usize::MAX,
        ensures
            r == buf@.len(),
            final(self).data_spec() == write_spec(
                old(self).data_spec(),
                old(self).pos_spec() as nat,
                buf@,
            ),
            final(self).pos_spec() == old(self).pos_spec() + buf@.len(),
    {
        let pos = self.pos as usize;
        let end = pos + buf.len();
        if self.data.len() < end {
            while self.data.len() < end
                invariant
                    end <= usize::MAX,
                    old(self).data_spec().len() <= self.data@.len() <= end,
                    old(self).data_spec().len() < end,
                    self.pos == old(self).pos,
                    self.data@ == old(self).data_spec() + Seq::new(
                        (self.data@.len() - old(self).data_spec().len()) as nat,
                        |i: int| 0u8,
                    ),
                decreases end - self.data@.len(),
            {
                self.data.push(0);
                proof {
                    assert(self.data@ =~= old(self).data_spec() + Seq::new(
                        (self.data@.len() - old(self).data_spec().len()) as nat,
                        |i: int| 0u8,
                    ));
                }
            }
        }
        proof {
            assert(self.data@ == (if old(self).data_spec().len() >= end {
                old(self).data_spec()
            } else {
                old(self).data_spec() + Seq::new(
                    (end - old(self).data_spec().len()) as nat,
                    |i: int| 0u8,
                )
            }));
        }
        let ghost grown = self.data@;
        let mut j: usize = 0;
        while j < buf.len()
            invariant
                j <= buf@.len(),
                pos + buf@.len() <= self.data@.len(),
                self.data@.len() == grown.len(),
                self.pos == old(self).pos,
                pos == old(self).pos,
                forall|i: int| pos <= i < pos + j ==> self.data@[i] == buf@[i - pos],
                forall|i: int|
                    0 <= i < self.data@.len() && !(pos <= i < pos + j) ==> self.data@[i]
                        == grown[i],
            decreases buf@.len() - j,
        {
            let _n = self.data.len();
            self.data.set(pos + j, buf[j]);
            j = j + 1;
        }
        proof {
            assert(self.data@ =~= write_spec(
                old(self).data_spec(),
                old(self).pos_spec() as nat,
                buf@,
            ));
        }
        self.pos = self.pos + buf.len() as u64;
        buf.len() as u64
    }

    /// Read up to `len` bytes at the cursor and advance it past what was
    /// read; short when the object ends first, and a zero-length read
    /// succeeds with nothing.
    pub fn read(&mut self, len: usize) -> (r: Vec<u8>)
        ensures
            r@ == read_spec(old(self).data_spec(), old(self).pos_spec() as nat, len as nat),
            final(self).data_spec() == old(self).data_spec(),
            final(self).pos_spec() == old(self).pos_spec() + r@.len(),
    {
        let dlen = self.data.len();
        let pos64 = self.pos;
        if pos64 >= dlen as u64 {
            let r: Vec<u8> = Vec::new();
            proof {
                assert(r@ =~= read_spec(
                    old(self).data_spec(),
                    old(self).pos_spec() as nat,
                    len as nat,
                ));
            }
            return r;
        }
        let pos = pos64 as usize;
        let count = if len <= dlen - pos {
            len
        } else {
            dlen - pos
        };
        let mut out: Vec<u8> = Vec::new();
        let mut j: usize = 0;
        while j < count
            invariant
                j <= count,
                pos + count <= self.data@.len(),
                self.data@ == old(self).data_spec(),
                self.pos == old(self).pos,
                out@ == self.data@.subrange(pos as int, pos + j),
            decreases count - j,
        {
            let _n = self.data.len();
            out.push(self.data[pos + j]);
            proof {
                assert(out@ =~= self.data@.subrange(pos as int, pos + j + 1));
            }
            j = j + 1;
        }
        proof {
            assert(out@ =~= read_spec(
                old(self).data_spec(),
                old(self).pos_spec() as nat,
                len as nat,
            ));
        }
        self.pos = self.pos + count as u64;
        out
    }

    /// Move the cursor: to an absolute position, relative to the cursor, or
    /// relative to the end. A move to before the start or past `u64::MAX`
    /// is rejected as `InvalidArgument` and leaves the cursor in place.
    pub fn seek(&mut self, from: SeekFrom) -> (r: Result<u64, Error>)
        ensures
            final(self).data_spec() == old(self).data_spec(),
            ({
                let target: int = match from {
                    SeekFrom::Start(n) => n as int,
                    SeekFrom::Current(d) => old(self).pos_spec() + d,
                    SeekFrom::End(d) => old(self).data_spec().len() + d,
                };
                if 0 <= target <= u64::MAX {
                    r == Ok::<u64, Error>(target as u64) && final(self).pos_spec() == target
                } else {
                    r == Err::<u64, Error>(Error::InvalidArgument) && final(self).pos_spec()
                        == old(self).pos_spec()
                }
            }),
    {
        match from {
            SeekFrom::Start(n) => {
                self.pos = n;
                Ok(n)
            },
            SeekFrom::Current(d) => {
                if d >= 0 {
                    let step = d as u64;
                    if step <= u64::MAX - self.pos {
                        self.pos = self.pos + step;
                        Ok(self.pos)
                    } else {
                        Err(Error::InvalidArgument)
                    }
                } else {
                    let back = (-(d as i128)) as u64;
                    if back <= self.pos {
                        self.pos = self.pos - back;
                        Ok(self.pos)
                    } else {
                        Err(Error::InvalidArgument)
                    }
                }
            },
            SeekFrom::End(d) => {
                let end = self.data.len() as u64;
                if d >= 0 {
                    let step = d as u64;
                    if step <= u64::MAX - end {
                        self.pos = end + step;
                        Ok(self.pos)
                    } else {
                        Err(Error::InvalidArgument)
                    }
                } else {
                    let back = (-(d as i128)) as u64;
                    if back <= end {
                        self.pos = end - back;
                        Ok(self.pos)
                    } else {
                        Err(Error::InvalidArgument)
                    }
                }
            },
        }
    }
}

/// Round trip: writing `buf` at the start and reading `buf.len()` bytes
/// back from the start yields `buf` again, whatever the object held
/// before.
pub proof fn lemma_write_read_roundtrip(data: Seq<u8>, buf: Seq<u8>)
    ensures
        read_spec(write_spec(data, 0, buf), 0, buf.len()) == buf,
{
    let w = write_spec(data, 0, buf);
    assert(w.len() >= buf.len());
    if buf.len() == 0 {
        assert(read_spec(w, 0, 0) =~= buf);
    } else {
        assert(read_spec(w, 0, buf.len()) =~= buf);
    }
}

} // verus!
