//! The syscall ABI surface: numeric call identifiers, the plain value
//! types carried across the user-kernel boundary, and the kernel log line
//! buffer. The `syscall` instruction and its register plumbing live
//! outside this crate; everything here is the data the two sides agree on.

use vstd::prelude::*;

verus! {

/// Stable syscall identifiers.
pub const ID_SYSLOG: usize = 0;

pub const ID_ALLOC_DMA: usize = 3;

pub const ID_PHYSICAL_ADDRESS: usize = 4;

pub const ID_NEXT_TABLE: usize = 5;

pub const ID_QUERY_TABLE: usize = 6;

pub const ID_QUERY_NEXT: usize = 7;

pub const ID_OPEN_OBJECT: usize = 8;

pub const ID_MAP_OBJECT: usize = 9;

pub const ID_SLEEP: usize = 10;

/// Fold a raw `(status, value)` syscall return into a result: status zero
/// is success carrying the value, anything else the error kind with its
/// auxiliary value.
pub fn ret(status: usize, value: usize) -> (r: Result<usize, (usize, usize)>)
    ensures
        if status == 0 {
            r == Ok::<usize, (usize, usize)>(value)
        } else {
            r == Err::<usize, (usize, usize)>((status, value))
        },
{
    if status == 0 {
        Ok(value)
    } else {
        Err((status, value))
    }
}

/// An object identifier inside a table.
#[derive(Clone, Copy, PartialEq, Eq, Structural, Debug)]
pub struct Id(pub u64);

impl Default for Id {
    /// The reserved invalid identifier.
    fn default() -> (r: Id)
        ensures
            r == Id(u64::MAX),
    {
        Id(u64::MAX)
    }
}

/// A registered table's identifier.
#[derive(Clone, Copy, PartialEq, Eq, Structural, Debug)]
pub struct TableId(pub u32);

impl Default for TableId {
    /// The reserved invalid identifier.
    fn default() -> (r: TableId)
        ensures
            r == TableId(u32::MAX),
    {
        TableId(u32::MAX)
    }
}

/// A process-local handle to an opened object.
#[derive(Clone, Copy, PartialEq, Eq, Structural, Debug)]
pub struct Handle(pub usize);

/// A handle to an in-progress query.
#[derive(Clone, Copy, PartialEq, Eq, Structural, Debug)]
pub struct QueryHandle(pub usize);

/// A userspace memory region passed by address and length; the kernel
/// never dereferences it without its own checks.
#[derive(Clone, Copy, PartialEq, Eq, Structural, Debug)]
pub struct Slice {
    pub addr: usize,
    pub length: usize,
}

impl Slice {
    pub fn len(&self) -> (r: usize)
        ensures
            r == self.length,
    {
        self.length
    }
}

/// A table's name as the iteration syscall reports it: up to 255 bytes in
/// a fixed buffer.
pub struct TableInfo {
    name_len: u8,
    name: Vec<u8>,
}

impl TableInfo {
    pub closed spec fn name_len_spec(&self) -> u8 {
        self.name_len
    }

    pub closed spec fn name_bytes(&self) -> Seq<u8> {
        self.name@
    }

    pub open spec fn wf(&self) -> bool {
        &&& self.name_bytes().len() == 255
        &&& self.name_len_spec() <= 255
    }

    /// The valid prefix of the name buffer.
    pub fn name(&self) -> (r: Vec<u8>)
        requires
            self.wf(),
        ensures
            r@ == self.name_bytes().subrange(0, self.name_len_spec() as int),
    {
        let mut out: Vec<u8> = Vec::new();
        let n = self.name_len as usize;
        let mut i: usize = 0;
        while i < n
            invariant
                i <= n <= self.name_bytes().len(),
                out@ == self.name_bytes().subrange(0, i as int),
            decreases n - i,
        {
            out.push(self.name[i]);
            proof {
                assert(out@ =~= self.name_bytes().subrange(0, i + 1));
            }
            i = i + 1;
        }
        out
    }

    /// Fill the name from `bytes`.
    pub fn set_name(&mut self, bytes: &Vec<u8>)
        requires
            old(self).wf(),
            bytes@.len() <= 255,
        ensures
            final(self).wf(),
            final(self).name_len_spec() == bytes@.len(),
            final(self).name_bytes().subrange(0, bytes@.len() as int) == bytes@,
    {
        let n = bytes.len();
        let mut i: usize = 0;
        while i < n
            invariant
                n == bytes@.len() <= 255,
                i <= n,
                self.name@.len() == 255,
                self.name_len == old(self).name_len,
                forall|j: int| 0 <= j < i ==> self.name@[j] == bytes@[j],
            decreases n - i,
        {
            self.name.set(i, bytes[i]);
            i = i + 1;
        }
        self.name_len = n as u8;
        proof {
            assert(self.name_bytes().subrange(0, bytes@.len() as int) =~= bytes@);
        }
    }
}

impl Default for TableInfo {
    /// An empty name in a zeroed buffer.
    fn default() -> (r: TableInfo)
        ensures
            r.wf(),
            r.name_len_spec() == 0,
            r.name_bytes() == Seq::new(255, |i: int| 0u8),
    {
        let mut name: Vec<u8> = Vec::new();
        let mut i: usize = 0;
        while i < 255
            invariant
                i <= 255,
                name@ == Seq::new(i as nat, |j: int| 0u8),
            decreases 255 - i,
        {
            name.push(0);
            proof {
                assert(name@ =~= Seq::new((i + 1) as nat, |j: int| 0u8));
            }
            i = i + 1;
        }
        TableInfo { name_len: 0, name }
    }
}

/// One object a query reports: its identifier, its name, and its tags,
/// the tag strings living length-prefixed in a side buffer.
pub struct ObjectInfo {
    id: Id,
    name_len: u8,
    name: Vec<u8>,
    tags_len: u8,
    tags_offsets: Vec<u32>,
    string_buffer: Vec<u8>,
}

impl ObjectInfo {
    pub closed spec fn id_spec(&self) -> Id {
        self.id
    }

    /// The object identifier this record names.
    pub fn id(&self) -> (r: Id)
        ensures
            r == self.id_spec(),
    {
        self.id
    }

    /// Name a different object.
    pub fn set_id(&mut self, id: Id)
        ensures
            final(self).id_spec() == id,
            final(self).name_len_spec() == old(self).name_len_spec(),
            final(self).name_bytes() == old(self).name_bytes(),
            final(self).tags_len_spec() == old(self).tags_len_spec(),
            final(self).tags_offsets_spec() == old(self).tags_offsets_spec(),
            final(self).buffer_spec() == old(self).buffer_spec(),
    {
        self.id = id;
    }

    pub closed spec fn name_len_spec(&self) -> u8 {
        self.name_len
    }

    pub closed spec fn name_bytes(&self) -> Seq<u8> {
        self.name@
    }

    pub closed spec fn tags_len_spec(&self) -> u8 {
        self.tags_len
    }

    pub closed spec fn tags_offsets_spec(&self) -> Seq<u32> {
        self.tags_offsets@
    }

    pub closed spec fn buffer_spec(&self) -> Seq<u8> {
        self.string_buffer@
    }

    /// Tag `k` sits inside the side buffer: its length byte and its bytes.
    pub open spec fn tag_ok(&self, k: int) -> bool {
        let off = self.tags_offsets_spec()[k] as int;
        &&& off < self.buffer_spec().len()
        &&& off + 1 + self.buffer_spec()[off] <= self.buffer_spec().len()
    }

    /// The bytes of tag `k`.
    pub open spec fn tag_spec(&self, k: int) -> Seq<u8> {
        let off = self.tags_offsets_spec()[k] as int;
        self.buffer_spec().subrange(off + 1, off + 1 + self.buffer_spec()[off])
    }

    pub open spec fn wf(&self) -> bool {
        &&& self.name_bytes().len() == 255
        &&& self.name_len_spec() <= 255
        &&& self.tags_offsets_spec().len() == 255
        &&& self.tags_len_spec() <= 255
        &&& forall|k: int| 0 <= k < self.tags_len_spec() ==> self.tag_ok(k)
    }

    /// A fresh record whose tag strings will live in `string_buffer`.
    pub fn new(string_buffer: Vec<u8>) -> (r: ObjectInfo)
        ensures
            r.wf(),
            r.id_spec() == Id(u64::MAX),
            r.name_len_spec() == 0,
            r.tags_len_spec() == 0,
            r.buffer_spec() == string_buffer@,
    {
        let mut name: Vec<u8> = Vec::new();
        let mut tags_offsets: Vec<u32> = Vec::new();
        let mut i: usize = 0;
        while i < 255
            invariant
                i <= 255,
                name@.len() == i,
                tags_offsets@.len() == i,
            decreases 255 - i,
        {
            name.push(0);
            tags_offsets.push(0);
            i = i + 1;
        }
        ObjectInfo { id: Id(u64::MAX), name_len: 0, name, tags_len: 0, tags_offsets, string_buffer }
    }

    /// The valid prefix of the name buffer.
    pub fn name(&self) -> (r: Vec<u8>)
        requires
            self.wf(),
        ensures
            r@ == self.name_bytes().subrange(0, self.name_len_spec() as int),
    {
        let mut out: Vec<u8> = Vec::new();
        let n = self.name_len as usize;
        let mut i: usize = 0;
        while i < n
            invariant
                i <= n <= self.name_bytes().len(),
                out@ == self.name_bytes().subrange(0, i as int),
            decreases n - i,
        {
            out.push(self.name[i]);
            proof {
                assert(out@ =~= self.name_bytes().subrange(0, i + 1));
            }
            i = i + 1;
        }
        out
    }

    /// The bytes of tag `index`.
    pub fn tag(&self, index: usize) -> (r: Vec<u8>)
        requires
            self.wf(),
            index < self.tags_len_spec(),
        ensures
            r@ == self.tag_spec(index as int),
    {
        proof {
            assert(self.tag_ok(index as int));
        }
        let off = self.tags_offsets[index] as usize;
        let len = self.string_buffer[off] as usize;
        let mut out: Vec<u8> = Vec::new();
        let mut i: usize = 0;
        while i < len
            invariant
                i <= len,
                off + 1 + len <= self.buffer_spec().len(),
                len == self.buffer_spec()[off as int],
                out@ == self.buffer_spec().subrange(off + 1, off + 1 + i),
            decreases len - i,
        {
            let _n = self.string_buffer.len();
            out.push(self.string_buffer[off + 1 + i]);
            proof {
                assert(out@ =~= self.buffer_spec().subrange(off + 1, off + 1 + i + 1));
            }
            i = i + 1;
        }
        out
    }

    /// How many tags the record carries.
    pub fn tags_count(&self) -> (r: usize)
        ensures
            r == self.tags_len_spec(),
    {
        self.tags_len as usize
    }

    /// Append a tag: its length byte and bytes go to the end of the side
    /// buffer and its offset is recorded.
    pub fn push_tag(&mut self, tag: &Vec<u8>)
        requires
            old(self).wf(),
            old(self).tags_len_spec() < 255,
            tag@.len() <= 255,
            old(self).buffer_spec().len() + 1 + tag@.len() <= u32::MAX,
        ensures
            final(self).wf(),
            final(self).tags_len_spec() == old(self).tags_len_spec() + 1,
            final(self).tag_spec(old(self).tags_len_spec() as int) == tag@,
            forall|k: int|
                0 <= k < old(self).tags_len_spec() ==> final(self).tag_spec(k) == old(
                    self,
                ).tag_spec(k),
    {
        let off = self.string_buffer.len();
        self.string_buffer.push(tag.len() as u8);
        let mut i: usize = 0;
        while i < tag.len()
            invariant
                i <= tag@.len(),
                self.string_buffer@ == old(self).buffer_spec() + seq![tag@.len() as u8]
                    + tag@.subrange(0, i as int),
                off == old(self).buffer_spec().len(),
                self.tags_offsets@ == old(self).tags_offsets_spec(),
                self.tags_len == old(self).tags_len_spec(),
                self.name@ == old(self).name_bytes(),
                self.name_len == old(self).name_len_spec(),
                tag@.len() <= 255,
            decreases tag@.len() - i,
        {
            self.string_buffer.push(tag[i]);
            proof {
                assert(self.string_buffer@ =~= old(self).buffer_spec() + seq![tag@.len() as u8]
                    + tag@.subrange(0, i + 1));
            }
            i = i + 1;
        }
        let idx = self.tags_len as usize;
        self.tags_offsets.set(idx, off as u32);
        self.tags_len = self.tags_len + 1;
        proof {
            assert(tag@.subrange(0, tag@.len() as int) =~= tag@);
            let b1 = self.buffer_spec();
            let b0 = old(self).buffer_spec();
            assert(b1 == b0 + seq![tag@.len() as u8] + tag@);
            assert(b1[off as int] == tag@.len() as u8);
            assert(self.tag_spec(idx as int) =~= tag@);
            assert forall|k: int| 0 <= k < old(self).tags_len_spec() implies final(self).tag_ok(k)
                && final(self).tag_spec(k) == old(self).tag_spec(k) by {
                assert(old(self).tag_ok(k));
                let o = old(self).tags_offsets_spec()[k] as int;
                assert(self.tags_offsets_spec()[k] == old(self).tags_offsets_spec()[k]);
                assert(b1[o] == b0[o]);
                assert forall|j: int| o + 1 <= j < o + 1 + b0[o] implies b1[j] == b0[j] by {}
                assert(self.tag_spec(k) =~= old(self).tag_spec(k));
            }
            assert forall|k: int| 0 <= k < self.tags_len_spec() implies self.tag_ok(k) by {
                if k < old(self).tags_len_spec() {
                } else {
                    assert(k == idx);
                }
            }
        }
    }
}

/// The kernel log's line buffer: bytes gather until a newline flushes them
/// as one log line of at most 127 bytes.
pub struct SysLog {
    buffer: Vec<u8>,
}

impl SysLog {
    pub closed spec fn buffer_spec(&self) -> Seq<u8> {
        self.buffer@
    }

    pub open spec fn wf(&self) -> bool {
        self.buffer_spec().len() <= 127
    }

    /// An empty line buffer.
    pub fn new() -> (r: SysLog)
        ensures
            r.wf(),
            r.buffer_spec().len() == 0,
    {
        SysLog { buffer: Vec::new() }
    }

    /// Take the gathered line; the log syscall then carries it out.
    pub fn flush(&mut self) -> (r: Vec<u8>)
        requires
            old(self).wf(),
        ensures
            final(self).wf(),
            r@ == old(self).buffer_spec(),
            final(self).buffer_spec().len() == 0,
    {
        let mut out: Vec<u8> = Vec::new();
        core::mem::swap(&mut out, &mut self.buffer);
        out
    }

    /// Gather one byte: a newline flushes the line, anything else joins it.
    /// The buffer holds at most 127 bytes, so a longer line must see a
    /// newline first.
    pub fn push_byte(&mut self, c: u8) -> (r: Option<Vec<u8>>)
        requires
            old(self).wf(),
            c == 10 || old(self).buffer_spec().len() < 127,
        ensures
            final(self).wf(),
            match r {
                Some(line) => {
                    &&& c == 10
                    &&& line@ == old(self).buffer_spec()
                    &&& final(self).buffer_spec().len() == 0
                },
                None => {
                    &&& c != 10
                    &&& final(self).buffer_spec() == old(self).buffer_spec().push(c)
                },
            },
    {
        if c == 10 {
            Some(self.flush())
        } else {
            self.buffer.push(c);
            None
        }
    }
}

impl Default for SysLog {
    /// An empty line buffer.
    fn default() -> (r: SysLog)
        ensures
            r.wf(),
            r.buffer_spec().len() == 0,
    {
        SysLog { buffer: Vec::new() }
    }
}

} // verus!
