//! Address spaces and memory objects: sorted, non-overlapping lists of
//! `(page range, memory object)` mappings, for one process's user window and
//! for the kernel-global window, together with the page-table entries the
//! MMU layer must program. The MMU itself (page-table loads, TLB flushes)
//! lives outside this crate; every operation here returns the exact
//! `(virtual page, physical frame)` pairs to program.

use crate::page::PAGE_SIZE;
use vstd::prelude::*;

verus! {

/// Why a mapping request was rejected.
#[derive(Clone, Copy, PartialEq, Eq, Structural, Debug)]
pub enum MapError {
    /// The requested range wraps the address space or collides with an
    /// existing mapping.
    Overflow,
    /// The object has no frames.
    ZeroSize,
    /// The byte offset into the object is not page-aligned.
    UnalignedOffset,
    /// The MMU layer refused the mapping.
    Arch,
}

/// Why an unmap request was rejected.
#[derive(Clone, Copy, PartialEq, Eq, Structural, Debug)]
pub enum UnmapError {
    /// The range covers part of a mapping but neither the whole mapping nor
    /// a suffix of it.
    PartialUnmapUnsupported,
}

/// Why an identity-mapping request was rejected.
#[derive(Clone, Copy, PartialEq, Eq, Structural, Debug)]
pub enum IdentityMapError {
    /// The MMU layer refused the mapping.
    Arch,
}

/// Why allocating the root of a fresh address space failed.
#[derive(Clone, Copy, PartialEq, Eq, Structural, Debug)]
pub enum AllocateError {
    OutOfMemory,
}

/// An ordered provider of physical frames, identified by their physical
/// page numbers. Shared objects keep their frame list stable for their
/// whole lifetime.
pub struct MemoryObject {
    pub frames: Vec<u64>,
}

impl MemoryObject {
    /// An object over the given frames.
    pub fn new(frames: Vec<u64>) -> (r: MemoryObject)
        ensures
            r.frames@ == frames@,
    {
        MemoryObject { frames }
    }

    /// An object over `count` consecutive frames starting at `base`, as a
    /// driver image loaded contiguously by the bootloader provides them.
    pub fn from_contiguous(base: u64, count: u64) -> (r: MemoryObject)
        requires
            base + count <= u64::MAX,
            count <= usize::MAX,
        ensures
            r.frames@.len() == count,
            forall|i: int| 0 <= i < count ==> r.frames@[i] == base + i,
    {
        let mut frames: Vec<u64> = Vec::new();
        let mut i: u64 = 0;
        while i < count
            invariant
                i <= count,
                base + count <= u64::MAX,
                frames@.len() == i,
                forall|j: int| 0 <= j < i ==> frames@[j] == base + j,
            decreases count - i,
        {
            frames.push(base + i);
            i = i + 1;
        }
        MemoryObject { frames }
    }

    /// How many frames this object provides.
    pub fn physical_pages_len(&self) -> (r: usize)
        ensures
            r == self.frames@.len(),
    {
        self.frames.len()
    }
}

/// One mapped range: `count` pages starting at virtual page `start`,
/// backed by a memory object.
pub struct Mapping {
    pub start: u64,
    pub count: u64,
    pub object: MemoryObject,
}

/// One past the highest virtual page number: every byte address of a
/// mapped page fits in a 64-bit word.
pub const PAGE_LIMIT: u64 = u64::MAX / 4096;

impl Mapping {
    /// The last page of the range, inclusive.
    pub open spec fn end_spec(&self) -> int {
        self.start + self.count - 1
    }

    pub open spec fn wf(&self) -> bool {
        &&& 1 <= self.count
        &&& self.start + self.count <= PAGE_LIMIT
    }
}

/// Every mapping is non-empty, in range, and the list is sorted with the
/// ranges pairwise disjoint: each mapping ends strictly before the next
/// one starts.
pub open spec fn wf_mappings(s: Seq<Mapping>) -> bool {
    &&& forall|i: int| 0 <= i < s.len() ==> (#[trigger] s[i]).wf()
    &&& forall|i: int, j: int| 0 <= i < j < s.len() ==> s[i].end_spec() < s[j].start
}

/// Find the lowest free range past the last existing mapping, leaving one
/// guard page, or the default window start when nothing is mapped yet.
/// Returns the first page of the free range and the insertion index.
pub fn find_free_range(objects: &Vec<Mapping>, count: u64, default_start: u64) -> (r: Result<
    (u64, usize),
    MapError,
>)
    requires
        wf_mappings(objects@),
    ensures
        match r {
            Ok((start, index)) => {
                &&& index == objects@.len()
                &&& if objects@.len() == 0 {
                    start == default_start
                } else {
                    start == objects@.last().end_spec() + 2
                }
            },
            Err(e) => {
                &&& e == MapError::Overflow
                &&& objects@.len() > 0
                &&& objects@.last().end_spec() + 2 > PAGE_LIMIT
            },
        },
{
    if objects.len() == 0 {
        Ok((default_start, 0))
    } else {
        let last = &objects[objects.len() - 1];
        proof {
            assert(objects@.last().wf());
        }
        if last.count > PAGE_LIMIT - 1 - last.start {
            return Err(MapError::Overflow);
        }
        Ok((last.start + last.count + 1, objects.len()))
    }
}

/// Where an auto-placed mapping goes: the default window start on an
/// empty list, one guard page past the last mapping otherwise.
pub open spec fn auto_start(s: Seq<Mapping>, default_start: u64) -> int {
    if s.len() == 0 {
        default_start as int
    } else {
        s.last().end_spec() + 2
    }
}

/// Whether `count` pages starting at `start` neither wrap nor collide with
/// any mapping in the list.
pub open spec fn range_free(s: Seq<Mapping>, start: int, count: int) -> bool {
    &&& start + count <= PAGE_LIMIT
    &&& forall|i: int|
        0 <= i < s.len() ==> (#[trigger] s[i]).end_spec() < start || start + count - 1 < s[i].start
}

/// Choose the range for a new mapping of `frames_len` pages: the caller's
/// base if given, the lowest free range past the last mapping otherwise.
/// Returns the first page and the index where the mapping belongs.
/// Zero-size objects are rejected; so is a range that wraps or collides.
pub fn map_object_common(objects: &Vec<Mapping>, default_start: u64, base: Option<u64>, frames_len: u64) -> (r:
    Result<(u64, usize), MapError>)
    requires
        wf_mappings(objects@),
    ensures
        match r {
            Ok((start, index)) => {
                &&& frames_len >= 1
                &&& index <= objects@.len()
                &&& range_free(objects@, start as int, frames_len as int)
                &&& forall|i: int| 0 <= i < index ==> (#[trigger] objects@[i]).end_spec() < start
                &&& forall|i: int|
                    index <= i < objects@.len() ==> start + frames_len - 1 < (
                    #[trigger] objects@[i]).start
                &&& base is Some ==> start == base.unwrap()
                &&& (base is None && objects@.len() > 0) ==> start == objects@.last().end_spec()
                    + 2
                &&& (base is None && objects@.len() == 0) ==> start == default_start
            },
            Err(e) => {
                &&& (e == MapError::ZeroSize <==> frames_len == 0)
                &&& (e == MapError::ZeroSize || e == MapError::Overflow)
                &&& base is None ==> !(1 <= frames_len && auto_start(objects@, default_start)
                    + frames_len <= PAGE_LIMIT)
            },
        },
{
    if frames_len == 0 {
        return Err(MapError::ZeroSize);
    }
    match base {
        Some(b) => {
            if b > PAGE_LIMIT || frames_len > PAGE_LIMIT - b {
                return Err(MapError::Overflow);
            }
            // find the insertion point and check the range is free
            let mut index: usize = 0;
            while index < objects.len()
                invariant
                    wf_mappings(objects@),
                    index <= objects@.len(),
                    forall|i: int| 0 <= i < index ==> (#[trigger] objects@[i]).start < b,
                decreases objects@.len() - index,
            {
                let m = &objects[index];
                proof {
                    assert(objects@[index as int].wf());
                }
                if m.start >= b {
                    break ;
                }
                index = index + 1;
            }
            let mut ok: bool = true;
            if index > 0 {
                let prev = &objects[index - 1];
                proof {
                    assert(objects@[index - 1].wf());
                }
                if prev.start + prev.count > b {
                    ok = false;
                }
            }
            if index < objects.len() {
                let next = &objects[index];
                if frames_len > next.start || b > next.start - frames_len {
                    ok = false;
                }
            }
            if !ok {
                return Err(MapError::Overflow);
            }
            proof {
                assert forall|i2: int| 0 <= i2 < index implies (#[trigger] objects@[i2]).end_spec()
                    < b by {
                    if index > 0 && i2 < index - 1 {
                        assert(objects@[i2].end_spec() < objects@[index - 1].start);
                    }
                }
                assert forall|i2: int| index <= i2 < objects@.len() implies b + frames_len - 1 < (
                #[trigger] objects@[i2]).start by {
                    if i2 > index {
                        assert(objects@[index as int].end_spec() < objects@[i2].start);
                        assert(objects@[index as int].wf());
                    }
                }
            }
            Ok((b, index))
        },
        None => {
            let (start, index) = match find_free_range(objects, frames_len, default_start) {
                Ok(p) => p,
                Err(e) => {
                    return Err(e);
                },
            };
            if start > PAGE_LIMIT || frames_len > PAGE_LIMIT - start {
                return Err(MapError::Overflow);
            }
            proof {
                assert forall|i2: int| 0 <= i2 < objects@.len() implies (
                #[trigger] objects@[i2]).end_spec() < start by {
                    if objects@.len() > 0 && i2 < objects@.len() - 1 {
                        assert(objects@[i2].end_spec() < objects@[objects@.len() - 1].start);
                        assert(objects@[objects@.len() - 1].wf());
                    }
                }
            }
            Ok((start, index))
        },
    }
}

/// Inserting a mapping that fits strictly between its neighbours keeps the
/// list sorted and disjoint.
pub proof fn lemma_wf_insert(s: Seq<Mapping>, m: Mapping, index: int)
    requires
        wf_mappings(s),
        m.wf(),
        0 <= index <= s.len(),
        forall|i: int| 0 <= i < index ==> (#[trigger] s[i]).end_spec() < m.start,
        forall|i: int| index <= i < s.len() ==> m.end_spec() < (#[trigger] s[i]).start,
    ensures
        wf_mappings(s.insert(index, m)),
{
    let t = s.insert(index, m);
    assert forall|i: int| 0 <= i < t.len() implies (#[trigger] t[i]).wf() by {
        if i < index {
            assert(t[i] == s[i]);
        } else if i == index {
        } else {
            assert(t[i] == s[i - 1]);
        }
    }
    assert forall|i: int, j: int| 0 <= i < j < t.len() implies t[i].end_spec() < t[j].start by {
        if i < index {
            assert(t[i] == s[i]);
        } else if i == index {
        } else {
            assert(t[i] == s[i - 1]);
        }
        if j < index {
            assert(t[j] == s[j]);
        } else if j == index {
        } else {
            assert(t[j] == s[j - 1]);
        }
        if i < index && j > index {
            assert(s[i].end_spec() < m.start && m.end_spec() < s[j - 1].start);
        }
    }
}

/// Read, write and execute permissions for a mapping; programmed into the
/// MMU by the arch layer.
#[derive(Clone, Copy, PartialEq, Eq, Structural, Debug)]
pub enum RWX {
    R,
    RW,
    RX,
    RWX,
}

/// The first page of the user window objects are auto-placed in.
pub const USER_DEFAULT_BASE_PAGE: u64 = 1;

/// The first page of the kernel-global window, between the kernel base and
/// the identity map: 32 TiB of address space.
pub const KERNEL_DEFAULT_BASE_PAGE: u64 = 0xffff_a000_0000_0000 / 4096;

/// The page-table entries the arch layer must program for one new mapping:
/// consecutive virtual pages from `base`, each backed by the listed frame.
pub open spec fn mmu_pairs_spec(base: int, frames: Seq<u64>, skip: int, take: int) -> Seq<
    (u64, u64),
> {
    Seq::new(take as nat, |i: int| ((base + i) as u64, frames[skip + i]))
}

/// How many frames of an object a window of `max_length` bytes starting
/// `offset` bytes in actually maps.
pub open spec fn mapped_frames(frames_len: int, offset_pages: int, max_length: int) -> int {
    let avail = frames_len - offset_pages;
    let want = max_length / (PAGE_SIZE as int);
    if avail <= 0 {
        0
    } else if want < avail {
        want
    } else {
        avail
    }
}

/// Build the page-table entries for mapping `take` of `frames` at `base`,
/// starting `offset_pages` frames in.
fn build_mmu_pairs(base: u64, frames: &Vec<u64>, offset_pages: usize, take: usize) -> (r: Vec<
    (u64, u64),
>)
    requires
        take == 0 || offset_pages + take <= frames@.len(),
        base + frames@.len() <= PAGE_LIMIT,
    ensures
        r@ == mmu_pairs_spec(base as int, frames@, offset_pages as int, take as int),
{
    let mut out: Vec<(u64, u64)> = Vec::new();
    let flen = frames.len();
    let mut i: usize = 0;
    while i < take
        invariant
            i <= take,
            take == 0 || offset_pages + take <= flen,
            flen == frames@.len(),
            base + frames@.len() <= PAGE_LIMIT,
            out@ == mmu_pairs_spec(base as int, frames@, offset_pages as int, i as int),
        decreases take - i,
    {
        out.push((base + i as u64, frames[offset_pages + i]));
        proof {
            assert(out@ =~= mmu_pairs_spec(base as int, frames@, offset_pages as int, i + 1));
        }
        i = i + 1;
    }
    out
}

/// One process's address space: the sorted list of its user-window
/// mappings. The MMU root itself lives in the arch layer; every operation
/// returns the entries to program.
pub struct AddressSpace {
    pub objects: Vec<Mapping>,
}

impl AddressSpace {
    pub open spec fn wf(&self) -> bool {
        wf_mappings(self.objects@)
    }

    /// A fresh, empty address space.
    pub fn new() -> (r: Result<AddressSpace, AllocateError>)
        ensures
            match r {
                Ok(a) => a.wf() && a.objects@.len() == 0,
                Err(_) => false,
            },
    {
        Ok(AddressSpace { objects: Vec::new() })
    }

    /// Map `object` into the user window. With no base given the object
    /// goes one guard page past the last mapping. The first `offset` bytes
    /// of the object are skipped and at most `max_length` bytes mapped;
    /// the whole object's range is reserved either way. Returns the first
    /// mapped page, the reserved length in bytes, and the page-table
    /// entries to program.
    pub fn map_object(&mut self, base: Option<u64>, object: MemoryObject, rwx: RWX, offset: usize, max_length: usize, hint_color: u8) -> (r:
        Result<(u64, u64, Vec<(u64, u64)>), MapError>)
        requires
            old(self).wf(),
        ensures
            final(self).wf(),
            match r {
                Ok((start, length, mmu)) => {
                    &&& offset % PAGE_SIZE == 0
                    &&& 1 <= object.frames@.len()
                    &&& length == object.frames@.len() * 4096
                    &&& base is Some ==> start == base.unwrap()
                    &&& (base is None && old(self).objects@.len() > 0) ==> start == old(
                        self,
                    ).objects@.last().end_spec() + 2
                    &&& (base is None && old(self).objects@.len() == 0) ==> start
                        == USER_DEFAULT_BASE_PAGE
                    &&& mmu@ == mmu_pairs_spec(
                        start as int,
                        object.frames@,
                        (offset / PAGE_SIZE) as int,
                        mapped_frames(
                            object.frames@.len() as int,
                            (offset / PAGE_SIZE) as int,
                            max_length as int,
                        ),
                    )
                    &&& exists|index: int|
                        0 <= index <= old(self).objects@.len() && final(self).objects@
                            == #[trigger] old(self).objects@.insert(
                            index,
                            (Mapping { start, count: object.frames@.len() as u64, object }),
                        )
                },
                Err(e) => {
                    &&& final(self).objects@ == old(self).objects@
                    &&& (e == MapError::UnalignedOffset <==> offset % PAGE_SIZE != 0)
                    &&& offset % PAGE_SIZE == 0 ==> (e == MapError::ZeroSize <==> object.frames@.len() == 0)
                    &&& (base is None && offset % PAGE_SIZE == 0) ==> !(1 <= object.frames@.len()
                        && auto_start(old(self).objects@, USER_DEFAULT_BASE_PAGE)
                        + object.frames@.len() <= PAGE_LIMIT)
                },
            },
    {
        let _ = rwx;
        let _ = hint_color;
        if offset % PAGE_SIZE != 0 {
            return Err(MapError::UnalignedOffset);
        }
        let flen = object.physical_pages_len();
        let (start, index) = match map_object_common(
            &self.objects,
            USER_DEFAULT_BASE_PAGE,
            base,
            flen as u64,
        ) {
            Ok(p) => p,
            Err(e) => {
                return Err(e);
            },
        };
        let o = offset / PAGE_SIZE;
        let take = if o >= flen {
            0
        } else {
            let avail = flen - o;
            let want = max_length / PAGE_SIZE;
            if want < avail {
                want
            } else {
                avail
            }
        };
        proof {
            assert(take as int == mapped_frames(
                object.frames@.len() as int,
                (offset / PAGE_SIZE) as int,
                max_length as int,
            ));
        }
        let mmu = build_mmu_pairs(start, &object.frames, o, take);
        let count = flen as u64;
        let m = Mapping { start, count, object };
        proof {
            lemma_wf_insert(self.objects@, m, index as int);
        }
        self.objects.insert(index, m);
        proof {
            assert(count * 4096 <= u64::MAX) by (nonlinear_arith)
                requires
                    count <= PAGE_LIMIT,
                    PAGE_LIMIT == u64::MAX / 4096,
            ;
        }
        Ok((start, count * 4096, mmu))
    }

    /// Map every frame of `object` into the kernel-global window, whose
    /// mapping list the caller holds under its lock.
    pub fn kernel_map_object(kernel_objects: &mut Vec<Mapping>, base: Option<u64>, object: MemoryObject, rwx: RWX) -> (r: Result<
        (u64, Vec<(u64, u64)>),
        MapError,
    >)
        requires
            wf_mappings(old(kernel_objects)@),
        ensures
            wf_mappings(final(kernel_objects)@),
            match r {
                Ok((start, mmu)) => {
                    &&& 1 <= object.frames@.len()
                    &&& base is Some ==> start == base.unwrap()
                    &&& (base is None && old(kernel_objects)@.len() > 0) ==> start == old(
                        kernel_objects,
                    )@.last().end_spec() + 2
                    &&& (base is None && old(kernel_objects)@.len() == 0) ==> start
                        == KERNEL_DEFAULT_BASE_PAGE
                    &&& mmu@ == mmu_pairs_spec(
                        start as int,
                        object.frames@,
                        0,
                        object.frames@.len() as int,
                    )
                    &&& exists|index: int|
                        0 <= index <= old(kernel_objects)@.len() && final(kernel_objects)@
                            == #[trigger] old(kernel_objects)@.insert(
                            index,
                            (Mapping { start, count: object.frames@.len() as u64, object }),
                        )
                },
                Err(e) => {
                    &&& final(kernel_objects)@ == old(kernel_objects)@
                    &&& (e == MapError::ZeroSize <==> object.frames@.len() == 0)
                    &&& base is None ==> !(1 <= object.frames@.len() && auto_start(
                        old(kernel_objects)@,
                        KERNEL_DEFAULT_BASE_PAGE,
                    ) + object.frames@.len() <= PAGE_LIMIT)
                },
            },
    {
        let _ = rwx;
        let flen = object.physical_pages_len();
        let (start, index) = match map_object_common(
            kernel_objects,
            KERNEL_DEFAULT_BASE_PAGE,
            base,
            flen as u64,
        ) {
            Ok(p) => p,
            Err(e) => {
                return Err(e);
            },
        };
        let mmu = build_mmu_pairs(start, &object.frames, 0, flen);
        let m = Mapping { start, count: flen as u64, object };
        proof {
            lemma_wf_insert(kernel_objects@, m, index as int);
        }
        kernel_objects.insert(index, m);
        Ok((start, mmu))
    }
}

/// Whether an identity-mapping list already has an entry for frame `ppn`.
pub open spec fn has_identity_entry(s: Seq<(u64, u64)>, ppn: u64) -> bool {
    exists|j: int| 0 <= j < s.len() && (#[trigger] s[j]).0 == ppn
}

/// The index of the mapping whose range contains page `base`.
pub open spec fn containing_index(s: Seq<Mapping>, base: int) -> int {
    choose|i: int| 0 <= i < s.len() && (#[trigger] s[i]).start <= base <= s[i].end_spec()
}

/// At most one mapping of a sorted, disjoint list contains a given page.
pub proof fn lemma_containing_unique(s: Seq<Mapping>, base: int, i: int, j: int)
    requires
        wf_mappings(s),
        0 <= i < s.len() && s[i].start <= base <= s[i].end_spec(),
        0 <= j < s.len() && s[j].start <= base <= s[j].end_spec(),
    ensures
        i == j,
{
    if i < j {
        assert(s[i].end_spec() < s[j].start);
    } else if j < i {
        assert(s[j].end_spec() < s[i].start);
    }
}

/// Remove `count` pages starting at `base` from the mapping list. An
/// exact-range unmap removes the entry and hands the object back; an
/// end-of-range unmap truncates the entry; anything else is unsupported.
/// The page `base` must lie inside some mapping.
pub fn unmap_object_common(objects: &mut Vec<Mapping>, base: u64, count: u64) -> (r: Result<
    Option<MemoryObject>,
    UnmapError,
>)
    requires
        wf_mappings(old(objects)@),
        1 <= count,
        exists|i: int|
            0 <= i < old(objects)@.len() && (#[trigger] old(objects)@[i]).start <= base <= old(
                objects,
            )@[i].end_spec(),
    ensures
        wf_mappings(final(objects)@),
        ({
            let s = old(objects)@;
            let i = containing_index(s, base as int);
            if base == s[i].start && base + count - 1 == s[i].end_spec() {
                match r {
                    Ok(Some(obj)) => final(objects)@ == s.remove(i) && obj == s[i].object,
                    _ => false,
                }
            } else if base > s[i].start && base + count - 1 == s[i].end_spec() {
                r == Ok::<Option<MemoryObject>, UnmapError>(None) && final(objects)@ == s.update(
                    i,
                    (Mapping {
                        start: s[i].start,
                        count: (base - s[i].start) as u64,
                        object: s[i].object,
                    }),
                )
            } else {
                r == Err::<Option<MemoryObject>, UnmapError>(UnmapError::PartialUnmapUnsupported)
                    && final(objects)@ == s
            }
        }),
{
    let ghost s = objects@;
    let n = objects.len();
    let mut i: usize = 0;
    loop
        invariant
            wf_mappings(s),
            objects@ == s,
            n == s.len(),
            i <= s.len(),
            forall|j: int|
                0 <= j < i ==> !((#[trigger] s[j]).start <= base && base <= s[j].end_spec()),
            exists|j: int| 0 <= j < s.len() && (#[trigger] s[j]).start <= base <= s[j].end_spec(),
        ensures
            objects@ == s,
            0 <= i < s.len(),
            s[i as int].start <= base <= s[i as int].end_spec(),
        decreases s.len() - i,
    {
        proof {
            assert(i < s.len()) by {
                let j = choose|j: int|
                    0 <= j < s.len() && (#[trigger] s[j]).start <= base <= s[j].end_spec();
                assert(j >= i);
            }
        }
        let m = &objects[i];
        proof {
            assert(s[i as int].wf());
        }
        if m.start <= base && base <= m.start + (m.count - 1) {
            break ;
        }
        i = i + 1;
    }
    let found: usize = i;
    proof {
        let ci = containing_index(s, base as int);
        assert(0 <= ci < s.len() && s[ci].start <= base <= s[ci].end_spec()) by {
            let j = choose|j: int|
                0 <= j < s.len() && (#[trigger] s[j]).start <= base <= s[j].end_spec();
            assert(s[j].start <= base <= s[j].end_spec());
        }
        lemma_containing_unique(s, base as int, found as int, ci);
    }
    let m_start = objects[found].start;
    let m_count = objects[found].count;
    proof {
        assert(s[found as int].wf());
    }
    if base == m_start && count == m_count {
        let m = objects.remove(found);
        proof {
            let t = objects@;
            assert forall|a: int, b: int| 0 <= a < b < t.len() implies t[a].end_spec()
                < t[b].start by {
                let a2 = if a < found {
                    a
                } else {
                    a + 1
                };
                let b2 = if b < found {
                    b
                } else {
                    b + 1
                };
                assert(t[a] == s[a2] && t[b] == s[b2]);
                assert(s[a2].end_spec() < s[b2].start);
            }
            assert forall|a: int| 0 <= a < t.len() implies (#[trigger] t[a]).wf() by {
                let a2 = if a < found {
                    a
                } else {
                    a + 1
                };
                assert(t[a] == s[a2]);
            }
        }
        Ok(Some(m.object))
    } else if base > m_start && count == m_count - (base - m_start) && base - m_start < m_count {
        let m = objects.remove(found);
        let truncated = Mapping { start: m.start, count: base - m_start, object: m.object };
        proof {
            let t = objects@;
            assert forall|i2: int| 0 <= i2 < found implies (#[trigger] t[i2]).end_spec()
                < truncated.start by {
                assert(t[i2] == s[i2]);
                assert(s[i2].end_spec() < s[found as int].start);
            }
            assert forall|i2: int| found <= i2 < t.len() implies truncated.end_spec() < (
            #[trigger] t[i2]).start by {
                assert(t[i2] == s[i2 + 1]);
                assert(s[found as int].end_spec() < s[i2 + 1].start);
            }
            assert forall|a: int, b: int| 0 <= a < b < t.len() implies t[a].end_spec()
                < t[b].start by {
                let a2 = if a < found {
                    a
                } else {
                    a + 1
                };
                let b2 = if b < found {
                    b
                } else {
                    b + 1
                };
                assert(t[a] == s[a2] && t[b] == s[b2]);
                assert(s[a2].end_spec() < s[b2].start);
            }
            assert forall|a: int| 0 <= a < t.len() implies (#[trigger] t[a]).wf() by {
                let a2 = if a < found {
                    a
                } else {
                    a + 1
                };
                assert(t[a] == s[a2]);
            }
            lemma_wf_insert(t, truncated, found as int);
        }
        objects.insert(found, truncated);
        proof {
            assert(final(objects)@ =~= s.update(
                found as int,
                (Mapping {
                    start: s[found as int].start,
                    count: (base - s[found as int].start) as u64,
                    object: s[found as int].object,
                }),
            ));
        }
        Ok(None)
    } else {
        Err(UnmapError::PartialUnmapUnsupported)
    }
}

impl AddressSpace {
    /// Remove `count` pages starting at `base` from the user window; the
    /// arch layer then invalidates the range. Exact ranges unmap, range
    /// suffixes truncate, anything else is unsupported.
    pub fn unmap_object(&mut self, base: u64, count: u64) -> (r: Result<(), UnmapError>)
        requires
            old(self).wf(),
            1 <= count,
            exists|i: int|
                0 <= i < old(self).objects@.len() && (#[trigger] old(self).objects@[i]).start
                    <= base <= old(self).objects@[i].end_spec(),
        ensures
            final(self).wf(),
            ({
                let s = old(self).objects@;
                let i = containing_index(s, base as int);
                if base == s[i].start && base + count - 1 == s[i].end_spec() {
                    r == Ok::<(), UnmapError>(()) && final(self).objects@ == s.remove(i)
                } else if base > s[i].start && base + count - 1 == s[i].end_spec() {
                    r == Ok::<(), UnmapError>(()) && final(self).objects@ == s.update(
                        i,
                        (Mapping {
                            start: s[i].start,
                            count: (base - s[i].start) as u64,
                            object: s[i].object,
                        }),
                    )
                } else {
                    r == Err::<(), UnmapError>(UnmapError::PartialUnmapUnsupported)
                        && final(self).objects@ == s
                }
            }),
    {
        match unmap_object_common(&mut self.objects, base, count) {
            Ok(_) => Ok(()),
            Err(e) => Err(e),
        }
    }

    /// Remove `count` pages starting at `base` from the kernel-global
    /// window. The caller must no longer use the region.
    pub fn kernel_unmap_object(kernel_objects: &mut Vec<Mapping>, base: u64, count: u64) -> (r:
        Result<(), UnmapError>)
        requires
            wf_mappings(old(kernel_objects)@),
            1 <= count,
            exists|i: int|
                0 <= i < old(kernel_objects)@.len() && (#[trigger] old(
                    kernel_objects,
                )@[i]).start <= base <= old(kernel_objects)@[i].end_spec(),
        ensures
            wf_mappings(final(kernel_objects)@),
            ({
                let s = old(kernel_objects)@;
                let i = containing_index(s, base as int);
                if base == s[i].start && base + count - 1 == s[i].end_spec() {
                    r == Ok::<(), UnmapError>(()) && final(kernel_objects)@ == s.remove(i)
                } else if base > s[i].start && base + count - 1 == s[i].end_spec() {
                    r == Ok::<(), UnmapError>(()) && final(kernel_objects)@ == s.update(
                        i,
                        (Mapping {
                            start: s[i].start,
                            count: (base - s[i].start) as u64,
                            object: s[i].object,
                        }),
                    )
                } else {
                    r == Err::<(), UnmapError>(UnmapError::PartialUnmapUnsupported)
                        && final(kernel_objects)@ == s
                }
            }),
    {
        match unmap_object_common(kernel_objects, base, count) {
            Ok(_) => Ok(()),
            Err(e) => Err(e),
        }
    }

    /// Add a direct physical-to-virtual identity mapping of `size` bytes at
    /// frame `ppn` for device memory, unless one for that frame already
    /// exists. Returns whether a new mapping was added. The size must be a
    /// whole number of pages.
    pub fn identity_map(maps: &mut Vec<(u64, u64)>, ppn: u64, size: u64) -> (r: Result<
        bool,
        IdentityMapError,
    >)
        requires
            size % 4096 == 0,
        ensures
            match r {
                Ok(added) => {
                    &&& added <==> !has_identity_entry(old(maps)@, ppn)
                    &&& if added {
                        final(maps)@ == old(maps)@.push((ppn, size / 4096))
                    } else {
                        final(maps)@ == old(maps)@
                    }
                },
                Err(_) => false,
            },
    {
        let mut i: usize = 0;
        while i < maps.len()
            invariant
                i <= maps@.len(),
                maps@ == old(maps)@,
                forall|j: int| 0 <= j < i ==> (#[trigger] maps@[j]).0 != ppn,
            decreases maps@.len() - i,
        {
            if maps[i].0 == ppn {
                proof {
                    assert(has_identity_entry(maps@, ppn)) by {
                        assert(maps@[i as int].0 == ppn);
                    }
                }
                return Ok(false);
            }
            i = i + 1;
        }
        proof {
            if has_identity_entry(old(maps)@, ppn) {
                let j = choose|j: int| 0 <= j < maps@.len() && (#[trigger] maps@[j]).0 == ppn;
                assert(maps@[j].0 != ppn);
            }
        }
        maps.push((ppn, size / 4096));
        Ok(true)
    }
}

} // verus!
