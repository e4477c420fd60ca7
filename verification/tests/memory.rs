//! Address-space mapping, unmapping, and page arithmetic.

use norostb_core::address_space::{
    AddressSpace, MapError, MemoryObject, UnmapError, RWX, USER_DEFAULT_BASE_PAGE,
};
use norostb_core::page::{min_pages_for_bytes, MemoryRegion, PAGE_SIZE};

fn object_of(pages: u64) -> MemoryObject {
    MemoryObject::from_contiguous(0x1000, pages)
}

#[test]
fn mapping_guard() {
    // Auto-map A of four pages, then B of two: B starts one guard page
    // past A's end.
    let mut aspace = AddressSpace::new().unwrap();
    let (a_base, a_len, _) = aspace
        .map_object(None, object_of(4), RWX::RW, 0, usize::MAX, 0)
        .unwrap();
    assert_eq!(a_base, USER_DEFAULT_BASE_PAGE);
    assert_eq!(a_len, 4 * 4096);
    let (b_base, b_len, _) = aspace
        .map_object(None, object_of(2), RWX::RW, 0, usize::MAX, 0)
        .unwrap();
    // A covers pages 1..5; its last page is 4; one guard page leaves B at 6.
    assert_eq!(b_base, a_base + 4 + 1);
    assert_eq!(b_len, 2 * 4096);

    // Unmap A fully.
    assert_eq!(aspace.unmap_object(a_base, 4), Ok(()));
    // Unmapping only the first page of B is neither the whole mapping nor
    // a suffix of it.
    assert_eq!(
        aspace.unmap_object(b_base, 1),
        Err(UnmapError::PartialUnmapUnsupported)
    );
}

#[test]
fn zero_size_objects_are_rejected() {
    let mut aspace = AddressSpace::new().unwrap();
    let empty = MemoryObject::new(Vec::new());
    assert_eq!(
        aspace.map_object(None, empty, RWX::RW, 0, usize::MAX, 0).err(),
        Some(MapError::ZeroSize)
    );
}

#[test]
fn unaligned_offsets_are_rejected() {
    let mut aspace = AddressSpace::new().unwrap();
    assert_eq!(
        aspace.map_object(None, object_of(2), RWX::RW, 7, usize::MAX, 0).err(),
        Some(MapError::UnalignedOffset)
    );
}

#[test]
fn offset_and_max_length_pick_the_window() {
    // Skip the first page, map at most one page: one page-table entry,
    // naming the object's second frame at the range's first page.
    let mut aspace = AddressSpace::new().unwrap();
    let (base, len, mmu) = aspace
        .map_object(None, object_of(3), RWX::RW, PAGE_SIZE, PAGE_SIZE, 0)
        .unwrap();
    assert_eq!(len, 3 * 4096);
    assert_eq!(mmu, vec![(base, 0x1001)]);
}

#[test]
fn suffix_unmap_truncates() {
    let mut aspace = AddressSpace::new().unwrap();
    let (base, _, _) = aspace
        .map_object(None, object_of(4), RWX::RW, 0, usize::MAX, 0)
        .unwrap();
    // drop the last two pages
    assert_eq!(aspace.unmap_object(base + 2, 2), Ok(()));
    // the next auto-placed object starts relative to the truncated end
    let (b2, _, _) = aspace
        .map_object(None, object_of(1), RWX::RW, 0, usize::MAX, 0)
        .unwrap();
    assert_eq!(b2, base + 2 + 1);
}

#[test]
fn explicit_base_collisions_are_rejected() {
    let mut aspace = AddressSpace::new().unwrap();
    let (base, _, _) = aspace
        .map_object(None, object_of(4), RWX::RW, 0, usize::MAX, 0)
        .unwrap();
    assert_eq!(
        aspace
            .map_object(Some(base + 1), object_of(1), RWX::RW, 0, usize::MAX, 0)
            .err(),
        Some(MapError::Overflow)
    );
    // a free explicit base works
    let (b2, _, _) = aspace
        .map_object(Some(base + 100), object_of(1), RWX::RW, 0, usize::MAX, 0)
        .unwrap();
    assert_eq!(b2, base + 100);
}

#[test]
fn identity_mappings_are_deduplicated() {
    let mut maps: Vec<(u64, u64)> = Vec::new();
    assert_eq!(AddressSpace::identity_map(&mut maps, 0x800, 2 * 4096), Ok(true));
    assert_eq!(AddressSpace::identity_map(&mut maps, 0x800, 2 * 4096), Ok(false));
    assert_eq!(maps, vec![(0x800, 2)]);
}

#[test]
fn page_arithmetic() {
    assert_eq!(min_pages_for_bytes(0), 0);
    assert_eq!(min_pages_for_bytes(1), 1);
    assert_eq!(min_pages_for_bytes(4096), 1);
    assert_eq!(min_pages_for_bytes(4097), 2);

    let region = MemoryRegion { base: 4096 * 3 + 100, size: 4096 * 5 };
    let (base, count) = region.page_span();
    assert_eq!(base, 4096 * 4);
    assert_eq!(count, 4);

    let aligned = MemoryRegion { base: 4096 * 2, size: 4096 * 3 };
    assert_eq!(aligned.page_span(), (4096 * 2, 3));
}

#[test]
fn contiguous_objects_list_their_frames() {
    let o = MemoryObject::from_contiguous(0x40, 3);
    assert_eq!(o.physical_pages_len(), 3);
    assert_eq!(o.frames, vec![0x40, 0x41, 0x42]);
}
