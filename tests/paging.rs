use bootmem::boot::{build_address_space, identity_map, Section, STACK_BASE, STACK_SIZE};
use bootmem::frame::{AddressTranslate, Mmu};
use bootmem::paging::{
    MapError, PageSize, PhysicalAddress, VirtualAddress, ADDRESS_MASK, PAGE_NXE, PAGE_PRESENT,
    PAGE_USER, PAGE_WRITE, PML4, RWX,
};
use bootmem::range::{ClosedRange, RangeSet};

fn memory(start: u64, end: u64) -> Mmu {
    let mut set = RangeSet::new();
    set.insert(ClosedRange::new(start, end)).unwrap();
    Mmu::new(set)
}

fn builder() -> PML4<Mmu> {
    PML4::new(memory(0x10_0000, 0xfff_ffff)).expect("Cannot create PML4 table")
}

#[test]
fn test_4kb_page_ok() {
    let mut pml4 = builder();
    let virt_addr = VirtualAddress(0x0123_8000);
    let raw: u64 = 0x1337_b00b;
    let mapped_page = pml4.map_page(virt_addr, raw, PageSize::Page4Kb);
    assert!(mapped_page.is_ok());
}

#[test]
fn test_4kb_page_err() {
    let mut pml4 = builder();
    let virt_addr = VirtualAddress(0x0123_8100);
    let raw: u64 = 0x1337_b00b;
    let mapped_page = pml4.map_page(virt_addr, raw, PageSize::Page4Kb);
    assert!(mapped_page.is_err());
}

#[test]
fn test_2mb_page_ok() {
    let virt_addr = VirtualAddress(0x0123 << 21);
    let mut pml4 = builder();
    let raw: u64 = 0x1337_b00b;
    let mapped_page = pml4.map_page(virt_addr, raw, PageSize::Page2Mb);
    assert!(mapped_page.is_ok());
}

#[test]
fn test_2mb_page_err() {
    let virt_addr = VirtualAddress(0x0123 << 20);
    let mut pml4 = builder();
    let raw: u64 = 0x1337_b00b;
    let mapped_page = pml4.map_page(virt_addr, raw, PageSize::Page2Mb);
    assert!(mapped_page.is_err());
}

#[test]
fn test_1gb_page_ok() {
    let virt_addr = VirtualAddress(0x1234_1234_8000_0000);
    let mut pml4 = builder();
    let raw: u64 = 0x1337_b00b;
    let mapped_page = pml4.map_page(virt_addr, raw, PageSize::Page1Gb);
    assert!(mapped_page.is_ok());
}

#[test]
fn test_1gb_page_err() {
    let virt_addr = VirtualAddress(0x0123 << 29);
    let mut pml4 = builder();
    let raw: u64 = 0x1337_b00b;
    let mapped_page = pml4.map_page(virt_addr, raw, PageSize::Page1Gb);
    assert!(mapped_page.is_err());
}

#[test]
fn root_is_page_aligned_and_taken_from_the_allocator() {
    let pml4 = builder();
    assert_eq!(pml4.cr3(), PhysicalAddress(0x10_0000));
    assert_eq!(pml4.capability_ref().ranges(), &[ClosedRange::new(0x10_1000, 0xfff_ffff)]);
}

#[test]
fn map_page_then_walk_finds_the_frame() {
    let mut pml4 = builder();
    let frame = 0x4000_0000u64 | PAGE_PRESENT | PAGE_WRITE;
    pml4.map_page(VirtualAddress(0x7f_0000_3000), frame, PageSize::Page4Kb).unwrap();
    let entry = pml4.lookup(VirtualAddress(0x7f_0000_3000), PageSize::Page4Kb).unwrap();
    assert_eq!(entry, frame);
    assert_eq!(entry & ADDRESS_MASK, 0x4000_0000);
    assert_eq!(entry & 0xfff, PAGE_PRESENT | PAGE_WRITE);
    // The neighbouring page shares the nodes but has no entry.
    assert_eq!(pml4.lookup(VirtualAddress(0x7f_0000_4000), PageSize::Page4Kb), Some(0));
    // Another top-level index has no nodes below the root.
    assert_eq!(pml4.lookup(VirtualAddress(0x80_0000_0000), PageSize::Page4Kb), None);
    // Three nodes were made below the root.
    assert_eq!(pml4.capability_ref().ranges(), &[ClosedRange::new(0x10_4000, 0xfff_ffff)]);
}

#[test]
fn misaligned_address_is_rejected() {
    let mut pml4 = builder();
    assert_eq!(
        pml4.map_page(VirtualAddress(0x1001), 0x5000 | 1, PageSize::Page4Kb),
        Err(MapError::AddressUnaligned(VirtualAddress(0x1001), 4096))
    );
}

#[test]
fn remapping_keeps_the_last_frame_and_marks_the_address_stale() {
    let mut pml4 = builder();
    let v = VirtualAddress(0x20_0000);
    pml4.map_page(v, 0x5000 | PAGE_PRESENT, PageSize::Page4Kb).unwrap();
    assert!(pml4.stale_translations().is_empty());
    pml4.map_page(v, 0x6000 | PAGE_PRESENT, PageSize::Page4Kb).unwrap();
    assert_eq!(pml4.lookup(v, PageSize::Page4Kb), Some(0x6000 | PAGE_PRESENT));
    assert_eq!(pml4.stale_translations(), &[v]);
}

#[test]
fn smaller_page_under_a_large_page_descends_into_its_frame() {
    let mut pml4 = builder();
    pml4.map_page(VirtualAddress(0x4000_0000), 0x8000_0000 | PAGE_PRESENT, PageSize::Page2Mb).unwrap();
    // The 2 MiB entry is followed as a table: its frame reads as zero entries.
    pml4.map_page(VirtualAddress(0x4000_1000), 0x9000 | PAGE_PRESENT, PageSize::Page4Kb).unwrap();
    assert_eq!(
        pml4.lookup(VirtualAddress(0x4000_1000), PageSize::Page4Kb),
        Some(0x9000 | PAGE_PRESENT)
    );
    assert_eq!(pml4.lookup(VirtualAddress(0x4000_2000), PageSize::Page4Kb), Some(0));
}

#[test]
fn entry_into_free_memory_stops_the_walk() {
    let mut pml4 = builder();
    // 0x20_0000 is still free in the allocator.
    pml4.map_page(VirtualAddress(0x4000_0000), 0x20_0000 | PAGE_PRESENT, PageSize::Page2Mb).unwrap();
    assert_eq!(
        pml4.map_page(VirtualAddress(0x4000_1000), 0x9000 | PAGE_PRESENT, PageSize::Page4Kb),
        Err(MapError::PagePointerZero(2))
    );
}

#[test]
fn exhausted_memory_fails_the_mapping() {
    let mut pml4 = PML4::new(memory(0x10_0000, 0x10_1fff)).unwrap();
    assert_eq!(
        pml4.map_page(VirtualAddress(0x1000), 0x5000 | PAGE_PRESENT, PageSize::Page4Kb),
        Err(MapError::OutOfMemory)
    );
    assert!(PML4::new(memory(0x10_0800, 0x10_17ff)).is_none());
}

#[test]
fn short_slice_maps_one_zero_filled_page() {
    let mut pml4 = builder();
    let data = [0xaau8, 0xbb, 0xcc];
    let rwx = RWX { read: true, write: false, execute: false };
    pml4.map_slice(VirtualAddress(0x40_0000), &data, PageSize::Page4Kb, rwx).unwrap();
    let entry = pml4.lookup(VirtualAddress(0x40_0000), PageSize::Page4Kb).unwrap();
    assert_eq!(entry & !ADDRESS_MASK, PAGE_PRESENT | PAGE_USER | PAGE_NXE);
    let frame = entry & ADDRESS_MASK;
    assert_eq!(pml4.frame_byte(frame, 0), Some(0xaa));
    assert_eq!(pml4.frame_byte(frame, 2), Some(0xcc));
    assert_eq!(pml4.frame_byte(frame, 3), Some(0));
    assert_eq!(pml4.frame_byte(frame, 4095), Some(0));
    // The next page was not mapped.
    assert_eq!(pml4.lookup(VirtualAddress(0x40_1000), PageSize::Page4Kb), Some(0));
}

#[test]
fn empty_slice_still_gets_a_page() {
    let mut pml4 = builder();
    let rwx = RWX { read: true, write: true, execute: true };
    pml4.map_slice(VirtualAddress(0x40_0000), &[], PageSize::Page4Kb, rwx).unwrap();
    let entry = pml4.lookup(VirtualAddress(0x40_0000), PageSize::Page4Kb).unwrap();
    assert_eq!(entry & !ADDRESS_MASK, PAGE_PRESENT | PAGE_USER | PAGE_WRITE);
    assert_eq!(pml4.frame_byte(entry & ADDRESS_MASK, 0), Some(0));
}

#[test]
fn long_slice_is_split_into_pages() {
    let mut pml4 = builder();
    let data: Vec<u8> = (0..5000u32).map(|i| (i % 251) as u8).collect();
    let rwx = RWX { read: true, write: true, execute: false };
    pml4.map_slice(VirtualAddress(0x40_0000), &data, PageSize::Page4Kb, rwx).unwrap();
    let first = pml4.lookup(VirtualAddress(0x40_0000), PageSize::Page4Kb).unwrap() & ADDRESS_MASK;
    let second = pml4.lookup(VirtualAddress(0x40_1000), PageSize::Page4Kb).unwrap() & ADDRESS_MASK;
    assert_ne!(first, second);
    assert_eq!(pml4.frame_byte(first, 4095), Some((4095 % 251) as u8));
    assert_eq!(pml4.frame_byte(second, 0), Some((4096 % 251) as u8));
    assert_eq!(pml4.frame_byte(second, 903), Some((4999 % 251) as u8));
    assert_eq!(pml4.frame_byte(second, 904), Some(0));
    assert_eq!(pml4.lookup(VirtualAddress(0x40_2000), PageSize::Page4Kb), Some(0));
}

#[test]
fn slice_errors() {
    let mut pml4 = builder();
    let rwx = RWX { read: true, write: true, execute: false };
    assert_eq!(
        pml4.map_slice(VirtualAddress(0x40_0010), &[1], PageSize::Page4Kb, rwx),
        Err(MapError::AddressUnaligned(VirtualAddress(0x40_0010), 4096))
    );
    assert_eq!(
        pml4.map_slice(VirtualAddress(0xffff_ffff_ffff_f000), &[0u8; 0x2000], PageSize::Page4Kb, rwx),
        Err(MapError::RangeOverflow)
    );
}

#[test]
fn map_zero_maps_zero_pages() {
    let mut pml4 = builder();
    let rwx = RWX { read: true, write: true, execute: false };
    pml4.map_zero(VirtualAddress(0xb00_0000_0000), 8192, PageSize::Page4Kb, rwx).unwrap();
    for v in [0xb00_0000_0000u64, 0xb00_0000_1000] {
        let entry = pml4.lookup(VirtualAddress(v), PageSize::Page4Kb).unwrap();
        assert_eq!(entry & !ADDRESS_MASK, PAGE_PRESENT | PAGE_USER | PAGE_WRITE | PAGE_NXE);
        assert_eq!(pml4.frame_byte(entry & ADDRESS_MASK, 17), Some(0));
    }
}

#[test]
fn entry_bits_follow_access() {
    let bits = RWX { read: true, write: false, execute: true }.entry_bits();
    assert_eq!(bits, PAGE_PRESENT | PAGE_USER);
    let bits = RWX { read: true, write: true, execute: false }.entry_bits();
    assert_eq!(bits, PAGE_PRESENT | PAGE_USER | PAGE_WRITE | PAGE_NXE);
    assert_eq!(PageSize::Page2Mb.size(), 2 * 1024 * 1024);
    assert_eq!(PageSize::Page1Gb.size(), 1024 * 1024 * 1024);
}

#[test]
fn frame_allocator_hands_out_and_takes_back() {
    let mut mmu = memory(0x1000, 0x8fff);
    assert_eq!(mmu.allocate(0x2000, 0x4000), Some(0x4000));
    assert_eq!(mmu.alloc_block(0x1000, 0x1000), Some(0x1000));
    mmu.deallocate(ClosedRange::new(0x4000, 0x5fff)).unwrap();
    assert_eq!(mmu.allocate(0x3000, 0x1000), Some(0x2000));
    assert_eq!(mmu.allocate(0x10_0000, 0x1000), None);
}

#[test]
fn translate_is_the_identity_where_it_fits() {
    let mmu = memory(0x1000, 0x8fff);
    assert_eq!(mmu.translate(PhysicalAddress(0x2000), 16), Some(0x2000));
    assert_eq!(mmu.translate(PhysicalAddress(0x2000), 0), None);
    assert_eq!(mmu.translate(PhysicalAddress(u64::MAX), 1), None);
}

#[test]
fn identity_map_maps_each_page_to_itself() {
    let mut pml4 = builder();
    identity_map(&mut pml4, 0x40_0000).unwrap();
    for p in [0u64, 0x1000, 0x20_0000, 0x3f_f000] {
        assert_eq!(
            pml4.lookup(VirtualAddress(p), PageSize::Page4Kb),
            Some(p | PAGE_PRESENT | PAGE_WRITE | PAGE_USER)
        );
    }
    // The next 2 MiB have no page table yet.
    assert_eq!(pml4.lookup(VirtualAddress(0x40_0000), PageSize::Page4Kb), None);
}

#[test]
fn address_space_for_the_kernel() {
    let sections = vec![Section { base: 0x1_0000_0000_0000, bytes: vec![0x90; 100] }];
    let (pml4, handoff) =
        build_address_space(memory(0x10_0000, 0x3ff_ffff), &sections, 0x1_0000_0000_0010).unwrap();
    assert_eq!(handoff.cr3, pml4.cr3());
    assert_eq!(handoff.stack_top, STACK_BASE + STACK_SIZE as u64);
    assert_eq!(handoff.entry_point, 0x1_0000_0000_0010);
    let stack = pml4.lookup(VirtualAddress(STACK_BASE + 0x1000), PageSize::Page4Kb).unwrap();
    assert_eq!(stack & !ADDRESS_MASK, PAGE_PRESENT | PAGE_USER | PAGE_WRITE | PAGE_NXE);
    let code = pml4.lookup(VirtualAddress(0x1_0000_0000_0000), PageSize::Page4Kb).unwrap();
    assert_eq!(pml4.frame_byte(code & ADDRESS_MASK, 99), Some(0x90));
    assert_eq!(
        pml4.lookup(VirtualAddress(0xfff_f000), PageSize::Page4Kb),
        Some(0xfff_f000 | PAGE_PRESENT | PAGE_WRITE | PAGE_USER)
    );
}

#[test]
fn slice_may_end_at_the_top_of_the_address_space() {
    let mut pml4 = builder();
    let rwx = RWX { read: true, write: false, execute: false };
    pml4.map_slice(VirtualAddress(0xffff_ffff_ffff_f000), &[7u8; 0x1000], PageSize::Page4Kb, rwx)
        .unwrap();
    let entry = pml4.lookup(VirtualAddress(0xffff_ffff_ffff_f000), PageSize::Page4Kb).unwrap();
    assert_eq!(pml4.frame_byte(entry & ADDRESS_MASK, 0xfff), Some(7));
}

#[test]
fn identity_map_of_nothing_changes_nothing() {
    let mut pml4 = builder();
    identity_map(&mut pml4, 0).unwrap();
    assert_eq!(pml4.capability_ref().ranges(), &[ClosedRange::new(0x10_1000, 0xfff_ffff)]);
}

#[test]
fn short_slice_in_a_large_page() {
    let mut pml4 = builder();
    let rwx = RWX { read: true, write: true, execute: true };
    pml4.map_slice(VirtualAddress(0x4000_0000), &[1, 2, 3], PageSize::Page2Mb, rwx).unwrap();
    let entry = pml4.lookup(VirtualAddress(0x4000_0000), PageSize::Page2Mb).unwrap();
    let frame = entry & ADDRESS_MASK;
    assert_eq!(frame % 0x20_0000, 0);
    assert_eq!(pml4.frame_byte(frame, 2), Some(3));
    assert_eq!(pml4.frame_byte(frame, 0x1f_ffff), Some(0));
    assert_eq!(pml4.lookup(VirtualAddress(0x4020_0000), PageSize::Page2Mb), Some(0));
}

#[test]
fn builder_gives_the_allocator_back() {
    let mut pml4 = builder();
    pml4.map_page(VirtualAddress(0x1000), 0x5000 | PAGE_PRESENT, PageSize::Page4Kb).unwrap();
    let mmu = pml4.into_capability();
    assert_eq!(mmu.ranges(), &[ClosedRange::new(0x10_4000, 0xfff_ffff)]);
}
