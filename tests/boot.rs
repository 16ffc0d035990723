use bootmem::memmap::{
    e820_request, init, probe_finished, read_descriptor, AddressRange, E820, RANGE_MEMORY, SMAP,
};
use bootmem::range::{ClosedRange, SetError};
use bootmem::reader::{Primitive, Reader, ReaderError};
use bootmem::realmode::RealModeAddr;

fn descriptor(base: u64, length: u64, addr_type: u32) -> AddressRange {
    AddressRange {
        base_low: base as u32,
        base_high: (base >> 32) as u32,
        length_low: length as u32,
        length_high: (length >> 32) as u32,
        addr_type,
    }
}

#[test]
fn descriptor_fields_combine() {
    let d = descriptor(0x1_2345_6789, 0x2_0000_0000, RANGE_MEMORY);
    assert_eq!(d.base(), 0x1_2345_6789);
    assert_eq!(d.length(), 0x2_0000_0000);
    assert_eq!(d.usable_range(), Some(ClosedRange::new(0x1_2345_6789, 0x3_2345_6788)));
    assert_eq!(descriptor(0x1000, 0x1000, 2).usable_range(), None);
    assert_eq!(descriptor(0x1000, 0, RANGE_MEMORY).usable_range(), None);
    assert_eq!(
        descriptor(u64::MAX - 1, 16, RANGE_MEMORY).usable_range(),
        Some(ClosedRange::new(u64::MAX - 1, u64::MAX))
    );
}

#[test]
fn free_memory_from_memory_map() {
    let map = [
        descriptor(0, 0x9fc00, RANGE_MEMORY),
        descriptor(0x9fc00, 0x400, 2),
        descriptor(0xf0000, 0x10000, 2),
        descriptor(0x10_0000, 0x7ee_0000, RANGE_MEMORY),
    ];
    let reserved = [ClosedRange::new(0, 0xf_ffff), ClosedRange::new(0x10_0000, 0x10_ffff)];
    let mmu = init(&map, &reserved).unwrap();
    assert_eq!(mmu.ranges(), &[ClosedRange::new(0x11_0000, 0x7fd_ffff)]);
}

#[test]
fn malformed_reservation_is_rejected() {
    let map = [descriptor(0x10_0000, 0x1000, RANGE_MEMORY)];
    let reserved = [ClosedRange::new(5, 4)];
    assert_eq!(init(&map, &reserved).err(), Some(SetError::InvalidRange));
}

#[test]
fn real_mode_addresses() {
    let a = RealModeAddr::new(0x1234, 0x0010);
    assert_eq!(a.linear(), 0x12350);
    let b = RealModeAddr::_from_linear(0xf_1234).unwrap();
    assert_eq!((b.seg, b.off), (0xf000, 0x1234));
    assert_eq!(b.linear(), 0xf_1234);
    assert!(RealModeAddr::_from_linear(0x10_0000).is_none());
}

#[test]
fn reader_reads_little_endian_values() {
    let bytes = [0x4d, 0x5a, 0x78, 0x56, 0x34, 0x12, 1, 2, 3, 4, 5, 6, 7, 8];
    let mut reader = Reader::new(&bytes);
    assert_eq!(reader.peek::<u16>(), Ok(0x5a4d));
    assert_eq!(reader.read::<u16>(), Ok(0x5a4d));
    assert_eq!(reader.read::<u32>(), Ok(0x1234_5678));
    assert_eq!(reader.offset(), 6);
    assert_eq!(reader.peek_bytes(2), Some(&bytes[6..8]));
    assert_eq!(reader.read::<u64>(), Ok(0x0807_0605_0403_0201));
    assert_eq!(reader.read::<u8>(), Err(ReaderError::OutOfBounds(14, 14)));
    assert_eq!(reader.seek(15), Err(ReaderError::OutOfBounds(15, 14)));
    reader.seek(2).unwrap();
    assert_eq!(reader.read_bytes(3), Ok(&bytes[2..5]));
    reader.skip(100);
    assert_eq!(reader.offset(), 14);
    assert_eq!(reader.peek_bytes(1), None);
    assert_eq!(u32::read(&bytes[..3]), Err(ReaderError::InsufficientBytes(4, 3)));
    assert_eq!(0u16.size_on_disk(), 2);
}

#[test]
fn memory_map_queries() {
    let request = e820_request(7, 0x8000);
    assert_eq!((request.eax, request.ebx, request.ecx, request.edx, request.edi), (E820, 7, 20, SMAP, 0x8000));
    assert!(!probe_finished(&request));
    let mut answer = request;
    answer.ebx = 0;
    assert!(probe_finished(&answer));
    answer.ebx = 3;
    answer.eflags = 1;
    assert!(probe_finished(&answer));
    let bytes = [0u8, 0, 0x10, 0, 0, 0, 0, 0, 0, 0x10, 0, 0, 0, 0, 0, 0, 1, 0, 0, 0, 9];
    let mut reader = Reader::new(&bytes);
    let d = read_descriptor(&mut reader).unwrap();
    assert_eq!(d.usable_range(), Some(ClosedRange::new(0x10_0000, 0x10_0fff)));
    assert!(read_descriptor(&mut reader).is_err());
}

#[test]
fn init_succeeds_when_the_slots_suffice() {
    let map: Vec<AddressRange> =
        (0..20u64).map(|i| descriptor(0x10_0000 + i * 0x10_0000, 0x8_0000, RANGE_MEMORY)).collect();
    let reserved = [ClosedRange::new(0, 0xf_ffff), ClosedRange::new(0x10_0000, 0x10_0fff)];
    let mmu = init(&map, &reserved).unwrap();
    assert_eq!(mmu.ranges().len(), 20);
    // The trimmed entry moves to the end, as what lies above a discarded range does.
    assert_eq!(mmu.ranges()[19], ClosedRange::new(0x10_1000, 0x17_ffff));
}
