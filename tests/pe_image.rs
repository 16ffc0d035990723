use bootmem::pe::{Machine, Pe, PeError, IMAGE_FILE_MACHINE_AMD64};
use bootmem::reader::ReaderError;

fn put16(b: &mut [u8], at: usize, v: u16) {
    b[at..at + 2].copy_from_slice(&v.to_le_bytes());
}

fn put32(b: &mut [u8], at: usize, v: u32) {
    b[at..at + 4].copy_from_slice(&v.to_le_bytes());
}

fn put64(b: &mut [u8], at: usize, v: u64) {
    b[at..at + 8].copy_from_slice(&v.to_le_bytes());
}

/// A 64-bit image with two data directories and two sections.
fn image() -> Vec<u8> {
    let mut b = vec![0u8; 0x410];
    b[0] = b'M';
    b[1] = b'Z';
    put32(&mut b, 0x3c, 0x40);
    b[0x40..0x44].copy_from_slice(b"PE\0\0");
    // COFF header.
    put16(&mut b, 0x44, IMAGE_FILE_MACHINE_AMD64);
    put16(&mut b, 0x46, 2);
    put16(&mut b, 0x54, 112 + 16);
    // Optional header.
    let opt = 0x58;
    put16(&mut b, opt, 0x20b);
    put32(&mut b, opt + 16, 0x1000);
    put64(&mut b, opt + 24, 0x1_4000_0000);
    put32(&mut b, opt + 108, 2);
    // Section headers.
    let sh = opt + 112 + 16;
    b[sh..sh + 8].copy_from_slice(b".text\0\0\0");
    put32(&mut b, sh + 8, 0x20);
    put32(&mut b, sh + 12, 0x1000);
    put32(&mut b, sh + 16, 0x200);
    put32(&mut b, sh + 20, 0x200);
    let sh = sh + 40;
    b[sh..sh + 8].copy_from_slice(b".data\0\0\0");
    put32(&mut b, sh + 8, 0x300);
    put32(&mut b, sh + 12, 0x2000);
    put32(&mut b, sh + 16, 0x10);
    put32(&mut b, sh + 20, 0x400);
    for x in &mut b[0x200..0x400] {
        *x = 0xcc;
    }
    for x in &mut b[0x400..0x410] {
        *x = 0xdd;
    }
    b
}

#[test]
fn pe_headers_and_sections() {
    let bytes = image();
    let pe = Pe::parse(&bytes).expect("Failed to parse image");
    assert_eq!(pe.entry_point(), 0x1_4000_1000);

    let mut headers = pe.section_headers();
    let first = headers.next().unwrap();
    assert!(&first.name == b".text\0\0\0");
    assert_eq!(first.virtual_address, 0x1000);
    let second = headers.next().unwrap();
    assert!(&second.name == b".data\0\0\0");
    assert!(headers.next().is_none());

    let sections = pe.access_sections().unwrap();
    assert_eq!(sections.len(), 2);
    assert_eq!(sections[0].base, 0x1_4000_1000);
    assert_eq!(sections[0].virtual_size, 0x20);
    assert_eq!(sections[0].bytes, &bytes[0x200..0x220]);
    assert_eq!(sections[1].base, 0x1_4000_2000);
    assert_eq!(sections[1].bytes, &bytes[0x400..0x410]);

    assert_eq!(pe.image_bounds(), Some((0x1_4000_1000, 0x1_4000_2300)));
}

#[test]
fn pe_errors() {
    let mut bytes = image();
    bytes[1] = b'X';
    assert!(matches!(Pe::parse(&bytes), Err(PeError::MZMagic)));

    let mut bytes = image();
    bytes[0x41] = b'X';
    assert!(matches!(Pe::parse(&bytes), Err(PeError::PEMagic)));

    let mut bytes = image();
    bytes[0x58] = 0x33;
    assert!(matches!(Pe::parse(&bytes), Err(PeError::UnsupportedOptionalMagic(0x233))));

    let bytes = image();
    assert!(matches!(
        Pe::parse(&bytes[..0x60]),
        Err(PeError::ReaderError(ReaderError::OutOfBounds(_, 0x60)))
    ));
    assert!(matches!(Pe::parse(&bytes[..1]), Err(PeError::ReaderError(_))));

    // A section whose bytes run past the end of the image.
    let mut bytes = image();
    bytes[0xd8 + 40 + 16] = 0x20;
    let pe = Pe::parse(&bytes).unwrap();
    assert!(pe.access_sections().is_none());
    assert_eq!(pe.image_bounds(), None);
}

#[test]
fn machine_field() {
    assert_eq!(Machine::from_field(0x8664), Ok(Machine::AMD64));
    assert_eq!(Machine::from_field(0x14c), Ok(Machine::I386));
    assert!(Machine::from_field(0x1234).is_err());
}
