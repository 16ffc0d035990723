//! A reader for the headers and sections of a PE image, such as the kernel the loader maps.
use crate::reader::{Primitive, Reader, ReaderError};
use vstd::prelude::*;

verus! {

/// Where the file offset of the PE signature is stored.
pub const PE_POINTER_OFFSET: usize = 0x3c;

/// The optional header's magic for 32-bit images.
pub const OPT_PE32_MAGIC: u16 = 0x10b;

/// The optional header's magic for 64-bit images.
pub const OPT_PE32_PLUS_MAGIC: u16 = 0x20b;

/// x86
pub const IMAGE_FILE_MACHINE_I386: u16 = 0x14c;

/// x64
pub const IMAGE_FILE_MACHINE_AMD64: u16 = 0x8664;

/// The size in bytes of a section header.
pub const SECTION_HEADER_SIZE: usize = 40;

/// The little-endian `u16` at `p`.
pub open spec fn u16_at(d: Seq<u8>, p: int) -> u16 {
    u16::decode(d.subrange(p, p + 2))
}

/// The little-endian `u32` at `p`.
pub open spec fn u32_at(d: Seq<u8>, p: int) -> u32 {
    u32::decode(d.subrange(p, p + 4))
}

/// The COFF file header that follows the PE signature.
#[derive(Clone, Copy, Debug, PartialEq, Eq, Structural)]
pub struct CoffHeader {
    /// The type of target machine.
    pub machine: u16,
    /// The number of section headers after the optional header.
    pub number_of_sections: u16,
    /// The low 32 bits of the creation time, in seconds since the epoch.
    pub time_data_stamp: u32,
    /// The file offset of the COFF symbol table, or zero.
    pub pointer_to_symbol_table: u32,
    /// The number of entries in the symbol table.
    pub number_of_symbols: u32,
    /// The size of the optional header.
    pub size_of_optional_header: u16,
    /// Attributes of the file.
    pub characteristics: u16,
}

impl CoffHeader {
    /// The header whose 20 bytes start at `p`.
    pub open spec fn decoded(d: Seq<u8>, p: int) -> CoffHeader {
        CoffHeader {
            machine: u16_at(d, p),
            number_of_sections: u16_at(d, p + 2),
            time_data_stamp: u32_at(d, p + 4),
            pointer_to_symbol_table: u32_at(d, p + 8),
            number_of_symbols: u32_at(d, p + 12),
            size_of_optional_header: u16_at(d, p + 16),
            characteristics: u16_at(d, p + 18),
        }
    }

    pub fn read(reader: &mut Reader) -> (r: Result<CoffHeader, ReaderError>)
        requires
            old(reader).wf(),
        ensures
            final(reader).wf(),
            final(reader).data() == old(reader).data(),
            old(reader).pos() + 20 <= old(reader).data().len() ==> r == Ok::<
                CoffHeader,
                ReaderError,
            >(CoffHeader::decoded(old(reader).data(), old(reader).pos())) && final(reader).pos()
                == old(reader).pos() + 20,
            old(reader).pos() + 20 > old(reader).data().len() ==> r is Err,
    {
        let machine = reader.read::<u16>()?;
        let number_of_sections = reader.read::<u16>()?;
        let time_data_stamp = reader.read::<u32>()?;
        let pointer_to_symbol_table = reader.read::<u32>()?;
        let number_of_symbols = reader.read::<u32>()?;
        let size_of_optional_header = reader.read::<u16>()?;
        let characteristics = reader.read::<u16>()?;
        Ok(CoffHeader {
            machine,
            number_of_sections,
            time_data_stamp,
            pointer_to_symbol_table,
            number_of_symbols,
            size_of_optional_header,
            characteristics,
        })
    }

    pub fn number_of_sections(&self) -> (r: u16)
        ensures
            r == self.number_of_sections,
    {
        self.number_of_sections
    }
}

/// The machines an image may target.
#[derive(Clone, Copy, Debug, PartialEq, Eq, Structural)]
pub enum Machine {
    /// Intel 386 or later processors and compatible processors.
    I386,
    /// x64.
    AMD64,
}

/// Why a header field was not understood.
#[derive(Clone, Copy, Debug, PartialEq, Eq, Structural)]
pub enum Error {
    UnsupportedMachine(u16),
}

impl Machine {
    /// The machine a COFF header's `machine` field names.
    pub fn from_field(value: u16) -> (r: Result<Machine, Error>)
        ensures
            value == IMAGE_FILE_MACHINE_I386 ==> r == Ok::<Machine, Error>(Machine::I386),
            value == IMAGE_FILE_MACHINE_AMD64 ==> r == Ok::<Machine, Error>(Machine::AMD64),
            value != IMAGE_FILE_MACHINE_I386 && value != IMAGE_FILE_MACHINE_AMD64 ==> r == Err::<
                Machine,
                Error,
            >(Error::UnsupportedMachine(value)),
    {
        if value == IMAGE_FILE_MACHINE_I386 {
            Ok(Machine::I386)
        } else if value == IMAGE_FILE_MACHINE_AMD64 {
            Ok(Machine::AMD64)
        } else {
            Err(Error::UnsupportedMachine(value))
        }
    }
}

/// One entry of the optional header's data directories.
#[derive(Clone, Copy, Debug, PartialEq, Eq, Structural)]
pub struct DataDirectory {
    pub rva: u32,
    pub size: u32,
}

impl DataDirectory {
    pub fn read(reader: &mut Reader) -> (r: Result<DataDirectory, ReaderError>)
        requires
            old(reader).wf(),
        ensures
            final(reader).wf(),
            final(reader).data() == old(reader).data(),
            old(reader).pos() + 8 <= old(reader).data().len() ==> r == Ok::<
                DataDirectory,
                ReaderError,
            >(
                DataDirectory {
                    rva: u32_at(old(reader).data(), old(reader).pos()),
                    size: u32_at(old(reader).data(), old(reader).pos() + 4),
                },
            ) && final(reader).pos() == old(reader).pos() + 8,
            old(reader).pos() + 8 > old(reader).data().len() ==> r is Err && final(reader).pos()
                <= old(reader).data().len(),
    {
        let rva = reader.read::<u32>()?;
        let size = reader.read::<u32>()?;
        Ok(DataDirectory { rva, size })
    }
}

/// A section header.
#[derive(Clone, Copy, Debug)]
pub struct SectionHeader {
    /// An 8-byte, null-padded UTF-8 name.
    pub name: [u8; 8],
    /// The size of the section when loaded into memory.
    pub virtual_size: u32,
    /// The address of the section, relative to the image base, when loaded.
    pub virtual_address: u32,
    /// The size of the initialized data on disk.
    pub size_of_raw_data: u32,
    /// The file offset of the section's data.
    pub pointer_to_raw_data: u32,
    /// The file offset of the section's relocation entries.
    pub pointer_to_relocations: u32,
    /// The file offset of the section's line-number entries.
    pub point_to_line_numbers: u32,
    /// The number of relocation entries.
    pub number_of_relocations: u16,
    /// The number of line-number entries.
    pub number_of_line_numbers: u16,
    /// Flags that describe the section.
    pub characteristics: u32,
}

impl SectionHeader {
    /// The header whose 40 bytes start at `p`; only the fields the loader uses are given.
    pub open spec fn matches(self, d: Seq<u8>, p: int) -> bool {
        &&& self.name@ == d.subrange(p, p + 8)
        &&& self.virtual_size == u32_at(d, p + 8)
        &&& self.virtual_address == u32_at(d, p + 12)
        &&& self.size_of_raw_data == u32_at(d, p + 16)
        &&& self.pointer_to_raw_data == u32_at(d, p + 20)
        &&& self.pointer_to_relocations == u32_at(d, p + 24)
        &&& self.point_to_line_numbers == u32_at(d, p + 28)
        &&& self.number_of_relocations == u16_at(d, p + 32)
        &&& self.number_of_line_numbers == u16_at(d, p + 34)
        &&& self.characteristics == u32_at(d, p + 36)
    }

    pub fn read(reader: &mut Reader) -> (r: Result<SectionHeader, ReaderError>)
        requires
            old(reader).wf(),
        ensures
            final(reader).wf(),
            final(reader).data() == old(reader).data(),
            old(reader).pos() + 40 <= old(reader).data().len() ==> (r matches Ok(h) && h.matches(
                old(reader).data(),
                old(reader).pos(),
            )) && final(reader).pos() == old(reader).pos() + 40,
            old(reader).pos() + 40 > old(reader).data().len() ==> r is Err,
    {
        let name_bytes = match reader.read_bytes(8) {
            Ok(b) => b,
            Err(e) => {
                return Err(e);
            },
        };
        let name = [
            name_bytes[0],
            name_bytes[1],
            name_bytes[2],
            name_bytes[3],
            name_bytes[4],
            name_bytes[5],
            name_bytes[6],
            name_bytes[7],
        ];
        proof {
            assert(name@ =~= name_bytes@);
        }
        let virtual_size = reader.read::<u32>()?;
        let virtual_address = reader.read::<u32>()?;
        let size_of_raw_data = reader.read::<u32>()?;
        let pointer_to_raw_data = reader.read::<u32>()?;
        let pointer_to_relocations = reader.read::<u32>()?;
        let point_to_line_numbers = reader.read::<u32>()?;
        let number_of_relocations = reader.read::<u16>()?;
        let number_of_line_numbers = reader.read::<u16>()?;
        let characteristics = reader.read::<u32>()?;
        Ok(SectionHeader {
            name,
            virtual_size,
            virtual_address,
            size_of_raw_data,
            pointer_to_raw_data,
            pointer_to_relocations,
            point_to_line_numbers,
            number_of_relocations,
            number_of_line_numbers,
            characteristics,
        })
    }
}

/// A header field as wide as the image's addresses.
pub trait PeArch: Copy {
    spec fn widened(self) -> u64;

    fn as_u64(self) -> (r: u64)
        ensures
            r == self.widened(),
    ;
}

impl PeArch for u32 {
    open spec fn widened(self) -> u64 {
        self as u64
    }

    fn as_u64(self) -> (r: u64) {
        self as u64
    }
}

impl PeArch for u64 {
    open spec fn widened(self) -> u64 {
        self
    }

    fn as_u64(self) -> (r: u64) {
        self
    }
}

/// The optional header, with fields of type `T` where the image's address width shows.
#[derive(Debug)]
pub struct OptionalHeaderType<T> {
    pub magic: u16,
    pub major_linker_version: u8,
    pub minor_linker_version: u8,
    pub size_of_code: u32,
    pub size_of_init_data: u32,
    pub size_of_uninit_data: u32,
    /// The entry point, relative to the image base.
    pub addr_entry_point: u32,
    pub base_of_code: u32,
    /// Present in 32-bit images only; zero otherwise.
    pub base_of_data: u32,
    /// Where the image prefers to be loaded.
    pub image_base: T,
    pub section_alignment: u32,
    pub file_alignment: u32,
    pub major_os_version: u16,
    pub minor_os_version: u16,
    pub major_image_version: u16,
    pub minor_image_version: u16,
    pub major_subsystem_version: u16,
    pub minor_subsystem_version: u16,
    pub win32_version: u32,
    pub size_of_image: u32,
    pub size_of_headers: u32,
    pub checksum: u32,
    pub subsystem: u16,
    pub dll_characteristics: u16,
    pub size_of_stack_reserve: T,
    pub size_of_stack_commit: T,
    pub size_of_heap_reserve: T,
    pub size_of_heap_commit: T,
    pub loader_flags: u32,
    /// How many data directories follow.
    pub number_of_rva_and_sizes: u32,
}

/// The offset of `image_base` in an optional header.
pub open spec fn image_base_offset(with_base_of_data: bool) -> int {
    if with_base_of_data {
        28
    } else {
        24
    }
}

/// The size of an optional header whose address-wide fields take `width` bytes.
pub open spec fn optional_header_size(with_base_of_data: bool, width: int) -> int {
    image_base_offset(with_base_of_data) + 5 * width + 48
}

impl<T: Primitive + Copy> OptionalHeaderType<T> {
    /// Reads the header; `with_base_of_data` for a 32-bit image, whose header has that field.
    pub fn read(reader: &mut Reader, with_base_of_data: bool) -> (r: Result<Self, ReaderError>)
        requires
            old(reader).wf(),
        ensures
            final(reader).wf(),
            final(reader).data() == old(reader).data(),
            r matches Ok(h) ==> {
                let d = old(reader).data();
                let p = old(reader).pos();
                let b = image_base_offset(with_base_of_data);
                let w = T::width() as int;
                &&& final(reader).pos() == p + optional_header_size(with_base_of_data, w)
                &&& h.magic == u16_at(d, p)
                &&& h.addr_entry_point == u32_at(d, p + 16)
                &&& h.image_base == T::decode(d.subrange(p + b, p + b + w))
                &&& h.number_of_rva_and_sizes == u32_at(d, p + b + 5 * w + 44)
            },
            old(reader).pos() + optional_header_size(with_base_of_data, T::width() as int)
                <= old(reader).data().len() ==> r is Ok,
    {
        let magic = reader.read::<u16>()?;
        let major_linker_version = reader.read::<u8>()?;
        let minor_linker_version = reader.read::<u8>()?;
        let size_of_code = reader.read::<u32>()?;
        let size_of_init_data = reader.read::<u32>()?;
        let size_of_uninit_data = reader.read::<u32>()?;
        let addr_entry_point = reader.read::<u32>()?;
        let base_of_code = reader.read::<u32>()?;
        let base_of_data = if with_base_of_data {
            reader.read::<u32>()?
        } else {
            0
        };
        let image_base = reader.read::<T>()?;
        let section_alignment = reader.read::<u32>()?;
        let file_alignment = reader.read::<u32>()?;
        let major_os_version = reader.read::<u16>()?;
        let minor_os_version = reader.read::<u16>()?;
        let major_image_version = reader.read::<u16>()?;
        let minor_image_version = reader.read::<u16>()?;
        let major_subsystem_version = reader.read::<u16>()?;
        let minor_subsystem_version = reader.read::<u16>()?;
        let win32_version = reader.read::<u32>()?;
        let size_of_image = reader.read::<u32>()?;
        let size_of_headers = reader.read::<u32>()?;
        let checksum = reader.read::<u32>()?;
        let subsystem = reader.read::<u16>()?;
        let dll_characteristics = reader.read::<u16>()?;
        let size_of_stack_reserve = reader.read::<T>()?;
        let size_of_stack_commit = reader.read::<T>()?;
        let size_of_heap_reserve = reader.read::<T>()?;
        let size_of_heap_commit = reader.read::<T>()?;
        let loader_flags = reader.read::<u32>()?;
        let number_of_rva_and_sizes = reader.read::<u32>()?;
        Ok(OptionalHeaderType {
            magic,
            major_linker_version,
            minor_linker_version,
            size_of_code,
            size_of_init_data,
            size_of_uninit_data,
            addr_entry_point,
            base_of_code,
            base_of_data,
            image_base,
            section_alignment,
            file_alignment,
            major_os_version,
            minor_os_version,
            major_image_version,
            minor_image_version,
            major_subsystem_version,
            minor_subsystem_version,
            win32_version,
            size_of_image,
            size_of_headers,
            checksum,
            subsystem,
            dll_characteristics,
            size_of_stack_reserve,
            size_of_stack_commit,
            size_of_heap_reserve,
            size_of_heap_commit,
            loader_flags,
            number_of_rva_and_sizes,
        })
    }

    pub fn image_base(&self) -> (r: T)
        ensures
            r == self.image_base,
    {
        self.image_base
    }

    pub fn number_of_rva_and_sizes(&self) -> (r: u32)
        ensures
            r == self.number_of_rva_and_sizes,
    {
        self.number_of_rva_and_sizes
    }
}

/// The optional header of a 32-bit or a 64-bit image.
#[derive(Debug)]
pub enum OptionalHeader {
    PE32(OptionalHeaderType<u32>),
    PE32Plus(OptionalHeaderType<u64>),
}

impl OptionalHeader {
    pub open spec fn entry_spec(self) -> u32 {
        match self {
            OptionalHeader::PE32(h) => h.addr_entry_point,
            OptionalHeader::PE32Plus(h) => h.addr_entry_point,
        }
    }

    pub open spec fn image_base_spec(self) -> u64 {
        match self {
            OptionalHeader::PE32(h) => h.image_base as u64,
            OptionalHeader::PE32Plus(h) => h.image_base,
        }
    }

    pub open spec fn directories_spec(self) -> u32 {
        match self {
            OptionalHeader::PE32(h) => h.number_of_rva_and_sizes,
            OptionalHeader::PE32Plus(h) => h.number_of_rva_and_sizes,
        }
    }

    pub fn number_of_rva_and_sizes(&self) -> (r: u32)
        ensures
            r == self.directories_spec(),
    {
        match self {
            OptionalHeader::PE32(opt) => opt.number_of_rva_and_sizes(),
            OptionalHeader::PE32Plus(opt) => opt.number_of_rva_and_sizes(),
        }
    }

    pub fn image_base(&self) -> (r: u64)
        ensures
            r == self.image_base_spec(),
    {
        match self {
            OptionalHeader::PE32(opt) => opt.image_base.as_u64(),
            OptionalHeader::PE32Plus(opt) => opt.image_base.as_u64(),
        }
    }

    pub fn addr_entry_point(&self) -> (r: u32)
        ensures
            r == self.entry_spec(),
    {
        match self {
            OptionalHeader::PE32(opt) => opt.addr_entry_point,
            OptionalHeader::PE32Plus(opt) => opt.addr_entry_point,
        }
    }
}

/// Why an image could not be read.
#[derive(Clone, Copy, Debug, PartialEq, Eq, Structural)]
pub enum PeError {
    /// The image ends before a header does.
    ReaderError(ReaderError),
    /// The image does not start with "MZ".
    MZMagic,
    /// The PE signature is missing.
    PEMagic,
    /// The optional header is of neither known kind.
    UnsupportedOptionalMagic(u16),
}

/// Walks the section headers of an image.
pub struct SectionHeadersIterator<'data> {
    bytes: &'data [u8],
    offset: usize,
    number_of_sections: usize,
}

/// The number of section headers, of `n` announced from `off` on, that the image holds whole.
pub open spec fn header_count(len: int, off: int, n: int) -> int
    decreases n,
{
    if n <= 0 || off + SECTION_HEADER_SIZE > len {
        0
    } else {
        1 + header_count(len, off + SECTION_HEADER_SIZE, n - 1)
    }
}

proof fn lemma_header_count_nonneg(len: int, off: int, n: int)
    ensures
        header_count(len, off, n) >= 0,
    decreases n,
{
    if n > 0 && off + SECTION_HEADER_SIZE <= len {
        lemma_header_count_nonneg(len, off + SECTION_HEADER_SIZE, n - 1);
    }
}

impl<'data> SectionHeadersIterator<'data> {
    pub closed spec fn data(&self) -> Seq<u8> {
        self.bytes@
    }

    /// Where the next header starts.
    pub closed spec fn position(&self) -> int {
        self.offset as int
    }

    /// How many headers are still announced.
    pub closed spec fn remaining(&self) -> int {
        self.number_of_sections as int
    }

    pub fn from(bytes: &'data [u8], offset: usize, number_of_sections: usize) -> (r: Self)
        ensures
            r.data() == bytes@,
            r.position() == offset,
            r.remaining() == number_of_sections,
    {
        Self { bytes, offset, number_of_sections }
    }

    /// The next header, while headers are announced and the image holds the next one whole.
    pub fn next(&mut self) -> (r: Option<SectionHeader>)
        ensures
            final(self).data() == old(self).data(),
            old(self).remaining() == 0 || old(self).position() + SECTION_HEADER_SIZE > old(
                self).data().len() ==> r is None && final(self).remaining() == 0,
            old(self).remaining() > 0 && old(self).position() + SECTION_HEADER_SIZE <= old(
                self).data().len() ==> {
                &&& r matches Some(h) && h.matches(old(self).data(), old(self).position())
                &&& final(self).position() == old(self).position() + SECTION_HEADER_SIZE
                &&& final(self).remaining() == old(self).remaining() - 1
            },
    {
        if self.number_of_sections == 0 || self.offset >= self.bytes.len() || SECTION_HEADER_SIZE
            > self.bytes.len() - self.offset {
            self.number_of_sections = 0;
            return None;
        }
        let mut reader = Reader::new(self.bytes);
        reader.skip(self.offset);
        match SectionHeader::read(&mut reader) {
            Ok(section) => {
                self.offset = reader.offset();
                self.number_of_sections = self.number_of_sections - 1;
                Some(section)
            },
            Err(_) => {
                self.number_of_sections = 0;
                None
            },
        }
    }
}

/// A section as it is to be loaded: its absolute virtual address, its size in memory, and the
/// bytes the image holds for it.
pub struct SectionData<'data> {
    pub base: u64,
    pub virtual_size: u32,
    pub bytes: &'data [u8],
}

/// The image starts with "MZ".
pub open spec fn has_mz(d: Seq<u8>) -> bool {
    d.len() >= 2 && d[0] == 0x4d && d[1] == 0x5a
}

/// Where the PE signature is, as the image says at 0x3c.
pub open spec fn pe_offset(d: Seq<u8>) -> int {
    u32_at(d, PE_POINTER_OFFSET as int) as int
}

/// The image holds "PE\0\0" where it says.
pub open spec fn has_pe_signature(d: Seq<u8>) -> bool {
    let off = pe_offset(d);
    off + 4 <= d.len() && d.subrange(off, off + 4) == seq![0x50u8, 0x45u8, 0u8, 0u8]
}

/// The magic that starts the optional header, after the signature and the COFF header.
pub open spec fn optional_magic(d: Seq<u8>) -> u16 {
    u16_at(d, pe_offset(d) + 24)
}

/// A parsed PE image.
pub struct Pe<'data> {
    bytes: &'data [u8],
    coff_header: CoffHeader,
    opt_header: OptionalHeader,
    section_headers_offset: usize,
}

impl<'data> Pe<'data> {
    pub closed spec fn data(&self) -> Seq<u8> {
        self.bytes@
    }

    pub closed spec fn coff(&self) -> CoffHeader {
        self.coff_header
    }

    pub closed spec fn opt(&self) -> OptionalHeader {
        self.opt_header
    }

    /// Where the section headers start.
    pub closed spec fn headers_offset(&self) -> int {
        self.section_headers_offset as int
    }

    /// The number of section headers the image holds whole.
    pub open spec fn section_count(&self) -> int {
        header_count(self.data().len() as int, self.headers_offset(), self.coff().number_of_sections as int)
    }

    /// Where section header `k` starts.
    pub open spec fn header_at(&self, k: int) -> int {
        self.headers_offset() + SECTION_HEADER_SIZE * k
    }

    /// The absolute virtual address of section `k`, saturated at the top of the address space.
    pub open spec fn section_base(&self, k: int) -> u64 {
        let sum = self.opt().image_base_spec() + u32_at(self.data(), self.header_at(k) + 12);
        if sum > u64::MAX {
            u64::MAX
        } else {
            sum as u64
        }
    }

    pub open spec fn section_size(&self, k: int) -> u32 {
        u32_at(self.data(), self.header_at(k) + 8)
    }

    /// Where the bytes of section `k` start in the image.
    pub open spec fn section_start(&self, k: int) -> int {
        u32_at(self.data(), self.header_at(k) + 20) as int
    }

    /// How many bytes of section `k` the image holds: its size on disk, or in memory if less.
    pub open spec fn section_length(&self, k: int) -> int {
        let raw = u32_at(self.data(), self.header_at(k) + 16);
        if raw < self.section_size(k) {
            raw as int
        } else {
            self.section_size(k) as int
        }
    }

    /// Every section's bytes lie within the image.
    pub open spec fn sections_in_bounds(&self) -> bool {
        forall|k: int|
            0 <= k < self.section_count() ==> #[trigger] self.section_start(k) + self.section_length(k)
                <= self.data().len()
    }

    /// Reads the headers of the image in `bytes`: the "MZ" signature, the offset of the PE
    /// signature at 0x3c, the signature "PE\0\0", the COFF header, the optional header of a
    /// 32-bit or 64-bit image, and its data directories, after which the section headers start.
    pub fn parse(bytes: &'data [u8]) -> (r: Result<Pe<'data>, PeError>)
        ensures
            r == Err::<Pe, PeError>(PeError::PEMagic) <==> has_mz(bytes@) && bytes@.len() >= 0x40
                && pe_offset(bytes@) + 4 <= bytes@.len() && !has_pe_signature(bytes@),
            r == Err::<Pe, PeError>(PeError::UnsupportedOptionalMagic(optional_magic(bytes@)))
                <==> has_mz(bytes@) && bytes@.len() >= 0x40 && has_pe_signature(bytes@) && pe_offset(
                bytes@,
            ) + 26 <= bytes@.len() && optional_magic(bytes@) != OPT_PE32_MAGIC && optional_magic(
                bytes@,
            ) != OPT_PE32_PLUS_MAGIC,
            r matches Err(PeError::UnsupportedOptionalMagic(m)) ==> m == optional_magic(bytes@),
            r is Ok <==> has_mz(bytes@) && bytes@.len() >= 0x40 && has_pe_signature(bytes@)
                && pe_offset(bytes@) + 26 <= bytes@.len() && ((optional_magic(bytes@)
                == OPT_PE32_MAGIC && pe_offset(bytes@) + 24 + optional_header_size(true, 4)
                <= bytes@.len()) || (optional_magic(bytes@) == OPT_PE32_PLUS_MAGIC && pe_offset(
                bytes@,
            ) + 24 + optional_header_size(false, 8) <= bytes@.len())),
            r == Err::<Pe, PeError>(PeError::MZMagic) <==> bytes@.len() >= 2 && !(bytes@[0] == 0x4d
                && bytes@[1] == 0x5a),
            bytes@.len() < 2 ==> r matches Err(PeError::ReaderError(_)),
            r matches Ok(pe) ==> {
                let d = bytes@;
                let off = u32_at(d, PE_POINTER_OFFSET as int) as int;
                &&& pe.data() == d
                &&& d[0] == 0x4d && d[1] == 0x5a
                &&& d.subrange(off, off + 4) == seq![0x50u8, 0x45u8, 0u8, 0u8]
                &&& pe.coff() == CoffHeader::decoded(d, off + 4)
                &&& (pe.opt() matches OptionalHeader::PE32(h) ==> h.magic == OPT_PE32_MAGIC
                    && u16_at(d, off + 24) == OPT_PE32_MAGIC && h.addr_entry_point == u32_at(
                    d,
                    off + 40,
                ) && h.image_base == u32_at(d, off + 52))
                &&& (pe.opt() matches OptionalHeader::PE32Plus(h) ==> h.magic == OPT_PE32_PLUS_MAGIC
                    && u16_at(d, off + 24) == OPT_PE32_PLUS_MAGIC && h.addr_entry_point == u32_at(
                    d,
                    off + 40,
                ) && h.image_base == u64::decode(d.subrange(off + 48, off + 56)))
                &&& pe.headers_offset() <= d.len()
            },
    {
        let mut reader = Reader::new(bytes);
        let mz = match reader.read_bytes(2) {
            Ok(b) => b,
            Err(e) => {
                return Err(PeError::ReaderError(e));
            },
        };
        if mz[0] != 0x4d || mz[1] != 0x5a {
            return Err(PeError::MZMagic);
        }
        if let Err(e) = reader.seek(PE_POINTER_OFFSET) {
            return Err(PeError::ReaderError(e));
        }
        let pe_offset = match reader.read::<u32>() {
            Ok(v) => v,
            Err(e) => {
                return Err(PeError::ReaderError(e));
            },
        };
        if let Err(e) = reader.seek(pe_offset as usize) {
            return Err(PeError::ReaderError(e));
        }
        let signature = match reader.read_bytes(4) {
            Ok(b) => b,
            Err(e) => {
                return Err(PeError::ReaderError(e));
            },
        };
        if signature[0] != 0x50 || signature[1] != 0x45 || signature[2] != 0 || signature[3] != 0 {
            return Err(PeError::PEMagic);
        }
        proof {
            assert(signature@ =~= seq![0x50u8, 0x45u8, 0u8, 0u8]);
        }
        let coff_header = match CoffHeader::read(&mut reader) {
            Ok(h) => h,
            Err(e) => {
                return Err(PeError::ReaderError(e));
            },
        };
        let opt_magic = match reader.peek::<u16>() {
            Ok(m) => m,
            Err(e) => {
                return Err(PeError::ReaderError(e));
            },
        };
        let opt_header = if opt_magic == OPT_PE32_MAGIC {
            match OptionalHeaderType::<u32>::read(&mut reader, true) {
                Ok(h) => OptionalHeader::PE32(h),
                Err(e) => {
                    return Err(PeError::ReaderError(e));
                },
            }
        } else if opt_magic == OPT_PE32_PLUS_MAGIC {
            match OptionalHeaderType::<u64>::read(&mut reader, false) {
                Ok(h) => OptionalHeader::PE32Plus(h),
                Err(e) => {
                    return Err(PeError::ReaderError(e));
                },
            }
        } else {
            return Err(PeError::UnsupportedOptionalMagic(opt_magic));
        };
        let directories = opt_header.number_of_rva_and_sizes();
        let mut i: u32 = 0;
        while i < directories
            invariant
                reader.wf(),
                reader.data() == bytes@,
            decreases directories - i,
        {
            if DataDirectory::read(&mut reader).is_err() {
                break;
            }
            i += 1;
        }
        let section_headers_offset = reader.offset();
        Ok(Pe { bytes, coff_header, opt_header, section_headers_offset })
    }

    /// The absolute virtual address of the entry point, saturated at the top of the address
    /// space.
    pub fn entry_point(&self) -> (r: u64)
        ensures
            r == if self.opt().image_base_spec() + self.opt().entry_spec() > u64::MAX {
                u64::MAX
            } else {
                (self.opt().image_base_spec() + self.opt().entry_spec()) as u64
            },
    {
        self.opt_header.image_base().saturating_add(self.opt_header.addr_entry_point() as u64)
    }

    /// The end of section `k` in memory, saturated at the top of the address space.
    pub open spec fn section_end(&self, k: int) -> u64 {
        let sum = self.section_base(k) + self.section_size(k);
        if sum > u64::MAX {
            u64::MAX
        } else {
            sum as u64
        }
    }

    /// Each section as it is to be loaded, in the order of the headers; `None` when the bytes
    /// of a section lie outside the image.
    pub fn access_sections(&self) -> (r: Option<Vec<SectionData<'data>>>)
        ensures
            r is Some <==> self.sections_in_bounds(),
            r matches Some(v) ==> {
                &&& v.len() == self.section_count()
                &&& forall|k: int|
                    0 <= k < v.len() ==> {
                        &&& (#[trigger] v[k]).base == self.section_base(k)
                        &&& v[k].virtual_size == self.section_size(k)
                        &&& v[k].bytes@ == self.data().subrange(
                            self.section_start(k),
                            self.section_start(k) + self.section_length(k),
                        )
                    }
            },
    {
        let image_base = self.opt_header.image_base();
        let mut headers = self.section_headers();
        let mut out: Vec<SectionData<'data>> = Vec::new();
        let ghost n = self.coff().number_of_sections as int;
        let ghost len = self.data().len() as int;
        loop
            invariant
                image_base == self.opt().image_base_spec(),
                len == self.data().len(),
                n == self.coff().number_of_sections,
                headers.data() == self.data(),
                headers.remaining() <= n,
                headers.remaining() > 0 ==> headers.position() == self.header_at(n - headers.remaining()),
                out.len() + header_count(len, headers.position(), headers.remaining()) == self.section_count(),
                headers.remaining() > 0 ==> out.len() == n - headers.remaining(),
                headers.remaining() == 0 ==> header_count(len, headers.position(), 0) == 0,
                forall|k: int|
                    0 <= k < out.len() ==> {
                        &&& (#[trigger] out@[k]).base == self.section_base(k)
                        &&& out@[k].virtual_size == self.section_size(k)
                        &&& out@[k].bytes@ == self.data().subrange(
                            self.section_start(k),
                            self.section_start(k) + self.section_length(k),
                        )
                        &&& self.section_start(k) + self.section_length(k) <= len
                    },
            decreases headers.remaining(),
        {
            let ghost k = out.len() as int;
            let ghost pos = headers.position();
            let ghost rem = headers.remaining();
            let header = match headers.next() {
                Some(h) => h,
                None => {
                    proof {
                        assert(rem == 0 || pos + SECTION_HEADER_SIZE > len);
                        assert(header_count(len, pos, rem) == 0);
                        assert(out.len() == self.section_count());
                        assert forall|j: int| 0 <= j < self.section_count() implies #[trigger] self.section_start(j)
                            + self.section_length(j) <= self.data().len() by {
                            assert(out@[j].base == self.section_base(j));
                        }
                    }
                    return Some(out);
                },
            };
            proof {
                assert(header.matches(self.data(), self.header_at(k)));
            }
            let size = if header.size_of_raw_data < header.virtual_size {
                header.size_of_raw_data
            } else {
                header.virtual_size
            };
            let start = header.pointer_to_raw_data as usize;
            if size as usize > self.bytes.len() || start > self.bytes.len() - size as usize {
                proof {
                    lemma_header_count_nonneg(len, pos + SECTION_HEADER_SIZE, rem - 1);
                    assert(k < self.section_count());
                    assert(!(self.section_start(k) + self.section_length(k) <= self.data().len()));
                }
                return None;
            }
            let bytes = vstd::slice::slice_subrange(self.bytes, start, start + size as usize);
            let ghost before = out@;
            let base = image_base.saturating_add(header.virtual_address as u64);
            out.push(SectionData { base, virtual_size: header.virtual_size, bytes });
            proof {
                assert forall|j: int| 0 <= j < out.len() implies {
                    &&& (#[trigger] out@[j]).base == self.section_base(j)
                    &&& out@[j].virtual_size == self.section_size(j)
                    &&& out@[j].bytes@ == self.data().subrange(
                        self.section_start(j),
                        self.section_start(j) + self.section_length(j),
                    )
                    &&& self.section_start(j) + self.section_length(j) <= len
                } by {
                    if j < k {
                        assert(out@[j] == before[j]);
                    }
                }
            }
        }
    }

    /// The lowest start and the highest end in memory over all sections; `None` when the image
    /// has no section or the bytes of one lie outside it.
    pub fn image_bounds(&self) -> (r: Option<(u64, u64)>)
        ensures
            r is Some <==> self.sections_in_bounds() && self.section_count() > 0,
            r matches Some((start, end)) ==> {
                &&& exists|k: int| 0 <= k < self.section_count() && start == #[trigger] self.section_base(k)
                &&& forall|k: int| 0 <= k < self.section_count() ==> start <= #[trigger] self.section_base(k)
                &&& exists|k: int| 0 <= k < self.section_count() && end == #[trigger] self.section_end(k)
                &&& forall|k: int| 0 <= k < self.section_count() ==> #[trigger] self.section_end(k) <= end
            },
    {
        let sections = match self.access_sections() {
            Some(v) => v,
            None => return None,
        };
        if sections.len() == 0 {
            return None;
        }
        let mut start = sections[0].base;
        let mut end = sections[0].base.saturating_add(sections[0].virtual_size as u64);
        let ghost mut lo: int = 0;
        let ghost mut hi: int = 0;
        let mut i: usize = 1;
        while i < sections.len()
            invariant
                1 <= i <= sections.len(),
                sections.len() == self.section_count(),
                forall|k: int|
                    0 <= k < sections.len() ==> (#[trigger] sections@[k]).base == self.section_base(k)
                        && sections@[k].virtual_size == self.section_size(k),
                0 <= lo < i,
                0 <= hi < i,
                start == self.section_base(lo),
                end == self.section_end(hi),
                forall|k: int| 0 <= k < i ==> start <= #[trigger] self.section_base(k),
                forall|k: int| 0 <= k < i ==> #[trigger] self.section_end(k) <= end,
            decreases sections.len() - i,
        {
            let base = sections[i].base;
            let section_end = base.saturating_add(sections[i].virtual_size as u64);
            proof {
                assert(sections@[i as int].base == self.section_base(i as int));
            }
            if base < start {
                start = base;
                proof {
                    lo = i as int;
                }
            }
            if section_end > end {
                end = section_end;
                proof {
                    hi = i as int;
                }
            }
            i += 1;
        }
        proof {
            assert(sections@[0].base == self.section_base(0));
        }
        Some((start, end))
    }

    /// The section headers, in the order the image gives them.
    pub fn section_headers(&self) -> (r: SectionHeadersIterator<'data>)
        ensures
            r.data() == self.data(),
            r.position() == self.headers_offset(),
            r.remaining() == self.coff().number_of_sections,
    {
        SectionHeadersIterator::from(
            self.bytes,
            self.section_headers_offset,
            self.coff_header.number_of_sections() as usize,
        )
    }
}

} // verus!
