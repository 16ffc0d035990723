//! The firmware's memory map, and the set of free physical memory built from it.
use crate::frame::Mmu;
use crate::range::{covered, ClosedRange, RangeSet, SetError};
use crate::reader::{Primitive, Reader, ReaderError};
use crate::realmode::RegSelState;
use vstd::prelude::*;

verus! {

/// The descriptor type of RAM the operating system may use.
pub const RANGE_MEMORY: u32 = 1;

/// The function number of the firmware's memory-map query.
pub const E820: u32 = 0xe820;

/// The signature "SMAP" that the query expects in `edx`.
pub const SMAP: u32 = 0x534d_4150;

/// The size in bytes of one descriptor as the firmware writes it.
pub const DESCRIPTOR_SIZE: u32 = 20;

/// The registers for the next memory-map query: `continuation` is what the previous answer
/// left in `ebx` (zero for the first), and `buffer` the address the descriptor is written to.
pub fn e820_request(continuation: u32, buffer: u32) -> (r: RegSelState)
    ensures
        r.eax == E820,
        r.ebx == continuation,
        r.ecx == DESCRIPTOR_SIZE,
        r.edx == SMAP,
        r.edi == buffer,
        r.esp == 0 && r.ebp == 0 && r.esi == 0 && r.eflags == 0,
        r.ds == 0 && r.es == 0 && r.ss == 0 && r.gs == 0 && r.fs == 0,
{
    RegSelState {
        eax: E820,
        ecx: DESCRIPTOR_SIZE,
        edx: SMAP,
        ebx: continuation,
        esp: 0,
        ebp: 0,
        esi: 0,
        edi: buffer,
        eflags: 0,
        ds: 0,
        es: 0,
        ss: 0,
        gs: 0,
        fs: 0,
    }
}

/// Whether the memory-map query is over after an answer: the carry flag reports an error, or
/// the continuation value went back to zero after the last descriptor.
pub fn probe_finished(answer: &RegSelState) -> (r: bool)
    ensures
        r == (answer.eflags % 2 == 1 || answer.ebx == 0),
{
    let carry = answer.eflags & 1;
    proof {
        let f = answer.eflags;
        assert(f & 1 == f % 2) by (bit_vector);
    }
    carry == 1 || answer.ebx == 0
}

/// One descriptor of the firmware's memory map, as the firmware lays it out.
#[derive(Clone, Copy, Debug, Default, PartialEq, Eq, Structural)]
pub struct AddressRange {
    pub base_low: u32,
    pub base_high: u32,
    pub length_low: u32,
    pub length_high: u32,
    pub addr_type: u32,
}

impl AddressRange {
    pub open spec fn base_spec(self) -> int {
        self.base_high * 0x1_0000_0000 + self.base_low
    }

    pub open spec fn length_spec(self) -> int {
        self.length_high * 0x1_0000_0000 + self.length_low
    }

    /// The addresses of a usable descriptor: from its base on, for its length, cut at the top
    /// of the address space. A descriptor of another type, or of length zero, has none.
    pub open spec fn usable(self) -> Option<ClosedRange> {
        if self.addr_type != RANGE_MEMORY || self.length_spec() == 0 {
            None
        } else {
            let end = self.base_spec() + self.length_spec() - 1;
            Some(
                ClosedRange {
                    start: self.base_spec() as u64,
                    end: if end > u64::MAX {
                        u64::MAX
                    } else {
                        end as u64
                    },
                },
            )
        }
    }

    pub fn base(&self) -> (r: u64)
        ensures
            r == self.base_spec(),
    {
        let high = self.base_high as u64;
        proof {
            assert(high << 32u64 == high * 0x1_0000_0000) by (bit_vector)
                requires
                    high <= 0xffff_ffff,
            ;
        }
        (high << 32u64) + self.base_low as u64
    }

    pub fn length(&self) -> (r: u64)
        ensures
            r == self.length_spec(),
    {
        let high = self.length_high as u64;
        proof {
            assert(high << 32u64 == high * 0x1_0000_0000) by (bit_vector)
                requires
                    high <= 0xffff_ffff,
            ;
        }
        (high << 32u64) + self.length_low as u64
    }

    /// The addresses this descriptor offers to the operating system, if any.
    pub fn usable_range(&self) -> (r: Option<ClosedRange>)
        ensures
            r == self.usable(),
    {
        let length = self.length();
        if self.addr_type != RANGE_MEMORY || length == 0 {
            return None;
        }
        let start = self.base();
        Some(ClosedRange::new(start, start.saturating_add(length - 1)))
    }
}

/// Reads one descriptor, laid out as the firmware writes it: base, length (each as its low
/// then its high half) and type, five little-endian `u32` values.
pub fn read_descriptor(reader: &mut Reader) -> (r: Result<AddressRange, ReaderError>)
    requires
        old(reader).wf(),
    ensures
        final(reader).wf(),
        final(reader).data() == old(reader).data(),
        old(reader).pos() + 20 <= old(reader).data().len() ==> {
            let d = old(reader).data();
            let p = old(reader).pos();
            &&& r == Ok::<AddressRange, ReaderError>(
                AddressRange {
                    base_low: u32::decode(d.subrange(p, p + 4)),
                    base_high: u32::decode(d.subrange(p + 4, p + 8)),
                    length_low: u32::decode(d.subrange(p + 8, p + 12)),
                    length_high: u32::decode(d.subrange(p + 12, p + 16)),
                    addr_type: u32::decode(d.subrange(p + 16, p + 20)),
                },
            )
            &&& final(reader).pos() == p + 20
        },
        old(reader).pos() + 20 > old(reader).data().len() ==> r is Err,
{
    let base_low = reader.read::<u32>()?;
    let base_high = reader.read::<u32>()?;
    let length_low = reader.read::<u32>()?;
    let length_high = reader.read::<u32>()?;
    let addr_type = reader.read::<u32>()?;
    Ok(AddressRange { base_low, base_high, length_low, length_high, addr_type })
}

/// The addresses offered by the usable descriptors among `descriptors`.
pub open spec fn usable_addrs(descriptors: Seq<AddressRange>) -> Set<int> {
    Set::new(
        |x: int|
            exists|i: int|
                0 <= i < descriptors.len() && (#[trigger] descriptors[i]).usable() is Some
                    && descriptors[i].usable().unwrap().has(x),
    )
}

/// How many of `descriptors` are usable.
pub open spec fn usable_count(descriptors: Seq<AddressRange>) -> int
    decreases descriptors.len(),
{
    if descriptors.len() == 0 {
        0
    } else {
        usable_count(descriptors.drop_last()) + if descriptors.last().usable() is Some {
            1int
        } else {
            0
        }
    }
}

proof fn lemma_usable_count_prefix(s: Seq<AddressRange>, k: int)
    requires
        0 <= k <= s.len(),
    ensures
        forall|j: int| k <= j <= s.len() ==> usable_count(#[trigger] s.take(j)) <= usable_count(s),
    decreases s.len() - k,
{
    if k < s.len() {
        lemma_usable_count_prefix(s, k + 1);
        assert(s.take(k + 1).drop_last() =~= s.take(k));
    }
    assert(s.take(s.len() as int) =~= s);
}

/// The addresses of any of `ranges`.
pub open spec fn union_of(ranges: Seq<ClosedRange>) -> Set<int> {
    Set::new(|x: int| exists|i: int| 0 <= i < ranges.len() && (#[trigger] ranges[i]).has(x))
}

/// Builds the frame allocator from the firmware's memory map: the usable descriptors go in,
/// then every range of `reserved` (such as the first MiB, the loader's image and its stack)
/// comes out. Fails when the set runs out of slots or a range is malformed.
pub fn init(descriptors: &[AddressRange], reserved: &[ClosedRange]) -> (r: Result<Mmu, SetError>)
    ensures
        r matches Ok(m) ==> m.wf() && covered(m@) == usable_addrs(descriptors@).difference(
            union_of(reserved@),
        ),
        (forall|i: int| 0 <= i < reserved@.len() ==> #[trigger] reserved@[i].valid()) && r is Err
            ==> r == Err::<Mmu, SetError>(SetError::CapacityExhausted),
        (forall|i: int| 0 <= i < reserved@.len() ==> #[trigger] reserved@[i].valid())
            && usable_count(descriptors@) + reserved@.len() <= crate::range::CAPACITY ==> r is Ok,
        r == Err::<Mmu, SetError>(SetError::InvalidRange) ==> exists|i: int|
            0 <= i < reserved@.len() && !(#[trigger] reserved@[i]).valid(),
{
    proof {
        lemma_usable_count_prefix(descriptors@, 0);
    }
    let mut set = RangeSet::new();
    let mut i: usize = 0;
    while i < descriptors.len()
        invariant
            set.wf(),
            i <= descriptors@.len(),
            set.addrs() == usable_addrs(descriptors@.take(i as int)),
            set@.len() <= usable_count(descriptors@.take(i as int)),
            forall|k: int|
                0 <= k <= descriptors@.len() ==> usable_count(#[trigger] descriptors@.take(k))
                    <= usable_count(descriptors@),
        decreases descriptors@.len() - i,
    {
        let ghost before = set.addrs();
        match descriptors[i].usable_range() {
            Some(range) => {
                proof {
                    assert(descriptors@.take(i + 1).drop_last() =~= descriptors@.take(i as int));
                    assert(descriptors@.take(i + 1).last() == descriptors@[i as int]);
                }
                match set.insert(range) {
                    Ok(()) => {},
                    Err(e) => {
                        proof {
                            assert(range.valid());
                            assert(e == SetError::CapacityExhausted);
                        }
                        return Err(e);
                    },
                }
            },
            None => {},
        }
        proof {
            let d = descriptors@.take(i + 1);
            assert forall|x: int| #[trigger]
                set.addrs().contains(x) == usable_addrs(d).contains(x) by {
                if usable_addrs(d).contains(x) {
                    let k = choose|k: int|
                        0 <= k < d.len() && (#[trigger] d[k]).usable() is Some
                            && d[k].usable().unwrap().has(x);
                    if k < i {
                        assert(descriptors@.take(i as int)[k] == d[k]);
                        assert(usable_addrs(descriptors@.take(i as int)).contains(x));
                    }
                }
                if before.contains(x) {
                    let k = choose|k: int|
                        0 <= k < i && (#[trigger] descriptors@.take(i as int)[k]).usable() is Some
                            && descriptors@.take(i as int)[k].usable().unwrap().has(x);
                    assert(d[k] == descriptors@.take(i as int)[k]);
                }
                if set.addrs().contains(x) && !before.contains(x) {
                    assert(d[i as int] == descriptors@[i as int]);
                }
            }
            assert(set.addrs() =~= usable_addrs(d));
            assert(d.drop_last() =~= descriptors@.take(i as int));
            assert(d.last() == descriptors@[i as int]);
        }
        i += 1;
    }
    proof {
        assert(descriptors@.take(i as int) =~= descriptors@);
    }
    let ghost usable = set.addrs();
    let mut j: usize = 0;
    while j < reserved.len()
        invariant
            set.wf(),
            j <= reserved@.len(),
            usable == usable_addrs(descriptors@),
            set.addrs() == usable.difference(union_of(reserved@.take(j as int))),
            set@.len() <= usable_count(descriptors@) + j,
            forall|k: int| 0 <= k < j ==> #[trigger] reserved@[k].valid(),
        decreases reserved@.len() - j,
    {
        let ghost before = set.addrs();
        match set.discard(&reserved[j]) {
            Ok(()) => {},
            Err(e) => {
                proof {
                    if forall|i: int| 0 <= i < reserved@.len() ==> #[trigger] reserved@[i].valid() {
                        assert(reserved@[j as int].valid());
                        assert(e == SetError::CapacityExhausted);
                    }
                }
                return Err(e);
            },
        }
        proof {
            let d = reserved@.take(j + 1);
            assert forall|x: int| #[trigger]
                set.addrs().contains(x) == usable.difference(union_of(d)).contains(x) by {
                if union_of(d).contains(x) {
                    let k = choose|k: int| 0 <= k < d.len() && (#[trigger] d[k]).has(x);
                    if k < j {
                        assert(reserved@.take(j as int)[k] == d[k]);
                        assert(union_of(reserved@.take(j as int)).contains(x));
                    } else {
                        assert(d[k] == reserved@[j as int]);
                    }
                }
                if union_of(reserved@.take(j as int)).contains(x) {
                    let k = choose|k: int|
                        0 <= k < j && (#[trigger] reserved@.take(j as int)[k]).has(x);
                    assert(d[k] == reserved@.take(j as int)[k]);
                }
                if reserved@[j as int].has(x) {
                    assert(d[j as int] == reserved@[j as int]);
                }
            }
            assert(set.addrs() =~= usable.difference(union_of(d)));
        }
        j += 1;
    }
    proof {
        assert(reserved@.take(j as int) =~= reserved@);
    }
    Ok(Mmu::new(set))
}

} // verus!
