//! The address space the loader hands to the kernel: an identity map of low memory, the
//! kernel's sections, and a stack.
use crate::frame::AddressTranslate;
use crate::paging::{
    chunk, lemma_bits_present, lemma_present_entry, lemma_clean_walk, blocked, clear_of, page_at, PAGE_TABLE_SIZE, indices, needs_node, present, zero_bytes, MapError, PageSize, PhysicalAddress, VirtualAddress, PAGE_PRESENT,
    PAGE_USER, PAGE_WRITE, PML4, RWX,
};
use vstd::prelude::*;

verus! {

/// The end of the identity map: the first 4 GiB.
pub const IDENTITY_LIMIT: u64 = 0x1_0000_0000;

/// Where the kernel's stack starts.
pub const STACK_BASE: u64 = 0xb00_0000_0000;

/// The size of the kernel's stack in bytes.
pub const STACK_SIZE: usize = 8192;

/// The end of the lower half of the address space, which the table indices cover.
pub const LOWER_HALF_END: u64 = 0x8000_0000_0000;

/// One section of the kernel image: the virtual address it goes to and the bytes it holds.
pub struct Section {
    pub base: u64,
    pub bytes: Vec<u8>,
}

/// What the switch into long mode needs.
#[derive(Clone, Copy, Debug, PartialEq, Eq, Structural)]
pub struct Handoff {
    /// The root of the page table.
    pub cr3: PhysicalAddress,
    /// The top of the kernel's stack.
    pub stack_top: u64,
    /// Where the kernel starts.
    pub entry_point: u64,
}

/// Distinct page-aligned addresses of the lower half have distinct table indices.
proof fn lemma_distinct_pages(p: u64, q: u64)
    requires
        p % 4096 == 0,
        q % 4096 == 0,
        p < LOWER_HALF_END,
        q < LOWER_HALF_END,
        p != q,
    ensures
        indices(p, PageSize::Page4Kb) != indices(q, PageSize::Page4Kb),
{
    assert(p & 0xfff == 0 && q & 0xfff == 0) by (bit_vector)
        requires
            p % 4096 == 0,
            q % 4096 == 0,
    ;
    assert(((p >> 39u64) & 0x1ffu64) != ((q >> 39u64) & 0x1ffu64) || ((p >> 30u64) & 0x1ffu64) != ((
    q >> 30u64) & 0x1ffu64) || ((p >> 21u64) & 0x1ffu64) != ((q >> 21u64) & 0x1ffu64) || ((p
        >> 12u64) & 0x1ffu64) != ((q >> 12u64) & 0x1ffu64)) by (bit_vector)
        requires
            p & 0xfff == 0,
            q & 0xfff == 0,
            p < 0x8000_0000_0000,
            q < 0x8000_0000_0000,
            p != q,
    ;
    if indices(p, PageSize::Page4Kb) == indices(q, PageSize::Page4Kb) {
        assert(indices(p, PageSize::Page4Kb)[0] == indices(q, PageSize::Page4Kb)[0]);
        assert(indices(p, PageSize::Page4Kb)[1] == indices(q, PageSize::Page4Kb)[1]);
        assert(indices(p, PageSize::Page4Kb)[2] == indices(q, PageSize::Page4Kb)[2]);
        assert(indices(p, PageSize::Page4Kb)[3] == indices(q, PageSize::Page4Kb)[3]);
    }
}

/// Every 4 KiB page below `limit` already has the nodes its walk needs, and no walk is blocked,
/// so mapping them takes nothing from the capability.
pub open spec fn walks_ready<A: AddressTranslate>(t: PML4<A>, limit: u64) -> bool {
    forall|q: u64|
        q < limit && q % 4096 == 0 ==> {
            &&& !#[trigger] blocked(t.entries(), t.tables(), t.root(), 0, indices(q, PageSize::Page4Kb))
            &&& !needs_node(t.entries(), t.tables(), t.root(), 0, indices(q, PageSize::Page4Kb))
        }
}

/// The number of 4 KiB pages that start below `limit`.
pub open spec fn page_count(limit: u64) -> nat {
    ((limit + 4095) / 4096) as nat
}

proof fn lemma_identity_room(done: nat, limit: u64)
    requires
        4096 * done < limit,
    ensures
        done + 1 <= page_count(limit),
{
    let c = (limit + 4095) / 4096;
    vstd::arithmetic::div_mod::lemma_fundamental_div_mod(limit + 4095, 4096);
    assert(done + 1 <= c) by (nonlinear_arith)
        requires
            limit + 4095 == 4096 * c + (limit + 4095) % 4096,
            0 <= (limit + 4095) % 4096 < 4096,
            4096 * done < limit,
    ;
}

proof fn lemma_identity_done(done: nat, limit: u64)
    requires
        4096 * done >= limit,
        done == 0 || 4096 * (done - 1) < limit,
    ensures
        done == page_count(limit),
{
    let c = (limit + 4095) / 4096;
    vstd::arithmetic::div_mod::lemma_fundamental_div_mod(limit + 4095, 4096);
    assert(done == c) by (nonlinear_arith)
        requires
            limit + 4095 == 4096 * c + (limit + 4095) % 4096,
            0 <= (limit + 4095) % 4096 < 4096,
            4096 * done >= limit,
            done == 0 || 4096 * (done - 1) < limit,
            limit >= 0,
    ;
}

/// Maps every 4 KiB page below `limit` to the frame at the same address, present, writable
/// and user-accessible.
pub fn identity_map<A: AddressTranslate>(pml4: &mut PML4<A>, limit: u64) -> (r: Result<(), MapError>)
    requires
        old(pml4).wf(),
        limit <= LOWER_HALF_END,
    ensures
        final(pml4).wf(),
        final(pml4).root() == old(pml4).root(),
        r is Ok ==> forall|p: u64|
            p < limit && p % 4096 == 0 ==> #[trigger] final(pml4).leaf(p, PageSize::Page4Kb) == Some(
                p | PAGE_PRESENT | PAGE_WRITE | PAGE_USER,
            ),
        r matches Err(e) ==> e == MapError::OutOfMemory || e is PagePointerZero,
        limit == 0 ==> r is Ok && *final(pml4) == *old(pml4),
        PML4::<A>::unblocked(*old(pml4), PageSize::Page4Kb) && old(pml4).capability().supplies(
            3 * page_count(limit),
            PAGE_TABLE_SIZE,
        ) ==> r is Ok,
        r is Ok && PML4::<A>::unblocked(*old(pml4), PageSize::Page4Kb) ==> PML4::<A>::unblocked(
            *final(pml4),
            PageSize::Page4Kb,
        ),
        r is Ok ==> forall|m: nat|
            m >= 3 * page_count(limit) && #[trigger] old(pml4).capability().supplies(
                m,
                PAGE_TABLE_SIZE,
            ) ==> final(pml4).capability().supplies((m - 3 * page_count(limit)) as nat, PAGE_TABLE_SIZE),
        walks_ready(*old(pml4), limit) ==> r is Ok && final(pml4).tables() == old(pml4).tables()
            && final(pml4).capability() == old(pml4).capability(),
        r matches Err(MapError::PagePointerZero(_)) ==> exists|q: u64|
            q < limit && q % 4096 == 0 && #[trigger] blocked(
                old(pml4).entries(),
                old(pml4).tables(),
                old(pml4).root(),
                0,
                indices(q, PageSize::Page4Kb),
            ),
{
    let mut p: u64 = 0;
    let ghost mut done: nat = 0;
    while p < limit
        invariant
            pml4.wf(),
            pml4.root() == old(pml4).root(),
            limit <= LOWER_HALF_END,
            p % 4096 == 0,
            p <= limit + 4095,
            p == 0 ==> *pml4 == *old(pml4),
            p == 4096 * done,
            PML4::<A>::unblocked(*old(pml4), PageSize::Page4Kb) ==> PML4::<A>::unblocked(
                *pml4,
                PageSize::Page4Kb,
            ),
            forall|m: nat|
                m >= 3 * page_count(limit) && #[trigger] old(pml4).capability().supplies(
                    m,
                    PAGE_TABLE_SIZE,
                ) ==> pml4.capability().supplies((m - 3 * done) as nat, PAGE_TABLE_SIZE),
            forall|q: u64|
                #[trigger] blocked(
                    pml4.entries(),
                    pml4.tables(),
                    pml4.root(),
                    0,
                    indices(q, PageSize::Page4Kb),
                ) ==> blocked(
                    old(pml4).entries(),
                    old(pml4).tables(),
                    old(pml4).root(),
                    0,
                    indices(q, PageSize::Page4Kb),
                ),
            walks_ready(*old(pml4), limit) ==> walks_ready(*pml4, limit) && pml4.tables() == old(
                pml4,
            ).tables() && pml4.capability() == old(pml4).capability(),
            forall|q: u64|
                q < p && q % 4096 == 0 ==> #[trigger] pml4.leaf(q, PageSize::Page4Kb) == Some(
                    q | PAGE_PRESENT | PAGE_WRITE | PAGE_USER,
                ),
        decreases limit + 4096 - p,
    {
        let ghost before = *pml4;
        let raw = p | PAGE_PRESENT | PAGE_WRITE | PAGE_USER;
        proof {
            lemma_identity_room(done, limit);
            if PML4::<A>::unblocked(*old(pml4), PageSize::Page4Kb) && old(pml4).capability().supplies(
                3 * page_count(limit),
                PAGE_TABLE_SIZE,
            ) {
                assert(!blocked(
                    pml4.entries(),
                    pml4.tables(),
                    pml4.root(),
                    0,
                    indices(p, PageSize::Page4Kb),
                ));
                assert(pml4.capability().supplies((3 * page_count(limit) - 3 * done) as nat, PAGE_TABLE_SIZE));
                pml4.capability().lemma_supplies_fewer(
                    (3 * page_count(limit) - 3 * done) as nat,
                    3,
                    PAGE_TABLE_SIZE,
                );
            }
            if walks_ready(*old(pml4), limit) || PML4::<A>::unblocked(*old(pml4), PageSize::Page4Kb) {
                lemma_clean_walk(
                    pml4.entries(),
                    pml4.tables(),
                    pml4.capability().free_addrs(),
                    pml4.root(),
                    0,
                    indices(p, PageSize::Page4Kb),
                );
            }
            if walks_ready(*old(pml4), limit) {
                assert(!blocked(
                    pml4.entries(),
                    pml4.tables(),
                    pml4.root(),
                    0,
                    indices(p, PageSize::Page4Kb),
                ));
            }
        }
        match pml4.map_page(VirtualAddress(p), raw, PageSize::Page4Kb) {
            Ok(()) => {},
            Err(e) => {
                proof {
                    if e is PagePointerZero {
                        if !blocked(
                            before.entries(),
                            before.tables(),
                            before.root(),
                            0,
                            indices(p, PageSize::Page4Kb),
                        ) {
                            lemma_clean_walk(
                                before.entries(),
                                before.tables(),
                                before.capability().free_addrs(),
                                before.root(),
                                0,
                                indices(p, PageSize::Page4Kb),
                            );
                        }
                        assert(blocked(
                            before.entries(),
                            before.tables(),
                            before.root(),
                            0,
                            indices(p, PageSize::Page4Kb),
                        ));
                    }
                }
                return Err(e);
            },
        }
        proof {
            if PML4::<A>::unblocked(*old(pml4), PageSize::Page4Kb) {
                assert forall|u: u64|
                    !blocked(
                        pml4.entries(),
                        pml4.tables(),
                        pml4.root(),
                        0,
                        #[trigger] indices(u, PageSize::Page4Kb),
                    ) by {
                    assert(!blocked(
                        before.entries(),
                        before.tables(),
                        before.root(),
                        0,
                        indices(u, PageSize::Page4Kb),
                    ));
                    PML4::<A>::lemma_mapping_adds_no_block(
                        before,
                        *pml4,
                        VirtualAddress(p),
                        raw,
                        PageSize::Page4Kb,
                        u,
                    );
                }
            }
            assert forall|m: nat|
                m >= 3 * page_count(limit) && #[trigger] old(pml4).capability().supplies(
                    m,
                    PAGE_TABLE_SIZE,
                ) implies pml4.capability().supplies((m - 3 * (done + 1)) as nat, PAGE_TABLE_SIZE) by {
                assert(before.capability().supplies((m - 3 * done) as nat, PAGE_TABLE_SIZE));
            }
            assert forall|q: u64|
                #[trigger] blocked(
                    pml4.entries(),
                    pml4.tables(),
                    pml4.root(),
                    0,
                    indices(q, PageSize::Page4Kb),
                ) implies blocked(
                old(pml4).entries(),
                old(pml4).tables(),
                old(pml4).root(),
                0,
                indices(q, PageSize::Page4Kb),
            ) by {
                if !blocked(
                    before.entries(),
                    before.tables(),
                    before.root(),
                    0,
                    indices(q, PageSize::Page4Kb),
                ) {
                    PML4::<A>::lemma_mapping_adds_no_block(
                        before,
                        *pml4,
                        VirtualAddress(p),
                        raw,
                        PageSize::Page4Kb,
                        q,
                    );
                }
            }
        }
        proof {
            if walks_ready(*old(pml4), limit) {
                assert(walks_ready(before, limit));
                assert(!needs_node(
                    before.entries(),
                    before.tables(),
                    before.root(),
                    0,
                    indices(p, PageSize::Page4Kb),
                )) by {
                    assert(!blocked(
                        before.entries(),
                        before.tables(),
                        before.root(),
                        0,
                        indices(p, PageSize::Page4Kb),
                    ));
                }
                assert(pml4.tables() == before.tables());
                assert(pml4.capability() == before.capability());
                assert forall|q: u64| q < limit && q % 4096 == 0 implies {
                    &&& !#[trigger] blocked(
                        pml4.entries(),
                        pml4.tables(),
                        pml4.root(),
                        0,
                        indices(q, PageSize::Page4Kb),
                    )
                    &&& !needs_node(
                        pml4.entries(),
                        pml4.tables(),
                        pml4.root(),
                        0,
                        indices(q, PageSize::Page4Kb),
                    )
                } by {
                    assert(!blocked(
                        before.entries(),
                        before.tables(),
                        before.root(),
                        0,
                        indices(q, PageSize::Page4Kb),
                    ));
                    PML4::<A>::lemma_leaf_write_keeps_walks(before, *pml4, VirtualAddress(p), raw, q);
                }
                assert(walks_ready(*pml4, limit));
                assert(pml4.tables() == old(pml4).tables());
                assert(pml4.capability() == old(pml4).capability());
            }
        }
        proof {
            assert forall|q: u64|
                q < p + 4096 && q % 4096 == 0 implies #[trigger] pml4.leaf(q, PageSize::Page4Kb)
                == Some(q | PAGE_PRESENT | PAGE_WRITE | PAGE_USER) by {
                if q < p {
                    lemma_distinct_pages(q, p);
                    assert(present(q | PAGE_PRESENT | PAGE_WRITE | PAGE_USER)) by {
                        assert((q | 1u64 | 2u64 | 4u64) & 1 == 1) by (bit_vector);
                    }
                    PML4::<A>::lemma_mapping_keeps_other_pages(
                        before,
                        *pml4,
                        VirtualAddress(p),
                        raw,
                        PageSize::Page4Kb,
                        q,
                    );
                }
            }
        }
        p = p + 4096;
        proof {
            done = done + 1;
        }
    }
    proof {
        lemma_identity_done(done, limit);
        assert forall|m: nat|
            m >= 3 * page_count(limit) && #[trigger] old(pml4).capability().supplies(
                m,
                PAGE_TABLE_SIZE,
            ) implies pml4.capability().supplies((m - 3 * page_count(limit)) as nat, PAGE_TABLE_SIZE) by {
            assert(pml4.capability().supplies((m - 3 * done) as nat, PAGE_TABLE_SIZE));
        }
    }
    Ok(())
}

/// Page `k` of section `i` exists: it starts before the end of the section's bytes (an empty
/// section has one page).
pub open spec fn section_covers(sections: Seq<Section>, i: int, k: int) -> bool {
    0 <= k && k * 4096 < (if sections[i].bytes@.len() == 0 {
        1
    } else {
        sections[i].bytes@.len() as int
    })
}

/// The virtual address of page `k` of section `i`.
pub open spec fn section_page(sections: Seq<Section>, i: int, k: int) -> u64 {
    page_at(sections[i].base, k, 4096)
}

/// No later page of section `i`, and no page of the sections after it up to `upto`, has the
/// table indices of page `k` of section `i`.
pub open spec fn section_page_kept(sections: Seq<Section>, i: int, k: int, upto: int) -> bool {
    &&& forall|j: int|
        k < j && section_covers(sections, i, j) ==> indices(
            #[trigger] page_at(sections[i].base, j, 4096),
            PageSize::Page4Kb,
        ) != indices(section_page(sections, i, k), PageSize::Page4Kb)
    &&& forall|m: int|
        i < m < upto ==> clear_of(
            section_page(sections, i, k),
            #[trigger] sections[m].base,
            sections[m].bytes@.len() as int,
            PageSize::Page4Kb,
        )
}

/// In `t`, page `k` of section `i` maps, readable, writable and executable, to a frame that
/// holds the page's bytes.
pub open spec fn section_page_mapped<A: AddressTranslate>(t: PML4<A>, sections: Seq<Section>, i: int, k: int) -> bool {
    exists|f: u64|
        #[trigger] t.frame_data().contains_key(f) && t.frame_data()[f] == chunk(
            sections[i].bytes@,
            k,
            4096,
        ) && t.leaf(section_page(sections, i, k), PageSize::Page4Kb) == Some(
            f | (RWX { read: true, write: true, execute: true }).bits(),
        )
}

/// Of `n` pages for `covered` bytes, page `j` exists exactly when it starts before the end.
proof fn lemma_page_index(n: int, covered: int, j: int)
    requires
        n >= 1,
        (n - 1) * 4096 < covered,
        covered <= n * 4096,
        0 <= j,
    ensures
        j < n <==> j * 4096 < covered,
{
    if j < n {
        assert(j * 4096 <= (n - 1) * 4096) by (nonlinear_arith)
            requires
                j <= n - 1,
        ;
    } else {
        assert(j * 4096 >= n * 4096) by (nonlinear_arith)
            requires
                j >= n,
        ;
    }
}

/// The most blocks mapping `sections` can take: four for each page of each section.
pub open spec fn section_blocks(sections: Seq<Section>) -> nat
    decreases sections.len(),
{
    if sections.len() == 0 {
        0
    } else {
        (4 * (sections[0].bytes@.len() / 4096 + 1) + section_blocks(sections.drop_first())) as nat
    }
}

/// The most page-sized blocks `build_address_space` takes: the root, three for each page of the
/// identity map, the sections, and the stack.
pub open spec fn blocks_needed(sections: Seq<Section>) -> nat {
    (1 + 3 * page_count(IDENTITY_LIMIT) + section_blocks(sections) + 4 * (STACK_SIZE / 4096 + 1)) as nat
}

/// Every section starts on a page and ends within the address space.
pub open spec fn sections_fit(sections: Seq<Section>) -> bool {
    forall|i: int|
        0 <= i < sections.len() ==> (#[trigger] sections[i]).base % 4096 == 0 && (
        sections[i].bytes@.len() == 0 || sections[i].base + sections[i].bytes@.len() - 1
            <= u64::MAX)
}

/// Builds the kernel's address space from the memory that `mem` supplies: an identity map of
/// the first 4 GiB, each section of `sections` at its base (readable, writable and
/// executable), and a zero-filled stack of `STACK_SIZE` bytes at `STACK_BASE` (readable and
/// writable). Returns the table with what the mode switch needs.
pub fn build_address_space<A: AddressTranslate>(mem: A, sections: &[Section], entry_point: u64) -> (r:
    Result<(PML4<A>, Handoff), MapError>)
    requires
        mem.inv(),
    ensures
        sections_fit(sections@) && mem.supplies(blocks_needed(sections@), PAGE_TABLE_SIZE) ==> r is Ok,
        r matches Err(e) ==> e == MapError::OutOfMemory || e is PagePointerZero || e
            == MapError::RangeOverflow || exists|i: int|
            0 <= i < sections@.len() && sections@[i].base % 4096 != 0 && e
                == MapError::AddressUnaligned(VirtualAddress(#[trigger] sections@[i].base), 4096),
        r matches Ok((t, h)) ==> {
            &&& t.wf()
            &&& forall|p: u64|
                p < IDENTITY_LIMIT && p % 4096 == 0 && (forall|i: int|
                    0 <= i < sections@.len() ==> clear_of(
                        p,
                        #[trigger] sections@[i].base,
                        sections@[i].bytes@.len() as int,
                        PageSize::Page4Kb,
                    )) && clear_of(p, STACK_BASE, STACK_SIZE as int, PageSize::Page4Kb)
                    ==> #[trigger] t.leaf(p, PageSize::Page4Kb) == Some(
                    p | PAGE_PRESENT | PAGE_WRITE | PAGE_USER,
                )
            &&& forall|i: int, k: int|
                0 <= i < sections@.len() && section_covers(sections@, i, k) && section_page_kept(
                    sections@,
                    i,
                    k,
                    sections@.len() as int,
                ) && clear_of(
                    section_page(sections@, i, k),
                    STACK_BASE,
                    STACK_SIZE as int,
                    PageSize::Page4Kb,
                ) ==> #[trigger] section_page_mapped(t, sections@, i, k)
            &&& h.cr3.0 == t.root()
            &&& h.stack_top == STACK_BASE + STACK_SIZE
            &&& h.entry_point == entry_point
            &&& exists|before: PML4<A>, fs: Seq<u64>|
                #[trigger] PML4::<A>::slice_mapped(
                    before,
                    t,
                    STACK_BASE,
                    zero_bytes(STACK_SIZE as nat),
                    PageSize::Page4Kb,
                    RWX { read: true, write: true, execute: false },
                    fs,
                )
        },
{
    let ghost promised = sections_fit(sections@) && mem.supplies(
        blocks_needed(sections@),
        PAGE_TABLE_SIZE,
    );
    let ghost stack_blocks: nat = 4 * (STACK_SIZE / 4096 + 1) as nat;
    proof {
        if promised {
            mem.lemma_supplies_fewer(blocks_needed(sections@), 1, PAGE_TABLE_SIZE);
        }
    }
    let mut pml4 = match PML4::new(mem) {
        Some(t) => t,
        None => return Err(MapError::OutOfMemory),
    };
    proof {
        if promised {
            assert(pml4.capability().supplies((blocks_needed(sections@) - 1) as nat, PAGE_TABLE_SIZE));
            pml4.capability().lemma_supplies_fewer(
                (blocks_needed(sections@) - 1) as nat,
                3 * page_count(IDENTITY_LIMIT),
                PAGE_TABLE_SIZE,
            );
        }
    }
    identity_map(&mut pml4, IDENTITY_LIMIT)?;
    proof {
        if promised {
            assert(pml4.capability().supplies(
                (blocks_needed(sections@) - 1 - 3 * page_count(IDENTITY_LIMIT)) as nat,
                PAGE_TABLE_SIZE,
            ));
            assert(sections@.subrange(0, sections@.len() as int) =~= sections@);
        }
    }
    let code = RWX { read: true, write: true, execute: true };
    let mut i: usize = 0;
    while i < sections.len()
        invariant
            pml4.wf(),
            i <= sections@.len(),
            promised == (sections_fit(sections@) && mem.supplies(
                blocks_needed(sections@),
                PAGE_TABLE_SIZE,
            )),
            stack_blocks == 4 * (STACK_SIZE / 4096 + 1),
            promised ==> PML4::<A>::unblocked(pml4, PageSize::Page4Kb) && pml4.capability().supplies(
                section_blocks(sections@.subrange(i as int, sections@.len() as int)) + stack_blocks,
                PAGE_TABLE_SIZE,
            ),
            forall|p: u64|
                p < IDENTITY_LIMIT && p % 4096 == 0 && (forall|j: int|
                    0 <= j < i ==> clear_of(
                        p,
                        #[trigger] sections@[j].base,
                        sections@[j].bytes@.len() as int,
                        PageSize::Page4Kb,
                    )) ==> #[trigger] pml4.leaf(p, PageSize::Page4Kb) == Some(
                    p | PAGE_PRESENT | PAGE_WRITE | PAGE_USER,
                ),
            code == (RWX { read: true, write: true, execute: true }),
            forall|i2: int, k: int|
                0 <= i2 < i && section_covers(sections@, i2, k) && section_page_kept(
                    sections@,
                    i2,
                    k,
                    i as int,
                ) ==> #[trigger] section_page_mapped(pml4, sections@, i2, k),
        decreases sections.len() - i,
    {
        let ghost before_section = pml4;
        let ghost rest = sections@.subrange(i as int, sections@.len() as int);
        let ghost need = (4 * (sections@[i as int].bytes@.len() / 4096 + 1)) as nat;
        proof {
            assert(rest[0] == sections@[i as int]);
            assert(rest.drop_first() =~= sections@.subrange(i + 1, sections@.len() as int));
            if promised {
                assert(sections@[i as int].base % 4096 == 0);
                assert forall|k: int|
                    0 <= k && k * 4096 < (if sections@[i as int].bytes@.len() == 0 {
                        1
                    } else {
                        sections@[i as int].bytes@.len() as int
                    }) implies !blocked(
                    pml4.entries(),
                    pml4.tables(),
                    pml4.root(),
                    0,
                    indices(#[trigger] page_at(sections@[i as int].base, k, 4096), PageSize::Page4Kb),
                ) by {
                    assert(!blocked(
                        pml4.entries(),
                        pml4.tables(),
                        pml4.root(),
                        0,
                        indices(page_at(sections@[i as int].base, k, 4096), PageSize::Page4Kb),
                    ));
                }
                pml4.capability().lemma_supplies_fewer(
                    section_blocks(rest) + stack_blocks,
                    need,
                    PAGE_TABLE_SIZE,
                );
            }
        }
        let bytes = sections[i].bytes.as_slice();
        match pml4.map_slice(
            VirtualAddress(sections[i].base),
            bytes,
            PageSize::Page4Kb,
            code,
        ) {
            Ok(()) => {},
            Err(e) => {
                proof {
                    if e == MapError::AddressUnaligned(VirtualAddress(sections@[i as int].base), 4096) {
                        assert(sections@[i as int].base % 4096 != 0);
                    }
                }
                return Err(e);
            },
        }
        proof {
            let data = sections@[i as int].bytes@;
            let fs = choose|fs: Seq<u64>|
                #[trigger] PML4::<A>::slice_mapped(
                    before_section,
                    pml4,
                    sections@[i as int].base,
                    data,
                    PageSize::Page4Kb,
                    code,
                    fs,
                );
            lemma_bits_present(code);
            assert forall|i2: int, k: int|
                0 <= i2 < i + 1 && section_covers(sections@, i2, k) && section_page_kept(
                    sections@,
                    i2,
                    k,
                    i + 1,
                ) implies #[trigger] section_page_mapped(pml4, sections@, i2, k) by {
                if i2 < i {
                    assert(section_page_mapped(before_section, sections@, i2, k));
                    let f = choose|f: u64|
                        #[trigger] before_section.frame_data().contains_key(f)
                            && before_section.frame_data()[f] == chunk(sections@[i2].bytes@, k, 4096)
                            && before_section.leaf(section_page(sections@, i2, k), PageSize::Page4Kb)
                            == Some(f | code.bits());
                    lemma_present_entry(f, code.bits());
                    assert(clear_of(
                        section_page(sections@, i2, k),
                        sections@[i as int].base,
                        data.len() as int,
                        PageSize::Page4Kb,
                    ));
                    assert(pml4.leaf(section_page(sections@, i2, k), PageSize::Page4Kb) == Some(
                        f | code.bits(),
                    ));
                    assert(pml4.frame_data().contains_key(f));
                } else {
                    let n = fs.len() as int;
                    let covered = if data.len() == 0 {
                        1
                    } else {
                        data.len() as int
                    };
                    lemma_page_index(n, covered, k);
                    assert forall|j: int| k < j < n implies indices(
                        page_at(sections@[i as int].base, k, 4096),
                        PageSize::Page4Kb,
                    ) != indices(
                        #[trigger] page_at(sections@[i as int].base, j, 4096),
                        PageSize::Page4Kb,
                    ) by {
                        lemma_page_index(n, covered, j);
                        assert(section_covers(sections@, i as int, j));
                    }
                    assert(fs[k] == fs[k]);
                    assert(pml4.frame_data().contains_key(fs[k]));
                }
            }
            if promised {
                assert(pml4.capability().supplies(
                    (section_blocks(rest) + stack_blocks - need) as nat,
                    PAGE_TABLE_SIZE,
                ));
            }
            assert forall|p: u64|
                p < IDENTITY_LIMIT && p % 4096 == 0 && (forall|j: int|
                    0 <= j < i + 1 ==> clear_of(
                        p,
                        #[trigger] sections@[j].base,
                        sections@[j].bytes@.len() as int,
                        PageSize::Page4Kb,
                    )) implies #[trigger] pml4.leaf(p, PageSize::Page4Kb) == Some(
                p | PAGE_PRESENT | PAGE_WRITE | PAGE_USER,
            ) by {
                assert(clear_of(
                    p,
                    sections@[i as int].base,
                    sections@[i as int].bytes@.len() as int,
                    PageSize::Page4Kb,
                ));
                assert(before_section.leaf(p, PageSize::Page4Kb) == Some(
                    p | PAGE_PRESENT | PAGE_WRITE | PAGE_USER,
                ));
                assert(present(p | PAGE_PRESENT | PAGE_WRITE | PAGE_USER)) by {
                    assert((p | 1u64 | 2u64 | 4u64) & 1 == 1) by (bit_vector);
                }
            }
        }
        i += 1;
    }
    let stack = RWX { read: true, write: true, execute: false };
    let ghost before = pml4;
    proof {
        if promised {
            assert(sections@.subrange(i as int, sections@.len() as int).len() == 0);
            assert forall|k: int|
                0 <= k && k * 4096 < STACK_SIZE as int implies !blocked(
                pml4.entries(),
                pml4.tables(),
                pml4.root(),
                0,
                indices(#[trigger] page_at(STACK_BASE, k, 4096), PageSize::Page4Kb),
            ) by {
                assert(!blocked(
                    pml4.entries(),
                    pml4.tables(),
                    pml4.root(),
                    0,
                    indices(page_at(STACK_BASE, k, 4096), PageSize::Page4Kb),
                ));
            }
        }
    }
    pml4.map_zero(VirtualAddress(STACK_BASE), STACK_SIZE, PageSize::Page4Kb, stack)?;
    proof {
        assert forall|p: u64|
            p < IDENTITY_LIMIT && p % 4096 == 0 && (forall|i: int|
                0 <= i < sections@.len() ==> clear_of(
                    p,
                    #[trigger] sections@[i].base,
                    sections@[i].bytes@.len() as int,
                    PageSize::Page4Kb,
                )) && clear_of(p, STACK_BASE, STACK_SIZE as int, PageSize::Page4Kb)
                implies #[trigger] pml4.leaf(p, PageSize::Page4Kb) == Some(
            p | PAGE_PRESENT | PAGE_WRITE | PAGE_USER,
        ) by {
            assert(before.leaf(p, PageSize::Page4Kb) == Some(p | PAGE_PRESENT | PAGE_WRITE | PAGE_USER));
            assert(present(p | PAGE_PRESENT | PAGE_WRITE | PAGE_USER)) by {
                assert((p | 1u64 | 2u64 | 4u64) & 1 == 1) by (bit_vector);
            }
        }
        lemma_bits_present(code);
        assert forall|i2: int, k: int|
            0 <= i2 < sections@.len() && section_covers(sections@, i2, k) && section_page_kept(
                sections@,
                i2,
                k,
                sections@.len() as int,
            ) && clear_of(
                section_page(sections@, i2, k),
                STACK_BASE,
                STACK_SIZE as int,
                PageSize::Page4Kb,
            ) implies #[trigger] section_page_mapped(pml4, sections@, i2, k) by {
            assert(section_page_mapped(before, sections@, i2, k));
            let f = choose|f: u64|
                #[trigger] before.frame_data().contains_key(f) && before.frame_data()[f] == chunk(
                    sections@[i2].bytes@,
                    k,
                    4096,
                ) && before.leaf(section_page(sections@, i2, k), PageSize::Page4Kb) == Some(
                    f | code.bits(),
                );
            lemma_present_entry(f, code.bits());
            assert(pml4.frame_data().contains_key(f));
        }
    }
    let handoff = Handoff {
        cr3: pml4.cr3(),
        stack_top: STACK_BASE + STACK_SIZE as u64,
        entry_point,
    };
    Ok((pml4, handoff))
}

} // verus!
