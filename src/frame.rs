//! The frame allocator: the one owner of the physical memory not yet handed to anyone.
use crate::paging::PhysicalAddress;
use crate::range::{
    allocation, apart, covered, covers, first_fit, fits, is_pow2, span, well_formed,
    ClosedRange, RangeSet, SetError,
};
use vstd::prelude::*;

verus! {

/// The end of the physical addresses that a page-table entry can hold (bits 12 to 51).
pub const ADDRESS_LIMIT: u64 = 0x10_0000_0000_0000;

/// A source of physical memory for building page tables.
pub trait AddressTranslate {
    /// The capability's own invariant, kept by every call.
    spec fn inv(&self) -> bool;

    /// The addresses not yet handed out.
    spec fn free_addrs(&self) -> Set<int>;

    /// Where `translate` finds the `size` bytes at `physical_address`, if it can reach them.
    spec fn translation(&self, physical_address: u64, size: usize) -> Option<usize>;

    /// The capability can hand out `count` more blocks of `size` bytes aligned to `size`, each
    /// below `ADDRESS_LIMIT`.
    spec fn supplies(&self, count: nat, size: u64) -> bool;

    /// A capability that can hand out some blocks can hand out fewer.
    proof fn lemma_supplies_fewer(&self, count: nat, fewer: nat, size: u64)
        requires
            self.supplies(count, size),
            fewer <= count,
        ensures
            self.supplies(fewer, size),
    ;

    /// The capability can serve `count` more requests, each for a block of `size` bytes or a
    /// 4096-byte block, aligned to its size and below `ADDRESS_LIMIT`.
    spec fn supplies_mixed(&self, count: nat, size: u64) -> bool;

    /// A capability that can serve some requests can serve fewer.
    proof fn lemma_supplies_mixed_fewer(&self, count: nat, fewer: nat, size: u64)
        requires
            self.supplies_mixed(count, size),
            fewer <= count,
        ensures
            self.supplies_mixed(fewer, size),
    ;

    /// Hands out `size` bytes aligned to `align`, and returns where they start.
    fn alloc_block(&mut self, size: u64, align: u64) -> (r: Option<u64>)
        requires
            old(self).inv(),
        ensures
            final(self).inv(),
            final(self).free_addrs().subset_of(old(self).free_addrs()),
            r matches Some(a) ==> final(self).free_addrs() == old(self).free_addrs().difference(
                span(a as int, size as int),
            ),
            r is None ==> final(self).free_addrs() == old(self).free_addrs(),
            align == size && old(self).supplies(1, size) ==> (r matches Some(a) && a + size
                <= ADDRESS_LIMIT),
            forall|n: nat|
                align == size && n >= 1 && #[trigger] old(self).supplies(n, size) ==> final(self).supplies((n - 1) as nat, size),
            forall|n: nat, big: u64|
                align == size && (size == big || size == 4096) && n >= 1
                    && #[trigger] old(self).supplies_mixed(n, big) ==> (r matches Some(a) && a + size
                    <= ADDRESS_LIMIT) && final(self).supplies_mixed((n - 1) as nat, big),
            r matches Some(a) ==> {
                &&& align > 0
                &&& (a as int) % (align as int) == 0
                &&& span(a as int, size as int).subset_of(old(self).free_addrs())
                &&& final(self).free_addrs().disjoint(span(a as int, size as int))
            },
    ;

    /// Whether any of the `size` bytes at `start` is still free.
    fn holds_free(&self, start: u64, size: u64) -> (r: bool)
        requires
            self.inv(),
        ensures
            r == exists|x: int| span(start as int, size as int).contains(x) && #[trigger] self.free_addrs().contains(x),
    ;

    /// Where the `size` bytes at `physical_address` can be reached, if they can.
    fn translate(&self, physical_address: PhysicalAddress, size: usize) -> (r: Option<usize>)
        ensures
            r == self.translation(physical_address.0, size),
    ;
}

/// Hands out physical memory from the free ranges it owns.
pub struct Mmu {
    set: RangeSet,
}

impl View for Mmu {
    type V = Seq<ClosedRange>;

    closed spec fn view(&self) -> Seq<ClosedRange> {
        self.set@
    }
}

impl Mmu {
    pub open spec fn wf(&self) -> bool {
        well_formed(self@)
    }

    pub fn new(set: RangeSet) -> (r: Mmu)
        requires
            set.wf(),
        ensures
            r@ == set@,
            r.wf(),
    {
        Mmu { set }
    }

    /// The free ranges.
    pub fn ranges(&self) -> (r: &[ClosedRange])
        ensures
            r@ == self@,
    {
        self.set.ranges()
    }

    /// Hands out `size` bytes aligned to `align`, as `RangeSet::allocate` does.
    pub fn allocate(&mut self, size: u64, align: u64) -> (r: Option<usize>)
        requires
            old(self).wf(),
        ensures
            final(self).wf(),
            allocation(old(self)@, final(self)@, size, align, r),
    {
        self.set.allocate(size, align)
    }

    /// Gives the addresses of `range` back, merging them with free memory next to them.
    pub fn deallocate(&mut self, range: ClosedRange) -> (r: Result<(), SetError>)
        requires
            old(self).wf(),
        ensures
            final(self).wf(),
            r == Err::<(), SetError>(SetError::InvalidRange) <==> !range.valid(),
            r == Err::<(), SetError>(SetError::CapacityExhausted) <==> range.valid()
                && old(self)@.len() == crate::range::CAPACITY && forall|i: int|
                0 <= i < old(self)@.len() ==> !crate::range::touching(#[trigger] old(self)@[i], range),
            r != Err::<(), SetError>(SetError::Unsatisfiable),
            r.is_err() ==> final(self)@ == old(self)@,
            r.is_ok() ==> covered(final(self)@) == covered(old(self)@).union(range.addrs()),
    {
        self.set.insert(range)
    }
}

impl Mmu {
    /// Gives back the `size` bytes at `address` that an allocation handed out, the block
    /// ending at the top of the address space at the latest. Nothing happens for zero bytes.
    pub fn dealloc_block(&mut self, address: u64, size: u64) -> (r: Result<(), SetError>)
        requires
            old(self).wf(),
        ensures
            final(self).wf(),
            size == 0 ==> r is Ok && final(self)@ == old(self)@,
            size > 0 ==> {
                let end = if address + size - 1 > u64::MAX {
                    u64::MAX
                } else {
                    (address + size - 1) as u64
                };
                let block = ClosedRange { start: address, end };
                &&& r == Err::<(), SetError>(SetError::CapacityExhausted) <==> old(self)@.len()
                    == crate::range::CAPACITY && forall|i: int|
                    0 <= i < old(self)@.len() ==> !crate::range::touching(
                        #[trigger] old(self)@[i],
                        block,
                    )
                &&& r.is_err() ==> r == Err::<(), SetError>(SetError::CapacityExhausted)
                    && final(self)@ == old(self)@
                &&& r.is_ok() ==> covered(final(self)@) == covered(old(self)@).union(block.addrs())
            },
    {
        if size == 0 {
            return Ok(());
        }
        let end = if address > u64::MAX - (size - 1) {
            u64::MAX
        } else {
            address + (size - 1)
        };
        let block = ClosedRange::new(address, end);
        let r = self.deallocate(block);
        proof {
            match r {
                Err(e) => {
                    assert(e != SetError::InvalidRange);
                    assert(e != SetError::Unsatisfiable);
                    assert(e == SetError::CapacityExhausted);
                },
                Ok(()) => {},
            }
        }
        r
    }
}

/// Every run of `free` starts at a multiple of `size`.
pub open spec fn runs_aligned(free: Set<int>, size: u64) -> bool {
    forall|x: int| #[trigger] free.contains(x) && !free.contains(x - 1) ==> x % (size as int) == 0
}

/// `blocks` holds at least `count` distinct `size`-aligned addresses, each starting `size`
/// free addresses of `s`.
pub open spec fn free_blocks(s: Seq<ClosedRange>, blocks: Set<int>, count: nat, size: u64) -> bool {
    &&& blocks.finite()
    &&& blocks.len() >= count
    &&& forall|b: int| #[trigger]
        blocks.contains(b) ==> b % (size as int) == 0 && span(b, size as int).subset_of(covered(s))
}

/// A run of free addresses lies within one entry.
proof fn lemma_run_in_entry(s: Seq<ClosedRange>, b: int, size: int) -> (i: int)
    requires
        well_formed(s),
        size >= 1,
        span(b, size).subset_of(covered(s)),
    ensures
        0 <= i < s.len(),
        s[i].start <= b,
        b + size - 1 <= s[i].end,
{
    assert(span(b, size).contains(b));
    assert(covers(s, b));
    let i = choose|i: int| 0 <= i < s.len() && (#[trigger] s[i]).has(b);
    let e = s[i];
    if e.end < b + size - 1 {
        let x = e.end + 1;
        assert(span(b, size).contains(x));
        assert(covers(s, x));
        let j = choose|j: int| 0 <= j < s.len() && (#[trigger] s[j]).has(x);
        assert(j != i);
        assert(apart(s[i], s[j]));
    }
    i
}

/// An entry holding a free block fits an allocation of that size and alignment.
proof fn lemma_supply_fits(s: Seq<ClosedRange>, size: u64)
    requires
        well_formed(s),
        is_pow2(size),
        forall|x: int| #[trigger] covered(s).contains(x) ==> x < ADDRESS_LIMIT && x <= usize::MAX,
        exists|blocks: Set<int>| #[trigger] free_blocks(s, blocks, 1, size),
        runs_aligned(covered(s), size),
    ensures
        first_fit(s, size, size, 0) is Some,
        !crate::range::splits(s[first_fit(s, size, size, 0).unwrap()], size, size),
{
    let blocks = choose|blocks: Set<int>| #[trigger] free_blocks(s, blocks, 1, size);
    assert(blocks.len() > 0);
    let b = blocks.choose();
    assert(blocks.contains(b)) by {
        vstd::set_lib::lemma_set_empty_equivalency_len(blocks);
    }
    let i = lemma_run_in_entry(s, b, size as int);
    let e = s[i];
    assert(size > 0) by (bit_vector)
        requires
            size != 0,
    ;
    lemma_aligned_below(e.start as int, b, size as int);
    assert(span(b, size as int).contains(b + size - 1));
    assert(covered(s).contains(b + size - 1));
    assert(fits(e, size, size));
    lemma_first_fit_found(s, size, i, 0);
    let j = first_fit(s, size, size, 0).unwrap();
    lemma_first_fit_in_range(s, size, 0);
    lemma_entry_starts_run(s, j);
    assert(covered(s).contains(s[j].start as int)) by {
        assert(s[j].has(s[j].start as int));
    }
}

proof fn lemma_first_fit_in_range(s: Seq<ClosedRange>, size: u64, k: int)
    requires
        0 <= k,
    ensures
        first_fit(s, size, size, k) matches Some(j) ==> k <= j < s.len(),
    decreases s.len() - k,
{
    if k < s.len() && !fits(s[k], size, size) {
        lemma_first_fit_in_range(s, size, k + 1);
    }
}

/// The address below an entry is free in no entry.
proof fn lemma_entry_starts_run(s: Seq<ClosedRange>, j: int)
    requires
        well_formed(s),
        0 <= j < s.len(),
    ensures
        !covered(s).contains(s[j].start - 1),
{
    if covers(s, s[j].start - 1) {
        let k = choose|k: int| 0 <= k < s.len() && (#[trigger] s[k]).has(s[j].start - 1);
        assert(k != j);
        assert(apart(s[k], s[j]));
    }
}

/// The first multiple of `align` at or above `start` is at most any multiple at or above it.
proof fn lemma_aligned_below(start: int, b: int, align: int)
    requires
        0 <= start <= b,
        align > 0,
        b % align == 0,
    ensures
        (if start % align == 0 {
            start
        } else {
            start + (align - start % align)
        }) <= b,
{
    vstd::arithmetic::div_mod::lemma_fundamental_div_mod(start, align);
    vstd::arithmetic::div_mod::lemma_fundamental_div_mod(b, align);
    let q = start / align;
    let p = b / align;
    if start % align != 0 {
        assert(b >= align * q + align) by (nonlinear_arith)
            requires
                start == align * q + start % align,
                0 < start % align < align,
                b == align * p,
                start <= b,
        ;
    }
}

proof fn lemma_first_fit_found(s: Seq<ClosedRange>, size: u64, i: int, k: int)
    requires
        0 <= k <= i < s.len(),
        fits(s[i], size, size),
    ensures
        first_fit(s, size, size, k) is Some,
    decreases i - k,
{
    if k < i && !fits(s[k], size, size) {
        lemma_first_fit_found(s, size, i, k + 1);
    }
}

/// Blocks aligned to their size never partly overlap.
proof fn lemma_blocks_disjoint(a: int, b: int, size: int, x: int)
    requires
        size > 0,
        a % size == 0,
        b % size == 0,
        a != b,
        span(a, size).contains(x),
    ensures
        !span(b, size).contains(x),
{
    vstd::arithmetic::div_mod::lemma_fundamental_div_mod(a, size);
    vstd::arithmetic::div_mod::lemma_fundamental_div_mod(b, size);
    let p = a / size;
    let q = b / size;
    assert(p != q);
    if span(b, size).contains(x) {
        assert(false) by (nonlinear_arith)
            requires
                a == size * p,
                b == size * q,
                p != q,
                a <= x < a + size,
                b <= x < b + size,
                size > 0,
        ;
    }
}

/// After a block is handed out, one free block fewer remains.
proof fn lemma_supply_after(before: Seq<ClosedRange>, after: Seq<ClosedRange>, n: nat, size: u64, a: int)
    requires
        n >= 1,
        is_pow2(size),
        exists|blocks: Set<int>| #[trigger] free_blocks(before, blocks, n, size),
        a % (size as int) == 0,
        covered(after) == covered(before).difference(span(a, size as int)),
        runs_aligned(covered(before), size),
    ensures
        exists|blocks: Set<int>| #[trigger] free_blocks(after, blocks, (n - 1) as nat, size),
        runs_aligned(covered(after), size),
{
    let blocks = choose|blocks: Set<int>| #[trigger] free_blocks(before, blocks, n, size);
    assert(size > 0) by (bit_vector)
        requires
            size != 0,
    ;
    let drop = if blocks.contains(a) {
        a
    } else {
        assert(blocks.len() > 0);
        vstd::set_lib::lemma_set_empty_equivalency_len(blocks);
        blocks.choose()
    };
    let rest = blocks.remove(drop);
    assert forall|b: int| #[trigger] rest.contains(b) implies b % (size as int) == 0 && span(
        b,
        size as int,
    ).subset_of(covered(after)) by {
        assert(blocks.contains(b));
        assert forall|x: int| span(b, size as int).contains(x) implies covered(after).contains(x) by {
            assert(covered(before).contains(x));
            if b != a {
                lemma_blocks_disjoint(b, a, size as int, x);
            }
        }
    }
    assert(free_blocks(after, rest, (n - 1) as nat, size));
    assert forall|x: int| #[trigger]
        covered(after).contains(x) && !covered(after).contains(x - 1) implies x % (size as int) == 0 by {
        if covered(before).contains(x - 1) {
            assert(span(a, size as int).contains(x - 1));
            assert(!span(a, size as int).contains(x));
            assert(x == a + size);
            vstd::arithmetic::div_mod::lemma_mod_add_multiples_vanish(a, size as int);
        }
    }
}

proof fn lemma_multiple_gap(u: int, v: int, m: int)
    requires
        m > 0,
        u % m == 0,
        v % m == 0,
        u < v,
    ensures
        u + m <= v,
{
    vstd::arithmetic::div_mod::lemma_fundamental_div_mod(u, m);
    vstd::arithmetic::div_mod::lemma_fundamental_div_mod(v, m);
    let p = u / m;
    let q = v / m;
    assert(u + m <= v) by (nonlinear_arith)
        requires
            u == m * p,
            v == m * q,
            u < v,
            m > 0,
    ;
}

proof fn lemma_multiple_of_multiple(b: int, big: int, small: int)
    requires
        small > 0,
        big > 0,
        b % big == 0,
        big % small == 0,
    ensures
        b % small == 0,
{
    vstd::arithmetic::div_mod::lemma_fundamental_div_mod(b, big);
    vstd::arithmetic::div_mod::lemma_fundamental_div_mod(big, small);
    let q = b / big;
    let k = big / small;
    assert(b == small * (k * q)) by (nonlinear_arith)
        requires
            b == big * q,
            big == small * k,
    ;
    vstd::arithmetic::div_mod::lemma_mod_multiples_basic(k * q, small);
}

/// An aligned block that meets an aligned larger block lies within it.
proof fn lemma_small_in_big(a: int, small: int, b: int, big: int, x: int)
    requires
        small > 0,
        big > 0,
        a % small == 0,
        b % big == 0,
        big % small == 0,
        span(a, small).contains(x),
        span(b, big).contains(x),
    ensures
        b <= a,
        a + small <= b + big,
{
    lemma_multiple_of_multiple(b, big, small);
    vstd::arithmetic::div_mod::lemma_mod_add_multiples_vanish(b, big);
    lemma_multiple_of_multiple(b + big, big, small);
    if a < b {
        lemma_multiple_gap(a, b, small);
    }
    if a + small > b + big {
        lemma_multiple_gap(a, b + big, small);
    }
}

/// Free blocks of `big` bytes serve a request for `size` bytes, which is `big` or 4096.
proof fn lemma_mixed_fits(s: Seq<ClosedRange>, n: nat, big: u64, size: u64)
    requires
        well_formed(s),
        n >= 1,
        size == big || size == 4096,
        is_pow2(big),
        big % 4096 == 0,
        s.len() + n <= crate::range::CAPACITY,
        forall|x: int| #[trigger] covered(s).contains(x) ==> x < ADDRESS_LIMIT && x <= usize::MAX,
        exists|blocks: Set<int>| #[trigger] free_blocks(s, blocks, n, big),
    ensures
        first_fit(s, size, size, 0) is Some,
        is_pow2(size),
        s.len() < crate::range::CAPACITY,
{
    assert(4096u64 & ((4096u64 - 1) as u64) == 0) by (bit_vector);
    let blocks = choose|blocks: Set<int>| #[trigger] free_blocks(s, blocks, n, big);
    assert(blocks.len() > 0);
    vstd::set_lib::lemma_set_empty_equivalency_len(blocks);
    let b = blocks.choose();
    assert(big > 0) by (bit_vector)
        requires
            big != 0,
    ;
    let i = lemma_run_in_entry(s, b, big as int);
    let e = s[i];
    lemma_multiple_of_multiple(b, big as int, size as int);
    lemma_aligned_below(e.start as int, b, size as int);
    if size == 4096 {
        assert(size <= big) by {
            vstd::arithmetic::div_mod::lemma_fundamental_div_mod(big as int, 4096);
        }
    }
    assert(span(b, big as int).contains(b + size - 1));
    assert(covered(s).contains(b + size - 1));
    assert(fits(e, size, size));
    lemma_first_fit_found(s, size, i, 0);
}

/// After a request for `size` bytes at `a`, one block of `big` bytes fewer remains.
proof fn lemma_mixed_after(before: Seq<ClosedRange>, after: Seq<ClosedRange>, n: nat, big: u64, size: u64, a: int)
    requires
        n >= 1,
        size == big || size == 4096,
        is_pow2(big),
        big % 4096 == 0,
        exists|blocks: Set<int>| #[trigger] free_blocks(before, blocks, n, big),
        a % (size as int) == 0,
        covered(after) == covered(before).difference(span(a, size as int)),
    ensures
        exists|blocks: Set<int>| #[trigger] free_blocks(after, blocks, (n - 1) as nat, big),
{
    let blocks = choose|blocks: Set<int>| #[trigger] free_blocks(before, blocks, n, big);
    assert(big > 0) by (bit_vector)
        requires
            big != 0,
    ;
    assert((big as int) % (size as int) == 0) by {
        if size == 4096 {
        } else {
            vstd::arithmetic::div_mod::lemma_mod_self_0(big as int);
        }
    }
    let hit = exists|b: int|
        #[trigger] blocks.contains(b) && !span(a, size as int).disjoint(span(b, big as int));
    let drop = if hit {
        choose|b: int| #[trigger] blocks.contains(b) && !span(a, size as int).disjoint(span(b, big as int))
    } else {
        assert(blocks.len() > 0);
        vstd::set_lib::lemma_set_empty_equivalency_len(blocks);
        blocks.choose()
    };
    let rest = blocks.remove(drop);
    assert forall|b: int| #[trigger] rest.contains(b) implies b % (big as int) == 0 && span(
        b,
        big as int,
    ).subset_of(covered(after)) by {
        assert(blocks.contains(b));
        assert forall|x: int| span(b, big as int).contains(x) implies covered(after).contains(x) by {
            assert(covered(before).contains(x));
            if span(a, size as int).contains(x) {
                assert(!span(a, size as int).disjoint(span(b, big as int)));
                assert(hit);
                let y = choose|y: int| span(a, size as int).contains(y) && span(drop, big as int).contains(y);
                lemma_small_in_big(a, size as int, b, big as int, x);
                lemma_small_in_big(a, size as int, drop, big as int, y);
                assert(span(b, big as int).contains(a));
                lemma_blocks_disjoint(b, drop, big as int, a);
            }
        }
    }
    assert(free_blocks(after, rest, (n - 1) as nat, big));
}

impl AddressTranslate for Mmu {
    open spec fn inv(&self) -> bool {
        self.wf()
    }

    open spec fn free_addrs(&self) -> Set<int> {
        covered(self@)
    }

    /// Every free run starts `size`-aligned, so that no allocation splits an entry, every free
    /// address lies below `ADDRESS_LIMIT` and fits a pointer, and `count` distinct `size`-aligned
    /// blocks are free.
    open spec fn supplies(&self, count: nat, size: u64) -> bool {
        &&& is_pow2(size)
        &&& runs_aligned(covered(self@), size)
        &&& forall|x: int| #[trigger]
            covered(self@).contains(x) ==> x < ADDRESS_LIMIT && x <= usize::MAX
        &&& exists|blocks: Set<int>| #[trigger] free_blocks(self@, blocks, count, size)
    }

    /// The set has a slot for each request and its split, every free address lies below
    /// `ADDRESS_LIMIT` and fits a pointer, and `count` distinct `size`-aligned blocks of `size`
    /// bytes, a multiple of 4096, are free.
    open spec fn supplies_mixed(&self, count: nat, size: u64) -> bool {
        &&& is_pow2(size)
        &&& size % 4096 == 0
        &&& self@.len() + count <= crate::range::CAPACITY
        &&& forall|x: int| #[trigger]
            covered(self@).contains(x) ==> x < ADDRESS_LIMIT && x <= usize::MAX
        &&& exists|blocks: Set<int>| #[trigger] free_blocks(self@, blocks, count, size)
    }

    proof fn lemma_supplies_mixed_fewer(&self, count: nat, fewer: nat, size: u64) {
        let blocks = choose|blocks: Set<int>| #[trigger] free_blocks(self@, blocks, count, size);
        assert(free_blocks(self@, blocks, fewer, size));
    }

    proof fn lemma_supplies_fewer(&self, count: nat, fewer: nat, size: u64) {
        let blocks = choose|blocks: Set<int>| #[trigger] free_blocks(self@, blocks, count, size);
        assert(free_blocks(self@, blocks, fewer, size));
    }

    /// Physical memory is reached where it lies, as long as the whole block fits a pointer.
    open spec fn translation(&self, physical_address: u64, size: usize) -> Option<usize> {
        if size == 0 || physical_address + size > usize::MAX {
            None
        } else {
            Some(physical_address as usize)
        }
    }

    fn alloc_block(&mut self, size: u64, align: u64) -> (r: Option<u64>) {
        let ghost before = self@;
        proof {
            if align == size && self.supplies(1, size) {
                lemma_supply_fits(before, size);
            }
        }
        proof {
            assert forall|n: nat, big: u64|
                align == size && (size == big || size == 4096) && n >= 1
                    && #[trigger] old(self).supplies_mixed(n, big) implies first_fit(before, size, size, 0) is Some
                && is_pow2(size) && before.len() < crate::range::CAPACITY by {
                lemma_mixed_fits(before, n, big, size);
            }
        }
        let r = self.set.allocate(size, align);
        proof {
            assert forall|n: nat, big: u64|
                align == size && (size == big || size == 4096) && n >= 1
                    && #[trigger] old(self).supplies_mixed(n, big) implies (r matches Some(a) && a
                + size <= ADDRESS_LIMIT) && self.supplies_mixed((n - 1) as nat, big) by {
                lemma_mixed_fits(before, n, big, size);
                assert(r is Some);
                let a = r.unwrap() as int;
                assert(covered(before).contains(a + size - 1));
                lemma_mixed_after(before, self@, n, big, size, a);
                assert forall|x: int| #[trigger]
                    covered(self@).contains(x) implies x < ADDRESS_LIMIT && x <= usize::MAX by {
                    assert(covered(before).contains(x));
                }
            }
            if align == size && old(self).supplies(1, size) {
                assert(r is Some);
                let a = r.unwrap() as int;
                assert(covered(before).contains(a + size - 1));
                assert(a + size - 1 < ADDRESS_LIMIT);
            }
            assert forall|n: nat|
                align == size && n >= 1 && #[trigger] old(self).supplies(n, size) implies self.supplies(
                (n - 1) as nat,
                size,
            ) by {
                if r is None {
                    old(self).lemma_supplies_fewer(n, (n - 1) as nat, size);
                } else {
                    lemma_supply_after(before, self@, n, size, r.unwrap() as int);
                    assert forall|x: int| #[trigger]
                        covered(self@).contains(x) implies x < ADDRESS_LIMIT && x <= usize::MAX by {
                        assert(covered(before).contains(x));
                    }
                }
            }
        }
        match r {
            Some(a) => Some(a as u64),
            None => None,
        }
    }

    fn holds_free(&self, start: u64, size: u64) -> (r: bool) {
        if size == 0 {
            return false;
        }
        let ranges = self.set.ranges();
        let mut i: usize = 0;
        while i < ranges.len()
            invariant
                ranges@ == self@,
                well_formed(self@),
                size > 0,
                i <= ranges@.len(),
                forall|j: int|
                    0 <= j < i ==> (#[trigger] ranges@[j]).end < start || ranges@[j].start >= start + size,
            decreases ranges@.len() - i,
        {
            let e = ranges[i];
            if start <= e.end && (e.start < start || e.start - start < size) {
                proof {
                    let x = if e.start < start { start as int } else { e.start as int };
                    assert(span(start as int, size as int).contains(x));
                    assert(ranges@[i as int] == e);
                    assert(e.valid());
                    assert(ranges@[i as int].has(x));
                    assert(covered(self@).contains(x));
                    assert(self.free_addrs().contains(x));
                }
                return true;
            }
            i += 1;
        }
        proof {
            assert forall|x: int| span(start as int, size as int).contains(x) implies !#[trigger] self.free_addrs().contains(x) by {
                if covers(self@, x) {
                    let k = choose|k: int| 0 <= k < self@.len() && (#[trigger] self@[k]).has(x);
                    assert(ranges@[k] == self@[k]);
                }
            }
        }
        false
    }

    fn translate(&self, physical_address: PhysicalAddress, size: usize) -> (r: Option<usize>) {
        if size == 0 {
            return None;
        }
        if physical_address.0 > usize::MAX as u64 {
            return None;
        }
        let address = physical_address.0 as usize;
        if address > usize::MAX - size {
            return None;
        }
        Some(address)
    }
}

} // verus!
