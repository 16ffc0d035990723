//! A builder for x86-64 four-level page tables.
//!
//! Table nodes live in a model of physical memory held by the builder: each node is 512
//! eight-byte entries at a 4096-aligned physical address that the `AddressTranslate`
//! capability handed out. Leaf frames filled by `map_slice` are kept with the bytes written to
//! them; the rest of such a frame reads as zero.
use crate::frame::{AddressTranslate, ADDRESS_LIMIT};
use crate::range::span;
use std::collections::HashMap;
use vstd::prelude::*;

verus! {

broadcast use vstd::std_specs::hash::group_hash_axioms;

/// Bytes in one table node: 512 entries of eight bytes.
pub const PAGE_TABLE_SIZE: u64 = 4096;

/// Entries in one table node.
pub const ENTRIES_PER_TABLE: u64 = 512;

/// Entry bit: the entry is in use.
pub const PAGE_PRESENT: u64 = 0x1;

/// Entry bit: the memory may be written.
pub const PAGE_WRITE: u64 = 0x2;

/// Entry bit: the memory may be reached from user mode.
pub const PAGE_USER: u64 = 0x4;

/// Entry bit: no instruction may be fetched from the memory.
pub const PAGE_NXE: u64 = 0x8000_0000_0000_0000;

/// Entry bits 12 to 51: the physical address of a child node or of a frame.
pub const ADDRESS_MASK: u64 = 0x000f_ffff_ffff_f000;

/// What the root node records as the entry that points at it.
pub const NO_PARENT: u64 = 0xffff_ffff_ffff_ffff;

/// An address in physical memory.
#[derive(Clone, Copy, Debug, PartialEq, Eq, Structural)]
pub struct PhysicalAddress(pub u64);

/// An address in a virtual address space.
#[derive(Clone, Copy, Debug, PartialEq, Eq, Structural)]
pub struct VirtualAddress(pub u64);

/// The kinds of page table the builder makes.
#[derive(Clone, Copy, Debug, PartialEq, Eq, Structural)]
pub enum PageTable {
    /// Four-level paging.
    PML4,
}

/// Access a mapping grants.
#[derive(Clone, Copy, Debug, PartialEq, Eq, Structural)]
pub struct RWX {
    pub read: bool,
    pub write: bool,
    pub execute: bool,
}

impl RWX {
    /// The bits of a leaf entry for this access: present and user always, writable when
    /// writing is allowed, and no-execute when executing is not.
    pub open spec fn bits(self) -> u64 {
        PAGE_PRESENT | PAGE_USER | (if self.write {
            PAGE_WRITE
        } else {
            0
        }) | (if !self.execute {
            PAGE_NXE
        } else {
            0
        })
    }

    pub fn entry_bits(&self) -> (r: u64)
        ensures
            r == self.bits(),
    {
        let write = if self.write {
            PAGE_WRITE
        } else {
            0
        };
        let no_execute = if !self.execute {
            PAGE_NXE
        } else {
            0
        };
        PAGE_PRESENT | PAGE_USER | write | no_execute
    }
}

/// The size of a page that one leaf entry maps.
#[derive(Clone, Copy, Debug, PartialEq, Eq, Structural)]
pub enum PageSize {
    Page4Kb,
    Page2Mb,
    Page1Gb,
}

impl PageSize {
    pub open spec fn bytes(self) -> u64 {
        match self {
            PageSize::Page4Kb => 0x1000,
            PageSize::Page2Mb => 0x20_0000,
            PageSize::Page1Gb => 0x4000_0000,
        }
    }

    pub fn size(&self) -> (r: u64)
        ensures
            r == self.bytes(),
    {
        match self {
            PageSize::Page4Kb => 0x1000,
            PageSize::Page2Mb => 0x20_0000,
            PageSize::Page1Gb => 0x4000_0000,
        }
    }
}

/// The table indices of `v`, from the root down to the level whose entry maps a page of
/// `page_size`: bits 39 to 47, 30 to 38, 21 to 29 and 12 to 20.
pub open spec fn indices(v: u64, page_size: PageSize) -> Seq<u64> {
    match page_size {
        PageSize::Page4Kb => seq![
            (v >> 39u64) & 0x1ffu64,
            (v >> 30u64) & 0x1ffu64,
            (v >> 21u64) & 0x1ffu64,
            (v >> 12u64) & 0x1ffu64,
        ],
        PageSize::Page2Mb => seq![
            (v >> 39u64) & 0x1ffu64,
            (v >> 30u64) & 0x1ffu64,
            (v >> 21u64) & 0x1ffu64,
        ],
        PageSize::Page1Gb => seq![(v >> 39u64) & 0x1ffu64, (v >> 30u64) & 0x1ffu64],
    }
}

/// The physical address of entry `index` of the node at `node`.
pub open spec fn slot(node: u64, index: u64) -> u64 {
    (node + 8 * index) as u64
}

pub open spec fn present(entry: u64) -> bool {
    entry & PAGE_PRESENT == PAGE_PRESENT
}

/// The node or frame an entry points at.
pub open spec fn target(entry: u64) -> u64 {
    entry & ADDRESS_MASK
}

/// Walks `idx` from the node at `node`, which sits at `level`, and gives the entry that the
/// last index selects. The walk stops, with `None`, at an entry before the last that is not
/// present or that does not point at a node one level down that this entry created.
pub open spec fn leaf_entry(
    words: Map<u64, u64>,
    nodes: Map<u64, (u64, u64)>,
    node: u64,
    level: int,
    idx: Seq<u64>,
) -> Option<u64>
    decreases idx.len(),
{
    if idx.len() == 0 {
        None
    } else {
        let s = slot(node, idx[0]);
        let e = words[s];
        if idx.len() == 1 {
            Some(e)
        } else if present(e) && nodes.contains_key(target(e)) && nodes[target(e)] == (
        (level + 1) as u64, s) {
            leaf_entry(words, nodes, target(e), level + 1, idx.drop_first())
        } else {
            None
        }
    }
}

/// The address of the entry that `leaf_entry` gives, if the walk reaches it.
pub open spec fn leaf_slot(
    words: Map<u64, u64>,
    nodes: Map<u64, (u64, u64)>,
    node: u64,
    level: int,
    idx: Seq<u64>,
) -> Option<u64>
    decreases idx.len(),
{
    if idx.len() == 0 {
        None
    } else {
        let s = slot(node, idx[0]);
        let e = words[s];
        if idx.len() == 1 {
            Some(s)
        } else if present(e) && nodes.contains_key(target(e)) && nodes[target(e)] == (
        (level + 1) as u64, s) {
            leaf_slot(words, nodes, target(e), level + 1, idx.drop_first())
        } else {
            None
        }
    }
}

/// The walk of `idx` meets, before its last index, a present entry that points at no node one
/// level down created for it (for instance a larger page mapped there).
pub open spec fn blocked(
    words: Map<u64, u64>,
    nodes: Map<u64, (u64, u64)>,
    node: u64,
    level: int,
    idx: Seq<u64>,
) -> bool
    decreases idx.len(),
{
    if idx.len() < 2 {
        false
    } else {
        let s = slot(node, idx[0]);
        let e = words[s];
        if !present(e) {
            false
        } else if nodes.contains_key(target(e)) && nodes[target(e)] == ((level + 1) as u64, s) {
            blocked(words, nodes, target(e), level + 1, idx.drop_first())
        } else {
            true
        }
    }
}

/// The walk of `idx` meets, before its last index, an entry that is not present, so that
/// mapping it needs a new node.
pub open spec fn needs_node(
    words: Map<u64, u64>,
    nodes: Map<u64, (u64, u64)>,
    node: u64,
    level: int,
    idx: Seq<u64>,
) -> bool
    decreases idx.len(),
{
    if idx.len() < 2 {
        false
    } else {
        let s = slot(node, idx[0]);
        let e = words[s];
        if !present(e) {
            true
        } else if nodes.contains_key(target(e)) && nodes[target(e)] == ((level + 1) as u64, s) {
            needs_node(words, nodes, target(e), level + 1, idx.drop_first())
        } else {
            false
        }
    }
}

/// The walk of `idx` meets, before its last index, a present entry that `map_page` cannot follow:
/// it points at a table node made for another entry, or into memory that the capability, whose
/// free addresses are `free`, still holds as free.
pub open spec fn refused(
    words: Map<u64, u64>,
    nodes: Map<u64, (u64, u64)>,
    free: Set<int>,
    node: u64,
    level: int,
    idx: Seq<u64>,
) -> bool
    decreases idx.len(),
{
    if idx.len() < 2 {
        false
    } else {
        let s = slot(node, idx[0]);
        let e = words[s];
        if !present(e) {
            false
        } else if nodes.contains_key(target(e)) && nodes[target(e)] == ((level + 1) as u64, s) {
            refused(words, nodes, free, target(e), level + 1, idx.drop_first())
        } else {
            nodes.contains_key(target(e)) || !free.disjoint(span(target(e) as int, 4096))
        }
    }
}

/// The walk of `idx` meets, before its last index, a present entry that points at memory with
/// no table node and not free in the capability, so that `map_page` takes that memory as a
/// node of zero entries.
pub open spec fn adopts(
    words: Map<u64, u64>,
    nodes: Map<u64, (u64, u64)>,
    free: Set<int>,
    node: u64,
    level: int,
    idx: Seq<u64>,
) -> bool
    decreases idx.len(),
{
    if idx.len() < 2 {
        false
    } else {
        let s = slot(node, idx[0]);
        let e = words[s];
        if !present(e) {
            false
        } else if nodes.contains_key(target(e)) && nodes[target(e)] == ((level + 1) as u64, s) {
            adopts(words, nodes, free, target(e), level + 1, idx.drop_first())
        } else {
            !nodes.contains_key(target(e)) && free.disjoint(span(target(e) as int, 4096))
        }
    }
}

/// A walk that meets only the nodes made for its entries is neither refused nor adopts.
pub proof fn lemma_clean_walk(
    words: Map<u64, u64>,
    nodes: Map<u64, (u64, u64)>,
    free: Set<int>,
    node: u64,
    level: int,
    idx: Seq<u64>,
)
    requires
        !blocked(words, nodes, node, level, idx),
    ensures
        !refused(words, nodes, free, node, level, idx),
        !adopts(words, nodes, free, node, level, idx),
    decreases idx.len(),
{
    if idx.len() >= 2 {
        let s = slot(node, idx[0]);
        let e = words[s];
        if present(e) && nodes.contains_key(target(e)) && nodes[target(e)] == ((level + 1) as u64, s) {
            lemma_clean_walk(words, nodes, free, target(e), level + 1, idx.drop_first());
        }
    }
}

/// `e`, the entry at `a`, points with present, writable and user set at a node that `after`
/// holds and `before` lacked, one level below the node of `a`, which it records as its parent.
pub open spec fn fresh_pointer(
    before: Map<u64, (u64, u64)>,
    after: Map<u64, (u64, u64)>,
    a: u64,
    e: u64,
) -> bool {
    &&& e == target(e) | PAGE_PRESENT | PAGE_USER | PAGE_WRITE
    &&& after.contains_key(target(e))
    &&& !before.contains_key(target(e))
    &&& after.contains_key(owner(a))
    &&& after[target(e)] == ((after[owner(a)].0 + 1) as u64, a)
}

/// The addresses of the nodes that `after` holds and `before` lacks.
pub open spec fn new_node_addrs(before: Map<u64, (u64, u64)>, after: Map<u64, (u64, u64)>) -> Set<int> {
    Set::new(
        |x: int|
            exists|b: u64|
                #[trigger] after.contains_key(b) && !before.contains_key(b) && span(
                    b as int,
                    4096,
                ).contains(x),
    )
}

/// The byte at `offset` of a frame whose first bytes are `data`.
pub open spec fn frame_byte_at(data: Seq<u8>, offset: int) -> u8 {
    if 0 <= offset < data.len() {
        data[offset]
    } else {
        0
    }
}

/// The address of page `k` of a region that starts at `v`.
pub open spec fn page_at(v: u64, k: int, size: int) -> u64 {
    (v + k * size) as u64
}

/// No page of the region of `len` bytes at `v`, in pages of `page_size`, has the table indices
/// of `u` (an empty region has one page).
pub open spec fn clear_of(u: u64, v: u64, len: int, page_size: PageSize) -> bool {
    let size = page_size.bytes() as int;
    let covered = if len == 0 {
        1
    } else {
        len
    };
    forall|k: int|
        0 <= k && k * size < covered ==> indices(#[trigger] page_at(v, k, size), page_size)
            != indices(u, page_size)
}

/// `n` zero bytes.
pub open spec fn zero_bytes(n: nat) -> Seq<u8> {
    Seq::new(n, |i: int| 0u8)
}

/// The bytes of `data` that go to page `k` when it is split into pages of `size` bytes.
pub open spec fn chunk(data: Seq<u8>, k: int, size: int) -> Seq<u8> {
    let from = k * size;
    let to = if (k + 1) * size < data.len() {
        (k + 1) * size
    } else {
        data.len() as int
    };
    data.subrange(from, to)
}

/// Copies `slice[from..to]`.
fn copy_bytes(slice: &[u8], from: usize, to: usize) -> (r: Vec<u8>)
    requires
        from <= to <= slice@.len(),
    ensures
        r@ == slice@.subrange(from as int, to as int),
{
    let mut r: Vec<u8> = Vec::new();
    let mut i: usize = from;
    while i < to
        invariant
            from <= i <= to,
            to <= slice@.len(),
            r@ == slice@.subrange(from as int, i as int),
        decreases to - i,
    {
        r.push(slice[i]);
        i += 1;
        assert(r@ =~= slice@.subrange(from as int, i as int));
    }
    r
}

/// Why a mapping did not take place.
#[derive(Clone, Copy, Debug, PartialEq, Eq, Structural)]
pub enum MapError {
    /// The virtual address is not a multiple of the page size, which is given too.
    AddressUnaligned(VirtualAddress, u64),
    /// The entry at this depth, above the page's own level, points at a table node made for
    /// another entry, or into memory the capability still holds as free, so the walk cannot go on.
    PagePointerZero(usize),
    /// The region to map runs past the end of the address space.
    RangeOverflow,
    /// The capability handed out no memory, or memory that an entry cannot address.
    OutOfMemory,
}

/// Along a walk recorded in `path`, whose entries point each at the next node and whose last
/// entry holds `raw`, every node reaches `raw` at the entry's address.
proof fn lemma_path_leaf(
    words: Map<u64, u64>,
    nodes: Map<u64, (u64, u64)>,
    path: Seq<u64>,
    idx: Seq<u64>,
    d: int,
    raw: u64,
    k: int,
)
    requires
        0 <= k <= d,
        idx.len() == d + 1,
        path.len() == d + 1,
        words[slot(path[d], idx[d])] == raw,
        forall|j: int|
            0 <= j < d ==> {
                let e = words[slot(path[j], idx[j])];
                &&& present(e)
                &&& target(e) == path[j + 1]
                &&& nodes.contains_key(path[j + 1])
                &&& nodes[path[j + 1]] == ((j + 1) as u64, slot(#[trigger] path[j], idx[j]))
            },
    ensures
        leaf_entry(words, nodes, path[k], k, idx.skip(k)) == Some(raw),
        leaf_slot(words, nodes, path[k], k, idx.skip(k)) == Some(slot(path[d], idx[d])),
    decreases d - k,
{
    assert(idx.skip(k)[0] == idx[k]);
    if k < d {
        lemma_path_leaf(words, nodes, path, idx, d, raw, k + 1);
        assert(idx.skip(k).drop_first() =~= idx.skip(k + 1));
        assert(nodes.contains_key(path[k + 1]));
    }
}

proof fn lemma_indices_bound(v: u64, page_size: PageSize)
    ensures
        1 <= indices(v, page_size).len() <= 4,
        forall|i: int| 0 <= i < indices(v, page_size).len() ==> #[trigger] indices(v, page_size)[i] < 512,
{
    lemma_index_bound(v >> 39u64);
    lemma_index_bound(v >> 30u64);
    lemma_index_bound(v >> 21u64);
    lemma_index_bound(v >> 12u64);
}

/// A walk reaches an entry exactly when it reaches an entry address.
proof fn lemma_entry_slot_shape(
    words: Map<u64, u64>,
    nodes: Map<u64, (u64, u64)>,
    m: u64,
    k: int,
    t: Seq<u64>,
)
    ensures
        leaf_entry(words, nodes, m, k, t) is Some <==> leaf_slot(words, nodes, m, k, t) is Some,
    decreases t.len(),
{
    if t.len() > 1 {
        let e = words[slot(m, t[0])];
        lemma_entry_slot_shape(words, nodes, target(e), k + 1, t.drop_first());
    }
}

/// The node that holds the entry at address `a`.
pub open spec fn owner(a: u64) -> u64 {
    (a / 4096 * 4096) as u64
}

proof fn lemma_owner(n: u64, j: u64)
    requires
        n & ADDRESS_MASK == n,
        j < 512,
    ensures
        owner(slot(n, j)) == n,
{
    lemma_node_bounds(n);
    let q = n as int / 4096;
    assert(n == 4096 * q);
    let a = n + 8 * j;
    assert(a / 4096 == q) by (nonlinear_arith)
        requires
            a == 4096 * q + 8 * j,
            0 <= 8 * j < 4096,
            q >= 0,
    ;
}

/// Every address within a node belongs to that node.
proof fn lemma_owner_region(n: u64, a: u64)
    requires
        n & ADDRESS_MASK == n,
        n <= a < n + 4096,
    ensures
        owner(a) == n,
{
    lemma_node_bounds(n);
    let q = n as int / 4096;
    assert(n == 4096 * q);
    assert(a / 4096 == q) by (nonlinear_arith)
        requires
            n == 4096 * q,
            n <= a < n + 4096,
            q >= 0,
    ;
}

/// The entry a walk ends at belongs to a node at the walk's last level.
proof fn lemma_leaf_slot_level(
    words: Map<u64, u64>,
    nodes: Map<u64, (u64, u64)>,
    m: u64,
    k: int,
    t: Seq<u64>,
)
    requires
        0 <= k,
        k + t.len() <= 4,
        nodes.contains_key(m),
        nodes[m].0 == k,
        forall|b: u64| #[trigger] nodes.contains_key(b) ==> b & ADDRESS_MASK == b,
        forall|i: int| 0 <= i < t.len() ==> #[trigger] t[i] < 512,
    ensures
        leaf_slot(words, nodes, m, k, t) matches Some(a) ==> nodes.contains_key(owner(a))
            && nodes[owner(a)].0 == k + t.len() - 1,
    decreases t.len(),
{
    if t.len() == 1 {
        lemma_owner(m, t[0]);
    } else if t.len() > 1 {
        let e = words[slot(m, t[0])];
        if present(e) && nodes.contains_key(target(e)) && nodes[target(e)] == ((k + 1) as u64, slot(m, t[0])) {
            assert forall|i: int| 0 <= i < t.drop_first().len() implies #[trigger] t.drop_first()[i] < 512 by {
                assert(t.drop_first()[i] == t[i + 1]);
            }
            lemma_leaf_slot_level(words, nodes, target(e), k + 1, t.drop_first());
        }
    }
}

/// Two walks of the same length from nodes of one level that end at the same entry started
/// at the same node and took the same indices: every node records the one entry that points
/// at it.
proof fn lemma_leaf_slot_unique(
    words: Map<u64, u64>,
    nodes: Map<u64, (u64, u64)>,
    m1: u64,
    m2: u64,
    k: int,
    t1: Seq<u64>,
    t2: Seq<u64>,
)
    requires
        nodes.contains_key(m1),
        nodes.contains_key(m2),
        forall|b: u64| #[trigger] nodes.contains_key(b) ==> b & ADDRESS_MASK == b,
        t1.len() == t2.len(),
        forall|i: int| 0 <= i < t1.len() ==> #[trigger] t1[i] < 512,
        forall|i: int| 0 <= i < t2.len() ==> #[trigger] t2[i] < 512,
        leaf_slot(words, nodes, m1, k, t1) is Some,
        leaf_slot(words, nodes, m1, k, t1) == leaf_slot(words, nodes, m2, k, t2),
    ensures
        m1 == m2,
        t1 == t2,
    decreases t1.len(),
{
    if t1.len() == 1 {
        if m1 != m2 || t1[0] != t2[0] {
            lemma_slots_distinct(m1, t1[0], m2, t2[0]);
        }
        assert(t1 =~= t2);
    } else {
        let s1 = slot(m1, t1[0]);
        let s2 = slot(m2, t2[0]);
        let c1 = target(words[s1]);
        let c2 = target(words[s2]);
        assert forall|i: int| 0 <= i < t1.drop_first().len() implies #[trigger] t1.drop_first()[i] < 512 by {
            assert(t1.drop_first()[i] == t1[i + 1]);
        }
        assert forall|i: int| 0 <= i < t2.drop_first().len() implies #[trigger] t2.drop_first()[i] < 512 by {
            assert(t2.drop_first()[i] == t2[i + 1]);
        }
        lemma_leaf_slot_unique(words, nodes, c1, c2, k + 1, t1.drop_first(), t2.drop_first());
        if m1 != m2 || t1[0] != t2[0] {
            lemma_slots_distinct(m1, t1[0], m2, t2[0]);
        }
        assert(t1 =~= seq![t1[0]] + t1.drop_first());
        assert(t2 =~= seq![t2[0]] + t2.drop_first());
    }
}

/// A walk whose entries above the last stay in place, while only entries that were not present
/// or the entry at `w` change, reaches the same entry address; and the same value, unless
/// that address is `w`. `w` belongs to a node at the last level of the walk.
proof fn lemma_walk_kept(
    w0: Map<u64, u64>,
    n0: Map<u64, (u64, u64)>,
    w1: Map<u64, u64>,
    n1: Map<u64, (u64, u64)>,
    m: u64,
    k: int,
    t: Seq<u64>,
    w: u64,
)
    requires
        0 <= k <= 4,
        1 <= t.len(),
        k + t.len() <= 4,
        n0.contains_key(m),
        n0[m].0 == k,
        forall|b: u64| #[trigger] n0.contains_key(b) ==> b & ADDRESS_MASK == b,
        forall|b: u64, i: u64| n0.contains_key(b) && i < 512 ==> w0.contains_key(#[trigger] slot(b, i)),
        forall|b: u64| #[trigger] n0.contains_key(b) ==> n1.contains_key(b) && n1[b] == n0[b],
        forall|a: u64| #[trigger]
            w0.contains_key(a) ==> w1.contains_key(a) && (w1[a] == w0[a] || !present(w0[a]) || a == w),
        n1.contains_key(owner(w)),
        n1[owner(w)].0 == k + t.len() - 1,
        forall|i: int| 0 <= i < t.len() ==> #[trigger] t[i] < 512,
        leaf_entry(w0, n0, m, k, t) matches Some(x) && present(x),
    ensures
        leaf_slot(w1, n1, m, k, t) == leaf_slot(w0, n0, m, k, t),
        leaf_slot(w0, n0, m, k, t) != Some(w) ==> leaf_entry(w1, n1, m, k, t) == leaf_entry(
            w0,
            n0,
            m,
            k,
            t,
        ),
    decreases t.len(),
{
    let s = slot(m, t[0]);
    assert(w0.contains_key(s));
    if t.len() > 1 {
        let e = w0[s];
        lemma_owner(m, t[0]);
        assert(s != w);
        assert(w1[s] == e);
        assert forall|i: int| 0 <= i < t.drop_first().len() implies #[trigger] t.drop_first()[i] < 512 by {
            assert(t.drop_first()[i] == t[i + 1]);
        }
        lemma_walk_kept(w0, n0, w1, n1, target(e), k + 1, t.drop_first(), w);
    }
}

/// Walks from `m` that agree on every entry above their last level meet the same blocks and
/// the same missing nodes.
proof fn lemma_upper_walk_same(
    w0: Map<u64, u64>,
    w1: Map<u64, u64>,
    nodes: Map<u64, (u64, u64)>,
    m: u64,
    k: int,
    t: Seq<u64>,
)
    requires
        0 <= k,
        k + t.len() <= 4,
        nodes.contains_key(m),
        nodes[m].0 == k,
        forall|b: u64| #[trigger] nodes.contains_key(b) ==> b & ADDRESS_MASK == b,
        forall|b: u64, i: u64|
            nodes.contains_key(b) && nodes[b].0 < k + t.len() - 1 && i < 512 ==> w1[#[trigger] slot(
                b,
                i,
            )] == w0[slot(b, i)],
        forall|i: int| 0 <= i < t.len() ==> #[trigger] t[i] < 512,
    ensures
        blocked(w1, nodes, m, k, t) == blocked(w0, nodes, m, k, t),
        needs_node(w1, nodes, m, k, t) == needs_node(w0, nodes, m, k, t),
    decreases t.len(),
{
    if t.len() >= 2 {
        let s = slot(m, t[0]);
        assert(w1[s] == w0[s]);
        let e = w0[s];
        if present(e) && nodes.contains_key(target(e)) && nodes[target(e)] == ((k + 1) as u64, s) {
            assert forall|i: int| 0 <= i < t.drop_first().len() implies #[trigger] t.drop_first()[i] < 512 by {
                assert(t.drop_first()[i] == t[i + 1]);
            }
            lemma_upper_walk_same(w0, w1, nodes, target(e), k + 1, t.drop_first());
        }
    }
}

/// A walk from `m` that was not blocked before a mapping is not blocked after it: entries above
/// the last level changed only from not present to a pointer at a new node made for them, and
/// new nodes hold nothing else but the mapped entry at the last level.
proof fn lemma_no_new_block(
    w0: Map<u64, u64>,
    n0: Map<u64, (u64, u64)>,
    w1: Map<u64, u64>,
    n1: Map<u64, (u64, u64)>,
    m: u64,
    k: int,
    t: Seq<u64>,
    last_level: int,
    w: u64,
)
    requires
        0 <= k,
        k + t.len() == last_level + 1,
        last_level <= 3,
        n1.contains_key(m),
        n1[m].0 == k,
        forall|b: u64| #[trigger] n1.contains_key(b) ==> b & ADDRESS_MASK == b,
        forall|b: u64| #[trigger] n0.contains_key(b) ==> n1.contains_key(b) && n1[b] == n0[b],
        forall|b: u64, i: u64|
            n0.contains_key(b) && i < 512 ==> {
                let a = #[trigger] slot(b, i);
                w1[a] == w0[a] || (!present(w0[a]) && fresh_pointer(n0, n1, a, w1[a])) || a == w
            },
        forall|b: u64, i: u64|
            n1.contains_key(b) && !n0.contains_key(b) && i < 512 ==> {
                let a = #[trigger] slot(b, i);
                w1[a] == 0 || fresh_pointer(n0, n1, a, w1[a]) || a == w
            },
        n1.contains_key(owner(w)),
        n1[owner(w)].0 == last_level,
        forall|i: int| 0 <= i < t.len() ==> #[trigger] t[i] < 512,
        n0.contains_key(m) ==> !blocked(w0, n0, m, k, t),
    ensures
        !blocked(w1, n1, m, k, t),
    decreases t.len(),
{
    if t.len() >= 2 {
        let s = slot(m, t[0]);
        lemma_owner(m, t[0]);
        assert(s != w);
        let e1 = w1[s];
        lemma_present_bit(0);
        assert forall|i: int| 0 <= i < t.drop_first().len() implies #[trigger] t.drop_first()[i] < 512 by {
            assert(t.drop_first()[i] == t[i + 1]);
        }
        if present(e1) {
            if n0.contains_key(m) && e1 == w0[s] {
                let c = target(e1);
                assert(n0.contains_key(c) && n0[c] == ((k + 1) as u64, s));
                lemma_no_new_block(w0, n0, w1, n1, c, k + 1, t.drop_first(), last_level, w);
            } else {
                assert(fresh_pointer(n0, n1, s, e1));
                let c = target(e1);
                lemma_no_new_block(w0, n0, w1, n1, c, k + 1, t.drop_first(), last_level, w);
            }
        }
    }
}

/// Sets the 512 entries of the node at `base` to zero and leaves every other address alone.
fn zero_node(words: &mut HashMap<u64, u64>, base: u64)
    requires
        base & ADDRESS_MASK == base,
    ensures
        forall|i: u64|
            i < 512 ==> final(words)@.contains_key(#[trigger] slot(base, i))
                && final(words)@[slot(base, i)] == 0,
        forall|a: u64|
            (a < base || a >= base + 4096) ==> (#[trigger] final(words)@.contains_key(a)
                == old(words)@.contains_key(a) && final(words)@[a] == old(words)@[a]),
        forall|a: u64|
            #[trigger] final(words)@.contains_key(a) ==> old(words)@.contains_key(a) || (base <= a
                < base + 4096),
{
    proof {
        lemma_node_bounds(base);
    }
    let mut i: u64 = 0;
    while i < ENTRIES_PER_TABLE
        invariant
            base & ADDRESS_MASK == base,
            base + 4096 <= 0x10_0000_0000_0000,
            i <= 512,
            forall|j: u64| j < i ==> words@.contains_key(#[trigger] slot(base, j)) && words@[slot(base, j)] == 0,
            forall|a: u64|
                (a < base || a >= base + 4096) ==> (#[trigger] words@.contains_key(a)
                    == old(words)@.contains_key(a) && words@[a] == old(words)@[a]),
            forall|a: u64|
                #[trigger] words@.contains_key(a) ==> old(words)@.contains_key(a) || (base <= a
                    < base + 4096),
        decreases 512 - i,
    {
        words.insert(base + 8 * i, 0);
        proof {
            assert forall|j: u64| j < i + 1 implies words@.contains_key(#[trigger] slot(base, j))
                && words@[slot(base, j)] == 0 by {
                if j != i {
                    assert(slot(base, j) != slot(base, i));
                }
            }
        }
        i += 1;
    }
}

/// The table indices of `v` for a page of `page_size`.
fn table_indices(v: u64, page_size: PageSize) -> (r: Vec<u64>)
    ensures
        r@ == indices(v, page_size),
{
    let mut r: Vec<u64> = Vec::new();
    r.push((v >> 39u64) & 0x1ffu64);
    r.push((v >> 30u64) & 0x1ffu64);
    match page_size {
        PageSize::Page4Kb => {
            r.push((v >> 21u64) & 0x1ffu64);
            r.push((v >> 12u64) & 0x1ffu64);
        },
        PageSize::Page2Mb => {
            r.push((v >> 21u64) & 0x1ffu64);
        },
        PageSize::Page1Gb => {},
    }
    assert(r@ =~= indices(v, page_size));
    r
}

/// A block aligned to at least a page that ends below `ADDRESS_LIMIT` fits an entry.
proof fn lemma_addressable(a: u64, size: u64)
    requires
        size >= 4096,
        size % 4096 == 0,
        (a as int) % (size as int) == 0,
        a + size <= ADDRESS_LIMIT,
    ensures
        a & ADDRESS_MASK == a,
{
    vstd::arithmetic::div_mod::lemma_fundamental_div_mod(a as int, size as int);
    let q = a as int / size as int;
    let k = size as int / 4096;
    assert(a as int == 4096 * (k * q)) by (nonlinear_arith)
        requires
            a as int == size * q,
            size == 4096 * k,
    ;
    vstd::arithmetic::div_mod::lemma_mod_multiples_basic(k * q, 4096);
    assert(a & 0x000f_ffff_ffff_f000u64 == a) by (bit_vector)
        requires
            a % 4096 == 0,
            a < 0x10_0000_0000_0000u64,
    ;
}

proof fn lemma_node_bounds(b: u64)
    requires
        b & ADDRESS_MASK == b,
    ensures
        b % 4096 == 0,
        b + 4096 <= 0x10_0000_0000_0000,
{
    assert(b & 0xfff == 0 && b <= 0xf_ffff_ffff_f000) by (bit_vector)
        requires
            b & 0x000f_ffff_ffff_f000u64 == b,
    ;
    assert(b % 4096 == 0) by (bit_vector)
        requires
            b & 0xfff == 0,
    ;
}

/// An entry that points at node `b` with present, writable and user set.
proof fn lemma_pointer_entry(b: u64)
    requires
        b & ADDRESS_MASK == b,
    ensures
        present(b | PAGE_PRESENT | PAGE_USER | PAGE_WRITE),
        target(b | PAGE_PRESENT | PAGE_USER | PAGE_WRITE) == b,
{
    assert((b | 1u64 | 4u64 | 2u64) & 1 == 1 && (b | 1u64 | 4u64 | 2u64) & 0x000f_ffff_ffff_f000u64
        == b) by (bit_vector)
        requires
            b & 0x000f_ffff_ffff_f000u64 == b,
    ;
}

proof fn lemma_target_addressable(e: u64)
    ensures
        target(e) & ADDRESS_MASK == target(e),
{
    assert((e & 0x000f_ffff_ffff_f000u64) & 0x000f_ffff_ffff_f000u64 == e & 0x000f_ffff_ffff_f000u64)
        by (bit_vector);
}

proof fn lemma_pointer_present(b: u64)
    ensures
        present(b | PAGE_PRESENT | PAGE_USER | PAGE_WRITE),
{
    assert((b | 1u64 | 4u64 | 2u64) & 1 == 1) by (bit_vector);
}

proof fn lemma_present_bit(e: u64)
    ensures
        present(e) == (e & PAGE_PRESENT != 0),
        !present(0),
{
    assert((e & 1 == 1) == (e & 1 != 0)) by (bit_vector);
    assert(0u64 & 1 == 0) by (bit_vector);
}

pub proof fn lemma_bits_present(rwx: RWX)
    ensures
        rwx.bits() & PAGE_PRESENT == PAGE_PRESENT,
{
    let w: u64 = if rwx.write {
        PAGE_WRITE
    } else {
        0
    };
    let x: u64 = if !rwx.execute {
        PAGE_NXE
    } else {
        0
    };
    assert((1u64 | 4u64 | w | x) & 1 == 1) by (bit_vector);
}

/// As `lemma_page_room`, for pages of `size` bytes.
proof fn lemma_page_room_size(k: int, len: int, size: int)
    requires
        0 <= k,
        0 <= len,
        size > 0,
        k * size < (if len == 0 {
            1
        } else {
            len
        }),
    ensures
        4 * k + 4 <= 4 * (len / size + 1),
{
    vstd::arithmetic::div_mod::lemma_fundamental_div_mod(len, size);
    let q = len / size;
    assert(k <= q) by (nonlinear_arith)
        requires
            len == size * q + len % size,
            0 <= len % size < size,
            k * size < (if len == 0 {
                1
            } else {
                len
            }),
            0 <= k,
            0 <= len,
            size > 0,
    ;
}

/// A page that starts inside a region of `len` bytes (or the one page of an empty region) leaves
/// room for four blocks of the `4 * (len / 4096 + 1)` the region may take.
proof fn lemma_page_room(k: int, len: int)
    requires
        0 <= k,
        0 <= len,
        k * 4096 < (if len == 0 {
            1
        } else {
            len
        }),
    ensures
        4 * k + 4 <= 4 * (len / 4096 + 1),
{
    vstd::arithmetic::div_mod::lemma_fundamental_div_mod(len, 4096);
    let q = len / 4096;
    assert(k <= q) by (nonlinear_arith)
        requires
            len == 4096 * q + len % 4096,
            0 <= len % 4096 < 4096,
            k * 4096 < (if len == 0 {
                1
            } else {
                len
            }),
            0 <= k,
            0 <= len,
    ;
}

/// A leaf entry with the bits of an access is present.
pub proof fn lemma_present_entry(frame: u64, bits: u64)
    requires
        bits & PAGE_PRESENT == PAGE_PRESENT,
    ensures
        present(frame | bits),
{
    assert((frame | bits) & 1 == 1) by (bit_vector)
        requires
            bits & 1 == 1,
    ;
}

proof fn lemma_index_bound(x: u64)
    ensures
        x & 0x1ffu64 < 512,
{
    assert(x & 0x1ffu64 < 512) by (bit_vector);
}

/// Entries of two different nodes never share an address.
proof fn lemma_slots_distinct(b1: u64, i1: u64, b2: u64, i2: u64)
    requires
        b1 & ADDRESS_MASK == b1,
        b2 & ADDRESS_MASK == b2,
        i1 < 512,
        i2 < 512,
        b1 != b2 || i1 != i2,
    ensures
        slot(b1, i1) != slot(b2, i2),
{
    lemma_node_bounds(b1);
    lemma_node_bounds(b2);
    if b1 != b2 {
        let q1 = b1 as int / 4096;
        let q2 = b2 as int / 4096;
        assert(b1 == 4096 * q1 && b2 == 4096 * q2);
        if q1 < q2 {
            assert(4096 * q1 + 4096 <= 4096 * q2) by (nonlinear_arith)
                requires
                    q1 < q2,
            ;
        } else {
            assert(4096 * q2 + 4096 <= 4096 * q1) by (nonlinear_arith)
                requires
                    q2 < q1,
            ;
        }
    }
}

/// `v` is a multiple of the page size exactly when its bits below the page size are clear.
proof fn lemma_page_aligned(v: u64, page_size: PageSize)
    ensures
        (v & ((page_size.bytes() - 1) as u64) == 0) == (v % page_size.bytes() == 0),
{
    match page_size {
        PageSize::Page4Kb => {
            assert((v & 0xfff == 0) == (v % 0x1000 == 0)) by (bit_vector);
        },
        PageSize::Page2Mb => {
            assert((v & 0x1f_ffff == 0) == (v % 0x20_0000 == 0)) by (bit_vector);
        },
        PageSize::Page1Gb => {
            assert((v & 0x3fff_ffff == 0) == (v % 0x4000_0000 == 0)) by (bit_vector);
        },
    }
}

/// A four-level page table under construction. It owns the capability that supplies its
/// memory, and only grows: entries are added or overwritten, never torn down.
pub struct PML4<A: AddressTranslate> {
    /// The physical address of the root node, as loaded into cr3.
    cr3_root: PhysicalAddress,
    mem: A,
    /// The entries of the table nodes, by physical address.
    words: HashMap<u64, u64>,
    /// Each table node, by physical address: its level (the root is 0) and the address of the
    /// entry that points at it.
    nodes: HashMap<u64, (u64, u64)>,
    /// The frames filled by `map_slice`: the bytes written from their start.
    frames: HashMap<u64, Vec<u8>>,
    /// Virtual addresses whose cached translation went out of date, oldest first.
    stale: Vec<VirtualAddress>,
}

impl<A: AddressTranslate> PML4<A> {
    pub closed spec fn root(&self) -> u64 {
        self.cr3_root.0
    }

    pub closed spec fn capability(&self) -> A {
        self.mem
    }

    /// Table entries by physical address.
    pub closed spec fn entries(&self) -> Map<u64, u64> {
        self.words@
    }

    /// Table nodes by physical address, with their level and the entry that points at them.
    pub closed spec fn tables(&self) -> Map<u64, (u64, u64)> {
        self.nodes@
    }

    /// Frames filled by `map_slice`, with the bytes written from their start.
    pub closed spec fn frame_data(&self) -> Map<u64, Seq<u8>> {
        self.frames@.map_values(|v: Vec<u8>| v@)
    }

    /// Virtual addresses whose cached translation must be invalidated.
    pub closed spec fn stale(&self) -> Seq<VirtualAddress> {
        self.stale@
    }

    /// The entry that maps `v` with a page of `page_size`, if the walk reaches it.
    pub open spec fn leaf(&self, v: u64, page_size: PageSize) -> Option<u64> {
        leaf_entry(self.entries(), self.tables(), self.root(), 0, indices(v, page_size))
    }

    /// The address of the entry that maps `v` with a page of `page_size`, if the walk reaches it.
    pub open spec fn leaf_address(&self, v: u64, page_size: PageSize) -> Option<u64> {
        leaf_slot(self.entries(), self.tables(), self.root(), 0, indices(v, page_size))
    }

    pub closed spec fn wf(&self) -> bool {
        let n = self.nodes@;
        let w = self.words@;
        let free = self.mem.free_addrs();
        &&& self.mem.inv()
        &&& n.contains_key(self.cr3_root.0)
        &&& n[self.cr3_root.0] == (0u64, NO_PARENT)
        &&& forall|b: u64| #[trigger] n.contains_key(b) ==> b & ADDRESS_MASK == b
        &&& forall|b: u64, i: u64|
            n.contains_key(b) && i < 512 ==> w.contains_key(#[trigger] slot(b, i))
        &&& forall|b: u64, x: int|
            #![trigger n.contains_key(b), free.contains(x)]
            n.contains_key(b) && b <= x < b + 4096 ==> !free.contains(x)
        &&& forall|a: u64| #[trigger] w.contains_key(a) ==> !free.contains(a as int)
        &&& forall|a: u64| #[trigger] w.contains_key(a) ==> n.contains_key(owner(a))
        &&& forall|f: u64| #[trigger] self.frames@.contains_key(f) ==> !free.contains(f as int)
    }

    /// Allocates a zero-filled root node from `mem`; `None` when `mem` cannot supply one that
    /// an entry can address.
    pub fn new(mem: A) -> (r: Option<Self>)
        requires
            mem.inv(),
        ensures
            r matches Some(t) ==> {
                &&& t.wf()
                &&& t.tables() == map![t.root() => (0u64, NO_PARENT)]
                &&& forall|i: u64| i < 512 ==> t.entries()[#[trigger] slot(t.root(), i)] == 0
                &&& t.frame_data() == Map::<u64, Seq<u8>>::empty()
                &&& t.stale() == Seq::<VirtualAddress>::empty()
                &&& t.root() & ADDRESS_MASK == t.root()
                &&& t.root() % 4096 == 0
                &&& forall|n: nat|
                    n >= 1 && #[trigger] mem.supplies(n, PAGE_TABLE_SIZE) ==> t.capability().supplies(
                        (n - 1) as nat,
                        PAGE_TABLE_SIZE,
                    )
            },
            mem.supplies(1, PAGE_TABLE_SIZE) ==> r is Some,
            r matches Some(t) ==> Self::unblocked(t, PageSize::Page4Kb),
    {
        let mut mem = mem;
        let ghost mem0 = mem;
        let root = match mem.alloc_block(PAGE_TABLE_SIZE, PAGE_TABLE_SIZE) {
            Some(a) => a,
            None => return None,
        };
        proof {
            if mem0.supplies(1, PAGE_TABLE_SIZE) {
                lemma_addressable(root, PAGE_TABLE_SIZE);
            }
        }
        if root & ADDRESS_MASK != root {
            return None;
        }
        let mut words: HashMap<u64, u64> = HashMap::new();
        zero_node(&mut words, root);
        let mut nodes: HashMap<u64, (u64, u64)> = HashMap::new();
        nodes.insert(root, (0, NO_PARENT));
        let t = PML4 {
            cr3_root: PhysicalAddress(root),
            mem,
            words,
            nodes,
            frames: HashMap::new(),
            stale: Vec::new(),
        };
        proof {
            lemma_node_bounds(root);
            assert(t.tables() =~= map![t.root() => (0u64, NO_PARENT)]);
            assert forall|u: u64|
                !blocked(t.entries(), t.tables(), t.root(), 0, #[trigger] indices(u, PageSize::Page4Kb)) by {
                lemma_indices_bound(u, PageSize::Page4Kb);
                lemma_present_bit(0);
                assert(t.entries()[slot(root, indices(u, PageSize::Page4Kb)[0])] == 0);
            }
            assert(t.frame_data() =~= Map::<u64, Seq<u8>>::empty());
            assert forall|b: u64, x: int|
                #![trigger t.nodes@.contains_key(b), t.mem.free_addrs().contains(x)]
                t.nodes@.contains_key(b) && b <= x < b + 4096 implies !t.mem.free_addrs().contains(
                x,
            ) by {
                assert(span(root as int, 4096).contains(x));
            }
            assert forall|a: u64| #[trigger] t.words@.contains_key(a) implies !t.mem.free_addrs().contains(
                a as int,
            ) by {
                assert(span(root as int, 4096).contains(a as int));
            }
            assert forall|a: u64| #[trigger] t.words@.contains_key(a) implies t.nodes@.contains_key(
                owner(a),
            ) by {
                lemma_owner_region(root, a);
            }
        }
        Some(t)
    }

    /// The physical address of the root node, to be loaded into cr3.
    pub fn cr3(&self) -> (r: PhysicalAddress)
        ensures
            r.0 == self.root(),
    {
        self.cr3_root
    }

    /// The capability the builder draws memory from.
    pub fn capability_ref(&self) -> (r: &A)
        ensures
            *r == self.capability(),
    {
        &self.mem
    }

    /// Ends the building and hands the capability back to the caller.
    pub fn into_capability(self) -> (r: A)
        ensures
            r == self.capability(),
    {
        self.mem
    }

    /// Virtual addresses whose cached translation went out of date, oldest first.
    pub fn stale_translations(&self) -> (r: &[VirtualAddress])
        ensures
            r@ == self.stale(),
    {
        self.stale.as_slice()
    }

    /// `after` is `before` with the page of `page_size` at `v` mapped to the entry value `raw`:
    /// the walk of `v` reaches `raw`; `v` is recorded as a stale translation when the entry it
    /// replaced was present; no node is lost; no entry that was present changed, other than the
    /// one now holding `raw`; an entry that was not present changed only to point, with present,
    /// writable and user set, at a new node; and every new node is zero but for such a pointer or
    /// the entry holding `raw`.
    pub open spec fn page_mapped(before: Self, after: Self, v: VirtualAddress, raw: u64, page_size: PageSize) -> bool {
        &&& after.root() == before.root()
        &&& after.leaf(v.0, page_size) == Some(raw)
        &&& after.stale() == if before.leaf(v.0, page_size) matches Some(e) && present(e) {
            before.stale().push(v)
        } else {
            before.stale()
        }
        &&& forall|b: u64| #[trigger]
            before.tables().contains_key(b) ==> after.tables().contains_key(b)
                && after.tables()[b] == before.tables()[b]
        &&& forall|a: u64| #[trigger]
            before.entries().contains_key(a) ==> after.entries().contains_key(a) && (
            after.entries()[a] == before.entries()[a] || (!present(before.entries()[a])
                && fresh_pointer(before.tables(), after.tables(), a, after.entries()[a]))
                || after.leaf_address(v.0, page_size) == Some(a))
        &&& forall|b: u64, i: u64|
            after.tables().contains_key(b) && !before.tables().contains_key(b) && i < 512 ==> {
                let e = after.entries()[#[trigger] slot(b, i)];
                e == 0 || fresh_pointer(before.tables(), after.tables(), slot(b, i), e)
                    || after.leaf_address(v.0, page_size) == Some(slot(b, i))
            }
    }

    /// Mapping one address twice leaves the second value visible, and when the first value was
    /// present the address is recorded as a stale translation.
    pub proof fn lemma_remap_last_write_wins(
        s0: Self,
        s1: Self,
        s2: Self,
        v: VirtualAddress,
        first: u64,
        second: u64,
        page_size: PageSize,
    )
        requires
            Self::page_mapped(s0, s1, v, first, page_size),
            Self::page_mapped(s1, s2, v, second, page_size),
        ensures
            s2.leaf(v.0, page_size) == Some(second),
            present(first) ==> s2.stale() == s1.stale().push(v),
            !present(first) ==> s2.stale() == s1.stale(),
    {
    }

    /// Mapping a 4 KiB page without making a node changes no entry above the last level, so
    /// every other 4 KiB walk meets the same blocks and the same missing nodes as before.
    pub proof fn lemma_leaf_write_keeps_walks(
        before: Self,
        after: Self,
        w: VirtualAddress,
        raw: u64,
        u: u64,
    )
        requires
            before.wf(),
            after.wf(),
            Self::page_mapped(before, after, w, raw, PageSize::Page4Kb),
            after.tables() == before.tables(),
        ensures
            blocked(after.entries(), after.tables(), after.root(), 0, indices(u, PageSize::Page4Kb))
                == blocked(
                before.entries(),
                before.tables(),
                before.root(),
                0,
                indices(u, PageSize::Page4Kb),
            ),
            needs_node(
                after.entries(),
                after.tables(),
                after.root(),
                0,
                indices(u, PageSize::Page4Kb),
            ) == needs_node(
                before.entries(),
                before.tables(),
                before.root(),
                0,
                indices(u, PageSize::Page4Kb),
            ),
    {
        let iw = indices(w.0, PageSize::Page4Kb);
        let iu = indices(u, PageSize::Page4Kb);
        lemma_indices_bound(w.0, PageSize::Page4Kb);
        lemma_indices_bound(u, PageSize::Page4Kb);
        let root = before.root();
        lemma_entry_slot_shape(after.entries(), after.tables(), root, 0, iw);
        let last = after.leaf_address(w.0, PageSize::Page4Kb).unwrap();
        lemma_leaf_slot_level(after.entries(), after.tables(), root, 0, iw);
        assert forall|b: u64, i: u64|
            before.tables().contains_key(b) && before.tables()[b].0 < 3 && i < 512 implies after.entries()[#[trigger] slot(
            b,
            i,
        )] == before.entries()[slot(b, i)] by {
            lemma_owner(b, i);
            assert(before.entries().contains_key(slot(b, i)));
            assert(slot(b, i) != last);
        }
        lemma_upper_walk_same(before.entries(), after.entries(), before.tables(), root, 0, iu);
    }

    /// Mapping a page makes no walk of the same page size blocked that was not blocked before.
    pub proof fn lemma_mapping_adds_no_block(
        before: Self,
        after: Self,
        w: VirtualAddress,
        raw: u64,
        page_size: PageSize,
        u: u64,
    )
        requires
            before.wf(),
            after.wf(),
            Self::page_mapped(before, after, w, raw, page_size),
            !blocked(before.entries(), before.tables(), before.root(), 0, indices(u, page_size)),
        ensures
            !blocked(after.entries(), after.tables(), after.root(), 0, indices(u, page_size)),
    {
        let iw = indices(w.0, page_size);
        let iu = indices(u, page_size);
        lemma_indices_bound(w.0, page_size);
        lemma_indices_bound(u, page_size);
        let root = before.root();
        lemma_entry_slot_shape(after.entries(), after.tables(), root, 0, iw);
        let last = after.leaf_address(w.0, page_size).unwrap();
        lemma_leaf_slot_level(after.entries(), after.tables(), root, 0, iw);
        assert forall|b: u64, i: u64|
            before.tables().contains_key(b) && i < 512 implies {
                let a = #[trigger] slot(b, i);
                after.entries()[a] == before.entries()[a] || (!present(before.entries()[a])
                    && fresh_pointer(before.tables(), after.tables(), a, after.entries()[a]))
                    || a == last
            } by {
            assert(before.entries().contains_key(slot(b, i)));
        }
        lemma_no_new_block(
            before.entries(),
            before.tables(),
            after.entries(),
            after.tables(),
            root,
            0,
            iu,
            iu.len() - 1,
            last,
        );
    }

    /// Mapping one page keeps every other present mapping of the same page size in place.
    pub proof fn lemma_mapping_keeps_other_pages(
        before: Self,
        after: Self,
        w: VirtualAddress,
        raw: u64,
        page_size: PageSize,
        u: u64,
    )
        requires
            before.wf(),
            after.wf(),
            Self::page_mapped(before, after, w, raw, page_size),
            indices(u, page_size) != indices(w.0, page_size),
            before.leaf(u, page_size) matches Some(x) && present(x),
        ensures
            after.leaf(u, page_size) == before.leaf(u, page_size),
    {
        let iu = indices(u, page_size);
        let iw = indices(w.0, page_size);
        lemma_indices_bound(u, page_size);
        lemma_indices_bound(w.0, page_size);
        let root = before.root();
        lemma_entry_slot_shape(after.entries(), after.tables(), root, 0, iw);
        let last = after.leaf_address(w.0, page_size).unwrap();
        lemma_leaf_slot_level(after.entries(), after.tables(), root, 0, iw);
        lemma_walk_kept(
            before.entries(),
            before.tables(),
            after.entries(),
            after.tables(),
            root,
            0,
            iu,
            last,
        );
        if leaf_slot(before.entries(), before.tables(), root, 0, iu) == Some(last) {
            lemma_leaf_slot_unique(after.entries(), after.tables(), root, root, 0, iu, iw);
        }
    }

    /// Maps the page of `page_size` at `virtual_address` to the entry value `raw`. Walks the
    /// table from the root, creating a zero-filled node (pointed at with present, writable and
    /// user set) wherever an entry above the page's level is not present, and overwrites the
    /// entry at the page's level with `raw`. When that entry was present before, the address is
    /// recorded as a stale translation. Nodes made before a failure stay in place.
    pub fn map_page(&mut self, virtual_address: VirtualAddress, raw: u64, page_size: PageSize) -> (r:
        Result<(), MapError>)
        requires
            old(self).wf(),
        ensures
            final(self).wf(),
            final(self).root() == old(self).root(),
            final(self).frame_data() == old(self).frame_data(),
            r == Err::<(), MapError>(MapError::AddressUnaligned(virtual_address, page_size.bytes()))
                <==> virtual_address.0 % page_size.bytes() != 0,
            r matches Err(MapError::PagePointerZero(_)) <==> virtual_address.0 % page_size.bytes()
                == 0 && refused(
                old(self).entries(),
                old(self).tables(),
                old(self).capability().free_addrs(),
                old(self).root(),
                0,
                indices(virtual_address.0, page_size),
            ),
            r == Err::<(), MapError>(MapError::OutOfMemory) ==> !refused(
                old(self).entries(),
                old(self).tables(),
                old(self).capability().free_addrs(),
                old(self).root(),
                0,
                indices(virtual_address.0, page_size),
            ) && (needs_node(
                old(self).entries(),
                old(self).tables(),
                old(self).root(),
                0,
                indices(virtual_address.0, page_size),
            ) || adopts(
                old(self).entries(),
                old(self).tables(),
                old(self).capability().free_addrs(),
                old(self).root(),
                0,
                indices(virtual_address.0, page_size),
            )),
            r matches Err(e) ==> e == MapError::AddressUnaligned(virtual_address, page_size.bytes())
                || e is PagePointerZero || e == MapError::OutOfMemory,
            r matches Err(e) ==> (e != MapError::OutOfMemory ==> final(self).entries() == old(
                self).entries() && final(self).tables() == old(self).tables() && final(
                self).capability() == old(self).capability()),
            r.is_err() ==> final(self).stale() == old(self).stale(),
            r is Ok ==> Self::page_mapped(*old(self), *final(self), virtual_address, raw, page_size),
            final(self).capability().free_addrs().subset_of(old(self).capability().free_addrs()),
            r is Ok ==> final(self).capability().free_addrs() == old(self).capability().free_addrs().difference(
                new_node_addrs(old(self).tables(), final(self).tables()),
            ),
            r is Ok && !needs_node(
                old(self).entries(),
                old(self).tables(),
                old(self).root(),
                0,
                indices(virtual_address.0, page_size),
            ) && !adopts(
                old(self).entries(),
                old(self).tables(),
                old(self).capability().free_addrs(),
                old(self).root(),
                0,
                indices(virtual_address.0, page_size),
            ) ==> final(self).tables() == old(self).tables() && final(self).capability() == old(
                self).capability(),
            r is Ok && !needs_node(
                old(self).entries(),
                old(self).tables(),
                old(self).root(),
                0,
                indices(virtual_address.0, page_size),
            ) && !blocked(
                old(self).entries(),
                old(self).tables(),
                old(self).root(),
                0,
                indices(virtual_address.0, page_size),
            ) ==> final(self).tables() == old(self).tables() && final(self).capability() == old(
                self).capability(),
            virtual_address.0 % page_size.bytes() == 0 && !refused(
                old(self).entries(),
                old(self).tables(),
                old(self).capability().free_addrs(),
                old(self).root(),
                0,
                indices(virtual_address.0, page_size),
            ) && old(self).capability().supplies(
                (indices(virtual_address.0, page_size).len() - 1) as nat,
                PAGE_TABLE_SIZE,
            ) ==> r is Ok,
            virtual_address.0 % page_size.bytes() == 0 && !blocked(
                old(self).entries(),
                old(self).tables(),
                old(self).root(),
                0,
                indices(virtual_address.0, page_size),
            ) && old(self).capability().supplies(
                (indices(virtual_address.0, page_size).len() - 1) as nat,
                PAGE_TABLE_SIZE,
            ) ==> r is Ok,
            r is Ok ==> forall|m: nat|
                m >= indices(virtual_address.0, page_size).len() - 1 && #[trigger] old(
                    self).capability().supplies(m, PAGE_TABLE_SIZE) ==> final(self).capability().supplies(
                    (m - (indices(virtual_address.0, page_size).len() - 1)) as nat,
                    PAGE_TABLE_SIZE,
                ),
            forall|m: nat, big: u64|
                virtual_address.0 % page_size.bytes() == 0 && !refused(
                    old(self).entries(),
                    old(self).tables(),
                    old(self).capability().free_addrs(),
                    old(self).root(),
                    0,
                    indices(virtual_address.0, page_size),
                ) && m >= indices(virtual_address.0, page_size).len() - 1
                    && #[trigger] old(self).capability().supplies_mixed(m, big) ==> r is Ok
                    && final(self).capability().supplies_mixed(
                    (m - (indices(virtual_address.0, page_size).len() - 1)) as nat,
                    big,
                ),
    {
        let size = page_size.size();
        proof {
            lemma_page_aligned(virtual_address.0, page_size);
        }
        if virtual_address.0 & (size - 1) != 0 {
            return Err(MapError::AddressUnaligned(virtual_address, size));
        }
        let idx = table_indices(virtual_address.0, page_size);
        let ghost ix = idx@;
        let ghost w0 = self.words@;
        let ghost n0 = self.nodes@;
        let ghost root = self.cr3_root.0;
        let ghost free0 = self.mem.free_addrs();
        proof {
            if !blocked(w0, n0, root, 0, ix) {
                lemma_clean_walk(w0, n0, free0, root, 0, ix);
            }
            assert forall|k: int| 0 <= k < ix.len() implies #[trigger] ix[k] < 512 by {
                lemma_index_bound(virtual_address.0 >> 39u64);
                lemma_index_bound(virtual_address.0 >> 30u64);
                lemma_index_bound(virtual_address.0 >> 21u64);
                lemma_index_bound(virtual_address.0 >> 12u64);
            }
            assert(ix.skip(0) =~= ix);
        }
        let mut table = self.cr3_root.0;
        let mut depth: usize = 0;
        let ghost mut path: Seq<u64> = seq![table];
        let ghost mut grown = false;
        while depth + 1 < idx.len()
            invariant
                self.wf(),
                virtual_address.0 % page_size.bytes() == 0,
                self.cr3_root.0 == root,
                self.stale@ == old(self).stale@,
                self.frames@ == old(self).frames@,
                w0 == old(self).words@,
                n0 == old(self).nodes@,
                root == old(self).cr3_root.0,
                idx@ == ix,
                ix == indices(virtual_address.0, page_size),
                2 <= ix.len() <= 4,
                forall|k: int| 0 <= k < ix.len() ==> #[trigger] ix[k] < 512,
                depth < ix.len(),
                path.len() == depth + 1,
                path[0] == root,
                path[depth as int] == table,
                forall|k: int|
                    0 <= k <= depth ==> self.nodes@.contains_key(#[trigger] path[k])
                        && self.nodes@[path[k]].0 == k,
                forall|k: int|
                    0 <= k < depth ==> {
                        let e = self.words@[slot(path[k], ix[k])];
                        &&& present(e)
                        &&& target(e) == path[k + 1]
                        &&& self.nodes@[path[k + 1]] == ((k + 1) as u64, slot(
                            #[trigger] path[k],
                            ix[k],
                        ))
                    },
                forall|b: u64| #[trigger]
                    n0.contains_key(b) ==> self.nodes@.contains_key(b) && self.nodes@[b] == n0[b],
                forall|a: u64| #[trigger]
                    w0.contains_key(a) ==> self.words@.contains_key(a) && (self.words@[a] == w0[a]
                        || (!present(w0[a]) && fresh_pointer(n0, self.nodes@, a, self.words@[a]))),
                forall|b: u64, i: u64|
                    self.nodes@.contains_key(b) && !n0.contains_key(b) && i < 512 ==> {
                        let e = self.words@[#[trigger] slot(b, i)];
                        e == 0 || fresh_pointer(n0, self.nodes@, slot(b, i), e)
                    },
                self.mem.free_addrs().subset_of(old(self).mem.free_addrs()),
                forall|m: nat|
                    m >= ix.len() - 1 && #[trigger] old(self).mem.supplies(m, PAGE_TABLE_SIZE)
                        ==> self.mem.supplies((m - depth) as nat, PAGE_TABLE_SIZE),
                forall|m: nat, big: u64|
                    m >= ix.len() - 1 && #[trigger] old(self).mem.supplies_mixed(m, big)
                        ==> self.mem.supplies_mixed((m - depth) as nat, big),
                !grown ==> {
                    &&& self.mem == old(self).mem
                    &&& self.words@ == w0
                    &&& self.nodes@ == n0
                    &&& leaf_entry(w0, n0, root, 0, ix) == leaf_entry(
                        w0,
                        n0,
                        table,
                        depth as int,
                        ix.skip(depth as int),
                    )
                    &&& leaf_slot(w0, n0, root, 0, ix) == leaf_slot(
                        w0,
                        n0,
                        table,
                        depth as int,
                        ix.skip(depth as int),
                    )
                    &&& blocked(w0, n0, root, 0, ix) == blocked(
                        w0,
                        n0,
                        table,
                        depth as int,
                        ix.skip(depth as int),
                    )
                    &&& needs_node(w0, n0, root, 0, ix) == needs_node(
                        w0,
                        n0,
                        table,
                        depth as int,
                        ix.skip(depth as int),
                    )
                    &&& refused(w0, n0, free0, root, 0, ix) == refused(
                        w0,
                        n0,
                        free0,
                        table,
                        depth as int,
                        ix.skip(depth as int),
                    )
                    &&& adopts(w0, n0, free0, root, 0, ix) == adopts(
                        w0,
                        n0,
                        free0,
                        table,
                        depth as int,
                        ix.skip(depth as int),
                    )
                },
                free0 == old(self).mem.free_addrs(),
                self.mem.free_addrs() == free0.difference(new_node_addrs(n0, self.nodes@)),
                grown ==> {
                    &&& leaf_entry(w0, n0, root, 0, ix) is None
                    &&& !refused(w0, n0, free0, root, 0, ix)
                    &&& (needs_node(w0, n0, root, 0, ix) || adopts(w0, n0, free0, root, 0, ix))
                    &&& forall|i: u64| i < 512 ==> self.words@[#[trigger] slot(table, i)] == 0
                },
            decreases ix.len() - depth,
        {
            let index = idx[depth];
            proof {
                lemma_node_bounds(table);
            }
            let s = table + 8 * index;
            proof {
                assert(s == slot(table, index));
                assert(ix.skip(depth as int)[0] == index);
                assert(ix.skip(depth as int).drop_first() =~= ix.skip(depth + 1));
            }
            let entry = match self.words.get(&s) {
                Some(e) => *e,
                None => 0,
            };
            proof {
                lemma_present_bit(entry);
            }
            if entry & PAGE_PRESENT == 0 {
                let ghost before = *self;
                proof {
                    if old(self).mem.supplies((ix.len() - 1) as nat, PAGE_TABLE_SIZE) {
                        assert(self.mem.supplies((ix.len() - 1 - depth) as nat, PAGE_TABLE_SIZE));
                        self.mem.lemma_supplies_fewer(
                            (ix.len() - 1 - depth) as nat,
                            1,
                            PAGE_TABLE_SIZE,
                        );
                    }
                }
                let node = match self.add_node((depth + 1) as u64, s) {
                    Ok(b) => b,
                    Err(e) => {
                        proof {
                            assert forall|m: nat, big: u64|
                                m >= ix.len() - 1 && #[trigger] old(self).mem.supplies_mixed(m, big)
                                    implies false by {
                                assert(before.mem.supplies_mixed((m - depth) as nat, big));
                            }
                            assert(e == MapError::OutOfMemory);
                        }
                        return Err(e);
                    },
                };
                let pointer = node | PAGE_PRESENT | PAGE_USER | PAGE_WRITE;
                let ghost mid = self.words@;
                self.words.insert(s, pointer);
                proof {
                    lemma_pointer_entry(node);
                    lemma_node_bounds(node);
                    assert forall|k: int| 0 <= k < depth implies slot(path[k], ix[k]) != s by {
                        lemma_slots_distinct(path[k], ix[k], table, index);
                    }
                    assert(node != table);
                    lemma_pointer_present(node);
                    lemma_owner(table, index);
                    assert(fresh_pointer(n0, self.nodes@, s, pointer));
                    assert forall|a: u64| #[trigger]
                        w0.contains_key(a) implies self.words@.contains_key(a) && (self.words@[a]
                        == w0[a] || (!present(w0[a]) && fresh_pointer(n0, self.nodes@, a, self.words@[a]))) by {
                        assert(before.words@.contains_key(a));
                        if a != s && before.words@[a] != w0[a] {
                            assert(fresh_pointer(n0, before.nodes@, a, before.words@[a]));
                        }
                        if a == s && before.words@[a] != w0[a] {
                            assert(fresh_pointer(n0, before.nodes@, a, before.words@[a]));
                            lemma_pointer_present(target(before.words@[a]));
                        }
                    }
                    assert forall|b: u64, i: u64|
                        self.nodes@.contains_key(b) && !n0.contains_key(b) && i < 512 implies {
                            let e = self.words@[#[trigger] slot(b, i)];
                            e == 0 || fresh_pointer(n0, self.nodes@, slot(b, i), e)
                        } by {
                        if b != node && slot(b, i) != s {
                            assert(before.words@.contains_key(slot(b, i)));
                            let e = before.words@[slot(b, i)];
                            if e != 0 {
                                assert(fresh_pointer(n0, before.nodes@, slot(b, i), e));
                            }
                        }
                        if b == node {
                            lemma_slots_distinct(node, i, table, index);
                        }
                    }
                    assert forall|m: nat|
                        m >= ix.len() - 1 && #[trigger] old(self).mem.supplies(m, PAGE_TABLE_SIZE)
                            implies self.mem.supplies((m - (depth + 1)) as nat, PAGE_TABLE_SIZE) by {
                        assert(before.mem.supplies((m - depth) as nat, PAGE_TABLE_SIZE));
                    }
                    assert forall|m: nat, big: u64|
                        m >= ix.len() - 1 && #[trigger] old(self).mem.supplies_mixed(m, big)
                            implies self.mem.supplies_mixed((m - (depth + 1)) as nat, big) by {
                        assert(before.mem.supplies_mixed((m - depth) as nat, big));
                    }
                    assert forall|k: int| 0 <= k < depth implies self.words@[slot(path[k], ix[k])]
                        == before.words@[slot(path[k], ix[k])] by {
                        assert(before.words@.contains_key(slot(path[k], ix[k])));
                    }
                    assert forall|i: u64| i < 512 implies self.words@[#[trigger] slot(node, i)] == 0 by {
                        lemma_slots_distinct(node, i, table, index);
                        assert(mid[slot(node, i)] == 0);
                    }
                    grown = true;
                    assert(self.mem.free_addrs() =~= free0.difference(new_node_addrs(n0, self.nodes@))) by {
                        assert forall|x: int| #[trigger] new_node_addrs(n0, self.nodes@).contains(x)
                            <==> new_node_addrs(n0, before.nodes@).contains(x) || span(node as int, 4096).contains(x) by {
                            if new_node_addrs(n0, self.nodes@).contains(x) {
                                let b = choose|b: u64|
                                    #[trigger] self.nodes@.contains_key(b) && !n0.contains_key(b) && span(
                                        b as int,
                                        4096,
                                    ).contains(x);
                                if b != node {
                                    assert(before.nodes@.contains_key(b));
                                }
                            }
                            if new_node_addrs(n0, before.nodes@).contains(x) {
                                let b = choose|b: u64|
                                    #[trigger] before.nodes@.contains_key(b) && !n0.contains_key(b) && span(
                                        b as int,
                                        4096,
                                    ).contains(x);
                                assert(self.nodes@.contains_key(b));
                            }
                            if span(node as int, 4096).contains(x) {
                                assert(self.nodes@.contains_key(node) && !n0.contains_key(node));
                            }
                        }
                    }
                }
                table = node;
            } else {
                let child = entry & ADDRESS_MASK;
                proof {
                    lemma_target_addressable(entry);
                }
                match self.nodes.get(&child) {
                    Some(info) => {
                        if info.0 != (depth + 1) as u64 || info.1 != s {
                            return Err(MapError::PagePointerZero(depth));
                        }
                        table = child;
                    },
                    None => {
                        if self.mem.holds_free(child, PAGE_TABLE_SIZE) {
                            return Err(MapError::PagePointerZero(depth));
                        }
                        let ghost before = *self;
                        proof {
                            assert(free0.disjoint(span(child as int, 4096)));
                        }
                        self.adopt_node(child, (depth + 1) as u64, s);
                        proof {
                            lemma_node_bounds(child);
                            assert forall|k: int| 0 <= k <= depth implies path[k] != child by {}
                            assert forall|a: u64| #[trigger]
                                w0.contains_key(a) implies self.words@.contains_key(a) && (self.words@[a]
                                == w0[a] || (!present(w0[a]) && fresh_pointer(n0, self.nodes@, a, self.words@[a]))) by {
                                assert(before.words@.contains_key(a));
                                if before.words@[a] != w0[a] {
                                    assert(fresh_pointer(n0, before.nodes@, a, before.words@[a]));
                                }
                            }
                            assert forall|b: u64, i: u64|
                                self.nodes@.contains_key(b) && !n0.contains_key(b) && i < 512 implies {
                                    let e = self.words@[#[trigger] slot(b, i)];
                                    e == 0 || fresh_pointer(n0, self.nodes@, slot(b, i), e)
                                } by {
                                if b != child {
                                    assert(before.words@.contains_key(slot(b, i)));
                                    let e = before.words@[slot(b, i)];
                                    if e != 0 {
                                        assert(fresh_pointer(n0, before.nodes@, slot(b, i), e));
                                    }
                                }
                            }
                            assert forall|k: int| 0 <= k < depth implies self.words@[slot(path[k], ix[k])]
                                == before.words@[slot(path[k], ix[k])] by {
                                assert(before.words@.contains_key(slot(path[k], ix[k])));
                            }
                            grown = true;
                            assert(self.mem.free_addrs() =~= free0.difference(new_node_addrs(n0, self.nodes@))) by {
                                assert forall|x: int| free0.contains(x) implies (#[trigger] new_node_addrs(n0, self.nodes@).contains(x)
                                    <==> new_node_addrs(n0, before.nodes@).contains(x)) by {
                                    if new_node_addrs(n0, self.nodes@).contains(x) {
                                        let b = choose|b: u64|
                                            #[trigger] self.nodes@.contains_key(b) && !n0.contains_key(b) && span(
                                                b as int,
                                                4096,
                                            ).contains(x);
                                        if b != child {
                                            assert(before.nodes@.contains_key(b));
                                        } else {
                                            assert(span(child as int, 4096).contains(x));
                                            assert(false);
                                        }
                                    }
                                    if new_node_addrs(n0, before.nodes@).contains(x) {
                                        let b = choose|b: u64|
                                            #[trigger] before.nodes@.contains_key(b) && !n0.contains_key(b) && span(
                                                b as int,
                                                4096,
                                            ).contains(x);
                                        assert(self.nodes@.contains_key(b));
                                    }
                                }
                            }
                        }
                        table = child;
                    },
                }
                proof {
                    assert forall|m: nat|
                        m >= ix.len() - 1 && #[trigger] old(self).mem.supplies(m, PAGE_TABLE_SIZE)
                            implies self.mem.supplies((m - (depth + 1)) as nat, PAGE_TABLE_SIZE) by {
                        self.mem.lemma_supplies_fewer(
                            (m - depth) as nat,
                            (m - (depth + 1)) as nat,
                            PAGE_TABLE_SIZE,
                        );
                    }
                    assert forall|m: nat, big: u64|
                        m >= ix.len() - 1 && #[trigger] old(self).mem.supplies_mixed(m, big)
                            implies self.mem.supplies_mixed((m - (depth + 1)) as nat, big) by {
                        self.mem.lemma_supplies_mixed_fewer((m - depth) as nat, (m - (depth + 1)) as nat, big);
                    }
                }
            }
            proof {
                path = path.push(table);
            }
            depth += 1;
        }
        let index = idx[depth];
        proof {
            lemma_node_bounds(table);
        }
        let s = table + 8 * index;
        proof {
            assert(s == slot(table, index));
            assert(ix.skip(depth as int)[0] == index);
        }
        let entry = match self.words.get(&s) {
            Some(e) => *e,
            None => 0,
        };
        proof {
            lemma_present_bit(entry);
        }
        if entry & PAGE_PRESENT != 0 {
            self.stale.push(virtual_address);
        }
        self.words.insert(s, raw);
        proof {
            assert forall|k: int| 0 <= k < depth implies slot(path[k], ix[k]) != s by {
                lemma_slots_distinct(path[k], ix[k], table, index);
            }
            lemma_path_leaf(self.words@, self.nodes@, path, ix, depth as int, raw, 0);
            assert(self.leaf(virtual_address.0, page_size) == Some(raw));
            assert(self.leaf_address(virtual_address.0, page_size) == Some(s));
            if !grown {
                assert(leaf_entry(w0, n0, root, 0, ix) == Some(entry));
            }
            assert(self.stale() == if old(self).leaf(virtual_address.0, page_size) matches Some(e)
                && present(e) {
                old(self).stale().push(virtual_address)
            } else {
                old(self).stale()
            });
        }
        Ok(())
    }

    /// No walk for a page of `page_size` is blocked.
    pub open spec fn unblocked(t: Self, page_size: PageSize) -> bool {
        forall|u: u64|
            !blocked(t.entries(), t.tables(), t.root(), 0, #[trigger] indices(u, page_size))
    }

    /// No page of the region of `len` bytes at `v`, in pages of `page_size`, has a blocked walk.
    pub open spec fn region_unblocked(t: Self, v: u64, len: int, page_size: PageSize) -> bool {
        let size = page_size.bytes() as int;
        let covered = if len == 0 {
            1
        } else {
            len
        };
        forall|k: int|
            0 <= k && k * size < covered ==> !blocked(
                t.entries(),
                t.tables(),
                t.root(),
                0,
                indices(#[trigger] page_at(v, k, size), page_size),
            )
    }

    /// `after` is `before` with `data` mapped at `v` in pages of `page_size` held by the frames
    /// `fs`: there is one page for each `page_size` bytes of `data` (at least one), each frame
    /// is new, page-aligned, addressable by an entry, distinct from the others, taken from the
    /// capability's free memory, and holds its page's bytes, and each page maps to its frame with the bits of
    /// `rwx`, unless a later page of the region has the same table indices and took its entry.
    pub open spec fn slice_mapped(
        before: Self,
        after: Self,
        v: u64,
        data: Seq<u8>,
        page_size: PageSize,
        rwx: RWX,
        fs: Seq<u64>,
    ) -> bool {
        let n = fs.len() as int;
        let size = page_size.bytes() as int;
        let covered = if data.len() == 0 {
            1
        } else {
            data.len() as int
        };
        &&& n >= 1
        &&& (n - 1) * size < covered
        &&& covered <= n * size
        &&& forall|k: int|
            0 <= k < n ==> {
                &&& !before.frame_data().contains_key(#[trigger] fs[k])
                &&& after.frame_data().contains_key(fs[k])
                &&& after.frame_data()[fs[k]] == chunk(data, k, size)
                &&& fs[k] % page_size.bytes() == 0
                &&& fs[k] & ADDRESS_MASK == fs[k]
                &&& span(fs[k] as int, size).subset_of(before.capability().free_addrs())
                &&& after.capability().free_addrs().disjoint(span(fs[k] as int, size))
            }
        &&& forall|j: int, k: int| 0 <= j < k < n ==> #[trigger] fs[j] != #[trigger] fs[k]
        &&& forall|k: int|
            #![trigger fs[k]]
            0 <= k < n ==> (forall|j: int|
                k < j < n ==> indices(page_at(v, k, size), page_size) != indices(
                    #[trigger] page_at(v, j, size),
                    page_size,
                )) ==> after.leaf(page_at(v, k, size), page_size) == Some(fs[k] | rwx.bits())
    }

    /// Data shorter than a page is mapped as exactly one page, whose frame holds the data and
    /// reads as zero after it.
    pub proof fn lemma_short_slice_zero_filled(
        before: Self,
        after: Self,
        v: u64,
        data: Seq<u8>,
        page_size: PageSize,
        rwx: RWX,
        fs: Seq<u64>,
    )
        requires
            Self::slice_mapped(before, after, v, data, page_size, rwx, fs),
            data.len() < page_size.bytes(),
        ensures
            fs.len() == 1,
            after.leaf(v, page_size) == Some(fs[0] | rwx.bits()),
            forall|o: int|
                0 <= o < page_size.bytes() ==> #[trigger] frame_byte_at(after.frame_data()[fs[0]], o)
                    == if o < data.len() {
                    data[o]
                } else {
                    0
                },
    {
        let size = page_size.bytes() as int;
        let n = fs.len() as int;
        assert(n == 1) by (nonlinear_arith)
            requires
                n >= 1,
                (n - 1) * size < (if data.len() == 0 {
                    1
                } else {
                    data.len() as int
                }),
                data.len() < size,
                size >= 1,
        ;
        assert(page_at(v, 0, size) == v);
        assert(chunk(data, 0, size) =~= data);
    }

    /// Maps `slice` at `virtual_address` in pages of `page_size`: each page gets a fresh frame
    /// from the capability, holding its part of `slice` with zeros after it, and an entry with
    /// the bits of `rwx`. An empty slice still gets one page.
    #[verifier::rlimit(100)]
    pub fn map_slice(
        &mut self,
        virtual_address: VirtualAddress,
        slice: &[u8],
        page_size: PageSize,
        rwx: RWX,
    ) -> (r: Result<(), MapError>)
        requires
            old(self).wf(),
        ensures
            final(self).wf(),
            final(self).root() == old(self).root(),
            r == Err::<(), MapError>(MapError::AddressUnaligned(virtual_address, page_size.bytes()))
                <==> virtual_address.0 % page_size.bytes() != 0,
            r == Err::<(), MapError>(MapError::RangeOverflow) <==> virtual_address.0
                % page_size.bytes() == 0 && slice@.len() > 0 && virtual_address.0 + slice@.len() - 1
                > u64::MAX,
            r matches Err(e) ==> e == MapError::AddressUnaligned(virtual_address, page_size.bytes())
                || e == MapError::RangeOverflow || e == MapError::OutOfMemory || e is PagePointerZero,
            r matches Err(e) ==> ((e == MapError::AddressUnaligned(virtual_address, page_size.bytes())
                || e == MapError::RangeOverflow) ==> final(self).entries() == old(self).entries()
                && final(self).frame_data() == old(self).frame_data() && final(self).capability()
                == old(self).capability()),
            final(self).capability().free_addrs().subset_of(old(self).capability().free_addrs()),
            page_size == PageSize::Page4Kb && virtual_address.0 % 4096 == 0 && slice@.len() <= 4096
                && !blocked(
                old(self).entries(),
                old(self).tables(),
                old(self).root(),
                0,
                indices(virtual_address.0, page_size),
            ) && old(self).capability().supplies(4, PAGE_TABLE_SIZE) ==> r is Ok,
            page_size == PageSize::Page4Kb && virtual_address.0 % 4096 == 0 && (slice@.len() == 0
                || virtual_address.0 + slice@.len() - 1 <= u64::MAX) && Self::region_unblocked(
                *old(self),
                virtual_address.0,
                slice@.len() as int,
                page_size,
            ) && old(self).capability().supplies(
                (4 * (slice@.len() / 4096 + 1)) as nat,
                PAGE_TABLE_SIZE,
            ) ==> r is Ok,
            virtual_address.0 % page_size.bytes() == 0 && (slice@.len() == 0 || virtual_address.0
                + slice@.len() - 1 <= u64::MAX) && Self::region_unblocked(
                *old(self),
                virtual_address.0,
                slice@.len() as int,
                page_size,
            ) && old(self).capability().supplies_mixed(
                (4 * ((slice@.len() as int) / (page_size.bytes() as int) + 1)) as nat,
                page_size.bytes(),
            ) ==> r is Ok,
            forall|f: u64| #[trigger]
                old(self).frame_data().contains_key(f) ==> final(self).frame_data().contains_key(f)
                    && final(self).frame_data()[f] == old(self).frame_data()[f],
            r is Ok ==> exists|fs: Seq<u64>|
                #[trigger] Self::slice_mapped(*old(self), *final(self), virtual_address.0, slice@, page_size, rwx, fs),
            r is Ok ==> forall|u: u64|
                (old(self).leaf(u, page_size) matches Some(x) && present(x)) && clear_of(
                    u,
                    virtual_address.0,
                    slice@.len() as int,
                    page_size,
                ) ==> #[trigger] final(self).leaf(u, page_size) == old(self).leaf(u, page_size),
            r is Ok && Self::unblocked(*old(self), page_size) ==> Self::unblocked(*final(self), page_size),
            r is Ok && page_size == PageSize::Page4Kb ==> forall|m: nat|
                m >= 4 * (slice@.len() / 4096 + 1) && #[trigger] old(self).capability().supplies(
                    m,
                    PAGE_TABLE_SIZE,
                ) ==> final(self).capability().supplies(
                    (m - 4 * (slice@.len() / 4096 + 1)) as nat,
                    PAGE_TABLE_SIZE,
                ),
    {
        let size = page_size.size();
        proof {
            lemma_page_aligned(virtual_address.0, page_size);
        }
        if virtual_address.0 & (size - 1) != 0 {
            return Err(MapError::AddressUnaligned(virtual_address, size));
        }
        let len = slice.len();
        if len > 0 && (len - 1) as u64 > u64::MAX - virtual_address.0 {
            return Err(MapError::RangeOverflow);
        }
        let bits = rwx.entry_bits();
        let step = size as usize;
        let mut offset: usize = 0;
        let ghost mut fs: Seq<u64> = Seq::empty();
        let ghost mixed_promised = Self::region_unblocked(
            *old(self),
            virtual_address.0,
            len as int,
            page_size,
        ) && old(self).capability().supplies_mixed(
            (4 * ((len as int) / (size as int) + 1)) as nat,
            size,
        );
        let ghost all_promised = page_size == PageSize::Page4Kb && Self::region_unblocked(
            *old(self),
            virtual_address.0,
            len as int,
            page_size,
        ) && old(self).capability().supplies((4 * (len / 4096 + 1)) as nat, PAGE_TABLE_SIZE);
        loop
            invariant
                self.wf(),
                self.root() == old(self).root(),
                size == page_size.bytes(),
                step == size,
                bits == rwx.bits(),
                len == slice@.len(),
                virtual_address.0 % page_size.bytes() == 0,
                len > 0 ==> virtual_address.0 + len - 1 <= u64::MAX,
                offset == fs.len() * size,
                self.mem.free_addrs().subset_of(old(self).mem.free_addrs()),
                fs.len() == 0 ==> self.mem == old(self).mem && self.words@ == old(self).words@
                    && self.nodes@ == old(self).nodes@,
                forall|k: int|
                    0 <= k < fs.len() ==> {
                        &&& (#[trigger] fs[k]) % page_size.bytes() == 0
                        &&& fs[k] & ADDRESS_MASK == fs[k]
                        &&& span(fs[k] as int, size as int).subset_of(old(self).mem.free_addrs())
                        &&& self.mem.free_addrs().disjoint(span(fs[k] as int, size as int))
                    },
                forall|j: int, k: int| 0 <= j < k < fs.len() ==> #[trigger] fs[j] != #[trigger] fs[k],
                Self::unblocked(*old(self), page_size) ==> Self::unblocked(*self, page_size),
                page_size == PageSize::Page4Kb ==> forall|m: nat|
                    m >= 4 * (len / 4096 + 1) && #[trigger] old(self).mem.supplies(m, PAGE_TABLE_SIZE)
                        ==> self.mem.supplies((m - 4 * fs.len()) as nat, PAGE_TABLE_SIZE),
                mixed_promised == (Self::region_unblocked(
                    *old(self),
                    virtual_address.0,
                    len as int,
                    page_size,
                ) && old(self).capability().supplies_mixed(
                    (4 * ((len as int) / (size as int) + 1)) as nat,
                    size,
                )),
                mixed_promised ==> self.mem.supplies_mixed(
                    (4 * ((len as int) / (size as int) + 1) - 4 * fs.len()) as nat,
                    size,
                ) && 4 * fs.len() <= 4 * ((len as int) / (size as int) + 1),
                mixed_promised ==> forall|k: int|
                    fs.len() <= k && k * (size as int) < (if len == 0 {
                        1
                    } else {
                        len as int
                    }) ==> !blocked(
                        self.entries(),
                        self.tables(),
                        self.root(),
                        0,
                        indices(#[trigger] page_at(virtual_address.0, k, size as int), page_size),
                    ),
                all_promised == (page_size == PageSize::Page4Kb && Self::region_unblocked(
                    *old(self),
                    virtual_address.0,
                    len as int,
                    page_size,
                ) && old(self).capability().supplies((4 * (len / 4096 + 1)) as nat, PAGE_TABLE_SIZE)),
                all_promised ==> self.mem.supplies(
                    (4 * (len / 4096 + 1) - 4 * fs.len()) as nat,
                    PAGE_TABLE_SIZE,
                ) && 4 * fs.len() <= 4 * (len / 4096 + 1),
                all_promised ==> forall|k: int|
                    fs.len() <= k && k * (size as int) < (if len == 0 {
                        1
                    } else {
                        len as int
                    }) ==> !blocked(
                        self.entries(),
                        self.tables(),
                        self.root(),
                        0,
                        indices(#[trigger] page_at(virtual_address.0, k, size as int), page_size),
                    ),
                forall|u: u64|
                    (old(self).leaf(u, page_size) matches Some(x) && present(x)) && (forall|k: int|
                        0 <= k < fs.len() ==> indices(
                            #[trigger] page_at(virtual_address.0, k, size as int),
                            page_size,
                        ) != indices(u, page_size)) ==> #[trigger] self.leaf(u, page_size) == old(
                        self).leaf(u, page_size),
                offset < len || (offset == 0 && len == 0),
                forall|f: u64| #[trigger]
                    old(self).frame_data().contains_key(f) ==> self.frame_data().contains_key(f)
                        && self.frame_data()[f] == old(self).frame_data()[f],
                forall|k: int|
                    0 <= k < fs.len() ==> {
                        &&& !old(self).frame_data().contains_key(#[trigger] fs[k])
                        &&& self.frame_data().contains_key(fs[k])
                        &&& self.frame_data()[fs[k]] == chunk(slice@, k, size as int)
                    },
                forall|k: int|
                    #![trigger fs[k]]
                    0 <= k < fs.len() ==> (forall|j: int|
                        k < j < fs.len() ==> indices(
                            page_at(virtual_address.0, k, size as int),
                            page_size,
                        ) != indices(#[trigger] page_at(virtual_address.0, j, size as int), page_size))
                        ==> self.leaf(page_at(virtual_address.0, k, size as int), page_size) == Some(
                        fs[k] | rwx.bits(),
                    ),
            decreases len - offset,
        {
            let take = if len - offset > step {
                step
            } else {
                len - offset
            };
            let data = copy_bytes(slice, offset, offset + take);
            let ghost before = self.frame_data();
            let ghost pre = *self;
            let ghost free_before = self.mem.free_addrs();
            let ghost promised = page_size == PageSize::Page4Kb && len <= 4096 && !blocked(
                old(self).entries(),
                old(self).tables(),
                old(self).root(),
                0,
                indices(virtual_address.0, page_size),
            ) && old(self).capability().supplies(4, PAGE_TABLE_SIZE);
            proof {
                if promised && fs.len() == 0 {
                    self.mem.lemma_supplies_fewer(4, 1, PAGE_TABLE_SIZE);
                }
                if all_promised {
                    lemma_page_room(fs.len() as int, len as int);
                    self.mem.lemma_supplies_fewer(
                        (4 * (len / 4096 + 1) - 4 * fs.len()) as nat,
                        1,
                        PAGE_TABLE_SIZE,
                    );
                }
            }
            proof {
                if mixed_promised {
                    lemma_page_room_size(fs.len() as int, len as int, size as int);
                }
            }
            let frame = match self.fill_frame(size, data) {
                Ok(f) => f,
                Err(e) => {
                    proof {
                        if mixed_promised {
                            assert(pre.mem.supplies_mixed(
                                (4 * ((len as int) / (size as int) + 1) - 4 * fs.len()) as nat,
                                size,
                            ));
                        }
                    }
                    return Err(e);
                },
            };
            let ghost k = fs.len() as int;
            proof {
                assert(size > 0);
                assert(span(frame as int, size as int).contains(frame as int));
                assert forall|j: int| 0 <= j < k implies fs[j] != frame by {
                    assert(span(fs[j] as int, size as int).contains(fs[j] as int));
                }
                assert(chunk(slice@, k, size as int) == data@) by {
                    assert((k + 1) * size == offset + size) by (nonlinear_arith)
                        requires
                            offset == k * size,
                    ;
                }
                fs = fs.push(frame);
                assert forall|j: int| 0 <= j < fs.len() implies {
                    &&& !old(self).frame_data().contains_key(#[trigger] fs[j])
                    &&& self.frame_data().contains_key(fs[j])
                    &&& self.frame_data()[fs[j]] == chunk(slice@, j, size as int)
                } by {
                    if j < k {
                        assert(before.contains_key(fs[j]));
                    }
                }
                vstd::arithmetic::div_mod::lemma_mod_multiples_vanish(
                    k,
                    virtual_address.0 as int,
                    size as int,
                );
                assert((virtual_address.0 + offset) % (size as int) == 0) by {
                    assert(virtual_address.0 + offset == size * k + virtual_address.0) by (nonlinear_arith)
                        requires
                            offset == k * size,
                    ;
                }
            }
            let page = VirtualAddress(virtual_address.0 + offset as u64);
            let ghost mid = *self;
            match self.map_page(page, frame | bits, page_size) {
                Ok(()) => {},
                Err(e) => {
                    proof {
                        if promised && k == 0 {
                            assert(page.0 == virtual_address.0);
                            assert(mid.capability().supplies(3, PAGE_TABLE_SIZE));
                        }
                        if mixed_promised {
                            assert(pre.mem.supplies_mixed(
                                (4 * ((len as int) / (size as int) + 1) - 4 * k) as nat,
                                size,
                            ));
                            assert(mid.capability().supplies_mixed(
                                (4 * ((len as int) / (size as int) + 1) - 4 * k - 1) as nat,
                                size,
                            ));
                            assert(page.0 == page_at(virtual_address.0, k, size as int));
                            assert(!blocked(
                                pre.entries(),
                                pre.tables(),
                                pre.root(),
                                0,
                                indices(page_at(virtual_address.0, k, size as int), page_size),
                            ));
                            lemma_clean_walk(
                                mid.entries(),
                                mid.tables(),
                                mid.capability().free_addrs(),
                                mid.root(),
                                0,
                                indices(page.0, page_size),
                            );
                            lemma_indices_bound(page.0, page_size);
                        }
                        if all_promised {
                            assert(mid.capability().supplies(
                                (4 * (len / 4096 + 1) - 4 * k - 1) as nat,
                                PAGE_TABLE_SIZE,
                            ));
                            mid.mem.lemma_supplies_fewer(
                                (4 * (len / 4096 + 1) - 4 * k - 1) as nat,
                                3,
                                PAGE_TABLE_SIZE,
                            );
                            assert(page.0 == page_at(virtual_address.0, k, size as int));
                        }
                    }
                    return Err(e);
                },
            }
            proof {
                assert forall|j: int| 0 <= j < fs.len() implies {
                    &&& (#[trigger] fs[j]) % page_size.bytes() == 0
                    &&& fs[j] & ADDRESS_MASK == fs[j]
                    &&& span(fs[j] as int, size as int).subset_of(old(self).mem.free_addrs())
                    &&& self.mem.free_addrs().disjoint(span(fs[j] as int, size as int))
                } by {
                    assert(mid.mem.free_addrs().disjoint(span(fs[j] as int, size as int)));
                }
                assert(page.0 == page_at(virtual_address.0, k, size as int));
                if Self::unblocked(*old(self), page_size) {
                    assert forall|u: u64|
                        !blocked(
                            self.entries(),
                            self.tables(),
                            self.root(),
                            0,
                            #[trigger] indices(u, page_size),
                        ) by {
                        assert(!blocked(pre.entries(), pre.tables(), pre.root(), 0, indices(u, page_size)));
                        Self::lemma_mapping_adds_no_block(mid, *self, page, frame | bits, page_size, u);
                    }
                }
                if page_size == PageSize::Page4Kb {
                    assert forall|m: nat|
                        m >= 4 * (len / 4096 + 1) && #[trigger] old(self).mem.supplies(m, PAGE_TABLE_SIZE)
                            implies self.mem.supplies((m - 4 * fs.len()) as nat, PAGE_TABLE_SIZE) by {
                        lemma_page_room(k, len as int);
                        assert(pre.mem.supplies((m - 4 * k) as nat, PAGE_TABLE_SIZE));
                        assert(mid.capability().supplies((m - 4 * k - 1) as nat, PAGE_TABLE_SIZE));
                        assert(self.capability().supplies((m - 4 * k - 1 - 3) as nat, PAGE_TABLE_SIZE));
                    }
                }
                if mixed_promised {
                    assert(pre.mem.supplies_mixed(
                        (4 * ((len as int) / (size as int) + 1) - 4 * k) as nat,
                        size,
                    ));
                    assert(mid.capability().supplies_mixed(
                        (4 * ((len as int) / (size as int) + 1) - 4 * k - 1) as nat,
                        size,
                    ));
                    assert(!blocked(
                        pre.entries(),
                        pre.tables(),
                        pre.root(),
                        0,
                        indices(page_at(virtual_address.0, k, size as int), page_size),
                    ));
                    lemma_clean_walk(
                        mid.entries(),
                        mid.tables(),
                        mid.capability().free_addrs(),
                        mid.root(),
                        0,
                        indices(page.0, page_size),
                    );
                    lemma_indices_bound(page.0, page_size);
                    let used = (indices(page.0, page_size).len() - 1) as int;
                    assert(self.mem.supplies_mixed(
                        (4 * ((len as int) / (size as int) + 1) - 4 * k - 1 - used) as nat,
                        size,
                    ));
                    self.mem.lemma_supplies_mixed_fewer(
                        (4 * ((len as int) / (size as int) + 1) - 4 * k - 1 - used) as nat,
                        (4 * ((len as int) / (size as int) + 1) - 4 * (k + 1)) as nat,
                        size,
                    );
                    assert forall|j: int|
                        fs.len() <= j && j * (size as int) < (if len == 0 {
                            1
                        } else {
                            len as int
                        }) implies !blocked(
                        self.entries(),
                        self.tables(),
                        self.root(),
                        0,
                        indices(#[trigger] page_at(virtual_address.0, j, size as int), page_size),
                    ) by {
                        assert(!blocked(
                            pre.entries(),
                            pre.tables(),
                            pre.root(),
                            0,
                            indices(page_at(virtual_address.0, j, size as int), page_size),
                        ));
                        Self::lemma_mapping_adds_no_block(
                            mid,
                            *self,
                            page,
                            frame | bits,
                            page_size,
                            page_at(virtual_address.0, j, size as int),
                        );
                    }
                }
                if all_promised {
                    assert(mid.capability().supplies(
                        (4 * (len / 4096 + 1) - 4 * k - 1) as nat,
                        PAGE_TABLE_SIZE,
                    ));
                    assert(self.mem.supplies(
                        (4 * (len / 4096 + 1) - 4 * k - 1 - 3) as nat,
                        PAGE_TABLE_SIZE,
                    ));
                    assert forall|j: int|
                        fs.len() <= j && j * (size as int) < (if len == 0 {
                            1
                        } else {
                            len as int
                        }) implies !blocked(
                        self.entries(),
                        self.tables(),
                        self.root(),
                        0,
                        indices(#[trigger] page_at(virtual_address.0, j, size as int), page_size),
                    ) by {
                        assert(!blocked(
                            pre.entries(),
                            pre.tables(),
                            pre.root(),
                            0,
                            indices(page_at(virtual_address.0, j, size as int), page_size),
                        ));
                        Self::lemma_mapping_adds_no_block(
                            mid,
                            *self,
                            page,
                            frame | bits,
                            page_size,
                            page_at(virtual_address.0, j, size as int),
                        );
                    }
                }
                assert forall|u: u64|
                    (old(self).leaf(u, page_size) matches Some(x) && present(x)) && (forall|j: int|
                        0 <= j < fs.len() ==> indices(
                            #[trigger] page_at(virtual_address.0, j, size as int),
                            page_size,
                        ) != indices(u, page_size)) implies #[trigger] self.leaf(u, page_size) == old(
                    self).leaf(u, page_size) by {
                    assert(indices(page_at(virtual_address.0, k, size as int), page_size) != indices(
                        u,
                        page_size,
                    ));
                    assert(pre.leaf(u, page_size) == old(self).leaf(u, page_size));
                    assert(mid.leaf(u, page_size) == pre.leaf(u, page_size));
                    Self::lemma_mapping_keeps_other_pages(mid, *self, page, frame | bits, page_size, u);
                }
                assert forall|i: int|
                    #![trigger fs[i]]
                    0 <= i < fs.len() && (forall|j: int|
                        i < j < fs.len() ==> indices(
                            page_at(virtual_address.0, i, size as int),
                            page_size,
                        ) != indices(#[trigger] page_at(virtual_address.0, j, size as int), page_size))
                        implies self.leaf(page_at(virtual_address.0, i, size as int), page_size)
                        == Some(fs[i] | rwx.bits()) by {
                    if i < k {
                        assert(indices(page_at(virtual_address.0, i, size as int), page_size) != indices(
                            page_at(virtual_address.0, k, size as int),
                            page_size,
                        ));
                        lemma_bits_present(rwx);
                        lemma_present_entry(fs[i], bits);
                        Self::lemma_mapping_keeps_other_pages(
                            mid,
                            *self,
                            page,
                            frame | bits,
                            page_size,
                            page_at(virtual_address.0, i, size as int),
                        );
                    }
                }
            }
            offset = offset + take;
            if offset >= len {
                proof {
                    let n = fs.len() as int;
                    assert((n - 1) * size == offset - take) by (nonlinear_arith)
                        requires
                            offset - take == (n - 1) * size,
                    ;
                    assert(n * size == offset - take + size) by (nonlinear_arith)
                        requires
                            offset - take == (n - 1) * size,
                    ;
                    assert(Self::slice_mapped(*old(self), *self, virtual_address.0, slice@, page_size, rwx, fs)) by {
                        assert(fs[n - 1] == frame);
                    }
                    if page_size == PageSize::Page4Kb {
                        lemma_page_room(n - 1, len as int);
                        assert forall|m: nat|
                            m >= 4 * (len / 4096 + 1) && #[trigger] old(self).capability().supplies(
                                m,
                                PAGE_TABLE_SIZE,
                            ) implies self.capability().supplies(
                            (m - 4 * (len / 4096 + 1)) as nat,
                            PAGE_TABLE_SIZE,
                        ) by {
                            assert(self.mem.supplies((m - 4 * n) as nat, PAGE_TABLE_SIZE));
                            self.mem.lemma_supplies_fewer(
                                (m - 4 * n) as nat,
                                (m - 4 * (len / 4096 + 1)) as nat,
                                PAGE_TABLE_SIZE,
                            );
                        }
                    }
                }
                return Ok(());
            }
            proof {
                assert(offset == fs.len() * size) by (nonlinear_arith)
                    requires
                        offset == (fs.len() - 1) * size + size,
                ;
            }
        }
    }

    /// Maps `size` zero bytes at `virtual_address`, as `map_slice` does with a slice of zeros.
    pub fn map_zero(&mut self, virtual_address: VirtualAddress, size: usize, page_size: PageSize, rwx: RWX) -> (r: Result<(), MapError>)
        requires
            old(self).wf(),
        ensures
            final(self).wf(),
            final(self).root() == old(self).root(),
            r == Err::<(), MapError>(MapError::AddressUnaligned(virtual_address, page_size.bytes()))
                <==> virtual_address.0 % page_size.bytes() != 0,
            r == Err::<(), MapError>(MapError::RangeOverflow) <==> virtual_address.0
                % page_size.bytes() == 0 && size > 0 && virtual_address.0 + size - 1 > u64::MAX,
            r matches Err(e) ==> e == MapError::AddressUnaligned(virtual_address, page_size.bytes())
                || e == MapError::RangeOverflow || e == MapError::OutOfMemory || e is PagePointerZero,
            r matches Err(e) ==> ((e == MapError::AddressUnaligned(virtual_address, page_size.bytes())
                || e == MapError::RangeOverflow) ==> final(self).entries() == old(self).entries()
                && final(self).frame_data() == old(self).frame_data() && final(self).capability()
                == old(self).capability()),
            final(self).capability().free_addrs().subset_of(old(self).capability().free_addrs()),
            page_size == PageSize::Page4Kb && virtual_address.0 % 4096 == 0 && (size == 0
                || virtual_address.0 + size - 1 <= u64::MAX) && Self::region_unblocked(
                *old(self),
                virtual_address.0,
                size as int,
                page_size,
            ) && old(self).capability().supplies((4 * (size / 4096 + 1)) as nat, PAGE_TABLE_SIZE)
                ==> r is Ok,
            virtual_address.0 % page_size.bytes() == 0 && (size == 0 || virtual_address.0 + size - 1
                <= u64::MAX) && Self::region_unblocked(
                *old(self),
                virtual_address.0,
                size as int,
                page_size,
            ) && old(self).capability().supplies_mixed(
                (4 * ((size as int) / (page_size.bytes() as int) + 1)) as nat,
                page_size.bytes(),
            ) ==> r is Ok,
            page_size == PageSize::Page4Kb && virtual_address.0 % 4096 == 0 && size <= 4096
                && !blocked(
                old(self).entries(),
                old(self).tables(),
                old(self).root(),
                0,
                indices(virtual_address.0, page_size),
            ) && old(self).capability().supplies(4, PAGE_TABLE_SIZE) ==> r is Ok,
            r is Ok ==> exists|fs: Seq<u64>|
                #[trigger] Self::slice_mapped(
                    *old(self),
                    *final(self),
                    virtual_address.0,
                    zero_bytes(size as nat),
                    page_size,
                    rwx,
                    fs,
                ),
            r is Ok ==> forall|u: u64|
                (old(self).leaf(u, page_size) matches Some(x) && present(x)) && clear_of(
                    u,
                    virtual_address.0,
                    size as int,
                    page_size,
                ) ==> #[trigger] final(self).leaf(u, page_size) == old(self).leaf(u, page_size),
            forall|f: u64| #[trigger]
                old(self).frame_data().contains_key(f) ==> final(self).frame_data().contains_key(f)
                    && final(self).frame_data()[f] == old(self).frame_data()[f],
    {
        let zeros: Vec<u8> = vec![0u8; size];
        proof {
            assert(zeros@ =~= zero_bytes(size as nat));
        }
        self.map_slice(virtual_address, zeros.as_slice(), page_size, rwx)
    }

    /// The entry that maps `virtual_address` with a page of `page_size`, found by walking the
    /// table as `map_page` does.
    pub fn lookup(&self, virtual_address: VirtualAddress, page_size: PageSize) -> (r: Option<u64>)
        requires
            self.wf(),
        ensures
            r == self.leaf(virtual_address.0, page_size),
    {
        let idx = table_indices(virtual_address.0, page_size);
        let ghost ix = idx@;
        proof {
            assert forall|k: int| 0 <= k < ix.len() implies #[trigger] ix[k] < 512 by {
                lemma_index_bound(virtual_address.0 >> 39u64);
                lemma_index_bound(virtual_address.0 >> 30u64);
                lemma_index_bound(virtual_address.0 >> 21u64);
                lemma_index_bound(virtual_address.0 >> 12u64);
            }
            assert(ix.skip(0) =~= ix);
        }
        let mut table = self.cr3_root.0;
        let mut depth: usize = 0;
        while depth + 1 < idx.len()
            invariant
                self.wf(),
                idx@ == ix,
                ix == indices(virtual_address.0, page_size),
                2 <= ix.len() <= 4,
                forall|k: int| 0 <= k < ix.len() ==> #[trigger] ix[k] < 512,
                depth < ix.len(),
                self.nodes@.contains_key(table),
                self.leaf(virtual_address.0, page_size) == leaf_entry(
                    self.words@,
                    self.nodes@,
                    table,
                    depth as int,
                    ix.skip(depth as int),
                ),
            decreases ix.len() - depth,
        {
            let index = idx[depth];
            proof {
                lemma_node_bounds(table);
            }
            let s = table + 8 * index;
            proof {
                assert(s == slot(table, index));
                assert(ix.skip(depth as int)[0] == index);
                assert(ix.skip(depth as int).drop_first() =~= ix.skip(depth + 1));
            }
            let entry = match self.words.get(&s) {
                Some(e) => *e,
                None => 0,
            };
            proof {
                lemma_present_bit(entry);
            }
            if entry & PAGE_PRESENT == 0 {
                return None;
            }
            let child = entry & ADDRESS_MASK;
            let info = match self.nodes.get(&child) {
                Some(i) => *i,
                None => {
                    return None;
                },
            };
            if info.0 != (depth + 1) as u64 || info.1 != s {
                return None;
            }
            table = child;
            depth += 1;
        }
        let index = idx[depth];
        proof {
            lemma_node_bounds(table);
            assert(ix.skip(depth as int)[0] == index);
        }
        let s = table + 8 * index;
        match self.words.get(&s) {
            Some(e) => Some(*e),
            None => Some(0),
        }
    }

    /// The byte at `offset` of the frame at `frame` that `map_slice` filled; bytes past what was
    /// written read as zero. `None` when no such frame exists.
    pub fn frame_byte(&self, frame: u64, offset: usize) -> (r: Option<u8>)
        ensures
            r == if self.frame_data().contains_key(frame) {
                Some(frame_byte_at(self.frame_data()[frame], offset as int))
            } else {
                None::<u8>
            },
    {
        match self.frames.get(&frame) {
            Some(data) => {
                if offset < data.len() {
                    Some(data[offset])
                } else {
                    Some(0)
                }
            },
            None => None,
        }
    }

    /// Takes a frame of `size` bytes from the capability and records `data` as its first bytes.
    fn fill_frame(&mut self, size: u64, data: Vec<u8>) -> (r: Result<u64, MapError>)
        requires
            old(self).wf(),
            size >= 4096,
            size % 4096 == 0,
        ensures
            final(self).capability().free_addrs().subset_of(old(self).capability().free_addrs()),
            old(self).capability().supplies(1, size) ==> r is Ok,
            forall|n: nat|
                n >= 1 && #[trigger] old(self).capability().supplies(n, size) ==> final(self).capability().supplies((n - 1) as nat, size),
            forall|n: nat, big: u64|
                n >= 1 && size == big && #[trigger] old(self).capability().supplies_mixed(n, big) ==> r is Ok
                    && final(self).capability().supplies_mixed((n - 1) as nat, big),
            r matches Ok(f) ==> span(f as int, size as int).subset_of(old(self).capability().free_addrs())
                && final(self).capability().free_addrs().disjoint(span(f as int, size as int)),
            final(self).wf(),
            final(self).root() == old(self).root(),
            final(self).stale() == old(self).stale(),
            final(self).entries() == old(self).entries(),
            final(self).tables() == old(self).tables(),
            r matches Ok(f) ==> {
                &&& !old(self).frame_data().contains_key(f)
                &&& f & ADDRESS_MASK == f
                &&& (f as int) % (size as int) == 0
                &&& final(self).frame_data() == old(self).frame_data().insert(f, data@)
            },
            r matches Err(e) ==> e == MapError::OutOfMemory && final(self).frame_data() == old(
                self).frame_data(),
    {
        let f = match self.mem.alloc_block(size, size) {
            Some(a) => a,
            None => return Err(MapError::OutOfMemory),
        };
        proof {
            if old(self).capability().supplies(1, size) {
                lemma_addressable(f, size);
            }
            if exists|n: nat, big: u64|
                n >= 1 && size == big && #[trigger] old(self).capability().supplies_mixed(n, big) {
                lemma_addressable(f, size);
            }
        }
        if f & ADDRESS_MASK != f {
            return Err(MapError::OutOfMemory);
        }
        proof {
            assert(span(f as int, size as int).contains(f as int));
        }
        self.frames.insert(f, data);
        proof {
            assert(self.frame_data() =~= old(self).frame_data().insert(f, data@));
        }
        Ok(f)
    }

    /// Takes the memory at `node`, which no node holds and the capability does not hold as free,
    /// as a node of zero entries at `level`, pointed at by the entry at `parent`.
    fn adopt_node(&mut self, node: u64, level: u64, parent: u64)
        requires
            old(self).wf(),
            node & ADDRESS_MASK == node,
            !old(self).tables().contains_key(node),
            old(self).capability().free_addrs().disjoint(span(node as int, 4096)),
        ensures
            final(self).wf(),
            final(self).root() == old(self).root(),
            final(self).stale() == old(self).stale(),
            final(self).frames@ == old(self).frames@,
            final(self).mem == old(self).mem,
            final(self).tables() == old(self).tables().insert(node, (level, parent)),
            forall|i: u64| i < 512 ==> final(self).entries()[#[trigger] slot(node, i)] == 0,
            forall|a: u64|
                #[trigger] old(self).words@.contains_key(a) ==> final(self).words@.contains_key(a)
                    && final(self).words@[a] == old(self).words@[a],
    {
        proof {
            lemma_node_bounds(node);
        }
        let ghost w0 = self.words@;
        proof {
            assert forall|a: u64| #[trigger] w0.contains_key(a) implies !(node <= a < node + 4096) by {
                if node <= a < node + 4096 {
                    lemma_owner_region(node, a);
                }
            }
        }
        zero_node(&mut self.words, node);
        self.nodes.insert(node, (level, parent));
        proof {
            let free = self.mem.free_addrs();
            assert forall|bb: u64, x: int|
                #![trigger self.nodes@.contains_key(bb), free.contains(x)]
                self.nodes@.contains_key(bb) && bb <= x < bb + 4096 implies !free.contains(x) by {
                if bb == node {
                    assert(span(node as int, 4096).contains(x));
                }
            }
            assert forall|a: u64| #[trigger] self.words@.contains_key(a) implies !free.contains(
                a as int,
            ) by {
                if !w0.contains_key(a) {
                    assert(span(node as int, 4096).contains(a as int));
                }
            }
            assert forall|a: u64| #[trigger] self.words@.contains_key(a) implies self.nodes@.contains_key(
                owner(a),
            ) by {
                if !w0.contains_key(a) {
                    lemma_owner_region(node, a);
                }
            }
            assert forall|bb: u64, i: u64|
                self.nodes@.contains_key(bb) && i < 512 implies self.words@.contains_key(
                #[trigger] slot(bb, i),
            ) by {
                if bb != node {
                    lemma_node_bounds(bb);
                    assert(w0.contains_key(slot(bb, i)));
                }
            }
        }
    }

    /// Takes a zero-filled node from the capability and records it at `level`, pointed at by
    /// the entry at `parent`.
    fn add_node(&mut self, level: u64, parent: u64) -> (r: Result<u64, MapError>)
        requires
            old(self).wf(),
        ensures
            final(self).wf(),
            final(self).root() == old(self).root(),
            final(self).stale() == old(self).stale(),
            final(self).frames@ == old(self).frames@,
            final(self).capability().free_addrs().subset_of(old(self).capability().free_addrs()),
            r matches Ok(b) ==> {
                &&& !old(self).tables().contains_key(b)
                &&& b & ADDRESS_MASK == b
                &&& final(self).capability().free_addrs() == old(self).capability().free_addrs().difference(
                    span(b as int, 4096),
                )
                &&& final(self).tables() == old(self).tables().insert(b, (level, parent))
                &&& forall|i: u64| i < 512 ==> final(self).entries()[#[trigger] slot(b, i)] == 0
                &&& forall|a: u64|
                    #[trigger] old(self).words@.contains_key(a) ==> final(self).words@.contains_key(a)
                        && final(self).words@[a] == old(self).words@[a]
            },
            r matches Err(e) ==> e == MapError::OutOfMemory && final(self).tables() == old(self).tables() && final(self).entries() == old(self).entries(),
            old(self).capability().supplies(1, PAGE_TABLE_SIZE) ==> r is Ok,
            forall|n: nat|
                n >= 1 && #[trigger] old(self).capability().supplies(n, PAGE_TABLE_SIZE) ==> final(self).capability().supplies((n - 1) as nat, PAGE_TABLE_SIZE),
            forall|n: nat, big: u64|
                n >= 1 && #[trigger] old(self).capability().supplies_mixed(n, big) ==> r is Ok
                    && final(self).capability().supplies_mixed((n - 1) as nat, big),
    {
        let ghost free0 = self.mem.free_addrs();
        let b = match self.mem.alloc_block(PAGE_TABLE_SIZE, PAGE_TABLE_SIZE) {
            Some(a) => a,
            None => return Err(MapError::OutOfMemory),
        };
        proof {
            if old(self).capability().supplies(1, PAGE_TABLE_SIZE) {
                lemma_addressable(b, PAGE_TABLE_SIZE);
            }
            if exists|n: nat, big: u64|
                n >= 1 && #[trigger] old(self).capability().supplies_mixed(n, big) {
                lemma_addressable(b, PAGE_TABLE_SIZE);
            }
        }
        if b & ADDRESS_MASK != b {
            return Err(MapError::OutOfMemory);
        }
        proof {
            lemma_node_bounds(b);
            assert(!self.nodes@.contains_key(b)) by {
                assert(span(b as int, 4096).contains(b as int));
            }
        }
        let ghost w0 = self.words@;
        zero_node(&mut self.words, b);
        self.nodes.insert(b, (level, parent));
        proof {
            let free = self.mem.free_addrs();
            assert forall|a: u64| #[trigger] w0.contains_key(a) implies !(b <= a < b + 4096) by {
                if b <= a < b + 4096 {
                    assert(span(b as int, 4096).contains(a as int));
                }
            }
            assert forall|bb: u64, x: int|
                #![trigger self.nodes@.contains_key(bb), free.contains(x)]
                self.nodes@.contains_key(bb) && bb <= x < bb + 4096 implies !free.contains(x) by {
                if bb == b {
                    assert(span(b as int, 4096).contains(x));
                } else {
                    assert(free0.contains(x) ==> !free0.contains(x));
                }
            }
            assert forall|a: u64| #[trigger] self.words@.contains_key(a) implies !free.contains(
                a as int,
            ) by {
                if !w0.contains_key(a) {
                    assert(span(b as int, 4096).contains(a as int));
                }
            }
            assert forall|a: u64| #[trigger] self.words@.contains_key(a) implies self.nodes@.contains_key(
                owner(a),
            ) by {
                if !w0.contains_key(a) {
                    lemma_owner_region(b, a);
                }
            }
            assert forall|bb: u64, i: u64|
                self.nodes@.contains_key(bb) && i < 512 implies self.words@.contains_key(
                #[trigger] slot(bb, i),
            ) by {
                if bb != b {
                    lemma_node_bounds(bb);
                    assert(w0.contains_key(slot(bb, i)));
                }
            }
            assert(self.frame_data() =~= old(self).frame_data());
        }
        Ok(b)
    }
}

} // verus!
