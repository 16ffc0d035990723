//! A fixed-capacity set of disjoint, non-adjacent closed ranges of `u64` addresses.
use vstd::math::min;
use vstd::prelude::*;

verus! {

/// The most entries a `RangeSet` holds at once.
pub const CAPACITY: usize = 32;

/// An inclusive range `[start, end]`; it is well formed when `start <= end`.
#[derive(Clone, Copy, Debug, PartialEq, Eq, Structural)]
pub struct ClosedRange {
    pub start: u64,
    pub end: u64,
}

impl ClosedRange {
    pub open spec fn valid(self) -> bool {
        self.start <= self.end
    }

    pub open spec fn has(self, x: int) -> bool {
        self.start <= x && x <= self.end
    }

    /// The addresses the range holds.
    pub open spec fn addrs(self) -> Set<int> {
        Set::new(|x: int| self.has(x))
    }

    /// The number of addresses in a well-formed range.
    pub open spec fn size(self) -> int {
        self.end - self.start + 1
    }

    pub fn new(start: u64, end: u64) -> (r: ClosedRange)
        ensures
            r.start == start,
            r.end == end,
    {
        ClosedRange { start, end }
    }
}

/// Two well-formed ranges that share an address or sit side by side.
pub open spec fn touching(a: ClosedRange, b: ClosedRange) -> bool {
    &&& a.valid()
    &&& b.valid()
    &&& a.start <= b.end + 1
    &&& b.start <= a.end + 1
}

/// Both ranges are well formed and `inner` lies within `outer`.
pub open spec fn encloses(outer: ClosedRange, inner: ClosedRange) -> bool {
    &&& outer.valid()
    &&& inner.valid()
    &&& outer.start <= inner.start
    &&& inner.end <= outer.end
}

/// At least one address lies between the two ranges.
pub open spec fn apart(a: ClosedRange, b: ClosedRange) -> bool {
    a.end + 1 < b.start || b.end + 1 < a.start
}

/// Entries that fit the capacity, are each well formed, and are pairwise apart.
pub open spec fn well_formed(s: Seq<ClosedRange>) -> bool {
    &&& s.len() <= CAPACITY
    &&& forall|i: int| 0 <= i < s.len() ==> (#[trigger] s[i]).valid()
    &&& forall|i: int, j: int|
        0 <= i < s.len() && 0 <= j < s.len() && i != j ==> apart(#[trigger] s[i], #[trigger] s[j])
}

pub open spec fn covers(s: Seq<ClosedRange>, x: int) -> bool {
    exists|i: int| 0 <= i < s.len() && (#[trigger] s[i]).has(x)
}

/// The addresses held by any of the entries.
pub open spec fn covered(s: Seq<ClosedRange>) -> Set<int> {
    Set::new(|x: int| covers(s, x))
}

/// The two ranges share an address.
pub open spec fn overlapping(a: ClosedRange, b: ClosedRange) -> bool {
    a.start <= b.end && b.start <= a.end
}

/// Some entry encloses `r`.
pub open spec fn enclosed(s: Seq<ClosedRange>, r: ClosedRange) -> bool {
    exists|i: int| 0 <= i < s.len() && encloses(#[trigger] s[i], r)
}

/// Some entry encloses `r` with addresses left over on both sides.
pub open spec fn strictly_inside(s: Seq<ClosedRange>, r: ClosedRange) -> bool {
    exists|i: int|
        0 <= i < s.len() && encloses(#[trigger] s[i], r) && s[i].start < r.start && r.end < s[i].end
}

/// `x` is a non-zero power of two.
pub open spec fn is_pow2(x: u64) -> bool {
    x != 0 && x & ((x - 1) as u64) == 0
}

/// The first multiple of `align` at or above the start of `e`.
pub open spec fn aligned_start(e: ClosedRange, align: u64) -> int {
    if e.start % align == 0 {
        e.start as int
    } else {
        e.start + (align - e.start % align)
    }
}

/// The `size` addresses from `a` on.
pub open spec fn span(a: int, size: int) -> Set<int> {
    Set::new(|x: int| a <= x < a + size)
}

/// `e` holds `size` addresses from its aligned start on, and their last one fits a `usize`.
pub open spec fn fits(e: ClosedRange, size: u64, align: u64) -> bool {
    &&& aligned_start(e, align) + size - 1 <= e.end
    &&& aligned_start(e, align) + size - 1 <= usize::MAX
}

/// Taking the aligned block out of `e` leaves addresses on both sides of it.
pub open spec fn splits(e: ClosedRange, size: u64, align: u64) -> bool {
    e.start < aligned_start(e, align) && aligned_start(e, align) + size - 1 < e.end
}

/// The index of the first entry from `i` on that fits.
pub open spec fn first_fit(s: Seq<ClosedRange>, size: u64, align: u64, i: int) -> Option<int>
    decreases s.len() - i,
{
    if i < 0 || i >= s.len() {
        None
    } else if fits(s[i], size, align) {
        Some(i)
    } else {
        first_fit(s, size, align, i + 1)
    }
}

/// The number of addresses in all the entries.
pub open spec fn total(s: Seq<ClosedRange>) -> int
    decreases s.len(),
{
    if s.len() == 0 {
        0
    } else {
        total(s.drop_last()) + s.last().size()
    }
}

/// What `allocate` does: `before` and `after` are the entries around the call and `r` its result.
pub open spec fn allocation(
    before: Seq<ClosedRange>,
    after: Seq<ClosedRange>,
    size: u64,
    align: u64,
    r: Option<usize>,
) -> bool {
    let first = first_fit(before, size, align, 0);
    &&& r.is_none() <==> !is_pow2(align) || size == 0 || first is None || (before.len() == CAPACITY
        && splits(before[first.unwrap()], size, align))
    &&& r.is_none() ==> after == before
    &&& after.len() <= before.len() + 1
    &&& r matches Some(a) ==> {
        &&& a == aligned_start(before[first.unwrap()], align)
        &&& (a as int) % (align as int) == 0
        &&& a + size - 1 <= usize::MAX
        &&& span(a as int, size as int).subset_of(covered(before))
        &&& covered(after) == covered(before).difference(span(a as int, size as int))
        &&& after.len() < before.len() || covers(after, a - 1) || covers(after, a + size)
    }
}

/// Checks that the start of the range does not exceed its end.
pub fn check_range(range: &ClosedRange) -> (r: bool)
    ensures
        r == range.valid(),
{
    range.start <= range.end
}

/// Whether `container` and `contained` are well formed and the second lies within the first.
pub fn contains(container: &ClosedRange, contained: &ClosedRange) -> (r: bool)
    ensures
        r == encloses(*container, *contained),
{
    if !check_range(container) || !check_range(contained) {
        return false;
    }
    container.start <= contained.start && contained.end <= container.end
}

/// Whether two well-formed ranges overlap or touch, so that their union is one range.
pub fn overlap_or_touch(range1: &ClosedRange, range2: &ClosedRange) -> (r: bool)
    ensures
        r == touching(*range1, *range2),
{
    if !check_range(range1) || !check_range(range2) {
        return false;
    }
    let (start1, start2) = if range1.start <= range2.start {
        (range1.start, range2.start)
    } else {
        (range2.start, range1.start)
    };
    // The lower end is moved up by one so that ranges side by side count as touching.
    let (end1, end2) = if range1.end <= range2.end {
        (range1.end.saturating_add(1), range2.end)
    } else {
        (range2.end.saturating_add(1), range1.end)
    };
    start1 <= end2 && start2 <= end1
}

/// Why an operation on a `RangeSet` did not take place.
#[derive(Clone, Copy, Debug, PartialEq, Eq, Structural)]
pub enum SetError {
    /// The range's start exceeds its end.
    InvalidRange,
    /// The set has no free slot for an entry the operation needs.
    CapacityExhausted,
    /// No entry can satisfy the request.
    Unsatisfiable,
}

/// A set of addresses kept as at most `CAPACITY` closed ranges, pairwise disjoint and never side
/// by side, so that no two entries could be merged. The order of the entries carries no meaning.
pub struct RangeSet {
    elements: Vec<ClosedRange>,
}

impl View for RangeSet {
    type V = Seq<ClosedRange>;

    closed spec fn view(&self) -> Seq<ClosedRange> {
        self.elements@
    }
}

impl RangeSet {
    pub open spec fn wf(&self) -> bool {
        well_formed(self@)
    }

    /// The addresses the set holds.
    pub open spec fn addrs(&self) -> Set<int> {
        covered(self@)
    }

    pub fn new() -> (r: RangeSet)
        ensures
            r@ == Seq::<ClosedRange>::empty(),
            r.wf(),
    {
        RangeSet { elements: Vec::new() }
    }

    pub fn len(&self) -> (r: usize)
        ensures
            r == self@.len(),
    {
        self.elements.len()
    }

    /// Removes the entry at `index`, keeping the others in their order.
    pub fn delete(&mut self, index: usize) -> (r: Option<()>)
        requires
            old(self).wf(),
        ensures
            final(self).wf(),
            r.is_some() <==> index < old(self)@.len(),
            r.is_some() ==> final(self)@ == old(self)@.remove(index as int),
            r.is_none() ==> final(self)@ == old(self)@,
    {
        if index >= self.elements.len() {
            return None;
        }
        self.elements.remove(index);
        proof {
            lemma_remove_keeps_well_formed(old(self)@, index as int);
        }
        Some(())
    }

    /// The index of the first entry that overlaps or touches `range`.
    fn find_touching(&self, range: &ClosedRange) -> (r: Option<usize>)
        ensures
            match r {
                Some(i) => i < self@.len() && touching(self@[i as int], *range),
                None => forall|i: int| 0 <= i < self@.len() ==> !touching(#[trigger] self@[i], *range),
            },
    {
        let mut idx: usize = 0;
        while idx < self.elements.len()
            invariant
                idx <= self@.len(),
                forall|i: int| 0 <= i < idx ==> !touching(#[trigger] self@[i], *range),
            decreases self@.len() - idx,
        {
            if overlap_or_touch(&self.elements[idx], range) {
                return Some(idx);
            }
            idx += 1;
        }
        None
    }

    /// Adds the addresses of `range` to the set. Entries that overlap or touch it are merged with
    /// it, repeatedly, until the union meets no other entry; the union then takes a new slot.
    pub fn insert(&mut self, range: ClosedRange) -> (r: Result<(), SetError>)
        requires
            old(self).wf(),
        ensures
            final(self).wf(),
            r == Err::<(), SetError>(SetError::InvalidRange) <==> !range.valid(),
            r == Err::<(), SetError>(SetError::CapacityExhausted) <==> range.valid()
                && old(self)@.len() == CAPACITY
                && forall|i: int| 0 <= i < old(self)@.len() ==> !touching(#[trigger] old(self)@[i], range),
            r != Err::<(), SetError>(SetError::Unsatisfiable),
            r.is_err() ==> final(self)@ == old(self)@,
            r.is_ok() ==> final(self).addrs() == old(self).addrs().union(range.addrs()),
            final(self)@.len() <= old(self)@.len() + 1,
    {
        if !check_range(&range) {
            return Err(SetError::InvalidRange);
        }
        let mut tmp = range;
        let ghost mut merged = false;
        loop
            invariant
                self.wf(),
                range.valid(),
                tmp.valid(),
                merged ==> self@.len() < CAPACITY,
                self@.len() <= old(self)@.len(),
                merged ==> exists|i: int| 0 <= i < old(self)@.len() && touching(#[trigger] old(self)@[i], range),
                !merged ==> self@ == old(self)@ && tmp == range,
                forall|x: int| covers(self@, x) || tmp.has(x) <==> covers(old(self)@, x) || range.has(x),
            decreases self@.len(),
        {
            match self.find_touching(&tmp) {
                Some(idx) => {
                    let entry = self.elements[idx];
                    let start = if tmp.start <= entry.start { tmp.start } else { entry.start };
                    let end = if tmp.end >= entry.end { tmp.end } else { entry.end };
                    let ghost before = self@;
                    self.elements.remove(idx);
                    proof {
                        lemma_remove_keeps_well_formed(before, idx as int);
                        lemma_remove_covers(before, idx as int);
                    }
                    let ghost prev = tmp;
                    tmp = ClosedRange { start, end };
                    proof {
                        assert forall|x: int| tmp.has(x) <==> prev.has(x) || entry.has(x) by {}
                        if !merged {
                            assert(touching(old(self)@[idx as int], range));
                        }
                        merged = true;
                    }
                },
                None => {
                    if self.elements.len() == CAPACITY {
                        return Err(SetError::CapacityExhausted);
                    }
                    let ghost before = self@;
                    self.elements.push(tmp);
                    proof {
                        assert forall|i: int, j: int|
                            0 <= i < self@.len() && 0 <= j < self@.len() && i != j implies apart(
                            #[trigger] self@[i],
                            #[trigger] self@[j],
                        ) by {
                            if i < before.len() && j < before.len() {
                                assert(self@[i] == before[i] && self@[j] == before[j]);
                            } else if i < before.len() {
                                assert(!touching(before[i], tmp));
                            } else {
                                assert(!touching(before[j], tmp));
                            }
                        }
                        lemma_push_covers(before, tmp);
                        assert forall|x: int|
                            #[trigger] self.addrs().contains(x) == old(self).addrs().union(
                                range.addrs(),
                            ).contains(x) by {
                            assert(covers(self@, x) == (covers(before, x) || tmp.has(x)));
                        }
                        assert(self.addrs() =~= old(self).addrs().union(range.addrs()));
                    }
                    return Ok(());
                },
            }
        }
    }

    /// Takes `range` out of the set when it is free as one piece: it equals an entry (which is
    /// removed), shares a boundary with the entry that encloses it (which is trimmed), or lies in
    /// that entry's interior (which is split in two and needs a free slot).
    pub fn consume(&mut self, range: &ClosedRange) -> (r: Result<(), SetError>)
        requires
            old(self).wf(),
        ensures
            final(self).wf(),
            r == Err::<(), SetError>(SetError::InvalidRange) <==> !range.valid(),
            r == Err::<(), SetError>(SetError::Unsatisfiable) <==> range.valid() && !enclosed(
                old(self)@,
                *range,
            ),
            r == Err::<(), SetError>(SetError::CapacityExhausted) <==> range.valid()
                && old(self)@.len() == CAPACITY && strictly_inside(old(self)@, *range),
            r.is_err() ==> final(self)@ == old(self)@,
            forall|i: int|
                0 <= i < old(self)@.len() && #[trigger] old(self)@[i] == *range ==> r is Ok
                    && final(self)@ == old(self)@.remove(i),
            r.is_ok() ==> final(self).addrs() == old(self).addrs().difference(range.addrs()),
    {
        if !check_range(range) {
            return Err(SetError::InvalidRange);
        }
        let ghost s = self@;
        let mut idx: usize = 0;
        while idx < self.elements.len()
            invariant
                self@ == s,
                s == old(self)@,
                well_formed(s),
                range.valid(),
                idx <= s.len(),
                forall|j: int| 0 <= j < idx ==> !encloses(#[trigger] s[j], *range),
            decreases s.len() - idx,
        {
            let entry = self.elements[idx];
            if !contains(&entry, range) {
                idx += 1;
                continue;
            }
            proof {
                lemma_entries_disjoint(s, idx as int);
                assert forall|j: int| 0 <= j < s.len() && j != idx implies !encloses(
                    #[trigger] s[j],
                    *range,
                ) by {
                    assert(s[idx as int].has(range.start as int));
                }
            }
            if entry == *range {
                self.elements.remove(idx);
                proof {
                    lemma_remove_keeps_well_formed(s, idx as int);
                    lemma_remove_covers(s, idx as int);
                    lemma_entries_disjoint(s, idx as int);
                    assert(self.addrs() =~= covered(s).difference(range.addrs()));
                }
                return Ok(());
            }
            if entry.start == range.start {
                // range.end < entry.end here, so the increment does not overflow.
                self.elements[idx] = ClosedRange { start: range.end + 1, end: entry.end };
            } else if entry.end == range.end {
                self.elements[idx] = ClosedRange { start: entry.start, end: range.start - 1 };
            } else {
                if self.elements.len() == CAPACITY {
                    return Err(SetError::CapacityExhausted);
                }
                self.elements[idx] = ClosedRange { start: entry.start, end: range.start - 1 };
                self.elements.push(ClosedRange { start: range.end + 1, end: entry.end });
            }
            proof {
                lemma_trim_entry(s, idx as int, *range, self@);
            }
            return Ok(());
        }
        proof {
            assert(!enclosed(s, *range));
        }
        Err(SetError::Unsatisfiable)
    }

    /// Makes sure that none of the addresses of `range` stays in the set, whether or not they
    /// were all there. Entries within `range` are removed, entries that reach into it are trimmed,
    /// and an entry that encloses it keeps what lies below `range` in its slot while what lies
    /// above moves to the end of the entries. Only a split in two of a full set fails.
    pub fn discard(&mut self, range: &ClosedRange) -> (r: Result<(), SetError>)
        requires
            old(self).wf(),
        ensures
            final(self).wf(),
            r == Err::<(), SetError>(SetError::InvalidRange) <==> !range.valid(),
            r == Err::<(), SetError>(SetError::CapacityExhausted) <==> range.valid()
                && old(self)@.len() == CAPACITY && strictly_inside(old(self)@, *range),
            r == Err::<(), SetError>(SetError::Unsatisfiable) ==> false,
            r.is_err() ==> final(self)@ == old(self)@,
            r.is_ok() ==> final(self).addrs() == old(self).addrs().difference(range.addrs()),
            r.is_ok() && old(self)@.contains(*range) ==> final(self)@.len() < old(self)@.len(),
            final(self)@.len() <= old(self)@.len() + 1,
            (forall|i: int| 0 <= i < old(self)@.len() ==> !overlapping(#[trigger] old(self)@[i], *range))
                ==> final(self)@ == old(self)@,
    {
        if !check_range(range) {
            return Err(SetError::InvalidRange);
        }
        let ghost s0 = self@;
        let mut idx: usize = 0;
        while idx < self.elements.len()
            invariant
                s0 == old(self)@,
                well_formed(s0),
                self.wf(),
                range.valid(),
                idx <= self@.len(),
                forall|j: int| 0 <= j < idx ==> !overlapping(#[trigger] self@[j], *range),
                forall|x: int| covers(self@, x) && !range.has(x) <==> covers(s0, x) && !range.has(x),
                enclosed(s0, *range) ==> self@ == s0,
                (forall|i: int| 0 <= i < s0.len() ==> !overlapping(#[trigger] s0[i], *range)) ==> self@
                    == s0,
                self@.len() <= s0.len(),
                forall|j: int|
                    0 <= j < self@.len() ==> s0.contains(#[trigger] self@[j]) || !overlapping(
                        self@[j],
                        *range,
                    ),
            decreases self@.len() - idx,
        {
            let ghost s = self@;
            let entry = self.elements[idx];
            proof {
                lemma_entries_disjoint(s, idx as int);
                if enclosed(s0, *range) {
                    let k = choose|k: int| 0 <= k < s0.len() && encloses(#[trigger] s0[k], *range);
                    lemma_entries_disjoint(s0, k);
                    if k != idx {
                        let m = if entry.start > range.start {
                            entry.start
                        } else {
                            range.start
                        };
                        if overlapping(entry, *range) {
                            assert(s0[k].has(m as int));
                            assert(entry.has(m as int));
                        }
                        assert(!overlapping(entry, *range));
                    }
                }
                if s0.contains(*range) {
                    let k = choose|k: int| 0 <= k < s0.len() && s0[k] == *range;
                    assert(encloses(s0[k], *range));
                }
            }
            if entry == *range {
                self.elements.remove(idx);
                proof {
                    lemma_remove_keeps_well_formed(s, idx as int);
                    lemma_remove_covers(s, idx as int);
                    assert(self.addrs() =~= covered(s0).difference(range.addrs()));
                }
                return Ok(());
            }
            if contains(range, &entry) {
                self.elements.remove(idx);
                proof {
                    lemma_remove_keeps_well_formed(s, idx as int);
                    lemma_remove_covers(s, idx as int);
                    assert forall|j: int| 0 <= j < idx implies !overlapping(
                        #[trigger] self@[j],
                        *range,
                    ) by {
                        assert(self@[j] == s[j]);
                    }
                    assert forall|j: int| 0 <= j < self@.len() implies s0.contains(
                        #[trigger] self@[j],
                    ) || !overlapping(self@[j], *range) by {
                        if j < idx {
                            assert(self@[j] == s[j]);
                        } else {
                            assert(self@[j] == s[j + 1]);
                        }
                    }
                }
                continue;
            }
            if !overlap_or_touch(&entry, range) {
                idx += 1;
                continue;
            }
            if contains(&entry, range) {
                proof {
                    assert forall|x: int| covers(s, x) && range.has(x) implies entry.has(x) by {
                        let k = choose|k: int| 0 <= k < s.len() && (#[trigger] s[k]).has(x);
                        if k != idx {
                            assert(entry.has(x));
                        }
                    }
                }
                if entry.start < range.start && range.end < entry.end {
                    proof {
                        if !strictly_inside(s0, *range) {
                            assert(s0.contains(entry));
                            let k = choose|k: int| 0 <= k < s0.len() && s0[k] == entry;
                            assert(encloses(s0[k], *range));
                        }
                    }
                    if self.elements.len() == CAPACITY {
                        return Err(SetError::CapacityExhausted);
                    }
                    self.elements[idx] = ClosedRange { start: entry.start, end: range.start - 1 };
                    self.elements.push(ClosedRange { start: range.end + 1, end: entry.end });
                    proof {
                        lemma_trim_entry(s, idx as int, *range, self@);
                    }
                } else if entry.start < range.start {
                    self.elements[idx] = ClosedRange { start: entry.start, end: range.start - 1 };
                    proof {
                        lemma_trim_entry(s, idx as int, *range, self@);
                    }
                } else {
                    self.elements.remove(idx);
                    self.elements.push(ClosedRange { start: range.end + 1, end: entry.end });
                    proof {
                        lemma_move_remainder(s, idx as int, *range, self@);
                    }
                }
                proof {
                    assert(self.addrs() =~= covered(s0).difference(range.addrs()));
                }
                return Ok(());
            }
            let trimmed = if entry.start < range.start {
                ClosedRange { start: entry.start, end: range.start - 1 }
            } else {
                ClosedRange { start: range.end + 1, end: entry.end }
            };
            self.elements[idx] = trimmed;
            proof {
                if !overlapping(entry, *range) {
                    assert(trimmed == entry);
                    assert(self@ =~= s);
                }
                lemma_shrink_entry(s, idx as int, trimmed);
                assert forall|j: int| 0 <= j <= idx implies !overlapping(
                    #[trigger] self@[j],
                    *range,
                ) by {
                    if j < idx {
                        assert(self@[j] == s[j]);
                    }
                }
                assert forall|j: int| 0 <= j < self@.len() implies s0.contains(
                    #[trigger] self@[j],
                ) || !overlapping(self@[j], *range) by {
                    if j != idx {
                        assert(self@[j] == s[j]);
                    }
                }
            }
            idx += 1;
        }
        proof {
            assert(self.addrs() =~= covered(s0).difference(range.addrs())) by {
                assert forall|x: int| covers(self@, x) implies !range.has(x) by {
                    let k = choose|k: int| 0 <= k < self@.len() && (#[trigger] self@[k]).has(x);
                    assert(!overlapping(self@[k], *range));
                }
            }
            if enclosed(s0, *range) {
                let k = choose|k: int| 0 <= k < s0.len() && encloses(#[trigger] s0[k], *range);
                assert(!overlapping(self@[k], *range));
            }
            if s0.contains(*range) {
                let k = choose|k: int| 0 <= k < s0.len() && s0[k] == *range;
                assert(encloses(s0[k], *range));
            }
        }
        Ok(())
    }

    /// Takes `size` addresses aligned to `align` out of the first entry that can hold them
    /// within the host's pointer width, and returns where they start. `align` must be a power
    /// of two and `size` at least one.
    pub fn allocate(&mut self, size: u64, align: u64) -> (r: Option<usize>)
        requires
            old(self).wf(),
        ensures
            final(self).wf(),
            allocation(old(self)@, final(self)@, size, align, r),
    {
        if align == 0 || align & (align - 1) != 0 || size == 0 {
            return None;
        }
        let ghost s = self@;
        let mut idx: usize = 0;
        while idx < self.elements.len()
            invariant
                self@ == s,
                s == old(self)@,
                well_formed(s),
                is_pow2(align),
                size > 0,
                idx <= s.len(),
                first_fit(s, size, align, 0) == first_fit(s, size, align, idx as int),
            decreases s.len() - idx,
        {
            let entry = self.elements[idx];
            let rem = entry.start % align;
            let pad = if rem == 0 {
                0
            } else {
                align - rem
            };
            if entry.start <= u64::MAX - pad && entry.start + pad <= u64::MAX - (size - 1) {
                let start = entry.start + pad;
                let end = start + (size - 1);
                if end <= entry.end && end <= usize::MAX as u64 {
                    let c = ClosedRange { start, end };
                    proof {
                        assert(fits(entry, size, align));
                        assert(first_fit(s, size, align, idx as int) == Some(idx as int));
                        lemma_aligned_start(entry.start, align);
                        lemma_entries_disjoint(s, idx as int);
                        assert forall|j: int| 0 <= j < s.len() && j != idx implies !encloses(
                            #[trigger] s[j],
                            c,
                        ) by {
                            assert(entry.has(start as int));
                        }
                        assert(c.addrs() =~= span(start as int, size as int));
                        assert(c.addrs().subset_of(old(self).addrs()));
                    }
                    match self.discard(&c) {
                        Ok(()) => {
                            proof {
                                if entry.start < start {
                                    assert(covers(s, start - 1)) by {
                                        assert(s[idx as int].has(start - 1));
                                    }
                                    assert(covered(s).contains(start - 1));
                                    assert(!c.addrs().contains(start - 1));
                                    assert(self.addrs().contains(start - 1));
                                } else if end < entry.end {
                                    assert(covers(s, end + 1)) by {
                                        assert(s[idx as int].has(end + 1));
                                    }
                                    assert(covered(s).contains(end + 1));
                                    assert(!c.addrs().contains(end + 1));
                                    assert(self.addrs().contains(end + 1));
                                } else {
                                    assert(s[idx as int] == c);
                                }
                            }
                            return Some(start as usize);
                        },
                        Err(e) => {
                            proof {
                                assert(e != SetError::InvalidRange);
                                assert(e != SetError::Unsatisfiable);
                                assert(strictly_inside(s, c));
                                let k = choose|k: int|
                                    0 <= k < s.len() && encloses(#[trigger] s[k], c) && s[k].start
                                        < c.start && c.end < s[k].end;
                                assert(k == idx);
                            }
                            return None;
                        },
                    }
                }
            }
            proof {
                assert(!fits(entry, size, align));
            }
            idx += 1;
        }
        None
    }

    /// The number of addresses in the set, saturated at `u64::MAX`.
    pub fn sum(&self) -> (r: u64)
        requires
            self.wf(),
        ensures
            r == min(total(self@), u64::MAX as int),
    {
        let mut acc: u64 = 0;
        let mut idx: usize = 0;
        while idx < self.elements.len()
            invariant
                self.wf(),
                idx <= self@.len(),
                acc == min(total(self@.take(idx as int)), u64::MAX as int),
            decreases self@.len() - idx,
        {
            let entry = self.elements[idx];
            proof {
                assert(self@.take(idx + 1).drop_last() =~= self@.take(idx as int));
                lemma_total_nonneg(self@.take(idx as int));
            }
            acc = acc.saturating_add(entry.end - entry.start).saturating_add(1);
            idx += 1;
        }
        proof {
            assert(self@.take(idx as int) =~= self@);
        }
        acc
    }

    pub fn ranges(&self) -> (r: &[ClosedRange])
        ensures
            r@ == self@,
    {
        self.elements.as_slice()
    }
}

/// Dropping an entry keeps the rest well formed.
proof fn lemma_remove_keeps_well_formed(s: Seq<ClosedRange>, k: int)
    requires
        well_formed(s),
        0 <= k < s.len(),
    ensures
        well_formed(s.remove(k)),
{
    let t = s.remove(k);
    assert forall|i: int| 0 <= i < t.len() implies (#[trigger] t[i]).valid() by {
        if i < k {
            assert(t[i] == s[i]);
        } else {
            assert(t[i] == s[i + 1]);
        }
    }
    assert forall|i: int, j: int|
        0 <= i < t.len() && 0 <= j < t.len() && i != j implies apart(#[trigger] t[i], #[trigger] t[j]) by {
        let si = if i < k { i } else { i + 1 };
        let sj = if j < k { j } else { j + 1 };
        assert(t[i] == s[si] && t[j] == s[sj]);
    }
}

/// What the other entries cover, together with the dropped one, is what all of them covered.
proof fn lemma_remove_covers(s: Seq<ClosedRange>, k: int)
    requires
        0 <= k < s.len(),
    ensures
        forall|x: int| covers(s, x) <==> covers(s.remove(k), x) || s[k].has(x),
{
    let t = s.remove(k);
    assert forall|x: int| covers(s, x) <==> covers(t, x) || s[k].has(x) by {
        if covers(s, x) {
            let i = choose|i: int| 0 <= i < s.len() && (#[trigger] s[i]).has(x);
            if i < k {
                assert(t[i] == s[i]);
            } else if i > k {
                assert(t[i - 1] == s[i]);
            }
        }
        if covers(t, x) {
            let i = choose|i: int| 0 <= i < t.len() && (#[trigger] t[i]).has(x);
            if i < k {
                assert(t[i] == s[i]);
            } else {
                assert(t[i] == s[i + 1]);
            }
        }
    }
}

/// A pushed entry adds its own addresses to what is covered.
proof fn lemma_push_covers(s: Seq<ClosedRange>, e: ClosedRange)
    ensures
        forall|x: int| covers(s.push(e), x) <==> covers(s, x) || e.has(x),
{
    let t = s.push(e);
    assert forall|x: int| covers(t, x) <==> covers(s, x) || e.has(x) by {
        if covers(s, x) {
            let i = choose|i: int| 0 <= i < s.len() && (#[trigger] s[i]).has(x);
            assert(t[i] == s[i]);
        }
        if e.has(x) {
            assert(t[s.len() as int] == e);
        }
        if covers(t, x) {
            let i = choose|i: int| 0 <= i < t.len() && (#[trigger] t[i]).has(x);
            if i < s.len() {
                assert(t[i] == s[i]);
            }
        }
    }
}

/// An address of one entry belongs to no other entry.
proof fn lemma_entries_disjoint(s: Seq<ClosedRange>, i: int)
    requires
        well_formed(s),
        0 <= i < s.len(),
    ensures
        forall|j: int, x: int|
            0 <= j < s.len() && j != i && s[i].has(x) ==> !(#[trigger] s[j].has(x)),
{
    assert forall|j: int, x: int|
        0 <= j < s.len() && j != i && s[i].has(x) implies !(#[trigger] s[j].has(x)) by {
        assert(apart(s[i], s[j]));
    }
}

/// Trimming or splitting the entry that encloses `r` leaves the set well formed and takes
/// exactly the addresses of `r` away.
proof fn lemma_trim_entry(s: Seq<ClosedRange>, i: int, r: ClosedRange, t: Seq<ClosedRange>)
    requires
        well_formed(s),
        0 <= i < s.len(),
        encloses(s[i], r),
        s[i] != r,
        s[i].start == r.start ==> t == s.update(
            i,
            ClosedRange { start: (r.end + 1) as u64, end: s[i].end },
        ),
        s[i].start != r.start && s[i].end == r.end ==> t == s.update(
            i,
            ClosedRange { start: s[i].start, end: (r.start - 1) as u64 },
        ),
        s[i].start != r.start && s[i].end != r.end ==> s.len() < CAPACITY && t == s.update(
            i,
            ClosedRange { start: s[i].start, end: (r.start - 1) as u64 },
        ).push(ClosedRange { start: (r.end + 1) as u64, end: s[i].end }),
    ensures
        well_formed(t),
        covered(t) == covered(s).difference(r.addrs()),
{
    lemma_entries_disjoint(s, i);
    let e = s[i];
    assert forall|k: int| 0 <= k < t.len() implies (#[trigger] t[k]).valid() by {
        if k < s.len() && k != i {
            assert(t[k] == s[k]);
        }
    }
    assert forall|a: int, b: int|
        0 <= a < t.len() && 0 <= b < t.len() && a != b implies apart(#[trigger] t[a], #[trigger] t[b]) by {
        if a < s.len() && a != i {
            assert(t[a] == s[a]);
            assert(apart(s[a], e));
        }
        if b < s.len() && b != i {
            assert(t[b] == s[b]);
            assert(apart(s[b], e));
        }
        if a < s.len() && a != i && b < s.len() && b != i {
            assert(apart(s[a], s[b]));
        }
    }
    assert forall|x: int| covers(t, x) <==> covers(s, x) && !r.has(x) by {
        if covers(t, x) {
            let k = choose|k: int| 0 <= k < t.len() && (#[trigger] t[k]).has(x);
            if k < s.len() && k != i {
                assert(t[k] == s[k]);
                assert(!e.has(x));
            } else {
                assert(e.has(x));
                assert(s[i].has(x));
            }
        }
        if covers(s, x) && !r.has(x) {
            let k = choose|k: int| 0 <= k < s.len() && (#[trigger] s[k]).has(x);
            if k != i {
                assert(t[k] == s[k]);
            } else if x < r.start {
                assert(t[i].has(x));
            } else {
                if s[i].start == r.start {
                    assert(t[i].has(x));
                } else {
                    assert(t[s.len() as int].has(x));
                }
            }
        }
    }
    assert(covered(t) =~= covered(s).difference(r.addrs()));
}

/// Narrowing one entry keeps the set well formed and drops only addresses of that entry.
proof fn lemma_shrink_entry(s: Seq<ClosedRange>, i: int, e: ClosedRange)
    requires
        well_formed(s),
        0 <= i < s.len(),
        e.valid(),
        s[i].start <= e.start,
        e.end <= s[i].end,
    ensures
        well_formed(s.update(i, e)),
        forall|x: int| covers(s.update(i, e), x) <==> covers(s, x) && !(s[i].has(x) && !e.has(x)),
{
    let t = s.update(i, e);
    lemma_entries_disjoint(s, i);
    assert forall|a: int, b: int|
        0 <= a < t.len() && 0 <= b < t.len() && a != b implies apart(#[trigger] t[a], #[trigger] t[b]) by {
        assert(apart(s[a], s[b]));
    }
    assert forall|x: int| covers(t, x) <==> covers(s, x) && !(s[i].has(x) && !e.has(x)) by {
        if covers(t, x) {
            let k = choose|k: int| 0 <= k < t.len() && (#[trigger] t[k]).has(x);
            if k != i {
                assert(t[k] == s[k]);
            } else {
                assert(s[i].has(x));
            }
        }
        if covers(s, x) && !(s[i].has(x) && !e.has(x)) {
            let k = choose|k: int| 0 <= k < s.len() && (#[trigger] s[k]).has(x);
            if k != i {
                assert(t[k] == s[k]);
            } else {
                assert(t[i].has(x));
            }
        }
    }
}

/// Replacing the entry that encloses `r` and starts with it by what lies above `r`, placed at
/// the end, leaves the set well formed and takes exactly the addresses of `r` away.
proof fn lemma_move_remainder(s: Seq<ClosedRange>, i: int, r: ClosedRange, t: Seq<ClosedRange>)
    requires
        well_formed(s),
        0 <= i < s.len(),
        encloses(s[i], r),
        s[i].start == r.start,
        r.end < s[i].end,
        t == s.remove(i).push(ClosedRange { start: (r.end + 1) as u64, end: s[i].end }),
    ensures
        well_formed(t),
        covered(t) == covered(s).difference(r.addrs()),
{
    let u = s.remove(i);
    let h = ClosedRange { start: (r.end + 1) as u64, end: s[i].end };
    lemma_remove_keeps_well_formed(s, i);
    lemma_remove_covers(s, i);
    lemma_push_covers(u, h);
    lemma_entries_disjoint(s, i);
    assert forall|k: int| 0 <= k < u.len() implies apart(#[trigger] u[k], h) by {
        let sk = if k < i { k } else { k + 1 };
        assert(u[k] == s[sk]);
        assert(apart(s[sk], s[i]));
    }
    assert forall|a: int, b: int|
        0 <= a < t.len() && 0 <= b < t.len() && a != b implies apart(#[trigger] t[a], #[trigger] t[b]) by {
        if a < u.len() && b < u.len() {
            assert(t[a] == u[a] && t[b] == u[b]);
        } else if a < u.len() {
            assert(t[a] == u[a]);
        } else {
            assert(t[b] == u[b]);
        }
    }
    assert forall|k: int| 0 <= k < t.len() implies (#[trigger] t[k]).valid() by {
        if k < u.len() {
            assert(t[k] == u[k]);
        }
    }
    assert forall|x: int| covers(t, x) <==> covers(s, x) && !r.has(x) by {
        if covers(u, x) {
            let k = choose|k: int| 0 <= k < u.len() && (#[trigger] u[k]).has(x);
            let sk = if k < i { k } else { k + 1 };
            assert(u[k] == s[sk]);
            assert(!s[i].has(x));
        }
    }
    assert(covered(t) =~= covered(s).difference(r.addrs()));
}

proof fn lemma_aligned_start(start: u64, align: u64)
    requires
        align > 0,
    ensures
        aligned_start(ClosedRange { start, end: start }, align) % (align as int) == 0,
{
    let r = start % align;
    vstd::arithmetic::div_mod::lemma_fundamental_div_mod(start as int, align as int);
    if r != 0 {
        let q = start as int / align as int;
        assert(start + (align - r) == (q + 1) * align) by (nonlinear_arith)
            requires
                start == align * q + r,
        ;
        vstd::arithmetic::div_mod::lemma_mod_multiples_basic(q + 1, align as int);
    } else {
        vstd::arithmetic::div_mod::lemma_mod_multiples_basic(start as int / align as int, align as int);
    }
}

proof fn lemma_total_nonneg(s: Seq<ClosedRange>)
    requires
        forall|i: int| 0 <= i < s.len() ==> (#[trigger] s[i]).valid(),
    ensures
        total(s) >= 0,
    decreases s.len(),
{
    if s.len() > 0 {
        assert forall|i: int| 0 <= i < s.drop_last().len() implies (#[trigger] s.drop_last()[i]).valid() by {
            assert(s.drop_last()[i] == s[i]);
        }
        lemma_total_nonneg(s.drop_last());
        assert(s.last() == s[s.len() - 1]);
    }
}

/// The total of entries that are well formed and pairwise apart is the number of addresses they
/// cover.
pub proof fn lemma_total_is_count(s: Seq<ClosedRange>)
    requires
        forall|i: int| 0 <= i < s.len() ==> (#[trigger] s[i]).valid(),
        forall|i: int, j: int|
            0 <= i < s.len() && 0 <= j < s.len() && i != j ==> apart(#[trigger] s[i], #[trigger] s[j]),
    ensures
        covered(s).finite(),
        covered(s).len() == total(s),
    decreases s.len(),
{
    if s.len() == 0 {
        assert(covered(s) =~= Set::<int>::empty());
    } else {
        let t = s.drop_last();
        let e = s.last();
        assert forall|i: int| 0 <= i < t.len() implies (#[trigger] t[i]).valid() by {
            assert(t[i] == s[i]);
        }
        assert forall|i: int, j: int|
            0 <= i < t.len() && 0 <= j < t.len() && i != j implies apart(#[trigger] t[i], #[trigger] t[j]) by {
            assert(t[i] == s[i] && t[j] == s[j]);
        }
        lemma_total_is_count(t);
        assert(s =~= t.push(e));
        lemma_push_covers(t, e);
        assert(covered(s) =~= covered(t) + e.addrs());
        assert(e.addrs() =~= vstd::set_lib::set_int_range(e.start as int, e.end + 1));
        vstd::set_lib::lemma_int_range(e.start as int, e.end + 1);
        assert(covered(t).disjoint(e.addrs())) by {
            assert forall|x: int| covered(t).contains(x) implies !e.addrs().contains(x) by {
                let k = choose|k: int| 0 <= k < t.len() && (#[trigger] t[k]).has(x);
                assert(t[k] == s[k]);
                assert(apart(s[k], s[s.len() - 1]));
            }
        }
        vstd::set_lib::lemma_set_disjoint_lens(covered(t), e.addrs());
    }
}

/// Two well-formed sets that hold the same addresses have the same sum.
pub proof fn lemma_same_addrs_same_sum(a: RangeSet, b: RangeSet)
    requires
        a.wf(),
        b.wf(),
        a.addrs() == b.addrs(),
    ensures
        total(a@) == total(b@),
{
    lemma_total_is_count(a@);
    lemma_total_is_count(b@);
}

/// Handing out the `size` addresses at `a` and inserting them back restores the sum: `taken`
/// is what a successful `allocate` leaves, `restored` what `insert` of those addresses gives.
pub proof fn lemma_allocate_deallocate_sum(
    before: RangeSet,
    taken: RangeSet,
    restored: RangeSet,
    a: int,
    size: int,
)
    requires
        before.wf(),
        taken.wf(),
        restored.wf(),
        span(a, size).subset_of(before.addrs()),
        taken.addrs() == before.addrs().difference(span(a, size)),
        restored.addrs() == taken.addrs().union(span(a, size)),
    ensures
        total(restored@) == total(before@),
{
    assert(restored.addrs() =~= before.addrs());
    lemma_same_addrs_same_sum(restored, before);
}

/// After a successful `allocate`, inserting the block back always succeeds: either the set lost
/// an entry, or an entry sits right next to the block.
pub proof fn lemma_deallocate_after_allocate_succeeds(taken: RangeSet, a: int, size: int)
    requires
        taken.wf(),
        0 <= a,
        1 <= size,
        a + size - 1 <= u64::MAX,
        taken@.len() < CAPACITY || covers(taken@, a - 1) || covers(taken@, a + size),
    ensures
        !(taken@.len() == CAPACITY && forall|i: int|
            0 <= i < taken@.len() ==> !touching(
                #[trigger] taken@[i],
                ClosedRange { start: a as u64, end: (a + size - 1) as u64 },
            )),
{
    let c = ClosedRange { start: a as u64, end: (a + size - 1) as u64 };
    if taken@.len() == CAPACITY {
        if covers(taken@, a - 1) {
            let k = choose|k: int| 0 <= k < taken@.len() && (#[trigger] taken@[k]).has(a - 1);
            assert(touching(taken@[k], c));
        } else {
            let k = choose|k: int| 0 <= k < taken@.len() && (#[trigger] taken@[k]).has(a + size);
            assert(touching(taken@[k], c));
        }
    }
}

/// Walks the entries of a set in their order.
pub struct RangeSetIter<'a> {
    set: &'a RangeSet,
    idx: usize,
}

impl<'a> RangeSetIter<'a> {
    /// The entries being walked.
    pub closed spec fn items(&self) -> Seq<ClosedRange> {
        self.set@
    }

    /// How many entries have been handed out.
    pub closed spec fn position(&self) -> int {
        self.idx as int
    }

    pub fn new(set: &'a RangeSet) -> (r: Self)
        ensures
            r.items() == set@,
            r.position() == 0,
    {
        RangeSetIter { set, idx: 0 }
    }

    /// The next entry, if any is left.
    pub fn next(&mut self) -> (r: Option<ClosedRange>)
        requires
            old(self).position() <= old(self).items().len(),
        ensures
            final(self).items() == old(self).items(),
            final(self).position() <= final(self).items().len(),
            old(self).position() < old(self).items().len() ==> r == Some(
                old(self).items()[old(self).position()],
            ) && final(self).position() == old(self).position() + 1,
            old(self).position() == old(self).items().len() ==> r is None && final(self).position()
                == old(self).position(),
    {
        if self.idx >= self.set.len() {
            None
        } else {
            let range = self.set.elements[self.idx];
            self.idx = self.idx + 1;
            Some(range)
        }
    }
}

} // verus!
