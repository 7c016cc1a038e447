//! The map of an address space: which spans are free and which are taken,
//! kept as entries ordered by the last address of each span.
use vstd::prelude::*;
use core::marker::PhantomData;
use core::ops::Range;
use crate::paging::entry::{PageSize, VirtualAddress, USERSPACE_END, KERNELSPACE_START, offset_by};
use crate::paging::flags::{has_all, Flags, EXECUTE, READ, USER, VALID, WRITE};
use crate::region::MemoryRegion;

verus! {

/// A span of an address space and what lies in it.
#[derive(Debug, PartialEq)]
pub struct AddressRegion {
    /// The memory that backs the span; `None` for a span that is free.
    pub region: Option<MemoryRegion>,
    /// The span.
    pub span: Range<VirtualAddress>,
    /// What the span is used for.
    pub kind: AddressRegionKind,
    /// The permissions of the span's pages.
    pub permissions: Flags,
}

/// What a span of an address space is used for.
#[derive(Debug, Clone, Copy, PartialEq, Eq, Structural)]
pub enum AddressRegionKind {
    Channel,
    Data,
    Guard,
    ReadOnly,
    Stack,
    Text,
    Tls,
    Unoccupied,
    UserAllocated,
    Dma,
    Mmio,
    UserSharedMemory,
}

/// Why a change to the address map was refused.
#[derive(Debug, Clone, Copy, PartialEq, Eq, Structural)]
pub enum AddressMappingError {
    Occupied,
    Nonexistent,
    OutOfBounds,
}

/// The user half of the address space.
#[derive(Debug)]
pub struct Userspace;

/// The kernel half of the address space.
#[derive(Debug)]
pub struct Kernelspace;

/// An address space whose spans an `AddressMap` manages.
pub trait AddressSpace {
    /// The first address and the end of the space.
    spec fn bounds() -> (u64, u64);

    /// The span of the whole space.
    fn address_range() -> (r: Range<VirtualAddress>)
        ensures
            r.start.value() == Self::bounds().0,
            r.end.value() == Self::bounds().1,
            r.end.value() >= 1,
    ;
}

impl AddressSpace for Userspace {
    open spec fn bounds() -> (u64, u64) {
        (0, USERSPACE_END)
    }

    fn address_range() -> (r: Range<VirtualAddress>) {
        VirtualAddress::userspace_range()
    }
}

impl AddressSpace for Kernelspace {
    open spec fn bounds() -> (u64, u64) {
        (KERNELSPACE_START, u64::MAX)
    }

    fn address_range() -> (r: Range<VirtualAddress>) {
        VirtualAddress::kernelspace_range()
    }
}

impl AddressRegion {
    /// Whether the span is free.
    pub fn is_unoccupied(&self) -> (r: bool)
        ensures
            r == self.region.is_none(),
    {
        self.region.is_none()
    }
}

/// The entries of a map, each a key and a region.
pub type Entries = Seq<(u64, AddressRegion)>;

/// Whether the keys strictly increase.
pub open spec fn sorted(s: Entries) -> bool {
    forall|i: int, j: int| 0 <= i < j < s.len() ==> s[i].0 < s[j].0
}

/// The index of the first entry whose key is at least `x`, or the length.
pub open spec fn lower_bound(s: Entries, x: u64) -> int
    decreases s.len(),
{
    if s.len() == 0 {
        0
    } else if s[0].0 >= x {
        0
    } else {
        1 + lower_bound(s.drop_first(), x)
    }
}

/// The entries after putting `v` under key `k`, replacing any region that
/// key held.
pub open spec fn map_insert(s: Entries, k: u64, v: AddressRegion) -> Entries {
    let i = lower_bound(s, k);
    if i < s.len() && s[i].0 == k {
        s.update(i, (k, v))
    } else {
        s.insert(i, (k, v))
    }
}

/// A region with the given parts.
pub open spec fn region_of(
    region: Option<MemoryRegion>,
    start: u64,
    end: u64,
    kind: AddressRegionKind,
    permissions: Flags,
) -> AddressRegion {
    AddressRegion {
        region: region,
        span: (VirtualAddress::at(start)..VirtualAddress::at(end)),
        kind: kind,
        permissions: permissions,
    }
}

/// The start of a region's span.
pub open spec fn lo(r: AddressRegion) -> u64 {
    r.span.start.value()
}

/// The end of a region's span.
pub open spec fn hi(r: AddressRegion) -> u64 {
    r.span.end.value()
}

/// The entries after taking the span `[start, end)` out of the free region
/// at index `i` for `backing`: the free region keeps what lies before or
/// after the span, and each part goes under its last address.
pub open spec fn alloc_entries(
    s: Entries,
    i: int,
    start: u64,
    end: u64,
    backing: MemoryRegion,
    kind: AddressRegionKind,
    permissions: Flags,
    user: Flags,
) -> Entries {
    let old_range = s[i].1;
    let rest = s.remove(i);
    let active = region_of(Some(backing), start, end, kind, permissions);
    if lo(old_range) == start && hi(old_range) != end {
        let chopped = AddressRegion { span: (VirtualAddress::at(end)..old_range.span.end), ..old_range };
        map_insert(map_insert(rest, (hi(old_range) - 1) as u64, chopped), (end - 1) as u64, active)
    } else if lo(old_range) != start && hi(old_range) == end {
        let chopped = AddressRegion { span: (old_range.span.start..VirtualAddress::at(start)), ..old_range };
        map_insert(map_insert(rest, (start - 1) as u64, chopped), (end - 1) as u64, active)
    } else if lo(old_range) == start && hi(old_range) == end {
        map_insert(rest, (end - 1) as u64, active)
    } else {
        let before = region_of(None, lo(old_range), start, AddressRegionKind::Unoccupied, user);
        let after = region_of(None, end, hi(old_range), AddressRegionKind::Unoccupied, user);
        map_insert(
            map_insert(map_insert(rest, (start - 1) as u64, before), (end - 1) as u64, active),
            (hi(old_range) - 1) as u64,
            after,
        )
    }
}

/// The entries that take the place of the free region `old_range` when
/// `allocate` takes `[start, end)` out of it: the taken span, with what is
/// left of the free region before and after it.
pub open spec fn alloc_chain(
    old_range: AddressRegion,
    start: u64,
    end: u64,
    backing: MemoryRegion,
    kind: AddressRegionKind,
    permissions: Flags,
    user: Flags,
) -> Entries {
    let active = region_of(Some(backing), start, end, kind, permissions);
    if lo(old_range) == start && hi(old_range) != end {
        let chopped = AddressRegion { span: (VirtualAddress::at(end)..old_range.span.end), ..old_range };
        seq![((end - 1) as u64, active), ((hi(old_range) - 1) as u64, chopped)]
    } else if lo(old_range) != start && hi(old_range) == end {
        let chopped = AddressRegion { span: (old_range.span.start..VirtualAddress::at(start)), ..old_range };
        seq![((start - 1) as u64, chopped), ((end - 1) as u64, active)]
    } else if lo(old_range) == start && hi(old_range) == end {
        seq![((end - 1) as u64, active)]
    } else {
        let before = region_of(None, lo(old_range), start, AddressRegionKind::Unoccupied, user);
        let after = region_of(None, end, hi(old_range), AddressRegionKind::Unoccupied, user);
        seq![((start - 1) as u64, before), ((end - 1) as u64, active), ((hi(old_range) - 1) as u64, after)]
    }
}

/// The regions of the entries that are taken, in key order.
pub open spec fn occupied(s: Entries) -> Seq<AddressRegion>
    decreases s.len(),
{
    if s.len() == 0 {
        Seq::empty()
    } else if s.last().1.region.is_some() {
        occupied(s.drop_last()).push(s.last().1)
    } else {
        occupied(s.drop_last())
    }
}

/// The regions of the entries that are free, in key order.
pub open spec fn unoccupied(s: Entries) -> Seq<AddressRegion>
    decreases s.len(),
{
    if s.len() == 0 {
        Seq::empty()
    } else if s.last().1.region.is_none() {
        unoccupied(s.drop_last()).push(s.last().1)
    } else {
        unoccupied(s.drop_last())
    }
}

/// In sorted entries `lower_bound` splits the keys below `x` from the rest.
pub proof fn lemma_lower_bound(s: Entries, x: u64)
    requires
        sorted(s),
    ensures
        0 <= lower_bound(s, x) <= s.len(),
        forall|j: int| 0 <= j < lower_bound(s, x) ==> s[j].0 < x,
        forall|j: int| lower_bound(s, x) <= j < s.len() ==> s[j].0 >= x,
    decreases s.len(),
{
    if s.len() > 0 && s[0].0 < x {
        let t = s.drop_first();
        assert(sorted(t));
        lemma_lower_bound(t, x);
        assert forall|j: int| 0 <= j < lower_bound(s, x) implies s[j].0 < x by {
            if j > 0 {
                assert(s[j] == t[j - 1]);
            }
        }
        assert forall|j: int| lower_bound(s, x) <= j < s.len() implies s[j].0 >= x by {
            assert(s[j] == t[j - 1]);
        }
    }
}

/// Putting a region under a key keeps the keys sorted and keeps every other
/// entry.
pub proof fn lemma_map_insert(s: Entries, k: u64, v: AddressRegion)
    requires
        sorted(s),
    ensures
        sorted(map_insert(s, k, v)),
        forall|e: (u64, AddressRegion)| map_insert(s, k, v).contains(e) ==> e == (k, v) || s.contains(e),
        map_insert(s, k, v).contains((k, v)),
{
    lemma_lower_bound(s, k);
    let i = lower_bound(s, k);
    let t = map_insert(s, k, v);
    if i < s.len() && s[i].0 == k {
        assert(t[i] == (k, v));
        assert forall|e: (u64, AddressRegion)| t.contains(e) implies e == (k, v) || s.contains(e) by {
            let j = choose|j: int| 0 <= j < t.len() && t[j] == e;
            if j != i {
                assert(s[j] == e);
            }
        }
    } else {
        assert(t[i] == (k, v));
        assert forall|a: int, b: int| 0 <= a < b < t.len() implies t[a].0 < t[b].0 by {
            if a < i && b < i {
                assert(t[a] == s[a] && t[b] == s[b]);
            } else if a < i && b == i {
                assert(t[a] == s[a]);
            } else if a < i {
                assert(t[a] == s[a] && t[b] == s[b - 1]);
            } else if a == i {
                assert(t[b] == s[b - 1]);
            } else {
                assert(t[a] == s[a - 1] && t[b] == s[b - 1]);
            }
        }
        assert forall|e: (u64, AddressRegion)| t.contains(e) implies e == (k, v) || s.contains(e) by {
            let j = choose|j: int| 0 <= j < t.len() && t[j] == e;
            if j < i {
                assert(s[j] == e);
            } else if j > i {
                assert(s[j - 1] == e);
            }
        }
    }
}

/// Removing an entry keeps the keys sorted and keeps every other entry.
pub proof fn lemma_remove(s: Entries, i: int)
    requires
        sorted(s),
        0 <= i < s.len(),
    ensures
        sorted(s.remove(i)),
        forall|e: (u64, AddressRegion)| s.remove(i).contains(e) ==> s.contains(e),
{
    let t = s.remove(i);
    assert forall|a: int, b: int| 0 <= a < b < t.len() implies t[a].0 < t[b].0 by {
        let a2 = if a < i { a } else { a + 1 };
        let b2 = if b < i { b } else { b + 1 };
        assert(t[a] == s[a2] && t[b] == s[b2]);
    }
    assert forall|e: (u64, AddressRegion)| t.contains(e) implies s.contains(e) by {
        let j = choose|j: int| 0 <= j < t.len() && t[j] == e;
        if j < i {
            assert(s[j] == e);
        } else {
            assert(s[j + 1] == e);
        }
    }
}

/// A map of the spans of one address space.
#[derive(Debug)]
pub struct AddressMap<A: AddressSpace> {
    map: Vec<(u64, AddressRegion)>,
    address_space: PhantomData<A>,
}

impl<A: AddressSpace> AddressMap<A> {
    /// The map's entries in key order.
    pub closed spec fn entries(&self) -> Entries {
        self.map@
    }

    /// The keys strictly increase and every taken span lies under its last
    /// address.
    pub closed spec fn wf(&self) -> bool {
        &&& sorted(self.map@)
        &&& forall|i: int| 0 <= i < self.map@.len() ==> hi(#[trigger] self.map@[i].1) >= 1
        &&& forall|i: int|
            0 <= i < self.map@.len() && (#[trigger] self.map@[i]).1.region.is_some() ==> {
                &&& hi(self.map@[i].1) >= 1
                &&& self.map@[i].0 == hi(self.map@[i].1) - 1
            }
    }

    /// Whether the map's spans tile its space, in key order, with no two
    /// free regions side by side.
    pub closed spec fn tiled(&self) -> bool {
        tiles(self.map@, A::bounds().0, A::bounds().1)
    }

    /// A map whose one entry is the whole space, free, under the space's end.
    pub fn new() -> (r: Self)
        ensures
            r.wf(),
            A::bounds().0 < A::bounds().1 ==> r.tiled(),
            r.entries() == seq![(A::bounds().1, region_of(None, A::bounds().0, A::bounds().1, AddressRegionKind::Unoccupied, Flags::NONE_spec()))],
    {
        let complete_range = A::address_range();
        let key = complete_range.end.as_usize();
        let mut map: Vec<(u64, AddressRegion)> = Vec::new();
        map.push(
            (
                key,
                AddressRegion {
                    region: None,
                    span: complete_range,
                    kind: AddressRegionKind::Unoccupied,
                    permissions: Flags::NONE(),
                },
            ),
        );
        proof {
            VirtualAddress::lemma_at(A::bounds().0);
            VirtualAddress::lemma_at(A::bounds().1);
            VirtualAddress::lemma_eq_value(map@[0].1.span.start, VirtualAddress::at(A::bounds().0));
            VirtualAddress::lemma_eq_value(map@[0].1.span.end, VirtualAddress::at(A::bounds().1));
            Flags::lemma_none_spec();
            Flags::lemma_eq_bits(map@[0].1.permissions, Flags::NONE_spec());
            assert(map@[0].1 == region_of(None, A::bounds().0, A::bounds().1, AddressRegionKind::Unoccupied, Flags::NONE_spec()));
            assert(map@ =~= seq![(A::bounds().1, region_of(None, A::bounds().0, A::bounds().1, AddressRegionKind::Unoccupied, Flags::NONE_spec()))]);
        }
        AddressMap { map, address_space: PhantomData }
    }
}


/// Whether `allocate` of the span `[start, end)` succeeds on entries `s`:
/// the region under the first key at or above `start` is free and holds
/// the whole span.
pub open spec fn allocates(s: Entries, start: u64, end: u64) -> bool {
    let i = lower_bound(s, start);
    &&& i < s.len()
    &&& lo(s[i].1) <= start
    &&& hi(s[i].1) >= end
    &&& s[i].1.region.is_none()
}

/// Whether `free` of the span `[start, end)` succeeds on entries `s`: the
/// region under the first key at or above `start` is taken and is exactly
/// the span.
pub open spec fn frees(s: Entries, start: u64, end: u64) -> bool {
    let i = lower_bound(s, start);
    &&& i < s.len()
    &&& lo(s[i].1) == start
    &&& hi(s[i].1) == end
    &&& s[i].1.region.is_some()
}

/// Whether the free region of entries `s` that `free` merges from before the
/// entry at `i` is there: the entry just before it is free.
pub open spec fn merges_down(s: Entries, i: int) -> bool {
    i > 0 && s[i - 1].1.region.is_none()
}

/// Whether the entry just after the one at `i` is free, so that `free`
/// merges it.
pub open spec fn merges_up(s: Entries, i: int) -> bool {
    i + 1 < s.len() && s[i + 1].1.region.is_none()
}

/// The index of the first entry that the freed region at `i` swallows.
pub open spec fn merge_first(s: Entries, i: int) -> int {
    if merges_down(s, i) {
        i - 1
    } else {
        i
    }
}

/// The index of the last entry that the freed region at `i` swallows.
pub open spec fn merge_last(s: Entries, i: int) -> int {
    if merges_up(s, i) {
        i + 1
    } else {
        i
    }
}

/// The free region that freeing the entry at `i` leaves: it spans from the
/// free neighbour before it, if any, to the free neighbour after it, if
/// any, and keeps the freed region's kind and permissions.
pub open spec fn merged_region(s: Entries, i: int) -> AddressRegion {
    AddressRegion {
        region: None,
        span: (s[merge_first(s, i)].1.span.start..s[merge_last(s, i)].1.span.end),
        ..s[i].1
    }
}

/// The entries after freeing the taken region at index `i`: it and its free
/// neighbours leave, and the merged free region goes under its last
/// address.
pub open spec fn free_entries(s: Entries, i: int) -> Entries {
    let a = merge_first(s, i);
    let b = merge_last(s, i);
    map_insert(
        s.subrange(0, a) + s.subrange(b + 1, s.len() as int),
        (hi(s[b].1) - 1) as u64,
        merged_region(s, i),
    )
}

/// Whether the entry at `j` spans a non-empty range and lies under its last
/// address, or, as the last entry, under its end.
pub open spec fn span_ok(s: Entries, j: int) -> bool {
    &&& lo(s[j].1) < hi(s[j].1)
    &&& (s[j].0 == hi(s[j].1) - 1 || (j == s.len() - 1 && s[j].0 == hi(s[j].1)))
}

/// Whether the span at `j + 1` begins where the one at `j` ends.
pub open spec fn adjoins(s: Entries, j: int) -> bool {
    hi(s[j].1) == lo(s[j + 1].1)
}

/// Whether the regions at `j` and `j + 1` are not both free.
pub open spec fn apart(s: Entries, j: int) -> bool {
    !(s[j].1.region.is_none() && s[j + 1].1.region.is_none())
}

/// Whether the entries tile the space `[first, last)`: each span is
/// non-empty, each begins where the one before ends, the first begins at
/// `first` and the last ends at `last`; each lies under its last address
/// (the last may lie under `last` itself), and no two neighbours are both
/// free.
pub open spec fn tiles(s: Entries, first: u64, last: u64) -> bool {
    &&& s.len() > 0
    &&& lo(s[0].1) == first
    &&& hi(s[s.len() - 1].1) == last
    &&& forall|j: int| 0 <= j < s.len() ==> #[trigger] span_ok(s, j)
    &&& forall|j: int| 0 <= j < s.len() - 1 ==> #[trigger] adjoins(s, j)
    &&& forall|j: int| 0 <= j < s.len() - 1 ==> #[trigger] apart(s, j)
}

/// Whether the entry at `j` spans a non-empty range under its last address.
pub open spec fn link_ok(t: Entries, j: int) -> bool {
    lo(t[j].1) < hi(t[j].1) && t[j].0 == hi(t[j].1) - 1
}

/// Whether each of `t` lies under its last address, is non-empty, begins
/// where the one before ends, and no two neighbours are both free.
pub open spec fn chain(t: Entries) -> bool {
    &&& forall|j: int| 0 <= j < t.len() ==> #[trigger] link_ok(t, j)
    &&& forall|j: int| 0 <= j < t.len() - 1 ==> #[trigger] adjoins(t, j)
    &&& forall|j: int| 0 <= j < t.len() - 1 ==> #[trigger] apart(t, j)
}

/// Replacing the entries `a..=b` of a tiling by a chain that spans the same
/// addresses, and that has no free end next to a free neighbour, tiles the
/// same space.
pub proof fn lemma_splice(s: Entries, a: int, b: int, t: Entries, first: u64, last: u64)
    requires
        tiles(s, first, last),
        0 <= a <= b < s.len(),
        t.len() > 0,
        chain(t),
        lo(t[0].1) == lo(s[a].1),
        hi(t[t.len() - 1].1) == hi(s[b].1),
        a > 0 ==> !(s[a - 1].1.region.is_none() && t[0].1.region.is_none()),
        b + 1 < s.len() ==> !(t[t.len() - 1].1.region.is_none() && s[b + 1].1.region.is_none()),
    ensures
        tiles(s.subrange(0, a) + t + s.subrange(b + 1, s.len() as int), first, last),
{
    let r = s.subrange(0, a) + t + s.subrange(b + 1, s.len() as int);
    let tl = t.len() as int;
    let n = s.len() as int;
    assert(r.len() == a + tl + n - b - 1);
    assert forall|j: int| 0 <= j < r.len() implies #[trigger] span_ok(r, j) by {
        if j < a {
            assert(r[j] == s[j]);
            assert(span_ok(s, j));
        } else if j < a + tl {
            assert(r[j] == t[j - a]);
            assert(link_ok(t, j - a));
        } else {
            assert(r[j] == s[j - a - tl + b + 1]);
            assert(span_ok(s, j - a - tl + b + 1));
        }
    }
    assert forall|j: int| 0 <= j < r.len() - 1 implies #[trigger] adjoins(r, j) by {
        if j < a - 1 {
            assert(r[j] == s[j] && r[j + 1] == s[j + 1]);
            assert(adjoins(s, j));
        } else if j == a - 1 {
            assert(r[j] == s[j] && r[j + 1] == t[0]);
            assert(adjoins(s, j));
        } else if j < a + tl - 1 {
            assert(r[j] == t[j - a] && r[j + 1] == t[j - a + 1]);
            assert(adjoins(t, j - a));
        } else if j == a + tl - 1 {
            assert(r[j] == t[tl - 1] && r[j + 1] == s[b + 1]);
            assert(adjoins(s, b));
        } else {
            let k = j - a - tl + b + 1;
            assert(r[j] == s[k] && r[j + 1] == s[k + 1]);
            assert(adjoins(s, k));
        }
    }
    assert forall|j: int| 0 <= j < r.len() - 1 implies #[trigger] apart(r, j) by {
        if j < a - 1 {
            assert(r[j] == s[j] && r[j + 1] == s[j + 1]);
            assert(apart(s, j));
        } else if j == a - 1 {
            assert(r[j] == s[j] && r[j + 1] == t[0]);
        } else if j < a + tl - 1 {
            assert(r[j] == t[j - a] && r[j + 1] == t[j - a + 1]);
            assert(apart(t, j - a));
        } else if j == a + tl - 1 {
            assert(r[j] == t[tl - 1] && r[j + 1] == s[b + 1]);
        } else {
            let k = j - a - tl + b + 1;
            assert(r[j] == s[k] && r[j + 1] == s[k + 1]);
            assert(apart(s, k));
        }
    }
    if a == 0 {
        assert(r[0] == t[0]);
    } else {
        assert(r[0] == s[0]);
    }
    if b + 1 == n {
        assert(r[r.len() - 1] == t[tl - 1]);
    } else {
        assert(r[r.len() - 1] == s[n - 1]);
    }
}

/// Putting an entry under a key that lies above the keys before `p` and
/// below those from `p` on puts it at `p`.
pub proof fn lemma_insert_at(s: Entries, k: u64, v: AddressRegion, p: int)
    requires
        sorted(s),
        0 <= p <= s.len(),
        forall|j: int| 0 <= j < p ==> s[j].0 < k,
        forall|j: int| p <= j < s.len() ==> s[j].0 > k,
    ensures
        map_insert(s, k, v) == s.insert(p, (k, v)),
{
    lemma_lower_bound(s, k);
    let l = lower_bound(s, k);
    if l < p {
        assert(s[l].0 >= k);
    }
    if l > p {
        assert(s[p].0 < k);
    }
}

/// In a tiling the keys before an entry lie below its start, and those
/// after it at or above its end.
pub proof fn lemma_keys_around(s: Entries, first: u64, last: u64, i: int, j: int)
    requires
        tiles(s, first, last),
        0 <= i < s.len(),
        0 <= j < s.len(),
    ensures
        j < i ==> s[j].0 < lo(s[i].1),
        j > i ==> s[j].0 >= hi(s[i].1),
{
    if j < i {
        lemma_tiles_step(s, first, last, j, i);
        assert(span_ok(s, j));
    }
    if j > i {
        lemma_tiles_step(s, first, last, i, j);
        assert(span_ok(s, j));
    }
}

/// Taking a non-empty span out of the free region of a tiling that holds it
/// leaves a tiling.
pub proof fn lemma_alloc_tiles(
    s: Entries,
    i: int,
    start: u64,
    end: u64,
    backing: MemoryRegion,
    kind: AddressRegionKind,
    permissions: Flags,
    user: Flags,
    first: u64,
    last: u64,
)
    requires
        tiles(s, first, last),
        0 <= i < s.len(),
        lo(s[i].1) <= start < end <= hi(s[i].1),
        s[i].1.region.is_none(),
    ensures
        tiles(alloc_entries(s, i, start, end, backing, kind, permissions, user), first, last),
        alloc_entries(s, i, start, end, backing, kind, permissions, user) == s.subrange(0, i) + alloc_chain(
            s[i].1,
            start,
            end,
            backing,
            kind,
            permissions,
            user,
        ) + s.subrange(i + 1, s.len() as int),
{
    let old_range = s[i].1;
    if lo(old_range) == start && hi(old_range) != end {
        lemma_alloc_tiles_case(s, i, start, end, backing, kind, permissions, user, first, last, 0);
    } else if lo(old_range) != start && hi(old_range) == end {
        lemma_alloc_tiles_case(s, i, start, end, backing, kind, permissions, user, first, last, 1);
    } else if lo(old_range) == start && hi(old_range) == end {
        lemma_alloc_tiles_case(s, i, start, end, backing, kind, permissions, user, first, last, 2);
    } else {
        lemma_alloc_tiles_case(s, i, start, end, backing, kind, permissions, user, first, last, 3);
    }
}

/// One case of `lemma_alloc_tiles`, by where the span lies in the free
/// region: at its start, at its end, all of it, or inside it.
#[verifier::rlimit(100)]
#[verifier::spinoff_prover]
proof fn lemma_alloc_tiles_case(
    s: Entries,
    i: int,
    start: u64,
    end: u64,
    backing: MemoryRegion,
    kind: AddressRegionKind,
    permissions: Flags,
    user: Flags,
    first: u64,
    last: u64,
    case: int,
)
    requires
        tiles(s, first, last),
        0 <= i < s.len(),
        lo(s[i].1) <= start < end <= hi(s[i].1),
        s[i].1.region.is_none(),
        case == 0 ==> lo(s[i].1) == start && hi(s[i].1) != end,
        case == 1 ==> lo(s[i].1) != start && hi(s[i].1) == end,
        case == 2 ==> lo(s[i].1) == start && hi(s[i].1) == end,
        case == 3 ==> lo(s[i].1) != start && hi(s[i].1) != end,
        0 <= case < 4,
    ensures
        tiles(alloc_entries(s, i, start, end, backing, kind, permissions, user), first, last),
        alloc_entries(s, i, start, end, backing, kind, permissions, user) == s.subrange(0, i) + alloc_chain(
            s[i].1,
            start,
            end,
            backing,
            kind,
            permissions,
            user,
        ) + s.subrange(i + 1, s.len() as int),
{
    broadcast use VirtualAddress::lemma_at;
    lemma_tiles_sorted(s, first, last);
    let n = s.len() as int;
    let old_range = s[i].1;
    let rest = s.remove(i);
    lemma_remove(s, i);
    let active = region_of(Some(backing), start, end, kind, permissions);
    let ka = (end - 1) as u64;
    let kh = (hi(old_range) - 1) as u64;
    let ks = (start - 1) as u64;
    assert(span_ok(s, i));
    assert forall|j: int| 0 <= j < n implies (j < i ==> s[j].0 < lo(s[i].1)) && (j > i ==> s[j].0 >= hi(s[i].1)) by {
        lemma_keys_around(s, first, last, i, j);
    }
    assert forall|j: int| 0 <= j < rest.len() implies (j < i ==> rest[j] == s[j]) && (j >= i ==> rest[j] == s[j + 1]) by {}
    if i > 0 {
        assert(apart(s, i - 1));
    }
    if i + 1 < n {
        assert(apart(s, i));
    }
    if case == 0 {
        let chopped = AddressRegion { span: (VirtualAddress::at(end)..old_range.span.end), ..old_range };
        lemma_insert_at(rest, kh, chopped, i);
        let r1 = rest.insert(i, (kh, chopped));
        lemma_map_insert(rest, kh, chopped);
        lemma_insert_at(r1, ka, active, i);
        let t = seq![(ka, active), (kh, chopped)];
        assert(r1.insert(i, (ka, active)) =~= s.subrange(0, i) + t + s.subrange(i + 1, n));
        assert(link_ok(t, 0) && link_ok(t, 1) && adjoins(t, 0) && apart(t, 0));
        lemma_splice(s, i, i, t, first, last);
    } else if case == 1 {
        let chopped = AddressRegion { span: (old_range.span.start..VirtualAddress::at(start)), ..old_range };
        lemma_insert_at(rest, ks, chopped, i);
        let r1 = rest.insert(i, (ks, chopped));
        lemma_map_insert(rest, ks, chopped);
        lemma_insert_at(r1, ka, active, i + 1);
        let t = seq![(ks, chopped), (ka, active)];
        assert(r1.insert(i + 1, (ka, active)) =~= s.subrange(0, i) + t + s.subrange(i + 1, n));
        assert(link_ok(t, 0) && link_ok(t, 1) && adjoins(t, 0) && apart(t, 0));
        lemma_splice(s, i, i, t, first, last);
    } else if case == 2 {
        lemma_insert_at(rest, ka, active, i);
        let t = seq![(ka, active)];
        assert(rest.insert(i, (ka, active)) =~= s.subrange(0, i) + t + s.subrange(i + 1, n));
        assert(link_ok(t, 0));
        lemma_splice(s, i, i, t, first, last);
    } else {
        let before = region_of(None, lo(old_range), start, AddressRegionKind::Unoccupied, user);
        let after = region_of(None, end, hi(old_range), AddressRegionKind::Unoccupied, user);
        lemma_insert_at(rest, ks, before, i);
        let r1 = rest.insert(i, (ks, before));
        lemma_map_insert(rest, ks, before);
        lemma_insert_at(r1, ka, active, i + 1);
        let r2 = r1.insert(i + 1, (ka, active));
        lemma_map_insert(r1, ka, active);
        assert forall|j: int| i + 2 <= j < r2.len() implies r2[j] == s[j - 1] by {}
        lemma_insert_at(r2, kh, after, i + 2);
        let t = seq![(ks, before), (ka, active), (kh, after)];
        assert(r2.insert(i + 2, (kh, after)) =~= s.subrange(0, i) + t + s.subrange(i + 1, n));
        assert(link_ok(t, 0) && link_ok(t, 1) && link_ok(t, 2));
        assert(adjoins(t, 0) && apart(t, 0) && adjoins(t, 1) && apart(t, 1));
        lemma_splice(s, i, i, t, first, last);
    }
}

/// The taken regions of two runs of entries, one after the other, are
/// those of the first run followed by those of the second.
pub proof fn lemma_occupied_add(a: Entries, b: Entries)
    ensures
        occupied(a + b) == occupied(a) + occupied(b),
    decreases b.len(),
{
    if b.len() == 0 {
        assert(a + b =~= a);
        assert(occupied(a) + occupied(b) =~= occupied(a));
    } else {
        lemma_occupied_add(a, b.drop_last());
        assert((a + b).drop_last() =~= a + b.drop_last());
        assert((a + b).last() == b.last());
        if b.last().1.region.is_some() {
            assert(occupied(a) + occupied(b.drop_last()).push(b.last().1) =~= (occupied(a) + occupied(
                b.drop_last(),
            )).push(b.last().1));
        }
    }
}

/// The taken regions of the run of entries that `allocate` puts in place
/// of a free region: the new region alone.
proof fn lemma_chain_occupied(
    old_range: AddressRegion,
    start: u64,
    end: u64,
    backing: MemoryRegion,
    kind: AddressRegionKind,
    permissions: Flags,
    user: Flags,
)
    requires
        old_range.region.is_none(),
    ensures
        occupied(alloc_chain(old_range, start, end, backing, kind, permissions, user)) == seq![
            region_of(Some(backing), start, end, kind, permissions),
        ],
{
    let t = alloc_chain(old_range, start, end, backing, kind, permissions, user);
    reveal_with_fuel(occupied, 4);
    assert(t.drop_last().drop_last().drop_last().len() == 0 ==> occupied(t.drop_last().drop_last().drop_last()) == Seq::<AddressRegion>::empty());
    if t.len() == 1 {
        assert(t.drop_last() =~= Seq::<(u64, AddressRegion)>::empty());
    } else if t.len() == 2 {
        assert(t.drop_last().drop_last() =~= Seq::<(u64, AddressRegion)>::empty());
    } else {
        assert(t.drop_last().drop_last().drop_last() =~= Seq::<(u64, AddressRegion)>::empty());
    }
    assert(occupied(t) =~= seq![region_of(Some(backing), start, end, kind, permissions)]);
}

/// Taking a non-empty span out of the free region at `i` of a tiling adds
/// exactly one taken region, the new one, to the taken regions, in its
/// place by address; the others stay as they were.
pub proof fn lemma_allocate_adds_one_region(
    s: Entries,
    i: int,
    start: u64,
    end: u64,
    backing: MemoryRegion,
    kind: AddressRegionKind,
    permissions: Flags,
    user: Flags,
    first: u64,
    last: u64,
)
    requires
        tiles(s, first, last),
        0 <= i < s.len(),
        lo(s[i].1) <= start < end <= hi(s[i].1),
        s[i].1.region.is_none(),
    ensures
        occupied(s) == occupied(s.subrange(0, i)) + occupied(s.subrange(i + 1, s.len() as int)),
        occupied(alloc_entries(s, i, start, end, backing, kind, permissions, user)) == occupied(
            s.subrange(0, i),
        ) + seq![region_of(Some(backing), start, end, kind, permissions)] + occupied(
            s.subrange(i + 1, s.len() as int),
        ),
{
    let n = s.len() as int;
    let pre = s.subrange(0, i);
    let post = s.subrange(i + 1, n);
    let t = alloc_chain(s[i].1, start, end, backing, kind, permissions, user);
    lemma_alloc_tiles(s, i, start, end, backing, kind, permissions, user, first, last);
    lemma_chain_occupied(s[i].1, start, end, backing, kind, permissions, user);
    lemma_occupied_add(pre + t, post);
    lemma_occupied_add(pre, t);
    let one = seq![s[i]];
    assert(s =~= pre + one + post);
    lemma_occupied_add(pre + one, post);
    lemma_occupied_add(pre, one);
    reveal_with_fuel(occupied, 2);
    assert(one.drop_last() =~= Seq::<(u64, AddressRegion)>::empty());
    assert(occupied(one) =~= Seq::<AddressRegion>::empty());
    assert(occupied(pre) + occupied(one) =~= occupied(pre));
}

/// In a tiling the keys strictly increase, and the entry under the first
/// key at or above an address of the space is the one whose span holds it.
pub proof fn lemma_tiles_find(s: Entries, first: u64, last: u64, x: u64)
    requires
        tiles(s, first, last),
        first <= x < last,
    ensures
        sorted(s),
        0 <= lower_bound(s, x) < s.len(),
        lo(s[lower_bound(s, x)].1) <= x < hi(s[lower_bound(s, x)].1),
{
    lemma_tiles_sorted(s, first, last);
    lemma_lower_bound(s, x);
    let l = lower_bound(s, x);
    let n = s.len() as int;
    assert(span_ok(s, n - 1));
    if l == n {
        assert(s[n - 1].0 < x);
    }
    assert(s[l].0 >= x);
    assert(span_ok(s, l));
    if l > 0 {
        assert(s[l - 1].0 < x);
        assert(span_ok(s, l - 1));
        assert(adjoins(s, l - 1));
    } else {
        assert(lo(s[0].1) == first);
    }
}

/// In a tiling, `allocate` of a non-empty span of the space succeeds
/// exactly when the span lies inside one free region.
pub proof fn lemma_allocates_iff_inside_free(s: Entries, first: u64, last: u64, start: u64, end: u64)
    requires
        tiles(s, first, last),
        first <= start < end <= last,
    ensures
        allocates(s, start, end) <==> exists|j: int|
            0 <= j < s.len() && (#[trigger] s[j]).1.region.is_none() && lo(s[j].1) <= start && end <= hi(s[j].1),
{
    lemma_tiles_find(s, first, last, start);
    let i = lower_bound(s, start);
    if allocates(s, start, end) {
        assert(s[i].1.region.is_none() && lo(s[i].1) <= start && end <= hi(s[i].1));
    }
    if exists|j: int|
        0 <= j < s.len() && (#[trigger] s[j]).1.region.is_none() && lo(s[j].1) <= start && end <= hi(s[j].1) {
        let j = choose|j: int|
            0 <= j < s.len() && (#[trigger] s[j]).1.region.is_none() && lo(s[j].1) <= start && end <= hi(s[j].1);
        if j < i {
            lemma_tiles_step(s, first, last, j, i);
        } else if j > i {
            lemma_tiles_step(s, first, last, i, j);
        }
        assert(j == i);
    }
}

/// In a tiling, the region that `find` gives for an address of the space is
/// the only one that holds it.
pub proof fn lemma_tiles_one_holder(s: Entries, first: u64, last: u64, x: u64, j: int)
    requires
        tiles(s, first, last),
        first <= x < last,
        0 <= j < s.len(),
        lo(s[j].1) <= x < hi(s[j].1),
    ensures
        j == lower_bound(s, x),
{
    lemma_tiles_find(s, first, last, x);
    let i = lower_bound(s, x);
    if j < i {
        lemma_tiles_step(s, first, last, j, i);
    } else if j > i {
        lemma_tiles_step(s, first, last, i, j);
    }
}

/// In a tiling the keys strictly increase.
pub proof fn lemma_tiles_sorted(s: Entries, first: u64, last: u64)
    requires
        tiles(s, first, last),
    ensures
        sorted(s),
{
    assert forall|i: int, j: int| 0 <= i < j < s.len() implies s[i].0 < s[j].0 by {
        lemma_tiles_step(s, first, last, i, j);
    }
}

/// In a tiling a later span starts at or after the end of an earlier one,
/// and lies under a greater key.
pub proof fn lemma_tiles_step(s: Entries, first: u64, last: u64, i: int, j: int)
    requires
        tiles(s, first, last),
        0 <= i < j < s.len(),
    ensures
        hi(s[i].1) <= lo(s[j].1),
        s[i].0 < s[j].0,
    decreases j - i,
{
    assert(adjoins(s, j - 1));
    assert(span_ok(s, j - 1));
    if i < j - 1 {
        lemma_tiles_step(s, first, last, i, j - 1);
    }
    assert(span_ok(s, i));
    assert(span_ok(s, j));
}

/// Every entry's span ends at 1 or later, and every taken span lies under
/// its last address.
pub open spec fn entries_ok(s: Entries) -> bool {
    &&& forall|e: (u64, AddressRegion)| s.contains(e) ==> hi(e.1) >= 1
    &&& forall|e: (u64, AddressRegion)| s.contains(e) && e.1.region.is_some() ==> e.0 == hi(e.1) - 1
}

impl<A: AddressSpace> AddressMap<A> {
    /// The entries of a well-formed map are sorted and each is in order.
    pub proof fn lemma_wf(&self)
        requires
            self.wf(),
        ensures
            sorted(self.entries()),
            entries_ok(self.entries()),
    {
        assert forall|e: (u64, AddressRegion)| self.map@.contains(e) implies hi(e.1) >= 1 && (e.1.region.is_some() ==> e.0 == hi(e.1) - 1) by {
            let j = choose|j: int| 0 <= j < self.map@.len() && self.map@[j] == e;
            assert(hi(self.map@[j].1) >= 1);
        }
    }

    /// Sorted entries that are each in order make a well-formed map.
    proof fn lemma_wf_from(&self)
        requires
            sorted(self.entries()),
            entries_ok(self.entries()),
        ensures
            self.wf(),
    {
        assert forall|i: int| 0 <= i < self.map@.len() implies hi(#[trigger] self.map@[i].1) >= 1 by {
            assert(self.map@.contains(self.map@[i]));
        }
        assert forall|i: int| 0 <= i < self.map@.len() && (#[trigger] self.map@[i]).1.region.is_some() implies hi(self.map@[i].1) >= 1 && self.map@[i].0 == hi(self.map@[i].1) - 1 by {
            assert(self.map@.contains(self.map@[i]));
        }
    }

    /// The index of the first entry whose key is at least `x`.
    fn lower_bound(&self, x: u64) -> (r: usize)
        requires
            sorted(self.entries()),
        ensures
            r == lower_bound(self.entries(), x),
    {
        proof {
            lemma_lower_bound(self.map@, x);
        }
        let mut i: usize = 0;
        while i < self.map.len()
            invariant
                sorted(self.map@),
                i <= self.map@.len(),
                forall|j: int| 0 <= j < i ==> self.map@[j].0 < x,
                forall|j: int| 0 <= j < lower_bound(self.map@, x) ==> self.map@[j].0 < x,
                forall|j: int| lower_bound(self.map@, x) <= j < self.map@.len() ==> self.map@[j].0 >= x,
                0 <= lower_bound(self.map@, x) <= self.map@.len(),
            decreases self.map@.len() - i,
        {
            if self.map[i].0 >= x {
                proof {
                    let l = lower_bound(self.map@, x);
                    if l < i {
                        assert(self.map@[l].0 >= x);
                    }
                    if l > i {
                        assert(self.map@[i as int].0 < x);
                    }
                }
                return i;
            }
            i = i + 1;
        }
        proof {
            let l = lower_bound(self.map@, x);
            if l < i {
                assert(self.map@[l].0 >= x);
            }
        }
        i
    }

    /// Puts `v` under key `k`.
    fn insert_entry(&mut self, k: u64, v: AddressRegion)
        requires
            sorted(old(self).entries()),
        ensures
            final(self).entries() == map_insert(old(self).entries(), k, v),
    {
        let i = self.lower_bound(k);
        proof {
            lemma_lower_bound(self.map@, k);
        }
        if i < self.map.len() && self.map[i].0 == k {
            self.map.set(i, (k, v));
        } else {
            self.map.insert(i, (k, v));
        }
    }

    /// The region under the first key at or above `address`: in a map that
    /// tiles its space, the region that holds the address.
    pub fn find(&self, address: VirtualAddress) -> (r: Option<&AddressRegion>)
        requires
            self.wf(),
        ensures
            self.tiled() && A::bounds().0 <= address.value() < A::bounds().1 ==> r is Some && lo(*r.unwrap())
                <= address.value() < hi(*r.unwrap()),
            ({
                let i = lower_bound(self.entries(), address.value());
                if i < self.entries().len() {
                    r == Some(&self.entries()[i].1)
                } else {
                    r.is_none()
                }
            }),
    {
        let i = self.lower_bound(address.as_usize());
        proof {
            if self.tiled() && A::bounds().0 <= address.value() < A::bounds().1 {
                lemma_tiles_find(self.map@, A::bounds().0, A::bounds().1, address.value());
            }
        }
        if i < self.map.len() {
            Some(&self.map[i].1)
        } else {
            None
        }
    }

    /// The free regions in key order.
    pub fn unoccupied_regions(&self) -> (r: Vec<&AddressRegion>)
        ensures
            r@.len() == unoccupied(self.entries()).len(),
            forall|i: int| 0 <= i < r@.len() ==> *r@[i] == unoccupied(self.entries())[i],
    {
        let mut out: Vec<&AddressRegion> = Vec::new();
        let mut i: usize = 0;
        while i < self.map.len()
            invariant
                i <= self.map@.len(),
                out@.len() == unoccupied(self.map@.subrange(0, i as int)).len(),
                forall|j: int| 0 <= j < out@.len() ==> *out@[j] == unoccupied(self.map@.subrange(0, i as int))[j],
            decreases self.map@.len() - i,
        {
            proof {
                assert(self.map@.subrange(0, i + 1).drop_last() =~= self.map@.subrange(0, i as int));
            }
            if self.map[i].1.region.is_none() {
                out.push(&self.map[i].1);
            }
            i = i + 1;
        }
        proof {
            assert(self.map@.subrange(0, self.map@.len() as int) =~= self.map@);
        }
        out
    }

    /// The taken regions in key order.
    pub fn occupied_regions(&self) -> (r: Vec<&AddressRegion>)
        ensures
            r@.len() == occupied(self.entries()).len(),
            forall|i: int| 0 <= i < r@.len() ==> *r@[i] == occupied(self.entries())[i],
    {
        let mut out: Vec<&AddressRegion> = Vec::new();
        let mut i: usize = 0;
        while i < self.map.len()
            invariant
                i <= self.map@.len(),
                out@.len() == occupied(self.map@.subrange(0, i as int)).len(),
                forall|j: int| 0 <= j < out@.len() ==> *out@[j] == occupied(self.map@.subrange(0, i as int))[j],
            decreases self.map@.len() - i,
        {
            proof {
                assert(self.map@.subrange(0, i + 1).drop_last() =~= self.map@.subrange(0, i as int));
            }
            if self.map[i].1.region.is_some() {
                out.push(&self.map[i].1);
            }
            i = i + 1;
        }
        proof {
            assert(self.map@.subrange(0, self.map@.len() as int) =~= self.map@);
        }
        out
    }
}


/// Removing an entry keeps sorted, in-order entries so.
pub proof fn lemma_remove_ok(s: Entries, i: int)
    requires
        sorted(s),
        entries_ok(s),
        0 <= i < s.len(),
    ensures
        sorted(s.remove(i)),
        entries_ok(s.remove(i)),
{
    lemma_remove(s, i);
    let t = s.remove(i);
    assert forall|e: (u64, AddressRegion)| t.contains(e) implies hi(e.1) >= 1 by {
        assert(s.contains(e));
    }
    assert forall|e: (u64, AddressRegion)| t.contains(e) && e.1.region.is_some() implies e.0 == hi(e.1) - 1 by {
        assert(s.contains(e));
    }
}

/// Putting an in-order region under a key keeps sorted, in-order entries so.
pub proof fn lemma_insert_ok(s: Entries, k: u64, v: AddressRegion)
    requires
        sorted(s),
        entries_ok(s),
        hi(v) >= 1,
        v.region.is_some() ==> k == hi(v) - 1,
    ensures
        sorted(map_insert(s, k, v)),
        entries_ok(map_insert(s, k, v)),
{
    lemma_map_insert(s, k, v);
    let t = map_insert(s, k, v);
    assert forall|e: (u64, AddressRegion)| t.contains(e) implies hi(e.1) >= 1 by {
        if e != (k, v) {
            assert(s.contains(e));
        }
    }
    assert forall|e: (u64, AddressRegion)| t.contains(e) && e.1.region.is_some() implies e.0 == hi(e.1) - 1 by {
        if e != (k, v) {
            assert(s.contains(e));
        }
    }
}

impl<A: AddressSpace> AddressMap<A> {
    /// Takes the span `subrange` out of the free region that holds it and
    /// gives it to `backing`. The region found is the one under the first
    /// key at or above the span's start; the request fails as out of bounds
    /// when there is none, and as occupied when that region is taken or does
    /// not hold the whole span.
    pub fn allocate(
        &mut self,
        subrange: Range<VirtualAddress>,
        backing: MemoryRegion,
        kind: AddressRegionKind,
        permissions: Flags,
    ) -> (r: Result<(), AddressMappingError>)
        requires
            old(self).wf(),
            subrange.end.value() >= 1,
        ensures
            final(self).wf(),
            old(self).tiled() && subrange.start.value() < subrange.end.value() ==> final(self).tiled(),
            ({
                let s = old(self).entries();
                let start = subrange.start.value();
                let end = subrange.end.value();
                let i = lower_bound(s, start);
                if i >= s.len() {
                    &&& r == Err::<(), AddressMappingError>(AddressMappingError::OutOfBounds)
                    &&& final(self).entries() == s
                } else if lo(s[i].1) > start || hi(s[i].1) < end || s[i].1.region.is_some() {
                    &&& r == Err::<(), AddressMappingError>(AddressMappingError::Occupied)
                    &&& final(self).entries() == s
                } else {
                    &&& r == Ok::<(), AddressMappingError>(())
                    &&& final(self).entries() == alloc_entries(s, i, start, end, backing, kind, permissions, Flags::USER_spec())
                }
            }),
    {
        broadcast use VirtualAddress::lemma_at, VirtualAddress::lemma_eq_value;
        proof {
            self.lemma_wf();
        }
        let ghost s = self.map@;
        let ghost b = backing;
        let ghost sub = subrange;
        let start = subrange.start.as_usize();
        let end = subrange.end.as_usize();
        proof {
            VirtualAddress::lemma_at(start);
            VirtualAddress::lemma_at(end);
            VirtualAddress::lemma_eq_value(subrange.start, VirtualAddress::at(start));
            VirtualAddress::lemma_eq_value(subrange.end, VirtualAddress::at(end));
            assert(subrange == (VirtualAddress::at(start)..VirtualAddress::at(end)));
        }
        let i = self.lower_bound(start);
        if i >= self.map.len() {
            return Err(AddressMappingError::OutOfBounds);
        }
        if self.map[i].1.span.start.as_usize() > start || self.map[i].1.span.end.as_usize() < end
            || self.map[i].1.region.is_some() {
            return Err(AddressMappingError::Occupied);
        }
        let (_, mut old_range) = self.map.remove(i);
        proof {
            lemma_remove_ok(s, i as int);
            assert(s.contains(s[i as int]));
        }
        let os = old_range.span.start.as_usize();
        let oe = old_range.span.end.as_usize();
        proof {
            VirtualAddress::lemma_at(os);
            VirtualAddress::lemma_at(oe);
            VirtualAddress::lemma_eq_value(old_range.span.start, VirtualAddress::at(os));
            VirtualAddress::lemma_eq_value(old_range.span.end, VirtualAddress::at(oe));
        }
        let ghost rest = self.map@;
        let ghost user = Flags::USER_spec();
        proof {
            Flags::lemma_user_spec();
        }
        if os == start && oe != end {
            old_range.span = subrange.end..old_range.span.end;
            let k = old_range.span.end.unchecked_offset(-1).as_usize();
            proof {
                lemma_insert_ok(rest, k, old_range);
            }
            self.insert_entry(k, old_range);
            let ka = subrange.end.unchecked_offset(-1).as_usize();
            let active = AddressRegion { region: Some(backing), span: subrange, kind, permissions };
            proof {
                lemma_insert_ok(self.map@, ka, active);
            }
            self.insert_entry(ka, active);
            proof {
                let chopped = AddressRegion { span: (VirtualAddress::at(end)..s[i as int].1.span.end), ..s[i as int].1 };
                assert(old_range == chopped);
                assert(active == region_of(Some(b), start, end, kind, permissions));
                assert(self.map@ == alloc_entries(s, i as int, start, end, b, kind, permissions, user));
            }
        } else if os != start && oe == end {
            old_range.span = old_range.span.start..subrange.start;
            let k = old_range.span.end.unchecked_offset(-1).as_usize();
            proof {
                lemma_insert_ok(rest, k, old_range);
            }
            self.insert_entry(k, old_range);
            let ka = subrange.end.unchecked_offset(-1).as_usize();
            let active = AddressRegion { region: Some(backing), span: subrange, kind, permissions };
            proof {
                lemma_insert_ok(self.map@, ka, active);
            }
            self.insert_entry(ka, active);
            proof {
                let chopped = AddressRegion { span: (s[i as int].1.span.start..VirtualAddress::at(start)), ..s[i as int].1 };
                assert(old_range == chopped);
                assert(active == region_of(Some(b), start, end, kind, permissions));
                assert(self.map@ == alloc_entries(s, i as int, start, end, b, kind, permissions, user));
            }
        } else if os == start && oe == end {
            let ka = subrange.end.unchecked_offset(-1).as_usize();
            let active = AddressRegion { region: Some(backing), span: subrange, kind, permissions };
            proof {
                lemma_insert_ok(rest, ka, active);
            }
            self.insert_entry(ka, active);
            proof {
                assert(active == region_of(Some(b), start, end, kind, permissions));
                assert(self.map@ == alloc_entries(s, i as int, start, end, b, kind, permissions, user));
            }
        } else {
            let before = AddressRegion {
                region: None,
                span: old_range.span.start..subrange.start,
                kind: AddressRegionKind::Unoccupied,
                permissions: Flags::USER(),
            };
            let after = AddressRegion {
                region: None,
                span: subrange.end..old_range.span.end,
                kind: AddressRegionKind::Unoccupied,
                permissions: Flags::USER(),
            };
            let kb = before.span.end.unchecked_offset(-1).as_usize();
            let ka = subrange.end.unchecked_offset(-1).as_usize();
            let kf = after.span.end.unchecked_offset(-1).as_usize();
            let active = AddressRegion { region: Some(backing), span: subrange, kind, permissions };
            proof {
                Flags::lemma_eq_bits(before.permissions, user);
                Flags::lemma_eq_bits(after.permissions, user);
                lemma_insert_ok(rest, kb, before);
            }
            self.insert_entry(kb, before);
            proof {
                lemma_insert_ok(self.map@, ka, active);
            }
            self.insert_entry(ka, active);
            proof {
                lemma_insert_ok(self.map@, kf, after);
            }
            self.insert_entry(kf, after);
            proof {
                assert(before == region_of(None, os, start, AddressRegionKind::Unoccupied, user));
                assert(after == region_of(None, end, oe, AddressRegionKind::Unoccupied, user));
                assert(active == region_of(Some(b), start, end, kind, permissions));
                assert(self.map@ == alloc_entries(s, i as int, start, end, b, kind, permissions, user));
            }
        }
        proof {
            self.lemma_wf_from();
            if old(self).tiled() && start < end {
                lemma_alloc_tiles(s, i as int, start, end, b, kind, permissions, user, A::bounds().0, A::bounds().1);
            }
        }
        Ok(())
    }
}


impl<A: AddressSpace> AddressMap<A> {
    /// Frees the taken span `range` and hands back what backed it. The span
    /// must be exactly the region under the first key at or above its start;
    /// it fails as out of bounds when there is no such region and as
    /// nonexistent when the region differs or is free. The freed region
    /// merges with the free regions directly before and after it and goes
    /// back, free, under its new last address with its kind and
    /// permissions. A tiling of the space stays one.
    #[verifier::rlimit(50)]
    pub fn free(&mut self, range: Range<VirtualAddress>) -> (r: Result<MemoryRegion, AddressMappingError>)
        requires
            old(self).wf(),
            offset_by(range.end.value(), -1i64).is_some(),
        ensures
            final(self).wf(),
            old(self).tiled() ==> final(self).tiled(),
            ({
                let s = old(self).entries();
                let start = range.start.value();
                let end = range.end.value();
                let i = lower_bound(s, start);
                if i >= s.len() {
                    &&& r == Err::<MemoryRegion, AddressMappingError>(AddressMappingError::OutOfBounds)
                    &&& final(self).entries() == s
                } else if lo(s[i].1) != start || hi(s[i].1) != end || s[i].1.region.is_none() {
                    &&& r == Err::<MemoryRegion, AddressMappingError>(AddressMappingError::Nonexistent)
                    &&& final(self).entries() == s
                } else {
                    &&& r == Ok::<MemoryRegion, AddressMappingError>(s[i].1.region.unwrap())
                    &&& final(self).entries() == free_entries(s, i)
                }
            }),
    {
        proof {
            self.lemma_wf();
        }
        let ghost s = self.map@;
        let start = range.start.as_usize();
        let end = range.end.as_usize();
        let i = self.lower_bound(start);
        if i >= self.map.len() {
            return Err(AddressMappingError::OutOfBounds);
        }
        if self.map[i].1.span.start.as_usize() != start || self.map[i].1.span.end.as_usize() != end
            || self.map[i].1.region.is_none() {
            return Err(AddressMappingError::Nonexistent);
        }
        let _last = range.end.offset(-1);
        let ghost ii = i as int;
        let ghost a = merge_first(s, ii);
        let ghost b = merge_last(s, ii);
        let (_, freed) = self.map.remove(i);
        proof {
            lemma_remove_ok(s, ii);
            assert(s.contains(s[ii]));
        }
        let AddressRegion { region, span, kind, permissions } = freed;
        let mut new_start = span.start;
        let mut new_end = span.end;
        if i < self.map.len() && self.map[i].1.region.is_none() {
            let ghost before = self.map@;
            let (_, merged) = self.map.remove(i);
            proof {
                lemma_remove_ok(before, ii);
                assert(before.contains(before[ii]));
                assert(before[ii] == s[ii + 1]);
            }
            new_end = merged.span.end;
        }
        if i > 0 && self.map[i - 1].1.region.is_none() {
            let ghost before = self.map@;
            let (_, merged) = self.map.remove(i - 1);
            proof {
                lemma_remove_ok(before, ii - 1);
                assert(before[ii - 1] == s[ii - 1]);
            }
            new_start = merged.span.start;
        }
        proof {
            assert(self.map@ =~= s.subrange(0, a) + s.subrange(b + 1, s.len() as int));
            assert(new_start == s[a].1.span.start);
            assert(new_end == s[b].1.span.end);
            assert(s.contains(s[b]));
        }
        let key = new_end.unchecked_offset(-1).as_usize();
        let coalesced = AddressRegion { region: None, span: new_start..new_end, kind, permissions };
        let ghost rest = self.map@;
        proof {
            lemma_insert_ok(self.map@, key, coalesced);
            assert(coalesced == merged_region(s, ii));
        }
        self.insert_entry(key, coalesced);
        proof {
            self.lemma_wf_from();
            if old(self).tiled() {
                lemma_free_tiles(s, ii, A::bounds().0, A::bounds().1);
            }
        }
        match region {
            Some(backing) => Ok(backing),
            None => {
                proof {
                    assert(false);
                }
                Err(AddressMappingError::Nonexistent)
            },
        }
    }
}

/// Freeing a taken region of a tiling leaves a tiling.
pub proof fn lemma_free_tiles(s: Entries, i: int, first: u64, last: u64)
    requires
        tiles(s, first, last),
        0 <= i < s.len(),
        s[i].1.region.is_some(),
    ensures
        tiles(free_entries(s, i), first, last),
        free_entries(s, i) == s.subrange(0, merge_first(s, i)) + seq![
            ((hi(s[merge_last(s, i)].1) - 1) as u64, merged_region(s, i)),
        ] + s.subrange(merge_last(s, i) + 1, s.len() as int),
{
    lemma_tiles_sorted(s, first, last);
    let a = merge_first(s, i);
    let b = merge_last(s, i);
    let m = merged_region(s, i);
    let key = (hi(s[b].1) - 1) as u64;
    let rest = s.subrange(0, a) + s.subrange(b + 1, s.len() as int);
    assert(span_ok(s, b));
    assert(span_ok(s, i));
    if a < i {
        assert(span_ok(s, a));
    }
    assert forall|x: int, y: int| 0 <= x < y < rest.len() implies rest[x].0 < rest[y].0 by {
        let x2 = if x < a { x } else { x + b + 1 - a };
        let y2 = if y < a { y } else { y + b + 1 - a };
        assert(rest[x] == s[x2] && rest[y] == s[y2]);
    }
    assert forall|j: int| 0 <= j < a implies rest[j].0 < key by {
        assert(rest[j] == s[j]);
        lemma_tiles_step(s, first, last, j, b);
        assert(span_ok(s, j));
    }
    assert forall|j: int| a <= j < rest.len() implies rest[j].0 > key by {
        assert(rest[j] == s[j + b + 1 - a]);
        lemma_tiles_step(s, first, last, b, j + b + 1 - a);
    }
    lemma_insert_at(rest, key, m, a);
    let t = seq![(key, m)];
    assert(rest.insert(a, (key, m)) =~= s.subrange(0, a) + t + s.subrange(b + 1, s.len() as int));
    if a < i {
        assert(adjoins(s, a));
    }
    if b > i {
        assert(adjoins(s, i));
    }
    assert(lo(m) < hi(m));
    assert(link_ok(t, 0));
    if a > 0 {
        if a < i {
            assert(apart(s, a - 1));
        }
    }
    if b + 1 < s.len() {
        if b > i {
            assert(apart(s, b));
        }
    }
    lemma_splice(s, a, b, t, first, last);
}

/// Freeing the taken region at `i` of a tiling takes exactly that region
/// out of the taken regions; the others stay as they were.
pub proof fn lemma_free_removes_one_region(s: Entries, i: int, first: u64, last: u64)
    requires
        tiles(s, first, last),
        0 <= i < s.len(),
        s[i].1.region.is_some(),
    ensures
        occupied(free_entries(s, i)) == occupied(s.subrange(0, i)) + occupied(s.subrange(i + 1, s.len() as int)),
{
    let n = s.len() as int;
    let a = merge_first(s, i);
    let b = merge_last(s, i);
    let m = seq![((hi(s[b].1) - 1) as u64, merged_region(s, i))];
    lemma_free_tiles(s, i, first, last);
    lemma_occupied_add(s.subrange(0, a) + m, s.subrange(b + 1, n));
    lemma_occupied_add(s.subrange(0, a), m);
    reveal_with_fuel(occupied, 2);
    assert(m.drop_last() =~= Seq::<(u64, AddressRegion)>::empty());
    assert(occupied(m) =~= Seq::<AddressRegion>::empty());
    let lower = s.subrange(a, i);
    let upper = s.subrange(i + 1, b + 1);
    assert(s.subrange(0, i) =~= s.subrange(0, a) + lower);
    assert(s.subrange(i + 1, n) =~= upper + s.subrange(b + 1, n));
    lemma_occupied_add(s.subrange(0, a), lower);
    lemma_occupied_add(upper, s.subrange(b + 1, n));
    if a < i {
        assert(lower.drop_last() =~= Seq::<(u64, AddressRegion)>::empty());
    } else {
        assert(lower =~= Seq::<(u64, AddressRegion)>::empty());
    }
    assert(occupied(lower) =~= Seq::<AddressRegion>::empty());
    if b > i {
        assert(upper.drop_last() =~= Seq::<(u64, AddressRegion)>::empty());
    } else {
        assert(upper =~= Seq::<(u64, AddressRegion)>::empty());
    }
    assert(occupied(upper) =~= Seq::<AddressRegion>::empty());
    assert(occupied(s.subrange(0, a)) + occupied(lower) =~= occupied(s.subrange(0, a)));
    assert(occupied(upper) + occupied(s.subrange(b + 1, n)) =~= occupied(s.subrange(b + 1, n)));
    assert(occupied(s.subrange(0, a)) + occupied(m) =~= occupied(s.subrange(0, a)));
}

/// `free` undoes `allocate`: on a tiling, after `allocate` took the
/// non-empty span `[start, end)`, `free` of the same span succeeds, gives
/// back the backing it was given, and leaves the same taken regions as
/// before the allocation.
#[verifier::rlimit(60)]
#[verifier::spinoff_prover]
pub proof fn lemma_free_undoes_allocate(
    s: Entries,
    start: u64,
    end: u64,
    backing: MemoryRegion,
    kind: AddressRegionKind,
    permissions: Flags,
    user: Flags,
    first: u64,
    last: u64,
)
    requires
        tiles(s, first, last),
        start < end,
        allocates(s, start, end),
    ensures
        ({
            let u = alloc_entries(s, lower_bound(s, start), start, end, backing, kind, permissions, user);
            let k = lower_bound(u, start);
            &&& frees(u, start, end)
            &&& u[k].1.region == Some(backing)
            &&& occupied(free_entries(u, k)) == occupied(s)
        }),
{
    let n = s.len() as int;
    let i = lower_bound(s, start);
    lemma_tiles_sorted(s, first, last);
    lemma_lower_bound(s, start);
    assert(span_ok(s, i));
    assert(first <= lo(s[i].1)) by {
        if i > 0 {
            lemma_tiles_step(s, first, last, 0, i);
            assert(span_ok(s, 0));
        }
    }
    assert(hi(s[i].1) <= last) by {
        if i < n - 1 {
            lemma_tiles_step(s, first, last, i, n - 1);
            assert(span_ok(s, n - 1));
        }
    }
    let t = alloc_chain(s[i].1, start, end, backing, kind, permissions, user);
    let u = alloc_entries(s, i, start, end, backing, kind, permissions, user);
    lemma_alloc_tiles(s, i, start, end, backing, kind, permissions, user, first, last);
    lemma_allocate_adds_one_region(s, i, start, end, backing, kind, permissions, user, first, last);
    let d: int = if lo(s[i].1) != start { 1 } else { 0 };
    let k = i + d;
    assert(u[k] == t[d]);
    assert(lo(u[k].1) == start && hi(u[k].1) == end && u[k].1.region == Some(backing)) by {
        VirtualAddress::lemma_at(start);
        VirtualAddress::lemma_at(end);
    }
    lemma_tiles_one_holder(u, first, last, start, k);
    lemma_free_removes_one_region(u, k, first, last);
    let pre = s.subrange(0, i);
    let post = s.subrange(i + 1, n);
    assert(u.subrange(0, k) =~= pre + t.subrange(0, d));
    assert(u.subrange(k + 1, u.len() as int) =~= t.subrange(d + 1, t.len() as int) + post);
    lemma_occupied_add(pre, t.subrange(0, d));
    lemma_occupied_add(t.subrange(d + 1, t.len() as int), post);
    reveal_with_fuel(occupied, 3);
    let before = t.subrange(0, d);
    let after = t.subrange(d + 1, t.len() as int);
    if d == 1 {
        assert(before.drop_last() =~= Seq::<(u64, AddressRegion)>::empty());
    } else {
        assert(before =~= Seq::<(u64, AddressRegion)>::empty());
    }
    assert(occupied(before) =~= Seq::<AddressRegion>::empty());
    if after.len() == 1 {
        assert(after.drop_last() =~= Seq::<(u64, AddressRegion)>::empty());
    } else {
        assert(after =~= Seq::<(u64, AddressRegion)>::empty());
    }
    assert(occupied(after) =~= Seq::<AddressRegion>::empty());
    assert(occupied(pre) + occupied(before) =~= occupied(pre));
    assert(occupied(after) + occupied(post) =~= occupied(post));
}

/// What a line of the address map's listing says of a fault address.
#[derive(Debug, Clone, Copy, PartialEq, Eq, Structural)]
pub enum FaultNote {
    /// Nothing.
    Nothing,
    /// The fault lies inside this region.
    Inside,
    /// The fault lies between this region and the next.
    Between,
    /// The fault lies between the previous region and this one.
    AndThis,
}

/// A line of the address map's listing: a taken region, its page size, its
/// span, its kind, its permissions as the letters `V`, `U` or `K`, `R`,
/// `W` and `X` (`-` for a right it lacks), and what it says of the fault.
#[derive(Debug, Clone, Copy, PartialEq, Eq)]
pub struct RegionLine {
    pub page_size: PageSize,
    pub start: VirtualAddress,
    pub end: VirtualAddress,
    pub kind: AddressRegionKind,
    pub permissions: [char; 5],
    pub note: FaultNote,
}

/// The letters of a region's permissions.
pub open spec fn permission_letters(p: Flags) -> Seq<char> {
    seq![
        if has_all(p.bits(), VALID) { 'V' } else { '-' },
        if has_all(p.bits(), USER) { 'U' } else { 'K' },
        if has_all(p.bits(), READ) { 'R' } else { '-' },
        if has_all(p.bits(), WRITE) { 'W' } else { '-' },
        if has_all(p.bits(), EXECUTE) { 'X' } else { '-' },
    ]
}

/// Whether `a` lies in the span of `r`.
pub open spec fn span_holds(r: AddressRegion, a: u64) -> bool {
    lo(r) <= a && a < hi(r)
}

/// The index of the first region of `occ` whose span holds `a`, if any.
pub open spec fn first_holding(occ: Seq<AddressRegion>, a: u64, from: int) -> Option<int>
    decreases occ.len() - from,
{
    if from < 0 || from >= occ.len() {
        None
    } else if span_holds(occ[from], a) {
        Some(from)
    } else {
        first_holding(occ, a, from + 1)
    }
}

/// The index of the first region of `occ` such that `a` lies between its
/// end and the start of the next, if any.
pub open spec fn first_gap(occ: Seq<AddressRegion>, a: u64, from: int) -> Option<int>
    decreases occ.len() - from,
{
    if from < 0 || from + 1 >= occ.len() {
        None
    } else if hi(occ[from]) <= a && a < lo(occ[from + 1]) {
        Some(from)
    } else {
        first_gap(occ, a, from + 1)
    }
}

/// The fault address as a number, if there is one.
pub open spec fn fault_of(addr: Option<VirtualAddress>) -> Option<u64> {
    match addr {
        Some(a) => Some(a.value()),
        None => None,
    }
}

/// Every region that `occupied` lists is taken.
pub proof fn lemma_occupied_taken(s: Entries)
    ensures
        forall|k: int| 0 <= k < occupied(s).len() ==> (#[trigger] occupied(s)[k]).region.is_some(),
    decreases s.len(),
{
    if s.len() > 0 {
        lemma_occupied_taken(s.drop_last());
    }
}

/// The first region holding an address is one of the regions.
pub proof fn lemma_first_holding(occ: Seq<AddressRegion>, a: u64, from: int)
    ensures
        first_holding(occ, a, from) is Some ==> from <= first_holding(occ, a, from).unwrap() < occ.len(),
    decreases occ.len() - from,
{
    if 0 <= from < occ.len() && !span_holds(occ[from], a) {
        lemma_first_holding(occ, a, from + 1);
    }
}

/// The first gap holding an address lies between two of the regions.
pub proof fn lemma_first_gap(occ: Seq<AddressRegion>, a: u64, from: int)
    ensures
        first_gap(occ, a, from) is Some ==> from <= first_gap(occ, a, from).unwrap()
            && first_gap(occ, a, from).unwrap() + 1 < occ.len(),
    decreases occ.len() - from,
{
    if 0 <= from && from + 1 < occ.len() && !(hi(occ[from]) <= a && a < lo(occ[from + 1])) {
        lemma_first_gap(occ, a, from + 1);
    }
}

/// What the line of region `j` of `occ` says of the fault at `fault`.
pub open spec fn note_of(occ: Seq<AddressRegion>, fault: Option<u64>, j: int) -> FaultNote {
    match fault {
        None => FaultNote::Nothing,
        Some(a) => match first_holding(occ, a, 0) {
            Some(i) => if occ[i].span == occ[j].span { FaultNote::Inside } else { FaultNote::Nothing },
            None => match first_gap(occ, a, 0) {
                Some(g) => if occ[g].span == occ[j].span {
                    FaultNote::Between
                } else if occ[g + 1].span == occ[j].span {
                    FaultNote::AndThis
                } else {
                    FaultNote::Nothing
                },
                None => FaultNote::Nothing,
            },
        },
    }
}

/// The index of the first region from `from` on whose span holds `a`.
fn find_holding(occ: &Vec<&AddressRegion>, a: u64) -> (r: Option<usize>)
    ensures
        r.is_some() == first_holding(occ@.map_values(|x: &AddressRegion| *x), a, 0).is_some(),
        r.is_some() ==> r.unwrap() == first_holding(occ@.map_values(|x: &AddressRegion| *x), a, 0).unwrap(),
{
    let ghost o = occ@.map_values(|x: &AddressRegion| *x);
    let mut i: usize = 0;
    while i < occ.len()
        invariant
            o == occ@.map_values(|x: &AddressRegion| *x),
            i <= occ@.len(),
            first_holding(o, a, 0) == first_holding(o, a, i as int),
        decreases occ@.len() - i,
    {
        if occ[i].span.start.as_usize() <= a && a < occ[i].span.end.as_usize() {
            return Some(i);
        }
        i = i + 1;
    }
    None
}

/// The index of the first region whose end and the next region's start
/// hold `a` between them.
fn find_gap(occ: &Vec<&AddressRegion>, a: u64) -> (r: Option<usize>)
    ensures
        r.is_some() == first_gap(occ@.map_values(|x: &AddressRegion| *x), a, 0).is_some(),
        r.is_some() ==> r.unwrap() == first_gap(occ@.map_values(|x: &AddressRegion| *x), a, 0).unwrap(),
{
    let ghost o = occ@.map_values(|x: &AddressRegion| *x);
    let mut i: usize = 0;
    while i < occ.len()
        invariant
            o == occ@.map_values(|x: &AddressRegion| *x),
            i <= occ@.len(),
            first_gap(o, a, 0) == first_gap(o, a, i as int),
        decreases occ@.len() - i,
    {
        if i + 1 < occ.len() && occ[i].span.end.as_usize() <= a && a < occ[i + 1].span.start.as_usize() {
            return Some(i);
        }
        i = i + 1;
    }
    None
}

/// Whether two spans are the same.
fn same_span(a: &AddressRegion, b: &AddressRegion) -> (r: bool)
    ensures
        r == (a.span == b.span),
{
    proof {
        VirtualAddress::lemma_eq_value(a.span.start, b.span.start);
        VirtualAddress::lemma_eq_value(a.span.end, b.span.end);
    }
    a.span.start.as_usize() == b.span.start.as_usize() && a.span.end.as_usize() == b.span.end.as_usize()
}

impl<A: AddressSpace> AddressMap<A> {
    /// The listing of the taken regions in key order, each line saying
    /// whether the fault address `addr` lies inside it, or between it and
    /// the next, or between the previous and it.
    pub fn debug(&self, addr: Option<VirtualAddress>) -> (r: Vec<RegionLine>)
        requires
            self.wf(),
        ensures
            ({
                let occ = occupied(self.entries());
                let fault = fault_of(addr);
                &&& r@.len() == occ.len()
                &&& forall|j: int|
                    0 <= j < r@.len() ==> {
                        &&& (#[trigger] r@[j]).page_size == occ[j].region.unwrap().size_of()
                        &&& r@[j].start == occ[j].span.start
                        &&& r@[j].end == occ[j].span.end
                        &&& r@[j].kind == occ[j].kind
                        &&& r@[j].permissions@ == permission_letters(occ[j].permissions)
                        &&& r@[j].note == note_of(occ, fault, j)
                    }
            }),
    {
        let occ = self.occupied_regions();
        let ghost o = occ@.map_values(|x: &AddressRegion| *x);
        proof {
            assert(o =~= occupied(self.entries()));
            lemma_occupied_taken(self.entries());
            if addr.is_some() {
                lemma_first_holding(o, addr.unwrap().value(), 0);
                lemma_first_gap(o, addr.unwrap().value(), 0);
            }
        }
        let inside = match addr {
            Some(a) => find_holding(&occ, a.as_usize()),
            None => None,
        };
        let between = match addr {
            Some(a) => find_gap(&occ, a.as_usize()),
            None => None,
        };
        let mut out: Vec<RegionLine> = Vec::new();
        let mut j: usize = 0;
        while j < occ.len()
            invariant
                o == occ@.map_values(|x: &AddressRegion| *x),
                o == occupied(self.entries()),
                forall|k: int| 0 <= k < o.len() ==> (#[trigger] o[k]).region.is_some(),
                addr.is_some() ==> inside.is_some() == first_holding(o, addr.unwrap().value(), 0).is_some(),
                addr.is_some() && inside.is_some() ==> inside.unwrap() == first_holding(o, addr.unwrap().value(), 0).unwrap(),
                addr.is_none() ==> inside.is_none(),
                addr.is_none() ==> between.is_none(),
                inside.is_some() ==> inside.unwrap() < o.len(),
                between.is_some() ==> between.unwrap() + 1 < o.len(),
                addr.is_some() ==> between.is_some() == first_gap(o, addr.unwrap().value(), 0).is_some(),
                addr.is_some() && between.is_some() ==> between.unwrap() == first_gap(o, addr.unwrap().value(), 0).unwrap(),
                j <= occ@.len(),
                out@.len() == j,
                forall|k: int|
                    0 <= k < j ==> {
                        &&& (#[trigger] out@[k]).page_size == o[k].region.unwrap().size_of()
                        &&& out@[k].start == o[k].span.start
                        &&& out@[k].end == o[k].span.end
                        &&& out@[k].kind == o[k].kind
                        &&& out@[k].permissions@ == permission_letters(o[k].permissions)
                        &&& out@[k].note == note_of(o, fault_of(addr), k)
                    },
            decreases occ@.len() - j,
        {
            let region = occ[j];
            proof {
                assert(o[j as int] == *region);
            }
            let p = region.permissions;
            let letters = [
                if p.bitand(Flags::VALID()) { 'V' } else { '-' },
                if p.bitand(Flags::USER()) { 'U' } else { 'K' },
                if p.bitand(Flags::READ()) { 'R' } else { '-' },
                if p.bitand(Flags::WRITE()) { 'W' } else { '-' },
                if p.bitand(Flags::EXECUTE()) { 'X' } else { '-' },
            ];
            let note = match inside {
                Some(i) => if same_span(occ[i], region) { FaultNote::Inside } else { FaultNote::Nothing },
                None => match between {
                    Some(g) => if same_span(occ[g], region) {
                        FaultNote::Between
                    } else if same_span(occ[g + 1], region) {
                        FaultNote::AndThis
                    } else {
                        FaultNote::Nothing
                    },
                    None => FaultNote::Nothing,
                },
            };
            let page_size = match &region.region {
                Some(m) => m.page_size(),
                None => {
                    proof {
                        assert(false);
                    }
                    PageSize::Kilopage
                },
            };
            proof {
                assert(letters@ =~= permission_letters(p));
                if let Some(a) = addr {
                    if let Some(i) = inside {
                        assert(o[i as int] == *occ[i as int]);
                    } else if let Some(g) = between {
                        assert(o[g as int] == *occ[g as int]);
                        assert(o[g + 1] == *occ[g + 1]);
                    }
                }
                assert(note == note_of(o, fault_of(addr), j as int));
            }
            out.push(RegionLine { page_size, start: region.span.start, end: region.span.end, kind: region.kind, permissions: letters, note });
            j = j + 1;
        }
        out
    }
}

} // verus!
