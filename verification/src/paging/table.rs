//! Sv39 page tables kept in an arena of 512-entry tables: table `t` holds
//! entries `512 * t` to `512 * t + 511`, and a branch entry points to table
//! `t` by the page number `t`.
use vstd::prelude::*;
use crate::paging::entry::{
    EntryKind, PageSize, PageTableEntry, PhysicalAddress, Rsw, VirtualAddress, vpn_of, sign_extend,
    in_kernel_half, added,
};
use crate::paging::flags::{Flags, VALID, READ, EXECUTE};
use crate::paging::entry::has_flag;
use crate::bits::{lemma_address_bits, lemma_bit_constants, lemma_entry_flag_byte, lemma_or_keeps_bits};

verus! {

/// Entries of one table.
pub const ENTRIES: usize = 512;

/// Where a walk of the tables for an address ends.
pub ghost enum Walk {
    /// An entry on the way is not valid.
    Unmapped,
    /// A leaf entry maps the address: its index and the size of its page.
    Leaf(int, PageSize),
    /// A branch leads out of the tables, or the last level holds a branch.
    Broken,
}

/// The size of the pages that leaves of `level` map.
pub open spec fn level_size(level: int) -> PageSize {
    if level <= 0 {
        PageSize::Kilopage
    } else if level == 1 {
        PageSize::Megapage
    } else {
        PageSize::Gigapage
    }
}

/// The table a branch entry points to.
pub open spec fn table_of(e: PageTableEntry) -> int {
    e.target() as int / 0x1000
}

/// Where a walk for `va` that reads table `t` at `level` ends.
pub open spec fn walk_from(s: Seq<PageTableEntry>, t: int, level: int, va: u64) -> Walk
    decreases level,
{
    if level < 0 || t < 0 || t * 512 + 512 > s.len() {
        Walk::Broken
    } else {
        let slot = t * 512 + vpn_of(va, level);
        let e = s[slot];
        match e.kind_of() {
            EntryKind::NotValid => Walk::Unmapped,
            EntryKind::Leaf => Walk::Leaf(slot, level_size(level)),
            EntryKind::Branch(_) => if level == 0 {
                Walk::Broken
            } else {
                walk_from(s, table_of(e), level - 1, va)
            },
        }
    }
}

/// A walk that ends at a leaf ends at an entry of the tables that is a leaf.
pub proof fn lemma_walk_leaf(s: Seq<PageTableEntry>, t: int, level: int, va: u64)
    requires
        walk_from(s, t, level, va) is Leaf,
    ensures
        0 <= walk_from(s, t, level, va)->Leaf_0 < s.len(),
        s[walk_from(s, t, level, va)->Leaf_0].kind_of() is Leaf,
        s[walk_from(s, t, level, va)->Leaf_0].valid(),
    decreases level,
{
    let slot = t * 512 + vpn_of(va, level);
    let e = s[slot];
    match e.kind_of() {
        EntryKind::Leaf => {
            let b = e.bits();
            lemma_entry_flag_byte(b, 0);
        },
        EntryKind::Branch(_) => {
            lemma_walk_leaf(s, table_of(e), level - 1, va);
        },
        EntryKind::NotValid => {},
    }
}

/// A table of `512` clear entries.
pub open spec fn zero_table() -> Seq<PageTableEntry> {
    Seq::new(512, |i: int| PageTableEntry::with_fields(0, 0, 0))
}

/// The leaf entry a map writes over `e`: the page of `from` and the flags;
/// with software bits given, their low two bits land in the flag byte and
/// the software field is cleared, without them the field stays.
pub open spec fn leaf_entry(e: PageTableEntry, flags: Flags, from: PhysicalAddress, rsw: Option<Rsw>) -> PageTableEntry {
    match rsw {
        Some(r) => PageTableEntry::with_fields(from.page_number(), 0, flags.bits() | (r.bits() & 3)),
        None => PageTableEntry::with_fields(from.page_number(), e.rsw_field(), flags.bits()),
    }
}

/// The flag byte of the leaf a map writes.
pub open spec fn leaf_byte(flags: Flags, rsw: Option<Rsw>) -> u8 {
    match rsw {
        Some(r) => flags.bits() | (r.bits() & 3),
        None => flags.bits(),
    }
}

/// Whether the leaf a map of `size` pages writes reads as a leaf or as an
/// invalid entry: a byte that is valid without read or execute rights reads
/// as a branch, which only the last level may hold.
pub open spec fn leaf_flags_ok(flags: Flags, rsw: Option<Rsw>, size: PageSize) -> bool {
    let b = leaf_byte(flags, rsw);
    size == PageSize::Kilopage || !has_flag(b, VALID) || has_flag(b, READ) || has_flag(b, EXECUTE)
}

/// The branch entry `map` writes over an invalid entry `e` to point it at
/// table `n`.
pub open spec fn branch_entry(e: PageTableEntry, n: int) -> PageTableEntry {
    PageTableEntry::with_fields(n as u64, e.rsw_field(), VALID)
}

/// Whether a map of `size` pages at `va` can go on from table `t` at
/// `level`: no leaf lies on the way, every branch leads to a table, and the
/// entry at the target level is not valid.
pub open spec fn map_ok(s: Seq<PageTableEntry>, t: int, level: int, va: u64, size: PageSize) -> bool
    decreases level,
{
    if level < size.level() || level < 0 || t < 0 || t * 512 + 512 > s.len() {
        false
    } else {
        let slot = t * 512 + vpn_of(va, level);
        let e = s[slot];
        if level == size.level() {
            !e.valid()
        } else {
            match e.kind_of() {
                EntryKind::Leaf => false,
                EntryKind::NotValid => true,
                EntryKind::Branch(_) => map_ok(s, table_of(e), level - 1, va, size),
            }
        }
    }
}

/// The entries after mapping `from` at `va` from table `t` at `level`:
/// invalid entries on the way become branches to new clear tables at the
/// end, and the entry at the target level becomes the leaf.
pub open spec fn map_spec(
    s: Seq<PageTableEntry>,
    t: int,
    level: int,
    va: u64,
    size: PageSize,
    flags: Flags,
    from: PhysicalAddress,
    rsw: Option<Rsw>,
) -> Seq<PageTableEntry>
    decreases level,
{
    if level < size.level() || level < 0 {
        s
    } else {
        let slot = t * 512 + vpn_of(va, level);
        let e = s[slot];
        if level == size.level() {
            s.update(slot, leaf_entry(e, flags, from, rsw))
        } else {
            match e.kind_of() {
                EntryKind::Branch(_) => map_spec(s, table_of(e), level - 1, va, size, flags, from, rsw),
                _ => {
                    let n = s.len() as int / 512;
                    map_spec(s.update(slot, branch_entry(e, n)) + zero_table(), n, level - 1, va, size, flags, from, rsw)
                },
            }
        }
    }
}

/// The entries fill whole tables, `lv` gives each table a level from 0 to
/// 2, and each branch of a table above the last level points to a table one
/// level lower.
pub open spec fn tables_ok(s: Seq<PageTableEntry>, lv: Seq<int>) -> bool {
    &&& s.len() % 512 == 0
    &&& s.len() >= 512
    &&& lv.len() == s.len() / 512
    &&& forall|t: int| 0 <= t < lv.len() ==> 0 <= #[trigger] lv[t] <= 2
    &&& forall|j: int|
        0 <= j < s.len() && lv[j / 512] > 0 && (#[trigger] s[j]).kind_of() is Branch ==> {
            &&& 0 <= table_of(s[j]) < lv.len()
            &&& lv[table_of(s[j])] == lv[j / 512] - 1
        }
}

/// The clear entry is not valid and reads as such.
pub proof fn lemma_zero_entry()
    ensures
        PageTableEntry::with_fields(0, 0, 0).flag_byte() == 0,
        PageTableEntry::with_fields(0, 0, 0).kind_of() is NotValid,
        !PageTableEntry::with_fields(0, 0, 0).valid(),
{
    PageTableEntry::lemma_with_fields(0, 0, 0);
    let z = PageTableEntry::with_fields(0, 0, 0);
    let b = z.bits();
    lemma_bit_constants();
    lemma_entry_flag_byte(b, 0);
}

/// The entries after an invalid entry on the way of a map becomes a branch
/// to a new clear table keep the tables in order, the new table taking the
/// level below.
pub proof fn lemma_grow(s: Seq<PageTableEntry>, lv: Seq<int>, t: int, level: int, va: u64)
    requires
        tables_ok(s, lv),
        0 <= t < lv.len(),
        lv[t] == level,
        1 <= level <= 2,
        s[t * 512 + vpn_of(va, level)].kind_of() is NotValid,
        lv.len() < 0x100_0000_0000,
    ensures
        ({
            let slot = t * 512 + vpn_of(va, level);
            let n = s.len() as int / 512;
            let s2 = s.update(slot, branch_entry(s[slot], n)) + zero_table();
            let lv2 = lv.push(level - 1);
            &&& tables_ok(s2, lv2)
            &&& s2[slot].kind_of() is Branch
            &&& table_of(s2[slot]) == n
            &&& forall|j: int| 0 <= j < s2.len() && j >= s.len() ==> s2[j] == PageTableEntry::with_fields(0, 0, 0)
        }),
{
    let slot = t * 512 + vpn_of(va, level);
    let n = s.len() as int / 512;
    let e = s[slot];
    let b = branch_entry(e, n);
    let s2 = s.update(slot, b) + zero_table();
    let lv2 = lv.push(level - 1);
    lemma_zero_entry();
    PageTableEntry::lemma_with_fields(n as u64, e.rsw_field(), VALID);
    assert(b.flag_byte() == VALID);
    lemma_bit_constants();
    assert(b.kind_of() is Branch);
    assert(b.ppn_field() == n);
    assert(b.target() == n * 0x1000);
    assert(table_of(b) == n);
    assert(slot / 512 == t);
    assert forall|j: int|
        0 <= j < s2.len() && lv2[j / 512] > 0 && (#[trigger] s2[j]).kind_of() is Branch implies {
            &&& 0 <= table_of(s2[j]) < lv2.len()
            &&& lv2[table_of(s2[j])] == lv2[j / 512] - 1
        } by {
        if j >= s.len() {
            assert(s2[j] == PageTableEntry::with_fields(0, 0, 0));
        } else if j != slot {
            assert(s2[j] == s[j]);
            assert(j / 512 < lv.len());
        }
    }
}

/// A map from table `t` of `level` leaves the entries of tables above
/// `level` as they were, only adds whole tables, and keeps the tables in
/// order with the levels `map_levels` gives.
pub proof fn lemma_map_frame(
    s: Seq<PageTableEntry>,
    lv: Seq<int>,
    t: int,
    level: int,
    va: u64,
    size: PageSize,
    flags: Flags,
    from: PhysicalAddress,
    rsw: Option<Rsw>,
)
    requires
        tables_ok(s, lv),
        0 <= t < lv.len(),
        lv[t] == level,
        size.level() <= level <= 2,
        map_ok(s, t, level, va, size),
        leaf_flags_ok(flags, rsw, size),
        lv.len() + level < 0x100_0000_0000,
    ensures
        ({
            let r = map_spec(s, t, level, va, size, flags, from, rsw);
            &&& r.len() >= s.len()
            &&& r.len() % 512 == 0
            &&& r.len() <= s.len() + 512 * (level - size.level())
            &&& forall|j: int| 0 <= j < s.len() && lv[j / 512] > level ==> r[j] == s[j]
        }),
    decreases level,
{
    let slot = t * 512 + vpn_of(va, level);
    let e = s[slot];
    assert(slot / 512 == t);
    if level == size.level() {
    } else {
        match e.kind_of() {
            EntryKind::Branch(_) => {
                lemma_map_frame(s, lv, table_of(e), level - 1, va, size, flags, from, rsw);
            },
            _ => {
                let n = s.len() as int / 512;
                let s2 = s.update(slot, branch_entry(e, n)) + zero_table();
                let lv2 = lv.push(level - 1);
                lemma_grow(s, lv, t, level, va);
                lemma_zero_entry();
                let z = s2[n * 512 + vpn_of(va, level - 1)];
                assert(z == PageTableEntry::with_fields(0, 0, 0));
                assert(map_ok(s2, n, level - 1, va, size));
                lemma_map_frame(s2, lv2, n, level - 1, va, size, flags, from, rsw);
                assert forall|j: int| 0 <= j < s.len() && lv[j / 512] > level implies
                    map_spec(s2, n, level - 1, va, size, flags, from, rsw)[j] == s[j] by {
                    assert(j / 512 < lv.len());
                    assert(lv2[j / 512] == lv[j / 512]);
                    assert(j != slot);
                }
            },
        }
    }
}

/// After a map from table `t` of `level`, the walk for `va` from `t` ends at
/// a leaf of the size mapped, whose entry holds the page of `from` and the
/// flag byte of the map, when that byte reads as a leaf.
pub proof fn lemma_map_walk(
    s: Seq<PageTableEntry>,
    lv: Seq<int>,
    t: int,
    level: int,
    va: u64,
    size: PageSize,
    flags: Flags,
    from: PhysicalAddress,
    rsw: Option<Rsw>,
)
    requires
        tables_ok(s, lv),
        0 <= t < lv.len(),
        lv[t] == level,
        size.level() <= level <= 2,
        map_ok(s, t, level, va, size),
        leaf_flags_ok(flags, rsw, size),
        makes_leaf(leaf_byte(flags, rsw)),
        lv.len() + level < 0x100_0000_0000,
    ensures
        ({
            let r = map_spec(s, t, level, va, size, flags, from, rsw);
            let w = walk_from(r, t, level, va);
            &&& w is Leaf
            &&& w->Leaf_1 == size
            &&& 0 <= w->Leaf_0 < r.len()
            &&& r[w->Leaf_0].flag_byte() == leaf_byte(flags, rsw)
            &&& r[w->Leaf_0].ppn_field() == from.page_number()
        }),
    decreases level,
{
    let slot = t * 512 + vpn_of(va, level);
    let e = s[slot];
    assert(slot / 512 == t);
    if level == size.level() {
        let r = s.update(slot, leaf_entry(e, flags, from, rsw));
        let le = leaf_entry(e, flags, from, rsw);
        match rsw {
            Some(x) => PageTableEntry::lemma_with_fields(from.page_number(), 0, leaf_byte(flags, rsw)),
            None => PageTableEntry::lemma_with_fields(from.page_number(), e.rsw_field(), leaf_byte(flags, rsw)),
        }
        assert(le.flag_byte() == leaf_byte(flags, rsw));
        assert(le.kind_of() is Leaf);
        assert(r[slot] == le);
    } else {
        lemma_map_frame(s, lv, t, level, va, size, flags, from, rsw);
        match e.kind_of() {
            EntryKind::Branch(_) => {
                lemma_map_frame(s, lv, table_of(e), level - 1, va, size, flags, from, rsw);
                lemma_map_walk(s, lv, table_of(e), level - 1, va, size, flags, from, rsw);
                let r = map_spec(s, table_of(e), level - 1, va, size, flags, from, rsw);
                assert(r[slot] == e);
            },
            _ => {
                let n = s.len() as int / 512;
                let s2 = s.update(slot, branch_entry(e, n)) + zero_table();
                let lv2 = lv.push(level - 1);
                lemma_grow(s, lv, t, level, va);
                lemma_zero_entry();
                let z = s2[n * 512 + vpn_of(va, level - 1)];
                assert(z == PageTableEntry::with_fields(0, 0, 0));
                assert(map_ok(s2, n, level - 1, va, size));
                lemma_map_frame(s2, lv2, n, level - 1, va, size, flags, from, rsw);
                lemma_map_walk(s2, lv2, n, level - 1, va, size, flags, from, rsw);
                let r = map_spec(s2, n, level - 1, va, size, flags, from, rsw);
                assert(lv2[slot / 512] == level);
                assert(r[slot] == s2[slot]);
            },
        }
    }
}

/// Clearing the leaf a walk ends at leaves the walk unmapped: the entries
/// before it on the way are branches, so none of them is that leaf.
pub proof fn lemma_clear_walk(s: Seq<PageTableEntry>, t: int, level: int, va: u64)
    requires
        walk_from(s, t, level, va) is Leaf,
    ensures
        walk_from(s.update(walk_from(s, t, level, va)->Leaf_0, PageTableEntry::with_fields(0, 0, 0)), t, level, va)
            is Unmapped,
    decreases level,
{
    let leaf = walk_from(s, t, level, va)->Leaf_0;
    lemma_walk_leaf(s, t, level, va);
    lemma_zero_entry();
    let s2 = s.update(leaf, PageTableEntry::with_fields(0, 0, 0));
    let slot = t * 512 + vpn_of(va, level);
    let e = s[slot];
    match e.kind_of() {
        EntryKind::Branch(_) => {
            assert(slot != leaf);
            assert(s2[slot] == e);
            lemma_clear_walk(s, table_of(e), level - 1, va);
        },
        _ => {},
    }
}

/// A map writes only over entries that were not valid: every valid entry
/// stays as it was.
pub proof fn lemma_map_keeps_valid(
    s: Seq<PageTableEntry>,
    t: int,
    level: int,
    va: u64,
    size: PageSize,
    flags: Flags,
    from: PhysicalAddress,
    rsw: Option<Rsw>,
)
    requires
        map_ok(s, t, level, va, size),
        s.len() % 512 == 0,
    ensures
        map_spec(s, t, level, va, size, flags, from, rsw).len() >= s.len(),
        forall|j: int|
            0 <= j < s.len() && (#[trigger] s[j]).valid() ==> map_spec(s, t, level, va, size, flags, from, rsw)[j]
                == s[j],
    decreases level,
{
    let slot = t * 512 + vpn_of(va, level);
    let e = s[slot];
    if level == size.level() {
    } else {
        match e.kind_of() {
            EntryKind::Branch(_) => {
                lemma_map_keeps_valid(s, table_of(e), level - 1, va, size, flags, from, rsw);
            },
            _ => {
                let n = s.len() as int / 512;
                let s2 = s.update(slot, branch_entry(e, n)) + zero_table();
                lemma_zero_entry();
                let z = s2[n * 512 + vpn_of(va, level - 1)];
                assert(z == PageTableEntry::with_fields(0, 0, 0));
                assert(map_ok(s2, n, level - 1, va, size));
                lemma_map_keeps_valid(s2, n, level - 1, va, size, flags, from, rsw);
                assert(!e.valid()) by {
                    let b = e.bits();
                    lemma_entry_flag_byte(b, 0);
                }
                assert forall|j: int| 0 <= j < s.len() && (#[trigger] s[j]).valid() implies
                    map_spec(s2, n, level - 1, va, size, flags, from, rsw)[j] == s[j] by {
                    assert(j != slot);
                    assert(s2[j] == s[j]);
                }
            },
        }
    }
}

/// A walk that ends at a leaf reads only valid entries, so tables that keep
/// every valid entry give the same walk.
pub proof fn lemma_walk_kept(s: Seq<PageTableEntry>, r: Seq<PageTableEntry>, t: int, level: int, va: u64)
    requires
        walk_from(s, t, level, va) is Leaf,
        r.len() >= s.len(),
        forall|j: int| 0 <= j < s.len() && (#[trigger] s[j]).valid() ==> r[j] == s[j],
    ensures
        walk_from(r, t, level, va) == walk_from(s, t, level, va),
    decreases level,
{
    let slot = t * 512 + vpn_of(va, level);
    let e = s[slot];
    lemma_walk_leaf(s, t, level, va);
    match e.kind_of() {
        EntryKind::Branch(_) => {
            assert(e.valid()) by {
                let b = e.bits();
                lemma_entry_flag_byte(b, 0);
            }
            assert(r[slot] == e);
            lemma_walk_kept(s, r, table_of(e), level - 1, va);
        },
        EntryKind::Leaf => {
            assert(e.valid()) by {
                let b = e.bits();
                lemma_entry_flag_byte(b, 0);
            }
            assert(r[slot] == e);
        },
        EntryKind::NotValid => {},
    }
}

/// Replacing the leaf a walk ends at by another leaf keeps the walk.
pub proof fn lemma_walk_same_leaf(s: Seq<PageTableEntry>, t: int, level: int, va: u64, e: PageTableEntry)
    requires
        walk_from(s, t, level, va) is Leaf,
        e.kind_of() is Leaf,
    ensures
        walk_from(s.update(walk_from(s, t, level, va)->Leaf_0, e), t, level, va) == walk_from(s, t, level, va),
    decreases level,
{
    let slot = walk_from(s, t, level, va)->Leaf_0;
    let here = t * 512 + vpn_of(va, level);
    lemma_walk_leaf(s, t, level, va);
    match s[here].kind_of() {
        EntryKind::Branch(_) => {
            lemma_walk_leaf(s, table_of(s[here]), level - 1, va);
            assert(here != slot);
            lemma_walk_same_leaf(s, table_of(s[here]), level - 1, va, e);
        },
        _ => {},
    }
}

/// Clearing one leaf leaves the walk of every address whose walk ends at
/// another entry as it was.
pub proof fn lemma_clear_keeps_others(s: Seq<PageTableEntry>, t: int, level: int, va: u64, slot: int)
    requires
        walk_from(s, t, level, va) is Leaf,
        walk_from(s, t, level, va)->Leaf_0 != slot,
        0 <= slot < s.len(),
        s[slot].kind_of() is Leaf,
    ensures
        walk_from(s.update(slot, PageTableEntry::with_fields(0, 0, 0)), t, level, va) == walk_from(s, t, level, va),
    decreases level,
{
    let here = t * 512 + vpn_of(va, level);
    let e = s[here];
    lemma_walk_leaf(s, t, level, va);
    match e.kind_of() {
        EntryKind::Branch(_) => {
            assert(here != slot);
            lemma_clear_keeps_others(s, table_of(e), level - 1, va, slot);
        },
        _ => {},
    }
}

/// Any page can be mapped into a root table with no valid entry.
pub proof fn lemma_map_ok_fresh(va: u64, size: PageSize)
    ensures
        map_ok(zero_table(), 0, 2, va, size),
{
    lemma_zero_entry();
    let z = zero_table()[vpn_of(va, 2) as int];
    assert(z == PageTableEntry::with_fields(0, 0, 0));
}

/// Whether a flag byte reads as a leaf: valid, with read or execute rights.
pub open spec fn makes_leaf(b: u8) -> bool {
    has_flag(b, VALID) && (has_flag(b, READ) || has_flag(b, EXECUTE))
}

/// A page table: a root table and the tables its branches reach.
pub struct PageTable {
    entries: Vec<PageTableEntry>,
    levels: Ghost<Seq<int>>,
}

impl View for PageTable {
    type V = Seq<PageTableEntry>;

    closed spec fn view(&self) -> Seq<PageTableEntry> {
        self.entries@
    }
}

impl PageTable {
    /// The number of tables.
    pub open spec fn n_tables(&self) -> int {
        self@.len() as int / 512
    }

    /// Where a walk for `va` from the root ends.
    pub open spec fn walk(&self, va: u64) -> Walk {
        walk_from(self@, 0, 2, va)
    }

    /// The level of each table, the root's being 2.
    pub closed spec fn table_levels(&self) -> Seq<int> {
        self.levels@
    }

    /// The tables fill whole blocks of 512 entries, there are fewer than
    /// `2^40`, and each branch of a table above the last level points to a
    /// table one level lower.
    pub closed spec fn wf(&self) -> bool {
        &&& tables_ok(self@, self.levels@)
        &&& self.levels@[0] == 2
        &&& self.n_tables() < 0x100_0000_0000
    }

    /// In well-formed tables, a walk from a table of `level` that ends at a
    /// leaf ends in a table whose level is that of the leaf's page size.
    proof fn lemma_walk_level(&self, t: int, level: int, va: u64)
        requires
            self.wf(),
            0 <= t < self.n_tables(),
            0 <= level <= 2,
            self.levels@[t] == level,
            walk_from(self@, t, level, va) is Leaf,
        ensures
            self.levels@[walk_from(self@, t, level, va)->Leaf_0 / 512] == walk_from(self@, t, level, va)->Leaf_1.level(),
        decreases level,
    {
        let slot = t * 512 + vpn_of(va, level);
        let e = self@[slot];
        assert(slot / 512 == t);
        match e.kind_of() {
            EntryKind::Branch(_) => {
                assert(self.levels@[slot / 512] > 0);
                self.lemma_walk_level(table_of(e), level - 1, va);
            },
            _ => {},
        }
    }

    /// After `map` or `static_map` of `from` at `to` with a flag byte that
    /// reads as a leaf, the walk for `to` ends at a leaf of the size mapped
    /// that points at `from` (as a 56-bit physical address) and holds that
    /// flag byte, so `resolve` gives back `from` and `page_flags` the flags
    /// written.
    pub proof fn lemma_map_then_resolve(
        &self,
        from: PhysicalAddress,
        to: VirtualAddress,
        flags: Flags,
        size: PageSize,
        rsw: Option<Rsw>,
    )
        requires
            self.wf(),
            from.value() % size.bytes() == 0,
            map_ok(self@, 0, 2, to.value(), size),
            leaf_flags_ok(flags, rsw, size),
            makes_leaf(leaf_byte(flags, rsw)),
            self.n_tables() + 2 < 0x100_0000_0000,
        ensures
            ({
                let r = map_spec(self@, 0, 2, to.value(), size, flags, from, rsw);
                let w = walk_from(r, 0, 2, to.value());
                &&& w is Leaf
                &&& w->Leaf_1 == size
                &&& 0 <= w->Leaf_0 < r.len()
                &&& r[w->Leaf_0].target() == from.value() % 0x100_0000_0000_0000
                &&& r[w->Leaf_0].flag_byte() == leaf_byte(flags, rsw)
            }),
    {
        lemma_map_walk(self@, self.levels@, 0, 2, to.value(), size, flags, from, rsw);
        lemma_address_bits(from.value());
    }

    /// A map keeps every mapping that was there: for an address whose walk
    /// ends at a leaf before `map` or `static_map`, the walk ends at the same
    /// entry afterwards, and that entry is unchanged.
    pub proof fn lemma_map_keeps_mappings(
        &self,
        from: PhysicalAddress,
        to: VirtualAddress,
        flags: Flags,
        size: PageSize,
        rsw: Option<Rsw>,
        other: VirtualAddress,
    )
        requires
            self.wf(),
            map_ok(self@, 0, 2, to.value(), size),
            self.walk(other.value()) is Leaf,
        ensures
            ({
                let r = map_spec(self@, 0, 2, to.value(), size, flags, from, rsw);
                &&& walk_from(r, 0, 2, other.value()) == self.walk(other.value())
                &&& r[self.walk(other.value())->Leaf_0] == self@[self.walk(other.value())->Leaf_0]
            }),
    {
        let r = map_spec(self@, 0, 2, to.value(), size, flags, from, rsw);
        lemma_map_keeps_valid(self@, 0, 2, to.value(), size, flags, from, rsw);
        lemma_walk_leaf(self@, 0, 2, other.value());
        lemma_walk_kept(self@, r, 0, 2, other.value());
        lemma_walk_leaf(self@, 0, 2, other.value());
    }

    /// `unmap` of `address` keeps every other mapping: an address whose walk
    /// ends at another leaf still ends there.
    pub proof fn lemma_unmap_keeps_others(&self, address: VirtualAddress, other: VirtualAddress)
        requires
            self.walk(address.value()) is Leaf,
            self.walk(other.value()) is Leaf,
            self.walk(other.value())->Leaf_0 != self.walk(address.value())->Leaf_0,
        ensures
            walk_from(
                self@.update(self.walk(address.value())->Leaf_0, PageTableEntry::with_fields(0, 0, 0)),
                0,
                2,
                other.value(),
            ) == self.walk(other.value()),
    {
        lemma_walk_leaf(self@, 0, 2, address.value());
        lemma_clear_keeps_others(self@, 0, 2, other.value(), self.walk(address.value())->Leaf_0);
    }

    /// After `unmap` of `address`, the walk for it finds no page.
    pub proof fn lemma_unmap_then_walk(&self, address: VirtualAddress)
        requires
            self.walk(address.value()) is Leaf,
        ensures
            walk_from(
                self@.update(self.walk(address.value())->Leaf_0, PageTableEntry::with_fields(0, 0, 0)),
                0,
                2,
                address.value(),
            ) is Unmapped,
    {
        lemma_clear_walk(self@, 0, 2, address.value());
    }

    /// A page table whose root has no valid entry.
    pub fn new_raw() -> (r: Self)
        ensures
            r.wf(),
            r@ == zero_table(),
    {
        let mut entries: Vec<PageTableEntry> = Vec::new();
        let mut i: usize = 0;
        while i < ENTRIES
            invariant
                i <= 512,
                entries@ == Seq::new(i as nat, |k: int| PageTableEntry::with_fields(0, 0, 0)),
            decreases 512 - i,
        {
            let e = PageTableEntry::new();
            proof {
                PageTableEntry::lemma_fields(e);
                assert(e.ppn_field() == 0 && e.rsw_field() == 0 && e.flag_byte() == 0);
            }
            entries.push(e);
            proof {
                assert(entries@ =~= Seq::new((i + 1) as nat, |k: int| PageTableEntry::with_fields(0, 0, 0)));
            }
            i = i + 1;
        }
        let ghost lv: Seq<int> = seq![2int];
        let r = PageTable { entries, levels: Ghost(lv) };
        proof {
            PageTableEntry::lemma_with_fields(0, 0, 0);
            assert(r@ =~= zero_table());
            assert forall|j: int| 0 <= j < r@.len() implies !((#[trigger] r@[j]).kind_of() is Branch) by {
                assert(r@[j].flag_byte() == 0);
                lemma_bit_constants();
            }
        }
        r
    }
}


impl PageTable {
    /// The index and page size of the leaf that maps `va`, or `None` when an
    /// entry on the way is not valid.
    fn find_leaf(&self, va: VirtualAddress) -> (r: Option<(usize, PageSize)>)
        requires
            !(self.walk(va.value()) is Broken),
        ensures
            match self.walk(va.value()) {
                Walk::Leaf(slot, size) => r == Some((slot as usize, size)) && 0 <= slot < self@.len() && slot as usize == slot,
                _ => r.is_none(),
            },
    {
        let vpns = va.vpns();
        let n = self.entries.len();
        let mut t: usize = 0;
        let mut level: usize = 2;
        let mut current = PageSize::top_level();
        loop
            invariant
                n == self@.len(),
                level <= 2,
                current == level_size(level as int),
                vpns@.len() == 3,
                forall|i: int| 0 <= i < 3 ==> vpns@[i] == vpn_of(va.value(), i),
                walk_from(self@, 0, 2, va.value()) == walk_from(self@, t as int, level as int, va.value()),
                !(walk_from(self@, t as int, level as int, va.value()) is Broken),
            decreases level,
        {
            let ghost w = walk_from(self@, t as int, level as int, va.value());
            proof {
                assert(t * 512 + 512 <= self@.len());
                assert(vpns@[level as int] < 512);
            }
            let slot = t * ENTRIES + vpns[level];
            let entry = self.entries[slot];
            proof {
                assert(slot == t * 512 + vpn_of(va.value(), level as int));
                assert(entry == self@[slot as int]);
            }
            match entry.kind() {
                EntryKind::Leaf => return Some((slot, current)),
                EntryKind::NotValid => return None,
                EntryKind::Branch(paddr) => {
                    proof {
                        PhysicalAddress::lemma_at(entry.target());
                        assert(paddr.value() == entry.target());
                        assert(level > 0);
                        assert(w == walk_from(self@, table_of(entry), level - 1, va.value()));
                        assert(table_of(entry) * 512 + 512 <= self@.len());
                    }
                    t = (paddr.as_usize() / 0x1000) as usize;
                    level = level - 1;
                    current = match current.next() {
                        Some(next) => next,
                        None => {
                            proof {
                                assert(false);
                            }
                            current
                        },
                    };
                },
            }
        }
    }

    /// Whether the walk for `va` can be done: it reaches a leaf or an entry
    /// that is not valid, without leaving the tables or finding a branch in
    /// a table of the last level.
    pub fn walks_cleanly(&self, va: VirtualAddress) -> (r: bool)
        ensures
            r == !(self.walk(va.value()) is Broken),
    {
        let vpns = va.vpns();
        let n = self.entries.len();
        let mut t: u64 = 0;
        let mut level: usize = 2;
        loop
            invariant
                n == self@.len(),
                level <= 2,
                vpns@.len() == 3,
                forall|i: int| 0 <= i < 3 ==> vpns@[i] == vpn_of(va.value(), i),
                walk_from(self@, 0, 2, va.value()) == walk_from(self@, t as int, level as int, va.value()),
            decreases level,
        {
            if t >= (n / 512) as u64 {
                proof {
                    assert(t * 512 + 512 > n) by (nonlinear_arith)
                        requires
                            t >= n / 512,
                    ;
                }
                return false;
            }
            proof {
                assert(t * 512 + 512 <= n) by (nonlinear_arith)
                    requires
                        t < n / 512,
                ;
                assert(vpns@[level as int] < 512);
            }
            let slot = (t as usize) * ENTRIES + vpns[level];
            let entry = self.entries[slot];
            match entry.kind() {
                EntryKind::Leaf => return true,
                EntryKind::NotValid => return true,
                EntryKind::Branch(paddr) => {
                    if level == 0 {
                        return false;
                    }
                    proof {
                        PhysicalAddress::lemma_at(entry.target());
                    }
                    t = paddr.as_usize() / 0x1000;
                    level = level - 1;
                },
            }
        }
    }

    /// The physical address the page of `address` is mapped to, if it is.
    pub fn resolve(&self, address: VirtualAddress) -> (r: Option<PhysicalAddress>)
        requires
            !(self.walk(address.value()) is Broken),
        ensures
            match self.walk(address.value()) {
                Walk::Leaf(slot, _) => r.is_some() && r.unwrap().value() == self@[slot].target(),
                _ => r.is_none(),
            },
    {
        proof {
            if self.walk(address.value()) is Leaf {
                lemma_walk_leaf(self@, 0, 2, address.value());
                PhysicalAddress::lemma_at(self@[self.walk(address.value())->Leaf_0].target());
            }
        }
        match self.find_leaf(address) {
            Some((slot, _)) => self.entries[slot].ppn(),
            None => None,
        }
    }

    /// The flags of the page of `address`, if it is mapped.
    pub fn page_flags(&self, address: VirtualAddress) -> (r: Option<Flags>)
        requires
            !(self.walk(address.value()) is Broken),
        ensures
            match self.walk(address.value()) {
                Walk::Leaf(slot, _) => r.is_some() && r.unwrap().bits() == self@[slot].flag_byte(),
                _ => r.is_none(),
            },
    {
        match self.find_leaf(address) {
            Some((slot, _)) => Some(self.entries[slot].flags()),
            None => None,
        }
    }

    /// The software bits of the page of `address`, if it is mapped.
    pub fn page_rsw(&self, address: VirtualAddress) -> (r: Option<Rsw>)
        requires
            !(self.walk(address.value()) is Broken),
        ensures
            match self.walk(address.value()) {
                Walk::Leaf(slot, _) => r.is_some() && r.unwrap().bits() == self@[slot].rsw_field(),
                _ => r.is_none(),
            },
    {
        match self.find_leaf(address) {
            Some((slot, _)) => Some(self.entries[slot].rsw()),
            None => None,
        }
    }

    /// Clears the leaf that maps `address`, which must be mapped.
    pub fn unmap(&mut self, address: VirtualAddress)
        requires
            old(self).wf(),
            old(self).walk(address.value()) is Leaf,
        ensures
            final(self).wf(),
            final(self)@ == old(self)@.update(
                old(self).walk(address.value())->Leaf_0,
                PageTableEntry::with_fields(0, 0, 0),
            ),
            final(self).walk(address.value()) is Unmapped,
            forall|other: u64|
                #![trigger final(self).walk(other)]
                old(self).walk(other) is Leaf && old(self).walk(other)->Leaf_0 != old(self).walk(address.value())->Leaf_0
                    ==> final(self).walk(other) == old(self).walk(other),
    {
        let ghost pre = *self;
        proof {
            pre.lemma_unmap_then_walk(address);
            assert forall|other: u64|
                #![trigger walk_from(pre@.update(pre.walk(address.value())->Leaf_0, PageTableEntry::with_fields(0, 0, 0)), 0, 2, other)]
                pre.walk(other) is Leaf && pre.walk(other)->Leaf_0 != pre.walk(address.value())->Leaf_0 implies walk_from(
                    pre@.update(pre.walk(address.value())->Leaf_0, PageTableEntry::with_fields(0, 0, 0)),
                    0,
                    2,
                    other,
                ) == pre.walk(other) by {
                VirtualAddress::lemma_at(other);
                pre.lemma_unmap_keeps_others(address, VirtualAddress::at(other));
            }
        }
        proof {
            lemma_walk_leaf(self@, 0, 2, address.value());
        }
        let slot = match self.find_leaf(address) {
            Some((slot, _)) => slot,
            None => {
                proof {
                    assert(false);
                }
                0
            },
        };
        let e = PageTableEntry::new();
        proof {
            assert(e.flag_byte() == 0);
            lemma_bit_constants();
            PageTableEntry::lemma_fields(e);
        }
        self.entries.set(slot, e);
        proof {
            assert(!(e.kind_of() is Branch));
        }
    }

    /// Replaces the flags of the page of `address` by what `f` makes of
    /// them; returns whether the page is mapped.
    pub fn modify_page_flags<F: FnOnce(Flags) -> Flags>(&mut self, address: VirtualAddress, f: F) -> (r: bool)
        requires
            old(self).wf(),
            !(old(self).walk(address.value()) is Broken),
            forall|fl: Flags| call_requires(f, (fl,)),
            forall|fl: Flags, g: Flags| call_ensures(f, (fl,), g) ==> old(self).flags_ok(address.value(), g),
        ensures
            final(self).wf(),
            r == old(self).walk(address.value()) is Leaf,
            match old(self).walk(address.value()) {
                Walk::Leaf(slot, _) => exists|g: Flags| {
                    &&& call_ensures(f, (Flags::from_bits(old(self)@[slot].flag_byte()),), g)
                    &&& final(self)@ == old(self)@.update(slot, PageTableEntry::with_fields(
                        old(self)@[slot].ppn_field(), old(self)@[slot].rsw_field(), g.bits()))
                },
                _ => final(self)@ == old(self)@,
            },
    {
        proof {
            if self.walk(address.value()) is Leaf {
                self.lemma_walk_level(0, 2, address.value());
                lemma_walk_leaf(self@, 0, 2, address.value());
            }
        }
        match self.find_leaf(address) {
            Some((slot, _)) => {
                let mut e = self.entries[slot];
                let old_flags = e.flags();
                let g = f(old_flags);
                proof {
                    Flags::lemma_eq_bits(old_flags, Flags::from_bits(self@[slot as int].flag_byte()));
                    Flags::lemma_from_bits(self@[slot as int].flag_byte());
                }
                e.set_flags(g);
                proof {
                    PageTableEntry::lemma_fields(e);
                }
                self.entries.set(slot, e);
                proof {
                    assert forall|j: int|
                        0 <= j < self@.len() && self.levels@[j / 512] > 0 && (#[trigger] self@[j]).kind_of() is Branch
                        implies {
                            &&& 0 <= table_of(self@[j]) < self.n_tables()
                            &&& self.levels@[table_of(self@[j])] == self.levels@[j / 512] - 1
                        } by {
                        if j == slot {
                            assert(old(self)@[j].kind_of() is Leaf);
                        } else {
                            assert(self@[j] == old(self)@[j]);
                        }
                    }
                }
                true
            },
            None => false,
        }
    }

    /// Replaces the software bits of the page of `address` by what `f` makes
    /// of them, written as `set_rsw` writes them; returns whether the page is
    /// mapped.
    pub fn modify_page_rsw<F: FnOnce(Rsw) -> Rsw>(&mut self, address: VirtualAddress, f: F) -> (r: bool)
        requires
            old(self).wf(),
            !(old(self).walk(address.value()) is Broken),
            forall|x: Rsw| call_requires(f, (x,)),
        ensures
            final(self).wf(),
            r == old(self).walk(address.value()) is Leaf,
            match old(self).walk(address.value()) {
                Walk::Leaf(slot, _) => exists|x: Rsw, g: Rsw| {
                    &&& x.bits() == old(self)@[slot].rsw_field()
                    &&& call_ensures(f, (x,), g)
                    &&& final(self)@ == old(self)@.update(slot, PageTableEntry::with_fields(
                        old(self)@[slot].ppn_field(), 0, old(self)@[slot].flag_byte() | (g.bits() & 3)))
                },
                _ => final(self)@ == old(self)@,
            },
    {
        proof {
            if self.walk(address.value()) is Leaf {
                lemma_walk_leaf(self@, 0, 2, address.value());
            }
        }
        match self.find_leaf(address) {
            Some((slot, _)) => {
                let mut e = self.entries[slot];
                let old_rsw = e.rsw();
                let g = f(old_rsw);
                let ghost before = e;
                e.set_rsw(g);
                proof {
                    PageTableEntry::lemma_fields(e);
                    lemma_or_keeps_bits(before.flag_byte(), g.bits() & 3);
                    assert(e.kind_of() is Leaf);
                }
                self.entries.set(slot, e);
                proof {
                    assert forall|j: int|
                        0 <= j < self@.len() && self.levels@[j / 512] > 0 && (#[trigger] self@[j]).kind_of() is Branch
                        implies {
                            &&& 0 <= table_of(self@[j]) < self.n_tables()
                            &&& self.levels@[table_of(self@[j])] == self.levels@[j / 512] - 1
                        } by {
                        if j != slot {
                            assert(self@[j] == old(self)@[j]);
                        }
                    }
                }
                true
            },
            None => false,
        }
    }

    /// Replaces the software field of the page of `address`, bits 8 and 9,
    /// by what `f` makes of it, keeping its flags and page; returns whether
    /// the page is mapped.
    pub fn replace_page_rsw<F: FnOnce(Rsw) -> Rsw>(&mut self, address: VirtualAddress, f: F) -> (r: bool)
        requires
            old(self).wf(),
            !(old(self).walk(address.value()) is Broken),
            forall|x: Rsw| call_requires(f, (x,)),
        ensures
            final(self).wf(),
            r == old(self).walk(address.value()) is Leaf,
            match old(self).walk(address.value()) {
                Walk::Leaf(slot, _) => exists|x: Rsw, g: Rsw| {
                    &&& x.bits() == old(self)@[slot].rsw_field()
                    &&& call_ensures(f, (x,), g)
                    &&& g.bits() < 4
                    &&& final(self)@ == old(self)@.update(slot, PageTableEntry::with_fields(
                        old(self)@[slot].ppn_field(), g.bits(), old(self)@[slot].flag_byte()))
                },
                _ => final(self)@ == old(self)@,
            },
    {
        proof {
            if self.walk(address.value()) is Leaf {
                lemma_walk_leaf(self@, 0, 2, address.value());
            }
        }
        match self.find_leaf(address) {
            Some((slot, _)) => {
                let mut e = self.entries[slot];
                let old_rsw = e.rsw();
                let g = f(old_rsw);
                proof {
                    use_type_invariant(&g);
                }
                let ghost before = e;
                e.write_rsw_field(g);
                proof {
                    PageTableEntry::lemma_fields(e);
                    assert(e.kind_of() is Leaf);
                }
                self.entries.set(slot, e);
                proof {
                    assert forall|j: int|
                        0 <= j < self@.len() && self.levels@[j / 512] > 0 && (#[trigger] self@[j]).kind_of() is Branch
                        implies {
                            &&& 0 <= table_of(self@[j]) < self.n_tables()
                            &&& self.levels@[table_of(self@[j])] == self.levels@[j / 512] - 1
                        } by {
                        if j != slot {
                            assert(self@[j] == old(self)@[j]);
                        }
                    }
                }
                true
            },
            None => false,
        }
    }

    /// Whether a leaf at the end of the walk for `va` may carry the flag byte
    /// of `g`: at the last level any byte, above it one that does not make a
    /// branch.
    pub open spec fn flags_ok(&self, va: u64, g: Flags) -> bool {
        match self.walk(va) {
            Walk::Leaf(_, size) => size == PageSize::Kilopage || !has_flag(g.bits(), VALID) || has_flag(g.bits(), READ) || has_flag(g.bits(), EXECUTE),
            _ => true,
        }
    }

    /// The physical address of the root table: table 0 of the arena.
    pub fn physical_address(&self) -> (r: PhysicalAddress)
        ensures
            r.value() == 0,
    {
        PhysicalAddress::new(0)
    }
}

impl PageTable {
    /// Maps the page of `size` at `from` to `to`, creating the tables on the
    /// way; with software bits given, they are written as `set_rsw` writes
    /// them.
    fn map_entry(
        &mut self,
        from: PhysicalAddress,
        to: VirtualAddress,
        flags: Flags,
        size: PageSize,
        rsw: Option<Rsw>,
    )
        requires
            old(self).wf(),
            map_ok(old(self)@, 0, 2, to.value(), size),
            leaf_flags_ok(flags, rsw, size),
            old(self).n_tables() + 2 < 0x100_0000_0000,
            old(self)@.len() + 1024 <= usize::MAX,
        ensures
            final(self).wf(),
            final(self)@ == map_spec(old(self)@, 0, 2, to.value(), size, flags, from, rsw),
    {
        let vpns = to.vpns();
        let ghost va = to.value();
        let ghost goal = map_spec(self@, 0, 2, va, size, flags, from, rsw);
        let ghost len0 = self@.len();
        let mut t: usize = 0;
        let mut level: usize = 2;
        let mut current = PageSize::top_level();
        proof {
            PageTableEntry::lemma_with_fields(0, 0, 0);
        }
        loop
            invariant
                self.wf(),
                level <= 2,
                level >= size.level(),
                current == level_size(level as int),
                vpns@.len() == 3,
                forall|i: int| 0 <= i < 3 ==> vpns@[i] == vpn_of(va, i),
                va == to.value(),
                0 <= t < self.n_tables(),
                self.levels@[t as int] == level,
                map_ok(self@, t as int, level as int, va, size),
                leaf_flags_ok(flags, rsw, size),
                goal == map_spec(self@, t as int, level as int, va, size, flags, from, rsw),
                goal == map_spec(old(self)@, 0, 2, to.value(), size, flags, from, rsw),
                self@.len() + 512 * level <= len0 + 1024,
                len0 + 1024 <= usize::MAX,
                len0 / 512 + 2 < 0x100_0000_0000,
                PageTableEntry::with_fields(0, 0, 0).flag_byte() == 0,
            decreases level,
        {
            let slot = t * ENTRIES + vpns[level];
            let ghost s = self@;
            let ghost tt = t as int;
            let mut entry = self.entries[slot];
            proof {
                assert(vpns@[level as int] < 512);
                assert(slot == tt * 512 + vpn_of(va, level as int));
                assert(slot / 512 == tt);
            }
            if current == size {
                proof {
                    assert(level == size.level());
                }
                entry.set_flags(flags);
                entry.set_ppn(from);
                match rsw {
                    Some(r) => entry.set_rsw(r),
                    None => {},
                }
                proof {
                    PageTableEntry::lemma_fields(entry);
                    assert(entry == leaf_entry(s[slot as int], flags, from, rsw));
                    assert(map_spec(s, tt, level as int, va, size, flags, from, rsw)
                        == s.update(slot as int, leaf_entry(s[slot as int], flags, from, rsw)));
                }
                self.entries.set(slot, entry);
                proof {
                    assert(!(entry.kind_of() is Branch) || level == 0);
                    assert forall|j: int|
                        0 <= j < self@.len() && self.levels@[j / 512] > 0 && (#[trigger] self@[j]).kind_of() is Branch
                        implies {
                            &&& 0 <= table_of(self@[j]) < self.n_tables()
                            &&& self.levels@[table_of(self@[j])] == self.levels@[j / 512] - 1
                        } by {
                        if j != slot {
                            assert(self@[j] == s[j]);
                        }
                    }
                    assert(self@ == s.update(slot as int, entry));
                    assert(goal == s.update(slot as int, entry));
                    assert(self@ == goal);
                }
                return;
            }
            proof {
                assert(level > size.level());
            }
            match entry.kind() {
                EntryKind::Leaf => {
                    proof {
                        assert(false);
                    }
                },
                EntryKind::Branch(paddr) => {
                    proof {
                        PhysicalAddress::lemma_at(entry.target());
                        assert(self.levels@[slot as int / 512] > 0);
                    }
                    t = (paddr.as_usize() / 0x1000) as usize;
                    proof {
                        assert(t == table_of(entry));
                        assert(map_ok(self@, t as int, level - 1, va, size));
                    }
                },
                EntryKind::NotValid => {
                    let ghost lv0 = self.levels@;
                    assert(lv0.len() == s.len() / 512);
                    let n = self.entries.len() / ENTRIES;
                    let mut i: usize = 0;
                    while i < ENTRIES
                        invariant
                            i <= 512,
                            self.entries@ == s + Seq::new(i as nat, |k: int| PageTableEntry::with_fields(0, 0, 0)),
                            s.len() + 512 <= usize::MAX,
                            self.levels@ == lv0,
                        decreases 512 - i,
                    {
                        let z = PageTableEntry::new();
                        proof {
                            PageTableEntry::lemma_fields(z);
                        }
                        self.entries.push(z);
                        proof {
                            assert(self.entries@ =~= s + Seq::new((i + 1) as nat, |k: int| PageTableEntry::with_fields(0, 0, 0)));
                        }
                        i = i + 1;
                    }
                    proof {
                        assert(Seq::new(512 as nat, |k: int| PageTableEntry::with_fields(0, 0, 0)) =~= zero_table());
                        assert(n == s.len() / 512);
                        assert(n < 0x100_0000_0000);
                    }
                    entry.set_flags(Flags::VALID());
                    entry.set_ppn(PhysicalAddress::new((n as u64) * 0x1000));
                    proof {
                        PageTableEntry::lemma_fields(entry);
                        assert(entry == branch_entry(s[slot as int], n as int));
                    }
                    self.entries.set(slot, entry);
                    proof {
                        let old_levels = self.levels@;
                        self.levels@ = self.levels@.push(level - 1);
                        assert(self.n_tables() == n + 1);
                        assert(self@ =~= s.update(slot as int, branch_entry(s[slot as int], n as int)) + zero_table());
                        assert(table_of(entry) == n);
                        assert forall|j: int|
                            0 <= j < self@.len() && self.levels@[j / 512] > 0 && (#[trigger] self@[j]).kind_of() is Branch
                            implies {
                                &&& 0 <= table_of(self@[j]) < self.n_tables()
                                &&& self.levels@[table_of(self@[j])] == self.levels@[j / 512] - 1
                            } by {
                            if j >= s.len() {
                                assert(self@[j] == PageTableEntry::with_fields(0, 0, 0));
                                lemma_bit_constants();
                            } else if j != slot {
                                assert(self@[j] == s[j]);
                                assert(j / 512 < s.len() / 512);
                                assert(self.levels@[j / 512] == old_levels[j / 512]);
                                assert(self.levels@[table_of(s[j])] == old_levels[table_of(s[j])]);
                            } else {
                                assert(self@[j] == entry);
                                assert(self.levels@[j / 512] == level);
                                assert(self.levels@[n as int] == level - 1);
                            }
                        }
                        let ns = vpn_of(va, level - 1);
                        let z = self@[n * 512 + ns];
                        assert(z == PageTableEntry::with_fields(0, 0, 0));
                        lemma_bit_constants();
                        assert(z.kind_of() is NotValid);
                        assert(!z.valid()) by {
                            let b = z.bits();
                            lemma_entry_flag_byte(b, 0);
                        }
                        assert(map_ok(self@, n as int, level - 1, va, size));
                    }
                    t = n;
                },
            }
            level = level - 1;
            current = match current.next() {
                Some(next) => next,
                None => {
                    proof {
                        assert(false);
                    }
                    current
                },
            };
        }
    }

    /// Maps the page of `size` at `from` to `to` with `flags` and the
    /// software bits `rsw`, creating the tables on the way. Both addresses
    /// are aligned to `size`, no page maps `to` yet, and no larger page
    /// covers it.
    pub fn map(&mut self, from: PhysicalAddress, to: VirtualAddress, flags: Flags, size: PageSize, rsw: Rsw)
        requires
            old(self).wf(),
            from.value() % size.bytes() == 0,
            to.value() % size.bytes() == 0,
            map_ok(old(self)@, 0, 2, to.value(), size),
            leaf_flags_ok(flags, Some(rsw), size),
            old(self).n_tables() + 2 < 0x100_0000_0000,
            old(self)@.len() + 1024 <= usize::MAX,
        ensures
            final(self).wf(),
            final(self)@ == map_spec(old(self)@, 0, 2, to.value(), size, flags, from, Some(rsw)),
            makes_leaf(leaf_byte(flags, Some(rsw))) ==> {
                let w = final(self).walk(to.value());
                &&& w is Leaf
                &&& w->Leaf_1 == size
                &&& final(self)@[w->Leaf_0].target() == from.value() % 0x100_0000_0000_0000
                &&& final(self)@[w->Leaf_0].flag_byte() == leaf_byte(flags, Some(rsw))
            },
            forall|other: u64|
                #![trigger final(self).walk(other)]
                old(self).walk(other) is Leaf ==> final(self).walk(other) == old(self).walk(other)
                    && final(self)@[old(self).walk(other)->Leaf_0] == old(self)@[old(self).walk(other)->Leaf_0],
    {
        size.assert_addr_aligned(from.as_usize());
        size.assert_addr_aligned(to.as_usize());
        let ghost pre = *self;
        self.map_entry(from, to, flags, size, Some(rsw));
        proof {
            if makes_leaf(leaf_byte(flags, Some(rsw))) {
                pre.lemma_map_then_resolve(from, to, flags, size, Some(rsw));
            }
            assert forall|other: u64|
                #![trigger self.walk(other)]
                pre.walk(other) is Leaf implies self.walk(other) == pre.walk(other) && self@[pre.walk(other)->Leaf_0]
                    == pre@[pre.walk(other)->Leaf_0] by {
                VirtualAddress::lemma_at(other);
                pre.lemma_map_keeps_mappings(from, to, flags, size, Some(rsw), VirtualAddress::at(other));
            }
        }
    }

    /// Maps the page of `size` at `from` to `to` with `flags`, leaving the
    /// software bits of the entry as they are.
    pub fn static_map(&mut self, from: PhysicalAddress, to: VirtualAddress, flags: Flags, size: PageSize)
        requires
            old(self).wf(),
            from.value() % size.bytes() == 0,
            to.value() % size.bytes() == 0,
            map_ok(old(self)@, 0, 2, to.value(), size),
            leaf_flags_ok(flags, None, size),
            old(self).n_tables() + 2 < 0x100_0000_0000,
            old(self)@.len() + 1024 <= usize::MAX,
        ensures
            final(self).wf(),
            final(self)@ == map_spec(old(self)@, 0, 2, to.value(), size, flags, from, None),
    {
        size.assert_addr_aligned(from.as_usize());
        size.assert_addr_aligned(to.as_usize());
        self.map_entry(from, to, flags, size, None);
    }
}

/// Whether the walk for `va` ends at a leaf of `size` that points at `p`,
/// read as the 56-bit physical address that an entry's 44-bit page number
/// can hold.
pub open spec fn maps_to(s: Seq<PageTableEntry>, va: u64, size: PageSize, p: PhysicalAddress) -> bool {
    let w = walk_from(s, 0, 2, va);
    &&& w is Leaf
    &&& w->Leaf_1 == size
    &&& 0 <= w->Leaf_0 < s.len()
    &&& s[w->Leaf_0].target() == p.value() % 0x100_0000_0000_0000
}

/// One more page of a run: after mapping page `i` of `phys` at its address,
/// it and the pages mapped before it are all mapped to their frames.
proof fn lemma_run_step(
    pre: PageTable,
    s2: Seq<PageTableEntry>,
    from: PhysicalAddress,
    virt: VirtualAddress,
    flags: Flags,
    size: PageSize,
    rsw: Option<Rsw>,
    phys: Seq<PhysicalAddress>,
    at: u64,
    i: int,
)
    requires
        pre.wf(),
        from.value() % size.bytes() == 0,
        map_ok(pre@, 0, 2, virt.value(), size),
        leaf_flags_ok(flags, rsw, size),
        makes_leaf(leaf_byte(flags, rsw)),
        pre.n_tables() + 2 < 0x100_0000_0000,
        s2 == map_spec(pre@, 0, 2, virt.value(), size, flags, from, rsw),
        0 <= i < phys.len(),
        phys[i] == from,
        virt.value() == at + i * size.bytes(),
        forall|j: int| 0 <= j < i ==> #[trigger] maps_to(pre@, (at + j * size.bytes()) as u64, size, phys[j]),
    ensures
        forall|j: int| 0 <= j < i + 1 ==> #[trigger] maps_to(s2, (at + j * size.bytes()) as u64, size, phys[j]),
{
    pre.lemma_map_then_resolve(from, virt, flags, size, rsw);
    lemma_map_keeps_valid(pre@, 0, 2, virt.value(), size, flags, from, rsw);
    assert forall|j: int| 0 <= j < i + 1 implies #[trigger] maps_to(s2, (at + j * size.bytes()) as u64, size, phys[j]) by {
        let va = (at + j * size.bytes()) as u64;
        if j < i {
            assert(maps_to(pre@, va, size, phys[j]));
            VirtualAddress::lemma_at(va);
            pre.lemma_map_keeps_mappings(from, virt, flags, size, rsw, VirtualAddress::at(va));
        } else {
            assert(j == i);
            assert(va == virt.value());
        }
    }
}

/// A map keeps every address that was mapped mapped to the same frame.
pub proof fn lemma_map_keeps_maps_to(
    pre: PageTable,
    from: PhysicalAddress,
    virt: VirtualAddress,
    flags: Flags,
    size: PageSize,
    rsw: Option<Rsw>,
)
    requires
        pre.wf(),
        map_ok(pre@, 0, 2, virt.value(), size),
    ensures
        forall|va: u64, sz: PageSize, p: PhysicalAddress|
            #[trigger] maps_to(pre@, va, sz, p) ==> maps_to(map_spec(pre@, 0, 2, virt.value(), size, flags, from, rsw), va, sz, p),
{
    lemma_map_keeps_valid(pre@, 0, 2, virt.value(), size, flags, from, rsw);
    assert forall|va: u64, sz: PageSize, p: PhysicalAddress| #[trigger] maps_to(pre@, va, sz, p) implies maps_to(
        map_spec(pre@, 0, 2, virt.value(), size, flags, from, rsw),
        va,
        sz,
        p,
    ) by {
        VirtualAddress::lemma_at(va);
        pre.lemma_map_keeps_mappings(from, virt, flags, size, rsw, VirtualAddress::at(va));
    }
}

/// The entries after mapping, one after the other, each page of `phys` to
/// the next page of `size` from `at` on.
pub open spec fn run_spec(
    s: Seq<PageTableEntry>,
    phys: Seq<PhysicalAddress>,
    at: u64,
    size: PageSize,
    flags: Flags,
    rsw: Option<Rsw>,
) -> Seq<PageTableEntry>
    decreases phys.len(),
{
    if phys.len() == 0 {
        s
    } else {
        run_spec(
            map_spec(s, 0, 2, at, size, flags, phys[0], rsw),
            phys.drop_first(),
            (at + size.bytes()) as u64,
            size,
            flags,
            rsw,
        )
    }
}

/// Whether each map of `run_spec` can be made in turn: both addresses are
/// aligned to `size`, the virtual page is free on the tables as they are by
/// then, the tables have room to grow, and the next virtual page is a valid
/// address.
pub open spec fn run_ok(
    s: Seq<PageTableEntry>,
    phys: Seq<PhysicalAddress>,
    at: u64,
    size: PageSize,
    flags: Flags,
    rsw: Option<Rsw>,
) -> bool
    decreases phys.len(),
{
    phys.len() == 0 || {
        &&& phys[0].value() % size.bytes() == 0
        &&& at % size.bytes() == 0
        &&& map_ok(s, 0, 2, at, size)
        &&& s.len() / 512 + 2 < 0x100_0000_0000
        &&& s.len() + 1024 <= usize::MAX
        &&& phys.len() > 1 ==> added(at, size.bytes()) == Some((at + size.bytes()) as u64)
        &&& run_ok(
            map_spec(s, 0, 2, at, size, flags, phys[0], rsw),
            phys.drop_first(),
            (at + size.bytes()) as u64,
            size,
            flags,
            rsw,
        )
    }
}

impl PageTable {
    /// Maps each page of `phys` in turn to the next page of `size` from
    /// `at` on, with `flags`; with software bits given through `map`, else
    /// through `static_map`.
    pub fn map_pages(
        &mut self,
        phys: &Vec<PhysicalAddress>,
        at: VirtualAddress,
        flags: Flags,
        size: PageSize,
        rsw: Option<Rsw>,
    )
        requires
            old(self).wf(),
            leaf_flags_ok(flags, rsw, size),
            run_ok(old(self)@, phys@, at.value(), size, flags, rsw),
        ensures
            final(self).wf(),
            final(self)@ == run_spec(old(self)@, phys@, at.value(), size, flags, rsw),
            makes_leaf(leaf_byte(flags, rsw)) ==> forall|i: int|
                0 <= i < phys@.len() ==> #[trigger] maps_to(
                    final(self)@,
                    (at.value() + i * size.bytes()) as u64,
                    size,
                    phys@[i],
                ),
            forall|va: u64, sz: PageSize, p: PhysicalAddress|
                #[trigger] maps_to(old(self)@, va, sz, p) ==> maps_to(final(self)@, va, sz, p),
    {
        let ghost whole = run_spec(self@, phys@, at.value(), size, flags, rsw);
        proof {
            assert(phys@.skip(0) =~= phys@);
        }
        let mut virt = at;
        let mut i: usize = 0;
        let n = phys.len();
        while i < n
            invariant
                self.wf(),
                n == phys@.len(),
                i <= n,
                leaf_flags_ok(flags, rsw, size),
                run_ok(self@, phys@.skip(i as int), virt.value(), size, flags, rsw),
                run_spec(self@, phys@.skip(i as int), virt.value(), size, flags, rsw) == whole,
                i < n ==> virt.value() == at.value() + i * size.bytes(),
                makes_leaf(leaf_byte(flags, rsw)) ==> forall|j: int|
                    0 <= j < i ==> #[trigger] maps_to(self@, (at.value() + j * size.bytes()) as u64, size, phys@[j]),
                forall|va: u64, sz: PageSize, p: PhysicalAddress|
                    #[trigger] maps_to(old(self)@, va, sz, p) ==> maps_to(self@, va, sz, p),
            decreases n - i,
        {
            let ghost rest = phys@.skip(i as int);
            proof {
                assert(rest[0] == phys@[i as int]);
                assert(rest.drop_first() =~= phys@.skip(i + 1));
            }
            let from = phys[i];
            let ghost before = self@;
            let ghost pre = *self;
            match rsw {
                Some(r) => self.map(from, virt, flags, size, r),
                None => self.static_map(from, virt, flags, size),
            }
            proof {
                assert(self@ == map_spec(before, 0, 2, virt.value(), size, flags, rest[0], rsw));
                assert(run_spec(before, rest, virt.value(), size, flags, rsw) == run_spec(self@, rest.drop_first(), (virt.value() + size.bytes()) as u64, size, flags, rsw));
                if makes_leaf(leaf_byte(flags, rsw)) {
                    lemma_run_step(pre, self@, from, virt, flags, size, rsw, phys@, at.value(), i as int);
                }
                lemma_map_keeps_maps_to(pre, from, virt, flags, size, rsw);
            }
            if i + 1 < n {
                virt = virt.add(size.to_byte_size());
                proof {
                    assert(at.value() + (i + 1) * size.bytes() == at.value() + i * size.bytes() + size.bytes())
                        by (nonlinear_arith);
                }
            } else {
                proof {
                    assert(rest.drop_first().len() == 0);
                }
            }
            i = i + 1;
        }
        proof {
            assert(phys@.skip(n as int).len() == 0);
        }
    }
}

/// The entries after mapping, one after the other, each physical page of
/// `pairs` to the virtual address beside it.
pub open spec fn pairs_spec(
    s: Seq<PageTableEntry>,
    pairs: Seq<(PhysicalAddress, u64)>,
    size: PageSize,
    flags: Flags,
    rsw: Option<Rsw>,
) -> Seq<PageTableEntry>
    decreases pairs.len(),
{
    if pairs.len() == 0 {
        s
    } else {
        pairs_spec(
            map_spec(s, 0, 2, pairs[0].1, size, flags, pairs[0].0, rsw),
            pairs.drop_first(),
            size,
            flags,
            rsw,
        )
    }
}

/// Whether each map of `pairs_spec` can be made in turn: both addresses
/// are aligned to `size`, the virtual page is free on the tables as they
/// are by then, and the tables have room to grow.
pub open spec fn pairs_ok(
    s: Seq<PageTableEntry>,
    pairs: Seq<(PhysicalAddress, u64)>,
    size: PageSize,
    flags: Flags,
    rsw: Option<Rsw>,
) -> bool
    decreases pairs.len(),
{
    pairs.len() == 0 || {
        &&& pairs[0].0.value() % size.bytes() == 0
        &&& pairs[0].1 % size.bytes() == 0
        &&& map_ok(s, 0, 2, pairs[0].1, size)
        &&& s.len() / 512 + 2 < 0x100_0000_0000
        &&& s.len() + 1024 <= usize::MAX
        &&& pairs_ok(
            map_spec(s, 0, 2, pairs[0].1, size, flags, pairs[0].0, rsw),
            pairs.drop_first(),
            size,
            flags,
            rsw,
        )
    }
}

/// The pairs of a list of physical and virtual addresses, by value.
pub open spec fn pair_values(pages: Seq<(PhysicalAddress, VirtualAddress)>) -> Seq<(PhysicalAddress, u64)> {
    Seq::new(pages.len(), |i: int| (pages[i].0, pages[i].1.value()))
}

impl PageTable {
    /// Maps each physical page of `pages` in turn to the virtual address
    /// beside it, with `flags`; with software bits given through `map`,
    /// else through `static_map`.
    pub fn map_each(
        &mut self,
        pages: &Vec<(PhysicalAddress, VirtualAddress)>,
        flags: Flags,
        size: PageSize,
        rsw: Option<Rsw>,
    )
        requires
            old(self).wf(),
            leaf_flags_ok(flags, rsw, size),
            pairs_ok(old(self)@, pair_values(pages@), size, flags, rsw),
        ensures
            final(self).wf(),
            final(self)@ == pairs_spec(old(self)@, pair_values(pages@), size, flags, rsw),
            makes_leaf(leaf_byte(flags, rsw)) ==> forall|i: int|
                0 <= i < pages@.len() ==> #[trigger] maps_to(final(self)@, pages@[i].1.value(), size, pages@[i].0),
            forall|va: u64, sz: PageSize, p: PhysicalAddress|
                #[trigger] maps_to(old(self)@, va, sz, p) ==> maps_to(final(self)@, va, sz, p),
    {
        let ghost all = pair_values(pages@);
        let ghost whole = pairs_spec(self@, all, size, flags, rsw);
        proof {
            assert(all.skip(0) =~= all);
        }
        let mut i: usize = 0;
        let n = pages.len();
        while i < n
            invariant
                self.wf(),
                n == pages@.len(),
                all == pair_values(pages@),
                i <= n,
                leaf_flags_ok(flags, rsw, size),
                pairs_ok(self@, all.skip(i as int), size, flags, rsw),
                pairs_spec(self@, all.skip(i as int), size, flags, rsw) == whole,
                makes_leaf(leaf_byte(flags, rsw)) ==> forall|j: int|
                    0 <= j < i ==> #[trigger] maps_to(self@, pages@[j].1.value(), size, pages@[j].0),
                forall|va: u64, sz: PageSize, p: PhysicalAddress|
                    #[trigger] maps_to(old(self)@, va, sz, p) ==> maps_to(self@, va, sz, p),
            decreases n - i,
        {
            let ghost rest = all.skip(i as int);
            let ghost before = self@;
            proof {
                assert(rest[0] == all[i as int]);
                assert(rest.drop_first() =~= all.skip(i + 1));
            }
            let (from, to) = pages[i];
            let ghost pre = *self;
            match rsw {
                Some(r) => self.map(from, to, flags, size, r),
                None => self.static_map(from, to, flags, size),
            }
            proof {
                assert(self@ == map_spec(before, 0, 2, rest[0].1, size, flags, rest[0].0, rsw));
                lemma_map_keeps_maps_to(pre, from, to, flags, size, rsw);
                if makes_leaf(leaf_byte(flags, rsw)) {
                    pre.lemma_map_then_resolve(from, to, flags, size, rsw);
                    assert forall|j: int| 0 <= j < i + 1 implies #[trigger] maps_to(self@, pages@[j].1.value(), size, pages@[j].0) by {
                        if j < i {
                            assert(maps_to(pre@, pages@[j].1.value(), size, pages@[j].0));
                        }
                    }
                }
            }
            i = i + 1;
        }
        proof {
            assert(all.skip(n as int).len() == 0);
        }
    }
}

/// A line of a page table's listing: a leaf, the size of its page, the
/// virtual address it maps, the physical address and the flags.
#[derive(Debug, Clone, Copy, PartialEq, Eq)]
pub struct PageTableDebug {
    pub size: PageSize,
    pub virt: VirtualAddress,
    pub phys: PhysicalAddress,
    pub flags: Flags,
}

impl PageTableDebug {
    /// The letter of the line's page size: `K`, `M` or `G`.
    pub fn size_to_letter(&self) -> (r: char)
        ensures
            r == (match self.size {
                PageSize::Kilopage => 'K',
                PageSize::Megapage => 'M',
                PageSize::Gigapage => 'G',
            }),
    {
        match self.size {
            PageSize::Kilopage => 'K',
            PageSize::Megapage => 'M',
            PageSize::Gigapage => 'G',
        }
    }
}

/// The address whose page numbers are those of `base` but for the one of
/// `level`, which is `i`.
pub open spec fn with_vpn(base: u64, level: int, i: int) -> u64 {
    let v0 = if level == 0 { i } else { vpn_of(base, 0) as int };
    let v1 = if level == 1 { i } else { vpn_of(base, 1) as int };
    let v2 = if level == 2 { i } else { vpn_of(base, 2) as int };
    sign_extend((v0 * 0x1000 + v1 * 0x20_0000 + v2 * 0x4000_0000) as u64)
}

/// The listing of table `t` of `level` from entry `i` on, for the addresses
/// whose other page numbers are those of `base`: each leaf gives a line of
/// its level, address, physical address and flag byte, each branch the
/// listing of its table; the listing stops at the first valid entry whose
/// address lies in the kernel half.
pub open spec fn listing(s: Seq<PageTableEntry>, t: int, level: int, base: u64, i: int) -> Seq<(int, u64, u64, u8)>
    decreases level, 512 - i,
{
    if level < 0 || i < 0 || i >= 512 || t < 0 || t * 512 + 512 > s.len() {
        Seq::empty()
    } else {
        let e = s[t * 512 + i];
        let addr = with_vpn(base, level, i);
        match e.kind_of() {
            EntryKind::NotValid => listing(s, t, level, base, i + 1),
            EntryKind::Leaf => if in_kernel_half(addr) {
                Seq::empty()
            } else {
                seq![(level, addr, e.target(), e.flag_byte())] + listing(s, t, level, base, i + 1)
            },
            EntryKind::Branch(_) => if level == 0 || in_kernel_half(addr) {
                Seq::empty()
            } else {
                listing(s, table_of(e), level - 1, addr, 0) + listing(s, t, level, base, i + 1)
            },
        }
    }
}

/// The frames dropping table `t` of `level` frees, from entry `i` on, in
/// order: for a branch, what its table frees and then the table's own
/// frame; for a leaf whose software bits are clear, its page.
pub open spec fn frees(s: Seq<PageTableEntry>, t: int, level: int, i: int) -> Seq<(u64, PageSize)>
    decreases level, 512 - i,
{
    if level < 0 || i < 0 || i >= 512 || t < 0 || t * 512 + 512 > s.len() {
        Seq::empty()
    } else {
        let e = s[t * 512 + i];
        match e.kind_of() {
            EntryKind::NotValid => frees(s, t, level, i + 1),
            EntryKind::Leaf => if e.rsw_field() == 0 {
                seq![(e.target(), level_size(level))] + frees(s, t, level, i + 1)
            } else {
                frees(s, t, level, i + 1)
            },
            EntryKind::Branch(_) => if level == 0 {
                Seq::empty()
            } else {
                frees(s, table_of(e), level - 1, 0) + seq![(e.target(), PageSize::Kilopage)] + frees(
                    s,
                    t,
                    level,
                    i + 1,
                )
            },
        }
    }
}

/// Whether a line of the listing is the one a listing entry stands for.
pub open spec fn line_matches(line: PageTableDebug, x: (int, u64, u64, u8)) -> bool {
    &&& line.size == level_size(x.0)
    &&& line.virt.value() == x.1
    &&& line.phys.value() == x.2
    &&& line.flags.bits() == x.3
}

impl PageTable {
    /// Whether no table of the last level holds an entry that reads as a
    /// branch.
    pub closed spec fn no_last_level_branch(&self) -> bool {
        forall|j: int|
            0 <= j < self@.len() && self.levels@[j / 512] == 0 ==> !((#[trigger] self@[j]).kind_of() is Branch)
    }

    /// Appends the listing of table `t` of `level` to `out`.
    fn walk_table(&self, t: usize, level: usize, base: VirtualAddress, out: &mut Vec<PageTableDebug>)
        requires
            self.wf(),
            self.no_last_level_branch(),
            t < self.n_tables(),
            level <= 2,
            self.levels@[t as int] == level,
        ensures
            final(out)@.len() == old(out)@.len() + listing(self@, t as int, level as int, base.value(), 0).len(),
            forall|k: int| 0 <= k < old(out)@.len() ==> #[trigger] final(out)@[k] == old(out)@[k],
            forall|k: int|
                0 <= k < listing(self@, t as int, level as int, base.value(), 0).len() ==> line_matches(
                    #[trigger] final(out)@[old(out)@.len() + k],
                    listing(self@, t as int, level as int, base.value(), 0)[k],
                ),
        decreases level,
    {
        let vpns = base.vpns();
        let ghost b = base.value();
        let ghost s = self@;
        let ghost start_len = out@.len();
        let ghost all = listing(s, t as int, level as int, b, 0);
        let size = if level == 0 {
            PageSize::Kilopage
        } else if level == 1 {
            PageSize::Megapage
        } else {
            PageSize::Gigapage
        };
        let mut i: usize = 0;
        proof {
            PhysicalAddress::lemma_at(0);
            broadcast use PhysicalAddress::lemma_at;
        }
        while i < ENTRIES
            invariant_except_break
                self.wf(),
                self.no_last_level_branch(),
                s == self@,
                t < self.n_tables(),
                level <= 2,
                self.levels@[t as int] == level,
                size == level_size(level as int),
                vpns@.len() == 3,
                forall|l: int| 0 <= l < 3 ==> vpns@[l] == vpn_of(b, l),
                i <= 512,
                all == listing(s, t as int, level as int, b, 0),
                out@.len() >= start_len,
                all.len() == out@.len() - start_len + listing(s, t as int, level as int, b, i as int).len(),
                forall|k: int| 0 <= k < start_len ==> #[trigger] out@[k] == old(out)@[k],
                forall|k: int|
                    0 <= k < out@.len() - start_len ==> line_matches(#[trigger] out@[start_len + k], all[k]),
                forall|k: int|
                    0 <= k < listing(s, t as int, level as int, b, i as int).len() ==> all[out@.len() - start_len + k]
                        == #[trigger] listing(s, t as int, level as int, b, i as int)[k],
            ensures
                all.len() == out@.len() - start_len,
                forall|k: int| 0 <= k < start_len ==> #[trigger] out@[k] == old(out)@[k],
                forall|k: int|
                    0 <= k < out@.len() - start_len ==> line_matches(#[trigger] out@[start_len + k], all[k]),
            decreases 512 - i,
        {
            let _n = self.entries.len();
            proof {
                assert(t * 512 + 512 <= self@.len());
            }
            let entry = self.entries[t * ENTRIES + i];
            let ghost rest = listing(s, t as int, level as int, b, i as int);
            let ghost next = listing(s, t as int, level as int, b, i + 1);
            let ghost m = out@.len() - start_len;
            let mut v = vpns;
            v.set(level, i);
            let addr = VirtualAddress::from_vpns(v);
            proof {
                assert(v@[0] < 0x200 && v@[1] < 0x200 && v@[2] < 0x200);
                assert(addr.value() == with_vpn(b, level as int, i as int));
                assert(entry == s[t * 512 + i]);
            }
            match entry.kind() {
                EntryKind::NotValid => {
                    proof {
                        assert(rest == next);
                    }
                },
                EntryKind::Leaf => {
                    if addr.is_kernel_region() {
                        proof {
                            assert(rest.len() == 0);
                        }
                        break;
                    }
                    let phys = match entry.ppn() {
                        Some(p) => p,
                        None => PhysicalAddress::null(),
                    };
                    let line = PageTableDebug { size, virt: addr, phys, flags: entry.flags() };
                    proof {
                        let x = (level as int, addr.value(), entry.target(), entry.flag_byte());
                        assert(rest == seq![x] + next);
                        assert(all[m] == rest[0]);
                        lemma_entry_flag_byte(entry.bits(), 0);
                        assert(entry.valid());
                        assert(line.size == level_size(x.0));
                        assert(line.virt.value() == x.1);
                        PhysicalAddress::lemma_at(entry.target());
                        assert(line.phys.value() == x.2);
                        assert(line.flags.bits() == x.3);
                        assert forall|k: int| 0 <= k < next.len() implies all[m + 1 + k] == #[trigger] next[k] by {
                            assert(rest[k + 1] == next[k]);
                        }
                    }
                    out.push(line);
                },
                EntryKind::Branch(next_level) => {
                    if addr.is_kernel_region() {
                        proof {
                            assert(rest.len() == 0);
                        }
                        break;
                    }
                    proof {
                        assert(level > 0);
                        assert(self.levels@[(t * 512 + i) / 512] == level);
                        assert((t * 512 + i) / 512 == t);
                    }
                    let child = (next_level.as_usize() / 0x1000) as usize;
                    let ghost sub = listing(s, child as int, level - 1, addr.value(), 0);
                    let ghost before = out@;
                    proof {
                        PhysicalAddress::lemma_at(entry.target());
                        assert(child == table_of(entry));
                        assert(rest == sub + next);
                    }
                    self.walk_table(child, level - 1, addr, out);
                    proof {
                        assert forall|k: int| 0 <= k < out@.len() - start_len implies line_matches(
                            #[trigger] out@[start_len + k],
                            all[k],
                        ) by {
                            if k >= m {
                                assert(out@[start_len + k] == out@[before.len() + (k - m)]);
                                assert(all[k] == rest[k - m]);
                                assert(rest[k - m] == sub[k - m]);
                            } else {
                                assert(out@[start_len + k] == before[start_len + k]);
                            }
                        }
                        assert forall|k: int| 0 <= k < next.len() implies all[out@.len() - start_len + k]
                            == #[trigger] next[k] by {
                            assert(rest[sub.len() + k] == next[k]);
                        }
                    }
                },
            }
            i = i + 1;
        }
    }

    /// Appends what dropping table `t` of `level` frees to `out`.
    fn deallocate_table(&self, t: usize, level: usize, out: &mut Vec<(PhysicalAddress, PageSize)>)
        requires
            self.wf(),
            self.no_last_level_branch(),
            t < self.n_tables(),
            level <= 2,
            self.levels@[t as int] == level,
        ensures
            final(out)@.len() == old(out)@.len() + frees(self@, t as int, level as int, 0).len(),
            forall|k: int| 0 <= k < old(out)@.len() ==> #[trigger] final(out)@[k] == old(out)@[k],
            forall|k: int|
                0 <= k < frees(self@, t as int, level as int, 0).len() ==> {
                    let x = frees(self@, t as int, level as int, 0)[k];
                    &&& (#[trigger] final(out)@[old(out)@.len() + k]).0.value() == x.0
                    &&& final(out)@[old(out)@.len() + k].1 == x.1
                },
        decreases level,
    {
        let ghost s = self@;
        let ghost start_len = out@.len();
        let ghost all = frees(s, t as int, level as int, 0);
        let size = if level == 0 {
            PageSize::Kilopage
        } else if level == 1 {
            PageSize::Megapage
        } else {
            PageSize::Gigapage
        };
        let mut i: usize = 0;
        while i < ENTRIES
            invariant
                self.wf(),
                self.no_last_level_branch(),
                s == self@,
                t < self.n_tables(),
                level <= 2,
                self.levels@[t as int] == level,
                size == level_size(level as int),
                i <= 512,
                all == frees(s, t as int, level as int, 0),
                out@.len() >= start_len,
                all.len() == out@.len() - start_len + frees(s, t as int, level as int, i as int).len(),
                forall|k: int| 0 <= k < start_len ==> #[trigger] out@[k] == old(out)@[k],
                forall|k: int|
                    0 <= k < out@.len() - start_len ==> (#[trigger] out@[start_len + k]).0.value() == all[k].0
                        && out@[start_len + k].1 == all[k].1,
                forall|k: int|
                    0 <= k < frees(s, t as int, level as int, i as int).len() ==> all[out@.len() - start_len + k]
                        == #[trigger] frees(s, t as int, level as int, i as int)[k],
            decreases 512 - i,
        {
            let _n = self.entries.len();
            proof {
                assert(t * 512 + 512 <= self@.len());
            }
            let entry = self.entries[t * ENTRIES + i];
            let ghost rest = frees(s, t as int, level as int, i as int);
            let ghost next = frees(s, t as int, level as int, i + 1);
            let ghost m = out@.len() - start_len;
            proof {
                assert(entry == s[t * 512 + i]);
            }
            match entry.kind() {
                EntryKind::NotValid => {
                    proof {
                        assert(rest == next);
                    }
                },
                EntryKind::Leaf => {
                    let rsw = entry.rsw();
                    let none = Rsw::NONE();
                    proof {
                        Rsw::lemma_eq_bits(rsw, none);
                    }
                    if rsw == none {
                        let phys = match entry.ppn() {
                            Some(p) => p,
                            None => PhysicalAddress::null(),
                        };
                        proof {
                            let x = (entry.target(), level_size(level as int));
                            assert(rest == seq![x] + next);
                            assert(all[m] == rest[0]);
                            lemma_entry_flag_byte(entry.bits(), 0);
                            assert(entry.valid());
                            PhysicalAddress::lemma_at(entry.target());
                            assert forall|k: int| 0 <= k < next.len() implies all[m + 1 + k] == #[trigger] next[k] by {
                                assert(rest[k + 1] == next[k]);
                            }
                        }
                        out.push((phys, size));
                    } else {
                        proof {
                            assert(rest == next);
                        }
                    }
                },
                EntryKind::Branch(next_level) => {
                    proof {
                        assert(self.levels@[(t * 512 + i) / 512] == level);
                        assert((t * 512 + i) / 512 == t);
                        assert(level > 0);
                    }
                    let child = (next_level.as_usize() / 0x1000) as usize;
                    let ghost sub = frees(s, child as int, level - 1, 0);
                    let ghost before = out@;
                    proof {
                        PhysicalAddress::lemma_at(entry.target());
                        assert(child == table_of(entry));
                        assert(rest == sub + seq![(entry.target(), PageSize::Kilopage)] + next);
                    }
                    self.deallocate_table(child, level - 1, out);
                    let ghost mid = out@;
                    out.push((next_level, PageSize::Kilopage));
                    proof {
                        assert forall|k: int| 0 <= k < out@.len() - start_len implies (#[trigger] out@[start_len + k]).0.value()
                            == all[k].0 && out@[start_len + k].1 == all[k].1 by {
                            if k >= m && k < m + sub.len() {
                                assert(out@[start_len + k] == mid[before.len() + (k - m)]);
                                assert(all[k] == rest[k - m]);
                                assert(rest[k - m] == sub[k - m]);
                            } else if k == m + sub.len() {
                                assert(all[k] == rest[sub.len() as int]);
                            } else {
                                assert(out@[start_len + k] == before[start_len + k]);
                            }
                        }
                        assert forall|k: int| 0 <= k < next.len() implies all[out@.len() - start_len + k]
                            == #[trigger] next[k] by {
                            assert(rest[sub.len() + 1 + k] == next[k]);
                        }
                    }
                },
            }
            i = i + 1;
        }
    }

    /// The frames that dropping the table frees, in the order it frees
    /// them: each table below the root after what it frees, and each leaf
    /// page whose software bits are clear.
    pub fn deallocate(&self) -> (r: Vec<(PhysicalAddress, PageSize)>)
        requires
            self.wf(),
            self.no_last_level_branch(),
        ensures
            r@.len() == frees(self@, 0, 2, 0).len(),
            forall|k: int|
                0 <= k < r@.len() ==> (#[trigger] r@[k]).0.value() == frees(self@, 0, 2, 0)[k].0 && r@[k].1 == frees(
                    self@,
                    0,
                    2,
                    0,
                )[k].1,
    {
        let mut out: Vec<(PhysicalAddress, PageSize)> = Vec::new();
        self.deallocate_table(0, 2, &mut out);
        proof {
            assert forall|k: int| 0 <= k < out@.len() implies (#[trigger] out@[k]).0.value() == frees(self@, 0, 2, 0)[k].0
                && out@[k].1 == frees(self@, 0, 2, 0)[k].1 by {
                assert(out@[k] == out@[0 + k]);
            }
        }
        out
    }

    /// The listing of the user half of the tables: one line per leaf, in
    /// address order, up to the first valid entry in the kernel half.
    pub fn debug(&self) -> (r: Vec<PageTableDebug>)
        requires
            self.wf(),
            self.no_last_level_branch(),
        ensures
            r@.len() == listing(self@, 0, 2, 0, 0).len(),
            forall|k: int| 0 <= k < r@.len() ==> line_matches(#[trigger] r@[k], listing(self@, 0, 2, 0, 0)[k]),
    {
        let mut out: Vec<PageTableDebug> = Vec::new();
        let base = VirtualAddress::new(0);
        proof {
            assert(sign_extend(0) == 0) by {
                lemma_bit_constants();
            }
        }
        self.walk_table(0, 2, base, &mut out);
        proof {
            assert forall|k: int| 0 <= k < out@.len() implies line_matches(#[trigger] out@[k], listing(self@, 0, 2, 0, 0)[k]) by {
                assert(out@[k] == out@[0 + k]);
            }
        }
        out
    }
}

} // verus!
