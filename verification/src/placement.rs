//! Where a new region of a user address space goes: a few random tries
//! driven by clock readings, then a walk over the free regions in order.
use vstd::prelude::*;
use crate::address_map::{hi, lo, lower_bound, unoccupied, AddressRegion, Entries, tiles, span_ok, lemma_tiles_find, lemma_tiles_step};
use crate::paging::entry::{added, sign_extend, PageSize, USERSPACE_END};
use crate::utils::is_pow2;

verus! {

/// The number of random tries before the walk over the free regions.
pub const RANDOM_TRIES: usize = 100;

/// `n` rounded up to a multiple of `size`.
pub open spec fn rounded(n: u64, size: u64) -> int {
    if n % size == 0 {
        n as int
    } else {
        n - n % size + size
    }
}

/// Each page size is a power of two.
pub proof fn lemma_page_size_pow2(size: PageSize)
    ensures
        is_pow2(size.bytes()),
        0x1000 <= size.bytes() <= 0x4000_0000,
{
    crate::bits::lemma_page_shifts();
    match size {
        PageSize::Kilopage => assert(size.bytes() == 1u64 << 12u64),
        PageSize::Megapage => assert(size.bytes() == 1u64 << 21u64),
        PageSize::Gigapage => assert(size.bytes() == 1u64 << 30u64),
    }
}

/// The address a random try starts from: the clock reading times 717,
/// wrapped to 64 bits, modulo the end of user space.
pub open spec fn jittered(reading: u64) -> u64 {
    (((reading as nat * 717) % 0x1_0000_0000_0000_0000) % (USERSPACE_END as nat)) as u64
}

/// The readings the random tries use: the first hundred.
pub open spec fn tries(readings: Seq<u64>) -> Seq<u64> {
    if readings.len() > RANDOM_TRIES {
        readings.take(RANDOM_TRIES as int)
    } else {
        readings
    }
}

/// The page-aligned address a random try at `reading` proposes for pages of
/// `bytes`.
pub open spec fn try_start(reading: u64, bytes: u64) -> u64 {
    sign_extend(rounded(jittered(reading), bytes) as u64)
}

/// What a random try at `reading` gives: its rounded start, when a free
/// region lies under the start it was drawn at, the rounded start does not
/// pass the end of that region, and the room up to that end holds `total`
/// bytes.
pub open spec fn random_try(s: Entries, reading: u64, bytes: u64, total: int) -> Option<u64> {
    let i = lower_bound(s, sign_extend(jittered(reading)));
    let a = try_start(reading, bytes);
    if i < s.len() && s[i].1.region.is_none() && a <= hi(s[i].1) && hi(s[i].1) - a >= total {
        Some(a)
    } else {
        None
    }
}

/// The first address a random try over `readings` gives, in order.
pub open spec fn random_pick(s: Entries, readings: Seq<u64>, bytes: u64, total: int) -> Option<u64>
    decreases readings.len(),
{
    if readings.len() == 0 {
        None
    } else {
        match random_try(s, readings[0], bytes, total) {
            Some(a) => Some(a),
            None => random_pick(s, readings.drop_first(), bytes, total),
        }
    }
}

/// What the walk gives for the free region `u`: its start rounded up to a
/// page of `bytes`, when that does not pass its end and the room up to the
/// end holds `total` bytes.
pub open spec fn linear_try(u: AddressRegion, bytes: u64, total: int) -> Option<u64> {
    let a = sign_extend(rounded(lo(u), bytes) as u64);
    if a <= hi(u) && hi(u) - a >= total {
        Some(a)
    } else {
        None
    }
}

/// The first address the walk over the free regions `us` gives.
pub open spec fn linear_pick(us: Seq<AddressRegion>, bytes: u64, total: int) -> Option<u64>
    decreases us.len(),
{
    if us.len() == 0 {
        None
    } else {
        match linear_try(us[0], bytes, total) {
            Some(a) => Some(a),
            None => linear_pick(us.drop_first(), bytes, total),
        }
    }
}

/// Where `find_free_region` places `total` bytes in pages of `bytes`: the
/// first random try that fits, else the first free region that fits, else
/// nowhere.
pub open spec fn free_pick(s: Entries, readings: Seq<u64>, bytes: u64, total: int) -> Option<u64> {
    match random_pick(s, tries(readings), bytes, total) {
        Some(a) => Some(a),
        None => linear_pick(unoccupied(s), bytes, total),
    }
}

/// The outcome of one try of the search for a region with room for guard
/// pages.
pub ghost enum Probe {
    /// The try does not fit; the search goes on.
    Next,
    /// The try fits at this address.
    Found(u64),
    /// The try builds an address that is not valid, or looks up one that no
    /// region holds, and the search stops there.
    Fails,
}

/// What the search checks for the start `a` of `total` bytes that must fit
/// before `end`: the region holding the address just past them is free.
pub open spec fn guarded_fit(s: Entries, a: u64, end: u64, total: int) -> Probe {
    match added(a, total as u64) {
        None => Probe::Fails,
        Some(b) => {
            let k = lower_bound(s, b);
            if k >= s.len() {
                Probe::Fails
            } else if s[k].1.region.is_some() {
                Probe::Next
            } else if end - a >= total {
                Probe::Found(a)
            } else {
                Probe::Next
            }
        },
    }
}

/// A random try of the guarded search at `reading`.
pub open spec fn guarded_random_try(s: Entries, reading: u64, bytes: u64, total: int) -> Probe {
    let i = lower_bound(s, sign_extend(jittered(reading)));
    let a = try_start(reading, bytes);
    if i >= s.len() || a > hi(s[i].1) {
        Probe::Next
    } else {
        guarded_fit(s, a, hi(s[i].1), total)
    }
}

/// The walk's try of the guarded search over the free region `u`: its
/// start is moved past a guard page, then rounded up to a page.
pub open spec fn guarded_linear_try(s: Entries, u: AddressRegion, bytes: u64, total: int) -> Probe {
    match added(lo(u), 0x1000) {
        None => Probe::Fails,
        Some(c) => {
            let a = sign_extend(rounded(c, bytes) as u64);
            if a > hi(u) {
                Probe::Next
            } else {
                guarded_fit(s, a, hi(u), total)
            }
        },
    }
}

/// The outcome of the guarded random tries over `readings`.
pub open spec fn guarded_random_pick(s: Entries, readings: Seq<u64>, bytes: u64, total: int) -> Probe
    decreases readings.len(),
{
    if readings.len() == 0 {
        Probe::Next
    } else {
        match guarded_random_try(s, readings[0], bytes, total) {
            Probe::Next => guarded_random_pick(s, readings.drop_first(), bytes, total),
            p => p,
        }
    }
}

/// The outcome of the guarded walk over the free regions `us`.
pub open spec fn guarded_linear_pick(s: Entries, us: Seq<AddressRegion>, bytes: u64, total: int) -> Probe
    decreases us.len(),
{
    if us.len() == 0 {
        Probe::Next
    } else {
        match guarded_linear_try(s, us[0], bytes, total) {
            Probe::Next => guarded_linear_pick(s, us.drop_first(), bytes, total),
            p => p,
        }
    }
}

/// The outcome of the whole guarded search: `Next` when nothing fits.
pub open spec fn guarded_pick(s: Entries, readings: Seq<u64>, bytes: u64, total: int) -> Probe {
    match guarded_random_pick(s, tries(readings), bytes, total) {
        Probe::Next => guarded_linear_pick(s, unoccupied(s), bytes, total),
        p => p,
    }
}


/// An address that is a multiple of a page size stays one when its bit 38
/// is copied into the bits above it.
pub proof fn lemma_sign_extend_keeps_alignment(x: u64, size: PageSize)
    requires
        x % size.bytes() == 0,
    ensures
        sign_extend(x) % size.bytes() == 0,
{
    crate::bits::lemma_sign_extend_aligned(x);
}

/// A rounded value is a multiple of the page size.
pub proof fn lemma_rounded_aligned(n: u64, size: PageSize)
    requires
        rounded(n, size.bytes()) <= u64::MAX,
    ensures
        (rounded(n, size.bytes()) as u64) % size.bytes() == 0,
{
    let b = size.bytes() as int;
    lemma_page_size_pow2(size);
    if n % size.bytes() != 0 {
        let q = n as int / b;
        vstd::arithmetic::div_mod::lemma_fundamental_div_mod(n as int, b);
        vstd::arithmetic::div_mod::lemma_mod_multiples_basic(q + 1, b);
        assert(n - n % size.bytes() + b == (q + 1) * b) by (nonlinear_arith)
            requires
                n == b * q + n % size.bytes(),
                b == size.bytes(),
        ;
    } else {
    }
}

/// Every address `find_free_region` gives is aligned to the page size it
/// was asked for.
pub proof fn lemma_free_pick_aligned(s: Entries, readings: Seq<u64>, size: PageSize, total: int)
    requires
        forall|k: int| 0 <= k < unoccupied(s).len() ==> lo(#[trigger] unoccupied(s)[k]) < USERSPACE_END,
    ensures
        free_pick(s, readings, size.bytes(), total) matches Some(a) ==> a % size.bytes() == 0,
{
    lemma_page_size_pow2(size);
    lemma_random_pick_aligned(s, tries(readings), size, total);
    lemma_linear_pick_aligned(unoccupied(s), size, total);
}

/// The random tries give addresses aligned to the page size.
proof fn lemma_random_pick_aligned(s: Entries, readings: Seq<u64>, size: PageSize, total: int)
    ensures
        random_pick(s, readings, size.bytes(), total) matches Some(a) ==> a % size.bytes() == 0,
    decreases readings.len(),
{
    lemma_page_size_pow2(size);
    if readings.len() > 0 {
        let j = jittered(readings[0]);
        lemma_rounded_aligned(j, size);
        lemma_sign_extend_keeps_alignment(rounded(j, size.bytes()) as u64, size);
        lemma_random_pick_aligned(s, readings.drop_first(), size, total);
    }
}

/// The walk over free regions that start inside user space gives addresses
/// aligned to the page size.
proof fn lemma_linear_pick_aligned(us: Seq<AddressRegion>, size: PageSize, total: int)
    requires
        forall|k: int| 0 <= k < us.len() ==> lo(#[trigger] us[k]) < USERSPACE_END,
    ensures
        linear_pick(us, size.bytes(), total) matches Some(a) ==> a % size.bytes() == 0,
    decreases us.len(),
{
    lemma_page_size_pow2(size);
    if us.len() > 0 {
        assert(lo(us[0]) < USERSPACE_END);
        lemma_rounded_aligned(lo(us[0]), size);
        lemma_sign_extend_keeps_alignment(rounded(lo(us[0]), size.bytes()) as u64, size);
        assert forall|k: int| 0 <= k < us.drop_first().len() implies lo(#[trigger] us.drop_first()[k]) < USERSPACE_END by {
            assert(us.drop_first()[k] == us[k + 1]);
        }
        lemma_linear_pick_aligned(us.drop_first(), size, total);
    }
}

/// With no clock readings, `find_free_region` only walks the free regions,
/// and the span it gives lies inside one of them: the region is free, and
/// the span of `total` bytes starts and ends within it.
pub proof fn lemma_walk_pick_is_free(s: Entries, size: PageSize, total: int)
    requires
        total >= 0,
        forall|k: int| 0 <= k < unoccupied(s).len() ==> lo(#[trigger] unoccupied(s)[k]) < USERSPACE_END,
    ensures
        free_pick(s, Seq::empty(), size.bytes(), total) matches Some(a) ==> exists|k: int|
            0 <= k < s.len() && {
                let r = #[trigger] s[k].1;
                &&& r.region.is_none()
                &&& lo(r) <= a
                &&& a + total <= hi(r)
            },
{
    assert(tries(Seq::<u64>::empty()) =~= Seq::<u64>::empty());
    lemma_page_size_pow2(size);
    if let Some(a) = linear_pick(unoccupied(s), size.bytes(), total) {
        let k = lemma_linear_pick_in(unoccupied(s), size.bytes(), total);
        lemma_unoccupied_in(s, k);
    }
}

/// The region of the walk's pick: its index in the list.
proof fn lemma_linear_pick_in(us: Seq<AddressRegion>, bytes: u64, total: int) -> (k: int)
    requires
        linear_pick(us, bytes, total) is Some,
        total >= 0,
        0 < bytes <= 0x4000_0000,
        forall|k: int| 0 <= k < us.len() ==> lo(#[trigger] us[k]) < USERSPACE_END,
    ensures
        0 <= k < us.len(),
        lo(us[k]) <= linear_pick(us, bytes, total)->0,
        linear_pick(us, bytes, total)->0 + total <= hi(us[k]),
    decreases us.len(),
{
    assert(lo(us[0]) < USERSPACE_END);
    if linear_try(us[0], bytes, total) is Some {
        lemma_rounded_at_least(lo(us[0]), bytes);
        0
    } else {
        assert forall|k: int| 0 <= k < us.drop_first().len() implies lo(#[trigger] us.drop_first()[k]) < USERSPACE_END by {
            assert(us.drop_first()[k] == us[k + 1]);
        }
        let k = lemma_linear_pick_in(us.drop_first(), bytes, total);
        k + 1
    }
}

/// Rounding up does not go down, and copying bit 38 upward does not lower
/// an address.
proof fn lemma_rounded_at_least(n: u64, bytes: u64)
    requires
        bytes > 0,
    ensures
        rounded(n, bytes) >= n,
        rounded(n, bytes) <= u64::MAX ==> sign_extend(rounded(n, bytes) as u64) >= rounded(n, bytes),
{
    if n % bytes != 0 {
        assert(n % bytes < bytes) by (nonlinear_arith)
            requires
                bytes > 0,
        ;
    }
    if rounded(n, bytes) <= u64::MAX {
        crate::bits::lemma_or_not_lower(rounded(n, bytes) as u64);
    }
}

/// Each free region the walk goes over is an entry of the map whose region
/// is free.
proof fn lemma_unoccupied_in(s: Entries, k: int)
    requires
        0 <= k < unoccupied(s).len(),
    ensures
        exists|j: int| 0 <= j < s.len() && #[trigger] s[j].1 == unoccupied(s)[k] && s[j].1.region.is_none(),
    decreases s.len(),
{
    let u = unoccupied(s.drop_last());
    if s.last().1.region.is_none() && k == u.len() {
        assert(s[s.len() - 1].1 == unoccupied(s)[k]);
    } else {
        lemma_unoccupied_in(s.drop_last(), k);
        let j = choose|j: int| 0 <= j < s.drop_last().len() && #[trigger] s.drop_last()[j].1 == u[k] && s.drop_last()[j].1.region.is_none();
        assert(s[j] == s.drop_last()[j]);
    }
}

/// In a map that tiles user space every free region starts inside it.
proof fn lemma_free_starts_inside(s: Entries)
    requires
        tiles(s, 0, USERSPACE_END),
    ensures
        forall|k: int| 0 <= k < unoccupied(s).len() ==> lo(#[trigger] unoccupied(s)[k]) < USERSPACE_END,
{
    let n = s.len() as int;
    assert forall|k: int| 0 <= k < unoccupied(s).len() implies lo(#[trigger] unoccupied(s)[k]) < USERSPACE_END by {
        lemma_unoccupied_in(s, k);
        let j = choose|j: int| 0 <= j < s.len() && #[trigger] s[j].1 == unoccupied(s)[k] && s[j].1.region.is_none();
        assert(span_ok(s, j));
        assert(span_ok(s, n - 1));
        if j < n - 1 {
            lemma_tiles_step(s, 0, USERSPACE_END, j, n - 1);
        }
    }
}

/// The random tries give a start from which `total` bytes lie inside one
/// free region of a map that tiles user space.
proof fn lemma_random_pick_is_free(s: Entries, readings: Seq<u64>, bytes: u64, total: int)
    requires
        total >= 0,
        0 < bytes <= 0x4000_0000,
        tiles(s, 0, USERSPACE_END),
    ensures
        random_pick(s, readings, bytes, total) matches Some(a) ==> exists|k: int|
            0 <= k < s.len() && {
                let r = #[trigger] s[k].1;
                &&& r.region.is_none()
                &&& lo(r) <= a
                &&& a + total <= hi(r)
            },
    decreases readings.len(),
{
    if readings.len() > 0 {
        if random_try(s, readings[0], bytes, total) is Some {
            let j = jittered(readings[0]);
            assert(j < USERSPACE_END);
            assert(sign_extend(j) == j) by (bit_vector)
                requires
                    j < 0x3F_FFFF_FFFFu64,
            ;
            lemma_tiles_find(s, 0, USERSPACE_END, j);
            lemma_rounded_at_least(j, bytes);
            let i = lower_bound(s, j);
            assert(s[i].1.region.is_none() && lo(s[i].1) <= try_start(readings[0], bytes));
        } else {
            lemma_random_pick_is_free(s, readings.drop_first(), bytes, total);
        }
    }
}

/// Wherever `find_free_region` places `total` bytes, random try or walk,
/// in a map that tiles user space, they lie inside one free region: the
/// region is free and the span starts and ends within it, so mapping the
/// span there does not meet a taken region.
pub proof fn lemma_free_pick_is_free(s: Entries, readings: Seq<u64>, size: PageSize, total: int)
    requires
        total >= 0,
        tiles(s, 0, USERSPACE_END),
    ensures
        free_pick(s, readings, size.bytes(), total) matches Some(a) ==> exists|k: int|
            0 <= k < s.len() && {
                let r = #[trigger] s[k].1;
                &&& r.region.is_none()
                &&& lo(r) <= a
                &&& a + total <= hi(r)
            },
{
    lemma_page_size_pow2(size);
    lemma_free_starts_inside(s);
    lemma_random_pick_is_free(s, tries(readings), size.bytes(), total);
    if random_pick(s, tries(readings), size.bytes(), total) is None {
        if let Some(a) = linear_pick(unoccupied(s), size.bytes(), total) {
            let k = lemma_linear_pick_in(unoccupied(s), size.bytes(), total);
            lemma_unoccupied_in(s, k);
        }
    }
}

} // verus!
