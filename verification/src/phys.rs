//! Physical pages and the bitmap allocator of physical page frames.
use vstd::prelude::*;
use vstd::std_specs::bits::{u64_trailing_ones, axiom_u64_trailing_ones, u64_leading_zeros};
use crate::paging::entry::{PhysicalAddress, PageSize};
use crate::bits::{lemma_mask_bits, lemma_rotate_bits};

verus! {

/// Bytes of physical memory that one 64-bit bitmap entry covers.
pub const SINGLE_ENTRY_SIZE_BYTES: u64 = 0x40000;

/// Bytes in a small page.
pub const PAGE_BYTES: u64 = 0x1000;

/// A page-aligned physical page.
#[derive(Debug, Clone, Copy, PartialEq, Eq, Structural)]
pub struct PhysicalPage(PhysicalAddress);

impl PhysicalPage {
    /// The address of the page.
    pub closed spec fn addr(self) -> u64 {
        self.0.value()
    }

    /// The page at `addr`, which must be page-aligned.
    pub fn from_ptr(addr: u64) -> (r: Self)
        requires
            addr % 0x1000 == 0,
        ensures
            r.addr() == addr,
    {
        PhysicalPage(PhysicalAddress::new(addr))
    }

    /// The address of the page.
    pub fn as_phys_address(self) -> (r: PhysicalAddress)
        ensures
            r.value() == self.addr(),
    {
        self.0
    }
}

/// Whether bit `b` of `w` is set.
pub open spec fn bit_set(w: u64, b: u64) -> bool {
    (w >> b) & 1 == 1
}

/// The bitmap entry that covers the page at `addr`.
pub open spec fn entry_of(start: u64, addr: u64) -> int {
    (addr - start) / 0x40000
}

/// The bit within its entry that stands for the page at `addr`.
pub open spec fn bit_of(start: u64, addr: u64) -> u64 {
    (((addr - start) / 0x1000) % 64) as u64
}

/// The address of the page that bit `bit` of entry `index` stands for.
pub open spec fn page_at(start: u64, index: int, bit: int) -> int {
    start + index * 0x40000 + bit * 0x1000
}

/// The index of the first entry from `from` on that still has a clear bit,
/// or the length when there is none.
pub open spec fn first_not_full(s: Seq<u64>, from: int) -> int
    decreases s.len() - from,
{
    if from >= s.len() || from < 0 {
        s.len() as int
    } else if s[from] != u64::MAX {
        from
    } else {
        first_not_full(s, from + 1)
    }
}

/// A frame allocator that keeps one bit per 4 KiB page, set while the page
/// is in use.
pub struct BitmapAllocator {
    bitmap: Vec<u64>,
    size: usize,
    mem_start: u64,
    mem_end: u64,
}

impl View for BitmapAllocator {
    type V = Seq<u64>;

    closed spec fn view(&self) -> Seq<u64> {
        self.bitmap@
    }
}

impl BitmapAllocator {
    /// The first address of the managed memory.
    pub closed spec fn start(&self) -> u64 {
        self.mem_start
    }

    /// The end of the managed memory.
    pub closed spec fn end(&self) -> u64 {
        self.mem_end
    }

    /// The bitmap length agrees with the size field, the memory start is
    /// page-aligned and every page the bitmap can name has an address.
    pub closed spec fn wf(&self) -> bool {
        &&& self.size == self.bitmap@.len()
        &&& self.mem_start % 0x1000 == 0
        &&& self.mem_start + self.bitmap@.len() * 0x40000 <= u64::MAX
    }

    /// Whether the page at `addr` is one whose bit the bitmap holds.
    pub open spec fn covers(&self, addr: u64) -> bool {
        &&& self.start() <= addr
        &&& (addr - self.start()) % 0x1000 == 0
        &&& entry_of(self.start(), addr) < self@.len()
    }

    /// An allocator that manages no memory yet.
    pub fn new() -> (r: Self)
        ensures
            r.wf(),
            r@ == Seq::<u64>::empty(),
            r.start() == 0,
            r.end() == 0,
    {
        BitmapAllocator { bitmap: Vec::new(), size: 0, mem_start: 0, mem_end: 0 }
    }

    /// Marks the page at `page` as in use.
    pub fn set_used(&mut self, page: PhysicalPage)
        requires
            old(self).wf(),
            old(self).covers(page.addr()),
        ensures
            final(self).wf(),
            final(self).start() == old(self).start(),
            final(self).end() == old(self).end(),
            final(self)@ == old(self)@.update(
                entry_of(old(self).start(), page.addr()),
                old(self)@[entry_of(old(self).start(), page.addr())] | (1u64 << bit_of(
                    old(self).start(),
                    page.addr(),
                )),
            ),
    {
        let offset = page.as_phys_address().as_usize() - self.mem_start;
        let index = (offset / SINGLE_ENTRY_SIZE_BYTES) as usize;
        let bit = (offset / PAGE_BYTES) % 64;
        let e = self.bitmap[index];
        self.bitmap.set(index, e | (1u64 << bit));
    }

    /// Marks the page at `page` as free.
    pub fn set_unused(&mut self, page: PhysicalPage)
        requires
            old(self).wf(),
            old(self).covers(page.addr()),
        ensures
            final(self).wf(),
            final(self).start() == old(self).start(),
            final(self).end() == old(self).end(),
            final(self)@ == old(self)@.update(
                entry_of(old(self).start(), page.addr()),
                old(self)@[entry_of(old(self).start(), page.addr())] & !(1u64 << bit_of(
                    old(self).start(),
                    page.addr(),
                )),
            ),
    {
        let offset = page.as_phys_address().as_usize() - self.mem_start;
        let index = (offset / SINGLE_ENTRY_SIZE_BYTES) as usize;
        let bit = (offset / PAGE_BYTES) % 64;
        let e = self.bitmap[index];
        self.bitmap.set(index, e & !(1u64 << bit));
    }

    /// Allocates one 4 KiB page: the first clear bit of the first entry that
    /// is not full, when that page lies at or below the end of memory.
    fn alloc_kilopage(&mut self) -> (r: Option<PhysicalPage>)
        requires
            old(self).wf(),
        ensures
            final(self).wf(),
            final(self).start() == old(self).start(),
            final(self).end() == old(self).end(),
            ({
                let s = old(self)@;
                let i = first_not_full(s, 0);
                let b = u64_trailing_ones(s[i]);
                let p = page_at(old(self).start(), i, b as int);
                if i < s.len() && p <= old(self).end() {
                    &&& r.is_some()
                    &&& r.unwrap().addr() == p
                    &&& final(self)@ == s.update(i, s[i] | (1u64 << b))
                } else {
                    &&& r.is_none()
                    &&& final(self)@ == s
                }
            }),
    {
        let ghost s = self@;
        let index = self.find_not_full();
        if index >= self.bitmap.len() {
            return None;
        }
        let entry = self.bitmap[index];
        let bit = entry.trailing_ones();
        proof {
            lemma_first_not_full(s, 0);
            axiom_u64_trailing_ones(entry);
        }
        let page_ptr = self.mem_start + (index as u64) * SINGLE_ENTRY_SIZE_BYTES + (bit as u64)
            * PAGE_BYTES;
        if page_ptr <= self.mem_end {
            self.bitmap.set(index, entry | (1u64 << (bit as u64)));
            proof {
                assert(page_ptr % 0x1000 == 0) by (nonlinear_arith)
                    requires
                        page_ptr == self.mem_start + (index as u64) * 0x40000 + (bit as u64) * 0x1000,
                        self.mem_start % 0x1000 == 0,
                ;
            }
            return Some(PhysicalPage::from_ptr(page_ptr));
        }
        None
    }

    /// Allocates `n` contiguous 4 KiB pages, fewer than 64, inside a single
    /// bitmap entry.
    fn alloc_window(&mut self, n: usize) -> (r: Option<PhysicalPage>)
        requires
            old(self).wf(),
            n < 64,
        ensures
            final(self).wf(),
            final(self).start() == old(self).start(),
            final(self).end() == old(self).end(),
            ({
                let (s2, p) = intra_scan(old(self)@, old(self).start(), old(self).end(), n as u64, 0);
                &&& final(self)@ == s2
                &&& r.is_some() == p.is_some()
                &&& r.is_some() ==> r.unwrap().addr() == p.unwrap()
            }),
    {
        let ghost s0 = self@;
        let ghost start0 = self.mem_start;
        let ghost end0 = self.mem_end;
        let nn = n as u64;
        let mask = u64::MAX << nn;
        let mut index: usize = 0;
        let mut result: Option<PhysicalPage> = None;
        while index < self.bitmap.len()
            invariant_except_break
                self.wf(),
                self.mem_start == start0,
                self.mem_end == end0,
                self@.len() == s0.len(),
                0 <= index <= self@.len(),
                nn == n,
                n < 64,
                mask == u64::MAX << nn,
                intra_scan(s0, start0, end0, nn, 0) == intra_scan(self@, start0, end0, nn, index as int),
                result.is_none(),
            ensures
                self.wf(),
                self.mem_start == start0,
                self.mem_end == end0,
                ({
                    let (s2, p) = intra_scan(s0, start0, end0, nn, 0);
                    &&& self@ == s2
                    &&& result.is_some() == p.is_some()
                    &&& result.is_some() ==> result.unwrap().addr() == p.unwrap()
                }),
            decreases self@.len() - index,
        {
            let e = self.bitmap[index];
            let bit = find_window(e, nn);
            if bit < 64 - nn {
                let marked = e | ((!mask) << bit);
                self.bitmap.set(index, marked);
                let page_ptr = self.mem_start + (index as u64) * SINGLE_ENTRY_SIZE_BYTES + bit * PAGE_BYTES;
                if page_ptr < self.mem_end {
                    proof {
                        assert(page_ptr % 0x1000 == 0) by (nonlinear_arith)
                            requires
                                page_ptr == self.mem_start + (index as u64) * 0x40000 + bit * 0x1000,
                                self.mem_start % 0x1000 == 0,
                        ;
                    }
                    result = Some(PhysicalPage::from_ptr(page_ptr));
                    break;
                }
            }
            index = index + 1;
        }
        result
    }

    /// Allocates a whole bitmap entry, 64 pages: the first entry that is
    /// entirely clear gets all its bits set; its page is handed out when it
    /// lies below the end of memory.
    fn alloc_whole_entry(&mut self) -> (r: Option<PhysicalPage>)
        requires
            old(self).wf(),
        ensures
            final(self).wf(),
            final(self).start() == old(self).start(),
            final(self).end() == old(self).end(),
            ({
                let s = old(self)@;
                let i = first_zero(s, 0);
                let p = page_at(old(self).start(), i, 0);
                if i < s.len() {
                    &&& final(self)@ == s.update(i, u64::MAX)
                    &&& r.is_some() == (p < old(self).end())
                    &&& r.is_some() ==> r.unwrap().addr() == p
                } else {
                    &&& r.is_none()
                    &&& final(self)@ == s
                }
            }),
    {
        let ghost s = self@;
        let index = self.find_zero();
        proof {
            lemma_first_zero(s, 0);
        }
        if index >= self.bitmap.len() {
            return None;
        }
        self.bitmap.set(index, u64::MAX);
        let page_ptr = self.mem_start + (index as u64) * SINGLE_ENTRY_SIZE_BYTES;
        if page_ptr < self.mem_end {
            proof {
                assert(page_ptr % 0x1000 == 0) by (nonlinear_arith)
                    requires
                        page_ptr == self.mem_start + (index as u64) * 0x40000,
                        self.mem_start % 0x1000 == 0,
                ;
            }
            Some(PhysicalPage::from_ptr(page_ptr))
        } else {
            None
        }
    }

    /// The index of the first bitmap entry with no bit set, or the length.
    fn find_zero(&self) -> (r: usize)
        ensures
            r == first_zero(self@, 0),
    {
        let mut index: usize = 0;
        while index < self.bitmap.len()
            invariant
                0 <= index <= self@.len(),
                first_zero(self@, 0) == first_zero(self@, index as int),
            decreases self@.len() - index,
        {
            if self.bitmap[index] == 0 {
                return index;
            }
            index = index + 1;
        }
        index
    }

    /// Whether every entry in `[from, to)` is zero.
    fn all_clear(&self, from: usize, to: usize) -> (r: bool)
        requires
            from <= to <= self@.len(),
        ensures
            r == (forall|j: int| from <= j < to ==> self@[j] == 0),
    {
        let mut i = from;
        while i < to
            invariant
                from <= i <= to <= self@.len(),
                forall|j: int| from <= j < i ==> self@[j] == 0,
            decreases to - i,
        {
            if self.bitmap[i] != 0 {
                return false;
            }
            i = i + 1;
        }
        true
    }

    /// Sets every entry in `[from, to)` to `value`.
    fn fill_entries(&mut self, from: usize, to: usize, value: u64)
        requires
            old(self).wf(),
            from <= to <= old(self)@.len(),
        ensures
            final(self).wf(),
            final(self).start() == old(self).start(),
            final(self).end() == old(self).end(),
            final(self)@ == filled(old(self)@, from as int, to as int, value),
    {
        let ghost s = self@;
        let mut i = from;
        while i < to
            invariant
                self.wf(),
                self.mem_start == old(self).mem_start,
                self.mem_end == old(self).mem_end,
                from <= i <= to <= s.len(),
                self@ == filled(s, from as int, i as int, value),
            decreases to - i,
        {
            self.bitmap.set(i, value);
            proof {
                assert(self@ =~= filled(s, from as int, i + 1, value));
            }
            i = i + 1;
        }
    }

    /// Allocates `n` contiguous 4 KiB pages, more than 64, spanning whole
    /// entries: a run of `n / 64` clear entries, followed, when `n % 64` is
    /// not zero, by an entry with that many clear high bits; the run and the
    /// low `n % 64` bits of the entry after it get set.
    fn alloc_contig_4k_inter_pages(&mut self, n: usize) -> (r: Option<PhysicalPage>)
        requires
            old(self).wf(),
            n > 64,
            old(self)@.len() + n / 64 + 1 <= usize::MAX,
        ensures
            final(self).wf(),
            final(self).start() == old(self).start(),
            final(self).end() == old(self).end(),
            ({
                let (s2, p) = inter_scan(
                    old(self)@,
                    old(self).start(),
                    old(self).end(),
                    n as int / 64,
                    n as int % 64,
                    0,
                );
                &&& final(self)@ == s2
                &&& r.is_some() == p.is_some()
                &&& r.is_some() ==> r.unwrap().addr() == p.unwrap()
            }),
    {
        let ghost s = self@;
        let whole = n / 64;
        let last = (n % 64) as u32;
        let mut start_index: usize = 0;
        loop
            invariant
                self.wf(),
                self@ == s,
                s == old(self)@,
                self.mem_start == old(self).mem_start,
                self.mem_end == old(self).mem_end,
                whole == n / 64,
                whole >= 1,
                last == n % 64,
                start_index <= s.len() + 1,
                s.len() + whole + 1 <= usize::MAX,
                inter_scan(s, self.mem_start, self.mem_end, whole as int, last as int, 0)
                    == inter_scan(s, self.mem_start, self.mem_end, whole as int, last as int, start_index as int),
            decreases s.len() + 1 - start_index,
        {
            let range_end = start_index + whole;
            if range_end > self.bitmap.len() {
                assert(inter_scan(s, self.mem_start, self.mem_end, whole as int, last as int, start_index as int).0 == s);
                assert(inter_scan(s, self.mem_start, self.mem_end, whole as int, last as int, start_index as int).1.is_none());
                return None;
            }
            if !self.all_clear(start_index, range_end) {
                start_index = start_index + whole;
                continue;
            }
            if last != 0 {
                if range_end >= self.bitmap.len() {
                    return None;
                }
                if self.bitmap[range_end].leading_zeros() < last {
                    start_index = range_end + 1;
                    continue;
                }
            }
            let page_ptr = self.mem_start + (start_index as u64) * SINGLE_ENTRY_SIZE_BYTES;
            if page_ptr < self.mem_end {
                self.fill_entries(start_index, range_end, u64::MAX);
                if last > 0 {
                    let e = self.bitmap[range_end];
                    self.bitmap.set(range_end, e | !(u64::MAX << (last as u64)));
                }
                proof {
                    assert(page_ptr % 0x1000 == 0) by (nonlinear_arith)
                        requires
                            page_ptr == self.mem_start + (start_index as u64) * 0x40000,
                            self.mem_start % 0x1000 == 0,
                    ;
                }
                return Some(PhysicalPage::from_ptr(page_ptr));
            } else {
                return None;
            }
        }
    }

    /// Allocates `n` contiguous 4 KiB pages, 64 at most, inside a single
    /// bitmap entry.
    fn alloc_contig_4k_intra_pages(&mut self, n: usize) -> (r: Option<PhysicalPage>)
        requires
            old(self).wf(),
            n <= 64,
        ensures
            final(self).wf(),
            final(self).start() == old(self).start(),
            final(self).end() == old(self).end(),
            final(self)@ == intra_result(old(self)@, old(self).start(), old(self).end(), n as u64).0,
            r.is_some() == intra_result(old(self)@, old(self).start(), old(self).end(), n as u64).1.is_some(),
            r.is_some() ==> r.unwrap().addr() == intra_result(old(self)@, old(self).start(), old(self).end(), n as u64).1.unwrap(),
    {
        if n == 64 {
            self.alloc_whole_entry()
        } else {
            self.alloc_window(n)
        }
    }

    /// Allocates `n` contiguous pages of the given size: small pages go to
    /// the searches inside one entry (64 pages at most) or across entries;
    /// larger pages take a run of whole entries.
    pub fn alloc_contiguous(&mut self, align_to: PageSize, n: usize) -> (r: Option<PhysicalPage>)
        requires
            old(self).wf(),
            old(self)@.len() + n / 64 + 1 <= usize::MAX,
            align_to != PageSize::Kilopage ==> old(self).huge_ready(align_to, n),
        ensures
            final(self).wf(),
            final(self).start() == old(self).start(),
            final(self).end() == old(self).end(),
            final(self)@ == contiguous_result(old(self)@, old(self).start(), old(self).end(), align_to, n).0,
            r.is_some() == contiguous_result(old(self)@, old(self).start(), old(self).end(), align_to, n).1.is_some(),
            r.is_some() ==> r.unwrap().addr() == contiguous_result(old(self)@, old(self).start(), old(self).end(), align_to, n).1.unwrap(),
    {
        match align_to {
            PageSize::Kilopage => {
                if n <= 64 {
                    self.alloc_contig_4k_intra_pages(n)
                } else {
                    self.alloc_contig_4k_inter_pages(n)
                }
            },
            _ => self.alloc_huge(align_to, n),
        }
    }

    /// Whether a search for `n` pages of a large size can run: `n` is at
    /// least one, the entry count fits, and the first candidate entry starts
    /// on a boundary of the page size.
    pub open spec fn huge_ready(&self, size: PageSize, n: usize) -> bool {
        huge_fits(self@.len() as int, self.start(), size, n)
    }

    /// Allocates `n` contiguous pages of a size above 4 KiB as a run of whole
    /// entries.
    fn alloc_huge(&mut self, size: PageSize, n: usize) -> (r: Option<PhysicalPage>)
        requires
            old(self).wf(),
            size != PageSize::Kilopage,
            old(self).huge_ready(size, n),
        ensures
            final(self).wf(),
            final(self).start() == old(self).start(),
            final(self).end() == old(self).end(),
            ({
                let (s2, p) = huge_scan(old(self)@, old(self).start(), huge_entries(size, n), huge_first(old(self).start(), size));
                &&& final(self)@ == s2
                &&& r.is_some() == p.is_some()
                &&& r.is_some() ==> r.unwrap().addr() == p.unwrap()
            }),
    {
        let ghost s = self@;
        let bytes = size.to_byte_size();
        let (n_entries, mut start_index) = huge_params(size, n, self.mem_start);
        proof {
            lemma_huge_entries(size, n);
        }
        let ghost first = start_index;
        loop
            invariant
                self.wf(),
                self@ == s,
                s == old(self)@,
                self.mem_start == old(self).mem_start,
                self.mem_end == old(self).mem_end,
                size != PageSize::Kilopage,
                bytes == size.bytes(),
                n_entries == huge_entries(size, n),
                n_entries * 0x40000 == n * bytes,
                s.len() + n_entries <= usize::MAX,
                first + n_entries <= usize::MAX,
                first == huge_first(old(self).start(), size),
                start_index <= s.len() || start_index == first,
                (self.mem_start + start_index * 0x40000) % (bytes as int) == 0,
                huge_scan(s, self.mem_start, n_entries as int, first as int)
                    == huge_scan(s, self.mem_start, n_entries as int, start_index as int),
            decreases s.len() + n_entries - start_index,
        {
            let end_index = start_index + n_entries;
            if end_index > self.bitmap.len() {
                return None;
            }
            if !self.all_clear(start_index, end_index) {
                proof {
                    assert(exists|j: int| start_index <= j < end_index && s[j] != 0);
                    lemma_aligned_step(self.mem_start as int, start_index as int, n_entries as int, n as int, bytes as int);
                }
                start_index = end_index;
                continue;
            }
            self.fill_entries(start_index, end_index, u64::MAX);
            let page_ptr = self.mem_start + (start_index as u64) * SINGLE_ENTRY_SIZE_BYTES;
            proof {
                assert(page_ptr % 0x1000 == 0) by (nonlinear_arith)
                    requires
                        (page_ptr as int) % (bytes as int) == 0,
                        bytes == 0x20_0000 || bytes == 0x4000_0000,
                ;
            }
            return Some(PhysicalPage::from_ptr(page_ptr));
        }
    }

    /// Allocates one page of the given size: a 4 KiB page from the first
    /// entry that is not full, or a 2 MiB page as a run of whole entries.
    pub fn allocate(&mut self, align_to: PageSize) -> (r: Option<PhysicalPage>)
        requires
            old(self).wf(),
            align_to != PageSize::Gigapage,
            align_to == PageSize::Megapage ==> old(self).huge_ready(align_to, 1),
        ensures
            final(self).wf(),
            final(self).start() == old(self).start(),
            final(self).end() == old(self).end(),
            align_to == PageSize::Kilopage ==> ({
                let s = old(self)@;
                let i = first_not_full(s, 0);
                let b = u64_trailing_ones(s[i]);
                let p = page_at(old(self).start(), i, b as int);
                if i < s.len() && p <= old(self).end() {
                    &&& r.is_some()
                    &&& r.unwrap().addr() == p
                    &&& final(self)@ == s.update(i, s[i] | (1u64 << b))
                } else {
                    &&& r.is_none()
                    &&& final(self)@ == s
                }
            }),
            align_to == PageSize::Megapage ==> {
                let (s2, p) = contiguous_result(old(self)@, old(self).start(), old(self).end(), align_to, 1);
                &&& final(self)@ == s2
                &&& r.is_some() == p.is_some()
                &&& r.is_some() ==> r.unwrap().addr() == p.unwrap()
            },
    {
        match align_to {
            PageSize::Megapage => self.alloc_contiguous(align_to, 1),
            _ => self.alloc_kilopage(),
        }
    }

    /// Frees a page: a 4 KiB page clears its bit, which must be set; a 2 MiB
    /// page clears the 512 entries from its own on, which must all be full.
    pub fn dealloc(&mut self, page: PhysicalPage, size: PageSize)
        requires
            old(self).wf(),
            old(self).covers(page.addr()),
            size != PageSize::Gigapage,
            size == PageSize::Kilopage ==> bit_set(
                old(self)@[entry_of(old(self).start(), page.addr())],
                bit_of(old(self).start(), page.addr()),
            ),
            size == PageSize::Megapage ==> entry_of(old(self).start(), page.addr()) + 512 <= old(self)@.len(),
            size == PageSize::Megapage ==> forall|j: int|
                entry_of(old(self).start(), page.addr()) <= j < entry_of(old(self).start(), page.addr()) + 512
                    ==> old(self)@[j] == u64::MAX,
        ensures
            final(self).wf(),
            final(self).start() == old(self).start(),
            final(self).end() == old(self).end(),
            size == PageSize::Kilopage ==> final(self)@ == old(self)@.update(
                entry_of(old(self).start(), page.addr()),
                old(self)@[entry_of(old(self).start(), page.addr())] & !(1u64 << bit_of(
                    old(self).start(),
                    page.addr(),
                )),
            ),
            size == PageSize::Megapage ==> final(self)@ == filled(
                old(self)@,
                entry_of(old(self).start(), page.addr()),
                entry_of(old(self).start(), page.addr()) + 512,
                0,
            ),
    {
        let offset = page.as_phys_address().as_usize() - self.mem_start;
        let index = (offset / SINGLE_ENTRY_SIZE_BYTES) as usize;
        match size {
            PageSize::Megapage => {
                self.fill_entries(index, index + 512, 0);
            },
            _ => {
                self.set_unused(page);
            },
        }
    }

    /// Frees `n` contiguous pages of the given size starting at `page`.
    /// Small pages, 64 at most, clear a window of `n` bits rotated to the
    /// page's bit; more than 64 clear `n / 64` full entries and the low
    /// `n % 64` bits of the entry after them; those full entries must be
    /// fully in use. Larger sizes clear, from the page's entry on, as many
    /// entries as the entry index plus the run length, all of which must be
    /// full.
    pub fn dealloc_contiguous(&mut self, page: PhysicalPage, size: PageSize, n: usize)
        requires
            old(self).wf(),
            old(self).covers(page.addr()),
            old(self).dealloc_ok(page.addr(), size, n),
        ensures
            final(self).wf(),
            final(self).start() == old(self).start(),
            final(self).end() == old(self).end(),
            final(self)@ == dealloc_result(old(self)@, old(self).start(), page.addr(), size, n),
    {
        let offset = page.as_phys_address().as_usize() - self.mem_start;
        let start_index = (offset / SINGLE_ENTRY_SIZE_BYTES) as usize;
        match size {
            PageSize::Kilopage => {
                if n <= 64 {
                    let start_bit = (offset / PAGE_BYTES) % 64;
                    if n == 64 {
                        self.bitmap.set(start_index, 0);
                    } else {
                        let mask = rotate_left(u64::MAX << (n as u64), start_bit);
                        let e = self.bitmap[start_index];
                        self.bitmap.set(start_index, e & mask);
                    }
                } else {
                    let whole = n / 64;
                    let last = (n % 64) as u64;
                    self.fill_entries(start_index, start_index + whole, 0);
                    if last > 0 {
                        let e = self.bitmap[start_index + whole];
                        self.bitmap.set(start_index + whole, e & (u64::MAX << last));
                    }
                }
            },
            _ => {
                let (n_entries, _) = huge_params(size, n, self.mem_start);
                let end_index = start_index + n_entries;
                self.fill_entries(start_index, start_index + end_index, 0);
            },
        }
    }

    /// Whether freeing `n` pages of the given size at `addr` stays inside the
    /// bitmap and frees only entries that are full where it must.
    pub open spec fn dealloc_ok(&self, addr: u64, size: PageSize, n: usize) -> bool {
        BitmapAllocator::dealloc_fits(self@, self.start(), addr, size, n)
    }

    /// `dealloc_ok` for a bitmap `s` of memory from `start`.
    pub open spec fn dealloc_fits(s: Seq<u64>, start: u64, addr: u64, size: PageSize, n: usize) -> bool {
        let i = entry_of(start, addr);
        match size {
            PageSize::Kilopage => if n <= 64 {
                true
            } else {
                &&& i + n / 64 <= s.len()
                &&& n % 64 > 0 ==> i + n / 64 < s.len()
                &&& forall|j: int| i <= j < i + n / 64 ==> s[j] == u64::MAX
            },
            _ => {
                &&& 1 <= n <= 0x1000
                &&& i + i + huge_entries(size, n) <= s.len()
                &&& forall|j: int| i <= j < i + i + huge_entries(size, n) ==> s[j] == u64::MAX
            },
        }
    }

    /// Takes over the memory `[start, end)`: one bit per page, all clear,
    /// then the first `size / 4096 + 1` pages marked in use, where `size` is
    /// the number of bitmap entries.
    pub fn init(&mut self, start: u64, end: u64)
        requires
            start != 0,
            start % 0x1000 == 0,
            start <= end,
            end + 0x40000 <= u64::MAX,
            (end - start) / 0x40000 + 1 <= usize::MAX,
        ensures
            final(self).wf(),
            final(self).start() == start,
            final(self).end() == end,
            final(self)@.len() == (end - start) / 0x1000 / 64 + 1,
            final(self)@ == marked_prefix(
                final(self)@.len() as int,
                final(self)@.len() as int / 0x1000 + 1,
            ),
    {
        let n_pages = (end - start) / PAGE_BYTES;
        let size = (n_pages / 64 + 1) as usize;
        let mut bitmap: Vec<u64> = Vec::new();
        let mut i: usize = 0;
        while i < size
            invariant
                i <= size,
                bitmap@ == marked_prefix(i as int, 0),
            decreases size - i,
        {
            bitmap.push(0);
            proof {
                assert(bitmap@ =~= marked_prefix(i + 1, 0));
            }
            i = i + 1;
        }
        proof {
            assert(start + size * 0x40000 <= end + 0x40000) by (nonlinear_arith)
                requires
                    size == (end - start) / 0x1000 / 64 + 1,
                    start <= end,
            ;
        }
        *self = BitmapAllocator { bitmap, size, mem_start: start, mem_end: end };
        let used = size / 4096 + 1;
        let mut page: usize = 0;
        while page < used
            invariant
                self.wf(),
                self.mem_start == start,
                self.mem_end == end,
                self@.len() == size,
                size >= 1,
                used == size / 4096 + 1,
                page <= used,
                self@ == marked_prefix(size as int, page as int),
            decreases used - page,
        {
            let addr = start + 0x1000 * (page as u64);
            proof {
                assert(addr % 0x1000 == 0) by (nonlinear_arith)
                    requires
                        addr == start + 0x1000 * (page as u64),
                        start % 0x1000 == 0,
                ;
                assert(entry_of(start, addr) == page / 64 && bit_of(start, addr) == page % 64) by (nonlinear_arith)
                    requires
                        addr == start + 0x1000 * (page as u64),
                ;
                assert(page / 64 < size) by (nonlinear_arith)
                    requires
                        page < size / 4096 + 1,
                        size >= 1,
                ;
            }
            self.set_used(PhysicalPage::from_ptr(addr));
            proof {
                lemma_marked_prefix_step(size as int, page as int);
            }
            page = page + 1;
        }
    }

    /// The index of the first bitmap entry with a clear bit, or the length.
    fn find_not_full(&self) -> (r: usize)
        ensures
            r == first_not_full(self@, 0),
    {
        let mut index: usize = 0;
        while index < self.bitmap.len()
            invariant
                0 <= index <= self@.len(),
                first_not_full(self@, 0) == first_not_full(self@, index as int),
            decreases self@.len() - index,
        {
            if self.bitmap[index] != u64::MAX {
                return index;
            }
            index = index + 1;
        }
        index
    }
}

/// Whether bits `i` to `i + n - 1` of `e` are all clear, for a window that
/// starts below `64 - n`.
pub open spec fn window_clear(e: u64, n: u64, i: u64) -> bool {
    i < 64 - n && (e >> i) | (u64::MAX << n) == u64::MAX << n
}

/// The lowest `i` from `from` on below `64 - n` where `window_clear` holds,
/// or `64 - n` when there is none.
pub open spec fn first_window(e: u64, n: u64, from: u64) -> u64
    recommends
        n < 64,
    decreases 64 - n - from,
{
    if from >= 64 - n || n >= 64 {
        (64 - n) as u64
    } else if window_clear(e, n, from) {
        from
    } else {
        first_window(e, n, (from + 1) as u64)
    }
}

/// The bitmap and the page address after scanning entries from `index` on
/// for `n` clear bits in a row: the first entry with such a window gets it
/// set; the scan stops there when the page lies below the end of memory and
/// goes on to the next entry otherwise.
pub open spec fn intra_scan(s: Seq<u64>, start: u64, end: u64, n: u64, index: int) -> (Seq<
    u64,
>, Option<int>)
    decreases s.len() - index,
{
    if index >= s.len() || index < 0 || n >= 64 {
        (s, None)
    } else {
        let e = s[index];
        let w = first_window(e, n, 0);
        if w < 64 - n {
            let s2 = s.update(index, e | ((!(u64::MAX << n)) << w));
            let p = page_at(start, index, w as int);
            if p < end {
                (s2, Some(p))
            } else {
                intra_scan(s2, start, end, n, index + 1)
            }
        } else {
            intra_scan(s, start, end, n, index + 1)
        }
    }
}

/// The lowest bit position where `n` clear bits in a row start in `e`,
/// below `64 - n`, or `64 - n` when there is none.
pub fn find_window(e: u64, n: u64) -> (r: u64)
    requires
        n < 64,
    ensures
        r == first_window(e, n, 0),
{
    let mask = u64::MAX << n;
    let mut i: u64 = 0;
    while i < 64 - n
        invariant
            n < 64,
            i <= 64 - n,
            mask == u64::MAX << n,
            first_window(e, n, 0) == first_window(e, n, i),
        decreases 64 - n - i,
    {
        if (e >> i) | mask == mask {
            return i;
        }
        i = i + 1;
    }
    i
}

/// The index of the first entry from `from` on that has no bit set, or the
/// length when there is none.
pub open spec fn first_zero(s: Seq<u64>, from: int) -> int
    decreases s.len() - from,
{
    if from >= s.len() || from < 0 {
        s.len() as int
    } else if s[from] == 0 {
        from
    } else {
        first_zero(s, from + 1)
    }
}

/// `s` with the entries in `[from, to)` set to `value`.
pub open spec fn filled(s: Seq<u64>, from: int, to: int, value: u64) -> Seq<u64> {
    Seq::new(s.len(), |j: int| if from <= j < to { value } else { s[j] })
}

/// The bitmap and the page address after searching from entry `from` for
/// `whole` clear entries followed, when `last` is not zero, by an entry
/// with at least `last` clear high bits. A busy run moves the search on by
/// `whole` entries; a too full trailing entry moves it past that entry. The
/// found run is handed out when its page lies below the end of memory.
pub open spec fn inter_scan(
    s: Seq<u64>,
    start: u64,
    end: u64,
    whole: int,
    last: int,
    from: int,
) -> (Seq<u64>, Option<int>)
    decreases s.len() + 1 - from,
{
    if whole < 1 || from < 0 || from + whole > s.len() {
        (s, None)
    } else if exists|j: int| from <= j < from + whole && s[j] != 0 {
        inter_scan(s, start, end, whole, last, from + whole)
    } else if last != 0 && from + whole >= s.len() {
        (s, None)
    } else if last != 0 && u64_leading_zeros(s[from + whole]) < last {
        inter_scan(s, start, end, whole, last, from + whole + 1)
    } else {
        let p = page_at(start, from, 0);
        if p < end {
            let run = filled(s, from, from + whole, u64::MAX);
            let marked = if last > 0 {
                run.update(from + whole, run[from + whole] | !(u64::MAX << (last as u64)))
            } else {
                run
            };
            (marked, Some(p))
        } else {
            (s, None)
        }
    }
}

/// The number of whole entries a run of `n` pages of a large size takes.
pub open spec fn huge_entries(size: PageSize, n: usize) -> int {
    let k = (size.bytes() / 0x1000) as int * n / 64;
    if k > 1 { k } else { 1 }
}

/// The first entry a search for large pages looks at.
pub open spec fn huge_first(start: u64, size: PageSize) -> int {
    ((size.bytes() - start % size.bytes()) % (size.bytes() as int)) / 0x10000
}

/// The entry count and the first entry of a search for `n` large pages.
fn huge_params(size: PageSize, n: usize, start: u64) -> (r: (usize, usize))
    requires
        size != PageSize::Kilopage,
        1 <= n <= 0x1000,
    ensures
        r.0 == huge_entries(size, n),
        r.1 == huge_first(start, size),
{
    let bytes = size.to_byte_size();
    let pages_per = (bytes / PAGE_BYTES) as usize;
    assert(pages_per <= 0x40000);
    assert(pages_per * n <= 0x40000 * 0x1000) by (nonlinear_arith)
        requires
            pages_per <= 0x40000,
            n <= 0x1000,
    ;
    let k0 = (pages_per * n) / 64;
    let n_entries = if k0 > 1 { k0 } else { 1 };
    let offset = (bytes - start % bytes) % bytes;
    let first = (offset / 0x10000) as usize;
    (n_entries, first)
}

/// Moving a page-aligned address on by `n` pages keeps it aligned.
pub proof fn lemma_aligned_step(a: int, i: int, k: int, n: int, b: int)
    requires
        (a + i * 0x40000) % b == 0,
        k * 0x40000 == n * b,
        b > 0,
    ensures
        (a + (i + k) * 0x40000) % b == 0,
{
    assert(a + (i + k) * 0x40000 == b * n + (a + i * 0x40000)) by (nonlinear_arith)
        requires
            k * 0x40000 == n * b,
    ;
    vstd::arithmetic::div_mod::lemma_mod_multiples_vanish(n, a + i * 0x40000, b);
}

/// A run of entries for `n` large pages spans `n` pages exactly.
pub proof fn lemma_huge_entries(size: PageSize, n: usize)
    requires
        size != PageSize::Kilopage,
        1 <= n <= 0x1000,
    ensures
        huge_entries(size, n) * 0x40000 == n * size.bytes(),
        huge_entries(size, n) >= 1,
{
    let m = n as int;
    match size {
        PageSize::Megapage => {
            assert((size.bytes() / 0x1000) as int == 512);
            assert(512 * m / 64 == 8 * m) by (nonlinear_arith);
            assert(huge_entries(size, n) == 8 * m);
        },
        PageSize::Gigapage => {
            assert((size.bytes() / 0x1000) as int == 0x40000);
            assert(0x40000 * m / 64 == 0x1000 * m) by (nonlinear_arith);
            assert(huge_entries(size, n) == 0x1000 * m);
        },
        PageSize::Kilopage => {},
    }
}

/// The bitmap and the address after searching from entry `from` for `k`
/// clear entries, moving on by `k` entries while the run is busy.
pub open spec fn huge_scan(s: Seq<u64>, start: u64, k: int, from: int) -> (Seq<u64>, Option<int>)
    decreases s.len() + k - from,
{
    if k < 1 || from < 0 || from + k > s.len() {
        (s, None)
    } else if exists|j: int| from <= j < from + k && s[j] != 0 {
        huge_scan(s, start, k, from + k)
    } else {
        (filled(s, from, from + k, u64::MAX), Some(page_at(start, from, 0)))
    }
}

/// A search for a run of `k` whole entries hands out only a run whose
/// entries were all zero, so that every page it covers was free: the page
/// is the address of the run's first entry `i`, the run's entries become
/// full and every other entry keeps its value. A search that finds nothing
/// leaves the bitmap as it was.
pub proof fn lemma_huge_run_was_free(s: Seq<u64>, start: u64, k: int, from: int) -> (i: int)
    ensures
        huge_scan(s, start, k, from).1 is None ==> huge_scan(s, start, k, from).0 == s,
        huge_scan(s, start, k, from).1 matches Some(p) ==> {
            let s2 = huge_scan(s, start, k, from).0;
            &&& k >= 1
            &&& from <= i
            &&& i + k <= s.len()
            &&& p == start + i * 0x40000
            &&& forall|j: int| i <= j < i + k ==> s[j] == 0
            &&& s2.len() == s.len()
            &&& forall|j: int| 0 <= j < s.len() && i <= j < i + k ==> s2[j] == u64::MAX
            &&& forall|j: int| 0 <= j < s.len() && !(i <= j < i + k) ==> s2[j] == s[j]
            &&& (start + from * 0x40000) % (k * 0x40000) == 0 ==> (start + i * 0x40000) % (k * 0x40000) == 0
        },
    decreases s.len() + k - from,
{
    if k < 1 || from < 0 || from + k > s.len() {
        from
    } else if exists|j: int| from <= j < from + k && s[j] != 0 {
        if (start + from * 0x40000) % (k * 0x40000) == 0 {
            lemma_aligned_step(start as int, from, k, 1, k * 0x40000);
        }
        lemma_huge_run_was_free(s, start, k, from + k)
    } else {
        from
    }
}

/// A megapage that `allocate` hands out covers eight whole entries, from
/// entry `i` on, that were all zero, so none of its 512 pages was in use;
/// its address is that of entry `i`; and after the call those eight
/// entries are full while every other entry keeps its value.
pub proof fn lemma_megapage_was_free(s: Seq<u64>, start: u64, end: u64) -> (i: int)
    ensures
        contiguous_result(s, start, end, PageSize::Megapage, 1).1 matches Some(p) ==> {
            let s2 = contiguous_result(s, start, end, PageSize::Megapage, 1).0;
            &&& 0 <= i
            &&& i + 8 <= s.len()
            &&& p == start + i * 0x40000
            &&& forall|j: int| i <= j < i + 8 ==> s[j] == 0
            &&& s2.len() == s.len()
            &&& forall|j: int| 0 <= j < s.len() && i <= j < i + 8 ==> s2[j] == u64::MAX
            &&& forall|j: int| 0 <= j < s.len() && !(i <= j < i + 8) ==> s2[j] == s[j]
            &&& huge_fits(s.len() as int, start, PageSize::Megapage, 1) ==> p % 0x20_0000 == 0
        },
{
    let size = PageSize::Megapage;
    lemma_huge_entries(size, 1);
    assert(huge_entries(size, 1) == 8);
    let first = huge_first(start, size);
    assert(first >= 0) by {
        assert(size.bytes() == 0x20_0000);
    }
    lemma_huge_run_was_free(s, start, 8, first)
}

/// The outcome of a search for `n` pages inside one entry.
pub open spec fn intra_result(s: Seq<u64>, start: u64, end: u64, n: u64) -> (Seq<u64>, Option<int>) {
    if n == 64 {
        let i = first_zero(s, 0);
        if i < s.len() {
            let p = page_at(start, i, 0);
            (s.update(i, u64::MAX), if p < end { Some(p) } else { None })
        } else {
            (s, None)
        }
    } else {
        intra_scan(s, start, end, n, 0)
    }
}

/// The outcome of a search for `n` contiguous pages of the given size.
pub open spec fn contiguous_result(s: Seq<u64>, start: u64, end: u64, size: PageSize, n: usize) -> (Seq<u64>, Option<int>) {
    match size {
        PageSize::Kilopage => if n <= 64 {
            intra_result(s, start, end, n as u64)
        } else {
            inter_scan(s, start, end, n as int / 64, n as int % 64, 0)
        },
        _ => huge_scan(s, start, huge_entries(size, n), huge_first(start, size)),
    }
}

/// Whether a search for `n` pages of a large size can run on a bitmap of
/// `len` entries for memory from `start`: `n` is at least one, the entry
/// count fits, and the first candidate entry starts on a boundary of the
/// page size.
pub open spec fn huge_fits(len: int, start: u64, size: PageSize, n: usize) -> bool {
    &&& n >= 1
    &&& n <= 0x1000
    &&& len + huge_entries(size, n) <= usize::MAX
    &&& huge_first(start, size) + huge_entries(size, n) <= usize::MAX
    &&& (start + huge_first(start, size) * 0x40000) % (size.bytes() as int) == 0
}

/// The bitmap and the page after one `allocate` of a page of `size`.
pub open spec fn alloc_step(s: Seq<u64>, start: u64, end: u64, size: PageSize) -> (Seq<u64>, Option<int>) {
    match size {
        PageSize::Kilopage => {
            let i = first_not_full(s, 0);
            let b = u64_trailing_ones(s[i]);
            let p = page_at(start, i, b as int);
            if i < s.len() && p <= end {
                (s.update(i, s[i] | (1u64 << b)), Some(p))
            } else {
                (s, None)
            }
        },
        _ => contiguous_result(s, start, end, size, 1),
    }
}

/// The bitmap and the pages after `n` calls of `allocate` in a row.
pub open spec fn sparse_run(s: Seq<u64>, start: u64, end: u64, size: PageSize, n: nat) -> (Seq<u64>, Seq<int>)
    decreases n,
{
    if n == 0 {
        (s, Seq::empty())
    } else {
        let (s1, p) = alloc_step(s, start, end, size);
        let (s2, ps) = sparse_run(s1, start, end, size, (n - 1) as nat);
        (s2, seq![p.unwrap()] + ps)
    }
}

/// `n` calls of `allocate` in a row hand out `n` pages.
pub proof fn lemma_sparse_run_len(s: Seq<u64>, start: u64, end: u64, size: PageSize, n: nat)
    ensures
        sparse_run(s, start, end, size, n).1.len() == n,
    decreases n,
{
    if n > 0 {
        let (s1, p) = alloc_step(s, start, end, size);
        lemma_sparse_run_len(s1, start, end, size, (n - 1) as nat);
    }
}

/// Whether each of `n` calls of `allocate` in a row can run and hands out
/// a page.
pub open spec fn sparse_ok(s: Seq<u64>, start: u64, end: u64, size: PageSize, n: nat) -> bool
    decreases n,
{
    n == 0 || {
        &&& size != PageSize::Gigapage
        &&& size == PageSize::Megapage ==> huge_fits(s.len() as int, start, size, 1)
        &&& alloc_step(s, start, end, size).1.is_some()
        &&& sparse_ok(alloc_step(s, start, end, size).0, start, end, size, (n - 1) as nat)
    }
}

/// `x` with its bits rotated left by `k` places.
pub open spec fn rotated(x: u64, k: u64) -> u64 {
    if k == 0 {
        x
    } else {
        (x << k) | (x >> (64 - k) as u64)
    }
}

/// Rotates the bits of `x` left by `k` places, `k` below 64.
pub fn rotate_left(x: u64, k: u64) -> (r: u64)
    requires
        k < 64,
    ensures
        r == rotated(x, k),
        forall|i: u64| i < 64 ==> (#[trigger] bit_set(r, ((i + k) % 64) as u64) <==> bit_set(x, i)),
{
    let back: u64 = 64 - k;
    let r = if k == 0 { x } else { (x << k) | (x >> back) };
    proof {
        lemma_rotate_bits(x, k);
    }
    r
}

/// The bitmap after freeing `n` pages of the given size at `addr`.
pub open spec fn dealloc_result(s: Seq<u64>, start: u64, addr: u64, size: PageSize, n: usize) -> Seq<u64> {
    let i = entry_of(start, addr);
    match size {
        PageSize::Kilopage => if n == 64 {
            s.update(i, 0)
        } else if n < 64 {
            s.update(i, s[i] & rotated(u64::MAX << (n as u64), bit_of(start, addr)))
        } else {
            let cleared = filled(s, i, i + n / 64, 0);
            if n % 64 > 0 {
                cleared.update(i + n / 64, cleared[i + n / 64] & (u64::MAX << ((n % 64) as u64)))
            } else {
                cleared
            }
        },
        _ => filled(s, i, i + i + huge_entries(size, n), 0),
    }
}

/// A word with its low `m` bits set, `m` clamped to `[0, 64]`.
pub open spec fn low_bits(m: int) -> u64 {
    if m <= 0 {
        0
    } else if m >= 64 {
        u64::MAX
    } else {
        ((1u64 << (m as u64)) - 1) as u64
    }
}

/// A bitmap of `len` entries whose first `k` pages are marked.
pub open spec fn marked_prefix(len: int, k: int) -> Seq<u64> {
    Seq::new(len as nat, |i: int| low_bits(k - 64 * i))
}

/// Marking page `k` of a bitmap whose first `k` pages are marked gives one
/// whose first `k + 1` are.
pub proof fn lemma_marked_prefix_step(len: int, k: int)
    requires
        0 <= k,
        k / 64 < len,
    ensures
        marked_prefix(len, k).update(
            k / 64,
            marked_prefix(len, k)[k / 64] | (1u64 << ((k % 64) as u64)),
        ) == marked_prefix(len, k + 1),
{
    let m = (k % 64) as u64;
    assert(k - 64 * (k / 64) == m);
    assert(low_bits(m as int) | (1u64 << m) == low_bits(m + 1)) by {
        lemma_mask_bits(m, 0, 0);
    }
    assert forall|i: int| 0 <= i < len && i != k / 64 implies #[trigger] marked_prefix(len, k)[i] == marked_prefix(len, k + 1)[i] by {
        if i < k / 64 {
            assert(k - 64 * i >= 64);
        } else {
            assert(k + 1 - 64 * i <= 0);
        }
    }
    assert(marked_prefix(len, k).update(k / 64, marked_prefix(len, k)[k / 64] | (1u64 << m)) =~= marked_prefix(len, k + 1));
}

/// The entry `first_zero` finds has no bit set.
pub proof fn lemma_first_zero(s: Seq<u64>, from: int)
    requires
        0 <= from <= s.len(),
    ensures
        from <= first_zero(s, from) <= s.len(),
        first_zero(s, from) < s.len() ==> s[first_zero(s, from)] == 0,
    decreases s.len() - from,
{
    if from < s.len() && s[from] != 0 {
        lemma_first_zero(s, from + 1);
    }
}

/// The entry `first_not_full` finds is not full, and every entry before it
/// from `from` on is.
pub proof fn lemma_first_not_full(s: Seq<u64>, from: int)
    requires
        0 <= from <= s.len(),
    ensures
        from <= first_not_full(s, from) <= s.len(),
        first_not_full(s, from) < s.len() ==> s[first_not_full(s, from)] != u64::MAX,
        forall|j: int| from <= j < first_not_full(s, from) ==> s[j] == u64::MAX,
    decreases s.len() - from,
{
    if from < s.len() && s[from] == u64::MAX {
        lemma_first_not_full(s, from + 1);
    }
}

} // verus!

verus! {

/// A 4 KiB allocation takes a page that was free, marks it used, and
/// freeing that page gives back the bitmap the allocation started from.
pub proof fn lemma_alloc_then_free(s: Seq<u64>, start: u64, end: u64)
    requires
        start % 0x1000 == 0,
        start + s.len() * 0x40000 <= u64::MAX,
        first_not_full(s, 0) < s.len(),
        page_at(start, first_not_full(s, 0), u64_trailing_ones(s[first_not_full(s, 0)]) as int)
            <= end,
    ensures
        ({
            let i = first_not_full(s, 0);
            let b = u64_trailing_ones(s[i]) as u64;
            let p = page_at(start, i, b as int) as u64;
            let after = s.update(i, s[i] | (1u64 << b));
            &&& entry_of(start, p) == i
            &&& bit_of(start, p) == b
            &&& !bit_set(s[i], b)
            &&& bit_set(after[i], b)
            &&& after.update(i, after[i] & !(1u64 << b)) == s
        }),
{
    let i = first_not_full(s, 0);
    lemma_first_not_full(s, 0);
    let e = s[i];
    axiom_u64_trailing_ones(e);
    let b = u64_trailing_ones(e) as u64;
    assert(b < 64);
    let p = page_at(start, i, b as int);
    assert((p - start) / 0x40000 == i && ((p - start) / 0x1000) % 64 == b) by (nonlinear_arith)
        requires
            p == start + i * 0x40000 + b * 0x1000,
            0 <= b < 64,
            0 <= i,
    ;
    assert((e >> b) & 1u64 == 0u64);
    lemma_mask_bits(0, e, b);
    let after = s.update(i, e | (1u64 << b));
    assert(after.update(i, after[i] & !(1u64 << b)) =~= s);
}

/// What a search across entries that finds a run hands out: a run of
/// `whole` clear entries from some entry on, all set, with its first page.
pub proof fn lemma_inter_scan_found(s: Seq<u64>, start: u64, end: u64, whole: int, from: int)
    requires
        from >= 0,
    ensures
        inter_scan(s, start, end, whole, 0, from).1 matches Some(p) ==> exists|f: int|
            #![trigger page_at(start, f, 0)]
            {
                &&& from <= f
                &&& f + whole <= s.len()
                &&& whole >= 1
                &&& p == page_at(start, f, 0)
                &&& p < end
                &&& inter_scan(s, start, end, whole, 0, from).0 == filled(s, f, f + whole, u64::MAX)
                &&& forall|j: int| f <= j < f + whole ==> s[j] == 0
            },
    decreases s.len() + 1 - from,
{
    if whole < 1 || from < 0 || from + whole > s.len() {
    } else if exists|j: int| from <= j < from + whole && s[j] != 0 {
        lemma_inter_scan_found(s, start, end, whole, from + whole);
    } else {
        let p = page_at(start, from, 0);
        if p < end {
            assert(p == page_at(start, from, 0));
        }
    }
}

/// The entry of the page that starts entry `f` is `f`.
proof fn lemma_entry_of_page(start: u64, f: int)
    requires
        f >= 0,
        page_at(start, f, 0) <= u64::MAX,
    ensures
        entry_of(start, page_at(start, f, 0) as u64) == f,
{
    assert((f * 0x40000) / 0x40000 == f) by (nonlinear_arith)
        requires
            f >= 0,
    ;
}

/// Freeing a run of small pages that fills whole entries, just after it was
/// taken, gives back the bitmap it was taken from.
pub proof fn lemma_whole_run_round_trip(s: Seq<u64>, start: u64, end: u64, n: usize)
    requires
        n >= 64,
        n % 64 == 0,
        contiguous_result(s, start, end, PageSize::Kilopage, n).1 is Some,
    ensures
        ({
            let (t, p) = contiguous_result(s, start, end, PageSize::Kilopage, n);
            dealloc_result(t, start, p.unwrap() as u64, PageSize::Kilopage, n) == s
        }),
{
    if n == 64 {
        lemma_first_zero(s, 0);
        let i = first_zero(s, 0);
        let t = s.update(i, u64::MAX);
        let p = page_at(start, i, 0);
        lemma_entry_of_page(start, i);
        assert(t.update(i, 0) =~= s);
    } else {
        let whole = n as int / 64;
        lemma_inter_scan_found(s, start, end, whole, 0);
        let p = inter_scan(s, start, end, whole, 0, 0).1.unwrap();
        let f = choose|f: int|
            #![trigger page_at(start, f, 0)]
            {
                &&& 0 <= f
                &&& f + whole <= s.len()
                &&& whole >= 1
                &&& p == page_at(start, f, 0)
                &&& p < end
                &&& inter_scan(s, start, end, whole, 0, 0).0 == filled(s, f, f + whole, u64::MAX)
                &&& forall|j: int| f <= j < f + whole ==> s[j] == 0
            };
        lemma_entry_of_page(start, f);
        let t = filled(s, f, f + whole, u64::MAX);
        assert(filled(t, f, f + whole, 0) =~= s);
    }
}

/// What `first_window` finds below `64 - n` is a clear window.
proof fn lemma_first_window(e: u64, n: u64, from: u64)
    requires
        n < 64,
    ensures
        first_window(e, n, from) < 64 - n ==> window_clear(e, n, first_window(e, n, from)),
    decreases 64 - n - from,
{
    if from < 64 - n && !window_clear(e, n, from) {
        lemma_first_window(e, n, (from + 1) as u64);
    }
}

/// Clearing a window of `n` bits at `w`, with the mask that
/// `dealloc_contiguous` rotates into place, undoes setting them, when they
/// were clear before.
proof fn lemma_window_bits(e: u64, n: u64, w: u64)
    by (bit_vector)
    requires
        n < 64,
        w < 64 - n,
        (e >> w) | (u64::MAX << n) == u64::MAX << n,
    ensures
        w == 0 ==> (e | ((!(u64::MAX << n)) << w)) & (u64::MAX << n) == e,
        w != 0 ==> (e | ((!(u64::MAX << n)) << w)) & (((u64::MAX << n) << w) | ((u64::MAX << n) >> ((64 - w) as u64)))
            == e,
{
}

/// What a search inside single entries that finds room hands out: the
/// first clear window of one entry at or after `index`, now set, with its
/// first page, which lies below the end of memory.
pub proof fn lemma_intra_scan_found(s: Seq<u64>, start: u64, end: u64, n: u64, index: int)
    requires
        0 <= index,
        n < 64,
    ensures
        intra_scan(s, start, end, n, index).1 matches Some(p) ==> exists|k: int|
            #![trigger s[k]]
            {
                &&& index <= k < s.len()
                &&& first_window(s[k], n, 0) < 64 - n
                &&& window_clear(s[k], n, first_window(s[k], n, 0))
                &&& p == page_at(start, k, first_window(s[k], n, 0) as int)
                &&& p < end
                &&& p >= page_at(start, index, 0)
                &&& intra_scan(s, start, end, n, index).0 == s.update(
                    k,
                    s[k] | ((!(u64::MAX << n)) << first_window(s[k], n, 0)),
                )
            },
    decreases s.len() - index,
{
    if index >= s.len() || n >= 64 {
    } else {
        let e = s[index];
        let w = first_window(e, n, 0);
        lemma_first_window(e, n, 0);
        if w < 64 - n {
            let s2 = s.update(index, e | ((!(u64::MAX << n)) << w));
            let p = page_at(start, index, w as int);
            if p < end {
                assert(s[index] == e);
            } else {
                lemma_intra_scan_found(s2, start, end, n, index + 1);
                if intra_scan(s2, start, end, n, index + 1).1 is Some {
                    assert(w * 0x1000 < 0x40000);
                }
            }
        } else {
            lemma_intra_scan_found(s, start, end, n, index + 1);
        }
    }
}

/// The bits of a clear window of `n` bits at `w` are all clear; setting
/// the window sets exactly them.
proof fn lemma_window_clear_bits(e: u64, n: u64, w: u64)
    by (bit_vector)
    requires
        n < 64,
        w < 64 - n,
        (e >> w) | (u64::MAX << n) == u64::MAX << n,
    ensures
        forall|b: u64| w <= b < w + n ==> #[trigger] ((e >> b) & 1) != 1,
        forall|b: u64| w <= b < w + n ==> #[trigger] (((e | ((!(u64::MAX << n)) << w)) >> b) & 1) == 1,
        forall|b: u64|
            b < 64 && !(w <= b < w + n) ==> #[trigger] (((e | ((!(u64::MAX << n)) << w)) >> b) & 1) == ((e >> b)
                & 1),
{
}

/// A run of `n` small pages, fewer than 64, is handed out only over `n`
/// bits in a row of one entry `k`, from bit `w` on, that were all clear:
/// the page is the one of bit `w` of entry `k`, below the end of memory;
/// those bits become set; every other bit of that entry and every other
/// entry keeps its value.
pub proof fn lemma_small_run_was_free(s: Seq<u64>, start: u64, end: u64, n: u64) -> (kw: (int, u64))
    requires
        1 <= n < 64,
    ensures
        contiguous_result(s, start, end, PageSize::Kilopage, n as usize).1 matches Some(p) ==> {
            let k = kw.0;
            let w = kw.1;
            let s2 = contiguous_result(s, start, end, PageSize::Kilopage, n as usize).0;
            &&& 0 <= k < s.len()
            &&& w + n <= 64
            &&& p == start + k * 0x40000 + w * 0x1000
            &&& p < end
            &&& forall|b: u64| w <= b < w + n ==> !bit_set(s[k], b) && bit_set(s2[k], b)
            &&& forall|b: u64| b < 64 && !(w <= b < w + n) ==> bit_set(s2[k], b) == bit_set(s[k], b)
            &&& s2.len() == s.len()
            &&& forall|j: int| 0 <= j < s.len() && j != k ==> s2[j] == s[j]
        },
{
    assert(contiguous_result(s, start, end, PageSize::Kilopage, n as usize) == intra_scan(s, start, end, n, 0));
    lemma_intra_scan_found(s, start, end, n, 0);
    if let Some(p) = intra_scan(s, start, end, n, 0).1 {
        let k = choose|k: int|
            #![trigger s[k]]
            {
                &&& 0 <= k < s.len()
                &&& first_window(s[k], n, 0) < 64 - n
                &&& window_clear(s[k], n, first_window(s[k], n, 0))
                &&& p == page_at(start, k, first_window(s[k], n, 0) as int)
                &&& p < end
                &&& p >= page_at(start, 0, 0)
                &&& intra_scan(s, start, end, n, 0).0 == s.update(
                    k,
                    s[k] | ((!(u64::MAX << n)) << first_window(s[k], n, 0)),
                )
            };
        let w = first_window(s[k], n, 0);
        lemma_window_clear_bits(s[k], n, w);
        (k, w)
    } else {
        (0, 0)
    }
}

/// A run of more than 64 small pages is handed out only over whole
/// entries, from entry `f` on, that were all zero: the page is the one of
/// entry `f`, below the end of memory; those entries become full; and no
/// entry but them and the one just after them changes.
pub proof fn lemma_large_run_was_free(s: Seq<u64>, start: u64, end: u64, whole: int, last: int, from: int) -> (f: int)
    ensures
        inter_scan(s, start, end, whole, last, from).1 is None ==> inter_scan(s, start, end, whole, last, from).0 == s,
        inter_scan(s, start, end, whole, last, from).1 matches Some(p) ==> {
            let s2 = inter_scan(s, start, end, whole, last, from).0;
            &&& whole >= 1
            &&& from <= f
            &&& f + whole <= s.len()
            &&& p == start + f * 0x40000
            &&& p < end
            &&& forall|j: int| f <= j < f + whole ==> s[j] == 0
            &&& s2.len() == s.len()
            &&& forall|j: int| f <= j < f + whole ==> s2[j] == u64::MAX
            &&& forall|j: int| 0 <= j < s.len() && !(f <= j <= f + whole) ==> s2[j] == s[j]
            &&& last == 0 ==> s2[f + whole] == s[f + whole] || f + whole == s.len()
        },
    decreases s.len() + 1 - from,
{
    if whole < 1 || from < 0 || from + whole > s.len() {
        from
    } else if exists|j: int| from <= j < from + whole && s[j] != 0 {
        lemma_large_run_was_free(s, start, end, whole, last, from + whole)
    } else if last != 0 && from + whole >= s.len() {
        from
    } else if last != 0 && u64_leading_zeros(s[from + whole]) < last {
        lemma_large_run_was_free(s, start, end, whole, last, from + whole + 1)
    } else {
        from
    }
}

/// Freeing a run of fewer than 64 small pages, just after it was taken,
/// gives back the bitmap it was taken from.
pub proof fn lemma_window_round_trip(s: Seq<u64>, start: u64, end: u64, n: usize)
    requires
        1 <= n < 64,
        contiguous_result(s, start, end, PageSize::Kilopage, n).1 is Some,
    ensures
        ({
            let (t, p) = contiguous_result(s, start, end, PageSize::Kilopage, n);
            dealloc_result(t, start, p.unwrap() as u64, PageSize::Kilopage, n) == s
        }),
{
    let nn = n as u64;
    lemma_intra_scan_found(s, start, end, nn, 0);
    let p = intra_scan(s, start, end, nn, 0).1.unwrap();
    let k = choose|k: int|
        #![trigger s[k]]
        {
            &&& 0 <= k < s.len()
            &&& first_window(s[k], nn, 0) < 64 - nn
            &&& window_clear(s[k], nn, first_window(s[k], nn, 0))
            &&& p == page_at(start, k, first_window(s[k], nn, 0) as int)
            &&& p < end
            &&& p >= page_at(start, 0, 0)
            &&& intra_scan(s, start, end, nn, 0).0 == s.update(
                k,
                s[k] | ((!(u64::MAX << nn)) << first_window(s[k], nn, 0)),
            )
        };
    let w = first_window(s[k], nn, 0);
    let e = s[k];
    let pa = p as u64;
    assert(entry_of(start, pa) == k && bit_of(start, pa) == w) by (nonlinear_arith)
        requires
            pa == start + k * 0x40000 + w * 0x1000,
            0 <= k,
            w < 64,
    ;
    lemma_window_bits(e, nn, w);
    let t = s.update(k, e | ((!(u64::MAX << nn)) << w));
    assert(t.update(k, t[k] & rotated(u64::MAX << nn, w)) =~= s);
}

/// The bit that `allocate` sets for a small page was clear in a word that
/// was not full.
proof fn lemma_trailing_bit(x: u64, b: u64)
    by (bit_vector)
    requires
        ((!x) >> b) & 1u64 == 1u64,
        b < 64,
    ensures
        !bit_set(x, b),
        bit_set(x | (1u64 << b), b),
{
}

/// `allocate` of a small page hands out a page that was free: its bit was
/// clear and is now set, and no other bit changes.
pub proof fn lemma_allocate_takes_free_page(s: Seq<u64>, start: u64, end: u64)
    requires
        s.len() > 0,
    ensures
        alloc_step(s, start, end, PageSize::Kilopage).1 matches Some(p) ==> {
            let i = entry_of(start, p as u64);
            let b = bit_of(start, p as u64);
            &&& 0 <= i < s.len()
            &&& start <= p <= end
            &&& p % 0x1000 == start % 0x1000
            &&& !bit_set(s[i], b)
            &&& alloc_step(s, start, end, PageSize::Kilopage).0 == s.update(i, s[i] | (1u64 << b))
            &&& bit_set(alloc_step(s, start, end, PageSize::Kilopage).0[i], b)
        },
{
    lemma_first_not_full(s, 0);
    let i = first_not_full(s, 0);
    if i < s.len() {
        let x = s[i];
        vstd::std_specs::bits::axiom_u64_trailing_zeros(!x);
        assert(x != u64::MAX ==> !x != 0) by (bit_vector);
        let b = u64_trailing_ones(x) as u64;
        let p = page_at(start, i, b as int);
        if p <= end {
            lemma_trailing_bit(x, b);
            let pa = p as u64;
            assert(entry_of(start, pa) == i && bit_of(start, pa) == b && pa % 0x1000 == start % 0x1000) by (nonlinear_arith)
                requires
                    pa == start + i * 0x40000 + b * 0x1000,
                    0 <= i,
                    b < 64,
            ;
        }
    }
}

} // verus!
