//! Regions of memory that back parts of an address space.
use vstd::prelude::*;
use std::sync::Arc;
use crate::paging::entry::{PageSize, PhysicalAddress};
use crate::phys::{
    bit_of, bit_set, dealloc_result, entry_of, filled, BitmapAllocator, PhysicalPage, contiguous_result, huge_fits,
    sparse_ok, sparse_run,
};

verus! {

/// What a region of an address space holds.
#[derive(Debug, PartialEq)]
pub enum MemoryRegion {
    Backed(PhysicalRegion),
    Lazy { page_size: PageSize, n_pages: usize },
    GuardPage,
}

/// Physical memory that backs a region, owned by one task or shared.
#[derive(Debug, PartialEq)]
pub enum PhysicalRegion {
    Shared(SharedPhysicalRegion),
    Unique(UniquePhysicalRegion),
}

/// How the pages of a physical region lie.
#[derive(Debug, PartialEq)]
pub enum PhysicalRegionKind {
    Contiguous(PhysicalPage),
    Mmio(PhysicalPage),
    Sparse(Vec<PhysicalPage>),
}

/// Physical memory owned by one region.
#[derive(Debug, PartialEq)]
pub struct UniquePhysicalRegion {
    kind: PhysicalRegionKind,
    page_size: PageSize,
    n_pages: usize,
}

/// Physical memory that several regions share.
#[derive(Debug, PartialEq)]
pub struct SharedPhysicalRegion {
    region: Arc<UniquePhysicalRegion>,
}

/// `Arc::clone`: a new handle to the same value.
#[verifier::external_body]
fn arc_clone<T>(a: &Arc<T>) -> (r: Arc<T>)
    ensures
        r == *a,
{
    Arc::clone(a)
}

impl Clone for SharedPhysicalRegion {
    /// Another handle to the same shared region.
    fn clone(&self) -> (r: Self)
        ensures
            r == *self,
    {
        SharedPhysicalRegion { region: arc_clone(&self.region) }
    }
}

/// The addresses of `n` pages of `size` bytes from `start` on.
pub open spec fn run_addresses(start: u64, size: u64, n: int) -> Seq<u64> {
    Seq::new(n as nat, |i: int| (start + i * size) as u64)
}

/// The bitmap and the page addresses after taking the backing of `n`
/// pages of `size` from the allocator: one run when `contiguous` or for a
/// single page, else one page at a time.
pub open spec fn backing_result(
    s: Seq<u64>,
    start: u64,
    end: u64,
    size: PageSize,
    n: usize,
    contiguous: bool,
) -> (Seq<u64>, Seq<u64>) {
    if contiguous || n == 1 {
        let (s2, p) = contiguous_result(s, start, end, size, n);
        (s2, run_addresses(p.unwrap() as u64, size.bytes(), n as int))
    } else {
        let (s2, ps) = sparse_run(s, start, end, size, n as nat);
        (s2, Seq::new(n as nat, |i: int| ps[i] as u64))
    }
}

/// Whether that backing can be taken: each search must find its pages,
/// and a run must end inside the 64-bit space.
pub open spec fn backing_ok(s: Seq<u64>, start: u64, end: u64, size: PageSize, n: usize, contiguous: bool) -> bool {
    if contiguous || n == 1 {
        let p = contiguous_result(s, start, end, size, n).1;
        &&& s.len() + n / 64 + 1 <= usize::MAX
        &&& size != PageSize::Kilopage ==> huge_fits(s.len() as int, start, size, n)
        &&& p.is_some()
        &&& p.unwrap() + n * size.bytes() <= u64::MAX
    } else {
        sparse_ok(s, start, end, size, n as nat)
    }
}

/// Whether `dealloc` of the page of `size` at `addr` can run on the bitmap
/// `s` for memory from `start`: the bitmap holds the page, a small page is
/// marked used, and a large page's 512 entries lie in the bitmap and are
/// full.
pub open spec fn page_release_ok(s: Seq<u64>, start: u64, addr: u64, size: PageSize) -> bool {
    let i = entry_of(start, addr);
    &&& start <= addr
    &&& (addr - start) % 0x1000 == 0
    &&& i < s.len()
    &&& size != PageSize::Gigapage
    &&& size == PageSize::Kilopage ==> bit_set(s[i], bit_of(start, addr))
    &&& size == PageSize::Megapage ==> i + 512 <= s.len() && forall|j: int| i <= j < i + 512 ==> s[j] == u64::MAX
}

/// The bitmap after `dealloc` of the page of `size` at `addr`.
pub open spec fn page_released(s: Seq<u64>, start: u64, addr: u64, size: PageSize) -> Seq<u64> {
    let i = entry_of(start, addr);
    if size == PageSize::Kilopage {
        s.update(i, s[i] & !(1u64 << bit_of(start, addr)))
    } else {
        filled(s, i, i + 512, 0)
    }
}

/// The bitmap after freeing the pages `pages` of `size` one at a time.
pub open spec fn pages_released(s: Seq<u64>, start: u64, pages: Seq<u64>, size: PageSize) -> Seq<u64>
    decreases pages.len(),
{
    if pages.len() == 0 {
        s
    } else {
        pages_released(page_released(s, start, pages[0], size), start, pages.drop_first(), size)
    }
}

/// Whether each of those frees can run on the bitmap as it is by then.
pub open spec fn pages_release_ok(s: Seq<u64>, start: u64, pages: Seq<u64>, size: PageSize) -> bool
    decreases pages.len(),
{
    pages.len() == 0 || {
        &&& page_release_ok(s, start, pages[0], size)
        &&& pages_release_ok(page_released(s, start, pages[0], size), start, pages.drop_first(), size)
    }
}

impl UniquePhysicalRegion {
    /// How the region's pages lie.
    pub closed spec fn kind_of(&self) -> PhysicalRegionKind {
        self.kind
    }

    /// The size of the region's pages.
    pub closed spec fn size_of(&self) -> PageSize {
        self.page_size
    }

    /// The number of pages of the region.
    pub closed spec fn count(&self) -> usize {
        self.n_pages
    }

    /// The addresses of the region's pages: a run from the first page for a
    /// contiguous or device region, the listed pages for a sparse one.
    pub open spec fn addresses(&self) -> Seq<u64> {
        match self.kind_of() {
            PhysicalRegionKind::Contiguous(p) => run_addresses(p.addr(), self.size_of().bytes(), self.count() as int),
            PhysicalRegionKind::Mmio(p) => run_addresses(p.addr(), self.size_of().bytes(), self.count() as int),
            PhysicalRegionKind::Sparse(pages) => Seq::new(pages@.len(), |i: int| pages@[i].addr()),
        }
    }

    /// Whether every address of a run fits in 64 bits.
    pub open spec fn fits(&self) -> bool {
        match self.kind_of() {
            PhysicalRegionKind::Contiguous(p) => p.addr() + self.count() * self.size_of().bytes() <= u64::MAX,
            PhysicalRegionKind::Mmio(p) => p.addr() + self.count() * self.size_of().bytes() <= u64::MAX,
            PhysicalRegionKind::Sparse(_) => true,
        }
    }

    /// A region over the device memory at `at`, which must be page-aligned,
    /// taken without the frame allocator.
    pub fn mmio(at: PhysicalAddress, page_size: PageSize, n_pages: usize) -> (r: Self)
        requires
            at.value() % 0x1000 == 0,
        ensures
            r.kind_of() is Mmio,
            r.kind_of()->Mmio_0.addr() == at.value(),
            r.size_of() == page_size,
            r.count() == n_pages,
    {
        UniquePhysicalRegion {
            kind: PhysicalRegionKind::Mmio(PhysicalPage::from_ptr(at.as_usize())),
            page_size,
            n_pages,
        }
    }

    /// A region of `n_pages` contiguous pages taken from the allocator, whose
    /// search must succeed.
    pub fn alloc_contiguous(allocator: &mut BitmapAllocator, page_size: PageSize, n_pages: usize) -> (r: Self)
        requires
            old(allocator).wf(),
            old(allocator)@.len() + n_pages / 64 + 1 <= usize::MAX,
            page_size != PageSize::Kilopage ==> old(allocator).huge_ready(page_size, n_pages),
            contiguous_result(old(allocator)@, old(allocator).start(), old(allocator).end(), page_size, n_pages).1.is_some(),
        ensures
            final(allocator).wf(),
            final(allocator).start() == old(allocator).start(),
            final(allocator).end() == old(allocator).end(),
            final(allocator)@ == contiguous_result(old(allocator)@, old(allocator).start(), old(allocator).end(), page_size, n_pages).0,
            r.kind_of() is Contiguous,
            r.kind_of()->Contiguous_0.addr() == contiguous_result(old(allocator)@, old(allocator).start(), old(allocator).end(), page_size, n_pages).1.unwrap(),
            r.size_of() == page_size,
            r.count() == n_pages,
    {
        let page = match allocator.alloc_contiguous(page_size, n_pages) {
            Some(p) => p,
            None => {
                proof {
                    assert(false);
                }
                PhysicalPage::from_ptr(0)
            },
        };
        UniquePhysicalRegion { kind: PhysicalRegionKind::Contiguous(page), page_size, n_pages }
    }

    /// A region of `n_pages` pages taken one at a time from the allocator,
    /// each of whose calls must hand out a page; a single page is taken as a
    /// contiguous region.
    pub fn alloc_sparse(allocator: &mut BitmapAllocator, page_size: PageSize, n_pages: usize) -> (r: Self)
        requires
            old(allocator).wf(),
            n_pages == 1 ==> {
                &&& old(allocator)@.len() + 1 <= usize::MAX
                &&& page_size != PageSize::Kilopage ==> old(allocator).huge_ready(page_size, 1)
                &&& contiguous_result(old(allocator)@, old(allocator).start(), old(allocator).end(), page_size, 1).1.is_some()
            },
            n_pages != 1 ==> sparse_ok(
                old(allocator)@,
                old(allocator).start(),
                old(allocator).end(),
                page_size,
                n_pages as nat,
            ),
        ensures
            final(allocator).wf(),
            final(allocator).start() == old(allocator).start(),
            final(allocator).end() == old(allocator).end(),
            r.size_of() == page_size,
            r.count() == n_pages,
            n_pages == 1 ==> {
                let (s, p) = contiguous_result(old(allocator)@, old(allocator).start(), old(allocator).end(), page_size, 1);
                &&& final(allocator)@ == s
                &&& r.kind_of() is Contiguous
                &&& r.kind_of()->Contiguous_0.addr() == p.unwrap()
            },
            n_pages != 1 ==> {
                let (s, ps) = sparse_run(old(allocator)@, old(allocator).start(), old(allocator).end(), page_size, n_pages as nat);
                &&& final(allocator)@ == s
                &&& r.kind_of() is Sparse
                &&& r.kind_of()->Sparse_0@.len() == n_pages
                &&& forall|i: int| 0 <= i < n_pages ==> #[trigger] r.kind_of()->Sparse_0@[i].addr() == ps[i]
            },
    {
        if n_pages == 1 {
            return Self::alloc_contiguous(allocator, page_size, 1);
        }
        let ghost start = allocator.start();
        let ghost end = allocator.end();
        let ghost whole = sparse_run(allocator@, start, end, page_size, n_pages as nat);
        proof {
            crate::phys::lemma_sparse_run_len(allocator@, start, end, page_size, n_pages as nat);
            assert(whole.1.skip(0) =~= whole.1);
        }
        let mut pages: Vec<PhysicalPage> = Vec::new();
        let mut i: usize = 0;
        while i < n_pages
            invariant
                allocator.wf(),
                allocator.start() == start,
                allocator.end() == end,
                i <= n_pages,
                sparse_ok(allocator@, start, end, page_size, (n_pages - i) as nat),
                sparse_run(allocator@, start, end, page_size, (n_pages - i) as nat).0 == whole.0,
                sparse_run(allocator@, start, end, page_size, (n_pages - i) as nat).1 == whole.1.skip(i as int),
                whole.1.len() == n_pages,
                pages@.len() == i,
                forall|j: int| 0 <= j < i ==> #[trigger] pages@[j].addr() == whole.1[j],
            decreases n_pages - i,
        {
            let ghost before = allocator@;
            let ghost step = crate::phys::alloc_step(before, start, end, page_size);
            let ghost rest = sparse_run(step.0, start, end, page_size, (n_pages - i - 1) as nat);
            let page = match allocator.allocate(page_size) {
                Some(p) => p,
                None => {
                    proof {
                        assert(false);
                    }
                    return UniquePhysicalRegion { kind: PhysicalRegionKind::Sparse(pages), page_size, n_pages };
                },
            };
            proof {
                assert(allocator@ == step.0);
                assert(page.addr() == step.1.unwrap());
                assert(whole.1.skip(i as int) =~= seq![step.1.unwrap()] + rest.1);
                assert(whole.1.skip(i + 1) =~= whole.1.skip(i as int).drop_first());
                assert((seq![step.1.unwrap()] + rest.1).drop_first() =~= rest.1);
                assert(whole.1[i as int] == whole.1.skip(i as int)[0]);
            }
            pages.push(page);
            i = i + 1;
        }
        UniquePhysicalRegion { kind: PhysicalRegionKind::Sparse(pages), page_size, n_pages }
    }

    /// Takes the backing of a new region from the allocator: one run when
    /// `contiguous`, else one page at a time.
    pub(crate) fn take_backing(allocator: &mut BitmapAllocator, page_size: PageSize, n_pages: usize, contiguous: bool) -> (r: Self)
        requires
            old(allocator).wf(),
            backing_ok(old(allocator)@, old(allocator).start(), old(allocator).end(), page_size, n_pages, contiguous),
        ensures
            final(allocator).wf(),
            final(allocator).start() == old(allocator).start(),
            final(allocator).end() == old(allocator).end(),
            final(allocator)@ == backing_result(old(allocator)@, old(allocator).start(), old(allocator).end(), page_size, n_pages, contiguous).0,
            r.addresses() == backing_result(old(allocator)@, old(allocator).start(), old(allocator).end(), page_size, n_pages, contiguous).1,
            r.fits(),
            r.size_of() == page_size,
            r.count() == n_pages,
            contiguous || n_pages == 1 ==> r.kind_of() is Contiguous,
            !(contiguous || n_pages == 1) ==> r.kind_of() is Sparse,
    {
        let ghost s = allocator@;
        let ghost start = allocator.start();
        let ghost end = allocator.end();
        if contiguous {
            let r = Self::alloc_contiguous(allocator, page_size, n_pages);
            proof {
                assert(r.addresses() =~= backing_result(s, start, end, page_size, n_pages, contiguous).1);
            }
            r
        } else {
            let r = Self::alloc_sparse(allocator, page_size, n_pages);
            proof {
                if n_pages != 1 {
                    crate::phys::lemma_sparse_run_len(s, start, end, page_size, n_pages as nat);
                    assert(r.addresses() =~= backing_result(s, start, end, page_size, n_pages, contiguous).1);
                } else {
                    assert(r.addresses() =~= backing_result(s, start, end, page_size, n_pages, contiguous).1);
                }
            }
            r
        }
    }

    /// Whether giving the region's frames back can run on an allocator with
    /// bitmap `s` for memory from `start`.
    pub open spec fn release_ok(&self, s: Seq<u64>, start: u64) -> bool {
        match self.kind_of() {
            PhysicalRegionKind::Contiguous(p) => {
                &&& start <= p.addr()
                &&& (p.addr() - start) % 0x1000 == 0
                &&& entry_of(start, p.addr()) < s.len()
                &&& BitmapAllocator::dealloc_fits(s, start, p.addr(), self.size_of(), self.count())
            },
            PhysicalRegionKind::Sparse(pages) => pages_release_ok(s, start, self.addresses(), self.size_of()),
            PhysicalRegionKind::Mmio(_) => true,
        }
    }

    /// The bitmap after giving the region's frames back.
    pub open spec fn released(&self, s: Seq<u64>, start: u64) -> Seq<u64> {
        match self.kind_of() {
            PhysicalRegionKind::Contiguous(p) => dealloc_result(s, start, p.addr(), self.size_of(), self.count()),
            PhysicalRegionKind::Sparse(_) => pages_released(s, start, self.addresses(), self.size_of()),
            PhysicalRegionKind::Mmio(_) => s,
        }
    }

    /// Gives the region's frames back to the allocator, as dropping it
    /// does: a contiguous run at once, a sparse region page by page, and
    /// device memory not at all.
    pub fn release(self, allocator: &mut BitmapAllocator)
        requires
            old(allocator).wf(),
            self.release_ok(old(allocator)@, old(allocator).start()),
        ensures
            final(allocator).wf(),
            final(allocator).start() == old(allocator).start(),
            final(allocator).end() == old(allocator).end(),
            final(allocator)@ == self.released(old(allocator)@, old(allocator).start()),
    {
        match self.kind {
            PhysicalRegionKind::Contiguous(start) => {
                allocator.dealloc_contiguous(start, self.page_size, self.n_pages);
            },
            PhysicalRegionKind::Sparse(pages) => {
                let ghost addrs = self.addresses();
                let ghost begin = allocator.start();
                let ghost whole = pages_released(allocator@, begin, addrs, self.page_size);
                proof {
                    assert(addrs.skip(0) =~= addrs);
                }
                let mut i: usize = 0;
                while i < pages.len()
                    invariant
                        allocator.wf(),
                        allocator.start() == begin,
                        allocator.end() == old(allocator).end(),
                        i <= pages@.len(),
                        addrs.len() == pages@.len(),
                        forall|j: int| 0 <= j < pages@.len() ==> addrs[j] == pages@[j].addr(),
                        pages_release_ok(allocator@, begin, addrs.skip(i as int), self.page_size),
                        pages_released(allocator@, begin, addrs.skip(i as int), self.page_size) == whole,
                    decreases pages@.len() - i,
                {
                    let ghost rest = addrs.skip(i as int);
                    proof {
                        assert(rest[0] == pages@[i as int].addr());
                        assert(rest.drop_first() =~= addrs.skip(i + 1));
                    }
                    allocator.dealloc(pages[i], self.page_size);
                    i = i + 1;
                }
                proof {
                    assert(addrs.skip(pages@.len() as int).len() == 0);
                }
            },
            PhysicalRegionKind::Mmio(_) => {},
        }
    }

    /// The addresses of the region's pages in order.
    pub fn physical_addresses(&self) -> (r: Vec<PhysicalAddress>)
        requires
            self.fits(),
        ensures
            r@.len() == self.addresses().len(),
            forall|i: int| 0 <= i < r@.len() ==> #[trigger] r@[i].value() == self.addresses()[i],
    {
        let mut out: Vec<PhysicalAddress> = Vec::new();
        match &self.kind {
            PhysicalRegionKind::Contiguous(start) | PhysicalRegionKind::Mmio(start) => {
                let base = start.as_phys_address();
                let size = self.page_size.to_byte_size();
                let mut i: usize = 0;
                while i < self.n_pages
                    invariant
                        self.fits(),
                        i <= self.n_pages,
                        base.value() == start.addr(),
                        size == self.page_size.bytes(),
                        base.value() + self.n_pages * size <= u64::MAX,
                        out@.len() == i,
                        forall|j: int| 0 <= j < i ==> #[trigger] out@[j].value() == base.value() + j * size,
                    decreases self.n_pages - i,
                {
                    proof {
                        assert(i * size <= self.n_pages * size) by (nonlinear_arith)
                            requires
                                i <= self.n_pages,
                        ;
                    }
                    out.push(base.offset((i as u64) * size));
                    i = i + 1;
                }
            },
            PhysicalRegionKind::Sparse(pages) => {
                let mut i: usize = 0;
                while i < pages.len()
                    invariant
                        i <= pages@.len(),
                        out@.len() == i,
                        forall|j: int| 0 <= j < i ==> #[trigger] out@[j].value() == pages@[j].addr(),
                    decreases pages@.len() - i,
                {
                    out.push(pages[i].as_phys_address());
                    i = i + 1;
                }
            },
        }
        out
    }

    /// Puts the region behind a shared handle.
    pub fn into_shared_region(self) -> (r: SharedPhysicalRegion)
        ensures
            r.inner() == self,
    {
        SharedPhysicalRegion { region: Arc::new(self) }
    }

    /// The size of the region's pages.
    pub fn page_size(&self) -> (r: PageSize)
        ensures
            r == self.size_of(),
    {
        self.page_size
    }

    /// The number of pages of the region.
    pub fn n_pages(&self) -> (r: usize)
        ensures
            r == self.count(),
    {
        self.n_pages
    }
}

impl SharedPhysicalRegion {
    /// The shared region.
    pub closed spec fn inner(&self) -> UniquePhysicalRegion {
        *self.region
    }

    /// The shared region.
    pub fn deref(&self) -> (r: &UniquePhysicalRegion)
        ensures
            *r == self.inner(),
    {
        &self.region
    }
}

impl PhysicalRegion {
    /// The region's pages as one unique region.
    pub open spec fn unique(&self) -> UniquePhysicalRegion {
        match self {
            PhysicalRegion::Shared(shared) => shared.inner(),
            PhysicalRegion::Unique(unique) => *unique,
        }
    }

    /// Returns the number of pages contained within the region.
    pub fn page_count(&self) -> (r: usize)
        ensures
            r == self.unique().count(),
    {
        match self {
            PhysicalRegion::Shared(shared) => shared.deref().n_pages(),
            PhysicalRegion::Unique(unique) => unique.n_pages(),
        }
    }

    /// The addresses of the region's pages in order.
    pub fn physical_addresses(&self) -> (r: Vec<PhysicalAddress>)
        requires
            self.unique().fits(),
        ensures
            r@.len() == self.unique().addresses().len(),
            forall|i: int| 0 <= i < r@.len() ==> #[trigger] r@[i].value() == self.unique().addresses()[i],
    {
        match self {
            PhysicalRegion::Shared(shared) => shared.deref().physical_addresses(),
            PhysicalRegion::Unique(unique) => unique.physical_addresses(),
        }
    }

    /// The size of the region's pages.
    pub fn page_size(&self) -> (r: PageSize)
        ensures
            r == self.unique().size_of(),
    {
        match self {
            PhysicalRegion::Shared(shared) => shared.deref().page_size(),
            PhysicalRegion::Unique(unique) => unique.page_size(),
        }
    }
}

impl MemoryRegion {
    /// The size of the region's pages: a guard is one small page.
    pub open spec fn size_of(&self) -> PageSize {
        match self {
            MemoryRegion::GuardPage => PageSize::Kilopage,
            MemoryRegion::Lazy { page_size, .. } => *page_size,
            MemoryRegion::Backed(backing) => backing.unique().size_of(),
        }
    }

    /// The number of the region's pages: a guard is one page.
    pub open spec fn count(&self) -> usize {
        match self {
            MemoryRegion::GuardPage => 1,
            MemoryRegion::Lazy { n_pages, .. } => *n_pages,
            MemoryRegion::Backed(backing) => backing.unique().count(),
        }
    }

    /// The size of the region's pages.
    pub fn page_size(&self) -> (r: PageSize)
        ensures
            r == self.size_of(),
    {
        match self {
            MemoryRegion::GuardPage => PageSize::Kilopage,
            MemoryRegion::Lazy { page_size, .. } => *page_size,
            MemoryRegion::Backed(backing) => backing.page_size(),
        }
    }

    /// The number of the region's pages.
    pub fn page_count(&self) -> (r: usize)
        ensures
            r == self.count(),
    {
        match self {
            MemoryRegion::GuardPage => 1,
            MemoryRegion::Lazy { n_pages, .. } => *n_pages,
            MemoryRegion::Backed(backing) => backing.page_count(),
        }
    }
}

} // verus!
