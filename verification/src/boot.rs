//! The first steps of boot, before paging is on: the memory the kernel
//! lives in goes to the frame allocator, the pages of the device tree are
//! kept from it, and the first page table maps the kernel's sections where
//! the kernel runs and all of physical memory at the physical offset.
use vstd::prelude::*;
use core::ops::Range;
use crate::fdt::MemoryRegion;
use crate::paging::entry::{sign_extend, PageSize, PhysicalAddress, VirtualAddress};
use crate::paging::flags::Flags;
use crate::paging::table::{maps_to, pair_values, pairs_ok, pairs_spec, zero_table, PageTable};
use crate::phys::{bit_of, entry_of, marked_prefix, BitmapAllocator, PhysicalPage};
use crate::mem::kernel_section_p2v;
use crate::paging::table::{leaf_byte, makes_leaf};
use crate::cpu::{Satp, SatpMode};

verus! {

/// Where the loader put the kernel: the physical extents of its image and
/// sections, the address it was loaded at, and the address it runs at.
pub struct KernelLayout {
    pub kernel_start: u64,
    pub kernel_end: u64,
    pub bss: Range<u64>,
    pub data: Range<u64>,
    pub tmp_stack: Range<u64>,
    pub text: Range<u64>,
    pub load_location: u64,
    pub page_offset: u64,
}

/// Bytes in one gigapage.
pub const GIB: u64 = 0x4000_0000;

/// The number of gigapages of physical memory the first table maps.
pub const PHYSICAL_GIGAPAGES: u64 = 64;

/// Whether the memory region `r` holds the kernel image `[start, end)`.
pub open spec fn holds_kernel(r: MemoryRegion, start: u64, end: u64) -> bool {
    r.starting_address.value() <= start && end <= r.starting_address.value() + r.size.value()
}

/// The index of the first region from `from` on that holds the kernel.
pub open spec fn first_holding_kernel(regions: Seq<MemoryRegion>, start: u64, end: u64, from: int) -> Option<int>
    decreases regions.len() - from,
{
    if from < 0 || from >= regions.len() {
        None
    } else if holds_kernel(regions[from], start, end) {
        Some(from)
    } else {
        first_holding_kernel(regions, start, end, from + 1)
    }
}

/// The pages of 4 KiB from `start` on that begin below `end`, each beside
/// the address the kernel sees it at.
pub open spec fn section_pairs(start: u64, end: u64, load: u64, offset: u64) -> Seq<(PhysicalAddress, u64)>
    decreases end + 0x1000 - start,
{
    if start >= end || start + 0x1000 > u64::MAX {
        Seq::empty()
    } else {
        proof {
            assert((start + 0x1000) as u64 == start + 0x1000);
        }
        seq![(PhysicalAddress::at(start), sign_extend((start - load + offset) as u64))] + section_pairs(
            (start + 0x1000) as u64,
            end,
            load,
            offset,
        )
    }
}

/// The gigapages of physical memory, each beside its address at the
/// physical offset `phys_offset`.
pub open spec fn gigapage_pairs(phys_offset: u64) -> Seq<(PhysicalAddress, u64)> {
    Seq::new(
        PHYSICAL_GIGAPAGES as nat,
        |i: int| (PhysicalAddress::at((i * GIB) as u64), sign_extend((phys_offset + i * GIB) as u64)),
    )
}

/// The flags of the kernel's data: dirty, accessed, readable, writable.
pub open spec fn data_flags() -> Flags {
    Flags::from_bits(0xC7)
}

/// The flags of the kernel's code: accessed, executable.
pub open spec fn text_flags() -> Flags {
    Flags::from_bits(0x49)
}

/// The maps of the first page table in order: each list of pages with
/// the flags and the page size it is mapped with.
pub open spec fn boot_maps(l: KernelLayout, phys_offset: u64) -> Seq<(Seq<(PhysicalAddress, u64)>, Flags, PageSize)> {
    let lo = l.load_location;
    let off = l.page_offset;
    seq![
        (section_pairs(l.bss.start, l.bss.end, lo, off), data_flags(), PageSize::Kilopage),
        (section_pairs(l.data.start, l.data.end, lo, off), data_flags(), PageSize::Kilopage),
        (section_pairs(l.tmp_stack.start, l.tmp_stack.end, lo, off), data_flags(), PageSize::Kilopage),
        (section_pairs(l.text.start, l.text.end, lo, off), text_flags(), PageSize::Kilopage),
        (gigapage_pairs(phys_offset), data_flags(), PageSize::Gigapage),
    ]
}

/// The entries after the first `k` maps of `boot_maps`.
pub open spec fn boot_table_after(l: KernelLayout, phys_offset: u64, k: int) -> Seq<crate::paging::entry::PageTableEntry>
    decreases k,
{
    if k <= 0 {
        zero_table()
    } else {
        let m = boot_maps(l, phys_offset)[k - 1];
        pairs_spec(boot_table_after(l, phys_offset, k - 1), m.0, m.2, m.1, None)
    }
}

/// Whether the entries `s` map every page of every list of `boot_maps` to
/// its frame, with the page size of its list.
pub open spec fn boot_mapped(s: Seq<crate::paging::entry::PageTableEntry>, l: KernelLayout, phys_offset: u64) -> bool {
    forall|k: int, i: int|
        0 <= k < 5 && 0 <= i < boot_maps(l, phys_offset)[k].0.len() ==> #[trigger] maps_to(
            s,
            boot_maps(l, phys_offset)[k].0[i].1,
            boot_maps(l, phys_offset)[k].2,
            boot_maps(l, phys_offset)[k].0[i].0,
        )
}

/// Whether each map of the first page table can be made: every section
/// lies at or above the load address, and each list of pages can be
/// mapped on the table as it is by then.
pub open spec fn boot_ok(l: KernelLayout, phys_offset: u64) -> bool {
    &&& l.load_location != 0
    &&& phys_offset + 63 * GIB <= u64::MAX
    &&& forall|k: int|
        0 <= k < 4 ==> {
            let r = #[trigger] section_range(l, k);
            &&& r.start >= l.load_location
            &&& r.end + 0x1000 <= u64::MAX
            &&& r.end - l.load_location + l.page_offset <= u64::MAX
        }
    &&& forall|k: int|
        0 <= k < 5 ==> #[trigger] pairs_ok(
            boot_table_after(l, phys_offset, k),
            boot_maps(l, phys_offset)[k].0,
            boot_maps(l, phys_offset)[k].2,
            boot_maps(l, phys_offset)[k].1,
            None,
        )
}

/// The `k`th section of the kernel in the order they are mapped.
pub open spec fn section_range(l: KernelLayout, k: int) -> Range<u64> {
    if k == 0 {
        l.bss
    } else if k == 1 {
        l.data
    } else if k == 2 {
        l.tmp_stack
    } else {
        l.text
    }
}

/// The bitmap after marking `n` pages in use from `first` on.
pub open spec fn marked_run(s: Seq<u64>, start: u64, first: u64, n: nat) -> Seq<u64>
    decreases n,
{
    if n == 0 {
        s
    } else {
        let e = entry_of(start, first);
        marked_run(s.update(e, s[e] | (1u64 << bit_of(start, first))), start, (first + 0x1000) as u64, (n - 1) as nat)
    }
}

/// The number of pages of the device tree that boot keeps from the
/// allocator: its size in pages, plus one.
pub open spec fn fdt_pages(fdt_size: u64) -> nat {
    (fdt_size / 0x1000 + 1) as nat
}

/// The bitmap boot leaves: the allocator over `[kernel_end, mem_end)` with
/// its own pages marked, and the pages of the device tree marked when it
/// lies above the kernel.
pub open spec fn boot_bitmap(kernel_end: u64, mem_end: u64, fdt: u64, fdt_size: u64) -> Seq<u64> {
    let len = (mem_end - kernel_end) / 0x1000 / 64 + 1;
    let s = marked_prefix(len, len / 0x1000 + 1);
    if fdt > kernel_end {
        marked_run(s, kernel_end, fdt, fdt_pages(fdt_size))
    } else {
        s
    }
}

/// The index of the first of the memory regions that holds the kernel
/// image.
pub fn kernel_memory_region(regions: &Vec<MemoryRegion>, layout: &KernelLayout) -> (r: Option<usize>)
    ensures
        match first_holding_kernel(regions@, layout.kernel_start, layout.kernel_end, 0) {
            Some(i) => r == Some(i as usize),
            None => r.is_none(),
        },
{
    let mut i: usize = 0;
    while i < regions.len()
        invariant
            i <= regions@.len(),
            first_holding_kernel(regions@, layout.kernel_start, layout.kernel_end, i as int) == first_holding_kernel(
                regions@,
                layout.kernel_start,
                layout.kernel_end,
                0,
            ),
        decreases regions@.len() - i,
    {
        let start = regions[i].starting_address();
        let size = regions[i].size();
        if start <= layout.kernel_start && (layout.kernel_end <= start || layout.kernel_end - start <= size) {
            return Some(i);
        }
        i = i + 1;
    }
    None
}

/// The pages of the section `[start, end)` beside the addresses the kernel
/// sees them at.
fn section_pages(start: u64, end: u64, load: u64, offset: u64) -> (r: Vec<(PhysicalAddress, VirtualAddress)>)
    requires
        load != 0,
        start >= load,
        end + 0x1000 <= u64::MAX,
        end - load + offset <= u64::MAX,
    ensures
        pair_values(r@) == section_pairs(start, end, load, offset),
{
    let mut out: Vec<(PhysicalAddress, VirtualAddress)> = Vec::new();
    let mut p = start;
    proof {
        assert(pair_values(out@) + section_pairs(p, end, load, offset) =~= section_pairs(start, end, load, offset));
    }
    while p < end
        invariant
            load != 0,
            start <= p,
            p >= load,
            end + 0x1000 <= u64::MAX,
            end - load + offset <= u64::MAX,
            pair_values(out@) + section_pairs(p, end, load, offset) == section_pairs(start, end, load, offset),
        decreases end + 0x1000 - p,
    {
        let phys = PhysicalAddress::new(p);
        let virt = kernel_section_p2v(phys, load, offset);
        let ghost before = out@;
        out.push((phys, virt));
        proof {
            PhysicalAddress::lemma_eq_value(phys, PhysicalAddress::at(p));
            PhysicalAddress::lemma_at(p);
            assert(pair_values(out@) =~= pair_values(before).push((PhysicalAddress::at(p), sign_extend((p - load + offset) as u64))));
            assert(section_pairs(p, end, load, offset) == seq![(PhysicalAddress::at(p), sign_extend((p - load + offset) as u64))]
                + section_pairs((p + 0x1000) as u64, end, load, offset));
            assert(pair_values(out@) + section_pairs((p + 0x1000) as u64, end, load, offset) =~= pair_values(before)
                + section_pairs(p, end, load, offset));
        }
        p = p + 0x1000;
    }
    proof {
        assert(section_pairs(p, end, load, offset).len() == 0);
        assert(pair_values(out@) =~= pair_values(out@) + section_pairs(p, end, load, offset));
    }
    out
}

/// The gigapages of physical memory beside their addresses at the
/// physical offset.
fn gigapages(phys_offset: u64) -> (r: Vec<(PhysicalAddress, VirtualAddress)>)
    requires
        phys_offset + 63 * GIB <= u64::MAX,
    ensures
        pair_values(r@) == gigapage_pairs(phys_offset),
{
    let mut out: Vec<(PhysicalAddress, VirtualAddress)> = Vec::new();
    let mut i: u64 = 0;
    while i < PHYSICAL_GIGAPAGES
        invariant
            i <= PHYSICAL_GIGAPAGES,
            phys_offset + 63 * GIB <= u64::MAX,
            out@.len() == i,
            forall|j: int| 0 <= j < i ==> #[trigger] pair_values(out@)[j] == gigapage_pairs(phys_offset)[j],
        decreases PHYSICAL_GIGAPAGES - i,
    {
        let phys = PhysicalAddress::new(i * GIB);
        let virt = VirtualAddress::new(phys_offset + i * GIB);
        proof {
            PhysicalAddress::lemma_eq_value(phys, PhysicalAddress::at((i * GIB) as u64));
            PhysicalAddress::lemma_at((i * GIB) as u64);
        }
        let ghost before = out@;
        out.push((phys, virt));
        proof {
            assert forall|j: int| 0 <= j < i + 1 implies #[trigger] pair_values(out@)[j] == gigapage_pairs(phys_offset)[j] by {
                if j < i {
                    assert(out@[j] == before[j]);
                    assert(pair_values(before)[j] == gigapage_pairs(phys_offset)[j]);
                }
            }
        }
        i = i + 1;
    }
    proof {
        assert(pair_values(out@) =~= gigapage_pairs(phys_offset));
    }
    out
}

/// Boot before paging: hands the memory region that holds the kernel,
/// from the end of the kernel image on, to the frame allocator; keeps the
/// pages of the device tree at `fdt` from it when the tree lies above the
/// kernel; and builds the first page table, which maps the bss, data,
/// temporary stack and text sections page by page where the kernel runs
/// and the first 64 GiB of physical memory at `phys_offset`. Gives the
/// table back with the `satp` word that installs it, for the table placed
/// at `root`.
pub fn early_paging(
    allocator: &mut BitmapAllocator,
    memory: &MemoryRegion,
    layout: &KernelLayout,
    fdt: u64,
    fdt_size: u64,
    phys_offset: u64,
    root: PhysicalAddress,
) -> (r: (PageTable, u64))
    requires
        ({
            let kend = layout.kernel_end;
            let mend = memory.starting_address.value() + memory.size.value();
            let len = (mend - kend) / 0x1000 / 64 + 1;
            &&& mend <= u64::MAX
            &&& kend != 0
            &&& kend % 0x1000 == 0
            &&& kend <= mend
            &&& mend + 0x40000 <= u64::MAX
            &&& (mend - kend) / 0x40000 + 1 <= usize::MAX
            &&& fdt > kend ==> {
                &&& fdt % 0x1000 == 0
                &&& fdt + fdt_pages(fdt_size) * 0x1000 <= u64::MAX
                &&& entry_of(kend, (fdt + (fdt_pages(fdt_size) - 1) * 0x1000) as u64) < len
            }
        }),
        boot_ok(*layout, phys_offset),
    ensures
        final(allocator).wf(),
        final(allocator).start() == layout.kernel_end,
        final(allocator).end() == memory.starting_address.value() + memory.size.value(),
        final(allocator)@ == boot_bitmap(
            layout.kernel_end,
            (memory.starting_address.value() + memory.size.value()) as u64,
            fdt,
            fdt_size,
        ),
        r.0.wf(),
        r.0@ == boot_table_after(*layout, phys_offset, 5),
        boot_mapped(r.0@, *layout, phys_offset),
        r.1 == 8 * 0x1000_0000_0000_0000 + root.page_number(),
{
    let mem_start = memory.starting_address();
    let mem_size = memory.size();
    let mem_end = mem_start + mem_size;
    allocator.init(layout.kernel_end, mem_end);
    let ghost s0 = allocator@;
    if fdt > layout.kernel_end {
        let n_pages = fdt_size / 0x1000 + 1;
        let mut i: u64 = 0;
        while i < n_pages
            invariant
                allocator.wf(),
                allocator.start() == layout.kernel_end,
                allocator.end() == mem_end,
                fdt > layout.kernel_end,
                fdt % 0x1000 == 0,
                layout.kernel_end % 0x1000 == 0,
                n_pages == fdt_pages(fdt_size),
                fdt + n_pages * 0x1000 <= u64::MAX,
                entry_of(layout.kernel_end, (fdt + (n_pages - 1) * 0x1000) as u64) < allocator@.len(),
                i <= n_pages,
                marked_run(allocator@, layout.kernel_end, (fdt + i * 0x1000) as u64, (n_pages - i) as nat)
                    == marked_run(s0, layout.kernel_end, fdt, n_pages as nat),
            decreases n_pages - i,
        {
            let addr = fdt + i * 0x1000;
            proof {
                assert(i * 0x1000 <= (n_pages - 1) * 0x1000) by (nonlinear_arith)
                    requires
                        i < n_pages,
                ;
                assert((addr - layout.kernel_end) / 0x40000 <= (fdt + (n_pages - 1) * 0x1000 - layout.kernel_end) / 0x40000) by (nonlinear_arith)
                    requires
                        addr <= fdt + (n_pages - 1) * 0x1000,
                        addr >= layout.kernel_end,
                ;
                assert((addr - layout.kernel_end) % 0x1000 == 0) by (nonlinear_arith)
                    requires
                        addr == fdt + i * 0x1000,
                        fdt % 0x1000 == 0,
                        layout.kernel_end % 0x1000 == 0,
                        fdt > layout.kernel_end,
                ;
            }
            allocator.set_used(PhysicalPage::from_ptr(addr));
            proof {
                assert((fdt + (i + 1) * 0x1000) as u64 == (addr + 0x1000) as u64);
            }
            i = i + 1;
        }
    }
    let mut table = PageTable::new_raw();
    let data = Flags::DIRTY().bitor(Flags::ACCESSED()).bitor(Flags::READ()).bitor(Flags::WRITE()).bitor(Flags::VALID());
    let text = Flags::ACCESSED().bitor(Flags::EXECUTE()).bitor(Flags::VALID());
    proof {
        crate::bits::lemma_bit_constants();
        Flags::lemma_from_bits(0xC7);
        Flags::lemma_from_bits(0x49);
        Flags::lemma_eq_bits(data, data_flags());
        Flags::lemma_eq_bits(text, text_flags());
        assert(section_range(*layout, 0) == layout.bss);
        assert(section_range(*layout, 1) == layout.data);
        assert(section_range(*layout, 2) == layout.tmp_stack);
        assert(section_range(*layout, 3) == layout.text);
        assert(pairs_ok(boot_table_after(*layout, phys_offset, 0), boot_maps(*layout, phys_offset)[0].0, boot_maps(*layout, phys_offset)[0].2, boot_maps(*layout, phys_offset)[0].1, None));
    }
    let load = layout.load_location;
    let offset = layout.page_offset;
    let ghost bm = boot_maps(*layout, phys_offset);
    proof {
        assert(makes_leaf(leaf_byte(data, None)));
        assert(makes_leaf(leaf_byte(text, None)));
    }
    let bss = section_pages(layout.bss.start, layout.bss.end, load, offset);
    table.map_each(&bss, data, PageSize::Kilopage, None);
    proof {
        assert forall|i: int| 0 <= i < bm[0].0.len() implies #[trigger] maps_to(table@, bm[0].0[i].1, bm[0].2, bm[0].0[i].0) by {
            assert(bm[0].0[i] == pair_values(bss@)[i]);
        }
    }
    proof {
        assert(table@ == boot_table_after(*layout, phys_offset, 1));
        assert(pairs_ok(boot_table_after(*layout, phys_offset, 1), boot_maps(*layout, phys_offset)[1].0, boot_maps(*layout, phys_offset)[1].2, boot_maps(*layout, phys_offset)[1].1, None));
    }
    let ghost prev1 = table@;
    let data_pages = section_pages(layout.data.start, layout.data.end, load, offset);
    table.map_each(&data_pages, data, PageSize::Kilopage, None);
    proof {
        assert forall|k: int, i: int| 0 <= k < 2 && 0 <= i < bm[k].0.len() implies #[trigger] maps_to(table@, bm[k].0[i].1, bm[k].2, bm[k].0[i].0) by {
            if k == 1 {
                assert(bm[1].0[i] == pair_values(data_pages@)[i]);
            } else {
                assert(maps_to(prev1, bm[k].0[i].1, bm[k].2, bm[k].0[i].0));
            }
        }
    }
    proof {
        assert(table@ == boot_table_after(*layout, phys_offset, 2));
        assert(pairs_ok(boot_table_after(*layout, phys_offset, 2), boot_maps(*layout, phys_offset)[2].0, boot_maps(*layout, phys_offset)[2].2, boot_maps(*layout, phys_offset)[2].1, None));
    }
    let ghost prev2 = table@;
    let stack = section_pages(layout.tmp_stack.start, layout.tmp_stack.end, load, offset);
    table.map_each(&stack, data, PageSize::Kilopage, None);
    proof {
        assert forall|k: int, i: int| 0 <= k < 3 && 0 <= i < bm[k].0.len() implies #[trigger] maps_to(table@, bm[k].0[i].1, bm[k].2, bm[k].0[i].0) by {
            if k == 2 {
                assert(bm[2].0[i] == pair_values(stack@)[i]);
            } else {
                assert(maps_to(prev2, bm[k].0[i].1, bm[k].2, bm[k].0[i].0));
            }
        }
    }
    proof {
        assert(table@ == boot_table_after(*layout, phys_offset, 3));
        assert(pairs_ok(boot_table_after(*layout, phys_offset, 3), boot_maps(*layout, phys_offset)[3].0, boot_maps(*layout, phys_offset)[3].2, boot_maps(*layout, phys_offset)[3].1, None));
    }
    let ghost prev3 = table@;
    let text_pages = section_pages(layout.text.start, layout.text.end, load, offset);
    table.map_each(&text_pages, text, PageSize::Kilopage, None);
    proof {
        assert forall|k: int, i: int| 0 <= k < 4 && 0 <= i < bm[k].0.len() implies #[trigger] maps_to(table@, bm[k].0[i].1, bm[k].2, bm[k].0[i].0) by {
            if k == 3 {
                assert(bm[3].0[i] == pair_values(text_pages@)[i]);
            } else {
                assert(maps_to(prev3, bm[k].0[i].1, bm[k].2, bm[k].0[i].0));
            }
        }
    }
    proof {
        assert(table@ == boot_table_after(*layout, phys_offset, 4));
        assert(pairs_ok(boot_table_after(*layout, phys_offset, 4), boot_maps(*layout, phys_offset)[4].0, boot_maps(*layout, phys_offset)[4].2, boot_maps(*layout, phys_offset)[4].1, None));
    }
    let ghost prev4 = table@;
    let giga = gigapages(phys_offset);
    table.map_each(&giga, data, PageSize::Gigapage, None);
    proof {
        assert(table@ == boot_table_after(*layout, phys_offset, 5));
        assert forall|k: int, i: int| 0 <= k < 5 && 0 <= i < bm[k].0.len() implies #[trigger] maps_to(table@, bm[k].0[i].1, bm[k].2, bm[k].0[i].0) by {
            if k == 4 {
                assert(bm[4].0[i] == pair_values(giga@)[i]);
            } else {
                assert(maps_to(prev4, bm[k].0[i].1, bm[k].2, bm[k].0[i].0));
            }
        }
    }
    (table, bootstrap_satp(root))
}

/// The `satp` word boot stores once the first table is built: the Sv39
/// mode, address space 0, and the page number of the root table at `root`.
pub fn bootstrap_satp(root: PhysicalAddress) -> (r: u64)
    ensures
        r == 8 * 0x1000_0000_0000_0000 + root.page_number(),
{
    let satp = Satp { mode: SatpMode::Sv39, asid: 0, root_page_table: root };
    satp.as_usize()
}

} // verus!
