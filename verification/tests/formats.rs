use lib::elf::{Elf, ProgramSegmentType};
use lib::fat::{DirectoryRecord, ModifyDate, ModifyTime};
use lib::io::{Block, BlockDevice, Offset};
use lib::mem::{kernel_section_p2v, kernel_section_v2p, phys2virt, virt2phys, PageRange};
use lib::paging::entry::{PageSize, PhysicalAddress, VirtualAddress};

fn elf_image() -> Vec<u8> {
    let mut d = vec![0u8; 64 + 56 + 8];
    d[0..4].copy_from_slice(b"\x7FELF");
    d[4] = 2;
    d[5] = 1;
    d[16..18].copy_from_slice(&2u16.to_le_bytes());
    d[18..20].copy_from_slice(&243u16.to_le_bytes());
    d[24..32].copy_from_slice(&0x1_0000u64.to_le_bytes());
    d[32..40].copy_from_slice(&64u64.to_le_bytes());
    d[56..58].copy_from_slice(&1u16.to_le_bytes());
    // One loadable segment of 8 bytes at offset 120.
    d[64..68].copy_from_slice(&1u32.to_le_bytes());
    d[68..72].copy_from_slice(&5u32.to_le_bytes());
    d[72..80].copy_from_slice(&120u64.to_le_bytes());
    d[80..88].copy_from_slice(&0x1_0000u64.to_le_bytes());
    d[96..104].copy_from_slice(&8u64.to_le_bytes());
    d[104..112].copy_from_slice(&8u64.to_le_bytes());
    d[120..128].copy_from_slice(b"segment!");
    d
}

#[test]
fn elf_header_and_segments() {
    let image = elf_image();
    let elf = Elf::new(&image).unwrap();
    assert_eq!(elf.header.object_type, 2);
    assert_eq!(elf.header.machine, 243);
    assert_eq!(elf.header.entry, 0x1_0000);
    assert_eq!(elf.header.ident.class, 2);
    let phs = elf.program_headers();
    assert_eq!(phs.len(), 1);
    assert!(ProgramSegmentType::Load.matches(phs[0].segment_type));
    assert_eq!(phs[0].vaddr, 0x1_0000);
    assert_eq!(elf.program_segment_data(&phs[0]), b"segment!");
    assert!(elf.section_headers().is_empty());
}

#[test]
fn elf_rejects_short_or_foreign_files() {
    let image = elf_image();
    assert!(Elf::new(&image[..63]).is_none());
    let mut bad = image.clone();
    bad[1] = b'X';
    assert!(Elf::new(&bad).is_none());
}

#[test]
fn fat_time_and_date_fields() {
    // 13:45:30 is hour 13, minute 45, seconds 30 halved.
    let t = ModifyTime((13 << 11) | (45 << 5) | 15);
    assert_eq!(t.hour(), 13);
    assert_eq!(t.minute(), 45);
    assert_eq!(t.second(), 30);
    // The month and year read the low bits, as the masks are shifted before
    // they are applied.
    let d = ModifyDate((41 << 9) | (7 << 5) | 21);
    assert_eq!(d.day(), 21);
    assert_eq!(d.month(), d.0 as u8 & 0xF);
    assert_eq!(d.year(), (d.0 & 0x7F) + 1980);
}

#[test]
fn fat_directory_record_attributes() {
    let mut r = DirectoryRecord {
        short_filename: *b"KERNEL  BIN",
        attribute: 0b0010_0001,
        reserved: 0,
        creation_tenth_sec: 0,
        first_cluster_high: 0,
        modify_time: ModifyTime(0),
        modify_date: ModifyDate(0),
        first_cluster_low: 3,
        file_size: 1024,
    };
    assert!(r.read_only());
    assert!(r.archive());
    assert!(!r.hidden());
    assert!(!r.subdirectory());
    assert!(!r.long_filename());
    assert!(!r.unused());
    r.attribute = 0b1111;
    assert!(r.long_filename() && r.system() && r.bpb());
    r.short_filename[0] = 0xE5;
    assert!(r.unused());
    r.short_filename[0] = 0;
    assert!(r.end_of_directory());
}

struct Disk;

impl BlockDevice for Disk {
    type Error = ();

    fn block_size_of(&self) -> usize {
        512
    }

    fn block_size(&self) -> usize {
        512
    }

    fn num_blocks(&self) -> Option<usize> {
        Some(8)
    }

    fn read(&mut self, _start: Block, _offset: Offset, _buf: &mut Vec<u8>) -> Result<(), ()> {
        Ok(())
    }

    fn write(&mut self, _start: Block, _offset: Offset, _buf: &[u8]) -> Result<(), ()> {
        Ok(())
    }

    fn read_done(_: Disk, _: Block, _: Offset, _: Vec<u8>, _: Disk, _: Vec<u8>, _: Result<(), ()>) -> bool {
        true
    }

    fn write_done(_: Disk, _: Block, _: Offset, _: &[u8], _: Disk, _: Result<(), ()>) -> bool {
        true
    }
}

#[test]
fn blocks_and_offsets() {
    let disk = Disk;
    let (block, offset) = disk.block_and_offset(1300);
    assert_eq!((block.0, offset.0), (2, 276));
    assert_eq!(block.to_bytes(&disk, offset), 1300);
    assert_eq!(Block(3).add(Block(4)).0, 7);
}

#[test]
fn address_offsets() {
    let v = phys2virt(PhysicalAddress::new(0x8000_0000), 0xFFFF_FFC0_0000_0000);
    assert_eq!(v.as_usize(), 0xFFFF_FFC0_8000_0000);
    assert_eq!(virt2phys(v, 0xFFFF_FFC0_0000_0000).as_usize(), 0x8000_0000);
    let k = kernel_section_p2v(PhysicalAddress::new(0x8020_1000), 0x8020_0000, 0xFFFF_FFFF_C000_0000);
    assert_eq!(k.as_usize(), 0xFFFF_FFFF_C000_1000);
    assert_eq!(kernel_section_v2p(k, 0x8020_0000, 0xFFFF_FFFF_C000_0000).as_usize(), 0x8020_1000);
}

#[test]
fn page_ranges_step_by_pages() {
    let range = PageRange::new(VirtualAddress::new(0x1000), VirtualAddress::new(0x3000), PageSize::Kilopage);
    let mut it = range.iter();
    assert_eq!(it.next().unwrap().as_usize(), 0x1000);
    assert_eq!(it.next().unwrap().as_usize(), 0x2000);
    assert!(it.next().is_none());
    let std_range = range.into_std_range();
    assert_eq!(std_range.end.as_usize(), 0x3000);
}
