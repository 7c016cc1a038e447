use lib::plic::{claimed, clamped_priority, max_priority, source_pending, source_word, with_source_disabled, with_source_enabled};
use lib::arch::virt;
use lib::arch::{exit, ExitStatus};
use lib::cpu::{fs, set_fs, FloatingPointStatus, Misa, Satp, SatpMode};
use lib::paging::entry::PhysicalAddress;
use lib::task::{Outcome, Sscratch, TaskMetadata, TaskState};
use lib::trap::{GeneralRegisters, Trap, TrapFrame};
use lib::utils::{micros, round_up_to_next, ticks_per_us, time_parts, Units};

#[test]
fn it_works() {
    assert!(true);
}

#[test]
fn micros_counts_whole_ticks_per_microsecond() {
    assert_eq!(micros(10_000_000, 10_000_000), 10_000_000 / 10);
    assert_eq!(micros(25, 12_500_000), 2);
}

#[test]
fn time_parts_splits_microseconds() {
    assert_eq!(time_parts(3_004_005), (3, 4, 5));
    assert_eq!(time_parts(999), (0, 0, 999));
}

#[test]
fn ticks_per_us_scales_by_rate() {
    assert_eq!(ticks_per_us(100, 10_000_000), 1000);
}

#[test]
fn round_up_to_next_keeps_multiples() {
    assert_eq!(round_up_to_next(0x2000, 0x1000), 0x2000);
    assert_eq!(round_up_to_next(0x2001, 0x1000), 0x3000);
    assert_eq!(round_up_to_next(1, 1), 1);
}

#[test]
fn units_scale_by_1024() {
    assert_eq!(4u64.kib(), 4096);
    assert_eq!(2u64.mib(), 2 * 1024 * 1024);
    assert_eq!(1u64.gib(), 1024 * 1024 * 1024);
}

#[test]
fn misa_fields() {
    // Bits 6..8 hold 2, so the width reads as 64; extensions A, C, I.
    let misa = Misa((2 << 6) | (1 << 0) | (1 << 2) | (1 << 8) | (1u64 << 40));
    assert_eq!(misa.mxl(), 64);
    let ext = misa.extensions();
    assert_eq!(ext.0, (2 << 6) | (1 << 0) | (1 << 2) | (1 << 8));
    assert_eq!(ext.letters(), vec!['A', 'C', 'H', 'I']);
}

#[test]
fn satp_round_trip() {
    let satp = Satp { mode: SatpMode::Sv39, asid: 7, root_page_table: PhysicalAddress::new(0x8020_0000) };
    let value = satp.as_usize();
    assert_eq!(value, (8u64 << 60) | (7u64 << 44) | 0x80200);
    let back = Satp::from_usize(value);
    assert_eq!(back.mode, SatpMode::Sv39);
    assert_eq!(back.asid, 7);
    assert_eq!(back.root_page_table.as_usize(), value << 12);
}

#[test]
fn floating_point_status_field() {
    assert_eq!(fs(0), FloatingPointStatus::Off);
    assert_eq!(fs(3 << 13), FloatingPointStatus::Dirty);
    assert_eq!(fs(1 << 13 | 1), FloatingPointStatus::Initial);
    assert_eq!(set_fs(0xFFFF, FloatingPointStatus::Clean), (0xFFFF & !(3 << 13)) | (2 << 13));
}

#[test]
fn exit_words() {
    assert_eq!(virt::ExitStatus::Pass.to_u64(), 0x5555);
    assert_eq!(virt::ExitStatus::Reset.to_u64(), 0x7777);
    assert_eq!(virt::ExitStatus::Fail(3).to_u64(), 0x3333 | (3 << 16));
    assert_eq!(exit(ExitStatus::Success), 0x5555);
    assert_eq!(exit(ExitStatus::Error), 0x3333 | (1 << 16));
    assert_eq!(virt::exit(virt::ExitStatus::Fail(0xFFFF)), 0xFFFF_3333);
}

#[test]
fn trap_causes() {
    assert_eq!(Trap::from_cause(8), Trap::UserModeEnvironmentCall);
    assert_eq!(Trap::from_cause(0x8000_0000_0000_0005), Trap::SupervisorTimerInterrupt);
    assert_eq!(Trap::from_cause(10), Trap::Reserved);
    assert_eq!(Trap::from_cause(0x8000_0000_0000_0002), Trap::Reserved);
    assert_eq!(Trap::StorePageFault.value(), 15);
    assert_eq!(Trap::Reserved.value(), u64::MAX);
}

#[test]
fn trap_frame_reads_registers() {
    let mut regs = GeneralRegisters::default();
    regs.sp = 0x1000;
    let frame = TrapFrame { sepc: 4, registers: regs };
    assert_eq!(frame.sp(), 0x1000);
}

#[test]
fn task_state() {
    assert!(TaskState::Dead.is_dead());
    assert!(!TaskState::Ready.is_dead());
    let meta = TaskMetadata::new();
    assert_eq!(meta.priority, 1);
    assert_eq!(meta.run_state, TaskState::Ready);
    let s = Sscratch::new();
    assert_eq!(s.scratch_sp, 0);
    assert_ne!(Outcome::Blocked, Outcome::Completed);
}

#[test]
fn plic_register_values() {
    assert_eq!(max_priority(), 7);
    assert_eq!(clamped_priority(3), 3);
    assert_eq!(clamped_priority(12), 7);
    assert_eq!(source_word(33), 1);
    let w = with_source_enabled(0b1000, 33);
    assert_eq!(w, 0b1010);
    assert!(source_pending(w, 33));
    assert!(source_pending(w, 3));
    assert_eq!(with_source_disabled(w, 35), 0b0010);
    assert_eq!(claimed(0), None);
    assert_eq!(claimed(10), Some(10));
}
