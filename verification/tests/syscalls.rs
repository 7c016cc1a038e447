use lib::syscall::{init_plan, init_stack_top, arg_pointer_list, caps_split, init_frame, message_registers, shared_memory_flags, spawn_frame, task_name};
use lib::trap::GeneralRegisters;

#[test]
fn spawned_tasks_start_with_their_registers() {
    let f = spawn_frame(0x1000, 0x2000, 0x3000, 1, 2, 3);
    assert_eq!(f.sepc, 0x1000);
    assert_eq!((f.registers.sp, f.registers.tp, f.registers.a0, f.registers.a1, f.registers.a2), (0x2000, 0x3000, 1, 2, 3));
    assert_eq!((f.registers.ra, f.registers.t0, f.registers.s11), (0, 0, 0));
    let init = init_frame(0x8000, 2, 0x9000, 0xA000);
    assert_eq!(init.sepc, 0xF00D_0000);
    assert_eq!((init.registers.a0, init.registers.a1, init.registers.a2, init.registers.tp), (2, 0x9000, 0xA000, 0));
}

#[test]
fn argument_list_holds_addresses_and_lengths() {
    let list = arg_pointer_list(0x1000, &[3, 5]);
    let mut want = Vec::new();
    want.extend_from_slice(&0x1000u64.to_le_bytes());
    want.extend_from_slice(&3u64.to_le_bytes());
    want.extend_from_slice(&0x1003u64.to_le_bytes());
    want.extend_from_slice(&5u64.to_le_bytes());
    assert_eq!(list, want);
    assert!(arg_pointer_list(0x1000, &[]).is_empty());
}

#[test]
fn received_caps_fill_the_buffer() {
    assert_eq!(caps_split(0, 3), (0, 3));
    assert_eq!(caps_split(2, 3), (2, 1));
    assert_eq!(caps_split(5, 3), (3, 0));
    let mut regs = GeneralRegisters::default();
    regs.a0 = 9;
    message_registers(&mut regs, 2, 1, [1, 2, 3, 4, 5, 6, 7]);
    assert_eq!((regs.a0, regs.a1, regs.a2, regs.t0, regs.t6), (9, 2, 1, 1, 7));
}

#[test]
fn shared_memory_flags_follow_rights() {
    assert_eq!(shared_memory_flags(true, true, false).value(), 0x17);
    assert_eq!(shared_memory_flags(false, false, true).value(), 0x19);
    assert_eq!(shared_memory_flags(false, false, false).value(), 0x11);
}

#[test]
fn task_names_must_be_utf8() {
    assert_eq!(task_name(b"init"), Some("init"));
    assert_eq!(task_name(&[0xFF, 0xFE]), None);
}

#[test]
fn first_task_regions_are_planned_in_pages() {
    let plan = init_plan(0x1801, 0x1000, 10, 2);
    assert_eq!((plan.text_pages, plan.stack_pages, plan.fdt_pages, plan.arg_pages, plan.list_pages), (2, 128, 1, 1, 1));
    let none = init_plan(0, 0x10, 0, 0);
    assert_eq!((none.text_pages, none.fdt_pages, none.arg_pages, none.list_pages), (0, 1, 0, 0));
    assert_eq!(init_stack_top(0x10_0000), 0x18_0000);
}

#[test]
fn claim_device_checks_the_path_and_the_node() {
    let nodes: Vec<lib::syscall::DeviceNode> = vec![
        (b"uart@10000000".to_vec(), Some((0x1000_0000, Some(0x100)))),
        (b"virtio@10001000".to_vec(), Some((0x1000_1000, None))),
        (b"cpus".to_vec(), None),
    ];
    let claimed = vec![b"plic@c000000".to_vec()];
    assert_eq!(lib::syscall::claim_device(b"uart@10000000", &claimed, &nodes), Some((0x1000_0000, 0x100)));
    // A region without a size, a node without one, an unknown node, a
    // claimed path and bytes that are not UTF-8 are all refused.
    assert_eq!(lib::syscall::claim_device(b"virtio@10001000", &claimed, &nodes), None);
    assert_eq!(lib::syscall::claim_device(b"cpus", &claimed, &nodes), None);
    assert_eq!(lib::syscall::claim_device(b"rtc@101000", &claimed, &nodes), None);
    assert_eq!(lib::syscall::claim_device(b"plic@c000000", &claimed, &nodes), None);
    assert_eq!(lib::syscall::claim_device(&[0xFF, 0xFE], &claimed, &nodes), None);
}
