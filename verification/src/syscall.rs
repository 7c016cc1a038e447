//! The parts of starting a task and of system calls that decide from plain
//! values: the first registers of a new task, the list of argument
//! pointers the first task gets, the name a new task is given, and how the
//! capabilities of a received message are split and mapped.
use vstd::prelude::*;
use crate::paging::flags::Flags;
use vstd::string::StringSliceAdditionalSpecFns;
use crate::trap::{GeneralRegisters, TrapFrame};
use crate::utils::round_up_to_next;
use crate::le::le_value;

verus! {

/// The address the first task's program is loaded at and starts from.
pub const INIT_LOAD_ADDRESS: usize = 0xF00D_0000;

/// The first trap frame of a new task: it starts at `pc` with the stack,
/// thread and argument registers given and every other register zero.
pub fn spawn_frame(pc: usize, sp: usize, tp: usize, a0: usize, a1: usize, a2: usize) -> (r: TrapFrame)
    ensures
        r.sepc == pc,
        r.registers == (GeneralRegisters {
            ra: 0,
            sp: sp,
            gp: 0,
            tp: tp,
            t0: 0,
            t1: 0,
            t2: 0,
            s0: 0,
            s1: 0,
            a0: a0,
            a1: a1,
            a2: a2,
            a3: 0,
            a4: 0,
            a5: 0,
            a6: 0,
            a7: 0,
            s2: 0,
            s3: 0,
            s4: 0,
            s5: 0,
            s6: 0,
            s7: 0,
            s8: 0,
            s9: 0,
            s10: 0,
            s11: 0,
            t3: 0,
            t4: 0,
            t5: 0,
            t6: 0,
        }),
{
    TrapFrame {
        sepc: pc,
        registers: GeneralRegisters {
            ra: 0,
            sp: sp,
            gp: 0,
            tp: tp,
            t0: 0,
            t1: 0,
            t2: 0,
            s0: 0,
            s1: 0,
            a0: a0,
            a1: a1,
            a2: a2,
            a3: 0,
            a4: 0,
            a5: 0,
            a6: 0,
            a7: 0,
            s2: 0,
            s3: 0,
            s4: 0,
            s5: 0,
            s6: 0,
            s7: 0,
            s8: 0,
            s9: 0,
            s10: 0,
            s11: 0,
            t3: 0,
            t4: 0,
            t5: 0,
            t6: 0,
        },
    }
}

/// The first trap frame of the first task: it starts at the load address
/// with the stack at `sp`, the argument count and the address of the
/// argument list in `a0` and `a1`, and the device tree's copy at `fdt`.
pub fn init_frame(sp: usize, arg_count: usize, arg_list: usize, fdt: usize) -> (r: TrapFrame)
    ensures
        r.sepc == INIT_LOAD_ADDRESS,
        r.registers == (GeneralRegisters {
            ra: 0,
            sp: sp,
            gp: 0,
            tp: 0,
            t0: 0,
            t1: 0,
            t2: 0,
            s0: 0,
            s1: 0,
            a0: arg_count,
            a1: arg_list,
            a2: fdt,
            a3: 0,
            a4: 0,
            a5: 0,
            a6: 0,
            a7: 0,
            s2: 0,
            s3: 0,
            s4: 0,
            s5: 0,
            s6: 0,
            s7: 0,
            s8: 0,
            s9: 0,
            s10: 0,
            s11: 0,
            t3: 0,
            t4: 0,
            t5: 0,
            t6: 0,
        }),
{
    spawn_frame(INIT_LOAD_ADDRESS, sp, 0, arg_count, arg_list, fdt)
}

/// The eight little-endian bytes of `x`.
pub open spec fn le_bytes(x: u64) -> Seq<u8> {
    Seq::new(8, |i: int| ((x as nat / pow256(i)) % 256) as u8)
}

/// 256 to the power `i`.
pub open spec fn pow256(i: int) -> nat
    decreases i,
{
    if i <= 0 {
        1
    } else {
        256 * pow256(i - 1)
    }
}

/// The argument list the first task gets for arguments of lengths `lens`
/// stored one after the other from `storage`: for each, its address and
/// its length, each as eight little-endian bytes.
pub open spec fn arg_list(storage: int, lens: Seq<usize>) -> Seq<u8>
    decreases lens.len(),
{
    if lens.len() == 0 {
        Seq::empty()
    } else {
        le_bytes(storage as u64) + le_bytes(lens[0] as u64) + arg_list(storage + lens[0], lens.drop_first())
    }
}

/// The eight little-endian bytes of `x` encode `x`.
pub proof fn lemma_le_bytes_value(x: u64)
    ensures
        le_value(le_bytes(x)) == x,
{
    let b = le_bytes(x);
    reveal_with_fuel(pow256, 9);
    let q1 = x as nat / 0x100;
    let q2 = x as nat / 0x1_0000;
    let q3 = x as nat / 0x100_0000;
    let q4 = x as nat / 0x1_0000_0000;
    let q5 = x as nat / 0x100_0000_0000;
    let q6 = x as nat / 0x1_0000_0000_0000;
    let q7 = x as nat / 0x100_0000_0000_0000;
    assert(q2 == q1 / 0x100);
    assert(q3 == q2 / 0x100);
    assert(q4 == q3 / 0x100);
    assert(q5 == q4 / 0x100);
    assert(q6 == q5 / 0x100);
    assert(q7 == q6 / 0x100);
    assert(q7 < 0x100);
    assert(pow256(0) == 1);
    assert(x as nat / 1 == x as nat);
    assert(b[0] == x % 0x100);
    assert(b[1] == q1 % 0x100);
    assert(b[2] == q2 % 0x100);
    assert(b[3] == q3 % 0x100);
    assert(b[4] == q4 % 0x100);
    assert(b[5] == q5 % 0x100);
    assert(b[6] == q6 % 0x100);
    assert(b[7] == q7 % 0x100);
    assert(b.skip(8).len() == 0);
    assert(le_value(b.skip(8)) == 0);
    assert(le_value(b.skip(7)) == b[7]) by {
        assert(b.skip(7).drop_first() =~= b.skip(8));
    }
    assert(le_value(b.skip(6)) == b[6] + 256 * le_value(b.skip(7))) by {
        assert(b.skip(6).drop_first() =~= b.skip(7));
    }
    assert(le_value(b.skip(5)) == b[5] + 256 * le_value(b.skip(6))) by {
        assert(b.skip(5).drop_first() =~= b.skip(6));
    }
    assert(le_value(b.skip(4)) == b[4] + 256 * le_value(b.skip(5))) by {
        assert(b.skip(4).drop_first() =~= b.skip(5));
    }
    assert(le_value(b.skip(3)) == b[3] + 256 * le_value(b.skip(4))) by {
        assert(b.skip(3).drop_first() =~= b.skip(4));
    }
    assert(le_value(b.skip(2)) == b[2] + 256 * le_value(b.skip(3))) by {
        assert(b.skip(2).drop_first() =~= b.skip(3));
    }
    assert(le_value(b.skip(1)) == b[1] + 256 * le_value(b.skip(2))) by {
        assert(b.skip(1).drop_first() =~= b.skip(2));
    }
    assert(le_value(b) == b[0] + 256 * le_value(b.skip(1))) by {
        assert(b.drop_first() =~= b.skip(1));
    }
    assert(le_value(b.skip(7)) == q7);
    assert(le_value(b.skip(6)) == q6);
    assert(le_value(b.skip(5)) == q5);
    assert(le_value(b.skip(4)) == q4);
    assert(le_value(b.skip(3)) == q3);
    assert(le_value(b.skip(2)) == q2);
    assert(le_value(b.skip(1)) == q1);
}

/// The argument list holds sixteen bytes per argument.
proof fn lemma_arg_list_len(storage: int, lens: Seq<usize>)
    ensures
        arg_list(storage, lens).len() == 16 * lens.len(),
    decreases lens.len(),
{
    if lens.len() > 0 {
        lemma_arg_list_len(storage + lens[0], lens.drop_first());
    }
}

/// Record `i` of the argument list, its bytes `16 * i .. 16 * i + 16`,
/// holds the address of argument `i`, which is `storage` plus the lengths
/// of the arguments before it, and then its length, each as a
/// little-endian 64-bit number.
pub proof fn lemma_arg_list_records(storage: int, lens: Seq<usize>, i: int)
    requires
        0 <= i < lens.len(),
        0 <= storage,
        storage + total(lens) <= u64::MAX,
    ensures
        arg_list(storage, lens).len() == 16 * lens.len(),
        le_value(arg_list(storage, lens).subrange(16 * i, 16 * i + 8)) == storage + total(lens.take(i)),
        le_value(arg_list(storage, lens).subrange(16 * i + 8, 16 * i + 16)) == lens[i],
    decreases i,
{
    lemma_arg_list_len(storage, lens);
    let rest = lens.drop_first();
    let tail = arg_list(storage + lens[0], rest);
    let l = arg_list(storage, lens);
    lemma_total_nonneg(rest);
    assert(total(lens) == lens[0] + total(rest));
    if i == 0 {
        assert(l.subrange(0, 8) =~= le_bytes(storage as u64));
        assert(l.subrange(8, 16) =~= le_bytes(lens[0] as u64));
        lemma_le_bytes_value(storage as u64);
        lemma_le_bytes_value(lens[0] as u64);
        assert(lens.take(0).len() == 0);
    } else {
        lemma_arg_list_records(storage + lens[0], rest, i - 1);
        assert(l.subrange(16 * i, 16 * i + 8) =~= tail.subrange(16 * (i - 1), 16 * (i - 1) + 8));
        assert(l.subrange(16 * i + 8, 16 * i + 16) =~= tail.subrange(16 * (i - 1) + 8, 16 * (i - 1) + 16));
        assert(lens.take(i).drop_first() =~= rest.take(i - 1));
        assert(total(lens.take(i)) == lens[0] + total(rest.take(i - 1)));
    }
}

/// 256 to a power is positive.
proof fn lemma_pow256_pos(i: int)
    ensures
        pow256(i) > 0,
    decreases i,
{
    if i > 0 {
        lemma_pow256_pos(i - 1);
    }
}

/// The sum of `lens`.
pub open spec fn total(lens: Seq<usize>) -> int
    decreases lens.len(),
{
    if lens.len() == 0 {
        0
    } else {
        lens[0] + total(lens.drop_first())
    }
}

/// Appends the eight little-endian bytes of `x` to `out`.
fn put_le(out: &mut Vec<u8>, x: u64)
    ensures
        final(out)@ == old(out)@ + le_bytes(x),
{
    let mut v = x;
    let mut i: usize = 0;
    let ghost start = out@;
    proof {
        assert(pow256(0) == 1);
        assert(le_bytes(x).take(0) =~= Seq::<u8>::empty());
        assert(start + Seq::<u8>::empty() =~= start);
    }
    while i < 8
        invariant
            i <= 8,
            out@ == start + le_bytes(x).take(i as int),
            v == x as nat / pow256(i as int),
        decreases 8 - i,
    {
        proof {
            lemma_pow256_pos(i as int);
            assert(pow256(i + 1) == pow256(i as int) * 256);
            vstd::arithmetic::div_mod::lemma_div_denominator(x as int, pow256(i as int) as int, 256);
            assert(le_bytes(x).take(i + 1) =~= le_bytes(x).take(i as int).push(((x as nat / pow256(i as int)) % 256) as u8));
        }
        out.push((v % 256) as u8);
        v = v / 256;
        i = i + 1;
    }
    proof {
        assert(le_bytes(x).take(8) =~= le_bytes(x));
    }
}

/// Builds the argument list for arguments of lengths `lens` stored one after
/// the other from `storage`.
pub fn arg_pointer_list(storage: u64, lens: &[usize]) -> (r: Vec<u8>)
    requires
        storage + total(lens@) <= u64::MAX,
    ensures
        r@ == arg_list(storage as int, lens@),
{
    let mut out: Vec<u8> = Vec::new();
    let mut at = storage;
    let mut i: usize = 0;
    let ghost all = lens@;
    proof {
        assert(all.skip(0) =~= all);
    }
    while i < lens.len()
        invariant
            i <= lens@.len(),
            all == lens@,
            arg_list(storage as int, all) == out@ + arg_list(at as int, all.skip(i as int)),
            at + total(all.skip(i as int)) <= u64::MAX,
        decreases lens@.len() - i,
    {
        let ghost rest = all.skip(i as int);
        let ghost before = out@;
        proof {
            assert(rest.drop_first() =~= all.skip(i + 1));
            assert(rest[0] == lens@[i as int]);
            lemma_total_nonneg(rest.drop_first());
        }
        put_le(&mut out, at);
        put_le(&mut out, lens[i] as u64);
        proof {
            assert(arg_list(at as int, rest) == le_bytes(at) + le_bytes(lens@[i as int] as u64) + arg_list(
                at + lens@[i as int],
                all.skip(i + 1),
            ));
            assert(before + (le_bytes(at) + le_bytes(lens@[i as int] as u64) + arg_list(at + lens@[i as int], all.skip(i + 1)))
                =~= out@ + arg_list(at + lens@[i as int], all.skip(i + 1)));
        }
        at = at + lens[i] as u64;
        i = i + 1;
    }
    proof {
        assert(all.skip(i as int).len() == 0);
        assert(out@ + arg_list(at as int, all.skip(i as int)) =~= out@);
    }
    out
}

/// A sum of lengths is not negative.
proof fn lemma_total_nonneg(s: Seq<usize>)
    ensures
        total(s) >= 0,
    decreases s.len(),
{
    if s.len() > 0 {
        lemma_total_nonneg(s.drop_first());
    }
}

/// How many capabilities of a received message go into a buffer of
/// `buffer_len` entries, and how many are left for the next read: none go
/// into an empty buffer, else as many as fit.
pub fn caps_split(buffer_len: usize, n_caps: usize) -> (r: (usize, usize))
    ensures
        buffer_len == 0 ==> r == (0usize, n_caps),
        buffer_len != 0 ==> r.0 == (if buffer_len < n_caps { buffer_len } else { n_caps }) && r.1 == n_caps
            - r.0,
{
    if buffer_len == 0 {
        (0, n_caps)
    } else {
        let written = if buffer_len < n_caps { buffer_len } else { n_caps };
        (written, n_caps - written)
    }
}

/// Writes what a read of a message returns into the registers: the
/// capabilities written and left in `a1` and `a2`, the seven data words in
/// `t0` to `t6`; the other registers keep their values.
pub fn message_registers(regs: &mut GeneralRegisters, written: usize, remaining: usize, data: [usize; 7])
    ensures
        final(regs).a1 == written,
        final(regs).a2 == remaining,
        final(regs).t0 == data@[0],
        final(regs).t1 == data@[1],
        final(regs).t2 == data@[2],
        final(regs).t3 == data@[3],
        final(regs).t4 == data@[4],
        final(regs).t5 == data@[5],
        final(regs).t6 == data@[6],
        *final(regs) == (GeneralRegisters {
            a1: written,
            a2: remaining,
            t0: data@[0],
            t1: data@[1],
            t2: data@[2],
            t3: data@[3],
            t4: data@[4],
            t5: data@[5],
            t6: data@[6],
            ..*old(regs)
        }),
{
    regs.a1 = written;
    regs.a2 = remaining;
    regs.t0 = data[0];
    regs.t1 = data[1];
    regs.t2 = data[2];
    regs.t3 = data[3];
    regs.t4 = data[4];
    regs.t5 = data[5];
    regs.t6 = data[6];
}

/// The flags a received shared memory capability is mapped with: valid and
/// user, and read, write and execute as its rights give them.
pub fn shared_memory_flags(read: bool, write: bool, execute: bool) -> (r: Flags)
    ensures
        r.bits() == 0x11 | (if read { 2u8 } else { 0u8 }) | (if write { 4u8 } else { 0u8 }) | (if execute {
            8u8
        } else {
            0u8
        }),
{
    let mut flags = Flags::VALID().bitor(Flags::USER());
    if read {
        flags = flags.bitor(Flags::READ());
    }
    if write {
        flags = flags.bitor(Flags::WRITE());
    }
    if execute {
        flags = flags.bitor(Flags::EXECUTE());
    }
    proof {
        assert(1u8 | 16u8 == 0x11u8) by (bit_vector);
        let r = if read { 2u8 } else { 0u8 };
        let w = if write { 4u8 } else { 0u8 };
        let x = if execute { 8u8 } else { 0u8 };
        assert(((0x11u8 | r) | w) | x == 0x11u8 | r | w | x) by (bit_vector);
        assert(0x11u8 | 0u8 == 0x11u8) by (bit_vector);
        assert(forall|a: u8| #![auto] a | 0u8 == a) by (bit_vector);
    }
    flags
}

/// The name a spawned task is given: the bytes read from the caller, which
/// must be valid UTF-8; `None` where the call fails.
pub fn task_name(bytes: &[u8]) -> (r: Option<&str>)
    ensures
        r.is_some() == vstd::utf8::valid_utf8(bytes@),
        r.is_some() ==> r.unwrap().spec_bytes() == bytes@,
{
    crate::fdt::utf8_str(bytes)
}

/// The number of 4 KiB pages that hold `n` bytes.
pub open spec fn pages_for(n: u64) -> int {
    (if n % 0x1000 == 0 { n as int } else { n - n % 0x1000 + 0x1000 }) / 0x1000
}

/// The sizes of the first task's regions, in pages of 4 KiB: its program,
/// its stack, its copy of the device tree, and, with arguments, their bytes
/// and their list of address and length pairs.
#[derive(Debug, Clone, Copy, PartialEq, Eq)]
pub struct InitPlan {
    pub text_pages: u64,
    pub stack_pages: u64,
    pub fdt_pages: u64,
    pub arg_pages: u64,
    pub list_pages: u64,
}

/// The number of pages of the first task's stack.
pub const INIT_STACK_PAGES: u64 = 128;

/// Plans the first task's regions for a program of `bin_len` bytes, a
/// device tree of `fdt_len` bytes and arguments of `arg_bytes` bytes in
/// all, `arg_count` of them: no argument regions when there are none.
pub fn init_plan(bin_len: u64, fdt_len: u64, arg_bytes: u64, arg_count: u64) -> (r: InitPlan)
    requires
        bin_len + 0x1000 <= u64::MAX,
        fdt_len + 0x1000 <= u64::MAX,
        arg_bytes + 0x1000 <= u64::MAX,
        arg_count * 16 + 0x1000 <= u64::MAX,
    ensures
        r.text_pages == pages_for(bin_len),
        r.stack_pages == INIT_STACK_PAGES,
        r.fdt_pages == pages_for(fdt_len),
        arg_count == 0 ==> r.arg_pages == 0 && r.list_pages == 0,
        arg_count != 0 ==> r.arg_pages == pages_for(arg_bytes) && r.list_pages == pages_for(
            (arg_count * 16) as u64,
        ),
{
    proof {
        crate::placement::lemma_page_size_pow2(crate::paging::entry::PageSize::Kilopage);
    }
    let text_pages = round_up_to_next(bin_len, 0x1000) / 0x1000;
    let fdt_pages = round_up_to_next(fdt_len, 0x1000) / 0x1000;
    let (arg_pages, list_pages) = if arg_count == 0 {
        (0, 0)
    } else {
        (round_up_to_next(arg_bytes, 0x1000) / 0x1000, round_up_to_next(arg_count * 16, 0x1000) / 0x1000)
    };
    InitPlan { text_pages, stack_pages: INIT_STACK_PAGES, fdt_pages, arg_pages, list_pages }
}

/// The first task's stack pointer: the top of its stack of 128 pages that
/// starts at `stack`.
pub fn init_stack_top(stack: u64) -> (r: u64)
    requires
        stack + INIT_STACK_PAGES * 0x1000 <= u64::MAX,
    ensures
        r == stack + INIT_STACK_PAGES * 0x1000,
{
    stack + INIT_STACK_PAGES * 0x1000
}

/// A device node as the claim sees it: its name and, when it has one, the
/// first region of its `reg` property, whose size may be missing.
pub type DeviceNode = (Vec<u8>, Option<(u64, Option<u64>)>);

/// The first node of `nodes` named `path`, if any.
pub open spec fn first_named(nodes: Seq<DeviceNode>, path: Seq<u8>) -> Option<int>
    decreases nodes.len(),
{
    if nodes.len() == 0 {
        None
    } else if nodes[0].0@ == path {
        Some(0)
    } else {
        match first_named(nodes.drop_first(), path) {
            Some(i) => Some(i + 1),
            None => None,
        }
    }
}

/// What claiming the device at `path` gives: the start and length of the
/// memory to map, when the path is UTF-8, nobody claimed it yet, a node
/// has that name, and the first such node's first region has a size.
pub open spec fn claim_for(path: Seq<u8>, claimed: Seq<Vec<u8>>, nodes: Seq<DeviceNode>) -> Option<(u64, u64)> {
    if !vstd::utf8::valid_utf8(path) || exists|j: int| 0 <= j < claimed.len() && (#[trigger] claimed[j])@ == path {
        None
    } else {
        match first_named(nodes, path) {
            Some(i) => match nodes[i].1 {
                Some((start, Some(len))) => Some((start, len)),
                _ => None,
            },
            None => None,
        }
    }
}

/// The first node of `nodes[from..]` named `path` is the first of all
/// when none before `from` has that name.
proof fn lemma_first_named_skip(nodes: Seq<DeviceNode>, path: Seq<u8>, from: int)
    requires
        0 <= from <= nodes.len(),
        forall|j: int| 0 <= j < from ==> (#[trigger] nodes[j]).0@ != path,
    ensures
        first_named(nodes, path) == (match first_named(nodes.subrange(from, nodes.len() as int), path) {
            Some(i) => Some(i + from),
            None => None::<int>,
        }),
    decreases from,
{
    if from > 0 {
        let rest = nodes.drop_first();
        assert forall|j: int| 0 <= j < from - 1 implies (#[trigger] rest[j]).0@ != path by {
            assert(rest[j] == nodes[j + 1]);
        }
        lemma_first_named_skip(rest, path, from - 1);
        assert(rest.subrange(from - 1, rest.len() as int) =~= nodes.subrange(from, nodes.len() as int));
    } else {
        assert(nodes.subrange(0, nodes.len() as int) =~= nodes);
    }
}

/// The checks of a device claim: the path the task names must be UTF-8
/// and not claimed yet, a node of the device tree must have that name, and
/// the first such node's first memory region must have a size. Gives that
/// region's start and length, which the caller maps and hands to the task
/// as a capability; `None` is the call's invalid-argument error.
pub fn claim_device(path: &[u8], claimed: &[Vec<u8>], nodes: &[DeviceNode]) -> (r: Option<(u64, u64)>)
    ensures
        r == claim_for(path@, claimed@, nodes@),
{
    if crate::fdt::utf8_str(path).is_none() {
        return None;
    }
    let mut j: usize = 0;
    while j < claimed.len()
        invariant
            j <= claimed@.len(),
            forall|k: int| 0 <= k < j ==> (#[trigger] claimed@[k])@ != path@,
            vstd::utf8::valid_utf8(path@),
        decreases claimed@.len() - j,
    {
        if crate::fdt::bytes_equal(claimed[j].as_slice(), path) {
            return None;
        }
        j = j + 1;
    }
    let mut i: usize = 0;
    while i < nodes.len()
        invariant
            i <= nodes@.len(),
            forall|k: int| 0 <= k < i ==> (#[trigger] nodes@[k]).0@ != path@,
            vstd::utf8::valid_utf8(path@),
            forall|k: int| 0 <= k < claimed@.len() ==> (#[trigger] claimed@[k])@ != path@,
        decreases nodes@.len() - i,
    {
        if crate::fdt::bytes_equal(nodes[i].0.as_slice(), path) {
            proof {
                lemma_first_named_skip(nodes@, path@, i as int);
                assert(nodes@.subrange(i as int, nodes@.len() as int)[0] == nodes@[i as int]);
            }
            return match nodes[i].1 {
                Some((start, Some(len))) => Some((start, len)),
                _ => None,
            };
        }
        i = i + 1;
    }
    proof {
        lemma_first_named_skip(nodes@, path@, nodes@.len() as int);
    }
    None
}

} // verus!
