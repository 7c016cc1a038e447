use lib::fdt::{CStr, Cpu, CpuIds, Fdt, FdtError, FdtHeader, FdtStrings, NodeProperty};

/// A small device tree: a header, a memory reservation block with one
/// entry, a structure block that only ends, and a strings block.
fn sample_tree() -> Vec<u8> {
    let mut t = Vec::new();
    let words: [u32; 10] = [
        0xd00d_feed, // magic
        0,           // total size, patched below
        72,          // structure block offset
        76,          // strings block offset
        40,          // memory reservation block offset
        17,          // version
        16,          // last compatible version
        0,           // boot cpu
        17,          // strings block size
        4,           // structure block size
    ];
    for w in words {
        t.extend_from_slice(&w.to_be_bytes());
    }
    t.extend_from_slice(&0x8000_0000u64.to_be_bytes());
    t.extend_from_slice(&0x20_0000u64.to_be_bytes());
    t.extend_from_slice(&0u64.to_be_bytes());
    t.extend_from_slice(&0u64.to_be_bytes());
    t.extend_from_slice(&9u32.to_be_bytes());
    t.extend_from_slice(b"compatible\0model\0");
    let len = t.len() as u32;
    t[4..8].copy_from_slice(&len.to_be_bytes());
    t
}

#[test]
fn returns_fdt() {
    let test = sample_tree();
    assert!(Fdt::new(&test).is_ok());
}

#[test]
fn too_small_and_bad_magic() {
    let test = sample_tree();
    assert!(matches!(Fdt::new(&test[..39]), Err(FdtError::BufferTooSmall)));
    let mut bad = test.clone();
    bad[0] = 0;
    assert!(matches!(Fdt::new(&bad), Err(FdtError::BadMagic)));
}

#[test]
fn header_fields() {
    let test = sample_tree();
    let header = FdtHeader::from_bytes(&test).unwrap();
    assert!(header.valid_magic());
    assert!(header.validate_magic());
    assert_eq!(header.struct_range(), 72..76);
    assert_eq!(header.strings_range(), 76..93);
    let fdt = Fdt::new(&test).unwrap();
    assert_eq!(fdt.total_size(), 93);
}

#[test]
fn strings_of_the_strings_block() {
    let test = sample_tree();
    let fdt = Fdt::new(&test).unwrap();
    assert_eq!(fdt.strings(), vec!["compatible", "model"]);
}

#[test]
fn memory_reservations_stop_at_the_zero_entry() {
    let test = sample_tree();
    let fdt = Fdt::new(&test).unwrap();
    let res = fdt.memory_reservations();
    assert_eq!(res.len(), 1);
    assert_eq!(res[0].address(), 0x8000_0000);
    assert_eq!(res[0].size(), 0x20_0000);
}

#[test]
fn cstr_ends_at_the_zero_byte() {
    let s = CStr::new(b"model\0rest");
    assert_eq!(s.len(), 5);
    assert_eq!(s.as_str(), Some("model"));
    let bad = CStr::new(&[0xFF, 0xFE, 0]);
    assert_eq!(bad.as_str(), None);
}

/// Builds a device tree whose structure block holds the root node with a
/// `compatible` and a `model` property, an `aliases` node, a `chosen` node,
/// a `cpus` node with a `timebase-frequency` and one `cpu@0` child, and a
/// `memory@80000000` node with a `reg` property.
fn tree_with_nodes() -> Vec<u8> {
    fn push_word(v: &mut Vec<u8>, w: u32) {
        v.extend_from_slice(&w.to_be_bytes());
    }
    fn pad(v: &mut Vec<u8>) {
        while v.len() % 4 != 0 {
            v.push(0);
        }
    }
    fn begin(v: &mut Vec<u8>, name: &str) {
        push_word(v, 1);
        v.extend_from_slice(name.as_bytes());
        v.push(0);
        pad(v);
    }
    fn prop(v: &mut Vec<u8>, name_off: u32, value: &[u8]) {
        push_word(v, 3);
        push_word(v, value.len() as u32);
        push_word(v, name_off);
        v.extend_from_slice(value);
        pad(v);
    }
    let strings: &[u8] =
        b"compatible\0model\0reg\0device_type\0serial0\0bootargs\0stdout-path\0timebase-frequency\0";
    let mut st = Vec::new();
    begin(&mut st, "");
    prop(&mut st, 0, b"riscv-virtio\0");
    prop(&mut st, 11, b"riscv-virtio,qemu\0");
    begin(&mut st, "aliases");
    prop(&mut st, 33, b"/cpus/cpu");
    push_word(&mut st, 2);
    begin(&mut st, "chosen");
    prop(&mut st, 41, b"console=ttyS0\0");
    prop(&mut st, 50, b"serial0\0");
    push_word(&mut st, 2);
    begin(&mut st, "cpus");
    prop(&mut st, 62, &10_000_000u32.to_be_bytes());
    begin(&mut st, "cpu@0");
    prop(&mut st, 17, &[0, 0, 0, 0]);
    push_word(&mut st, 2);
    push_word(&mut st, 2);
    begin(&mut st, "memory@80000000");
    prop(&mut st, 21, b"memory\0");
    let mut reg = Vec::new();
    reg.extend_from_slice(&0x8000_0000u64.to_be_bytes());
    reg.extend_from_slice(&0x800_0000u64.to_be_bytes());
    prop(&mut st, 17, &reg);
    push_word(&mut st, 2);
    push_word(&mut st, 2);
    push_word(&mut st, 9);
    push_word(&mut st, 5);

    let mut t = Vec::new();
    let off_struct = 56u32;
    let off_strings = off_struct + st.len() as u32;
    let total = off_strings + strings.len() as u32;
    for w in [
        0xd00d_feed,
        total,
        off_struct,
        off_strings,
        40,
        17,
        16,
        0,
        strings.len() as u32,
        st.len() as u32,
    ] {
        push_word(&mut t, w);
    }
    t.extend_from_slice(&[0u8; 16]);
    t.extend_from_slice(&st);
    t.extend_from_slice(strings);
    t
}

#[test]
fn finds_root_node() {
    let test = tree_with_nodes();
    let fdt = Fdt::new(&test).unwrap();
    assert!(fdt.find_node("/").is_some(), "couldn't find root node");
}

#[test]
fn finds_root_node_properties() {
    let test = tree_with_nodes();
    let fdt = Fdt::new(&test).unwrap();
    let root = fdt.find_node("/").unwrap();
    let prop = fdt
        .properties(root)
        .into_iter()
        .find(|p: &NodeProperty| p.name == "compatible" && p.value == b"riscv-virtio\0")
        .is_some();

    assert!(prop);
}

#[test]
fn finds_child_of_root_node() {
    let test = tree_with_nodes();
    let fdt = Fdt::new(&test).unwrap();
    assert!(fdt.find_node("/cpus").is_some(), "couldn't find cpus node");
}

#[test]
fn finds_nodes_by_name_before_the_unit_address() {
    let test = tree_with_nodes();
    let fdt = Fdt::new(&test).unwrap();
    assert!(fdt.find_node("/cpus/cpu").is_some());
    let memory = fdt.find_node("/memory").unwrap();
    let props = fdt.properties(memory);
    assert_eq!(props.len(), 2);
    assert_eq!(props[0].name, "device_type");
    let region = props[1].reg().unwrap();
    assert_eq!(region.starting_address(), 0x8000_0000);
    assert_eq!(region.size(), 0x800_0000);
    assert!(props[0].reg().is_none());
}

#[test]
fn missing_nodes_are_none() {
    let test = tree_with_nodes();
    let fdt = Fdt::new(&test).unwrap();
    assert!(fdt.find_node("/soc").is_none());
    assert!(fdt.find_node("cpus").is_none());
}

#[test]
fn memory_node_lists_its_regions() {
    let test = tree_with_nodes();
    let fdt = Fdt::new(&test).unwrap();
    let memory = fdt.memory();
    assert_eq!(memory.regions.len(), 1);
    assert_eq!(memory.regions[0].starting_address(), 0x8000_0000);
    assert_eq!(memory.regions[0].size(), 0x800_0000);
    assert!(memory.initial_mapped_area.is_none());
}

#[test]
fn errors_read_as_messages() {
    assert_eq!(FdtError::BadMagic.to_string(), "bad FDT magic value");
    assert_eq!(FdtError::BadPtr.to_string(), "an invalid pointer was passed");
    assert_eq!(FdtError::BufferTooSmall.to_string(), "the given buffer was too small to contain a FDT header");
}

#[test]
fn aliases_stand_for_paths() {
    let test = tree_with_nodes();
    let fdt = Fdt::new(&test).unwrap();
    let cpu = fdt.find_node("/cpus/cpu").unwrap();
    assert_eq!(fdt.find_node("serial0"), Some(cpu));
    let aliases = fdt.aliases();
    assert_eq!(aliases.resolve("serial0"), Some("/cpus/cpu"));
    assert_eq!(aliases.resolve("serial1"), None);
    assert_eq!(aliases.resolve_node("serial0"), Some(cpu));
    assert_eq!(aliases.all(), vec![("serial0", "/cpus/cpu")]);
    assert!(fdt.find_node("serial1").is_none());
}

#[test]
fn root_model_keeps_its_zero_byte() {
    let test = tree_with_nodes();
    let fdt = Fdt::new(&test).unwrap();
    let root = fdt.root();
    assert_eq!(Some(root.node), fdt.find_node("/"));
    assert_eq!(root.model(), "riscv-virtio,qemu\0");
}

#[test]
fn chosen_gives_bootargs_and_console() {
    let test = tree_with_nodes();
    let fdt = Fdt::new(&test).unwrap();
    let chosen = fdt.chosen().unwrap();
    assert_eq!(chosen.bootargs(), Some("console=ttyS0"));
    let cpu = fdt.find_node("/cpus/cpu");
    assert_eq!(chosen.stdout(), cpu);
    assert_eq!(chosen.stdin(), cpu);
}

#[test]
fn cpu_frequency_comes_from_the_parent() {
    let test = tree_with_nodes();
    let fdt = Fdt::new(&test).unwrap();
    let parent = fdt.find_node("/cpus").unwrap();
    let node = fdt.find_node("/cpus/cpu").unwrap();
    let cpu = Cpu { fdt, parent, node };
    assert_eq!(cpu.timebase_frequency(), 10_000_000);
    let props = cpu.properties();
    assert_eq!(props.len(), 1);
    assert_eq!(props[0].name, "reg");
    let ids = CpuIds { reg: props[0], address_cells: 1 };
    assert_eq!(ids.first(), 0);
    assert_eq!(ids.all(), vec![0]);
}

#[test]
fn cpu_ids_of_one_and_two_words() {
    let value = [0, 0, 0, 3, 0, 0, 0, 5, 0, 0];
    let ids = CpuIds { reg: NodeProperty { name: "reg", value: &value }, address_cells: 1 };
    assert_eq!(ids.first(), 3);
    assert_eq!(ids.all(), vec![3, 5]);
    let ids = CpuIds { reg: NodeProperty { name: "reg", value: &value[..8] }, address_cells: 2 };
    assert_eq!(ids.first(), 0x3_0000_0005);
    assert_eq!(ids.all(), vec![0x3_0000_0005]);
    let empty = CpuIds { reg: NodeProperty { name: "reg", value: &[] }, address_cells: 3 };
    assert!(empty.all().is_empty());
}

#[test]
fn strings_table_reads_at_offsets() {
    let table = FdtStrings(b"compatible\0model\0");
    assert_eq!(table.cstr_at_offset(11).as_str(), Some("model"));
    assert_eq!(table.cstr_at_offset(0).len(), 10);
}

#[test]
fn find_all_nodes_lists_matching_children() {
    let test = tree_with_nodes();
    let fdt = Fdt::new(&test).unwrap();
    let cpu = fdt.find_node("/cpus/cpu").unwrap();
    assert_eq!(fdt.find_all_nodes("/cpus/cpu"), vec![cpu]);
    assert_eq!(fdt.find_all_nodes("/"), vec![fdt.find_node("/").unwrap()]);
    assert_eq!(fdt.find_all_nodes("/memory"), vec![fdt.find_node("/memory").unwrap()]);
    assert!(fdt.find_all_nodes("/soc/uart").is_empty());
    assert!(fdt.find_all_nodes("/cpus/gpu").is_empty());
}

#[test]
fn cpus_lists_the_cpu_children() {
    let test = tree_with_nodes();
    let fdt = Fdt::new(&test).unwrap();
    let cpus = fdt.cpus();
    assert_eq!(cpus.len(), 1);
    assert_eq!(Some(cpus[0].node), fdt.find_node("/cpus/cpu"));
    assert_eq!(Some(cpus[0].parent), fdt.find_node("/cpus"));
    assert_eq!(cpus[0].timebase_frequency(), 10_000_000);
}

#[test]
fn root_cell_sizes_and_compatible() {
    let test = tree_with_nodes();
    let fdt = Fdt::new(&test).unwrap();
    let root = fdt.root();
    let sizes = root.cell_sizes();
    assert_eq!((sizes.address_cells, sizes.size_cells), (2, 1));
    assert_eq!(root.compatible().all(), vec!["riscv-virtio"]);
    let cpu = fdt.cpus()[0];
    let ids = cpu.ids();
    assert_eq!(ids.reg.value, &[0, 0, 0, 0]);
    assert_eq!(ids.address_cells, 2);
}

#[test]
fn all_nodes_and_compatible_search() {
    let test = tree_with_nodes();
    let fdt = Fdt::new(&test).unwrap();
    let nodes = fdt.all_nodes();
    assert_eq!(nodes.len(), 6);
    assert_eq!(Some(nodes[0]), fdt.find_node("/"));
    assert_eq!(Some(nodes[4]), fdt.find_node("/cpus/cpu"));
    assert_eq!(fdt.find_compatible(&["riscv-virtio"]), fdt.find_node("/"));
    assert_eq!(fdt.find_compatible(&["sifive,plic-1.0.0"]), None);
}
