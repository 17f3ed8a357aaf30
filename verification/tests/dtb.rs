use arceos_loader::dtb::{
    memory_probe, nodes_probeable, parse_dt, virtio_probe, walk_dt, DtNode, DtbError, DtbInfo,
};

fn node(props: &[(&str, &[u8])], reg: Option<Vec<(usize, Option<usize>)>>) -> DtNode {
    DtNode {
        properties: props.iter().map(|(n, v)| (n.to_string(), v.to_vec())).collect(),
        reg,
    }
}

fn qemu_virt() -> Vec<DtNode> {
    vec![
        node(&[("compatible", b"riscv-virtio\0"), ("#address-cells", &[0, 0, 0, 2])], None),
        node(&[("device_type", b"memory\0")], Some(vec![(0x8000_0000, Some(0x800_0000))])),
        node(&[("device_type", b"cpu\0")], Some(vec![(0, None)])),
        node(&[("compatible", b"virtio,mmio\0")], Some(vec![(0x1000_8000, Some(0x1000))])),
        node(
            &[("compatible", b"virtio,mmio\0other\0")],
            Some(vec![(0x1000_7000, Some(0x1000)), (0x2000_0000, Some(1))]),
        ),
        node(&[("compatible", b"ns16550a\0")], Some(vec![(0x1000_0000, Some(0x100))])),
        node(&[], None),
    ]
}

#[test]
fn new_info_is_empty() {
    let d = DtbInfo::new();
    assert_eq!(d.memory_addr, 0);
    assert_eq!(d.memory_size, 0);
    assert!(d.mmio_regions.is_empty());
}

#[test]
fn walk_finds_memory_and_virtio_devices() {
    let nodes = qemu_virt();
    assert!(nodes_probeable(&nodes));
    let info = walk_dt(&nodes);
    assert_eq!(info.memory_addr, 0x8000_0000);
    assert_eq!(info.memory_size, 0x800_0000);
    assert_eq!(info.mmio_regions, vec![(0x1000_8000, 0x1000), (0x1000_7000, 0x1000)]);
}

#[test]
fn last_memory_node_wins() {
    let nodes = vec![
        node(&[("device_type", b"memory")], Some(vec![(0x8000_0000, Some(0x1000))])),
        node(&[("device_type", b"memory\0\0")], Some(vec![(0x9000_0000, Some(0x2000))])),
        node(&[("device_type", b"memory\0")], None),
        node(&[("device_type", b"memory\0")], Some(vec![])),
    ];
    let info = walk_dt(&nodes);
    assert_eq!((info.memory_addr, info.memory_size), (0x9000_0000, 0x2000));
}

#[test]
fn memory_type_must_match_exactly() {
    let nodes = vec![
        node(&[("device_type", b"memoryx\0")], Some(vec![(1, Some(1))])),
        node(&[("device_type", b"memor\0")], Some(vec![(2, Some(2))])),
        node(&[("device_type", b"memory\0x")], Some(vec![(3, Some(3))])),
    ];
    let info = walk_dt(&nodes);
    assert_eq!((info.memory_addr, info.memory_size), (0, 0));
}

#[test]
fn first_device_type_and_last_compatible_count() {
    let nodes = vec![
        node(&[("device_type", b"memory\0"), ("device_type", b"cpu\0")], Some(vec![(5, Some(6))])),
        node(
            &[("compatible", b"other\0"), ("compatible", b"virtio,mmio\0")],
            Some(vec![(7, Some(8))]),
        ),
    ];
    let info = walk_dt(&nodes);
    assert_eq!((info.memory_addr, info.memory_size), (5, 6));
    assert_eq!(info.mmio_regions, vec![(7, 8)]);
}

#[test]
fn compatible_memory_node_is_not_probed() {
    let nodes = vec![node(
        &[("compatible", b"vendor,mem\0"), ("device_type", b"memory\0")],
        Some(vec![(0x8000_0000, Some(0x1000))]),
    )];
    let info = walk_dt(&nodes);
    assert_eq!((info.memory_addr, info.memory_size), (0, 0));
    assert!(info.mmio_regions.is_empty());
}

#[test]
fn virtio_without_reg_is_skipped() {
    let nodes = vec![node(&[("compatible", b"virtio,mmio\0")], None)];
    assert!(walk_dt(&nodes).mmio_regions.is_empty());
}

#[test]
fn unreadable_properties_are_not_probeable() {
    // A device type that is not UTF-8.
    assert!(!nodes_probeable(&vec![node(&[("device_type", &[0xff, 0])], None)]));
    // With a compatible string the device type is never read.
    assert!(nodes_probeable(&vec![node(&[("compatible", b"x\0"), ("device_type", &[0xff])], None)]));
    // A compatible value without a NUL, or whose first string is not UTF-8.
    assert!(!nodes_probeable(&vec![node(&[("compatible", b"virtio,mmio")], None)]));
    assert!(!nodes_probeable(&vec![node(&[("compatible", &[0xff, 0])], None)]));
    // A probed node whose first region has no size.
    assert!(!nodes_probeable(&vec![node(&[("compatible", b"virtio,mmio\0")], Some(vec![(1, None)]))]));
    assert!(!nodes_probeable(&vec![node(&[("device_type", b"memory\0")], Some(vec![(1, None)]))]));
    assert!(nodes_probeable(&vec![node(&[("compatible", b"other\0")], Some(vec![(1, None)]))]));
}

#[test]
fn probes_report_the_first_region() {
    let m = node(&[("device_type", b"memory\0")], Some(vec![(0x4000, Some(0x100)), (0, Some(1))]));
    let d = memory_probe(&m).unwrap();
    assert_eq!((d.addr(), d.size()), (0x4000, 0x100));
    assert!(memory_probe(&node(&[("device_type", b"cpu\0")], Some(vec![(0x4000, Some(0x100))]))).is_none());
    assert!(memory_probe(&node(&[], Some(vec![(0x4000, Some(0x100))]))).is_none());
    let v = node(&[("compatible", b"virtio,mmio\0")], Some(vec![(0x5000, Some(0x200))]));
    let d = virtio_probe(&v).unwrap();
    assert_eq!((d.addr(), d.size()), (0x5000, 0x200));
    assert!(virtio_probe(&node(&[("compatible", b"virtio,mmio\0")], None)).is_none());
}

#[test]
fn walk_of_concatenation_concatenates_regions() {
    let info_a = walk_dt(&qemu_virt());
    let mut ab = qemu_virt();
    ab.push(node(&[("compatible", b"virtio,mmio\0")], Some(vec![(0x1000_1000, Some(0x1000))])));
    ab.push(node(&[("device_type", b"memory\0")], Some(vec![(0xa000_0000, Some(0x10))])));
    let info_ab = walk_dt(&ab);
    let mut expected = info_a.mmio_regions.clone();
    expected.push((0x1000_1000, 0x1000));
    assert_eq!(info_ab.mmio_regions, expected);
    assert_eq!((info_ab.memory_addr, info_ab.memory_size), (0xa000_0000, 0x10));
}

/// A flattened device tree built token by token.
struct Blob {
    structs: Vec<u8>,
    strings: Vec<u8>,
}

impl Blob {
    fn new() -> Blob {
        Blob { structs: Vec::new(), strings: Vec::new() }
    }
    fn word(&mut self, w: u32) {
        self.structs.extend_from_slice(&w.to_be_bytes());
    }
    fn pad(&mut self) {
        while self.structs.len() % 4 != 0 {
            self.structs.push(0);
        }
    }
    fn begin(&mut self, name: &str) {
        self.word(1);
        self.structs.extend_from_slice(name.as_bytes());
        self.structs.push(0);
        self.pad();
    }
    fn end(&mut self) {
        self.word(2);
    }
    fn prop(&mut self, name: &str, value: &[u8]) {
        let off = self.strings.len() as u32;
        self.strings.extend_from_slice(name.as_bytes());
        self.strings.push(0);
        self.word(3);
        self.word(value.len() as u32);
        self.word(off);
        self.structs.extend_from_slice(value);
        self.pad();
    }
    fn cells(values: &[u32]) -> Vec<u8> {
        values.iter().flat_map(|v| v.to_be_bytes()).collect()
    }
    fn finish(mut self) -> Vec<u8> {
        self.word(9);
        let rsv = 40u32;
        let off_struct = rsv + 16;
        let off_strings = off_struct + self.structs.len() as u32;
        let total = off_strings + self.strings.len() as u32;
        let mut out = Vec::new();
        for w in [
            0xd00d_feed,
            total,
            off_struct,
            off_strings,
            rsv,
            17,
            16,
            0,
            self.strings.len() as u32,
            self.structs.len() as u32,
        ] {
            out.extend_from_slice(&w.to_be_bytes());
        }
        out.extend_from_slice(&[0; 16]);
        out.extend_from_slice(&self.structs);
        out.extend_from_slice(&self.strings);
        out
    }
}

fn virt_blob() -> Vec<u8> {
    let mut b = Blob::new();
    b.begin("");
    b.prop("#address-cells", &Blob::cells(&[2]));
    b.prop("#size-cells", &Blob::cells(&[2]));
    b.prop("compatible", b"riscv-virtio\0");
    b.begin("memory@80000000");
    b.prop("device_type", b"memory\0");
    b.prop("reg", &Blob::cells(&[0, 0x8000_0000, 0, 0x800_0000]));
    b.end();
    b.begin("virtio_mmio@10001000");
    b.prop("compatible", b"virtio,mmio\0");
    b.prop("reg", &Blob::cells(&[0, 0x1000_1000, 0, 0x1000]));
    b.end();
    b.begin("virtio_mmio@10002000");
    b.prop("compatible", b"virtio,mmio\0");
    b.prop("reg", &Blob::cells(&[0, 0x1000_2000, 0, 0x1000]));
    b.end();
    b.begin("uart@10000000");
    b.prop("compatible", b"ns16550a\0");
    b.prop("reg", &Blob::cells(&[0, 0x1000_0000, 0, 0x100]));
    b.end();
    b.end();
    b.finish()
}

#[test]
fn parse_dt_reads_a_blob() {
    let info = parse_dt(&virt_blob()).unwrap();
    assert_eq!((info.memory_addr, info.memory_size), (0x8000_0000, 0x800_0000));
    assert_eq!(info.mmio_regions, vec![(0x1000_1000, 0x1000), (0x1000_2000, 0x1000)]);
}

#[test]
fn parse_dt_checks_the_header() {
    let blob = virt_blob();
    assert!(matches!(parse_dt(&blob[..39]), Err(DtbError::BufferTooSmall)));
    assert!(matches!(parse_dt(&blob[..blob.len() - 1]), Err(DtbError::BufferTooSmall)));
    let mut bad = blob.clone();
    bad[0] = 0;
    assert!(matches!(parse_dt(&bad), Err(DtbError::BadMagic)));
    let mut longer = blob.clone();
    longer.extend_from_slice(&[0; 8]);
    assert!(parse_dt(&longer).is_ok());
}

#[test]
fn parse_dt_refuses_an_unreadable_probed_node() {
    let mut b = Blob::new();
    b.begin("");
    b.prop("#address-cells", &Blob::cells(&[2]));
    b.prop("#size-cells", &Blob::cells(&[0]));
    b.begin("virtio_mmio@10001000");
    b.prop("compatible", b"virtio,mmio\0");
    b.prop("reg", &Blob::cells(&[0, 0x1000_1000]));
    b.end();
    b.end();
    assert!(matches!(parse_dt(&b.finish()), Err(DtbError::NodeUnreadable)));
}

fn set_word(blob: &mut [u8], at: usize, w: u32) {
    blob[at..at + 4].copy_from_slice(&w.to_be_bytes());
}

fn malformed(blob: &[u8]) -> bool {
    matches!(parse_dt(blob), Err(DtbError::TreeMalformed))
}

#[test]
fn structure_block_past_the_end_is_malformed() {
    let mut blob = virt_blob();
    let len = blob.len() as u32;
    set_word(&mut blob, 36, len);
    assert!(malformed(&blob));
}

#[test]
fn stray_end_of_node_is_malformed() {
    let mut b = Blob::new();
    b.end();
    b.word(5);
    assert!(malformed(&b.finish()));
}

#[test]
fn unterminated_node_name_is_malformed() {
    let mut b = Blob::new();
    b.word(1);
    b.structs.extend_from_slice(b"abcd");
    let mut blob = b.finish();
    // The END word that `finish` appends is not zero-free; make the rest of
    // the block name bytes too.
    let off = be(&blob, 8) as usize;
    let size = be(&blob, 36) as usize;
    for i in off + 4..off + size {
        blob[i] = b'x';
    }
    assert!(malformed(&blob));
}

fn be(blob: &[u8], at: usize) -> u32 {
    u32::from_be_bytes([blob[at], blob[at + 1], blob[at + 2], blob[at + 3]])
}

#[test]
fn property_past_the_block_is_malformed() {
    let mut b = Blob::new();
    b.begin("");
    b.word(3);
    b.word(1000);
    b.word(0);
    b.word(0);
    b.end();
    assert!(malformed(&b.finish()));
}

#[test]
fn bad_name_offset_is_malformed() {
    let mut b = Blob::new();
    b.begin("");
    b.prop("model", b"x\0");
    b.end();
    let mut blob = b.finish();
    let off = be(&blob, 8) as usize;
    // The name offset of the first property.
    set_word(&mut blob, off + 8 + 8, 1000);
    assert!(malformed(&blob));
}

#[test]
fn nesting_64_deep_is_malformed() {
    let mut b = Blob::new();
    for _ in 0..63 {
        b.begin("n");
    }
    for _ in 0..63 {
        b.end();
    }
    assert!(parse_dt(&b.finish()).is_ok());
    let mut b = Blob::new();
    for _ in 0..64 {
        b.begin("n");
    }
    for _ in 0..64 {
        b.end();
    }
    assert!(malformed(&b.finish()));
}

#[test]
fn short_cell_size_is_malformed_only_when_read() {
    let mut b = Blob::new();
    b.begin("");
    b.prop("#address-cells", &[0, 2]);
    b.end();
    assert!(parse_dt(&b.finish()).is_ok());
    let mut b = Blob::new();
    b.begin("");
    b.prop("#address-cells", &[0, 2]);
    b.begin("child");
    b.end();
    b.end();
    assert!(malformed(&b.finish()));
}

#[test]
fn no_ops_and_trailing_bytes_are_accepted() {
    let mut b = Blob::new();
    b.word(4);
    b.begin("");
    b.word(4);
    b.prop("#address-cells", &Blob::cells(&[1]));
    b.prop("#size-cells", &Blob::cells(&[1]));
    b.begin("memory@0");
    b.prop("device_type", b"memory\0");
    b.word(4);
    b.prop("reg", &Blob::cells(&[0x4000_0000, 0x100_0000]));
    b.end();
    b.end();
    let mut blob = b.finish();
    blob.extend_from_slice(&[0xff; 7]);
    let info = parse_dt(&blob).unwrap();
    assert_eq!((info.memory_addr, info.memory_size), (0x4000_0000, 0x100_0000));
}
