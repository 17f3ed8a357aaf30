//! The summary of a flattened device tree that the kernel needs: where main
//! memory is, and the MMIO regions of the virtio devices.
//!
//! The `fdt` crate opens the blob and lists its nodes in depth-first order;
//! each node comes with all its properties as raw bytes and all the regions
//! of its `reg` property. The summary decides from those.

use crate::bytes::{
    bytes_equal, find_nul, first_nul_at, lemma_first_nul_unique, slice_subrange,
    str_from_utf8_is_ok,
};
use crate::fdt_walk::{fdt_walk_check, fdt_walk_returns};
use fdt::{Fdt, FdtError};
use vstd::prelude::*;
use vstd::utf8::valid_utf8;

verus! {

/// Why a device tree cannot be summarised.
#[derive(Debug, Clone, Copy, PartialEq, Eq, Structural)]
pub enum DtbError {
    /// The blob does not start with the device-tree magic number.
    BadMagic,
    /// The address of the blob is null.
    BadPtr,
    /// The blob is shorter than its header, or than the size its header gives.
    BufferTooSmall,
    /// The `fdt` crate would panic listing the nodes: the structure block,
    /// a token, a name or a property is malformed (see
    /// [`crate::fdt_walk::fdt_walk_returns`]).
    TreeMalformed,
    /// A node that the summary probes has a property it cannot read: a
    /// `compatible` value with no NUL-terminated UTF-8 first string, a
    /// `device_type` that is not UTF-8, or a first region without a size.
    NodeUnreadable,
}

/// One device-tree node as the `fdt` crate lists it.
pub struct DtNode {
    /// All properties of the node, in order: name and raw value.
    pub properties: Vec<(String, Vec<u8>)>,
    /// The regions of the node's `reg` property, each a start address and,
    /// when the parent gives sizes, a size; `None` when the crate cannot
    /// read the property or the node has none.
    pub reg: Option<Vec<(usize, Option<usize>)>>,
}

/// The plain value of a [`DtNode`].
pub struct DtNodeView {
    pub properties: Seq<(Seq<char>, Seq<u8>)>,
    pub reg: Option<Seq<(usize, Option<usize>)>>,
}

impl View for DtNode {
    type V = DtNodeView;

    open spec fn view(&self) -> DtNodeView {
        DtNodeView {
            properties: self.properties@.map_values(|p: (String, Vec<u8>)| (p.0@, p.1@)),
            reg: match self.reg {
                Some(r) => Some(r@),
                None => None,
            },
        }
    }
}

/// The plain values of a list of nodes.
pub open spec fn nodes_view(nodes: Seq<DtNode>) -> Seq<DtNodeView> {
    nodes.map_values(|n: DtNode| n@)
}

/// The nodes of the device tree in `blob`, in depth-first order, as the
/// `fdt` crate lists them.
pub uninterp spec fn fdt_nodes_of(blob: Seq<u8>) -> Seq<DtNodeView>;

/// The big-endian 32-bit number at offset `i` of `s`.
pub open spec fn be_u32_at(s: Seq<u8>, i: int) -> nat {
    (s[i] as nat) * 0x100_0000 + (s[i + 1] as nat) * 0x1_0000 + (s[i + 2] as nat) * 0x100 + (s[
        i + 3
    ] as nat)
}

/// Why the `fdt` crate refuses to open `blob`, if it does: its header is 40
/// bytes, starts with the magic number `0xd00dfeed` and gives in its second
/// word the total size, which the blob must reach.
pub open spec fn dtb_header_error(blob: Seq<u8>) -> Option<DtbError> {
    if blob.len() < 40 {
        Some(DtbError::BufferTooSmall)
    } else if be_u32_at(blob, 0) != 0xd00d_feed {
        Some(DtbError::BadMagic)
    } else if blob.len() < be_u32_at(blob, 4) {
        Some(DtbError::BufferTooSmall)
    } else {
        None
    }
}

/// `Fdt::new` of the `fdt` crate, then `Fdt::all_nodes` with, for each
/// node, `FdtNode::properties` and `FdtNode::reg`. Per the crate's source,
/// `Fdt::new` refuses the blob exactly as `dtb_header_error` says, the rest
/// returns on the blobs that `fdt_walk_returns` admits, and the nodes are
/// named by `fdt_nodes_of`.
#[verifier::external_body]
fn fdt_nodes(blob: &[u8]) -> (r: Result<Vec<DtNode>, DtbError>)
    requires
        fdt_walk_returns(blob@),
    ensures
        match dtb_header_error(blob@) {
            Some(e) => r == Err::<Vec<DtNode>, DtbError>(e),
            None => r matches Ok(nodes) && nodes_view(nodes@) == fdt_nodes_of(blob@),
        },
{
    match Fdt::new(blob) {
        Ok(fdt) => Ok(fdt.all_nodes().map(|n| DtNode {
            properties: n.properties().map(|p| (p.name.to_string(), p.value.to_vec())).collect(),
            reg: n.reg().map(|r| r.map(|m| (m.starting_address as usize, m.size)).collect()),
        }).collect()),
        Err(FdtError::BadMagic) => Err(DtbError::BadMagic),
        Err(FdtError::BadPtr) => Err(DtbError::BadPtr),
        Err(FdtError::BufferTooSmall) => Err(DtbError::BufferTooSmall),
    }
}

/// The value of the last property named `name`, as `FdtNode::compatible`
/// picks it.
pub open spec fn last_value_named(props: Seq<(Seq<char>, Seq<u8>)>, name: Seq<char>) -> Option<
    Seq<u8>,
>
    decreases props.len(),
{
    if props.len() == 0 {
        None
    } else if props.last().0 == name {
        Some(props.last().1)
    } else {
        last_value_named(props.drop_last(), name)
    }
}

/// The value of the first property named `name`, as `FdtNode::property`
/// picks it.
pub open spec fn first_value_named(props: Seq<(Seq<char>, Seq<u8>)>, name: Seq<char>) -> Option<
    Seq<u8>,
>
    decreases props.len(),
{
    if props.len() == 0 {
        None
    } else {
        match first_value_named(props.drop_last(), name) {
            Some(v) => Some(v),
            None => if props.last().0 == name {
                Some(props.last().1)
            } else {
                None
            },
        }
    }
}

/// The bytes before the first NUL of `v`, when it has one: the first string
/// of a `compatible` value.
pub open spec fn first_cstr(v: Seq<u8>) -> Option<Seq<u8>> {
    if exists|k: int| first_nul_at(v, k) {
        Some(v.take(choose|k: int| first_nul_at(v, k)))
    } else {
        None
    }
}

/// The bytes of `virtio,mmio`.
pub open spec fn virtio_mmio_bytes() -> Seq<u8> {
    seq![118u8, 105, 114, 116, 105, 111, 44, 109, 109, 105, 111]
}

/// The bytes of `memory`.
pub open spec fn memory_bytes() -> Seq<u8> {
    seq![109u8, 101, 109, 111, 114, 121]
}

/// The `compatible` value of the node.
pub open spec fn compatible_of(n: DtNodeView) -> Option<Seq<u8>> {
    last_value_named(n.properties, "compatible"@)
}

/// The `device_type` value of the node.
pub open spec fn device_type_of(n: DtNodeView) -> Option<Seq<u8>> {
    first_value_named(n.properties, "device_type"@)
}

/// A `compatible` value whose first string can be read: it is NUL-terminated
/// and UTF-8.
pub open spec fn compatible_readable(c: Seq<u8>) -> bool {
    first_cstr(c) matches Some(s) && valid_utf8(s)
}

/// A `device_type` value that reads as `memory`: UTF-8, and `memory` once the
/// trailing NULs are trimmed.
pub open spec fn is_memory_type(t: Seq<u8>) -> bool {
    &&& valid_utf8(t)
    &&& t.len() >= 6
    &&& t.take(6) == memory_bytes()
    &&& forall|i: int| 6 <= i < t.len() ==> t[i] == 0
}

/// The node declares a virtio device on MMIO: the first string of its
/// `compatible` is `virtio,mmio`.
pub open spec fn is_virtio_mmio(n: DtNodeView) -> bool {
    compatible_of(n) matches Some(c) && first_cstr(c) == Some(virtio_mmio_bytes())
}

/// The node's `device_type` is `memory`.
pub open spec fn memory_typed(n: DtNodeView) -> bool {
    device_type_of(n) matches Some(t) && is_memory_type(t)
}

/// The node declares main memory: it has no `compatible` and its
/// `device_type` is `memory`.
pub open spec fn is_memory(n: DtNodeView) -> bool {
    compatible_of(n) is None && memory_typed(n)
}

/// The first region of the node's `reg` property.
pub open spec fn first_reg(n: DtNodeView) -> Option<(usize, Option<usize>)> {
    match n.reg {
        Some(rs) => if rs.len() > 0 {
            Some(rs[0])
        } else {
            None
        },
        None => None,
    }
}

/// The first region of the node, when it has one with a size.
pub open spec fn first_region(n: DtNodeView) -> Option<(usize, usize)> {
    match first_reg(n) {
        Some((addr, Some(size))) => Some((addr, size)),
        _ => None,
    }
}

/// The node's first region has no size.
pub open spec fn sizeless_first_reg(n: DtNodeView) -> bool {
    first_reg(n) matches Some((_, None))
}

/// The walk can read all it needs of the node: the first `compatible`
/// string when it has one; otherwise its `device_type` as a string; and a
/// size in the first region of a node it probes.
pub open spec fn node_probeable(n: DtNodeView) -> bool {
    &&& compatible_of(n) matches Some(c) ==> compatible_readable(c) && (is_virtio_mmio(n)
        ==> !sizeless_first_reg(n))
    &&& compatible_of(n) is None ==> (device_type_of(n) matches Some(t) ==> valid_utf8(t)) && (
    is_memory(n) ==> !sizeless_first_reg(n))
}

/// Every node can be walked.
pub open spec fn all_probeable(nodes: Seq<DtNodeView>) -> bool {
    forall|i: int| 0 <= i < nodes.len() ==> #[trigger] node_probeable(nodes[i])
}

/// The region of the last memory node with a region, when there is one.
pub open spec fn last_memory(nodes: Seq<DtNodeView>) -> Option<(usize, usize)>
    decreases nodes.len(),
{
    if nodes.len() == 0 {
        None
    } else {
        let n = nodes.last();
        if is_memory(n) && first_region(n) is Some {
            first_region(n)
        } else {
            last_memory(nodes.drop_last())
        }
    }
}

/// The memory region that a walk over `nodes` reports: the last one found,
/// or `(0, 0)` when there is none.
pub open spec fn memory_of(nodes: Seq<DtNodeView>) -> (usize, usize) {
    match last_memory(nodes) {
        Some(r) => r,
        None => (0, 0),
    }
}

/// The MMIO regions that a walk over `nodes` reports: those of the virtio
/// devices that have a region, in the order of the nodes.
pub open spec fn mmio_of(nodes: Seq<DtNodeView>) -> Seq<(usize, usize)>
    decreases nodes.len(),
{
    if nodes.len() == 0 {
        seq![]
    } else {
        let n = nodes.last();
        let prev = mmio_of(nodes.drop_last());
        if is_virtio_mmio(n) && first_region(n) is Some {
            prev.push(first_region(n)->0)
        } else {
            prev
        }
    }
}

/// A device region: its start address and its size in bytes.
#[allow(non_camel_case_types)]
pub struct ioDevice {
    addr: usize,
    size: usize,
}

impl ioDevice {
    pub closed spec fn spec_addr(&self) -> usize {
        self.addr
    }

    pub closed spec fn spec_size(&self) -> usize {
        self.size
    }

    /// The start address of the region.
    pub fn addr(&self) -> (a: usize)
        ensures
            a == self.spec_addr(),
    {
        self.addr
    }

    /// The size of the region in bytes.
    pub fn size(&self) -> (s: usize)
        ensures
            s == self.spec_size(),
    {
        self.size
    }
}

/// The summary of a device tree.
pub struct DtbInfo {
    pub memory_addr: usize,
    pub memory_size: usize,
    pub mmio_regions: Vec<(usize, usize)>,
}

impl DtbInfo {
    /// A summary with no memory and no device.
    pub fn new() -> (d: Self)
        ensures
            d.memory_addr == 0,
            d.memory_size == 0,
            d.mmio_regions@ == Seq::<(usize, usize)>::empty(),
    {
        DtbInfo { memory_addr: 0, memory_size: 0, mmio_regions: Vec::new() }
    }
}

fn push_bytes(v: &mut Vec<u8>, b: u8)
    ensures
        final(v)@ == old(v)@.push(b),
{
    v.push(b);
}

fn virtio_mmio_exec() -> (v: Vec<u8>)
    ensures
        v@ == virtio_mmio_bytes(),
{
    let mut v: Vec<u8> = Vec::new();
    push_bytes(&mut v, 118);
    push_bytes(&mut v, 105);
    push_bytes(&mut v, 114);
    push_bytes(&mut v, 116);
    push_bytes(&mut v, 105);
    push_bytes(&mut v, 111);
    push_bytes(&mut v, 44);
    push_bytes(&mut v, 109);
    push_bytes(&mut v, 109);
    push_bytes(&mut v, 105);
    push_bytes(&mut v, 111);
    assert(v@ =~= virtio_mmio_bytes());
    v
}

fn memory_exec() -> (v: Vec<u8>)
    ensures
        v@ == memory_bytes(),
{
    let mut v: Vec<u8> = Vec::new();
    push_bytes(&mut v, 109);
    push_bytes(&mut v, 101);
    push_bytes(&mut v, 109);
    push_bytes(&mut v, 111);
    push_bytes(&mut v, 114);
    push_bytes(&mut v, 121);
    assert(v@ =~= memory_bytes());
    v
}

/// The value of the last property of `n` named `name`.
fn last_named<'a>(n: &'a DtNode, name: &String) -> (r: Option<&'a Vec<u8>>)
    ensures
        match last_value_named(n@.properties, name@) {
            Some(v) => r matches Some(x) && x@ == v,
            None => r is None,
        },
{
    let ghost props = n@.properties;
    let mut found: Option<&Vec<u8>> = None;
    let mut i: usize = 0;
    while i < n.properties.len()
        invariant
            0 <= i <= n.properties@.len(),
            props == n@.properties,
            props.len() == n.properties@.len(),
            match last_value_named(props.take(i as int), name@) {
                Some(v) => found matches Some(x) && x@ == v,
                None => found is None,
            },
        decreases n.properties@.len() - i,
    {
        proof {
            assert(props.take(i + 1).drop_last() =~= props.take(i as int));
            assert(props.take(i + 1).last() == props[i as int]);
            assert(props[i as int] == (n.properties@[i as int].0@, n.properties@[i as int].1@));
        }
        if n.properties[i].0 == *name {
            found = Some(&n.properties[i].1);
        }
        i = i + 1;
    }
    assert(props.take(props.len() as int) =~= props);
    found
}

/// The value of the first property of `n` named `name`.
fn first_named<'a>(n: &'a DtNode, name: &String) -> (r: Option<&'a Vec<u8>>)
    ensures
        match first_value_named(n@.properties, name@) {
            Some(v) => r matches Some(x) && x@ == v,
            None => r is None,
        },
{
    let ghost props = n@.properties;
    let mut found: Option<&Vec<u8>> = None;
    let mut i: usize = 0;
    while i < n.properties.len()
        invariant
            0 <= i <= n.properties@.len(),
            props == n@.properties,
            props.len() == n.properties@.len(),
            match first_value_named(props.take(i as int), name@) {
                Some(v) => found matches Some(x) && x@ == v,
                None => found is None,
            },
        decreases n.properties@.len() - i,
    {
        proof {
            assert(props.take(i + 1).drop_last() =~= props.take(i as int));
            assert(props.take(i + 1).last() == props[i as int]);
            assert(props[i as int] == (n.properties@[i as int].0@, n.properties@[i as int].1@));
        }
        if found.is_none() && n.properties[i].0 == *name {
            found = Some(&n.properties[i].1);
        }
        i = i + 1;
    }
    assert(props.take(props.len() as int) =~= props);
    found
}

/// Whether the first string of a `compatible` value can be read, and whether
/// it is `virtio,mmio`.
fn compatible_facts(c: &Vec<u8>) -> (r: (bool, bool))
    ensures
        r.0 == compatible_readable(c@),
        r.1 == (first_cstr(c@) == Some(virtio_mmio_bytes())),
{
    match find_nul(c.as_slice()) {
        None => (false, false),
        Some(k) => {
            proof {
                assert forall|j: int| first_nul_at(c@, j) implies j == k by {
                    lemma_first_nul_unique(c@, j, k as int);
                }
            }
            let s = slice_subrange(c.as_slice(), 0, k);
            assert(s@ == c@.take(k as int));
            let readable = str_from_utf8_is_ok(s);
            let target = virtio_mmio_exec();
            let virtio = bytes_equal(s, target.as_slice());
            (readable, virtio)
        },
    }
}

/// Whether a `device_type` value is UTF-8, and whether it reads as `memory`.
fn device_type_facts(t: &Vec<u8>) -> (r: (bool, bool))
    ensures
        r.0 == valid_utf8(t@),
        r.1 == is_memory_type(t@),
{
    let utf8 = str_from_utf8_is_ok(t.as_slice());
    if !utf8 || t.len() < 6 {
        return (utf8, false);
    }
    let head = slice_subrange(t.as_slice(), 0, 6);
    let target = memory_exec();
    if !bytes_equal(head, target.as_slice()) {
        assert(head@ == t@.take(6));
        return (utf8, false);
    }
    assert(head@ == t@.take(6));
    let mut i: usize = 6;
    while i < t.len()
        invariant
            6 <= i <= t@.len(),
            utf8 == valid_utf8(t@),
            t@.take(6) == memory_bytes(),
            forall|j: int| 6 <= j < i ==> t@[j] == 0,
        decreases t@.len() - i,
    {
        if t[i] != 0 {
            return (utf8, false);
        }
        i = i + 1;
    }
    assert(head@ == t@.take(6));
    (utf8, true)
}

/// What the walk reads of one node.
struct NodeFacts {
    has_compatible: bool,
    virtio: bool,
    memory_typed: bool,
    probeable: bool,
}

fn node_facts(n: &DtNode) -> (f: NodeFacts)
    ensures
        f.has_compatible == (compatible_of(n@) is Some),
        f.virtio == is_virtio_mmio(n@),
        f.memory_typed == memory_typed(n@),
        f.probeable == node_probeable(n@),
{
    let sizeless = match &n.reg {
        Some(rs) => rs.len() > 0 && rs[0].1.is_none(),
        None => false,
    };
    assert(sizeless == sizeless_first_reg(n@));
    let compatible = "compatible".to_owned();
    let device_type = "device_type".to_owned();
    let (mem_utf8, mem_typed) = match first_named(n, &device_type) {
        Some(t) => device_type_facts(t),
        None => (true, false),
    };
    match last_named(n, &compatible) {
        Some(c) => {
            let (readable, virtio) = compatible_facts(c);
            NodeFacts {
                has_compatible: true,
                virtio,
                memory_typed: mem_typed,
                probeable: readable && !(virtio && sizeless),
            }
        },
        None => NodeFacts {
            has_compatible: false,
            virtio: false,
            memory_typed: mem_typed,
            probeable: mem_utf8 && !(mem_typed && sizeless),
        },
    }
}

/// Whether every node can be walked (see [`node_probeable`]).
pub fn nodes_probeable(nodes: &Vec<DtNode>) -> (b: bool)
    ensures
        b == all_probeable(nodes_view(nodes@)),
{
    let mut i: usize = 0;
    while i < nodes.len()
        invariant
            0 <= i <= nodes@.len(),
            forall|j: int| 0 <= j < i ==> #[trigger] node_probeable(nodes_view(nodes@)[j]),
        decreases nodes@.len() - i,
    {
        let f = node_facts(&nodes[i]);
        assert(nodes_view(nodes@)[i as int] == nodes@[i as int]@);
        if !f.probeable {
            return false;
        }
        i = i + 1;
    }
    true
}

/// Probes a node for main memory: when its `device_type` is `memory` and it
/// has a first region, that region.
pub fn memory_probe(node: &DtNode) -> (r: Option<ioDevice>)
    requires
        device_type_of(node@) matches Some(t) ==> valid_utf8(t),
        memory_typed(node@) ==> !sizeless_first_reg(node@),
    ensures
        memory_typed(node@) && first_region(node@) is Some ==> (r matches Some(d) && (
        d.spec_addr(), d.spec_size()) == first_region(node@)->0),
        !(memory_typed(node@) && first_region(node@) is Some) ==> r is None,
{
    let device_type = "device_type".to_owned();
    match first_named(node, &device_type) {
        Some(t) => {
            let (_, memory) = device_type_facts(t);
            if memory {
                match &node.reg {
                    Some(rs) => {
                        if rs.len() > 0 {
                            match rs[0].1 {
                                Some(size) => {
                                    return Some(ioDevice { addr: rs[0].0, size });
                                },
                                None => {},
                            }
                        }
                    },
                    None => {},
                }
            }
            None
        },
        None => None,
    }
}

/// Probes a virtio node: its first region, when it has one.
pub fn virtio_probe(node: &DtNode) -> (r: Option<ioDevice>)
    requires
        !sizeless_first_reg(node@),
    ensures
        first_region(node@) is Some ==> (r matches Some(d) && (d.spec_addr(), d.spec_size())
            == first_region(node@)->0),
        first_region(node@) is None ==> r is None,
{
    match &node.reg {
        Some(rs) => {
            if rs.len() > 0 {
                match rs[0].1 {
                    Some(size) => Some(ioDevice { addr: rs[0].0, size }),
                    None => None,
                }
            } else {
                None
            }
        },
        None => None,
    }
}

/// Summarises a device tree given as its nodes in depth-first order: main
/// memory is the region of the last memory node, and the MMIO regions are
/// those of the virtio devices, in order.
pub fn walk_dt(nodes: &Vec<DtNode>) -> (info: DtbInfo)
    requires
        all_probeable(nodes_view(nodes@)),
    ensures
        (info.memory_addr, info.memory_size) == memory_of(nodes_view(nodes@)),
        info.mmio_regions@ == mmio_of(nodes_view(nodes@)),
{
    let ghost vs = nodes_view(nodes@);
    let mut info = DtbInfo::new();
    let mut i: usize = 0;
    while i < nodes.len()
        invariant
            0 <= i <= nodes@.len(),
            vs == nodes_view(nodes@),
            vs.len() == nodes@.len(),
            all_probeable(vs),
            (info.memory_addr, info.memory_size) == memory_of(vs.take(i as int)),
            info.mmio_regions@ == mmio_of(vs.take(i as int)),
        decreases nodes@.len() - i,
    {
        let node = &nodes[i];
        proof {
            assert(vs.take(i + 1).drop_last() =~= vs.take(i as int));
            assert(vs.take(i + 1).last() == vs[i as int]);
            assert(vs[i as int] == node@);
            assert(node_probeable(vs[i as int]));
        }
        let f = node_facts(node);
        if f.has_compatible {
            if f.virtio {
                match virtio_probe(node) {
                    Some(dev) => info.mmio_regions.push((dev.addr, dev.size)),
                    None => {},
                }
            }
        } else {
            match memory_probe(node) {
                Some(dev) => {
                    info.memory_addr = dev.addr;
                    info.memory_size = dev.size;
                },
                None => {},
            }
        }
        i = i + 1;
    }
    proof {
        assert(vs.take(vs.len() as int) =~= vs);
    }
    info
}

/// Summarises the device tree in `blob`: the error of the `fdt` crate when
/// it cannot open the blob, `TreeMalformed` when the crate would panic
/// listing its nodes, `NodeUnreadable` when a probed node has a property the
/// walk cannot read, and otherwise the summary of its nodes (see
/// [`walk_dt`]).
pub fn parse_dt(blob: &[u8]) -> (r: Result<DtbInfo, DtbError>)
    ensures
        match dtb_header_error(blob@) {
            Some(e) => r == Err::<DtbInfo, DtbError>(e),
            None => if !fdt_walk_returns(blob@) {
                r == Err::<DtbInfo, DtbError>(DtbError::TreeMalformed)
            } else if all_probeable(fdt_nodes_of(blob@)) {
                r matches Ok(info) && (info.memory_addr, info.memory_size) == memory_of(
                    fdt_nodes_of(blob@),
                ) && info.mmio_regions@ == mmio_of(fdt_nodes_of(blob@))
            } else {
                r == Err::<DtbInfo, DtbError>(DtbError::NodeUnreadable)
            },
        },
{
    if !fdt_walk_check(blob) {
        return Err(DtbError::TreeMalformed);
    }
    match fdt_nodes(blob) {
        Err(e) => Err(e),
        Ok(nodes) => {
            if nodes_probeable(&nodes) {
                Ok(walk_dt(&nodes))
            } else {
                Err(DtbError::NodeUnreadable)
            }
        },
    }
}

/// The walk is compositional: over the nodes of `a` then those of `b`, the
/// MMIO regions are those of `a` then those of `b`, and the memory found in
/// `b`, if any, wins over that found in `a`.
pub proof fn lemma_walk_concat(a: Seq<DtNodeView>, b: Seq<DtNodeView>)
    ensures
        mmio_of(a + b) == mmio_of(a) + mmio_of(b),
        last_memory(a + b) == (if last_memory(b) is Some {
            last_memory(b)
        } else {
            last_memory(a)
        }),
    decreases b.len(),
{
    if b.len() == 0 {
        assert(a + b =~= a);
        assert(mmio_of(a) + mmio_of(b) =~= mmio_of(a));
    } else {
        lemma_walk_concat(a, b.drop_last());
        assert((a + b).drop_last() =~= a + b.drop_last());
        assert((a + b).last() == b.last());
        let n = b.last();
        if is_virtio_mmio(n) && first_region(n) is Some {
            assert(mmio_of(a) + mmio_of(b) =~= (mmio_of(a) + mmio_of(b.drop_last())).push(
                first_region(n)->0,
            ));
        }
    }
}

/// A memory node whose `reg` starts with a sized region sets the reported
/// memory to that first region, when no memory node follows it.
pub proof fn lemma_memory_node_first_region(
    a: Seq<DtNodeView>,
    n: DtNodeView,
    rs: Seq<(usize, Option<usize>)>,
    size: usize,
)
    requires
        is_memory(n),
        n.reg == Some(rs),
        rs.len() > 0,
        rs[0].1 == Some(size),
    ensures
        memory_of(a.push(n)) == (rs[0].0, size),
{
    assert(a.push(n).last() == n);
}

/// A virtio MMIO node whose `reg` starts with a sized region adds that first
/// region after those of the nodes before it.
pub proof fn lemma_virtio_node_first_region(
    a: Seq<DtNodeView>,
    n: DtNodeView,
    rs: Seq<(usize, Option<usize>)>,
    size: usize,
)
    requires
        is_virtio_mmio(n),
        n.reg == Some(rs),
        rs.len() > 0,
        rs[0].1 == Some(size),
    ensures
        mmio_of(a.push(n)) == mmio_of(a).push((rs[0].0, size)),
{
    assert(a.push(n).last() == n);
    assert(a.push(n).drop_last() =~= a);
}

/// Nodes that declare neither memory nor a virtio device leave the summary
/// as it is.
pub proof fn lemma_other_nodes_ignored(a: Seq<DtNodeView>, n: DtNodeView)
    requires
        !is_virtio_mmio(n),
        !is_memory(n),
    ensures
        mmio_of(a.push(n)) == mmio_of(a),
        memory_of(a.push(n)) == memory_of(a),
{
    assert(a.push(n).drop_last() =~= a);
}

} // verus!
