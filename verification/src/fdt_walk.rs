//! When the `fdt` crate (0.1.5) lists the nodes of a blob without
//! panicking: a description of its walk over the structure block, and a
//! verified check of it.
//!
//! The walk is that of `Fdt::all_nodes`, with, for each node it yields,
//! `FdtNode::properties` and `FdtNode::reg`. Tokens are big-endian words:
//! 1 begins a node, 2 ends one, 3 is a property, 4 is a no-op and 5 ends
//! the block. The walk panics when it ends more nodes than it began, when a
//! node name is not a NUL-terminated UTF-8 string, when nodes nest 64 deep,
//! when a property header or value runs past the block, when a property name
//! offset does not lead to a NUL-terminated UTF-8 string of the strings
//! block, and when a parent's `#address-cells` or `#size-cells` is shorter
//! than four bytes. It stops, without panicking, where fewer than four bytes
//! are left or an unexpected token comes. An underflow of the depth counter
//! counts as a panic, as in a build with overflow checks.

use crate::bytes::{
    bytes_equal, find_nul, first_nul_at, lemma_first_nul_unique, slice_subrange,
    str_from_utf8_is_ok,
};
use crate::dtb::{be_u32_at, dtb_header_error, first_cstr};
use vstd::prelude::*;
use vstd::utf8::valid_utf8;

verus! {

/// `n` rounded up to a multiple of four.
pub open spec fn round4(n: int) -> int {
    (n + 3) / 4 * 4
}

/// Position `p` moved on by `n` bytes in a block of `len` bytes; past the
/// end the stream is empty.
pub open spec fn adv(len: int, p: int, n: int) -> int {
    if p + n <= len {
        p + n
    } else {
        len
    }
}

/// A whole word can be read at `p`.
pub open spec fn has_word(s: Seq<u8>, p: int) -> bool {
    0 <= p && p + 4 <= s.len()
}

/// The position of the first token at or after `p` that is not a no-op,
/// or `None` when fewer than four bytes are left first.
pub open spec fn skip_nops(s: Seq<u8>, p: int) -> Option<int>
    decreases s.len() - p,
{
    if !has_word(s, p) {
        None
    } else if be_u32_at(s, p) == 4 {
        skip_nops(s, p + 4)
    } else {
        Some(p)
    }
}

/// The structure block, as the header places it.
pub open spec fn struct_block(blob: Seq<u8>) -> Seq<u8> {
    blob.subrange(be_u32_at(blob, 8) as int, (be_u32_at(blob, 8) + be_u32_at(blob, 36)) as int)
}

/// The strings block lies inside the blob.
pub open spec fn strings_in_blob(blob: Seq<u8>) -> bool {
    be_u32_at(blob, 12) + be_u32_at(blob, 32) <= blob.len()
}

/// The strings block, as the header places it.
pub open spec fn strings_block(blob: Seq<u8>) -> Seq<u8> {
    blob.subrange(be_u32_at(blob, 12) as int, (be_u32_at(blob, 12) + be_u32_at(blob, 32)) as int)
}

/// The name at offset `off` of the strings block, when the crate can read
/// it: a NUL-terminated UTF-8 string.
pub open spec fn name_at(blob: Seq<u8>, off: int) -> Option<Seq<u8>> {
    if strings_in_blob(blob) && 0 <= off <= strings_block(blob).len() {
        match first_cstr(strings_block(blob).skip(off)) {
            Some(n) => if valid_utf8(n) {
                Some(n)
            } else {
                None
            },
            None => None,
        }
    } else {
        None
    }
}

/// The length of the value of the property at `r`.
pub open spec fn prop_len(s: Seq<u8>, r: int) -> int {
    be_u32_at(s, r + 4) as int
}

/// The property at `r` can be read: its header and value lie inside the
/// block and its name can be read.
pub open spec fn prop_ok(blob: Seq<u8>, s: Seq<u8>, r: int) -> bool {
    &&& r + 12 <= s.len()
    &&& r + 12 + prop_len(s, r) <= s.len()
    &&& name_at(blob, be_u32_at(s, r + 8) as int) is Some
}

/// Where the token after the property at `r` starts.
pub open spec fn prop_next(s: Seq<u8>, r: int) -> int {
    adv(s.len() as int, r + 12, round4(prop_len(s, r)))
}

/// A property can be read whatever the length of its value, zero
/// included, when its header and value lie inside the block and its name
/// offset leads to a NUL-terminated UTF-8 string.
pub proof fn lemma_prop_readable_any_length(blob: Seq<u8>, s: Seq<u8>, r: int)
    requires
        0 <= r,
        r + 12 + be_u32_at(s, r + 4) <= s.len(),
        name_at(blob, be_u32_at(s, r + 8) as int) is Some,
    ensures
        prop_ok(blob, s, r),
{
}

pub proof fn lemma_skip_nops_ge(s: Seq<u8>, p: int)
    ensures
        skip_nops(s, p) matches Some(r) ==> p <= r && has_word(s, r) && be_u32_at(s, r) != 4,
    decreases s.len() - p,
{
    if has_word(s, p) && be_u32_at(s, p) == 4 {
        lemma_skip_nops_ge(s, p + 4);
    }
}

/// `FdtNode::properties` from `q` reads every property without panicking.
pub open spec fn props_ok(blob: Seq<u8>, s: Seq<u8>, q: int) -> bool
    decreases s.len() - q,
{
    if !(0 <= q < s.len()) {
        true
    } else {
        match skip_nops(s, q) {
            None => true,
            Some(r) => if be_u32_at(s, r) != 3 {
                true
            } else if !prop_ok(blob, s, r) {
                false
            } else {
                proof {
                    lemma_skip_nops_ge(s, q);
                }
                props_ok(blob, s, prop_next(s, r))
            },
        }
    }
}

/// The bytes of `#address-cells`.
pub open spec fn address_cells_name() -> Seq<u8> {
    seq![35u8, 97, 100, 100, 114, 101, 115, 115, 45, 99, 101, 108, 108, 115]
}

/// The bytes of `#size-cells`.
pub open spec fn size_cells_name() -> Seq<u8> {
    seq![35u8, 115, 105, 122, 101, 45, 99, 101, 108, 108, 115]
}

/// `FdtNode::cell_sizes` over the properties from `q`: each
/// `#address-cells` and `#size-cells` value has at least four bytes.
pub open spec fn cells_ok(blob: Seq<u8>, s: Seq<u8>, q: int) -> bool
    decreases s.len() - q,
{
    if !(0 <= q < s.len()) {
        true
    } else {
        match skip_nops(s, q) {
            None => true,
            Some(r) => if be_u32_at(s, r) != 3 || !prop_ok(blob, s, r) {
                true
            } else {
                proof {
                    lemma_skip_nops_ge(s, q);
                }
                let name = name_at(blob, be_u32_at(s, r + 8) as int)->0;
                &&& (name == address_cells_name() || name == size_cells_name()) ==> prop_len(s, r)
                    >= 4
                &&& cells_ok(blob, s, prop_next(s, r))
            },
        }
    }
}

/// How a run of the walk ends.
pub enum WalkEnd {
    /// It stops without panicking.
    Stops,
    /// It panics.
    Panics,
    /// It goes on at this position.
    At(int),
}

/// The properties that `Fdt::all_nodes` reads right after a node's name,
/// from `p`.
pub open spec fn prop_run(blob: Seq<u8>, s: Seq<u8>, p: int) -> WalkEnd
    decreases s.len() - p,
{
    if !has_word(s, p) {
        WalkEnd::Stops
    } else if be_u32_at(s, p) != 3 {
        WalkEnd::At(p)
    } else if !prop_ok(blob, s, p) {
        WalkEnd::Panics
    } else {
        prop_run(blob, s, prop_next(s, p))
    }
}

/// An empty property whose name can be read is passed over like any
/// other: reading properties from it goes on right after its header.
pub proof fn lemma_empty_prop_passed_over(blob: Seq<u8>, s: Seq<u8>, q: int)
    requires
        0 <= q,
        q + 12 <= s.len(),
        be_u32_at(s, q) == 3,
        be_u32_at(s, q + 4) == 0,
        name_at(blob, be_u32_at(s, q + 8) as int) is Some,
    ensures
        prop_ok(blob, s, q),
        prop_next(s, q) == q + 12,
        props_ok(blob, s, q) == props_ok(blob, s, q + 12),
        prop_run(blob, s, q) == prop_run(blob, s, q + 12),
{
    assert(round4(0) == 0);
    assert(has_word(s, q));
    assert(skip_nops(s, q) == Some(q));
}

/// The ends of nodes that `Fdt::all_nodes` reads from `p` at depth `d`.
pub open spec fn end_nodes(s: Seq<u8>, p: int, d: int) -> (WalkEnd, int)
    decreases s.len() - p,
{
    if !has_word(s, p) {
        (WalkEnd::Stops, d)
    } else if be_u32_at(s, p) == 2 {
        if d <= 0 {
            (WalkEnd::Panics, d)
        } else {
            end_nodes(s, p + 4, d - 1)
        }
    } else {
        (WalkEnd::At(p), d)
    }
}

pub proof fn lemma_prop_run_ge(blob: Seq<u8>, s: Seq<u8>, p: int)
    ensures
        prop_run(blob, s, p) matches WalkEnd::At(q) ==> p <= q && has_word(s, q),
    decreases s.len() - p,
{
    if has_word(s, p) && be_u32_at(s, p) == 3 && prop_ok(blob, s, p) {
        lemma_prop_run_ge(blob, s, prop_next(s, p));
    }
}

pub proof fn lemma_end_nodes_ge(s: Seq<u8>, p: int, d: int)
    ensures
        end_nodes(s, p, d).0 matches WalkEnd::At(q) ==> p <= q && has_word(s, q) && be_u32_at(
            s,
            q,
        ) != 2 && end_nodes(s, p, d).1 <= d && (d >= 0 ==> end_nodes(s, p, d).1 >= 0),
    decreases s.len() - p,
{
    if has_word(s, p) && be_u32_at(s, p) == 2 && d > 0 {
        lemma_end_nodes_ge(s, p + 4, d - 1);
    }
}

/// The parent property positions before any node is read.
pub open spec fn no_parents() -> Seq<Option<int>> {
    Seq::new(64, |i: int| None::<int>)
}

/// Whether the parent's cell sizes can be read, for a node whose parent's
/// properties start at `parent`.
pub open spec fn parent_cells_ok(blob: Seq<u8>, s: Seq<u8>, parent: Option<int>) -> bool {
    match parent {
        Some(q) => cells_ok(blob, s, q),
        None => true,
    }
}

/// `Fdt::all_nodes` from position `p` at depth `d`, with `parents[i]` where
/// the properties of the last node begun at depth `i` start, and for each
/// node it yields `FdtNode::properties` and `FdtNode::reg`, returns without
/// panicking.
pub open spec fn walk(blob: Seq<u8>, s: Seq<u8>, p: int, d: int, parents: Seq<Option<int>>) -> bool
    decreases s.len() - p,
{
    if !(0 <= p < s.len()) {
        true
    } else {
        match end_nodes(s, p, d).0 {
            WalkEnd::Stops => true,
            WalkEnd::Panics => false,
            WalkEnd::At(p1) => {
                let d1 = end_nodes(s, p, d).1;
                if be_u32_at(s, p1) == 5 {
                    true
                } else {
                    match skip_nops(s, p1) {
                        None => true,
                        Some(p2) => if be_u32_at(s, p2) != 1 {
                            true
                        } else {
                            match first_cstr(s.skip(p2 + 4)) {
                                None => false,
                                Some(name) => if !valid_utf8(name) {
                                    false
                                } else {
                                    let p4 = adv(s.len() as int, p2 + 4, round4(name.len() + 1int));
                                    let d2 = d1 + 1;
                                    if d2 >= 64 || d2 < 1 {
                                        false
                                    } else {
                                        let par = parents.update(d2, Some(p4));
                                        match skip_nops(s, p4) {
                                            None => true,
                                            Some(p5) => match prop_run(blob, s, p5) {
                                                WalkEnd::Panics => false,
                                                WalkEnd::Stops => true,
                                                WalkEnd::At(p6) => {
                                                    proof {
                                                        lemma_end_nodes_ge(s, p, d);
                                                        lemma_skip_nops_ge(s, p1);
                                                        lemma_skip_nops_ge(s, p4);
                                                        lemma_prop_run_ge(blob, s, p5);
                                                        assert(round4(name.len() + 1int) >= 0);
                                                        assert(p4 >= p2 + 4);
                                                        assert(p < p6 <= s.len());
                                                    }
                                                    &&& props_ok(blob, s, p4)
                                                    &&& (d2 >= 2 ==> parent_cells_ok(
                                                        blob,
                                                        s,
                                                        par[d2 - 1],
                                                    ))
                                                    &&& walk(blob, s, p6, d2, par)
                                                },
                                            },
                                        }
                                    }
                                },
                            }
                        },
                    }
                }
            },
        }
    }
}

/// The `fdt` crate opens `blob` and lists its nodes, their properties and
/// their regions without panicking: when the header passes, the structure
/// block lies inside the blob and the walk over it returns.
pub open spec fn fdt_walk_returns(blob: Seq<u8>) -> bool {
    dtb_header_error(blob) is None ==> {
        &&& be_u32_at(blob, 8) + be_u32_at(blob, 36) <= blob.len()
        &&& walk(blob, struct_block(blob), 0, 0, no_parents())
    }
}

// ---- the check ----

fn word_at(s: &[u8], p: usize) -> (w: u64)
    requires
        p + 4 <= s@.len(),
    ensures
        w == be_u32_at(s@, p as int),
        w <= 0xffff_ffff,
{
    (s[p] as u64) * 0x100_0000 + (s[p + 1] as u64) * 0x1_0000 + (s[p + 2] as u64) * 0x100 + (s[p
        + 3] as u64)
}

fn skip_nops_exec(s: &[u8], p: usize) -> (r: Option<usize>)
    ensures
        match skip_nops(s@, p as int) {
            Some(q) => r == Some(q as usize),
            None => r is None,
        },
{
    let n = s.len();
    let mut q = p;
    while q <= n && n - q >= 4
        invariant
            n == s@.len(),
            skip_nops(s@, p as int) == skip_nops(s@, q as int),
        decreases s@.len() - q,
    {
        if word_at(s, q) != 4 {
            proof {
                lemma_skip_nops_ge(s@, q as int);
            }
            return Some(q);
        }
        q = q + 4;
    }
    None
}

/// Position `p` moved on by `n` rounded up to four, in a block of `len`.
fn adv_round(len: usize, p: usize, n: usize) -> (r: usize)
    requires
        p <= len,
    ensures
        r == adv(len as int, p as int, round4(n as int)),
{
    let rem = len - p;
    let pad = (4 - n % 4) % 4;
    assert(round4(n as int) == n + pad);
    if n <= rem && pad <= rem - n {
        p + n + pad
    } else {
        len
    }
}

/// The name at offset `off` of the strings block can be read; when `target`
/// is given, also whether the name equals it.
fn name_facts(blob: &[u8], off: u64, target: &[u8]) -> (r: (bool, bool))
    requires
        blob@.len() >= 40,
        off <= 0xffff_ffff,
    ensures
        r.0 == (name_at(blob@, off as int) is Some),
        r.0 ==> r.1 == (name_at(blob@, off as int)->0 == target@),
{
    let start = word_at(blob, 12);
    let size = word_at(blob, 32);
    if start + size > blob.len() as u64 {
        return (false, false);
    }
    let strings = slice_subrange(blob, start as usize, (start + size) as usize);
    assert(strings@ == strings_block(blob@));
    if off > size {
        return (false, false);
    }
    let rest = slice_subrange(strings, off as usize, strings.len());
    assert(rest@ == strings_block(blob@).skip(off as int));
    match find_nul(rest) {
        None => {
            assert(!exists|k: int| first_nul_at(rest@, k));
            (false, false)
        },
        Some(k) => {
            proof {
                assert forall|j: int| first_nul_at(rest@, j) implies j == k by {
                    lemma_first_nul_unique(rest@, j, k as int);
                }
            }
            let name = slice_subrange(rest, 0, k);
            assert(name@ == rest@.take(k as int));
            let ok = str_from_utf8_is_ok(name);
            (ok, bytes_equal(name, target))
        },
    }
}

fn prop_ok_exec(blob: &[u8], s: &[u8], r: usize) -> (b: bool)
    requires
        blob@.len() >= 40,
        has_word(s@, r as int),
    ensures
        b == prop_ok(blob@, s@, r as int),
{
    if !(s.len() - r >= 12) {
        return false;
    }
    let len = word_at(s, r + 4);
    if len > (s.len() - r - 12) as u64 {
        return false;
    }
    let empty: Vec<u8> = Vec::new();
    let (ok, _) = name_facts(blob, word_at(s, r + 8), empty.as_slice());
    ok
}

fn prop_next_exec(s: &[u8], r: usize) -> (n: usize)
    requires
        r + 12 <= s@.len(),
    ensures
        n == prop_next(s@, r as int),
{
    let _ = s.len();
    let len = word_at(s, r + 4);
    adv_round(s.len(), r + 12, len as usize)
}

fn props_ok_exec(blob: &[u8], s: &[u8], q0: usize) -> (b: bool)
    requires
        blob@.len() >= 40,
    ensures
        b == props_ok(blob@, s@, q0 as int),
{
    let mut q = q0;
    while q < s.len()
        invariant
            blob@.len() >= 40,
            props_ok(blob@, s@, q0 as int) == props_ok(blob@, s@, q as int),
        decreases s@.len() - q,
    {
        match skip_nops_exec(s, q) {
            None => {
                return true;
            },
            Some(r) => {
                proof {
                    lemma_skip_nops_ge(s@, q as int);
                }
                if word_at(s, r) != 3 {
                    return true;
                }
                if !prop_ok_exec(blob, s, r) {
                    return false;
                }
                q = prop_next_exec(s, r);
            },
        }
    }
    true
}

fn name_bytes(which: bool) -> (v: Vec<u8>)
    ensures
        v@ == (if which {
            address_cells_name()
        } else {
            size_cells_name()
        }),
{
    let mut v: Vec<u8> = Vec::new();
    v.push(35);
    if which {
        v.push(97);
        v.push(100);
        v.push(100);
        v.push(114);
        v.push(101);
        v.push(115);
        v.push(115);
    } else {
        v.push(115);
        v.push(105);
        v.push(122);
        v.push(101);
    }
    v.push(45);
    v.push(99);
    v.push(101);
    v.push(108);
    v.push(108);
    v.push(115);
    assert(v@ =~= (if which {
        address_cells_name()
    } else {
        size_cells_name()
    }));
    v
}

fn cells_ok_exec(blob: &[u8], s: &[u8], q0: usize) -> (b: bool)
    requires
        blob@.len() >= 40,
    ensures
        b == cells_ok(blob@, s@, q0 as int),
{
    let address = name_bytes(true);
    let size = name_bytes(false);
    let mut q = q0;
    while q < s.len()
        invariant
            blob@.len() >= 40,
            address@ == address_cells_name(),
            size@ == size_cells_name(),
            cells_ok(blob@, s@, q0 as int) == cells_ok(blob@, s@, q as int),
        decreases s@.len() - q,
    {
        match skip_nops_exec(s, q) {
            None => {
                return true;
            },
            Some(r) => {
                proof {
                    lemma_skip_nops_ge(s@, q as int);
                }
                if word_at(s, r) != 3 || !prop_ok_exec(blob, s, r) {
                    return true;
                }
                let off = word_at(s, r + 8);
                let (_, is_address) = name_facts(blob, off, address.as_slice());
                let (_, is_size) = name_facts(blob, off, size.as_slice());
                if (is_address || is_size) && word_at(s, r + 4) < 4 {
                    return false;
                }
                q = prop_next_exec(s, r);
            },
        }
    }
    true
}

fn prop_run_exec(blob: &[u8], s: &[u8], p0: usize) -> (r: (u8, usize))
    requires
        blob@.len() >= 40,
    ensures
        r.0 == 0 ==> prop_run(blob@, s@, p0 as int) is Stops,
        r.0 == 1 ==> prop_run(blob@, s@, p0 as int) is Panics,
        r.0 == 2 ==> prop_run(blob@, s@, p0 as int) == WalkEnd::At(r.1 as int),
        r.0 <= 2,
{
    let n = s.len();
    let mut p = p0;
    while p <= n && n - p >= 4
        invariant
            n == s@.len(),
            blob@.len() >= 40,
            prop_run(blob@, s@, p0 as int) == prop_run(blob@, s@, p as int),
        decreases s@.len() - p,
    {
        if word_at(s, p) != 3 {
            return (2, p);
        }
        if !prop_ok_exec(blob, s, p) {
            return (1, 0);
        }
        p = prop_next_exec(s, p);
    }
    (0, 0)
}

fn end_nodes_exec(s: &[u8], p0: usize, d0: usize) -> (r: (u8, usize, usize))
    ensures
        r.0 == 0 ==> end_nodes(s@, p0 as int, d0 as int).0 is Stops,
        r.0 == 1 ==> end_nodes(s@, p0 as int, d0 as int).0 is Panics,
        r.0 == 2 ==> end_nodes(s@, p0 as int, d0 as int) == (WalkEnd::At(r.1 as int), r.2 as int),
        r.0 <= 2,
{
    let n = s.len();
    let mut p = p0;
    let mut d = d0;
    while p <= n && n - p >= 4
        invariant
            n == s@.len(),
            end_nodes(s@, p0 as int, d0 as int) == end_nodes(s@, p as int, d as int),
        decreases s@.len() - p,
    {
        if word_at(s, p) != 2 {
            return (2, p, d);
        }
        if d == 0 {
            return (1, 0, 0);
        }
        p = p + 4;
        d = d - 1;
    }
    (0, 0, 0)
}

/// The plain values of the parent positions.
pub open spec fn parents_view(v: Seq<Option<usize>>) -> Seq<Option<int>> {
    v.map_values(|o: Option<usize>| match o {
        Some(x) => Some(x as int),
        None => None,
    })
}

fn walk_exec(blob: &[u8], s: &[u8]) -> (b: bool)
    requires
        blob@.len() >= 40,
    ensures
        b == walk(blob@, s@, 0, 0, no_parents()),
{
    let mut parents: Vec<Option<usize>> = Vec::new();
    let mut i: usize = 0;
    while i < 64
        invariant
            0 <= i <= 64,
            parents@ == Seq::new(i as nat, |j: int| None::<usize>),
        decreases 64 - i,
    {
        parents.push(None);
        i = i + 1;
        assert(parents@ =~= Seq::new(i as nat, |j: int| None::<usize>));
    }
    assert(parents_view(parents@) =~= no_parents());
    let mut p: usize = 0;
    let mut d: usize = 0;
    while p < s.len()
        invariant
            blob@.len() >= 40,
            parents@.len() == 64,
            d < 64,
            walk(blob@, s@, 0, 0, no_parents()) == walk(
                blob@,
                s@,
                p as int,
                d as int,
                parents_view(parents@),
            ),
        decreases s@.len() - p,
    {
        let (end, p1, d1) = end_nodes_exec(s, p, d);
        if end == 0 {
            return true;
        }
        if end == 1 {
            return false;
        }
        proof {
            lemma_end_nodes_ge(s@, p as int, d as int);
        }
        if word_at(s, p1) == 5 {
            return true;
        }
        let p2 = match skip_nops_exec(s, p1) {
            None => {
                return true;
            },
            Some(p2) => p2,
        };
        proof {
            lemma_skip_nops_ge(s@, p1 as int);
        }
        if word_at(s, p2) != 1 {
            return true;
        }
        let rest = slice_subrange(s, p2 + 4, s.len());
        assert(rest@ == s@.skip(p2 + 4));
        let k = match find_nul(rest) {
            None => {
                assert(!exists|k: int| first_nul_at(rest@, k));
                return false;
            },
            Some(k) => k,
        };
        proof {
            assert forall|j: int| first_nul_at(rest@, j) implies j == k by {
                lemma_first_nul_unique(rest@, j, k as int);
            }
        }
        let name = slice_subrange(rest, 0, k);
        assert(name@ == rest@.take(k as int));
        if !str_from_utf8_is_ok(name) {
            return false;
        }
        let p4 = adv_round(s.len(), p2 + 4, k + 1);
        let d2 = d1 + 1;
        if d2 >= 64 {
            return false;
        }
        let ghost before = parents_view(parents@);
        parents.set(d2, Some(p4));
        assert(parents_view(parents@) =~= before.update(d2 as int, Some(p4 as int)));
        let p5 = match skip_nops_exec(s, p4) {
            None => {
                return true;
            },
            Some(p5) => p5,
        };
        proof {
            lemma_skip_nops_ge(s@, p4 as int);
        }
        let (run, p6) = prop_run_exec(blob, s, p5);
        if run == 1 {
            return false;
        }
        if run == 0 {
            return true;
        }
        proof {
            lemma_prop_run_ge(blob@, s@, p5 as int);
            assert(round4(k + 1) >= 0);
            assert(p4 >= p2 + 4);
        }
        if !props_ok_exec(blob, s, p4) {
            return false;
        }
        if d2 >= 2 {
            match parents[d2 - 1] {
                Some(q) => {
                    if !cells_ok_exec(blob, s, q) {
                        return false;
                    }
                },
                None => {},
            }
        }
        p = p6;
        d = d2;
    }
    true
}

/// Whether the `fdt` crate lists the nodes of `blob`, their properties and
/// their regions without panicking (see [`fdt_walk_returns`]).
pub fn fdt_walk_check(blob: &[u8]) -> (b: bool)
    ensures
        b == fdt_walk_returns(blob@),
{
    if blob.len() < 40 {
        return true;
    }
    if word_at(blob, 0) != 0xd00d_feed || (blob.len() as u64) < word_at(blob, 4) {
        return true;
    }
    let start = word_at(blob, 8);
    let size = word_at(blob, 36);
    if start + size > blob.len() as u64 {
        return false;
    }
    let s = slice_subrange(blob, start as usize, (start + size) as usize);
    assert(s@ == struct_block(blob@));
    walk_exec(blob, s)
}

} // verus!
