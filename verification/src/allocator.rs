//! The early bump allocator: bytes are handed out upwards from the start of
//! its region, pages downwards from the end, and the two never meet.

use vstd::prelude::*;

verus! {

/// Why an allocation request was refused.
#[derive(Debug, Clone, Copy, PartialEq, Eq, Structural)]
pub enum AllocError {
    /// An argument was out of range.
    InvalidParam,
    /// A region added overlaps one already managed.
    MemoryOverlap,
    /// Not enough free memory is left for the request.
    NoMemory,
    /// The memory handed back was not allocated by this allocator.
    NotAllocated,
}

/// The result of an allocator operation.
pub type AllocResult<T = ()> = Result<T, AllocError>;

/// A size and alignment that `Layout::from_size_align` refuses.
#[derive(Debug, Clone, Copy, PartialEq, Eq, Structural)]
pub struct LayoutError;

/// `a` is a power of two: a single bit is set.
pub open spec fn is_power_of_two(a: usize) -> bool {
    a != 0 && a & ((a - 1) as usize) == 0
}

/// A layout can have this size and alignment: the alignment is a power of
/// two and the size, rounded up to the alignment, does not exceed
/// `isize::MAX`.
pub open spec fn layout_valid(size: usize, align: usize) -> bool {
    is_power_of_two(align) && size <= isize::MAX - (align - 1)
}

/// The size and alignment of a byte allocation request.
#[derive(Debug, Clone, Copy, PartialEq, Eq, Structural)]
pub struct Layout {
    size: usize,
    align: usize,
}

impl Layout {
    pub closed spec fn spec_size(&self) -> usize {
        self.size
    }

    pub closed spec fn spec_align(&self) -> usize {
        self.align
    }

    /// A layout of `size` bytes aligned to `align`, as
    /// `core::alloc::Layout::from_size_align` builds it: refused unless the
    /// alignment is a power of two and the size, rounded up to it, does not
    /// exceed `isize::MAX`.
    pub fn from_size_align(size: usize, align: usize) -> (r: Result<Layout, LayoutError>)
        ensures
            layout_valid(size, align) ==> (r matches Ok(l) && l.spec_size() == size
                && l.spec_align() == align),
            !layout_valid(size, align) ==> r == Err::<Layout, LayoutError>(LayoutError),
    {
        if align == 0 || align & (align - 1) != 0 {
            return Err(LayoutError);
        }
        if align - 1 > isize::MAX as usize || size > (isize::MAX as usize) - (align - 1) {
            return Err(LayoutError);
        }
        Ok(Layout { size, align })
    }

    /// The size in bytes.
    pub fn size(&self) -> (s: usize)
        ensures
            s == self.spec_size(),
    {
        self.size
    }

    /// The alignment in bytes.
    pub fn align(&self) -> (a: usize)
        ensures
            a == self.spec_align(),
    {
        self.align
    }
}

/// The abstract state of an [`EarlyAllocator`]: the four boundaries of its
/// region and the number of live byte allocations.
///
/// The region is `[byte_start, page_start)`. Bytes in use are
/// `[byte_start, byte_end)`, pages in use are `[page_end, page_start)`, and
/// `[byte_end, page_end)` is free.
pub struct EarlyAllocatorState {
    pub byte_start: nat,
    pub byte_end: nat,
    pub page_start: nat,
    pub page_end: nat,
    pub allocated: nat,
}

impl EarlyAllocatorState {
    /// The boundaries are ordered, an allocator with no live byte
    /// allocations uses no bytes, and the page area is a whole number of
    /// pages of `page_size` bytes.
    pub open spec fn inv(self, page_size: nat) -> bool {
        &&& self.byte_start <= self.byte_end
        &&& self.byte_end <= self.page_end
        &&& self.page_end <= self.page_start
        &&& self.page_start <= usize::MAX
        &&& self.allocated <= usize::MAX
        &&& (self.allocated == 0 ==> self.byte_end == self.byte_start)
        &&& (page_size > 0 ==> (self.page_start - self.page_end) % (page_size as int) == 0)
        &&& (page_size == 0 ==> self.page_start == self.page_end)
    }

    /// The state before `init` is ever called.
    pub open spec fn empty() -> EarlyAllocatorState {
        EarlyAllocatorState { byte_start: 0, byte_end: 0, page_start: 0, page_end: 0, allocated: 0 }
    }

    /// The state after `init(start, size)`: the whole region is free. The
    /// count of live byte allocations is left as it was.
    pub open spec fn initialized(self, start: nat, size: nat) -> EarlyAllocatorState {
        EarlyAllocatorState {
            byte_start: start,
            byte_end: start,
            page_start: start + size,
            page_end: start + size,
            allocated: self.allocated,
        }
    }

    /// A byte allocation of `size` bytes succeeds exactly when it ends
    /// strictly below the page area.
    pub open spec fn byte_alloc_fits(self, size: nat) -> bool {
        self.byte_end + size < self.page_end
    }

    /// The state after a successful byte allocation of `size` bytes.
    pub open spec fn after_alloc(self, size: nat) -> EarlyAllocatorState {
        EarlyAllocatorState {
            byte_end: self.byte_end + size,
            allocated: self.allocated + 1,
            ..self
        }
    }

    /// The state after a byte deallocation: one live allocation fewer, and
    /// when none is left the byte area is emptied.
    pub open spec fn after_dealloc(self) -> EarlyAllocatorState {
        let allocated = (self.allocated - 1) as nat;
        EarlyAllocatorState {
            byte_end: if allocated == 0 { self.byte_start } else { self.byte_end },
            allocated,
            ..self
        }
    }

    /// A page allocation of `bytes` bytes succeeds exactly when the page
    /// area, grown downwards by that much, stays strictly above the bytes in
    /// use.
    pub open spec fn page_alloc_fits(self, bytes: nat) -> bool {
        self.page_end - bytes > self.byte_end
    }

    /// The state after a successful page allocation of `bytes` bytes.
    pub open spec fn after_alloc_pages(self, bytes: nat) -> EarlyAllocatorState {
        EarlyAllocatorState { page_end: (self.page_end - bytes) as nat, ..self }
    }

    pub open spec fn total_bytes(self) -> int {
        self.page_start - self.byte_start
    }

    pub open spec fn used_bytes(self) -> int {
        self.byte_end - self.byte_start
    }

    pub open spec fn available_bytes(self) -> int {
        self.page_end - self.byte_end
    }

    pub open spec fn used_pages(self, page_size: nat) -> int {
        (self.page_start - self.page_end) / (page_size as int)
    }

    pub open spec fn available_pages(self, page_size: nat) -> int {
        (self.page_end - self.byte_end) / (page_size as int)
    }
}

/// A bump allocator for the early boot stage, with pages of `PAGE_SIZE`
/// bytes.
pub struct EarlyAllocator<const PAGE_SIZE: usize> {
    byte_start_addr: usize,
    page_start_addr: usize,
    byte_end_addr: usize,
    page_end_addr: usize,
    allocated_byte_num: usize,
}

impl<const PAGE_SIZE: usize> View for EarlyAllocator<PAGE_SIZE> {
    type V = EarlyAllocatorState;

    closed spec fn view(&self) -> EarlyAllocatorState {
        EarlyAllocatorState {
            byte_start: self.byte_start_addr as nat,
            byte_end: self.byte_end_addr as nat,
            page_start: self.page_start_addr as nat,
            page_end: self.page_end_addr as nat,
            allocated: self.allocated_byte_num as nat,
        }
    }
}

impl<const PAGE_SIZE: usize> EarlyAllocator<PAGE_SIZE> {
    /// The allocator is in a state that its operations keep.
    pub open spec fn wf(&self) -> bool {
        self@.inv(PAGE_SIZE as nat)
    }

    /// An allocator with an empty region at address zero.
    pub fn new() -> (a: Self)
        ensures
            a.wf(),
            a@ == EarlyAllocatorState::empty(),
    {
        proof {
            if PAGE_SIZE > 0 {
                assert(0int % (PAGE_SIZE as int) == 0);
            }
        }
        Self {
            byte_start_addr: 0,
            page_start_addr: 0,
            byte_end_addr: 0,
            page_end_addr: 0,
            allocated_byte_num: 0,
        }
    }

    /// Hands the allocator the region `[start, start + size)`, all of it free.
    pub fn init(&mut self, start: usize, size: usize)
        requires
            old(self).wf(),
            start + size <= usize::MAX,
        ensures
            final(self).wf(),
            final(self)@ == old(self)@.initialized(start as nat, size as nat),
    {
        let end = start + size;
        self.byte_start_addr = start;
        self.byte_end_addr = start;
        self.page_start_addr = end;
        self.page_end_addr = end;
        proof {
            if PAGE_SIZE > 0 {
                assert(0int % (PAGE_SIZE as int) == 0);
            }
        }
    }

    /// Accepts a further region and ignores it: this allocator manages a
    /// single region.
    pub fn add_memory(&mut self, start: usize, size: usize) -> (r: AllocResult)
        requires
            old(self).wf(),
        ensures
            final(self).wf(),
            final(self)@ == old(self)@,
            r == Ok::<(), AllocError>(()),
    {
        Ok(())
    }

    /// Allocates the layout's size in bytes at the low end of the free area and
    /// returns their start address; refuses with `NoMemory` when they would
    /// reach the page area.
    pub fn alloc_bytes(&mut self, layout: Layout) -> (r: AllocResult<usize>)
        requires
            old(self).wf(),
            old(self)@.byte_end + layout.spec_size() <= usize::MAX,
            old(self)@.byte_alloc_fits(layout.spec_size() as nat) ==> old(self)@.allocated < usize::MAX,
        ensures
            final(self).wf(),
            old(self)@.byte_alloc_fits(layout.spec_size() as nat) ==> {
                &&& r == Ok::<usize, AllocError>(old(self)@.byte_end as usize)
                &&& final(self)@ == old(self)@.after_alloc(layout.spec_size() as nat)
            },
            !old(self)@.byte_alloc_fits(layout.spec_size() as nat) ==> {
                &&& r == Err::<usize, AllocError>(AllocError::NoMemory)
                &&& final(self)@ == old(self)@
            },
            old(self)@.byte_end + layout.spec_size() < old(self)@.page_end ==> r == Ok::<
                usize,
                AllocError,
            >(old(self)@.byte_end as usize),
            old(self)@.byte_end + layout.spec_size() >= old(self)@.page_end ==> r == Err::<
                usize,
                AllocError,
            >(AllocError::NoMemory),
    {
        if self.byte_end_addr + layout.size >= self.page_end_addr {
            return Err(AllocError::NoMemory);
        }
        let addr = self.byte_end_addr;
        self.byte_end_addr = self.byte_end_addr + layout.size;
        self.allocated_byte_num += 1;
        Ok(addr)
    }

    /// Gives back one byte allocation. When it was the last one alive, the
    /// whole byte area becomes free again.
    pub fn dealloc(&mut self, pos: usize, layout: Layout)
        requires
            old(self).wf(),
            old(self)@.allocated > 0,
        ensures
            final(self).wf(),
            final(self)@ == old(self)@.after_dealloc(),
    {
        self.allocated_byte_num -= 1;
        if self.allocated_byte_num == 0 {
            self.byte_end_addr = self.byte_start_addr;
        }
    }

    /// The size of the whole region.
    pub fn total_bytes(&self) -> (n: usize)
        requires
            self.wf(),
        ensures
            n == self@.total_bytes(),
    {
        self.page_start_addr - self.byte_start_addr
    }

    /// The bytes handed out by byte allocations.
    pub fn used_bytes(&self) -> (n: usize)
        requires
            self.wf(),
        ensures
            n == self@.used_bytes(),
    {
        self.byte_end_addr - self.byte_start_addr
    }

    /// The bytes still free, between the byte area and the page area.
    pub fn available_bytes(&self) -> (n: usize)
        requires
            self.wf(),
        ensures
            n == self@.available_bytes(),
    {
        self.page_end_addr - self.byte_end_addr
    }

    /// Allocates `num_pages` pages at the high end of the free area and
    /// returns the start address of the first; refuses with `NoMemory` when
    /// they would reach the byte area. The alignment is not consulted.
    pub fn alloc_pages(&mut self, num_pages: usize, align_pow2: usize) -> (r: AllocResult<usize>)
        requires
            old(self).wf(),
            PAGE_SIZE * num_pages <= old(self)@.page_end,
        ensures
            final(self).wf(),
            old(self)@.page_alloc_fits((PAGE_SIZE * num_pages) as nat) ==> {
                &&& final(self)@ == old(self)@.after_alloc_pages((PAGE_SIZE * num_pages) as nat)
                &&& r == Ok::<usize, AllocError>(final(self)@.page_end as usize)
            },
            !old(self)@.page_alloc_fits((PAGE_SIZE * num_pages) as nat) ==> {
                &&& r == Err::<usize, AllocError>(AllocError::NoMemory)
                &&& final(self)@ == old(self)@
            },
    {
        proof {
            assert(0 <= PAGE_SIZE * num_pages) by (nonlinear_arith);
        }
        let bytes = PAGE_SIZE * num_pages;
        if self.page_end_addr - bytes <= self.byte_end_addr {
            return Err(AllocError::NoMemory);
        }
        proof {
            let ghost s = self@;
            if PAGE_SIZE > 0 {
                let p = PAGE_SIZE as int;
                let d = s.page_start - s.page_end;
                vstd::arithmetic::div_mod::lemma_mod_multiples_vanish(num_pages as int, d, p);
                assert(p * (num_pages as int) + d == s.page_start - (s.page_end - bytes));
            } else {
                assert(bytes == 0) by (nonlinear_arith)
                    requires
                        bytes == PAGE_SIZE * num_pages,
                        PAGE_SIZE == 0,
                ;
            }
        }
        self.page_end_addr = self.page_end_addr - bytes;
        Ok(self.page_end_addr)
    }

    /// Accepts pages back and ignores them: pages are never reclaimed.
    pub fn dealloc_pages(&mut self, pos: usize, num_pages: usize)
        requires
            old(self).wf(),
        ensures
            final(self).wf(),
            final(self)@ == old(self)@,
    {
    }

    /// The size of the whole region, in bytes.
    pub fn total_pages(&self) -> (n: usize)
        requires
            self.wf(),
        ensures
            n == self@.total_bytes(),
    {
        self.page_start_addr - self.byte_start_addr
    }

    /// The number of pages handed out.
    pub fn used_pages(&self) -> (n: usize)
        requires
            self.wf(),
            PAGE_SIZE > 0,
        ensures
            n == self@.used_pages(PAGE_SIZE as nat),
    {
        (self.page_start_addr - self.page_end_addr) / PAGE_SIZE
    }

    /// The number of whole pages that still fit in the free area.
    pub fn available_pages(&self) -> (n: usize)
        requires
            self.wf(),
            PAGE_SIZE > 0,
        ensures
            n == self@.available_pages(PAGE_SIZE as nat),
            n * PAGE_SIZE <= self@.page_end - self@.byte_end < (n + 1) * PAGE_SIZE,
    {
        proof {
            lemma_available_pages_exact(self@, PAGE_SIZE as nat, 0);
        }
        (self.page_end_addr - self.byte_end_addr) / PAGE_SIZE
    }
}

/// Every byte of the region lies in exactly one of the byte area, the free
/// area and the page area, and the page area is a whole number of pages.
/// Whether a byte allocation succeeds depends on the boundaries alone: it
/// succeeds exactly when it ends strictly below the page area, however many
/// allocations are alive.
pub proof fn lemma_byte_alloc_by_bounds(s: EarlyAllocatorState, size: nat, live: nat)
    ensures
        s.byte_alloc_fits(size) <==> s.byte_end + size < s.page_end,
        (EarlyAllocatorState { allocated: live, ..s }).byte_alloc_fits(size) == s.byte_alloc_fits(
            size,
        ),
        s.byte_alloc_fits(size) ==> s.after_alloc(size).byte_end == s.byte_end + size,
{
}

/// The pages reported available are the whole pages of the free area
/// between the bytes in use and the page area; an allocation of more pages
/// than that is refused.
pub proof fn lemma_available_pages_exact(s: EarlyAllocatorState, page_size: nat, n: nat)
    requires
        s.inv(page_size),
        page_size > 0,
    ensures
        s.available_pages(page_size) >= 0,
        s.available_pages(page_size) * page_size <= s.page_end - s.byte_end,
        s.page_end - s.byte_end < (s.available_pages(page_size) + 1) * page_size,
        n > s.available_pages(page_size) ==> !s.page_alloc_fits(n * page_size),
{
    let f = s.page_end - s.byte_end;
    let a = s.available_pages(page_size);
    let p = page_size as int;
    vstd::arithmetic::div_mod::lemma_fundamental_div_mod(f, p);
    assert(0 <= f % p < p) by {
        vstd::arithmetic::div_mod::lemma_mod_bound(f, p);
    }
    assert(a >= 0) by {
        vstd::arithmetic::div_mod::lemma_div_pos_is_pos(f, p);
    }
    assert(a * p <= f) by (nonlinear_arith)
        requires
            f == p * a + f % p,
            f % p >= 0,
    ;
    assert(f < (a + 1) * p) by (nonlinear_arith)
        requires
            f == p * a + f % p,
            f % p < p,
    ;
    if n > a {
        assert(n * p >= (a + 1) * p) by (nonlinear_arith)
            requires
                n >= a + 1,
                p > 0,
        ;
    }
}

pub proof fn lemma_region_accounting(s: EarlyAllocatorState, page_size: nat)
    requires
        s.inv(page_size),
        page_size > 0,
    ensures
        s.used_bytes() + s.available_bytes() + s.used_pages(page_size) * page_size
            == s.total_bytes(),
{
    let d = s.page_start - s.page_end;
    vstd::arithmetic::div_mod::lemma_fundamental_div_mod(d, page_size as int);
    vstd::arithmetic::mul::lemma_mul_is_commutative(d / (page_size as int), page_size as int);
}

/// Two byte allocations in a row hand out ranges that do not overlap: the
/// second one starts where the first one ends.
pub proof fn lemma_byte_allocations_disjoint(s: EarlyAllocatorState, size1: nat, size2: nat)
    requires
        s.byte_alloc_fits(size1),
        s.after_alloc(size1).byte_alloc_fits(size2),
    ensures
        s.after_alloc(size1).byte_end == s.byte_end + size1,
        s.byte_end + size1 + size2 < s.page_end,
{
}

/// A byte allocation and a later page allocation hand out disjoint ranges:
/// the bytes end below the start of the pages.
pub proof fn lemma_bytes_then_pages_disjoint(s: EarlyAllocatorState, size: nat, bytes: nat)
    requires
        s.byte_alloc_fits(size),
        s.after_alloc(size).page_alloc_fits(bytes),
    ensures
        s.byte_end + size < s.after_alloc(size).after_alloc_pages(bytes).page_end,
{
}

/// A page allocation and a later byte allocation hand out disjoint ranges:
/// the bytes end below the start of the pages.
pub proof fn lemma_pages_then_bytes_disjoint(s: EarlyAllocatorState, bytes: nat, size: nat)
    requires
        s.page_alloc_fits(bytes),
        bytes <= s.page_end,
        s.after_alloc_pages(bytes).byte_alloc_fits(size),
    ensures
        s.byte_end + size < s.after_alloc_pages(bytes).page_end,
        s.after_alloc_pages(bytes).page_end + bytes == s.page_end,
{
}

/// From a state with no live byte allocation, allocating bytes and giving
/// them back restores the state exactly.
pub proof fn lemma_alloc_dealloc_roundtrip(s: EarlyAllocatorState, page_size: nat, size: nat)
    requires
        s.inv(page_size),
        s.allocated == 0,
        s.byte_alloc_fits(size),
    ensures
        s.after_alloc(size).after_dealloc() == s,
{
}

/// After `init(start, size)` the whole region is free and nothing is in use.
pub proof fn lemma_init_all_free(s: EarlyAllocatorState, start: nat, size: nat, page_size: nat)
    requires
        page_size > 0,
    ensures
        s.initialized(start, size).total_bytes() == size,
        s.initialized(start, size).available_bytes() == size,
        s.initialized(start, size).used_bytes() == 0,
        s.initialized(start, size).used_pages(page_size) == 0,
{
}

/// One operation on the allocator, with the arguments that its contract
/// reads.
pub enum AllocOp {
    Init { start: nat, size: nat },
    AllocBytes { size: nat },
    Dealloc,
    AllocPages { num_pages: nat },
    DeallocPages,
    AddMemory,
}

/// The state of an allocator after a sequence of operations, with the
/// ranges that it handed out.
pub struct AllocHistory {
    pub state: EarlyAllocatorState,
    /// Start and size of each byte allocation since the last `init` or the
    /// last time no byte allocation was live, in order: the addresses that
    /// `alloc_bytes` returned.
    pub byte_blocks: Seq<(nat, nat)>,
    /// Start, size in bytes and number of pages of each page allocation since
    /// the last `init`, in order: the addresses that `alloc_pages` returned.
    pub page_blocks: Seq<(nat, nat, nat)>,
    /// The number of successful byte allocations so far.
    pub allocs: nat,
    /// The number of byte deallocations so far.
    pub frees: nat,
}

/// The history of an allocator fresh from `new`.
pub open spec fn history_start() -> AllocHistory {
    AllocHistory {
        state: EarlyAllocatorState::empty(),
        byte_blocks: seq![],
        page_blocks: seq![],
        allocs: 0,
        frees: 0,
    }
}

/// The operation's `requires` holds in state `s`.
pub open spec fn op_allowed(s: EarlyAllocatorState, op: AllocOp, page_size: nat) -> bool {
    match op {
        AllocOp::Init { start, size } => start + size <= usize::MAX,
        AllocOp::AllocBytes { size } => s.byte_end + size <= usize::MAX && (s.byte_alloc_fits(size)
            ==> s.allocated < usize::MAX),
        AllocOp::Dealloc => s.allocated > 0,
        AllocOp::AllocPages { num_pages } => page_size * num_pages <= s.page_end,
        _ => true,
    }
}

/// The history after one more operation, as the operations' contracts give
/// the next state and the result.
pub open spec fn apply_op(h: AllocHistory, op: AllocOp, page_size: nat) -> AllocHistory {
    match op {
        AllocOp::Init { start, size } => AllocHistory {
            state: h.state.initialized(start, size),
            byte_blocks: seq![],
            page_blocks: seq![],
            ..h
        },
        AllocOp::AllocBytes { size } => if h.state.byte_alloc_fits(size) {
            AllocHistory {
                state: h.state.after_alloc(size),
                byte_blocks: h.byte_blocks.push((h.state.byte_end, size)),
                allocs: h.allocs + 1,
                ..h
            }
        } else {
            h
        },
        AllocOp::Dealloc => {
            let s = h.state.after_dealloc();
            AllocHistory {
                state: s,
                byte_blocks: if s.allocated == 0 {
                    seq![]
                } else {
                    h.byte_blocks
                },
                frees: h.frees + 1,
                ..h
            }
        },
        AllocOp::AllocPages { num_pages } => {
            let bytes = page_size * num_pages;
            if h.state.page_alloc_fits(bytes) {
                AllocHistory {
                    state: h.state.after_alloc_pages(bytes),
                    page_blocks: h.page_blocks.push(
                        ((h.state.page_end - bytes) as nat, bytes, num_pages),
                    ),
                    ..h
                }
            } else {
                h
            }
        },
        _ => h,
    }
}

/// The history after the operations `ops`, from `h`.
pub open spec fn run_ops(h: AllocHistory, ops: Seq<AllocOp>, page_size: nat) -> AllocHistory
    decreases ops.len(),
{
    if ops.len() == 0 {
        h
    } else {
        apply_op(run_ops(h, ops.drop_last(), page_size), ops.last(), page_size)
    }
}

/// Each operation's `requires` held when it was called.
pub open spec fn run_allowed(h: AllocHistory, ops: Seq<AllocOp>, page_size: nat) -> bool
    decreases ops.len(),
{
    if ops.len() == 0 {
        true
    } else {
        run_allowed(h, ops.drop_last(), page_size) && op_allowed(
            run_ops(h, ops.drop_last(), page_size).state,
            ops.last(),
            page_size,
        )
    }
}

/// The start given to the last `init`, or zero when there was none.
pub open spec fn last_init_start(ops: Seq<AllocOp>) -> nat
    decreases ops.len(),
{
    if ops.len() == 0 {
        0
    } else {
        match ops.last() {
            AllocOp::Init { start, size } => start,
            _ => last_init_start(ops.drop_last()),
        }
    }
}

/// The total number of pages of the page blocks.
pub open spec fn sum_pages(p: Seq<(nat, nat, nat)>) -> nat
    decreases p.len(),
{
    if p.len() == 0 {
        0
    } else {
        sum_pages(p.drop_last()) + p.last().2
    }
}

/// The byte blocks follow one another from `from` up to `to`.
spec fn bytes_chain(b: Seq<(nat, nat)>, from: nat, to: nat) -> bool
    decreases b.len(),
{
    if b.len() == 0 {
        from == to
    } else {
        bytes_chain(b.drop_last(), from, b.last().0) && b.last().0 + b.last().1 == to
    }
}

/// The page blocks follow one another from `top` down to `bottom`, each a
/// whole number of pages.
spec fn pages_chain(p: Seq<(nat, nat, nat)>, top: nat, bottom: nat, page_size: nat) -> bool
    decreases p.len(),
{
    if p.len() == 0 {
        top == bottom
    } else {
        pages_chain(p.drop_last(), top, p.last().0 + p.last().1, page_size) && p.last().0 == bottom
            && p.last().1 == page_size * p.last().2
    }
}

spec fn history_inv(h: AllocHistory, page_size: nat) -> bool {
    &&& h.state.inv(page_size)
    &&& bytes_chain(h.byte_blocks, h.state.byte_start, h.state.byte_end)
    &&& pages_chain(h.page_blocks, h.state.page_start, h.state.page_end, page_size)
    &&& h.state.allocated == 0 ==> h.byte_blocks.len() == 0
    &&& h.state.allocated + h.frees == h.allocs
}

proof fn lemma_bytes_chain(b: Seq<(nat, nat)>, from: nat, to: nat)
    requires
        bytes_chain(b, from, to),
    ensures
        from <= to,
        forall|i: int| 0 <= i < b.len() ==> from <= #[trigger] b[i].0 && b[i].0 + b[i].1 <= to,
        forall|i: int, j: int|
            0 <= i < j < b.len() ==> #[trigger] b[i].0 + b[i].1 <= #[trigger] b[j].0,
    decreases b.len(),
{
    if b.len() > 0 {
        let d = b.drop_last();
        lemma_bytes_chain(d, from, b.last().0);
        assert forall|i: int| 0 <= i < b.len() implies from <= #[trigger] b[i].0 && b[i].0 + b[i].1
            <= to by {
            if i < d.len() {
                assert(b[i] == d[i]);
            }
        }
        assert forall|i: int, j: int| 0 <= i < j < b.len() implies #[trigger] b[i].0 + b[i].1
            <= #[trigger] b[j].0 by {
            assert(b[i] == d[i]);
            if j < d.len() {
                assert(b[j] == d[j]);
            }
        }
    }
}

proof fn lemma_pages_chain(p: Seq<(nat, nat, nat)>, top: nat, bottom: nat, page_size: nat)
    requires
        pages_chain(p, top, bottom, page_size),
    ensures
        bottom <= top,
        top - bottom == page_size * sum_pages(p),
        forall|i: int|
            0 <= i < p.len() ==> bottom <= #[trigger] p[i].0 && p[i].0 + p[i].1 <= top,
        forall|i: int, j: int|
            0 <= i < j < p.len() ==> #[trigger] p[j].0 + p[j].1 <= #[trigger] p[i].0,
    decreases p.len(),
{
    if p.len() == 0 {
        assert(page_size * 0 == 0) by (nonlinear_arith);
    } else {
        let d = p.drop_last();
        let l = p.last();
        lemma_pages_chain(d, top, l.0 + l.1, page_size);
        vstd::arithmetic::mul::lemma_mul_is_distributive_add(
            page_size as int,
            sum_pages(d) as int,
            l.2 as int,
        );
        assert forall|i: int| 0 <= i < p.len() implies bottom <= #[trigger] p[i].0 && p[i].0
            + p[i].1 <= top by {
            if i < d.len() {
                assert(p[i] == d[i]);
            }
        }
        assert forall|i: int, j: int| 0 <= i < j < p.len() implies #[trigger] p[j].0 + p[j].1
            <= #[trigger] p[i].0 by {
            assert(p[i] == d[i]);
            if j < d.len() {
                assert(p[j] == d[j]);
            }
        }
    }
}

proof fn lemma_apply_keeps(h: AllocHistory, op: AllocOp, page_size: nat)
    requires
        history_inv(h, page_size),
        op_allowed(h.state, op, page_size),
    ensures
        history_inv(apply_op(h, op, page_size), page_size),
        apply_op(h, op, page_size).state.byte_start == (match op {
            AllocOp::Init { start, size } => start,
            _ => h.state.byte_start,
        }),
{
    let s = h.state;
    let n = apply_op(h, op, page_size);
    match op {
        AllocOp::Init { start, size } => {
            if page_size > 0 {
                assert(0int % (page_size as int) == 0);
            }
        },
        AllocOp::AllocBytes { size } => {
            if s.byte_alloc_fits(size) {
                assert(n.byte_blocks.drop_last() =~= h.byte_blocks);
            }
        },
        AllocOp::Dealloc => {},
        AllocOp::AllocPages { num_pages } => {
            let bytes = page_size * num_pages;
            if s.page_alloc_fits(bytes) {
                assert(n.page_blocks.drop_last() =~= h.page_blocks);
                if page_size > 0 {
                    let d = s.page_start - s.page_end;
                    vstd::arithmetic::div_mod::lemma_mod_multiples_vanish(
                        num_pages as int,
                        d,
                        page_size as int,
                    );
                } else {
                    assert(bytes == 0) by (nonlinear_arith)
                        requires
                            bytes == page_size * num_pages,
                            page_size == 0,
                    ;
                }
            }
        },
        _ => {},
    }
}

proof fn lemma_run_keeps(ops: Seq<AllocOp>, page_size: nat)
    requires
        run_allowed(history_start(), ops, page_size),
    ensures
        history_inv(run_ops(history_start(), ops, page_size), page_size),
        run_ops(history_start(), ops, page_size).state.byte_start == last_init_start(ops),
    decreases ops.len(),
{
    if ops.len() == 0 {
        if page_size > 0 {
            assert(0int % (page_size as int) == 0);
        }
    } else {
        lemma_run_keeps(ops.drop_last(), page_size);
        lemma_apply_keeps(run_ops(history_start(), ops.drop_last(), page_size), ops.last(), page_size);
    }
}

/// Over any sequence of operations on a fresh allocator whose `requires`
/// held:
/// - the byte ranges handed out since the last `init` or the last time no
///   byte allocation was live lie one after the other inside the byte
///   area, which starts where the last `init` started, so none overlap;
/// - the page ranges handed out since the last `init` lie one below the
///   other inside the page area, so none overlap;
/// - the byte area ends at or below the page area, so no byte range meets a
///   page range;
/// - the pages in use are the sum of the pages of the successful page
///   allocations since the last `init`;
/// - when no byte allocation is live, no byte is in use;
/// - the live byte allocations are the successful ones less the frees, so
///   after as many frees as successful allocations the byte area is empty
///   again and the next allocation starts where the last `init` started.
pub proof fn lemma_history(ops: Seq<AllocOp>, page_size: nat)
    requires
        run_allowed(history_start(), ops, page_size),
    ensures
        ({
            let h = run_ops(history_start(), ops, page_size);
            let b = h.byte_blocks;
            let p = h.page_blocks;
            &&& h.state.inv(page_size)
            &&& h.state.byte_start == last_init_start(ops)
            &&& forall|i: int|
                0 <= i < b.len() ==> h.state.byte_start <= #[trigger] b[i].0 && b[i].0 + b[i].1
                    <= h.state.byte_end
            &&& forall|i: int, j: int|
                0 <= i < j < b.len() ==> #[trigger] b[i].0 + b[i].1 <= #[trigger] b[j].0
            &&& forall|i: int|
                0 <= i < p.len() ==> h.state.page_end <= #[trigger] p[i].0 && p[i].0 + p[i].1
                    <= h.state.page_start
            &&& forall|i: int, j: int|
                0 <= i < j < p.len() ==> #[trigger] p[j].0 + p[j].1 <= #[trigger] p[i].0
            &&& h.state.byte_end <= h.state.page_end
            &&& page_size > 0 ==> h.state.used_pages(page_size) == sum_pages(p)
            &&& h.state.allocated == 0 ==> b.len() == 0 && h.state.used_bytes() == 0
            &&& h.state.allocated + h.frees == h.allocs
            &&& h.allocs == h.frees ==> h.state.byte_end == h.state.byte_start
                && h.state.byte_end == last_init_start(ops)
        }),
{
    lemma_run_keeps(ops, page_size);
    let h = run_ops(history_start(), ops, page_size);
    lemma_bytes_chain(h.byte_blocks, h.state.byte_start, h.state.byte_end);
    lemma_pages_chain(h.page_blocks, h.state.page_start, h.state.page_end, page_size);
    if page_size > 0 {
        vstd::arithmetic::div_mod::lemma_div_multiples_vanish(
            sum_pages(h.page_blocks) as int,
            page_size as int,
        );
    }
}

} // verus!
