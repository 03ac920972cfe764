//! The early region allocator: one address range `[start, end)` served from
//! both ends. Byte requests bump a cursor upward from `start`, page requests
//! bump a cursor downward from `end`, and the free zone lies between them.
//!
//! ```text
//! [ used bytes | free | used pages ]
//! start   byte_pos    page_pos    end
//! ```
//!
//! Byte allocations are only counted; when the count drops back to zero the
//! whole byte zone is reclaimed at once. Pages are never given back.

use crate::align::{
    align_down, align_down_spec, align_up, align_up_spec, is_pow2, lemma_down_le, lemma_up_from_down,
};
use vstd::prelude::*;

verus! {

/// Why an allocator operation did not succeed.
#[derive(Debug, Clone, Copy, PartialEq, Eq, Structural)]
pub enum AllocError {
    /// The size and alignment do not form a valid request.
    InvalidParam,
    /// The request does not fit in the free zone between the two cursors.
    NoMemory,
    /// A release with no byte allocation outstanding.
    NotAllocated,
    /// The operation is not offered by this allocator.
    Unsupported,
}

/// The abstract state of an allocator: its bounds, its two cursors and the
/// number of byte allocations outstanding.
pub struct RegionModel {
    pub start: nat,
    pub end: nat,
    pub byte_pos: nat,
    pub page_pos: nat,
    pub count: nat,
}

impl RegionModel {
    /// The cursors stay ordered inside the region, and with no byte
    /// allocation outstanding the byte zone is empty.
    pub open spec fn wf(self) -> bool {
        &&& self.start <= self.byte_pos <= self.page_pos <= self.end
        &&& self.count == 0 ==> self.byte_pos == self.start
    }

    /// A region `[start, start + size)` with nothing allocated.
    pub open spec fn fresh(start: nat, size: nat) -> RegionModel {
        RegionModel {
            start,
            end: start + size,
            byte_pos: start,
            page_pos: start + size,
            count: 0,
        }
    }

    /// Where a byte request of `align` would start.
    pub open spec fn byte_start(self, align: nat) -> int {
        align_up_spec(self.byte_pos as int, align as int)
    }

    /// A byte request fits when it ends at or before the page cursor.
    pub open spec fn bytes_fit(self, size: nat, align: nat) -> bool {
        self.byte_start(align) + size <= self.page_pos
    }

    /// The state after a byte request that fits.
    pub open spec fn after_alloc_bytes(self, size: nat, align: nat) -> RegionModel {
        RegionModel {
            byte_pos: (self.byte_start(align) + size) as nat,
            count: self.count + 1,
            ..self
        }
    }

    /// The state after a release of one byte allocation: the count drops, and
    /// when it reaches zero the byte cursor goes back to `start`.
    pub open spec fn after_release_bytes(self) -> RegionModel {
        RegionModel {
            byte_pos: if self.count == 1 { self.start } else { self.byte_pos },
            count: (self.count - 1) as nat,
            ..self
        }
    }

    /// Where a page request of `size` bytes and `align` would start: the page
    /// cursor moved down by `size`, then down to a multiple of `align`.
    pub open spec fn page_start(self, size: int, align: nat) -> int {
        align_down_spec(self.page_pos - size, align as int)
    }

    /// A page request fits when it starts strictly above the byte cursor.
    pub open spec fn pages_fit(self, size: int, align: nat) -> bool {
        self.page_start(size, align) > self.byte_pos
    }

    /// The state after a page request that fits.
    pub open spec fn after_alloc_pages(self, size: int, align: nat) -> RegionModel {
        RegionModel { page_pos: self.page_start(size, align) as nat, ..self }
    }
}

/// A request of `size` bytes aligned to `align` is well formed: `align` is a
/// power of two and `size` rounded up to it does not exceed `isize::MAX`.
pub open spec fn valid_layout(size: int, align: usize) -> bool {
    is_pow2(align) && size + align - 1 <= isize::MAX
}

/// An early allocator over one region, with pages of `PAGE_SIZE` bytes.
pub struct EarlyAllocator<const PAGE_SIZE: usize> {
    start: usize,
    end: usize,
    count: usize,
    byte_pos: usize,
    page_pos: usize,
}

impl<const PAGE_SIZE: usize> View for EarlyAllocator<PAGE_SIZE> {
    type V = RegionModel;

    closed spec fn view(&self) -> RegionModel {
        RegionModel {
            start: self.start as nat,
            end: self.end as nat,
            byte_pos: self.byte_pos as nat,
            page_pos: self.page_pos as nat,
            count: self.count as nat,
        }
    }
}

impl<const PAGE_SIZE: usize> EarlyAllocator<PAGE_SIZE> {
    /// An allocator over the empty region at address zero.
    pub fn new() -> (r: Self)
        ensures
            r@ == RegionModel::fresh(0, 0),
            r@.wf(),
    {
        Self::uninit_new()
    }

    /// A fresh allocator over `[start, start + size)`; `self` is left as it is.
    pub fn new_with_init(&mut self, start: usize, size: usize) -> (r: Self)
        requires
            start + size <= usize::MAX,
        ensures
            r@ == RegionModel::fresh(start as nat, size as nat),
            r@.wf(),
            final(self)@ == old(self)@,
    {
        let mut init = Self::uninit_new();
        init.init(start, size);
        init
    }

    /// Makes `[start, start + size)` the managed region and forgets every
    /// earlier allocation.
    pub fn init(&mut self, start: usize, size: usize)
        requires
            start + size <= usize::MAX,
        ensures
            final(self)@ == RegionModel::fresh(start as nat, size as nat),
            final(self)@.wf(),
    {
        self.start = start;
        self.end = start + size;
        self.count = 0;
        self.byte_pos = start;
        self.page_pos = self.end;
    }

    /// An allocator with every field zero.
    pub fn uninit_new() -> (r: Self)
        ensures
            r@ == RegionModel::fresh(0, 0),
            r@.wf(),
    {
        Self { start: 0, end: 0, count: 0, byte_pos: 0, page_pos: 0 }
    }

    /// Regions cannot be added: this allocator manages exactly one.
    pub fn add_memory(&mut self, _start: usize, _size: usize) -> (r: Result<(), AllocError>)
        ensures
            r == Err::<(), AllocError>(AllocError::Unsupported),
            final(self)@ == old(self)@,
    {
        Err(AllocError::Unsupported)
    }

    /// Takes `size` bytes aligned to `align` from the bottom of the free zone
    /// and returns their address. Fails with `NoMemory`, changing nothing,
    /// when the request would reach past the page cursor.
    pub fn alloc_bytes(&mut self, size: usize, align: usize) -> (r: Result<usize, AllocError>)
        requires
            old(self)@.wf(),
            is_pow2(align),
            old(self)@.count < usize::MAX,
        ensures
            final(self)@.wf(),
            old(self)@.bytes_fit(size as nat, align as nat) ==> {
                &&& r == Ok::<usize, AllocError>(old(self)@.byte_start(align as nat) as usize)
                &&& final(self)@ == old(self)@.after_alloc_bytes(size as nat, align as nat)
            },
            !old(self)@.bytes_fit(size as nat, align as nat) ==> {
                &&& r == Err::<usize, AllocError>(AllocError::NoMemory)
                &&& final(self)@ == old(self)@
            },
            r matches Ok(a) ==> a as int % align as int == 0,
            final(self)@.byte_pos >= old(self)@.byte_pos,
    {
        let start: usize;
        if self.byte_pos <= usize::MAX - (align - 1) {
            start = align_up(self.byte_pos, align);
        } else {
            let down = align_down(self.byte_pos, align);
            proof {
                lemma_up_from_down(self.byte_pos as int, align as int);
            }
            if down == self.byte_pos {
                start = down;
            } else if down > usize::MAX - align {
                return Err(AllocError::NoMemory);
            } else {
                start = down + align;
            }
        }
        if start > self.page_pos || size > self.page_pos - start {
            Err(AllocError::NoMemory)
        } else {
            self.byte_pos = start + size;
            self.count = self.count + 1;
            Ok(start)
        }
    }

    /// Releases one byte allocation. The address and size are not consulted:
    /// only the count of outstanding allocations drops, and when it reaches
    /// zero the whole byte zone is reclaimed. Fails with `NotAllocated`,
    /// changing nothing, when no byte allocation is outstanding.
    pub fn dealloc(&mut self, _pos: usize, _size: usize) -> (r: Result<(), AllocError>)
        requires
            old(self)@.wf(),
        ensures
            final(self)@.wf(),
            old(self)@.count > 0 ==> {
                &&& r == Ok::<(), AllocError>(())
                &&& final(self)@ == old(self)@.after_release_bytes()
            },
            old(self)@.count == 0 ==> {
                &&& r == Err::<(), AllocError>(AllocError::NotAllocated)
                &&& final(self)@ == old(self)@
            },
            final(self)@.byte_pos >= old(self)@.byte_pos || (final(self)@.count == 0
                && final(self)@.byte_pos == final(self)@.start),
    {
        if self.count == 0 {
            return Err(AllocError::NotAllocated);
        }
        self.count = self.count - 1;
        if self.count == 0 {
            self.byte_pos = self.start;
        }
        Ok(())
    }

    /// The size of the whole region.
    pub fn total_bytes(&self) -> (r: usize)
        requires
            self@.wf(),
        ensures
            r == self@.end - self@.start,
    {
        self.end - self.start
    }

    /// The size of the byte zone.
    pub fn used_bytes(&self) -> (r: usize)
        requires
            self@.wf(),
        ensures
            r == self@.byte_pos - self@.start,
    {
        self.byte_pos - self.start
    }

    /// The size of the free zone.
    pub fn available_bytes(&self) -> (r: usize)
        requires
            self@.wf(),
        ensures
            r == self@.page_pos - self@.byte_pos,
    {
        self.page_pos - self.byte_pos
    }

    /// Takes `num_pages` pages from the top of the free zone, starting at a
    /// multiple of `align`, and returns their address. Fails with
    /// `InvalidParam` when the size and alignment do not form a valid request,
    /// and with `NoMemory` when the pages would reach down to the byte cursor;
    /// neither failure changes anything.
    pub fn alloc_pages(&mut self, num_pages: usize, align: usize) -> (r: Result<usize, AllocError>)
        requires
            old(self)@.wf(),
        ensures
            final(self)@.wf(),
            ({
                let size = num_pages * PAGE_SIZE;
                &&& !valid_layout(size, align) ==> {
                    &&& r == Err::<usize, AllocError>(AllocError::InvalidParam)
                    &&& final(self)@ == old(self)@
                }
                &&& valid_layout(size, align) && !old(self)@.pages_fit(size, align as nat) ==> {
                    &&& r == Err::<usize, AllocError>(AllocError::NoMemory)
                    &&& final(self)@ == old(self)@
                }
                &&& valid_layout(size, align) && old(self)@.pages_fit(size, align as nat) ==> {
                    &&& r == Ok::<usize, AllocError>(old(self)@.page_start(size, align as nat) as usize)
                    &&& final(self)@ == old(self)@.after_alloc_pages(size, align as nat)
                }
            }),
            r matches Ok(a) ==> a as int % align as int == 0,
            final(self)@.page_pos <= old(self)@.page_pos,
    {
        let size = match num_pages.checked_mul(PAGE_SIZE) {
            Some(s) => s,
            None => {
                return Err(AllocError::InvalidParam);
            },
        };
        if align == 0 || align & (align - 1) != 0 || align - 1 > isize::MAX as usize
            || size > (isize::MAX as usize) - (align - 1) {
            return Err(AllocError::InvalidParam);
        }
        if size > self.page_pos {
            return Err(AllocError::NoMemory);
        }
        let next = align_down(self.page_pos - size, align);
        if next <= self.byte_pos {
            Err(AllocError::NoMemory)
        } else {
            self.page_pos = next;
            Ok(next)
        }
    }

    /// Pages are never given back: they live for as long as the allocator.
    pub fn dealloc_pages(&mut self, _pos: usize, _num_pages: usize) -> (r: Result<(), AllocError>)
        ensures
            r == Err::<(), AllocError>(AllocError::Unsupported),
            final(self)@ == old(self)@,
    {
        Err(AllocError::Unsupported)
    }

    /// The number of whole pages in the region.
    pub fn total_pages(&self) -> (r: usize)
        requires
            self@.wf(),
            PAGE_SIZE > 0,
        ensures
            r == (self@.end - self@.start) / PAGE_SIZE as int,
    {
        (self.end - self.start) / PAGE_SIZE
    }

    /// The number of whole pages in the page zone.
    pub fn used_pages(&self) -> (r: usize)
        requires
            self@.wf(),
            PAGE_SIZE > 0,
        ensures
            r == (self@.end - self@.page_pos) / PAGE_SIZE as int,
    {
        (self.end - self.page_pos) / PAGE_SIZE
    }

    /// The number of whole pages in the free zone.
    pub fn available_pages(&self) -> (r: usize)
        requires
            self@.wf(),
            PAGE_SIZE > 0,
        ensures
            r == (self@.page_pos - self@.byte_pos) / PAGE_SIZE as int,
    {
        (self.page_pos - self.byte_pos) / PAGE_SIZE
    }
}

/// One operation on an allocator, as its effect on the model. `AllocPages`
/// carries the request in bytes, that is the number of pages times the page
/// size.
pub enum RegionOp {
    Init { start: nat, size: nat },
    AllocBytes { size: nat, align: usize },
    ReleaseBytes,
    AllocPages { size: nat, align: usize },
}

/// The state after one operation; a request that fails leaves it unchanged.
pub open spec fn step(s: RegionModel, op: RegionOp) -> RegionModel {
    match op {
        RegionOp::Init { start, size } => RegionModel::fresh(start, size),
        RegionOp::AllocBytes { size, align } => {
            if is_pow2(align) && s.bytes_fit(size, align as nat) {
                s.after_alloc_bytes(size, align as nat)
            } else {
                s
            }
        },
        RegionOp::ReleaseBytes => {
            if s.count > 0 {
                s.after_release_bytes()
            } else {
                s
            }
        },
        RegionOp::AllocPages { size, align } => {
            if valid_layout(size as int, align) && s.pages_fit(size as int, align as nat) {
                s.after_alloc_pages(size as int, align as nat)
            } else {
                s
            }
        },
    }
}

/// The state after a sequence of operations, in order.
pub open spec fn run(s: RegionModel, ops: Seq<RegionOp>) -> RegionModel
    decreases ops.len(),
{
    if ops.len() == 0 {
        s
    } else {
        run(step(s, ops[0]), ops.drop_first())
    }
}

/// Every operation keeps `start <= byte_pos <= page_pos <= end`.
pub proof fn lemma_step_wf(s: RegionModel, op: RegionOp)
    requires
        s.wf(),
    ensures
        step(s, op).wf(),
{
    match op {
        RegionOp::AllocBytes { size, align } => {
            if is_pow2(align) {
                lemma_up_from_down(s.byte_pos as int, align as int);
            }
        },
        RegionOp::AllocPages { size, align } => {
            if is_pow2(align) {
                lemma_down_le(s.page_pos - size, align as int);
            }
        },
        _ => {},
    }
}

/// After any sequence of operations, `start <= byte_pos <= page_pos <= end`
/// still holds.
pub proof fn lemma_run_wf(s: RegionModel, ops: Seq<RegionOp>)
    requires
        s.wf(),
    ensures
        run(s, ops).wf(),
    decreases ops.len(),
{
    if ops.len() > 0 {
        lemma_step_wf(s, ops[0]);
        lemma_run_wf(step(s, ops[0]), ops.drop_first());
    }
}

/// Without a new `init`, the region's bounds, and so its total size, never
/// change.
pub proof fn lemma_run_keeps_bounds(s: RegionModel, ops: Seq<RegionOp>)
    requires
        forall|i: int| 0 <= i < ops.len() ==> !(ops[i] is Init),
    ensures
        run(s, ops).start == s.start,
        run(s, ops).end == s.end,
        run(s, ops).end - run(s, ops).start == s.end - s.start,
    decreases ops.len(),
{
    if ops.len() > 0 {
        let rest = ops.drop_first();
        assert forall|i: int| 0 <= i < rest.len() implies !(rest[i] is Init) by {
            assert(rest[i] == ops[i + 1]);
        }
        lemma_run_keeps_bounds(step(s, ops[0]), rest);
    }
}

/// The byte cursor only moves down when the count of outstanding byte
/// allocations returns to zero, and then to `start`; the page cursor never
/// moves up. A new `init` is the one exception.
pub proof fn lemma_step_monotonic(s: RegionModel, op: RegionOp)
    requires
        s.wf(),
        !(op is Init),
    ensures
        step(s, op).page_pos <= s.page_pos,
        step(s, op).byte_pos >= s.byte_pos || (step(s, op).count == 0 && step(s, op).byte_pos
            == s.start),
{
    match op {
        RegionOp::AllocBytes { size, align } => {
            if is_pow2(align) {
                lemma_up_from_down(s.byte_pos as int, align as int);
            }
        },
        RegionOp::AllocPages { size, align } => {
            if is_pow2(align) {
                lemma_down_le(s.page_pos - size, align as int);
            }
        },
        _ => {},
    }
}

/// The state after byte requests `reqs`, in order, each of them fitting; `None`
/// when one of them does not fit.
pub open spec fn alloc_all(s: RegionModel, reqs: Seq<(nat, usize)>) -> Option<RegionModel>
    decreases reqs.len(),
{
    if reqs.len() == 0 {
        Some(s)
    } else if is_pow2(reqs[0].1) && s.bytes_fit(reqs[0].0, reqs[0].1 as nat) {
        alloc_all(s.after_alloc_bytes(reqs[0].0, reqs[0].1 as nat), reqs.drop_first())
    } else {
        None
    }
}

/// The state after `n` releases of byte allocations.
pub open spec fn release_n(s: RegionModel, n: nat) -> RegionModel
    decreases n,
{
    if n == 0 {
        s
    } else {
        release_n(s.after_release_bytes(), (n - 1) as nat)
    }
}

/// `n` successful byte allocations each add one to the count and keep the
/// bounds.
proof fn lemma_alloc_all_count(s: RegionModel, reqs: Seq<(nat, usize)>)
    requires
        alloc_all(s, reqs) is Some,
    ensures
        alloc_all(s, reqs).unwrap().count == s.count + reqs.len(),
        alloc_all(s, reqs).unwrap().start == s.start,
    decreases reqs.len(),
{
    if reqs.len() > 0 {
        lemma_alloc_all_count(s.after_alloc_bytes(reqs[0].0, reqs[0].1 as nat), reqs.drop_first());
    }
}

/// Releasing as many byte allocations as are outstanding resets the byte
/// cursor to `start`.
proof fn lemma_release_all(s: RegionModel, n: nat)
    requires
        n > 0,
        s.count == n,
    ensures
        release_n(s, n).byte_pos == s.start,
        release_n(s, n).count == 0,
    decreases n,
{
    reveal_with_fuel(release_n, 2);
    if n > 1 {
        lemma_release_all(s.after_release_bytes(), (n - 1) as nat);
    }
}

/// From a state with no byte allocation outstanding, `N` successful byte
/// allocations followed by `N` releases bring the byte cursor back to
/// exactly `start`.
pub proof fn lemma_bulk_reclaim(s: RegionModel, reqs: Seq<(nat, usize)>)
    requires
        s.wf(),
        s.count == 0,
        alloc_all(s, reqs) is Some,
    ensures
        release_n(alloc_all(s, reqs).unwrap(), reqs.len()).byte_pos == s.start,
        release_n(alloc_all(s, reqs).unwrap(), reqs.len()).count == 0,
{
    lemma_alloc_all_count(s, reqs);
    if reqs.len() > 0 {
        lemma_release_all(alloc_all(s, reqs).unwrap(), reqs.len());
    }
}

} // verus!
