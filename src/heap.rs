//! The heap: an arena of allocations, each a run of cells that is live until
//! freed. Identities are handed out in increasing order and never reused.
use vstd::prelude::*;
use crate::ir::Type;
use crate::value::{copy_value, Pointer, RuntimeError, Value};

verus! {

/// The most cells that may be live at once.
pub const MAX_CELLS: usize = 0x1000_0000;

/// One allocation: where its cells start, how many there are, and whether it
/// is still live.
#[derive(Debug, Clone, Copy, PartialEq, Eq, Structural)]
pub struct Region {
    pub start: usize,
    pub len: usize,
    pub live: bool,
}

/// All cells of all allocations, and the allocations by identity.
#[derive(Debug)]
pub struct Heap {
    pub cells: Vec<Option<Value>>,
    pub regions: Vec<Region>,
    pub live: usize,
}

/// How many cells the live allocations hold.
pub open spec fn live_cells(regions: Seq<Region>) -> int
    decreases regions.len(),
{
    if regions.len() == 0 {
        0
    } else {
        live_cells(regions.drop_last()) + if regions.last().live {
            regions.last().len as int
        } else {
            0
        }
    }
}

/// `n` more cells fit: the live ones stay within [`MAX_CELLS`] and all of
/// them within the address range.
pub open spec fn fits(cells_len: int, regions: Seq<Region>, n: int) -> bool {
    live_cells(regions) + n <= MAX_CELLS && cells_len + n <= usize::MAX
}

proof fn lemma_live_cells_free(regions: Seq<Region>, b: int)
    requires
        0 <= b < regions.len(),
        regions[b].live,
    ensures
        live_cells(regions) >= regions[b].len,
        live_cells(regions.update(b, Region { live: false, ..regions[b] })) == live_cells(regions)
            - regions[b].len,
    decreases regions.len(),
{
    let u = regions.update(b, Region { live: false, ..regions[b] });
    assert(u.drop_last() =~= if b < regions.len() - 1 {
        regions.drop_last().update(b, Region { live: false, ..regions[b] })
    } else {
        regions.drop_last()
    });
    lemma_live_cells_nonneg(regions.drop_last());
    if b < regions.len() - 1 {
        lemma_live_cells_free(regions.drop_last(), b);
    }
}

proof fn lemma_live_cells_nonneg(regions: Seq<Region>)
    ensures
        live_cells(regions) >= 0,
    decreases regions.len(),
{
    if regions.len() > 0 {
        lemma_live_cells_nonneg(regions.drop_last());
    }
}

/// Why an access through `p` fails, if it does, given the allocations.
pub open spec fn access_error_of(regions: Seq<Region>, p: Pointer) -> Option<RuntimeError> {
    if p.base >= regions.len() || !regions[p.base as int].live {
        Some(RuntimeError::UseAfterFree)
    } else if p.offset < 0 || p.offset >= regions[p.base as int].len {
        Some(RuntimeError::OutOfBounds)
    } else {
        None
    }
}

/// The cell that `p` designates.
pub open spec fn cell_of(regions: Seq<Region>, p: Pointer) -> int {
    regions[p.base as int].start + p.offset
}

/// What a load through `p` gives.
pub open spec fn load_of(cells: Seq<Option<Value>>, regions: Seq<Region>, p: Pointer) -> Result<Value, RuntimeError> {
    match access_error_of(regions, p) {
        Some(e) => Err(e),
        None => match cells[cell_of(regions, p)] {
            Some(v) => Ok(v),
            None => Err(RuntimeError::UninitializedLoad),
        },
    }
}

impl Heap {
    /// Every allocation lies within the cells.
    pub open spec fn wf(&self) -> bool {
        &&& self.live == live_cells(self.regions@)
        &&& self.live <= MAX_CELLS
        &&& self.cells@.len() <= usize::MAX
        &&& forall|b: int|
            0 <= b < self.regions@.len() ==> #[trigger] self.regions@[b].start
                + self.regions@[b].len <= self.cells@.len()
    }

    /// Why an access through `p` fails, if it does.
    pub open spec fn access_error(&self, p: Pointer) -> Option<RuntimeError> {
        access_error_of(self.regions@, p)
    }

    /// The cell that `p` designates when the access is allowed.
    pub open spec fn cell_index(&self, p: Pointer) -> int {
        cell_of(self.regions@, p)
    }

    /// What `load` gives for `p`.
    pub open spec fn load_spec(&self, p: Pointer) -> Result<Value, RuntimeError> {
        load_of(self.cells@, self.regions@, p)
    }

    /// A heap with nothing allocated.
    pub fn new() -> (r: Heap)
        ensures
            r.wf(),
            r.cells@.len() == 0,
            r.regions@.len() == 0,
    {
        Heap { cells: Vec::new(), regions: Vec::new(), live: 0 }
    }

    /// Allocates `n` cells of type `ty` and points at the first. A negative
    /// size is an error, as is exceeding the heap's total capacity.
    pub fn allocate(&mut self, n: i64, ty: Type) -> (r: Result<Pointer, RuntimeError>)
        requires
            old(self).wf(),
        ensures
            final(self).wf(),
            n < 0 ==> r == Err::<Pointer, RuntimeError>(RuntimeError::NegativeAllocation),
            n >= 0 && !fits(old(self).cells@.len() as int, old(self).regions@, n as int) ==> r == Err::<Pointer, RuntimeError>(
                RuntimeError::AllocationTooLarge,
            ),
            n >= 0 && fits(old(self).cells@.len() as int, old(self).regions@, n as int) ==> r == Ok::<Pointer, RuntimeError>(
                Pointer { base: old(self).regions@.len() as usize, ty, offset: 0 },
            ),
            r is Err ==> *final(self) == *old(self),
            r is Ok ==> {
                &&& final(self).regions@ == old(self).regions@.push(
                    Region { start: old(self).cells@.len() as usize, len: n as usize, live: true },
                )
                &&& final(self).cells@ == old(self).cells@ + Seq::new(n as nat, |i: int| None::<Value>)
                &&& final(self).cells@.len() == old(self).cells@.len() + n
                &&& forall|i: int|
                    0 <= i < old(self).cells@.len() ==> #[trigger] final(self).cells@[i]
                        == old(self).cells@[i]
                &&& forall|i: int|
                    old(self).cells@.len() <= i < final(self).cells@.len()
                        ==> #[trigger] final(self).cells@[i] is None
            },
    {
        if n < 0 {
            return Err(RuntimeError::NegativeAllocation);
        }
        if n as u64 > (MAX_CELLS - self.live) as u64 || n as u64 > (usize::MAX - self.cells.len()) as u64 {
            return Err(RuntimeError::AllocationTooLarge);
        }
        let len = n as usize;
        let start = self.cells.len();
        let ghost before = self.cells@;
        let mut i: usize = 0;
        while i < len
            invariant
                i <= len,
                start == before.len(),
                self.regions == old(self).regions,
                old(self).wf(),
                start + len <= usize::MAX,
                self.live == old(self).live,
                self.cells@.len() == start + i,
                forall|j: int| 0 <= j < start ==> #[trigger] self.cells@[j] == before[j],
                forall|j: int| start <= j < start + i ==> #[trigger] self.cells@[j] is None,
            decreases len - i,
        {
            self.cells.push(None);
            i = i + 1;
        }
        assert(self.cells@ =~= before + Seq::new(n as nat, |i: int| None::<Value>));
        let base = self.regions.len();
        let ghost rs = self.regions@;
        self.regions.push(Region { start, len, live: true });
        assert(self.regions@.drop_last() =~= rs);
        self.live = self.live + len;
        Ok(Pointer { base, ty, offset: 0 })
    }

    /// Frees the allocation `p` points into. Freeing one that is not live is
    /// an error.
    pub fn free(&mut self, p: &Pointer) -> (r: Result<(), RuntimeError>)
        requires
            old(self).wf(),
        ensures
            final(self).wf(),
            final(self).cells == old(self).cells,
            (p.base >= old(self).regions@.len() || !old(self).regions@[p.base as int].live) ==> r
                == Err::<(), RuntimeError>(RuntimeError::DoubleFree) && final(self).regions
                == old(self).regions,
            (p.base < old(self).regions@.len() && old(self).regions@[p.base as int].live) ==> r
                == Ok::<(), RuntimeError>(()) && final(self).regions@ == old(
                self,
            ).regions@.update(
                p.base as int,
                Region { live: false, ..old(self).regions@[p.base as int] },
            ),
    {
        if p.base >= self.regions.len() || !self.regions[p.base].live {
            return Err(RuntimeError::DoubleFree);
        }
        let r = self.regions[p.base];
        proof {
            lemma_live_cells_free(self.regions@, p.base as int);
        }
        self.regions.set(p.base, Region { start: r.start, len: r.len, live: false });
        self.live = self.live - r.len;
        Ok(())
    }

    fn check_access(&self, p: &Pointer) -> (r: Result<usize, RuntimeError>)
        requires
            self.wf(),
        ensures
            match self.access_error(*p) {
                Some(e) => r == Err::<usize, RuntimeError>(e),
                None => r == Ok::<usize, RuntimeError>(self.cell_index(*p) as usize)
                    && self.cell_index(*p) < self.cells@.len(),
            },
    {
        if p.base >= self.regions.len() || !self.regions[p.base].live {
            return Err(RuntimeError::UseAfterFree);
        }
        let reg = self.regions[p.base];
        assert(reg.start + reg.len <= self.cells@.len());
        if p.offset < 0 || p.offset as u64 >= reg.len as u64 {
            return Err(RuntimeError::OutOfBounds);
        }
        Ok(reg.start + p.offset as usize)
    }

    /// Reads the cell that `p` designates.
    pub fn load(&self, p: &Pointer) -> (r: Result<Value, RuntimeError>)
        requires
            self.wf(),
        ensures
            r == self.load_spec(*p),
    {
        let i = self.check_access(p)?;
        match &self.cells[i] {
            Some(v) => Ok(copy_value(v)),
            None => Err(RuntimeError::UninitializedLoad),
        }
    }

    /// Writes `v` to the cell that `p` designates.
    pub fn store(&mut self, p: &Pointer, v: Value) -> (r: Result<(), RuntimeError>)
        requires
            old(self).wf(),
        ensures
            final(self).wf(),
            final(self).regions == old(self).regions,
            match old(self).access_error(*p) {
                Some(e) => r == Err::<(), RuntimeError>(e) && final(self).cells == old(self).cells,
                None => r == Ok::<(), RuntimeError>(()) && final(self).cells@ == old(
                    self,
                ).cells@.update(old(self).cell_index(*p), Some(v)),
            },
    {
        let i = self.check_access(p)?;
        self.cells.set(i, Some(v));
        Ok(())
    }
}

/// `p` moved by `k` cells, with the offset wrapping as a 64-bit integer.
pub open spec fn ptr_add_spec(p: Pointer, k: i64) -> Pointer {
    Pointer { offset: p.offset.wrapping_add(k), ..p }
}

/// Once an allocation is freed, every access through a pointer into it,
/// moved by any amount, fails as a use after free.
pub proof fn lemma_use_after_free(h: Heap, p: Pointer, k: i64)
    requires
        h.wf(),
        p.base < h.regions@.len(),
        !h.regions@[p.base as int].live,
    ensures
        h.access_error(ptr_add_spec(p, k)) == Some(RuntimeError::UseAfterFree),
        h.load_spec(ptr_add_spec(p, k)) == Err::<Value, RuntimeError>(RuntimeError::UseAfterFree),
{
}

} // verus!
