use vstd::prelude::*;

use crate::wfc_field::{is_blank_cell, Cell};

verus! {

/// The work handed to one region worker: its place `idx` among the workers,
/// the number `len` of cells to fill, and the side `dim` of the grid.
#[derive(Clone, Copy, Debug)]
pub struct WorkerInput {
    pub idx: usize,
    pub len: usize,
    pub dim: usize,
}

/// What a region worker hands back: its place `idx` and the cells it filled.
#[derive(Debug)]
pub struct WorkerOutput {
    pub idx: usize,
    pub value: Vec<Cell>,
}

/// Length of range `i` when `total` cells are split among `workers`: the
/// quotient, and the last range also takes the remainder.
pub open spec fn range_len(total: int, workers: int, i: int) -> int {
    if i == workers - 1 { total / workers + total % workers } else { total / workers }
}

/// Start of range `i`.
pub open spec fn range_start(total: int, workers: int, i: int) -> int {
    i * (total / workers)
}

/// Splits `[0, total)` into `workers` contiguous ranges `(start, len)`, in
/// order, of equal length but the last, which also takes the remainder.
pub fn partition(total: usize, workers: usize) -> (r: Vec<(usize, usize)>)
    requires
        workers >= 1,
    ensures
        r@.len() == workers,
        forall|i: int| 0 <= i < workers ==> (#[trigger] r@[i]).0 == range_start(total as int, workers as int, i)
            && r@[i].1 == range_len(total as int, workers as int, i),
        r@[0].0 == 0,
        forall|i: int| 0 <= i < workers - 1 ==> #[trigger] r@[i + 1].0 == r@[i].0 + r@[i].1,
        r@[workers - 1].0 + r@[workers - 1].1 == total,
{
    let step = total / workers;
    proof {
        vstd::arithmetic::div_mod::lemma_fundamental_div_mod(total as int, workers as int);
        assert(workers * step >= step) by (nonlinear_arith)
            requires workers >= 1, step >= 0;
    }
    let last = step + total % workers;
    let mut r: Vec<(usize, usize)> = Vec::with_capacity(workers);
    let mut i: usize = 0;
    let mut start: usize = 0;
    while i < workers
        invariant
            i <= workers,
            step == total / workers,
            last == step + total % workers,
            total == workers * step + total % workers,
            i < workers ==> start == i * step,
            r@.len() == i,
            forall|j: int| 0 <= j < i ==> (#[trigger] r@[j]).0 == range_start(total as int, workers as int, j)
                && r@[j].1 == range_len(total as int, workers as int, j),
        decreases workers - i,
    {
        let len = if i == workers - 1 { last } else { step };
        r.push((start, len));
        if i + 1 < workers {
            assert((i + 1) * step <= (workers - 1) * step) by (nonlinear_arith)
                requires i + 1 <= workers - 1, step >= 0;
            assert((workers - 1) * step <= workers * step) by (nonlinear_arith)
                requires step >= 0;
            assert((i + 1) * step == i * step + step) by (nonlinear_arith);
            start = start + step;
        }
        i = i + 1;
    }
    proof {
        assert(r@[0].0 == 0);
        assert forall|i: int| 0 <= i < workers - 1 implies #[trigger] r@[i + 1].0 == r@[i].0 + r@[i].1 by {
            assert((i + 1) * step == i * step + step) by (nonlinear_arith);
        }
        assert((workers - 1) * step + step == workers * step) by (nonlinear_arith);
    }
    r
}

/// The inputs of `workers` region workers over a `dim` by `dim` grid, one
/// range of `partition(dim * dim, workers)` each, in order.
pub fn worker_inputs(dim: usize, workers: usize) -> (r: Vec<WorkerInput>)
    requires
        workers >= 1,
        dim * dim <= usize::MAX,
    ensures
        r@.len() == workers,
        forall|i: int| 0 <= i < workers ==> (#[trigger] r@[i]).idx == i && r@[i].dim == dim
            && r@[i].len == range_len(dim * dim, workers as int, i),
{
    let ranges = partition(dim * dim, workers);
    let mut r: Vec<WorkerInput> = Vec::with_capacity(workers);
    let mut i: usize = 0;
    while i < workers
        invariant
            i <= workers,
            ranges@.len() == workers,
            forall|j: int| 0 <= j < workers ==> (#[trigger] ranges@[j]).1 == range_len(dim * dim, workers as int, j),
            r@.len() == i,
            forall|j: int| 0 <= j < i ==> (#[trigger] r@[j]).idx == j && r@[j].dim == dim
                && r@[j].len == range_len(dim * dim, workers as int, j),
        decreases workers - i,
    {
        r.push(WorkerInput { idx: i, len: ranges[i].1, dim });
        i = i + 1;
    }
    r
}

/// The work of one region worker: `len` blank cells, tagged with its place.
pub fn fill_region(input: WorkerInput) -> (r: WorkerOutput)
    ensures
        r.idx == input.idx,
        r.value@.len() == input.len,
        forall|i: int| 0 <= i < input.len ==> is_blank_cell(#[trigger] r.value@[i]),
{
    let mut value: Vec<Cell> = Vec::with_capacity(input.len);
    let mut i: usize = 0;
    while i < input.len
        invariant
            i <= input.len,
            value@.len() == i,
            forall|j: int| 0 <= j < i ==> is_blank_cell(#[trigger] value@[j]),
        decreases input.len - i,
    {
        value.push(Cell::new());
        i = i + 1;
    }
    WorkerOutput { idx: input.idx, value }
}

/// Position of the first result from `p` on whose place is `i`, or -1.
pub open spec fn find_from(results: Seq<WorkerOutput>, i: int, p: int) -> int
    decreases results.len() - p,
{
    if p < 0 || p >= results.len() {
        -1
    } else if results[p].idx == i {
        p
    } else {
        find_from(results, i, p + 1)
    }
}

/// The cells of the results of places `0..k`, in the order of the places.
pub open spec fn joined(results: Seq<WorkerOutput>, k: int) -> Seq<Cell>
    decreases k,
{
    if k <= 0 {
        seq![]
    } else {
        joined(results, k - 1) + results[find_from(results, k - 1, 0)].value@
    }
}

/// Every place `0..n` has a result.
pub open spec fn all_places(results: Seq<WorkerOutput>, n: int) -> bool {
    forall|i: int| 0 <= i < n ==> #[trigger] find_from(results, i, 0) >= 0
}

proof fn lemma_find_from(results: Seq<WorkerOutput>, i: int, p: int)
    requires
        0 <= p,
    ensures
        -1 <= find_from(results, i, p) < results.len(),
        find_from(results, i, p) >= 0 ==> find_from(results, i, p) >= p && results[find_from(results, i, p)].idx == i,
        find_from(results, i, p) < 0 ==> forall|q: int| p <= q < results.len() ==> results[q].idx != i,
    decreases results.len() - p,
{
    if p < results.len() && results[p].idx != i {
        lemma_find_from(results, i, p + 1);
    }
}

/// Position of the first result whose place is `i`.
fn find_place(results: &Vec<WorkerOutput>, i: usize) -> (r: Option<usize>)
    ensures
        match r {
            Some(p) => p as int == find_from(results@, i as int, 0),
            None => find_from(results@, i as int, 0) < 0,
        },
{
    let mut p: usize = 0;
    while p < results.len()
        invariant
            p <= results@.len(),
            find_from(results@, i as int, 0) == find_from(results@, i as int, p as int),
        decreases results@.len() - p,
    {
        if results[p].idx == i {
            return Some(p);
        }
        p = p + 1;
    }
    None
}

/// Joins the results of `workers` region workers into one buffer: the cells of
/// place 0, then of place 1, and so on. None when a place has no result: a
/// partial set is no grid.
pub fn join_regions(results: &Vec<WorkerOutput>, workers: usize) -> (r: Option<Vec<Cell>>)
    ensures
        r.is_some() <==> all_places(results@, workers as int),
        r matches Some(v) ==> v@ == joined(results@, workers as int),
{
    let mut out: Vec<Cell> = Vec::new();
    let mut i: usize = 0;
    while i < workers
        invariant
            i <= workers,
            out@ == joined(results@, i as int),
            all_places(results@, i as int),
        decreases workers - i,
    {
        match find_place(results, i) {
            Some(p) => {
                proof {
                    lemma_find_from(results@, i as int, 0);
                }
                let part = &results[p].value;
                let ghost before = out@;
                let mut k: usize = 0;
                while k < part.len()
                    invariant
                        k <= part@.len(),
                        out@ == before + part@.subrange(0, k as int),
                    decreases part@.len() - k,
                {
                    out.push(part[k]);
                    assert(out@ =~= before + part@.subrange(0, k as int + 1));
                    k = k + 1;
                }
                assert(part@.subrange(0, part@.len() as int) =~= part@);
            },
            None => {
                return None;
            },
        }
        i = i + 1;
    }
    Some(out)
}

} // verus!
