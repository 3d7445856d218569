use vstd::prelude::*;

use crate::types::Index;

verus! {

/// Offset `k` in `0..9` stands for the step `(k / 3 - 1, k % 3 - 1)`; offset 4 is
/// the cell itself. Whether the step from `(x, y)` stays on a `dim` by `dim` grid
/// and leaves the cell.
pub open spec fn offset_ok(dim: usize, x: usize, y: usize, k: int) -> bool {
    k != 4 && 0 <= x + k / 3 - 1 < dim && 0 <= y + k % 3 - 1 < dim
}

pub open spec fn offset_cell(x: usize, y: usize, k: int) -> Index {
    ((x + k / 3 - 1) as usize, (y + k % 3 - 1) as usize)
}

/// The neighbours of `(x, y)` reached by offsets `k..9`, in offset order.
pub open spec fn moore_from(dim: usize, x: usize, y: usize, k: int) -> Seq<Index>
    decreases 9 - k,
{
    if k >= 9 {
        seq![]
    } else {
        (if offset_ok(dim, x, y, k) {
            seq![offset_cell(x, y, k)]
        } else {
            seq![]
        }) + moore_from(dim, x, y, k + 1)
    }
}

/// The neighbour list of `(x, y)`: its Moore neighbourhood clipped to the grid,
/// row by row.
pub open spec fn moore_neighbours(dim: usize, x: usize, y: usize) -> Seq<Index> {
    moore_from(dim, x, y, 0)
}

/// `p` lies on the grid, at most one step from `(x, y)` on each axis, and is not `(x, y)`.
pub open spec fn is_moore_neighbour(dim: usize, x: usize, y: usize, p: Index) -> bool {
    p.0 < dim && p.1 < dim && -1 <= p.0 - x <= 1 && -1 <= p.1 - y <= 1 && !(p.0 == x && p.1 == y)
}

/// The offset that leads from `(x, y)` to `p`.
pub open spec fn offset_of(x: usize, y: usize, p: Index) -> int {
    (p.0 - x + 1) * 3 + (p.1 - y + 1)
}

/// How many of `c - 1`, `c`, `c + 1` lie in `[0, dim)`.
pub open spec fn axis_span(dim: usize, c: usize) -> int {
    1 + (if c > 0 { 1int } else { 0 }) + (if c + 1 < dim { 1int } else { 0 })
}

/// The neighbour table of a grid: entry `x * dim + y` lists the neighbours of `(x, y)`.
pub open spec fn table_ok(table: Seq<Vec<Index>>, dim: usize) -> bool {
    &&& table.len() == dim * dim
    &&& forall|i: int| 0 <= i < dim * dim ==> #[trigger] table[i]@ == moore_neighbours(dim, (i / dim as int) as usize, (i % dim as int) as usize)
}

proof fn lemma_moore_from(dim: usize, x: usize, y: usize, k: int)
    requires
        x < dim,
        y < dim,
        0 <= k <= 9,
    ensures
        forall|i: int| 0 <= i < moore_from(dim, x, y, k).len() ==> {
            let p = #[trigger] moore_from(dim, x, y, k)[i];
            is_moore_neighbour(dim, x, y, p) && offset_of(x, y, p) >= k
        },
        forall|p: Index| is_moore_neighbour(dim, x, y, p) && offset_of(x, y, p) >= k
            ==> #[trigger] moore_from(dim, x, y, k).contains(p),
        moore_from(dim, x, y, k).no_duplicates(),
    decreases 9 - k,
{
    if k < 9 {
        lemma_moore_from(dim, x, y, k + 1);
        let rest = moore_from(dim, x, y, k + 1);
        let head = if offset_ok(dim, x, y, k) { seq![offset_cell(x, y, k)] } else { seq![] };
        let l = moore_from(dim, x, y, k);
        assert(l == head + rest);
        assert forall|p: Index| is_moore_neighbour(dim, x, y, p) && offset_of(x, y, p) >= k
            implies l.contains(p) by {
            if offset_of(x, y, p) == k {
                assert(offset_ok(dim, x, y, k));
                assert(offset_cell(x, y, k) == p);
                assert(l[0] == p);
            } else {
                assert(rest.contains(p));
                let j = choose|j: int| 0 <= j < rest.len() && rest[j] == p;
                assert(l[head.len() + j] == p);
            }
        }
        if offset_ok(dim, x, y, k) {
            vstd::arithmetic::div_mod::lemma_fundamental_div_mod(k, 3);
            assert(offset_of(x, y, offset_cell(x, y, k)) == k);
        }
    }
}

/// The neighbour list of every cell holds exactly the cells one step away on the
/// grid, each once; its length is the product of the two axis spans, less one.
pub proof fn lemma_adjacency(dim: usize, x: usize, y: usize)
    requires
        x < dim,
        y < dim,
    ensures
        forall|i: int| 0 <= i < moore_neighbours(dim, x, y).len() ==> {
            let p = #[trigger] moore_neighbours(dim, x, y)[i];
            p.0 < dim && p.1 < dim && !(p.0 == x && p.1 == y)
        },
        forall|p: Index| #[trigger] moore_neighbours(dim, x, y).contains(p)
            <==> is_moore_neighbour(dim, x, y, p),
        moore_neighbours(dim, x, y).no_duplicates(),
        moore_neighbours(dim, x, y).len() == axis_span(dim, x) * axis_span(dim, y) - 1,
        dim >= 2 && (x == 0 || x == dim - 1) && (y == 0 || y == dim - 1)
            ==> moore_neighbours(dim, x, y).len() == 3,
        (x == 0 || x == dim - 1) != (y == 0 || y == dim - 1) ==> moore_neighbours(dim, x, y).len() == 5,
        0 < x < dim - 1 && 0 < y < dim - 1 ==> moore_neighbours(dim, x, y).len() == 8,
{
    lemma_moore_from(dim, x, y, 0);
    lemma_moore_len(dim, x, y, 0);
    let (lx, hx, ly, hy) = (x > 0, x + 1 < dim, y > 0, y + 1 < dim);
    assert(count_from(dim, x, y, 0) == (if lx && ly { 1int } else { 0 }) + (if lx { 1int } else { 0 })
        + (if lx && hy { 1int } else { 0 }) + (if ly { 1int } else { 0 }) + (if hy { 1int } else { 0 })
        + (if hx && ly { 1int } else { 0 }) + (if hx { 1int } else { 0 }) + (if hx && hy { 1int } else { 0 }))
    by {
        reveal_with_fuel(count_from, 10);
    }
    let ax = axis_span(dim, x);
    let ay = axis_span(dim, y);
    if lx {
        if hx {
            assert(ax * ay == 3 * ay);
        } else {
            assert(ax * ay == 2 * ay);
        }
    } else {
        if hx {
            assert(ax * ay == 2 * ay);
        } else {
            assert(ax == 1);
        }
    }
}

/// The neighbours of `(x, y)` on a `dim` by `dim` grid, in offset order.
pub fn cell_neighbours(dim: usize, x: usize, y: usize) -> (r: Vec<Index>)
    requires
        x < dim,
        y < dim,
    ensures
        r@ == moore_neighbours(dim, x, y),
{
    let mut list: Vec<Index> = Vec::new();
    let mut k: usize = 0;
    while k < 9
        invariant
            k <= 9,
            x < dim,
            y < dim,
            list@ + moore_from(dim, x, y, k as int) == moore_neighbours(dim, x, y),
        decreases 9 - k,
    {
        let dx = k / 3;
        let dy = k % 3;
        let x_ok = (dx == 0 && x >= 1) || dx == 1 || (dx == 2 && x + 1 < dim);
        let y_ok = (dy == 0 && y >= 1) || dy == 1 || (dy == 2 && y + 1 < dim);
        let ghost before = list@;
        assert(moore_from(dim, x, y, k as int) == (if offset_ok(dim, x, y, k as int) {
            seq![offset_cell(x, y, k as int)]
        } else {
            seq![]
        }) + moore_from(dim, x, y, k as int + 1));
        if k != 4 && x_ok && y_ok {
            list.push((x + dx - 1, y + dy - 1));
            assert(list@ + moore_from(dim, x, y, k as int + 1) =~= before + moore_from(dim, x, y, k as int));
        } else {
            assert(list@ + moore_from(dim, x, y, k as int + 1) =~= before + moore_from(dim, x, y, k as int));
        }
        k = k + 1;
    }
    assert(list@ =~= list@ + moore_from(dim, x, y, 9));
    list
}

/// The row-major index of the cell `p`.
pub open spec fn linear(dim: usize, p: Index) -> int {
    p.0 * dim + p.1
}

/// The row-major index of a cell on the grid lies on the grid and gives the cell back.
pub proof fn lemma_linear(dim: usize, x: usize, y: usize)
    requires
        x < dim,
        y < dim,
    ensures
        0 <= x * dim + y < dim * dim,
        (x * dim + y) / (dim as int) == x,
        (x * dim + y) % (dim as int) == y,
{
    assert(x * dim + y < dim * dim) by (nonlinear_arith)
        requires x < dim, y < dim;
    assert(0 <= x * dim) by (nonlinear_arith);
    vstd::arithmetic::div_mod::lemma_fundamental_div_mod_converse(x * dim + y, dim as int, x as int, y as int);
}

proof fn lemma_moore_len(dim: usize, x: usize, y: usize, k: int)
    ensures
        moore_from(dim, x, y, k).len() == count_from(dim, x, y, k),
    decreases 9 - k,
{
    if k < 9 {
        lemma_moore_len(dim, x, y, k + 1);
    }
}

/// How many of the offsets `k..9` are steps that stay on the grid.
pub open spec fn count_from(dim: usize, x: usize, y: usize, k: int) -> int
    decreases 9 - k,
{
    if k >= 9 {
        0
    } else {
        (if offset_ok(dim, x, y, k) { 1int } else { 0 }) + count_from(dim, x, y, k + 1)
    }
}

} // verus!
