use vstd::prelude::*;

use crate::adjacency::{
    cell_neighbours, is_moore_neighbour, lemma_adjacency, lemma_linear, linear,
    moore_neighbours, table_ok,
};
use crate::pixel::{hsl_to_rgb, rgb_to_hsl, Hsl, Pixel, PixelType, HUE_TURN, SL_SCALE};
use crate::types::{index_draw, next_state, range_draw, Index, Rand, Rgba};

verus! {

/// Half-width of the hue jitter band: 20 degrees.
pub const HUE_JITTER: i32 = 2000;

/// Half-width of the lightness jitter band: 0.1.
pub const LIGHT_JITTER: i32 = 1000;

/// One grid cell: its colour and whether it has been collapsed.
#[derive(Clone, Copy, Debug)]
pub struct Cell {
    pub px: Pixel,
    pub collapsed: bool,
}

impl Cell {
    /// A blank cell: black and not collapsed.
    pub fn new() -> (r: Cell)
        ensures
            r.px.rgba == [0u8, 0u8, 0u8, 1u8],
            r.px.hsl == (Hsl { h: 0, s: 0, l: 0 }),
            r.px.wf(),
            !r.collapsed,
    {
        Cell { px: Pixel::new(), collapsed: false }
    }
}

/// The cell is blank: black and not collapsed.
pub open spec fn is_blank_cell(c: Cell) -> bool {
    c.px.rgba == [0u8, 0u8, 0u8, 1u8] && c.px.hsl == (Hsl { h: 0, s: 0, l: 0 }) && !c.collapsed
}

/// The number of collapsed cells in `s`.
pub open spec fn count_collapsed(s: Seq<Cell>) -> nat
    decreases s.len(),
{
    if s.len() == 0 {
        0
    } else {
        count_collapsed(s.drop_last()) + if s.last().collapsed { 1nat } else { 0 }
    }
}

proof fn lemma_count_bound(s: Seq<Cell>)
    ensures
        count_collapsed(s) <= s.len(),
    decreases s.len(),
{
    if s.len() > 0 {
        lemma_count_bound(s.drop_last());
    }
}

proof fn lemma_count_pos(s: Seq<Cell>, i: int)
    requires
        0 <= i < s.len(),
        s[i].collapsed,
    ensures
        count_collapsed(s) >= 1,
    decreases s.len(),
{
    if i < s.len() - 1 {
        lemma_count_pos(s.drop_last(), i);
    }
}

proof fn lemma_count_short(s: Seq<Cell>, i: int)
    requires
        0 <= i < s.len(),
        !s[i].collapsed,
    ensures
        count_collapsed(s) < s.len(),
    decreases s.len(),
{
    lemma_count_bound(s.drop_last());
    if i < s.len() - 1 {
        lemma_count_short(s.drop_last(), i);
    }
}

proof fn lemma_count_update(s: Seq<Cell>, i: int, c: Cell)
    requires
        0 <= i < s.len(),
    ensures
        count_collapsed(s.update(i, c)) + (if s[i].collapsed { 1int } else { 0 })
            == count_collapsed(s) + (if c.collapsed { 1int } else { 0 }),
    decreases s.len(),
{
    let t = s.update(i, c);
    if i == s.len() - 1 {
        assert(t.drop_last() =~= s.drop_last());
    } else {
        assert(t.drop_last() =~= s.drop_last().update(i, c));
        lemma_count_update(s.drop_last(), i, c);
    }
}

/// How the frontier is kept in bounds once it grows past `threshold`: each entry
/// is dropped with a chance of `drop_percent` in a hundred, entries whose
/// neighbours are all collapsed are dropped, and at most `cap` entries are kept.
#[derive(Clone, Copy, Debug)]
pub struct FrontierPolicy {
    pub threshold: usize,
    pub drop_percent: u32,
    pub cap: usize,
}

/// The policy a field starts with: prune past 100 entries, dropping each
/// with even chance and keeping at most 100.
pub open spec fn default_policy() -> FrontierPolicy {
    FrontierPolicy { threshold: 100, drop_percent: 50, cap: 100 }
}

/// The cell drawn from a grid of side `dim` by a generator in state `s`.
pub open spec fn seed_of(s: u64, dim: usize) -> Index {
    (index_draw(s, dim as int) as usize, index_draw(next_state(s), dim as int) as usize)
}

impl Default for FrontierPolicy {
    fn default() -> (r: FrontierPolicy)
        ensures
            r.threshold == 100 && r.drop_percent == 50 && r.cap == 100,
    {
        FrontierPolicy { threshold: 100, drop_percent: 50, cap: 100 }
    }
}

/// The colour field: a `dim` by `dim` grid of cells in row-major order, the
/// frontier of cells that drive the next expansion, and the collapse counters.
pub struct WFCField {
    pub data: Vec<Cell>,
    pub dim: usize,
    pub epoch_idx: usize,
    pub collapsed_cnt: usize,
    pub visited: Vec<Index>,
    pub last: Index,
    pub neighbours: Vec<Vec<Index>>,
    pub rng: Rand,
    pub policy: FrontierPolicy,
}

pub open spec fn in_grid(dim: usize, p: Index) -> bool {
    p.0 < dim && p.1 < dim
}

/// The cell at `p` of a row-major grid.
pub open spec fn cell_at(data: Seq<Cell>, dim: usize, p: Index) -> Cell {
    data[linear(dim, p)]
}

pub open spec fn frontier_ok(f: Seq<Index>, dim: usize) -> bool {
    f.no_duplicates() && forall|i: int| 0 <= i < f.len() ==> in_grid(dim, #[trigger] f[i])
}

pub open spec fn pixels_ok(data: Seq<Cell>) -> bool {
    forall|i: int| 0 <= i < data.len() ==> (#[trigger] data[i]).px.wf()
}

impl WFCField {
    /// The state of an epoch that started from `start`: the neighbours of the
    /// first `covered` frontier entries of `start` are all in the frontier, and
    /// those that are next to a collapsed entry, or had a collapsed neighbour at
    /// the start, are collapsed; what was added to the frontier, and every cell
    /// collapsed since the start, is reached from the first `reach` entries;
    /// cells only ever become collapsed, and the counter grows with them.
    pub open spec fn expanding(&self, start: WFCField, covered: int, reach: int) -> bool {
        let s0 = start.visited@;
        let d0 = start.data@;
        let dim = self.dim;
        &&& self.wf()
        &&& start.wf()
        &&& dim == start.dim
        &&& self.neighbours == start.neighbours
        &&& self.last == start.last
        &&& self.policy == start.policy
        &&& self.epoch_idx == start.epoch_idx
        &&& 0 <= covered <= reach <= s0.len()
        &&& self.visited@.len() >= s0.len()
        &&& forall|i: int| 0 <= i < s0.len() ==> self.visited@[i] == s0[i]
        &&& forall|i: int| s0.len() <= i < self.visited@.len()
            ==> !s0.contains(#[trigger] self.visited@[i]) && reached(dim, s0, reach, self.visited@[i])
        &&& forall|i: int, q: Index| 0 <= i < covered && #[trigger] is_moore_neighbour(dim, s0[i].0, s0[i].1, q)
            ==> self.visited@.contains(q)
        &&& forall|i: int, q: Index| 0 <= i < covered && cell_at(d0, dim, s0[i]).collapsed
            && #[trigger] is_moore_neighbour(dim, s0[i].0, s0[i].1, q) ==> cell_at(self.data@, dim, q).collapsed
        &&& forall|i: int, q: Index| 0 <= i < covered && #[trigger] is_moore_neighbour(dim, s0[i].0, s0[i].1, q)
            && collapsed_hsls(d0, dim, moore_neighbours(dim, q.0, q.1)).len() > 0
            ==> cell_at(self.data@, dim, q).collapsed
        &&& cells_advanced(d0, self.data@)
        &&& forall|q: Index| in_grid(dim, q) && #[trigger] cell_at(self.data@, dim, q).collapsed
            && !cell_at(d0, dim, q).collapsed ==> reached(dim, s0, reach, q) && coloured_from(d0, self.data@, dim, q)
        &&& self.collapsed_cnt + count_collapsed(d0) == start.collapsed_cnt + count_collapsed(self.data@)
        &&& self.collapsed_cnt >= start.collapsed_cnt
    }

    pub open spec fn wf(&self) -> bool {
        &&& 1 <= self.dim
        &&& self.dim * self.dim <= usize::MAX
        &&& self.data@.len() == self.dim * self.dim
        &&& table_ok(self.neighbours@, self.dim)
        &&& pixels_ok(self.data@)
        &&& frontier_ok(self.visited@, self.dim)
        &&& in_grid(self.dim, self.last)
        &&& self.collapsed_cnt < count_collapsed(self.data@)
        &&& self.policy.drop_percent <= 100
    }
}

/// The colours of the collapsed cells among `nbrs`, in the order of `nbrs`.
pub open spec fn collapsed_hsls(data: Seq<Cell>, dim: usize, nbrs: Seq<Index>) -> Seq<Hsl>
    decreases nbrs.len(),
{
    if nbrs.len() == 0 {
        seq![]
    } else {
        let prev = collapsed_hsls(data, dim, nbrs.drop_last());
        let c = cell_at(data, dim, nbrs.last());
        if c.collapsed { prev.push(c.px.hsl) } else { prev }
    }
}

pub open spec fn sum_h(s: Seq<Hsl>) -> int
    decreases s.len(),
{
    if s.len() == 0 { 0 } else { sum_h(s.drop_last()) + s.last().h }
}

pub open spec fn sum_l(s: Seq<Hsl>) -> int
    decreases s.len(),
{
    if s.len() == 0 { 0 } else { sum_l(s.drop_last()) + s.last().l }
}

pub open spec fn clamp_sl(v: int) -> int {
    if v < 0 { 0 } else if v > SL_SCALE { SL_SCALE as int } else { v }
}

/// The average hue and lightness `(avg_h, avg_l)` moved by `(dh, dl)`: the hue
/// wraps around the circle, the lightness is held to `[0, 1]`, and the
/// saturation is full.
pub open spec fn jittered(avg_h: int, avg_l: int, dh: int, dl: int) -> Hsl {
    Hsl { h: ((avg_h + dh) % (HUE_TURN as int)) as u32, s: SL_SCALE, l: clamp_sl(avg_l + dl) as u32 }
}

/// The colour that a cell gets from the colours `hsls` of its collapsed
/// neighbours and a generator in state `st`; none when it has no collapsed
/// neighbour.
pub open spec fn value_of(hsls: Seq<Hsl>, st: u64) -> Option<Hsl> {
    if hsls.len() == 0 {
        None
    } else {
        Some(jittered(
            sum_h(hsls) / hsls.len() as int,
            sum_l(hsls) / hsls.len() as int,
            range_draw(st, -HUE_JITTER as int, HUE_JITTER as int),
            range_draw(next_state(st), -LIGHT_JITTER as int, LIGHT_JITTER as int),
        ))
    }
}

/// Moves the colour `(avg_h, avg_l)` by `(dh, dl)`, as `jittered` states.
pub fn jitter(avg_h: u32, avg_l: u32, dh: i32, dl: i32) -> (r: Hsl)
    requires
        avg_h < HUE_TURN,
        avg_l <= SL_SCALE,
        -36000 <= dh <= 36000,
    ensures
        r == jittered(avg_h as int, avg_l as int, dh as int, dl as int),
        r.valid(),
{
    let t: i64 = avg_h as i64 + dh as i64;
    let h: i64 = if t < 0 {
        t + 36000
    } else if t >= 36000 {
        t - 36000
    } else {
        t
    };
    proof {
        let q: int = if t < 0 { -1 } else if t >= 36000 { 1 } else { 0 };
        vstd::arithmetic::div_mod::lemma_fundamental_div_mod_converse(t as int, 36000, q, h as int);
    }
    let v: i64 = avg_l as i64 + dl as i64;
    let l: i64 = if v < 0 {
        0
    } else if v > 10000 {
        10000
    } else {
        v
    };
    Hsl { h: h as u32, s: SL_SCALE, l: l as u32 }
}

/// `p` is a neighbour of one of the first `n` entries of the frontier `f`.
pub open spec fn reached(dim: usize, f: Seq<Index>, n: int, p: Index) -> bool {
    exists|i: int| 0 <= i < n && #[trigger] is_moore_neighbour(dim, f[i].0, f[i].1, p)
}

/// Every cell of `nbrs` is collapsed in `data`.
pub open spec fn all_collapsed(data: Seq<Cell>, dim: usize, nbrs: Seq<Index>) -> bool {
    forall|i: int| 0 <= i < nbrs.len() ==> #[trigger] cell_at(data, dim, nbrs[i]).collapsed
}

proof fn lemma_hsls_nonempty(data: Seq<Cell>, dim: usize, nbrs: Seq<Index>, i: int)
    requires
        0 <= i < nbrs.len(),
        cell_at(data, dim, nbrs[i]).collapsed,
    ensures
        collapsed_hsls(data, dim, nbrs).len() > 0,
    decreases nbrs.len(),
{
    if i < nbrs.len() - 1 {
        lemma_hsls_nonempty(data, dim, nbrs.drop_last(), i);
    }
}

/// Whether `f` holds `p`.
fn frontier_contains(f: &Vec<Index>, p: Index) -> (r: bool)
    ensures
        r == f@.contains(p),
{
    let mut i: usize = 0;
    while i < f.len()
        invariant
            i <= f@.len(),
            forall|j: int| 0 <= j < i ==> f@[j] != p,
        decreases f@.len() - i,
    {
        if f[i].0 == p.0 && f[i].1 == p.1 {
            return true;
        }
        i = i + 1;
    }
    false
}

/// `b` holds the cells of `a`, with some uncollapsed ones collapsed at full
/// saturation, their RGBA derived from their HSL: no collapsed cell changes
/// and no cell reverts.
pub open spec fn cells_advanced(a: Seq<Cell>, b: Seq<Cell>) -> bool {
    &&& b.len() == a.len()
    &&& forall|i: int| 0 <= i < a.len() && a[i].collapsed ==> #[trigger] b[i] == a[i]
    &&& forall|i: int| 0 <= i < a.len() && !(#[trigger] b[i]).collapsed ==> b[i] == a[i]
    &&& forall|i: int| 0 <= i < a.len() && (#[trigger] b[i]).collapsed && !a[i].collapsed
        ==> b[i].px.hsl.s == SL_SCALE
            && b[i].px.rgba == hsl_to_rgb(b[i].px.hsl.h as int, b[i].px.hsl.s as int, b[i].px.hsl.l as int)
}

/// `h` is the colour that `value_of` gives the cell at `q` from the colours of
/// its collapsed neighbours in `d` and a generator in state `st`.
#[verifier::opaque]
pub open spec fn colour_rule(d: Seq<Cell>, dim: usize, q: Index, st: u64, h: Hsl) -> bool {
    value_of(collapsed_hsls(d, dim, moore_neighbours(dim, q.0, q.1)), st) == Some(h)
}

/// The cell at `q` got its colour in `b` from the colours of its collapsed
/// neighbours, averaged and jittered as `colour_rule` states, in some state
/// `d` of the cells between `a` and `b` in which it was still uncollapsed.
#[verifier::opaque]
pub open spec fn coloured_from(a: Seq<Cell>, b: Seq<Cell>, dim: usize, q: Index) -> bool {
    exists|d: Seq<Cell>, st: u64| cells_advanced(a, d) && cells_advanced(d, b) && !cell_at(d, dim, q).collapsed
        && #[trigger] colour_rule(d, dim, q, st, cell_at(b, dim, q).px.hsl)
}

proof fn lemma_colour_rule(d: Seq<Cell>, dim: usize, q: Index, st: u64, h: Hsl)
    requires
        value_of(collapsed_hsls(d, dim, moore_neighbours(dim, q.0, q.1)), st) == Some(h),
    ensures
        colour_rule(d, dim, q, st, h),
{
    reveal(colour_rule);
}

/// `b` is `a` after the expansion steps of an epoch: every neighbour of a
/// frontier entry of `a` has been added to the frontier, every frontier entry of
/// `a` has left it, every neighbour of a frontier entry that is itself
/// collapsed or has a collapsed neighbour is collapsed, no other cell is, and
/// the counter has grown by the number of cells collapsed.
pub open spec fn expanded(a: WFCField, b: WFCField) -> bool {
    let s0 = a.visited@;
    let dim = a.dim;
    &&& b.wf()
    &&& b.dim == a.dim
    &&& b.neighbours == a.neighbours
    &&& b.last == a.last
    &&& b.policy == a.policy
    &&& b.epoch_idx == a.epoch_idx
    &&& forall|p: Index| #[trigger] b.visited@.contains(p) <==> !s0.contains(p) && reached(dim, s0, s0.len() as int, p)
    &&& cells_advanced(a.data@, b.data@)
    &&& forall|i: int, q: Index| 0 <= i < s0.len() && cell_at(a.data@, dim, s0[i]).collapsed
        && #[trigger] is_moore_neighbour(dim, s0[i].0, s0[i].1, q) ==> cell_at(b.data@, dim, q).collapsed
    &&& forall|i: int, q: Index| 0 <= i < s0.len() && #[trigger] is_moore_neighbour(dim, s0[i].0, s0[i].1, q)
        && collapsed_hsls(a.data@, dim, moore_neighbours(dim, q.0, q.1)).len() > 0
        ==> cell_at(b.data@, dim, q).collapsed
    &&& forall|q: Index| in_grid(dim, q) && #[trigger] cell_at(b.data@, dim, q).collapsed
        && !cell_at(a.data@, dim, q).collapsed
        ==> reached(dim, s0, s0.len() as int, q) && coloured_from(a.data@, b.data@, dim, q)
    &&& b.collapsed_cnt + count_collapsed(a.data@) == a.collapsed_cnt + count_collapsed(b.data@)
    &&& b.collapsed_cnt >= a.collapsed_cnt
}

/// `b` is `a` after frontier pressure control (see `FrontierPolicy`).
pub open spec fn pruned(a: WFCField, b: WFCField) -> bool {
    &&& b == (WFCField { visited: b.visited, rng: b.rng, ..a })
    &&& a.visited@.len() <= a.policy.threshold ==> b.visited == a.visited
    &&& a.visited@.len() > a.policy.threshold ==> {
        &&& b.visited@.len() <= a.policy.cap
        &&& is_subsequence(b.visited@, a.visited@)
        &&& forall|p: Index| #[trigger] b.visited@.contains(p) ==> a.visited@.contains(p)
            && !all_collapsed(a.data@, a.dim, moore_neighbours(a.dim, p.0, p.1))
    }
}

/// `pos` places each entry of `b` in `a`, at strictly increasing positions.
pub open spec fn subseq_at(b: Seq<Index>, a: Seq<Index>, pos: Seq<int>) -> bool {
    &&& pos.len() == b.len()
    &&& forall|k: int| 0 <= k < b.len() ==> 0 <= #[trigger] pos[k] < a.len() && a[pos[k]] == b[k]
    &&& forall|k1: int, k2: int| 0 <= k1 < k2 < b.len() ==> #[trigger] pos[k1] < #[trigger] pos[k2]
}

/// `b` keeps some of the entries of `a`, in their order in `a`.
pub open spec fn is_subsequence(b: Seq<Index>, a: Seq<Index>) -> bool {
    exists|pos: Seq<int>| #[trigger] subseq_at(b, a, pos)
}

/// The entries of `f` lie in strictly increasing row-major order.
pub open spec fn row_major(f: Seq<Index>, dim: usize) -> bool {
    forall|a: int, b: int| 0 <= a < b < f.len() ==> linear(dim, #[trigger] f[a]) < linear(dim, #[trigger] f[b])
}

/// Some cell of `data` is not collapsed.
pub open spec fn some_uncollapsed(data: Seq<Cell>) -> bool {
    exists|i: int| 0 <= i < data.len() && !(#[trigger] data[i]).collapsed
}

/// `b` is `a` after starvation recovery: a frontier of fewer than two entries,
/// while some cell is uncollapsed, is replaced by all uncollapsed cells, in
/// row-major order.
pub open spec fn recovered(a: WFCField, b: WFCField) -> bool {
    &&& b == (WFCField { visited: b.visited, ..a })
    &&& a.visited@.len() < 2 && some_uncollapsed(a.data@) ==> row_major(b.visited@, a.dim)
    &&& a.visited@.len() < 2 && some_uncollapsed(a.data@) ==> forall|p: Index| #[trigger] b.visited@.contains(p)
        <==> in_grid(a.dim, p) && !cell_at(a.data@, a.dim, p).collapsed
    &&& !(a.visited@.len() < 2 && some_uncollapsed(a.data@)) ==> b.visited == a.visited
}

/// `b` is `a` after one epoch: expansion, pressure control and starvation
/// recovery, in that order, with the epoch counter advanced.
#[verifier::opaque]
pub open spec fn epoch_step(a: WFCField, b: WFCField) -> bool {
    &&& b.wf()
    &&& b.epoch_idx == if a.epoch_idx < usize::MAX { a.epoch_idx + 1 } else { a.epoch_idx as int }
    &&& exists|m1: WFCField, m2: WFCField| #[trigger] expanded(a, m1) && #[trigger] pruned(m1, m2)
        && recovered(m2, WFCField { epoch_idx: a.epoch_idx, ..b })
}

proof fn lemma_advanced_trans(a: Seq<Cell>, b: Seq<Cell>, c: Seq<Cell>)
    requires
        cells_advanced(a, b),
        cells_advanced(b, c),
    ensures
        cells_advanced(a, c),
{
    assert forall|i: int| 0 <= i < a.len() && (#[trigger] c[i]).collapsed && !a[i].collapsed
        implies c[i].px.hsl.s == SL_SCALE by {
        if b[i].collapsed {
            assert(c[i] == b[i]);
        }
    }
}

/// What one epoch keeps: the grid, the cells already collapsed, and a counter
/// that grows with the cells collapsed.
#[verifier::opaque]
pub open spec fn step_facts(a: WFCField, b: WFCField) -> bool {
    &&& b.wf()
    &&& b.dim == a.dim
    &&& cells_advanced(a.data@, b.data@)
    &&& b.collapsed_cnt + count_collapsed(a.data@) == a.collapsed_cnt + count_collapsed(b.data@)
    &&& b.collapsed_cnt >= a.collapsed_cnt
}

proof fn lemma_epoch_step(a: WFCField, b: WFCField)
    requires
        a.wf(),
        epoch_step(a, b),
    ensures
        step_facts(a, b),
{
    reveal(epoch_step);
    reveal(step_facts);
    let (m1, m2) = choose|m1: WFCField, m2: WFCField| #[trigger] expanded(a, m1) && #[trigger] pruned(m1, m2)
        && recovered(m2, WFCField { epoch_idx: a.epoch_idx, ..b });
    assert(m2.data == m1.data);
}

/// What a run of epochs keeps between two of its states.
#[verifier::opaque]
pub open spec fn chain_facts(a: WFCField, b: WFCField) -> bool {
    &&& a.collapsed_cnt <= b.collapsed_cnt
    &&& cells_advanced(a.data@, b.data@)
    &&& b.collapsed_cnt + count_collapsed(a.data@) == a.collapsed_cnt + count_collapsed(b.data@)
}

proof fn lemma_chain_refl(a: WFCField)
    ensures
        chain_facts(a, a),
{
    reveal(chain_facts);
}

proof fn lemma_chain_extend(a: WFCField, b: WFCField, c: WFCField)
    requires
        chain_facts(a, b),
        step_facts(b, c),
    ensures
        chain_facts(a, c),
{
    reveal(chain_facts);
    reveal(step_facts);
    lemma_advanced_trans(a.data@, b.data@, c.data@);
}

proof fn lemma_steps(run: Seq<WFCField>, n: int)
    requires
        1 <= run.len(),
        0 <= n < run.len(),
        run[0].wf(),
        forall|i: int| 0 <= i < run.len() - 1 ==> epoch_step(#[trigger] run[i], run[i + 1]),
    ensures
        run[n].wf(),
        forall|i: int| 0 <= i < n ==> step_facts(#[trigger] run[i], run[i + 1]),
    decreases n,
{
    if n > 0 {
        lemma_steps(run, n - 1);
        assert(epoch_step(run[n - 1], run[n]));
        lemma_epoch_step(run[n - 1], run[n]);
        reveal(step_facts);
    }
}

proof fn lemma_run(run: Seq<WFCField>, i: int, j: int)
    requires
        0 <= i <= j < run.len(),
        forall|k: int| 0 <= k < run.len() - 1 ==> step_facts(#[trigger] run[k], run[k + 1]),
    ensures
        chain_facts(run[i], run[j]),
    decreases j - i,
{
    if j == i {
        lemma_chain_refl(run[i]);
    } else {
        lemma_run(run, i, j - 1);
        assert(step_facts(run[j - 1], run[j]));
        lemma_chain_extend(run[i], run[j - 1], run[j]);
    }
}

/// Over any run of epochs the collapse counter never decreases, and once it
/// has reached `dim * dim - 1` every later epoch leaves it where it is.
pub proof fn lemma_collapsed_cnt_monotone(run: Seq<WFCField>)
    requires
        run.len() >= 1,
        run[0].wf(),
        forall|i: int| 0 <= i < run.len() - 1 ==> epoch_step(#[trigger] run[i], run[i + 1]),
    ensures
        forall|i: int, j: int| 0 <= i <= j < run.len() ==> run[i].collapsed_cnt <= run[j].collapsed_cnt,
        forall|i: int, j: int| 0 <= i <= j < run.len() && run[i].collapsed_cnt >= run[i].dim * run[i].dim - 1
            ==> run[j].collapsed_cnt == run[i].collapsed_cnt,
{
    lemma_steps(run, run.len() - 1);
    assert forall|i: int, j: int| 0 <= i <= j < run.len() implies run[i].collapsed_cnt <= run[j].collapsed_cnt by {
        lemma_run(run, i, j);
        reveal(chain_facts);
    }
    assert forall|i: int, j: int| 0 <= i <= j < run.len() && run[i].collapsed_cnt >= run[i].dim * run[i].dim - 1
        implies run[j].collapsed_cnt == run[i].collapsed_cnt by {
        lemma_run(run, i, j);
        reveal(chain_facts);
        let a = run[i].data@;
        let b = run[j].data@;
        lemma_steps(run, i);
        lemma_count_bound(a);
        assert forall|k: int| 0 <= k < a.len() implies a[k].collapsed by {
            if !a[k].collapsed {
                lemma_count_short(a, k);
            }
        }
        assert(b =~= a);
    }
}

/// Over any run of epochs a collapsed cell stays collapsed, with its colour.
pub proof fn lemma_collapse_permanent(run: Seq<WFCField>)
    requires
        run.len() >= 1,
        run[0].wf(),
        forall|i: int| 0 <= i < run.len() - 1 ==> epoch_step(#[trigger] run[i], run[i + 1]),
    ensures
        forall|i: int, j: int, k: int| 0 <= i <= j < run.len() && 0 <= k < run[i].data@.len()
            && (#[trigger] run[i].data@[k]).collapsed ==> #[trigger] run[j].data@[k] == run[i].data@[k],
{
    lemma_steps(run, run.len() - 1);
    assert forall|i: int, j: int, k: int| 0 <= i <= j < run.len() && 0 <= k < run[i].data@.len()
        && (#[trigger] run[i].data@[k]).collapsed implies #[trigger] run[j].data@[k] == run[i].data@[k] by {
        lemma_run(run, i, j);
        reveal(chain_facts);
    }
}

/// Advancing the cells, with the counter growing alike, keeps the state of an
/// epoch.
proof fn lemma_advance_keeps(a: WFCField, b: WFCField, start: WFCField, j: int, q: Index)
    requires
        a.expanding(start, j, j + 1),
        0 <= j < start.visited@.len(),
        is_moore_neighbour(a.dim, start.visited@[j].0, start.visited@[j].1, q),
        forall|i: int| 0 <= i < a.data@.len() && i != linear(a.dim, q) ==> #[trigger] b.data@[i] == a.data@[i],
        !cell_at(a.data@, a.dim, q).collapsed && cell_at(b.data@, a.dim, q).collapsed
            ==> colour_rule(a.data@, a.dim, q, a.rng.state, cell_at(b.data@, a.dim, q).px.hsl),
        b.wf(),
        b == (WFCField { data: b.data, collapsed_cnt: b.collapsed_cnt, rng: b.rng, ..a }),
        cells_advanced(a.data@, b.data@),
        b.collapsed_cnt + count_collapsed(a.data@) == a.collapsed_cnt + count_collapsed(b.data@),
        b.collapsed_cnt >= a.collapsed_cnt,
    ensures
        b.expanding(start, j, j + 1),
        forall|i: int| 0 <= i < a.data@.len() && a.data@[i].collapsed ==> #[trigger] b.data@[i].collapsed,
{
    let d0 = start.data@;
    let s0 = start.visited@;
    let dim = b.dim;
    assert(cells_advanced(d0, a.data@));
    lemma_advanced_trans(d0, a.data@, b.data@);
    assert forall|i: int, p: Index| 0 <= i < j && cell_at(d0, dim, s0[i]).collapsed
        && #[trigger] is_moore_neighbour(dim, s0[i].0, s0[i].1, p) implies cell_at(b.data@, dim, p).collapsed by {
        assert(cell_at(a.data@, dim, p).collapsed);
        lemma_linear(dim, p.0, p.1);
    }
    assert forall|i: int, p: Index| 0 <= i < j && #[trigger] is_moore_neighbour(dim, s0[i].0, s0[i].1, p)
        && collapsed_hsls(d0, dim, moore_neighbours(dim, p.0, p.1)).len() > 0
        implies cell_at(b.data@, dim, p).collapsed by {
        assert(cell_at(a.data@, dim, p).collapsed);
        lemma_linear(dim, p.0, p.1);
    }
    assert forall|p: Index| in_grid(dim, p) && #[trigger] cell_at(b.data@, dim, p).collapsed
        && !cell_at(d0, dim, p).collapsed implies reached(dim, s0, j + 1, p) && coloured_from(d0, b.data@, dim, p) by {
        lemma_linear(dim, p.0, p.1);
        lemma_linear(dim, q.0, q.1);
        if linear(dim, p) == linear(dim, q) {
            assert(p == q);
            assert(is_moore_neighbour(dim, s0[j].0, s0[j].1, p));
        } else {
            assert(cell_at(b.data@, dim, p) == cell_at(a.data@, dim, p));
            assert(cell_at(a.data@, dim, p).collapsed);
        }
        assert(cells_advanced(d0, a.data@));
        assert(cell_at(a.data@, dim, p).collapsed ==> coloured_from(d0, a.data@, dim, p));
        lemma_coloured_step(d0, a.data@, b.data@, dim, q, p, a.rng.state);
    }
}

proof fn lemma_coloured_step(d0: Seq<Cell>, a: Seq<Cell>, b: Seq<Cell>, dim: usize, q: Index, p: Index, st: u64)
    requires
        cells_advanced(d0, a),
        cells_advanced(a, b),
        a.len() == dim * dim,
        in_grid(dim, p),
        in_grid(dim, q),
        forall|i: int| 0 <= i < a.len() && i != linear(dim, q) ==> #[trigger] b[i] == a[i],
        cell_at(b, dim, p).collapsed,
        !cell_at(d0, dim, p).collapsed,
        cell_at(a, dim, p).collapsed ==> coloured_from(d0, a, dim, p),
        !cell_at(a, dim, q).collapsed && cell_at(b, dim, q).collapsed
            ==> colour_rule(a, dim, q, st, cell_at(b, dim, q).px.hsl),
    ensures
        coloured_from(d0, b, dim, p),
{
    reveal(coloured_from);
    lemma_linear(dim, p.0, p.1);
    lemma_linear(dim, q.0, q.1);
    if !cell_at(a, dim, p).collapsed {
        assert(p == q);
        assert(colour_rule(a, dim, q, st, cell_at(b, dim, q).px.hsl));
    } else {
        assert(cell_at(a, dim, p) == cell_at(b, dim, p));
        let (d, st2) = choose|d: Seq<Cell>, st2: u64| cells_advanced(d0, d) && cells_advanced(d, a)
            && !cell_at(d, dim, p).collapsed
            && #[trigger] colour_rule(d, dim, p, st2, cell_at(a, dim, p).px.hsl);
        lemma_advanced_trans(d, a, b);
        assert(colour_rule(d, dim, p, st2, cell_at(b, dim, p).px.hsl));
    }
}

proof fn lemma_hsls_witness(data: Seq<Cell>, dim: usize, nbrs: Seq<Index>) -> (t: int)
    requires
        collapsed_hsls(data, dim, nbrs).len() > 0,
    ensures
        0 <= t < nbrs.len(),
        cell_at(data, dim, nbrs[t]).collapsed,
    decreases nbrs.len(),
{
    let prev = nbrs.drop_last();
    if collapsed_hsls(data, dim, prev).len() > 0 {
        lemma_hsls_witness(data, dim, prev)
    } else {
        nbrs.len() - 1
    }
}

/// Whether both representations of every pixel of `data` agree.
pub fn pixels_agree(data: &Vec<Cell>) -> (r: bool)
    ensures
        r == pixels_ok(data@),
{
    let mut i: usize = 0;
    while i < data.len()
        invariant
            i <= data@.len(),
            forall|j: int| 0 <= j < i ==> (#[trigger] data@[j]).px.wf(),
        decreases data@.len() - i,
    {
        let px = data[i].px;
        if !(px.hsl.h < HUE_TURN && px.hsl.s <= SL_SCALE && px.hsl.l <= SL_SCALE) {
            assert(!data@[i as int].px.wf());
            return false;
        }
        let from_rgb = Pixel::rgb2hsl(px.rgba[0], px.rgba[1], px.rgba[2]);
        let from_hsl = Pixel::hsl2rgb(px.hsl.h, px.hsl.s, px.hsl.l);
        let same_hsl = from_rgb.h == px.hsl.h && from_rgb.s == px.hsl.s && from_rgb.l == px.hsl.l;
        let same_rgba = from_hsl[0] == px.rgba[0] && from_hsl[1] == px.rgba[1] && from_hsl[2] == px.rgba[2]
            && from_hsl[3] == px.rgba[3];
        if !same_hsl && !same_rgba {
            assert(px.hsl != rgb_to_hsl(px.rgba[0], px.rgba[1], px.rgba[2]));
            assert(px.rgba != hsl_to_rgb(px.hsl.h as int, px.hsl.s as int, px.hsl.l as int));
            assert(!data@[i as int].px.wf());
            return false;
        }
        assert(same_rgba ==> from_hsl =~= px.rgba);
        i = i + 1;
    }
    true
}

proof fn lemma_dim_bound(dim: usize)
    requires
        dim * dim <= usize::MAX,
    ensures
        dim <= 0x1_0000_0000,
{
    if dim > 0x1_0000_0000 {
        assert(dim * dim > 0x1_0000_0000 * 0x1_0000_0000) by (nonlinear_arith)
            requires dim > 0x1_0000_0000;
    }
}

impl WFCField {
    /// A field over `data` whose seed is `seed`: the seed cell is collapsed with
    /// a random colour and is the whole frontier.
    pub fn with_seed(data: Vec<Cell>, dim: usize, seed: Index, rng: Rand) -> (r: WFCField)
        requires
            1 <= dim,
            dim * dim <= usize::MAX,
            data@.len() == dim * dim,
            pixels_ok(data@),
            in_grid(dim, seed),
        ensures
            r.wf(),
            r.dim == dim,
            r.collapsed_cnt == 0,
            r.epoch_idx == 0,
            r.visited@ == seq![seed],
            r.last == seed,
            r.policy == default_policy(),
            r.data@.len() == data@.len(),
            forall|i: int| 0 <= i < data@.len() && i != linear(dim, seed) ==> #[trigger] r.data@[i] == data@[i],
            cell_at(r.data@, dim, seed).collapsed,
            r.rng.state == next_state(next_state(next_state(rng.state))),
            cell_at(r.data@, dim, seed).px.rgba[0] == range_draw(rng.state, 0, 256),
            cell_at(r.data@, dim, seed).px.rgba[1] == range_draw(next_state(rng.state), 0, 256),
            cell_at(r.data@, dim, seed).px.rgba[2] == range_draw(next_state(next_state(rng.state)), 0, 256),
            cell_at(r.data@, dim, seed).px.rgba[3] == 1,
            cell_at(r.data@, dim, seed).px.hsl == rgb_to_hsl(
                cell_at(r.data@, dim, seed).px.rgba[0],
                cell_at(r.data@, dim, seed).px.rgba[1],
                cell_at(r.data@, dim, seed).px.rgba[2],
            ),
    {
        let mut data = data;
        let mut rng = rng;
        proof {
            lemma_linear(dim, seed.0, seed.1);
        }
        let idx = seed.0 * dim + seed.1;
        let px = Pixel::random(&mut rng);
        let ghost before = data@;
        data.set(idx, Cell { px, collapsed: true });
        proof {
            lemma_count_update(before, idx as int, Cell { px, collapsed: true });
            lemma_count_pos(data@, idx as int);
        }
        let mut visited: Vec<Index> = Vec::new();
        visited.push(seed);
        let neighbours = WFCField::gen_neighbours(data.len(), dim);
        WFCField {
            data,
            dim,
            epoch_idx: 0,
            collapsed_cnt: 0,
            visited,
            last: seed,
            neighbours,
            rng,
            policy: FrontierPolicy { threshold: 100, drop_percent: 50, cap: 100 },
        }
    }

    /// A field over `data` whose seed cell is drawn uniformly from the grid.
    pub fn new_with_data(data: Vec<Cell>, dim: usize, rng: Rand) -> (r: WFCField)
        requires
            1 <= dim,
            dim * dim <= usize::MAX,
            data@.len() == dim * dim,
            pixels_ok(data@),
        ensures
            r.wf(),
            r.dim == dim,
            r.collapsed_cnt == 0,
            r.epoch_idx == 0,
            r.visited@.len() == 1,
            in_grid(dim, r.visited@[0]),
            r.visited@[0] == seed_of(rng.state, dim),
            r.last == r.visited@[0],
            r.policy == default_policy(),
            r.data@.len() == data@.len(),
            forall|i: int| 0 <= i < data@.len() && i != linear(dim, r.visited@[0])
                ==> #[trigger] r.data@[i] == data@[i],
            cell_at(r.data@, dim, r.visited@[0]).collapsed,
            r.rng.state == next_state(next_state(next_state(next_state(next_state(rng.state))))),
            cell_at(r.data@, dim, r.visited@[0]).px.rgba[0]
                == range_draw(next_state(next_state(rng.state)), 0, 256),
            cell_at(r.data@, dim, r.visited@[0]).px.rgba[1]
                == range_draw(next_state(next_state(next_state(rng.state))), 0, 256),
            cell_at(r.data@, dim, r.visited@[0]).px.rgba[2]
                == range_draw(next_state(next_state(next_state(next_state(rng.state)))), 0, 256),
            cell_at(r.data@, dim, r.visited@[0]).px.rgba[3] == 1,
    {
        let mut rng = rng;
        proof {
            lemma_dim_bound(dim);
        }
        let x = rng.gen_index(dim);
        let y = rng.gen_index(dim);
        WFCField::with_seed(data, dim, (x, y), rng)
    }

    /// The colour for the cell at `p`: the average hue and lightness of its
    /// collapsed neighbours, each moved by a random amount within its jitter
    /// band. None, with the generator untouched, when no neighbour is collapsed.
    pub fn gen_value(&mut self, p: Index) -> (r: Option<Hsl>)
        requires
            old(self).wf(),
            in_grid(old(self).dim, p),
        ensures
            r == value_of(
                collapsed_hsls(old(self).data@, old(self).dim, moore_neighbours(old(self).dim, p.0, p.1)),
                old(self).rng.state,
            ),
            r matches Some(v) ==> v.valid(),
            *final(self) == (WFCField { rng: final(self).rng, ..*old(self) }),
            final(self).wf(),
    {
        let dim = self.dim;
        proof {
            lemma_linear(dim, p.0, p.1);
            lemma_adjacency(dim, p.0, p.1);
        }
        let idx = p.0 * dim + p.1;
        let ghost nbrs = moore_neighbours(dim, p.0, p.1);
        assert(self.neighbours@[idx as int]@ == nbrs);
        let n = self.neighbours[idx].len();
        assert(n <= 8) by {
            let (ax, ay) = (crate::adjacency::axis_span(dim, p.0), crate::adjacency::axis_span(dim, p.1));
            assert(ax * ay <= 9) by (nonlinear_arith)
                requires 1 <= ax <= 3, 1 <= ay <= 3;
        }
        let mut sh: u32 = 0;
        let mut sl: u32 = 0;
        let mut cnt: u32 = 0;
        let mut k: usize = 0;
        while k < n
            invariant
                self.wf(),
                self.dim == dim,
                in_grid(dim, p),
                idx == linear(dim, p),
                0 <= idx < dim * dim,
                self.neighbours@[idx as int]@ == nbrs,
                nbrs == moore_neighbours(dim, p.0, p.1),
                n == nbrs.len(),
                n <= 8,
                k <= n,
                forall|i: int| 0 <= i < nbrs.len() ==> in_grid(dim, #[trigger] nbrs[i]),
                cnt as int == collapsed_hsls(self.data@, dim, nbrs.subrange(0, k as int)).len(),
                sh as int == sum_h(collapsed_hsls(self.data@, dim, nbrs.subrange(0, k as int))),
                sl as int == sum_l(collapsed_hsls(self.data@, dim, nbrs.subrange(0, k as int))),
                cnt <= k,
                sh <= cnt * 35999,
                sl <= cnt * 10000,
            decreases n - k,
        {
            let q = self.neighbours[idx][k];
            proof {
                lemma_linear(dim, q.0, q.1);
                assert(nbrs.subrange(0, k as int + 1).drop_last() =~= nbrs.subrange(0, k as int));
            }
            let cell = self.data[q.0 * dim + q.1];
            assert(cell.px.wf());
            let ghost prev = collapsed_hsls(self.data@, dim, nbrs.subrange(0, k as int));
            assert(prev.push(cell.px.hsl).drop_last() =~= prev);
            if cell.collapsed {
                sh = sh + cell.px.hsl.h;
                sl = sl + cell.px.hsl.l;
                cnt = cnt + 1;
            }
            k = k + 1;
        }
        assert(nbrs.subrange(0, n as int) =~= nbrs);
        if cnt == 0 {
            return None;
        }
        let ghost hsls = collapsed_hsls(self.data@, dim, nbrs);
        let avg_h = sh / cnt;
        let avg_l = sl / cnt;
        proof {
            vstd::arithmetic::div_mod::lemma_div_is_ordered(sh as int, cnt * 35999, cnt as int);
            vstd::arithmetic::div_mod::lemma_div_multiples_vanish(35999, cnt as int);
            vstd::arithmetic::div_mod::lemma_div_is_ordered(sl as int, cnt * 10000, cnt as int);
            vstd::arithmetic::div_mod::lemma_div_multiples_vanish(10000, cnt as int);
            assert(cnt * 35999 == 35999 * cnt) by (nonlinear_arith);
            assert(cnt * 10000 == 10000 * cnt) by (nonlinear_arith);
        }
        let dh = self.rng.gen_rangei32(-HUE_JITTER, HUE_JITTER);
        let dl = self.rng.gen_rangei32(-LIGHT_JITTER, LIGHT_JITTER);
        Some(jitter(avg_h, avg_l, dh, dl))
    }

    /// Adds `q`, a neighbour of frontier entry `j` of `start`, to the frontier
    /// unless it is there already.
    fn add_to_frontier(&mut self, start: Ghost<WFCField>, j: usize, q: Index)
        requires
            old(self).expanding(start@, j as int, j as int + 1),
            j < start@.visited@.len(),
            is_moore_neighbour(old(self).dim, start@.visited@[j as int].0, start@.visited@[j as int].1, q),
        ensures
            final(self).expanding(start@, j as int, j as int + 1),
            final(self).data == old(self).data,
            final(self).visited@.contains(q),
            forall|x: Index| old(self).visited@.contains(x) ==> #[trigger] final(self).visited@.contains(x),
    {
        let ghost s0 = start@.visited@;
        if !frontier_contains(&self.visited, q) {
            let ghost before = self.visited@;
            self.visited.push(q);
            proof {
                assert(self.visited@[before.len() as int] == q);
                assert forall|i: int| 0 <= i < s0.len() implies s0[i] != q by {
                    assert(before[i] == s0[i]);
                }
                assert(reached(self.dim, s0, j as int + 1, q));
                assert forall|a: int, b: int| 0 <= a < self.visited@.len() && 0 <= b < self.visited@.len()
                    && a != b implies self.visited@[a] != self.visited@[b] by {
                    if a < before.len() && b < before.len() {
                    } else if a < before.len() {
                        assert(before.contains(before[a]));
                    } else {
                        assert(before.contains(before[b]));
                    }
                }
                assert forall|x: Index| before.contains(x) implies self.visited@.contains(x) by {
                    let t = choose|t: int| 0 <= t < before.len() && before[t] == x;
                    assert(self.visited@[t] == x);
                }
            }
        }
    }

    /// Collapses `q`, a neighbour of frontier entry `j` of `start`, unless it is
    /// collapsed already or has no collapsed neighbour.
    fn collapse_cell(&mut self, start: Ghost<WFCField>, j: usize, q: Index)
        requires
            old(self).expanding(start@, j as int, j as int + 1),
            j < start@.visited@.len(),
            is_moore_neighbour(old(self).dim, start@.visited@[j as int].0, start@.visited@[j as int].1, q),
        ensures
            final(self).expanding(start@, j as int, j as int + 1),
            final(self).visited == old(self).visited,
            forall|i: int| 0 <= i < old(self).data@.len() && old(self).data@[i].collapsed
                ==> #[trigger] final(self).data@[i].collapsed,
            cell_at(start@.data@, old(self).dim, start@.visited@[j as int]).collapsed
                ==> cell_at(final(self).data@, old(self).dim, q).collapsed,
            collapsed_hsls(start@.data@, old(self).dim, moore_neighbours(old(self).dim, q.0, q.1)).len() > 0
                ==> cell_at(final(self).data@, old(self).dim, q).collapsed,
    {
        let ghost s0 = start@.visited@;
        let ghost d0 = start@.data@;
        let dim = self.dim;
        let ghost c = s0[j as int];
        let ghost before = *self;
        proof {
            let nq = moore_neighbours(dim, q.0, q.1);
            if collapsed_hsls(d0, dim, nq).len() > 0 {
                let t = lemma_hsls_witness(d0, dim, nq);
                lemma_adjacency(dim, q.0, q.1);
                lemma_linear(dim, nq[t].0, nq[t].1);
                assert(cell_at(before.data@, dim, nq[t]).collapsed);
                lemma_hsls_nonempty(before.data@, dim, nq, t);
            }
            if cell_at(d0, dim, c).collapsed {
                assert(is_moore_neighbour(dim, q.0, q.1, c));
                lemma_adjacency(dim, q.0, q.1);
                let nq = moore_neighbours(dim, q.0, q.1);
                assert(nq.contains(c));
                let t = choose|t: int| 0 <= t < nq.len() && nq[t] == c;
                lemma_linear(dim, c.0, c.1);
                assert(cell_at(before.data@, dim, c) == cell_at(d0, dim, c));
                lemma_hsls_nonempty(before.data@, dim, nq, t);
            }
        }
        self.collapse_at(q);
        proof {
            if !cell_at(before.data@, dim, q).collapsed && cell_at(self.data@, dim, q).collapsed {
                lemma_colour_rule(before.data@, dim, q, before.rng.state, cell_at(self.data@, dim, q).px.hsl);
            }
            lemma_advance_keeps(before, *self, start@, j as int, q);
        }
    }

    /// Expands frontier entry `j` of the epoch that started from `start`: adds
    /// each of its neighbours to the frontier unless it is there already, and
    /// collapses each uncollapsed one that has a collapsed neighbour.
    fn expand_entry(&mut self, start: Ghost<WFCField>, j: usize)
        requires
            old(self).expanding(start@, j as int, j as int),
            j < start@.visited@.len(),
        ensures
            final(self).expanding(start@, j as int + 1, j as int + 1),
    {
        let ghost s0 = start@.visited@;
        let ghost d0 = start@.data@;
        let dim = self.dim;
        let c = self.visited[j];
        assert(c == s0[j as int]);
        proof {
            lemma_linear(dim, c.0, c.1);
            lemma_adjacency(dim, c.0, c.1);
        }
        let ci = c.0 * dim + c.1;
        let ghost nbrs = moore_neighbours(dim, c.0, c.1);
        assert(self.neighbours@[ci as int]@ == nbrs);
        let m = self.neighbours[ci].len();
        let mut k: usize = 0;
        while k < m
            invariant
                self.expanding(start@, j as int, j as int + 1),
                j < s0.len(),
                s0 == start@.visited@,
                d0 == start@.data@,
                dim == self.dim,
                c == s0[j as int],
                in_grid(dim, c),
                0 <= ci < dim * dim,
                nbrs == moore_neighbours(dim, c.0, c.1),
                self.neighbours@[ci as int]@ == nbrs,
                m == nbrs.len(),
                k <= m,
                forall|q: Index| #[trigger] nbrs.contains(q) <==> is_moore_neighbour(dim, c.0, c.1, q),
                forall|kk: int| 0 <= kk < k ==> self.visited@.contains(#[trigger] nbrs[kk]),
                forall|kk: int| 0 <= kk < k && cell_at(d0, dim, c).collapsed
                    ==> cell_at(self.data@, dim, #[trigger] nbrs[kk]).collapsed,
                forall|kk: int| 0 <= kk < k
                    && collapsed_hsls(d0, dim, moore_neighbours(dim, nbrs[kk].0, nbrs[kk].1)).len() > 0
                    ==> cell_at(self.data@, dim, #[trigger] nbrs[kk]).collapsed,
            decreases m - k,
        {
            let q = self.neighbours[ci][k];
            assert(nbrs.contains(q));
            let ghost prev = *self;
            self.add_to_frontier(start, j, q);
            self.collapse_cell(start, j, q);
            assert forall|kk: int| 0 <= kk < k + 1 implies self.visited@.contains(#[trigger] nbrs[kk]) by {
                if kk < k {
                    assert(prev.visited@.contains(nbrs[kk]));
                }
            }
            assert forall|kk: int| 0 <= kk < k + 1 && cell_at(d0, dim, c).collapsed
                implies cell_at(self.data@, dim, #[trigger] nbrs[kk]).collapsed by {
                if kk < k {
                    lemma_adjacency(dim, c.0, c.1);
                    lemma_linear(dim, nbrs[kk].0, nbrs[kk].1);
                    assert(cell_at(prev.data@, dim, nbrs[kk]).collapsed);
                }
            }
            assert forall|kk: int| 0 <= kk < k + 1
                && collapsed_hsls(d0, dim, moore_neighbours(dim, nbrs[kk].0, nbrs[kk].1)).len() > 0
                implies cell_at(self.data@, dim, #[trigger] nbrs[kk]).collapsed by {
                if kk < k {
                    lemma_adjacency(dim, c.0, c.1);
                    lemma_linear(dim, nbrs[kk].0, nbrs[kk].1);
                    assert(cell_at(prev.data@, dim, nbrs[kk]).collapsed);
                }
            }
            k = k + 1;
        }
        assert forall|q: Index| #[trigger] is_moore_neighbour(dim, c.0, c.1, q) implies self.visited@.contains(q) by {
            assert(nbrs.contains(q));
            let t = choose|t: int| 0 <= t < nbrs.len() && nbrs[t] == q;
            assert(self.visited@.contains(nbrs[t]));
        }
        assert forall|q: Index| cell_at(d0, dim, c).collapsed && #[trigger] is_moore_neighbour(dim, c.0, c.1, q)
            implies cell_at(self.data@, dim, q).collapsed by {
            assert(nbrs.contains(q));
            let t = choose|t: int| 0 <= t < nbrs.len() && nbrs[t] == q;
            assert(cell_at(self.data@, dim, nbrs[t]).collapsed);
        }
        assert forall|q: Index| #[trigger] is_moore_neighbour(dim, c.0, c.1, q)
            && collapsed_hsls(d0, dim, moore_neighbours(dim, q.0, q.1)).len() > 0
            implies cell_at(self.data@, dim, q).collapsed by {
            assert(nbrs.contains(q));
            let t = choose|t: int| 0 <= t < nbrs.len() && nbrs[t] == q;
            assert(cell_at(self.data@, dim, nbrs[t]).collapsed);
        }
    }

    /// The expansion steps of an epoch: each entry of the frontier as it stands
    /// adds its neighbours to the frontier and collapses those it can; then the
    /// entries it started with leave the frontier.
    fn expand(&mut self)
        requires
            old(self).wf(),
        ensures
            expanded(*old(self), *final(self)),
    {
        let ghost start = *self;
        let n = self.visited.len();
        let mut j: usize = 0;
        while j < n
            invariant
                self.expanding(start, j as int, j as int),
                n == start.visited@.len(),
                j <= n,
            decreases n - j,
        {
            self.expand_entry(Ghost(start), j);
            j = j + 1;
        }
        let ghost full = self.visited@;
        let rest = self.visited.split_off(n);
        self.visited = rest;
        proof {
            let s0 = start.visited@;
            assert(self.visited@ =~= full.subrange(n as int, full.len() as int));
            assert forall|p: Index| #[trigger] self.visited@.contains(p)
                <==> !s0.contains(p) && reached(self.dim, s0, s0.len() as int, p) by {
                if self.visited@.contains(p) {
                    let t = choose|t: int| 0 <= t < self.visited@.len() && self.visited@[t] == p;
                    assert(full[t + n] == p);
                }
                if !s0.contains(p) && reached(self.dim, s0, s0.len() as int, p) {
                    let i = choose|i: int| 0 <= i < s0.len() && #[trigger] is_moore_neighbour(self.dim, s0[i].0, s0[i].1, p);
                    assert(full.contains(p));
                    let t = choose|t: int| 0 <= t < full.len() && full[t] == p;
                    if t < n {
                        assert(s0[t] == p);
                    }
                    assert(self.visited@[t - n] == p);
                }
            }
            assert(frontier_ok(self.visited@, self.dim));
        }
    }

    /// Whether every neighbour of `p` is collapsed.
    pub fn is_blank(&self, p: Index) -> (r: bool)
        requires
            self.wf(),
            in_grid(self.dim, p),
        ensures
            r == all_collapsed(self.data@, self.dim, moore_neighbours(self.dim, p.0, p.1)),
    {
        let dim = self.dim;
        proof {
            lemma_linear(dim, p.0, p.1);
            lemma_adjacency(dim, p.0, p.1);
        }
        let idx = p.0 * dim + p.1;
        let ghost nbrs = moore_neighbours(dim, p.0, p.1);
        assert(self.neighbours@[idx as int]@ == nbrs);
        let n = self.neighbours[idx].len();
        let mut k: usize = 0;
        while k < n
            invariant
                self.wf(),
                dim == self.dim,
                0 <= idx < dim * dim,
                self.neighbours@[idx as int]@ == nbrs,
                nbrs == moore_neighbours(dim, p.0, p.1),
                n == nbrs.len(),
                k <= n,
                forall|i: int| 0 <= i < nbrs.len() ==> in_grid(dim, #[trigger] nbrs[i]),
                forall|i: int| 0 <= i < k ==> #[trigger] cell_at(self.data@, dim, nbrs[i]).collapsed,
            decreases n - k,
        {
            let q = self.neighbours[idx][k];
            proof {
                lemma_linear(dim, q.0, q.1);
            }
            if !self.data[q.0 * dim + q.1].collapsed {
                assert(!cell_at(self.data@, dim, nbrs[k as int]).collapsed);
                return false;
            }
            k = k + 1;
        }
        true
    }

    /// Frontier pressure control: once the frontier is longer than the
    /// policy's threshold, each entry is dropped with the policy's chance, every
    /// entry whose neighbours are all collapsed is dropped, and at most the
    /// policy's cap of entries is kept, in their order.
    fn prune(&mut self)
        requires
            old(self).wf(),
        ensures
            final(self).wf(),
            *final(self) == (WFCField { visited: final(self).visited, rng: final(self).rng, ..*old(self) }),
            old(self).visited@.len() <= old(self).policy.threshold ==> final(self).visited == old(self).visited,
            old(self).visited@.len() > old(self).policy.threshold ==> {
                &&& final(self).visited@.len() <= old(self).policy.cap
                &&& is_subsequence(final(self).visited@, old(self).visited@)
                &&& forall|p: Index| #[trigger] final(self).visited@.contains(p) ==> old(self).visited@.contains(p)
                    && !all_collapsed(old(self).data@, old(self).dim, moore_neighbours(old(self).dim, p.0, p.1))
            },
    {
        if self.visited.len() > self.policy.threshold {
            let ghost start = *self;
            let mut kept: Vec<Index> = Vec::new();
            let ghost mut pos: Seq<int> = seq![];
            let mut i: usize = 0;
            while i < self.visited.len()
                invariant
                    self.wf(),
                    *self == (WFCField { rng: self.rng, ..start }),
                    subseq_at(kept@, start.visited@, pos),
                    forall|k: int| 0 <= k < pos.len() ==> #[trigger] pos[k] < i,
                    i <= start.visited@.len(),
                    kept@.len() <= self.policy.cap,
                    kept@.no_duplicates(),
                    forall|a: int| 0 <= a < kept@.len() ==> exists|t: int| 0 <= t < i && start.visited@[t] == #[trigger] kept@[a],
                    forall|p: Index| #[trigger] kept@.contains(p) ==> start.visited@.contains(p)
                        && !all_collapsed(start.data@, start.dim, moore_neighbours(start.dim, p.0, p.1)),
                decreases start.visited@.len() - i,
            {
                let p = self.visited[i];
                let r = self.rng.gen_rangei32(0, 100);
                if r as u32 >= self.policy.drop_percent && !self.is_blank(p) && kept.len() < self.policy.cap {
                    proof {
                        assert forall|a: int| 0 <= a < kept@.len() implies kept@[a] != p by {
                            let t = choose|t: int| 0 <= t < i && start.visited@[t] == kept@[a];
                        }
                    }
                    let ghost before = kept@;
                    let ghost before_pos = pos;
                    kept.push(p);
                    proof {
                        pos = pos.push(i as int);
                        assert forall|k1: int, k2: int| 0 <= k1 < k2 < kept@.len() implies #[trigger] pos[k1] < #[trigger] pos[k2] by {
                            if k2 < before.len() {
                                assert(pos[k1] == before_pos[k1] && pos[k2] == before_pos[k2]);
                            } else {
                                assert(pos[k1] == before_pos[k1]);
                            }
                        }
                        assert(subseq_at(kept@, start.visited@, pos));
                        assert(kept@[before.len() as int] == p);
                        assert forall|a: int| 0 <= a < kept@.len() implies exists|t: int| 0 <= t < i + 1 && start.visited@[t] == #[trigger] kept@[a] by {
                            if a < before.len() {
                                let t = choose|t: int| 0 <= t < i && start.visited@[t] == before[a];
                                assert(start.visited@[t] == kept@[a]);
                            } else {
                                assert(start.visited@[i as int] == kept@[a]);
                            }
                        }
                        assert forall|pt: Index| #[trigger] kept@.contains(pt) implies start.visited@.contains(pt)
                            && !all_collapsed(start.data@, start.dim, moore_neighbours(start.dim, pt.0, pt.1)) by {
                            let t = choose|t: int| 0 <= t < kept@.len() && kept@[t] == pt;
                            if t < before.len() {
                                assert(before.contains(pt));
                            } else {
                                assert(start.visited@[i as int] == pt);
                            }
                        }
                    }
                }
                i = i + 1;
            }
            self.visited = kept;
            assert(subseq_at(self.visited@, start.visited@, pos));
        }
    }

    /// Starvation recovery: when the frontier holds fewer than two entries and
    /// some cell is still uncollapsed, the frontier becomes every uncollapsed
    /// cell, in row-major order.
    fn recover(&mut self)
        requires
            old(self).wf(),
        ensures
            final(self).wf(),
            *final(self) == (WFCField { visited: final(self).visited, ..*old(self) }),
            (old(self).visited@.len() < 2 && exists|i: int| 0 <= i < old(self).data@.len() && !(#[trigger] old(self).data@[i]).collapsed)
                ==> row_major(final(self).visited@, old(self).dim),
            (old(self).visited@.len() < 2 && exists|i: int| 0 <= i < old(self).data@.len() && !(#[trigger] old(self).data@[i]).collapsed)
                ==> forall|p: Index| #[trigger] final(self).visited@.contains(p)
                    <==> in_grid(old(self).dim, p) && !cell_at(old(self).data@, old(self).dim, p).collapsed,
            !(old(self).visited@.len() < 2 && exists|i: int| 0 <= i < old(self).data@.len() && !(#[trigger] old(self).data@[i]).collapsed)
                ==> final(self).visited == old(self).visited,
    {
        if self.visited.len() >= 2 {
            return;
        }
        let dim = self.dim;
        let len = self.data.len();
        let mut list: Vec<Index> = Vec::new();
        let mut n: usize = 0;
        while n < len
            invariant
                self.wf(),
                dim == self.dim,
                len == self.data@.len(),
                len == dim * dim,
                n <= len,
                forall|a: int| 0 <= a < list@.len() ==> in_grid(dim, #[trigger] list@[a]) && linear(dim, list@[a]) < n,
                forall|a: int, b: int| 0 <= a < b < list@.len() ==> linear(dim, #[trigger] list@[a]) < linear(dim, #[trigger] list@[b]),
                forall|p: Index| in_grid(dim, p) && linear(dim, p) < n && !cell_at(self.data@, dim, p).collapsed
                    ==> #[trigger] list@.contains(p),
                forall|p: Index| #[trigger] list@.contains(p) ==> !cell_at(self.data@, dim, p).collapsed,
                list@.len() == 0 ==> forall|i: int| 0 <= i < n ==> (#[trigger] self.data@[i]).collapsed,
            decreases len - n,
        {
            if !self.data[n].collapsed {
                let p: Index = (n / dim, n % dim);
                proof {
                    vstd::arithmetic::div_mod::lemma_fundamental_div_mod(n as int, dim as int);
                    assert(p.0 < dim) by {
                        vstd::arithmetic::div_mod::lemma_div_by_multiple_is_strongly_ordered(n as int, dim * dim, dim as int, dim as int);
                        vstd::arithmetic::div_mod::lemma_div_multiples_vanish(dim as int, dim as int);
                    }
                    lemma_linear(dim, p.0, p.1);
                    assert(p.0 * dim == dim * p.0) by (nonlinear_arith);
                    assert(linear(dim, p) == n);
                }
                let ghost before = list@;
                list.push(p);
                proof {
                    assert(list@[before.len() as int] == p);
                    assert forall|pt: Index| in_grid(dim, pt) && linear(dim, pt) < n + 1
                        && !cell_at(self.data@, dim, pt).collapsed implies #[trigger] list@.contains(pt) by {
                        lemma_linear(dim, pt.0, pt.1);
                        if linear(dim, pt) < n {
                            assert(before.contains(pt));
                            let t = choose|t: int| 0 <= t < before.len() && before[t] == pt;
                            assert(list@[t] == pt);
                        } else {
                            assert(pt == p);
                        }
                    }
                    assert forall|pt: Index| #[trigger] list@.contains(pt) implies !cell_at(self.data@, dim, pt).collapsed by {
                        let t = choose|t: int| 0 <= t < list@.len() && list@[t] == pt;
                        if t < before.len() {
                            assert(before.contains(pt));
                        }
                    }
                }
            } else {
                proof {
                    assert forall|pt: Index| in_grid(dim, pt) && linear(dim, pt) < n + 1
                        && !cell_at(self.data@, dim, pt).collapsed implies #[trigger] list@.contains(pt) by {
                        lemma_linear(dim, pt.0, pt.1);
                    }
                }
            }
            n = n + 1;
        }
        if list.len() > 0 {
            proof {
                let p0 = list@[0];
                assert(list@.contains(p0));
                lemma_linear(dim, p0.0, p0.1);
                assert(!self.data@[linear(dim, p0)].collapsed);
                assert forall|p: Index| #[trigger] list@.contains(p)
                    <==> in_grid(dim, p) && !cell_at(self.data@, dim, p).collapsed by {
                    if in_grid(dim, p) {
                        lemma_linear(dim, p.0, p.1);
                    }
                }
            }
            self.visited = list;
        }
    }

    /// One epoch: every frontier entry adds its neighbours to the frontier and
    /// collapses the uncollapsed ones; the entries it started with leave the
    /// frontier; then the frontier is pruned under the policy and, if it has
    /// nearly run dry while cells are left, refilled with every uncollapsed cell.
    /// So while a cell is uncollapsed, the frontier never ends an epoch with
    /// fewer than two entries unless it holds every uncollapsed cell.
    pub fn epoch3(&mut self)
        requires
            old(self).wf(),
        ensures
            epoch_step(*old(self), *final(self)),
            final(self).wf(),
            final(self).dim == old(self).dim,
            final(self).policy == old(self).policy,
            cells_advanced(old(self).data@, final(self).data@),
            forall|i: int, q: Index| 0 <= i < old(self).visited@.len()
                && cell_at(old(self).data@, old(self).dim, old(self).visited@[i]).collapsed
                && #[trigger] is_moore_neighbour(old(self).dim, old(self).visited@[i].0, old(self).visited@[i].1, q)
                ==> cell_at(final(self).data@, old(self).dim, q).collapsed,
            final(self).collapsed_cnt + count_collapsed(old(self).data@)
                == old(self).collapsed_cnt + count_collapsed(final(self).data@),
            final(self).collapsed_cnt >= old(self).collapsed_cnt,
            some_uncollapsed(final(self).data@) ==> final(self).visited@.len() >= 2 || {
                &&& row_major(final(self).visited@, final(self).dim)
                &&& forall|p: Index| #[trigger] final(self).visited@.contains(p)
                    <==> in_grid(final(self).dim, p) && !cell_at(final(self).data@, final(self).dim, p).collapsed
            },
    {
        let ghost a = *self;
        self.expand();
        let ghost m1 = *self;
        self.prune();
        let ghost m2 = *self;
        self.recover();
        let ghost m3 = *self;
        if self.epoch_idx < usize::MAX {
            self.epoch_idx = self.epoch_idx + 1;
        }
        assert(m3 == (WFCField { epoch_idx: a.epoch_idx, ..*self }));
        assert(recovered(m2, WFCField { epoch_idx: a.epoch_idx, ..*self }));
        assert(expanded(a, m1) && pruned(m1, m2));
        reveal(epoch_step);
    }

    /// Runs `n` epochs one after the other.
    pub fn run_epochs(&mut self, n: usize)
        requires
            old(self).wf(),
        ensures
            final(self).wf(),
            final(self).dim == old(self).dim,
            cells_advanced(old(self).data@, final(self).data@),
            final(self).collapsed_cnt >= old(self).collapsed_cnt,
            n == 0 ==> *final(self) == *old(self),
            exists|run: Seq<WFCField>| run.len() == n + 1 && run[0] == *old(self) && run[n as int] == *final(self)
                && forall|i: int| 0 <= i < n ==> epoch_step(#[trigger] run[i], run[i + 1]),
    {
        let ghost start = *self;
        let ghost mut run: Seq<WFCField> = seq![start];
        let mut i: usize = 0;
        while i < n
            invariant
                self.wf(),
                self.dim == start.dim,
                cells_advanced(start.data@, self.data@),
                self.collapsed_cnt >= start.collapsed_cnt,
                i <= n,
                i == 0 ==> *self == start,
                run.len() == i + 1,
                run[0] == start,
                run[i as int] == *self,
                forall|k: int| 0 <= k < i ==> epoch_step(#[trigger] run[k], run[k + 1]),
            decreases n - i,
        {
            let ghost before = self.data@;
            let ghost prev = run;
            self.epoch3();
            proof {
                lemma_advanced_trans(start.data@, before, self.data@);
                run = run.push(*self);
                assert forall|k: int| 0 <= k < i + 1 implies epoch_step(#[trigger] run[k], run[k + 1]) by {
                    if k < i {
                        assert(run[k] == prev[k] && run[k + 1] == prev[k + 1]);
                    }
                }
            }
            i = i + 1;
        }
        assert(run.len() == n + 1 && run[0] == start && run[n as int] == *self);
    }

    /// Drops every frontier entry whose neighbours are all collapsed.
    fn drop_blank(&mut self)
        requires
            old(self).wf(),
        ensures
            final(self).wf(),
            *final(self) == (WFCField { visited: final(self).visited, ..*old(self) }),
            forall|p: Index| #[trigger] final(self).visited@.contains(p) <==> old(self).visited@.contains(p)
                && !all_collapsed(old(self).data@, old(self).dim, moore_neighbours(old(self).dim, p.0, p.1)),
    {
        let mut kept: Vec<Index> = Vec::new();
        let mut i: usize = 0;
        while i < self.visited.len()
            invariant
                old(self).wf(),
                *self == *old(self),
                i <= self.visited@.len(),
                kept@.no_duplicates(),
                forall|a: int| 0 <= a < kept@.len() ==> exists|t: int| 0 <= t < i && self.visited@[t] == #[trigger] kept@[a],
                forall|p: Index| #[trigger] kept@.contains(p) <==> (exists|t: int| 0 <= t < i && self.visited@[t] == p)
                    && !all_collapsed(self.data@, self.dim, moore_neighbours(self.dim, p.0, p.1)),
            decreases self.visited@.len() - i,
        {
            let p = self.visited[i];
            let ghost before = kept@;
            if !self.is_blank(p) {
                proof {
                    assert forall|a: int| 0 <= a < kept@.len() implies kept@[a] != p by {
                        let t = choose|t: int| 0 <= t < i && self.visited@[t] == kept@[a];
                    }
                }
                kept.push(p);
                proof {
                    assert(kept@[before.len() as int] == p);
                    assert forall|a: int| 0 <= a < kept@.len() implies exists|t: int| 0 <= t < i + 1 && self.visited@[t] == #[trigger] kept@[a] by {
                        if a < before.len() {
                            let t = choose|t: int| 0 <= t < i && self.visited@[t] == before[a];
                            assert(self.visited@[t] == kept@[a]);
                        } else {
                            assert(self.visited@[i as int] == kept@[a]);
                        }
                    }
                }
            }
            proof {
                assert forall|pt: Index| #[trigger] kept@.contains(pt) <==> (exists|t: int| 0 <= t < i + 1 && self.visited@[t] == pt)
                    && !all_collapsed(self.data@, self.dim, moore_neighbours(self.dim, pt.0, pt.1)) by {
                    if kept@.contains(pt) {
                        let t = choose|t: int| 0 <= t < kept@.len() && kept@[t] == pt;
                        if t < before.len() {
                            assert(before.contains(pt));
                        }
                    }
                    if (exists|t: int| 0 <= t < i + 1 && self.visited@[t] == pt)
                        && !all_collapsed(self.data@, self.dim, moore_neighbours(self.dim, pt.0, pt.1)) {
                        if pt == p {
                            assert(kept@[kept@.len() - 1] == pt);
                        } else {
                            assert(before.contains(pt));
                            let t = choose|t: int| 0 <= t < before.len() && before[t] == pt;
                            assert(kept@[t] == pt);
                        }
                    }
                }
            }
            i = i + 1;
        }
        proof {
            assert forall|p: Index| (exists|t: int| 0 <= t < self.visited@.len() && self.visited@[t] == p)
                <==> #[trigger] self.visited@.contains(p) by {}
            assert forall|a: int| 0 <= a < kept@.len() implies in_grid(self.dim, #[trigger] kept@[a]) by {
                let t = choose|t: int| 0 <= t < self.visited@.len() && self.visited@[t] == kept@[a];
            }
        }
        self.visited = kept;
    }

    /// The first version of an epoch: expansion, then every frontier entry whose
    /// neighbours are all collapsed leaves the frontier. The frontier is neither
    /// capped nor refilled.
    pub fn epoch(&mut self)
        requires
            old(self).wf(),
        ensures
            final(self).wf(),
            final(self).dim == old(self).dim,
            cells_advanced(old(self).data@, final(self).data@),
            final(self).collapsed_cnt >= old(self).collapsed_cnt,
            exists|m: WFCField| #[trigger] expanded(*old(self), m) && (*final(self) == WFCField { visited: final(self).visited, ..m })
                && forall|p: Index| #[trigger] final(self).visited@.contains(p) <==> m.visited@.contains(p)
                    && !all_collapsed(m.data@, m.dim, moore_neighbours(m.dim, p.0, p.1)),
    {
        self.expand();
        let ghost m = *self;
        self.drop_blank();
        assert(expanded(*old(self), m));
    }

    /// The neighbour table of a `dim` by `dim` grid; `len` is its number of cells.
    pub fn gen_neighbours(len: usize, dim: usize) -> (r: Vec<Vec<Index>>)
        requires
            len == dim * dim,
        ensures
            table_ok(r@, dim),
    {
        let mut neighs: Vec<Vec<Index>> = Vec::with_capacity(len);
        let mut x: usize = 0;
        while x < dim
            invariant
                x <= dim,
                len == dim * dim,
                neighs@.len() == x * dim,
                forall|i: int| 0 <= i < neighs@.len() ==> #[trigger] neighs@[i]@
                    == moore_neighbours(dim, (i / dim as int) as usize, (i % dim as int) as usize),
            decreases dim - x,
        {
            let mut y: usize = 0;
            while y < dim
                invariant
                    x < dim,
                    y <= dim,
                    len == dim * dim,
                    neighs@.len() == x * dim + y,
                    forall|i: int| 0 <= i < neighs@.len() ==> #[trigger] neighs@[i]@
                        == moore_neighbours(dim, (i / dim as int) as usize, (i % dim as int) as usize),
                decreases dim - y,
            {
                proof {
                    lemma_linear(dim, x, y);
                }
                neighs.push(cell_neighbours(dim, x, y));
                y = y + 1;
            }
            assert(x * dim + dim == (x + 1) * dim) by (nonlinear_arith);
            x = x + 1;
        }
        neighs
    }

    /// Collapses the cell at `q` unless it is collapsed already or has no
    /// collapsed neighbour.
    fn collapse_at(&mut self, q: Index)
        requires
            old(self).wf(),
            in_grid(old(self).dim, q),
        ensures
            final(self).wf(),
            *final(self) == (WFCField {
                data: final(self).data,
                collapsed_cnt: final(self).collapsed_cnt,
                rng: final(self).rng,
                ..*old(self)
            }),
            cells_advanced(old(self).data@, final(self).data@),
            final(self).collapsed_cnt + count_collapsed(old(self).data@)
                == old(self).collapsed_cnt + count_collapsed(final(self).data@),
            final(self).collapsed_cnt >= old(self).collapsed_cnt,
            collapsed_hsls(old(self).data@, old(self).dim, moore_neighbours(old(self).dim, q.0, q.1)).len() > 0
                ==> cell_at(final(self).data@, old(self).dim, q).collapsed,
            forall|i: int| 0 <= i < old(self).data@.len() && i != linear(old(self).dim, q)
                ==> #[trigger] final(self).data@[i] == old(self).data@[i],
            !cell_at(old(self).data@, old(self).dim, q).collapsed && cell_at(final(self).data@, old(self).dim, q).collapsed
                ==> value_of(
                    collapsed_hsls(old(self).data@, old(self).dim, moore_neighbours(old(self).dim, q.0, q.1)),
                    old(self).rng.state,
                ) == Some(cell_at(final(self).data@, old(self).dim, q).px.hsl),
    {
        let dim = self.dim;
        proof {
            lemma_linear(dim, q.0, q.1);
        }
        let qi = q.0 * dim + q.1;
        if !self.data[qi].collapsed {
            match self.gen_value(q) {
                Some(v) => {
                    let mut cell = self.data[qi];
                    cell.collapsed = true;
                    cell.px.set_data(PixelType::HSL(v));
                    let ghost before = self.data@;
                    self.data.set(qi, cell);
                    proof {
                        lemma_count_update(before, qi as int, cell);
                        lemma_count_bound(self.data@);
                    }
                    self.collapsed_cnt = self.collapsed_cnt + 1;
                },
                None => {},
            }
        }
    }

    /// The random-walk epoch: collapses every neighbour of the current cell that
    /// it can, and steps to one of those neighbours drawn at random.
    pub fn epoch2(&mut self)
        requires
            old(self).wf(),
        ensures
            final(self).wf(),
            final(self).dim == old(self).dim,
            final(self).visited == old(self).visited,
            cells_advanced(old(self).data@, final(self).data@),
            final(self).collapsed_cnt + count_collapsed(old(self).data@)
                == old(self).collapsed_cnt + count_collapsed(final(self).data@),
            final(self).collapsed_cnt >= old(self).collapsed_cnt,
            moore_neighbours(old(self).dim, old(self).last.0, old(self).last.1).len() > 0
                ==> moore_neighbours(old(self).dim, old(self).last.0, old(self).last.1).contains(final(self).last),
            moore_neighbours(old(self).dim, old(self).last.0, old(self).last.1).len() == 0
                ==> final(self).last == old(self).last,
            cell_at(old(self).data@, old(self).dim, old(self).last).collapsed
                ==> all_collapsed(final(self).data@, old(self).dim, moore_neighbours(old(self).dim, old(self).last.0, old(self).last.1)),
            forall|i: int| 0 <= i < old(self).data@.len()
                && !moore_neighbours(old(self).dim, old(self).last.0, old(self).last.1).contains(
                    ((i / old(self).dim as int) as usize, (i % old(self).dim as int) as usize))
                ==> #[trigger] final(self).data@[i] == old(self).data@[i],
    {
        let ghost start = *self;
        let dim = self.dim;
        let c = self.last;
        proof {
            lemma_linear(dim, c.0, c.1);
            lemma_adjacency(dim, c.0, c.1);
            lemma_dim_bound(dim);
        }
        let ci = c.0 * dim + c.1;
        let ghost nbrs = moore_neighbours(dim, c.0, c.1);
        assert(self.neighbours@[ci as int]@ == nbrs);
        let n = self.neighbours[ci].len();
        if n == 0 {
            return;
        }
        assert(n <= 8) by {
            let (ax, ay) = (crate::adjacency::axis_span(dim, c.0), crate::adjacency::axis_span(dim, c.1));
            assert(ax * ay <= 9) by (nonlinear_arith)
                requires 1 <= ax <= 3, 1 <= ay <= 3;
        }
        let pick = self.rng.gen_index(n);
        let mut next = c;
        let mut k: usize = 0;
        while k < n
            invariant
                self.wf(),
                self.dim == dim,
                self.last == c,
                self.visited == start.visited,
                self.neighbours == start.neighbours,
                in_grid(dim, c),
                0 <= ci < dim * dim,
                nbrs == moore_neighbours(dim, c.0, c.1),
                self.neighbours@[ci as int]@ == nbrs,
                n == nbrs.len(),
                k <= n,
                pick < n,
                forall|q: Index| #[trigger] nbrs.contains(q) <==> is_moore_neighbour(dim, c.0, c.1, q),
                k > pick ==> next == nbrs[pick as int],
                cells_advanced(start.data@, self.data@),
                self.collapsed_cnt + count_collapsed(start.data@) == start.collapsed_cnt + count_collapsed(self.data@),
                self.collapsed_cnt >= start.collapsed_cnt,
                forall|kk: int| 0 <= kk < k && cell_at(start.data@, dim, c).collapsed
                    ==> cell_at(self.data@, dim, #[trigger] nbrs[kk]).collapsed,
                self.data@.len() == start.data@.len(),
                forall|i: int| 0 <= i < start.data@.len()
                    && !nbrs.contains(((i / dim as int) as usize, (i % dim as int) as usize))
                    ==> #[trigger] self.data@[i] == start.data@[i],
            decreases n - k,
        {
            let q = self.neighbours[ci][k];
            assert(nbrs.contains(q));
            let ghost before = *self;
            proof {
                lemma_linear(dim, q.0, q.1);
                if cell_at(start.data@, dim, c).collapsed {
                    assert(is_moore_neighbour(dim, q.0, q.1, c));
                    lemma_adjacency(dim, q.0, q.1);
                    let nq = moore_neighbours(dim, q.0, q.1);
                    assert(nq.contains(c));
                    let t = choose|t: int| 0 <= t < nq.len() && nq[t] == c;
                    lemma_linear(dim, c.0, c.1);
                    lemma_hsls_nonempty(self.data@, dim, nq, t);
                }
            }
            self.collapse_at(q);
            proof {
                assert forall|i: int| 0 <= i < start.data@.len()
                    && !nbrs.contains(((i / dim as int) as usize, (i % dim as int) as usize))
                    implies #[trigger] self.data@[i] == start.data@[i] by {
                    if i == linear(dim, q) {
                        assert(((i / dim as int) as usize, (i % dim as int) as usize) == q);
                    }
                    assert(before.data@[i] == start.data@[i]);
                }
                lemma_advanced_trans(start.data@, before.data@, self.data@);
                assert forall|kk: int| 0 <= kk < k + 1 && cell_at(start.data@, dim, c).collapsed
                    implies cell_at(self.data@, dim, #[trigger] nbrs[kk]).collapsed by {
                    if kk < k {
                        assert(nbrs.contains(nbrs[kk]));
                        lemma_linear(dim, nbrs[kk].0, nbrs[kk].1);
                        assert(cell_at(before.data@, dim, nbrs[kk]).collapsed);
                    }
                }
            }
            if k == pick {
                next = q;
            }
            k = k + 1;
        }
        self.last = next;
        assert(nbrs.contains(next));
    }

    /// Seeds the field once more: a cell drawn at random is collapsed with a
    /// random colour, unless it is collapsed already, and joins the frontier.
    pub fn init(&mut self)
        requires
            old(self).wf(),
        ensures
            final(self).wf(),
            final(self).dim == old(self).dim,
            final(self).collapsed_cnt == old(self).collapsed_cnt,
            final(self).data@.len() == old(self).data@.len(),
            final(self).neighbours == old(self).neighbours,
            final(self).last == old(self).last,
            final(self).policy == old(self).policy,
            final(self).epoch_idx == old(self).epoch_idx,
            in_grid(old(self).dim, seed_of(old(self).rng.state, old(self).dim)),
            cell_at(final(self).data@, old(self).dim, seed_of(old(self).rng.state, old(self).dim)).collapsed,
            forall|i: int| 0 <= i < old(self).data@.len() && i != linear(old(self).dim, seed_of(old(self).rng.state, old(self).dim))
                ==> #[trigger] final(self).data@[i] == old(self).data@[i],
            forall|i: int| 0 <= i < old(self).data@.len() && old(self).data@[i].collapsed
                ==> #[trigger] final(self).data@[i] == old(self).data@[i],
            final(self).visited@ == if old(self).visited@.contains(seed_of(old(self).rng.state, old(self).dim)) {
                old(self).visited@
            } else {
                old(self).visited@.push(seed_of(old(self).rng.state, old(self).dim))
            },
    {
        let dim = self.dim;
        proof {
            lemma_dim_bound(dim);
        }
        let x = self.rng.gen_index(dim);
        let y = self.rng.gen_index(dim);
        proof {
            lemma_linear(dim, x, y);
        }
        let idx = x * dim + y;
        if !self.data[idx].collapsed {
            let px = Pixel::random(&mut self.rng);
            let cell = Cell { px, collapsed: true };
            let ghost before = self.data@;
            self.data.set(idx, cell);
            proof {
                lemma_count_update(before, idx as int, cell);
            }
        }
        if !frontier_contains(&self.visited, (x, y)) {
            let ghost before = self.visited@;
            self.visited.push((x, y));
            proof {
                assert(self.visited@[before.len() as int] == (x, y));
                assert forall|a: int, b: int| 0 <= a < self.visited@.len() && 0 <= b < self.visited@.len()
                    && a != b implies self.visited@[a] != self.visited@[b] by {
                    if a < before.len() && b < before.len() {
                    } else if a < before.len() {
                        assert(before.contains(before[a]));
                    } else {
                        assert(before.contains(before[b]));
                    }
                }
                assert forall|p: Index| #[trigger] before.contains(p) implies self.visited@.contains(p) by {
                    let t = choose|t: int| 0 <= t < before.len() && before[t] == p;
                    assert(self.visited@[t] == p);
                }
            }
        }
        assert(self.visited@.contains((x, y)));
        assert(in_grid(dim, (x, y)) && cell_at(self.data@, dim, (x, y)).collapsed);
    }

    /// The number of cells.
    pub fn len(&self) -> (r: usize)
        requires
            self.wf(),
        ensures
            r == self.dim * self.dim,
    {
        self.data.len()
    }

    /// Whether the run is over: all cells but one have been collapsed by epochs.
    pub fn is_done(&self) -> (r: bool)
        requires
            self.wf(),
        ensures
            r == (self.collapsed_cnt >= self.dim * self.dim - 1),
    {
        self.collapsed_cnt >= self.data.len() - 1
    }

    /// The colour of the cell at `(x, y)`.
    pub fn read_pixel(&self, x: usize, y: usize) -> (r: Rgba)
        requires
            self.wf(),
            x < self.dim,
            y < self.dim,
        ensures
            r == cell_at(self.data@, self.dim, (x, y)).px.rgba,
    {
        proof {
            lemma_linear(self.dim, x, y);
        }
        self.data[x * self.dim + y].px.rgba
    }

    /// Whether the cell at `(x, y)` is collapsed.
    pub fn is_collapsed(&self, x: usize, y: usize) -> (r: bool)
        requires
            self.wf(),
            x < self.dim,
            y < self.dim,
        ensures
            r == cell_at(self.data@, self.dim, (x, y)).collapsed,
    {
        proof {
            lemma_linear(self.dim, x, y);
        }
        self.data[x * self.dim + y].collapsed
    }

    /// The frontier, in its order.
    pub fn frontier(&self) -> (r: Vec<Index>)
        ensures
            r@ == self.visited@,
    {
        let mut r: Vec<Index> = Vec::with_capacity(self.visited.len());
        let mut i: usize = 0;
        while i < self.visited.len()
            invariant
                i <= self.visited@.len(),
                r@ == self.visited@.subrange(0, i as int),
            decreases self.visited@.len() - i,
        {
            r.push(self.visited[i]);
            assert(r@ =~= self.visited@.subrange(0, i as int + 1));
            i = i + 1;
        }
        assert(r@ =~= self.visited@);
        r
    }

    /// Replaces the frontier policy.
    pub fn set_policy(&mut self, policy: FrontierPolicy)
        requires
            old(self).wf(),
            policy.drop_percent <= 100,
        ensures
            final(self).wf(),
            *final(self) == (WFCField { policy, ..*old(self) }),
    {
        self.policy = policy;
    }

    /// A field of blank cells whose seed cell is drawn uniformly from the grid.
    pub fn new(dim: usize, rng: Rand) -> (r: WFCField)
        requires
            1 <= dim,
            dim * dim <= usize::MAX,
        ensures
            r.wf(),
            r.dim == dim,
            r.collapsed_cnt == 0,
            r.epoch_idx == 0,
            r.visited@.len() == 1,
            in_grid(dim, r.visited@[0]),
            r.visited@[0] == seed_of(rng.state, dim),
            r.last == r.visited@[0],
            r.policy == default_policy(),
            r.data@.len() == dim * dim,
            forall|i: int| 0 <= i < dim * dim && i != linear(dim, r.visited@[0])
                ==> is_blank_cell(#[trigger] r.data@[i]),
            cell_at(r.data@, dim, r.visited@[0]).collapsed,
    {
        let n = dim * dim;
        let mut data: Vec<Cell> = Vec::with_capacity(n);
        let mut i: usize = 0;
        while i < n
            invariant
                i <= n,
                data@.len() == i,
                forall|j: int| 0 <= j < i ==> is_blank_cell(#[trigger] data@[j]),
            decreases n - i,
        {
            data.push(Cell::new());
            i = i + 1;
        }
        WFCField::new_with_data(data, dim, rng)
    }
}

} // verus!
