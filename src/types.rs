use vstd::prelude::*;

verus! {

/// A grid coordinate `(x, y)`; its linear index is `x * dim + y`.
pub type Index = (usize, usize);

/// Red, green, blue and alpha channels.
pub type Rgba = [u8; 4];

/// Multiplier of the generator's linear congruential step.
pub const LCG_MUL: u64 = 6364136223846793005;

/// Increment of the generator's linear congruential step.
pub const LCG_INC: u64 = 1442695040888963407;

/// The number of distinct 32-bit draws.
pub const DRAW_SPAN: u64 = 0x1_0000_0000;

/// The state that follows `s`.
pub open spec fn next_state(s: u64) -> u64 {
    ((s as int * LCG_MUL as int + LCG_INC as int) % 0x1_0000_0000_0000_0000) as u64
}

/// The 32-bit draw that the state `s` yields: its upper half.
pub open spec fn draw_of(s: u64) -> int {
    s as int / DRAW_SPAN as int
}

/// The affine map that sends `[in_min, in_max]` onto `[out_min, out_max]`,
/// rounded down.
pub open spec fn map_range_spec(v: int, in_min: int, in_max: int, out_min: int, out_max: int) -> int {
    out_min + (out_max - out_min) * (v - in_min) / (in_max - in_min)
}

/// What `gen_rangei32(start, end)` returns on a generator in state `s`.
pub open spec fn range_draw(s: u64, start: int, end: int) -> int {
    map_range_spec(draw_of(next_state(s)), 0, DRAW_SPAN as int, start, end)
}

/// What `gen_index(n)` returns on a generator in state `s`.
pub open spec fn index_draw(s: u64, n: int) -> int {
    map_range_spec(draw_of(next_state(s)), 0, DRAW_SPAN as int, 0, n)
}

/// An explicit pseudo-random generator: every random choice of the engine is
/// drawn from an instance of it, so that a run is reproduced from its seed.
pub struct Rand {
    pub state: u64,
}

impl Rand {
    pub fn new(seed: u64) -> (r: Rand)
        ensures
            r.state == seed,
    {
        Rand { state: seed }
    }

    /// Maps `v` from `[in_min, in_max]` onto `[out_min, out_max]`.
    fn map_range(v: i64, in_min: i64, in_max: i64, out_min: i64, out_max: i64) -> (r: i64)
        requires
            in_min < in_max,
            in_min <= v <= in_max,
            out_min <= out_max,
        ensures
            r == map_range_spec(v as int, in_min as int, in_max as int, out_min as int, out_max as int),
            out_min <= r <= out_max,
    {
        let span_out: u128 = (out_max as i128 - out_min as i128) as u128;
        let span_in: u128 = (in_max as i128 - in_min as i128) as u128;
        let off: u128 = (v as i128 - in_min as i128) as u128;
        assert(span_out * off <= 0xffff_ffff_ffff_ffff_u128 * 0xffff_ffff_ffff_ffff_u128) by (nonlinear_arith)
            requires
                span_out <= 0xffff_ffff_ffff_ffff_u128,
                off <= 0xffff_ffff_ffff_ffff_u128,
        ;
        let prod: u128 = span_out * off;
        let q: u128 = prod / span_in;
        proof {
            let (so, o, si) = (span_out as int, off as int, span_in as int);
            assert(so * o <= so * si) by (nonlinear_arith)
                requires o <= si, so >= 0;
            vstd::arithmetic::div_mod::lemma_div_is_ordered(so * o, so * si, si);
            vstd::arithmetic::div_mod::lemma_div_multiples_vanish(so, si);
        }
        (out_min as i128 + q as i128) as i64
    }

    /// Advances the generator and returns its next 32-bit draw.
    pub fn next_u32(&mut self) -> (r: u32)
        ensures
            final(self).state == next_state(old(self).state),
            r as int == draw_of(final(self).state),
    {
        assert((self.state as u128) * (LCG_MUL as u128) <= 0xffff_ffff_ffff_ffff_u128 * (LCG_MUL as u128))
            by (nonlinear_arith);
        let s: u128 = ((self.state as u128) * (LCG_MUL as u128) + (LCG_INC as u128)) % 0x1_0000_0000_0000_0000_u128;
        self.state = s as u64;
        (self.state / DRAW_SPAN) as u32
    }

    /// Draws an index in `[0, n)`.
    pub fn gen_index(&mut self, n: usize) -> (r: usize)
        requires
            0 < n <= DRAW_SPAN,
        ensures
            final(self).state == next_state(old(self).state),
            r as int == index_draw(old(self).state, n as int),
            r < n,
    {
        let v = self.next_u32();
        let r = Rand::map_range(v as i64, 0, DRAW_SPAN as i64, 0, n as i64);
        proof {
            let span = n as int;
            assert(span * v < span * DRAW_SPAN) by (nonlinear_arith)
                requires span > 0, v < DRAW_SPAN;
            vstd::arithmetic::div_mod::lemma_div_by_multiple_is_strongly_ordered(
                span * v, span * DRAW_SPAN, span, DRAW_SPAN as int);
        }
        r as usize
    }

    /// Draws an integer in `[start, end)`.
    pub fn gen_rangei32(&mut self, start: i32, end: i32) -> (r: i32)
        requires
            start < end,
        ensures
            final(self).state == next_state(old(self).state),
            r as int == range_draw(old(self).state, start as int, end as int),
            start <= r < end,
    {
        let v = self.next_u32();
        let r = Rand::map_range(v as i64, 0, DRAW_SPAN as i64, start as i64, end as i64);
        proof {
            let span = end as int - start as int;
            assert(span * v < span * DRAW_SPAN) by (nonlinear_arith)
                requires span > 0, v < DRAW_SPAN;
            vstd::arithmetic::div_mod::lemma_div_by_multiple_is_strongly_ordered(
                span * v, span * DRAW_SPAN, span, DRAW_SPAN as int);
        }
        r as i32
    }
}

} // verus!
