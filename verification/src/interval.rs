//! The rounding interval of a double: the decimals that read back as it.
//!
//! A decimal reads back as the double `v` when it lies between the midpoints
//! to `v`'s two neighbours. The midpoints themselves read back as `v` exactly
//! when `v`'s mantissa is even. Below a power of two the lower neighbour is
//! half as far away as the upper one.
use crate::decoder::Decoded;
use crate::power::pow10;
use crate::ratio::{
    denom,
    lemma_parts_positive,
    lemma_regrid,
    lemma_regrid_compare,
    lemma_scale_compare,
    regrid_factor,
    unit,
};
use vstd::prelude::*;

verus! {

impl Decoded {
    /// How many bits the mantissa is shifted by so that both midpoints are
    /// whole: two where the lower gap is half the upper one, else one.
    pub open spec fn gap_shift(self) -> int {
        if self.mantissa == 0x10_0000_0000_0000 && self.exponent > -1074 {
            2
        } else {
            1
        }
    }

    /// The binary exponent of the midpoints' unit.
    pub open spec fn grid_exp(self) -> int {
        self.exponent - self.gap_shift()
    }

    /// The value, in units of `2^grid_exp`.
    pub open spec fn mid(self) -> int {
        if self.gap_shift() == 2 {
            4 * self.mantissa
        } else {
            2 * self.mantissa
        }
    }

    /// The midpoint to the lower neighbour, in units of `2^grid_exp`.
    pub open spec fn low(self) -> int {
        self.mid() - 1
    }

    /// The midpoint to the upper neighbour, in units of `2^grid_exp`.
    pub open spec fn high(self) -> int {
        self.mid() + self.gap_shift()
    }

    /// Whether the midpoints themselves read back as the value.
    pub open spec fn inclusive(self) -> bool {
        self.mantissa % 2 == 0
    }

    /// Whether `c * 10^j` is above the lower end of the rounding interval.
    pub open spec fn above_low(self, c: int, j: int) -> bool {
        if self.inclusive() {
            self.low() * unit(self.grid_exp(), j) <= c * denom(self.grid_exp(), j)
        } else {
            self.low() * unit(self.grid_exp(), j) < c * denom(self.grid_exp(), j)
        }
    }

    /// Whether `c * 10^j` is below the upper end of the rounding interval.
    pub open spec fn below_high(self, c: int, j: int) -> bool {
        if self.inclusive() {
            c * denom(self.grid_exp(), j) <= self.high() * unit(self.grid_exp(), j)
        } else {
            c * denom(self.grid_exp(), j) < self.high() * unit(self.grid_exp(), j)
        }
    }

    /// Whether the decimal `c * 10^j` reads back as this value.
    pub open spec fn round_trips(self, c: int, j: int) -> bool {
        self.above_low(c, j) && self.below_high(c, j)
    }

    /// The distance of `c * 10^j` from the value, in units of
    /// `10^j / denom(grid_exp, j)`: comparable between decimals of one `j`.
    pub open spec fn error(self, c: int, j: int) -> int {
        let x = c * denom(self.grid_exp(), j) - self.mid() * unit(self.grid_exp(), j);
        if x >= 0 {
            x
        } else {
            -x
        }
    }

    /// Whether no multiple of `10^g` reads back as this value.
    pub open spec fn grid_misses(self, g: int) -> bool {
        forall|c: int| !#[trigger] self.round_trips(c, g)
    }

    /// Whether no decimal of fewer than `n` digits reads back as this value,
    /// whatever its exponent.
    pub open spec fn no_shorter(self, n: nat) -> bool {
        forall|c: int, e: int| c < pow10((n - 1) as nat) ==> !#[trigger] self.round_trips(c, e)
    }

    pub proof fn lemma_ends(self)
        requires
            self.wf(),
        ensures
            self.low() >= 1,
            self.mid() == self.low() + 1,
            self.high() > self.mid(),
            self.high() < 0x100_0000_0000_0000,
            -1076 <= self.grid_exp() <= 970,
    {
    }

    pub proof fn lemma_above_low_monotone(self, c1: int, c2: int, j: int)
        requires
            c1 <= c2,
            self.above_low(c1, j),
        ensures
            self.above_low(c2, j),
    {
        lemma_parts_positive(self.grid_exp(), j);
        let d = denom(self.grid_exp(), j) as int;
        assert(c1 * d <= c2 * d) by (nonlinear_arith)
            requires
                c1 <= c2,
                d >= 0,
        ;
    }

    pub proof fn lemma_below_high_monotone(self, c1: int, c2: int, j: int)
        requires
            c1 <= c2,
            self.below_high(c2, j),
        ensures
            self.below_high(c1, j),
    {
        lemma_parts_positive(self.grid_exp(), j);
        let d = denom(self.grid_exp(), j) as int;
        assert(c1 * d <= c2 * d) by (nonlinear_arith)
            requires
                c1 <= c2,
                d >= 0,
        ;
    }

    /// Nothing at or below zero reads back as a positive value.
    pub proof fn lemma_nonpositive_misses(self, c: int, j: int)
        requires
            self.wf(),
            c <= 0,
        ensures
            !self.above_low(c, j),
    {
        lemma_parts_positive(self.grid_exp(), j);
        let d = denom(self.grid_exp(), j) as int;
        let u = unit(self.grid_exp(), j) as int;
        let l = self.low();
        assert(c * d <= 0 && l * u >= 1) by (nonlinear_arith)
            requires
                c <= 0,
                d >= 1,
                l >= 1,
                u >= 1,
        ;
    }

    /// A decimal `c * 10^e` is the decimal `(c * 10^(e-g)) * 10^g`.
    pub proof fn lemma_regrid_round_trips(self, c: int, e: int, g: int)
        requires
            g <= e,
        ensures
            self.above_low(c, e) == self.above_low(c * pow10((e - g) as nat), g),
            self.below_high(c, e) == self.below_high(c * pow10((e - g) as nat), g),
            self.round_trips(c, e) == self.round_trips(c * pow10((e - g) as nat), g),
    {
        lemma_regrid_compare(self.low(), self.grid_exp(), c, e, g);
        lemma_regrid_compare(self.high(), self.grid_exp(), c, e, g);
    }

    /// On a finer grid the same distance counts more units, by the factor
    /// between the grids.
    pub proof fn lemma_regrid_error(self, c: int, e: int, g: int)
        requires
            g <= e,
        ensures
            regrid_factor(e, g) >= 1,
            self.error(c * pow10((e - g) as nat), g) == self.error(c, e) * regrid_factor(e, g),
    {
        let b = self.grid_exp();
        lemma_regrid(b, e, g);
        let w = regrid_factor(e, g) as int;
        let ue = unit(b, e) as int;
        let de = denom(b, e) as int;
        let ug = unit(b, g) as int;
        let dg = denom(b, g) as int;
        let x = pow10((e - g) as nat) as int;
        let m = self.mid();
        let fine = (c * x) * dg - m * ug;
        let coarse = c * de - m * ue;
        let cd = c * de;
        let mu = m * ue;
        assert((c * x) * dg == c * (x * dg)) by (nonlinear_arith);
        assert(c * (de * w) == cd * w) by (nonlinear_arith)
            requires
                cd == c * de,
        ;
        assert(m * (ue * w) == mu * w) by (nonlinear_arith)
            requires
                mu == m * ue,
        ;
        assert(fine == cd * w - mu * w);
        assert(cd * w - mu * w == coarse * w && (-coarse) * w == -(coarse * w))
            by (nonlinear_arith)
            requires
                coarse == cd - mu,
        ;
        lemma_scale_compare(0, coarse, w);
        lemma_scale_compare(coarse, 0, w);
        assert(0 * w == 0);
    }

    /// The tests on a grid, read off numerator and denominator after both
    /// were scaled by one positive factor `t`.
    pub proof fn lemma_scaled_tests(self, c: int, j: int, t: int, s: int, u: int)
        requires
            t >= 1,
            s == denom(self.grid_exp(), j) * t,
            u == unit(self.grid_exp(), j) * t,
        ensures
            self.above_low(c, j) == if self.inclusive() {
                self.low() * u <= c * s
            } else {
                self.low() * u < c * s
            },
            self.below_high(c, j) == if self.inclusive() {
                c * s <= self.high() * u
            } else {
                c * s < self.high() * u
            },
            c * s - self.mid() * u >= 0 ==> self.error(c, j) * t == c * s - self.mid() * u,
            c * s - self.mid() * u <= 0 ==> self.error(c, j) * t == self.mid() * u - c * s,
    {
        let d = denom(self.grid_exp(), j) as int;
        let n = unit(self.grid_exp(), j) as int;
        let l = self.low();
        let h = self.high();
        let m = self.mid();
        assert(l * u == (l * n) * t && c * s == (c * d) * t && h * u == (h * n) * t && m * u == (m
            * n) * t) by (nonlinear_arith)
            requires
                s == d * t,
                u == n * t,
        ;
        lemma_scale_compare(l * n, c * d, t);
        lemma_scale_compare(c * d, h * n, t);
        lemma_scale_compare(m * n, c * d, t);
        lemma_scale_compare(c * d, m * n, t);
        let x = c * d - m * n;
        let cd = c * d;
        let mn = m * n;
        assert(x * t == cd * t - mn * t && (-x) * t == mn * t - cd * t) by (nonlinear_arith)
            requires
                x == cd - mn,
        ;
    }
}

} // verus!
