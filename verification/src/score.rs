//! Scores as exact ratios: a count of hits over a count of words.

use vstd::prelude::*;

verus! {

/// A ratio of two counts: `hits / words`.
pub struct Ratio {
    pub hits: nat,
    pub words: nat,
}

impl Ratio {
    /// Whether the ratio is strictly above three tenths. Nothing over no
    /// words is not.
    pub open spec fn is_relevant(self) -> bool {
        10 * self.hits > 3 * self.words
    }

    /// Whether this ratio is strictly above `other`, by cross-multiplication.
    pub open spec fn above(self, other: Ratio) -> bool {
        self.hits * other.words > other.hits * self.words
    }
}

/// What a scan over a text of `words` words has counted, before the
/// division: a reader who wants one number divides `hits` by `words`.
#[derive(Clone, Copy, Debug)]
pub struct Score {
    pub hits: u128,
    pub words: usize,
}

impl View for Score {
    type V = Ratio;

    open spec fn view(&self) -> Ratio {
        Ratio { hits: self.hits as nat, words: self.words as nat }
    }
}

impl Score {
    /// Whether the ratio is strictly above three tenths.
    pub fn exceeds_threshold(&self) -> (relevant: bool)
        ensures
            relevant == self@.is_relevant(),
    {
        if self.hits > 0xFFFF_FFFF_FFFF_FFFF {
            true
        } else {
            let words: u128 = self.words as u128;
            10 * self.hits > 3 * words
        }
    }

    /// Whether this ratio is strictly above `other`.
    pub fn outranks(&self, other: &Score) -> (higher: bool)
        ensures
            higher == self@.above(other@),
    {
        if other.words == 0 {
            assert(self.hits * other.words == 0) by (nonlinear_arith)
                requires
                    other.words == 0,
            ;
            assert(other.hits * self.words >= 0) by (nonlinear_arith);
            false
        } else if self.words == 0 {
            assert(other.hits * self.words == 0) by (nonlinear_arith)
                requires
                    self.words == 0,
            ;
            assert(self.hits * other.words > 0 <==> self.hits > 0) by (nonlinear_arith)
                requires
                    other.words > 0,
            ;
            self.hits > 0
        } else {
            let b: u128 = self.words as u128;
            let d: u128 = other.words as u128;
            let qa: u128 = self.hits / b;
            let ra: u128 = self.hits % b;
            let qc: u128 = other.hits / d;
            let rc: u128 = other.hits % d;
            proof {
                vstd::arithmetic::div_mod::lemma_fundamental_div_mod(self.hits as int, b as int);
                vstd::arithmetic::div_mod::lemma_fundamental_div_mod(other.hits as int, d as int);
                assert(b * qa == qa * b && d * qc == qc * d) by (nonlinear_arith);
                lemma_ratio_order(
                    self.hits as int,
                    b as int,
                    other.hits as int,
                    d as int,
                    qa as int,
                    ra as int,
                    qc as int,
                    rc as int,
                );
                assert(ra * d <= 0xFFFF_FFFF_FFFF_FFFF * 0xFFFF_FFFF_FFFF_FFFF) by (nonlinear_arith)
                    requires
                        0 <= ra <= 0xFFFF_FFFF_FFFF_FFFF,
                        0 <= d <= 0xFFFF_FFFF_FFFF_FFFF,
                ;
                assert(rc * b <= 0xFFFF_FFFF_FFFF_FFFF * 0xFFFF_FFFF_FFFF_FFFF) by (nonlinear_arith)
                    requires
                        0 <= rc <= 0xFFFF_FFFF_FFFF_FFFF,
                        0 <= b <= 0xFFFF_FFFF_FFFF_FFFF,
                ;
            }
            if qa != qc {
                qa > qc
            } else {
                ra * d > rc * b
            }
        }
    }
}

/// Where `z` is not above `y` and `y`, a ratio over at least one word, is
/// not above `x`, `z` is not above `x`.
pub proof fn lemma_not_above_chain(x: Ratio, y: Ratio, z: Ratio)
    requires
        y.words > 0,
        !y.above(x),
        !z.above(y),
    ensures
        !z.above(x),
{
    let (xh, xw) = (x.hits as int, x.words as int);
    let (yh, yw) = (y.hits as int, y.words as int);
    let (zh, zw) = (z.hits as int, z.words as int);
    assert((zh * xw) * yw <= (xh * zw) * yw) by (nonlinear_arith)
        requires
            yh * xw <= xh * yw,
            zh * yw <= yh * zw,
            xw >= 0,
            zw >= 0,
            yw > 0,
            xh >= 0,
            yh >= 0,
            zh >= 0,
    {
        assert((zh * yw) * xw <= (yh * zw) * xw);
        assert((yh * xw) * zw <= (xh * yw) * zw);
        assert((zh * xw) * yw == (zh * yw) * xw);
        assert((yh * zw) * xw == (yh * xw) * zw);
        assert((xh * yw) * zw == (xh * zw) * yw);
    }
    assert(zh * xw <= xh * zw) by (nonlinear_arith)
        requires
            (zh * xw) * yw <= (xh * zw) * yw,
            yw > 0,
    ;
}

/// Two ratios compare as their whole parts do and, where these are equal,
/// as their remainders do.
pub proof fn lemma_ratio_order(a: int, b: int, c: int, d: int, qa: int, ra: int, qc: int, rc: int)
    requires
        b > 0,
        d > 0,
        a == qa * b + ra,
        c == qc * d + rc,
        0 <= ra < b,
        0 <= rc < d,
    ensures
        a * d > c * b <==> (qa > qc || (qa == qc && ra * d > rc * b)),
{
    assert(a * d - c * b == (qa - qc) * (b * d) + (ra * d - rc * b)) by (nonlinear_arith)
        requires
            a == qa * b + ra,
            c == qc * d + rc,
    ;
    assert(ra * d < b * d && rc * b < b * d && ra * d >= 0 && rc * b >= 0) by (nonlinear_arith)
        requires
            0 <= ra < b,
            0 <= rc < d,
            b > 0,
            d > 0,
    ;
    if qa > qc {
        assert((qa - qc) * (b * d) >= b * d) by (nonlinear_arith)
            requires
                qa - qc >= 1,
                b * d > 0,
        ;
    } else if qa < qc {
        assert((qa - qc) * (b * d) <= -(b * d)) by (nonlinear_arith)
            requires
                qa - qc <= -1,
                b * d > 0,
        ;
    } else {
        assert((qa - qc) * (b * d) == 0) by (nonlinear_arith)
            requires
                qa == qc,
        ;
    }
}

} // verus!
