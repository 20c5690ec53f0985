//! Quantization of scheduling epochs: rounding an epoch up to the nearest
//! permitted bucket key.

use vstd::prelude::*;

verus! {

/// Epoch number of a chain.
pub type ChainEpoch = i64;

/// A quantization rule: bucket keys are the epochs congruent to `offset`
/// modulo `unit`.
#[derive(Clone, Copy, Debug)]
pub struct QuantSpec {
    pub unit: ChainEpoch,
    pub offset: ChainEpoch,
}

/// The distance from `raw` up to the next epoch congruent to `offset` modulo `unit`.
pub open spec fn gap(unit: int, offset: int, raw: int) -> int {
    (offset - raw) % unit
}

/// `k` is a permitted bucket key: it is congruent to `offset` modulo `unit`.
pub open spec fn on_grid(unit: int, offset: int, k: int) -> bool {
    (k - offset) % unit == 0
}

/// Euclidean remainder of the negation of a positive number.
proof fn lemma_mod_of_negation(d: int, u: int)
    requires
        u > 0,
        d >= 0,
    ensures
        (-d) % u == (if d % u == 0 { 0 } else { u - d % u }),
{
    let q = d / u;
    let r = d % u;
    assert(d == u * q + r && 0 <= r < u) by {
        vstd::arithmetic::div_mod::lemma_fundamental_div_mod(d, u);
        vstd::arithmetic::div_mod::lemma_mod_bound(d, u);
    }
    if r == 0 {
        assert(-d == u * (-q)) by (nonlinear_arith)
            requires
                d == u * q + r,
                r == 0,
        ;
        vstd::arithmetic::div_mod::lemma_fundamental_div_mod_converse(-d, u, -q, 0);
    } else {
        assert(-d == u * (-q - 1) + (u - r)) by (nonlinear_arith)
            requires
                d == u * q + r,
        ;
        vstd::arithmetic::div_mod::lemma_fundamental_div_mod_converse(-d, u, -q - 1, u - r);
    }
}

/// Two numbers with the same remainder that are less than `u` apart are equal.
proof fn lemma_grid_step(u: int, a: int, b: int)
    requires
        u > 0,
        a % u == 0,
        b % u == 0,
        a <= b < a + u,
    ensures
        a == b,
{
    vstd::arithmetic::div_mod::lemma_fundamental_div_mod(a, u);
    vstd::arithmetic::div_mod::lemma_fundamental_div_mod(b, u);
    let qa = a / u;
    let qb = b / u;
    assert(qa == qb) by (nonlinear_arith)
        requires
            u > 0,
            a == u * qa,
            b == u * qb,
            a <= b < a + u,
    ;
}

impl QuantSpec {
    /// A rule is usable when its unit is positive.
    pub open spec fn wf(&self) -> bool {
        self.unit > 0
    }

    /// The smallest epoch at or above `raw` that is congruent to the offset
    /// modulo the unit.
    pub open spec fn spec_quantize_up(&self, raw: int) -> int {
        raw + gap(self.unit as int, self.offset as int, raw)
    }

    /// Whether `k` is a bucket key of this rule.
    pub open spec fn is_quantized(&self, k: int) -> bool {
        on_grid(self.unit as int, self.offset as int, k)
    }

    /// Rounds `raw` up to the nearest bucket key, or reports `None` when that
    /// key is not a representable epoch.
    pub fn checked_quantize_up(&self, raw: ChainEpoch) -> (r: Option<ChainEpoch>)
        requires
            self.wf(),
        ensures
            self.spec_quantize_up(raw as int) <= i64::MAX ==> r == Some(
                self.spec_quantize_up(raw as int) as i64,
            ),
            self.spec_quantize_up(raw as int) > i64::MAX ==> r is None,
    {
        let unit: i128 = self.unit as i128;
        let step: i128 = if self.offset >= raw {
            let d: u128 = (self.offset as i128 - raw as i128) as u128;
            let m: u128 = d % (unit as u128);
            m as i128
        } else {
            let d: u128 = (raw as i128 - self.offset as i128) as u128;
            let m: u128 = d % (unit as u128);
            proof {
                lemma_mod_of_negation(d as int, unit as int);
            }
            if m == 0 {
                0
            } else {
                unit - (m as i128)
            }
        };
        assert(step == gap(self.unit as int, self.offset as int, raw as int));
        let k: i128 = raw as i128 + step;
        if k > i64::MAX as i128 {
            None
        } else {
            Some(k as i64)
        }
    }

    /// Rounds `raw` up to the nearest bucket key.
    pub fn quantize_up(&self, raw: ChainEpoch) -> (k: ChainEpoch)
        requires
            self.wf(),
            self.spec_quantize_up(raw as int) <= i64::MAX,
        ensures
            k == self.spec_quantize_up(raw as int),
    {
        match self.checked_quantize_up(raw) {
            Some(k) => k,
            None => raw,
        }
    }

    /// A quantized epoch is never below the raw epoch, lies less than one
    /// unit above it, and is a bucket key.
    pub proof fn lemma_quantize_up_bounds(&self, raw: int)
        requires
            self.wf(),
        ensures
            self.spec_quantize_up(raw) >= raw,
            self.spec_quantize_up(raw) < raw + self.unit,
            self.is_quantized(self.spec_quantize_up(raw)),
    {
        let u = self.unit as int;
        let o = self.offset as int;
        let g = gap(u, o, raw);
        vstd::arithmetic::div_mod::lemma_mod_bound(o - raw, u);
        vstd::arithmetic::div_mod::lemma_fundamental_div_mod(o - raw, u);
        let q = (o - raw) / u;
        assert(raw + g - o == u * (-q)) by (nonlinear_arith)
            requires
                o - raw == u * q + g,
        ;
        vstd::arithmetic::div_mod::lemma_fundamental_div_mod_converse(raw + g - o, u, -q, 0);
    }

    /// No bucket key at or above `raw` is smaller than the quantized epoch.
    pub proof fn lemma_quantize_up_least(&self, raw: int, k: int)
        requires
            self.wf(),
            k >= raw,
            self.is_quantized(k),
        ensures
            self.spec_quantize_up(raw) <= k,
    {
        let u = self.unit as int;
        let o = self.offset as int;
        let q = self.spec_quantize_up(raw);
        self.lemma_quantize_up_bounds(raw);
        if k < q {
            // k and q are both on the grid and less than one unit apart
            lemma_grid_step(u, k - o, q - o);
        }
    }

    /// Quantizing a bucket key gives the key back; in particular quantizing
    /// twice is quantizing once.
    pub proof fn lemma_quantize_up_idempotent(&self, raw: int)
        requires
            self.wf(),
        ensures
            self.spec_quantize_up(self.spec_quantize_up(raw)) == self.spec_quantize_up(raw),
            self.is_quantized(raw) ==> self.spec_quantize_up(raw) == raw,
    {
        let q = self.spec_quantize_up(raw);
        self.lemma_quantize_up_bounds(raw);
        self.lemma_quantize_up_bounds(q);
        self.lemma_quantize_up_least(q, q);
        if self.is_quantized(raw) {
            self.lemma_quantize_up_least(raw, raw);
        }
    }

    /// With a unit of one every epoch is its own bucket key.
    pub proof fn lemma_unit_one_is_identity(&self, raw: int)
        requires
            self.unit == 1,
        ensures
            self.spec_quantize_up(raw) == raw,
    {
        vstd::arithmetic::div_mod::lemma_mod_bound(self.offset as int - raw, 1);
    }
}

} // verus!
