//! Exact decimal numbers.
//!
//! A `Decimal` stands for the rational number `(-1)^neg * m / 10^e`.
//! Every decimal handed out by this module is canonical: a zero mantissa
//! forces a positive sign and a zero scale, and a positive scale forces a
//! mantissa that is not divisible by ten, so two canonical decimals denote
//! the same number exactly when they are equal field by field.

use vstd::prelude::*;

verus! {

/// An exact decimal number standing for `(-1)^neg * m / 10^e`.
#[derive(Debug, Clone, Copy, PartialEq, Eq, Structural)]
pub struct Decimal {
    /// Whether the number is negative.
    pub neg: bool,
    /// The mantissa.
    pub m: u128,
    /// The scale: how many decimal digits of `m` lie behind the point.
    pub e: u32,
}

/// Ten to the `k`-th power.
pub open spec fn pow10(k: nat) -> nat
    decreases k,
{
    if k == 0 {
        1
    } else {
        10 * pow10((k - 1) as nat)
    }
}

impl Decimal {
    /// The signed mantissa.
    pub open spec fn num(self) -> int {
        if self.neg {
            -(self.m as int)
        } else {
            self.m as int
        }
    }

    /// Canonical form: no negative zero, no trailing zero behind the point.
    pub open spec fn wf(self) -> bool {
        &&& (self.m == 0 ==> !self.neg && self.e == 0)
        &&& (self.e > 0 ==> self.m % 10 != 0)
    }

    /// Whether two decimals denote the same number: cross-multiplied equality
    /// of the signed mantissas.
    pub open spec fn same_value(self, other: Decimal) -> bool {
        self.num() * pow10(other.e as nat) == other.num() * pow10(self.e as nat)
    }

    /// Whether this decimal denotes a number strictly below the other.
    pub open spec fn lt_value(self, other: Decimal) -> bool {
        self.num() * pow10(other.e as nat) < other.num() * pow10(self.e as nat)
    }

    /// The canonical zero.
    pub open spec fn spec_zero() -> Decimal {
        Decimal { neg: false, m: 0, e: 0 }
    }
}

/// Strip factors of ten out of a signed mantissa, lowering the scale,
/// until the scale is zero or the mantissa is no longer divisible by ten.
pub open spec fn canon_num(n: int, e: nat) -> (int, nat)
    decreases e,
{
    if e > 0 && n % 10 == 0 {
        canon_num(n / 10, (e - 1) as nat)
    } else {
        (n, e)
    }
}

pub proof fn lemma_pow10_pos(k: nat)
    ensures
        pow10(k) >= 1,
    decreases k,
{
    if k > 0 {
        lemma_pow10_pos((k - 1) as nat);
    }
}

pub proof fn lemma_pow10_add(a: nat, b: nat)
    ensures
        pow10(a + b) == pow10(a) * pow10(b),
    decreases a,
{
    if a == 0 {
        assert(pow10(0 + b) == 1 * pow10(b));
    } else {
        lemma_pow10_add((a - 1) as nat, b);
        assert(pow10(a + b) == 10 * pow10((a - 1) as nat + b)) by {
            assert(a + b == ((a - 1) as nat + b) + 1);
        }
        assert(10 * (pow10((a - 1) as nat) * pow10(b)) == (10 * pow10((a - 1) as nat)) * pow10(b))
            by (nonlinear_arith);
    }
}

/// Canonicalization does not change the number denoted.
pub proof fn lemma_canon_same(n: int, e: nat)
    ensures
        ({
            let (n2, e2) = canon_num(n, e);
            &&& n * pow10(e2) == n2 * pow10(e)
            &&& e2 <= e
            &&& vstd::math::abs(n2) <= vstd::math::abs(n)
            &&& (n2 == 0 <==> n == 0)
            &&& (e2 > 0 ==> n2 % 10 != 0)
            &&& (n2 == 0 ==> e2 == 0)
            &&& (n2 < 0 <==> n < 0)
        }),
    decreases e,
{
    if e > 0 && n % 10 == 0 {
        let q = n / 10;
        assert(n == q * 10);
        lemma_canon_same(q, (e - 1) as nat);
        let (n2, e2) = canon_num(q, (e - 1) as nat);
        assert(q * pow10(e2) == n2 * pow10((e - 1) as nat));
        assert(pow10(e) == 10 * pow10((e - 1) as nat));
        assert(n * pow10(e2) == (q * 10) * pow10(e2));
        assert((q * 10) * pow10(e2) == 10 * (q * pow10(e2))) by (nonlinear_arith);
        assert(10 * (n2 * pow10((e - 1) as nat)) == n2 * (10 * pow10((e - 1) as nat)))
            by (nonlinear_arith);
        assert(vstd::math::abs(q) <= vstd::math::abs(n));
    }
}

/// Two canonical decimals that denote the same number are equal: the
/// canonical form is unique, so structural equality on canonical decimals
/// (as the evaluator's `==` uses it) is exactly equality of the denoted
/// numbers.
pub proof fn lemma_canonical_unique(a: Decimal, b: Decimal)
    requires
        a.wf(),
        b.wf(),
        a.same_value(b),
    ensures
        a == b,
{
    if a.e == b.e {
        lemma_pow10_pos(a.e as nat);
        assert(a.num() == b.num()) by (nonlinear_arith)
            requires
                a.num() * pow10(b.e as nat) == b.num() * pow10(a.e as nat),
                a.e == b.e,
                pow10(a.e as nat) >= 1,
        ;
        assert(a.m == b.m);
        assert(a.neg == b.neg);
    } else if a.e < b.e {
        lemma_unequal_scales_differ(a, b);
    } else {
        lemma_unequal_scales_differ(b, a);
        assert(b.num() * pow10(a.e as nat) == a.num() * pow10(b.e as nat));
    }
}

/// Helper: a canonical pair with strictly increasing scales never denotes
/// the same number.
proof fn lemma_unequal_scales_differ(a: Decimal, b: Decimal)
    requires
        a.wf(),
        b.wf(),
        a.e < b.e,
    ensures
        !a.same_value(b),
{
    if a.same_value(b) {
        // by contradiction: cancel the common power of ten, then the scale
        // difference forces a factor of ten into the larger-scale mantissa
        lemma_scale_difference_contradicts(a, b);
    }
}

/// The contradiction inside the above: sameness of value with a strictly
/// smaller scale on `a` forces a non-canonical `b`.
proof fn lemma_scale_difference_contradicts(a: Decimal, b: Decimal)
    requires
        a.wf(),
        b.wf(),
        a.e < b.e,
        a.same_value(b),
    ensures
        b.e == 0,
{
    assert(a.num() * pow10(b.e as nat) == b.num() * pow10(a.e as nat));
    let d = (b.e - a.e) as nat;
    lemma_pow10_pos(a.e as nat);
    lemma_pow10_pos(d);
    lemma_pow10_add(a.e as nat, d);
    // a.num() * 10^(a.e) * 10^d == b.num() * 10^(a.e), so cancel 10^(a.e):
    assert((a.num() * pow10(d)) * pow10(a.e as nat) == a.num() * (pow10(a.e as nat) * pow10(d)))
        by (nonlinear_arith);
    assert(a.num() * (pow10(a.e as nat) * pow10(d)) == b.num() * pow10(a.e as nat));
    assert(a.num() * pow10(d) == b.num()) by (nonlinear_arith)
        requires
            (a.num() * pow10(d)) * pow10(a.e as nat) == b.num() * pow10(a.e as nat),
            pow10(a.e as nat) >= 1,
    ;
    // b.e > 0, so b.m is not divisible by 10, yet 10 divides a.num() * 10^d
    // unless a.num() == 0.
    if a.num() == 0 {
        assert(b.num() == 0) by (nonlinear_arith)
            requires
                a.num() == 0,
                a.num() * pow10(d) == b.num(),
        ;
        assert(b.m == 0);
        // canonical zero has scale zero, contradicting b.e > a.e >= 0
        assert(false);
    } else {
        assert(d >= 1);
        assert(pow10(d) == 10 * pow10((d - 1) as nat));
        let k = a.num() * pow10((d - 1) as nat);
        assert(a.num() * pow10(d) == 10 * k) by (nonlinear_arith)
            requires
                pow10(d) == 10 * pow10((d - 1) as nat),
                k == a.num() * pow10((d - 1) as nat),
        ;
        assert(b.num() == 10 * k);
        assert(b.num() % 10 == 0) by (nonlinear_arith)
            requires
                b.num() == 10 * k,
        ;
        if b.neg {
            assert(b.num() == -(b.m as int));
            assert((-(b.m as int)) % 10 == 0);
            assert(b.m % 10 != 0);
            assert((b.m as int) % 10 != 0);
            lemma_neg_mod10(b.m as int);
            assert(false);
        } else {
            assert((b.m as int) % 10 == 0);
            assert(b.m % 10 == 0);
            assert(false);
        }
    }
}

/// If a nonnegative integer is not divisible by ten, neither is its negation.
proof fn lemma_neg_mod10(x: int)
    requires
        x % 10 != 0,
    ensures
        (-x) % 10 != 0,
{
    let q = x / 10;
    let r = x % 10;
    assert(x == 10 * q + r);
    assert((-x) == 10 * (-q - 1) + (10 - r));
    assert((-x) % 10 == 10 - r) by (nonlinear_arith)
        requires
            -x == 10 * (-q - 1) + (10 - r),
            0 < 10 - r < 10,
    ;
}

/// A canonical decimal is a fixed point of canonicalization.
pub proof fn lemma_wf_canon_fixed(d: Decimal)
    requires
        d.wf(),
    ensures
        canon_num(d.num(), d.e as nat) == (d.num(), d.e as nat),
{
    if d.e > 0 {
        if d.neg {
            lemma_neg_mod10(d.m as int);
        }
        assert(d.num() % 10 != 0);
    }
}

/// Powers of ten do not shrink as the exponent grows.
pub proof fn lemma_pow10_mono(a: nat, b: nat)
    requires
        a <= b,
    ensures
        pow10(a) <= pow10(b),
{
    lemma_pow10_add(a, (b - a) as nat);
    lemma_pow10_pos((b - a) as nat);
    lemma_pow10_pos(a);
    assert(pow10(a) * 1 <= pow10(a) * pow10((b - a) as nat)) by (nonlinear_arith)
        requires
            pow10(a) >= 1,
            pow10((b - a) as nat) >= 1,
    ;
}

/// Ten to the `k`-th power, if it fits a mantissa.
fn pow10_u128(k: u64) -> (r: Option<u128>)
    ensures
        match r {
            Some(p) => p == pow10(k as nat),
            None => pow10(k as nat) > u128::MAX,
        },
{
    let mut i: u64 = 0;
    let mut acc: u128 = 1;
    let mut overflowed: bool = false;
    while i < k && !overflowed
        invariant
            i <= k,
            !overflowed ==> acc == pow10(i as nat),
            overflowed ==> pow10(i as nat) > u128::MAX,
        decreases k - i,
    {
        match acc.checked_mul(10) {
            Some(next) => {
                proof {
                    assert(pow10((i + 1) as nat) == 10 * pow10(i as nat));
                }
                acc = next;
            },
            None => {
                proof {
                    assert(pow10((i + 1) as nat) == 10 * pow10(i as nat));
                }
                overflowed = true;
            },
        }
        i = i + 1;
    }
    if overflowed {
        proof {
            lemma_pow10_mono(i as nat, k as nat);
        }
        None
    } else {
        Some(acc)
    }
}

/// Exact division by ten carries over to the negation.
proof fn lemma_div10_of_neg(m: int)
    requires
        m >= 0,
        m % 10 == 0,
    ensures
        (-m) % 10 == 0,
        (-m) / 10 == -(m / 10),
{
    let q = m / 10;
    assert(m == 10 * q);
    vstd::arithmetic::div_mod::lemma_fundamental_div_mod_converse(-m, 10, -q, 0);
}

/// Reduce a signed mantissa and scale to canonical form. Fails only when the
/// reduced scale still does not fit the scale field.
fn canonicalize(neg: bool, m: u128, e: u64) -> (r: Option<Decimal>)
    ensures
        ({
            let (n2, e2) = canon_num(if neg { -(m as int) } else { m as int }, e as nat);
            match r {
                Some(d) => d.wf() && d.num() == n2 && d.e as nat == e2,
                None => e2 > u32::MAX,
            }
        }),
{
    let ghost n0: int = if neg { -(m as int) } else { m as int };
    let ghost e0: nat = e as nat;
    let mut m = m;
    let mut e = e;
    while e > 0 && m % 10 == 0
        invariant
            canon_num(n0, e0) == canon_num(if neg { -(m as int) } else { m as int }, e as nat),
        decreases e,
    {
        proof {
            let cur = if neg { -(m as int) } else { m as int };
            if neg {
                lemma_div10_of_neg(m as int);
            }
            assert(cur % 10 == 0);
            assert(cur / 10 == if neg { -((m / 10) as int) } else { (m / 10) as int });
        }
        m = m / 10;
        e = e - 1;
    }
    proof {
        let cur = if neg { -(m as int) } else { m as int };
        if neg && m % 10 != 0 {
            lemma_neg_mod10(m as int);
        }
        assert(canon_num(cur, e as nat) == (cur, e as nat));
    }
    if e > u32::MAX as u64 {
        None
    } else {
        let neg_out = if m == 0 { false } else { neg };
        let e_out = if m == 0 { 0u32 } else { e as u32 };
        proof {
            if m == 0 {
                let cur = if neg { -(m as int) } else { m as int };
                assert(cur == 0);
                if e > 0 {
                    assert(canon_num(0int, e as nat) == canon_num(0int, (e - 1) as nat));
                    lemma_canon_same(0int, e as nat);
                }
            }
        }
        Some(Decimal { neg: neg_out, m, e: e_out })
    }
}

/// The larger of two naturals.
pub open spec fn max_nat(a: nat, b: nat) -> nat {
    if a >= b {
        a
    } else {
        b
    }
}

/// The exact sum of two decimals, as a signed mantissa over the larger scale,
/// before canonicalization.
pub open spec fn raw_sum(a: Decimal, b: Decimal) -> (int, nat) {
    let ee = max_nat(a.e as nat, b.e as nat);
    (
        a.num() * pow10((ee - a.e) as nat) + b.num() * pow10((ee - b.e) as nat),
        ee,
    )
}

/// Whether the sum of two decimals can be computed inside the mantissa range:
/// both mantissas brought to the common scale, and the sum itself, must fit.
pub open spec fn sum_fits(a: Decimal, b: Decimal) -> bool {
    let ee = max_nat(a.e as nat, b.e as nat);
    &&& a.m * pow10((ee - a.e) as nat) <= u128::MAX
    &&& b.m * pow10((ee - b.e) as nat) <= u128::MAX
    &&& vstd::math::abs(raw_sum(a, b).0) <= u128::MAX
}

/// An arithmetic failure on decimals.
#[derive(Debug, Clone, Copy, PartialEq, Eq, Structural)]
pub enum NumError {
    /// An intermediate or final mantissa or scale left the representable range.
    Overflow,
    /// Division by zero.
    DivisionByZero,
}

impl Decimal {
    /// Addition. Exact: on success the result is the canonical form of the
    /// sum of the two numbers.
    pub fn add(self, other: Decimal) -> (r: Result<Decimal, NumError>)
        requires
            self.wf(),
            other.wf(),
        ensures
            ({
                let (n, ee) = raw_sum(self, other);
                let (n2, e2) = canon_num(n, ee);
                match r {
                    Ok(d) => {
                        &&& sum_fits(self, other)
                        &&& d.wf()
                        &&& d.num() == n2
                        &&& d.e as nat == e2
                        &&& d.num() * pow10(ee) == n * pow10(d.e as nat)
                    },
                    Err(err) => err == NumError::Overflow && !sum_fits(self, other),
                }
            }),
    {
        let ghost rsum = raw_sum(self, other);
        let ee: u32 = if self.e >= other.e { self.e } else { other.e };
        if self.m == 0 {
            proof {
                let mee = max_nat(self.e as nat, other.e as nat);
                assert(self.e == 0 && self.num() == 0);
                assert(mee == other.e as nat);
                assert(rsum.1 == mee);
                assert((mee - other.e) as nat == 0);
                assert(pow10((mee - other.e) as nat) == 1);
                assert(other.num() * pow10((mee - other.e) as nat) == other.num())
                    by (nonlinear_arith)
                    requires
                        pow10((mee - other.e) as nat) == 1,
                ;
                assert(self.num() * pow10((mee - self.e) as nat) == 0) by (nonlinear_arith)
                    requires
                        self.num() == 0,
                ;
                assert(self.m * pow10((mee - self.e) as nat) == 0) by (nonlinear_arith)
                    requires
                        self.m == 0,
                ;
                assert(rsum.0 == other.num());
                lemma_wf_canon_fixed(other);
                assert(vstd::math::abs(other.num()) == other.m);
                assert(other.m * pow10((mee - other.e) as nat) == other.m) by (nonlinear_arith)
                    requires
                        pow10((mee - other.e) as nat) == 1,
                ;
            }
            return Ok(other);
        }
        if other.m == 0 {
            proof {
                let mee = max_nat(self.e as nat, other.e as nat);
                assert(other.e == 0 && other.num() == 0);
                assert(mee == self.e as nat);
                assert(rsum.1 == mee);
                assert((mee - self.e) as nat == 0);
                assert(pow10((mee - self.e) as nat) == 1);
                assert(self.num() * pow10((mee - self.e) as nat) == self.num())
                    by (nonlinear_arith)
                    requires
                        pow10((mee - self.e) as nat) == 1,
                ;
                assert(other.num() * pow10((mee - other.e) as nat) == 0) by (nonlinear_arith)
                    requires
                        other.num() == 0,
                ;
                assert(other.m * pow10((mee - other.e) as nat) == 0) by (nonlinear_arith)
                    requires
                        other.m == 0,
                ;
                assert(rsum.0 == self.num());
                lemma_wf_canon_fixed(self);
                assert(vstd::math::abs(self.num()) == self.m);
                assert(self.m * pow10((mee - self.e) as nat) == self.m) by (nonlinear_arith)
                    requires
                        pow10((mee - self.e) as nat) == 1,
                ;
            }
            return Ok(self);
        }
        let sa = match scale_mantissa(self.m, ee - self.e) {
            Some(v) => v,
            None => {
                return Err(NumError::Overflow);
            },
        };
        let sb = match scale_mantissa(other.m, ee - other.e) {
            Some(v) => v,
            None => {
                return Err(NumError::Overflow);
            },
        };
        proof {
            assert(self.num() * pow10((ee - self.e) as nat) == if self.neg {
                -(sa as int)
            } else {
                sa as int
            }) by (nonlinear_arith)
                requires
                    sa == self.m * pow10((ee - self.e) as nat),
                    self.num() == if self.neg { -(self.m as int) } else { self.m as int },
            ;
            assert(other.num() * pow10((ee - other.e) as nat) == if other.neg {
                -(sb as int)
            } else {
                sb as int
            }) by (nonlinear_arith)
                requires
                    sb == other.m * pow10((ee - other.e) as nat),
                    other.num() == if other.neg { -(other.m as int) } else { other.m as int },
            ;
        }
        if self.neg == other.neg {
            match sa.checked_add(sb) {
                Some(total) => {
                    proof {
                        assert(vstd::math::abs(rsum.0) == total);
                    }
                    finish_sum(self.neg, total, ee, Ghost(rsum))
                },
                None => {
                    proof {
                        assert(vstd::math::abs(rsum.0) > u128::MAX);
                    }
                    Err(NumError::Overflow)
                },
            }
        } else {
            let (neg, mag) = if sa >= sb {
                (self.neg, sa - sb)
            } else {
                (other.neg, sb - sa)
            };
            proof {
                assert(vstd::math::abs(rsum.0) == mag);
                assert(rsum.0 == if neg { -(mag as int) } else { mag as int });
            }
            finish_sum(neg, mag, ee, Ghost(rsum))
        }
    }
}

/// Bring a mantissa to a larger scale, reporting a range failure exactly.
fn scale_mantissa(m: u128, d: u32) -> (r: Option<u128>)
    requires
        m >= 1,
    ensures
        match r {
            Some(v) => v == m * pow10(d as nat),
            None => m * pow10(d as nat) > u128::MAX,
        },
{
    match pow10_u128(d as u64) {
        Some(p) => {
            match m.checked_mul(p) {
                Some(v) => Some(v),
                None => None,
            }
        },
        None => {
            proof {
                assert(m * pow10(d as nat) >= 1 * pow10(d as nat)) by (nonlinear_arith)
                    requires
                        m >= 1,
                        pow10(d as nat) >= 0,
                ;
            }
            None
        },
    }
}

/// Canonicalize a computed sum whose magnitude already fits.
fn finish_sum(neg: bool, mag: u128, ee: u32, Ghost(rsum): Ghost<(int, nat)>) -> (r: Result<
    Decimal,
    NumError,
>)
    requires
        rsum.1 == ee as nat,
        rsum.0 == if neg { -(mag as int) } else { mag as int },
    ensures
        r is Ok,
        ({
            let (n2, e2) = canon_num(rsum.0, rsum.1);
            let d = r->Ok_0;
            &&& d.wf()
            &&& d.num() == n2
            &&& d.e as nat == e2
            &&& d.num() * pow10(rsum.1) == rsum.0 * pow10(d.e as nat)
        }),
{
    proof {
        lemma_canon_same(rsum.0, rsum.1);
    }
    match canonicalize(neg, mag, ee as u64) {
        Some(d) => {
            proof {
                lemma_canon_same(rsum.0, rsum.1);
            }
            Ok(d)
        },
        None => vstd::pervasive::unreached(),
    }
}

/// The exact difference of two decimals, as a signed mantissa over the larger
/// scale, before canonicalization.
pub open spec fn raw_diff(a: Decimal, b: Decimal) -> (int, nat) {
    let ee = max_nat(a.e as nat, b.e as nat);
    (
        a.num() * pow10((ee - a.e) as nat) - b.num() * pow10((ee - b.e) as nat),
        ee,
    )
}

/// Whether the difference of two decimals can be computed inside the mantissa
/// range.
pub open spec fn diff_fits(a: Decimal, b: Decimal) -> bool {
    let ee = max_nat(a.e as nat, b.e as nat);
    &&& a.m * pow10((ee - a.e) as nat) <= u128::MAX
    &&& b.m * pow10((ee - b.e) as nat) <= u128::MAX
    &&& vstd::math::abs(raw_diff(a, b).0) <= u128::MAX
}

/// The exact product of two decimals before canonicalization.
pub open spec fn raw_prod(a: Decimal, b: Decimal) -> (int, nat) {
    (a.num() * b.num(), a.e as nat + b.e as nat)
}

/// How many fractional digits a quotient is carried to before truncation.
pub const DIV_SCALE: u32 = 19;

/// The quotient of two decimals, truncated toward zero at `DIV_SCALE`
/// fractional digits beyond the dividend's scale, before canonicalization.
/// Meaningful only for a nonzero divisor.
pub open spec fn raw_quot(a: Decimal, b: Decimal) -> (int, nat) {
    let q = (a.m * pow10((DIV_SCALE + b.e) as nat)) as int / (b.m as int);
    (
        if a.neg != b.neg {
            -q
        } else {
            q
        },
        a.e as nat + DIV_SCALE as nat,
    )
}

/// Whether the scaled dividend fits the mantissa range.
pub open spec fn quot_fits(a: Decimal, b: Decimal) -> bool {
    a.m * pow10((DIV_SCALE + b.e) as nat) <= u128::MAX
}

impl Decimal {
    /// Subtraction. Exact: on success the result is the canonical form of the
    /// difference of the two numbers.
    pub fn sub(self, other: Decimal) -> (r: Result<Decimal, NumError>)
        requires
            self.wf(),
            other.wf(),
        ensures
            ({
                let (n, ee) = raw_diff(self, other);
                let (n2, e2) = canon_num(n, ee);
                match r {
                    Ok(d) => {
                        &&& diff_fits(self, other)
                        &&& d.wf()
                        &&& d.num() == n2
                        &&& d.e as nat == e2
                        &&& d.num() * pow10(ee) == n * pow10(d.e as nat)
                    },
                    Err(err) => err == NumError::Overflow && !diff_fits(self, other),
                }
            }),
    {
        let nb = other.negate();
        proof {
            let ee = max_nat(self.e as nat, other.e as nat);
            assert(max_nat(self.e as nat, nb.e as nat) == ee);
            assert(nb.num() * pow10((ee - nb.e) as nat) == -(other.num() * pow10(
                (ee - other.e) as nat,
            ))) by (nonlinear_arith)
                requires
                    nb.num() == -other.num(),
                    nb.e == other.e,
            ;
            assert(raw_sum(self, nb) == raw_diff(self, other));
            assert(sum_fits(self, nb) == diff_fits(self, other));
        }
        self.add(nb)
    }

    /// Multiplication. Exact: on success the result is the canonical form of
    /// the product of the two numbers.
    pub fn mul(self, other: Decimal) -> (r: Result<Decimal, NumError>)
        requires
            self.wf(),
            other.wf(),
        ensures
            ({
                let (n, ee) = raw_prod(self, other);
                let (n2, e2) = canon_num(n, ee);
                match r {
                    Ok(d) => {
                        &&& self.m * other.m <= u128::MAX
                        &&& d.wf()
                        &&& d.num() == n2
                        &&& d.e as nat == e2
                        &&& d.num() * pow10(ee) == n * pow10(d.e as nat)
                    },
                    Err(err) => err == NumError::Overflow && (self.m * other.m > u128::MAX || e2
                        > u32::MAX),
                }
            }),
    {
        let ghost rp = raw_prod(self, other);
        match self.m.checked_mul(other.m) {
            Some(p) => {
                let neg = self.neg != other.neg;
                proof {
                    assert(rp.0 == if neg { -(p as int) } else { p as int }) by (nonlinear_arith)
                        requires
                            p == self.m * other.m,
                            neg == (self.neg != other.neg),
                            self.num() == if self.neg { -(self.m as int) } else { self.m as int },
                            other.num() == if other.neg {
                                -(other.m as int)
                            } else {
                                other.m as int
                            },
                            rp.0 == self.num() * other.num(),
                    ;
                    lemma_canon_same(rp.0, rp.1);
                }
                match canonicalize(neg, p, self.e as u64 + other.e as u64) {
                    Some(d) => Ok(d),
                    None => Err(NumError::Overflow),
                }
            },
            None => Err(NumError::Overflow),
        }
    }

    /// Division, truncated toward zero at `DIV_SCALE` fractional digits beyond
    /// the dividend's scale; the result is then canonicalized.
    pub fn div(self, other: Decimal) -> (r: Result<Decimal, NumError>)
        requires
            self.wf(),
            other.wf(),
        ensures
            ({
                let (n, ee) = raw_quot(self, other);
                let (n2, e2) = canon_num(n, ee);
                match r {
                    Ok(d) => {
                        &&& other.m != 0
                        &&& quot_fits(self, other)
                        &&& d.wf()
                        &&& d.num() == n2
                        &&& d.e as nat == e2
                        &&& d.num() * pow10(ee) == n * pow10(d.e as nat)
                    },
                    Err(err) => (err == NumError::DivisionByZero && other.m == 0) || (err
                        == NumError::Overflow && other.m != 0 && (!quot_fits(self, other) || e2
                        > u32::MAX)),
                }
            }),
    {
        if other.m == 0 {
            return Err(NumError::DivisionByZero);
        }
        let ghost rq = raw_quot(self, other);
        if self.m == 0 {
            proof {
                assert(self.m * pow10((DIV_SCALE + other.e) as nat) == 0) by (nonlinear_arith)
                    requires
                        self.m == 0,
                ;
                assert(rq.0 == 0) by {
                    vstd::arithmetic::div_mod::lemma_div_of0(other.m as int);
                }
                lemma_canon_same(rq.0, rq.1);
                let z = Decimal::spec_zero();
                assert(z.num() * pow10(rq.1) == 0) by (nonlinear_arith)
                    requires
                        z.num() == 0,
                ;
                assert(rq.0 * pow10(z.e as nat) == 0) by (nonlinear_arith)
                    requires
                        rq.0 == 0,
                ;
            }
            return Ok(Decimal::zero());
        }
        let pw = match pow10_u128(DIV_SCALE as u64 + other.e as u64) {
            Some(p) => p,
            None => {
                proof {
                    assert(self.m * pow10((DIV_SCALE + other.e) as nat) >= 1 * pow10(
                        (DIV_SCALE + other.e) as nat,
                    )) by (nonlinear_arith)
                        requires
                            self.m >= 1,
                            pow10((DIV_SCALE + other.e) as nat) >= 0,
                    ;
                }
                return Err(NumError::Overflow);
            },
        };
        let scaled = match self.m.checked_mul(pw) {
            Some(v) => v,
            None => {
                return Err(NumError::Overflow);
            },
        };
        let q = scaled / other.m;
        proof {
            assert(rq.0 == if self.neg != other.neg {
                -(q as int)
            } else {
                q as int
            });
            lemma_canon_same(rq.0, rq.1);
        }
        match canonicalize(self.neg != other.neg, q, self.e as u64 + DIV_SCALE as u64) {
            Some(d) => Ok(d),
            None => Err(NumError::Overflow),
        }
    }

    /// Strict comparison of the denoted numbers.
    pub fn lt(self, other: Decimal) -> (r: bool)
        requires
            self.wf(),
            other.wf(),
        ensures
            r == self.lt_value(other),
    {
        proof {
            lemma_lt_scaled(self, other);
        }
        let ghost ee = max_nat(self.e as nat, other.e as nat);
        let ghost ta = self.num() * pow10((ee - self.e) as nat);
        let ghost tb = other.num() * pow10((ee - other.e) as nat);
        if self.neg && !other.neg {
            proof {
                lemma_pow10_pos((ee - self.e) as nat);
                lemma_pow10_pos((ee - other.e) as nat);
                assert(ta < 0) by (nonlinear_arith)
                    requires
                        ta == self.num() * pow10((ee - self.e) as nat),
                        self.num() < 0,
                        pow10((ee - self.e) as nat) >= 1,
                ;
                assert(tb >= 0) by (nonlinear_arith)
                    requires
                        tb == other.num() * pow10((ee - other.e) as nat),
                        other.num() >= 0,
                        pow10((ee - other.e) as nat) >= 1,
                ;
            }
            true
        } else if !self.neg && other.neg {
            proof {
                lemma_pow10_pos((ee - self.e) as nat);
                lemma_pow10_pos((ee - other.e) as nat);
                assert(ta >= 0) by (nonlinear_arith)
                    requires
                        ta == self.num() * pow10((ee - self.e) as nat),
                        self.num() >= 0,
                        pow10((ee - self.e) as nat) >= 1,
                ;
                assert(tb < 0) by (nonlinear_arith)
                    requires
                        tb == other.num() * pow10((ee - other.e) as nat),
                        other.num() < 0,
                        pow10((ee - other.e) as nat) >= 1,
                ;
            }
            false
        } else if !self.neg {
            let r = mag_scaled_lt(self, other);
            proof {
                assert(ta == self.m * pow10((ee - self.e) as nat));
                assert(tb == other.m * pow10((ee - other.e) as nat));
            }
            r
        } else {
            let r = mag_scaled_lt(other, self);
            proof {
                assert(max_nat(other.e as nat, self.e as nat) == ee);
                assert(ta == -(self.m * pow10((ee - self.e) as nat))) by (nonlinear_arith)
                    requires
                        ta == self.num() * pow10((ee - self.e) as nat),
                        self.num() == -(self.m as int),
                ;
                assert(tb == -(other.m * pow10((ee - other.e) as nat))) by (nonlinear_arith)
                    requires
                        tb == other.num() * pow10((ee - other.e) as nat),
                        other.num() == -(other.m as int),
                ;
            }
            r
        }
    }

    /// Non-strict comparison of the denoted numbers.
    pub open spec fn le_value(self, other: Decimal) -> bool {
        self.num() * pow10(other.e as nat) <= other.num() * pow10(self.e as nat)
    }

    /// Non-strict comparison of the denoted numbers.
    pub fn le(self, other: Decimal) -> (r: bool)
        requires
            self.wf(),
            other.wf(),
        ensures
            r == self.le_value(other),
    {
        let r = other.lt(self);
        !r
    }
}

/// Relate the cross-multiplied ordering of two decimals to the ordering of
/// their mantissas brought to the common scale.
proof fn lemma_lt_scaled(a: Decimal, b: Decimal)
    ensures
        a.lt_value(b) == (a.num() * pow10((max_nat(a.e as nat, b.e as nat) - a.e) as nat) < b.num()
            * pow10((max_nat(a.e as nat, b.e as nat) - b.e) as nat)),
{
    let ee = max_nat(a.e as nat, b.e as nat);
    let mn: nat = if a.e <= b.e { a.e as nat } else { b.e as nat };
    let da = (ee - a.e) as nat;
    let db = (ee - b.e) as nat;
    assert(da + mn == b.e as nat);
    assert(db + mn == a.e as nat);
    lemma_pow10_add(da, mn);
    lemma_pow10_add(db, mn);
    lemma_pow10_pos(mn);
    let ta = a.num() * pow10(da);
    let tb = b.num() * pow10(db);
    assert(a.num() * pow10(b.e as nat) == ta * pow10(mn)) by (nonlinear_arith)
        requires
            pow10(b.e as nat) == pow10(da) * pow10(mn),
            ta == a.num() * pow10(da),
    ;
    assert(b.num() * pow10(a.e as nat) == tb * pow10(mn)) by (nonlinear_arith)
        requires
            pow10(a.e as nat) == pow10(db) * pow10(mn),
            tb == b.num() * pow10(db),
    ;
    assert((ta * pow10(mn) < tb * pow10(mn)) == (ta < tb)) by (nonlinear_arith)
        requires
            pow10(mn) >= 1,
    ;
}

/// Compare two mantissas brought to the common scale, as plain magnitudes.
fn mag_scaled_lt(a: Decimal, b: Decimal) -> (r: bool)
    ensures
        r == (a.m * pow10((max_nat(a.e as nat, b.e as nat) - a.e) as nat) < b.m * pow10(
            (max_nat(a.e as nat, b.e as nat) - b.e) as nat,
        )),
{
    let ghost ee = max_nat(a.e as nat, b.e as nat);
    if a.e == b.e {
        proof {
            assert(pow10((ee - a.e) as nat) == 1);
            assert(a.m * pow10((ee - a.e) as nat) == a.m) by (nonlinear_arith)
                requires
                    pow10((ee - a.e) as nat) == 1,
            ;
            assert(b.m * pow10((ee - b.e) as nat) == b.m) by (nonlinear_arith)
                requires
                    pow10((ee - b.e) as nat) == 1,
            ;
        }
        a.m < b.m
    } else if a.e < b.e {
        proof {
            assert(ee == b.e as nat);
            assert(pow10((ee - b.e) as nat) == 1);
            assert(b.m * pow10((ee - b.e) as nat) == b.m) by (nonlinear_arith)
                requires
                    pow10((ee - b.e) as nat) == 1,
            ;
        }
        if a.m == 0 {
            proof {
                assert(a.m * pow10((ee - a.e) as nat) == 0) by (nonlinear_arith)
                    requires
                        a.m == 0,
                ;
            }
            b.m > 0
        } else {
            match scale_mantissa(a.m, b.e - a.e) {
                Some(sa) => sa < b.m,
                None => false,
            }
        }
    } else {
        proof {
            assert(ee == a.e as nat);
            assert(pow10((ee - a.e) as nat) == 1);
            assert(a.m * pow10((ee - a.e) as nat) == a.m) by (nonlinear_arith)
                requires
                    pow10((ee - a.e) as nat) == 1,
            ;
        }
        if b.m == 0 {
            proof {
                assert(b.m * pow10((ee - b.e) as nat) == 0) by (nonlinear_arith)
                    requires
                        b.m == 0,
                ;
            }
            false
        } else {
            match scale_mantissa(b.m, a.e - b.e) {
                Some(sb) => a.m < sb,
                None => true,
            }
        }
    }
}

/// The canonical decimal a signed mantissa and scale reduce to. Meaningful
/// when the reduced mantissa fits the mantissa field and the reduced scale
/// fits the scale field.
pub open spec fn canon_dec(n: int, e: nat) -> Decimal {
    let (n2, e2) = canon_num(n, e);
    Decimal { neg: n2 < 0, m: vstd::math::abs(n2) as u128, e: e2 as u32 }
}

/// When the reduced mantissa and scale fit their fields, `canon_dec` is
/// canonical and denotes exactly the reduced pair.
pub proof fn lemma_canon_dec_wf(n: int, e: nat)
    requires
        vstd::math::abs(canon_num(n, e).0) <= u128::MAX,
        canon_num(n, e).1 <= u32::MAX,
    ensures
        canon_dec(n, e).wf(),
        canon_dec(n, e).num() == canon_num(n, e).0,
        canon_dec(n, e).e as nat == canon_num(n, e).1,
{
    lemma_canon_same(n, e);
    let (n2, e2) = canon_num(n, e);
    let d = canon_dec(n, e);
    assert(d.num() == n2);
    if e2 > 0 && n2 < 0 {
        if d.m % 10 == 0 {
            lemma_div10_of_neg(d.m as int);
            assert(n2 % 10 == 0);
        }
    }
}

/// A canonical decimal whose signed mantissa and scale match a reduced pair
/// is exactly `canon_dec` of it.
pub proof fn lemma_canon_dec_unique(d: Decimal, n: int, e: nat)
    requires
        d.wf(),
        d.num() == canon_num(n, e).0,
        d.e as nat == canon_num(n, e).1,
    ensures
        d == canon_dec(n, e),
{
    let (n2, e2) = canon_num(n, e);
    if n2 < 0 {
        assert(d.neg);
        assert(d.m == vstd::math::abs(n2));
    } else if n2 == 0 {
        assert(d.m == 0);
        assert(!d.neg);
    } else {
        assert(!d.neg);
    }
}

impl Decimal {
    /// Negation, as a value: the negation of zero is zero.
    pub open spec fn spec_negate(self) -> Decimal {
        if self.m == 0 {
            self
        } else {
            Decimal { neg: !self.neg, m: self.m, e: self.e }
        }
    }

    /// Whether this decimal is in canonical form.
    pub fn is_canonical(self) -> (r: bool)
        ensures
            r == self.wf(),
    {
        (self.m != 0 || (!self.neg && self.e == 0)) && (self.e == 0 || self.m % 10 != 0)
    }

    /// The canonical zero.
    pub fn zero() -> (r: Decimal)
        ensures
            r == Decimal::spec_zero(),
            r.wf(),
    {
        Decimal { neg: false, m: 0, e: 0 }
    }

    /// Negation. Exact; the negation of zero is zero.
    pub fn negate(self) -> (r: Decimal)
        requires
            self.wf(),
        ensures
            r == self.spec_negate(),
            r.wf(),
            r.num() == -self.num(),
            r.e == self.e,
            r.m == self.m,
    {
        if self.m == 0 {
            self
        } else {
            Decimal { neg: !self.neg, m: self.m, e: self.e }
        }
    }
}

/// Whether a character is a decimal digit.
pub open spec fn is_digit_char(c: char) -> bool {
    48 <= c as int <= 57
}

/// The digit character standing for a value below ten.
pub open spec fn digit_char(d: nat) -> char {
    if d == 0 {
        '0'
    } else if d == 1 {
        '1'
    } else if d == 2 {
        '2'
    } else if d == 3 {
        '3'
    } else if d == 4 {
        '4'
    } else if d == 5 {
        '5'
    } else if d == 6 {
        '6'
    } else if d == 7 {
        '7'
    } else if d == 8 {
        '8'
    } else {
        '9'
    }
}

/// The value of a digit character.
pub open spec fn digit_val(c: char) -> nat {
    (c as int - 48) as nat
}

/// The decimal digits of a natural number, most significant first.
pub open spec fn digits_of(n: nat) -> Seq<char>
    decreases n,
{
    if n < 10 {
        seq![digit_char(n)]
    } else {
        digits_of(n / 10).push(digit_char(n % 10))
    }
}

/// The natural number written by a sequence of digit characters.
pub open spec fn digits_val(s: Seq<char>) -> nat
    decreases s.len(),
{
    if s.len() == 0 {
        0
    } else {
        digits_val(s.drop_last()) * 10 + digit_val(s.last())
    }
}

/// A run of zero characters.
pub open spec fn zero_seq(k: nat) -> Seq<char> {
    Seq::new(k, |i| '0')
}

/// The digits of a mantissa, zero-padded on the left so that at least one
/// digit stands before the decimal point.
pub open spec fn dec_digits_padded(d: Decimal) -> Seq<char> {
    let ds = digits_of(d.m as nat);
    if ds.len() >= d.e + 1 {
        ds
    } else {
        zero_seq((d.e + 1 - ds.len()) as nat) + ds
    }
}

/// The textual form of a decimal: optional minus sign, the integer digits,
/// and, for a positive scale, a point followed by the fractional digits.
pub open spec fn dec_text(d: Decimal) -> Seq<char> {
    let pad = dec_digits_padded(d);
    let body = if d.e == 0 {
        pad
    } else {
        pad.take(pad.len() - d.e) + seq!['.'] + pad.skip(pad.len() - d.e)
    };
    if d.neg {
        seq!['-'] + body
    } else {
        body
    }
}

/// Formatting a natural number yields digit characters, at least one, whose
/// value reads back as the number.
pub proof fn lemma_digits_of(n: nat)
    ensures
        digits_of(n).len() >= 1,
        digits_val(digits_of(n)) == n,
        forall|i: int| 0 <= i < digits_of(n).len() ==> is_digit_char(#[trigger] digits_of(n)[i]),
    decreases n,
{
    if n < 10 {
        assert(digits_of(n) == seq![digit_char(n)]);
        assert(digits_val(digits_of(n)) == digits_val(digits_of(n).drop_last()) * 10 + digit_val(
            digits_of(n).last(),
        ));
        assert(digits_of(n).drop_last() =~= Seq::<char>::empty());
        assert(digit_val(digit_char(n)) == n);
        assert(is_digit_char(digit_char(n)));
    } else {
        lemma_digits_of(n / 10);
        let prefix = digits_of(n / 10);
        let whole = digits_of(n);
        assert(whole == prefix.push(digit_char(n % 10)));
        assert(whole.drop_last() =~= prefix);
        assert(digits_val(whole) == digits_val(prefix) * 10 + digit_val(whole.last()));
        assert(digit_val(digit_char(n % 10)) == n % 10);
        assert(n / 10 * 10 + n % 10 == n);
        assert(forall|i: int|
            0 <= i < whole.len() ==> is_digit_char(#[trigger] whole[i])) by {
            assert(forall|i: int|
                0 <= i < prefix.len() ==> is_digit_char(#[trigger] whole[i]) == is_digit_char(
                    prefix[i],
                ));
            assert(is_digit_char(digit_char(n % 10)));
        }
    }
}

/// Reading a concatenation of digit runs: the left run is scaled by ten to
/// the length of the right run.
pub proof fn lemma_digits_val_concat(s: Seq<char>, t: Seq<char>)
    ensures
        digits_val(s + t) == digits_val(s) * pow10(t.len()) + digits_val(t),
    decreases t.len(),
{
    if t.len() == 0 {
        assert(s + t =~= s);
        assert(pow10(0) == 1);
    } else {
        let t0 = t.drop_last();
        lemma_digits_val_concat(s, t0);
        assert((s + t).drop_last() =~= s + t0);
        assert(digits_val(s + t) == digits_val(s + t0) * 10 + digit_val(t.last()));
        assert(pow10(t.len()) == 10 * pow10(t0.len())) by {
            assert(t.len() == t0.len() + 1);
        }
        assert((digits_val(s) * pow10(t0.len()) + digits_val(t0)) * 10 == digits_val(s) * (10
            * pow10(t0.len())) + digits_val(t0) * 10) by (nonlinear_arith);
        assert(digits_val(s) * (10 * pow10(t0.len())) == digits_val(s) * pow10(t.len()));
    }
}

/// A run of zeros reads as zero.
pub proof fn lemma_zero_seq_val(k: nat)
    ensures
        digits_val(zero_seq(k)) == 0,
        forall|i: int| 0 <= i < k ==> is_digit_char(#[trigger] zero_seq(k)[i]),
    decreases k,
{
    if k > 0 {
        lemma_zero_seq_val((k - 1) as nat);
        assert(zero_seq(k).drop_last() =~= zero_seq((k - 1) as nat));
        assert(zero_seq(k).last() == '0');
        assert(digit_val('0') == 0);
    }
}

/// The number a decimal's padded digit run writes is exactly its mantissa.
pub proof fn lemma_padded_digits(d: Decimal)
    ensures
        digits_val(dec_digits_padded(d)) == d.m,
        dec_digits_padded(d).len() >= d.e + 1,
        forall|i: int|
            0 <= i < dec_digits_padded(d).len() ==> is_digit_char(
                #[trigger] dec_digits_padded(d)[i],
            ),
{
    let ds = digits_of(d.m as nat);
    lemma_digits_of(d.m as nat);
    if ds.len() >= d.e + 1 {
    } else {
        let k = (d.e + 1 - ds.len()) as nat;
        lemma_zero_seq_val(k);
        lemma_digits_val_concat(zero_seq(k), ds);
        assert(digits_val(zero_seq(k)) * pow10(ds.len()) == 0) by (nonlinear_arith)
            requires
                digits_val(zero_seq(k)) == 0,
        ;
        assert(forall|i: int|
            0 <= i < dec_digits_padded(d).len() ==> is_digit_char(
                #[trigger] dec_digits_padded(d)[i],
            )) by {
            assert(forall|i: int|
                0 <= i < k ==> dec_digits_padded(d)[i] == zero_seq(k)[i]);
            assert(forall|i: int|
                k <= i < k + ds.len() ==> dec_digits_padded(d)[i] == ds[i - k]);
        }
    }
}

/// The decimal a digit run stands for, with `frac` of its rightmost digits
/// behind the point; nothing if the run's value leaves the mantissa range.
pub open spec fn spec_from_digits(ds: Seq<char>, frac: nat) -> Option<Decimal> {
    if digits_val(ds) > u128::MAX || frac > u32::MAX {
        None
    } else {
        let (n2, e2) = canon_num(digits_val(ds) as int, frac);
        Some(Decimal { neg: false, m: n2 as u128, e: e2 as u32 })
    }
}

/// Reading back the text of a canonical decimal recovers it, up to the sign
/// that the digit run cannot carry.
pub proof fn lemma_dec_text_roundtrip(d: Decimal)
    requires
        d.wf(),
    ensures
        spec_from_digits(dec_digits_padded(d), d.e as nat) == Some(
            Decimal { neg: false, m: d.m, e: d.e },
        ),
{
    lemma_padded_digits(d);
    let dd = Decimal { neg: false, m: d.m, e: d.e };
    assert(dd.wf());
    lemma_wf_canon_fixed(dd);
    assert(dd.num() == d.m as int);
    assert(canon_num(d.m as int, d.e as nat) == (d.m as int, d.e as nat));
}

/// The digit character for a digit value.
fn digit_to_char(d: u128) -> (c: char)
    requires
        d < 10,
    ensures
        c == digit_char(d as nat),
        is_digit_char(c),
        digit_val(c) == d,
{
    if d == 0 {
        '0'
    } else if d == 1 {
        '1'
    } else if d == 2 {
        '2'
    } else if d == 3 {
        '3'
    } else if d == 4 {
        '4'
    } else if d == 5 {
        '5'
    } else if d == 6 {
        '6'
    } else if d == 7 {
        '7'
    } else if d == 8 {
        '8'
    } else {
        '9'
    }
}

/// The decimal digits of a mantissa, most significant first.
pub(crate) fn u128_digits(n: u128) -> (v: Vec<char>)
    ensures
        v@ == digits_of(n as nat),
{
    let ghost n0 = n as nat;
    let mut rev: Vec<char> = Vec::new();
    let mut x = n;
    let c0 = digit_to_char(x % 10);
    rev.push(c0);
    proof {
        if n0 < 10 {
            assert(n as nat % 10 == n as nat);
            assert(digits_of(n0) =~= rev@.reverse());
        } else {
            assert(digits_of(n0) == digits_of(n0 / 10).push(digit_char(n0 % 10)));
            assert(digits_of(n0) =~= digits_of(n0 / 10) + rev@.reverse());
        }
    }
    x = x / 10;
    while x > 0
        invariant
            rev@.len() >= 1,
            x > 0 ==> digits_of(n0) =~= digits_of(x as nat) + rev@.reverse(),
            x == 0 ==> digits_of(n0) =~= rev@.reverse(),
        decreases x,
    {
        let ghost old_rev = rev@;
        let ghost xg = x as nat;
        let c = digit_to_char(x % 10);
        rev.push(c);
        proof {
            assert(rev@.reverse() =~= seq![c] + old_rev.reverse());
            if xg < 10 {
                assert(digits_of(xg) =~= seq![digit_char(xg % 10)]) by {
                    assert(xg % 10 == xg);
                }
                assert(digits_of(n0) =~= rev@.reverse());
            } else {
                assert(digits_of(xg) == digits_of(xg / 10).push(digit_char(xg % 10)));
                assert(digits_of(xg) =~= digits_of(xg / 10) + seq![digit_char(xg % 10)]);
                assert(digits_of(n0) =~= digits_of(xg / 10) + rev@.reverse()) by {
                    assert((digits_of(xg / 10) + seq![digit_char(xg % 10)]) + old_rev.reverse()
                        =~= digits_of(xg / 10) + (seq![digit_char(xg % 10)] + old_rev.reverse()));
                }
            }
        }
        x = x / 10;
    }
    let mut v: Vec<char> = Vec::new();
    let mut i = rev.len();
    while i > 0
        invariant
            i <= rev.len(),
            v@.len() == rev@.len() - i,
            forall|j: int| 0 <= j < v@.len() ==> v@[j] == rev@[rev@.len() - 1 - j],
        decreases i,
    {
        i = i - 1;
        let c = rev[i];
        v.push(c);
    }
    proof {
        assert(v@ =~= rev@.reverse());
    }
    v
}

impl Decimal {
    /// The textual form of this decimal, as source text would write it.
    pub fn to_text(self) -> (r: String)
        ensures
            r@ == dec_text(self),
    {
        proof {
            lemma_digits_of(self.m as nat);
        }
        let mut s = String::new();
        if self.neg {
            crate::text::push_char(&mut s, '-');
            proof {
                assert(s@ =~= seq!['-']);
            }
        }
        let ghost sign = s@;
        let ds = u128_digits(self.m);
        let dlen: u64 = ds.len() as u64;
        let needed: u64 = self.e as u64 + 1;
        let npad: u64 = if dlen >= needed {
            0
        } else {
            needed - dlen
        };
        let mut pad: Vec<char> = Vec::new();
        let mut k: u64 = 0;
        while k < npad
            invariant
                k <= npad,
                pad@ == zero_seq(k as nat),
            decreases npad - k,
        {
            pad.push('0');
            proof {
                assert(zero_seq((k + 1) as nat) =~= zero_seq(k as nat).push('0'));
            }
            k = k + 1;
        }
        let mut j: usize = 0;
        while j < ds.len()
            invariant
                j <= ds.len(),
                pad@ == zero_seq(npad as nat) + ds@.subrange(0, j as int),
            decreases ds.len() - j,
        {
            let c = ds[j];
            pad.push(c);
            proof {
                assert(zero_seq(npad as nat) + ds@.subrange(0, j + 1) =~= (zero_seq(npad as nat)
                    + ds@.subrange(0, j as int)).push(ds@[j as int]));
            }
            j = j + 1;
        }
        proof {
            assert(ds@.subrange(0, ds@.len() as int) =~= ds@);
            if npad == 0 {
                assert(zero_seq(0) + ds@ =~= ds@);
                assert(pad@ == dec_digits_padded(self));
            } else {
                assert(pad@ == dec_digits_padded(self));
            }
            assert(pad@.len() >= self.e + 1);
        }
        if self.e == 0 {
            crate::text::push_chars(&mut s, &pad);
            proof {
                assert(s@ == dec_text(self));
            }
            s
        } else {
            let int_len: usize = pad.len() - self.e as usize;
            let mut t: usize = 0;
            while t < int_len
                invariant
                    t <= int_len,
                    int_len <= pad@.len(),
                    s@ == sign + pad@.subrange(0, t as int),
                decreases int_len - t,
            {
                let c = pad[t];
                crate::text::push_char(&mut s, c);
                proof {
                    assert(sign + pad@.subrange(0, t + 1) =~= (sign + pad@.subrange(
                        0,
                        t as int,
                    )).push(pad@[t as int]));
                }
                t = t + 1;
            }
            crate::text::push_char(&mut s, '.');
            let mut u: usize = int_len;
            while u < pad.len()
                invariant
                    int_len <= u <= pad@.len(),
                    s@ == sign + pad@.subrange(0, int_len as int) + seq!['.'] + pad@.subrange(
                        int_len as int,
                        u as int,
                    ),
                decreases pad@.len() - u,
            {
                let c = pad[u];
                crate::text::push_char(&mut s, c);
                proof {
                    assert(sign + pad@.subrange(0, int_len as int) + seq!['.'] + pad@.subrange(
                        int_len as int,
                        u + 1,
                    ) =~= (sign + pad@.subrange(0, int_len as int) + seq!['.'] + pad@.subrange(
                        int_len as int,
                        u as int,
                    )).push(pad@[u as int]));
                }
                u = u + 1;
            }
            proof {
                assert(pad@.subrange(0, int_len as int) =~= pad@.take(pad@.len() - self.e));
                assert(pad@.subrange(int_len as int, pad@.len() as int) =~= pad@.skip(
                    pad@.len() - self.e,
                ));
                assert(s@ =~= dec_text(self));
            }
            s
        }
    }

    /// The decimal written by the digit characters `chars[a1..b1]` followed by
    /// `chars[a2..b2]`, where the second run lies behind the decimal point.
    /// Fails exactly when the digits' value leaves the mantissa range or the
    /// second run is longer than the scale field can count.
    pub fn from_digit_runs(chars: &Vec<char>, a1: usize, b1: usize, a2: usize, b2: usize) -> (r:
        Option<Decimal>)
        requires
            a1 <= b1 <= chars@.len(),
            a2 <= b2 <= chars@.len(),
            forall|i: int| a1 <= i < b1 ==> is_digit_char(#[trigger] chars@[i]),
            forall|i: int| a2 <= i < b2 ==> is_digit_char(#[trigger] chars@[i]),
        ensures
            r == spec_from_digits(
                chars@.subrange(a1 as int, b1 as int) + chars@.subrange(a2 as int, b2 as int),
                (b2 - a2) as nat,
            ),
            r is Some ==> r->0.wf() && !r->0.neg,
    {
        let ghost all = chars@.subrange(a1 as int, b1 as int) + chars@.subrange(
            a2 as int,
            b2 as int,
        );
        let mut acc: u128 = 0;
        let mut i: usize = a1;
        let mut overflow = false;
        while i < b1
            invariant
                a1 <= i <= b1 <= chars@.len(),
                a2 <= b2 <= chars@.len(),
                forall|k: int| a1 <= k < b1 ==> is_digit_char(#[trigger] chars@[k]),
                !overflow ==> acc == digits_val(chars@.subrange(a1 as int, i as int)),
                overflow ==> digits_val(chars@.subrange(a1 as int, i as int)) > u128::MAX,
            decreases b1 - i,
        {
            let c = chars[i];
            acc = accumulate_digit(acc, c, &mut overflow, Ghost(chars@.subrange(a1 as int, i as int)));
            proof {
                assert(chars@.subrange(a1 as int, i + 1) =~= chars@.subrange(
                    a1 as int,
                    i as int,
                ).push(chars@[i as int]));
            }
            i = i + 1;
        }
        let ghost run1 = chars@.subrange(a1 as int, b1 as int);
        let mut j: usize = a2;
        while j < b2
            invariant
                a2 <= j <= b2 <= chars@.len(),
                forall|k: int| a2 <= k < b2 ==> is_digit_char(#[trigger] chars@[k]),
                !overflow ==> acc == digits_val(run1 + chars@.subrange(a2 as int, j as int)),
                overflow ==> digits_val(run1 + chars@.subrange(a2 as int, j as int)) > u128::MAX,
            decreases b2 - j,
        {
            let c = chars[j];
            acc = accumulate_digit(
                acc,
                c,
                &mut overflow,
                Ghost(run1 + chars@.subrange(a2 as int, j as int)),
            );
            proof {
                assert(run1 + chars@.subrange(a2 as int, j + 1) =~= (run1 + chars@.subrange(
                    a2 as int,
                    j as int,
                )).push(chars@[j as int]));
            }
            j = j + 1;
        }
        proof {
            if i == b1 && a2 == b2 {
                assert(run1 + chars@.subrange(a2 as int, b2 as int) =~= all);
            }
            assert(run1 + chars@.subrange(a2 as int, b2 as int) =~= all);
        }
        if overflow {
            return None;
        }
        let frac_len: usize = b2 - a2;
        if frac_len > u32::MAX as usize {
            return None;
        }
        proof {
            lemma_canon_same(acc as int, frac_len as nat);
        }
        match canonicalize(false, acc, frac_len as u64) {
            Some(d) => Some(d),
            None => vstd::pervasive::unreached(),
        }
    }
}

/// One step of reading a digit run: scale the accumulator by ten and add the
/// next digit, recording an exact overflow flag.
fn accumulate_digit(acc: u128, c: char, overflow: &mut bool, Ghost(prefix): Ghost<Seq<char>>) -> (r:
    u128)
    requires
        is_digit_char(c),
        !*old(overflow) ==> acc == digits_val(prefix),
        *old(overflow) ==> digits_val(prefix) > u128::MAX,
    ensures
        !*final(overflow) ==> r == digits_val(prefix.push(c)),
        *final(overflow) ==> digits_val(prefix.push(c)) > u128::MAX,
{
    proof {
        assert(prefix.push(c).drop_last() =~= prefix);
        assert(prefix.push(c).last() == c);
        assert(digits_val(prefix.push(c)) == digits_val(prefix) * 10 + digit_val(c));
    }
    let d: u128 = char_digit_value(c);
    if *overflow {
        proof {
            assert(digits_val(prefix) * 10 >= digits_val(prefix)) by (nonlinear_arith);
        }
        return 0;
    }
    match acc.checked_mul(10) {
        Some(scaled) => {
            match scaled.checked_add(d) {
                Some(total) => total,
                None => {
                    *overflow = true;
                    0
                },
            }
        },
        None => {
            *overflow = true;
            proof {
                assert(digits_val(prefix) * 10 + digit_val(c) >= digits_val(prefix) * 10);
            }
            0
        },
    }
}

/// The numeric value of a digit character.
fn char_digit_value(c: char) -> (d: u128)
    requires
        is_digit_char(c),
    ensures
        d == digit_val(c),
        d < 10,
{
    (c as u32 - 48) as u128
}

} // verus!
