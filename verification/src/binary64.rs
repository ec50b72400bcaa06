//! Exact values of IEEE-754 binary64 numbers.
//!
//! Every finite binary64 number is `±mantissa · 2^exponent` with
//! `mantissa < 2^53` and `-1074 <= exponent <= 971`, so it is an integer
//! multiple of `2^-1074`. [`Real`] keeps that decomposition, and the
//! comparisons below decide `<`, `<=` and `==` exactly as IEEE-754 does:
//! `NaN` compares false with everything, `-0` equals `+0`, and the two
//! infinities bound every finite value.
use vstd::prelude::*;
use vstd::arithmetic::power2::{
    pow2,
    lemma_pow2_pos,
    lemma_pow2_adds,
    lemma_pow2_strictly_increases,
    lemma2_to64,
    lemma2_to64_rest,
};
use vstd::bits::{lemma_u64_shl_is_mul, lemma_u64_pow2_no_overflow};

verus! {

/// Exclusive upper bound of a binary64 mantissa: `2^53`.
pub const MANTISSA_LIMIT: u64 = 0x20_0000_0000_0000;

/// Exponent of the smallest subnormal binary64 number.
pub const MIN_EXPONENT: i32 = -1074;

/// Largest exponent that a binary64 number needs with a 53-bit mantissa.
pub const MAX_EXPONENT: i32 = 971;

/// A binary64 value, kept exactly.
#[derive(Clone, Copy, Debug)]
pub enum Real {
    NotANumber,
    NegativeInfinity,
    /// `(-1)^negative · mantissa · 2^exponent`
    Finite { negative: bool, mantissa: u64, exponent: i32 },
    PositiveInfinity,
}

/// `k · 2^1074`: the integer `k` counted in units of `2^-1074`.
pub open spec fn int_units(k: int) -> int {
    k * pow2(1074)
}

impl Real {
    /// The decomposition is one that a binary64 number can have.
    pub open spec fn wf(self) -> bool {
        match self {
            Real::Finite { negative, mantissa, exponent } => {
                &&& mantissa < MANTISSA_LIMIT
                &&& MIN_EXPONENT <= exponent <= MAX_EXPONENT
            },
            _ => true,
        }
    }

    pub open spec fn is_nan(self) -> bool {
        self is NotANumber
    }

    /// Magnitude of a finite value, in units of `2^-1074`.
    pub open spec fn magnitude_units(self) -> int {
        match self {
            Real::Finite { negative, mantissa, exponent } => mantissa * pow2(
                (exponent - MIN_EXPONENT) as nat,
            ),
            _ => 0,
        }
    }

    /// A finite value, in units of `2^-1074` (an integer).
    pub open spec fn units(self) -> int {
        match self {
            Real::Finite { negative, mantissa, exponent } => if negative {
                -self.magnitude_units()
            } else {
                self.magnitude_units()
            },
            _ => 0,
        }
    }

    /// `self <= other` as IEEE-754 decides it.
    pub open spec fn at_most(self, other: Real) -> bool {
        match (self, other) {
            (Real::NotANumber, _) => false,
            (_, Real::NotANumber) => false,
            (Real::NegativeInfinity, _) => true,
            (_, Real::PositiveInfinity) => true,
            (Real::PositiveInfinity, _) => false,
            (_, Real::NegativeInfinity) => false,
            _ => self.units() <= other.units(),
        }
    }

    /// `self < other` as IEEE-754 decides it.
    pub open spec fn below(self, other: Real) -> bool {
        self.at_most(other) && !other.at_most(self)
    }

    /// `self == other` as IEEE-754 decides it.
    pub open spec fn same_value(self, other: Real) -> bool {
        self.at_most(other) && other.at_most(self)
    }

    /// `self >= k` for an integer `k`.
    pub open spec fn at_least_int(self, k: int) -> bool {
        match self {
            Real::PositiveInfinity => true,
            Real::Finite { .. } => self.units() >= int_units(k),
            _ => false,
        }
    }

    /// `self < k` for an integer `k`.
    pub open spec fn below_int(self, k: int) -> bool {
        match self {
            Real::NegativeInfinity => true,
            Real::Finite { .. } => self.units() < int_units(k),
            _ => false,
        }
    }

    /// `self == k` for an integer `k`.
    pub open spec fn equals_int(self, k: int) -> bool {
        match self {
            Real::Finite { .. } => self.units() == int_units(k),
            _ => false,
        }
    }

    /// The absolute value: the sign is dropped, `NaN` stays `NaN`.
    pub open spec fn abs_spec(self) -> Real {
        match self {
            Real::Finite { negative, mantissa, exponent } => Real::Finite {
                negative: false,
                mantissa,
                exponent,
            },
            Real::NegativeInfinity => Real::PositiveInfinity,
            _ => self,
        }
    }

    /// The negation: the sign is flipped, `NaN` stays `NaN`.
    pub open spec fn negate_spec(self) -> Real {
        match self {
            Real::Finite { negative, mantissa, exponent } => Real::Finite {
                negative: !negative,
                mantissa,
                exponent,
            },
            Real::NegativeInfinity => Real::PositiveInfinity,
            Real::PositiveInfinity => Real::NegativeInfinity,
            _ => self,
        }
    }

    /// The number `k`.
    pub open spec fn from_nat_spec(k: int) -> Real {
        Real::Finite { negative: false, mantissa: k as u64, exponent: 0 }
    }

    /// The finite value `k`, for `0 <= k < 2^53`.
    pub fn from_nat(k: u64) -> (r: Real)
        requires
            k < MANTISSA_LIMIT,
        ensures
            r.wf(),
            r == (Real::Finite { negative: false, mantissa: k, exponent: 0 }),
            r.units() == int_units(k as int),
    {
        Real::Finite { negative: false, mantissa: k, exponent: 0 }
    }

    /// The absolute value.
    pub fn abs(&self) -> (r: Real)
        requires
            self.wf(),
        ensures
            r == self.abs_spec(),
            r.wf(),
    {
        match *self {
            Real::Finite { negative: _, mantissa, exponent } => Real::Finite {
                negative: false,
                mantissa,
                exponent,
            },
            Real::NegativeInfinity => Real::PositiveInfinity,
            other => other,
        }
    }

    /// Whether this is `NaN`.
    pub fn is_not_a_number(&self) -> (r: bool)
        ensures
            r == self.is_nan(),
    {
        match self {
            Real::NotANumber => true,
            _ => false,
        }
    }

    /// `self <= other`, decided exactly.
    pub fn le(&self, other: &Real) -> (r: bool)
        requires
            self.wf(),
            other.wf(),
        ensures
            r == self.at_most(*other),
    {
        match (*self, *other) {
            (Real::NotANumber, _) => false,
            (_, Real::NotANumber) => false,
            (Real::NegativeInfinity, _) => true,
            (_, Real::PositiveInfinity) => true,
            (Real::PositiveInfinity, _) => false,
            (_, Real::NegativeInfinity) => false,
            (
                Real::Finite { negative: n1, mantissa: m1, exponent: e1 },
                Real::Finite { negative: n2, mantissa: m2, exponent: e2 },
            ) => {
                proof {
                    lemma_pow2_pos((e1 - MIN_EXPONENT) as nat);
                    lemma_pow2_pos((e2 - MIN_EXPONENT) as nat);
                    assert(self.magnitude_units() >= 0) by (nonlinear_arith)
                        requires
                            self.magnitude_units() == m1 * pow2((e1 - MIN_EXPONENT) as nat),
                            pow2((e1 - MIN_EXPONENT) as nat) > 0,
                    ;
                    assert(other.magnitude_units() >= 0) by (nonlinear_arith)
                        requires
                            other.magnitude_units() == m2 * pow2((e2 - MIN_EXPONENT) as nat),
                            pow2((e2 - MIN_EXPONENT) as nat) > 0,
                    ;
                    lemma_zero_magnitude(m1, (e1 - MIN_EXPONENT) as nat);
                    lemma_zero_magnitude(m2, (e2 - MIN_EXPONENT) as nat);
                }
                if n1 && !n2 {
                    true
                } else if !n1 && n2 {
                    m1 == 0 && m2 == 0
                } else if !n1 {
                    magnitude_le(m1, e1, m2, e2)
                } else {
                    magnitude_le(m2, e2, m1, e1)
                }
            },
        }
    }

    /// `self < other`, decided exactly.
    pub fn lt(&self, other: &Real) -> (r: bool)
        requires
            self.wf(),
            other.wf(),
        ensures
            r == self.below(*other),
    {
        self.le(other) && !other.le(self)
    }

    /// `self == other`, decided exactly (`NaN` is equal to nothing).
    pub fn value_eq(&self, other: &Real) -> (r: bool)
        requires
            self.wf(),
            other.wf(),
        ensures
            r == self.same_value(*other),
    {
        self.le(other) && other.le(self)
    }
}

/// `2^52`: the implicit leading bit of a normal binary64 mantissa.
pub const HIDDEN_BIT: u64 = 0x10_0000_0000_0000;

/// `2^63`: the sign bit of a binary64 encoding.
pub const SIGN_BIT: u64 = 0x8000_0000_0000_0000;

/// The quiet `NaN` that [`Real::to_bits`] produces.
pub const CANONICAL_NAN_BITS: u64 = 0x7ff8_0000_0000_0000;

/// The value of a binary64 encoding (IEEE-754): bit 63 is the sign, bits
/// 52..62 the biased exponent, bits 0..51 the fraction. A biased exponent of
/// 2047 encodes an infinity (fraction 0) or a `NaN`; 0 encodes zero and the
/// subnormals `fraction · 2^-1074`; any other `e` encodes
/// `(2^52 + fraction) · 2^(e - 1075)`.
pub open spec fn decode(bits: u64) -> Real {
    let negative = bits >= SIGN_BIT;
    let biased = (bits / HIDDEN_BIT) % 2048;
    let fraction = bits % HIDDEN_BIT;
    if biased == 2047 {
        if fraction != 0 {
            Real::NotANumber
        } else if negative {
            Real::NegativeInfinity
        } else {
            Real::PositiveInfinity
        }
    } else if biased == 0 {
        Real::Finite { negative, mantissa: fraction, exponent: MIN_EXPONENT }
    } else {
        Real::Finite {
            negative,
            mantissa: (fraction + HIDDEN_BIT) as u64,
            exponent: (biased - 1075) as i32,
        }
    }
}

impl Real {
    /// The decomposition that [`decode`] gives: normal numbers have the
    /// leading mantissa bit set, subnormals and zeros the least exponent.
    pub open spec fn canonical(self) -> bool {
        match self {
            Real::Finite { negative, mantissa, exponent } => {
                ||| HIDDEN_BIT <= mantissa < MANTISSA_LIMIT && MIN_EXPONENT <= exponent
                    <= MAX_EXPONENT
                ||| mantissa < HIDDEN_BIT && exponent == MIN_EXPONENT
            },
            _ => true,
        }
    }

    /// The value of a binary64 encoding.
    pub fn from_bits(bits: u64) -> (r: Real)
        ensures
            r == decode(bits),
            r.wf(),
            r.canonical(),
    {
        let negative = bits >= SIGN_BIT;
        let biased = (bits / HIDDEN_BIT) % 2048;
        let fraction = bits % HIDDEN_BIT;
        if biased == 2047 {
            if fraction != 0 {
                Real::NotANumber
            } else if negative {
                Real::NegativeInfinity
            } else {
                Real::PositiveInfinity
            }
        } else if biased == 0 {
            Real::Finite { negative, mantissa: fraction, exponent: MIN_EXPONENT }
        } else {
            Real::Finite {
                negative,
                mantissa: fraction + HIDDEN_BIT,
                exponent: biased as i32 - 1075,
            }
        }
    }

    /// The binary64 encoding of a canonical value; every `NaN` is encoded as
    /// the quiet `NaN` `0x7ff8000000000000`.
    pub fn to_bits(&self) -> (bits: u64)
        requires
            self.wf(),
            self.canonical(),
        ensures
            decode(bits) == if self.is_nan() {
                Real::NotANumber
            } else {
                *self
            },
            self.is_nan() ==> bits == CANONICAL_NAN_BITS,
            !self.is_nan() ==> bits == encode_spec(*self),
    {
        match *self {
            Real::NotANumber => CANONICAL_NAN_BITS,
            Real::NegativeInfinity => SIGN_BIT + 2047 * HIDDEN_BIT,
            Real::PositiveInfinity => 2047 * HIDDEN_BIT,
            Real::Finite { negative, mantissa, exponent } => {
                let sign: u64 = if negative {
                    SIGN_BIT
                } else {
                    0
                };
                if mantissa < HIDDEN_BIT {
                    sign + mantissa
                } else {
                    let biased: u64 = (exponent + 1075) as u64;
                    sign + biased * HIDDEN_BIT + (mantissa - HIDDEN_BIT)
                }
            },
        }
    }
}

/// The value, in units of `2^-1074`, of a finite encoding with the sign bit
/// clear is strictly increasing in the encoding.
#[verifier::spinoff_prover]
proof fn lemma_finite_units_increase(a: u64, b: u64)
    requires
        a < b < 0x7ff0_0000_0000_0000,
    ensures
        decode(a) is Finite,
        decode(b) is Finite,
        decode(a).units() < decode(b).units(),
{
    let ea = (a / HIDDEN_BIT) as int;
    let eb = (b / HIDDEN_BIT) as int;
    let fa = (a % HIDDEN_BIT) as int;
    let fb = (b % HIDDEN_BIT) as int;
    assert(a == ea * HIDDEN_BIT + fa && b == eb * HIDDEN_BIT + fb);
    assert(ea < 2047 && eb < 2047);
    assert(ea % 2048 == ea && eb % 2048 == eb);
    assert(ea <= eb);
    lemma2_to64_rest();
    // the units of a finite encoding with biased exponent e and fraction f
    let ua = decode(a).units();
    let ub = decode(b).units();
    if ea == 0 {
        assert(ua == fa) by {
            assert(pow2(0) == 1) by {
                lemma2_to64();
            }
        }
    } else {
        assert(ua == (fa + HIDDEN_BIT) * pow2((ea - 1) as nat));
    }
    if eb == 0 {
        assert(ub == fb) by {
            assert(pow2(0) == 1) by {
                lemma2_to64();
            }
        }
    } else {
        assert(ub == (fb + HIDDEN_BIT) * pow2((eb - 1) as nat));
    }
    if ea == eb {
        assert(fa < fb);
        if ea > 0 {
            lemma_pow2_pos((ea - 1) as nat);
            lemma_scale_lt(fa + HIDDEN_BIT, fb + HIDDEN_BIT, pow2((ea - 1) as nat) as int);
        }
    } else {
        // ua < 2^52 · 2^ea <= 2^52 · 2^(eb - 1) <= ub
        let pa: int = if ea == 0 {
            1
        } else {
            2 * (pow2((ea - 1) as nat) as int)
        };
        assert(pa == pow2(ea as nat)) by {
            if ea == 0 {
                lemma2_to64();
            } else {
                vstd::arithmetic::power2::lemma_pow2_unfold(ea as nat);
            }
        }
        lemma_pow2_pos(ea as nat);
        assert(ua < HIDDEN_BIT * pa) by {
            if ea == 0 {
                assert(pa == 1);
                assert(ua == fa);
                assert(fa < HIDDEN_BIT);
            } else {
                let q = pow2((ea - 1) as nat) as int;
                lemma_pow2_pos((ea - 1) as nat);
                assert((fa + HIDDEN_BIT) * q < (2 * HIDDEN_BIT) * q) by (nonlinear_arith)
                    requires
                        fa + HIDDEN_BIT < 2 * HIDDEN_BIT,
                        q > 0,
                ;
            }
        }
        assert(eb >= 1);
        if ea < eb - 1 {
            lemma_pow2_strictly_increases(ea as nat, (eb - 1) as nat);
        }
        let pb = pow2((eb - 1) as nat) as int;
        assert(pa <= pb);
        assert(HIDDEN_BIT * pa <= (fb + HIDDEN_BIT) * pb) by (nonlinear_arith)
            requires
                pa <= pb,
                pa > 0,
                fb >= 0,
        ;
    }
}

/// `x · p < y · p` when `x < y` and `p > 0`.
proof fn lemma_scale_lt(x: int, y: int, p: int)
    requires
        x < y,
        p > 0,
    ensures
        x * p < y * p,
{
    assert(x * p < y * p) by (nonlinear_arith)
        requires
            x < y,
            p > 0,
    ;
}

/// Among encodings with the sign bit clear that are not `NaN` (zero, the
/// positive numbers and positive infinity), the order of the values is the
/// order of the bit patterns.
pub proof fn lemma_order_follows_encoding(a: u64, b: u64)
    requires
        a < SIGN_BIT,
        b < SIGN_BIT,
        !decode(a).is_nan(),
        !decode(b).is_nan(),
    ensures
        decode(a).at_most(decode(b)) == (a <= b),
{
    let inf: u64 = 0x7ff0_0000_0000_0000;
    assert(a <= inf && b <= inf) by {
        if a > inf {
            assert((a / HIDDEN_BIT) % 2048 == 2047);
        }
        if b > inf {
            assert((b / HIDDEN_BIT) % 2048 == 2047);
        }
    }
    if a < b && b < inf {
        lemma_finite_units_increase(a, b);
    } else if b < a && a < inf {
        lemma_finite_units_increase(b, a);
    }
}

/// The encoding `0x3ff0000000000000` is the number one.
pub proof fn lemma_encoding_of_one()
    ensures
        decode(0x3ff0_0000_0000_0000).same_value(Real::Finite { negative: false, mantissa: 1, exponent: 0 }),
{
    lemma2_to64_rest();
    lemma_pow2_adds(1022, 52);
    lemma_pow2_adds(1074, 0);
    lemma2_to64();
    let x = decode(0x3ff0_0000_0000_0000);
    assert(x == Real::Finite { negative: false, mantissa: HIDDEN_BIT, exponent: -52i32 });
    assert(x.units() == HIDDEN_BIT * pow2(1022));
    assert(pow2(1074) == pow2(1022) * HIDDEN_BIT);
}

/// Negation reverses the order.
pub proof fn lemma_negation_reverses_order(a: Real, b: Real)
    ensures
        a.at_most(b) == b.negate_spec().at_most(a.negate_spec()),
{
}

/// The absolute value is the value itself from zero up, and its negation below.
pub proof fn lemma_abs_value(x: Real)
    requires
        !x.is_nan(),
    ensures
        Real::from_nat_spec(0).at_most(x) ==> x.abs_spec().same_value(x),
        x.below(Real::from_nat_spec(0)) ==> x.abs_spec().same_value(x.negate_spec()),
        Real::from_nat_spec(0).at_most(x.abs_spec()),
{
    assert(Real::from_nat_spec(0).units() == 0) by {
        assert((0int as u64) == 0);
        assert(0 * pow2(1074) == 0);
    }
    match x {
        Real::Finite { negative, mantissa, exponent } => {
            let m = x.magnitude_units();
            lemma_pow2_pos((exponent - MIN_EXPONENT) as nat);
            assert(m >= 0) by (nonlinear_arith)
                requires
                    m == mantissa * pow2((exponent - MIN_EXPONENT) as nat),
                    pow2((exponent - MIN_EXPONENT) as nat) > 0,
            ;
            assert(x.abs_spec().units() == m);
            assert(x.negate_spec().units() == -x.units());
        },
        _ => {},
    }
}

/// Comparisons with an integer `k` are the IEEE comparisons with the number `k`.
pub proof fn lemma_integer_comparisons(x: Real, k: int)
    requires
        0 <= k < MANTISSA_LIMIT,
    ensures
        x.at_least_int(k) == Real::from_nat_spec(k).at_most(x),
        x.below_int(k) == x.below(Real::from_nat_spec(k)),
        x.equals_int(k) == x.same_value(Real::from_nat_spec(k)),
{
    assert(pow2(0) == 1) by {
        lemma2_to64();
    }
    lemma_pow2_adds(1074, 0);
}

/// Decoding then encoding gives back every encoding that is not a `NaN`.
pub proof fn lemma_encoding_round_trip(bits: u64)
    requires
        !decode(bits).is_nan(),
    ensures
        decode(bits).wf(),
        decode(bits).canonical(),
        encode_spec(decode(bits)) == bits,
{
}

/// The encoding of a canonical value that is not `NaN`.
pub open spec fn encode_spec(x: Real) -> u64 {
    match x {
        Real::NotANumber => CANONICAL_NAN_BITS,
        Real::NegativeInfinity => (SIGN_BIT + 2047 * HIDDEN_BIT) as u64,
        Real::PositiveInfinity => (2047 * HIDDEN_BIT) as u64,
        Real::Finite { negative, mantissa, exponent } => {
            let sign: int = if negative {
                SIGN_BIT as int
            } else {
                0
            };
            if mantissa < HIDDEN_BIT {
                (sign + mantissa) as u64
            } else {
                (sign + (exponent + 1075) * HIDDEN_BIT + (mantissa - HIDDEN_BIT)) as u64
            }
        },
    }
}

/// `<=` is transitive.
pub proof fn lemma_at_most_transitive(a: Real, b: Real, c: Real)
    requires
        a.at_most(b),
        b.at_most(c),
    ensures
        a.at_most(c),
{
}

/// `<=` is total on values that are not `NaN`, and reflexive there.
pub proof fn lemma_at_most_total(a: Real, b: Real)
    requires
        !a.is_nan(),
        !b.is_nan(),
    ensures
        a.at_most(b) || b.at_most(a),
        a.at_most(a),
{
}

/// `NaN` is not ordered with anything, itself included.
pub proof fn lemma_nan_unordered(a: Real, b: Real)
    requires
        a.is_nan(),
    ensures
        !a.at_most(b),
        !b.at_most(a),
{
}

proof fn lemma_zero_magnitude(m: u64, e: nat)
    ensures
        (m * pow2(e) == 0) == (m == 0),
{
    lemma_pow2_pos(e);
    assert((m * pow2(e) == 0) == (m == 0)) by (nonlinear_arith)
        requires
            pow2(e) > 0,
    ;
}

/// `x · p <= y · p` exactly when `x <= y`, for a positive `p`.
proof fn lemma_scale_le(x: int, y: int, p: int)
    requires
        p > 0,
    ensures
        (x * p <= y * p) == (x <= y),
{
    assert((x * p <= y * p) == (x <= y)) by (nonlinear_arith)
        requires
            p > 0,
    ;
}

/// Decides `m1 · 2^e1 <= m2 · 2^e2` for two binary64 magnitudes.
fn magnitude_le(m1: u64, e1: i32, m2: u64, e2: i32) -> (r: bool)
    requires
        m1 < MANTISSA_LIMIT,
        m2 < MANTISSA_LIMIT,
        MIN_EXPONENT <= e1 <= MAX_EXPONENT,
        MIN_EXPONENT <= e2 <= MAX_EXPONENT,
    ensures
        r == (m1 * pow2((e1 - MIN_EXPONENT) as nat) <= m2 * pow2((e2 - MIN_EXPONENT) as nat)),
{
    let ghost a: nat = (e1 - MIN_EXPONENT) as nat;
    let ghost b: nat = (e2 - MIN_EXPONENT) as nat;
    proof {
        lemma_pow2_pos(a);
        lemma_pow2_pos(b);
    }
    if e1 <= e2 {
        let d: u64 = (e2 - e1) as u64;
        proof {
            lemma_pow2_adds(a, d as nat);
            assert(b == a + d);
            lemma_pow2_pos(d as nat);
            // m2 · 2^b == (m2 · 2^d) · 2^a
            assert(m2 * pow2(b) == (m2 * pow2(d as nat)) * pow2(a)) by (nonlinear_arith)
                requires
                    pow2(b) == pow2(a) * pow2(d as nat),
            ;
            lemma_scale_le(m1 as int, m2 * pow2(d as nat), pow2(a) as int);
        }
        if m2 == 0 {
            return m1 == 0;
        }
        if d >= 53 {
            proof {
                lemma2_to64_rest();
                if d > 53 {
                    lemma_pow2_strictly_increases(53, d as nat);
                }
                assert(m2 * pow2(d as nat) >= pow2(d as nat)) by (nonlinear_arith)
                    requires
                        m2 >= 1,
                        pow2(d as nat) > 0,
                ;
            }
            return true;
        }
        proof {
            lemma_u64_pow2_no_overflow(d as nat);
            lemma_u64_shl_is_mul(1, d);
        }
        let p: u64 = 1u64 << d;
        let q: u64 = m1 / p;
        let rem: u64 = m1 % p;
        proof {
            lemma_quotient_le(m1 as int, m2 as int, p as int, q as int, rem as int);
        }
        q < m2 || (q == m2 && rem == 0)
    } else {
        let d: u64 = (e1 - e2) as u64;
        proof {
            lemma_pow2_adds(b, d as nat);
            assert(a == b + d);
            lemma_pow2_pos(d as nat);
            assert(m1 * pow2(a) == (m1 * pow2(d as nat)) * pow2(b)) by (nonlinear_arith)
                requires
                    pow2(a) == pow2(b) * pow2(d as nat),
            ;
            lemma_scale_le(m1 * pow2(d as nat), m2 as int, pow2(b) as int);
        }
        if m1 == 0 {
            return true;
        }
        if d >= 53 {
            proof {
                lemma2_to64_rest();
                if d > 53 {
                    lemma_pow2_strictly_increases(53, d as nat);
                }
                assert(m1 * pow2(d as nat) >= pow2(d as nat)) by (nonlinear_arith)
                    requires
                        m1 >= 1,
                        pow2(d as nat) > 0,
                ;
            }
            return false;
        }
        proof {
            lemma_u64_pow2_no_overflow(d as nat);
            lemma_u64_shl_is_mul(1, d);
        }
        let p: u64 = 1u64 << d;
        let q: u64 = m2 / p;
        let rem: u64 = m2 % p;
        proof {
            lemma_quotient_ge(m1 as int, m2 as int, p as int, q as int, rem as int);
        }
        m1 <= q
    }
}

/// With `x = q·p + r`, `0 <= r < p`: `x <= y·p` iff `q < y`, or `q == y` and `r == 0`.
proof fn lemma_quotient_le(x: int, y: int, p: int, q: int, r: int)
    requires
        p > 0,
        q == x / p,
        r == x % p,
        x >= 0,
        y >= 0,
    ensures
        (x <= y * p) == (q < y || (q == y && r == 0)),
{
    assert(x == q * p + r && 0 <= r < p) by (nonlinear_arith)
        requires
            p > 0,
            q == x / p,
            r == x % p,
    ;
    assert((x <= y * p) == (q < y || (q == y && r == 0))) by (nonlinear_arith)
        requires
            x == q * p + r,
            0 <= r < p,
            p > 0,
    ;
}

/// With `y = q·p + r`, `0 <= r < p`: `x·p <= y` iff `x <= q`.
proof fn lemma_quotient_ge(x: int, y: int, p: int, q: int, r: int)
    requires
        p > 0,
        q == y / p,
        r == y % p,
        x >= 0,
        y >= 0,
    ensures
        (x * p <= y) == (x <= q),
{
    assert(y == q * p + r && 0 <= r < p) by (nonlinear_arith)
        requires
            p > 0,
            q == y / p,
            r == y % p,
    ;
    assert((x * p <= y) == (x <= q)) by (nonlinear_arith)
        requires
            y == q * p + r,
            0 <= r < p,
            p > 0,
    ;
}

} // verus!
