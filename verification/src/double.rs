//! Double-precision numbers, held by their bit pattern.
//!
//! Every finite number is a multiple of 2^-1074, so its magnitude is a natural
//! number of such units. An operation returns the representable number that is
//! nearest to its exact result; of two equally near ones, that with the even
//! bit pattern.

use crate::text::Duplicate;
use vstd::arithmetic::div_mod::*;
use vstd::arithmetic::mul::*;
use vstd::arithmetic::power2::*;
use vstd::prelude::*;

verus! {

/// 2^52: the step of the exponent field.
pub const STEP: u64 = 0x10_0000_0000_0000;

/// 2^63: the sign.
pub const SIGN: u64 = 0x8000_0000_0000_0000;

/// The magnitude of infinity; what lies above it is not a number.
pub const INF: u64 = 0x7FF0_0000_0000_0000;

pub const NAN: u64 = 0x7FF8_0000_0000_0000;

#[derive(Clone, Copy, Debug)]
pub struct Double {
    pub bits: u64,
}

/// The number of units of 2^-1074 in the number of magnitude `m`. Infinity
/// stands where the next finite number would.
pub open spec fn units(m: nat) -> nat {
    let e = m / (STEP as nat);
    let f = m % (STEP as nat);
    if e == 0 {
        f
    } else {
        (f + STEP as nat) * pow2((e - 1) as nat)
    }
}

/// Whether `m` is the magnitude nearest to `n / d` units.
pub open spec fn rounds_to(n: nat, d: nat, m: nat) -> bool {
    &&& m <= INF
    &&& m < INF ==> {
        &&& 2 * n <= (units(m) + units(m + 1)) * d
        &&& 2 * n == (units(m) + units(m + 1)) * d ==> m % 2 == 0
    }
    &&& m > 0 ==> {
        &&& 2 * n >= (units((m - 1) as nat) + units(m)) * d
        &&& 2 * n == (units((m - 1) as nat) + units(m)) * d ==> m % 2 == 0
    }
}

/// The magnitude nearest to `n / d` units.
pub open spec fn nearest(n: nat, d: nat) -> nat {
    choose|m: nat| rounds_to(n, d, m)
}

/// One in units.
pub open spec fn one() -> nat {
    pow2(1074)
}

pub open spec fn signed(negative: bool, m: nat) -> Double {
    Double {
        bits: (if negative {
            SIGN + m
        } else {
            m as int
        }) as u64,
    }
}

impl Double {
    pub open spec fn negative(self) -> bool {
        self.bits >= SIGN
    }

    pub open spec fn mag(self) -> nat {
        (self.bits % SIGN) as nat
    }

    pub open spec fn nan(self) -> bool {
        self.mag() > INF
    }

    pub open spec fn infinite(self) -> bool {
        self.mag() == INF
    }

    pub open spec fn finite(self) -> bool {
        self.mag() < INF
    }

    pub open spec fn size(self) -> nat {
        units(self.mag())
    }

    /// The place of a number that is not NaN in the order of numbers; both
    /// zeros share one place.
    pub open spec fn place(self) -> int {
        if self.negative() {
            -(self.mag() as int)
        } else {
            self.mag() as int
        }
    }

    pub open spec fn less(self, other: Double) -> bool {
        !self.nan() && !other.nan() && self.place() < other.place()
    }

    pub open spec fn at_most(self, other: Double) -> bool {
        !self.nan() && !other.nan() && self.place() <= other.place()
    }
}

impl View for Double {
    type V = Double;

    open spec fn view(&self) -> Double {
        *self
    }
}

impl Duplicate for Double {
    fn duplicate(&self) -> (r: Double) {
        *self
    }
}

// ------------------------------------------------------------------ encoding

proof fn lemma_encoded(s: nat, e: nat)
    requires
        e == 0 || STEP <= s,
        s <= 2 * STEP,
    ensures
        units(s + e * (STEP as nat)) == s * pow2(e),
{
    let m = s + e * (STEP as nat);
    lemma_pow2_pos(e);
    if s < STEP {
        lemma_pow2(0);
        lemma2_to64();
        assert(m / (STEP as nat) == 0 && m % (STEP as nat) == m);
    } else if s < 2 * STEP {
        assert(m == (e + 1) * (STEP as nat) + (s - STEP)) by (nonlinear_arith)
            requires
                m == s + e * (STEP as nat),
                s >= STEP,
        ;
        lemma_fundamental_div_mod_converse(m as int, STEP as int, e as int + 1, s - STEP);
    } else {
        assert(m == (e + 2) * (STEP as nat) + 0) by (nonlinear_arith)
            requires
                m == s + e * (STEP as nat),
                s == 2 * STEP,
        ;
        lemma_fundamental_div_mod_converse(m as int, STEP as int, e as int + 2, 0);
        lemma_pow2_unfold(e + 1);
        assert((STEP as nat) * pow2(e + 1) == s * pow2(e)) by (nonlinear_arith)
            requires
                pow2(e + 1) == 2 * pow2(e),
                s == 2 * STEP,
        ;
    }
}

/// The significand and the exponent of a magnitude.
pub open spec fn significand(m: nat) -> nat {
    if m < STEP {
        m
    } else {
        m % (STEP as nat) + STEP as nat
    }
}

pub open spec fn exponent(m: nat) -> nat {
    if m < STEP {
        0
    } else {
        (m / (STEP as nat) - 1) as nat
    }
}

pub proof fn lemma_decoded(m: nat)
    ensures
        m == significand(m) + exponent(m) * (STEP as nat),
        significand(m) < 2 * STEP,
        exponent(m) == 0 || STEP <= significand(m),
        units(m) == significand(m) * pow2(exponent(m)),
{
    lemma_fundamental_div_mod(m as int, STEP as int);
    if m >= STEP {
        assert(m == significand(m) + exponent(m) * (STEP as nat)) by (nonlinear_arith)
            requires
                m == (STEP as int) * (m as int / STEP as int) + (m as int % STEP as int),
                m >= STEP,
                significand(m) == m % (STEP as nat) + STEP as nat,
                exponent(m) == (m / (STEP as nat) - 1) as nat,
        ;
    }
    lemma_encoded(significand(m), exponent(m));
}

pub proof fn lemma_units_next(m: nat)
    ensures
        units(m + 1) == units(m) + pow2(exponent(m)),
        units(m + 1) > units(m),
{
    lemma_decoded(m);
    lemma_encoded(significand(m) + 1, exponent(m));
    lemma_pow2_pos(exponent(m));
    assert((significand(m) + 1) * pow2(exponent(m)) == significand(m) * pow2(exponent(m)) + pow2(
        exponent(m),
    )) by (nonlinear_arith);
}

/// A larger magnitude stands for a larger number.
pub proof fn lemma_units_grow(a: nat, b: nat)
    requires
        a < b,
    ensures
        units(a) < units(b),
    decreases b,
{
    lemma_units_next((b - 1) as nat);
    if a < b - 1 {
        lemma_units_grow(a, (b - 1) as nat);
    }
}

/// At most one magnitude is nearest.
pub proof fn lemma_nearest_is(n: nat, d: nat, m: nat)
    requires
        d > 0,
        rounds_to(n, d, m),
    ensures
        nearest(n, d) == m,
        nearest(n, d) <= INF,
{
    let k = nearest(n, d);
    assert(rounds_to(n, d, k));
    if k < m {
        lemma_one_nearest(n, d, k, m);
    } else if m < k {
        lemma_one_nearest(n, d, m, k);
    }
}

proof fn lemma_one_nearest(n: nat, d: nat, a: nat, b: nat)
    requires
        d > 0,
        a <= b,
        rounds_to(n, d, a),
        rounds_to(n, d, b),
    ensures
        a == b,
{
    let lo = units(a) + units(a + 1);
    let hi = units((b - 1) as nat) + units(b);
    if a + 1 < b {
        lemma_units_grow(a, (b - 1) as nat);
        lemma_units_grow(a + 1, b);
        assert(lo * d < hi * d) by (nonlinear_arith)
            requires
                lo < hi,
                d > 0,
        ;
    }
}

/// Between two neighbours the nearer one is nearest.
proof fn lemma_pick(n: nat, d: nat, below: nat, m: nat)
    requires
        d > 0,
        units(below) * d <= n,
        below < INF ==> n < units(below + 1) * d,
        below >= INF ==> m == INF,
        below < INF ==> ({
            let middle = (units(below) + units(below + 1)) * d;
            if 2 * n < middle || (2 * n == middle && below % 2 == 0) {
                m == below
            } else {
                m == below + 1
            }
        }),
    ensures
        rounds_to(n, d, m),
{
    if below >= INF {
        if below > INF {
            lemma_units_grow(INF as nat, below);
        }
        lemma_units_grow((INF - 1) as nat, INF as nat);
        let lo = units((INF - 1) as nat);
        let hi = units(INF as nat);
        let u = units(below);
        assert((lo + hi) * d < 2 * n) by (nonlinear_arith)
            requires
                lo < hi,
                hi <= u,
                u * d <= n,
                d > 0,
        ;
    } else {
        let u0 = units(below);
        let u1 = units(below + 1);
        lemma_units_next(below);
        if m == below {
            if m > 0 {
                let u = units((m - 1) as nat);
                lemma_units_grow((m - 1) as nat, m);
                assert((u + u0) * d < 2 * n) by (nonlinear_arith)
                    requires
                        u < u0,
                        u0 * d <= n,
                        d > 0,
                ;
            }
        } else {
            if m < INF {
                let u2 = units(m + 1);
                lemma_units_next(m);
                assert((u1 + u2) * d > 2 * n) by (nonlinear_arith)
                    requires
                        u1 < u2,
                        n < u1 * d,
                        d > 0,
                ;
            }
            assert(units((m - 1) as nat) == u0);
        }
    }
}

// ------------------------------------------------------------------ rounding

/// `4 n / d` is `q` times 2^s; with `more`, it lies strictly above that and
/// below `q + 1` times 2^s.
pub open spec fn scaled(n: nat, d: nat, q: nat, s: nat, more: bool) -> bool {
    if more {
        q * pow2(s) * d < 4 * n && 4 * n < (q + 1) * pow2(s) * d
    } else {
        4 * n == q * pow2(s) * d
    }
}

/// `2^k`.
pub(crate) fn two_to(k: u32) -> (r: u128)
    requires
        k <= 127,
    ensures
        r == pow2(k as nat),
        r > 0,
{
    let mut r: u128 = 1;
    let mut i: u32 = 0;
    proof {
        lemma2_to64();
    }
    while i < k
        invariant
            i <= k <= 127,
            r == pow2(i as nat),
        decreases k - i,
    {
        proof {
            lemma_pow2_unfold((i + 1) as nat);
            if i + 1 < 127 {
                lemma_pow2_strictly_increases((i + 1) as nat, 127);
            }
            lemma_big_powers();
        }
        r = r * 2;
        i = i + 1;
    }
    proof {
        lemma_pow2_pos(k as nat);
    }
    r
}

pub proof fn lemma_big_powers()
    ensures
        pow2(127) == 0x8000_0000_0000_0000_0000_0000_0000_0000,
        pow2(52) == STEP,
        pow2(53) == 2 * STEP,
        pow2(63) == SIGN,
        pow2(64) == 0x1_0000_0000_0000_0000,
        pow2(2) == 4,
        pow2(1) == 2,
        pow2(0) == 1,
{
    lemma2_to64();
    lemma2_to64_rest();
    lemma_pow2_adds(63, 64);
    assert(pow2(63) * pow2(64) == 0x8000_0000_0000_0000_0000_0000_0000_0000) by (nonlinear_arith)
        requires
            pow2(63) == 0x8000_0000_0000_0000,
            pow2(64) == 0x1_0000_0000_0000_0000,
    ;
}

/// The number of binary digits of `q`.
fn bit_length(q: u128) -> (r: u32)
    ensures
        r <= 128,
        q < pow2(r as nat),
        r > 0 ==> pow2((r - 1) as nat) <= q,
        r == 0 <==> q == 0,
{
    let mut t: u128 = q;
    let mut l: u32 = 0;
    proof {
        lemma2_to64();
    }
    while t > 0
        invariant
            l <= 128,
            t * pow2(l as nat) <= q < (t + 1) * pow2(l as nat),
            l > 0 ==> pow2((l - 1) as nat) <= q,
            l == 0 ==> t == q,
        decreases t,
    {
        let ghost p = pow2(l as nat);
        let ghost t0 = t;
        proof {
            lemma_pow2_unfold((l + 1) as nat);
            lemma_pow2_pos(l as nat);
            if l >= 128 {
                lemma_big_powers();
                lemma_pow2_unfold(128);
                if l > 128 {
                    lemma_pow2_strictly_increases(128, l as nat);
                }
                assert(t * p >= p) by (nonlinear_arith)
                    requires
                        t > 0,
                        p > 0,
                ;
            }
            assert(p <= q) by (nonlinear_arith)
                requires
                    t > 0,
                    t * p <= q,
                    p > 0,
            ;
        }
        t = t / 2;
        proof {
            assert(t * (2 * p) <= t0 * p) by (nonlinear_arith)
                requires
                    2 * t <= t0,
            ;
            assert((t0 + 1) * p <= (t + 1) * (2 * p)) by (nonlinear_arith)
                requires
                    t0 + 1 <= 2 * (t + 1),
            ;
        }
        l = l + 1;
    }
    proof {
        assert((t + 1) * pow2(l as nat) == pow2(l as nat)) by (nonlinear_arith)
            requires
                t == 0,
        ;
        if l > 0 {
            lemma_pow2_pos((l - 1) as nat);
        }
    }
    l
}

/// The facts behind dropping the low `k` bits of `q`.
proof fn lemma_drop(n: nat, d: nat, q: nat, s: nat, more: bool, k: nat, e: nat, top: nat, rem: nat)
    requires
        d > 0,
        k >= 1,
        k + s == e + 2,
        q == top * pow2(k) + rem,
        rem < pow2(k),
        scaled(n, d, q, s, more),
    ensures
        top * pow2(e) * d <= n,
        n < (top + 1) * pow2(e) * d,
        rem < pow2((k - 1) as nat) ==> 2 * n < (top * pow2(e) + (top + 1) * pow2(e)) * d,
        rem == pow2((k - 1) as nat) && !more ==> 2 * n == (top * pow2(e) + (top + 1) * pow2(e)) * d,
        rem > pow2((k - 1) as nat) || (rem == pow2((k - 1) as nat) && more) ==> 2 * n > (top * pow2(
            e,
        ) + (top + 1) * pow2(e)) * d,
{
    let half = pow2((k - 1) as nat);
    let pk = pow2(k);
    let ps = pow2(s);
    let pe = pow2(e);
    lemma_pow2_unfold(k);
    assert(pk == 2 * half);
    lemma_pow2_adds(k, s);
    lemma_pow2_adds(2, e);
    lemma2_to64();
    assert(pk * ps == 4 * pe);
    lemma_pow2_pos(s);
    lemma_pow2_pos(e);
    let a = ps * d;
    assert(a > 0) by (nonlinear_arith)
        requires
            ps > 0,
            d > 0,
            a == ps * d,
    ;
    let y = pe * d;
    assert(pk * a == 4 * y) by (nonlinear_arith)
        requires
            pk * ps == 4 * pe,
            a == ps * d,
            y == pe * d,
    ;
    assert(half * a == 2 * y) by (nonlinear_arith)
        requires
            pk * a == 4 * y,
            pk == 2 * half,
    ;
    let x = top * y;
    assert(q * ps * d == 4 * x + rem * a) by (nonlinear_arith)
        requires
            q == top * pk + rem,
            a == ps * d,
            pk * a == 4 * y,
            x == top * y,
    ;
    assert((q + 1) * ps * d == 4 * x + rem * a + a) by (nonlinear_arith)
        requires
            q * ps * d == 4 * x + rem * a,
            a == ps * d,
    ;
    assert(top * pe * d == x) by (nonlinear_arith)
        requires
            x == top * y,
            y == pe * d,
    ;
    assert((top + 1) * pe * d == x + y) by (nonlinear_arith)
        requires
            x == top * y,
            y == pe * d,
    ;
    assert((top * pe + (top + 1) * pe) * d == 2 * x + y) by (nonlinear_arith)
        requires
            top * pe * d == x,
            (top + 1) * pe * d == x + y,
    ;
    assert(rem * a + a <= 4 * y) by (nonlinear_arith)
        requires
            rem + 1 <= pk,
            pk * a == 4 * y,
            a > 0,
    ;
    assert(rem * a >= 0) by (nonlinear_arith)
        requires
            rem >= 0,
            a > 0,
    ;
    if rem < half {
        assert(rem * a + a <= 2 * y) by (nonlinear_arith)
            requires
                rem + 1 <= half,
                half * a == 2 * y,
                a > 0,
        ;
    } else if rem > half {
        assert(rem * a >= 2 * y + a) by (nonlinear_arith)
            requires
                rem >= half + 1,
                half * a == 2 * y,
                a > 0,
        ;
    }
}

/// The facts behind shifting a short `q` to the left.
proof fn lemma_lift(n: nat, d: nat, q: nat, s: nat, k: nat, e: nat, top: nat)
    requires
        d > 0,
        s == e + 2 + k,
        top == q * pow2(k),
        scaled(n, d, q, s, false),
    ensures
        n == top * pow2(e) * d,
        n < (top + 1) * pow2(e) * d,
        2 * n < (top * pow2(e) + (top + 1) * pow2(e)) * d,
{
    let pe = pow2(e);
    let pk = pow2(k);
    lemma_pow2_adds(2, e);
    lemma_pow2_adds(e + 2, k);
    lemma2_to64();
    lemma_pow2_pos(e);
    assert(pow2(s) == 4 * pe * pk);
    assert(q * pow2(s) * d == 4 * (top * pe * d)) by (nonlinear_arith)
        requires
            pow2(s) == 4 * pe * pk,
            top == q * pk,
    ;
    assert((top + 1) * pe * d == top * pe * d + pe * d) by (nonlinear_arith);
    assert(pe * d > 0) by (nonlinear_arith)
        requires
            pe > 0,
            d > 0,
    ;
    assert((top * pe + (top + 1) * pe) * d == 2 * (top * pe * d) + pe * d) by (nonlinear_arith);
}

proof fn lemma_significand_bits(q: nat, k: nat, top: nat, rem: nat)
    requires
        pow2(k + 52) <= q < pow2(k + 53),
        q == top * pow2(k) + rem,
        rem < pow2(k),
    ensures
        STEP <= top < 2 * STEP,
{
    lemma_big_powers();
    lemma_pow2_adds(k, 52);
    lemma_pow2_adds(k, 53);
    lemma_pow2_pos(k);
    let p = pow2(k);
    if top < STEP {
        assert(q < p * (STEP as nat)) by (nonlinear_arith)
            requires
                q == top * p + rem,
                rem < p,
                top + 1 <= STEP,
        ;
    }
    if top >= 2 * STEP {
        assert(q >= p * (2 * STEP as nat)) by (nonlinear_arith)
            requires
                q == top * p + rem,
                top >= 2 * STEP,
        ;
    }
}

/// The magnitude nearest to every `n / d` that the scaled form describes.
#[verifier::spinoff_prover]
#[verifier::rlimit(60)]
fn round_scaled(q: u128, s: u32, more: bool) -> (m: u64)
    requires
        more ==> q >= 0x80_0000_0000_0000 || s == 0,
        s <= 100_000,
    ensures
        m <= INF,
        forall|n: nat, d: nat|
            d > 0 && #[trigger] scaled(n, d, q as nat, s as nat, more) ==> rounds_to(
                n,
                d,
                m as nat,
            ),
{
    if q == 0 {
        proof {
            lemma_units_next(0);
            lemma2_to64();
            assert forall|n: nat, d: nat|
                d > 0 && #[trigger] scaled(n, d, q as nat, s as nat, more) implies rounds_to(
                n,
                d,
                0,
            ) by {
                assert(0 * pow2(s as nat) * d == 0) by (nonlinear_arith);
                assert(units(0) == 0 && units(1) == 1);
                if more {
                    assert((0 + 1) * pow2(s as nat) * d == d) by (nonlinear_arith)
                        requires
                            pow2(s as nat) == 1,
                    ;
                }
                assert((units(0) + units(1)) * d == d) by (nonlinear_arith)
                    requires
                        units(0) + units(1) == 1,
                ;
            }
        }
        return 0;
    }
    let len = bit_length(q);
    proof {
        lemma_big_powers();
        lemma2_to64();
        lemma2_to64_rest();
        // more && s > 0 forces at least 56 digits
        if more && s > 0 && len < 56 {
            if len < 55 {
                lemma_pow2_strictly_increases(len as nat, 55);
            }
        }
    }
    let e: u32 = if len + s > 55 {
        len + s - 55
    } else {
        0
    };
    if e + 2 > s {
        // drop the low bits
        let k: u32 = e + 2 - s;
        let p = two_to(k);
        let top = q / p;
        let rem = q % p;
        let half = two_to(k - 1);
        proof {
            lemma_fundamental_div_mod(q as int, p as int);
            assert(q as nat == (top as nat) * pow2(k as nat) + rem as nat) by (nonlinear_arith)
                requires
                    q as int == (p as int) * (q as int / p as int) + (q as int % p as int),
                    top as int == q as int / p as int,
                    rem as int == q as int % p as int,
                    p == pow2(k as nat),
            ;
            if e > 0 {
                assert(len == k + 53);
                lemma_significand_bits(q as nat, k as nat, top as nat, rem as nat);
            } else {
                assert(k <= 2);
                assert(len + s <= 55);
                assert(q < 2 * STEP * p) by {
                    lemma_pow2_adds(k as nat, 53);
                    if len < k + 53 {
                        lemma_pow2_strictly_increases(len as nat, (k + 53) as nat);
                    }
                    assert(pow2(k as nat) * pow2(53) == 2 * STEP * p) by (nonlinear_arith)
                        requires
                            pow2(53) == 2 * STEP,
                            p == pow2(k as nat),
                    ;
                }
                assert(top < 2 * STEP) by (nonlinear_arith)
                    requires
                        q < 2 * STEP * p,
                        q >= top * p,
                        p > 0,
                ;
            }
        }
        let m = settle(top as u64, e, rem > half || (rem == half && more), rem == half && !more);
        proof {
            let below = (top as nat) + (e as nat) * (STEP as nat);
            lemma_encoded(top as nat, e as nat);
            lemma_encoded((top + 1) as nat, e as nat);
            assert forall|n: nat, d: nat|
                d > 0 && #[trigger] scaled(n, d, q as nat, s as nat, more) implies rounds_to(
                n,
                d,
                m as nat,
            ) by {
                lemma_drop(
                    n,
                    d,
                    q as nat,
                    s as nat,
                    more,
                    k as nat,
                    e as nat,
                    top as nat,
                    rem as nat,
                );
                lemma_pick(n, d, below, m as nat);
            }
        }
        m
    } else {
        let k: u32 = s - (e + 2);
        proof {
            assert(!more);
            if e > 0 {
                assert(len + k == 53);
            } else {
                assert(len + k <= 53);
            }
        }
        let p = two_to(k);
        proof {
            lemma_pow2_adds(len as nat, k as nat);
            if len + k < 53 {
                lemma_pow2_strictly_increases((len + k) as nat, 53);
            }
            lemma_pow2_pos(k as nat);
            assert(q * p < pow2(len as nat) * p) by (nonlinear_arith)
                requires
                    q < pow2(len as nat),
                    p > 0,
            ;
        }
        let top = q * p;
        proof {
            if e > 0 {
                lemma_pow2_adds((len - 1) as nat, k as nat);
                assert(q * p >= pow2((len - 1) as nat) * p) by (nonlinear_arith)
                    requires
                        q >= pow2((len - 1) as nat),
                ;
            }
        }
        let m = settle(top as u64, e, false, false);
        proof {
            let below = (top as nat) + (e as nat) * (STEP as nat);
            lemma_encoded(top as nat, e as nat);
            lemma_encoded((top + 1) as nat, e as nat);
            assert forall|n: nat, d: nat|
                d > 0 && #[trigger] scaled(n, d, q as nat, s as nat, more) implies rounds_to(
                n,
                d,
                m as nat,
            ) by {
                lemma_lift(n, d, q as nat, s as nat, k as nat, e as nat, top as nat);
                lemma_pick(n, d, below, m as nat);
            }
        }
        m
    }
}

/// The magnitude with significand `top` and exponent `e`, or the next one.
fn settle(top: u64, e: u32, up: bool, tie: bool) -> (m: u64)
    requires
        top < 2 * STEP,
        e == 0 || STEP <= top,
        e <= 200_000,
        !(up && tie),
    ensures
        m <= INF,
        ({
            let below = (top as nat) + (e as nat) * (STEP as nat);
            if below >= INF {
                m == INF
            } else if up || (tie && below % 2 != 0) {
                m == below + 1
            } else {
                m == below
            }
        }),
{
    if e >= 2046 {
        return INF;
    }
    let below: u64 = top + (e as u64) * STEP;
    if up || (tie && below % 2 != 0) {
        below + 1
    } else {
        below
    }
}

/// As `scaled`, with an exponent that may be negative.
pub open spec fn scaled_at(n: nat, d: nat, q: nat, s: int, more: bool) -> bool {
    if s >= 0 {
        scaled(n, d, q, s as nat, more)
    } else if more {
        q * d < 4 * n * pow2((-s) as nat) && 4 * n * pow2((-s) as nat) < (q + 1) * d
    } else {
        4 * n * pow2((-s) as nat) == q * d
    }
}

proof fn lemma_shifted(n: nat, d: nat, q: nat, s: int, more: bool, top: nat, rem: nat)
    requires
        d > 0,
        s < 0,
        q == top * pow2((-s) as nat) + rem,
        rem < pow2((-s) as nat),
        scaled_at(n, d, q, s, more),
    ensures
        scaled(n, d, top, 0, more || rem > 0),
{
    let p = pow2((-s) as nat);
    lemma2_to64();
    assert(top * pow2(0) * d == top * d) by (nonlinear_arith)
        requires
            pow2(0) == 1,
    ;
    assert((top + 1) * pow2(0) * d == (top + 1) * d) by (nonlinear_arith)
        requires
            pow2(0) == 1,
    ;
    assert(4 * n * p >= q * d);
    assert(q * d == top * d * p + rem * d) by (nonlinear_arith)
        requires
            q == top * p + rem,
    ;
    assert((q + 1) * d <= (top + 1) * d * p) by (nonlinear_arith)
        requires
            q == top * p + rem,
            rem + 1 <= p,
            d > 0,
    ;
    if more || rem > 0 {
        assert(top * d * p < 4 * n * p) by {
            if rem > 0 {
                assert(rem * d > 0) by (nonlinear_arith)
                    requires
                        rem > 0,
                        d > 0,
                ;
            } else {
                assert(rem * d == 0) by (nonlinear_arith)
                    requires
                        rem == 0,
                ;
            }
        }
        assert(q * d < (q + 1) * d) by (nonlinear_arith)
            requires
                d > 0,
        ;
        assert(4 * n * p < (top + 1) * d * p);
        assert(top * d < 4 * n) by (nonlinear_arith)
            requires
                top * d * p < 4 * n * p,
        ;
        assert(4 * n < (top + 1) * d) by (nonlinear_arith)
            requires
                4 * n * p < (top + 1) * d * p,
        ;
    } else {
        assert(rem * d == 0) by (nonlinear_arith)
            requires
                rem == 0,
        ;
        assert(4 * n == top * d) by (nonlinear_arith)
            requires
                4 * n * p == top * d * p,
                p > 0,
        ;
    }
}

pub(crate) fn round_at(q: u128, s: i64, more: bool) -> (m: u64)
    requires
        more && s > 0 ==> q >= 0x80_0000_0000_0000,
        -100_000 <= s <= 100_000,
    ensures
        m <= INF,
        forall|n: nat, d: nat|
            d > 0 && #[trigger] scaled_at(n, d, q as nat, s as int, more) ==> nearest(n, d) == m,
{
    if s >= 0 {
        let m = round_scaled(q, s as u32, more);
        proof {
            assert forall|n: nat, d: nat|
                d > 0 && #[trigger] scaled_at(n, d, q as nat, s as int, more) implies nearest(n, d)
                == m by {
                assert(scaled(n, d, q as nat, s as nat, more));
                lemma_nearest_is(n, d, m as nat);
            }
        }
        m
    } else {
        let t: u32 = (-s) as u32;
        let (top, rem): (u128, u128) = if t <= 127 {
            let p = two_to(t);
            (q / p, q % p)
        } else {
            (0, q)
        };
        proof {
            let p = pow2(t as nat);
            lemma_pow2_pos(t as nat);
            if t <= 127 {
                lemma_fundamental_div_mod(q as int, p as int);
                assert(q as nat == (top as nat) * p + rem as nat) by (nonlinear_arith)
                    requires
                        q as int == (p as int) * (q as int / p as int) + (q as int % p as int),
                        top as int == q as int / p as int,
                        rem as int == q as int % p as int,
                ;
            } else {
                lemma_big_powers();
                lemma_pow2_unfold(128);
                if t > 128 {
                    lemma_pow2_strictly_increases(128, t as nat);
                }
                assert(0 * p == 0) by (nonlinear_arith);
            }
        }
        let m = round_scaled(top, 0, more || rem > 0);
        proof {
            assert forall|n: nat, d: nat|
                d > 0 && #[trigger] scaled_at(n, d, q as nat, s as int, more) implies nearest(n, d)
                == m by {
                lemma_shifted(n, d, q as nat, s as int, more, top as nat, rem as nat);
                lemma_nearest_is(n, d, m as nat);
            }
        }
        m
    }
}

// ---------------------------------------------------------------- arithmetic

pub open spec fn zero() -> Double {
    Double { bits: 0 }
}

pub open spec fn not_a_number() -> Double {
    Double { bits: NAN }
}

pub open spec fn negated(a: Double) -> Double {
    signed(!a.negative(), a.mag())
}

/// The number nearest to a whole number.
pub open spec fn whole(n: nat) -> Double {
    signed(false, nearest(n * one(), 1))
}

pub open spec fn sum(a: Double, b: Double) -> Double {
    if a.nan() || b.nan() {
        not_a_number()
    } else if a.infinite() || b.infinite() {
        if a.infinite() && b.infinite() && a.negative() != b.negative() {
            not_a_number()
        } else if a.infinite() {
            a
        } else {
            b
        }
    } else if a.negative() == b.negative() {
        signed(a.negative(), nearest(a.size() + b.size(), 1))
    } else if a.size() == b.size() {
        zero()
    } else if a.size() > b.size() {
        signed(a.negative(), nearest((a.size() - b.size()) as nat, 1))
    } else {
        signed(b.negative(), nearest((b.size() - a.size()) as nat, 1))
    }
}

pub open spec fn difference(a: Double, b: Double) -> Double {
    sum(a, negated(b))
}

pub open spec fn product(a: Double, b: Double) -> Double {
    let negative = a.negative() != b.negative();
    if a.nan() || b.nan() {
        not_a_number()
    } else if a.infinite() || b.infinite() {
        if a.size() == 0 || b.size() == 0 {
            not_a_number()
        } else {
            signed(negative, INF as nat)
        }
    } else {
        signed(negative, nearest(a.size() * b.size(), one()))
    }
}

pub open spec fn quotient(a: Double, b: Double) -> Double {
    let negative = a.negative() != b.negative();
    if a.nan() || b.nan() || (a.infinite() && b.infinite()) || (a.size() == 0 && b.size() == 0) {
        not_a_number()
    } else if a.infinite() || b.size() == 0 {
        signed(negative, INF as nat)
    } else if b.infinite() {
        signed(negative, 0)
    } else {
        signed(negative, nearest(a.size() * one(), b.size()))
    }
}

/// The larger of two numbers; the other one where one is NaN.
pub open spec fn larger(a: Double, b: Double) -> Double {
    if a.nan() {
        b
    } else if b.nan() || b.at_most(a) {
        a
    } else {
        b
    }
}

pub open spec fn smaller(a: Double, b: Double) -> Double {
    if a.nan() {
        b
    } else if b.nan() || a.at_most(b) {
        a
    } else {
        b
    }
}

pub proof fn lemma_zero_size(m: nat)
    ensures
        units(m) == 0 <==> m == 0,
{
    if m > 0 {
        lemma_units_grow(0, m);
    }
}

pub(crate) fn significand_of(m: u64) -> (r: u64)
    ensures
        r == significand(m as nat),
{
    if m < STEP {
        m
    } else {
        m % STEP + STEP
    }
}

pub(crate) fn exponent_of(m: u64) -> (r: u32)
    requires
        m <= INF,
    ensures
        r == exponent(m as nat),
        r <= 2046,
{
    if m < STEP {
        0
    } else {
        (m / STEP - 1) as u32
    }
}

pub(crate) fn with_sign(negative: bool, m: u64) -> (r: Double)
    requires
        m < SIGN,
    ensures
        r == signed(negative, m as nat),
        r.negative() == negative,
        r.mag() == m,
{
    if negative {
        Double { bits: SIGN + m }
    } else {
        Double { bits: m }
    }
}

/// The magnitude nearest to a sum of magnitudes, the first not the smaller.
fn add_magnitudes(a: u64, b: u64) -> (m: u64)
    requires
        b <= a < INF,
    ensures
        m <= INF,
        m == nearest(units(a as nat) + units(b as nat), 1),
{
    let sa = significand_of(a);
    let sb = significand_of(b);
    let ea = exponent_of(a);
    let eb = exponent_of(b);
    proof {
        lemma_decoded(a as nat);
        lemma_decoded(b as nat);
        lemma_exponents_ordered(b as nat, a as nat);
    }
    let gap: u32 = ea - eb;
    let ghost n = units(a as nat) + units(b as nat);
    if gap <= 72 {
        let p = two_to(gap);
        proof {
            lemma_gap_bound(gap as nat, sa as nat, p as nat);
        }
        let q: u128 = (sa as u128) * p + sb as u128;
        proof {
            lemma_pow2_adds(eb as nat, gap as nat);
            lemma_pow2_adds(2, eb as nat);
            lemma2_to64();
            let pb = pow2(eb as nat);
            assert(4 * n == q * pow2((eb + 2) as nat) * 1) by (nonlinear_arith)
                requires
                    n == sa * pow2(ea as nat) + sb * pb,
                    pow2(ea as nat) == pb * p,
                    pow2((eb + 2) as nat) == 4 * pb,
                    q == sa * p + sb,
            ;
            assert(scaled_at(n, 1, q as nat, (eb + 2) as int, false));
        }
        round_at(q, (eb + 2) as i64, false)
    } else {
        let q: u128 = (sa as u128) * 0x1_0000;
        let more = sb > 0;
        proof {
            let s = (ea - 14) as nat;
            let pb = pow2(eb as nat);
            let ps = pow2(s);
            lemma_big_powers();
            lemma2_to64();
            lemma_pow2_adds(s, 16);
            lemma_pow2_adds(2, ea as nat);
            lemma_pow2_adds(s, 14);
            lemma_pow2_adds(55, eb as nat);
            lemma_pow2_adds(2, 53);
            lemma_pow2_strictly_increases((eb + 55) as nat, s);
            assert(4 * sb * pb < ps) by (nonlinear_arith)
                requires
                    sb < 2 * STEP,
                    pow2(53) == 2 * STEP,
                    pow2(55) == 4 * pow2(53),
                    pow2((eb + 55) as nat) == pow2(55) * pb,
                    pow2((eb + 55) as nat) < ps,
                    pb >= 0,
            ;
            assert(4 * (sa * pow2(ea as nat)) == q * ps) by (nonlinear_arith)
                requires
                    pow2((s + 16) as nat) == ps * 0x1_0000,
                    pow2((s + 16) as nat) == 4 * pow2(ea as nat),
                    q == sa * 0x1_0000,
            ;
            assert(4 * n == q * ps + 4 * sb * pb) by (nonlinear_arith)
                requires
                    n == sa * pow2(ea as nat) + sb * pb,
                    4 * (sa * pow2(ea as nat)) == q * ps,
            ;
            assert(q * ps * 1 == q * ps && (q + 1) * ps * 1 == q * ps + ps) by (nonlinear_arith);
            lemma_pow2_pos(eb as nat);
            if more {
                assert(4 * sb * pb > 0) by (nonlinear_arith)
                    requires
                        sb > 0,
                        pb > 0,
                ;
            } else {
                assert(4 * sb * pb == 0) by (nonlinear_arith)
                    requires
                        sb == 0,
                ;
            }
            assert(scaled_at(n, 1, q as nat, s as int, more));
        }
        round_at(q, ea as i64 - 14, more)
    }
}

proof fn lemma_exponents_ordered(a: nat, b: nat)
    requires
        a <= b,
    ensures
        exponent(a) <= exponent(b),
{
    if a >= STEP {
        lemma_div_is_ordered(a as int, b as int, STEP as int);
    }
}

proof fn lemma_gap_bound(gap: nat, sa: nat, p: nat)
    requires
        gap <= 72,
        sa < 2 * STEP,
        p == pow2(gap),
    ensures
        sa * p < 0x2000_0000_0000_0000_0000_0000_0000_0000,
        p <= 0x100_0000_0000_0000_0000,
{
    lemma_big_powers();
    lemma2_to64();
    lemma_pow2_adds(64, 8);
    if gap < 72 {
        lemma_pow2_strictly_increases(gap, 72);
    }
    assert(pow2(72) == 0x100_0000_0000_0000_0000) by (nonlinear_arith)
        requires
            pow2(72) == pow2(64) * pow2(8),
            pow2(64) == 0x1_0000_0000_0000_0000,
            pow2(8) == 0x100,
    ;
    assert(sa * p < 0x2000_0000_0000_0000_0000_0000_0000_0000) by (nonlinear_arith)
        requires
            sa < 2 * STEP,
            p <= 0x100_0000_0000_0000_0000,
    ;
}

/// The magnitude nearest to a difference of magnitudes.
fn subtract_magnitudes(a: u64, b: u64) -> (m: u64)
    requires
        b < a < INF,
    ensures
        m <= INF,
        units(b as nat) < units(a as nat),
        m == nearest((units(a as nat) - units(b as nat)) as nat, 1),
{
    let sa = significand_of(a);
    let sb = significand_of(b);
    let ea = exponent_of(a);
    let eb = exponent_of(b);
    proof {
        lemma_decoded(a as nat);
        lemma_decoded(b as nat);
        lemma_exponents_ordered(b as nat, a as nat);
        lemma_units_grow(b as nat, a as nat);
    }
    let gap: u32 = ea - eb;
    let ghost n = (units(a as nat) - units(b as nat)) as nat;
    if gap <= 72 {
        let p = two_to(gap);
        proof {
            lemma_gap_bound(gap as nat, sa as nat, p as nat);
            lemma_pow2_adds(eb as nat, gap as nat);
            lemma_pow2_pos(eb as nat);
            let pb = pow2(eb as nat);
            assert(sa * p >= sb) by (nonlinear_arith)
                requires
                    sa * pow2(ea as nat) > sb * pb,
                    pow2(ea as nat) == pb * p,
                    pb > 0,
            ;
        }
        let q: u128 = (sa as u128) * p - sb as u128;
        proof {
            lemma_pow2_adds(2, eb as nat);
            lemma2_to64();
            let pb = pow2(eb as nat);
            assert(4 * n == q * pow2((eb + 2) as nat) * 1) by (nonlinear_arith)
                requires
                    n == sa * pow2(ea as nat) - sb * pb,
                    pow2(ea as nat) == pb * p,
                    pow2((eb + 2) as nat) == 4 * pb,
                    q == sa * p - sb,
            ;
            assert(scaled_at(n, 1, q as nat, (eb + 2) as int, false));
        }
        round_at(q, (eb + 2) as i64, false)
    } else {
        let more = sb > 0;
        let q: u128 = if more {
            (sa as u128) * 0x1_0000 - 1
        } else {
            (sa as u128) * 0x1_0000
        };
        proof {
            let s = (ea - 14) as nat;
            let pb = pow2(eb as nat);
            let ps = pow2(s);
            lemma_big_powers();
            lemma2_to64();
            lemma_pow2_adds(s, 16);
            lemma_pow2_adds(2, ea as nat);
            lemma_pow2_adds(55, eb as nat);
            lemma_pow2_adds(2, 53);
            lemma_pow2_strictly_increases((eb + 55) as nat, s);
            assert(4 * sb * pb < ps) by (nonlinear_arith)
                requires
                    sb < 2 * STEP,
                    pow2(53) == 2 * STEP,
                    pow2(55) == 4 * pow2(53),
                    pow2((eb + 55) as nat) == pow2(55) * pb,
                    pow2((eb + 55) as nat) < ps,
                    pb >= 0,
            ;
            let q0 = sa * 0x1_0000;
            assert(4 * (sa * pow2(ea as nat)) == q0 * ps) by (nonlinear_arith)
                requires
                    pow2((s + 16) as nat) == ps * 0x1_0000,
                    pow2((s + 16) as nat) == 4 * pow2(ea as nat),
                    q0 == sa * 0x1_0000,
            ;
            assert(4 * n == q0 * ps - 4 * sb * pb) by (nonlinear_arith)
                requires
                    n == sa * pow2(ea as nat) - sb * pb,
                    4 * (sa * pow2(ea as nat)) == q0 * ps,
            ;
            lemma_pow2_pos(eb as nat);
            assert(q * ps * 1 == q * ps && (q + 1) * ps * 1 == q * ps + ps) by (nonlinear_arith);
            if more {
                assert(q * ps == q0 * ps - ps) by (nonlinear_arith)
                    requires
                        q == q0 - 1,
                ;
                assert(4 * sb * pb > 0) by (nonlinear_arith)
                    requires
                        sb > 0,
                        pb > 0,
                ;
            } else {
                assert(4 * sb * pb == 0) by (nonlinear_arith)
                    requires
                        sb == 0,
                ;
            }
            assert(scaled_at(n, 1, q as nat, s as int, more));
        }
        round_at(q, ea as i64 - 14, more)
    }
}

fn multiply_magnitudes(a: u64, b: u64) -> (m: u64)
    requires
        a < INF,
        b < INF,
    ensures
        m <= INF,
        m == nearest(units(a as nat) * units(b as nat), one()),
{
    let sa = significand_of(a);
    let sb = significand_of(b);
    let ea = exponent_of(a);
    let eb = exponent_of(b);
    proof {
        lemma_decoded(a as nat);
        lemma_decoded(b as nat);
        assert(sa * sb < 0x40_0000_0000_0000 * 0x40_0000_0000_0000) by (nonlinear_arith)
            requires
                sa < 2 * STEP,
                sb < 2 * STEP,
        ;
    }
    let q: u128 = (sa as u128) * (sb as u128);
    let s: i64 = ea as i64 + eb as i64 - 1072;
    proof {
        let n = units(a as nat) * units(b as nat);
        let pa = pow2(ea as nat);
        let pb = pow2(eb as nat);
        lemma_pow2_adds(ea as nat, eb as nat);
        lemma_pow2_adds(2, (ea + eb) as nat);
        lemma2_to64();
        assert(4 * n == q * pow2((ea + eb + 2) as nat)) by (nonlinear_arith)
            requires
                n == (sa * pa) * (sb * pb),
                q == sa * sb,
                pow2((ea + eb + 2) as nat) == 4 * (pa * pb),
        ;
        if s >= 0 {
            lemma_pow2_adds(s as nat, 1074);
            assert(q * pow2(s as nat) * one() == q * pow2((ea + eb + 2) as nat))
                by (nonlinear_arith)
                requires
                    pow2((ea + eb + 2) as nat) == pow2(s as nat) * one(),
            ;
        } else {
            lemma_pow2_adds((ea + eb + 2) as nat, (-s) as nat);
            assert(4 * n * pow2((-s) as nat) == q * one()) by (nonlinear_arith)
                requires
                    4 * n == q * pow2((ea + eb + 2) as nat),
                    one() == pow2((ea + eb + 2) as nat) * pow2((-s) as nat),
            ;
        }
        lemma_pow2_pos(1074);
        assert(scaled_at(n, one(), q as nat, s as int, false));
    }
    round_at(q, s, false)
}

#[verifier::spinoff_prover]
fn divide_magnitudes(a: u64, b: u64) -> (m: u64)
    requires
        a < INF,
        0 < b < INF,
    ensures
        m <= INF,
        m == nearest(units(a as nat) * one(), units(b as nat)),
{
    let sa = significand_of(a);
    let sb = significand_of(b);
    let ea = exponent_of(a);
    let eb = exponent_of(b);
    let ghost n = units(a as nat) * one();
    let ghost d = units(b as nat);
    proof {
        lemma_decoded(a as nat);
        lemma_decoded(b as nat);
        lemma_zero_size(a as nat);
        lemma_zero_size(b as nat);
        lemma_big_powers();
    }
    if a == 0 {
        proof {
            assert(scaled_at(n, d, 0, 0, false)) by {
                assert(0 * one() == 0) by (nonlinear_arith);
                assert(0 * pow2(0) * d == 0) by (nonlinear_arith);
            }
        }
        return round_at(0, 0, false);
    }
    let len = bit_length(sa as u128);
    proof {
        if len > 53 {
            if len > 54 {
                lemma_pow2_strictly_increases(53, (len - 1) as nat);
            }
        }
    }
    let z: u32 = 53 - len;
    let lift = two_to(z);
    proof {
        lemma_pow2_adds(len as nat, z as nat);
        lemma_pow2_adds((len - 1) as nat, z as nat);
        assert(sa * lift < pow2(len as nat) * lift) by (nonlinear_arith)
            requires
                sa < pow2(len as nat),
                lift > 0,
        ;
        assert(sa * lift >= pow2((len - 1) as nat) * lift) by (nonlinear_arith)
            requires
                sa >= pow2((len - 1) as nat),
        ;
    }
    let wide: u128 = (sa as u128) * lift;
    proof {
        assert(wide * 0x1_0000_0000_0000_0000 < 0x20_0000_0000_0000 * 0x1_0000_0000_0000_0000)
            by (nonlinear_arith)
            requires
                wide < 0x20_0000_0000_0000,
        ;
    }
    let num: u128 = wide * 0x1_0000_0000_0000_0000;
    let q: u128 = num / (sb as u128);
    let more = num % (sb as u128) > 0;
    let s: i64 = ea as i64 + 1012 - eb as i64 - z as i64;
    proof {
        lemma_fundamental_div_mod(num as int, sb as int);
        let r = num as int % sb as int;
        assert(q * sb + r == num) by (nonlinear_arith)
            requires
                num as int == (sb as int) * (num as int / sb as int) + (num as int % sb as int),
                q as int == num as int / sb as int,
                r == num as int % sb as int,
        ;
        assert(q >= 0x80_0000_0000_0000) by (nonlinear_arith)
            requires
                q * sb + r == num,
                r < sb,
                sb < 0x20_0000_0000_0000,
                num == wide * 0x1_0000_0000_0000_0000,
                wide >= 0x10_0000_0000_0000,
        ;
        let pa = pow2(ea as nat);
        let pb = pow2(eb as nat);
        lemma_pow2_adds(z as nat, 64);
        lemma_pow2_adds(2, 1074);
        lemma2_to64();
        // num == sa * 2^(z + 64)
        assert(num == sa * pow2((z + 64) as nat)) by (nonlinear_arith)
            requires
                num == wide * 0x1_0000_0000_0000_0000,
                wide == sa * lift,
                pow2((z + 64) as nat) == lift * pow2(64),
                pow2(64) == 0x1_0000_0000_0000_0000,
        ;
        lemma_pow2_adds(ea as nat, 1076);
        assert(4 * n == sa * pow2((ea + 1076) as nat)) by (nonlinear_arith)
            requires
                n == (sa * pa) * one(),
                pow2((ea + 1076) as nat) == pa * pow2(1076),
                pow2(1076) == 4 * one(),
        ;
        lemma_pow2_pos(eb as nat);
        if s >= 0 {
            let w = pow2((s + eb) as nat);
            lemma_pow2_adds(s as nat, eb as nat);
            lemma_pow2_adds((s + eb) as nat, (z + 64) as nat);
            lemma_pow2_pos((s + eb) as nat);
            assert(4 * n == num * w) by (nonlinear_arith)
                requires
                    4 * n == sa * pow2((ea + 1076) as nat),
                    pow2((ea + 1076) as nat) == w * pow2((z + 64) as nat),
                    num == sa * pow2((z + 64) as nat),
            ;
            assert(q * pow2(s as nat) * d == (q * sb) * w) by (nonlinear_arith)
                requires
                    w == pow2(s as nat) * pb,
                    d == sb * pb,
            ;
            assert((q + 1) * pow2(s as nat) * d == ((q + 1) * sb) * w) by (nonlinear_arith)
                requires
                    w == pow2(s as nat) * pb,
                    d == sb * pb,
            ;
            lemma_ratio(num as nat, q as nat, sb as nat, w, r);
        } else {
            lemma_pow2_adds((ea + 1076) as nat, (-s) as nat);
            lemma_pow2_adds(eb as nat, (z + 64) as nat);
            assert(4 * n * pow2((-s) as nat) == num * pb) by (nonlinear_arith)
                requires
                    4 * n == sa * pow2((ea + 1076) as nat),
                    pow2((ea + 1076) as nat) * pow2((-s) as nat) == pb * pow2((z + 64) as nat),
                    num == sa * pow2((z + 64) as nat),
            ;
            assert(q * d == (q * sb) * pb && (q + 1) * d == ((q + 1) * sb) * pb)
                by (nonlinear_arith)
                requires
                    d == sb * pb,
            ;
            lemma_ratio(num as nat, q as nat, sb as nat, pb, r);
        }
        assert(scaled_at(n, d, q as nat, s as int, more));
    }
    round_at(q, s, more)
}

/// A division with remainder, multiplied through.
proof fn lemma_ratio(num: nat, q: nat, sb: nat, w: nat, r: int)
    requires
        q * sb + r == num,
        0 <= r < sb,
        w > 0,
    ensures
        r > 0 ==> (q * sb) * w < num * w && num * w < ((q + 1) * sb) * w,
        r == 0 ==> num * w == (q * sb) * w,
{
    if r > 0 {
        assert((q * sb) * w < num * w) by (nonlinear_arith)
            requires
                q * sb < num,
                w > 0,
        ;
        assert((q + 1) * sb == q * sb + sb) by (nonlinear_arith);
        assert(num * w < ((q + 1) * sb) * w) by (nonlinear_arith)
            requires
                num < (q + 1) * sb,
                w > 0,
        ;
    }
}

impl Double {
    pub fn is_negative(self) -> (r: bool)
        ensures
            r == self.negative(),
    {
        self.bits >= SIGN
    }

    pub fn magnitude(self) -> (r: u64)
        ensures
            r == self.mag(),
            r < SIGN,
    {
        self.bits % SIGN
    }

    pub fn is_nan(self) -> (r: bool)
        ensures
            r == self.nan(),
    {
        self.magnitude() > INF
    }

    pub fn is_finite(self) -> (r: bool)
        ensures
            r == self.finite(),
    {
        self.magnitude() < INF
    }

    pub fn zero() -> (r: Double)
        ensures
            r == zero(),
    {
        Double { bits: 0 }
    }

    pub fn from_u64(n: u64) -> (r: Double)
        ensures
            r == whole(n as nat),
    {
        proof {
            let x = n as nat * one();
            lemma_pow2_adds(2, 1074);
            lemma2_to64();
            assert(4 * x == n * pow2(1076) * 1) by (nonlinear_arith)
                requires
                    x == n * one(),
                    pow2(1076) == 4 * one(),
            ;
            assert(scaled_at(x, 1, n as nat, 1076, false));
        }
        let m = round_at(n as u128, 1076, false);
        with_sign(false, m)
    }

    pub fn plus(self, other: Double) -> (r: Double)
        ensures
            r == sum(self, other),
    {
        let a = self.magnitude();
        let b = other.magnitude();
        if a > INF || b > INF {
            return Double { bits: NAN };
        }
        if a == INF || b == INF {
            return if a == INF && b == INF && self.is_negative() != other.is_negative() {
                Double { bits: NAN }
            } else if a == INF {
                self
            } else {
                other
            };
        }
        proof {
            if a < b {
                lemma_units_grow(a as nat, b as nat);
            } else if b < a {
                lemma_units_grow(b as nat, a as nat);
            }
        }
        if self.is_negative() == other.is_negative() {
            let m = if b <= a {
                add_magnitudes(a, b)
            } else {
                add_magnitudes(b, a)
            };
            with_sign(self.is_negative(), m)
        } else if a == b {
            Double { bits: 0 }
        } else if a > b {
            with_sign(self.is_negative(), subtract_magnitudes(a, b))
        } else {
            with_sign(other.is_negative(), subtract_magnitudes(b, a))
        }
    }

    pub fn minus(self, other: Double) -> (r: Double)
        ensures
            r == difference(self, other),
    {
        self.plus(with_sign(!other.is_negative(), other.magnitude()))
    }

    pub fn abs(self) -> (r: Double)
        ensures
            r == signed(false, self.mag()),
    {
        with_sign(false, self.magnitude())
    }

    pub fn times(self, other: Double) -> (r: Double)
        ensures
            r == product(self, other),
    {
        let a = self.magnitude();
        let b = other.magnitude();
        let negative = self.is_negative() != other.is_negative();
        proof {
            lemma_zero_size(a as nat);
            lemma_zero_size(b as nat);
        }
        if a > INF || b > INF {
            Double { bits: NAN }
        } else if a == INF || b == INF {
            if a == 0 || b == 0 {
                Double { bits: NAN }
            } else {
                with_sign(negative, INF)
            }
        } else {
            with_sign(negative, multiply_magnitudes(a, b))
        }
    }

    pub fn over(self, other: Double) -> (r: Double)
        ensures
            r == quotient(self, other),
    {
        let a = self.magnitude();
        let b = other.magnitude();
        let negative = self.is_negative() != other.is_negative();
        proof {
            lemma_zero_size(a as nat);
            lemma_zero_size(b as nat);
        }
        if a > INF || b > INF || (a == INF && b == INF) || (a == 0 && b == 0) {
            Double { bits: NAN }
        } else if a == INF || b == 0 {
            with_sign(negative, INF)
        } else if b == INF {
            with_sign(negative, 0)
        } else {
            with_sign(negative, divide_magnitudes(a, b))
        }
    }

    pub fn is_less(self, other: Double) -> (r: bool)
        ensures
            r == self.less(other),
    {
        let a = self.magnitude();
        let b = other.magnitude();
        if a > INF || b > INF {
            return false;
        }
        match (self.is_negative(), other.is_negative()) {
            (false, false) => a < b,
            (true, true) => b < a,
            (true, false) => a > 0 || b > 0,
            (false, true) => false,
        }
    }

    pub fn is_at_most(self, other: Double) -> (r: bool)
        ensures
            r == self.at_most(other),
    {
        !self.is_nan() && !other.is_nan() && !other.is_less(self)
    }

    pub fn max(self, other: Double) -> (r: Double)
        ensures
            r == larger(self, other),
    {
        if self.is_nan() {
            other
        } else if other.is_nan() || other.is_at_most(self) {
            self
        } else {
            other
        }
    }

    pub fn min(self, other: Double) -> (r: Double)
        ensures
            r == smaller(self, other),
    {
        if self.is_nan() {
            other
        } else if other.is_nan() || self.is_at_most(other) {
            self
        } else {
            other
        }
    }
}

/// The place of a number in the order of all bit patterns: by sign, then by
/// magnitude.
pub open spec fn rank(a: Double) -> int {
    if a.negative() {
        -1 - a.mag()
    } else {
        a.mag() as int
    }
}

pub fn ranks_before(a: Double, b: Double) -> (r: bool)
    ensures
        r == (rank(a) < rank(b)),
{
    match (a.is_negative(), b.is_negative()) {
        (false, false) => a.magnitude() < b.magnitude(),
        (true, true) => b.magnitude() < a.magnitude(),
        (true, false) => true,
        (false, true) => false,
    }
}

/// Numbers that compare equal: both zeros do.
pub open spec fn alike(a: Double, b: Double) -> bool {
    a.at_most(b) && b.at_most(a)
}

pub fn are_alike(a: Double, b: Double) -> (r: bool)
    ensures
        r == alike(a, b),
{
    a.is_at_most(b) && b.is_at_most(a)
}

/// Whether no magnitude above `m` is nearer to `n / d` units.
spec fn reaches(n: nat, d: nat, m: nat) -> bool {
    let middle = (units(m) + units(m + 1)) * d;
    m >= INF || 2 * n < middle || (2 * n == middle && m % 2 == 0)
}

proof fn lemma_nearest_from(n: nat, d: nat, k: nat)
    requires
        d > 0,
        k <= INF,
        k > 0 ==> !reaches(n, d, (k - 1) as nat),
    ensures
        rounds_to(n, d, nearest(n, d)),
    decreases INF - k,
{
    if reaches(n, d, k) {
        if k > 0 {
            let j = (k - 1) as nat;
            assert((units(j) + units(j + 1)) * d == (units(j) + units(k)) * d);
        }
        assert(rounds_to(n, d, k));
    } else {
        lemma_nearest_from(n, d, k + 1);
    }
}

/// Every quotient has a nearest number.
pub proof fn law_every_quotient_rounds(n: nat, d: nat)
    requires
        d > 0,
    ensures
        rounds_to(n, d, nearest(n, d)),
        nearest(n, d) <= INF,
{
    lemma_nearest_from(n, d, 0);
}

/// Rounding keeps the order of quotients.
pub proof fn law_rounding_is_monotonic(n1: nat, d1: nat, n2: nat, d2: nat)
    requires
        d1 > 0,
        d2 > 0,
        n1 * d2 <= n2 * d1,
    ensures
        nearest(n1, d1) <= nearest(n2, d2),
{
    law_every_quotient_rounds(n1, d1);
    law_every_quotient_rounds(n2, d2);
    let a = nearest(n1, d1);
    let b = nearest(n2, d2);
    if a > b {
        let j = (a - 1) as nat;
        let low = units(j) + units(a);
        let high = units(b) + units(b + 1);
        if j > b {
            lemma_units_grow(b, j);
        }
        if a > b + 1 {
            lemma_units_grow(b + 1, a);
        }
        assert(low >= high);
        assert(2 * n1 >= low * d1);
        assert(2 * n2 <= high * d2);
        // low * d1 * d2 <= 2 * n1 * d2 <= 2 * n2 * d1 <= high * d2 * d1
        assert(low == high && 2 * n1 == low * d1 && 2 * n2 == high * d2) by (nonlinear_arith)
            requires
                2 * n1 >= low * d1,
                2 * n2 <= high * d2,
                n1 * d2 <= n2 * d1,
                low >= high,
                d1 > 0,
                d2 > 0,
        ;
        if j > b {
            assert(units(b + 1) <= units(j)) by {
                if j > b + 1 {
                    lemma_units_grow(b + 1, j);
                }
            }
            lemma_units_grow(j, a);
            lemma_units_next(b);
            assert(false);
        }
    }
}

/// Whole numbers keep their order, and none is NaN.
pub proof fn law_whole_numbers_are_ordered(a: nat, b: nat)
    requires
        a <= b,
    ensures
        whole(a).at_most(whole(b)),
        !whole(a).nan(),
{
    lemma_pow2_pos(1074);
    law_every_quotient_rounds(a * one(), 1);
    law_every_quotient_rounds(b * one(), 1);
    assert((a * one()) * 1 <= (b * one()) * 1) by (nonlinear_arith)
        requires
            a <= b,
    ;
    law_rounding_is_monotonic(a * one(), 1, b * one(), 1);
}

/// The order of numbers that are not negative is that of their values.
pub proof fn law_order_is_by_value(a: Double, b: Double)
    requires
        a.finite(),
        b.finite(),
        !a.negative(),
        !b.negative(),
    ensures
        a.less(b) <==> a.size() < b.size(),
{
    if a.mag() < b.mag() {
        lemma_units_grow(a.mag(), b.mag());
    } else if b.mag() < a.mag() {
        lemma_units_grow(b.mag(), a.mag());
    }
}

/// Sums and products do not depend on the order of two numbers, and a finite number
/// taken from itself leaves nothing.
pub proof fn law_two_numbers_may_change_places(a: Double, b: Double)
    ensures
        sum(a, b) == sum(b, a),
        product(a, b) == product(b, a),
        a.finite() ==> difference(a, a) == zero(),
{
    assert(a.size() * b.size() == b.size() * a.size()) by (nonlinear_arith);
    if a.infinite() && b.infinite() && a.negative() == b.negative() {
        assert(a.bits == b.bits);
    }
}

/// The larger of two numbers is one of them, and neither is above it.
pub proof fn law_the_larger_is_not_below(a: Double, b: Double)
    requires
        !a.nan(),
        !b.nan(),
    ensures
        larger(a, b) == a || larger(a, b) == b,
        a.at_most(larger(a, b)) && b.at_most(larger(a, b)),
        smaller(a, b) == a || smaller(a, b) == b,
        smaller(a, b).at_most(a) && smaller(a, b).at_most(b),
{
}

} // verus!
