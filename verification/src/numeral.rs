//! Numbers as text: fixed-point notation, and the reading of decimal numerals.

use crate::digits::{
    are_digits, has_nonzero, lemma_lead, lemma_split, lemma_split_one, lemma_ten_adds,
    lemma_ten_grows, of_u64, small_worth, ten, times, to_text, trimmed, worth,
};
use crate::double::{
    exponent_of, lemma_big_powers, lemma_decoded, lemma_nearest_is, lemma_units_grow, nearest, one,
    quotient, round_at, rounds_to, scaled_at, signed, significand_of, sum, two_to, units, whole,
    with_sign, Double, INF, NAN, STEP,
};
use crate::text::{chars_of, decimal, digit_char, digit_text, digits_value, is_digit, u64_text};
use vstd::arithmetic::div_mod::*;
use vstd::arithmetic::power2::*;
use vstd::prelude::*;

verus! {

// ------------------------------------------------------------------- writing

/// The whole number nearest to `n / d`; of two equally near ones, the even.
pub open spec fn half_even(n: nat, d: nat) -> nat {
    let q = n / d;
    let r = n % d;
    if 2 * r > d || (2 * r == d && q % 2 == 1) {
        q + 1
    } else {
        q
    }
}

/// The last `width` digits of a number.
pub open spec fn padded(n: nat, width: nat) -> Seq<char>
    decreases width,
{
    if width == 0 {
        Seq::empty()
    } else {
        padded(n / 10, (width - 1) as nat).push(digit_char(n % 10))
    }
}

/// A whole number with a point before its last digits.
pub open spec fn pointed(v: nat, places: nat) -> Seq<char> {
    let whole = decimal(v / ten(places));
    if places == 0 {
        whole
    } else {
        whole.push('.') + padded(v % ten(places), places)
    }
}

/// A number in fixed-point notation, rounded to a number of places.
pub open spec fn fixed(x: Double, places: nat) -> Seq<char> {
    let sign: Seq<char> = if x.negative() {
        seq!['-']
    } else {
        Seq::empty()
    };
    if x.nan() {
        "NaN"@
    } else if x.infinite() {
        sign + "inf"@
    } else {
        sign + pointed(half_even(x.size() * ten(places), one()), places)
    }
}

proof fn lemma_half_even_scales(n: nat, d: nat, c: nat)
    requires
        d > 0,
        c > 0,
    ensures
        half_even(n * c, d * c) == half_even(n, d),
{
    let q = n / d;
    let r = n % d;
    lemma_fundamental_div_mod(n as int, d as int);
    assert(n * c == q * (d * c) + r * c && 0 <= r * c && r * c < d * c) by (nonlinear_arith)
        requires
            n == d * q + r,
            0 <= r,
            r < d,
            c > 0,
    ;
    lemma_fundamental_div_mod_converse(
        (n * c) as int,
        (d * c) as int,
        q as int,
        (r * c) as int,
    );
    assert(2 * r > d <==> 2 * (r * c) > d * c) by (nonlinear_arith)
        requires
            c > 0,
    ;
    assert(2 * r == d <==> 2 * (r * c) == d * c) by (nonlinear_arith)
        requires
            c > 0,
    ;
}

proof fn lemma_half_even_exact(n: nat, d: nat)
    requires
        d > 0,
    ensures
        half_even(n * d, d) == n,
{
    lemma_fundamental_div_mod_converse((n * d) as int, d as int, n as int, 0);
}

fn padded_text(n: u64, width: u32) -> (r: String)
    ensures
        r@ == padded(n as nat, width as nat),
    decreases width,
{
    if width == 0 {
        String::new()
    } else {
        let mut r = padded_text(n / 10, width - 1);
        r.push(digit_text((n % 10) as u8));
        r
    }
}

fn ten_to(k: u32) -> (r: u64)
    requires
        k <= 9,
    ensures
        r == ten(k as nat),
        0 < r <= 1_000_000_000,
{
    let mut r: u64 = 1;
    let mut i: u32 = 0;
    while i < k
        invariant
            i <= k <= 9,
            r == ten(i as nat),
            r <= 1_000_000_000,
        decreases k - i,
    {
        proof {
            lemma_ten_grows(i as nat + 1, 9);
            assert(ten(9) == 1_000_000_000) by {
                reveal_with_fuel(ten, 10);
            }
        }
        r = r * 10;
        i = i + 1;
    }
    proof {
        lemma_ten_adds(k as nat, 0);
    }
    r
}

/// `sig * 2^k` in decimal notation.
fn shifted_text(sig: u64, k: u32) -> (r: String)
    requires
        sig > 0,
    ensures
        r@ == decimal((sig * pow2(k as nat)) as nat),
{
    let mut v = of_u64(sig);
    let mut i: u32 = 0;
    proof {
        lemma2_to64();
        assert(v@.len() > 0);
    }
    while i < k
        invariant
            i <= k,
            trimmed(v@),
            v@.len() > 0,
            worth(v@) == sig * pow2(i as nat),
        decreases k - i,
    {
        proof {
            lemma_pow2_unfold((i + 1) as nat);
            assert((sig * pow2(i as nat)) * 2 == sig * pow2((i + 1) as nat)) by (nonlinear_arith)
                requires
                    pow2((i + 1) as nat) == 2 * pow2(i as nat),
            ;
        }
        v = times(&v, 2);
        i = i + 1;
    }
    to_text(&v)
}

/// The nearest whole number of the given parts of one.
fn rounded_parts(sig: u64, t: u32, parts: u64) -> (r: u128)
    requires
        sig < 0x20_0000_0000_0000,
        0 < parts <= 1_000_000_000,
    ensures
        r == half_even((sig * parts) as nat, pow2(t as nat)),
        r <= sig * parts + 1,
{
    proof {
        assert(sig * parts < 0x20_0000_0000_0000 * 0x4000_0000) by (nonlinear_arith)
            requires
                sig < 0x20_0000_0000_0000,
                0 < parts <= 1_000_000_000,
        ;
        lemma_pow2_pos(t as nat);
    }
    let n: u128 = (sig as u128) * (parts as u128);
    if t > 100 {
        proof {
            lemma_big_powers();
            lemma_pow2_adds(64, 36);
            lemma2_to64_rest();
            if t > 100 {
                lemma_pow2_strictly_increases(100, t as nat);
            }
            assert(pow2(100) >= 0x1_0000_0000_0000_0000 * 0x10_0000_0000) by (nonlinear_arith)
                requires
                    pow2(100) == pow2(64) * pow2(36),
                    pow2(64) == 0x1_0000_0000_0000_0000,
                    pow2(36) == 0x10_0000_0000,
            ;
            lemma_basic_div(n as int, pow2(t as nat) as int);
            lemma_small_mod(n as nat, pow2(t as nat));
        }
        return 0;
    }
    let p = two_to(t);
    proof {
        lemma_big_powers();
        lemma_pow2_strictly_increases(t as nat, 127);
        lemma_div_is_ordered_by_denominator(n as int, 1, p as int);
    }
    let q = n / p;
    let r = n % p;
    let half = p / 2;
    proof {
        if t > 0 {
            lemma_pow2_unfold(t as nat);
            assert(p == 2 * half);
        } else {
            lemma2_to64();
        }
    }
    if r > half || (t > 0 && r == half && q % 2 == 1) {
        q + 1
    } else {
        q
    }
}

/// Fixed-point notation with at most nine places.
pub fn fixed_text(x: Double, places: u32) -> (r: String)
    requires
        places <= 9,
    ensures
        r@ == fixed(x, places as nat),
{
    if x.is_nan() {
        return String::from_str("NaN");
    }
    let mut out = String::new();
    if x.is_negative() {
        out.push('-');
    }
    let ghost sign = out@;
    if !x.is_finite() {
        out.append("inf");
        return out;
    }
    let m = x.magnitude();
    let sig = significand_of(m);
    let e = exponent_of(m);
    let parts = ten_to(places);
    proof {
        lemma_decoded(m as nat);
        lemma_pow2_pos(1074);
        lemma_pow2_pos(e as nat);
    }
    let ghost v = half_even(x.size() * ten(places as nat), one());
    let ghost T = ten(places as nat);
    if e >= 1074 {
        let k: u32 = e - 1074;
        let whole = shifted_text(sig, k);
        proof {
            lemma_pow2_adds(k as nat, 1074);
            let w = (sig * pow2(k as nat)) as nat;
            assert(x.size() * T == (w * T) * one()) by (nonlinear_arith)
                requires
                    x.size() == sig * pow2(e as nat),
                    pow2(e as nat) == pow2(k as nat) * one(),
                    w == sig * pow2(k as nat),
            ;
            lemma_half_even_exact(w * T, one());
            lemma_fundamental_div_mod_converse((w * T) as int, T as int, w as int, 0);
            assert(v / T == w && v % T == 0);
        }
        out.append(whole.as_str());
        if places > 0 {
            out.push('.');
            let frac = padded_text(0, places);
            out.append(frac.as_str());
        }
        proof {
            assert(out@ =~= sign + pointed(v, places as nat));
        }
    } else {
        let t: u32 = 1074 - e;
        let u = rounded_parts(sig, t, parts);
        proof {
            lemma_pow2_adds(t as nat, e as nat);
            let pe = pow2(e as nat);
            assert(x.size() * T == (sig * parts) * pe) by (nonlinear_arith)
                requires
                    x.size() == sig * pe,
                    parts == T,
            ;
            lemma_pow2_pos(t as nat);
            lemma_half_even_scales((sig * parts) as nat, pow2(t as nat), pe);
            assert(v == u);
            assert(u / parts as u128 <= sig + 1) by (nonlinear_arith)
                requires
                    u <= sig * parts + 1,
                    parts > 0,
            ;
        }
        let whole = u64_text((u / parts as u128) as u64);
        out.append(whole.as_str());
        if places > 0 {
            out.push('.');
            let frac = padded_text((u % parts as u128) as u64, places);
            out.append(frac.as_str());
        }
        proof {
            assert(out@ =~= sign + pointed(v, places as nat));
        }
    }
    out
}

// ------------------------------------------------------------------- reading

/// The magnitude nearest to `n * 10^scale`.
#[verifier::opaque]
pub open spec fn of_decimal(n: nat, scale: int) -> nat {
    if scale >= 0 {
        nearest(n * ten(scale as nat) * one(), 1)
    } else {
        nearest(n * one(), ten((-scale) as nat))
    }
}

/// The number of digits that a text starts with.
pub open spec fn leading_digits(s: Seq<char>) -> nat
    decreases s.len(),
{
    if s.len() == 0 || !is_digit(s[0]) {
        0
    } else {
        1 + leading_digits(s.skip(1))
    }
}

/// The number after the mark of a power of ten.
pub open spec fn power(s: Seq<char>) -> Option<int> {
    let negative = s.len() > 0 && s[0] == '-';
    let d = if s.len() > 0 && (s[0] == '-' || s[0] == '+') {
        s.skip(1)
    } else {
        s
    };
    if d.len() == 0 || leading_digits(d) != d.len() {
        None
    } else if negative {
        Some(-(digits_value(d) as int))
    } else {
        Some(digits_value(d) as int)
    }
}

/// The digits of a numeral without a sign, and the power of ten that counts
/// its last digit.
pub open spec fn numeral(s: Seq<char>) -> Option<(Seq<char>, int)> {
    let a = leading_digits(s) as int;
    let (c, e) = fraction(s, a);
    let digits = s.subrange(0, a) + s.subrange(c, e);
    match tail_power(s, e) {
        Some(x) => if a == 0 && c == e {
            None
        } else {
            Some((digits, x - (e - c)))
        },
        None => None,
    }
}

/// The power of ten behind place `e`: none written is zero.
pub open spec fn tail_power(s: Seq<char>, e: int) -> Option<int> {
    if e == s.len() {
        Some(0)
    } else if s[e] == 'e' || s[e] == 'E' {
        power(s.skip(e + 1))
    } else {
        None
    }
}

/// Where the digits behind a point at place `a` start and end.
pub open spec fn fraction(s: Seq<char>, a: int) -> (int, int) {
    if a < s.len() && s[a] == '.' {
        (a + 1, a + 1 + leading_digits(s.skip(a + 1)))
    } else {
        (a, a)
    }
}

pub open spec fn lower(c: char) -> char {
    if 'A' <= c && c <= 'Z' {
        (c as nat + 32) as char
    } else {
        c
    }
}

/// Whether a text is a word, whatever the case of its letters.
pub open spec fn is_word(s: Seq<char>, word: Seq<char>) -> bool {
    s.len() == word.len() && forall|i: int|
        0 <= i < s.len() ==> lower(#[trigger] s[i]) == word[i]
}

/// The number that a text writes.
pub open spec fn parsed(s: Seq<char>) -> Option<Double> {
    let negative = s.len() > 0 && s[0] == '-';
    let body = if s.len() > 0 && (s[0] == '-' || s[0] == '+') {
        s.skip(1)
    } else {
        s
    };
    if is_word(body, "inf"@) || is_word(body, "infinity"@) {
        Some(signed(negative, INF as nat))
    } else if is_word(body, "nan"@) {
        Some(signed(negative, NAN as nat))
    } else {
        match numeral(body) {
            Some((digits, scale)) => Some(signed(negative, of_decimal(digits_value(digits), scale))),
            None => None,
        }
    }
}

proof fn lemma_ten_and_two(k: nat)
    ensures
        ten(k) <= pow2(4 * k),
        ten(3 * k) >= pow2(9 * k),
    decreases k,
{
    lemma2_to64();
    if k > 0 {
        let j = (k - 1) as nat;
        lemma_ten_and_two(j);
        lemma_pow2_adds(4 * j, 4);
        lemma_pow2_adds(9 * j, 9);
        reveal_with_fuel(ten, 4);
        assert(ten(3 * k) == 1000 * ten(3 * j));
        assert(pow2(4 * k) == 16 * pow2(4 * j)) by (nonlinear_arith)
            requires
                pow2(4 * j + 4) == pow2(4 * j) * 16,
                4 * k == 4 * j + 4,
        ;
        assert(pow2(9 * k) == 512 * pow2(9 * j)) by (nonlinear_arith)
            requires
                pow2(9 * j + 9) == pow2(9 * j) * 512,
                9 * k == 9 * j + 9,
        ;
    }
}

/// Beyond every finite number.
proof fn lemma_huge(n: nat, d: nat)
    requires
        d > 0,
        n >= d * ten(345),
    ensures
        nearest(n * one(), d) == INF,
{
    lemma_ten_and_two(115);
    lemma_decoded(INF as nat);
    lemma_decoded((INF - 1) as nat);
    lemma_units_grow((INF - 1) as nat, INF as nat);
    assert(units(INF as nat) == (STEP as nat) * pow2(2046)) by {
        assert(INF as nat / STEP as nat == 2047 && INF as nat % STEP as nat == 0);
    }
    lemma_big_powers();
    lemma_pow2_adds(52, 2046);
    lemma_pow2_adds(1035, 1074);
    lemma_pow2_strictly_increases(2098, 2109);
    let u = units(INF as nat);
    assert(2 * (n * one()) > (units((INF - 1) as nat) + u) * d) by (nonlinear_arith)
        requires
            n >= d * ten(345),
            ten(345) >= pow2(1035),
            pow2(2109) == pow2(1035) * one(),
            u < pow2(2109),
            units((INF - 1) as nat) < u,
            d > 0,
            one() >= 0,
    ;
    assert(rounds_to(n * one(), d, INF as nat));
    lemma_nearest_is(n * one(), d, INF as nat);
}

/// Nearer to zero than to every other number.
proof fn lemma_tiny(n: nat, d: nat)
    requires
        d > 0,
        n * ten(360) <= d,
    ensures
        nearest(n * one(), d) == 0,
{
    lemma_ten_and_two(120);
    lemma_pow2_adds(1074, 6);
    lemma2_to64();
    lemma_pow2_pos(1074);
    assert(units(0) == 0 && units(1) == 1);
    assert(2 * (n * one()) <= d) by (nonlinear_arith)
        requires
            n * ten(360) <= d,
            ten(360) >= pow2(1080),
            pow2(1080) == one() * pow2(6),
            pow2(6) == 64,
            one() > 0,
    ;
    assert((units(0) + units(1)) * d == d) by (nonlinear_arith)
        requires
            units(0) + units(1) == 1,
    ;
    assert(rounds_to(n * one(), d, 0));
    lemma_nearest_is(n * one(), d, 0);
}

/// What a scale far from zero makes of `len` digits.
proof fn lemma_far(n: nat, len: nat, scale: int)
    requires
        n > 0 ==> len > 0 && ten((len - 1) as nat) <= n,
        n < ten(len),
    ensures
        n == 0 ==> of_decimal(n, scale) == 0,
        n > 0 && len - 1 + scale >= 345 ==> of_decimal(n, scale) == INF,
        n > 0 && len + scale <= -360 ==> of_decimal(n, scale) == 0,
{
    reveal(of_decimal);
    if n == 0 {
        let d = if scale >= 0 {
            1
        } else {
            ten((-scale) as nat)
        };
        lemma_ten_adds((-scale) as nat, 0);
        assert(0 * ten(360) == 0);
        if scale >= 0 {
            assert(0 * ten(scale as nat) == 0) by (nonlinear_arith);
        }
        lemma_tiny(0, d);
    } else if len - 1 + scale >= 345 {
        if scale >= 0 {
            lemma_ten_adds((len - 1) as nat, scale as nat);
            lemma_ten_grows(345, (len - 1 + scale) as nat);
            assert(n * ten(scale as nat) >= ten((len - 1) as nat) * ten(scale as nat))
                by (nonlinear_arith)
                requires
                    n >= ten((len - 1) as nat),
            ;
            lemma_huge(n * ten(scale as nat), 1);
        } else {
            lemma_ten_adds((-scale) as nat, 345);
            lemma_ten_grows((-scale + 345) as nat, (len - 1) as nat);
            lemma_huge(n, ten((-scale) as nat));
        }
    } else if len + scale <= -360 {
        lemma_ten_adds(len, 360);
        lemma_ten_adds(360, 0);
        lemma_ten_grows(len + 360, (-scale) as nat);
        assert(n * ten(360) <= ten(len) * ten(360)) by (nonlinear_arith)
            requires
                n < ten(len),
        ;
        lemma_tiny(n, ten((-scale) as nat));
    }
}

/// The whole part of digits with the last `b` behind the point, unless it has
/// more than twenty digits.
fn whole_part(v: &Vec<u8>, b: u128) -> (r: Option<u128>)
    requires
        trimmed(v@),
        v@.len() > 0,
    ensures
        match r {
            Some(q) => {
                &&& q * ten(b as nat) <= worth(v@)
                &&& worth(v@) < (q + 1) * ten(b as nat)
                &&& b < v@.len() ==> q == worth(v@.skip(b as int))
                &&& b >= v@.len() ==> q == 0
            },
            None => b < v@.len() && worth(v@) >= 0x1_0000_0000_0000_0000 * ten(b as nat),
        },
{
    proof {
        lemma_lead(v@);
        lemma_ten_adds(b as nat, 0);
    }
    let len = v.len();
    if len as u128 <= b {
        proof {
            lemma_ten_grows(v@.len(), b as nat);
            assert(0 * ten(b as nat) == 0 && (0 + 1) * ten(b as nat) == ten(b as nat))
                by (nonlinear_arith);
        }
        Some(0)
    } else if len - b as usize > 20 {
        proof {
            lemma_ten_adds(20, b as nat);
            lemma_ten_grows(20 + b as nat, (len - 1) as nat);
            assert(ten(20) >= 0x1_0000_0000_0000_0000) by {
                reveal_with_fuel(ten, 21);
            }
            assert(ten(20) * ten(b as nat) >= 0x1_0000_0000_0000_0000 * ten(b as nat))
                by (nonlinear_arith)
                requires
                    ten(20) >= 0x1_0000_0000_0000_0000,
            ;
        }
        None
    } else {
        let q = small_worth(v, b as usize);
        proof {
            lemma_split(v@, b as nat);
            let p = ten(b as nat);
            let low = worth(v@.take(b as int));
            assert(q * p <= worth(v@) && worth(v@) < (q + 1) * p) by (nonlinear_arith)
                requires
                    worth(v@) == low + p * q,
                    low < p,
            ;
        }
        Some(q)
    }
}

proof fn lemma_halved(d0: nat, a: nat, tb0: nat, d: nat, tb: nat, q: nat, h: nat, more: bool)
    requires
        d0 == tb0,
        tb0 > 0,
        tb > 0,
        d * pow2(h) * tb0 == a * tb,
        more ==> q * tb < d && d < (q + 1) * tb,
        !more ==> q * tb == d,
    ensures
        scaled_at(a * one(), d0, q, (1076 + h) as int, more),
{
    let ph = pow2(h);
    lemma_pow2_pos(h);
    lemma_pow2_adds(h, 1076);
    lemma_pow2_adds(2, 1074);
    lemma2_to64();
    lemma_pow2_pos(1074);
    let w = ph * tb0;
    assert(w > 0) by (nonlinear_arith)
        requires
            ph > 0,
            tb0 > 0,
            w == ph * tb0,
    ;
    assert(d * w == a * tb) by (nonlinear_arith)
        requires
            d * ph * tb0 == a * tb,
            w == ph * tb0,
    ;
    let c = pow2(1076);
    lemma_pow2_pos(1076);
    assert(q * pow2(1076 + h) * d0 == (q * w) * c) by (nonlinear_arith)
        requires
            pow2(1076 + h) == ph * c,
            w == ph * tb0,
            d0 == tb0,
    ;
    assert((q + 1) * pow2(1076 + h) * d0 == ((q + 1) * w) * c) by (nonlinear_arith)
        requires
            pow2(1076 + h) == ph * c,
            w == ph * tb0,
            d0 == tb0,
    ;
    assert(4 * (a * one()) == a * c) by (nonlinear_arith)
        requires
            c == 4 * one(),
    ;
    if more {
        assert(q * w < a) by (nonlinear_arith)
            requires
                q * tb < d,
                d * w == a * tb,
                w > 0,
                tb > 0,
        ;
        assert(a < (q + 1) * w) by (nonlinear_arith)
            requires
                d < (q + 1) * tb,
                d * w == a * tb,
                w > 0,
                tb > 0,
        ;
        assert((q * w) * c < a * c && a * c < ((q + 1) * w) * c) by (nonlinear_arith)
            requires
                q * w < a,
                a < (q + 1) * w,
                c > 0,
        ;
    } else {
        assert(q * w == a) by (nonlinear_arith)
            requires
                q * tb == d,
                d * w == a * tb,
                tb > 0,
        ;
    }
}

proof fn lemma_doubled(a: nat, tb: nat, d: nat, q: nat, h: nat, more: bool)
    requires
        tb > 0,
        d == a * pow2(h),
        more ==> q * tb < d && d < (q + 1) * tb,
        !more ==> q * tb == d,
    ensures
        scaled_at(a * one(), tb, q, 1076 - h as int, more),
{
    lemma_pow2_adds(2, 1074);
    lemma2_to64();
    let c = pow2(1076);
    let s = 1076 - h as int;
    assert(4 * (a * one()) == a * c) by (nonlinear_arith)
        requires
            c == 4 * one(),
    ;
    if s >= 0 {
        let ps = pow2(s as nat);
        lemma_pow2_pos(s as nat);
        lemma_pow2_adds(h, s as nat);
        assert(a * c == d * ps) by (nonlinear_arith)
            requires
                d == a * pow2(h),
                c == pow2(h) * ps,
        ;
        assert(q * ps * tb == (q * tb) * ps && (q + 1) * ps * tb == ((q + 1) * tb) * ps)
            by (nonlinear_arith);
        if more {
            assert((q * tb) * ps < d * ps && d * ps < ((q + 1) * tb) * ps) by (nonlinear_arith)
                requires
                    q * tb < d,
                    d < (q + 1) * tb,
                    ps > 0,
            ;
        }
    } else {
        lemma_pow2_adds(1076, (-s) as nat);
        assert(4 * (a * one()) * pow2((-s) as nat) == d) by (nonlinear_arith)
            requires
                4 * (a * one()) == a * c,
                pow2(h) == c * pow2((-s) as nat),
                d == a * pow2(h),
        ;
    }
}

/// The magnitude nearest to a whole number of parts of a power of ten.
fn magnitude_of(v: &Vec<u8>, b: u128) -> (m: u64)
    requires
        trimmed(v@),
        v@.len() > 0,
        b < 0x1_0000_0000_0000_0000_0000_0000,
        worth(v@) < ten(345) * ten(b as nat),
        worth(v@) * ten(360) >= ten(b as nat),
    ensures
        m <= INF,
        m == nearest(worth(v@) * one(), ten(b as nat)),
{
    let ghost a = worth(v@);
    let ghost tb0 = ten(b as nat);
    let mut d = v.clone();
    proof {
        assert(d@ =~= v@);
        lemma_lead(v@);
        lemma_ten_adds((v@.len() - 1) as nat, 0);
        lemma_ten_adds(b as nat, 0);
        lemma2_to64();
        lemma_ten_and_two(345);
        lemma_ten_and_two(360);
        lemma_pow2_adds(63, 1440);
        lemma_big_powers();
        assert(a * 1 * tb0 == a * tb0);
    }
    let mut places = b;
    let mut halvings: u32 = 0;
    let mut q: u128 = 0;
    loop
        invariant
            trimmed(d@),
            d@.len() > 0,
            halvings <= 1400,
            b < 0x1_0000_0000_0000_0000_0000_0000,
            places == b + halvings,
            tb0 == ten(b as nat),
            tb0 > 0,
            worth(d@) * pow2(halvings as nat) * tb0 == a * ten(places as nat),
            halvings > 0 ==> worth(d@) >= 0x8000_0000_0000_0000 * ten(places as nat),
            halvings == 0 ==> d@ == v@,
            a < ten(345) * tb0,
            ten(345) <= pow2(1380),
        ensures
            q * ten(places as nat) <= worth(d@),
            worth(d@) < (q + 1) * ten(places as nat),
            q < 0x1_0000_0000_0000_0000,
            halvings > 0 ==> q >= 0x8000_0000_0000_0000,
            places < d@.len() ==> q == worth(d@.skip(places as int)),
            places >= d@.len() ==> q == 0,
        decreases 1400 - halvings,
    {
        let ghost tb = ten(places as nat);
        proof {
            lemma_ten_adds(places as nat, 0);
        }
        let over = match whole_part(&d, places) {
            Some(w) => {
                q = w;
                w >= 0x1_0000_0000_0000_0000
            },
            None => true,
        };
        if !over {
            proof {
                if halvings > 0 {
                    assert(q >= 0x8000_0000_0000_0000) by (nonlinear_arith)
                        requires
                            worth(d@) < (q + 1) * tb,
                            worth(d@) >= 0x8000_0000_0000_0000 * tb,
                            tb > 0,
                    ;
                }
            }
            break;
        }
        let ghost x = worth(d@);
        let ghost ph = pow2(halvings as nat);
        proof {
            assert(x >= 0x1_0000_0000_0000_0000 * tb) by {
                if q >= 0x1_0000_0000_0000_0000 && q * tb <= x {
                    assert(q * tb >= 0x1_0000_0000_0000_0000 * tb) by (nonlinear_arith)
                        requires
                            q >= 0x1_0000_0000_0000_0000,
                    ;
                }
            }
            // The number of halvings is bounded by the size of the number.
            assert(ph < pow2(1380)) by (nonlinear_arith)
                requires
                    x >= 0x1_0000_0000_0000_0000 * tb,
                    x * ph * tb0 == a * tb,
                    a < ten(345) * tb0,
                    ten(345) <= pow2(1380),
                    tb > 0,
                    tb0 > 0,
                    ph >= 0,
            ;
            if halvings >= 1380 {
                if halvings > 1380 {
                    lemma_pow2_strictly_increases(1380, halvings as nat);
                }
            }
            lemma_pow2_unfold((halvings + 1) as nat);
            assert(ten((places + 1) as nat) == 10 * tb);
            assert((x * 5) * (2 * ph) * tb0 == a * (10 * tb)) by (nonlinear_arith)
                requires
                    x * ph * tb0 == a * tb,
            ;
            assert(x * 5 >= 0x8000_0000_0000_0000 * (10 * tb));
        }
        d = times(&d, 5);
        places = places + 1;
        halvings = halvings + 1;
    }
    if q >= 0x8000_0000_0000_0000 {
        let ghost tb = ten(places as nat);
        proof {
            lemma_ten_adds(places as nat, 0);
            if places >= d@.len() {
                assert(q == 0);
            }
            lemma_split(d@, places as nat);
        }
        let more = has_nonzero(&d, places as usize);
        proof {
            let low = worth(d@.take(places as int));
            assert(q * tb == tb * q) by (nonlinear_arith);
            lemma_halved(tb0, a, tb0, worth(d@), tb, q as nat, halvings as nat, more);
        }
        return round_at(q, 1076 + halvings as i64, more);
    }
    let mut doublings: u32 = 0;
    proof {
        assert(halvings == 0);
        assert(a * pow2(0) == a) by (nonlinear_arith)
            requires
                pow2(0) == 1,
        ;
    }
    while q < 0x8000_0000_0000_0000
        invariant
            trimmed(d@),
            d@.len() > 0,
            places == b,
            tb0 == ten(b as nat),
            tb0 > 0,
            a > 0,
            doublings <= 1600,
            worth(d@) == a * pow2(doublings as nat),
            q * tb0 <= worth(d@),
            worth(d@) < (q + 1) * tb0,
            q < 0x1_0000_0000_0000_0000,
            places < d@.len() ==> q == worth(d@.skip(places as int)),
            places >= d@.len() ==> q == 0,
            a * ten(360) >= tb0,
            ten(360) <= pow2(1440),
            pow2(1503) == pow2(63) * pow2(1440),
            pow2(63) == 0x8000_0000_0000_0000,
        decreases 1600 - doublings,
    {
        let ghost x = worth(d@);
        let ghost ph = pow2(doublings as nat);
        proof {
            assert(x < 0x8000_0000_0000_0000 * tb0) by (nonlinear_arith)
                requires
                    x < (q + 1) * tb0,
                    q + 1 <= 0x8000_0000_0000_0000,
            ;
            let t = ten(360);
            let z = pow2(1440);
            assert(ph < 0x8000_0000_0000_0000 * z) by (nonlinear_arith)
                requires
                    x < 0x8000_0000_0000_0000 * tb0,
                    x == a * ph,
                    a * t >= tb0,
                    t <= z,
                    a > 0,
            ;
            if doublings >= 1503 {
                if doublings > 1503 {
                    lemma_pow2_strictly_increases(1503, doublings as nat);
                }
            }
            lemma_pow2_unfold((doublings + 1) as nat);
            assert((a * ph) * 2 == a * (2 * ph)) by (nonlinear_arith);
        }
        d = times(&d, 2);
        doublings = doublings + 1;
        match whole_part(&d, places) {
            Some(w) => {
                proof {
                    assert(w < 0x1_0000_0000_0000_0000) by (nonlinear_arith)
                        requires
                            w * tb0 <= x * 2,
                            x < 0x8000_0000_0000_0000 * tb0,
                            tb0 > 0,
                    ;
                }
                q = w;
            },
            None => {
                proof {
                    assert(false);
                }
            },
        }
    }
    proof {
        if places >= d@.len() {
            assert(q == 0);
        }
        lemma_split(d@, places as nat);
    }
    let more = has_nonzero(&d, places as usize);
    proof {
        assert(q * tb0 == tb0 * q) by (nonlinear_arith);
        lemma_doubled(a, tb0, worth(d@), q as nat, doublings as nat, more);
    }
    round_at(q, 1076 - doublings as i64, more)
}

/// The magnitude nearest to a whole number of powers of ten, as far as the
/// power is known: one far from zero stands for all that lie further.
fn magnitude_at(v: &Vec<u8>, scale: i128) -> (m: u64)
    requires
        trimmed(v@),
        -0x1_0000_0000_0000_0000_0000_0000 < scale < 0x1_0000_0000_0000_0000_0000_0000,
    ensures
        m <= INF,
        m == of_decimal(worth(v@), scale as int),
{
    let len = v.len();
    proof {
        reveal(of_decimal);
        if len > 0 {
            lemma_lead(v@);
            lemma_ten_adds((len - 1) as nat, 0);
        }
        lemma_far(worth(v@), len as nat, scale as int);
    }
    if len == 0 {
        return 0;
    }
    if len as i128 - 1 + scale >= 345 {
        return INF;
    }
    if len as i128 + scale <= -360 {
        return 0;
    }
    if scale >= 0 {
        let mut d: Vec<u8> = Vec::new();
        let mut i: i128 = 0;
        while i < scale
            invariant
                i <= scale,
                d@.len() == i,
                are_digits(d@),
                worth(d@) == 0,
            decreases scale - i,
        {
            let ghost before = d@;
            d.push(0);
            proof {
                assert(d@.drop_last() =~= before);
                assert(0 * ten(before.len()) == 0) by (nonlinear_arith);
            }
            i = i + 1;
        }
        let ghost zeros = d@;
        let mut j: usize = 0;
        while j < len
            invariant
                j <= len == v@.len(),
                trimmed(v@),
                d@ =~= zeros + v@.take(j as int),
            decreases len - j,
        {
            d.push(v[j]);
            j = j + 1;
        }
        proof {
            assert(v@.take(len as int) =~= v@);
            assert(are_digits(d@));
            lemma_split(d@, scale as nat);
            assert(d@.take(scale as int) =~= zeros);
            assert(d@.skip(scale as int) =~= v@);
            let n = worth(v@);
            let t = ten(scale as nat);
            assert(worth(d@) == n * t) by (nonlinear_arith)
                requires
                    worth(d@) == t * n,
            ;
            lemma_lead(d@);
            lemma_ten_grows(d@.len(), 345);
            assert(ten(0) == 1);
            lemma_ten_adds((d@.len() - 1) as nat, 0);
            lemma_ten_adds(360, 0);
            assert(worth(d@) * ten(360) >= 1) by (nonlinear_arith)
                requires
                    worth(d@) > 0,
                    ten(360) > 0,
            ;
        }
        magnitude_of(&d, 0)
    } else {
        proof {
            let n = worth(v@);
            let b = (-scale) as nat;
            lemma_ten_adds(345, b);
            lemma_ten_grows(len as nat, 345 + b);
            lemma_ten_adds((len - 1) as nat, 360);
            lemma_ten_adds(360, 0);
            lemma_ten_grows(b, (len - 1 + 360) as nat);
            assert(n * ten(360) >= ten((len - 1) as nat) * ten(360)) by (nonlinear_arith)
                requires
                    n >= ten((len - 1) as nat),
            ;
        }
        magnitude_of(v, (-scale) as u128)
    }
}

proof fn lemma_leading(s: Seq<char>)
    ensures
        leading_digits(s) <= s.len(),
        forall|i: int| 0 <= i < leading_digits(s) ==> is_digit(#[trigger] s[i]),
        leading_digits(s) < s.len() ==> !is_digit(s[leading_digits(s) as int]),
    decreases s.len(),
{
    if s.len() > 0 && is_digit(s[0]) {
        let t = s.skip(1);
        lemma_leading(t);
        assert forall|i: int| 0 <= i < leading_digits(s) implies is_digit(#[trigger] s[i]) by {
            if i > 0 {
                assert(is_digit(t[i - 1]));
            }
        }
    }
}

/// Where the digits that start at a place end.
fn digits_end(v: &Vec<char>, from: usize) -> (end: usize)
    requires
        from <= v@.len(),
    ensures
        end == from + leading_digits(v@.skip(from as int)),
        from <= end <= v@.len(),
        forall|i: int| from <= i < end ==> is_digit(#[trigger] v@[i]),
{
    let mut i = from;
    let ghost s = v@.skip(from as int);
    proof {
        lemma_leading(s);
    }
    while i < v.len() && '0' <= v[i] && v[i] <= '9'
        invariant
            from <= i <= v@.len(),
            s == v@.skip(from as int),
            i - from <= leading_digits(s) <= s.len(),
            leading_digits(s) < s.len() ==> !is_digit(s[leading_digits(s) as int]),
        decreases v@.len() - i,
    {
        assert(s[i - from] == v@[i as int]);
        i = i + 1;
    }
    proof {
        if i - from < leading_digits(s) {
            assert(is_digit(s[i - from]));
        }
        assert forall|k: int| from <= k < i implies is_digit(#[trigger] v@[k]) by {
            assert(is_digit(s[k - from]));
        }
    }
    i
}

/// Characters from the last back to the first, as digits.
proof fn lemma_read(c: Seq<char>, s: Seq<u8>)
    requires
        s.len() == c.len(),
        forall|i: int| 0 <= i < c.len() ==> is_digit(#[trigger] c[i]),
        forall|i: int|
            0 <= i < s.len() ==> #[trigger] s[i] == c[c.len() - 1 - i] as nat - '0' as nat,
    ensures
        are_digits(s),
        worth(s) == digits_value(c),
    decreases s.len(),
{
    assert forall|i: int| 0 <= i < s.len() implies #[trigger] s[i] < 10 by {
        assert(is_digit(c[c.len() - 1 - i]));
    }
    if s.len() > 0 {
        lemma_split_one(s);
        let t = s.skip(1);
        let e = c.drop_last();
        assert forall|i: int| 0 <= i < t.len() implies #[trigger] t[i] == e[e.len() - 1 - i] as nat
            - '0' as nat by {
            assert(t[i] == s[i + 1]);
        }
        lemma_read(e, t);
        assert(s[0] == c[c.len() - 1] as nat - '0' as nat);
    }
}

/// The digits in two stretches of characters, the lowest first, without
/// leading zeros.
fn collect(v: &Vec<char>, from: usize, end: usize, from2: usize, end2: usize) -> (r: Vec<u8>)
    requires
        from <= end <= v@.len(),
        from2 <= end2 <= v@.len(),
        forall|i: int| from <= i < end ==> is_digit(#[trigger] v@[i]),
        forall|i: int| from2 <= i < end2 ==> is_digit(#[trigger] v@[i]),
    ensures
        trimmed(r@),
        worth(r@) == digits_value(
            v@.subrange(from as int, end as int) + v@.subrange(from2 as int, end2 as int),
        ),
{
    let ghost c = v@.subrange(from as int, end as int) + v@.subrange(from2 as int, end2 as int);
    let ghost n2 = end2 - from2;
    let mut r: Vec<u8> = Vec::new();
    let mut i = end2;
    while i > from2
        invariant
            from2 <= i <= end2 <= v@.len(),
            from <= end <= v@.len(),
            n2 == end2 - from2,
            c == v@.subrange(from as int, end as int) + v@.subrange(from2 as int, end2 as int),
            forall|k: int| from2 <= k < end2 ==> is_digit(#[trigger] v@[k]),
            r@.len() == end2 - i,
            forall|k: int|
                0 <= k < r@.len() ==> #[trigger] r@[k] == c[c.len() - 1 - k] as nat - '0' as nat,
        decreases i,
    {
        i = i - 1;
        assert(is_digit(v@[i as int]));
        assert(c[c.len() - 1 - r@.len()] == v@[i as int]);
        r.push((v[i] as u32 - '0' as u32) as u8);
    }
    let mut j = end;
    while j > from
        invariant
            from <= j <= end <= v@.len(),
            from2 <= end2 <= v@.len(),
            n2 == end2 - from2,
            c == v@.subrange(from as int, end as int) + v@.subrange(from2 as int, end2 as int),
            forall|k: int| from <= k < end ==> is_digit(#[trigger] v@[k]),
            r@.len() == n2 + end - j,
            forall|k: int|
                0 <= k < r@.len() ==> #[trigger] r@[k] == c[c.len() - 1 - k] as nat - '0' as nat,
        decreases j,
    {
        j = j - 1;
        assert(is_digit(v@[j as int]));
        assert(c[c.len() - 1 - r@.len()] == v@[j as int]);
        r.push((v[j] as u32 - '0' as u32) as u8);
    }
    proof {
        assert forall|k: int| 0 <= k < c.len() implies is_digit(#[trigger] c[k]) by {
            if k < end - from {
                assert(is_digit(v@[from + k]));
            } else {
                assert(is_digit(v@[from2 + (k - (end - from))]));
            }
        }
        lemma_read(c, r@);
    }
    while r.len() > 0 && r[r.len() - 1] == 0
        invariant
            are_digits(r@),
            worth(r@) == digits_value(c),
        decreases r@.len(),
    {
        proof {
            assert((r@.last() as nat) * ten((r@.len() - 1) as nat) == 0) by (nonlinear_arith)
                requires
                    r@.last() == 0,
            ;
            assert(are_digits(r@.drop_last()));
        }
        r.pop();
    }
    r
}

/// A power of ten, kept within 2^90 of zero.
fn power_at(v: &Vec<char>, from: usize) -> (r: Option<i128>)
    requires
        from <= v@.len(),
    ensures
        match power(v@.skip(from as int)) {
            Some(x) => r is Some && capped(r->0 as int, x),
            None => r is None,
        },
{
    let ghost s = v@.skip(from as int);
    let mut i = from;
    let mut negative = false;
    if i < v.len() && (v[i] == '-' || v[i] == '+') {
        assert(s[0] == v@[from as int]);
        negative = v[i] == '-';
        i = i + 1;
    }
    let start = i;
    let ghost d = v@.skip(start as int);
    proof {
        if start == from {
            if s.len() > 0 {
                assert(s[0] == v@[from as int]);
            }
            assert(d =~= s);
        } else {
            assert(d =~= s.skip(1));
        }
    }
    let end = digits_end(v, start);
    if end == start || end < v.len() {
        return None;
    }
    let cap: i128 = 0x400_0000_0000_0000_0000_0000;
    let mut total: i128 = 0;
    proof {
        assert(d.take(0) =~= Seq::<char>::empty());
    }
    while i < end
        invariant
            start <= i <= end == v@.len(),
            d == v@.skip(start as int),
            forall|k: int| start <= k < end ==> is_digit(#[trigger] v@[k]),
            cap == 0x400_0000_0000_0000_0000_0000,
            0 <= total <= cap,
            total < cap ==> total == digits_value(d.take(i - start)),
            total == cap ==> digits_value(d.take(i - start)) >= cap,
        decreases end - i,
    {
        assert(is_digit(v@[i as int]));
        proof {
            assert(d.take(i - start + 1).drop_last() =~= d.take(i - start));
            assert(d[i - start] == v@[i as int]);
        }
        let next: i128 = total * 10 + (v[i] as u32 - '0' as u32) as i128;
        total = if next >= cap {
            cap
        } else {
            next
        };
        i = i + 1;
    }
    proof {
        assert(d.take(i - start) =~= d);
    }
    if negative {
        Some(-total)
    } else {
        Some(total)
    }
}

fn matches_word(v: &Vec<char>, word: &str) -> (r: bool)
    ensures
        r == is_word(v@, word@),
{
    let w = chars_of(word);
    if v.len() != w.len() {
        return false;
    }
    let mut i: usize = 0;
    while i < w.len()
        invariant
            i <= w@.len(),
            w@ == word@,
            w@.len() == v@.len(),
            forall|k: int| 0 <= k < i ==> lower(#[trigger] v@[k]) == word@[k],
        decreases w@.len() - i,
    {
        let c = v[i];
        let low = if 'A' <= c && c <= 'Z' {
            (c as u32 + 32) as u8 as char
        } else {
            c
        };
        assert(low == lower(c));
        if low != w[i] {
            return false;
        }
        i = i + 1;
    }
    true
}

proof fn lemma_capped(d: Seq<u8>, x: int, exact: int, shift: int)
    requires
        trimmed(d),
        d.len() <= u64::MAX,
        0 <= shift <= u64::MAX,
        capped(x, exact),
    ensures
        of_decimal(worth(d), x - shift) == of_decimal(worth(d), exact - shift),
{
    if d.len() > 0 {
        lemma_lead(d);
        lemma_ten_adds((d.len() - 1) as nat, 0);
    }
    lemma_far(worth(d), d.len(), x - shift);
    lemma_far(worth(d), d.len(), exact - shift);
}

pub open spec fn capped(r: int, x: int) -> bool {
    &&& -0x400_0000_0000_0000_0000_0000 <= r <= 0x400_0000_0000_0000_0000_0000
    &&& -0x400_0000_0000_0000_0000_0000 < r < 0x400_0000_0000_0000_0000_0000 ==> r == x
    &&& r == 0x400_0000_0000_0000_0000_0000 ==> x >= r
    &&& r == -0x400_0000_0000_0000_0000_0000 ==> x <= r
}

fn tail_power_at(v: &Vec<char>, e: usize) -> (r: Option<i128>)
    requires
        e <= v@.len(),
    ensures
        match tail_power(v@, e as int) {
            Some(x) => r is Some && capped(r->0 as int, x),
            None => r is None,
        },
{
    if e == v.len() {
        Some(0)
    } else if v[e] == 'e' || v[e] == 'E' {
        power_at(v, e + 1)
    } else {
        None
    }
}

/// The magnitude of a numeral without a sign.
fn numeral_magnitude(v: &Vec<char>) -> (r: Option<u64>)
    ensures
        match numeral(v@) {
            Some((digits, scale)) => r is Some && r->0 == of_decimal(digits_value(digits), scale)
                && r->0 <= INF,
            None => r is None,
        },
{
    assert(v@.skip(0) =~= v@);
    let a = digits_end(v, 0);
    let mut c = a;
    let mut e = a;
    if a < v.len() && v[a] == '.' {
        c = a + 1;
        e = digits_end(v, c);
    }
    assert(fraction(v@, a as int) == (c as int, e as int));
    let d = collect(v, 0, a, c, e);
    let shift: i128 = (e - c) as i128;
    match tail_power_at(v, e) {
        Some(x) => {
            if a == 0 && c == e {
                return None;
            }
            let m = magnitude_at(&d, x - shift);
            proof {
                let len = d.len();
                lemma_capped(d@, x as int, tail_power(v@, e as int)->0, shift as int);
            }
            Some(m)
        },
        None => None,
    }
}

/// Reads a number.
pub fn parse_double(text: &str) -> (r: Option<Double>)
    ensures
        r == parsed(text@),
{
    let mut v = chars_of(text);
    let mut negative = false;
    if v.len() > 0 && (v[0] == '-' || v[0] == '+') {
        negative = v[0] == '-';
        v.remove(0);
        assert(v@ =~= text@.skip(1));
    }
    if matches_word(&v, "inf") || matches_word(&v, "infinity") {
        return Some(with_sign(negative, INF));
    }
    if matches_word(&v, "nan") {
        return Some(with_sign(negative, NAN));
    }
    match numeral_magnitude(&v) {
        Some(m) => Some(with_sign(negative, m)),
        None => None,
    }
}

// ---------------------------------------------------------- whole numbers, time

/// The whole part of a number, within the range of `u64`.
pub open spec fn truncated(x: Double) -> u64 {
    if x.nan() || x.negative() {
        0
    } else if x.infinite() || x.size() / one() > u64::MAX {
        u64::MAX
    } else {
        (x.size() / one()) as u64
    }
}

pub fn truncate(x: Double) -> (r: u64)
    ensures
        r == truncated(x),
{
    if x.is_nan() || x.is_negative() {
        return 0;
    }
    if !x.is_finite() {
        return u64::MAX;
    }
    let m = x.magnitude();
    let sig = significand_of(m);
    let e = exponent_of(m);
    proof {
        lemma_decoded(m as nat);
        lemma_pow2_pos(1074);
        lemma_big_powers();
        lemma2_to64();
    }
    if e >= 1074 {
        let k: u32 = e - 1074;
        proof {
            lemma_pow2_adds(k as nat, 1074);
            let w = sig * pow2(k as nat);
            assert(x.size() == w * one() + 0) by (nonlinear_arith)
                requires
                    x.size() == sig * pow2(e as nat),
                    pow2(e as nat) == pow2(k as nat) * one(),
                    w == sig * pow2(k as nat),
            ;
            lemma_fundamental_div_mod_converse(x.size() as int, one() as int, w, 0);
        }
        if k >= 12 {
            proof {
                if k > 12 {
                    lemma_pow2_strictly_increases(12, k as nat);
                }
                assert(sig * pow2(k as nat) >= 0x10_0000_0000_0000 * 0x1000) by (nonlinear_arith)
                    requires
                        sig >= 0x10_0000_0000_0000,
                        pow2(k as nat) >= 0x1000,
                ;
            }
            return u64::MAX;
        }
        let p = two_to(k);
        proof {
            if k < 11 {
                lemma_pow2_strictly_increases(k as nat, 11);
            }
            assert(sig * p <= 0x1F_FFFF_FFFF_FFFF * 0x800) by (nonlinear_arith)
                requires
                    sig <= 0x1F_FFFF_FFFF_FFFF,
                    p <= 0x800,
            ;
        }
        ((sig as u128) * p) as u64
    } else {
        let t: u32 = 1074 - e;
        let ghost pt = pow2(t as nat);
        let ghost pe = pow2(e as nat);
        proof {
            lemma_pow2_adds(t as nat, e as nat);
            lemma_pow2_pos(t as nat);
            lemma_pow2_pos(e as nat);
            let q = sig as int / pt as int;
            let r = sig as int % pt as int;
            lemma_fundamental_div_mod(sig as int, pt as int);
            assert(x.size() == q * one() + r * pe && 0 <= r * pe && r * pe < one())
                by (nonlinear_arith)
                requires
                    x.size() == sig * pe,
                    sig == pt * q + r,
                    0 <= r < pt,
                    pe > 0,
                    one() == pt * pe,
            ;
            lemma_fundamental_div_mod_converse(x.size() as int, one() as int, q, r * pe);
            lemma_div_is_ordered_by_denominator(sig as int, 1, pt as int);
        }
        if t > 100 {
            proof {
                lemma_pow2_strictly_increases(64, t as nat);
                lemma_basic_div(sig as int, pt as int);
            }
            return 0;
        }
        let p = two_to(t);
        (sig as u128 / p) as u64
    }
}

/// Nanoseconds in seconds.
pub open spec fn seconds(ns: u64) -> Double {
    sum(
        whole((ns / 1_000_000_000) as nat),
        quotient(whole((ns % 1_000_000_000) as nat), whole(1_000_000_000)),
    )
}

pub fn to_seconds(ns: u64) -> (r: Double)
    ensures
        r == seconds(ns),
{
    Double::from_u64(ns / 1_000_000_000).plus(
        Double::from_u64(ns % 1_000_000_000).over(Double::from_u64(1_000_000_000)),
    )
}

/// Seconds in nanoseconds, to the nearest.
pub open spec fn nanoseconds(x: Double) -> nat {
    half_even(x.size() * 1_000_000_000, one())
}

/// The nanoseconds in a number of seconds below 2^32.
pub fn to_nanoseconds(x: Double) -> (r: u64)
    requires
        x.finite(),
        !x.negative(),
        x.size() < 0x1_0000_0000 * one(),
    ensures
        r == nanoseconds(x),
{
    let m = x.magnitude();
    let sig = significand_of(m);
    let e = exponent_of(m);
    let ghost pe = pow2(e as nat);
    proof {
        lemma_decoded(m as nat);
        lemma_pow2_pos(e as nat);
        lemma_pow2_pos(1074);
        if e >= 1074 {
            if e > 1074 {
                lemma_pow2_strictly_increases(1074, e as nat);
            }
            assert(sig * pe >= 0x10_0000_0000_0000 * one()) by (nonlinear_arith)
                requires
                    sig >= 0x10_0000_0000_0000,
                    pe >= one(),
            ;
        }
    }
    let t: u32 = 1074 - e;
    let u = rounded_parts(sig, t, 1_000_000_000);
    proof {
        lemma_pow2_adds(t as nat, e as nat);
        lemma_pow2_pos(t as nat);
        let n = (sig * 1_000_000_000) as nat;
        assert(x.size() * 1_000_000_000 == n * pe) by (nonlinear_arith)
            requires
                x.size() == sig * pe,
                n == sig * 1_000_000_000,
        ;
        lemma_half_even_scales(n, pow2(t as nat), pe);
        let pt = pow2(t as nat);
        let q = n as int / pt as int;
        lemma_fundamental_div_mod(n as int, pt as int);
        assert(q < 0x1_0000_0000 * 1_000_000_000) by (nonlinear_arith)
            requires
                n == pt * q + n as int % pt as int,
                n as int % pt as int >= 0,
                n == sig * 1_000_000_000,
                sig * pe < 0x1_0000_0000 * one(),
                one() == pt * pe,
                pt > 0,
                pe > 0,
        ;
    }
    u as u64
}

/// Rounding is to the nearest whole number: the error is at most one half, and of
/// two that are equally near the even one is taken.
pub proof fn law_rounding_is_to_the_nearest(n: nat, d: nat)
    requires
        d > 0,
    ensures
        2 * n <= d * (2 * half_even(n, d) + 1),
        2 * n >= d * (2 * half_even(n, d) - 1),
        2 * n == d * (2 * half_even(n, d) + 1) || 2 * n == d * (2 * half_even(n, d) - 1)
            ==> half_even(n, d) % 2 == 0,
{
    let q = n / d;
    let r = n % d;
    vstd::arithmetic::div_mod::lemma_fundamental_div_mod(n as int, d as int);
    vstd::arithmetic::div_mod::lemma_mod_bound(n as int, d as int);
    assert(d * (2 * q + 1) == 2 * (d * q) + d) by (nonlinear_arith);
    assert(d * (2 * q - 1) == 2 * (d * q) - d) by (nonlinear_arith);
    assert(d * (2 * (q + 1) + 1) == 2 * (d * q) + 3 * d) by (nonlinear_arith);
    assert(d * (2 * (q + 1) - 1) == 2 * (d * q) + d) by (nonlinear_arith);
}

} // verus!
