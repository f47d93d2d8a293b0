//! Whole numbers of any size, held by their decimal digits.

use crate::text::{decimal, digit_char, digit_text};
use vstd::arithmetic::div_mod::*;
use vstd::prelude::*;

verus! {

/// The power of ten.
pub open spec fn ten(k: nat) -> nat
    decreases k,
{
    if k == 0 {
        1
    } else {
        10 * ten((k - 1) as nat)
    }
}

/// Decimal digits, the lowest first.
pub open spec fn are_digits(s: Seq<u8>) -> bool {
    forall|i: int| 0 <= i < s.len() ==> #[trigger] s[i] < 10
}

/// The number that digits write, the lowest first.
pub open spec fn worth(s: Seq<u8>) -> nat
    decreases s.len(),
{
    if s.len() == 0 {
        0
    } else {
        worth(s.drop_last()) + (s.last() as nat) * ten((s.len() - 1) as nat)
    }
}

pub proof fn lemma_ten_adds(a: nat, b: nat)
    ensures
        ten(a + b) == ten(a) * ten(b),
        ten(a) > 0,
    decreases a,
{
    if a > 0 {
        lemma_ten_adds((a - 1) as nat, b);
        assert(10 * (ten((a - 1) as nat) * ten(b)) == (10 * ten((a - 1) as nat)) * ten(b))
            by (nonlinear_arith);
        assert(ten(a + b) == 10 * ten((a - 1) as nat + b));
    } else {
        assert(1 * ten(b) == ten(b));
    }
}

pub proof fn lemma_ten_grows(a: nat, b: nat)
    requires
        a <= b,
    ensures
        0 < ten(a) <= ten(b),
    decreases b - a,
{
    lemma_ten_adds(a, 0);
    if a < b {
        lemma_ten_grows(a, (b - 1) as nat);
    }
}

/// Digits below a place are worth less than the place, and what stands above
/// it is worth its number of places.
pub proof fn lemma_split(s: Seq<u8>, k: nat)
    requires
        are_digits(s),
        k <= s.len(),
    ensures
        worth(s) == worth(s.take(k as int)) + ten(k) * worth(s.skip(k as int)),
        worth(s.take(k as int)) < ten(k),
    decreases s.len(),
{
    lemma_ten_adds(k, 0);
    if s.len() == k {
        assert(s.take(k as int) =~= s);
        assert(s.skip(k as int) =~= Seq::<u8>::empty());
        assert(ten(k) * worth(s.skip(k as int)) == 0) by (nonlinear_arith)
            requires
                worth(s.skip(k as int)) == 0,
        ;
        if k > 0 {
            let t = s.drop_last();
            assert(are_digits(t));
            lemma_split(t, (k - 1) as nat);
            assert(t.take(k as int - 1) =~= t);
            assert(s.last() < 10);
            let p = ten((k - 1) as nat);
            assert((s.last() as nat) * p <= 9 * p) by (nonlinear_arith)
                requires
                    s.last() < 10,
            ;
        }
    } else {
        let t = s.drop_last();
        assert(are_digits(t));
        lemma_split(t, k);
        let n = s.len();
        assert(s.take(k as int) =~= t.take(k as int));
        assert(s.skip(k as int).drop_last() =~= t.skip(k as int));
        assert(s.skip(k as int).last() == s.last());
        lemma_ten_adds(k, (n - 1 - k) as nat);
        let w = worth(t.skip(k as int));
        let d = s.last() as nat;
        let r = ten((n - 1 - k) as nat);
        assert(ten(k) * (w + d * r) == ten(k) * w + d * (ten(k) * r)) by (nonlinear_arith);
        assert(worth(s.skip(k as int)) == w + d * r);
    }
}

pub proof fn lemma_split_one(s: Seq<u8>)
    requires
        are_digits(s),
        s.len() > 0,
    ensures
        worth(s) == s[0] + 10 * worth(s.skip(1)),
{
    lemma_split(s, 1);
    let t = s.take(1);
    assert(t.drop_last() =~= Seq::<u8>::empty());
    assert(worth(t.drop_last()) == 0);
    assert(ten(0) == 1);
    assert(ten(1) == 10 * ten(0));
    assert(worth(t) == (t.last() as nat) * ten(0));
}

pub proof fn lemma_below(s: Seq<u8>)
    requires
        are_digits(s),
    ensures
        worth(s) < ten(s.len()),
{
    lemma_split(s, s.len());
    assert(s.take(s.len() as int) =~= s);
}

/// Without a leading zero, the number of digits shows the size.
pub proof fn lemma_lead(s: Seq<u8>)
    requires
        are_digits(s),
        s.len() > 0,
        s.last() > 0,
    ensures
        ten((s.len() - 1) as nat) <= worth(s) < ten(s.len()),
{
    lemma_below(s);
    let p = ten((s.len() - 1) as nat);
    assert((s.last() as nat) * p >= p) by (nonlinear_arith)
        requires
            s.last() > 0,
    ;
}

/// A digit vector without a leading zero.
pub open spec fn trimmed(s: Seq<u8>) -> bool {
    are_digits(s) && (s.len() > 0 ==> s.last() > 0)
}

pub fn times(v: &Vec<u8>, factor: u8) -> (r: Vec<u8>)
    requires
        trimmed(v@),
        1 <= factor <= 9,
    ensures
        trimmed(r@),
        worth(r@) == worth(v@) * factor,
        v@.len() > 0 ==> r@.len() > 0,
{
    let mut r: Vec<u8> = Vec::new();
    let mut carry: u8 = 0;
    let mut i: usize = 0;
    assert(worth(v@.take(0)) * factor == 0) by {
        assert(v@.take(0) =~= Seq::<u8>::empty());
        assert(0 * (factor as nat) == 0) by (nonlinear_arith);
    }
    while i < v.len()
        invariant
            i <= v@.len(),
            r@.len() == i,
            are_digits(r@),
            are_digits(v@),
            1 <= factor <= 9,
            carry < factor,
            worth(v@.take(i as int)) * factor == worth(r@) + carry * ten(i as nat),
            i == v@.len() && i > 0 && v@.last() > 0 ==> carry > 0 || r@.last() > 0,
        decreases v@.len() - i,
    {
        let d = v[i];
        let ghost before = r@;
        let ghost old_carry = carry;
        assert(d < 10);
        assert(d * factor <= 9 * factor) by (nonlinear_arith)
            requires
                d < 10,
        ;
        let full: u8 = d * factor + carry;
        r.push(full % 10);
        carry = full / 10;
        proof {
            assert(v@.take(i as int + 1).drop_last() =~= v@.take(i as int));
            assert(r@.drop_last() =~= before);
            let p = ten(i as nat);
            assert((worth(v@.take(i as int)) + d * p) * factor == worth(before) + (full % 10) * p
                + carry * (10 * p)) by (nonlinear_arith)
                requires
                    worth(v@.take(i as int)) * factor == worth(before) + old_carry * p,
                    full == d * factor + old_carry,
                    full == 10 * carry + (full % 10),
            ;
            assert(d > 0 ==> full > 0) by (nonlinear_arith)
                requires
                    full == d * factor + old_carry,
                    factor >= 1,
            ;
        }
        i = i + 1;
    }
    proof {
        assert(v@.take(i as int) =~= v@);
    }
    if carry > 0 {
        let ghost before = r@;
        r.push(carry);
        proof {
            assert(r@.drop_last() =~= before);
        }
    }
    r
}

/// The number that a few digits write.
pub fn small_worth(v: &Vec<u8>, from: usize) -> (r: u128)
    requires
        are_digits(v@),
        from <= v@.len(),
        v@.len() - from <= 20,
    ensures
        r == worth(v@.skip(from as int)),
{
    let mut total: u128 = 0;
    let mut i: usize = v.len();
    proof {
        assert(v@.skip(i as int) =~= Seq::<u8>::empty());
    }
    while i > from
        invariant
            from <= i <= v@.len(),
            v@.len() - from <= 20,
            are_digits(v@),
            total == worth(v@.skip(i as int)),
            total < ten((v@.len() - i) as nat),
        decreases i,
    {
        proof {
            let s = v@.skip(i - 1);
            assert(are_digits(s));
            lemma_split_one(s);
            assert(s.skip(1) =~= v@.skip(i as int));
            lemma_ten_grows((v@.len() - i) as nat, 19);
            assert(ten(19) == 10_000_000_000_000_000_000) by {
                reveal_with_fuel(ten, 20);
            }
        }
        i = i - 1;
        total = total * 10 + v[i] as u128;
    }
    total
}

pub fn has_nonzero(v: &Vec<u8>, upto: usize) -> (r: bool)
    requires
        are_digits(v@),
        upto <= v@.len(),
    ensures
        r <==> worth(v@.take(upto as int)) > 0,
{
    let mut i: usize = 0;
    proof {
        assert(v@.take(0) =~= Seq::<u8>::empty());
    }
    while i < upto
        invariant
            i <= upto <= v@.len(),
            are_digits(v@),
            worth(v@.take(i as int)) == 0,
        decreases upto - i,
    {
        proof {
            assert(v@.take(i as int + 1).drop_last() =~= v@.take(i as int));
            lemma_ten_adds(i as nat, 0);
        }
        if v[i] > 0 {
            proof {
                let s = v@.take(upto as int);
                let p = ten(i as nat);
                assert((v@[i as int] as nat) * p > 0) by (nonlinear_arith)
                    requires
                        v@[i as int] > 0,
                        p > 0,
                ;
                lemma_split(s, i as nat + 1);
                assert(s.take(i as int + 1) =~= v@.take(i as int + 1));
            }
            return true;
        }
        assert((v@[i as int] as nat) * ten(i as nat) == 0) by (nonlinear_arith)
            requires
                v@[i as int] == 0,
        ;
        i = i + 1;
    }
    false
}

/// The digits of a number, without a leading zero.
pub fn of_u64(n: u64) -> (r: Vec<u8>)
    ensures
        trimmed(r@),
        worth(r@) == n,
{
    let mut r: Vec<u8> = Vec::new();
    let mut rest = n;
    proof {
        assert(ten(0) == 1);
        assert(rest * ten(0) == n);
    }
    while rest > 0
        invariant
            are_digits(r@),
            n == worth(r@) + rest * ten(r@.len()),
            rest == 0 && r@.len() > 0 ==> r@.last() > 0,
        decreases rest,
    {
        let ghost before = r@;
        let ghost old_rest = rest;
        r.push((rest % 10) as u8);
        rest = rest / 10;
        proof {
            assert(r@.drop_last() =~= before);
            let p = ten(before.len());
            assert(old_rest * p == (old_rest % 10) * p + rest * (10 * p)) by (nonlinear_arith)
                requires
                    old_rest == 10 * rest + (old_rest % 10),
            ;
        }
    }
    assert(0 * ten(r@.len()) == 0);
    r
}

/// Digits from the highest down, as characters.
pub open spec fn written(s: Seq<u8>) -> Seq<char> {
    Seq::new(s.len(), |i: int| digit_char(s[s.len() - 1 - i] as nat))
}

pub proof fn lemma_written(s: Seq<u8>)
    requires
        trimmed(s),
        s.len() > 0,
    ensures
        written(s) == decimal(worth(s)),
    decreases s.len(),
{
    lemma_split_one(s);
    let t = s.skip(1);
    assert(s[0] < 10);
    if t.len() == 0 {
        assert(worth(t) == 0);
        assert(written(s) =~= seq![digit_char(s[0] as nat)]);
    } else {
        assert(trimmed(t)) by {
            assert(t.last() == s.last());
        }
        lemma_written(t);
        lemma_lead(t);
        lemma_ten_adds((t.len() - 1) as nat, 0);
        assert(worth(s) / 10 == worth(t) && worth(s) % 10 == s[0]);
        assert(written(s) =~= written(t).push(digit_char(s[0] as nat)));
    }
}

pub fn to_text(v: &Vec<u8>) -> (r: String)
    requires
        trimmed(v@),
        v@.len() > 0,
    ensures
        r@ == decimal(worth(v@)),
{
    let mut r = String::new();
    let mut i: usize = v.len();
    while i > 0
        invariant
            i <= v@.len(),
            are_digits(v@),
            r@ =~= written(v@).take(v@.len() - i),
        decreases i,
    {
        i = i - 1;
        assert(v@[i as int] < 10);
        r.push(digit_text(v[i]));
    }
    proof {
        assert(written(v@).take(v@.len() as int) =~= written(v@));
        lemma_written(v@);
    }
    r
}

} // verus!
