//! The order of device names that people expect: `sda`, `sdz`, `sdaa`, and
//! `nvme2n1` before `nvme10n1`.

use crate::order::{
    is_ranking, law_text_order, law_text_order_chains, precedes_text, text_before, Rule,
};
use crate::spelling::law_written_numbers_are_read;
use crate::sysfs::{DeviceInfo, DeviceInfoView};
use crate::text::{
    chars_of, decimal, is_digit, lemma_views_push, number, opt, opt_same, parse_u64, same,
    string_of, views,
};
use vstd::prelude::*;

verus! {

/// A run of characters that are digits or a run of characters that are not.
pub enum NatToken {
    /// The run with its length in bytes. Shorter runs come first.
    Letters(u128, String),
    Number(u64),
}

#[verifier::ext_equal]
pub enum NatTokenView {
    Letters(nat, Seq<char>),
    Number(u64),
}

impl View for NatToken {
    type V = NatTokenView;

    open spec fn view(&self) -> NatTokenView {
        match self {
            NatToken::Letters(n, s) => NatTokenView::Letters(*n as nat, s@),
            NatToken::Number(n) => NatTokenView::Number(*n),
        }
    }
}

/// How many bytes a character takes in UTF-8.
pub open spec fn width(c: char) -> nat {
    if (c as u32) < 0x80 {
        1
    } else if (c as u32) < 0x800 {
        2
    } else if (c as u32) < 0x10000 {
        3
    } else {
        4
    }
}

pub open spec fn byte_len(s: Seq<char>) -> nat
    decreases s.len(),
{
    if s.len() == 0 {
        0
    } else {
        byte_len(s.drop_last()) + width(s.last())
    }
}

/// How many characters at the start are digits, or are not.
pub open spec fn run_len(s: Seq<char>, digits: bool) -> nat
    decreases s.len(),
{
    if s.len() == 0 || is_digit(s[0]) != digits {
        0
    } else {
        1 + run_len(s.skip(1), digits)
    }
}

pub open spec fn token(s: Seq<char>, digits: bool) -> NatTokenView {
    if digits {
        NatTokenView::Number(
            match number(s) {
                Some(n) => n,
                None => 0,
            },
        )
    } else {
        NatTokenView::Letters(byte_len(s), s)
    }
}

/// The runs of a name, in turn.
pub open spec fn key_of(s: Seq<char>) -> Seq<NatTokenView>
    decreases s.len(),
{
    if s.len() == 0 {
        seq![]
    } else {
        let digits = is_digit(s[0]);
        let n = run_len(s, digits);
        if 1 <= n <= s.len() {
            seq![token(s.take(n as int), digits)] + key_of(s.skip(n as int))
        } else {
            seq![]
        }
    }
}

pub open spec fn token_before(a: NatTokenView, b: NatTokenView) -> bool {
    match (a, b) {
        (NatTokenView::Letters(m, s), NatTokenView::Letters(n, t)) => m < n || (m == n
            && text_before(s, t)),
        (NatTokenView::Letters(_, _), NatTokenView::Number(_)) => true,
        (NatTokenView::Number(_), NatTokenView::Letters(_, _)) => false,
        (NatTokenView::Number(m), NatTokenView::Number(n)) => m < n,
    }
}

pub open spec fn key_before(a: Seq<NatTokenView>, b: Seq<NatTokenView>) -> bool
    decreases a.len(),
{
    if b.len() == 0 {
        false
    } else if a.len() == 0 {
        true
    } else if a[0] == b[0] {
        key_before(a.skip(1), b.skip(1))
    } else {
        token_before(a[0], b[0])
    }
}

proof fn lemma_run(s: Seq<char>, digits: bool, n: nat)
    requires
        n <= s.len(),
        forall|k: int| 0 <= k < n ==> is_digit(#[trigger] s[k]) == digits,
        n < s.len() ==> is_digit(s[n as int]) != digits,
    ensures
        run_len(s, digits) == n,
    decreases s.len(),
{
    if n > 0 {
        assert(is_digit(s[0]) == digits);
        assert forall|k: int| 0 <= k < n - 1 implies is_digit(#[trigger] s.skip(1)[k]) == digits by {
            assert(s.skip(1)[k] == s[k + 1]);
        }
        lemma_run(s.skip(1), digits, (n - 1) as nat);
    }
}

fn width_of(c: char) -> (r: u128)
    ensures
        r == width(c),
        r <= 4,
{
    let code = c as u32;
    if code < 0x80 {
        1
    } else if code < 0x800 {
        2
    } else if code < 0x10000 {
        3
    } else {
        4
    }
}

fn bytes_in(v: &Vec<char>, from: usize, to: usize) -> (r: u128)
    requires
        from <= to <= v@.len(),
    ensures
        r == byte_len(v@.subrange(from as int, to as int)),
{
    let mut n: u128 = 0;
    let mut i: usize = from;
    while i < to
        invariant
            from <= i <= to <= v@.len(),
            n == byte_len(v@.subrange(from as int, i as int)),
            n <= 4 * (i - from),
        decreases to - i,
    {
        proof {
            let next = v@.subrange(from as int, i + 1);
            assert(next.drop_last() =~= v@.subrange(from as int, i as int));
            assert(next.last() == v@[i as int]);
        }
        n = n + width_of(v[i]);
        i = i + 1;
    }
    n
}

fn digit(c: char) -> (r: bool)
    ensures
        r == is_digit(c),
{
    '0' <= c && c <= '9'
}

/// The runs of a name, in turn.
pub fn natural_key(s: &str) -> (r: Vec<NatToken>)
    ensures
        views(r@) == key_of(s@),
{
    broadcast use lemma_views_push;

    let v = chars_of(s);
    let mut tokens: Vec<NatToken> = Vec::new();
    let mut i: usize = 0;
    proof {
        assert(v@.skip(0) =~= v@);
        assert(views(tokens@) + key_of(v@) =~= key_of(v@));
    }
    while i < v.len()
        invariant
            i <= v@.len(),
            views(tokens@) + key_of(v@.skip(i as int)) == key_of(v@),
        decreases v@.len() - i,
    {
        let digits = digit(v[i]);
        let mut j: usize = i + 1;
        while j < v.len() && digit(v[j]) == digits
            invariant
                i < j <= v@.len(),
                forall|k: int| i <= k < j ==> is_digit(#[trigger] v@[k]) == digits,
            decreases v@.len() - j,
        {
            j = j + 1;
        }
        let ghost rest = v@.skip(i as int);
        let ghost n = (j - i) as nat;
        proof {
            assert forall|k: int| 0 <= k < n implies is_digit(#[trigger] rest[k]) == digits by {
                assert(rest[k] == v@[i + k]);
            }
            lemma_run(rest, digits, n);
            assert(rest[0] == v@[i as int]);
            assert(rest.take(n as int) =~= v@.subrange(i as int, j as int));
            assert(rest.skip(n as int) =~= v@.skip(j as int));
        }
        let run = string_of(&v, i, j);
        let next = if digits {
            NatToken::Number(
                match parse_u64(run.as_str()) {
                    Some(x) => x,
                    None => 0,
                },
            )
        } else {
            NatToken::Letters(bytes_in(&v, i, j), run)
        };
        proof {
            assert(next@ == token(rest.take(n as int), digits));
            assert(views(tokens@).push(next@) + key_of(rest.skip(n as int)) =~= views(tokens@) + (
            seq![next@] + key_of(rest.skip(n as int))));
        }
        tokens.push(next);
        i = j;
    }
    proof {
        assert(views(tokens@) + key_of(v@.skip(i as int)) =~= views(tokens@));
    }
    tokens
}

fn same_token(a: &NatToken, b: &NatToken) -> (r: bool)
    ensures
        r == (a@ == b@),
{
    match (a, b) {
        (NatToken::Letters(m, s), NatToken::Letters(n, t)) => *m == *n && same(
            s.as_str(),
            t.as_str(),
        ),
        (NatToken::Number(m), NatToken::Number(n)) => *m == *n,
        _ => false,
    }
}

fn precedes_token(a: &NatToken, b: &NatToken) -> (r: bool)
    ensures
        r == token_before(a@, b@),
{
    match (a, b) {
        (NatToken::Letters(m, s), NatToken::Letters(n, t)) => *m < *n || (*m == *n
            && precedes_text(s.as_str(), t.as_str())),
        (NatToken::Letters(_, _), NatToken::Number(_)) => true,
        (NatToken::Number(_), NatToken::Letters(_, _)) => false,
        (NatToken::Number(m), NatToken::Number(n)) => *m < *n,
    }
}

pub fn precedes_key(a: &Vec<NatToken>, b: &Vec<NatToken>) -> (r: bool)
    ensures
        r == key_before(views(a@), views(b@)),
{
    let ghost x = views(a@);
    let ghost y = views(b@);
    let mut i: usize = 0;
    proof {
        assert(x.skip(0) =~= x);
        assert(y.skip(0) =~= y);
    }
    while i < a.len() && i < b.len() && same_token(&a[i], &b[i])
        invariant
            i <= x.len(),
            i <= y.len(),
            x == views(a@),
            y == views(b@),
            key_before(x, y) == key_before(x.skip(i as int), y.skip(i as int)),
        decreases x.len() - i,
    {
        proof {
            assert(x.skip(i as int).skip(1) =~= x.skip(i + 1));
            assert(y.skip(i as int).skip(1) =~= y.skip(i + 1));
        }
        i = i + 1;
    }
    if i >= b.len() {
        false
    } else if i >= a.len() {
        true
    } else {
        precedes_token(&a[i], &b[i])
    }
}

/// Where labels are alike, the natural order of the names; devices without a
/// label first.
pub struct ByPlace;

pub open spec fn label_before(a: Option<Seq<char>>, b: Option<Seq<char>>) -> bool {
    match (a, b) {
        (None, Some(_)) => true,
        (Some(s), Some(t)) => text_before(s, t),
        _ => false,
    }
}

fn precedes_label(a: &Option<String>, b: &Option<String>) -> (r: bool)
    ensures
        r == label_before(opt(*a), opt(*b)),
{
    match (a, b) {
        (None, Some(_)) => true,
        (Some(s), Some(t)) => precedes_text(s.as_str(), t.as_str()),
        _ => false,
    }
}

impl Rule<DeviceInfo> for ByPlace {
    open spec fn before(a: DeviceInfoView, b: DeviceInfoView) -> bool {
        label_before(a.label, b.label) || (a.label == b.label && key_before(
            key_of(a.name),
            key_of(b.name),
        ))
    }

    fn precedes(a: &DeviceInfo, b: &DeviceInfo) -> (r: bool) {
        if precedes_label(&a.label, &b.label) {
            return true;
        }
        if !opt_same(&a.label, &b.label) {
            return false;
        }
        precedes_key(&natural_key(a.name.as_str()), &natural_key(b.name.as_str()))
    }
}

// ------------------------------------------------------------------------ laws

proof fn lemma_token_order(a: NatTokenView, b: NatTokenView)
    ensures
        !(token_before(a, b) && token_before(b, a)),
        token_before(a, b) || token_before(b, a) || a == b,
        !token_before(a, a),
{
    if let (NatTokenView::Letters(m, s), NatTokenView::Letters(n, t)) = (a, b) {
        law_text_order(s, t);
        law_text_order(s, s);
    } else if let NatTokenView::Letters(m, s) = a {
        law_text_order(s, s);
    }
}

proof fn lemma_token_order_chains(a: NatTokenView, b: NatTokenView, c: NatTokenView)
    requires
        token_before(a, b),
        token_before(b, c),
    ensures
        token_before(a, c),
{
    if let (
        NatTokenView::Letters(m, s),
        NatTokenView::Letters(n, t),
        NatTokenView::Letters(l, u),
    ) = (a, b, c) {
        if m == n && n == l {
            law_text_order_chains(s, t, u);
        }
    }
}

/// Names are ordered strictly and totally by their runs.
pub proof fn law_natural_order(a: Seq<NatTokenView>, b: Seq<NatTokenView>)
    ensures
        !(key_before(a, b) && key_before(b, a)),
        key_before(a, b) || key_before(b, a) || a == b,
        !key_before(a, a),
    decreases a.len(),
{
    if a.len() > 0 {
        law_natural_order(a.skip(1), a.skip(1));
    }
    if a.len() > 0 && b.len() > 0 {
        lemma_token_order(a[0], b[0]);
        if a[0] == b[0] {
            law_natural_order(a.skip(1), b.skip(1));
            if a.skip(1) == b.skip(1) {
                assert(a =~= seq![a[0]] + a.skip(1));
                assert(b =~= seq![b[0]] + b.skip(1));
            }
        }
    } else if a.len() == 0 && b.len() == 0 {
        assert(a =~= b);
    }
}

pub proof fn law_natural_order_chains(
    a: Seq<NatTokenView>,
    b: Seq<NatTokenView>,
    c: Seq<NatTokenView>,
)
    requires
        key_before(a, b),
        key_before(b, c),
    ensures
        key_before(a, c),
    decreases a.len(),
{
    if a.len() > 0 && b.len() > 0 && c.len() > 0 {
        lemma_token_order(a[0], b[0]);
        lemma_token_order(b[0], c[0]);
        lemma_token_order(a[0], c[0]);
        if a[0] == b[0] && b[0] == c[0] {
            law_natural_order_chains(a.skip(1), b.skip(1), c.skip(1));
        } else if a[0] != b[0] && b[0] != c[0] {
            lemma_token_order_chains(a[0], b[0], c[0]);
        }
    }
}

proof fn lemma_label_order(a: Option<Seq<char>>, b: Option<Seq<char>>)
    ensures
        !(label_before(a, b) && label_before(b, a)),
        label_before(a, b) || label_before(b, a) || a == b,
        !label_before(a, a),
{
    if let (Some(s), Some(t)) = (a, b) {
        law_text_order(s, t);
        law_text_order(s, s);
    } else if let Some(s) = a {
        law_text_order(s, s);
    }
}

proof fn lemma_label_order_chains(a: Option<Seq<char>>, b: Option<Seq<char>>, c: Option<Seq<char>>)
    requires
        label_before(a, b),
        label_before(b, c),
    ensures
        label_before(a, c),
{
    if let (Some(s), Some(t), Some(u)) = (a, b, c) {
        law_text_order_chains(s, t, u);
    }
}

/// Devices are ranked: labelled groups stay together, and within a group the
/// names rise.
pub proof fn law_devices_are_ranked()
    ensures
        is_ranking::<DeviceInfo, ByPlace>(),
{
    assert forall|a: DeviceInfoView, b: DeviceInfoView| #[trigger]
        <ByPlace as Rule<DeviceInfo>>::before(a, b) implies !<ByPlace as Rule<
        DeviceInfo,
    >>::before(b, a) by {
        lemma_label_order(a.label, b.label);
        law_natural_order(key_of(a.name), key_of(b.name));
    }
    assert forall|a: DeviceInfoView, b: DeviceInfoView, c: DeviceInfoView|
        !#[trigger] <ByPlace as Rule<DeviceInfo>>::before(b, a) && !#[trigger] <ByPlace as Rule<
            DeviceInfo,
        >>::before(c, b) implies !<ByPlace as Rule<DeviceInfo>>::before(c, a) by {
        lemma_label_order(a.label, b.label);
        lemma_label_order(b.label, c.label);
        lemma_label_order(a.label, c.label);
        let (x, y, z) = (key_of(a.name), key_of(b.name), key_of(c.name));
        law_natural_order(x, y);
        law_natural_order(y, z);
        law_natural_order(x, z);
        if label_before(a.label, b.label) && label_before(b.label, c.label) {
            lemma_label_order_chains(a.label, b.label, c.label);
        }
        if key_before(x, y) && key_before(y, z) {
            law_natural_order_chains(x, y, z);
        }
    }
}

proof fn lemma_key_of_both(s: Seq<char>, n: u64)
    requires
        s.len() > 0,
        forall|i: int| 0 <= i < s.len() ==> !is_digit(#[trigger] s[i]),
    ensures
        key_of(s + decimal(n as nat)) == seq![
            NatTokenView::Letters(byte_len(s), s),
            NatTokenView::Number(n),
        ],
{
    let d = decimal(n as nat);
    let all = s + d;
    law_written_numbers_are_read(n, 0);
    lemma_written_digits(n as nat);
    assert(all[0] == s[0]);
    assert forall|i: int| 0 <= i < s.len() implies is_digit(#[trigger] all[i]) == false by {
        assert(all[i] == s[i]);
    }
    assert(all[s.len() as int] == d[0]);
    lemma_run(all, false, s.len());
    assert(all.take(s.len() as int) =~= s);
    assert(all.skip(s.len() as int) =~= d);
    lemma_run(d, true, d.len());
    assert(d.take(d.len() as int) =~= d);
    let rest = d.skip(d.len() as int);
    assert(rest.len() == 0);
    assert(key_of(rest) =~= seq![]);
    assert(key_of(d) =~= seq![NatTokenView::Number(n)]);
    assert(key_of(all) =~= seq![NatTokenView::Letters(byte_len(s), s), NatTokenView::Number(n)]);
}

proof fn lemma_written_digits(n: nat)
    ensures
        decimal(n).len() > 0,
        forall|i: int| 0 <= i < decimal(n).len() ==> is_digit(#[trigger] decimal(n)[i]),
    decreases n,
{
    if n >= 10 {
        lemma_written_digits(n / 10);
        let d = decimal(n);
        assert forall|i: int| 0 <= i < d.len() implies is_digit(#[trigger] d[i]) by {
            if i < d.len() - 1 {
                assert(d[i] == decimal(n / 10)[i]);
            }
        }
    }
}

/// Of names that differ in the number at their end, the one with the lower number
/// comes first, however many digits they have.
pub proof fn law_numbers_in_names_count(s: Seq<char>, m: u64, n: u64)
    requires
        s.len() > 0,
        forall|i: int| 0 <= i < s.len() ==> !is_digit(#[trigger] s[i]),
    ensures
        key_before(key_of(s + decimal(m as nat)), key_of(s + decimal(n as nat))) <==> m < n,
{
    lemma_key_of_both(s, m);
    lemma_key_of_both(s, n);
    let a = key_of(s + decimal(m as nat));
    let b = key_of(s + decimal(n as nat));
    assert(a.skip(1) =~= seq![NatTokenView::Number(m)]);
    assert(b.skip(1) =~= seq![NatTokenView::Number(n)]);
    assert(a.skip(1).skip(1) =~= b.skip(1).skip(1));
    reveal_with_fuel(key_before, 3);
}

/// A name of letters alone comes before a longer one, and of equally long ones the
/// first by letters.
pub proof fn law_longer_names_come_later(s: Seq<char>, t: Seq<char>)
    requires
        s.len() > 0 && t.len() > 0,
        forall|i: int| 0 <= i < s.len() ==> !is_digit(#[trigger] s[i]),
        forall|i: int| 0 <= i < t.len() ==> !is_digit(#[trigger] t[i]),
    ensures
        byte_len(s) < byte_len(t) ==> key_before(key_of(s), key_of(t)),
        byte_len(s) == byte_len(t) ==> (key_before(key_of(s), key_of(t)) <==> text_before(s, t)),
{
    lemma_key_of_letters(s);
    lemma_key_of_letters(t);
    law_text_order(s, t);
    law_text_order(s, s);
    let none = Seq::<NatTokenView>::empty();
    assert(key_of(s).skip(1) =~= none);
    assert(key_of(t).skip(1) =~= none);
    reveal_with_fuel(key_before, 2);
}

proof fn lemma_key_of_letters(s: Seq<char>)
    requires
        s.len() > 0,
        forall|i: int| 0 <= i < s.len() ==> !is_digit(#[trigger] s[i]),
    ensures
        key_of(s) == seq![NatTokenView::Letters(byte_len(s), s)],
{
    lemma_run(s, false, s.len());
    assert(!is_digit(s[0]));
    assert(s.take(s.len() as int) =~= s);
    let rest = s.skip(s.len() as int);
    assert(rest.len() == 0);
    assert(key_of(rest) =~= seq![]);
    assert(key_of(s) =~= seq![NatTokenView::Letters(byte_len(s), s)]);
}

/// A character of a name counts for its bytes.
pub proof fn law_characters_count_for_their_bytes(s: Seq<char>, c: char)
    ensures
        byte_len(Seq::empty()) == 0,
        c <= '\u{7f}' ==> byte_len(s.push(c)) == byte_len(s) + 1,
        '\u{80}' <= c <= '\u{7ff}' ==> byte_len(s.push(c)) == byte_len(s) + 2,
        '\u{800}' <= c <= '\u{ffff}' ==> byte_len(s.push(c)) == byte_len(s) + 3,
        '\u{10000}' <= c ==> byte_len(s.push(c)) == byte_len(s) + 4,
{
    assert(s.push(c).drop_last() =~= s);
}

} // verus!
