//! Orders, and the stable arrangement of a list by one.

use crate::text::{chars_of, views};
use vstd::multiset::*;
use vstd::prelude::*;

verus! {

/// The order of texts: by the first character in which they differ, a text
/// before the longer ones that it starts.
pub open spec fn text_before(a: Seq<char>, b: Seq<char>) -> bool
    decreases a.len(),
{
    if b.len() == 0 {
        false
    } else if a.len() == 0 {
        true
    } else if a[0] == b[0] {
        text_before(a.skip(1), b.skip(1))
    } else {
        a[0] < b[0]
    }
}

pub fn precedes_text(a: &str, b: &str) -> (r: bool)
    ensures
        r == text_before(a@, b@),
{
    let v = chars_of(a);
    let w = chars_of(b);
    let mut i: usize = 0;
    proof {
        assert(v@.skip(0) =~= v@);
        assert(w@.skip(0) =~= w@);
    }
    while i < v.len() && i < w.len() && v[i] == w[i]
        invariant
            i <= v@.len(),
            i <= w@.len(),
            text_before(v@, w@) == text_before(v@.skip(i as int), w@.skip(i as int)),
        decreases v@.len() - i,
    {
        proof {
            assert(v@.skip(i as int).skip(1) =~= v@.skip(i + 1));
            assert(w@.skip(i as int).skip(1) =~= w@.skip(i + 1));
        }
        i = i + 1;
    }
    if i >= w.len() {
        false
    } else if i >= v.len() {
        true
    } else {
        v[i] < w[i]
    }
}

/// Texts are ordered strictly and totally.
pub proof fn law_text_order(a: Seq<char>, b: Seq<char>)
    ensures
        !(text_before(a, b) && text_before(b, a)),
        text_before(a, b) || text_before(b, a) || a == b,
        !text_before(a, a),
    decreases a.len(),
{
    if a.len() > 0 {
        law_text_order(a.skip(1), a.skip(1));
    }
    if a.len() > 0 && b.len() > 0 && a[0] == b[0] {
        law_text_order(a.skip(1), b.skip(1));
        if a.skip(1) == b.skip(1) {
            assert forall|i: int| 0 <= i < a.len() && a.len() == b.len() implies a[i] == b[i] by {
                if i > 0 {
                    assert(a[i] == a.skip(1)[i - 1]);
                    assert(b[i] == b.skip(1)[i - 1]);
                }
            }
            assert(a.len() == a.skip(1).len() + 1);
            assert(b.len() == b.skip(1).len() + 1);
            assert(a =~= b);
        }
    } else if a.len() == 0 && b.len() == 0 {
        assert(a =~= b);
    }
}

pub proof fn law_text_order_chains(a: Seq<char>, b: Seq<char>, c: Seq<char>)
    requires
        text_before(a, b),
        text_before(b, c),
    ensures
        text_before(a, c),
    decreases a.len(),
{
    if a.len() > 0 && b.len() > 0 && c.len() > 0 && a[0] == b[0] && b[0] == c[0] {
        law_text_order_chains(a.skip(1), b.skip(1), c.skip(1));
    }
}

/// Whether texts stand in their order, each of them once.
pub open spec fn ascending(s: Seq<Seq<char>>) -> bool {
    forall|i: int, j: int| 0 <= i < j < s.len() ==> text_before(#[trigger] s[i], #[trigger] s[j])
}

/// A rule by which values are ordered.
pub trait Rule<T: View> {
    spec fn before(a: T::V, b: T::V) -> bool;

    fn precedes(a: &T, b: &T) -> (r: bool)
        ensures
            r == Self::before(a@, b@),
    ;
}

/// `s` with `x` before the first value that `x` precedes, or at the end.
pub open spec fn placed<T: View, R: Rule<T>>(s: Seq<T::V>, x: T::V) -> Seq<T::V>
    decreases s.len(),
{
    if s.len() == 0 {
        seq![x]
    } else if R::before(x, s[0]) {
        seq![x] + s
    } else {
        seq![s[0]] + placed::<T, R>(s.skip(1), x)
    }
}

/// `s` in order; values of which none precedes the other stay as they stood.
pub open spec fn arranged<T: View, R: Rule<T>>(s: Seq<T::V>) -> Seq<T::V>
    decreases s.len(),
{
    if s.len() == 0 {
        s
    } else {
        placed::<T, R>(arranged::<T, R>(s.drop_last()), s.last())
    }
}

proof fn lemma_placed_at<T: View, R: Rule<T>>(s: Seq<T::V>, x: T::V, k: int)
    requires
        0 <= k <= s.len(),
        forall|i: int| 0 <= i < k ==> !R::before(x, #[trigger] s[i]),
        k < s.len() ==> R::before(x, s[k]),
    ensures
        placed::<T, R>(s, x) == s.insert(k, x),
    decreases s.len(),
{
    if s.len() == 0 {
        assert(seq![x] =~= s.insert(k, x));
    } else if k == 0 {
        assert(seq![x] + s =~= s.insert(k, x));
    } else {
        let t = s.skip(1);
        assert(!R::before(x, s[0]));
        assert forall|i: int| 0 <= i < k - 1 implies !R::before(x, #[trigger] t[i]) by {
            assert(t[i] == s[i + 1]);
        }
        lemma_placed_at::<T, R>(t, x, k - 1);
        assert(seq![s[0]] + t.insert(k - 1, x) =~= s.insert(k, x));
    }
}

/// Sorts a list, stably.
pub fn sort<T: View, R: Rule<T>>(v: Vec<T>) -> (r: Vec<T>)
    ensures
        views(r@) == arranged::<T, R>(views(v@)),
{
    let ghost all = views(v@);
    let mut rest = v;
    let mut out: Vec<T> = Vec::new();
    let ghost mut done: int = 0;
    proof {
        assert(all.take(0) =~= Seq::<T::V>::empty());
        assert(views(out@) =~= Seq::<T::V>::empty());
        assert(all.skip(0) =~= views(rest@));
    }
    while rest.len() > 0
        invariant
            0 <= done <= all.len(),
            views(rest@) == all.skip(done),
            views(out@) == arranged::<T, R>(all.take(done)),
        decreases rest@.len(),
    {
        let ghost before_rest = rest@;
        let x = rest.remove(0);
        proof {
            assert(views(before_rest).len() == all.skip(done).len());
            assert(done < all.len());
            assert(views(before_rest)[0] == all.skip(done)[0]);
            assert(x@ == all[done]);
            assert(views(rest@) =~= all.skip(done + 1)) by {
                assert forall|i: int| 0 <= i < rest@.len() implies views(rest@)[i] == all.skip(
                    done + 1,
                )[i] by {
                    assert(rest@[i] == before_rest[i + 1]);
                    assert(views(before_rest)[i + 1] == all.skip(done)[i + 1]);
                }
            }
        }
        let mut k: usize = 0;
        let ghost s = views(out@);
        while k < out.len() && !R::precedes(&x, &out[k])
            invariant
                k <= out@.len(),
                s == views(out@),
                forall|i: int| 0 <= i < k ==> !R::before(x@, #[trigger] s[i]),
            decreases out@.len() - k,
        {
            k = k + 1;
        }
        proof {
            lemma_placed_at::<T, R>(s, x@, k as int);
            assert(all.take(done + 1).drop_last() =~= all.take(done));
            assert(all.take(done + 1).last() == all[done]);
        }
        let ghost old_out = out@;
        let ghost xv = x@;
        out.insert(k, x);
        proof {
            assert(views(out@) =~= s.insert(k as int, xv));
            done = done + 1;
        }
    }
    proof {
        assert(all.take(done) =~= all);
    }
    out
}

proof fn lemma_placed_holds<T: View, R: Rule<T>>(s: Seq<T::V>, x: T::V)
    ensures
        placed::<T, R>(s, x).to_multiset() == s.to_multiset().insert(x),
        placed::<T, R>(s, x).len() == s.len() + 1,
    decreases s.len(),
{
    broadcast use vstd::seq_lib::group_to_multiset_ensures;

    if s.len() == 0 {
        assert(placed::<T, R>(s, x) =~= s.push(x));
    } else if R::before(x, s[0]) {
        assert(seq![x] + s =~= s.insert(0, x));
        vstd::seq_lib::to_multiset_insert(s, 0, x);
    } else {
        let t = s.skip(1);
        lemma_placed_holds::<T, R>(t, x);
        let p = placed::<T, R>(t, x);
        assert(seq![s[0]] + p =~= p.insert(0, s[0]));
        assert(t.insert(0, s[0]) =~= s);
        vstd::seq_lib::to_multiset_insert(p, 0, s[0]);
        vstd::seq_lib::to_multiset_insert(t, 0, s[0]);
        assert(t.to_multiset().insert(x).insert(s[0]) =~= t.to_multiset().insert(s[0]).insert(x));
    }
}

/// Arranging a list neither loses nor adds a value.
pub proof fn law_arranged_keeps_all<T: View, R: Rule<T>>(s: Seq<T::V>)
    ensures
        arranged::<T, R>(s).to_multiset() == s.to_multiset(),
        arranged::<T, R>(s).len() == s.len(),
    decreases s.len(),
{
    broadcast use vstd::seq_lib::group_to_multiset_ensures;

    if s.len() > 0 {
        law_arranged_keeps_all::<T, R>(s.drop_last());
        lemma_placed_holds::<T, R>(arranged::<T, R>(s.drop_last()), s.last());
        assert(s.drop_last().push(s.last()) =~= s);
    }
}

/// Whether a rule sorts values into classes that are ordered among each other.
pub open spec fn is_ranking<T: View, R: Rule<T>>() -> bool {
    &&& forall|a: T::V, b: T::V| #[trigger] R::before(a, b) ==> !R::before(b, a)
    &&& forall|a: T::V, b: T::V, c: T::V|
        !#[trigger] R::before(b, a) && !#[trigger] R::before(c, b) ==> !R::before(c, a)
}

pub open spec fn in_order<T: View, R: Rule<T>>(s: Seq<T::V>) -> bool {
    forall|i: int, j: int| 0 <= i < j < s.len() ==> !R::before(#[trigger] s[j], #[trigger] s[i])
}

/// Whether a rule ranks the values of a kind.
pub open spec fn ranks_among<T: View, R: Rule<T>>(p: spec_fn(T::V) -> bool) -> bool {
    &&& forall|a: T::V, b: T::V|
        p(a) && p(b) && #[trigger] R::before(a, b) ==> !R::before(b, a)
    &&& forall|a: T::V, b: T::V, c: T::V|
        p(a) && p(b) && p(c) && !#[trigger] R::before(b, a) && !#[trigger] R::before(c, b)
            ==> !R::before(c, a)
}

proof fn lemma_placed_ordered<T: View, R: Rule<T>>(
    s: Seq<T::V>,
    x: T::V,
    good: spec_fn(T::V) -> bool,
)
    requires
        ranks_among::<T, R>(good),
        forall|i: int| 0 <= i < s.len() ==> good(#[trigger] s[i]),
        good(x),
        in_order::<T, R>(s),
    ensures
        in_order::<T, R>(placed::<T, R>(s, x)),
        forall|i: int|
            0 <= i < placed::<T, R>(s, x).len() ==> good(#[trigger] placed::<T, R>(s, x)[i]),
    decreases s.len(),
{
    let p = placed::<T, R>(s, x);
    if s.len() == 0 {
    } else if R::before(x, s[0]) {
        assert forall|i: int| 0 <= i < p.len() implies good(#[trigger] p[i]) by {
            if i > 0 {
                assert(p[i] == s[i - 1]);
            }
        }
        assert forall|i: int, j: int| 0 <= i < j < p.len() implies !R::before(
            #[trigger] p[j],
            #[trigger] p[i],
        ) by {
            assert(good(s[0]));
            if i == 0 {
                assert(p[j] == s[j - 1]);
                assert(good(s[j - 1]));
                if j > 1 {
                    assert(!R::before(s[j - 1], s[0]));
                }
                assert(!R::before(s[0], x));
            } else {
                assert(p[i] == s[i - 1] && p[j] == s[j - 1]);
            }
        }
    } else {
        let t = s.skip(1);
        assert(good(s[0]));
        assert forall|i: int| 0 <= i < t.len() implies good(#[trigger] t[i]) by {
            assert(t[i] == s[i + 1]);
        }
        assert forall|i: int, j: int| 0 <= i < j < t.len() implies !R::before(
            #[trigger] t[j],
            #[trigger] t[i],
        ) by {
            assert(t[i] == s[i + 1] && t[j] == s[j + 1]);
        }
        lemma_placed_ordered::<T, R>(t, x, good);
        let q = placed::<T, R>(t, x);
        lemma_placed_holds::<T, R>(t, x);
        assert forall|i: int| 0 <= i < p.len() implies good(#[trigger] p[i]) by {
            if i > 0 {
                assert(p[i] == q[i - 1]);
            }
        }
        assert forall|i: int, j: int| 0 <= i < j < p.len() implies !R::before(
            #[trigger] p[j],
            #[trigger] p[i],
        ) by {
            assert(p[j] == q[j - 1]);
            if i == 0 {
                // Every value of `q` is `x` or one of `t`; none precedes `s[0]`.
                broadcast use vstd::seq_lib::group_to_multiset_ensures;

                assert(q.to_multiset().count(q[j - 1]) > 0) by {
                    assert(q.contains(q[j - 1]));
                }
                if q[j - 1] != x {
                    assert(t.to_multiset().count(q[j - 1]) > 0);
                    assert(t.contains(q[j - 1]));
                    let k = choose|k: int| 0 <= k < t.len() && t[k] == q[j - 1];
                    assert(s[k + 1] == t[k]);
                    assert(!R::before(s[k + 1], s[0]));
                }
            } else {
                assert(p[i] == q[i - 1]);
            }
        }
    }
}

/// Values of a kind that a rule ranks are in order once they are arranged.
pub proof fn law_arranged_among_is_ordered<T: View, R: Rule<T>>(
    s: Seq<T::V>,
    good: spec_fn(T::V) -> bool,
)
    requires
        ranks_among::<T, R>(good),
        forall|i: int| 0 <= i < s.len() ==> good(#[trigger] s[i]),
    ensures
        in_order::<T, R>(arranged::<T, R>(s)),
        forall|i: int|
            0 <= i < arranged::<T, R>(s).len() ==> good(#[trigger] arranged::<T, R>(s)[i]),
    decreases s.len(),
{
    if s.len() > 0 {
        let rest = s.drop_last();
        assert forall|i: int| 0 <= i < rest.len() implies good(#[trigger] rest[i]) by {
            assert(rest[i] == s[i]);
        }
        assert(good(s[s.len() - 1]));
        law_arranged_among_is_ordered::<T, R>(rest, good);
        lemma_placed_ordered::<T, R>(arranged::<T, R>(rest), s.last(), good);
    }
}

/// Under a rule that ranks, an arranged list is in order.
pub proof fn law_arranged_is_ordered<T: View, R: Rule<T>>(s: Seq<T::V>)
    requires
        is_ranking::<T, R>(),
    ensures
        in_order::<T, R>(arranged::<T, R>(s)),
{
    law_arranged_among_is_ordered::<T, R>(s, |v: T::V| true);
}

/// A value is in the arranged list exactly where it is in the list.
pub proof fn law_arranged_holds_the_same<T: View, R: Rule<T>>(s: Seq<T::V>, x: T::V)
    ensures
        arranged::<T, R>(s).contains(x) <==> s.contains(x),
{
    broadcast use vstd::seq_lib::group_to_multiset_ensures;

    law_arranged_keeps_all::<T, R>(s);
    let a = arranged::<T, R>(s);
    assert(a.contains(x) <==> a.to_multiset().count(x) > 0);
    assert(s.contains(x) <==> s.to_multiset().count(x) > 0);
}

// -------------------------------------------------------------------- counting

/// How many values of a list are of a kind.
pub open spec fn how_many<V>(s: Seq<V>, p: spec_fn(V) -> bool) -> nat
    decreases s.len(),
{
    if s.len() == 0 {
        0
    } else {
        how_many(s.drop_last(), p) + if p(s.last()) {
            1nat
        } else {
            0
        }
    }
}

pub proof fn lemma_how_many_first<V>(s: Seq<V>, p: spec_fn(V) -> bool)
    requires
        s.len() > 0,
    ensures
        how_many(s, p) == how_many(s.skip(1), p) + if p(s[0]) {
            1nat
        } else {
            0
        },
    decreases s.len(),
{
    if s.len() > 1 {
        let rest = s.drop_last();
        lemma_how_many_first(rest, p);
        assert(rest.skip(1) =~= s.skip(1).drop_last());
        assert(s.skip(1).last() == s.last());
        assert(rest[0] == s[0]);
    } else {
        assert(s.skip(1) =~= Seq::<V>::empty());
        assert(s.drop_last() =~= Seq::<V>::empty());
    }
}

proof fn lemma_how_many_placed<T: View, R: Rule<T>>(
    s: Seq<T::V>,
    x: T::V,
    p: spec_fn(T::V) -> bool,
)
    ensures
        how_many(placed::<T, R>(s, x), p) == how_many(s, p) + if p(x) {
            1nat
        } else {
            0
        },
    decreases s.len(),
{
    let q = placed::<T, R>(s, x);
    if s.len() == 0 {
        assert(q.drop_last() =~= s);
    } else if R::before(x, s[0]) {
        lemma_how_many_first(q, p);
        assert(q.skip(1) =~= s);
    } else {
        let t = s.skip(1);
        lemma_how_many_placed::<T, R>(t, x, p);
        lemma_how_many_first(q, p);
        lemma_how_many_first(s, p);
        assert(q.skip(1) =~= placed::<T, R>(t, x));
    }
}

/// Arranging changes no count.
pub proof fn law_arranging_keeps_counts<T: View, R: Rule<T>>(
    s: Seq<T::V>,
    p: spec_fn(T::V) -> bool,
)
    ensures
        how_many(arranged::<T, R>(s), p) == how_many(s, p),
    decreases s.len(),
{
    if s.len() > 0 {
        law_arranging_keeps_counts::<T, R>(s.drop_last(), p);
        lemma_how_many_placed::<T, R>(arranged::<T, R>(s.drop_last()), s.last(), p);
    }
}

/// Values of a kind up to a place, and none of it behind.
pub proof fn lemma_how_many_until<V>(s: Seq<V>, p: spec_fn(V) -> bool, k: int)
    requires
        0 <= k <= s.len(),
    ensures
        (forall|i: int| 0 <= i < k ==> p(#[trigger] s[i])) ==> how_many(s, p) >= k,
        (forall|i: int| k <= i < s.len() ==> !p(#[trigger] s[i])) ==> how_many(s, p) <= k,
        how_many(s, p) <= s.len(),
    decreases s.len(),
{
    if s.len() > 0 {
        let rest = s.drop_last();
        let n = s.len() - 1;
        let m = if k < n {
            k
        } else {
            n
        };
        lemma_how_many_until(rest, p, m);
        if forall|i: int| 0 <= i < k ==> p(#[trigger] s[i]) {
            assert forall|i: int| 0 <= i < m implies p(#[trigger] rest[i]) by {
                assert(rest[i] == s[i]);
            }
            if k > n {
                assert(p(s[n]));
            }
        }
        if forall|i: int| k <= i < s.len() ==> !p(#[trigger] s[i]) {
            assert forall|i: int| m <= i < rest.len() implies !p(#[trigger] rest[i]) by {
                assert(rest[i] == s[i]);
            }
            if k <= n {
                assert(!p(s[n]));
            }
        }
    }
}

/// The order of texts as a rule.
pub struct ByText;

impl Rule<String> for ByText {
    open spec fn before(a: Seq<char>, b: Seq<char>) -> bool {
        text_before(a, b)
    }

    fn precedes(a: &String, b: &String) -> (r: bool) {
        precedes_text(a.as_str(), b.as_str())
    }
}

/// Texts are ranked by their order.
pub proof fn law_texts_are_ranked()
    ensures
        is_ranking::<String, ByText>(),
{
    assert forall|a: Seq<char>, b: Seq<char>| #[trigger]
        <ByText as Rule<String>>::before(a, b) implies !<ByText as Rule<String>>::before(b, a) by {
        law_text_order(a, b);
    }
    assert forall|a: Seq<char>, b: Seq<char>, c: Seq<char>|
        !#[trigger] <ByText as Rule<String>>::before(b, a) && !#[trigger] <ByText as Rule<
            String,
        >>::before(c, b) implies !<ByText as Rule<String>>::before(c, a) by {
        law_text_order(a, b);
        law_text_order(b, c);
        law_text_order(a, c);
        if text_before(a, b) && text_before(b, c) {
            law_text_order_chains(a, b, c);
        }
    }
}

/// Texts that are in order already stay as they stand.
pub proof fn law_ordered_texts_stay(s: Seq<Seq<char>>)
    requires
        ascending(s),
    ensures
        arranged::<String, ByText>(s) == s,
    decreases s.len(),
{
    if s.len() > 0 {
        let rest = s.drop_last();
        assert(ascending(rest)) by {
            assert forall|i: int, j: int| 0 <= i < j < rest.len() implies text_before(
                #[trigger] rest[i],
                #[trigger] rest[j],
            ) by {
                assert(rest[i] == s[i] && rest[j] == s[j]);
            }
        }
        law_ordered_texts_stay(rest);
        let n = rest.len() as int;
        assert forall|i: int| 0 <= i < n implies !<ByText as Rule<String>>::before(
            s.last(),
            #[trigger] rest[i],
        ) by {
            assert(rest[i] == s[i]);
            assert(text_before(s[i], s[n]));
            law_text_order(s[i], s[n]);
        }
        lemma_placed_at::<String, ByText>(rest, s.last(), n);
        assert(rest.insert(n, s.last()) =~= s);
    }
}

} // verus!
