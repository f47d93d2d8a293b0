//! A map from texts to values, kept in the order of its keys.

use crate::order::{law_text_order, law_text_order_chains, precedes_text, text_before};
use crate::text::{copy, same, Duplicate};
use vstd::prelude::*;

verus! {

#[derive(Debug)]
pub struct StrMap<V> {
    entries: Vec<(String, V)>,
}

/// Whether every key of a list of entries comes once, in the order of texts.
spec fn rising<V>(entries: Seq<(String, V)>) -> bool {
    forall|i: int, j: int|
        0 <= i < j < entries.len() ==> text_before(
            (#[trigger] entries[i]).0@,
            (#[trigger] entries[j]).0@,
        )
}

impl<V> StrMap<V> {
    #[verifier::type_invariant]
    spec fn ordered(self) -> bool {
        rising(self.entries@)
    }
}

spec fn entry_views<V: View>(entries: Seq<(String, V)>) -> Seq<(Seq<char>, V::V)> {
    Seq::new(entries.len(), |i: int| (entries[i].0@, entries[i].1@))
}

impl<V: View> View for StrMap<V> {
    type V = Seq<(Seq<char>, V::V)>;

    closed spec fn view(&self) -> Seq<(Seq<char>, V::V)> {
        entry_views(self.entries@)
    }
}

/// The value of a key.
pub open spec fn find<V>(s: Seq<(Seq<char>, V)>, key: Seq<char>) -> Option<V>
    decreases s.len(),
{
    if s.len() == 0 {
        None
    } else if s[0].0 == key {
        Some(s[0].1)
    } else {
        find(s.skip(1), key)
    }
}

/// The entries with a key set to a value.
pub open spec fn put<V>(s: Seq<(Seq<char>, V)>, key: Seq<char>, value: V) -> Seq<(Seq<char>, V)>
    decreases s.len(),
{
    if s.len() == 0 {
        seq![(key, value)]
    } else if s[0].0 == key {
        seq![(key, value)] + s.skip(1)
    } else if text_before(key, s[0].0) {
        seq![(key, value)] + s
    } else {
        seq![s[0]] + put(s.skip(1), key, value)
    }
}

/// The entries without a key.
pub open spec fn without<V>(s: Seq<(Seq<char>, V)>, key: Seq<char>) -> Seq<(Seq<char>, V)>
    decreases s.len(),
{
    if s.len() == 0 {
        s
    } else if s[0].0 == key {
        without(s.skip(1), key)
    } else {
        seq![s[0]] + without(s.skip(1), key)
    }
}

pub open spec fn has_key<V>(s: Seq<(Seq<char>, V)>, key: Seq<char>) -> bool {
    find(s, key) is Some
}

/// Whether every key comes once, in the order of texts.
pub open spec fn keys_ordered<V>(s: Seq<(Seq<char>, V)>) -> bool {
    forall|i: int, j: int| 0 <= i < j < s.len() ==> text_before(#[trigger] s[i].0, #[trigger] s[j].0)
}

/// Whether all keys of a list come before those of another from a place on.
pub open spec fn behind<V, W>(out: Seq<(Seq<char>, V)>, all: Seq<(Seq<char>, W)>, from: int) -> bool {
    forall|i: int, k: int|
        0 <= i < out.len() && from <= k < all.len() ==> text_before(
            (#[trigger] out[i]).0,
            (#[trigger] all[k]).0,
        )
}

// --------------------------------------------------------------------- laws

/// Setting a key changes what that key gives and nothing else.
pub proof fn law_put_then_find<V>(s: Seq<(Seq<char>, V)>, key: Seq<char>, value: V, other: Seq<char>)
    ensures
        find(put(s, key, value), key) == Some(value),
        other != key ==> find(put(s, key, value), other) == find(s, other),
    decreases s.len(),
{
    let p = put(s, key, value);
    if s.len() == 0 {
        assert(p.skip(1) =~= s);
    } else if s[0].0 == key {
        assert(p.skip(1) =~= s.skip(1));
    } else if text_before(key, s[0].0) {
        assert(p.skip(1) =~= s);
    } else {
        law_put_then_find(s.skip(1), key, value, other);
        assert(p.skip(1) =~= put(s.skip(1), key, value));
    }
}

/// Removing a key leaves every other key as it was.
pub proof fn law_without_then_find<V>(s: Seq<(Seq<char>, V)>, key: Seq<char>, other: Seq<char>)
    ensures
        find(without(s, key), key) is None,
        other != key ==> find(without(s, key), other) == find(s, other),
    decreases s.len(),
{
    if s.len() > 0 {
        law_without_then_find(s.skip(1), key, other);
        if s[0].0 != key {
            assert(without(s, key).skip(1) =~= without(s.skip(1), key));
        }
    }
}

proof fn lemma_put_head<V>(s: Seq<(Seq<char>, V)>, key: Seq<char>, value: V)
    ensures
        put(s, key, value).len() > 0,
        put(s, key, value)[0].0 == key || (s.len() > 0 && put(s, key, value)[0] == s[0]),
{
}

/// Setting a key keeps the keys in order and without repetition.
pub proof fn law_put_keeps_order<V>(s: Seq<(Seq<char>, V)>, key: Seq<char>, value: V)
    requires
        keys_ordered(s),
    ensures
        keys_ordered(put(s, key, value)),
    decreases s.len(),
{
    let p = put(s, key, value);
    if s.len() == 0 {
    } else if s[0].0 == key {
        assert forall|i: int, j: int| 0 <= i < j < p.len() implies text_before(
            #[trigger] p[i].0,
            #[trigger] p[j].0,
        ) by {
            assert(p[j] == s[j]);
            assert(p[i].0 == s[i].0);
        }
    } else if text_before(key, s[0].0) {
        assert forall|i: int, j: int| 0 <= i < j < p.len() implies text_before(
            #[trigger] p[i].0,
            #[trigger] p[j].0,
        ) by {
            assert(p[j] == s[j - 1]);
            if i == 0 {
                if j > 1 {
                    law_text_order_chains(key, s[0].0, s[j - 1].0);
                }
            } else {
                assert(p[i] == s[i - 1]);
            }
        }
    } else {
        let t = s.skip(1);
        assert forall|i: int, j: int| 0 <= i < j < t.len() implies text_before(
            #[trigger] t[i].0,
            #[trigger] t[j].0,
        ) by {
            assert(t[i] == s[i + 1] && t[j] == s[j + 1]);
        }
        law_put_keeps_order(t, key, value);
        lemma_put_head(t, key, value);
        law_text_order(key, s[0].0);
        let q = put(t, key, value);
        assert(text_before(s[0].0, q[0].0)) by {
            if q[0].0 != key {
                assert(q[0] == t[0]);
                assert(t[0] == s[1]);
            }
        }
        assert forall|i: int, j: int| 0 <= i < j < p.len() implies text_before(
            #[trigger] p[i].0,
            #[trigger] p[j].0,
        ) by {
            assert(p[j] == q[j - 1]);
            if i == 0 {
                if j > 1 {
                    law_text_order_chains(s[0].0, q[0].0, q[j - 1].0);
                }
            } else {
                assert(p[i] == q[i - 1]);
            }
        }
    }
}

/// Removing a key keeps the other entries, in their order.
pub proof fn lemma_without_entries<V>(s: Seq<(Seq<char>, V)>, key: Seq<char>)
    ensures
        forall|i: int|
            0 <= i < without(s, key).len() ==> s.contains(#[trigger] without(s, key)[i])
                && without(s, key)[i].0 != key,
        keys_ordered(s) ==> keys_ordered(without(s, key)),
    decreases s.len(),
{
    if s.len() > 0 {
        let t = s.skip(1);
        lemma_without_entries(t, key);
        let w = without(s, key);
        let u = without(t, key);
        assert forall|i: int| 0 <= i < w.len() implies s.contains(#[trigger] w[i]) && w[i].0
            != key by {
            if s[0].0 == key {
                assert(t.contains(u[i]));
                let k = choose|k: int| 0 <= k < t.len() && t[k] == u[i];
                assert(s[k + 1] == w[i]);
            } else if i == 0 {
                assert(w[0] == s[0]);
            } else {
                assert(w[i] == u[i - 1]);
                assert(t.contains(u[i - 1]));
                let k = choose|k: int| 0 <= k < t.len() && t[k] == u[i - 1];
                assert(s[k + 1] == w[i]);
            }
        }
        if keys_ordered(s) {
            assert forall|i: int, j: int| 0 <= i < j < t.len() implies text_before(
                #[trigger] t[i].0,
                #[trigger] t[j].0,
            ) by {
                assert(t[i] == s[i + 1] && t[j] == s[j + 1]);
            }
            assert forall|i: int, j: int| 0 <= i < j < w.len() implies text_before(
                #[trigger] w[i].0,
                #[trigger] w[j].0,
            ) by {
                if s[0].0 != key {
                    assert(w[j] == u[j - 1]);
                    if i == 0 {
                        assert(t.contains(u[j - 1]));
                        let k = choose|k: int| 0 <= k < t.len() && t[k] == u[j - 1];
                        assert(s[k + 1] == w[j]);
                        assert(w[0] == s[0]);
                    } else {
                        assert(w[i] == u[i - 1]);
                    }
                }
            }
        }
    }
}

pub proof fn lemma_find_at<V>(s: Seq<(Seq<char>, V)>, key: Seq<char>, k: int)
    requires
        0 <= k <= s.len(),
        forall|i: int| 0 <= i < k ==> (#[trigger] s[i]).0 != key,
        k < s.len() ==> s[k].0 == key,
    ensures
        find(s, key) == if k < s.len() {
            Some(s[k].1)
        } else {
            None
        },
    decreases s.len(),
{
    if s.len() > 0 && k > 0 {
        let t = s.skip(1);
        assert forall|i: int| 0 <= i < k - 1 implies (#[trigger] t[i]).0 != key by {
            assert(t[i] == s[i + 1]);
        }
        lemma_find_at(t, key, k - 1);
    }
}

proof fn lemma_put_at<V>(s: Seq<(Seq<char>, V)>, key: Seq<char>, value: V, k: int)
    requires
        0 <= k <= s.len(),
        forall|i: int|
            0 <= i < k ==> (#[trigger] s[i]).0 != key && !text_before(key, s[i].0),
        k < s.len() ==> s[k].0 == key || text_before(key, s[k].0),
    ensures
        put(s, key, value) == if k < s.len() && s[k].0 == key {
            s.update(k, (key, value))
        } else {
            s.insert(k, (key, value))
        },
    decreases s.len(),
{
    if s.len() == 0 {
        assert(put(s, key, value) =~= s.insert(k, (key, value)));
    } else if k == 0 {
        if s[0].0 == key {
            assert(put(s, key, value) =~= s.update(k, (key, value)));
        } else {
            assert(put(s, key, value) =~= s.insert(k, (key, value)));
        }
    } else {
        let t = s.skip(1);
        assert(s[0].0 != key && !text_before(key, s[0].0));
        assert forall|i: int| 0 <= i < k - 1 implies (#[trigger] t[i]).0 != key && !text_before(
            key,
            t[i].0,
        ) by {
            assert(t[i] == s[i + 1]);
        }
        lemma_put_at(t, key, value, k - 1);
        if k < s.len() && s[k].0 == key {
            assert(put(s, key, value) =~= s.update(k, (key, value)));
        } else {
            assert(put(s, key, value) =~= s.insert(k, (key, value)));
        }
    }
}

proof fn lemma_without_push<V>(s: Seq<(Seq<char>, V)>, key: Seq<char>, e: (Seq<char>, V))
    ensures
        without(s.push(e), key) == if e.0 == key {
            without(s, key)
        } else {
            without(s, key).push(e)
        },
    decreases s.len(),
{
    if s.len() == 0 {
        assert(s.push(e).skip(1) =~= s);
        assert(without(s.push(e), key) =~= if e.0 == key {
            without(s, key)
        } else {
            without(s, key).push(e)
        });
    } else {
        assert(s.push(e).skip(1) =~= s.skip(1).push(e));
        lemma_without_push(s.skip(1), key, e);
        assert(without(s.push(e), key) =~= if e.0 == key {
            without(s, key)
        } else {
            without(s, key).push(e)
        });
    }
}

// --------------------------------------------------------------- operations

impl<V: View> StrMap<V> {
    pub fn new() -> (r: StrMap<V>)
        ensures
            r@ == Seq::<(Seq<char>, V::V)>::empty(),
    {
        let r = StrMap { entries: Vec::new() };
        assert(r@ =~= Seq::<(Seq<char>, V::V)>::empty());
        r
    }

    pub fn len(&self) -> (r: usize)
        ensures
            r == self@.len(),
            keys_ordered(self@),
    {
        proof {
            use_type_invariant(self);
        }
        self.entries.len()
    }

    pub fn is_empty(&self) -> (r: bool)
        ensures
            r == (self@.len() == 0),
            keys_ordered(self@),
    {
        proof {
            use_type_invariant(self);
        }
        self.entries.len() == 0
    }

    /// The key at a place in the order of keys.
    pub fn key_at(&self, i: usize) -> (r: &str)
        requires
            i < self@.len(),
        ensures
            r@ == self@[i as int].0,
    {
        self.entries[i].0.as_str()
    }

    pub fn value_at(&self, i: usize) -> (r: &V)
        requires
            i < self@.len(),
        ensures
            r@ == self@[i as int].1,
    {
        &self.entries[i].1
    }

    pub fn get(&self, key: &str) -> (r: Option<&V>)
        ensures
            match r {
                Some(v) => find(self@, key@) == Some(v@),
                None => find(self@, key@) is None,
            },
    {
        let mut i: usize = 0;
        while i < self.entries.len()
            invariant
                i <= self@.len() == self.entries@.len(),
                forall|k: int| 0 <= k < i ==> (#[trigger] self@[k]).0 != key@,
            decreases self@.len() - i,
        {
            if same(self.entries[i].0.as_str(), key) {
                proof {
                    lemma_find_at(self@, key@, i as int);
                }
                return Some(&self.entries[i].1);
            }
            i = i + 1;
        }
        proof {
            lemma_find_at(self@, key@, i as int);
        }
        None
    }

    pub fn contains_key(&self, key: &str) -> (r: bool)
        ensures
            r == has_key(self@, key@),
    {
        match self.get(key) {
            Some(_) => true,
            None => false,
        }
    }

    pub fn insert(&mut self, key: &str, value: V)
        ensures
            final(self)@ == put(old(self)@, key@, value@),
            keys_ordered(final(self)@),
    {
        proof {
            use_type_invariant(&*self);
        }
        let ghost s = self@;
        assert(keys_ordered(s));
        let mut k: usize = 0;
        while k < self.entries.len() && !same(self.entries[k].0.as_str(), key) && !precedes_text(
            key,
            self.entries[k].0.as_str(),
        )
            invariant
                s == self@,
                k <= s.len() == self.entries@.len(),
                forall|i: int|
                    0 <= i < k ==> (#[trigger] s[i]).0 != key@ && !text_before(key@, s[i].0),
            decreases s.len() - k,
        {
            assert(s[k as int].0 == self.entries@[k as int].0@);
            k = k + 1;
        }
        proof {
            if k < s.len() {
                assert(s[k as int].0 == self.entries@[k as int].0@);
            }
            lemma_put_at(s, key@, value@, k as int);
            law_put_keeps_order(s, key@, value@);
        }
        let ghost vv = value@;
        let mut entries: Vec<(String, V)> = Vec::new();
        std::mem::swap(&mut entries, &mut self.entries);
        if k < entries.len() && same(entries[k].0.as_str(), key) {
            entries.set(k, (copy(key), value));
            proof {
                assert(entry_views(entries@) =~= s.update(k as int, (key@, vv)));
            }
        } else {
            entries.insert(k, (copy(key), value));
            proof {
                assert(entry_views(entries@) =~= s.insert(k as int, (key@, vv)));
            }
        }
        proof {
            lemma_rising(entries@);
        }
        self.entries = entries;
    }

    pub fn remove(&mut self, key: &str)
        ensures
            final(self)@ == without(old(self)@, key@),
            keys_ordered(final(self)@),
    {
        proof {
            use_type_invariant(&*self);
        }
        let ghost s = self@;
        assert(keys_ordered(s));
        let mut rest: Vec<(String, V)> = Vec::new();
        let mut out: Vec<(String, V)> = Vec::new();
        std::mem::swap(&mut rest, &mut self.entries);
        let ghost mut done: int = 0;
        proof {
            assert(s.take(0) =~= Seq::<(Seq<char>, V::V)>::empty());
            assert(entry_views(out@) =~= without(s.take(0), key@));
        }
        while rest.len() > 0
            invariant
                0 <= done <= s.len(),
                rest@.len() == s.len() - done,
                forall|i: int|
                    0 <= i < rest@.len() ==> ((#[trigger] rest@[i]).0@, rest@[i].1@) == s[done + i],
                entry_views(out@) == without(s.take(done), key@),
            decreases rest@.len(),
        {
            let ghost before = rest@;
            let e = rest.remove(0);
            let ghost ev = (e.0@, e.1@);
            proof {
                assert(ev == s[done]);
                assert(s.take(done + 1) =~= s.take(done).push(ev));
                lemma_without_push(s.take(done), key@, ev);
                assert forall|i: int| 0 <= i < rest@.len() implies ((#[trigger] rest@[i]).0@,
                    rest@[i].1@) == s[done + 1 + i] by {
                    assert(rest@[i] == before[i + 1]);
                }
            }
            let ghost view_before = entry_views(out@);
            if !same(e.0.as_str(), key) {
                out.push(e);
                proof {
                    assert(entry_views(out@) =~= view_before.push(ev));
                }
            }
            proof {
                done = done + 1;
            }
        }
        proof {
            assert(s.take(done) =~= s);
            lemma_without_entries(s, key@);
            lemma_rising(out@);
        }
        self.entries = out;
    }

    pub fn clear(&mut self)
        ensures
            final(self)@ == Seq::<(Seq<char>, V::V)>::empty(),
    {
        self.entries = Vec::new();
        assert(self@ =~= Seq::<(Seq<char>, V::V)>::empty());
    }
}

/// Entries are in order where their views are.
proof fn lemma_rising<V: View>(entries: Seq<(String, V)>)
    requires
        keys_ordered(entry_views(entries)),
    ensures
        rising(entries),
{
    let v = entry_views(entries);
    assert forall|i: int, j: int| 0 <= i < j < entries.len() implies text_before(
        (#[trigger] entries[i]).0@,
        (#[trigger] entries[j]).0@,
    ) by {
        assert(v[i].0 == entries[i].0@ && v[j].0 == entries[j].0@);
    }
}

impl<V: View> StrMap<V> {
    /// Takes out the entry at a place.
    pub fn remove_at(&mut self, i: usize) -> (r: (String, V))
        requires
            i < old(self)@.len(),
        ensures
            (r.0@, r.1@) == old(self)@[i as int],
            final(self)@ == old(self)@.remove(i as int),
    {
        proof {
            use_type_invariant(&*self);
        }
        let ghost s = self@;
        let mut entries: Vec<(String, V)> = Vec::new();
        std::mem::swap(&mut entries, &mut self.entries);
        let r = entries.remove(i);
        assert(entry_views(entries@) =~= s.remove(i as int));
        self.entries = entries;
        r
    }

    /// Sets the value at a place.
    pub fn set_at(&mut self, i: usize, value: V)
        requires
            i < old(self)@.len(),
        ensures
            final(self)@ == old(self)@.update(i as int, (old(self)@[i as int].0, value@)),
    {
        proof {
            use_type_invariant(&*self);
        }
        let ghost s = self@;
        let ghost v = value@;
        let mut entries: Vec<(String, V)> = Vec::new();
        std::mem::swap(&mut entries, &mut self.entries);
        let key = copy(entries[i].0.as_str());
        entries.set(i, (key, value));
        assert(entry_views(entries@) =~= s.update(i as int, (s[i as int].0, v)));
        self.entries = entries;
    }

    /// Adds an entry whose key comes behind all others.
    pub(crate) fn push_entry(&mut self, key: String, value: V)
        requires
            forall|i: int|
                0 <= i < old(self)@.len() ==> text_before((#[trigger] old(self)@[i]).0, key@),
        ensures
            final(self)@ == old(self)@.push((key@, value@)),
    {
        proof {
            use_type_invariant(&*self);
        }
        let ghost s = self@;
        let ghost e = (key@, value@);
        let mut entries: Vec<(String, V)> = Vec::new();
        std::mem::swap(&mut entries, &mut self.entries);
        let ghost before = entries@;
        entries.push((key, value));
        proof {
            assert(entry_views(entries@) =~= s.push(e));
            assert forall|i: int, j: int| 0 <= i < j < entries@.len() implies text_before(
                (#[trigger] entries@[i]).0@,
                (#[trigger] entries@[j]).0@,
            ) by {
                assert(s[i].0 == entries@[i].0@);
                if j < before.len() {
                    assert(before[i] == entries@[i] && before[j] == entries@[j]);
                }
            }
        }
        self.entries = entries;
    }
}

impl<V: Duplicate> Duplicate for StrMap<V> {
    fn duplicate(&self) -> (r: StrMap<V>) {
        proof {
            use_type_invariant(self);
        }
        let mut out: Vec<(String, V)> = Vec::new();
        let mut i: usize = 0;
        while i < self.entries.len()
            invariant
                i <= self.entries@.len(),
                out@.len() == i,
                forall|k: int|
                    0 <= k < i ==> (#[trigger] out@[k]).0@ == self.entries@[k].0@ && out@[k].1@
                        == self.entries@[k].1@,
            decreases self.entries@.len() - i,
        {
            out.push((copy(self.entries[i].0.as_str()), self.entries[i].1.duplicate()));
            i = i + 1;
        }
        assert(rising(out@));
        let r = StrMap { entries: out };
        assert(r@ =~= self@);
        r
    }
}

impl<V: Duplicate> Clone for StrMap<V> {
    fn clone(&self) -> (r: StrMap<V>)
        ensures
            r@ == self@,
    {
        self.duplicate()
    }
}

} // verus!
