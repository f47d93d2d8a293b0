//! The two levels of a JSON object that the kernel's statistics use.

use crate::strmap::{put, StrMap};
use crate::text::{same, views};
use vstd::prelude::*;

verus! {

/// A member of a JSON object: its own value where that is a whole number
/// without a sign, and the members of its value where that is an object.
#[derive(Debug)]
pub struct JsonMember {
    pub key: String,
    pub number: Option<u64>,
    pub members: Vec<(String, Option<u64>)>,
}

#[verifier::ext_equal]
pub struct JsonMemberView {
    pub key: Seq<char>,
    pub number: Option<u64>,
    pub members: Seq<(Seq<char>, Option<u64>)>,
}

impl View for JsonMember {
    type V = JsonMemberView;

    open spec fn view(&self) -> JsonMemberView {
        JsonMemberView { key: self.key@, number: self.number, members: views(self.members@) }
    }
}

/// What `serde_json::from_str` reads of a text: none where it is not JSON, and
/// the members of the object where it is one.
pub uninterp spec fn json_members(text: Seq<char>) -> Option<Seq<JsonMemberView>>;

pub open spec fn opt_members(r: Option<Vec<JsonMember>>) -> Option<Seq<JsonMemberView>> {
    match r {
        Some(v) => Some(views(v@)),
        None => None,
    }
}

/// Calls `serde_json::from_str` for a `serde_json::Value`. The claim is that
/// its result depends on the text alone; which texts are JSON and what they
/// hold is left to the crate. A value that is not an object has no members.
#[verifier::external_body]
pub(crate) fn read_json(text: &str) -> (r: Option<Vec<JsonMember>>)
    ensures
        opt_members(r) == json_members(text@),
{
    let value: serde_json::Value = serde_json::from_str(text).ok()?;
    let object = |v: &serde_json::Value| v.as_object().cloned().unwrap_or_default();
    let numbers = |v: &serde_json::Value| {
        object(v).iter().map(|(k, n)| (k.clone(), n.as_u64())).collect()
    };
    let top = object(&value);
    let members = top.iter().map(
        |(k, v)| JsonMember { key: k.clone(), number: v.as_u64(), members: numbers(v) },
    );
    Some(members.collect())
}

/// The value of a key among numbers.
pub open spec fn number_at(s: Seq<(Seq<char>, Option<u64>)>, key: Seq<char>) -> Option<u64>
    decreases s.len(),
{
    if s.len() == 0 {
        None
    } else if s[0].0 == key {
        s[0].1
    } else {
        number_at(s.skip(1), key)
    }
}

/// The members of the object under a key.
pub open spec fn members_at(s: Seq<JsonMemberView>, key: Seq<char>) -> Seq<
    (Seq<char>, Option<u64>),
>
    decreases s.len(),
{
    if s.len() == 0 {
        Seq::empty()
    } else if s[0].key == key {
        s[0].members
    } else {
        members_at(s.skip(1), key)
    }
}

/// The number under a key of the outer object.
pub open spec fn own_number(s: Seq<JsonMemberView>, key: Seq<char>) -> Option<u64>
    decreases s.len(),
{
    if s.len() == 0 {
        None
    } else if s[0].key == key {
        s[0].number
    } else {
        own_number(s.skip(1), key)
    }
}

/// The number under two keys, the outer first.
pub open spec fn inner_number(s: Seq<JsonMemberView>, outer: Seq<char>, inner: Seq<char>) -> Option<
    u64,
> {
    number_at(members_at(s, outer), inner)
}

/// Where a key stands among members, if it does.
fn place_of(v: &Vec<JsonMember>, key: &str) -> (r: usize)
    ensures
        r <= v@.len(),
        own_number(views(v@), key@) == if r < v@.len() {
            v@[r as int].number
        } else {
            None
        },
        members_at(views(v@), key@) == if r < v@.len() {
            views(v@[r as int].members@)
        } else {
            Seq::empty()
        },
{
    let ghost all = views(v@);
    let mut i: usize = 0;
    proof {
        assert(all.skip(0) =~= all);
    }
    while i < v.len()
        invariant
            i <= v@.len() == all.len(),
            all == views(v@),
            own_number(all, key@) == own_number(all.skip(i as int), key@),
            members_at(all, key@) == members_at(all.skip(i as int), key@),
        decreases v@.len() - i,
    {
        proof {
            assert(all.skip(i as int)[0] == v@[i as int]@);
            assert(all.skip(i as int).skip(1) =~= all.skip(i + 1));
        }
        if same(v[i].key.as_str(), key) {
            return i;
        }
        i = i + 1;
    }
    i
}

pub fn get_own(v: &Vec<JsonMember>, key: &str) -> (r: Option<u64>)
    ensures
        r == own_number(views(v@), key@),
{
    let i = place_of(v, key);
    if i < v.len() {
        v[i].number
    } else {
        None
    }
}

pub fn get_inner(v: &Vec<JsonMember>, outer: &str, inner: &str) -> (r: Option<u64>)
    ensures
        r == inner_number(views(v@), outer@, inner@),
{
    let at = place_of(v, outer);
    if at >= v.len() {
        return None;
    }
    let m = &v[at].members;
    let ghost all = views(m@);
    let mut i: usize = 0;
    proof {
        assert(all.skip(0) =~= all);
    }
    while i < m.len()
        invariant
            i <= m@.len() == all.len(),
            all == views(m@),
            all == members_at(views(v@), outer@),
            number_at(all, inner@) == number_at(all.skip(i as int), inner@),
        decreases m@.len() - i,
    {
        proof {
            assert(all.skip(i as int)[0] == m@[i as int]@);
            assert(all.skip(i as int).skip(1) =~= all.skip(i + 1));
        }
        if same(m[i].0.as_str(), inner) {
            return m[i].1;
        }
        i = i + 1;
    }
    None
}

/// The numbers under a key, as a map: what is not a number is left out.
pub open spec fn numbers(s: Seq<(Seq<char>, Option<u64>)>) -> Seq<(Seq<char>, u64)>
    decreases s.len(),
{
    if s.len() == 0 {
        Seq::empty()
    } else {
        match s.last().1 {
            Some(n) => put(numbers(s.drop_last()), s.last().0, n),
            None => numbers(s.drop_last()),
        }
    }
}

pub fn get_numbers(v: &Vec<JsonMember>, key: &str) -> (r: StrMap<u64>)
    ensures
        r@ == numbers(members_at(views(v@), key@)),
{
    let at = place_of(v, key);
    let mut r: StrMap<u64> = StrMap::new();
    if at >= v.len() {
        return r;
    }
    let m = &v[at].members;
    let ghost all = views(m@);
    let mut i: usize = 0;
    proof {
        assert(all.take(0) =~= Seq::<(Seq<char>, Option<u64>)>::empty());
    }
    while i < m.len()
        invariant
            i <= m@.len() == all.len(),
            all == views(m@),
            r@ == numbers(all.take(i as int)),
        decreases m@.len() - i,
    {
        proof {
            assert(all.take(i + 1).drop_last() =~= all.take(i as int));
            assert(all.take(i + 1).last() == m@[i as int]@);
        }
        if let Some(n) = m[i].1 {
            r.insert(m[i].0.as_str(), n);
        }
        i = i + 1;
    }
    proof {
        assert(all.take(i as int) =~= all);
    }
    r
}

} // verus!
