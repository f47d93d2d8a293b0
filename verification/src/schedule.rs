//! When samples are due, and which filesystem is asked for.

use crate::sysfs::{BcachefsFs, BcachefsFsView, Duration, Instant};
use crate::text::{same, views};
use crate::window::{capped_sum, since, time_since};
use vstd::prelude::*;

verus! {

/// The deadline of the next sample.
#[derive(Debug, Clone, Copy)]
pub struct Schedule {
    pub next: Instant,
    pub interval: Duration,
}

pub open spec fn deadline(now: Instant, interval: Duration) -> Schedule {
    Schedule { next: capped_sum(now, interval), interval }
}

impl Schedule {
    /// After a key: only a switch to another filesystem, which takes a sample of
    /// its own, moves the deadline.
    pub open spec fn keyed(self, switched: bool, now: Instant) -> Schedule {
        if switched {
            deadline(now, self.interval)
        } else {
            self
        }
    }

    /// After a run of keys: when each was handled, and whether it switched.
    pub open spec fn all_keyed(self, keys: Seq<(bool, Instant)>) -> Schedule
        decreases keys.len(),
    {
        if keys.len() == 0 {
            self
        } else {
            self.all_keyed(keys.drop_last()).keyed(keys.last().0, keys.last().1)
        }
    }

    pub fn new(now: Instant, interval: Duration) -> (r: Schedule)
        ensures
            r == deadline(now, interval),
    {
        Schedule { next: now.saturating_add(interval), interval }
    }

    /// How long to wait for a key.
    pub fn timeout(&self, now: Instant) -> (r: Duration)
        ensures
            r == since(self.next, now),
    {
        time_since(self.next, now)
    }

    pub fn is_due(&self, now: Instant) -> (r: bool)
        ensures
            r == (now >= self.next),
    {
        now >= self.next
    }

    pub fn key_handled(&mut self, switched: bool, now: Instant)
        ensures
            *final(self) == old(self).keyed(switched, now),
    {
        if switched {
            self.next = now.saturating_add(self.interval);
        }
    }

    pub fn sampled(&mut self, now: Instant)
        ensures
            *final(self) == deadline(now, old(self).interval),
    {
        self.next = now.saturating_add(self.interval);
    }
}

/// Keys never put a sample off: however many are pressed, the deadline stays.
pub proof fn law_keys_do_not_starve_samples(s: Schedule, keys: Seq<(bool, Instant)>)
    requires
        forall|i: int| 0 <= i < keys.len() ==> !(#[trigger] keys[i]).0,
    ensures
        s.all_keyed(keys) == s,
    decreases keys.len(),
{
    if keys.len() > 0 {
        assert(!keys[keys.len() - 1].0);
        assert forall|i: int| 0 <= i < keys.drop_last().len() implies !(
        #[trigger] keys.drop_last()[i]).0 by {
            assert(!keys[i].0);
        }
        law_keys_do_not_starve_samples(s, keys.drop_last());
    }
}

/// A wait ends when the sample is due, and not before.
pub proof fn law_a_wait_ends_at_the_deadline(s: Schedule, now: Instant)
    ensures
        now >= s.next <==> since(s.next, now) == 0,
        now < s.next ==> now + since(s.next, now) == s.next,
{
}

// ----------------------------------------------------------------- filesystems

pub open spec fn is_named(fs: BcachefsFsView, target: Seq<char>) -> bool {
    fs.fs_name == target || fs.uuid == target
}

/// The first filesystem with a name or UUID.
pub open spec fn position(all: Seq<BcachefsFsView>, target: Seq<char>) -> Option<int>
    decreases all.len(),
{
    if all.len() == 0 {
        None
    } else {
        match position(all.drop_last(), target) {
            Some(i) => Some(i),
            None => if is_named(all.last(), target) {
                Some(all.len() - 1)
            } else {
                None
            },
        }
    }
}

proof fn lemma_position(all: Seq<BcachefsFsView>, target: Seq<char>, k: int)
    requires
        0 <= k < all.len(),
        is_named(all[k], target),
        forall|i: int| 0 <= i < k ==> !is_named(#[trigger] all[i], target),
    ensures
        position(all, target) == Some(k),
    decreases all.len(),
{
    if k < all.len() - 1 {
        assert(all.drop_last()[k] == all[k]);
        lemma_position(all.drop_last(), target, k);
    } else {
        lemma_no_position(all.drop_last(), target);
    }
}

proof fn lemma_no_position(all: Seq<BcachefsFsView>, target: Seq<char>)
    requires
        forall|i: int| 0 <= i < all.len() ==> !is_named(#[trigger] all[i], target),
    ensures
        position(all, target) is None,
    decreases all.len(),
{
    if all.len() > 0 {
        assert(!is_named(all[all.len() - 1], target));
        assert forall|i: int| 0 <= i < all.drop_last().len() implies !is_named(
            #[trigger] all.drop_last()[i],
            target,
        ) by {
            assert(!is_named(all[i], target));
        }
        lemma_no_position(all.drop_last(), target);
    }
}

pub fn find_fs(all: &Vec<BcachefsFs>, target: &str) -> (r: Option<usize>)
    ensures
        match r {
            Some(i) => i < all@.len() && position(views(all@), target@) == Some(i as int),
            None => position(views(all@), target@) is None,
        },
{
    let mut i: usize = 0;
    while i < all.len()
        invariant
            i <= all@.len(),
            forall|k: int| 0 <= k < i ==> !is_named(#[trigger] views(all@)[k], target@),
        decreases all@.len() - i,
    {
        assert(views(all@)[i as int] == all@[i as int]@);
        if same(all[i].fs_name.as_str(), target) || same(all[i].uuid.as_str(), target) {
            proof {
                lemma_position(views(all@), target@, i as int);
            }
            return Some(i);
        }
        i = i + 1;
    }
    proof {
        lemma_no_position(views(all@), target@);
    }
    None
}

/// A filesystem is asked for by its name or its UUID; of several, the first counts.
pub proof fn law_filesystems_go_by_name_or_uuid(all: Seq<BcachefsFsView>, target: Seq<char>, k: int)
    requires
        0 <= k < all.len(),
    ensures
        (all[k].fs_name == target || all[k].uuid == target) && (forall|i: int|
            0 <= i < k ==> (#[trigger] all[i]).fs_name != target && all[i].uuid != target)
            ==> position(all, target) == Some(k),
        position(all, target) is None ==> all[k].fs_name != target && all[k].uuid != target,
        position(all, target) matches Some(i) ==> 0 <= i < all.len() && (all[i].fs_name == target
            || all[i].uuid == target),
{
    if (all[k].fs_name == target || all[k].uuid == target) && (forall|i: int|
        0 <= i < k ==> (#[trigger] all[i]).fs_name != target && all[i].uuid != target) {
        lemma_position(all, target, k);
    }
    lemma_position_is_named(all, target, k);
}

proof fn lemma_position_is_named(all: Seq<BcachefsFsView>, target: Seq<char>, k: int)
    ensures
        position(all, target) matches Some(i) ==> 0 <= i < all.len() && is_named(all[i], target),
        position(all, target) is None && 0 <= k < all.len() ==> !is_named(all[k], target),
    decreases all.len(),
{
    if all.len() > 0 {
        let rest = all.drop_last();
        lemma_position_is_named(rest, target, k);
        if let Some(i) = position(rest, target) {
            assert(rest[i] == all[i]);
        }
        if 0 <= k < rest.len() {
            assert(rest[k] == all[k]);
        }
    }
}

/// A sample is due one interval after the one before it.
pub proof fn law_samples_are_an_interval_apart(now: Instant, interval: Duration)
    requires
        now + interval <= u64::MAX,
    ensures
        deadline(now, interval).next == now + interval,
        deadline(now, interval).interval == interval,
{
}

} // verus!
