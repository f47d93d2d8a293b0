//! Who a device is held against: its group, and the members of it that are peers.

use crate::double::{difference, larger, product, quotient, signed, sum, whole, zero};
use crate::metrics::DeviceRateView;
use crate::order::{arranged, text_before};
use crate::peers::{
    all_picked, context_of, contexts, group_of, narrowest, overlap, rate_for, sample_of, siblings,
    target_group, unlabelled, with_media, ByIdentity,
};
use crate::strmap::{find, law_put_then_find};
use crate::sysfs::{DeviceInfo, DeviceInfoView, Duration, FsSnapshotView};
use crate::targets::TargetConfigView;
use crate::text::before_last;
use crate::topology::MediaKind;
use vstd::prelude::*;

verus! {

/// Whether the rates of a direction are enough to compare: five completions in a
/// valid interval, with a mean time and a rate.
pub open spec fn has_enough(r: DeviceRateView, write: bool) -> bool {
    &&& r.diskstats_interval_valid
    &&& write ==> r.write_completed >= 5 && r.write_await_ms.finite() && zero().less(r.write_iops)
    &&& !write ==> r.read_completed >= 5 && r.read_await_ms.finite() && zero().less(r.read_iops)
}

/// Whether two devices are under a similar load: request rates within a factor of
/// four, queues that are short or within a factor of two, and shares of reads no more
/// than a quarter apart.
pub open spec fn loaded_alike(a: DeviceRateView, b: DeviceRateView, write: bool) -> bool {
    let ratio = if write {
        quotient(a.write_iops, b.write_iops)
    } else {
        quotient(a.read_iops, b.read_iops)
    };
    let apart = difference(
        quotient(a.read_iops, sum(a.read_iops, a.write_iops)),
        quotient(b.read_iops, sum(b.read_iops, b.write_iops)),
    );
    &&& quotient(whole(1), whole(4)).at_most(ratio) && ratio.at_most(whole(4))
    &&& a.avg_queue_depth.at_most(larger(product(b.avg_queue_depth, whole(2)), whole(1)))
    &&& b.avg_queue_depth.at_most(larger(product(a.avg_queue_depth, whole(2)), whole(1)))
    &&& signed(false, apart.mag()).at_most(quotient(whole(1), whole(4)))
}

/// A member of the group becomes a peer where it is online, stands on as many disks as
/// the device and on none that counts already, has enough completions and is under a
/// similar load.
pub proof fn law_a_fitting_member_is_a_peer(
    group: Seq<DeviceInfoView>,
    m: DeviceInfoView,
    d: DeviceInfoView,
    rate: DeviceRateView,
    rates: Seq<DeviceRateView>,
    gap: Duration,
    write: bool,
)
    requires
        rate_for(rates, m.key(), gap) is Some,
        m.allocation.online == Some(true),
        m.topology.leaves.len() > 0,
        m.topology.leaves.len() == d.topology.leaves.len(),
        !overlap(m.topology.leaves, all_picked(group, d, rate, rates, gap, write).used),
        has_enough(rate_for(rates, m.key(), gap)->0, write),
        loaded_alike(rate, rate_for(rates, m.key(), gap)->0, write),
    ensures
        ({
            let before = all_picked(group, d, rate, rates, gap, write);
            let after = all_picked(group.push(m), d, rate, rates, gap, write);
            let peer = rate_for(rates, m.key(), gap)->0;
            &&& after.names == before.names.push(m.name)
            &&& after.latencies == before.latencies.push(
                if write {
                    peer.write_await_ms
                } else {
                    peer.read_await_ms
                },
            )
            &&& after.queues == before.queues.push(peer.avg_queue_depth)
            &&& after.used == before.used + m.topology.leaves
        }),
        all_picked(Seq::empty(), d, rate, rates, gap, write).used == d.topology.leaves,
        all_picked(Seq::empty(), d, rate, rates, gap, write).names.len() == 0,
{
    assert(group.push(m).drop_last() =~= group);
    assert(group.push(m).last() == m);
}

/// With two peers and enough completions of its own a device is held against them.
pub proof fn law_two_peers_suffice(
    d: DeviceInfoView,
    rate: DeviceRateView,
    group: Seq<DeviceInfoView>,
    rates: Seq<DeviceRateView>,
    gap: Duration,
    media: MediaKind,
    write: bool,
)
    requires
        all_picked(group, d, rate, rates, gap, write).names.len() >= 2,
        has_enough(rate, write),
        write ==> rate.write_iops.finite(),
        !write ==> rate.read_iops.finite(),
    ensures
        sample_of(d, rate, group, rates, gap, media, write) is Some,
{
}

// ----------------------------------------------------------------------- groups

/// The group of a member is the narrowest that the targets make for it: no target
/// that holds the member has fewer, and of as wide ones none stands before it by name.
pub proof fn law_the_narrowest_target_counts(
    configs: Seq<TargetConfigView>,
    devices: Seq<DeviceInfoView>,
    key: Seq<char>,
    k: int,
)
    requires
        0 <= k < configs.len(),
        target_group(configs[k], devices, key) is Some,
    ensures
        narrowest(configs, devices, key) matches Some(g) && {
            let other = target_group(configs[k], devices, key)->0;
            &&& g.1.len() <= other.1.len()
            &&& g.1.len() == other.1.len() ==> !text_before(other.0, g.0)
            &&& exists|i: int|
                0 <= i < configs.len() && target_group(#[trigger] configs[i], devices, key) == Some(g)
        },
    decreases configs.len(),
{
    let rest = configs.drop_last();
    let last = configs.len() - 1;
    let best = narrowest(rest, devices, key);
    let here = target_group(configs[last], devices, key);
    if k < last {
        assert(rest[k] == configs[k]);
        law_the_narrowest_target_counts(rest, devices, key, k);
        let i = choose|i: int|
            0 <= i < rest.len() && target_group(#[trigger] rest[i], devices, key) == best;
        assert(configs[i] == rest[i]);
        let other = target_group(configs[k], devices, key)->0;
        if here is Some {
            crate::order::law_text_order((here->0).0, (best->0).0);
            crate::order::law_text_order(other.0, (here->0).0);
            crate::order::law_text_order(other.0, (best->0).0);
            if text_before(other.0, (here->0).0) && text_before((here->0).0, (best->0).0) {
                crate::order::law_text_order_chains(other.0, (here->0).0, (best->0).0);
            }
        }
    } else if best is Some {
        let i = lemma_narrowest_is_one(rest, devices, key);
        assert(configs[i] == rest[i]);
        crate::order::law_text_order((here->0).0, (best->0).0);
        crate::order::law_text_order((here->0).0, (here->0).0);
    } else {
        crate::order::law_text_order((here->0).0, (here->0).0);
    }
    assert(configs[last] == configs.last());
}

proof fn lemma_narrowest_is_one(
    configs: Seq<TargetConfigView>,
    devices: Seq<DeviceInfoView>,
    key: Seq<char>,
) -> (i: int)
    requires
        narrowest(configs, devices, key) is Some,
    ensures
        0 <= i < configs.len(),
        target_group(configs[i], devices, key) == narrowest(configs, devices, key),
    decreases configs.len(),
{
    let rest = configs.drop_last();
    if narrowest(rest, devices, key) == narrowest(configs, devices, key) {
        let i = lemma_narrowest_is_one(rest, devices, key);
        assert(rest[i] == configs[i]);
        i
    } else {
        configs.len() - 1
    }
}

/// Without a target, a member is grouped with the labels beside its own; members
/// without a label are one group, and where the label is unknown there is none.
pub proof fn law_labels_group_the_rest(snap: FsSnapshotView, d: DeviceInfoView, i: int)
    requires
        narrowest(snap.target_configs, snap.devices, d.key()) is None,
    ensures
        d.label is None ==> group_of(snap, d) is None,
        d.label matches Some(l) ==> (group_of(snap, d) matches Some(g) && {
            let all = snap.devices;
            let none = l == "none"@ || l == "(none)"@;
            0 <= i < all.len() ==> (g.1.contains(all[i]) <==> (all[i].label matches Some(o) && if none {
                o == "none"@ || o == "(none)"@
            } else {
                before_last(o, '.') == before_last(l, '.')
            }))
        }),
{
    if let Some(l) = d.label {
        lemma_unlabelled(snap.devices, i);
        lemma_siblings(snap.devices, before_last(l, '.'), i);
    }
}

proof fn lemma_unlabelled(devices: Seq<DeviceInfoView>, i: int)
    ensures
        0 <= i < devices.len() ==> (unlabelled(devices).contains(devices[i]) <==> (
        devices[i].label matches Some(o) && (o == "none"@ || o == "(none)"@))),
        forall|d: DeviceInfoView| #[trigger]
            unlabelled(devices).contains(d) ==> d.label is Some && (d.label->0 == "none"@
                || d.label->0 == "(none)"@),
    decreases devices.len(),
{
    if devices.len() > 0 {
        let rest = devices.drop_last();
        lemma_unlabelled(rest, i);
        let r = unlabelled(rest);
        let all = unlabelled(devices);
        if 0 <= i < rest.len() {
            assert(rest[i] == devices[i]);
        }
        assert forall|d: DeviceInfoView| #[trigger] all.contains(d) implies r.contains(d) || d
            == devices.last() && all.len() > r.len() by {
            let k = choose|k: int| 0 <= k < all.len() && all[k] == d;
            if k < r.len() {
                assert(r[k] == d);
            }
        }
        assert forall|d: DeviceInfoView| #[trigger] r.contains(d) implies all.contains(d) by {
            let k = choose|k: int| 0 <= k < r.len() && r[k] == d;
            assert(all[k] == d);
        }
        if all.len() > r.len() {
            assert(all[all.len() - 1] == devices.last());
        }
    }
}

proof fn lemma_siblings(devices: Seq<DeviceInfoView>, parent: Seq<char>, i: int)
    ensures
        0 <= i < devices.len() ==> (siblings(devices, parent).contains(devices[i]) <==> (
        devices[i].label matches Some(o) && before_last(o, '.') == parent)),
        forall|d: DeviceInfoView| #[trigger]
            siblings(devices, parent).contains(d) ==> d.label is Some && before_last(
                d.label->0,
                '.',
            ) == parent,
    decreases devices.len(),
{
    if devices.len() > 0 {
        let rest = devices.drop_last();
        lemma_siblings(rest, parent, i);
        let r = siblings(rest, parent);
        let all = siblings(devices, parent);
        if 0 <= i < rest.len() {
            assert(rest[i] == devices[i]);
        }
        assert forall|d: DeviceInfoView| #[trigger] all.contains(d) implies r.contains(d) || d
            == devices.last() && all.len() > r.len() by {
            let k = choose|k: int| 0 <= k < all.len() && all[k] == d;
            if k < r.len() {
                assert(r[k] == d);
            }
        }
        assert forall|d: DeviceInfoView| #[trigger] r.contains(d) implies all.contains(d) by {
            let k = choose|k: int| 0 <= k < r.len() && r[k] == d;
            assert(all[k] == d);
        }
        if all.len() > r.len() {
            assert(all[all.len() - 1] == devices.last());
        }
    }
}

// --------------------------------------------------------------------- contexts

/// A device is compared where it is online, its disks are known and of one kind, and
/// it has fresh rates and a group: reads with reads, writes with writes.
pub proof fn law_a_device_is_compared_in_both_directions(
    snap: FsSnapshotView,
    rates: Seq<DeviceRateView>,
    gap: Duration,
    d: DeviceInfoView,
)
    ensures
        context_of(snap, rates, gap, d) is Some <==> rate_for(rates, d.key(), gap) is Some
            && d.topology.media is Some && d.topology.leaves.len() > 0 && d.allocation.online == Some(
            true,
        ) && group_of(snap, d) is Some,
        context_of(snap, rates, gap, d) matches Some(c) ==> {
            let rate = rate_for(rates, d.key(), gap)->0;
            let media = d.topology.media->0;
            let group = arranged::<&DeviceInfo, ByIdentity>(
                with_media((group_of(snap, d)->0).1, media),
            );
            &&& c.read == sample_of(d, rate, group, rates, gap, media, false)
            &&& c.write == sample_of(d, rate, group, rates, gap, media, true)
        },
{
}

/// Every device that is compared has a context of its own.
pub proof fn law_contexts_are_of_their_devices(
    snap: FsSnapshotView,
    rates: Seq<DeviceRateView>,
    gap: Duration,
    devices: Seq<DeviceInfoView>,
    d: DeviceInfoView,
    other: Seq<char>,
)
    ensures
        ({
            let before = contexts(snap, rates, gap, devices);
            let after = contexts(snap, rates, gap, devices.push(d));
            &&& context_of(snap, rates, gap, d) is Some ==> find(after, d.key()) == context_of(
                snap,
                rates,
                gap,
                d,
            )
            &&& other != d.key() || context_of(snap, rates, gap, d) is None ==> find(after, other)
                == find(before, other)
        }),
        contexts(snap, rates, gap, Seq::empty()).len() == 0,
{
    assert(devices.push(d).drop_last() =~= devices);
    assert(devices.push(d).last() == d);
    let before = contexts(snap, rates, gap, devices);
    if let Some(c) = context_of(snap, rates, gap, d) {
        law_put_then_find(before, d.key(), c, d.key());
        law_put_then_find(before, d.key(), c, other);
    }
}

/// The rates of a member count where they are of a time within the gap, and neither
/// they nor its mean queue are below zero or without bound; of several rows the last
/// counts.
pub proof fn law_sensible_rates_count(
    rates: Seq<DeviceRateView>,
    r: DeviceRateView,
    key: Seq<char>,
    gap: Duration,
)
    ensures
        ({
            let sensible = r.sample_seconds.finite() && zero().less(r.sample_seconds)
                && r.sample_seconds.at_most(crate::numeral::seconds(gap)) && r.read_iops.finite()
                && r.write_iops.finite() && zero().at_most(r.read_iops) && zero().at_most(
                r.write_iops,
            ) && r.avg_queue_depth.finite() && zero().at_most(r.avg_queue_depth);
            &&& sensible && r.member_key == key ==> rate_for(rates.push(r), key, gap) == Some(r)
            &&& !sensible || r.member_key != key ==> rate_for(rates.push(r), key, gap) == rate_for(
                rates,
                key,
                gap,
            )
        }),
{
    assert(rates.push(r).drop_last() =~= rates);
}

/// A target makes a group for its members, and for no other device; no target is no
/// group.
pub proof fn law_a_target_groups_its_members(
    config: TargetConfigView,
    devices: Seq<DeviceInfoView>,
    key: Seq<char>,
)
    ensures
        ({
            let g = target_group(config, devices, key);
            let m = crate::analysis::members(config, devices);
            let none = config.target.len() == 0 || config.target == "none"@ || config.target
                == "(none)"@;
            &&& g is Some <==> !none && m is Some && exists|i: int|
                0 <= i < (m->0).len() && (#[trigger] (m->0)[i]).key() == key
            &&& g matches Some(x) ==> m == Some(x.1) && x.0 == "target "@ + config.target
        }),
{
}

} // verus!
