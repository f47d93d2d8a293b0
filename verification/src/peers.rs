//! Latency among comparable peers; never a median over unlike disks.

use crate::analysis::{members, members_for};
use crate::double::{difference, larger, product, quotient, signed, sum, whole, zero, Double};
use crate::measures::{is_median, lemma_ranked};
use crate::metrics::{ByRank, DeviceRate, DeviceRateView, Rates};
use crate::numeral::{seconds, to_seconds};
use crate::order::{arranged, law_arranged_keeps_all, precedes_text, sort, text_before, Rule};
use crate::strmap::{put, StrMap};
use crate::sysfs::{DeviceInfo, DeviceInfoView, Duration, FsSnapshot, FsSnapshotView};
use crate::targets::{TargetConfig, TargetConfigView};
use crate::text::{
    all_quoted, before_last, bracketed, cat2, cat3, cat7, copy, copy_all, count, debug_text,
    dup_opt, holds, in_brackets, item, lemma_views_push, opt, opt_bool, opt_bool_text, parent_of,
    quote_all, quoted, same, views, Duplicate,
};
use crate::topology::MediaKind;
use vstd::prelude::*;

verus! {

/// One direction of a device beside its peers.
#[derive(Debug)]
pub struct PeerSample {
    pub await_ms: Double,
    pub median_ms: Double,
    pub completed: u64,
    pub queue: Double,
    pub median_queue: Double,
    pub peers: Vec<String>,
    pub outlier: bool,
    pub floor_ms: Double,
    pub selection_evidence: Vec<String>,
}

#[verifier::ext_equal]
pub struct PeerSampleView {
    pub await_ms: Double,
    pub median_ms: Double,
    pub completed: u64,
    pub queue: Double,
    pub median_queue: Double,
    pub peers: Seq<Seq<char>>,
    pub outlier: bool,
    pub floor_ms: Double,
    pub selection_evidence: Seq<Seq<char>>,
}

impl View for PeerSample {
    type V = PeerSampleView;

    open spec fn view(&self) -> PeerSampleView {
        PeerSampleView {
            await_ms: self.await_ms,
            median_ms: self.median_ms,
            completed: self.completed,
            queue: self.queue,
            median_queue: self.median_queue,
            peers: views(self.peers@),
            outlier: self.outlier,
            floor_ms: self.floor_ms,
            selection_evidence: views(self.selection_evidence@),
        }
    }
}

impl Duplicate for PeerSample {
    fn duplicate(&self) -> (r: PeerSample) {
        PeerSample {
            await_ms: self.await_ms,
            median_ms: self.median_ms,
            completed: self.completed,
            queue: self.queue,
            median_queue: self.median_queue,
            peers: copy_all(&self.peers),
            outlier: self.outlier,
            floor_ms: self.floor_ms,
            selection_evidence: copy_all(&self.selection_evidence),
        }
    }
}

impl Clone for PeerSample {
    fn clone(&self) -> (r: PeerSample)
        ensures
            r@ == self@,
    {
        self.duplicate()
    }
}

/// A device among the members of its group.
#[derive(Debug)]
pub struct PeerContext {
    pub description: String,
    pub signature: String,
    pub read: Option<PeerSample>,
    pub write: Option<PeerSample>,
}

#[verifier::ext_equal]
pub struct PeerContextView {
    pub description: Seq<char>,
    pub signature: Seq<char>,
    pub read: Option<PeerSampleView>,
    pub write: Option<PeerSampleView>,
}

impl View for PeerContext {
    type V = PeerContextView;

    open spec fn view(&self) -> PeerContextView {
        PeerContextView {
            description: self.description@,
            signature: self.signature@,
            read: opt(self.read),
            write: opt(self.write),
        }
    }
}

impl Duplicate for PeerContext {
    fn duplicate(&self) -> (r: PeerContext) {
        PeerContext {
            description: copy(self.description.as_str()),
            signature: copy(self.signature.as_str()),
            read: dup_opt(&self.read),
            write: dup_opt(&self.write),
        }
    }
}

impl Clone for PeerContext {
    fn clone(&self) -> (r: PeerContext)
        ensures
            r@ == self@,
    {
        self.duplicate()
    }
}

impl PeerContextView {
    pub open spec fn is_outlier(self) -> bool {
        (self.read is Some && self.read->0.outlier) || (self.write is Some && self.write->0.outlier)
    }
}

impl PeerContext {
    pub fn outlier(&self) -> (r: bool)
        ensures
            r == self@.is_outlier(),
    {
        let read = match &self.read {
            Some(s) => s.outlier,
            None => false,
        };
        let write = match &self.write {
            Some(s) => s.outlier,
            None => false,
        };
        read || write
    }
}

/// The median: of an even number of values, the mean of the middle two.
pub open spec fn middle(values: Seq<Double>) -> Double {
    let s = arranged::<Double, ByRank>(values);
    let mid = (values.len() / 2) as int;
    if values.len() % 2 == 0 {
        quotient(sum(s[mid - 1], s[mid]), whole(2))
    } else {
        s[mid]
    }
}

fn median(values: Vec<Double>) -> (r: Double)
    requires
        values@.len() > 0,
    ensures
        r == middle(values@),
{
    let ghost all = values@;
    let sorted = sort::<Double, ByRank>(values);
    proof {
        assert(views(all) =~= all);
        assert(views(sorted@) =~= sorted@);
        law_arranged_keeps_all::<Double, ByRank>(all);
    }
    let n = sorted.len();
    let mid = n / 2;
    if n % 2 == 0 {
        sorted[mid - 1].plus(sorted[mid]).over(Double::from_u64(2))
    } else {
        sorted[mid]
    }
}

// ---------------------------------------------------------------------- groups

pub open spec fn no_group(s: Seq<char>) -> bool {
    s == "none"@ || s == "(none)"@
}

pub open spec fn holds_member(devices: Seq<DeviceInfoView>, key: Seq<char>) -> bool {
    exists|i: int| 0 <= i < devices.len() && (#[trigger] devices[i]).key() == key
}

/// The group that a target makes for one of its members.
pub open spec fn target_group(
    config: TargetConfigView,
    devices: Seq<DeviceInfoView>,
    key: Seq<char>,
) -> Option<(Seq<char>, Seq<DeviceInfoView>)> {
    if config.target.len() == 0 || no_group(config.target) {
        None
    } else {
        match members(config, devices) {
            Some(m) => if holds_member(m, key) {
                Some(("target "@ + config.target, m))
            } else {
                None
            },
            None => None,
        }
    }
}

/// Whether a group is narrower than another; of equally wide ones, the first
/// by name.
pub open spec fn narrower(
    a: (Seq<char>, Seq<DeviceInfoView>),
    b: (Seq<char>, Seq<DeviceInfoView>),
) -> bool {
    a.1.len() < b.1.len() || (a.1.len() == b.1.len() && text_before(a.0, b.0))
}

/// The narrowest group that the targets make. A target of one member is never
/// widened to find it peers of another role.
pub open spec fn narrowest(
    configs: Seq<TargetConfigView>,
    devices: Seq<DeviceInfoView>,
    key: Seq<char>,
) -> Option<(Seq<char>, Seq<DeviceInfoView>)>
    decreases configs.len(),
{
    if configs.len() == 0 {
        None
    } else {
        let best = narrowest(configs.drop_last(), devices, key);
        match (best, target_group(configs.last(), devices, key)) {
            (Some(b), Some(g)) => if narrower(g, b) {
                Some(g)
            } else {
                Some(b)
            },
            (None, Some(g)) => Some(g),
            (b, None) => b,
        }
    }
}

pub open spec fn unlabelled(devices: Seq<DeviceInfoView>) -> Seq<DeviceInfoView>
    decreases devices.len(),
{
    if devices.len() == 0 {
        Seq::empty()
    } else {
        let rest = unlabelled(devices.drop_last());
        match devices.last().label {
            Some(l) => if no_group(l) {
                rest.push(devices.last())
            } else {
                rest
            },
            None => rest,
        }
    }
}

pub open spec fn siblings(devices: Seq<DeviceInfoView>, parent: Seq<char>) -> Seq<DeviceInfoView>
    decreases devices.len(),
{
    if devices.len() == 0 {
        Seq::empty()
    } else {
        let rest = siblings(devices.drop_last(), parent);
        match devices.last().label {
            Some(l) => if before_last(l, '.') == parent {
                rest.push(devices.last())
            } else {
                rest
            },
            None => rest,
        }
    }
}

/// The group of a device: its narrowest target, else the labels beside its own.
pub open spec fn group_of(snap: FsSnapshotView, d: DeviceInfoView) -> Option<
    (Seq<char>, Seq<DeviceInfoView>),
> {
    match narrowest(snap.target_configs, snap.devices, d.key()) {
        Some(g) => Some(g),
        None => match d.label {
            None => None,
            Some(label) => if no_group(label) {
                Some(("unlabelled members"@, unlabelled(snap.devices)))
            } else {
                let parent = before_last(label, '.');
                Some(("label group "@ + parent, siblings(snap.devices, parent)))
            },
        },
    }
}

pub open spec fn opt_group(g: Option<(String, Vec<&DeviceInfo>)>) -> Option<
    (Seq<char>, Seq<DeviceInfoView>),
> {
    match g {
        Some((name, v)) => Some((name@, views(v@))),
        None => None,
    }
}

fn is_none_label(s: &str) -> (r: bool)
    ensures
        r == no_group(s@),
{
    same(s, "none") || same(s, "(none)")
}

fn contains_member(devices: &Vec<&DeviceInfo>, key: &str) -> (r: bool)
    ensures
        r == holds_member(views(devices@), key@),
{
    let ghost all = views(devices@);
    let mut i: usize = 0;
    while i < devices.len()
        invariant
            i <= devices@.len() == all.len(),
            all == views(devices@),
            forall|k: int| 0 <= k < i ==> (#[trigger] all[k]).key() != key@,
        decreases all.len() - i,
    {
        let d: &DeviceInfo = devices[i];
        assert(all[i as int] == d@);
        if same(d.identity().as_str(), key) {
            return true;
        }
        i = i + 1;
    }
    false
}

fn group_for<'a>(config: &TargetConfig, devices: &'a Vec<DeviceInfo>, key: &str) -> (r: Option<
    (String, Vec<&'a DeviceInfo>),
>)
    ensures
        opt_group(r) == target_group(config@, views(devices@), key@),
{
    if config.target.as_str().unicode_len() == 0 || is_none_label(config.target.as_str()) {
        return None;
    }
    match members_for(config, devices) {
        Some(m) => {
            if contains_member(&m, key) {
                Some((cat2("target ", config.target.as_str()), m))
            } else {
                None
            }
        },
        None => None,
    }
}

fn narrowest_group<'a>(configs: &Vec<TargetConfig>, devices: &'a Vec<DeviceInfo>, key: &str) -> (r: Option<
    (String, Vec<&'a DeviceInfo>),
>)
    ensures
        opt_group(r) == narrowest(views(configs@), views(devices@), key@),
{
    let ghost all = views(configs@);
    let mut best: Option<(String, Vec<&'a DeviceInfo>)> = None;
    let mut i: usize = 0;
    proof {
        assert(all.take(0) =~= Seq::<TargetConfigView>::empty());
    }
    while i < configs.len()
        invariant
            i <= configs@.len() == all.len(),
            all == views(configs@),
            opt_group(best) == narrowest(all.take(i as int), views(devices@), key@),
        decreases all.len() - i,
    {
        proof {
            assert(all.take(i + 1).drop_last() =~= all.take(i as int));
            assert(all.take(i + 1).last() == configs@[i as int]@);
        }
        if let Some(g) = group_for(&configs[i], devices, key) {
            let better = match &best {
                Some(b) => {
                    let m = count(&g.1);
                    let n = count(&b.1);
                    m < n || (m == n && precedes_text(g.0.as_str(), b.0.as_str()))
                },
                None => true,
            };
            if better {
                best = Some(g);
            }
        }
        i = i + 1;
    }
    proof {
        assert(all.take(i as int) =~= all);
    }
    best
}

fn those_unlabelled<'a>(devices: &'a Vec<DeviceInfo>) -> (r: Vec<&'a DeviceInfo>)
    ensures
        views(r@) == unlabelled(views(devices@)),
{
    broadcast use lemma_views_push;

    let ghost all = views(devices@);
    let mut r: Vec<&'a DeviceInfo> = Vec::new();
    let mut i: usize = 0;
    proof {
        assert(all.take(0) =~= Seq::<DeviceInfoView>::empty());
        assert(views(r@) =~= Seq::<DeviceInfoView>::empty());
    }
    while i < devices.len()
        invariant
            i <= devices@.len() == all.len(),
            all == views(devices@),
            views(r@) == unlabelled(all.take(i as int)),
        decreases all.len() - i,
    {
        proof {
            assert(all.take(i + 1).drop_last() =~= all.take(i as int));
            assert(all.take(i + 1).last() == devices@[i as int]@);
        }
        if let Some(l) = &devices[i].label {
            if is_none_label(l.as_str()) {
                r.push(&devices[i]);
            }
        }
        i = i + 1;
    }
    proof {
        assert(all.take(i as int) =~= all);
    }
    r
}

fn those_beside<'a>(devices: &'a Vec<DeviceInfo>, parent: &str) -> (r: Vec<&'a DeviceInfo>)
    ensures
        views(r@) == siblings(views(devices@), parent@),
{
    broadcast use lemma_views_push;

    let ghost all = views(devices@);
    let mut r: Vec<&'a DeviceInfo> = Vec::new();
    let mut i: usize = 0;
    proof {
        assert(all.take(0) =~= Seq::<DeviceInfoView>::empty());
        assert(views(r@) =~= Seq::<DeviceInfoView>::empty());
    }
    while i < devices.len()
        invariant
            i <= devices@.len() == all.len(),
            all == views(devices@),
            views(r@) == siblings(all.take(i as int), parent@),
        decreases all.len() - i,
    {
        proof {
            assert(all.take(i + 1).drop_last() =~= all.take(i as int));
            assert(all.take(i + 1).last() == devices@[i as int]@);
        }
        if let Some(l) = &devices[i].label {
            if same(parent_of(l.as_str(), '.').as_str(), parent) {
                r.push(&devices[i]);
            }
        }
        i = i + 1;
    }
    proof {
        assert(all.take(i as int) =~= all);
    }
    r
}

fn cohort<'a>(snap: &'a FsSnapshot, device: &DeviceInfo) -> (r: Option<
    (String, Vec<&'a DeviceInfo>),
>)
    ensures
        opt_group(r) == group_of(snap@, device@),
{
    let key = device.identity();
    if let Some(g) = narrowest_group(&snap.target_configs, &snap.devices, key.as_str()) {
        return Some(g);
    }
    match &device.label {
        None => None,
        Some(label) => {
            if is_none_label(label.as_str()) {
                Some((copy("unlabelled members"), those_unlabelled(&snap.devices)))
            } else {
                let parent = parent_of(label.as_str(), '.');
                Some(
                    (
                        cat2("label group ", parent.as_str()),
                        those_beside(&snap.devices, parent.as_str()),
                    ),
                )
            }
        },
    }
}

// ------------------------------------------------------------------ directions

pub open spec fn quarter() -> Double {
    quotient(whole(1), whole(4))
}

/// The completions of one direction, their mean time and their rate.
pub open spec fn lane(r: DeviceRateView, write: bool) -> (u64, Double, Double) {
    if write {
        (r.write_completed, r.write_await_ms, r.write_iops)
    } else {
        (r.read_completed, r.read_await_ms, r.read_iops)
    }
}

/// Whether a direction has enough completions to compare.
pub open spec fn comparable(r: DeviceRateView, write: bool) -> bool {
    let (completed, await_ms, iops) = lane(r, write);
    &&& r.diskstats_interval_valid
    &&& completed >= 5
    &&& await_ms.finite()
    &&& !iops.at_most(zero())
}

/// Whether two devices do similar work: request rates within a factor of
/// four, similar queues, and a similar mix of reads and writes.
pub open spec fn similar(a: DeviceRateView, b: DeviceRateView, write: bool) -> bool {
    let ratio = quotient(lane(a, write).2, lane(b, write).2);
    let mix = difference(quotient(a.read_iops, a.iops()), quotient(b.read_iops, b.iops()));
    &&& quarter().at_most(ratio) && ratio.at_most(whole(4))
    &&& !larger(product(b.avg_queue_depth, whole(2)), whole(1)).less(a.avg_queue_depth)
    &&& !larger(product(a.avg_queue_depth, whole(2)), whole(1)).less(b.avg_queue_depth)
    &&& !quarter().less(signed(false, mix.mag()))
}

/// Whether the rates of a device are a fresh and sensible sample.
pub open spec fn usable(r: DeviceRateView, gap: Duration) -> bool {
    &&& r.sample_seconds.finite()
    &&& zero().less(r.sample_seconds)
    &&& r.sample_seconds.at_most(seconds(gap))
    &&& r.read_iops.finite() && r.write_iops.finite()
    &&& zero().at_most(r.read_iops) && zero().at_most(r.write_iops)
    &&& r.avg_queue_depth.finite() && zero().at_most(r.avg_queue_depth)
}

/// The usable rates of a member.
pub open spec fn rate_for(rates: Seq<DeviceRateView>, key: Seq<char>, gap: Duration) -> Option<
    DeviceRateView,
>
    decreases rates.len(),
{
    if rates.len() == 0 {
        None
    } else if usable(rates.last(), gap) && rates.last().member_key == key {
        Some(rates.last())
    } else {
        rate_for(rates.drop_last(), key, gap)
    }
}

/// The peers chosen so far: the disks that they and the device stand on, their
/// names, latencies and queue depths.
#[verifier::ext_equal]
pub struct PickView {
    pub used: Seq<Seq<char>>,
    pub names: Seq<Seq<char>>,
    pub latencies: Seq<Double>,
    pub queues: Seq<Double>,
}

pub open spec fn overlap(a: Seq<Seq<char>>, b: Seq<Seq<char>>) -> bool {
    exists|i: int| 0 <= i < a.len() && b.contains(#[trigger] a[i])
}

/// Whether a member may be a peer: online, on as many disks as the device, and
/// on none that is already in the comparison.
pub open spec fn independent(m: DeviceInfoView, d: DeviceInfoView, used: Seq<Seq<char>>) -> bool {
    &&& m.allocation.online == Some(true)
    &&& m.topology.leaves.len() > 0
    &&& m.topology.leaves.len() == d.topology.leaves.len()
    &&& !overlap(m.topology.leaves, used)
}

pub open spec fn picked(
    p: PickView,
    m: DeviceInfoView,
    d: DeviceInfoView,
    rate: DeviceRateView,
    rates: Seq<DeviceRateView>,
    gap: Duration,
    write: bool,
) -> PickView {
    match rate_for(rates, m.key(), gap) {
        Some(peer) => if independent(m, d, p.used) && comparable(peer, write) && similar(
            rate,
            peer,
            write,
        ) {
            PickView {
                used: p.used + m.topology.leaves,
                names: p.names.push(m.name),
                latencies: p.latencies.push(lane(peer, write).1),
                queues: p.queues.push(peer.avg_queue_depth),
            }
        } else {
            p
        },
        None => p,
    }
}

pub open spec fn all_picked(
    group: Seq<DeviceInfoView>,
    d: DeviceInfoView,
    rate: DeviceRateView,
    rates: Seq<DeviceRateView>,
    gap: Duration,
    write: bool,
) -> PickView
    decreases group.len(),
{
    if group.len() == 0 {
        PickView {
            used: d.topology.leaves,
            names: Seq::empty(),
            latencies: Seq::empty(),
            queues: Seq::empty(),
        }
    } else {
        picked(
            all_picked(group.drop_last(), d, rate, rates, gap, write),
            group.last(),
            d,
            rate,
            rates,
            gap,
            write,
        )
    }
}

/// One direction of a device beside at least two peers. It is an outlier above
/// three times their median and above the floor of its kind of disk.
pub open spec fn sample_of(
    d: DeviceInfoView,
    rate: DeviceRateView,
    group: Seq<DeviceInfoView>,
    rates: Seq<DeviceRateView>,
    gap: Duration,
    media: MediaKind,
    write: bool,
) -> Option<PeerSampleView> {
    let (completed, await_ms, iops) = lane(rate, write);
    let p = all_picked(group, d, rate, rates, gap, write);
    if !comparable(rate, write) || !iops.finite() || p.names.len() < 2 {
        None
    } else {
        Some(
            PeerSampleView {
                await_ms,
                median_ms: middle(p.latencies),
                completed,
                queue: rate.avg_queue_depth,
                median_queue: middle(p.queues),
                peers: p.names,
                outlier: larger(product(middle(p.latencies), whole(3)), media.floor()).less(
                    await_ms,
                ),
                floor_ms: media.floor(),
                selection_evidence: Seq::empty(),
            },
        )
    }
}

fn lane_of(r: &DeviceRate, write: bool) -> (l: (u64, Double, Double))
    ensures
        l == lane(r@, write),
{
    if write {
        (r.write_completed, r.write_await_ms, r.write_iops)
    } else {
        (r.read_completed, r.read_await_ms, r.read_iops)
    }
}

fn is_comparable(r: &DeviceRate, write: bool) -> (b: bool)
    ensures
        b == comparable(r@, write),
{
    let (completed, await_ms, iops) = lane_of(r, write);
    r.diskstats_interval_valid && completed >= 5 && await_ms.is_finite() && !iops.is_at_most(
        Double::zero(),
    )
}

fn is_similar(a: &DeviceRate, b: &DeviceRate, write: bool) -> (r: bool)
    ensures
        r == similar(a@, b@, write),
{
    let quarter = Double::from_u64(1).over(Double::from_u64(4));
    let ratio = lane_of(a, write).2.over(lane_of(b, write).2);
    let mix = a.read_iops.over(a.total_iops()).minus(b.read_iops.over(b.total_iops()));
    quarter.is_at_most(ratio) && ratio.is_at_most(Double::from_u64(4))
        && !b.avg_queue_depth.times(Double::from_u64(2)).max(Double::from_u64(1)).is_less(
        a.avg_queue_depth,
    ) && !a.avg_queue_depth.times(Double::from_u64(2)).max(Double::from_u64(1)).is_less(
        b.avg_queue_depth,
    ) && !quarter.is_less(mix.abs())
}

fn is_usable(r: &DeviceRate, gap: Duration) -> (b: bool)
    ensures
        b == usable(r@, gap),
{
    let none = Double::zero();
    r.sample_seconds.is_finite() && none.is_less(r.sample_seconds) && r.sample_seconds.is_at_most(
        to_seconds(gap),
    ) && r.read_iops.is_finite() && r.write_iops.is_finite() && none.is_at_most(r.read_iops)
        && none.is_at_most(r.write_iops) && r.avg_queue_depth.is_finite() && none.is_at_most(
        r.avg_queue_depth,
    )
}

fn find_rate<'a>(rates: &'a Vec<DeviceRate>, key: &str, gap: Duration) -> (r: Option<&'a DeviceRate>)
    ensures
        match r {
            Some(x) => rate_for(views(rates@), key@, gap) == Some(x@),
            None => rate_for(views(rates@), key@, gap) is None,
        },
{
    let ghost all = views(rates@);
    let mut n: usize = rates.len();
    proof {
        assert(all.take(n as int) =~= all);
    }
    while n > 0
        invariant
            n <= rates@.len() == all.len(),
            all == views(rates@),
            rate_for(all, key@, gap) == rate_for(all.take(n as int), key@, gap),
        decreases n,
    {
        proof {
            assert(all.take(n as int).drop_last() =~= all.take(n - 1));
            assert(all.take(n as int).last() == rates@[n - 1]@);
        }
        if is_usable(&rates[n - 1], gap) && same(rates[n - 1].member_key.as_str(), key) {
            return Some(&rates[n - 1]);
        }
        n = n - 1;
    }
    None
}

struct Pick {
    used: Vec<String>,
    names: Vec<String>,
    latencies: Vec<Double>,
    queues: Vec<Double>,
}

impl View for Pick {
    type V = PickView;

    closed spec fn view(&self) -> PickView {
        PickView {
            used: views(self.used@),
            names: views(self.names@),
            latencies: self.latencies@,
            queues: self.queues@,
        }
    }
}

fn do_overlap(a: &Vec<String>, b: &Vec<String>) -> (r: bool)
    ensures
        r == overlap(views(a@), views(b@)),
{
    let ghost all = views(a@);
    let mut i: usize = 0;
    while i < count(a)
        invariant
            i <= all.len(),
            all == views(a@),
            forall|k: int| 0 <= k < i ==> !views(b@).contains(#[trigger] all[k]),
        decreases all.len() - i,
    {
        if holds(b, item(a, i)) {
            return true;
        }
        i = i + 1;
    }
    false
}

fn push_all(out: &mut Vec<String>, more: &Vec<String>)
    ensures
        views(final(out)@) == views(old(out)@) + views(more@),
{
    broadcast use lemma_views_push;

    let ghost start = views(out@);
    let ghost all = views(more@);
    let mut i: usize = 0;
    proof {
        assert(start + all.take(0) =~= start);
    }
    while i < count(more)
        invariant
            i <= all.len(),
            all == views(more@),
            views(out@) == start + all.take(i as int),
        decreases all.len() - i,
    {
        out.push(copy(item(more, i)));
        assert(start + all.take(i + 1) =~= (start + all.take(i as int)).push(all[i as int]));
        i = i + 1;
    }
    proof {
        assert(all.take(i as int) =~= all);
    }
}

fn is_independent(m: &DeviceInfo, d: &DeviceInfo, used: &Vec<String>) -> (r: bool)
    ensures
        r == independent(m@, d@, views(used@)),
{
    let online = match m.allocation.online {
        Some(b) => b,
        None => false,
    };
    let n = count(&m.topology.leaves);
    online && n > 0 && n == count(&d.topology.leaves) && !do_overlap(&m.topology.leaves, used)
}

fn pick(
    p: &mut Pick,
    m: &DeviceInfo,
    d: &DeviceInfo,
    rate: &DeviceRate,
    rates: &Vec<DeviceRate>,
    gap: Duration,
    write: bool,
)
    ensures
        final(p)@ == picked(old(p)@, m@, d@, rate@, views(rates@), gap, write),
{
    broadcast use lemma_views_push;

    let key = m.identity();
    if let Some(peer) = find_rate(rates, key.as_str(), gap) {
        if is_independent(m, d, &p.used) && is_comparable(peer, write) && is_similar(
            rate,
            peer,
            write,
        ) {
            push_all(&mut p.used, &m.topology.leaves);
            p.names.push(copy(m.name.as_str()));
            p.latencies.push(lane_of(peer, write).1);
            p.queues.push(peer.avg_queue_depth);
        }
    }
}

proof fn lemma_picked_alike(
    group: Seq<DeviceInfoView>,
    d: DeviceInfoView,
    rate: DeviceRateView,
    rates: Seq<DeviceRateView>,
    gap: Duration,
    write: bool,
)
    ensures
        ({
            let p = all_picked(group, d, rate, rates, gap, write);
            p.names.len() == p.latencies.len() && p.names.len() == p.queues.len()
        }),
    decreases group.len(),
{
    if group.len() > 0 {
        lemma_picked_alike(group.drop_last(), d, rate, rates, gap, write);
    }
}

fn direction(
    device: &DeviceInfo,
    rate: &DeviceRate,
    group: &Vec<&DeviceInfo>,
    rates: &Vec<DeviceRate>,
    gap: Duration,
    media: MediaKind,
    write: bool,
) -> (r: Option<PeerSample>)
    ensures
        opt(r) == sample_of(
            device@,
            rate@,
            views(group@),
            views(rates@),
            gap,
            media,
            write,
        ),
{
    let (completed, await_ms, iops) = lane_of(rate, write);
    if !is_comparable(rate, write) || !iops.is_finite() {
        return None;
    }
    let ghost all = views(group@);
    let mut p = Pick {
        used: copy_all(&device.topology.leaves),
        names: Vec::new(),
        latencies: Vec::new(),
        queues: Vec::new(),
    };
    let mut i: usize = 0;
    proof {
        assert(all.take(0) =~= Seq::<DeviceInfoView>::empty());
        assert(views(p.names@) =~= Seq::<Seq<char>>::empty());
    }
    while i < group.len()
        invariant
            i <= group@.len() == all.len(),
            all == views(group@),
            p@ == all_picked(all.take(i as int), device@, rate@, views(rates@), gap, write),
        decreases all.len() - i,
    {
        let m: &DeviceInfo = group[i];
        proof {
            assert(all.take(i + 1).drop_last() =~= all.take(i as int));
            assert(all.take(i + 1).last() == m@);
        }
        pick(&mut p, m, device, rate, rates, gap, write);
        i = i + 1;
    }
    proof {
        assert(all.take(i as int) =~= all);
        lemma_picked_alike(all, device@, rate@, views(rates@), gap, write);
    }
    let Pick { used, names, latencies, queues } = p;
    if count(&names) < 2 {
        return None;
    }
    let median_ms = median(latencies);
    let median_queue = median(queues);
    let floor_ms = media.latency_floor_ms();
    let selection_evidence: Vec<String> = Vec::new();
    proof {
        assert(views(selection_evidence@) =~= Seq::<Seq<char>>::empty());
    }
    Some(
        PeerSample {
            await_ms,
            median_ms,
            completed,
            queue: rate.avg_queue_depth,
            median_queue,
            peers: names,
            outlier: median_ms.times(Double::from_u64(3)).max(floor_ms).is_less(await_ms),
            floor_ms,
            selection_evidence,
        },
    )
}

// ------------------------------------------------------------------ comparison

pub open spec fn with_media(devices: Seq<DeviceInfoView>, media: MediaKind) -> Seq<DeviceInfoView>
    decreases devices.len(),
{
    if devices.len() == 0 {
        Seq::empty()
    } else {
        let rest = with_media(devices.drop_last(), media);
        if devices.last().topology.media == Some(media) {
            rest.push(devices.last())
        } else {
            rest
        }
    }
}

/// Members by their identity.
pub struct ByIdentity;

impl<'a> Rule<&'a DeviceInfo> for ByIdentity {
    open spec fn before(a: DeviceInfoView, b: DeviceInfoView) -> bool {
        text_before(a.key(), b.key())
    }

    fn precedes(a: &&'a DeviceInfo, b: &&'a DeviceInfo) -> (r: bool) {
        let x: &DeviceInfo = *a;
        let y: &DeviceInfo = *b;
        precedes_text(x.identity().as_str(), y.identity().as_str())
    }
}

/// What is compared of a member from sample to sample.
pub open spec fn member_mark(d: DeviceInfoView) -> Seq<char> {
    "("@ + quoted(d.key()) + ", "@ + bracketed(all_quoted(d.topology.leaves)) + ", "@ + opt_bool(
        d.allocation.online,
    ) + ")"@
}

pub open spec fn member_marks(devices: Seq<DeviceInfoView>) -> Seq<Seq<char>> {
    Seq::new(devices.len(), |i: int| member_mark(devices[i]))
}

/// A device among its peers: those of its group on the same kind of disk. One
/// that is offline, or whose disks are unknown or mixed, is not compared.
pub open spec fn context_of(
    snap: FsSnapshotView,
    rates: Seq<DeviceRateView>,
    gap: Duration,
    d: DeviceInfoView,
) -> Option<PeerContextView> {
    match (rate_for(rates, d.key(), gap), d.topology.media) {
        (Some(rate), Some(media)) => if d.topology.leaves.len() == 0 || d.allocation.online != Some(
            true,
        ) {
            None
        } else {
            match group_of(snap, d) {
                Some((name, all)) => {
                    let group = arranged::<&DeviceInfo, ByIdentity>(with_media(all, media));
                    let description = name + ", "@ + media.title();
                    Some(
                        PeerContextView {
                            description,
                            signature: description + ":"@ + bracketed(member_marks(group)),
                            read: sample_of(d, rate, group, rates, gap, media, false),
                            write: sample_of(d, rate, group, rates, gap, media, true),
                        },
                    )
                },
                None => None,
            }
        },
        _ => None,
    }
}

/// The contexts of some devices, by their identity.
pub open spec fn contexts(
    snap: FsSnapshotView,
    rates: Seq<DeviceRateView>,
    gap: Duration,
    devices: Seq<DeviceInfoView>,
) -> Seq<(Seq<char>, PeerContextView)>
    decreases devices.len(),
{
    if devices.len() == 0 {
        Seq::empty()
    } else {
        let rest = contexts(snap, rates, gap, devices.drop_last());
        match context_of(snap, rates, gap, devices.last()) {
            Some(c) => put(rest, devices.last().key(), c),
            None => rest,
        }
    }
}

fn those_on<'a>(devices: &Vec<&'a DeviceInfo>, media: MediaKind) -> (r: Vec<&'a DeviceInfo>)
    ensures
        views(r@) == with_media(views(devices@), media),
{
    broadcast use lemma_views_push;

    let ghost all = views(devices@);
    let mut r: Vec<&'a DeviceInfo> = Vec::new();
    let mut i: usize = 0;
    proof {
        assert(all.take(0) =~= Seq::<DeviceInfoView>::empty());
        assert(views(r@) =~= Seq::<DeviceInfoView>::empty());
    }
    while i < devices.len()
        invariant
            i <= devices@.len() == all.len(),
            all == views(devices@),
            views(r@) == with_media(all.take(i as int), media),
        decreases all.len() - i,
    {
        let d: &'a DeviceInfo = devices[i];
        proof {
            assert(all.take(i + 1).drop_last() =~= all.take(i as int));
            assert(all.take(i + 1).last() == d@);
        }
        let hit = match d.topology.media {
            Some(m) => m == media,
            None => false,
        };
        if hit {
            r.push(d);
        }
        i = i + 1;
    }
    proof {
        assert(all.take(i as int) =~= all);
    }
    r
}

fn mark(d: &DeviceInfo) -> (r: String)
    ensures
        r@ == member_mark(d@),
{
    cat7(
        "(",
        debug_text(d.identity().as_str()).as_str(),
        ", ",
        in_brackets(&quote_all(&d.topology.leaves)).as_str(),
        ", ",
        opt_bool_text(d.allocation.online),
        ")",
    )
}

fn marks(devices: &Vec<&DeviceInfo>) -> (r: Vec<String>)
    ensures
        views(r@) == member_marks(views(devices@)),
{
    let mut r: Vec<String> = Vec::new();
    let mut i: usize = 0;
    while i < devices.len()
        invariant
            i <= devices@.len(),
            r@.len() == i,
            forall|k: int| 0 <= k < i ==> (#[trigger] r@[k])@ == member_mark(devices@[k]@),
        decreases devices@.len() - i,
    {
        let d: &DeviceInfo = devices[i];
        r.push(mark(d));
        i = i + 1;
    }
    assert(views(r@) =~= member_marks(views(devices@)));
    r
}

fn context_for(snap: &FsSnapshot, rates: &Vec<DeviceRate>, gap: Duration, d: &DeviceInfo) -> (r: Option<
    PeerContext,
>)
    ensures
        opt(r) == context_of(snap@, views(rates@), gap, d@),
{
    let key = d.identity();
    let rate = match find_rate(rates, key.as_str(), gap) {
        Some(rate) => rate,
        None => {
            return None;
        },
    };
    let media = match d.topology.media {
        Some(media) => media,
        None => {
            return None;
        },
    };
    let online = match d.allocation.online {
        Some(b) => b,
        None => false,
    };
    if count(&d.topology.leaves) == 0 || !online {
        return None;
    }
    match cohort(snap, d) {
        Some((name, all)) => {
            let group = sort::<&DeviceInfo, ByIdentity>(those_on(&all, media));
            let description = cat3(name.as_str(), ", ", media.label());
            let signature = cat3(
                description.as_str(),
                ":",
                in_brackets(&marks(&group)).as_str(),
            );
            let read = direction(d, rate, &group, rates, gap, media, false);
            let write = direction(d, rate, &group, rates, gap, media, true);
            Some(PeerContext { description, signature, read, write })
        },
        None => None,
    }
}

/// Every device that can be compared, among its peers.
pub fn compare(snap: &FsSnapshot, rates: &Rates, gap: Duration) -> (r: StrMap<PeerContext>)
    ensures
        r@ == contexts(snap@, rates@.devices, gap, snap@.devices),
{
    let ghost all = snap@.devices;
    let mut r: StrMap<PeerContext> = StrMap::new();
    let mut i: usize = 0;
    proof {
        assert(all.take(0) =~= Seq::<DeviceInfoView>::empty());
    }
    while i < snap.devices.len()
        invariant
            i <= snap.devices@.len() == all.len(),
            all == snap@.devices,
            r@ == contexts(snap@, rates@.devices, gap, all.take(i as int)),
        decreases all.len() - i,
    {
        let d = &snap.devices[i];
        proof {
            assert(all.take(i + 1).drop_last() =~= all.take(i as int));
            assert(all.take(i + 1).last() == d@);
        }
        if let Some(c) = context_for(snap, &rates.devices, gap, d) {
            r.insert(d.identity().as_str(), c);
        }
        i = i + 1;
    }
    proof {
        assert(all.take(i as int) =~= all);
    }
    r
}

// ------------------------------------------------------------------------ laws

proof fn lemma_all_on(devices: Seq<DeviceInfoView>, media: MediaKind, i: int)
    requires
        0 <= i < with_media(devices, media).len(),
    ensures
        with_media(devices, media)[i].topology.media == Some(media),
        devices.contains(with_media(devices, media)[i]),
    decreases devices.len(),
{
    if devices.len() > 0 {
        let rest = with_media(devices.drop_last(), media);
        if i < rest.len() {
            lemma_all_on(devices.drop_last(), media, i);
            let k = choose|k: int|
                0 <= k < devices.drop_last().len() && devices.drop_last()[k] == rest[i];
            assert(devices[k] == rest[i]);
        } else {
            assert(devices[devices.len() - 1] == with_media(devices, media)[i]);
        }
    }
}

/// Without two peers there is no verdict, and without enough completions of
/// its own a device is not judged.
pub proof fn law_no_verdict_without_evidence(
    d: DeviceInfoView,
    rate: DeviceRateView,
    group: Seq<DeviceInfoView>,
    rates: Seq<DeviceRateView>,
    gap: Duration,
    media: MediaKind,
    write: bool,
)
    requires
        sample_of(d, rate, group, rates, gap, media, write) is Some,
    ensures
        sample_of(d, rate, group, rates, gap, media, write)->0.peers.len() >= 2,
        sample_of(d, rate, group, rates, gap, media, write)->0.completed >= 5,
        rate.diskstats_interval_valid,
{
}

/// The members that a device is held against.
pub open spec fn peers_of(
    group: Seq<DeviceInfoView>,
    d: DeviceInfoView,
    rate: DeviceRateView,
    rates: Seq<DeviceRateView>,
    gap: Duration,
    write: bool,
) -> Seq<DeviceInfoView>
    decreases group.len(),
{
    if group.len() == 0 {
        Seq::empty()
    } else {
        let rest = group.drop_last();
        let before = all_picked(rest, d, rate, rates, gap, write);
        if picked(before, group.last(), d, rate, rates, gap, write).names.len()
            > before.names.len() {
            peers_of(rest, d, rate, rates, gap, write).push(group.last())
        } else {
            peers_of(rest, d, rate, rates, gap, write)
        }
    }
}

proof fn lemma_disjoint_from(a: Seq<Seq<char>>, b: Seq<Seq<char>>, part: Seq<Seq<char>>)
    requires
        !overlap(a, b),
        forall|i: int| 0 <= i < part.len() ==> b.contains(#[trigger] part[i]),
    ensures
        !overlap(a, part),
        !overlap(part, a),
{
    if overlap(a, part) {
        let i = choose|i: int| 0 <= i < a.len() && part.contains(#[trigger] a[i]);
        let k = choose|k: int| 0 <= k < part.len() && part[k] == a[i];
        assert(b.contains(part[k]));
        assert(b.contains(a[i]));
    }
    if overlap(part, a) {
        let k = choose|k: int| 0 <= k < part.len() && a.contains(#[trigger] part[k]);
        let i = choose|i: int| 0 <= i < a.len() && a[i] == part[k];
        assert(b.contains(part[k]));
        assert(b.contains(a[i]));
    }
}

/// Whether all disks of a device are among the given.
spec fn within(m: DeviceInfoView, used: Seq<Seq<char>>) -> bool {
    forall|i: int|
        0 <= i < m.topology.leaves.len() ==> used.contains(#[trigger] m.topology.leaves[i])
}

proof fn lemma_more_used(m: DeviceInfoView, used: Seq<Seq<char>>, more: Seq<Seq<char>>)
    ensures
        within(m, used) ==> within(m, used + more),
        m.topology.leaves == more ==> within(m, used + more),
{
    let all = used + more;
    let l = m.topology.leaves;
    if within(m, used) {
        assert forall|i: int| 0 <= i < l.len() implies all.contains(#[trigger] l[i]) by {
            assert(used.contains(l[i]));
            let k = choose|k: int| 0 <= k < used.len() && used[k] == l[i];
            assert(all[k] == l[i]);
        }
    }
    if l == more {
        assert forall|i: int| 0 <= i < l.len() implies all.contains(#[trigger] l[i]) by {
            assert(all[used.len() + i] == l[i]);
        }
    }
}

proof fn lemma_peers(
    group: Seq<DeviceInfoView>,
    d: DeviceInfoView,
    rate: DeviceRateView,
    rates: Seq<DeviceRateView>,
    gap: Duration,
    write: bool,
)
    ensures
        ({
            let ps = peers_of(group, d, rate, rates, gap, write);
            let p = all_picked(group, d, rate, rates, gap, write);
            &&& p.names.len() == ps.len()
            &&& within(d, p.used)
            &&& forall|i: int|
                0 <= i < ps.len() ==> {
                    &&& p.names[i] == (#[trigger] ps[i]).name
                    &&& group.contains(ps[i])
                    &&& ps[i].allocation.online == Some(true)
                    &&& ps[i].topology.leaves.len() == d.topology.leaves.len()
                    &&& within(ps[i], p.used)
                    &&& !overlap(ps[i].topology.leaves, d.topology.leaves)
                }
            &&& forall|i: int, j: int|
                0 <= i < ps.len() && 0 <= j < ps.len() && i != j ==> !overlap(
                    (#[trigger] ps[i]).topology.leaves,
                    (#[trigger] ps[j]).topology.leaves,
                )
        }),
    decreases group.len(),
{
    let ps = peers_of(group, d, rate, rates, gap, write);
    let p = all_picked(group, d, rate, rates, gap, write);
    if group.len() == 0 {
        assert forall|i: int| 0 <= i < d.topology.leaves.len() implies p.used.contains(
            #[trigger] d.topology.leaves[i],
        ) by {}
    } else {
        let rest = group.drop_last();
        let m = group.last();
        lemma_peers(rest, d, rate, rates, gap, write);
        let qs = peers_of(rest, d, rate, rates, gap, write);
        let q = all_picked(rest, d, rate, rates, gap, write);
        assert(group[group.len() - 1] == m);
        assert forall|i: int| 0 <= i < qs.len() implies group.contains(#[trigger] qs[i]) by {
            assert(rest.contains(qs[i]));
            let k = choose|k: int| 0 <= k < rest.len() && rest[k] == qs[i];
            assert(group[k] == qs[i]);
        }
        if p.names.len() > q.names.len() {
            let l = m.topology.leaves;
            assert(independent(m, d, q.used));
            assert(p.used == q.used + l);
            assert(ps == qs.push(m));
            lemma_more_used(d, q.used, l);
            lemma_more_used(m, q.used, l);
            lemma_disjoint_from(l, q.used, d.topology.leaves);
            assert forall|i: int| 0 <= i < ps.len() implies {
                &&& p.names[i] == (#[trigger] ps[i]).name
                &&& group.contains(ps[i])
                &&& ps[i].allocation.online == Some(true)
                &&& ps[i].topology.leaves.len() == d.topology.leaves.len()
                &&& within(ps[i], p.used)
                &&& !overlap(ps[i].topology.leaves, d.topology.leaves)
            } by {
                if i < qs.len() {
                    assert(ps[i] == qs[i]);
                    lemma_more_used(qs[i], q.used, l);
                }
            }
            assert forall|i: int, j: int|
                0 <= i < ps.len() && 0 <= j < ps.len() && i != j implies !overlap(
                (#[trigger] ps[i]).topology.leaves,
                (#[trigger] ps[j]).topology.leaves,
            ) by {
                let n = qs.len() as int;
                if i < n && j < n {
                    assert(ps[i] == qs[i] && ps[j] == qs[j]);
                } else if i < n {
                    assert(ps[i] == qs[i]);
                    lemma_disjoint_from(l, q.used, qs[i].topology.leaves);
                } else {
                    assert(ps[j] == qs[j]);
                    lemma_disjoint_from(l, q.used, qs[j].topology.leaves);
                }
            }
        }
    }
}

/// Peers stand on one kind of disk: no disk is held against one of another kind.
/// They are members of the group that is compared.
pub proof fn law_peers_share_a_kind_of_disk(
    devices: Seq<DeviceInfoView>,
    media: MediaKind,
    d: DeviceInfoView,
    rate: DeviceRateView,
    rates: Seq<DeviceRateView>,
    gap: Duration,
    write: bool,
)
    ensures
        ({
            let group = arranged::<&DeviceInfo, ByIdentity>(with_media(devices, media));
            let ps = peers_of(group, d, rate, rates, gap, write);
            forall|i: int|
                0 <= i < ps.len() ==> (#[trigger] ps[i]).topology.media == Some(media)
                    && devices.contains(ps[i])
        }),
{
    let w = with_media(devices, media);
    let group = arranged::<&DeviceInfo, ByIdentity>(w);
    let ps = peers_of(group, d, rate, rates, gap, write);
    law_arranged_keeps_all::<&DeviceInfo, ByIdentity>(w);
    lemma_peers(group, d, rate, rates, gap, write);
    broadcast use vstd::seq_lib::group_to_multiset_ensures;

    assert forall|i: int| 0 <= i < ps.len() implies (#[trigger] ps[i]).topology.media == Some(media)
        && devices.contains(ps[i]) by {
        assert(group.contains(ps[i]));
        assert(group.to_multiset().count(ps[i]) > 0);
        assert(w.contains(ps[i]));
        let k = choose|k: int| 0 <= k < w.len() && w[k] == ps[i];
        lemma_all_on(devices, media, k);
    }
}

/// A disk counts once: a device and the peers that it is held against, members of
/// its group that are online, stand on different disks, each of them on as many.
pub proof fn law_peers_share_no_disk(
    d: DeviceInfoView,
    rate: DeviceRateView,
    group: Seq<DeviceInfoView>,
    rates: Seq<DeviceRateView>,
    gap: Duration,
    media: MediaKind,
    write: bool,
)
    requires
        sample_of(d, rate, group, rates, gap, media, write) is Some,
    ensures
        ({
            let names = sample_of(d, rate, group, rates, gap, media, write)->0.peers;
            let ps = peers_of(group, d, rate, rates, gap, write);
            &&& names.len() == ps.len()
            &&& forall|i: int|
                0 <= i < ps.len() ==> {
                    &&& names[i] == (#[trigger] ps[i]).name
                    &&& group.contains(ps[i])
                    &&& ps[i].allocation.online == Some(true)
                    &&& ps[i].topology.leaves.len() == d.topology.leaves.len()
                    &&& !overlap(ps[i].topology.leaves, d.topology.leaves)
                }
            &&& forall|i: int, j: int|
                0 <= i < ps.len() && 0 <= j < ps.len() && i != j ==> !overlap(
                    (#[trigger] ps[i]).topology.leaves,
                    (#[trigger] ps[j]).topology.leaves,
                )
        }),
{
    lemma_peers(group, d, rate, rates, gap, write);
}

proof fn lemma_larger_bounds(a: Double, b: Double)
    requires
        !b.nan(),
    ensures
        b.at_most(larger(a, b)),
{
}

/// However far above its peers, a device below the floor of its kind is no
/// outlier.
pub proof fn law_the_floor_is_absolute(
    d: DeviceInfoView,
    rate: DeviceRateView,
    group: Seq<DeviceInfoView>,
    rates: Seq<DeviceRateView>,
    gap: Duration,
    media: MediaKind,
    write: bool,
)
    requires
        sample_of(d, rate, group, rates, gap, media, write) is Some,
        sample_of(d, rate, group, rates, gap, media, write)->0.await_ms.at_most(media.floor()),
    ensures
        !sample_of(d, rate, group, rates, gap, media, write)->0.outlier,
{
    let p = all_picked(group, d, rate, rates, gap, write);
    lemma_larger_bounds(product(middle(p.latencies), whole(3)), media.floor());
}

/// The rates that a member is held against with are its own, and fresh: of the
/// member's row, over a positive time of no more than the gap.
pub proof fn law_rates_are_of_the_member(rates: Seq<DeviceRateView>, key: Seq<char>, gap: Duration)
    ensures
        rate_for(rates, key, gap) matches Some(r) ==> {
            &&& rates.contains(r)
            &&& r.member_key == key
            &&& zero().less(r.sample_seconds) && r.sample_seconds.at_most(seconds(gap))
        },
        rate_for(rates, key, gap) is None ==> forall|i: int|
            0 <= i < rates.len() && (#[trigger] rates[i]).member_key == key ==> !usable(
                rates[i],
                gap,
            ),
    decreases rates.len(),
{
    if rates.len() > 0 {
        let rest = rates.drop_last();
        let n = rates.len() - 1;
        law_rates_are_of_the_member(rest, key, gap);
        assert(rates[n] == rates.last());
        if let Some(r) = rate_for(rest, key, gap) {
            let k = choose|k: int| 0 <= k < rest.len() && rest[k] == r;
            assert(rates[k] == r);
        }
        if rate_for(rates, key, gap) is None {
            assert forall|i: int| 0 <= i < rates.len() && (#[trigger] rates[i]).member_key
                == key implies !usable(rates[i], gap) by {
                if i < n {
                    assert(rest[i] == rates[i]);
                }
            }
        }
    }
}

/// Whether lists hold the mean times and the queues of some members, each by the
/// rates of its own row.
pub open spec fn are_of_peers(
    times: Seq<Double>,
    depths: Seq<Double>,
    ps: Seq<DeviceInfoView>,
    rates: Seq<DeviceRateView>,
    gap: Duration,
    write: bool,
) -> bool {
    &&& times.len() == ps.len() && depths.len() == ps.len()
    &&& forall|i: int|
        0 <= i < ps.len() ==> {
            let r = rate_for(rates, (#[trigger] ps[i]).key(), gap);
            &&& r is Some
            &&& times[i] == if write {
                r->0.write_await_ms
            } else {
                r->0.read_await_ms
            }
            &&& depths[i] == r->0.avg_queue_depth
            &&& r->0.diskstats_interval_valid
            &&& write ==> r->0.write_completed >= 5
            &&& !write ==> r->0.read_completed >= 5
        }
}

proof fn lemma_peers_measured(
    group: Seq<DeviceInfoView>,
    d: DeviceInfoView,
    rate: DeviceRateView,
    rates: Seq<DeviceRateView>,
    gap: Duration,
    write: bool,
)
    ensures
        ({
            let p = all_picked(group, d, rate, rates, gap, write);
            are_of_peers(
                p.latencies,
                p.queues,
                peers_of(group, d, rate, rates, gap, write),
                rates,
                gap,
                write,
            )
        }),
    decreases group.len(),
{
    if group.len() > 0 {
        let rest = group.drop_last();
        lemma_peers_measured(rest, d, rate, rates, gap, write);
        let qs = peers_of(rest, d, rate, rates, gap, write);
        let q = all_picked(rest, d, rate, rates, gap, write);
        let ps = peers_of(group, d, rate, rates, gap, write);
        let p = all_picked(group, d, rate, rates, gap, write);
        if p.names.len() > q.names.len() {
            assert forall|i: int| 0 <= i < ps.len() implies {
                let r = rate_for(rates, (#[trigger] ps[i]).key(), gap);
                &&& r is Some
                &&& p.latencies[i] == if write {
                    r->0.write_await_ms
                } else {
                    r->0.read_await_ms
                }
                &&& p.queues[i] == r->0.avg_queue_depth
                &&& r->0.diskstats_interval_valid
                &&& write ==> r->0.write_completed >= 5
                &&& !write ==> r->0.read_completed >= 5
            } by {
                if i < qs.len() {
                    assert(ps[i] == qs[i]);
                }
            }
        }
    }
}

/// A device is held against the median of its peers: what is shown of it is its
/// own, the median times and queues are those of the peers named, and it is an
/// outlier exactly where its mean time is above three times the median time and
/// above the floor of its kind of disk.
pub proof fn law_a_device_is_held_against_the_median(
    d: DeviceInfoView,
    rate: DeviceRateView,
    group: Seq<DeviceInfoView>,
    rates: Seq<DeviceRateView>,
    gap: Duration,
    media: MediaKind,
    write: bool,
)
    requires
        sample_of(d, rate, group, rates, gap, media, write) is Some,
    ensures
        ({
            let s = sample_of(d, rate, group, rates, gap, media, write)->0;
            let ps = peers_of(group, d, rate, rates, gap, write);
            let limit = product(s.median_ms, whole(3));
            &&& write ==> s.await_ms == rate.write_await_ms && s.completed == rate.write_completed
            &&& !write ==> s.await_ms == rate.read_await_ms && s.completed == rate.read_completed
            &&& s.queue == rate.avg_queue_depth
            &&& s.floor_ms == media.floor()
            &&& exists|times: Seq<Double>, depths: Seq<Double>|
                #[trigger] are_of_peers(times, depths, ps, rates, gap, write) && is_median(
                    times,
                    s.median_ms,
                ) && is_median(depths, s.median_queue)
            &&& !limit.nan() && !media.floor().nan() ==> (s.outlier <==> limit.less(s.await_ms)
                && media.floor().less(s.await_ms))
        }),
{
    lemma_peers_measured(group, d, rate, rates, gap, write);
    lemma_peers(group, d, rate, rates, gap, write);
    let p = all_picked(group, d, rate, rates, gap, write);
    lemma_is_median(p.latencies);
    lemma_is_median(p.queues);
}

proof fn lemma_is_median(values: Seq<Double>)
    requires
        values.len() > 0,
    ensures
        is_median(values, middle(values)),
{
    let n = values.len() as int;
    lemma_ranked(values, n / 2);
    if n % 2 == 0 {
        lemma_ranked(values, n / 2 - 1);
    }
}

/// A rate within a factor of four, the mean queues within a factor of two of each
/// other above one, and shares of reads no more than a quarter apart: only such
/// members are peers.
pub proof fn law_peers_do_similar_work(
    group: Seq<DeviceInfoView>,
    d: DeviceInfoView,
    rate: DeviceRateView,
    rates: Seq<DeviceRateView>,
    gap: Duration,
    write: bool,
    i: int,
)
    requires
        0 <= i < peers_of(group, d, rate, rates, gap, write).len(),
    ensures
        ({
            let m = peers_of(group, d, rate, rates, gap, write)[i];
            let peer = rate_for(rates, m.key(), gap)->0;
            let ratio = if write {
                quotient(rate.write_iops, peer.write_iops)
            } else {
                quotient(rate.read_iops, peer.read_iops)
            };
            let own = rate.avg_queue_depth;
            let other = peer.avg_queue_depth;
            &&& quotient(whole(1), whole(4)).at_most(ratio) && ratio.at_most(whole(4))
            &&& whole(1).less(own) && product(other, whole(2)).less(own) ==> false
            &&& whole(1).less(other) && product(own, whole(2)).less(other) ==> false
            &&& ({
                let apart = difference(
                    quotient(rate.read_iops, sum(rate.read_iops, rate.write_iops)),
                    quotient(peer.read_iops, sum(peer.read_iops, peer.write_iops)),
                );
                !quotient(whole(1), whole(4)).less(signed(false, apart.mag()))
            })
        }),
    decreases group.len(),
{
    if group.len() > 0 {
        let rest = group.drop_last();
        let qs = peers_of(rest, d, rate, rates, gap, write);
        if i < qs.len() {
            law_peers_do_similar_work(rest, d, rate, rates, gap, write, i);
            assert(peers_of(group, d, rate, rates, gap, write)[i] == qs[i]);
        } else {
            crate::double::law_whole_numbers_are_ordered(1, 1);
        }
    }
}

/// A device is an outlier where it is one in either direction.
pub proof fn law_an_outlier_is_one_in_either_direction(c: PeerContextView)
    ensures
        c.is_outlier() <==> (c.read matches Some(r) && r.outlier) || (c.write matches Some(w)
            && w.outlier),
{
}

} // verus!
