//! Reports on the allocation targets of a filesystem.

use crate::strmap::{find, StrMap};
use crate::sysfs::{DeviceInfo, DeviceInfoView, FsSnapshot, FsSnapshotView};
use crate::targets::{
    bytes_text, format_optional_bytes, Finding, FindingView, MemberAllocation, MemberAllocationView,
    Severity, TargetConfig, TargetConfigView, TargetReport, TargetReportView,
};
use crate::text::{
    cat2, cat3, cat4, cat5, cat6, cat7, copy, decimal, has_prefix, holds, join, joined,
    lemma_views_push, number, parse_u64, same, starts_with, u64_text, usize_text, views,
};
use vstd::prelude::*;

verus! {

impl MemberAllocationView {
    /// Whether a member takes new data of a type, as far as that is known.
    pub open spec fn takes(self, data_type: Seq<char>) -> Option<bool> {
        if self.online == Some(false) || (self.state is Some && self.state->0 != "rw"@) {
            Some(false)
        } else {
            match self.durability {
                None => None,
                Some(d) => if d == 0 {
                    Some(false)
                } else {
                    match (self.online, self.state, self.data_allowed) {
                        (Some(_), Some(_), Some(types)) => Some(types.contains(data_type)),
                        _ => None,
                    }
                },
            }
        }
    }
}

impl MemberAllocation {
    pub fn eligible(&self, data_type: &str) -> (r: Option<bool>)
        ensures
            r == self@.takes(data_type@),
    {
        if let Some(online) = self.online {
            if !online {
                return Some(false);
            }
        }
        if let Some(state) = &self.state {
            if !same(state.as_str(), "rw") {
                return Some(false);
            }
        }
        match self.durability {
            None => None,
            Some(d) => {
                if d == 0 {
                    return Some(false);
                }
                match (&self.online, &self.state, &self.data_allowed) {
                    (Some(_), Some(_), Some(types)) => Some(holds(types, data_type)),
                    _ => None,
                }
            },
        }
    }
}

// ----------------------------------------------------------------- membership

pub open spec fn with_name(devices: Seq<DeviceInfoView>, name: Seq<char>) -> Seq<DeviceInfoView>
    decreases devices.len(),
{
    if devices.len() == 0 {
        Seq::empty()
    } else {
        let rest = with_name(devices.drop_last(), name);
        if devices.last().name == name {
            rest.push(devices.last())
        } else {
            rest
        }
    }
}

pub open spec fn first_named(devices: Seq<DeviceInfoView>, name: Seq<char>) -> Option<DeviceInfoView>
    decreases devices.len(),
{
    if devices.len() == 0 {
        None
    } else if devices[0].name == name {
        Some(devices[0])
    } else {
        first_named(devices.skip(1), name)
    }
}

/// Whether a label is the target or stands below it: `ssd` holds `ssd.a` and
/// not `ssd2`.
pub open spec fn below(label: Seq<char>, target: Seq<char>) -> bool {
    label == target || has_prefix(label, target + "."@)
}

pub open spec fn with_label(devices: Seq<DeviceInfoView>, target: Seq<char>) -> Seq<DeviceInfoView>
    decreases devices.len(),
{
    if devices.len() == 0 {
        Seq::empty()
    } else {
        let rest = with_label(devices.drop_last(), target);
        match devices.last().label {
            Some(label) => if below(label, target) {
                rest.push(devices.last())
            } else {
                rest
            },
            None => rest,
        }
    }
}

pub open spec fn all_labelled(devices: Seq<DeviceInfoView>) -> bool {
    forall|i: int| 0 <= i < devices.len() ==> (#[trigger] devices[i]).label is Some
}

/// The members of a target, where they are known. A missing label is no
/// evidence that a member is outside of the target, and an unresolved path is
/// not an empty group.
pub open spec fn members(config: TargetConfigView, devices: Seq<DeviceInfoView>) -> Option<
    Seq<DeviceInfoView>,
> {
    if devices.len() == 0 {
        None
    } else {
        match config.device_name {
            Some(name) => Some(with_name(devices, name)),
            None => if has_prefix(config.target, "/"@) {
                None
            } else {
                match first_named(devices, config.target) {
                    Some(d) => Some(seq![d]),
                    None => if all_labelled(devices) {
                        Some(with_label(devices, config.target))
                    } else {
                        None
                    },
                }
            },
        }
    }
}

pub open spec fn opt_members(r: Option<Vec<&DeviceInfo>>) -> Option<Seq<DeviceInfoView>> {
    match r {
        Some(v) => Some(views(v@)),
        None => None,
    }
}

pub fn find_device<'a>(devices: &'a Vec<DeviceInfo>, name: &str) -> (r: Option<&'a DeviceInfo>)
    ensures
        match r {
            Some(d) => first_named(views(devices@), name@) == Some(d@),
            None => first_named(views(devices@), name@) is None,
        },
{
    let ghost all = views(devices@);
    let mut i: usize = 0;
    proof {
        assert(all.skip(0) =~= all);
    }
    while i < devices.len()
        invariant
            i <= devices@.len() == all.len(),
            all == views(devices@),
            first_named(all, name@) == first_named(all.skip(i as int), name@),
        decreases all.len() - i,
    {
        proof {
            assert(all.skip(i as int).skip(1) =~= all.skip(i + 1));
            assert(all.skip(i as int)[0] == devices@[i as int]@);
        }
        if same(devices[i].name.as_str(), name) {
            return Some(&devices[i]);
        }
        i = i + 1;
    }
    None
}

pub fn members_for<'a>(config: &TargetConfig, devices: &'a Vec<DeviceInfo>) -> (r: Option<
    Vec<&'a DeviceInfo>,
>)
    ensures
        opt_members(r) == members(config@, views(devices@)),
{
    broadcast use lemma_views_push;

    let ghost all = views(devices@);
    if devices.len() == 0 {
        return None;
    }
    let mut out: Vec<&'a DeviceInfo> = Vec::new();
    let mut i: usize = 0;
    proof {
        assert(all.take(0) =~= Seq::<DeviceInfoView>::empty());
        assert(views(out@) =~= Seq::<DeviceInfoView>::empty());
    }
    if let Some(name) = &config.device_name {
        while i < devices.len()
            invariant
                i <= devices@.len() == all.len(),
                all == views(devices@),
                views(out@) == with_name(all.take(i as int), name@),
            decreases all.len() - i,
        {
            proof {
                assert(all.take(i + 1).drop_last() =~= all.take(i as int));
                assert(all.take(i + 1).last() == devices@[i as int]@);
            }
            if same(devices[i].name.as_str(), name.as_str()) {
                out.push(&devices[i]);
            }
            i = i + 1;
        }
        proof {
            assert(all.take(i as int) =~= all);
        }
        return Some(out);
    }
    if starts_with(config.target.as_str(), "/") {
        return None;
    }
    if let Some(d) = find_device(devices, config.target.as_str()) {
        out.push(d);
        proof {
            assert(views(out@) =~= seq![d@]);
        }
        return Some(out);
    }
    let prefix = cat2(config.target.as_str(), ".");
    while i < devices.len()
        invariant
            i <= devices@.len() == all.len(),
            all == views(devices@),
            config.device_name is None,
            !has_prefix(config.target@, "/"@),
            first_named(all, config.target@) is None,
            prefix@ == config.target@ + "."@,
            forall|k: int| 0 <= k < i ==> (#[trigger] all[k]).label is Some,
            views(out@) == with_label(all.take(i as int), config.target@),
        decreases all.len() - i,
    {
        proof {
            assert(all.take(i + 1).drop_last() =~= all.take(i as int));
            assert(all.take(i + 1).last() == devices@[i as int]@);
            assert(all[i as int] == devices@[i as int]@);
        }
        match &devices[i].label {
            Some(label) => {
                if same(label.as_str(), config.target.as_str()) || starts_with(
                    label.as_str(),
                    prefix.as_str(),
                ) {
                    out.push(&devices[i]);
                }
            },
            None => {
                return None;
            },
        }
        i = i + 1;
    }
    proof {
        assert(all.take(i as int) =~= all);
    }
    Some(out)
}

// ---------------------------------------------------------------------- sums

/// The sum of values, where every one is known.
pub open spec fn known_sum(values: Seq<Option<u64>>) -> Option<nat>
    decreases values.len(),
{
    if values.len() == 0 {
        Some(0)
    } else {
        match (known_sum(values.drop_last()), values.last()) {
            (Some(sum), Some(v)) => Some(sum + v as nat),
            _ => None,
        }
    }
}

/// The sum where it is known and fits; an unknown value is not zero.
pub open spec fn sum_of(values: Seq<Option<u64>>) -> Option<u64> {
    match known_sum(values) {
        Some(sum) => if sum <= u64::MAX {
            Some(sum as u64)
        } else {
            None
        },
        None => None,
    }
}

proof fn lemma_sum_grows(values: Seq<Option<u64>>, k: int)
    requires
        0 <= k <= values.len(),
    ensures
        known_sum(values.take(k)) is None ==> known_sum(values) is None,
        known_sum(values) is Some ==> known_sum(values.take(k)) is Some && known_sum(
            values.take(k),
        )->0 <= known_sum(values)->0,
    decreases values.len() - k,
{
    if k < values.len() {
        assert(values.take(k + 1).drop_last() =~= values.take(k));
        lemma_sum_grows(values, k + 1);
    } else {
        assert(values.take(k) =~= values);
    }
}

pub fn sum_known(values: &Vec<Option<u64>>) -> (r: Option<u64>)
    ensures
        r == sum_of(values@),
{
    let mut sum: u64 = 0;
    let mut i: usize = 0;
    proof {
        assert(values@.take(0) =~= Seq::<Option<u64>>::empty());
    }
    while i < values.len()
        invariant
            i <= values@.len(),
            known_sum(values@.take(i as int)) == Some(sum as nat),
        decreases values@.len() - i,
    {
        proof {
            assert(values@.take(i + 1).drop_last() =~= values@.take(i as int));
            assert(values@.take(i + 1).last() == values@[i as int]);
            lemma_sum_grows(values@, i + 1);
        }
        match values[i] {
            Some(v) => {
                match sum.checked_add(v) {
                    Some(next) => {
                        sum = next;
                    },
                    None => {
                        return None;
                    },
                }
            },
            None => {
                return None;
            },
        }
        i = i + 1;
    }
    proof {
        assert(values@.take(i as int) =~= values@);
    }
    Some(sum)
}

pub open spec fn capacities(devices: Seq<DeviceInfoView>) -> Seq<Option<u64>> {
    Seq::new(devices.len(), |i: int| devices[i].allocation.capacity_bytes)
}

pub open spec fn free_spaces(devices: Seq<DeviceInfoView>) -> Seq<Option<u64>> {
    Seq::new(devices.len(), |i: int| devices[i].allocation.free_bytes)
}

pub open spec fn names(devices: Seq<DeviceInfoView>) -> Seq<Seq<char>> {
    Seq::new(devices.len(), |i: int| devices[i].name)
}

// ------------------------------------------------------------------- findings

pub open spec fn copygc_text(running: Option<bool>) -> Seq<char> {
    match running {
        Some(true) => "is running"@,
        Some(false) => "is idle"@,
        None => "state unknown"@,
    }
}

pub open spec fn gc_finding(
    snap: FsSnapshotView,
    role: Seq<char>,
    target: Seq<char>,
    d: DeviceInfoView,
) -> FindingView {
    FindingView {
        id: role + ":"@ + target + ":gc:"@ + decimal(d.index as nat),
        severity: Severity::Warning,
        summary: role + " target "@ + target + ": "@ + d.name + " needs GC"@,
        detail: "Kernel calculated wait is non-positive; copygc "@ + copygc_text(snap.copygc.running)
            + ". Free buckets: "@ + bytes_text(d.allocation.free_bytes) + "; fragmented: "@
            + bytes_text(d.allocation.fragmented_bytes)
            + ". Inspect this member's allocator headroom; GC pressure can delay reconcile. This is not proof of a stalled worker."@,
        criteria: Seq::empty(),
        evidence: Seq::empty(),
    }
}

/// A finding for every member that the kernel says needs collection.
pub open spec fn gc_findings(
    snap: FsSnapshotView,
    role: Seq<char>,
    target: Seq<char>,
    devices: Seq<DeviceInfoView>,
) -> Seq<FindingView>
    decreases devices.len(),
{
    if devices.len() == 0 {
        Seq::empty()
    } else {
        let rest = gc_findings(snap, role, target, devices.drop_last());
        if find(snap.copygc.needs_gc, devices.last().name) == Some(true) {
            rest.push(gc_finding(snap, role, target, devices.last()))
        } else {
            rest
        }
    }
}

fn no_text() -> (r: String)
    ensures
        r@ == Seq::<char>::empty(),
{
    let r = String::new();
    assert(r@ =~= Seq::<char>::empty());
    r
}

fn no_texts() -> (r: Vec<String>)
    ensures
        views(r@) == Seq::<Seq<char>>::empty(),
{
    let r: Vec<String> = Vec::new();
    assert(views(r@) =~= Seq::<Seq<char>>::empty());
    r
}

fn make_gc_finding(snapshot: &FsSnapshot, role: &str, target: &str, d: &DeviceInfo) -> (r: Finding)
    ensures
        r@ == gc_finding(snapshot@, role@, target@, d@),
{
    let state = match snapshot.copygc.running {
        Some(true) => "is running",
        Some(false) => "is idle",
        None => "state unknown",
    };
    Finding {
        id: cat5(role, ":", target, ":gc:", u64_text(d.index as u64).as_str()),
        severity: Severity::Warning,
        summary: cat6(role, " target ", target, ": ", d.name.as_str(), " needs GC"),
        detail: cat7(
            "Kernel calculated wait is non-positive; copygc ",
            state,
            ". Free buckets: ",
            format_optional_bytes(d.allocation.free_bytes).as_str(),
            "; fragmented: ",
            format_optional_bytes(d.allocation.fragmented_bytes).as_str(),
            ". Inspect this member's allocator headroom; GC pressure can delay reconcile. This is not proof of a stalled worker.",
        ),
        criteria: no_text(),
        evidence: no_texts(),
    }
}

fn push_gc_findings(
    snapshot: &FsSnapshot,
    role: &str,
    target: &str,
    devices: &Vec<&DeviceInfo>,
    out: &mut Vec<Finding>,
)
    ensures
        views(final(out)@) == views(old(out)@) + gc_findings(
            snapshot@,
            role@,
            target@,
            views(devices@),
        ),
{
    broadcast use lemma_views_push;

    let ghost all = views(devices@);
    let ghost start = views(out@);
    let mut i: usize = 0;
    proof {
        assert(all.take(0) =~= Seq::<DeviceInfoView>::empty());
        assert(start + Seq::<FindingView>::empty() =~= start);
    }
    while i < devices.len()
        invariant
            i <= devices@.len() == all.len(),
            all == views(devices@),
            views(out@) == start + gc_findings(snapshot@, role@, target@, all.take(i as int)),
        decreases all.len() - i,
    {
        let d: &DeviceInfo = devices[i];
        proof {
            assert(all.take(i + 1).drop_last() =~= all.take(i as int));
            assert(all.take(i + 1).last() == d@);
        }
        let needs = match snapshot.copygc.needs_gc.get(d.name.as_str()) {
            Some(b) => *b,
            None => false,
        };
        if needs {
            let f = make_gc_finding(snapshot, role, target, d);
            proof {
                let rest = gc_findings(snapshot@, role@, target@, all.take(i as int));
                assert((start + rest).push(f@) =~= start + rest.push(f@));
            }
            out.push(f);
        }
        i = i + 1;
    }
    proof {
        assert(all.take(i as int) =~= all);
    }
}

/// The copies of metadata that the filesystem asks for.
pub open spec fn replicas_of(options: Seq<(Seq<char>, Seq<char>)>) -> Option<u64> {
    match find(options, "metadata_replicas"@) {
        Some(s) => match number(s) {
            Some(n) => if n > 0 {
                Some(n)
            } else {
                None
            },
            None => None,
        },
        None => None,
    }
}

pub open spec fn unit_durability(devices: Seq<DeviceInfoView>) -> bool {
    forall|i: int|
        0 <= i < devices.len() ==> (#[trigger] devices[i]).allocation.durability == Some(1u64)
}

/// `n / d`, rounded up.
pub open spec fn divided_up(n: nat, d: nat) -> nat {
    n / d + if n % d > 0 {
        1nat
    } else {
        0
    }
}

/// How much of a copy each member can hold, in all.
pub open spec fn coverage(devices: Seq<DeviceInfoView>, each: nat) -> nat
    decreases devices.len(),
{
    if devices.len() == 0 {
        0
    } else {
        let c = match devices.last().allocation.capacity_bytes {
            Some(c) => c as nat,
            None => 0,
        };
        coverage(devices.drop_last(), each) + if c < each {
            c
        } else {
            each
        }
    }
}

pub open spec fn replicas_finding(target: Seq<char>, count: nat, replicas: u64) -> FindingView {
    FindingView {
        id: "metadata:"@ + target + ":replicas"@,
        severity: Severity::Critical,
        summary: "Metadata target "@ + target + " has "@ + decimal(count) + " eligible members for "@
            + decimal(replicas as nat) + " replicas"@,
        detail: "All eligible members have durability=1. The requested copies need more distinct writable members in this target; check placement and membership."@,
        criteria: Seq::empty(),
        evidence: Seq::empty(),
    }
}

pub open spec fn capacity_finding(target: Seq<char>, physical: u64, capacity: u64) -> FindingView {
    FindingView {
        id: "metadata:"@ + target + ":capacity"@,
        severity: Severity::Warning,
        summary: "Metadata target "@ + target + ": footprint "@ + bytes_text(Some(physical))
            + " exceeds capacity "@ + bytes_text(Some(capacity)),
        detail: "Reported current physical metadata exceeds raw eligible capacity by "@ + bytes_text(
            Some((physical - capacity) as u64),
        )
            + " before journals, reserves and other data. Expand/select a larger healthy SSD target. Replica changes or compaction can change the footprint; targets permit spillover."@,
        criteria: Seq::empty(),
        evidence: Seq::empty(),
    }
}

pub open spec fn layout_finding(target: Seq<char>, replicas: u64, each: u64) -> FindingView {
    FindingView {
        id: "metadata:"@ + target + ":layout"@,
        severity: Severity::Warning,
        summary: "Metadata target "@ + target + ": unequal member sizes may constrain "@ + decimal(
            replicas as nat,
        ) + " replicas"@,
        detail: "Assuming a uniform "@ + decimal(replicas as nat)
            + "-copy layout, estimated logical metadata is "@ + bytes_text(Some(each))
            + ". Capacity on distinct members cannot accommodate that layout, even though aggregate capacity fits. Verify replica accounting; this estimate excludes over-replication, failure domains and allocation reserves."@,
        criteria: Seq::empty(),
        evidence: Seq::empty(),
    }
}

/// What keeps the metadata from fitting. The footprint on disk already counts
/// every replica. A member holds at most one copy, so room on a large member
/// does not make up for room that others lack.
pub open spec fn space_findings(
    snap: FsSnapshotView,
    target: Seq<char>,
    eligible: Seq<DeviceInfoView>,
) -> Seq<FindingView> {
    match (snap.btree_disk_bytes, sum_of(capacities(eligible))) {
        (Some(physical), Some(capacity)) => if physical == 0 || eligible.len() == 0 {
            Seq::empty()
        } else if physical > capacity {
            seq![capacity_finding(target, physical, capacity)]
        } else {
            match replicas_of(snap.options) {
                Some(r) => {
                    let each = divided_up(physical as nat, r as nat);
                    if unit_durability(eligible) && eligible.len() >= r && snap.reconcile.metadata(
                        "replicas"@,
                    ) == Some(0u64) && coverage(eligible, each) < physical {
                        seq![layout_finding(target, r, each as u64)]
                    } else {
                        Seq::empty()
                    }
                },
                None => Seq::empty(),
            }
        },
        _ => Seq::empty(),
    }
}

/// Whether the asked copies need more members than are eligible.
pub open spec fn copy_findings(
    snap: FsSnapshotView,
    target: Seq<char>,
    eligible: Seq<DeviceInfoView>,
) -> Seq<FindingView> {
    match replicas_of(snap.options) {
        Some(r) => if unit_durability(eligible) && 0 < eligible.len() < r {
            seq![replicas_finding(target, eligible.len(), r)]
        } else {
            Seq::empty()
        },
        None => Seq::empty(),
    }
}

fn all_unit(devices: &Vec<&DeviceInfo>) -> (r: bool)
    ensures
        r == unit_durability(views(devices@)),
{
    let ghost all = views(devices@);
    let mut i: usize = 0;
    while i < devices.len()
        invariant
            i <= devices@.len() == all.len(),
            all == views(devices@),
            forall|k: int| 0 <= k < i ==> (#[trigger] all[k]).allocation.durability == Some(1u64),
        decreases all.len() - i,
    {
        let d: &DeviceInfo = devices[i];
        assert(all[i as int] == d@);
        let one = match d.allocation.durability {
            Some(n) => n == 1,
            None => false,
        };
        if !one {
            return false;
        }
        i = i + 1;
    }
    true
}

proof fn lemma_coverage_bound(devices: Seq<DeviceInfoView>, each: nat)
    requires
        each <= u64::MAX,
    ensures
        coverage(devices, each) <= devices.len() * (u64::MAX as nat),
    decreases devices.len(),
{
    if devices.len() > 0 {
        lemma_coverage_bound(devices.drop_last(), each);
        let n = (devices.len() - 1) as nat;
        assert((n + 1) * (u64::MAX as nat) == n * (u64::MAX as nat) + u64::MAX as nat)
            by (nonlinear_arith);
    } else {
        assert(0 * (u64::MAX as nat) == 0) by (nonlinear_arith);
    }
}

fn cover(devices: &Vec<&DeviceInfo>, each: u64) -> (r: u128)
    ensures
        r == coverage(views(devices@), each as nat),
{
    let ghost all = views(devices@);
    let mut sum: u128 = 0;
    let mut i: usize = 0;
    let n = devices.len();
    proof {
        assert(all.take(0) =~= Seq::<DeviceInfoView>::empty());
    }
    while i < n
        invariant
            i <= n == devices@.len() == all.len(),
            all == views(devices@),
            sum == coverage(all.take(i as int), each as nat),
        decreases all.len() - i,
    {
        let d: &DeviceInfo = devices[i];
        proof {
            assert(all.take(i + 1).drop_last() =~= all.take(i as int));
            assert(all.take(i + 1).last() == d@);
            lemma_coverage_bound(all.take(i + 1), each as nat);
            let k = (i + 1) as nat;
            assert(k * (u64::MAX as nat) <= u128::MAX) by (nonlinear_arith)
                requires
                    k <= 0x1_0000_0000_0000_0000,
            ;
        }
        let c: u64 = match d.allocation.capacity_bytes {
            Some(c) => c,
            None => 0,
        };
        sum = sum + if c < each {
            c as u128
        } else {
            each as u128
        };
        i = i + 1;
    }
    proof {
        assert(all.take(i as int) =~= all);
    }
    sum
}

fn replicas_in(options: &StrMap<String>) -> (r: Option<u64>)
    ensures
        r == replicas_of(options@),
{
    match options.get("metadata_replicas") {
        Some(s) => match parse_u64(s.as_str()) {
            Some(n) => {
                if n > 0 {
                    Some(n)
                } else {
                    None
                }
            },
            None => None,
        },
        None => None,
    }
}

fn push_copy_findings(
    snapshot: &FsSnapshot,
    target: &str,
    eligible: &Vec<&DeviceInfo>,
    out: &mut Vec<Finding>,
)
    ensures
        views(final(out)@) == views(old(out)@) + copy_findings(snapshot@, target@, views(eligible@)),
{
    broadcast use lemma_views_push;

    let ghost start = views(out@);
    let n = eligible.len();
    if let Some(r) = replicas_in(&snapshot.options) {
        if all_unit(eligible) && n > 0 && (n as u64) < r {
            let f = Finding {
                id: cat3("metadata:", target, ":replicas"),
                severity: Severity::Critical,
                summary: cat7(
                    "Metadata target ",
                    target,
                    " has ",
                    usize_text(n).as_str(),
                    " eligible members for ",
                    u64_text(r).as_str(),
                    " replicas",
                ),
                detail: copy(
                    "All eligible members have durability=1. The requested copies need more distinct writable members in this target; check placement and membership.",
                ),
                criteria: no_text(),
                evidence: no_texts(),
            };
            proof {
                assert(f@ == replicas_finding(target@, n as nat, r));
                assert(start.push(f@) =~= start + seq![f@]);
            }
            out.push(f);
            return ;
        }
    }
    proof {
        assert(start + Seq::<FindingView>::empty() =~= start);
    }
}

fn push_space_findings(
    snapshot: &FsSnapshot,
    target: &str,
    eligible: &Vec<&DeviceInfo>,
    capacity: Option<u64>,
    out: &mut Vec<Finding>,
)
    requires
        capacity == sum_of(capacities(views(eligible@))),
    ensures
        views(final(out)@) == views(old(out)@) + space_findings(
            snapshot@,
            target@,
            views(eligible@),
        ),
{
    broadcast use lemma_views_push;

    let ghost start = views(out@);
    proof {
        assert(start + Seq::<FindingView>::empty() =~= start);
    }
    let n = eligible.len();
    let (physical, capacity) = match (snapshot.btree_disk_bytes, capacity) {
        (Some(p), Some(c)) => (p, c),
        _ => {
            return ;
        },
    };
    if physical == 0 || n == 0 {
        return ;
    }
    if physical > capacity {
        let f = Finding {
            id: cat3("metadata:", target, ":capacity"),
            severity: Severity::Warning,
            summary: cat6(
                "Metadata target ",
                target,
                ": footprint ",
                format_optional_bytes(Some(physical)).as_str(),
                " exceeds capacity ",
                format_optional_bytes(Some(capacity)).as_str(),
            ),
            detail: cat3(
                "Reported current physical metadata exceeds raw eligible capacity by ",
                format_optional_bytes(Some(physical - capacity)).as_str(),
                " before journals, reserves and other data. Expand/select a larger healthy SSD target. Replica changes or compaction can change the footprint; targets permit spillover.",
            ),
            criteria: no_text(),
            evidence: no_texts(),
        };
        proof {
            assert(f@ == capacity_finding(target@, physical, capacity));
            assert(start.push(f@) =~= start + seq![f@]);
        }
        out.push(f);
        return ;
    }
    if let Some(r) = replicas_in(&snapshot.options) {
        let settled = match snapshot.reconcile.metadata_pending("replicas") {
            Some(left) => left == 0,
            None => false,
        };
        if all_unit(eligible) && n as u64 >= r && settled {
            proof {
                assert(physical / r <= physical) by (nonlinear_arith)
                    requires
                        r > 0,
                ;
                assert(physical % r > 0 ==> physical / r < physical) by (nonlinear_arith)
                    requires
                        r > 0,
                        physical > 0,
                ;
            }
            let each: u64 = if physical % r > 0 {
                physical / r + 1
            } else {
                physical / r
            };
            if cover(eligible, each) < physical as u128 {
                let f = Finding {
                    id: cat3("metadata:", target, ":layout"),
                    severity: Severity::Warning,
                    summary: cat5(
                        "Metadata target ",
                        target,
                        ": unequal member sizes may constrain ",
                        u64_text(r).as_str(),
                        " replicas",
                    ),
                    detail: cat5(
                        "Assuming a uniform ",
                        u64_text(r).as_str(),
                        "-copy layout, estimated logical metadata is ",
                        format_optional_bytes(Some(each)).as_str(),
                        ". Capacity on distinct members cannot accommodate that layout, even though aggregate capacity fits. Verify replica accounting; this estimate excludes over-replication, failure domains and allocation reserves.",
                    ),
                    criteria: no_text(),
                    evidence: no_texts(),
                };
                proof {
                    assert(f@ == layout_finding(target@, r, each));
                    assert(start.push(f@) =~= start + seq![f@]);
                }
                out.push(f);
            }
        }
    }
}

// -------------------------------------------------------------------- reports

pub open spec fn no_target(target: Seq<char>) -> bool {
    target == "none"@ || target == "(none)"@ || target.len() == 0
}

/// The type of data that a role places.
pub open spec fn placed_type(role: Seq<char>) -> Seq<char> {
    if role == "metadata"@ {
        "btree"@
    } else {
        "user"@
    }
}

pub open spec fn all_known(devices: Seq<DeviceInfoView>, data_type: Seq<char>) -> bool {
    forall|i: int|
        0 <= i < devices.len() ==> (#[trigger] devices[i]).allocation.takes(data_type) is Some
}

/// The devices that are known to take a type of data, or not to.
pub open spec fn taking(devices: Seq<DeviceInfoView>, data_type: Seq<char>, wanted: bool) -> Seq<
    DeviceInfoView,
>
    decreases devices.len(),
{
    if devices.len() == 0 {
        Seq::empty()
    } else {
        let rest = taking(devices.drop_last(), data_type, wanted);
        if devices.last().allocation.takes(data_type) == Some(wanted) {
            rest.push(devices.last())
        } else {
            rest
        }
    }
}

/// The note on the metadata that every report on its target starts with.
pub open spec fn first_notes(snap: FsSnapshotView, role: Seq<char>) -> Seq<Seq<char>> {
    if role == "metadata"@ {
        let replicas = match find(snap.options, "metadata_replicas"@) {
            Some(s) => s,
            None => "?"@,
        };
        seq![
            "Reported on-disk btree footprint: "@ + bytes_text(snap.btree_disk_bytes)
                + "; requested replicas: "@ + replicas + "; metadata target backlog: "@ + bytes_text(
                snap.reconcile.metadata("target"@),
            ) + "."@,
        ]
    } else {
        Seq::empty()
    }
}

pub open spec fn no_members_finding(role: Seq<char>, target: Seq<char>) -> FindingView {
    FindingView {
        id: role + ":"@ + target + ":no-members"@,
        severity: Severity::Critical,
        summary: role + " target "@ + target + " has no eligible writable members"@,
        detail: "Check member state, labels, durability and data_allowed. Best-effort placement may spill outside the target."@,
        criteria: Seq::empty(),
        evidence: Seq::empty(),
    }
}

/// The notes on a target whose members are all known.
pub open spec fn member_notes(
    role: Seq<char>,
    devices: Seq<DeviceInfoView>,
    eligible: Seq<DeviceInfoView>,
) -> Seq<Seq<char>> {
    let t = placed_type(role);
    let excluded = if eligible.len() != devices.len() {
        seq![
            "Excluded from new "@ + t + " allocation: "@ + joined(
                names(taking(devices, t, false)),
                ", "@,
            ) + " (offline, non-rw, disallowed or durability=0)."@,
        ]
    } else {
        Seq::empty()
    };
    let unknown = if sum_of(capacities(eligible)) is None || sum_of(free_spaces(eligible)) is None {
        seq!["Some capacity/free-bucket metrics unavailable; ? means unknown, not zero."@]
    } else {
        Seq::empty()
    };
    let layout = if role == "metadata"@ && !unit_durability(eligible) {
        seq![
            "Replica-layout estimate unavailable for unknown/non-unit durability. Failure-domain placement is not modeled."@,
        ]
    } else {
        Seq::empty()
    };
    excluded + unknown + layout
}

/// The findings on a target whose members are all known.
pub open spec fn member_findings(
    snap: FsSnapshotView,
    config: TargetConfigView,
    devices: Seq<DeviceInfoView>,
    eligible: Seq<DeviceInfoView>,
) -> Seq<FindingView> {
    let none = if eligible.len() == 0 {
        seq![no_members_finding(config.role, config.target)]
    } else {
        Seq::empty()
    };
    let space = if config.role == "metadata"@ {
        copy_findings(snap, config.target, eligible) + space_findings(snap, config.target, eligible)
    } else {
        Seq::empty()
    };
    none + space + gc_findings(snap, config.role, config.target, devices)
}

pub open spec fn bare_report(
    config: TargetConfigView,
    found: Seq<DeviceInfoView>,
    findings: Seq<FindingView>,
    notes: Seq<Seq<char>>,
) -> TargetReportView {
    TargetReportView {
        role: config.role,
        target: config.target,
        members: names(found),
        eligible_members: None,
        eligible_devices: Seq::empty(),
        capacity_bytes: None,
        free_bytes: None,
        findings,
        notes,
    }
}

/// The report on one target. What is unknown stays unknown: it is neither zero
/// nor healthy.
pub open spec fn report_on(snap: FsSnapshotView, config: TargetConfigView) -> TargetReportView {
    let notes = first_notes(snap, config.role);
    if no_target(config.target) {
        bare_report(
            config,
            Seq::empty(),
            Seq::empty(),
            notes.push("No explicit target configured."@),
        )
    } else {
        match members(config, snap.devices) {
            None => bare_report(
                config,
                Seq::empty(),
                Seq::empty(),
                notes.push(
                    "Target membership unknown: missing labels or unresolved device path."@,
                ),
            ),
            Some(devices) => {
                let t = placed_type(config.role);
                if !all_known(devices, t) {
                    bare_report(
                        config,
                        devices,
                        gc_findings(snap, config.role, config.target, devices),
                        notes.push(
                            "Allocation eligibility unknown: member state or data_allowed unavailable."@,
                        ),
                    )
                } else {
                    let eligible = taking(devices, t, true);
                    TargetReportView {
                        role: config.role,
                        target: config.target,
                        members: names(devices),
                        eligible_members: Some(eligible.len() as usize),
                        eligible_devices: names(eligible),
                        capacity_bytes: sum_of(capacities(eligible)),
                        free_bytes: sum_of(free_spaces(eligible)),
                        findings: member_findings(snap, config, devices, eligible),
                        notes: notes + member_notes(config.role, devices, eligible),
                    }
                }
            },
        }
    }
}

pub open spec fn reports(snap: FsSnapshotView) -> Seq<TargetReportView> {
    Seq::new(snap.target_configs.len(), |i: int| report_on(snap, snap.target_configs[i]))
}

// ----------------------------------------------------------- executable reports

fn names_of(devices: &Vec<&DeviceInfo>) -> (r: Vec<String>)
    ensures
        views(r@) == names(views(devices@)),
{
    let mut r: Vec<String> = Vec::new();
    let mut i: usize = 0;
    while i < devices.len()
        invariant
            i <= devices@.len(),
            r@.len() == i,
            forall|k: int| 0 <= k < i ==> (#[trigger] r@[k])@ == devices@[k]@.name,
        decreases devices@.len() - i,
    {
        let d: &DeviceInfo = devices[i];
        r.push(copy(d.name.as_str()));
        i = i + 1;
    }
    assert(views(r@) =~= names(views(devices@)));
    r
}

fn capacities_of(devices: &Vec<&DeviceInfo>) -> (r: Vec<Option<u64>>)
    ensures
        r@ == capacities(views(devices@)),
{
    let mut r: Vec<Option<u64>> = Vec::new();
    let mut i: usize = 0;
    while i < devices.len()
        invariant
            i <= devices@.len(),
            r@ =~= capacities(views(devices@)).take(i as int),
        decreases devices@.len() - i,
    {
        let d: &DeviceInfo = devices[i];
        r.push(d.allocation.capacity_bytes);
        i = i + 1;
    }
    r
}

fn free_of(devices: &Vec<&DeviceInfo>) -> (r: Vec<Option<u64>>)
    ensures
        r@ == free_spaces(views(devices@)),
{
    let mut r: Vec<Option<u64>> = Vec::new();
    let mut i: usize = 0;
    while i < devices.len()
        invariant
            i <= devices@.len(),
            r@ =~= free_spaces(views(devices@)).take(i as int),
        decreases devices@.len() - i,
    {
        let d: &DeviceInfo = devices[i];
        r.push(d.allocation.free_bytes);
        i = i + 1;
    }
    r
}

fn know_all(devices: &Vec<&DeviceInfo>, data_type: &str) -> (r: bool)
    ensures
        r == all_known(views(devices@), data_type@),
{
    let ghost all = views(devices@);
    let mut i: usize = 0;
    while i < devices.len()
        invariant
            i <= devices@.len() == all.len(),
            all == views(devices@),
            forall|k: int|
                0 <= k < i ==> (#[trigger] all[k]).allocation.takes(data_type@) is Some,
        decreases all.len() - i,
    {
        let d: &DeviceInfo = devices[i];
        assert(all[i as int] == d@);
        if d.allocation.eligible(data_type).is_none() {
            return false;
        }
        i = i + 1;
    }
    true
}

fn those_taking<'a>(devices: &Vec<&'a DeviceInfo>, data_type: &str, wanted: bool) -> (r: Vec<
    &'a DeviceInfo,
>)
    ensures
        views(r@) == taking(views(devices@), data_type@, wanted),
{
    broadcast use lemma_views_push;

    let ghost all = views(devices@);
    let mut r: Vec<&'a DeviceInfo> = Vec::new();
    let mut i: usize = 0;
    proof {
        assert(all.take(0) =~= Seq::<DeviceInfoView>::empty());
        assert(views(r@) =~= Seq::<DeviceInfoView>::empty());
    }
    while i < devices.len()
        invariant
            i <= devices@.len() == all.len(),
            all == views(devices@),
            views(r@) == taking(all.take(i as int), data_type@, wanted),
        decreases all.len() - i,
    {
        let d: &'a DeviceInfo = devices[i];
        proof {
            assert(all.take(i + 1).drop_last() =~= all.take(i as int));
            assert(all.take(i + 1).last() == d@);
        }
        let hit = match d.allocation.eligible(data_type) {
            Some(b) => b == wanted,
            None => false,
        };
        if hit {
            r.push(d);
        }
        i = i + 1;
    }
    proof {
        assert(all.take(i as int) =~= all);
    }
    r
}

fn start_notes(snapshot: &FsSnapshot, role: &str) -> (r: Vec<String>)
    ensures
        views(r@) == first_notes(snapshot@, role@),
{
    let mut r: Vec<String> = Vec::new();
    if same(role, "metadata") {
        let replicas = match snapshot.options.get("metadata_replicas") {
            Some(s) => copy(s.as_str()),
            None => copy("?"),
        };
        r.push(
            cat7(
                "Reported on-disk btree footprint: ",
                format_optional_bytes(snapshot.btree_disk_bytes).as_str(),
                "; requested replicas: ",
                replicas.as_str(),
                "; metadata target backlog: ",
                format_optional_bytes(snapshot.reconcile.metadata_pending("target")).as_str(),
                ".",
            ),
        );
    }
    assert(views(r@) =~= first_notes(snapshot@, role@));
    r
}

fn push_member_notes(
    role: &str,
    devices: &Vec<&DeviceInfo>,
    eligible: &Vec<&DeviceInfo>,
    known: bool,
    notes: &mut Vec<String>,
)
    requires
        known == (sum_of(capacities(views(eligible@))) is Some && sum_of(
            free_spaces(views(eligible@)),
        ) is Some),
    ensures
        views(final(notes)@) == views(old(notes)@) + member_notes(
            role@,
            views(devices@),
            views(eligible@),
        ),
{
    broadcast use lemma_views_push;

    let ghost start = views(notes@);
    let metadata = same(role, "metadata");
    let t = if metadata {
        "btree"
    } else {
        "user"
    };
    let ghost mut added: Seq<Seq<char>> = Seq::empty();
    proof {
        assert(start + added =~= start);
    }
    if eligible.len() != devices.len() {
        let excluded = names_of(&those_taking(devices, t, false));
        let note = cat5(
            "Excluded from new ",
            t,
            " allocation: ",
            join(&excluded, ", ").as_str(),
            " (offline, non-rw, disallowed or durability=0).",
        );
        proof {
            assert((start + added).push(note@) =~= start + added.push(note@));
            added = added.push(note@);
        }
        notes.push(note);
    }
    if !known {
        let note = copy(
            "Some capacity/free-bucket metrics unavailable; ? means unknown, not zero.",
        );
        proof {
            assert((start + added).push(note@) =~= start + added.push(note@));
            added = added.push(note@);
        }
        notes.push(note);
    }
    if metadata && !all_unit(eligible) {
        let note = copy(
            "Replica-layout estimate unavailable for unknown/non-unit durability. Failure-domain placement is not modeled.",
        );
        proof {
            assert((start + added).push(note@) =~= start + added.push(note@));
            added = added.push(note@);
        }
        notes.push(note);
    }
    proof {
        assert(added =~= member_notes(role@, views(devices@), views(eligible@)));
    }
}

fn find_member_problems(
    snapshot: &FsSnapshot,
    config: &TargetConfig,
    devices: &Vec<&DeviceInfo>,
    eligible: &Vec<&DeviceInfo>,
    capacity: Option<u64>,
) -> (r: Vec<Finding>)
    requires
        capacity == sum_of(capacities(views(eligible@))),
    ensures
        views(r@) == member_findings(snapshot@, config@, views(devices@), views(eligible@)),
{
    broadcast use lemma_views_push;

    let mut r: Vec<Finding> = Vec::new();
    proof {
        assert(views(r@) =~= Seq::<FindingView>::empty());
    }
    let role = config.role;
    let target = config.target.as_str();
    if eligible.len() == 0 {
        let f = Finding {
            id: cat4(role, ":", target, ":no-members"),
            severity: Severity::Critical,
            summary: cat4(role, " target ", target, " has no eligible writable members"),
            detail: copy(
                "Check member state, labels, durability and data_allowed. Best-effort placement may spill outside the target.",
            ),
            criteria: no_text(),
            evidence: no_texts(),
        };
        proof {
            assert(f@ == no_members_finding(role@, target@));
        }
        r.push(f);
    }
    let ghost none = views(r@);
    if same(role, "metadata") {
        push_copy_findings(snapshot, target, eligible, &mut r);
        push_space_findings(snapshot, target, eligible, capacity, &mut r);
        proof {
            let a = copy_findings(snapshot@, target@, views(eligible@));
            let b = space_findings(snapshot@, target@, views(eligible@));
            assert(none + a + b =~= none + (a + b));
        }
    } else {
        proof {
            assert(none + Seq::<FindingView>::empty() =~= none);
        }
    }
    push_gc_findings(snapshot, role, target, devices, &mut r);
    proof {
        let first = if eligible@.len() == 0 {
            seq![no_members_finding(role@, target@)]
        } else {
            Seq::empty()
        };
        assert(none =~= first);
    }
    r
}

/// The report on one target.
pub fn report_for(snapshot: &FsSnapshot, config: &TargetConfig) -> (r: TargetReport)
    ensures
        r@ == report_on(snapshot@, config@),
{
    broadcast use lemma_views_push;

    let role = config.role;
    let mut report = TargetReport {
        role,
        target: copy(config.target.as_str()),
        members: Vec::new(),
        eligible_members: None,
        eligible_devices: Vec::new(),
        capacity_bytes: None,
        free_bytes: None,
        findings: Vec::new(),
        notes: start_notes(snapshot, role),
    };
    proof {
        assert(views(report.members@) =~= names(Seq::empty()));
        assert(views(report.eligible_devices@) =~= Seq::<Seq<char>>::empty());
        assert(views(report.findings@) =~= Seq::<FindingView>::empty());
    }
    let target = config.target.as_str();
    if same(target, "none") || same(target, "(none)") || target.unicode_len() == 0 {
        report.notes.push(copy("No explicit target configured."));
        return report;
    }
    let devices = match members_for(config, &snapshot.devices) {
        Some(devices) => devices,
        None => {
            report.notes.push(
                copy("Target membership unknown: missing labels or unresolved device path."),
            );
            return report;
        },
    };
    report.members = names_of(&devices);
    let data_type = if same(role, "metadata") {
        "btree"
    } else {
        "user"
    };
    if !know_all(&devices, data_type) {
        report.notes.push(
            copy("Allocation eligibility unknown: member state or data_allowed unavailable."),
        );
        push_gc_findings(snapshot, role, target, &devices, &mut report.findings);
        proof {
            let g = gc_findings(snapshot@, role@, target@, views(devices@));
            assert(Seq::<FindingView>::empty() + g =~= g);
        }
        return report;
    }
    let eligible = those_taking(&devices, data_type, true);
    let n = eligible.len();
    report.eligible_members = Some(n);
    report.eligible_devices = names_of(&eligible);
    report.capacity_bytes = sum_known(&capacities_of(&eligible));
    report.free_bytes = sum_known(&free_of(&eligible));
    let known = report.capacity_bytes.is_some() && report.free_bytes.is_some();
    push_member_notes(role, &devices, &eligible, known, &mut report.notes);
    report.findings =
    find_member_problems(snapshot, config, &devices, &eligible, report.capacity_bytes);
    report
}

/// The reports on all targets of a filesystem.
pub fn analyze(snapshot: &FsSnapshot) -> (r: Vec<TargetReport>)
    ensures
        views(r@) == reports(snapshot@),
{
    let mut r: Vec<TargetReport> = Vec::new();
    let mut i: usize = 0;
    while i < snapshot.target_configs.len()
        invariant
            i <= snapshot.target_configs@.len(),
            r@.len() == i,
            forall|k: int|
                0 <= k < i ==> (#[trigger] r@[k])@ == report_on(
                    snapshot@,
                    snapshot.target_configs@[k]@,
                ),
        decreases snapshot.target_configs@.len() - i,
    {
        r.push(report_for(snapshot, &snapshot.target_configs[i]));
        i = i + 1;
    }
    assert(views(r@) =~= reports(snapshot@));
    r
}

// ----------------------------------------------------------------------- laws

/// A target holds the labels below it and no label that merely starts alike.
pub proof fn law_label_boundary(target: Seq<char>, next: char, rest: Seq<char>)
    ensures
        below(target, target),
        below(target + seq![next] + rest, target) <==> next == '.',
{
    reveal_strlit(".");
    let label = target + seq![next] + rest;
    let n = target.len() as int;
    assert(label.take(n + 1) =~= target + seq![next]);
    assert(label.len() != target.len());
    if next == '.' {
        assert(target + seq![next] =~= target + "."@);
    } else {
        assert((target + "."@)[n] == '.');
        assert((target + seq![next])[n] == next);
    }
}

/// A member that takes new data is online, writable and durable.
pub proof fn law_taking_members_are_writable(
    devices: Seq<DeviceInfoView>,
    data_type: Seq<char>,
    i: int,
)
    requires
        0 <= i < taking(devices, data_type, true).len(),
    ensures
        ({
            let a = taking(devices, data_type, true)[i].allocation;
            &&& a.online == Some(true)
            &&& a.state == Some("rw"@)
            &&& a.durability is Some && a.durability->0 > 0
            &&& a.data_allowed is Some && a.data_allowed->0.contains(data_type)
        }),
    decreases devices.len(),
{
    if devices.len() > 0 {
        let rest = taking(devices.drop_last(), data_type, true);
        if i < rest.len() {
            law_taking_members_are_writable(devices.drop_last(), data_type, i);
        }
    }
}

proof fn lemma_unknown_sum(values: Seq<Option<u64>>, i: int)
    requires
        0 <= i < values.len(),
        values[i] is None,
    ensures
        known_sum(values) is None,
    decreases values.len(),
{
    if i < values.len() - 1 {
        lemma_unknown_sum(values.drop_last(), i);
    }
}

/// Where the capacity of one member is unknown, nothing is concluded from the
/// space of the target.
pub proof fn law_unknown_capacity_is_not_zero(
    snap: FsSnapshotView,
    target: Seq<char>,
    eligible: Seq<DeviceInfoView>,
    i: int,
)
    requires
        0 <= i < eligible.len(),
        eligible[i].allocation.capacity_bytes is None,
    ensures
        space_findings(snap, target, eligible) == Seq::<FindingView>::empty(),
{
    lemma_unknown_sum(capacities(eligible), i);
}

/// A footprint within the capacity of the members is never said to exceed it,
/// however many replicas are asked for: the footprint counts them already.
pub proof fn law_replicas_are_not_counted_twice(
    snap: FsSnapshotView,
    target: Seq<char>,
    eligible: Seq<DeviceInfoView>,
    i: int,
)
    requires
        snap.btree_disk_bytes is Some,
        sum_of(capacities(eligible)) is Some,
        snap.btree_disk_bytes->0 <= sum_of(capacities(eligible))->0,
        0 <= i < space_findings(snap, target, eligible).len(),
    ensures
        space_findings(snap, target, eligible)[i].id == "metadata:"@ + target + ":layout"@,
{
}

proof fn lemma_full_coverage(devices: Seq<DeviceInfoView>, each: nat)
    requires
        forall|i: int|
            0 <= i < devices.len() ==> (#[trigger] devices[i]).allocation.capacity_bytes is Some
                && devices[i].allocation.capacity_bytes->0 >= each,
    ensures
        coverage(devices, each) == devices.len() * each,
    decreases devices.len(),
{
    if devices.len() > 0 {
        let rest = devices.drop_last();
        assert forall|i: int| 0 <= i < rest.len() implies (
        #[trigger] rest[i]).allocation.capacity_bytes is Some
            && rest[i].allocation.capacity_bytes->0 >= each by {
            assert(rest[i] == devices[i]);
        }
        lemma_full_coverage(rest, each);
        let n = rest.len();
        assert((n + 1) * each == n * each + each) by (nonlinear_arith);
        assert(devices.last() == devices[devices.len() - 1]);
    } else {
        assert(0 * each == 0) by (nonlinear_arith);
    }
}

/// Members that each have room for a copy, in the asked number, are no
/// constraint.
pub proof fn law_room_for_every_copy_suffices(
    devices: Seq<DeviceInfoView>,
    physical: nat,
    replicas: nat,
)
    requires
        replicas > 0,
        devices.len() >= replicas,
        forall|i: int|
            0 <= i < devices.len() ==> (#[trigger] devices[i]).allocation.capacity_bytes is Some
                && devices[i].allocation.capacity_bytes->0 >= divided_up(physical, replicas),
    ensures
        coverage(devices, divided_up(physical, replicas)) >= physical,
{
    let each = divided_up(physical, replicas);
    lemma_full_coverage(devices, each);
    vstd::arithmetic::div_mod::lemma_fundamental_div_mod(physical as int, replicas as int);
    let q = physical / replicas;
    let rem = physical % replicas;
    assert(devices.len() * each >= physical) by (nonlinear_arith)
        requires
            devices.len() >= replicas,
            physical == replicas * q + rem,
            rem < replicas,
            each >= q,
            rem > 0 ==> each == q + 1,
            replicas > 0,
    ;
}

/// A missing label is no evidence that a member is outside of a target, and a
/// path that could not be resolved is not an empty target: either way the members
/// are unknown.
pub proof fn law_unknown_members_are_not_none(
    config: TargetConfigView,
    devices: Seq<DeviceInfoView>,
    i: int,
)
    requires
        config.device_name is None,
        has_prefix(config.target, "/"@) || (first_named(devices, config.target) is None && 0 <= i
            < devices.len() && devices[i].label is None),
    ensures
        members(config, devices) is None,
{
}

/// Where it is unknown whether one member takes data, nothing is concluded on the
/// capacity of the target: neither that it is short nor that nobody takes data.
pub proof fn law_unknown_eligibility_concludes_nothing(
    snap: FsSnapshotView,
    config: TargetConfigView,
    i: int,
)
    requires
        !no_target(config.target),
        members(config, snap.devices) is Some,
        0 <= i < (members(config, snap.devices)->0).len(),
        (members(config, snap.devices)->0)[i].allocation.takes(placed_type(config.role)) is None,
    ensures
        report_on(snap, config).capacity_bytes is None,
        report_on(snap, config).free_bytes is None,
        report_on(snap, config).findings == gc_findings(
            snap,
            config.role,
            config.target,
            members(config, snap.devices)->0,
        ),
{
}

/// A target whose members are known and of which none takes data is critical.
pub proof fn law_a_target_without_takers_is_critical(
    snap: FsSnapshotView,
    config: TargetConfigView,
)
    requires
        !no_target(config.target),
        members(config, snap.devices) is Some,
        forall|i: int|
            0 <= i < (members(config, snap.devices)->0).len() ==> (
            #[trigger] (members(config, snap.devices)->0)[i]).allocation.takes(
                placed_type(config.role),
            ) == Some(false),
    ensures
        report_on(snap, config).findings.len() > 0,
        report_on(snap, config).findings[0] == no_members_finding(config.role, config.target),
        report_on(snap, config).findings[0].severity == Severity::Critical,
{
    let devices = members(config, snap.devices)->0;
    lemma_none_taking(devices, placed_type(config.role));
}

proof fn lemma_none_taking(devices: Seq<DeviceInfoView>, data_type: Seq<char>)
    requires
        forall|i: int|
            0 <= i < devices.len() ==> (#[trigger] devices[i]).allocation.takes(data_type) == Some(
                false,
            ),
    ensures
        taking(devices, data_type, true).len() == 0,
    decreases devices.len(),
{
    if devices.len() > 0 {
        let rest = devices.drop_last();
        assert forall|i: int| 0 <= i < rest.len() implies (#[trigger] rest[i]).allocation.takes(
            data_type,
        ) == Some(false) by {
            assert(rest[i] == devices[i]);
        }
        lemma_none_taking(rest, data_type);
        assert(devices[devices.len() - 1].allocation.takes(data_type) == Some(false));
    }
}

} // verus!
