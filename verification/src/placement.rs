//! What a report on a target says of its members: who takes data, how much room
//! there is, and what keeps the metadata from fitting.

use crate::analysis::{
    below, capacities, copy_findings, coverage, divided_up, free_spaces, gc_finding, gc_findings,
    members, names, no_members_finding, no_target, report_on, reports, space_findings, sum_of,
    taking, unit_durability, with_label, with_name,
};
use crate::double::{quotient, whole};
use crate::numeral::fixed;
use crate::order::how_many;
use crate::strmap::find;
use crate::sysfs::{DeviceInfoView, FsSnapshotView};
use crate::targets::{
    bytes_text, FindingView, MemberAllocationView, Severity, TargetConfigView, TargetReportView,
};
use crate::text::{decimal, has_prefix, number};
use vstd::prelude::*;

verus! {

/// The type of data that is placed in a role.
pub open spec fn data_of(role: Seq<char>) -> Seq<char> {
    if role == "metadata"@ {
        "btree"@
    } else {
        "user"@
    }
}

/// Whether a member takes new data of a type.
pub open spec fn accepts(m: MemberAllocationView, data: Seq<char>) -> bool {
    &&& m.online == Some(true)
    &&& m.state == Some("rw"@)
    &&& m.durability matches Some(n) && n > 0
    &&& m.data_allowed matches Some(types) && types.contains(data)
}

/// Whether a member is known to take no new data of a type.
pub open spec fn declines(m: MemberAllocationView, data: Seq<char>) -> bool {
    ||| m.online == Some(false)
    ||| (m.state matches Some(s) && s != "rw"@)
    ||| m.durability == Some(0u64)
    ||| (m.online is Some && m.state is Some && m.durability is Some && (
    m.data_allowed matches Some(types) && !types.contains(data)))
}

/// A member takes data where it is online, writable, durable and allowed to; it is
/// known not to where one of these is known to fail, and unknown else.
pub proof fn law_who_takes_data(m: MemberAllocationView, data: Seq<char>)
    ensures
        m.takes(data) == Some(true) <==> accepts(m, data),
        m.takes(data) == Some(false) <==> declines(m, data),
        m.takes(data) is None <==> !accepts(m, data) && !declines(m, data),
{
    if let Some(b) = m.online {
        if b {
            assert(m.online == Some(true));
        } else {
            assert(m.online == Some(false));
        }
    }
    if let Some(s) = m.state {
        if s == "rw"@ {
            assert(m.state == Some("rw"@));
        }
    }
    if let Some(n) = m.durability {
        if n == 0 {
            assert(m.durability == Some(0u64));
        }
    }
}

// ---------------------------------------------------------------------- members

proof fn lemma_with_label(devices: Seq<DeviceInfoView>, target: Seq<char>, d: DeviceInfoView)
    ensures
        with_label(devices, target).contains(d) <==> devices.contains(d) && (
        d.label matches Some(l) && below(l, target)),
    decreases devices.len(),
{
    if devices.len() > 0 {
        lemma_with_label(devices.drop_last(), target, d);
        lemma_filtered(
            devices,
            with_label(devices.drop_last(), target),
            with_label(devices, target),
            d,
        );
    }
}

proof fn lemma_with_name(devices: Seq<DeviceInfoView>, name: Seq<char>, d: DeviceInfoView)
    ensures
        with_name(devices, name).contains(d) <==> devices.contains(d) && d.name == name,
    decreases devices.len(),
{
    if devices.len() > 0 {
        lemma_with_name(devices.drop_last(), name, d);
        lemma_filtered(
            devices,
            with_name(devices.drop_last(), name),
            with_name(devices, name),
            d,
        );
    }
}

proof fn lemma_filtered(
    all: Seq<DeviceInfoView>,
    before: Seq<DeviceInfoView>,
    after: Seq<DeviceInfoView>,
    d: DeviceInfoView,
)
    requires
        all.len() > 0,
        after == before || after == before.push(all.last()),
    ensures
        all.contains(d) <==> all.drop_last().contains(d) || d == all.last(),
        after == before.push(all.last()) ==> (after.contains(d) <==> before.contains(d) || d
            == all.last()),
{
    let rest = all.drop_last();
    assert(all[all.len() - 1] == all.last());
    if rest.contains(d) {
        let k = choose|k: int| 0 <= k < rest.len() && rest[k] == d;
        assert(all[k] == d);
    }
    if all.contains(d) && d != all.last() {
        let k = choose|k: int| 0 <= k < all.len() && all[k] == d;
        assert(rest[k] == d);
    }
    if after == before.push(all.last()) {
        assert(after[before.len() as int] == all.last());
        if before.contains(d) {
            let k = choose|k: int| 0 <= k < before.len() && before[k] == d;
            assert(after[k] == d);
        }
        if after.contains(d) && d != all.last() {
            let k = choose|k: int| 0 <= k < after.len() && after[k] == d;
            assert(before[k] == d);
        }
    }
}

/// The members of a target are the devices with its label or a label below it, at a
/// dot; of a device path that was resolved, those of that name.
pub proof fn law_members_carry_the_label(
    config: TargetConfigView,
    devices: Seq<DeviceInfoView>,
    d: DeviceInfoView,
)
    requires
        members(config, devices) is Some,
    ensures
        config.device_name matches Some(name) ==> ((members(config, devices)->0).contains(d)
            <==> devices.contains(d) && d.name == name),
        config.device_name is None && (forall|i: int|
            0 <= i < devices.len() ==> (#[trigger] devices[i]).name != config.target) ==> ((members(
            config,
            devices,
        )->0).contains(d) <==> devices.contains(d) && (d.label == Some(config.target) || (
        d.label matches Some(l) && has_prefix(l, config.target + "."@)))),
{
    match config.device_name {
        Some(name) => lemma_with_name(devices, name, d),
        None => {
            lemma_with_label(devices, config.target, d);
            lemma_no_device(devices, config.target);
        },
    }
}

proof fn lemma_no_device(devices: Seq<DeviceInfoView>, name: Seq<char>)
    ensures
        (forall|i: int| 0 <= i < devices.len() ==> (#[trigger] devices[i]).name != name)
            ==> crate::analysis::first_named(devices, name) is None,
    decreases devices.len(),
{
    if devices.len() > 0 && (forall|i: int|
        0 <= i < devices.len() ==> (#[trigger] devices[i]).name != name) {
        let t = devices.skip(1);
        assert(devices[0].name != name);
        assert forall|i: int| 0 <= i < t.len() implies (#[trigger] t[i]).name != name by {
            assert(t[i] == devices[i + 1]);
        }
        lemma_no_device(t, name);
    }
}

// ------------------------------------------------------------------------- room

/// Whether it is known of each member whether it takes a type of data.
pub open spec fn all_decided(ms: Seq<DeviceInfoView>, data: Seq<char>) -> bool {
    forall|i: int|
        0 <= i < ms.len() ==> accepts((#[trigger] ms[i]).allocation, data) || declines(
            ms[i].allocation,
            data,
        )
}

/// A sum with one value more, where both are known and it fits.
pub open spec fn raised(total: Option<u64>, by: Option<u64>) -> Option<u64> {
    match (total, by) {
        (Some(a), Some(b)) => if a + b <= u64::MAX {
            Some((a + b) as u64)
        } else {
            None
        },
        _ => None,
    }
}

proof fn lemma_sum_push(values: Seq<Option<u64>>, v: Option<u64>)
    ensures
        sum_of(values.push(v)) == raised(sum_of(values), v),
{
    let p = values.push(v);
    assert(p.drop_last() =~= values);
    assert(p.last() == v);
}

proof fn lemma_decided(ms: Seq<DeviceInfoView>, data: Seq<char>)
    ensures
        all_decided(ms, data) <==> crate::analysis::all_known(ms, data),
{
    if all_decided(ms, data) {
        assert forall|i: int| 0 <= i < ms.len() implies (#[trigger] ms[i]).allocation.takes(data) is Some by {
            law_who_takes_data(ms[i].allocation, data);
        }
    }
    if crate::analysis::all_known(ms, data) {
        assert forall|i: int| 0 <= i < ms.len() implies accepts(
            (#[trigger] ms[i]).allocation,
            data,
        ) || declines(ms[i].allocation, data) by {
            law_who_takes_data(ms[i].allocation, data);
        }
    }
}

/// A target without members has no room, and nobody takes data there.
pub proof fn law_no_members_no_room(snap: FsSnapshotView, config: TargetConfigView)
    requires
        !no_target(config.target),
        members(config, snap.devices) is Some,
        (members(config, snap.devices)->0).len() == 0,
    ensures
        ({
            let r = report_on(snap, config);
            &&& r.members.len() == 0
            &&& r.eligible_members == Some(0usize) && r.eligible_devices.len() == 0
            &&& r.capacity_bytes == Some(0u64) && r.free_bytes == Some(0u64)
        }),
{
    let ms = members(config, snap.devices)->0;
    assert(taking(ms, data_of(config.role), true).len() == 0);
    assert(capacities(taking(ms, data_of(config.role), true)).len() == 0);
    assert(free_spaces(taking(ms, data_of(config.role), true)).len() == 0);
}

/// Room adds up member by member: one more that takes data raises the capacity of
/// its target by its own capacity and the free space by its own free space, each
/// unknown where its own is; one more that does not changes neither. Nothing else
/// of the snapshot matters.
pub proof fn law_room_adds_up(
    snap: FsSnapshotView,
    larger: FsSnapshotView,
    config: TargetConfigView,
    d: DeviceInfoView,
)
    requires
        !no_target(config.target),
        members(config, snap.devices) is Some,
        (members(config, snap.devices)->0).len() < usize::MAX,
        members(config, larger.devices) == Some((members(config, snap.devices)->0).push(d)),
        all_decided(members(config, larger.devices)->0, data_of(config.role)),
    ensures
        ({
            let a = report_on(snap, config);
            let b = report_on(larger, config);
            let data = data_of(config.role);
            &&& b.members == a.members.push(d.name)
            &&& accepts(d.allocation, data) ==> {
                &&& a.eligible_members is Some && b.eligible_members is Some
                &&& b.eligible_members->0 == a.eligible_members->0 + 1
                &&& b.eligible_devices == a.eligible_devices.push(d.name)
                &&& b.capacity_bytes == raised(a.capacity_bytes, d.allocation.capacity_bytes)
                &&& b.free_bytes == raised(a.free_bytes, d.allocation.free_bytes)
            }
            &&& !accepts(d.allocation, data) ==> {
                &&& b.eligible_members == a.eligible_members
                &&& b.eligible_devices == a.eligible_devices
                &&& b.capacity_bytes == a.capacity_bytes
                &&& b.free_bytes == a.free_bytes
            }
        }),
{
    let data = data_of(config.role);
    let ms = members(config, snap.devices)->0;
    let all = ms.push(d);
    assert(all_decided(ms, data)) by {
        assert forall|i: int| 0 <= i < ms.len() implies accepts(
            (#[trigger] ms[i]).allocation,
            data,
        ) || declines(ms[i].allocation, data) by {
            assert(all[i] == ms[i]);
        }
    }
    lemma_decided(ms, data);
    lemma_decided(all, data);
    law_who_takes_data(d.allocation, data);
    assert(all.drop_last() =~= ms);
    let e = taking(ms, data, true);
    lemma_taking_len(ms, data);
    assert(names(all) =~= names(ms).push(d.name));
    if accepts(d.allocation, data) {
        assert(taking(all, data, true) == e.push(d));
        assert(names(e.push(d)) =~= names(e).push(d.name));
        assert(capacities(e.push(d)) =~= capacities(e).push(d.allocation.capacity_bytes));
        assert(free_spaces(e.push(d)) =~= free_spaces(e).push(d.allocation.free_bytes));
        lemma_sum_push(capacities(e), d.allocation.capacity_bytes);
        lemma_sum_push(free_spaces(e), d.allocation.free_bytes);
    } else {
        assert(taking(all, data, true) == e);
    }
}

proof fn lemma_taking_len(ms: Seq<DeviceInfoView>, data: Seq<char>)
    ensures
        taking(ms, data, true).len() <= ms.len(),
        forall|i: int|
            0 <= i < taking(ms, data, true).len() ==> ms.contains(
                #[trigger] taking(ms, data, true)[i],
            ) && accepts(taking(ms, data, true)[i].allocation, data),
        forall|i: int|
            0 <= i < ms.len() && accepts((#[trigger] ms[i]).allocation, data) ==> taking(
                ms,
                data,
                true,
            ).contains(ms[i]),
        taking(ms, data, true).len() == how_many(
            ms,
            |d: DeviceInfoView| accepts(d.allocation, data),
        ),
    decreases ms.len(),
{
    if ms.len() > 0 {
        let rest = ms.drop_last();
        let n = ms.len() - 1;
        lemma_taking_len(rest, data);
        law_who_takes_data(ms.last().allocation, data);
        let a = taking(rest, data, true);
        let b = taking(ms, data, true);
        assert(ms[n] == ms.last());
        assert forall|i: int| 0 <= i < b.len() implies ms.contains(#[trigger] b[i]) && accepts(
            b[i].allocation,
            data,
        ) by {
            if i < a.len() {
                assert(b[i] == a[i]);
                let k = choose|k: int| 0 <= k < rest.len() && rest[k] == a[i];
                assert(ms[k] == a[i]);
            }
        }
        assert forall|i: int| 0 <= i < ms.len() && accepts(
            (#[trigger] ms[i]).allocation,
            data,
        ) implies b.contains(ms[i]) by {
            if i < n {
                assert(rest[i] == ms[i]);
                assert(a.contains(rest[i]));
                let k = choose|k: int| 0 <= k < a.len() && a[k] == ms[i];
                assert(b[k] == ms[i]);
            } else {
                assert(b[b.len() - 1] == ms[n]);
            }
        }
    }
}

// --------------------------------------------------------------------- findings

/// Whether a report has a finding of a name.
pub open spec fn finds(r: TargetReportView, id: Seq<char>) -> bool {
    exists|i: int| 0 <= i < r.findings.len() && (#[trigger] r.findings[i]).id == id
}

pub open spec fn has_id(findings: Seq<FindingView>, id: Seq<char>) -> bool {
    exists|i: int| 0 <= i < findings.len() && (#[trigger] findings[i]).id == id
}

/// How much metadata the members that take it can hold if each holds at most so
/// much.
pub open spec fn held(ms: Seq<DeviceInfoView>, each: nat) -> nat
    decreases ms.len(),
{
    if ms.len() == 0 {
        0
    } else {
        let m = ms.last().allocation;
        held(ms.drop_last(), each) + if accepts(m, "btree"@) && m.capacity_bytes is Some {
            if m.capacity_bytes->0 < each {
                m.capacity_bytes->0 as nat
            } else {
                each
            }
        } else {
            0
        }
    }
}

/// The copies of metadata that are asked for.
pub open spec fn asks_for(snap: FsSnapshotView, n: u64) -> bool {
    n > 0 && (find(snap.options, "metadata_replicas"@) matches Some(text) && number(text) == Some(
        n,
    ))
}

/// Whether every member that takes metadata holds one copy of what is there.
pub open spec fn all_single(ms: Seq<DeviceInfoView>) -> bool {
    forall|i: int|
        0 <= i < ms.len() && accepts((#[trigger] ms[i]).allocation, "btree"@)
            ==> ms[i].allocation.durability == Some(1u64)
}

proof fn lemma_single(ms: Seq<DeviceInfoView>)
    ensures
        unit_durability(taking(ms, "btree"@, true)) <==> all_single(ms),
{
    let e = taking(ms, "btree"@, true);
    lemma_taking_len(ms, "btree"@);
    if unit_durability(e) {
        assert forall|i: int| 0 <= i < ms.len() && accepts(
            (#[trigger] ms[i]).allocation,
            "btree"@,
        ) implies ms[i].allocation.durability == Some(1u64) by {
            assert(e.contains(ms[i]));
            let k = choose|k: int| 0 <= k < e.len() && e[k] == ms[i];
            assert(e[k].allocation.durability == Some(1u64));
        }
    }
    if all_single(ms) {
        assert forall|i: int| 0 <= i < e.len() implies (#[trigger] e[i]).allocation.durability
            == Some(1u64) by {
            assert(ms.contains(e[i]));
            let k = choose|k: int| 0 <= k < ms.len() && ms[k] == e[i];
            assert(accepts(ms[k].allocation, "btree"@));
        }
    }
}

proof fn lemma_held(ms: Seq<DeviceInfoView>, each: nat)
    ensures
        coverage(taking(ms, "btree"@, true), each) == held(ms, each),
    decreases ms.len(),
{
    if ms.len() > 0 {
        let rest = ms.drop_last();
        lemma_held(rest, each);
        law_who_takes_data(ms.last().allocation, "btree"@);
        let a = taking(rest, "btree"@, true);
        assert(a.push(ms.last()).drop_last() =~= a);
    }
}

proof fn lemma_both_ids(a: Seq<FindingView>, b: Seq<FindingView>, id: Seq<char>)
    ensures
        has_id(a + b, id) <==> has_id(a, id) || has_id(b, id),
{
    let s = a + b;
    if has_id(a, id) {
        let i = choose|i: int| 0 <= i < a.len() && (#[trigger] a[i]).id == id;
        assert(s[i] == a[i]);
    }
    if has_id(b, id) {
        let i = choose|i: int| 0 <= i < b.len() && (#[trigger] b[i]).id == id;
        assert(s[a.len() + i] == b[i]);
    }
    if has_id(s, id) {
        let i = choose|i: int| 0 <= i < s.len() && (#[trigger] s[i]).id == id;
        if i < a.len() {
            assert(a[i].id == id);
        } else {
            assert(b[i - a.len()].id == id);
        }
    }
}

proof fn lemma_gc_ids(
    snap: FsSnapshotView,
    role: Seq<char>,
    target: Seq<char>,
    devices: Seq<DeviceInfoView>,
)
    ensures
        ({
            let g = gc_findings(snap, role, target, devices);
            &&& forall|i: int|
                0 <= i < g.len() ==> exists|k: int|
                    0 <= k < devices.len() && #[trigger] g[i] == gc_finding(
                        snap,
                        role,
                        target,
                        #[trigger] devices[k],
                    ) && find(snap.copygc.needs_gc, devices[k].name) == Some(true)
            &&& forall|k: int|
                0 <= k < devices.len() && find(
                    snap.copygc.needs_gc,
                    (#[trigger] devices[k]).name,
                ) == Some(true) ==> g.contains(gc_finding(snap, role, target, devices[k]))
        }),
    decreases devices.len(),
{
    if devices.len() > 0 {
        let rest = devices.drop_last();
        let n = devices.len() - 1;
        lemma_gc_ids(snap, role, target, rest);
        let a = gc_findings(snap, role, target, rest);
        let g = gc_findings(snap, role, target, devices);
        assert(devices[n] == devices.last());
        assert forall|i: int| 0 <= i < g.len() implies exists|k: int|
            0 <= k < devices.len() && #[trigger] g[i] == gc_finding(
                snap,
                role,
                target,
                #[trigger] devices[k],
            ) && find(snap.copygc.needs_gc, devices[k].name) == Some(true) by {
            if i < a.len() {
                assert(g[i] == a[i]);
                let k = choose|k: int|
                    0 <= k < rest.len() && a[i] == gc_finding(snap, role, target, #[trigger] rest[k])
                        && find(snap.copygc.needs_gc, rest[k].name) == Some(true);
                assert(devices[k] == rest[k]);
            } else {
                assert(g[i] == gc_finding(snap, role, target, devices[n]));
            }
        }
        assert forall|k: int| 0 <= k < devices.len() && find(
            snap.copygc.needs_gc,
            (#[trigger] devices[k]).name,
        ) == Some(true) implies g.contains(gc_finding(snap, role, target, devices[k])) by {
            if k < n {
                assert(rest[k] == devices[k]);
                assert(a.contains(gc_finding(snap, role, target, rest[k])));
                let i = choose|i: int|
                    0 <= i < a.len() && a[i] == gc_finding(snap, role, target, devices[k]);
                assert(g[i] == a[i]);
            } else {
                assert(g[g.len() - 1] == gc_finding(snap, role, target, devices[n]));
            }
        }
    }
}

/// A finding is made for each member that the kernel says needs collection, whatever
/// is known of the others, and for no other member.
pub proof fn law_members_that_need_collection_are_found(
    snap: FsSnapshotView,
    config: TargetConfigView,
)
    requires
        !no_target(config.target),
        members(config, snap.devices) is Some,
    ensures
        ({
            let ms = members(config, snap.devices)->0;
            let r = report_on(snap, config);
            let head = config.role + ":"@ + config.target + ":gc:"@;
            &&& forall|k: int|
                0 <= k < ms.len() && find(snap.copygc.needs_gc, (#[trigger] ms[k]).name) == Some(
                    true,
                ) ==> exists|i: int|
                    0 <= i < r.findings.len() && ({
                        let f = #[trigger] r.findings[i];
                        f.id == head + decimal(ms[k].index as nat) && f.severity
                            == Severity::Warning
                    })
            &&& (forall|k: int|
                0 <= k < ms.len() ==> find(snap.copygc.needs_gc, (#[trigger] ms[k]).name) != Some(
                    true,
                )) ==> forall|i: int|
                0 <= i < r.findings.len() ==> !has_prefix((#[trigger] r.findings[i]).id, head)
        }),
{
    let ms = members(config, snap.devices)->0;
    let r = report_on(snap, config);
    let head = config.role + ":"@ + config.target + ":gc:"@;
    let g = gc_findings(snap, config.role, config.target, ms);
    lemma_gc_ids(snap, config.role, config.target, ms);
    let others = lemma_findings_end(snap, config);
    let first = others.len() as int;
    assert forall|k: int| 0 <= k < ms.len() && find(
        snap.copygc.needs_gc,
        (#[trigger] ms[k]).name,
    ) == Some(true) implies exists|i: int|
        0 <= i < r.findings.len() && ({
            let f = #[trigger] r.findings[i];
            f.id == head + decimal(ms[k].index as nat) && f.severity == Severity::Warning
        }) by {
        let f = gc_finding(snap, config.role, config.target, ms[k]);
        assert(g.contains(f));
        let i = choose|i: int| 0 <= i < g.len() && g[i] == f;
        assert(r.findings[first + i] == f);
        assert(f.id =~= head + decimal(ms[k].index as nat));
    }
    if forall|k: int|
        0 <= k < ms.len() ==> find(snap.copygc.needs_gc, (#[trigger] ms[k]).name) != Some(true) {
        if g.len() > 0 {
            let k = choose|k: int|
                0 <= k < ms.len() && g[0] == gc_finding(
                    snap,
                    config.role,
                    config.target,
                    #[trigger] ms[k],
                ) && find(snap.copygc.needs_gc, ms[k].name) == Some(true);
            assert(false);
        }
        assert forall|i: int| 0 <= i < r.findings.len() implies !has_prefix(
            (#[trigger] r.findings[i]).id,
            head,
        ) by {
            assert(r.findings[i] == others[i]);
            lemma_other_ids(config, others[i].id);
        }
    }
}

/// Whether a name is one of those of the findings on members and room.
spec fn on_members(config: TargetConfigView, id: Seq<char>) -> bool {
    id == config.role + ":"@ + config.target + ":no-members"@ || (config.role == "metadata"@ && (id
        == "metadata:"@ + config.target + ":replicas"@ || id == "metadata:"@ + config.target
        + ":capacity"@ || id == "metadata:"@ + config.target + ":layout"@))
}

/// The findings on collection stand behind the others.
proof fn lemma_findings_end(snap: FsSnapshotView, config: TargetConfigView) -> (others: Seq<
    FindingView,
>)
    requires
        !no_target(config.target),
        members(config, snap.devices) is Some,
    ensures
        report_on(snap, config).findings == others + gc_findings(
            snap,
            config.role,
            config.target,
            members(config, snap.devices)->0,
        ),
        forall|i: int| 0 <= i < others.len() ==> on_members(config, (#[trigger] others[i]).id),
{
    let ms = members(config, snap.devices)->0;
    let data = data_of(config.role);
    let g = gc_findings(snap, config.role, config.target, ms);
    let r = report_on(snap, config);
    if crate::analysis::all_known(ms, data) {
        let e = taking(ms, data, true);
        let none = if e.len() == 0 {
            seq![no_members_finding(config.role, config.target)]
        } else {
            Seq::empty()
        };
        let copies = copy_findings(snap, config.target, e);
        let space = space_findings(snap, config.target, e);
        let more = if config.role == "metadata"@ {
            copies + space
        } else {
            Seq::empty()
        };
        assert(r.findings == none + more + g);
        let others = none + more;
        assert forall|i: int| 0 <= i < others.len() implies on_members(
            config,
            (#[trigger] others[i]).id,
        ) by {
            if i < none.len() {
                assert(others[i] == none[i]);
            } else {
                assert(others[i] == more[i - none.len()]);
                if i - none.len() < copies.len() {
                    assert(others[i] == copies[i - none.len()]);
                } else {
                    assert(others[i] == space[i - none.len() - copies.len()]);
                }
            }
        }
        others
    } else {
        let others = Seq::<FindingView>::empty();
        assert(r.findings =~= others + g);
        others
    }
}

/// Findings other than those on collection are named otherwise.
proof fn lemma_other_ids(config: TargetConfigView, id: Seq<char>)
    requires
        on_members(config, id),
    ensures
        !has_prefix(id, config.role + ":"@ + config.target + ":gc:"@),
{
    let head = config.role + ":"@ + config.target + ":gc:"@;
    let n = config.role.len() + 1 + config.target.len();
    reveal_strlit(":");
    reveal_strlit(":gc:");
    reveal_strlit(":no-members");
    reveal_strlit(":replicas");
    reveal_strlit(":capacity");
    reveal_strlit(":layout");
    reveal_strlit("metadata");
    reveal_strlit("metadata:");
    assert(head[n as int + 1] == 'g');
    if has_prefix(id, head) {
        assert(id[n as int + 1] == head[n as int + 1]) by {
            assert(id.take(head.len() as int)[n as int + 1] == head[n as int + 1]);
        }
    }
}

/// What is found on the metadata target: too few members for the copies asked for,
/// a footprint above the room of those that take metadata, and copies that do not
/// fit on distinct members though there is room in all. Each is found exactly where
/// it holds, by the numbers of the report itself.
pub proof fn law_metadata_constraints_are_found(
    snap: FsSnapshotView,
    config: TargetConfigView,
    n: u64,
)
    requires
        !no_target(config.target),
        config.role == "metadata"@,
        members(config, snap.devices) is Some,
        (members(config, snap.devices)->0).len() <= usize::MAX,
        all_decided(members(config, snap.devices)->0, "btree"@),
        asks_for(snap, n),
    ensures
        ({
            let ms = members(config, snap.devices)->0;
            let r = report_on(snap, config);
            let head = "metadata:"@ + config.target;
            let takers = how_many(ms, |d: DeviceInfoView| accepts(d.allocation, "btree"@));
            let physical = snap.btree_disk_bytes;
            &&& r.eligible_members == Some(takers as usize)
            &&& finds(r, head + ":no-members"@) <==> takers == 0
            &&& finds(r, head + ":replicas"@) <==> all_single(ms) && 0 < takers < n
            &&& finds(r, head + ":capacity"@) <==> takers > 0 && physical is Some
                && r.capacity_bytes is Some && physical->0 > r.capacity_bytes->0
            &&& finds(r, head + ":layout"@) <==> {
                &&& all_single(ms) && 0 < n <= takers
                &&& physical is Some && physical->0 > 0
                &&& r.capacity_bytes is Some && physical->0 <= r.capacity_bytes->0
                &&& snap.reconcile.metadata("replicas"@) == Some(0u64)
                &&& held(ms, divided_up(physical->0 as nat, n as nat)) < physical->0
            }
        }),
{
    let ms = members(config, snap.devices)->0;
    let r = report_on(snap, config);
    let head = "metadata:"@ + config.target;
    let e = taking(ms, "btree"@, true);
    lemma_decided(ms, "btree"@);
    lemma_taking_len(ms, "btree"@);
    lemma_single(ms);
    if let Some(p) = snap.btree_disk_bytes {
        lemma_held(ms, divided_up(p as nat, n as nat));
    }
    assert(crate::analysis::replicas_of(snap.options) == Some(n));
    let none = if e.len() == 0 {
        seq![no_members_finding(config.role, config.target)]
    } else {
        Seq::empty()
    };
    let copies = copy_findings(snap, config.target, e);
    let space = space_findings(snap, config.target, e);
    let g = gc_findings(snap, config.role, config.target, ms);
    assert(r.findings == none + (copies + space) + g);
    assert forall|id: Seq<char>| #[trigger] finds(r, id) <==> has_id(none, id) || has_id(copies, id)
        || has_id(space, id) || has_id(g, id) by {
        lemma_both_ids(none + (copies + space), g, id);
        lemma_both_ids(none, copies + space, id);
        lemma_both_ids(copies, space, id);
        assert(finds(r, id) == has_id(r.findings, id));
    }
    lemma_heads(config);
    lemma_gc_ids(snap, config.role, config.target, ms);
    assert forall|i: int| 0 <= i < g.len() implies (#[trigger] g[i]).id != head + ":no-members"@
        && g[i].id != head + ":replicas"@ && g[i].id != head + ":capacity"@ && g[i].id != head
        + ":layout"@ by {
        let k = choose|k: int|
            0 <= k < ms.len() && g[i] == gc_finding(
                snap,
                config.role,
                config.target,
                #[trigger] ms[k],
            ) && find(snap.copygc.needs_gc, ms[k].name) == Some(true);
        lemma_gc_id_differs(config, ms[k].index);
    }
    if none.len() > 0 {
        assert(none[0].id == head + ":no-members"@);
    }
    if copies.len() > 0 {
        assert(copies[0].id == head + ":replicas"@);
    }
    if space.len() > 0 {
        assert(space[0].id == head + ":capacity"@ || space[0].id == head + ":layout"@);
    }
}

proof fn lemma_heads(config: TargetConfigView)
    requires
        config.role == "metadata"@,
    ensures
        ({
            let head = "metadata:"@ + config.target;
            &&& config.role + ":"@ + config.target + ":no-members"@ == head + ":no-members"@
            &&& head + ":no-members"@ != head + ":replicas"@
            &&& head + ":no-members"@ != head + ":capacity"@
            &&& head + ":no-members"@ != head + ":layout"@
            &&& head + ":replicas"@ != head + ":capacity"@
            &&& head + ":replicas"@ != head + ":layout"@
            &&& head + ":capacity"@ != head + ":layout"@
        }),
{
    let head = "metadata:"@ + config.target;
    let n = head.len() as int;
    reveal_strlit(":");
    reveal_strlit("metadata");
    reveal_strlit("metadata:");
    reveal_strlit(":no-members");
    reveal_strlit(":replicas");
    reveal_strlit(":capacity");
    reveal_strlit(":layout");
    assert("metadata"@ + ":"@ =~= "metadata:"@);
    assert(config.role + ":"@ + config.target + ":no-members"@ =~= head + ":no-members"@);
    assert((head + ":no-members"@)[n + 1] == 'n');
    assert((head + ":replicas"@)[n + 1] == 'r');
    assert((head + ":capacity"@)[n + 1] == 'c');
    assert((head + ":layout"@)[n + 1] == 'l');
}

proof fn lemma_gc_id_differs(config: TargetConfigView, index: u32)
    requires
        config.role == "metadata"@,
    ensures
        ({
            let head = "metadata:"@ + config.target;
            let id = config.role + ":"@ + config.target + ":gc:"@ + decimal(index as nat);
            &&& id != head + ":no-members"@ && id != head + ":replicas"@
            &&& id != head + ":capacity"@ && id != head + ":layout"@
        }),
{
    let head = "metadata:"@ + config.target;
    let id = config.role + ":"@ + config.target + ":gc:"@ + decimal(index as nat);
    let n = head.len() as int;
    reveal_strlit(":");
    reveal_strlit("metadata");
    reveal_strlit("metadata:");
    reveal_strlit(":gc:");
    reveal_strlit(":no-members");
    reveal_strlit(":replicas");
    reveal_strlit(":capacity");
    reveal_strlit(":layout");
    assert(id[n + 1] == 'g');
    assert((head + ":no-members"@)[n + 1] == 'n');
    assert((head + ":replicas"@)[n + 1] == 'r');
    assert((head + ":capacity"@)[n + 1] == 'c');
    assert((head + ":layout"@)[n + 1] == 'l');
}

/// There is one report for each configured target, in their order and in its role.
/// That on the metadata says first what the metadata takes on disk, how many copies
/// are asked for and how much is still to be moved there.
pub proof fn law_every_target_is_reported(snap: FsSnapshotView, i: int)
    ensures
        reports(snap).len() == snap.target_configs.len(),
        0 <= i < snap.target_configs.len() ==> ({
            let r = reports(snap)[i];
            let asked = find(snap.options, "metadata_replicas"@);
            &&& r.role == snap.target_configs[i].role
            &&& r.target == snap.target_configs[i].target
            &&& r.role == "metadata"@ ==> r.notes.len() > 0 && r.notes[0]
                == "Reported on-disk btree footprint: "@ + bytes_text(snap.btree_disk_bytes)
                + "; requested replicas: "@ + (if asked is Some {
                asked->0
            } else {
                "?"@
            }) + "; metadata target backlog: "@ + bytes_text(snap.reconcile.metadata("target"@))
                + "."@
        }),
{
}

/// A share of copies is rounded up: it is the least with which all shares together
/// suffice.
pub proof fn law_a_share_is_rounded_up(n: nat, d: nat)
    requires
        d > 0,
    ensures
        d * divided_up(n, d) >= n,
        n > 0 ==> d * (divided_up(n, d) - 1) < n,
        n == 0 ==> divided_up(n, d) == 0,
{
    let q = n / d;
    vstd::arithmetic::div_mod::lemma_fundamental_div_mod(n as int, d as int);
    assert(d * (q + 1) == d * q + d) by (nonlinear_arith);
    assert(d * (q - 1) == d * q - d) by (nonlinear_arith);
    assert(n % d < d) by {
        vstd::arithmetic::div_mod::lemma_mod_bound(n as int, d as int);
    }
}

/// A member that needs collection is described by its own free and fragmented space.
pub proof fn law_a_member_in_need_is_described(
    snap: FsSnapshotView,
    role: Seq<char>,
    target: Seq<char>,
    d: DeviceInfoView,
)
    ensures
        ({
            let f = crate::analysis::gc_finding(snap, role, target, d);
            let does = if snap.copygc.running == Some(true) {
                "is running"@
            } else if snap.copygc.running == Some(false) {
                "is idle"@
            } else {
                "state unknown"@
            };
            let head = "Kernel calculated wait is non-positive; copygc "@ + does
                + ". Free buckets: "@ + bytes_text(d.allocation.free_bytes) + "; fragmented: "@
                + bytes_text(d.allocation.fragmented_bytes);
            &&& has_prefix(f.detail, head)
            &&& f.severity == Severity::Warning
            &&& f.summary == role + " target "@ + target + ": "@ + d.name + " needs GC"@
        }),
{
    let f = crate::analysis::gc_finding(snap, role, target, d);
    if snap.copygc.running == Some(true) {
    } else if snap.copygc.running == Some(false) {
    }
    let head = "Kernel calculated wait is non-positive; copygc "@
        + crate::analysis::copygc_text(snap.copygc.running) + ". Free buckets: "@ + bytes_text(
        d.allocation.free_bytes,
    ) + "; fragmented: "@ + bytes_text(d.allocation.fragmented_bytes);
    assert(f.detail.take(head.len() as int) =~= head);
}

/// Bytes are shown in the largest unit of which there is one.
pub proof fn law_bytes_have_the_largest_unit(b: u64)
    ensures
        bytes_text(None) == "?"@,
        b < 1024 ==> bytes_text(Some(b)) == decimal(b as nat) + " B"@,
        1024 <= b < 1_048_576 ==> bytes_text(Some(b)) == fixed(
            quotient(whole(b as nat), whole(1024)),
            2,
        ) + " KiB"@,
        1_048_576 <= b < 1_073_741_824 ==> bytes_text(Some(b)) == fixed(
            quotient(whole(b as nat), whole(1_048_576)),
            2,
        ) + " MiB"@,
        1_073_741_824 <= b < 1_099_511_627_776 ==> bytes_text(Some(b)) == fixed(
            quotient(whole(b as nat), whole(1_073_741_824)),
            2,
        ) + " GiB"@,
        1_099_511_627_776 <= b ==> bytes_text(Some(b)) == fixed(
            quotient(whole(b as nat), whole(1_099_511_627_776)),
            2,
        ) + " TiB"@,
{
}

} // verus!
