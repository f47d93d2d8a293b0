//! What the histories of latency and of free space say of the samples in them.

use crate::analysis::first_named;
use crate::double::{product, quotient, whole, zero};
use crate::numeral::{fixed, seconds};
use crate::order::how_many;
use crate::peers::PeerSampleView;
use crate::strmap::find;
use crate::sysfs::{DeviceInfoView, Duration, FsSnapshotView, Instant};
use crate::targets::{work_of, TargetReportView};
use crate::text::{decimal, has_prefix};
use crate::trends::{
    count_pressure, count_running, headroom_reading, headroom_with, joint_pressure,
    latency_observed, marked, recent_points, reference_point, steps, summarises, total_of, windowed,
    BaselinePoint, HeadroomHistoryView, HeadroomPoint, HeadroomSummary, LatencyHistoryView,
};
use crate::window::since;
use vstd::prelude::*;

verus! {

// ---------------------------------------------------------------------- latency

/// How long a device has been an outlier counts from the first of an unbroken row
/// of samples: the second and third of them after thirty seconds make a verdict,
/// which covers the time since that first one. A sample that is none ends the row.
pub proof fn law_a_row_of_outliers_is_counted(
    h: LatencyHistoryView,
    signature: Seq<char>,
    s: PeerSampleView,
    at: Instant,
    gap: Duration,
)
    requires
        h.signature == signature,
        h.last matches Some(t) && t < at && at - t <= gap,
    ensures
        ({
            let (next, shown) = latency_observed(h, signature, Some(s), at, gap);
            let from = match h.since {
                Some(t) => t,
                None => at,
            };
            &&& next.signature == signature && next.last == Some(at)
            &&& s.outlier ==> next.since == Some(from) && (h.samples < usize::MAX ==> next.samples
                == h.samples + 1)
            &&& !s.outlier ==> next.since is None && next.samples == 0 && shown is None
            &&& s.outlier && from <= at && at - from >= 30_000_000_000 && 2 <= h.samples
                < usize::MAX ==> (shown matches Some(e) && e.samples == h.samples + 1 && e.seconds
                == seconds((at - from) as u64))
        }),
{
}

/// The usual latency of a device is that of its samples that are no outliers: the
/// time of each counts as often as it has requests. Outliers do not move it.
pub proof fn law_outliers_do_not_move_the_baseline(
    h: LatencyHistoryView,
    signature: Seq<char>,
    s: PeerSampleView,
    at: Instant,
    gap: Duration,
)
    requires
        h.signature == signature,
        h.last matches Some(t) && t < at && at - t <= gap,
        forall|i: int|
            0 <= i < h.baseline.len() ==> since(at, (#[trigger] h.baseline[i]).start)
                <= 300_000_000_000,
    ensures
        ({
            let next = latency_observed(h, signature, Some(s), at, gap).0.baseline;
            let was = h.baseline;
            let n = was.len();
            let ms = product(s.await_ms, whole(s.completed as nat));
            &&& s.outlier ==> next == was
            &&& !s.outlier && (n == 0 || since(at, was.last().start) >= 10_000_000_000)
                ==> next.len() == n + 1 && next.drop_last() == was && next.last().start == at
                && next.last().end == at && next.last().ops == s.completed
                && next.last().latency_ms == ms
            &&& !s.outlier && n > 0 && since(at, was.last().start) < 10_000_000_000 ==> next.len()
                == n && next.drop_last() == was.drop_last() && next.last().start
                == was.last().start && next.last().end == at && next.last().latency_ms
                == crate::double::sum(was.last().latency_ms, ms) && (was.last().ops + s.completed
                <= u64::MAX ==> next.last().ops == was.last().ops + s.completed)
        }),
{
    let was = h.baseline;
    if was.len() > 0 {
        assert(since(at, was[0].start) <= 300_000_000_000);
    }
    let next = latency_observed(h, signature, Some(s), at, gap).0.baseline;
    if !s.outlier {
        assert(next.drop_last() =~= was || next.drop_last() =~= was.drop_last());
    }
}

/// The baseline that a verdict shows: all milliseconds over all requests of points
/// that cover thirty seconds, three at least; none without requests.
pub proof fn law_a_baseline_is_time_per_request(
    h: LatencyHistoryView,
    signature: Seq<char>,
    s: PeerSampleView,
    at: Instant,
    gap: Duration,
)
    requires
        latency_observed(h, signature, Some(s), at, gap).1 is Some,
    ensures
        ({
            let (next, shown) = latency_observed(h, signature, Some(s), at, gap);
            let p = next.baseline;
            let ms = total_of(Seq::new(p.len(), |i: int| p[i].latency_ms));
            let ops = total_of(Seq::new(p.len(), |i: int| whole(p[i].ops as nat)));
            let enough = p.len() >= 3 && p.last().end - p[0].start >= 30_000_000_000 && zero().less(
                ops,
            );
            &&& enough ==> shown->0.baseline_ms == Some(quotient(ms, ops))
            &&& !enough ==> shown->0.baseline_ms is None
        }),
{
    let p = latency_observed(h, signature, Some(s), at, gap).0.baseline;
    assert(Seq::new(p.len(), |i: int| p[i].latency_ms) =~= crate::trends::latencies(p));
    assert(Seq::new(p.len(), |i: int| whole(p[i].ops as nat)) =~= crate::trends::request_counts(p));
}

/// Points that started more than five minutes ago are left off in front, and no
/// others.
pub proof fn law_old_points_are_left_off(points: Seq<BaselinePoint>, at: Instant)
    ensures
        ({
            let kept = recent_points(points, at);
            let gone = points.len() - kept.len();
            &&& kept.len() <= points.len() && kept == points.skip(gone)
            &&& kept.len() > 0 ==> since(at, kept[0].start) <= 300_000_000_000
            &&& forall|i: int|
                0 <= i < gone ==> since(at, (#[trigger] points[i]).start) > 300_000_000_000
        }),
    decreases points.len(),
{
    let kept = recent_points(points, at);
    if points.len() > 0 && since(at, points[0].start) > 300_000_000_000 {
        let rest = points.skip(1);
        law_old_points_are_left_off(rest, at);
        let gone = points.len() - kept.len();
        assert(kept =~= points.skip(gone));
        assert forall|i: int| 0 <= i < gone implies since(at, (#[trigger] points[i]).start)
            > 300_000_000_000 by {
            if i > 0 {
                assert(rest[i - 1] == points[i]);
            }
        }
    } else {
        assert(points.skip(0) =~= points);
    }
}

// --------------------------------------------------------------------- headroom

/// A reading is added at the end where the last is ten seconds old, and what is
/// older than ten minutes is dropped in front. Another policy or member, a step
/// back in time or a gap leaves the reading alone.
pub proof fn law_a_reading_is_added(
    h: HeadroomHistoryView,
    signature: Seq<char>,
    point: HeadroomPoint,
    gap: Duration,
)
    ensures
        ({
            let next = headroom_with(h, signature, point, gap);
            let n = h.points.len();
            let apart = point.at - h.points.last().at;
            &&& next.signature == signature
            &&& h.signature != signature || n == 0 || apart < 0 || apart > gap ==> next.points
                == seq![point]
            &&& h.signature == signature && n > 0 && 10_000_000_000 <= apart <= gap ==> {
                &&& next.points.last() == point
                &&& next.points.len() <= n + 1
                &&& next.points.drop_last() == h.points.skip(n + 1 - next.points.len())
                &&& next.points.len() > 1 ==> since(point.at, next.points[0].at) <= 600_000_000_000
                &&& forall|i: int|
                    0 <= i < n + 1 - next.points.len() ==> since(
                        point.at,
                        (#[trigger] h.points[i]).at,
                    ) > 600_000_000_000
            }
        }),
{
    let next = headroom_with(h, signature, point, gap);
    let n = h.points.len();
    let apart = point.at - h.points.last().at;
    if h.signature == signature && n > 0 && 10_000_000_000 <= apart <= gap {
        let w = windowed(h.points, point.at);
        lemma_windowed(h.points, point.at);
        assert(next.points == w.push(point));
        assert(next.points.drop_last() =~= w);
        assert(next.points.drop_last() =~= h.points.skip(n + 1 - next.points.len()));
    } else if h.signature != signature || n == 0 || apart < 0 || apart > gap {
        let none = Seq::<HeadroomPoint>::empty();
        assert(windowed(none, point.at) == none);
        assert(windowed(h.points, point.at) == h.points || n > 0);
        assert(next.points =~= seq![point]);
    }
}

proof fn lemma_windowed(points: Seq<HeadroomPoint>, at: Instant)
    ensures
        ({
            let w = windowed(points, at);
            &&& w.len() <= points.len()
            &&& w == points.skip(points.len() - w.len())
            &&& w.len() > 0 ==> since(at, w[0].at) <= 600_000_000_000
            &&& forall|i: int|
                0 <= i < points.len() - w.len() ==> since(at, (#[trigger] points[i]).at)
                    > 600_000_000_000
        }),
    decreases points.len(),
{
    let w = windowed(points, at);
    if points.len() > 0 && since(at, points[0].at) > 600_000_000_000 {
        let t = points.skip(1);
        lemma_windowed(t, at);
        assert(w =~= points.skip(points.len() - w.len()));
        assert forall|i: int| 0 <= i < points.len() - w.len() implies since(
            at,
            (#[trigger] points[i]).at,
        ) > 600_000_000_000 by {
            if i > 0 {
                assert(t[i - 1] == points[i]);
            }
        }
    } else {
        assert(points.skip(0) =~= points);
    }
}

/// The free space at two readings, one after the other.
pub open spec fn changes(points: Seq<HeadroomPoint>) -> Seq<(u64, u64)> {
    Seq::new(
        if points.len() == 0 {
            0
        } else {
            (points.len() - 1) as nat
        },
        |i: int| (points[i].free, points[i + 1].free),
    )
}

proof fn lemma_steps(points: Seq<HeadroomPoint>)
    ensures
        steps(points, true) == how_many(changes(points), |c: (u64, u64)| c.1 < c.0),
        steps(points, false) == how_many(changes(points), |c: (u64, u64)| c.0 < c.1),
    decreases points.len(),
{
    if points.len() >= 2 {
        let rest = points.drop_last();
        lemma_steps(rest);
        assert(changes(points).drop_last() =~= changes(rest));
        assert(changes(points).last() == (points[points.len() - 2].free, points.last().free));
    }
}

proof fn lemma_pressure(points: Seq<HeadroomPoint>)
    ensures
        count_pressure(points, Some(true)) == how_many(
            points,
            |p: HeadroomPoint| p.pressure == Some(true),
        ),
        count_pressure(points, None) == how_many(points, |p: HeadroomPoint| p.pressure is None),
        count_running(points) == how_many(points, |p: HeadroomPoint| p.gc_running == Some(true)),
    decreases points.len(),
{
    if points.len() > 0 {
        lemma_pressure(points.drop_last());
        let l = points.last();
        assert(l.pressure == None::<bool> <==> l.pressure is None);
    }
}

/// Whether the latest reading that is at least thirty seconds older than the last
/// stands at a place.
pub open spec fn refers_to(points: Seq<HeadroomPoint>, k: int) -> bool {
    &&& 0 <= k < points.len()
    &&& since(points.last().at, points[k].at) >= 30_000_000_000
    &&& forall|j: int|
        k < j < points.len() ==> since(points.last().at, (#[trigger] points[j]).at)
            < 30_000_000_000
}

proof fn lemma_reference(points: Seq<HeadroomPoint>, at: Instant, k: int)
    requires
        0 <= k < points.len(),
        since(at, points[k].at) >= 30_000_000_000,
        forall|j: int| k < j < points.len() ==> since(at, (#[trigger] points[j]).at) < 30_000_000_000,
    ensures
        reference_point(points, at) == Some((points[k].free, since(at, points[k].at))),
    decreases points.len(),
{
    let n = points.len() - 1;
    assert(points[n] == points.last());
    if k < n {
        let rest = points.drop_last();
        assert forall|j: int| k < j < rest.len() implies since(at, (#[trigger] rest[j]).at)
            < 30_000_000_000 by {
            assert(rest[j] == points[j]);
        }
        lemma_reference(rest, at, k);
    }
}

proof fn lemma_no_reference(points: Seq<HeadroomPoint>, at: Instant)
    requires
        forall|j: int| 0 <= j < points.len() ==> since(at, (#[trigger] points[j]).at) < 30_000_000_000,
    ensures
        reference_point(points, at) is None,
    decreases points.len(),
{
    if points.len() > 0 {
        let rest = points.drop_last();
        assert(points[points.len() - 1] == points.last());
        assert forall|j: int| 0 <= j < rest.len() implies since(at, (#[trigger] rest[j]).at)
            < 30_000_000_000 by {
            assert(rest[j] == points[j]);
        }
        lemma_no_reference(rest, at);
    }
}

proof fn lemma_find_reference(points: Seq<HeadroomPoint>, at: Instant, n: int) -> (k: int)
    requires
        0 <= n <= points.len(),
        forall|j: int| n <= j < points.len() ==> since(at, (#[trigger] points[j]).at) < 30_000_000_000,
    ensures
        -1 <= k < n,
        k >= 0 ==> since(at, points[k].at) >= 30_000_000_000,
        forall|j: int| k < j < points.len() ==> since(at, (#[trigger] points[j]).at) < 30_000_000_000,
    decreases n,
{
    if n == 0 {
        -1
    } else if since(at, points[n - 1].at) >= 30_000_000_000 {
        n - 1
    } else {
        lemma_find_reference(points, at, n - 1)
    }
}

/// What a summary says of the readings: the first and the last of them, how many
/// there are, and how often each thing was seen.
pub proof fn law_a_summary_counts_the_readings(s: HeadroomSummary, points: Seq<HeadroomPoint>)
    requires
        points.len() > 0,
        summarises(s, points),
    ensures
        s.samples == points.len(),
        s.first_free == points[0].free && s.last_free == points[points.len() - 1].free,
        s.first_backlog == points[0].backlog,
        s.last_backlog == points[points.len() - 1].backlog,
        s.sampled_at == points[points.len() - 1].at,
        points[0].at <= points[points.len() - 1].at ==> s.seconds == seconds(
            (points[points.len() - 1].at - points[0].at) as u64,
        ),
        s.decreases == how_many(changes(points), |c: (u64, u64)| c.1 < c.0),
        s.increases == how_many(changes(points), |c: (u64, u64)| c.0 < c.1),
        s.pressure_samples == how_many(points, |p: HeadroomPoint| p.pressure == Some(true)),
        s.unknown_pressure == how_many(points, |p: HeadroomPoint| p.pressure is None),
        s.gc_running_samples == how_many(points, |p: HeadroomPoint| p.gc_running == Some(true)),
{
    lemma_steps(points);
    lemma_pressure(points);
}

/// A loss of free space is a warning exactly where the readings cover two minutes,
/// it fell three times at least and in seven tenths of its changes, by 64 MiB and a
/// tenth at least, below what it was thirty seconds before, and four fifths of the
/// readings saw pressure.
pub proof fn law_a_sustained_loss_is_a_warning(s: HeadroomSummary, points: Seq<HeadroomPoint>)
    requires
        points.len() > 0,
        summarises(s, points),
    ensures
        s.alert <==> {
            let last = points[points.len() - 1];
            &&& !s.seconds.less(seconds(120_000_000_000))
            &&& s.decreases >= 3 && 100 * s.decreases >= 70 * (s.decreases + s.increases)
            &&& s.first_free - s.last_free >= 67_108_864
            &&& s.first_free - s.last_free >= s.first_free / 10
            &&& 100 * s.pressure_samples >= 80 * s.samples
            &&& exists|k: int| #[trigger] refers_to(points, k) && last.free < points[k].free
        },
{
    let n = points.len() as int;
    let last = points[n - 1];
    assert(last == points.last());
    let k = lemma_find_reference(points, last.at, n);
    if k >= 0 {
        lemma_reference(points, last.at, k);
        assert(refers_to(points, k));
        assert forall|j: int| #[trigger] refers_to(points, j) implies j == k by {
            if j < k {
                assert(since(last.at, points[k].at) < 30_000_000_000);
            } else if j > k {
                assert(since(last.at, points[j].at) < 30_000_000_000);
            }
        }
    } else {
        assert forall|j: int| 0 <= j < n implies since(last.at, (#[trigger] points[j]).at)
            < 30_000_000_000 by {}
        lemma_no_reference(points, last.at);
        assert forall|j: int| !(#[trigger] refers_to(points, j)) by {
            if 0 <= j < n {
                assert(since(last.at, points[j].at) < 30_000_000_000);
            }
        }
    }
    lemma_names();
}

proof fn lemma_names()
    ensures
        "falling"@ != "warming up"@,
        "falling"@ != "steady"@,
        "falling"@ != "rising"@,
        "falling"@ != "fluctuating"@,
{
    reveal_strlit("falling");
    reveal_strlit("warming up");
    reveal_strlit("steady");
    reveal_strlit("rising");
    reveal_strlit("fluctuating");
    assert("falling"@[0] == 'f' && "falling"@[1] == 'a' && "warming up"@[0] == 'w');
    assert("steady"@[0] == 's' && "rising"@[0] == 'r' && "fluctuating"@[1] == 'l');
}

/// The direction of the free space follows its ends and the share of its changes
/// that went that way; under two minutes nothing is said.
pub proof fn law_the_direction_follows_the_changes(s: HeadroomSummary, points: Seq<HeadroomPoint>)
    requires
        points.len() > 0,
        summarises(s, points),
    ensures
        ({
            let short = s.seconds.less(seconds(120_000_000_000));
            let all = s.decreases + s.increases;
            &&& short ==> s.direction@ == "warming up"@
            &&& !short && s.first_free == s.last_free ==> s.direction@ == "steady"@
            &&& !short && s.last_free < s.first_free && 100 * s.decreases >= 70 * all
                ==> s.direction@ == "falling"@
            &&& !short && s.last_free > s.first_free && 100 * s.increases >= 70 * all
                ==> s.direction@ == "rising"@
            &&& !short && s.last_free < s.first_free && 100 * s.decreases < 70 * all
                ==> s.direction@ == "fluctuating"@
            &&& !short && s.last_free > s.first_free && 100 * s.increases < 70 * all
                ==> s.direction@ == "fluctuating"@
        }),
{
}

// ---------------------------------------------------------------------- reading

/// Whether a list holds what is known of the need for collection of each member that
/// takes data.
spec fn are_pressures(
    pressures: Seq<Option<bool>>,
    needs_gc: Seq<(Seq<char>, bool)>,
    eligible: Seq<Seq<char>>,
    members: Seq<Seq<char>>,
) -> bool {
    &&& forall|i: int|
        0 <= i < pressures.len() ==> exists|k: int|
            0 <= k < members.len() && eligible.contains(#[trigger] members[k])
                && #[trigger] pressures[i] == find(needs_gc, members[k])
    &&& forall|k: int|
        0 <= k < members.len() && eligible.contains(#[trigger] members[k]) ==> pressures.contains(
            find(needs_gc, members[k]),
        )
}

proof fn lemma_marked(
    devices: Seq<DeviceInfoView>,
    needs_gc: Seq<(Seq<char>, bool)>,
    eligible: Seq<Seq<char>>,
    members: Seq<Seq<char>>,
)
    ensures
        marked(devices, needs_gc, eligible, members) is Some <==> forall|i: int|
            0 <= i < members.len() ==> first_named(devices, #[trigger] members[i]) is Some,
        marked(devices, needs_gc, eligible, members) is Some ==> are_pressures(
            (marked(devices, needs_gc, eligible, members)->0).1,
            needs_gc,
            eligible,
            members,
        ),
    decreases members.len(),
{
    if members.len() > 0 {
        let rest = members.drop_last();
        let n = members.len() - 1;
        lemma_marked(devices, needs_gc, eligible, rest);
        assert(members[n] == members.last());
        let before = marked(devices, needs_gc, eligible, rest);
        let all = marked(devices, needs_gc, eligible, members);
        if all is Some {
            assert forall|i: int| 0 <= i < members.len() implies first_named(
                devices,
                #[trigger] members[i],
            ) is Some by {
                if i < n {
                    assert(rest[i] == members[i]);
                }
            }
            let a = (before->0).1;
            let b = (all->0).1;
            assert forall|i: int| 0 <= i < b.len() implies exists|k: int|
                0 <= k < members.len() && eligible.contains(#[trigger] members[k])
                    && #[trigger] b[i] == find(needs_gc, members[k]) by {
                if i < a.len() {
                    assert(b[i] == a[i]);
                    let k = choose|k: int|
                        0 <= k < rest.len() && eligible.contains(#[trigger] rest[k]) && a[i]
                            == find(needs_gc, rest[k]);
                    assert(members[k] == rest[k]);
                } else {
                    assert(eligible.contains(members[n]));
                }
            }
            assert forall|k: int| 0 <= k < members.len() && eligible.contains(
                #[trigger] members[k],
            ) implies b.contains(find(needs_gc, members[k])) by {
                if k < n {
                    assert(rest[k] == members[k]);
                    assert(a.contains(find(needs_gc, rest[k])));
                    let i = choose|i: int| 0 <= i < a.len() && a[i] == find(needs_gc, members[k]);
                    assert(b[i] == a[i]);
                } else {
                    assert(b[b.len() - 1] == find(needs_gc, members[n]));
                }
            }
            assert(are_pressures(b, needs_gc, eligible, members));
        }
        if forall|i: int|
            0 <= i < members.len() ==> first_named(devices, #[trigger] members[i]) is Some {
            assert(first_named(devices, members[n]) is Some);
            assert forall|i: int| 0 <= i < rest.len() implies first_named(
                devices,
                #[trigger] rest[i],
            ) is Some by {
                assert(rest[i] == members[i]);
            }
        }
    }
}

/// A reading of the headroom of a target is what its report says: its free space at
/// the time of the tables, the backlog of its role, and whether members that take
/// data are under pressure: one that is makes it so, and none is where each is known
/// not to be. Tables from the future or too old give no reading, nor does a report
/// without room.
pub proof fn law_a_reading_is_of_the_report(
    snap: FsSnapshotView,
    report: TargetReportView,
    now: Instant,
    max_age: Duration,
)
    ensures
        headroom_reading(snap, report, now, max_age) matches Some(r) ==> {
            let p = r.1;
            let work = work_of(snap.reconcile.work, "target"@);
            &&& snap.allocation_sampled_at == Some(p.at) && p.at <= now && now - p.at <= max_age
            &&& report.free_bytes == Some(p.free)
            &&& report.capacity_bytes matches Some(c) && 0 < c && p.free <= c
            &&& report.eligible_members matches Some(n) && n > 0
            &&& p.gc_running == snap.copygc.running
            &&& work is Some && report.role == "metadata"@ ==> p.backlog == work->0.metadata_bytes
            &&& work is Some && report.role == "background"@ ==> p.backlog == work->0.data_bytes
            &&& work is None || (report.role != "metadata"@ && report.role != "background"@)
                ==> p.backlog is None
            &&& p.pressure == Some(true) <==> exists|k: int|
                0 <= k < report.members.len() && report.eligible_devices.contains(
                    #[trigger] report.members[k],
                ) && find(snap.copygc.needs_gc, report.members[k]) == Some(true)
            &&& p.pressure == Some(false) <==> forall|k: int|
                0 <= k < report.members.len() && report.eligible_devices.contains(
                    #[trigger] report.members[k],
                ) ==> find(snap.copygc.needs_gc, report.members[k]) == Some(false)
        },
{
    if headroom_reading(snap, report, now, max_age) is Some {
        let gc = snap.copygc.needs_gc;
        let e = report.eligible_devices;
        let ms = report.members;
        lemma_marked(snap.devices, gc, e, ms);
        let pressures = (marked(snap.devices, gc, e, ms)->0).1;
        reveal_strlit("metadata");
        reveal_strlit("background");
        assert("metadata"@.len() != "background"@.len());
        let p = joint_pressure(pressures);
        if pressures.contains(Some(true)) {
            let i = choose|i: int| 0 <= i < pressures.len() && pressures[i] == Some(true);
            let k = choose|k: int|
                0 <= k < ms.len() && e.contains(#[trigger] ms[k]) && pressures[i] == find(
                    gc,
                    ms[k],
                );
            assert(find(gc, ms[k]) == Some(true));
        }
        if forall|i: int| 0 <= i < pressures.len() ==> #[trigger] pressures[i] == Some(false) {
            assert forall|k: int| 0 <= k < ms.len() && e.contains(#[trigger] ms[k]) implies find(
                gc,
                ms[k],
            ) == Some(false) by {
                assert(pressures.contains(find(gc, ms[k])));
                let i = choose|i: int|
                    0 <= i < pressures.len() && pressures[i] == find(gc, ms[k]);
                assert(pressures[i] == Some(false));
            }
        }
        if forall|k: int|
            0 <= k < ms.len() && e.contains(#[trigger] ms[k]) ==> find(gc, ms[k]) == Some(false) {
            assert forall|i: int| 0 <= i < pressures.len() implies #[trigger] pressures[i] == Some(
                false,
            ) by {
                let k = choose|k: int|
                    0 <= k < ms.len() && e.contains(#[trigger] ms[k]) && pressures[i] == find(
                        gc,
                        ms[k],
                    );
                assert(find(gc, ms[k]) == Some(false));
            }
        }
    }
}

/// The indicators of a sustained loss hold the numbers that its criteria are compared
/// with, each in its line.
pub proof fn law_indicators_show_what_is_compared(s: HeadroomSummary)
    ensures
        ({
            let t = s.indicator_texts();
            &&& t.len() == 5
            &&& t[0] == "coverage="@ + fixed(s.seconds, 3) + "s >= 120s; fresh samples="@ + decimal(
                s.samples as nat,
            )
            &&& has_prefix(
                t[1],
                "first_free="@ + decimal(s.first_free as nat) + " bytes; latest_free="@ + decimal(
                    s.last_free as nat,
                ) + " bytes; loss="@,
            )
            &&& has_prefix(
                t[2],
                "decreases="@ + decimal(s.decreases as nat) + " >= 3; increases="@ + decimal(
                    s.increases as nat,
                ),
            )
            &&& has_prefix(
                t[4],
                "100*pressure_samples="@ + decimal((100 * s.pressure_samples) as nat)
                    + " >= 80*samples="@ + decimal((80 * s.samples) as nat),
            )
        }),
{
    let t = s.indicator_texts();
    let a = "first_free="@ + decimal(s.first_free as nat) + " bytes; latest_free="@ + decimal(
        s.last_free as nat,
    ) + " bytes; loss="@;
    let b = "decreases="@ + decimal(s.decreases as nat) + " >= 3; increases="@ + decimal(
        s.increases as nat,
    );
    let c = "100*pressure_samples="@ + decimal((100 * s.pressure_samples) as nat)
        + " >= 80*samples="@ + decimal((80 * s.samples) as nat);
    assert(t[1].take(a.len() as int) =~= a);
    assert(t[2].take(b.len() as int) =~= b);
    assert(t[4].take(c.len() as int) =~= c);
}

} // verus!
