//! The lines of the views that explain: findings, targets and a hint.

use crate::advisor::{proposals_of, snapshot_proposals, Proposal, ProposalView};
use crate::analysis::{find_device, first_named};
use crate::app::{App, AppView};
use crate::diagnostics::{truth, truth_text, Confidence, Diagnostic, DiagnosticView, Status};
use crate::rows::findings_text;
use crate::strmap::{find, StrMap};
use crate::sysfs::{FsSnapshot, FsSnapshotView, Instant};
use crate::targets::{
    bytes_text, format_optional_bytes, Finding, FindingView, MemberAllocation, MemberAllocationView,
    Severity, TargetReport, TargetReportView,
};
use crate::text::{
    cat10, cat11, cat2, cat3, cat4, cat5, cat8, copy, count, decimal, is_empty, item, join, joined,
    lemma_views_push, u64_text, usize_text, views,
};
use crate::window::{since, time_since};
use vstd::prelude::*;

verus! {

pub open spec fn severity_text(s: Severity) -> Seq<char> {
    match s {
        Severity::Warning => "WARNING"@,
        Severity::Critical => "CRITICAL"@,
    }
}

pub fn severity_label(s: Severity) -> (r: &'static str)
    ensures
        r@ == severity_text(s),
{
    match s {
        Severity::Warning => "WARNING",
        Severity::Critical => "CRITICAL",
    }
}

pub open spec fn status_text(s: Status) -> Seq<char> {
    match s {
        Status::Active => "active"@,
        Status::Resolved => "resolved"@,
        Status::Stale => "stale"@,
    }
}

pub fn status_label(s: Status) -> (r: &'static str)
    ensures
        r@ == status_text(s),
{
    match s {
        Status::Active => "active",
        Status::Resolved => "resolved",
        Status::Stale => "stale",
    }
}

pub open spec fn confidence_text(c: Confidence) -> Seq<char> {
    match c {
        Confidence::Observed => "observed"@,
        Confidence::PossibleCause => "possible cause"@,
    }
}

pub fn confidence_label(c: Confidence) -> (r: &'static str)
    ensures
        r@ == confidence_text(c),
{
    match c {
        Confidence::Observed => "observed",
        Confidence::PossibleCause => "possible cause",
    }
}

/// How long ago something was, in whole seconds.
pub open spec fn age_text(now: Instant, then: Instant) -> Seq<char> {
    decimal((since(now, then) / 1_000_000_000) as nat) + "s"@
}

fn make_age(now: Instant, then: Instant) -> (r: String)
    ensures
        r@ == age_text(now, then),
{
    cat2(u64_text(time_since(now, then) / 1_000_000_000).as_str(), "s")
}

/// Lines set in from the left.
pub open spec fn indented(ls: Seq<Seq<char>>) -> Seq<Seq<char>> {
    Seq::new(ls.len(), |i: int| "    "@ + ls[i])
}

fn push_indented(out: &mut Vec<String>, ls: &Vec<String>)
    ensures
        views(final(out)@) == views(old(out)@) + indented(views(ls@)),
{
    broadcast use lemma_views_push;

    let ghost before = views(out@);
    let ghost all = indented(views(ls@));
    let mut i: usize = 0;
    proof {
        assert(before + all.take(0) =~= before);
    }
    while i < count(ls)
        invariant
            i <= ls@.len() == all.len(),
            all == indented(views(ls@)),
            views(out@) == before + all.take(i as int),
        decreases ls@.len() - i,
    {
        let line = cat2("    ", item(ls, i));
        proof {
            assert(line@ == all[i as int]);
            assert((before + all.take(i as int)).push(line@) =~= before + all.take(i + 1));
        }
        out.push(line);
        i = i + 1;
    }
    proof {
        assert(all.take(i as int) =~= all);
    }
}

// -------------------------------------------------------------------- findings

pub open spec fn diagnostic_lines(d: DiagnosticView, now: Instant) -> Seq<Seq<char>> {
    seq![
        "["@ + status_text(d.status) + " for "@ + age_text(now, d.status_since) + "] "@
            + severity_text(d.severity) + ", "@ + confidence_text(d.confidence) + ": "@ + d.summary,
    ] + indented(d.evidence) + seq![
        "    first seen "@ + age_text(now, d.first_seen) + " ago, last seen "@ + age_text(
            now,
            d.last_seen,
        ) + " ago"@,
        "    next: "@ + d.action,
    ]
}

pub open spec fn proposal_lines(p: ProposalView) -> Seq<Seq<char>> {
    seq!["[snapshot] "@ + severity_text(p.severity) + ": "@ + p.reason] + indented(p.evidence)
        + seq!["    next: "@ + p.detail]
}

pub open spec fn diagnostics_lines(findings: Seq<(Seq<char>, DiagnosticView)>, now: Instant) -> Seq<
    Seq<char>,
>
    decreases findings.len(),
{
    if findings.len() == 0 {
        Seq::empty()
    } else {
        diagnostics_lines(findings.drop_last(), now) + diagnostic_lines(findings.last().1, now)
    }
}

pub open spec fn proposals_lines(proposals: Seq<ProposalView>) -> Seq<Seq<char>>
    decreases proposals.len(),
{
    if proposals.len() == 0 {
        Seq::empty()
    } else {
        proposals_lines(proposals.drop_last()) + proposal_lines(proposals.last())
    }
}

/// Every finding, muted or not, with what supports it.
pub open spec fn advisor_view(app: AppView, now: Instant) -> Seq<Seq<char>> {
    let all = diagnostics_lines(app.diagnostics.findings, now) + proposals_lines(
        proposals_of(app, now),
    );
    if all.len() == 0 {
        seq!["No findings"@]
    } else {
        all
    }
}

fn push_diagnostic(out: &mut Vec<String>, d: &Diagnostic, now: Instant)
    ensures
        views(final(out)@) == views(old(out)@) + diagnostic_lines(d@, now),
{
    broadcast use lemma_views_push;

    let ghost before = views(out@);
    out.push(
        cat10(
            "[",
            status_label(d.status),
            " for ",
            make_age(now, d.status_since).as_str(),
            "] ",
            severity_label(d.severity),
            ", ",
            confidence_label(d.confidence),
            ": ",
            d.summary.as_str(),
        ),
    );
    push_indented(out, &d.evidence);
    out.push(
        cat5(
            "    first seen ",
            make_age(now, d.first_seen).as_str(),
            " ago, last seen ",
            make_age(now, d.last_seen).as_str(),
            " ago",
        ),
    );
    out.push(cat2("    next: ", d.action.as_str()));
    assert(views(out@) =~= before + diagnostic_lines(d@, now));
}

fn push_proposal(out: &mut Vec<String>, p: &Proposal)
    ensures
        views(final(out)@) == views(old(out)@) + proposal_lines(p@),
{
    broadcast use lemma_views_push;

    let ghost before = views(out@);
    let head = cat2("[snapshot] ", severity_label(p.severity));
    out.push(cat3(head.as_str(), ": ", p.reason.as_str()));
    push_indented(out, &p.evidence);
    out.push(cat2("    next: ", p.detail.as_str()));
    assert(views(out@) =~= before + proposal_lines(p@));
}

fn push_diagnostics(out: &mut Vec<String>, findings: &StrMap<Diagnostic>, now: Instant)
    ensures
        views(final(out)@) == views(old(out)@) + diagnostics_lines(findings@, now),
{
    let ghost before = views(out@);
    let ghost all = findings@;
    let mut i: usize = 0;
    proof {
        assert(all.take(0) =~= Seq::<(Seq<char>, DiagnosticView)>::empty());
        assert(before + diagnostics_lines(all.take(0), now) =~= before);
    }
    while i < findings.len()
        invariant
            i <= all.len(),
            all == findings@,
            views(out@) == before + diagnostics_lines(all.take(i as int), now),
        decreases all.len() - i,
    {
        proof {
            assert(all.take(i + 1).drop_last() =~= all.take(i as int));
            assert(all.take(i + 1).last() == all[i as int]);
        }
        push_diagnostic(out, findings.value_at(i), now);
        proof {
            assert(views(out@) =~= before + diagnostics_lines(all.take(i + 1), now));
        }
        i = i + 1;
    }
    proof {
        assert(all.take(i as int) =~= all);
    }
}

fn push_proposals(out: &mut Vec<String>, proposals: &Vec<Proposal>)
    ensures
        views(final(out)@) == views(old(out)@) + proposals_lines(views(proposals@)),
{
    let ghost before = views(out@);
    let ghost all = views(proposals@);
    let mut i: usize = 0;
    proof {
        assert(all.take(0) =~= Seq::<ProposalView>::empty());
        assert(before + proposals_lines(all.take(0)) =~= before);
    }
    while i < proposals.len()
        invariant
            i <= all.len(),
            all == views(proposals@),
            views(out@) == before + proposals_lines(all.take(i as int)),
        decreases all.len() - i,
    {
        proof {
            assert(all.take(i + 1).drop_last() =~= all.take(i as int));
            assert(all.take(i + 1).last() == proposals@[i as int]@);
        }
        push_proposal(out, &proposals[i]);
        proof {
            assert(views(out@) =~= before + proposals_lines(all.take(i + 1)));
        }
        i = i + 1;
    }
    proof {
        assert(all.take(i as int) =~= all);
    }
}

pub fn advisor_lines(app: &App, now: Instant) -> (r: Vec<String>)
    ensures
        views(r@) == advisor_view(app@, now),
{
    broadcast use lemma_views_push;

    let mut r: Vec<String> = Vec::new();
    proof {
        assert(views(r@) + diagnostics_lines(app@.diagnostics.findings, now)
            =~= diagnostics_lines(app@.diagnostics.findings, now));
    }
    push_diagnostics(&mut r, &app.diagnostics.findings, now);
    push_proposals(&mut r, &snapshot_proposals(app, now));
    if count(&r) == 0 {
        r.push(copy("No findings"));
        assert(views(r@) =~= seq!["No findings"@]);
    }
    r
}

// --------------------------------------------------------------------- targets

/// How many members of a target take data; unknown is not none.
pub open spec fn eligible_text(n: Option<usize>) -> Seq<char> {
    match n {
        Some(n) => decimal(n as nat),
        None => "?"@,
    }
}

fn make_eligible(n: Option<usize>) -> (r: String)
    ensures
        r@ == eligible_text(n),
{
    match n {
        Some(n) => usize_text(n),
        None => copy("?"),
    }
}

pub open spec fn report_head(r: TargetReportView) -> Seq<char> {
    r.role + " -> "@ + r.target + ": eligible "@ + eligible_text(r.eligible_members) + "/"@
        + decimal(r.members.len()) + ", capacity "@ + bytes_text(r.capacity_bytes) + ", free "@
        + bytes_text(r.free_bytes)
}

fn make_report_head(r: &TargetReport) -> (s: String)
    ensures
        s@ == report_head(r@),
{
    let names = cat3(r.role, " -> ", r.target.as_str());
    cat8(
        names.as_str(),
        ": eligible ",
        make_eligible(r.eligible_members).as_str(),
        "/",
        usize_text(count(&r.members)).as_str(),
        ", capacity ",
        format_optional_bytes(r.capacity_bytes).as_str(),
        cat2(", free ", format_optional_bytes(r.free_bytes).as_str()).as_str(),
    )
}

/// What the kernel says of a member's space and of what may be written there;
/// what it does not say stays unknown.
pub open spec fn allocation_text(m: MemberAllocationView, needs_gc: Option<bool>) -> Seq<char> {
    let state = match m.state {
        Some(s) => s,
        None => "?"@,
    };
    let durability = match m.durability {
        Some(n) => decimal(n as nat),
        None => "?"@,
    };
    let data = match m.data_allowed {
        Some(types) => joined(types, ","@),
        None => "?"@,
    };
    "state "@ + state + ", online "@ + known(m.online) + ", durability "@ + durability + ", data "@
        + data + ", capacity "@ + bytes_text(m.capacity_bytes) + ", free "@ + bytes_text(
        m.free_bytes,
    ) + ", btree "@ + bytes_text(m.btree_bytes) + ", fragmented "@ + bytes_text(m.fragmented_bytes)
        + ", needs GC "@ + known(needs_gc)
}

pub open spec fn known(b: Option<bool>) -> Seq<char> {
    match b {
        Some(b) => truth(b),
        None => "?"@,
    }
}

fn known_text(b: Option<bool>) -> (r: &'static str)
    ensures
        r@ == known(b),
{
    match b {
        Some(b) => truth_text(b),
        None => "?",
    }
}

fn make_allocation(m: &MemberAllocation, needs_gc: Option<bool>) -> (r: String)
    ensures
        r@ == allocation_text(m@, needs_gc),
{
    let state = match &m.state {
        Some(s) => copy(s.as_str()),
        None => copy("?"),
    };
    let durability = match m.durability {
        Some(n) => u64_text(n),
        None => copy("?"),
    };
    let data = match &m.data_allowed {
        Some(types) => join(types, ","),
        None => copy("?"),
    };
    let rights = cat8(
        "state ",
        state.as_str(),
        ", online ",
        known_text(m.online),
        ", durability ",
        durability.as_str(),
        ", data ",
        data.as_str(),
    );
    cat11(
        rights.as_str(),
        ", capacity ",
        format_optional_bytes(m.capacity_bytes).as_str(),
        ", free ",
        format_optional_bytes(m.free_bytes).as_str(),
        ", btree ",
        format_optional_bytes(m.btree_bytes).as_str(),
        ", fragmented ",
        format_optional_bytes(m.fragmented_bytes).as_str(),
        ", needs GC ",
        known_text(needs_gc),
    )
}

pub open spec fn member_line(name: Seq<char>, snap: FsSnapshotView) -> Seq<char> {
    "  "@ + name + ": "@ + match first_named(snap.devices, name) {
        Some(d) => allocation_text(d.allocation, find(snap.copygc.needs_gc, name)),
        None => "?"@,
    }
}

pub open spec fn member_lines(members: Seq<Seq<char>>, snap: FsSnapshotView) -> Seq<Seq<char>> {
    Seq::new(members.len(), |i: int| member_line(members[i], snap))
}

fn push_members(out: &mut Vec<String>, members: &Vec<String>, snap: &FsSnapshot)
    ensures
        views(final(out)@) == views(old(out)@) + member_lines(views(members@), snap@),
{
    broadcast use lemma_views_push;

    let ghost before = views(out@);
    let ghost all = member_lines(views(members@), snap@);
    let mut i: usize = 0;
    while i < members.len()
        invariant
            i <= all.len() == members@.len(),
            all == member_lines(views(members@), snap@),
            views(out@) =~= before + all.take(i as int),
        decreases all.len() - i,
    {
        let name = members[i].as_str();
        let text = match find_device(&snap.devices, name) {
            Some(d) => {
                let needs: Option<bool> = match snap.copygc.needs_gc.get(name) {
                    Some(b) => Some(*b),
                    None => None,
                };
                make_allocation(&d.allocation, needs)
            },
            None => copy("?"),
        };
        let line = cat4("  ", name, ": ", text.as_str());
        assert(line@ == member_line(members@[i as int]@, snap@));
        assert(line@ == all[i as int]);
        let ghost sofar = views(out@);
        out.push(line);
        assert(all.take(i + 1) =~= all.take(i as int).push(all[i as int]));
        assert(views(out@) == sofar.push(all[i as int]));
        i = i + 1;
    }
    assert(all.take(i as int) =~= all);
}

pub open spec fn finding_lines(f: FindingView) -> Seq<Seq<char>> {
    seq![
        "  "@ + severity_text(f.severity) + ": "@ + f.summary,
        "    "@ + f.detail,
    ] + indented(f.evidence)
}

pub open spec fn findings_lines(findings: Seq<FindingView>) -> Seq<Seq<char>>
    decreases findings.len(),
{
    if findings.len() == 0 {
        Seq::empty()
    } else {
        findings_lines(findings.drop_last()) + finding_lines(findings.last())
    }
}

pub open spec fn report_lines(r: TargetReportView, snap: FsSnapshotView) -> Seq<Seq<char>> {
    seq![report_head(r)] + member_lines(r.members, snap) + findings_lines(r.findings) + indented(
        r.notes,
    )
}

pub open spec fn reports_lines(reports: Seq<TargetReportView>, snap: FsSnapshotView) -> Seq<
    Seq<char>,
>
    decreases reports.len(),
{
    if reports.len() == 0 {
        Seq::empty()
    } else {
        reports_lines(reports.drop_last(), snap) + report_lines(reports.last(), snap)
    }
}

/// Every target with its space, what is known of each member, and its findings.
pub open spec fn targets_view(reports: Seq<TargetReportView>, snap: FsSnapshotView) -> Seq<
    Seq<char>,
> {
    if reports.len() == 0 {
        seq!["No targets configured"@]
    } else {
        reports_lines(reports, snap)
    }
}

fn push_finding(out: &mut Vec<String>, f: &Finding)
    ensures
        views(final(out)@) == views(old(out)@) + finding_lines(f@),
{
    broadcast use lemma_views_push;

    let ghost before = views(out@);
    let head = cat2("  ", severity_label(f.severity));
    out.push(cat3(head.as_str(), ": ", f.summary.as_str()));
    out.push(cat2("    ", f.detail.as_str()));
    push_indented(out, &f.evidence);
    assert(views(out@) =~= before + finding_lines(f@));
}

fn push_findings(out: &mut Vec<String>, findings: &Vec<Finding>)
    ensures
        views(final(out)@) == views(old(out)@) + findings_lines(views(findings@)),
{
    let ghost before = views(out@);
    let ghost all = views(findings@);
    let mut i: usize = 0;
    proof {
        assert(all.take(0) =~= Seq::<FindingView>::empty());
        assert(before + findings_lines(all.take(0)) =~= before);
    }
    while i < findings.len()
        invariant
            i <= all.len(),
            all == views(findings@),
            views(out@) == before + findings_lines(all.take(i as int)),
        decreases all.len() - i,
    {
        proof {
            assert(all.take(i + 1).drop_last() =~= all.take(i as int));
            assert(all.take(i + 1).last() == findings@[i as int]@);
        }
        push_finding(out, &findings[i]);
        proof {
            assert(views(out@) =~= before + findings_lines(all.take(i + 1)));
        }
        i = i + 1;
    }
    proof {
        assert(all.take(i as int) =~= all);
    }
}

fn push_report(out: &mut Vec<String>, r: &TargetReport, snap: &FsSnapshot)
    ensures
        views(final(out)@) == views(old(out)@) + report_lines(r@, snap@),
{
    broadcast use lemma_views_push;

    let ghost before = views(out@);
    out.push(make_report_head(r));
    push_members(out, &r.members, snap);
    push_findings(out, &r.findings);
    push_indented(out, &r.notes);
    assert(views(out@) =~= before + report_lines(r@, snap@));
}

pub fn target_lines(reports: &Vec<TargetReport>, snap: &FsSnapshot) -> (r: Vec<String>)
    ensures
        views(r@) == targets_view(views(reports@), snap@),
{
    broadcast use lemma_views_push;

    let ghost all = views(reports@);
    let mut r: Vec<String> = Vec::new();
    if count(reports) == 0 {
        r.push(copy("No targets configured"));
        assert(views(r@) =~= seq!["No targets configured"@]);
        return r;
    }
    let mut i: usize = 0;
    proof {
        assert(all.take(0) =~= Seq::<TargetReportView>::empty());
        assert(views(r@) =~= reports_lines(all.take(0), snap@));
    }
    while i < reports.len()
        invariant
            i <= all.len(),
            all == views(reports@),
            views(r@) == reports_lines(all.take(i as int), snap@),
        decreases all.len() - i,
    {
        proof {
            assert(all.take(i + 1).drop_last() =~= all.take(i as int));
            assert(all.take(i + 1).last() == reports@[i as int]@);
        }
        push_report(&mut r, &reports[i], snap);
        i = i + 1;
    }
    proof {
        assert(all.take(i as int) =~= all);
    }
    r
}

// ------------------------------------------------------------------------ hint

/// The rule of a hint, where it has one.
pub open spec fn rule_lines(criteria: Seq<char>) -> Seq<Seq<char>> {
    if criteria.len() > 0 {
        seq!["Rule: "@ + criteria]
    } else {
        Seq::empty()
    }
}

/// The measurements behind a hint, where there are some.
pub open spec fn measured_lines(evidence: Seq<Seq<char>>) -> Seq<Seq<char>> {
    if evidence.len() > 0 {
        seq!["Measured:"@] + indented(evidence)
    } else {
        Seq::empty()
    }
}

/// Why a hint is shown: its rule and the measurements that satisfied it.
pub open spec fn explanation(p: ProposalView) -> Seq<Seq<char>> {
    seq![severity_text(p.severity) + ": "@ + p.reason] + rule_lines(p.criteria) + measured_lines(
        p.evidence,
    ) + seq!["Next: "@ + p.detail]
}

pub fn explain_lines(p: &Proposal) -> (r: Vec<String>)
    ensures
        views(r@) == explanation(p@),
{
    broadcast use lemma_views_push;

    let mut r: Vec<String> = Vec::new();
    r.push(cat3(severity_label(p.severity), ": ", p.reason.as_str()));
    let ghost first = views(r@);
    assert(first =~= seq![severity_text(p@.severity) + ": "@ + p@.reason]);
    if !is_empty(p.criteria.as_str()) {
        r.push(cat2("Rule: ", p.criteria.as_str()));
    }
    let ghost head = views(r@);
    assert(head =~= first + rule_lines(p@.criteria));
    if count(&p.evidence) > 0 {
        r.push(copy("Measured:"));
        push_indented(&mut r, &p.evidence);
    }
    assert(views(r@) =~= head + measured_lines(p@.evidence));
    r.push(cat2("Next: ", p.detail.as_str()));
    assert(views(r@) =~= explanation(p@));
    r
}

// ------------------------------------------------------------------------ laws

/// Muting silences the footer only: no finding leaves the view of findings or
/// that of targets, and the background panel counts as many.
pub proof fn law_muting_hides_no_evidence(app: AppView, now: Instant, later: Instant)
    ensures
        advisor_view(app.muted_for_now(now), later) == advisor_view(app, later),
        advisor_view(app.muted_for_good(now), later) == advisor_view(app, later),
        targets_view(app.muted_for_now(now).target_reports, app.muted_for_now(now).current)
            == targets_view(app.target_reports, app.current),
        targets_view(app.muted_for_good(now).target_reports, app.muted_for_good(now).current)
            == targets_view(app.target_reports, app.current),
        findings_text(app.muted_for_now(now).target_reports) == findings_text(app.target_reports),
        findings_text(app.muted_for_good(now).target_reports) == findings_text(app.target_reports),
{
    assert(proposals_of(app.muted_for_now(now), later) == proposals_of(app, later));
    assert(proposals_of(app.muted_for_good(now), later) == proposals_of(app, later));
}

} // verus!
