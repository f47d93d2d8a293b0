//! The hint of the footer: diagnostic evidence and constraints of the snapshot,
//! ranked.

use crate::app::{App, AppView, StallEvent, StallEventView};
use crate::diagnostics::{Diagnostic, DiagnosticView, Status};
use crate::numeral::{fixed, fixed_text, seconds, to_seconds};
use crate::strmap::{find, StrMap};
use crate::sysfs::Instant;
use crate::targets::{Finding, FindingView, Severity, TargetReport, TargetReportView};
use crate::text::{
    cat6, copy, copy_all, decimal, has_prefix, holds, lemma_views_push, opt, opt_copy, same,
    starts_with, usize_text, views, Duplicate,
};
use vstd::prelude::*;

verus! {

/// How long a write stall counts as recent.
pub const RECENT_WRITE_STALL_WINDOW: u64 = 60_000_000_000;

/// A hint. It informs; nothing is changed by it.
#[derive(Debug)]
pub struct Proposal {
    pub reason: String,
    pub id: String,
    pub severity: Severity,
    pub detail: String,
    pub criteria: String,
    pub evidence: Vec<String>,
    pub command: Option<String>,
}

#[verifier::ext_equal]
pub struct ProposalView {
    pub reason: Seq<char>,
    pub id: Seq<char>,
    pub severity: Severity,
    pub detail: Seq<char>,
    pub criteria: Seq<char>,
    pub evidence: Seq<Seq<char>>,
    pub command: Option<Seq<char>>,
}

impl View for Proposal {
    type V = ProposalView;

    open spec fn view(&self) -> ProposalView {
        ProposalView {
            reason: self.reason@,
            id: self.id@,
            severity: self.severity,
            detail: self.detail@,
            criteria: self.criteria@,
            evidence: views(self.evidence@),
            command: opt(self.command),
        }
    }
}

impl Duplicate for Proposal {
    fn duplicate(&self) -> (r: Proposal) {
        Proposal {
            reason: copy(self.reason.as_str()),
            id: copy(self.id.as_str()),
            severity: self.severity,
            detail: copy(self.detail.as_str()),
            criteria: copy(self.criteria.as_str()),
            evidence: copy_all(&self.evidence),
            command: opt_copy(&self.command),
        }
    }
}

impl Clone for Proposal {
    fn clone(&self) -> (r: Proposal)
        ensures
            r@ == self@,
    {
        self.duplicate()
    }
}

pub open spec fn of_diagnostic(d: DiagnosticView) -> ProposalView {
    ProposalView {
        reason: d.summary,
        id: d.id,
        severity: d.severity,
        detail: d.action,
        criteria: d.criteria,
        evidence: d.evidence,
        command: None,
    }
}

pub open spec fn of_finding(f: FindingView) -> ProposalView {
    ProposalView {
        reason: f.summary,
        id: f.id,
        severity: f.severity,
        detail: f.detail,
        criteria: f.criteria,
        evidence: f.evidence,
        command: None,
    }
}

/// The findings with current support.
pub open spec fn of_diagnostics(findings: Seq<(Seq<char>, DiagnosticView)>) -> Seq<ProposalView>
    decreases findings.len(),
{
    if findings.len() == 0 {
        Seq::empty()
    } else {
        let d = findings.last().1;
        if d.status == Status::Active {
            of_diagnostics(findings.drop_last()).push(of_diagnostic(d))
        } else {
            of_diagnostics(findings.drop_last())
        }
    }
}

pub open spec fn of_findings(findings: Seq<FindingView>) -> Seq<ProposalView> {
    Seq::new(findings.len(), |i: int| of_finding(findings[i]))
}

pub open spec fn of_reports(reports: Seq<TargetReportView>) -> Seq<ProposalView>
    decreases reports.len(),
{
    if reports.len() == 0 {
        Seq::empty()
    } else {
        of_reports(reports.drop_last()) + of_findings(reports.last().findings)
    }
}

fn from_diagnostic(d: &Diagnostic) -> (r: Proposal)
    ensures
        r@ == of_diagnostic(d@),
{
    Proposal {
        reason: copy(d.summary.as_str()),
        id: copy(d.id.as_str()),
        severity: d.severity,
        detail: copy(d.action.as_str()),
        criteria: copy(d.criteria.as_str()),
        evidence: copy_all(&d.evidence),
        command: None,
    }
}

fn from_finding(f: &Finding) -> (r: Proposal)
    ensures
        r@ == of_finding(f@),
{
    Proposal {
        reason: copy(f.summary.as_str()),
        id: copy(f.id.as_str()),
        severity: f.severity,
        detail: copy(f.detail.as_str()),
        criteria: copy(f.criteria.as_str()),
        evidence: copy_all(&f.evidence),
        command: None,
    }
}

fn from_diagnostics(findings: &StrMap<Diagnostic>) -> (r: Vec<Proposal>)
    ensures
        views(r@) == of_diagnostics(findings@),
{
    broadcast use lemma_views_push;

    let ghost all = findings@;
    let mut r: Vec<Proposal> = Vec::new();
    let mut i: usize = 0;
    proof {
        assert(all.take(0) =~= Seq::<(Seq<char>, DiagnosticView)>::empty());
        assert(views(r@) =~= Seq::<ProposalView>::empty());
    }
    while i < findings.len()
        invariant
            i <= all.len(),
            all == findings@,
            views(r@) == of_diagnostics(all.take(i as int)),
        decreases all.len() - i,
    {
        proof {
            assert(all.take(i + 1).drop_last() =~= all.take(i as int));
            assert(all.take(i + 1).last() == all[i as int]);
        }
        let d = findings.value_at(i);
        if d.status == Status::Active {
            r.push(from_diagnostic(d));
        }
        i = i + 1;
    }
    proof {
        assert(all.take(i as int) =~= all);
    }
    r
}

fn push_findings(r: &mut Vec<Proposal>, findings: &Vec<Finding>)
    ensures
        views(final(r)@) == views(old(r)@) + of_findings(views(findings@)),
{
    broadcast use lemma_views_push;

    let ghost before = views(r@);
    let ghost all = of_findings(views(findings@));
    let mut i: usize = 0;
    proof {
        assert(before + all.take(0) =~= before);
    }
    while i < findings.len()
        invariant
            i <= findings@.len() == all.len(),
            all == of_findings(views(findings@)),
            views(r@) == before + all.take(i as int),
        decreases findings@.len() - i,
    {
        let p = from_finding(&findings[i]);
        proof {
            assert(p@ == all[i as int]);
            assert((before + all.take(i as int)).push(p@) =~= before + all.take(i + 1));
        }
        r.push(p);
        i = i + 1;
    }
    proof {
        assert(all.take(i as int) =~= all);
    }
}

fn from_reports(reports: &Vec<TargetReport>) -> (r: Vec<Proposal>)
    ensures
        views(r@) == of_reports(views(reports@)),
{
    let ghost all = views(reports@);
    let mut r: Vec<Proposal> = Vec::new();
    let mut i: usize = 0;
    proof {
        assert(all.take(0) =~= Seq::<TargetReportView>::empty());
        assert(views(r@) =~= Seq::<ProposalView>::empty());
    }
    while i < reports.len()
        invariant
            i <= all.len(),
            all == views(reports@),
            views(r@) == of_reports(all.take(i as int)),
        decreases all.len() - i,
    {
        proof {
            assert(all.take(i + 1).drop_last() =~= all.take(i as int));
            assert(all.take(i + 1).last() == reports@[i as int]@);
        }
        push_findings(&mut r, &reports[i].findings);
        i = i + 1;
    }
    proof {
        assert(all.take(i as int) =~= all);
    }
    r
}

// ----------------------------------------------------- stalls next to copygc

/// The stalls of writes in the last minute, with their age.
pub open spec fn write_stalls(events: Seq<StallEventView>, now: Instant) -> Seq<(StallEventView, u64)>
    decreases events.len(),
{
    if events.len() == 0 {
        Seq::empty()
    } else {
        let e = events.last();
        let earlier = write_stalls(events.drop_last(), now);
        if e.time <= now && e.direction == "write"@ && now - e.time < RECENT_WRITE_STALL_WINDOW {
            earlier.push((e, (now - e.time) as u64))
        } else {
            earlier
        }
    }
}

pub open spec fn works(task: (Seq<char>, Seq<char>)) -> bool {
    task.0 == "copygc"@ && has_prefix(task.1, "working"@)
}

/// Whether writes stalled while copygc is switched on and works.
pub open spec fn gc_pressure(
    enabled: bool,
    stalls: bool,
    background: Seq<(Seq<char>, Seq<char>)>,
) -> bool {
    enabled && stalls && exists|i: int| 0 <= i < background.len() && works(#[trigger] background[i])
}

pub fn copygc_stall_pressure(
    copygc_enabled: bool,
    has_recent_write_stalls: bool,
    background: &Vec<(String, String)>,
) -> (r: bool)
    ensures
        r == gc_pressure(copygc_enabled, has_recent_write_stalls, views(background@)),
{
    if !copygc_enabled || !has_recent_write_stalls {
        return false;
    }
    let mut i: usize = 0;
    while i < background.len()
        invariant
            i <= background@.len(),
            forall|k: int| 0 <= k < i ==> !works(#[trigger] views(background@)[k]),
            copygc_enabled,
            has_recent_write_stalls,
        decreases background@.len() - i,
    {
        assert(views(background@)[i as int] == (background@[i as int].0@, background@[i as int].1@));
        if same(background[i].0.as_str(), "copygc") && starts_with(
            background[i].1.as_str(),
            "working",
        ) {
            assert(works(views(background@)[i as int]));
            return true;
        }
        i = i + 1;
    }
    false
}

/// What the first task of a name does.
pub open spec fn task_state(background: Seq<(Seq<char>, Seq<char>)>, name: Seq<char>) -> Seq<char>
    decreases background.len(),
{
    if background.len() == 0 {
        "unknown"@
    } else if background[0].0 == name {
        background[0].1
    } else {
        task_state(background.skip(1), name)
    }
}

fn find_task_state(background: &Vec<(String, String)>, name: &str) -> (r: String)
    ensures
        r@ == task_state(views(background@), name@),
{
    let ghost all = views(background@);
    let mut i: usize = 0;
    proof {
        assert(all.skip(0) =~= all);
    }
    while i < background.len()
        invariant
            i <= all.len(),
            all == views(background@),
            task_state(all, name@) == task_state(all.skip(i as int), name@),
        decreases all.len() - i,
    {
        proof {
            assert(all.skip(i as int).skip(1) =~= all.skip(i + 1));
            assert(all.skip(i as int)[0] == background@[i as int]@);
        }
        if same(background[i].0.as_str(), name) {
            return copy(background[i].1.as_str());
        }
        i = i + 1;
    }
    copy("unknown")
}

pub open spec fn stall_text(s: (StallEventView, u64)) -> Seq<char> {
    "Event age "@ + fixed(seconds(s.1), 6) + "s < 60s, "@ + s.0.device + ": "@ + s.0.detail
}

pub open spec fn stall_texts(stalls: Seq<(StallEventView, u64)>) -> Seq<Seq<char>> {
    Seq::new(stalls.len(), |i: int| stall_text(stalls[i]))
}

pub open spec fn gc_proposal(
    enabled: Seq<char>,
    state: Seq<char>,
    stalls: Seq<(StallEventView, u64)>,
) -> ProposalView {
    ProposalView {
        reason: "Write stalls coincide with copygc — inspect member headroom in Targets [v]"@,
        id: "copygc-pressure"@,
        severity: Severity::Warning,
        detail:
            "Recent write stalls and current copygc activity coincide. Inspect target headroom; this does not prove that GC caused the stalls or that disabling it would help."@,
        criteria:
            "copygc_enabled=1 AND copygc state starts with 'working' AND count(write-direction stall events younger than 60s)>0"@,
        evidence: seq![
            "copygc_enabled="@ + enabled + "; state="@ + state
                + "; recent write-direction events="@ + decimal(stalls.len()),
        ] + stall_texts(stalls),
        command: None,
    }
}

/// What the snapshot shows: constraints of the targets, and stalls next to
/// copygc. These are observations, not claims of sustained activity.
pub open spec fn proposals_of(app: AppView, now: Instant) -> Seq<ProposalView> {
    let enabled = find(app.current.options, "copygc_enabled"@);
    let stalls = write_stalls(app.stall_events, now);
    let reports = of_reports(app.target_reports);
    if gc_pressure(enabled == Some("1"@), stalls.len() > 0, app.current.background) {
        reports.push(
            gc_proposal("1"@, task_state(app.current.background, "copygc"@), stalls),
        )
    } else {
        reports
    }
}

fn find_write_stalls(events: &Vec<StallEvent>, now: Instant) -> (r: Vec<(StallEvent, u64)>)
    ensures
        views(r@) == write_stalls(views(events@), now),
{
    broadcast use lemma_views_push;

    let ghost all = views(events@);
    let mut r: Vec<(StallEvent, u64)> = Vec::new();
    let mut i: usize = 0;
    proof {
        assert(all.take(0) =~= Seq::<StallEventView>::empty());
        assert(views(r@) =~= Seq::<(StallEventView, u64)>::empty());
    }
    while i < events.len()
        invariant
            i <= all.len(),
            all == views(events@),
            views(r@) == write_stalls(all.take(i as int), now),
        decreases all.len() - i,
    {
        proof {
            assert(all.take(i + 1).drop_last() =~= all.take(i as int));
            assert(all.take(i + 1).last() == events@[i as int]@);
        }
        let e = &events[i];
        if e.time <= now && same(e.direction, "write") && now - e.time
            < RECENT_WRITE_STALL_WINDOW {
            r.push((e.duplicate(), now - e.time));
        }
        i = i + 1;
    }
    proof {
        assert(all.take(i as int) =~= all);
    }
    r
}

fn gc_evidence(state: &str, stalls: &Vec<(StallEvent, u64)>) -> (r: Vec<String>)
    ensures
        views(r@) == gc_proposal("1"@, state@, views(stalls@)).evidence,
{
    broadcast use lemma_views_push;

    let head = cat6(
        "copygc_enabled=",
        "1",
        "; state=",
        state,
        "; recent write-direction events=",
        usize_text(stalls.len()).as_str(),
    );
    let ghost all = stall_texts(views(stalls@));
    let mut r: Vec<String> = Vec::new();
    r.push(head);
    let mut i: usize = 0;
    proof {
        assert(views(r@) =~= seq![head@] + all.take(0));
        assert(views(stalls@).len() == stalls@.len());
    }
    while i < stalls.len()
        invariant
            i <= stalls@.len() == all.len(),
            all == stall_texts(views(stalls@)),
            views(r@) == seq![head@] + all.take(i as int),
        decreases stalls@.len() - i,
    {
        let s = &stalls[i];
        let text = cat6(
            "Event age ",
            fixed_text(to_seconds(s.1), 6).as_str(),
            "s < 60s, ",
            s.0.device.as_str(),
            ": ",
            s.0.detail.as_str(),
        );
        proof {
            assert(views(stalls@)[i as int] == (s.0@, s.1));
            assert(text@ == all[i as int]);
            assert((seq![head@] + all.take(i as int)).push(text@) =~= seq![head@] + all.take(i + 1));
        }
        r.push(text);
        i = i + 1;
    }
    proof {
        assert(all.take(i as int) =~= all);
    }
    r
}

/// All that the snapshot shows, muted or not.
pub fn snapshot_proposals(app: &App, now: Instant) -> (r: Vec<Proposal>)
    ensures
        views(r@) == proposals_of(app@, now),
{
    broadcast use lemma_views_push;

    let mut r = from_reports(&app.target_reports);
    let enabled = match app.current.options.get("copygc_enabled") {
        Some(v) => same(v.as_str(), "1"),
        None => false,
    };
    let stalls = find_write_stalls(&app.stall_events, now);
    if copygc_stall_pressure(enabled, stalls.len() > 0, &app.current.background) {
        let state = find_task_state(&app.current.background, "copygc");
        let p = Proposal {
            reason: copy(
                "Write stalls coincide with copygc — inspect member headroom in Targets [v]",
            ),
            id: copy("copygc-pressure"),
            severity: Severity::Warning,
            detail: copy(
                "Recent write stalls and current copygc activity coincide. Inspect target headroom; this does not prove that GC caused the stalls or that disabling it would help.",
            ),
            criteria: copy(
                "copygc_enabled=1 AND copygc state starts with 'working' AND count(write-direction stall events younger than 60s)>0",
            ),
            evidence: gc_evidence(state.as_str(), &stalls),
            command: None,
        };
        assert(p@ =~= gc_proposal("1"@, state@, views(stalls@)));
        r.push(p);
    }
    r
}

// ------------------------------------------------------------------- choosing

pub open spec fn graver(a: Severity, b: Severity) -> bool {
    a == Severity::Critical && b == Severity::Warning
}

/// The first of the gravest hints that are not muted.
pub open spec fn chosen(proposals: Seq<ProposalView>, muted: Seq<Seq<char>>) -> Option<int>
    decreases proposals.len(),
{
    if proposals.len() == 0 {
        None
    } else {
        let last = proposals.len() - 1;
        match chosen(proposals.drop_last(), muted) {
            Some(i) => if !muted.contains(proposals[last].id) && graver(
                proposals[last].severity,
                proposals[i].severity,
            ) {
                Some(last)
            } else {
                Some(i)
            },
            None => if muted.contains(proposals[last].id) {
                None
            } else {
                Some(last)
            },
        }
    }
}

pub open spec fn selected(proposals: Seq<ProposalView>, muted: Seq<Seq<char>>) -> Option<ProposalView> {
    match chosen(proposals, muted) {
        Some(i) => Some(proposals[i]),
        None => None,
    }
}

fn is_graver(a: Severity, b: Severity) -> (r: bool)
    ensures
        r == graver(a, b),
{
    a == Severity::Critical && b == Severity::Warning
}

pub fn select_proposal(proposals: Vec<Proposal>, muted: &Vec<String>) -> (r: Option<Proposal>)
    ensures
        opt(r) == selected(views(proposals@), views(muted@)),
{
    let ghost all = views(proposals@);
    let mut best: Option<usize> = None;
    let mut i: usize = 0;
    proof {
        assert(all.take(0) =~= Seq::<ProposalView>::empty());
    }
    while i < proposals.len()
        invariant
            i <= all.len(),
            all == views(proposals@),
            match best {
                Some(k) => k < i && chosen(all.take(i as int), views(muted@)) == Some(k as int),
                None => chosen(all.take(i as int), views(muted@)) is None,
            },
        decreases all.len() - i,
    {
        proof {
            assert(all.take(i + 1).drop_last() =~= all.take(i as int));
            assert(all.take(i + 1)[i as int] == proposals@[i as int]@);
        }
        if !holds(muted, proposals[i].id.as_str()) {
            match best {
                Some(k) => {
                    assert(all.take(i + 1)[k as int] == proposals@[k as int]@);
                    if is_graver(proposals[i].severity, proposals[k].severity) {
                        best = Some(i);
                    }
                },
                None => {
                    best = Some(i);
                },
            }
        }
        i = i + 1;
    }
    proof {
        assert(all.take(i as int) =~= all);
    }
    match best {
        Some(k) => Some(proposals[k].duplicate()),
        None => None,
    }
}

/// The identities of hints that are muted in a filesystem.
pub open spec fn muted_ids(proposals: Seq<ProposalView>, app: AppView, now: Instant) -> Seq<Seq<char>>
    decreases proposals.len(),
{
    if proposals.len() == 0 {
        Seq::empty()
    } else {
        let id = proposals.last().id;
        let earlier = muted_ids(proposals.drop_last(), app, now);
        if app.dismissed(id, now) {
            earlier.push(id)
        } else {
            earlier
        }
    }
}

fn find_muted(proposals: &Vec<Proposal>, app: &App, now: Instant) -> (r: Vec<String>)
    ensures
        views(r@) == muted_ids(views(proposals@), app@, now),
{
    broadcast use lemma_views_push;

    let ghost all = views(proposals@);
    let mut r: Vec<String> = Vec::new();
    let mut i: usize = 0;
    proof {
        assert(all.take(0) =~= Seq::<ProposalView>::empty());
        assert(views(r@) =~= Seq::<Seq<char>>::empty());
    }
    while i < proposals.len()
        invariant
            i <= all.len(),
            all == views(proposals@),
            views(r@) == muted_ids(all.take(i as int), app@, now),
        decreases all.len() - i,
    {
        proof {
            assert(all.take(i + 1).drop_last() =~= all.take(i as int));
            assert(all.take(i + 1).last() == proposals@[i as int]@);
        }
        if app.is_dismissed(proposals[i].id.as_str(), now) {
            r.push(copy(proposals[i].id.as_str()));
        }
        i = i + 1;
    }
    proof {
        assert(all.take(i as int) =~= all);
    }
    r
}

/// All hints: diagnostics first, then what the snapshot shows.
pub open spec fn candidates(app: AppView, now: Instant) -> Seq<ProposalView> {
    of_diagnostics(app.diagnostics.findings) + proposals_of(app, now)
}

/// The hint to show.
pub open spec fn hint_of(app: AppView, now: Instant) -> Option<ProposalView> {
    let all = candidates(app, now);
    selected(all, muted_ids(all, app, now))
}

pub fn evaluate(app: &App, now: Instant) -> (r: Option<Proposal>)
    ensures
        opt(r) == hint_of(app@, now),
{
    let mut all = from_diagnostics(&app.diagnostics.findings);
    let mut more = snapshot_proposals(app, now);
    let ghost first = views(all@);
    let ghost second = views(more@);
    all.append(&mut more);
    assert(views(all@) =~= first + second);
    let muted = find_muted(&all, app, now);
    select_proposal(all, &muted)
}

// ------------------------------------------------------------------------ laws

/// A muted finding hides no other: where any finding is not muted, one that is
/// not muted is chosen, no finding that is not muted is graver, and none that is
/// as grave stands before it.
pub proof fn law_a_muted_finding_hides_no_other(
    proposals: Seq<ProposalView>,
    muted: Seq<Seq<char>>,
    k: int,
)
    requires
        0 <= k < proposals.len(),
        !muted.contains(proposals[k].id),
    ensures
        chosen(proposals, muted) matches Some(i) && {
            &&& 0 <= i < proposals.len()
            &&& !muted.contains(proposals[i].id)
            &&& !graver(proposals[k].severity, proposals[i].severity)
            &&& k < i ==> graver(proposals[i].severity, proposals[k].severity)
        },
    decreases proposals.len(),
{
    let last = proposals.len() - 1;
    let rest = proposals.drop_last();
    lemma_chosen_is_unmuted(rest, muted);
    if k < last {
        assert(rest[k] == proposals[k]);
        law_a_muted_finding_hides_no_other(rest, muted, k);
    }
    if let Some(i) = chosen(rest, muted) {
        assert(rest[i] == proposals[i]);
    }
}

proof fn lemma_chosen_is_unmuted(proposals: Seq<ProposalView>, muted: Seq<Seq<char>>)
    ensures
        chosen(proposals, muted) matches Some(i) ==> 0 <= i < proposals.len() && !muted.contains(
            proposals[i].id,
        ),
    decreases proposals.len(),
{
    if proposals.len() > 0 {
        let rest = proposals.drop_last();
        lemma_chosen_is_unmuted(rest, muted);
        if let Some(i) = chosen(rest, muted) {
            assert(rest[i] == proposals[i]);
        }
    }
}

/// A muted finding is never shown.
pub proof fn law_a_muted_finding_is_not_shown(app: AppView, now: Instant)
    ensures
        hint_of(app, now) matches Some(p) ==> !app.dismissed(p.id, now),
{
    let all = candidates(app, now);
    let muted = muted_ids(all, app, now);
    lemma_chosen_is_unmuted(all, muted);
    if let Some(i) = chosen(all, muted) {
        if app.dismissed(all[i].id, now) {
            lemma_muted(all, app, now, i);
        }
    }
}

proof fn lemma_muted(proposals: Seq<ProposalView>, app: AppView, now: Instant, i: int)
    requires
        0 <= i < proposals.len(),
        app.dismissed(proposals[i].id, now),
    ensures
        muted_ids(proposals, app, now).contains(proposals[i].id),
    decreases proposals.len(),
{
    let rest = proposals.drop_last();
    let earlier = muted_ids(rest, app, now);
    let all = muted_ids(proposals, app, now);
    if i < proposals.len() - 1 {
        assert(rest[i] == proposals[i]);
        lemma_muted(rest, app, now, i);
        let j = choose|j: int| 0 <= j < earlier.len() && earlier[j] == proposals[i].id;
        assert(all[j] == proposals[i].id);
    } else {
        assert(all[all.len() - 1] == proposals[i].id);
    }
}

proof fn lemma_muted_only(proposals: Seq<ProposalView>, app: AppView, now: Instant, id: Seq<char>)
    requires
        muted_ids(proposals, app, now).contains(id),
    ensures
        app.dismissed(id, now),
    decreases proposals.len(),
{
    if proposals.len() > 0 {
        let earlier = muted_ids(proposals.drop_last(), app, now);
        let all = muted_ids(proposals, app, now);
        let j = choose|j: int| 0 <= j < all.len() && all[j] == id;
        if j < earlier.len() {
            assert(earlier[j] == id);
            lemma_muted_only(proposals.drop_last(), app, now, id);
        }
    }
}

/// Where a finding is not muted, a hint is shown that is at least as grave; of
/// findings as grave, windowed diagnostics come before the snapshot's.
pub proof fn law_the_gravest_finding_is_shown(app: AppView, now: Instant, k: int)
    requires
        0 <= k < candidates(app, now).len(),
        !app.dismissed(candidates(app, now)[k].id, now),
    ensures
        hint_of(app, now) matches Some(p) && {
            &&& !graver(candidates(app, now)[k].severity, p.severity)
            &&& k < of_diagnostics(app.diagnostics.findings).len() && !graver(
                p.severity,
                candidates(app, now)[k].severity,
            ) ==> of_diagnostics(app.diagnostics.findings).contains(p)
        },
{
    let all = candidates(app, now);
    let muted = muted_ids(all, app, now);
    if muted.contains(all[k].id) {
        lemma_muted_only(all, app, now, all[k].id);
    }
    law_a_muted_finding_hides_no_other(all, muted, k);
    let i = chosen(all, muted)->0;
    let windowed = of_diagnostics(app.diagnostics.findings);
    if k < windowed.len() && !graver(all[i].severity, all[k].severity) {
        assert(windowed[i] == all[i]);
    }
}

/// No hint carries a command: hints inform and change nothing.
pub proof fn law_hints_carry_no_command(app: AppView, now: Instant)
    ensures
        hint_of(app, now) matches Some(p) ==> p.command is None,
{
    let all = candidates(app, now);
    let muted = muted_ids(all, app, now);
    lemma_chosen_is_unmuted(all, muted);
    if let Some(i) = chosen(all, muted) {
        let windowed = of_diagnostics(app.diagnostics.findings);
        if i < windowed.len() {
            lemma_diagnostics_plain(app.diagnostics.findings, i);
        } else {
            let reports = of_reports(app.target_reports);
            if i - windowed.len() < reports.len() {
                lemma_reports_plain(app.target_reports, i - windowed.len());
            }
        }
    }
}

proof fn lemma_diagnostics_plain(findings: Seq<(Seq<char>, DiagnosticView)>, i: int)
    requires
        0 <= i < of_diagnostics(findings).len(),
    ensures
        of_diagnostics(findings)[i].command is None,
    decreases findings.len(),
{
    if findings.len() > 0 {
        if i < of_diagnostics(findings.drop_last()).len() {
            lemma_diagnostics_plain(findings.drop_last(), i);
        }
    }
}

proof fn lemma_reports_plain(reports: Seq<TargetReportView>, i: int)
    requires
        0 <= i < of_reports(reports).len(),
    ensures
        of_reports(reports)[i].command is None,
    decreases reports.len(),
{
    if reports.len() > 0 {
        if i < of_reports(reports.drop_last()).len() {
            lemma_reports_plain(reports.drop_last(), i);
        }
    }
}

/// Only a finding with current support becomes a hint: one that was resolved or
/// went stale does not.
pub proof fn law_only_active_findings_become_hints(app: AppView, now: Instant)
    ensures
        hint_of(app, now) matches Some(p) ==> {
            ||| proposals_of(app, now).contains(p)
            ||| exists|i: int|
                0 <= i < app.diagnostics.findings.len() && (
                #[trigger] app.diagnostics.findings[i]).1.status == Status::Active && p
                    == of_diagnostic(app.diagnostics.findings[i].1)
        },
{
    let all = candidates(app, now);
    let muted = muted_ids(all, app, now);
    lemma_chosen_is_unmuted(all, muted);
    if let Some(k) = chosen(all, muted) {
        let first = of_diagnostics(app.diagnostics.findings);
        if k < first.len() {
            assert(all[k] == first[k]);
            let i = lemma_active(app.diagnostics.findings, k);
            assert(app.diagnostics.findings[i].1.status == Status::Active);
        } else {
            assert(all[k] == proposals_of(app, now)[k - first.len()]);
        }
    }
}

proof fn lemma_active(findings: Seq<(Seq<char>, DiagnosticView)>, k: int) -> (i: int)
    requires
        0 <= k < of_diagnostics(findings).len(),
    ensures
        0 <= i < findings.len(),
        findings[i].1.status == Status::Active,
        of_diagnostics(findings)[k] == of_diagnostic(findings[i].1),
    decreases findings.len(),
{
    let rest = of_diagnostics(findings.drop_last());
    if k < rest.len() {
        let i = lemma_active(findings.drop_last(), k);
        assert(findings.drop_last()[i] == findings[i]);
        i
    } else {
        findings.len() - 1
    }
}

proof fn lemma_active_at(findings: Seq<(Seq<char>, DiagnosticView)>, k: int) -> (i: int)
    requires
        0 <= k < findings.len(),
        findings[k].1.status == Status::Active,
    ensures
        0 <= i < of_diagnostics(findings).len(),
        of_diagnostics(findings)[i] == of_diagnostic(findings[k].1),
    decreases findings.len(),
{
    let rest = findings.drop_last();
    if k < rest.len() {
        assert(rest[k] == findings[k]);
        lemma_active_at(rest, k)
    } else {
        of_diagnostics(rest).len() as int
    }
}

proof fn lemma_reported_at(reports: Seq<TargetReportView>, r: int, f: int) -> (i: int)
    requires
        0 <= r < reports.len(),
        0 <= f < reports[r].findings.len(),
    ensures
        0 <= i < of_reports(reports).len(),
        of_reports(reports)[i] == of_finding(reports[r].findings[f]),
    decreases reports.len(),
{
    let rest = reports.drop_last();
    if r < rest.len() {
        assert(rest[r] == reports[r]);
        lemma_reported_at(rest, r, f)
    } else {
        of_reports(rest).len() + f
    }
}

proof fn lemma_report_of(reports: Seq<TargetReportView>, i: int) -> (p: (int, int))
    requires
        0 <= i < of_reports(reports).len(),
    ensures
        0 <= p.0 < reports.len(),
        0 <= p.1 < reports[p.0].findings.len(),
        of_reports(reports)[i] == of_finding(reports[p.0].findings[p.1]),
    decreases reports.len(),
{
    let rest = reports.drop_last();
    if i < of_reports(rest).len() {
        let p = lemma_report_of(rest, i);
        assert(rest[p.0] == reports[p.0]);
        p
    } else {
        (reports.len() - 1, i - of_reports(rest).len())
    }
}

proof fn lemma_write_stall(events: Seq<StallEventView>, now: Instant, k: int)
    requires
        0 <= k < events.len(),
        events[k].direction == "write"@,
        0 <= now - events[k].time < 60_000_000_000,
    ensures
        write_stalls(events, now).len() > 0,
    decreases events.len(),
{
    if k < events.len() - 1 {
        assert(events.drop_last()[k] == events[k]);
        lemma_write_stall(events.drop_last(), now, k);
    }
}

proof fn lemma_stall_of(events: Seq<StallEventView>, now: Instant) -> (k: int)
    requires
        write_stalls(events, now).len() > 0,
    ensures
        0 <= k < events.len(),
        events[k].direction == "write"@,
        0 <= now - events[k].time < 60_000_000_000,
    decreases events.len(),
{
    let e = events.last();
    if e.time <= now && e.direction == "write"@ && now - e.time < 60_000_000_000 {
        events.len() - 1
    } else {
        let k = lemma_stall_of(events.drop_last(), now);
        assert(events.drop_last()[k] == events[k]);
        k
    }
}

/// Where a diagnostic is active or a target has a finding, and it is not muted, a
/// hint is shown; a critical one where that is critical.
pub proof fn law_what_is_found_is_shown(app: AppView, now: Instant, k: int, r: int, f: int)
    ensures
        0 <= k < app.diagnostics.findings.len() && ({
            let d = app.diagnostics.findings[k].1;
            d.status == Status::Active && !app.dismissed(d.id, now)
        }) ==> (hint_of(app, now) matches Some(p) && (app.diagnostics.findings[k].1.severity
            == Severity::Critical ==> p.severity == Severity::Critical)),
        0 <= r < app.target_reports.len() && 0 <= f < app.target_reports[r].findings.len()
            && !app.dismissed(app.target_reports[r].findings[f].id, now) ==> (hint_of(
            app,
            now,
        ) matches Some(p) && (app.target_reports[r].findings[f].severity == Severity::Critical
            ==> p.severity == Severity::Critical)),
{
    let first = of_diagnostics(app.diagnostics.findings);
    let all = candidates(app, now);
    if 0 <= k < app.diagnostics.findings.len() && app.diagnostics.findings[k].1.status
        == Status::Active && !app.dismissed(app.diagnostics.findings[k].1.id, now) {
        let i = lemma_active_at(app.diagnostics.findings, k);
        assert(all[i] == first[i]);
        law_the_gravest_finding_is_shown(app, now, i);
    }
    if 0 <= r < app.target_reports.len() && 0 <= f < app.target_reports[r].findings.len()
        && !app.dismissed(app.target_reports[r].findings[f].id, now) {
        let i = lemma_reported_at(app.target_reports, r, f);
        assert(proposals_of(app, now)[i] == of_reports(app.target_reports)[i]);
        assert(all[first.len() + i] == proposals_of(app, now)[i]);
        law_the_gravest_finding_is_shown(app, now, first.len() + i);
    }
}

/// Whether a write stalled in the last minute while copygc is switched on and works.
pub open spec fn writes_wait_for_copygc(app: AppView, now: Instant) -> bool {
    &&& find(app.current.options, "copygc_enabled"@) == Some("1"@)
    &&& exists|i: int|
        0 <= i < app.current.background.len() && (#[trigger] app.current.background[i]).0
            == "copygc"@ && has_prefix(app.current.background[i].1, "working"@)
    &&& exists|k: int|
        0 <= k < app.stall_events.len() && (#[trigger] app.stall_events[k]).direction == "write"@
            && 0 <= now - app.stall_events[k].time < 60_000_000_000
}

/// A hint says what its finding says: that of an active diagnostic, of a target, or
/// that of writes which wait for copygc.
pub open spec fn tells(p: ProposalView, app: AppView, now: Instant) -> bool {
    ||| exists|k: int|
        0 <= k < app.diagnostics.findings.len() && ({
            let d = (#[trigger] app.diagnostics.findings[k]).1;
            d.status == Status::Active && p.reason == d.summary && p.id == d.id && p.severity
                == d.severity && p.detail == d.action && p.criteria == d.criteria && p.evidence
                == d.evidence
        })
    ||| exists|r: int, f: int|
        0 <= r < app.target_reports.len() && 0 <= f < app.target_reports[r].findings.len() && ({
            let d = #[trigger] app.target_reports[r].findings[f];
            p.reason == d.summary && p.id == d.id && p.severity == d.severity && p.detail
                == d.detail && p.criteria == d.criteria && p.evidence == d.evidence
        })
    ||| p.id == "copygc-pressure"@ && p.severity == Severity::Warning && writes_wait_for_copygc(
        app,
        now,
    )
}

/// Every hint tells of a finding.
pub proof fn law_a_hint_tells_of_its_finding(app: AppView, now: Instant)
    ensures
        hint_of(app, now) matches Some(p) ==> tells(p, app, now),
{
    let all = candidates(app, now);
    let muted = muted_ids(all, app, now);
    lemma_chosen_is_unmuted(all, muted);
    if let Some(c) = chosen(all, muted) {
        let first = of_diagnostics(app.diagnostics.findings);
        let reports = of_reports(app.target_reports);
        if c < first.len() {
            assert(all[c] == first[c]);
            let k = lemma_active(app.diagnostics.findings, c);
            let d = app.diagnostics.findings[k].1;
            assert(d.status == Status::Active);
        } else if c - first.len() < reports.len() {
            assert(all[c] == proposals_of(app, now)[c - first.len()]);
            assert(all[c] == reports[c - first.len()]);
            let p = lemma_report_of(app.target_reports, c - first.len());
            let d = app.target_reports[p.0].findings[p.1];
            assert(all[c] == of_finding(d));
        } else {
            assert(all[c] == proposals_of(app, now).last());
            let k = lemma_stall_of(app.stall_events, now);
            assert(app.stall_events[k].direction == "write"@);
            let i = choose|i: int|
                0 <= i < app.current.background.len() && works(
                    #[trigger] app.current.background[i],
                );
            assert(app.current.background[i].0 == "copygc"@);
        }
    }
}

/// Writes that wait for copygc are hinted at unless that is muted.
pub proof fn law_writes_that_wait_for_copygc_are_shown(app: AppView, now: Instant)
    requires
        writes_wait_for_copygc(app, now),
        !app.dismissed("copygc-pressure"@, now),
    ensures
        hint_of(app, now) is Some,
{
    let k = choose|k: int|
        0 <= k < app.stall_events.len() && (#[trigger] app.stall_events[k]).direction == "write"@
            && 0 <= now - app.stall_events[k].time < 60_000_000_000;
    lemma_write_stall(app.stall_events, now, k);
    let i = choose|i: int|
        0 <= i < app.current.background.len() && (#[trigger] app.current.background[i]).0
            == "copygc"@ && has_prefix(app.current.background[i].1, "working"@);
    assert(works(app.current.background[i]));
    let all = candidates(app, now);
    assert(all.last() == proposals_of(app, now).last());
    law_the_gravest_finding_is_shown(app, now, all.len() - 1);
}

} // verus!
