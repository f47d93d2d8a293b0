//! The state of the application and what is done to it.

use crate::advisor::{Proposal, ProposalView};
use crate::analysis::{analyze, reports};
use crate::diagnostics::{Diagnostics, DiagnosticsView};
use crate::double::{zero, Double};
use crate::metrics::{History, HistoryView, ProcessRate, ProcessRateView, Rates, RatesView};
use crate::strmap::{find, put, StrMap};
use crate::sysfs::{
    BcachefsFs, BcachefsFsView, DeviceInfo, DeviceInfoView, Duration, FsSnapshot, FsSnapshotView,
    Instant, ProcessIo, ProcessIoView,
};
use crate::targets::{TargetReport, TargetReportView};
use crate::text::{
    cat2, cat3, cat4, cat7, copy, copy_all, count, decimal, lemma_views_push, lines_of, opt, same,
    trim, trimmed, usize_text, views, Duplicate,
};
use crate::tick::last_row;
use crate::tuning::{names_in, result_view, written_view, TuningState, TuningStateView};
use crate::window::{since, time_since};
use vstd::prelude::*;

verus! {

/// A moment at which I/O was slow.
#[derive(Debug)]
pub struct StallEvent {
    pub time: Instant,
    pub device: String,
    pub direction: &'static str,
    pub detail: String,
}

#[verifier::ext_equal]
pub struct StallEventView {
    pub time: Instant,
    pub device: Seq<char>,
    pub direction: Seq<char>,
    pub detail: Seq<char>,
}

impl View for StallEvent {
    type V = StallEventView;

    open spec fn view(&self) -> StallEventView {
        StallEventView {
            time: self.time,
            device: self.device@,
            direction: self.direction@,
            detail: self.detail@,
        }
    }
}

impl Duplicate for StallEvent {
    fn duplicate(&self) -> (r: StallEvent) {
        StallEvent {
            time: self.time,
            device: copy(self.device.as_str()),
            direction: self.direction,
            detail: copy(self.detail.as_str()),
        }
    }
}

impl Clone for StallEvent {
    fn clone(&self) -> (r: StallEvent)
        ensures
            r@ == self@,
    {
        self.duplicate()
    }
}

/// A time statistic with what the last sample added.
#[derive(Debug)]
pub struct TimeStatView {
    pub name: String,
    pub count_delta: u64,
    pub count_total: u64,
    pub mean_ns: u64,
    pub recent_ns: u64,
    pub max_ns: u64,
    pub is_blocked: bool,
}

#[verifier::ext_equal]
pub struct TimeStatModel {
    pub name: Seq<char>,
    pub count_delta: u64,
    pub count_total: u64,
    pub mean_ns: u64,
    pub recent_ns: u64,
    pub max_ns: u64,
    pub is_blocked: bool,
}

impl View for TimeStatView {
    type V = TimeStatModel;

    open spec fn view(&self) -> TimeStatModel {
        TimeStatModel {
            name: self.name@,
            count_delta: self.count_delta,
            count_total: self.count_total,
            mean_ns: self.mean_ns,
            recent_ns: self.recent_ns,
            max_ns: self.max_ns,
            is_blocked: self.is_blocked,
        }
    }
}

impl Duplicate for TimeStatView {
    fn duplicate(&self) -> (r: TimeStatView) {
        TimeStatView {
            name: copy(self.name.as_str()),
            count_delta: self.count_delta,
            count_total: self.count_total,
            mean_ns: self.mean_ns,
            recent_ns: self.recent_ns,
            max_ns: self.max_ns,
            is_blocked: self.is_blocked,
        }
    }
}

impl Clone for TimeStatView {
    fn clone(&self) -> (r: TimeStatView)
        ensures
            r@ == self@,
    {
        self.duplicate()
    }
}

/// Which panel the keyboard works on.
#[derive(Debug, Clone, Copy, PartialEq, Eq, Structural)]
pub enum Focus {
    Metrics,
    Tuning,
}

/// What is known of the hint that is shown.
#[derive(Debug, Clone, Copy, PartialEq, Eq, Structural)]
pub enum HintStatus {
    /// Its rule holds.
    Current,
    /// The snapshot no longer shows it.
    LastObserved,
    /// Valid samples no longer satisfy its rule.
    Resolved,
    /// What its rule needs is no longer known.
    Stale,
}

pub struct App {
    pub fs: BcachefsFs,
    pub current: FsSnapshot,
    pub previous: Option<FsSnapshot>,
    pub rates: Option<Rates>,
    pub history: History,
    pub tuning: TuningState,
    pub focus: Focus,
    pub last_tick: Instant,
    pub status_msg: Option<String>,
    pub status_msg_since: Option<Instant>,
    pub status_msg_rendered: bool,
    pub should_quit: bool,
    /// Every filesystem that was discovered.
    pub all_fs: Vec<BcachefsFs>,
    pub fs_index: usize,
    pub show_options: bool,
    pub show_processes: bool,
    pub show_blocked: bool,
    pub show_targets: bool,
    pub show_advisor: bool,
    pub show_counters: bool,
    pub show_help: bool,
    pub prev_proc_io: Vec<ProcessIo>,
    pub process_rates: Vec<ProcessRate>,
    /// Recent stalls, the newest first.
    pub stall_events: Vec<StallEvent>,
    /// The hint that is shown.
    pub proposal: Option<Proposal>,
    pub hint_status: HintStatus,
    /// When the hint first appeared; it stays long enough to be read.
    pub proposal_first_shown: Option<Instant>,
    /// The hint that is explained, as it was when it was asked about.
    pub inspected_hint: Option<Proposal>,
    pub hint_scroll: usize,
    /// Hints muted for a while: filesystem, hint and when.
    pub dismissed_temp: Vec<(String, String, Instant)>,
    /// Hints muted for good: filesystem and hint.
    pub dismissed_permanent: Vec<(String, String)>,
    /// Name, what the last sample added, recent mean in microseconds.
    pub blocked_deltas: Vec<(String, u64, Double)>,
    /// Name, what the last sample added, cumulative value.
    pub counter_deltas: Vec<(String, u64, u64)>,
    /// Seconds between the snapshots of the current deltas.
    pub sample_interval: Double,
    pub time_stats_view: Vec<TimeStatView>,
    pub iowait_pct: Double,
    pub view_scroll: usize,
    pub device_scroll: usize,
    pub sort_devices_by_pressure: bool,
    /// Errors of each device when it was first seen.
    pub initial_errors: StrMap<u64>,
    pub diagnostics: Diagnostics,
    pub target_reports: Vec<TargetReport>,
    pub expected_interval: Duration,
}

pub struct AppView {
    pub fs: BcachefsFsView,
    pub current: FsSnapshotView,
    pub previous: Option<FsSnapshotView>,
    pub rates: Option<RatesView>,
    pub history: HistoryView,
    pub tuning: TuningStateView,
    pub focus: Focus,
    pub last_tick: Instant,
    pub status_msg: Option<Seq<char>>,
    pub status_msg_since: Option<Instant>,
    pub status_msg_rendered: bool,
    pub should_quit: bool,
    pub all_fs: Seq<BcachefsFsView>,
    pub fs_index: usize,
    pub show_options: bool,
    pub show_processes: bool,
    pub show_blocked: bool,
    pub show_targets: bool,
    pub show_advisor: bool,
    pub show_counters: bool,
    pub show_help: bool,
    pub prev_proc_io: Seq<ProcessIoView>,
    pub process_rates: Seq<ProcessRateView>,
    pub stall_events: Seq<StallEventView>,
    pub proposal: Option<ProposalView>,
    pub hint_status: HintStatus,
    pub proposal_first_shown: Option<Instant>,
    pub inspected_hint: Option<ProposalView>,
    pub hint_scroll: usize,
    pub dismissed_temp: Seq<(Seq<char>, Seq<char>, Instant)>,
    pub dismissed_permanent: Seq<(Seq<char>, Seq<char>)>,
    pub blocked_deltas: Seq<(Seq<char>, u64, Double)>,
    pub counter_deltas: Seq<(Seq<char>, u64, u64)>,
    pub sample_interval: Double,
    pub time_stats_view: Seq<TimeStatModel>,
    pub iowait_pct: Double,
    pub view_scroll: usize,
    pub device_scroll: usize,
    pub sort_devices_by_pressure: bool,
    pub initial_errors: Seq<(Seq<char>, u64)>,
    pub diagnostics: DiagnosticsView,
    pub target_reports: Seq<TargetReportView>,
    pub expected_interval: Duration,
}

impl View for App {
    type V = AppView;

    open spec fn view(&self) -> AppView {
        AppView {
            fs: self.fs@,
            current: self.current@,
            previous: opt(self.previous),
            rates: opt(self.rates),
            history: self.history@,
            tuning: self.tuning@,
            focus: self.focus,
            last_tick: self.last_tick,
            status_msg: opt(self.status_msg),
            status_msg_since: self.status_msg_since,
            status_msg_rendered: self.status_msg_rendered,
            should_quit: self.should_quit,
            all_fs: views(self.all_fs@),
            fs_index: self.fs_index,
            show_options: self.show_options,
            show_processes: self.show_processes,
            show_blocked: self.show_blocked,
            show_targets: self.show_targets,
            show_advisor: self.show_advisor,
            show_counters: self.show_counters,
            show_help: self.show_help,
            prev_proc_io: views(self.prev_proc_io@),
            process_rates: views(self.process_rates@),
            stall_events: views(self.stall_events@),
            proposal: opt(self.proposal),
            hint_status: self.hint_status,
            proposal_first_shown: self.proposal_first_shown,
            inspected_hint: opt(self.inspected_hint),
            hint_scroll: self.hint_scroll,
            dismissed_temp: views(self.dismissed_temp@),
            dismissed_permanent: views(self.dismissed_permanent@),
            blocked_deltas: views(self.blocked_deltas@),
            counter_deltas: views(self.counter_deltas@),
            sample_interval: self.sample_interval,
            time_stats_view: views(self.time_stats_view@),
            iowait_pct: self.iowait_pct,
            view_scroll: self.view_scroll,
            device_scroll: self.device_scroll,
            sort_devices_by_pressure: self.sort_devices_by_pressure,
            initial_errors: self.initial_errors@,
            diagnostics: self.diagnostics@,
            target_reports: views(self.target_reports@),
            expected_interval: self.expected_interval,
        }
    }
}

impl AppView {
    /// Whether a hint is muted in the filesystem that is shown.
    pub open spec fn dismissed(self, id: Seq<char>, now: Instant) -> bool {
        ||| self.dismissed_permanent.contains((self.fs.uuid, id))
        ||| exists|i: int|
            0 <= i < self.dismissed_temp.len() && muted_by(
                #[trigger] self.dismissed_temp[i],
                self.fs.uuid,
                id,
                now,
            )
    }
}

/// How long a mute lasts.
pub const MUTE_FOR: u64 = 120_000_000_000;

pub open spec fn muted_by(
    entry: (Seq<char>, Seq<char>, Instant),
    uuid: Seq<char>,
    id: Seq<char>,
    now: Instant,
) -> bool {
    entry.0 == uuid && entry.1 == id && since(now, entry.2) < MUTE_FOR
}

impl App {
    pub fn is_dismissed(&self, id: &str, now: Instant) -> (r: bool)
        ensures
            r == self@.dismissed(id@, now),
    {
        if has_pair(&self.dismissed_permanent, self.fs.uuid.as_str(), id) {
            return true;
        }
        let mut i: usize = 0;
        while i < self.dismissed_temp.len()
            invariant
                i <= self.dismissed_temp@.len(),
                !self@.dismissed_permanent.contains((self@.fs.uuid, id@)),
                forall|k: int|
                    0 <= k < i ==> !muted_by(
                        #[trigger] self@.dismissed_temp[k],
                        self@.fs.uuid,
                        id@,
                        now,
                    ),
            decreases self.dismissed_temp@.len() - i,
        {
            let e = &self.dismissed_temp[i];
            assert(self@.dismissed_temp[i as int] == (e.0@, e.1@, e.2));
            if same(e.0.as_str(), self.fs.uuid.as_str()) && same(e.1.as_str(), id) && time_since(
                now,
                e.2,
            ) < MUTE_FOR {
                assert(muted_by(self@.dismissed_temp[i as int], self@.fs.uuid, id@, now));
                return true;
            }
            i = i + 1;
        }
        false
    }
}

fn has_pair(list: &Vec<(String, String)>, a: &str, b: &str) -> (r: bool)
    ensures
        r == views(list@).contains((a@, b@)),
{
    let mut i: usize = 0;
    while i < list.len()
        invariant
            i <= list@.len(),
            forall|k: int| 0 <= k < i ==> views(list@)[k] != (a@, b@),
        decreases list@.len() - i,
    {
        assert(views(list@)[i as int] == (list@[i as int].0@, list@[i as int].1@));
        if same(list[i].0.as_str(), a) && same(list[i].1.as_str(), b) {
            return true;
        }
        i = i + 1;
    }
    false
}

// ------------------------------------------------------------------- starting

/// How many samples the charts keep.
pub const HISTORY_LEN: usize = 120;

/// The errors of each device; of devices with one name, those of the last.
pub open spec fn errors_by_name(devices: Seq<DeviceInfoView>) -> Seq<(Seq<char>, u64)>
    decreases devices.len(),
{
    if devices.len() == 0 {
        Seq::empty()
    } else {
        put(errors_by_name(devices.drop_last()), devices.last().name, devices.last().io_errors)
    }
}

fn map_errors(devices: &Vec<DeviceInfo>) -> (r: StrMap<u64>)
    ensures
        r@ == errors_by_name(views(devices@)),
{
    let ghost all = views(devices@);
    let mut r: StrMap<u64> = StrMap::new();
    let mut i: usize = 0;
    proof {
        assert(all.take(0) =~= Seq::<DeviceInfoView>::empty());
    }
    while i < devices.len()
        invariant
            i <= all.len(),
            all == views(devices@),
            r@ == errors_by_name(all.take(i as int)),
        decreases all.len() - i,
    {
        proof {
            assert(all.take(i + 1).drop_last() =~= all.take(i as int));
            assert(all.take(i + 1).last() == devices@[i as int]@);
        }
        r.insert(devices[i].name.as_str(), devices[i].io_errors);
        i = i + 1;
    }
    proof {
        assert(all.take(i as int) =~= all);
    }
    r
}

impl HistoryView {
    pub open spec fn starting() -> HistoryView {
        HistoryView { series: Seq::empty(), capacity: HISTORY_LEN }
    }
}

impl AppView {
    pub open spec fn starting(
        all_fs: Seq<BcachefsFsView>,
        fs_index: usize,
        snap: FsSnapshotView,
        processes: Seq<ProcessIoView>,
        hidden: Seq<Seq<char>>,
        now: Instant,
    ) -> AppView {
        AppView {
            fs: all_fs[fs_index as int],
            current: snap,
            previous: None,
            rates: None,
            history: HistoryView::starting(),
            tuning: TuningStateView::starting(snap.options, hidden),
            focus: Focus::Metrics,
            last_tick: now,
            status_msg: None,
            status_msg_since: None,
            status_msg_rendered: false,
            should_quit: false,
            all_fs,
            fs_index,
            show_options: false,
            show_processes: false,
            show_blocked: false,
            show_targets: false,
            show_advisor: false,
            show_counters: false,
            show_help: false,
            prev_proc_io: processes,
            process_rates: Seq::empty(),
            stall_events: Seq::empty(),
            proposal: None,
            hint_status: HintStatus::Current,
            proposal_first_shown: None,
            inspected_hint: None,
            hint_scroll: 0,
            dismissed_temp: Seq::empty(),
            dismissed_permanent: Seq::empty(),
            blocked_deltas: Seq::empty(),
            counter_deltas: Seq::empty(),
            sample_interval: zero(),
            time_stats_view: Seq::empty(),
            iowait_pct: zero(),
            view_scroll: 0,
            device_scroll: 0,
            sort_devices_by_pressure: false,
            initial_errors: errors_by_name(snap.devices),
            diagnostics: DiagnosticsView::blank(""@),
            target_reports: reports(snap),
            expected_interval: DEFAULT_INTERVAL,
        }
    }
}

/// The interval between samples where none is given.
pub const DEFAULT_INTERVAL: Duration = 2_000_000_000;

impl App {
    /// The application on one of the filesystems, from its first snapshot.
    pub fn new(
        all_fs: Vec<BcachefsFs>,
        fs_index: usize,
        snap: FsSnapshot,
        processes: Vec<ProcessIo>,
        hidden: &str,
        now: Instant,
    ) -> (r: App)
        requires
            fs_index < all_fs@.len(),
        ensures
            r@ == AppView::starting(
                views(all_fs@),
                fs_index,
                snap@,
                views(processes@),
                names_in(lines_of(hidden@)),
                now,
            ),
            r.history.capacity > 0,
    {
        let tuning = TuningState::new(&snap.options, hidden);
        let initial_errors = map_errors(&snap.devices);
        let target_reports = analyze(&snap);
        let r = App {
            fs: all_fs[fs_index].duplicate(),
            current: snap,
            previous: None,
            rates: None,
            history: History::new(HISTORY_LEN),
            tuning,
            focus: Focus::Metrics,
            last_tick: now,
            status_msg: None,
            status_msg_since: None,
            status_msg_rendered: false,
            should_quit: false,
            all_fs,
            fs_index,
            show_options: false,
            show_processes: false,
            show_blocked: false,
            show_targets: false,
            show_advisor: false,
            show_counters: false,
            show_help: false,
            prev_proc_io: processes,
            process_rates: Vec::new(),
            stall_events: Vec::new(),
            proposal: None,
            hint_status: HintStatus::Current,
            proposal_first_shown: None,
            inspected_hint: None,
            hint_scroll: 0,
            dismissed_temp: Vec::new(),
            dismissed_permanent: Vec::new(),
            blocked_deltas: Vec::new(),
            counter_deltas: Vec::new(),
            sample_interval: Double::zero(),
            time_stats_view: Vec::new(),
            iowait_pct: Double::zero(),
            view_scroll: 0,
            device_scroll: 0,
            sort_devices_by_pressure: false,
            initial_errors,
            diagnostics: Diagnostics::default(),
            target_reports,
            expected_interval: DEFAULT_INTERVAL,
        };
        assert(r@.process_rates =~= Seq::<ProcessRateView>::empty());
        assert(r@.stall_events =~= Seq::<StallEventView>::empty());
        assert(r@.dismissed_temp =~= Seq::<(Seq<char>, Seq<char>, Instant)>::empty());
        assert(r@.dismissed_permanent =~= Seq::<(Seq<char>, Seq<char>)>::empty());
        assert(r@.blocked_deltas =~= Seq::<(Seq<char>, u64, Double)>::empty());
        assert(r@.counter_deltas =~= Seq::<(Seq<char>, u64, u64)>::empty());
        assert(r@.time_stats_view =~= Seq::<TimeStatModel>::empty());
        r
    }
}

// --------------------------------------------------------------------- status

impl AppView {
    pub open spec fn with_status(self, message: Seq<char>, now: Instant) -> AppView {
        AppView {
            status_msg: Some(message),
            status_msg_since: Some(now),
            status_msg_rendered: false,
            ..self
        }
    }
}

impl App {
    pub fn set_status(&mut self, message: &str, now: Instant)
        ensures
            final(self)@ == old(self)@.with_status(message@, now),
    {
        self.status_msg = Some(copy(message));
        self.status_msg_since = Some(now);
        self.status_msg_rendered = false;
    }
}

// --------------------------------------------------------------- panels, lists

/// The focus after it is switched. A hidden panel never receives it.
pub open spec fn next_focus(show_options: bool, focus: Focus) -> Focus {
    if !show_options {
        Focus::Metrics
    } else {
        match focus {
            Focus::Metrics => Focus::Tuning,
            Focus::Tuning => Focus::Metrics,
        }
    }
}

pub fn toggled_focus(show_options: bool, focus: Focus) -> (r: Focus)
    ensures
        r == next_focus(show_options, focus),
{
    if !show_options {
        return Focus::Metrics;
    }
    match focus {
        Focus::Metrics => Focus::Tuning,
        Focus::Tuning => Focus::Metrics,
    }
}

impl AppView {
    pub open spec fn refocused(self) -> AppView {
        AppView { focus: next_focus(self.show_options, self.focus), ..self }
    }

    pub open spec fn options_toggled(self) -> AppView {
        if self.show_options {
            AppView {
                show_options: false,
                focus: Focus::Metrics,
                tuning: self.tuning.cancelled(),
                ..self
            }
        } else {
            AppView { show_options: true, ..self }
        }
    }

    pub open spec fn row_up(self) -> AppView {
        AppView {
            device_scroll: if self.device_scroll > 0 {
                (self.device_scroll - 1) as usize
            } else {
                0
            },
            ..self
        }
    }

    pub open spec fn row_down(self) -> AppView {
        let last = last_row(self.rates);
        AppView {
            device_scroll: if self.device_scroll < last {
                (self.device_scroll + 1) as usize
            } else {
                last
            },
            ..self
        }
    }

    pub open spec fn resorted(self, now: Instant) -> AppView {
        AppView {
            sort_devices_by_pressure: !self.sort_devices_by_pressure,
            device_scroll: 0,
            ..self
        }.with_status(
            if self.sort_devices_by_pressure {
                "Devices sorted by filesystem order"@
            } else {
                "Devices sorted by pressure"@
            },
            now,
        )
    }
}

impl App {
    pub fn toggle_focus(&mut self)
        ensures
            final(self)@ == old(self)@.refocused(),
    {
        self.focus = toggled_focus(self.show_options, self.focus);
    }

    pub fn toggle_options(&mut self)
        ensures
            final(self)@ == old(self)@.options_toggled(),
    {
        if self.show_options {
            self.show_options = false;
            self.focus = Focus::Metrics;
            self.tuning.cancel_edit();
        } else {
            self.show_options = true;
        }
    }

    pub fn scroll_devices_up(&mut self)
        ensures
            final(self)@ == old(self)@.row_up(),
    {
        self.device_scroll = self.device_scroll.saturating_sub(1);
    }

    pub fn scroll_devices_down(&mut self)
        ensures
            final(self)@ == old(self)@.row_down(),
    {
        let n = match &self.rates {
            Some(rates) => count(&rates.devices),
            None => 0,
        };
        let last: usize = if n > 0 {
            n - 1
        } else {
            0
        };
        let row = if self.device_scroll < last {
            self.device_scroll + 1
        } else {
            last
        };
        self.device_scroll = row;
    }

    pub fn toggle_device_sort(&mut self, now: Instant)
        ensures
            final(self)@ == old(self)@.resorted(now),
    {
        let message = if self.sort_devices_by_pressure {
            "Devices sorted by filesystem order"
        } else {
            "Devices sorted by pressure"
        };
        self.sort_devices_by_pressure = !self.sort_devices_by_pressure;
        self.device_scroll = 0;
        self.set_status(message, now);
    }
}

// --------------------------------------------------------------------- muting

impl AppView {
    /// The hint muted for a while.
    pub open spec fn muted_for_now(self, now: Instant) -> AppView {
        AppView {
            dismissed_temp: match self.proposal {
                Some(p) => self.dismissed_temp.push((self.fs.uuid, p.id, now)),
                None => self.dismissed_temp,
            },
            ..self
        }.without_hint().with_status("Muted for 2 minutes"@, now)
    }

    /// The hint muted for good.
    pub open spec fn muted_for_good(self, now: Instant) -> AppView {
        match self.proposal {
            Some(p) => AppView {
                dismissed_permanent: if self.dismissed_permanent.contains((self.fs.uuid, p.id)) {
                    self.dismissed_permanent
                } else {
                    self.dismissed_permanent.push((self.fs.uuid, p.id))
                },
                ..self
            }.with_status(
                "Won't hint about "@ + p.id + " again (press C to clear)"@,
                now,
            ).without_hint(),
            None => self.without_hint(),
        }
    }

    /// Every hint heard again.
    pub open spec fn unmuted(self, now: Instant) -> AppView {
        AppView {
            dismissed_temp: Seq::empty(),
            dismissed_permanent: Seq::empty(),
            ..self
        }.with_status(
            "Cleared "@ + decimal(self.dismissed_permanent.len()) + " permanent dismissals"@,
            now,
        )
    }
}

impl App {
    pub fn dismiss_proposal(&mut self, now: Instant)
        ensures
            final(self)@ == old(self)@.muted_for_now(now),
    {
        broadcast use lemma_views_push;

        let id = match &self.proposal {
            Some(p) => Some(copy(p.id.as_str())),
            None => None,
        };
        if let Some(id) = id {
            let uuid = copy(self.fs.uuid.as_str());
            self.dismissed_temp.push((uuid, id, now));
        }
        self.drop_hint();
        self.set_status("Muted for 2 minutes", now);
    }

    pub fn dismiss_permanent(&mut self, now: Instant)
        ensures
            final(self)@ == old(self)@.muted_for_good(now),
    {
        broadcast use lemma_views_push;

        let id = match &self.proposal {
            Some(p) => Some(copy(p.id.as_str())),
            None => None,
        };
        if let Some(id) = id {
            let uuid = copy(self.fs.uuid.as_str());
            let text = cat3("Won't hint about ", id.as_str(), " again (press C to clear)");
            if !has_pair(&self.dismissed_permanent, uuid.as_str(), id.as_str()) {
                self.dismissed_permanent.push((uuid, id));
            }
            self.set_status(text.as_str(), now);
        }
        self.drop_hint();
    }

    pub fn clear_dismissals(&mut self, now: Instant)
        ensures
            final(self)@ == old(self)@.unmuted(now),
    {
        let n = count(&self.dismissed_permanent);
        let text = cat3("Cleared ", usize_text(n).as_str(), " permanent dismissals");
        self.dismissed_permanent = Vec::new();
        self.dismissed_temp = Vec::new();
        assert(views(self.dismissed_permanent@) =~= Seq::<(Seq<char>, Seq<char>)>::empty());
        assert(views(self.dismissed_temp@) =~= Seq::<(Seq<char>, Seq<char>, Instant)>::empty());
        self.set_status(text.as_str(), now);
    }
}

/// What the footer says of a hint.
pub open spec fn hint_text(p: ProposalView, status: HintStatus) -> Seq<char> {
    match status {
        HintStatus::Current => p.reason,
        HintStatus::LastObserved => "Last observed: "@ + p.reason,
        HintStatus::Resolved => "Resolved: "@ + p.reason,
        HintStatus::Stale => "Stale: "@ + p.reason,
    }
}

impl App {
    /// The text of the hint. One that is kept after its rule stopped to hold is
    /// labelled so.
    pub fn hint_line(&self) -> (r: Option<String>)
        ensures
            opt(r) == (match self@.proposal {
                Some(p) => Some(hint_text(p, self@.hint_status)),
                None => None,
            }),
    {
        match &self.proposal {
            Some(p) => Some(
                match self.hint_status {
                    HintStatus::Current => copy(p.reason.as_str()),
                    HintStatus::LastObserved => cat2("Last observed: ", p.reason.as_str()),
                    HintStatus::Resolved => cat2("Resolved: ", p.reason.as_str()),
                    HintStatus::Stale => cat2("Stale: ", p.reason.as_str()),
                },
            ),
            None => None,
        }
    }
}

// -------------------------------------------------------- another filesystem

impl AppView {
    /// The index of the next filesystem, where there is another.
    pub open spec fn next_index(self) -> Option<int> {
        if self.all_fs.len() <= 1 {
            None
        } else {
            Some((self.fs_index + 1) % (self.all_fs.len() as int))
        }
    }

    /// On the next filesystem, from its first snapshot. Panels, sorting and
    /// mutes stay; nothing measured does.
    pub open spec fn switched(
        self,
        snap: FsSnapshotView,
        processes: Seq<ProcessIoView>,
        now: Instant,
    ) -> AppView {
        match self.next_index() {
            Some(i) => AppView {
                fs: self.all_fs[i],
                fs_index: i as usize,
                tuning: TuningStateView::starting(snap.options, self.tuning.hidden),
                initial_errors: errors_by_name(snap.devices),
                current: snap,
                previous: None,
                rates: None,
                last_tick: now,
                history: HistoryView::starting(),
                stall_events: Seq::empty(),
                blocked_deltas: Seq::empty(),
                counter_deltas: Seq::empty(),
                time_stats_view: Seq::empty(),
                sample_interval: zero(),
                process_rates: Seq::empty(),
                prev_proc_io: processes,
                iowait_pct: zero(),
                view_scroll: 0,
                device_scroll: 0,
                proposal: None,
                proposal_first_shown: None,
                hint_status: HintStatus::Current,
                inspected_hint: None,
                hint_scroll: 0,
                diagnostics: DiagnosticsView::blank(""@),
                target_reports: reports(snap),
                ..self
            }.with_status(
                "Switched to: "@ + self.all_fs[i].fs_name + " ("@ + decimal((i + 1) as nat)
                    + "/"@ + decimal(self.all_fs.len()) + ")"@,
                now,
            ),
            None => self.with_status("Only one filesystem mounted"@, now),
        }
    }
}

impl App {
    /// The index of the filesystem that a switch would show.
    pub fn next_fs(&self) -> (r: Option<usize>)
        requires
            self.fs_index < self.all_fs@.len(),
        ensures
            r is Some == self@.next_index() is Some,
            r matches Some(i) ==> self@.next_index() == Some(i as int) && i < self.all_fs@.len(),
    {
        let n = count(&self.all_fs);
        if n <= 1 {
            None
        } else if self.fs_index + 1 < n {
            proof {
                vstd::arithmetic::div_mod::lemma_small_mod((self.fs_index + 1) as nat, n as nat);
            }
            Some(self.fs_index + 1)
        } else {
            proof {
                vstd::arithmetic::div_mod::lemma_mod_self_0(n as int);
            }
            Some(0)
        }
    }

    fn clear_measurements(&mut self, now: Instant)
        ensures
            final(self)@ == (AppView {
                previous: None,
                rates: None,
                last_tick: now,
                history: HistoryView::starting(),
                stall_events: Seq::empty(),
                blocked_deltas: Seq::empty(),
                counter_deltas: Seq::empty(),
                time_stats_view: Seq::empty(),
                sample_interval: zero(),
                process_rates: Seq::empty(),
                iowait_pct: zero(),
                ..old(self)@
            }),
    {
        self.previous = None;
        self.rates = None;
        self.last_tick = now;
        self.history = History::new(HISTORY_LEN);
        self.stall_events = Vec::new();
        self.blocked_deltas = Vec::new();
        self.counter_deltas = Vec::new();
        self.time_stats_view = Vec::new();
        self.sample_interval = Double::zero();
        self.process_rates = Vec::new();
        self.iowait_pct = Double::zero();
        assert(self@.process_rates =~= Seq::<ProcessRateView>::empty());
        assert(self@.stall_events =~= Seq::<StallEventView>::empty());
        assert(self@.blocked_deltas =~= Seq::<(Seq<char>, u64, Double)>::empty());
        assert(self@.counter_deltas =~= Seq::<(Seq<char>, u64, u64)>::empty());
        assert(self@.time_stats_view =~= Seq::<TimeStatModel>::empty());
    }

    fn clear_hints(&mut self)
        ensures
            final(self)@ == (AppView {
                view_scroll: 0,
                device_scroll: 0,
                proposal: None,
                proposal_first_shown: None,
                hint_status: HintStatus::Current,
                inspected_hint: None,
                hint_scroll: 0,
                diagnostics: DiagnosticsView::blank(""@),
                ..old(self)@
            }),
    {
        self.view_scroll = 0;
        self.device_scroll = 0;
        self.proposal = None;
        self.proposal_first_shown = None;
        self.hint_status = HintStatus::Current;
        self.inspected_hint = None;
        self.hint_scroll = 0;
        self.diagnostics = Diagnostics::default();
    }

    fn load(&mut self, index: usize, snap: FsSnapshot, processes: Vec<ProcessIo>)
        requires
            index < old(self).all_fs@.len(),
        ensures
            final(self)@ == (AppView {
                fs: old(self)@.all_fs[index as int],
                fs_index: index,
                tuning: TuningStateView::starting(snap@.options, old(self)@.tuning.hidden),
                initial_errors: errors_by_name(snap@.devices),
                current: snap@,
                prev_proc_io: views(processes@),
                target_reports: reports(snap@),
                ..old(self)@
            }),
    {
        let fs = self.all_fs[index].duplicate();
        let hidden = copy_all(&self.tuning.hidden);
        let tuning = TuningState::with_hidden(&snap.options, hidden);
        let errors = map_errors(&snap.devices);
        let found = analyze(&snap);
        self.fs = fs;
        self.fs_index = index;
        self.tuning = tuning;
        self.initial_errors = errors;
        self.target_reports = found;
        self.current = snap;
        self.prev_proc_io = processes;
    }

    /// Shows the next filesystem, given its first snapshot. Returns whether
    /// there is another.
    pub fn switch_fs(&mut self, snap: FsSnapshot, processes: Vec<ProcessIo>, now: Instant) -> (r:
        bool)
        requires
            old(self).fs_index < old(self).all_fs@.len(),
        ensures
            final(self)@ == old(self)@.switched(snap@, views(processes@), now),
            r == (old(self)@.next_index() is Some),
    {
        match self.next_fs() {
            Some(index) => {
                let n = count(&self.all_fs);
                let place = index + 1;
                self.clear_measurements(now);
                self.clear_hints();
                self.load(index, snap, processes);
                let text = cat7(
                    "Switched to: ",
                    self.fs.fs_name.as_str(),
                    " (",
                    usize_text(place).as_str(),
                    "/",
                    usize_text(n).as_str(),
                    ")",
                );
                self.set_status(text.as_str(), now);
                true
            },
            None => {
                self.set_status("Only one filesystem mounted", now);
                false
            },
        }
    }
}

// -------------------------------------------------------------------- options

impl AppView {
    /// What an option becomes when it is toggled.
    pub open spec fn toggled_text(self, name: Seq<char>) -> Seq<char> {
        match find(self.current.options, name) {
            Some(v) => if trimmed(v) == "1"@ {
                "0"@
            } else {
                "1"@
            },
            None => "1"@,
        }
    }

    /// After a toggle was written, or was not.
    pub open spec fn option_toggled(
        self,
        name: Seq<char>,
        value: Seq<char>,
        written: Result<(), Seq<char>>,
        now: Instant,
    ) -> AppView {
        match written {
            Ok(_) => self.with_status(name + " = "@ + value, now),
            Err(e) => self.with_status("Failed: "@ + e, now),
        }
    }

    /// After the value of an edit was written, or was not.
    pub open spec fn edit_finished(self, written: Result<(), Seq<char>>, now: Instant) -> AppView {
        AppView { tuning: self.tuning.committed(written), ..self }.with_status(
            edit_text(or_question(self.tuning.name()), self.tuning.commit_result(written)),
            now,
        )
    }
}

/// What is said of an edit.
pub open spec fn edit_text(name: Seq<char>, result: Result<Seq<char>, Seq<char>>) -> Seq<char> {
    match result {
        Ok(value) => "Set "@ + name + " = "@ + value,
        Err(e) => "Error: "@ + e,
    }
}

fn tell_edit(name: &str, result: &Result<String, String>) -> (r: String)
    ensures
        r@ == edit_text(name@, result_view(*result)),
{
    match result {
        Ok(value) => cat4("Set ", name, " = ", value.as_str()),
        Err(e) => cat2("Error: ", e.as_str()),
    }
}

pub open spec fn or_question(name: Option<Seq<char>>) -> Seq<char> {
    match name {
        Some(n) => n,
        None => "?"@,
    }
}

impl App {
    /// The value that toggles an option.
    pub fn toggled_value(&self, name: &str) -> (r: &'static str)
        ensures
            r@ == self@.toggled_text(name@),
    {
        match self.current.options.get(name) {
            Some(v) => if same(trim(v.as_str()).as_str(), "1") {
                "0"
            } else {
                "1"
            },
            None => "1",
        }
    }

    /// Reports a toggle, given how the write of its value went.
    pub fn toggle_option(&mut self, name: &str, value: &str, written: Result<(), String>, now: Instant)
        ensures
            final(self)@ == old(self)@.option_toggled(name@, value@, written_view(written), now),
    {
        match written {
            Ok(_) => {
                let text = cat3(name, " = ", value);
                self.set_status(text.as_str(), now);
            },
            Err(e) => {
                let text = cat2("Failed: ", e.as_str());
                self.set_status(text.as_str(), now);
            },
        }
    }

    /// Ends the edit of an option, given how the write of its value went.
    pub fn finish_edit(&mut self, written: Result<(), String>, now: Instant)
        ensures
            final(self)@ == old(self)@.edit_finished(written_view(written), now),
    {
        let name = match self.tuning.selected_name() {
            Some(n) => copy(n),
            None => copy("?"),
        };
        let result = self.tuning.commit_edit(written);
        let text = tell_edit(name.as_str(), &result);
        self.set_status(text.as_str(), now);
    }
}

} // verus!
