//! What the keys do.

use crate::analysis::reports;
use crate::app::{muted_by, App, AppView, Focus, MUTE_FOR};
use crate::strmap::find;
use crate::sysfs::{BcachefsFsView, FsSnapshotView, Instant, ProcessIo, ProcessIoView};
use crate::text::{chars_of, copy, count, dup_opt, string_of, views};
use crate::tick::{law_stalls_are_bounded, MAX_STALLS};
use crate::tuning::TuningStateView;
use crate::window::since;
use vstd::prelude::*;

verus! {

#[derive(Debug, Clone, Copy, PartialEq, Eq, Structural)]
pub enum Key {
    Char(char),
    Enter,
    Esc,
    Backspace,
    Tab,
    Up,
    Down,
    PageUp,
    PageDown,
    Home,
    Other,
}

/// A key that was pressed, with or without Control.
#[derive(Debug, Clone, Copy, PartialEq, Eq, Structural)]
pub struct KeyPress {
    pub key: Key,
    pub control: bool,
}

/// What has to be done outside after a key.
#[derive(Debug)]
pub enum Action {
    Nothing,
    /// Write a value to an option, and report it as toggled.
    Toggle(String, String),
    /// Write the value of an edit to its option, and finish the edit.
    Commit(String, String),
    /// Sample the I/O of processes anew.
    SampleProcesses,
    /// Take a snapshot of the next filesystem, and switch to it.
    SwitchFs,
}

#[verifier::ext_equal]
pub enum ActionView {
    Nothing,
    Toggle(Seq<char>, Seq<char>),
    Commit(Seq<char>, Seq<char>),
    SampleProcesses,
    SwitchFs,
}

impl View for Action {
    type V = ActionView;

    open spec fn view(&self) -> ActionView {
        match self {
            Action::Nothing => ActionView::Nothing,
            Action::Toggle(name, value) => ActionView::Toggle(name@, value@),
            Action::Commit(name, value) => ActionView::Commit(name@, value@),
            Action::SampleProcesses => ActionView::SampleProcesses,
            Action::SwitchFs => ActionView::SwitchFs,
        }
    }
}

/// The views that take the place of the device table. At most one is shown.
#[derive(Debug, Clone, Copy, PartialEq, Eq, Structural)]
pub enum Detail {
    Counters,
    Blocked,
    Processes,
    Targets,
    Advisor,
}

// ---------------------------------------------------------------------- pieces

pub open spec fn less_by(n: usize, by: usize) -> usize {
    if n >= by {
        (n - by) as usize
    } else {
        0
    }
}

pub open spec fn more_by(n: usize, by: usize) -> usize {
    if n + by <= usize::MAX {
        (n + by) as usize
    } else {
        usize::MAX
    }
}

/// Where a key moves the text of a hint.
pub open spec fn scrolled(key: Key, row: usize) -> usize {
    match key {
        Key::Up | Key::Char('k') => less_by(row, 1),
        Key::Down | Key::Char('j') => more_by(row, 1),
        Key::PageUp => less_by(row, 10),
        Key::PageDown => more_by(row, 10),
        Key::Home => 0,
        _ => row,
    }
}

fn scroll_row(key: Key, row: usize) -> (r: usize)
    ensures
        r == scrolled(key, row),
{
    match key {
        Key::Up | Key::Char('k') => row.saturating_sub(1),
        Key::Down | Key::Char('j') => row.saturating_add(1),
        Key::PageUp => row.saturating_sub(10),
        Key::PageDown => row.saturating_add(10),
        Key::Home => 0,
        _ => row,
    }
}

impl AppView {
    pub open spec fn quitting(self) -> AppView {
        AppView { should_quit: true, ..self }
    }

    pub open spec fn shows(self, detail: Detail) -> bool {
        match detail {
            Detail::Counters => self.show_counters,
            Detail::Blocked => self.show_blocked,
            Detail::Processes => self.show_processes,
            Detail::Targets => self.show_targets,
            Detail::Advisor => self.show_advisor,
        }
    }

    pub open spec fn shows_detail(self) -> bool {
        self.show_counters || self.show_blocked || self.show_processes || self.show_targets
            || self.show_advisor
    }

    /// Only this view in place of the device table.
    pub open spec fn showing(self, detail: Detail) -> AppView {
        AppView {
            show_counters: detail == Detail::Counters,
            show_blocked: detail == Detail::Blocked,
            show_processes: detail == Detail::Processes,
            show_targets: detail == Detail::Targets,
            show_advisor: detail == Detail::Advisor,
            ..self
        }
    }

    pub open spec fn hiding(self, detail: Detail) -> AppView {
        AppView {
            show_counters: self.show_counters && detail != Detail::Counters,
            show_blocked: self.show_blocked && detail != Detail::Blocked,
            show_processes: self.show_processes && detail != Detail::Processes,
            show_targets: self.show_targets && detail != Detail::Targets,
            show_advisor: self.show_advisor && detail != Detail::Advisor,
            ..self
        }
    }

    pub open spec fn detail_toggled(self, detail: Detail) -> AppView {
        let next = if self.shows(detail) {
            self.hiding(detail)
        } else {
            self.showing(detail)
        };
        AppView {
            view_scroll: if detail == Detail::Processes && self.shows(detail) {
                self.view_scroll
            } else {
                0
            },
            ..next
        }
    }

    /// The hint explained as it is now.
    pub open spec fn explained(self, now: Instant) -> AppView {
        let closed = AppView { show_help: false, ..self };
        match self.proposal {
            Some(p) => AppView { inspected_hint: Some(p), hint_scroll: 0, ..closed },
            None => closed.with_status("No current hint"@, now),
        }
    }

    pub open spec fn moved_up(self) -> AppView {
        if self.focus == Focus::Tuning {
            AppView { tuning: self.tuning.up(), ..self }
        } else if self.shows_detail() {
            AppView { view_scroll: less_by(self.view_scroll, 1), ..self }
        } else {
            self.row_up()
        }
    }

    pub open spec fn moved_down(self) -> AppView {
        if self.focus == Focus::Tuning {
            AppView { tuning: self.tuning.down(), ..self }
        } else if self.shows_detail() {
            AppView { view_scroll: more_by(self.view_scroll, 1), ..self }
        } else {
            self.row_down()
        }
    }

    /// Enter in the options panel: starts an edit, or asks for its value to be
    /// written.
    pub open spec fn entered(self, now: Instant) -> (AppView, ActionView) {
        if !self.show_options || self.focus != Focus::Tuning {
            (self, ActionView::Nothing)
        } else if self.tuning.editing {
            match self.tuning.pending() {
                Some(p) => (self, ActionView::Commit(p.0, p.1)),
                None => (self.edit_finished(Ok(()), now), ActionView::Nothing),
            }
        } else {
            match self.tuning.name() {
                Some(name) => (
                    AppView {
                        tuning: self.tuning.edited(
                            match find(self.current.options, name) {
                                Some(v) => v,
                                None => Seq::empty(),
                            },
                        ),
                        ..self
                    },
                    ActionView::Nothing,
                ),
                None => (self, ActionView::Nothing),
            }
        }
    }

    pub open spec fn typed(self, text: Seq<char>) -> AppView {
        AppView { tuning: TuningStateView { edit_buf: text, ..self.tuning }, ..self }
    }

    /// A key while an option is edited.
    pub open spec fn edit_key(self, key: Key, now: Instant) -> (AppView, ActionView) {
        match key {
            Key::Enter => self.entered(now),
            Key::Esc => (
                AppView { tuning: self.tuning.cancelled(), ..self },
                ActionView::Nothing,
            ),
            Key::Backspace => (
                if self.tuning.edit_buf.len() > 0 {
                    self.typed(self.tuning.edit_buf.drop_last())
                } else {
                    self
                },
                ActionView::Nothing,
            ),
            Key::Char(c) => (self.typed(self.tuning.edit_buf.push(c)), ActionView::Nothing),
            _ => (self, ActionView::Nothing),
        }
    }

    /// A key while a hint is explained.
    pub open spec fn hint_key(self, key: Key) -> AppView {
        match key {
            Key::Char('q') => self.quitting(),
            Key::Esc | Key::Char('w') => AppView { inspected_hint: None, ..self },
            _ => AppView { hint_scroll: scrolled(key, self.hint_scroll), ..self },
        }
    }

    pub open spec fn toggle_of(self, name: Seq<char>) -> (AppView, ActionView) {
        (self, ActionView::Toggle(name, self.toggled_text(name)))
    }

    pub open spec fn plain(self) -> (AppView, ActionView) {
        (self, ActionView::Nothing)
    }

    /// A key that is a command.
    pub open spec fn command_key(self, key: Key, now: Instant) -> (AppView, ActionView) {
        match key {
            Key::Char('q') => self.quitting().plain(),
            Key::Char('?') => AppView { show_help: !self.show_help, ..self }.plain(),
            Key::Char('w') => self.explained(now).plain(),
            Key::Char('n') | Key::Char('N') => self.muted_for_now(now).plain(),
            Key::Char('!') => self.muted_for_good(now).plain(),
            Key::Char('C') => self.unmuted(now).plain(),
            Key::Char('c') => self.detail_toggled(Detail::Counters).plain(),
            Key::Char('r') => self.toggle_of("reconcile_enabled"@),
            Key::Char('a') => self.detail_toggled(Detail::Advisor).plain(),
            Key::Char('v') => self.detail_toggled(Detail::Targets).plain(),
            Key::Char('g') => self.toggle_of("copygc_enabled"@),
            Key::Char('t') => self.detail_toggled(Detail::Blocked).plain(),
            Key::Char('p') => (
                self.detail_toggled(Detail::Processes),
                if self.show_processes {
                    ActionView::Nothing
                } else {
                    ActionView::SampleProcesses
                },
            ),
            Key::Char('o') => self.options_toggled().plain(),
            Key::Char('s') => self.resorted(now).plain(),
            Key::Tab => self.refocused().plain(),
            Key::Up | Key::Char('k') => self.moved_up().plain(),
            Key::Down | Key::Char('j') => self.moved_down().plain(),
            Key::Enter => self.entered(now),
            Key::Char('f') => if self.all_fs.len() <= 1 {
                self.with_status("Only one filesystem mounted"@, now).plain()
            } else {
                (self, ActionView::SwitchFs)
            },
            Key::Esc => self.without_status().plain(),
            _ => self.plain(),
        }
    }

    /// What a key does. Control-C quits whatever is shown; an edit takes the
    /// keys before an explained hint does, and that before the commands.
    pub open spec fn pressed(self, press: KeyPress, now: Instant) -> (AppView, ActionView) {
        if press.control && (press.key == Key::Char('c') || press.key == Key::Char('C')) {
            self.quitting().plain()
        } else if self.tuning.editing {
            self.edit_key(press.key, now)
        } else if self.inspected_hint is Some {
            self.hint_key(press.key).plain()
        } else {
            self.command_key(press.key, now)
        }
    }
}

// ------------------------------------------------------------------- execution

impl App {
    fn quit(&mut self)
        ensures
            final(self)@ == old(self)@.quitting(),
    {
        self.should_quit = true;
    }

    fn is_shown(&self, detail: Detail) -> (r: bool)
        ensures
            r == self@.shows(detail),
    {
        match detail {
            Detail::Counters => self.show_counters,
            Detail::Blocked => self.show_blocked,
            Detail::Processes => self.show_processes,
            Detail::Targets => self.show_targets,
            Detail::Advisor => self.show_advisor,
        }
    }

    /// Shows a view in place of the device table, or the table again.
    pub fn toggle_detail(&mut self, detail: Detail)
        ensures
            final(self)@ == old(self)@.detail_toggled(detail),
    {
        let was = self.is_shown(detail);
        let scroll = if detail == Detail::Processes && was {
            self.view_scroll
        } else {
            0
        };
        let counters = (self.show_counters && was && detail != Detail::Counters) || (!was && detail
            == Detail::Counters);
        let blocked = (self.show_blocked && was && detail != Detail::Blocked) || (!was && detail
            == Detail::Blocked);
        let processes = (self.show_processes && was && detail != Detail::Processes) || (!was
            && detail == Detail::Processes);
        let targets = (self.show_targets && was && detail != Detail::Targets) || (!was && detail
            == Detail::Targets);
        let advisor = (self.show_advisor && was && detail != Detail::Advisor) || (!was && detail
            == Detail::Advisor);
        self.show_counters = counters;
        self.show_blocked = blocked;
        self.show_processes = processes;
        self.show_targets = targets;
        self.show_advisor = advisor;
        self.view_scroll = scroll;
    }

    /// Explains the hint that is shown.
    pub fn explain_hint(&mut self, now: Instant)
        ensures
            final(self)@ == old(self)@.explained(now),
    {
        self.show_help = false;
        if self.proposal.is_some() {
            let copied = dup_opt(&self.proposal);
            self.inspected_hint = copied;
            self.hint_scroll = 0;
        } else {
            self.set_status("No current hint", now);
        }
    }

    /// Takes the first sample of processes after their view was opened.
    pub fn set_processes(&mut self, processes: Vec<ProcessIo>)
        ensures
            final(self)@ == (AppView { prev_proc_io: views(processes@), ..old(self)@ }),
    {
        self.prev_proc_io = processes;
    }

    fn detail_open(&self) -> (r: bool)
        ensures
            r == self@.shows_detail(),
    {
        self.show_counters || self.show_blocked || self.show_processes || self.show_targets
            || self.show_advisor
    }

    fn move_up(&mut self)
        ensures
            final(self)@ == old(self)@.moved_up(),
    {
        if self.focus == Focus::Tuning {
            self.tuning.scroll_up();
        } else if self.detail_open() {
            self.view_scroll = self.view_scroll.saturating_sub(1);
        } else {
            self.scroll_devices_up();
        }
    }

    fn move_down(&mut self)
        ensures
            final(self)@ == old(self)@.moved_down(),
    {
        if self.focus == Focus::Tuning {
            self.tuning.scroll_down();
        } else if self.detail_open() {
            self.view_scroll = self.view_scroll.saturating_add(1);
        } else {
            self.scroll_devices_down();
        }
    }

    fn start_edit(&mut self)
        ensures
            final(self)@ == (match old(self)@.tuning.name() {
                Some(name) => AppView {
                    tuning: old(self)@.tuning.edited(
                        match find(old(self)@.current.options, name) {
                            Some(v) => v,
                            None => Seq::empty(),
                        },
                    ),
                    ..old(self)@
                },
                None => old(self)@,
            }),
    {
        let value = match self.tuning.selected_name() {
            Some(name) => match self.current.options.get(name) {
                Some(v) => copy(v.as_str()),
                None => String::new(),
            },
            None => {
                return;
            },
        };
        self.tuning.start_edit(value.as_str());
    }

    pub fn handle_enter(&mut self, now: Instant) -> (r: Action)
        ensures
            (final(self)@, r@) == old(self)@.entered(now),
    {
        if !self.show_options || self.focus != Focus::Tuning {
            return Action::Nothing;
        }
        if self.tuning.editing {
            match self.tuning.pending_edit() {
                Some(p) => Action::Commit(p.0, p.1),
                None => {
                    self.finish_edit(Ok(()), now);
                    Action::Nothing
                },
            }
        } else {
            self.start_edit();
            Action::Nothing
        }
    }

    fn erase(&mut self)
        ensures
            final(self)@ == old(self)@.edit_key(Key::Backspace, 0).0,
    {
        let v = chars_of(self.tuning.edit_buf.as_str());
        if v.len() > 0 {
            let text = string_of(&v, 0, v.len() - 1);
            assert(text@ =~= v@.drop_last());
            self.tuning.edit_buf = text;
        }
    }

    fn type_char(&mut self, c: char)
        ensures
            final(self)@ == old(self)@.typed(old(self)@.tuning.edit_buf.push(c)),
    {
        self.tuning.edit_buf.push(c);
    }

    fn handle_edit_key(&mut self, key: Key, now: Instant) -> (r: Action)
        ensures
            (final(self)@, r@) == old(self)@.edit_key(key, now),
    {
        match key {
            Key::Enter => self.handle_enter(now),
            Key::Esc => {
                self.tuning.cancel_edit();
                Action::Nothing
            },
            Key::Backspace => {
                self.erase();
                Action::Nothing
            },
            Key::Char(c) => {
                self.type_char(c);
                Action::Nothing
            },
            _ => Action::Nothing,
        }
    }

    fn close_hint(&mut self)
        ensures
            final(self)@ == (AppView { inspected_hint: None, ..old(self)@ }),
    {
        self.inspected_hint = None;
    }

    fn scroll_hint(&mut self, key: Key)
        ensures
            final(self)@ == (AppView {
                hint_scroll: scrolled(key, old(self)@.hint_scroll),
                ..old(self)@
            }),
    {
        self.hint_scroll = scroll_row(key, self.hint_scroll);
    }

    fn handle_hint_key(&mut self, key: Key)
        ensures
            final(self)@ == old(self)@.hint_key(key),
    {
        match key {
            Key::Char('q') => self.quit(),
            Key::Esc | Key::Char('w') => self.close_hint(),
            _ => self.scroll_hint(key),
        }
    }

    fn ask_toggle(&self, name: &str) -> (r: Action)
        ensures
            r@ == ActionView::Toggle(name@, self@.toggled_text(name@)),
    {
        Action::Toggle(copy(name), copy(self.toggled_value(name)))
    }

    fn toggle_help(&mut self)
        ensures
            final(self)@ == (AppView { show_help: !old(self)@.show_help, ..old(self)@ }),
    {
        self.show_help = !self.show_help;
    }

    fn ask_switch(&mut self, now: Instant) -> (r: Action)
        ensures
            (final(self)@, r@) == old(self)@.command_key(Key::Char('f'), now),
    {
        if count(&self.all_fs) <= 1 {
            self.set_status("Only one filesystem mounted", now);
            Action::Nothing
        } else {
            Action::SwitchFs
        }
    }

    fn open_processes(&mut self) -> (r: Action)
        ensures
            (final(self)@, r@) == old(self)@.command_key(Key::Char('p'), 0),
    {
        let was = self.show_processes;
        self.toggle_detail(Detail::Processes);
        if was {
            Action::Nothing
        } else {
            Action::SampleProcesses
        }
    }

    #[verifier::rlimit(30)]
    fn handle_command_key(&mut self, key: Key, now: Instant) -> (r: Action)
        ensures
            (final(self)@, r@) == old(self)@.command_key(key, now),
    {
        match key {
            Key::Char('r') => {
                return self.ask_toggle("reconcile_enabled");
            },
            Key::Char('g') => {
                return self.ask_toggle("copygc_enabled");
            },
            Key::Char('p') => {
                return self.open_processes();
            },
            Key::Char('f') => {
                return self.ask_switch(now);
            },
            Key::Enter => {
                return self.handle_enter(now);
            },
            Key::Char('q') => self.quit(),
            Key::Char('?') => self.toggle_help(),
            Key::Char('w') => self.explain_hint(now),
            Key::Char('n') | Key::Char('N') => self.dismiss_proposal(now),
            Key::Char('!') => self.dismiss_permanent(now),
            Key::Char('C') => self.clear_dismissals(now),
            Key::Char('c') => self.toggle_detail(Detail::Counters),
            Key::Char('a') => self.toggle_detail(Detail::Advisor),
            Key::Char('v') => self.toggle_detail(Detail::Targets),
            Key::Char('t') => self.toggle_detail(Detail::Blocked),
            Key::Char('o') => self.toggle_options(),
            Key::Char('s') => self.toggle_device_sort(now),
            Key::Tab => self.toggle_focus(),
            Key::Up | Key::Char('k') => self.move_up(),
            Key::Down | Key::Char('j') => self.move_down(),
            Key::Esc => self.clear_status(),
            _ => {},
        }
        Action::Nothing
    }

    /// Does what a key asks for, and says what is left to do outside.
    pub fn handle_key(&mut self, press: KeyPress, now: Instant) -> (r: Action)
        ensures
            (final(self)@, r@) == old(self)@.pressed(press, now),
    {
        if press.control && (press.key == Key::Char('c') || press.key == Key::Char('C')) {
            self.quit();
            Action::Nothing
        } else if self.tuning.editing {
            self.handle_edit_key(press.key, now)
        } else if self.inspected_hint.is_some() {
            self.handle_hint_key(press.key);
            Action::Nothing
        } else {
            self.handle_command_key(press.key, now)
        }
    }
}

// ------------------------------------------------------------------------ laws

impl AppView {
    /// What holds of the application at all times: the filesystem that is shown
    /// is one of those discovered, the charts have room, a hidden options panel
    /// has neither focus nor edit, and at most one view takes the place of the
    /// device table.
    pub open spec fn valid(self) -> bool {
        &&& self.fs_index < self.all_fs.len() <= usize::MAX
        &&& self.fs == self.all_fs[self.fs_index as int]
        &&& self.history.capacity > 0
        &&& self.focus == Focus::Tuning ==> self.show_options
        &&& self.tuning.editing ==> self.show_options
        &&& forall|a: Detail, b: Detail| #[trigger]
            self.shows(a) && #[trigger] self.shows(b) ==> a == b
        &&& self.stall_events.len() <= MAX_STALLS
        &&& self.dismissed_permanent.no_duplicates()
    }
}

/// The application starts valid.
pub proof fn law_the_app_starts_valid(
    all_fs: Seq<BcachefsFsView>,
    fs_index: usize,
    snap: FsSnapshotView,
    processes: Seq<ProcessIoView>,
    hidden: Seq<Seq<char>>,
    now: Instant,
)
    requires
        fs_index < all_fs.len() <= usize::MAX,
    ensures
        AppView::starting(all_fs, fs_index, snap, processes, hidden, now).valid(),
{
}

/// A sample keeps the application valid.
pub proof fn law_samples_keep_the_app_valid(
    app: AppView,
    snap: FsSnapshotView,
    now: Instant,
    processes: Option<Seq<ProcessIoView>>,
)
    requires
        app.valid(),
    ensures
        app.ticked(snap, now, processes).valid(),
{
    law_stalls_are_bounded(app, snap, now, 0);
    let a = app.sampled(snap, now);
    let b = a.diagnosed(now);
    let c = b.hinted(now);
    let d = c.with_processes(processes);
    let e = d.faded(now);
    assert forall|x: Detail, y: Detail| #[trigger] e.shows(x) && #[trigger] e.shows(y) implies x
        == y by {
        assert(app.shows(x) == e.shows(x));
        assert(app.shows(y) == e.shows(y));
    }
}

/// Whether two states agree on everything that validity speaks of but mutes.
pub open spec fn framed(a: AppView, b: AppView) -> bool {
    &&& a.all_fs == b.all_fs
    &&& a.fs_index == b.fs_index
    &&& a.fs == b.fs
    &&& a.history == b.history
    &&& a.focus == b.focus
    &&& a.show_options == b.show_options
    &&& a.tuning.editing == b.tuning.editing
    &&& a.show_counters == b.show_counters
    &&& a.show_blocked == b.show_blocked
    &&& a.show_processes == b.show_processes
    &&& a.show_targets == b.show_targets
    &&& a.show_advisor == b.show_advisor
    &&& a.stall_events == b.stall_events
}

proof fn lemma_framed(a: AppView, b: AppView)
    requires
        a.valid(),
        framed(a, b),
        b.dismissed_permanent.no_duplicates(),
    ensures
        b.valid(),
{
    assert forall|x: Detail, y: Detail| #[trigger] b.shows(x) && #[trigger] b.shows(y) implies x
        == y by {
        assert(a.shows(x) == b.shows(x));
        assert(a.shows(y) == b.shows(y));
    }
}

proof fn lemma_detail_toggled(app: AppView, detail: Detail)
    requires
        app.valid(),
    ensures
        app.detail_toggled(detail).valid(),
{
    let next = app.detail_toggled(detail);
    assert forall|x: Detail, y: Detail| #[trigger] next.shows(x) && #[trigger] next.shows(y) implies x
        == y by {
        assert(app.shows(x) && app.shows(y) ==> x == y);
    }
}

proof fn lemma_panel(a: AppView, b: AppView)
    requires
        a.valid(),
        framed(
            a,
            (AppView {
                focus: a.focus,
                show_options: a.show_options,
                tuning: a.tuning,
                ..b
            }),
        ),
        b.dismissed_permanent == a.dismissed_permanent,
        b.focus == Focus::Tuning ==> b.show_options,
        b.tuning.editing ==> b.show_options,
    ensures
        b.valid(),
{
    assert forall|x: Detail, y: Detail| #[trigger] b.shows(x) && #[trigger] b.shows(y) implies x
        == y by {
        assert(a.shows(x) == b.shows(x));
        assert(a.shows(y) == b.shows(y));
    }
}

proof fn lemma_muted_valid(app: AppView, now: Instant)
    requires
        app.valid(),
    ensures
        app.muted_for_now(now).valid(),
        app.muted_for_good(now).valid(),
        app.unmuted(now).valid(),
{
    if let Some(p) = app.proposal {
        let mute = (app.fs.uuid, p.id);
        if !app.dismissed_permanent.contains(mute) {
            lemma_push_distinct(app.dismissed_permanent, mute);
        }
    }
    lemma_framed(app, app.muted_for_now(now));
    lemma_framed(app, app.muted_for_good(now));
    lemma_framed(app, app.unmuted(now));
}

proof fn lemma_entered_valid(app: AppView, now: Instant)
    requires
        app.valid(),
    ensures
        app.entered(now).0.valid(),
{
    lemma_panel(app, app.entered(now).0);
}

#[verifier::rlimit(30)]
proof fn lemma_edit_key_valid(app: AppView, key: Key, now: Instant)
    requires
        app.valid(),
    ensures
        app.edit_key(key, now).0.valid(),
{
    lemma_entered_valid(app, now);
    if key != Key::Enter {
        lemma_panel(app, app.edit_key(key, now).0);
    }
}

proof fn lemma_mute_key_valid(app: AppView, key: Key, now: Instant)
    requires
        app.valid(),
        key == Key::Char('n') || key == Key::Char('N') || key == Key::Char('!') || key == Key::Char('C'),
    ensures
        app.command_key(key, now).0.valid(),
{
    lemma_muted_valid(app, now);
}

proof fn lemma_detail_key_valid(app: AppView, key: Key, now: Instant)
    requires
        app.valid(),
        key == Key::Char('c') || key == Key::Char('a') || key == Key::Char('v') || key == Key::Char('t') || key == Key::Char('p'),
    ensures
        app.command_key(key, now).0.valid(),
{
    lemma_detail_toggled(app, Detail::Counters);
    lemma_detail_toggled(app, Detail::Advisor);
    lemma_detail_toggled(app, Detail::Targets);
    lemma_detail_toggled(app, Detail::Blocked);
    lemma_detail_toggled(app, Detail::Processes);
}

proof fn lemma_panel_key_valid(app: AppView, key: Key, now: Instant)
    requires
        app.valid(),
        key == Key::Char('o') || key == Key::Tab || key == Key::Enter,
    ensures
        app.command_key(key, now).0.valid(),
{
    lemma_panel(app, app.options_toggled());
    lemma_panel(app, app.refocused());
    lemma_entered_valid(app, now);
}

proof fn lemma_list_key_valid(app: AppView, key: Key, now: Instant)
    requires
        app.valid(),
        key == Key::Char('s') || key == Key::Up || key == Key::Char('k') || key == Key::Down || key == Key::Char('j'),
    ensures
        app.command_key(key, now).0.valid(),
{
    lemma_framed(app, app.resorted(now));
    lemma_framed(app, app.moved_up());
    lemma_framed(app, app.moved_down());
}

proof fn lemma_message_key_valid(app: AppView, key: Key, now: Instant)
    requires
        app.valid(),
        key == Key::Char('q') || key == Key::Char('w') || key == Key::Esc || key == Key::Char('f') || key == Key::Char('?'),
    ensures
        app.command_key(key, now).0.valid(),
{
    lemma_framed(app, app.quitting());
    lemma_framed(app, app.explained(now));
    lemma_framed(app, app.without_status());
    lemma_framed(app, app.with_status("Only one filesystem mounted"@, now));
    lemma_framed(app, (AppView { show_help: !app.show_help, ..app }));
}

proof fn lemma_command_key_valid(app: AppView, key: Key, now: Instant)
    requires
        app.valid(),
    ensures
        app.command_key(key, now).0.valid(),
{
    match key {
        Key::Char('n') | Key::Char('N') | Key::Char('!') | Key::Char('C') => {
            lemma_mute_key_valid(app, key, now);
        },
        Key::Char('c') | Key::Char('a') | Key::Char('v') | Key::Char('t') | Key::Char('p') => {
            lemma_detail_key_valid(app, key, now);
        },
        Key::Char('o') | Key::Tab | Key::Enter => lemma_panel_key_valid(app, key, now),
        Key::Char('s') | Key::Up | Key::Char('k') | Key::Down | Key::Char('j') => {
            lemma_list_key_valid(app, key, now);
        },
        Key::Char('q') | Key::Char('w') | Key::Esc | Key::Char('f') | Key::Char('?') => {
            lemma_message_key_valid(app, key, now);
        },
        _ => {
            assert(app.command_key(key, now).0 == app);
        },
    }
}

/// No key breaks the application, whatever it does.
pub proof fn law_keys_keep_the_app_valid(app: AppView, press: KeyPress, now: Instant)
    requires
        app.valid(),
    ensures
        app.pressed(press, now).0.valid(),
{
    if press.control && (press.key == Key::Char('c') || press.key == Key::Char('C')) {
        lemma_framed(app, app.quitting());
    } else if app.tuning.editing {
        lemma_edit_key_valid(app, press.key, now);
    } else if app.inspected_hint is Some {
        lemma_framed(app, app.hint_key(press.key));
    } else {
        lemma_command_key_valid(app, press.key, now);
    }
}

proof fn lemma_push_distinct<T>(s: Seq<T>, x: T)
    requires
        s.no_duplicates(),
        !s.contains(x),
    ensures
        s.push(x).no_duplicates(),
{
}

/// A switch keeps the application valid.
pub proof fn law_switching_keeps_the_app_valid(
    app: AppView,
    snap: FsSnapshotView,
    processes: Seq<ProcessIoView>,
    now: Instant,
)
    requires
        app.valid(),
    ensures
        app.switched(snap, processes, now).valid(),
{
    let next = app.switched(snap, processes, now);
    if app.all_fs.len() > 1 {
        let n = app.all_fs.len() as int;
        assert(0 <= (app.fs_index + 1) % n < n) by (nonlinear_arith)
            requires
                n > 1,
        ;
    }
    assert forall|x: Detail, y: Detail| #[trigger] next.shows(x) && #[trigger] next.shows(y) implies x
        == y by {
        assert(app.shows(x) == next.shows(x));
        assert(app.shows(y) == next.shows(y));
    }
}

pub open spec fn control_c(upper: bool) -> KeyPress {
    KeyPress {
        key: if upper {
            Key::Char('C')
        } else {
            Key::Char('c')
        },
        control: true,
    }
}

impl AppView {
    /// With the edit and the message of another state.
    pub open spec fn with_edit_of(self, other: AppView) -> AppView {
        AppView {
            tuning: other.tuning,
            status_msg: other.status_msg,
            status_msg_since: other.status_msg_since,
            status_msg_rendered: other.status_msg_rendered,
            ..self
        }
    }

    pub open spec fn seen_on(self, fs: BcachefsFsView) -> AppView {
        AppView { fs, ..self }
    }
}

/// Control-C quits, whatever is shown or edited.
pub proof fn law_control_c_quits(app: AppView, now: Instant, upper: bool)
    ensures
        app.pressed(control_c(upper), now).0.should_quit,
{
}

/// While an option is edited, keys change nothing but the edit and the message
/// about it: no command runs, and only Control-C quits.
pub proof fn law_an_edit_takes_the_keys(app: AppView, press: KeyPress, now: Instant)
    requires
        app.tuning.editing,
        !(press.control && (press.key == Key::Char('c') || press.key == Key::Char('C'))),
    ensures
        ({
            let next = app.pressed(press, now).0;
            next == app.with_edit_of(next)
        }),
        !(app.pressed(press, now).1 is Toggle),
        !(app.pressed(press, now).1 is SwitchFs),
{
}

/// An explained hint is frozen: no sample changes it, and keys only scroll or
/// close it. The other views do not scroll with it.
pub proof fn law_an_explained_hint_is_frozen(
    app: AppView,
    press: KeyPress,
    snap: FsSnapshotView,
    processes: Option<Seq<ProcessIoView>>,
    now: Instant,
)
    requires
        app.inspected_hint is Some,
    ensures
        app.ticked(snap, now, processes).inspected_hint == app.inspected_hint,
        !app.tuning.editing ==> ({
            let next = app.pressed(press, now).0;
            &&& next.inspected_hint is Some ==> next.inspected_hint == app.inspected_hint
            &&& next.view_scroll == app.view_scroll
            &&& next.device_scroll == app.device_scroll
        }),
{
}

/// Explaining without a hint explains nothing, and says so; help is closed
/// either way.
pub proof fn law_explaining_needs_a_hint(app: AppView, now: Instant)
    ensures
        app.explained(now).inspected_hint == (if app.proposal is Some {
            app.proposal
        } else {
            app.inspected_hint
        }),
        app.proposal is None ==> app.explained(now).status_msg == Some("No current hint"@),
        !app.explained(now).show_help,
{
}

/// A mute is of one filesystem: the hint is heard in every other as before.
pub proof fn law_mutes_are_of_one_filesystem(
    app: AppView,
    other: BcachefsFsView,
    id: Seq<char>,
    now: Instant,
    later: Instant,
)
    requires
        other.uuid != app.fs.uuid,
    ensures
        app.muted_for_now(now).seen_on(other).dismissed(id, later) == app.seen_on(other).dismissed(
            id,
            later,
        ),
        app.muted_for_good(now).seen_on(other).dismissed(id, later) == app.seen_on(other).dismissed(
            id,
            later,
        ),
{
    let before = app.seen_on(other);
    let for_now = app.muted_for_now(now).seen_on(other);
    let for_good = app.muted_for_good(now).seen_on(other);
    if for_good.dismissed_permanent.len() > before.dismissed_permanent.len() {
        assert(for_good.dismissed_permanent.drop_last() =~= before.dismissed_permanent);
    }
    lemma_same_permanent(before.dismissed_permanent, for_good.dismissed_permanent, (other.uuid, id));
    if before.dismissed(id, later) && !before.dismissed_permanent.contains((other.uuid, id)) {
        let i = choose|i: int|
            0 <= i < before.dismissed_temp.len() && muted_by(
                #[trigger] before.dismissed_temp[i],
                other.uuid,
                id,
                later,
            );
        assert(muted_by(for_now.dismissed_temp[i], other.uuid, id, later));
        assert(muted_by(for_good.dismissed_temp[i], other.uuid, id, later));
    }
    if for_now.dismissed(id, later) && !for_now.dismissed_permanent.contains((other.uuid, id)) {
        let i = choose|i: int|
            0 <= i < for_now.dismissed_temp.len() && muted_by(
                #[trigger] for_now.dismissed_temp[i],
                other.uuid,
                id,
                later,
            );
        assert(muted_by(before.dismissed_temp[i], other.uuid, id, later));
    }
    if for_good.dismissed(id, later) && !for_good.dismissed_permanent.contains((other.uuid, id)) {
        let i = choose|i: int|
            0 <= i < for_good.dismissed_temp.len() && muted_by(
                #[trigger] for_good.dismissed_temp[i],
                other.uuid,
                id,
                later,
            );
        assert(muted_by(before.dismissed_temp[i], other.uuid, id, later));
    }
}

proof fn lemma_same_permanent(
    a: Seq<(Seq<char>, Seq<char>)>,
    b: Seq<(Seq<char>, Seq<char>)>,
    x: (Seq<char>, Seq<char>),
)
    requires
        b == a || (b.len() == a.len() + 1 && b.drop_last() == a && b.last().0 != x.0),
    ensures
        a.contains(x) == b.contains(x),
{
    if b != a {
        if a.contains(x) {
            let i = choose|i: int| 0 <= i < a.len() && a[i] == x;
            assert(b.drop_last()[i] == b[i]);
            assert(b[i] == x);
        }
        if b.contains(x) {
            let i = choose|i: int| 0 <= i < b.len() && b[i] == x;
            assert(i < a.len());
            assert(b.drop_last()[i] == b[i]);
            assert(a[i] == x);
        }
    }
}

/// A hint that was muted for good stays so in its filesystem, at any time, until
/// the mutes are cleared; then every hint is heard.
pub proof fn law_mutes_last_until_cleared(app: AppView, now: Instant, later: Instant, id: Seq<char>)
    ensures
        app.proposal matches Some(p) ==> app.muted_for_good(now).dismissed(p.id, later),
        !app.unmuted(now).dismissed(id, later),
{
    if let Some(p) = app.proposal {
        let list = app.muted_for_good(now).dismissed_permanent;
        if !app.dismissed_permanent.contains((app.fs.uuid, p.id)) {
            assert(list[list.len() - 1] == (app.fs.uuid, p.id));
        }
    }
}

/// A mute for a while holds for two minutes, whatever else is muted. It ends then:
/// a hint that would have been heard without it is heard again.
pub proof fn law_a_mute_ends(app: AppView, now: Instant, later: Instant)
    requires
        app.proposal is Some,
    ensures
        since(later, now) < 120_000_000_000 ==> app.muted_for_now(now).dismissed(
            app.proposal->0.id,
            later,
        ),
        !app.dismissed(app.proposal->0.id, later) ==> (app.muted_for_now(now).dismissed(
            app.proposal->0.id,
            later,
        ) <==> since(later, now) < 120_000_000_000),
        app.dismissed(app.proposal->0.id, later) ==> app.muted_for_now(now).dismissed(
            app.proposal->0.id,
            later,
        ),
{
    let id = app.proposal->0.id;
    let uuid = app.fs.uuid;
    let next = app.muted_for_now(now);
    let before = app.dismissed_temp;
    let after = next.dismissed_temp;
    let n = before.len() as int;
    assert(after[n] == (uuid, id, now));
    if since(later, now) < MUTE_FOR {
        assert(muted_by(after[n], uuid, id, later));
    }
    if exists|i: int| 0 <= i < before.len() && muted_by(#[trigger] before[i], uuid, id, later) {
        let i = choose|i: int|
            0 <= i < before.len() && muted_by(#[trigger] before[i], uuid, id, later);
        assert(after[i] == before[i]);
    }
    if exists|i: int|
        0 <= i < n && muted_by(#[trigger] after[i], uuid, id, later) {
        let i = choose|i: int| 0 <= i < n && muted_by(#[trigger] after[i], uuid, id, later);
        assert(after[i] == before[i]);
    }
}

/// Nothing measured on one filesystem is shown on the next.
pub proof fn law_switching_starts_anew(
    app: AppView,
    snap: FsSnapshotView,
    processes: Seq<ProcessIoView>,
    now: Instant,
)
    requires
        app.all_fs.len() > 1,
    ensures
        ({
            let next = app.switched(snap, processes, now);
            &&& next.current == snap
            &&& next.previous is None
            &&& next.rates is None
            &&& next.history.series.len() == 0
            &&& next.stall_events.len() == 0
            &&& next.diagnostics.findings.len() == 0
            &&& next.proposal is None
            &&& next.inspected_hint is None
            &&& next.target_reports == reports(snap)
            &&& next.dismissed_permanent == app.dismissed_permanent
        }),
{
}

/// Switches move through the filesystems in turn, and round again.
pub proof fn law_switching_goes_round(app: AppView, snaps: Seq<FsSnapshotView>, now: Instant, n: nat)
    requires
        app.valid(),
        app.all_fs.len() > 1,
        snaps.len() == n,
    ensures
        all_switched(app, snaps, now).fs_index == (app.fs_index + n) % (app.all_fs.len() as int),
        all_switched(app, snaps, now).all_fs == app.all_fs,
    decreases n,
{
    let len = app.all_fs.len() as int;
    if n == 0 {
        vstd::arithmetic::div_mod::lemma_small_mod(app.fs_index as nat, len as nat);
    } else {
        law_switching_goes_round(app, snaps.drop_last(), now, (n - 1) as nat);
        let before = all_switched(app, snaps.drop_last(), now);
        let i = app.fs_index as int;
        assert(((i + (n - 1)) % len + 1) % len == (i + n) % len) by {
            vstd::arithmetic::div_mod::lemma_add_mod_noop_right(1, i + (n - 1), len);
        }
        assert(0 <= (i + n) % len < len) by (nonlinear_arith)
            requires
                len > 1,
        ;
    }
}

/// After a run of switches.
pub open spec fn all_switched(app: AppView, snaps: Seq<FsSnapshotView>, now: Instant) -> AppView
    decreases snaps.len(),
{
    if snaps.len() == 0 {
        app
    } else {
        all_switched(app, snaps.drop_last(), now).switched(snaps.last(), Seq::empty(), now)
    }
}

} // verus!
