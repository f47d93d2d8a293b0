//! What the keys do to what is shown, and how long messages and hints stay.

use crate::advisor::{hint_of, ProposalView};
use crate::app::{hint_text, muted_by, AppView, Focus, HintStatus};
use crate::diagnostics::Status;
use crate::keys::{ActionView, Detail, Key, KeyPress};
use crate::strmap::find;
use crate::sysfs::Instant;
use crate::text::trimmed;
use vstd::prelude::*;

verus! {

/// A key without control.
pub open spec fn key(k: Key) -> KeyPress {
    KeyPress { key: k, control: false }
}

/// Whether keys are commands: nothing is edited and no hint is explained.
pub open spec fn takes_commands(app: AppView) -> bool {
    !app.tuning.editing && app.inspected_hint is None
}

/// The view that a key stands for, of the five that take the place of the devices.
pub open spec fn views_of(app: AppView) -> Seq<bool> {
    seq![
        app.show_counters,
        app.show_blocked,
        app.show_processes,
        app.show_targets,
        app.show_advisor,
    ]
}

pub open spec fn view_keys() -> Seq<char> {
    seq!['c', 't', 'p', 'v', 'a']
}

proof fn lemma_toggled(app: AppView, d: Detail)
    ensures
        ({
            let before = views_of(app);
            let after = views_of(app.detail_toggled(d));
            let i = place_of(d);
            &&& after.len() == 5 && before.len() == 5
            &&& after[i] == !before[i]
            &&& forall|j: int|
                0 <= j < 5 && i != j ==> #[trigger] after[j] == (before[i] && before[j])
        }),
{
    let before = views_of(app);
    let after = views_of(app.detail_toggled(d));
    let i = place_of(d);
    assert(before[0] == app.show_counters && before[1] == app.show_blocked);
    assert(before[2] == app.show_processes && before[3] == app.show_targets);
    assert(before[4] == app.show_advisor);
    match d {
        Detail::Counters => {},
        Detail::Blocked => {},
        Detail::Processes => {},
        Detail::Targets => {},
        Detail::Advisor => {},
    }
}

spec fn place_of(d: Detail) -> int {
    match d {
        Detail::Counters => 0,
        Detail::Blocked => 1,
        Detail::Processes => 2,
        Detail::Targets => 3,
        Detail::Advisor => 4,
    }
}

proof fn lemma_view_key(app: AppView, now: Instant, d: Detail)
    requires
        takes_commands(app),
    ensures
        app.pressed(key(Key::Char(view_keys()[place_of(d)])), now).0 == app.detail_toggled(d),
{
    match d {
        Detail::Counters => {},
        Detail::Blocked => {},
        Detail::Processes => {},
        Detail::Targets => {},
        Detail::Advisor => {},
    }
}

/// Every view has its key, which shows it alone or hides it.
pub proof fn law_views_have_their_keys(app: AppView, now: Instant, i: int, j: int)
    requires
        takes_commands(app),
        0 <= i < 5,
        0 <= j < 5,
    ensures
        ({
            let before = views_of(app);
            let after = views_of(app.pressed(key(Key::Char(view_keys()[i])), now).0);
            &&& after[i] == !before[i]
            &&& i != j && !before[i] ==> !after[j]
            &&& i != j && before[i] ==> after[j] == before[j]
        }),
{
    let d = if i == 0 {
        Detail::Counters
    } else if i == 1 {
        Detail::Blocked
    } else if i == 2 {
        Detail::Processes
    } else if i == 3 {
        Detail::Targets
    } else {
        Detail::Advisor
    };
    assert(place_of(d) == i);
    lemma_view_key(app, now, d);
    lemma_toggled(app, d);
}

/// Processes are sampled when they come into view.
pub proof fn law_processes_are_sampled_when_shown(app: AppView, now: Instant)
    requires
        takes_commands(app),
    ensures
        app.pressed(key(Key::Char('p')), now).1 == if app.show_processes {
            ActionView::Nothing
        } else {
            ActionView::SampleProcesses
        },
{
}

/// Help, the options and the sorting go on and off by turns, and a closed options
/// panel has neither the focus nor an edit.
pub proof fn law_switches_go_on_and_off(app: AppView, now: Instant)
    requires
        takes_commands(app),
    ensures
        app.pressed(key(Key::Char('?')), now).0.show_help == !app.show_help,
        app.pressed(key(Key::Char('s')), now).0.sort_devices_by_pressure
            == !app.sort_devices_by_pressure,
        app.pressed(key(Key::Char('s')), now).0.device_scroll == 0,
        app.pressed(key(Key::Char('o')), now).0.show_options == !app.show_options,
        app.show_options ==> ({
            let after = app.pressed(key(Key::Char('o')), now).0;
            after.focus == Focus::Metrics && !after.tuning.editing && after.tuning.edit_buf.len()
                == 0
        }),
        app.pressed(key(Key::Tab), now).0.focus == if app.show_options && app.focus
            == Focus::Metrics {
            Focus::Tuning
        } else {
            Focus::Metrics
        },
        app.pressed(key(Key::Char('q')), now).0.should_quit,
{
}

/// Down goes one on and up goes one back, within what there is: in the options, in
/// a view, or among the devices.
pub proof fn law_up_and_down_go_by_one(app: AppView, now: Instant)
    requires
        takes_commands(app),
    ensures
        ({
            let down = app.pressed(key(Key::Char('j')), now).0;
            let up = app.pressed(key(Key::Char('k')), now).0;
            let viewed = app.show_counters || app.show_blocked || app.show_processes
                || app.show_targets || app.show_advisor;
            let n = app.tuning.option_names.len();
            &&& app.pressed(key(Key::Down), now).0 == down && app.pressed(key(Key::Up), now).0 == up
            &&& app.focus == Focus::Tuning ==> {
                &&& app.tuning.selected + 1 < n <= usize::MAX ==> down.tuning.selected
                    == app.tuning.selected + 1
                &&& app.tuning.selected + 1 >= n ==> down.tuning.selected == app.tuning.selected
                &&& app.tuning.selected > 0 ==> up.tuning.selected == app.tuning.selected - 1
                &&& app.tuning.selected == 0 ==> up.tuning.selected == 0
                &&& down.view_scroll == app.view_scroll && down.device_scroll == app.device_scroll
            }
            &&& app.focus != Focus::Tuning && viewed ==> {
                &&& app.view_scroll < usize::MAX ==> down.view_scroll == app.view_scroll + 1
                &&& app.view_scroll > 0 ==> up.view_scroll == app.view_scroll - 1
                &&& app.view_scroll == 0 ==> up.view_scroll == 0
                &&& down.device_scroll == app.device_scroll
            }
            &&& app.focus != Focus::Tuning && !viewed && app.rates is Some
                && app.rates->0.devices.len() <= usize::MAX ==> {
                let rows = app.rates->0.devices.len();
                &&& app.device_scroll + 1 < rows ==> down.device_scroll == app.device_scroll + 1
                &&& app.device_scroll + 1 == rows ==> down.device_scroll == app.device_scroll
                &&& app.device_scroll > 0 ==> up.device_scroll == app.device_scroll - 1
                &&& app.device_scroll == 0 ==> up.device_scroll == 0
                &&& down.view_scroll == app.view_scroll
            }
        }),
{
}

/// The option that a key asks to be switched.
pub proof fn law_options_are_switched_over(app: AppView, now: Instant, on: Seq<char>)
    requires
        takes_commands(app),
    ensures
        find(app.current.options, "reconcile_enabled"@) == Some(on) ==> app.pressed(
            key(Key::Char('r')),
            now,
        ).1 == ActionView::Toggle(
            "reconcile_enabled"@,
            if trimmed(on) == "1"@ {
                "0"@
            } else {
                "1"@
            },
        ),
        find(app.current.options, "copygc_enabled"@) == Some(on) ==> app.pressed(
            key(Key::Char('g')),
            now,
        ).1 == ActionView::Toggle(
            "copygc_enabled"@,
            if trimmed(on) == "1"@ {
                "0"@
            } else {
                "1"@
            },
        ),
        app.pressed(key(Key::Char('r')), now).0 == app,
        app.pressed(key(Key::Char('g')), now).0 == app,
{
}

/// Another filesystem is asked for exactly where there is one.
pub proof fn law_switching_needs_another(app: AppView, now: Instant)
    requires
        takes_commands(app),
    ensures
        app.pressed(key(Key::Char('f')), now).1 == ActionView::SwitchFs <==> app.all_fs.len() > 1,
{
}

// ------------------------------------------------------------------------ edits

/// An edit starts with the value that the option has; what is typed is put at its
/// end, and what was typed last can be taken back.
pub proof fn law_an_edit_starts_with_the_value(
    app: AppView,
    now: Instant,
    value: Seq<char>,
    c: char,
)
    requires
        takes_commands(app),
        app.show_options,
        app.focus == Focus::Tuning,
        app.tuning.selected < app.tuning.option_names.len(),
        find(app.current.options, app.tuning.option_names[app.tuning.selected as int]) == Some(value),
    ensures
        ({
            let open = app.pressed(key(Key::Enter), now).0;
            let typed = open.pressed(key(Key::Char(c)), now).0;
            let erased = typed.pressed(key(Key::Backspace), now).0;
            &&& open.tuning.editing && open.tuning.edit_buf == value
            &&& typed.tuning.editing && typed.tuning.edit_buf == value.push(c)
            &&& erased.tuning.edit_buf == value && erased.tuning.editing
            &&& open.pressed(key(Key::Esc), now).0.tuning.editing == false
            &&& open.pressed(key(Key::Esc), now).0.tuning.edit_buf.len() == 0
            &&& typed.pressed(key(Key::Enter), now).1 == ActionView::Commit(
                app.tuning.option_names[app.tuning.selected as int],
                trimmed(value.push(c)),
            )
        }),
{
    assert(value.push(c).drop_last() =~= value);
}

/// A written edit is closed; one that was refused is closed too and keeps its text.
pub proof fn law_a_written_edit_is_closed(app: AppView, now: Instant, why: Seq<char>)
    requires
        app.tuning.selected < app.tuning.option_names.len(),
    ensures
        ({
            let name = app.tuning.option_names[app.tuning.selected as int];
            let done = app.edit_finished(Ok(()), now);
            let refused = app.edit_finished(Err(why), now);
            &&& !done.tuning.editing && done.tuning.edit_buf.len() == 0
            &&& done.status_msg == Some("Set "@ + name + " = "@ + trimmed(app.tuning.edit_buf))
            &&& !refused.tuning.editing && refused.tuning.edit_buf == app.tuning.edit_buf
            &&& refused.status_msg == Some("Error: "@ + why)
        }),
{
}

// ------------------------------------------------------------------------ hints

/// An explained hint is scrolled by one line or by ten, back to the top, and closed.
pub proof fn law_an_explained_hint_is_scrolled(app: AppView, now: Instant)
    requires
        !app.tuning.editing,
        app.inspected_hint is Some,
    ensures
        app.hint_scroll < usize::MAX - 10 ==> {
            &&& app.pressed(key(Key::Down), now).0.hint_scroll == app.hint_scroll + 1
            &&& app.pressed(key(Key::Char('j')), now).0.hint_scroll == app.hint_scroll + 1
            &&& app.pressed(key(Key::PageDown), now).0.hint_scroll == app.hint_scroll + 10
        },
        app.hint_scroll >= 10 ==> {
            &&& app.pressed(key(Key::Up), now).0.hint_scroll == app.hint_scroll - 1
            &&& app.pressed(key(Key::Char('k')), now).0.hint_scroll == app.hint_scroll - 1
            &&& app.pressed(key(Key::PageUp), now).0.hint_scroll == app.hint_scroll - 10
        },
        app.hint_scroll < 10 ==> app.pressed(key(Key::PageUp), now).0.hint_scroll == 0,
        app.pressed(key(Key::Home), now).0.hint_scroll == 0,
        app.pressed(key(Key::Esc), now).0.inspected_hint is None,
        app.pressed(key(Key::Char('w')), now).0.inspected_hint is None,
        app.pressed(key(Key::Char('q')), now).0.should_quit,
{
}

/// A hint that is due is shown as it is now, since it was first shown without a
/// break; one that is not due goes after fifteen seconds.
pub proof fn law_a_hint_that_is_due_is_shown(app: AppView, now: Instant)
    ensures
        hint_of(app, now) matches Some(p) ==> {
            let next = app.hinted(now);
            &&& next.proposal == Some(p) && next.hint_status == HintStatus::Current
            &&& app.proposal is Some && app.proposal->0.id == p.id ==> next.proposal_first_shown
                == app.proposal_first_shown
            &&& app.proposal is None || app.proposal->0.id != p.id ==> next.proposal_first_shown
                == Some(now)
        },
        hint_of(app, now) is None && app.proposal_first_shown is Some && now
            >= app.proposal_first_shown->0 + 15_000_000_000 ==> app.hinted(now).proposal is None,
{
}

/// A message goes four seconds after it was said, where it was seen, and not before.
pub proof fn law_a_message_stays_four_seconds(
    app: AppView,
    message: Seq<char>,
    at: Instant,
    now: Instant,
)
    requires
        at <= now,
        app.status_msg == Some(message),
        app.status_msg_since == Some(at),
    ensures
        now - at < 4_000_000_000 || !app.status_msg_rendered ==> app.faded(now) == app,
        now - at >= 4_000_000_000 && app.status_msg_rendered ==> app.faded(now).status_msg is None,
{
}

/// A hint that is kept though it is not due says how its finding stands.
pub proof fn law_a_kept_hint_says_how_it_stands(app: AppView, now: Instant, p: ProposalView)
    requires
        hint_of(app, now) is None,
        app.proposal == Some(p),
        app.hinted(now).proposal is Some,
    ensures
        ({
            let f = find(app.diagnostics.findings, p.id);
            let s = app.hinted(now).hint_status;
            &&& f is None ==> s == HintStatus::LastObserved && hint_text(p, s) == "Last observed: "@
                + p.reason
            &&& f is Some && f->0.status == Status::Resolved ==> s == HintStatus::Resolved
                && hint_text(p, s) == "Resolved: "@ + p.reason
            &&& f is Some && f->0.status == Status::Stale ==> s == HintStatus::Stale && hint_text(
                p,
                s,
            ) == "Stale: "@ + p.reason
            &&& f is Some && f->0.status == Status::Active ==> hint_text(p, s) == p.reason
        }),
{
}

/// Muting a hint hides it and is confirmed.
pub proof fn law_muting_is_confirmed(app: AppView, now: Instant, p: ProposalView)
    requires
        takes_commands(app),
        app.proposal == Some(p),
    ensures
        ({
            let brief = app.pressed(key(Key::Char('n')), now).0;
            let good = app.pressed(key(Key::Char('!')), now).0;
            let clear = app.pressed(key(Key::Char('C')), now).0;
            &&& brief.proposal is None && brief.dismissed(p.id, now)
            &&& brief.status_msg == Some("Muted for 2 minutes"@)
            &&& good.proposal is None && good.dismissed(p.id, now)
            &&& brief.dismissed_permanent == app.dismissed_permanent
            &&& good.dismissed_temp == app.dismissed_temp
            &&& !clear.dismissed(p.id, now)
            &&& app.pressed(key(Key::Char('N')), now).0 == brief
        }),
{
    let brief = app.pressed(key(Key::Char('n')), now).0;
    let entry = (app.fs.uuid, p.id, now);
    assert(brief.dismissed_temp == app.dismissed_temp.push(entry));
    assert(brief.dismissed_temp[app.dismissed_temp.len() as int] == entry);
    assert(muted_by(entry, app.fs.uuid, p.id, now));
    let good = app.pressed(key(Key::Char('!')), now).0;
    if !app.dismissed_permanent.contains((app.fs.uuid, p.id)) {
        let all = app.dismissed_permanent.push((app.fs.uuid, p.id));
        assert(all[all.len() - 1] == (app.fs.uuid, p.id));
    }
}

/// A toggle that was written is said with its value; one that was refused with the
/// reason. Nothing else changes.
pub proof fn law_a_toggle_is_confirmed(
    app: AppView,
    name: Seq<char>,
    value: Seq<char>,
    why: Seq<char>,
    now: Instant,
)
    ensures
        ({
            let done = app.option_toggled(name, value, Ok(()), now);
            let refused = app.option_toggled(name, value, Err(why), now);
            &&& done.status_msg == Some(name + " = "@ + value)
            &&& refused.status_msg == Some("Failed: "@ + why)
            &&& done.current == app.current && done.tuning == app.tuning
            &&& refused.current == app.current && refused.tuning == app.tuning
            &&& done.status_msg_since == Some(now) && !done.status_msg_rendered
        }),
{
}

} // verus!
