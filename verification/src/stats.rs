//! Time statistics: their text form, their JSON form, and the blocked ones.

use crate::double::{product, quotient, whole, zero, Double};
use crate::json::{
    get_inner, get_own, inner_number, json_members, own_number, read_json, JsonMember,
    JsonMemberView,
};
use crate::numeral::{parse_double, parsed, truncate, truncated};
use crate::order::{arranged, precedes_text, sort, text_before, Rule};
use crate::parse::{lemma_next_line, number_in};
use crate::strmap::{find, StrMap};
use crate::sysfs::{TimeStatFull, TimeStatFullView};
use crate::text::{
    after_prefix, copy, count, has_prefix, is_empty, item, lemma_views_push, lines, lines_of,
    number, opt, parse_u64, same, starts_with, strip_prefix, trim, trimmed, views, words, words_of,
};
use vstd::prelude::*;

verus! {

// ------------------------------------------------------------------ durations

/// A duration in microseconds; one of an unknown unit is taken as it stands.
pub open spec fn microseconds(x: Double, unit: Seq<char>) -> Double {
    if unit == "ns"@ {
        quotient(x, whole(1000))
    } else if unit == "us"@ {
        x
    } else if unit == "ms"@ {
        product(x, whole(1000))
    } else if unit == "s"@ {
        product(x, whole(1_000_000))
    } else if unit == "m"@ {
        product(x, whole(60_000_000))
    } else if unit == "h"@ {
        product(x, whole(3_600_000_000))
    } else {
        x
    }
}

pub fn to_microseconds(val: Double, unit: &str) -> (r: Double)
    ensures
        r == microseconds(val, unit@),
{
    if same(unit, "ns") {
        val.over(Double::from_u64(1000))
    } else if same(unit, "us") {
        val
    } else if same(unit, "ms") {
        val.times(Double::from_u64(1000))
    } else if same(unit, "s") {
        val.times(Double::from_u64(1_000_000))
    } else if same(unit, "m") {
        val.times(Double::from_u64(60_000_000))
    } else if same(unit, "h") {
        val.times(Double::from_u64(3_600_000_000))
    } else {
        val
    }
}

/// The last value and unit of a line of means: the recent one.
pub open spec fn recent_of(f: Seq<Seq<char>>) -> Double {
    let x = match parsed(f[f.len() - 2]) {
        Some(x) => x,
        None => zero(),
    };
    microseconds(x, f[f.len() - 1])
}

fn recent_in(f: &Vec<String>) -> (r: Double)
    requires
        f@.len() >= 2,
    ensures
        r == recent_of(views(f@)),
{
    let n = count(f);
    let x = match parse_double(item(f, n - 2)) {
        Some(x) => x,
        None => Double::zero(),
    };
    to_microseconds(x, item(f, n - 1))
}

/// The recent mean from a place on: the first complete line of means between
/// the two headings.
pub open spec fn mean_scan(ls: Seq<Seq<char>>, in_duration: bool) -> Double
    decreases ls.len(),
{
    if ls.len() == 0 {
        zero()
    } else {
        let line = trimmed(ls[0]);
        let f = words_of(line);
        if has_prefix(line, "duration of events"@) {
            mean_scan(ls.skip(1), true)
        } else if has_prefix(line, "time between events"@) {
            zero()
        } else if in_duration && has_prefix(line, "mean:"@) && f.len() >= 4 {
            recent_of(f)
        } else {
            mean_scan(ls.skip(1), in_duration)
        }
    }
}

pub fn parse_recent_mean_us(content: &str) -> (r: Double)
    ensures
        r == mean_scan(lines_of(content@), false),
{
    let ls = lines(content);
    let ghost all = views(ls@);
    let mut in_duration = false;
    let mut i: usize = 0;
    proof {
        assert(all.skip(0) =~= all);
    }
    while i < count(&ls)
        invariant
            i <= all.len(),
            all == views(ls@),
            all == lines_of(content@),
            mean_scan(all, false) == mean_scan(all.skip(i as int), in_duration),
        decreases all.len() - i,
    {
        proof {
            assert(all.skip(i as int).skip(1) =~= all.skip(i + 1));
        }
        let line = trim(item(&ls, i));
        i = i + 1;
        if starts_with(line.as_str(), "duration of events") {
            in_duration = true;
        } else if starts_with(line.as_str(), "time between events") {
            return Double::zero();
        } else if in_duration && starts_with(line.as_str(), "mean:") {
            let f = words(line.as_str());
            if count(&f) >= 4 {
                return recent_in(&f);
            }
        }
    }
    Double::zero()
}

// --------------------------------------------------------------------- counts

/// The count that a line states.
pub open spec fn count_line(line: Seq<char>) -> Option<u64> {
    match after_prefix(trimmed(line), "count:"@) {
        Some(v) => number(trimmed(v)),
        None => None,
    }
}

pub open spec fn first_count(ls: Seq<Seq<char>>) -> Option<u64>
    decreases ls.len(),
{
    if ls.len() == 0 {
        None
    } else {
        match count_line(ls[0]) {
            Some(n) => Some(n),
            None => first_count(ls.skip(1)),
        }
    }
}

fn find_count(ls: &Vec<String>) -> (r: Option<u64>)
    ensures
        r == first_count(views(ls@)),
{
    let ghost all = views(ls@);
    let mut i: usize = 0;
    proof {
        assert(all.skip(0) =~= all);
    }
    while i < count(ls)
        invariant
            i <= all.len(),
            all == views(ls@),
            first_count(all) == first_count(all.skip(i as int)),
        decreases all.len() - i,
    {
        proof {
            assert(all.skip(i as int).skip(1) =~= all.skip(i + 1));
        }
        let line = trim(item(ls, i));
        if let Some(v) = strip_prefix(line.as_str(), "count:") {
            if let Some(n) = parse_u64(trim(v.as_str()).as_str()) {
                return Some(n);
            }
        }
        i = i + 1;
    }
    None
}

/// The count of an operation: from JSON where that has one, else from the text.
pub open spec fn count_from(members: Option<Seq<JsonMemberView>>, text: Seq<char>) -> u64 {
    let json = match members {
        Some(m) => own_number(m, "count"@),
        None => None,
    };
    match json {
        Some(n) => n,
        None => match first_count(lines_of(text)) {
            Some(n) => n,
            None => 0,
        },
    }
}

pub open spec fn json_of(text: Option<Seq<char>>) -> Option<Seq<JsonMemberView>> {
    match text {
        Some(t) => json_members(t),
        None => None,
    }
}

pub open spec fn opt_json(r: Option<Vec<JsonMember>>) -> Option<Seq<JsonMemberView>> {
    match r {
        Some(v) => Some(views(v@)),
        None => None,
    }
}

/// Reads a JSON text where there is one.
pub fn read_opt_json(text: &Option<String>) -> (r: Option<Vec<JsonMember>>)
    ensures
        opt_json(r) == json_of(opt(*text)),
{
    match text {
        Some(t) => {
            let r = read_json(t.as_str());
            assert(opt_json(r) == crate::json::opt_members(r));
            r
        },
        None => None,
    }
}

pub fn choose_count(members: &Option<Vec<JsonMember>>, text: &str) -> (r: u64)
    ensures
        r == count_from(opt_json(*members), text@),
{
    if let Some(m) = members {
        if let Some(n) = get_own(m, "count") {
            return n;
        }
    }
    match find_count(&lines(text)) {
        Some(n) => n,
        None => 0,
    }
}

/// The count of an operation from the contents of its two files.
pub fn time_stat_count(json: &Option<String>, text: &str) -> (r: u64)
    ensures
        r == count_from(json_of(opt(*json)), text@),
{
    choose_count(&read_opt_json(json), text)
}

// ----------------------------------------------------------------- text form

/// How many nanoseconds a unit has.
pub open spec fn unit_ns(unit: Seq<char>) -> Option<nat> {
    if unit == "ns"@ {
        Some(1)
    } else if unit == "us"@ {
        Some(1_000)
    } else if unit == "ms"@ {
        Some(1_000_000)
    } else if unit == "s"@ {
        Some(1_000_000_000)
    } else if unit == "m"@ {
        Some(60_000_000_000)
    } else if unit == "h"@ {
        Some(3_600_000_000_000)
    } else {
        None
    }
}

/// A duration in nanoseconds; none where it is no number, below zero, beyond
/// `u64` or of an unknown unit.
pub open spec fn duration_ns(value: Seq<char>, unit: Seq<char>) -> Option<u64> {
    match (parsed(value), unit_ns(unit)) {
        (Some(x), Some(scale)) => {
            let n = product(x, whole(scale));
            if n.finite() && zero().at_most(n) && n.less(whole(u64::MAX as nat)) {
                Some(truncated(n))
            } else {
                None
            }
        },
        _ => None,
    }
}

fn scale_of(unit: &str) -> (r: Option<u64>)
    ensures
        match unit_ns(unit@) {
            Some(n) => r is Some && r->0 == n,
            None => r is None,
        },
{
    if same(unit, "ns") {
        Some(1)
    } else if same(unit, "us") {
        Some(1_000)
    } else if same(unit, "ms") {
        Some(1_000_000)
    } else if same(unit, "s") {
        Some(1_000_000_000)
    } else if same(unit, "m") {
        Some(60_000_000_000)
    } else if same(unit, "h") {
        Some(3_600_000_000_000)
    } else {
        None
    }
}

fn parse_duration_ns(value: &str, unit: &str) -> (r: Option<u64>)
    ensures
        r == duration_ns(value@, unit@),
{
    let x = match parse_double(value) {
        Some(x) => x,
        None => {
            return None;
        },
    };
    match scale_of(unit) {
        Some(scale) => {
            let n = x.times(Double::from_u64(scale));
            if n.is_finite() && Double::zero().is_at_most(n) && n.is_less(
                Double::from_u64(u64::MAX),
            ) {
                Some(truncate(n))
            } else {
                None
            }
        },
        None => None,
    }
}

pub open spec fn or_zero(n: Option<u64>) -> u64 {
    match n {
        Some(v) => v,
        None => 0,
    }
}

/// How far the text of an operation has been read.
#[derive(Clone, Copy, PartialEq, Eq, Structural)]
pub enum StatAt {
    Before,
    Duration,
    Done,
}

/// What the words of a line between the headings add.
pub open spec fn stat_words(stat: TimeStatFullView, f: Seq<Seq<char>>) -> TimeStatFullView {
    if f.len() < 3 {
        stat
    } else if f[0] == "max:"@ {
        TimeStatFullView { dur_max_ns: or_zero(duration_ns(f[1], f[2])), ..stat }
    } else if f[0] == "mean:"@ {
        let mean = TimeStatFullView { dur_mean_ns: or_zero(duration_ns(f[1], f[2])), ..stat };
        if f.len() == 5 {
            match duration_ns(f[3], f[4]) {
                Some(n) => TimeStatFullView { dur_recent_ns: n, recent_valid: true, ..mean },
                None => mean,
            }
        } else {
            mean
        }
    } else {
        stat
    }
}

pub open spec fn stat_line(stat: TimeStatFullView, at: StatAt, raw: Seq<char>) -> (
    TimeStatFullView,
    StatAt,
) {
    let line = trimmed(raw);
    if at == StatAt::Done || line == "time between events"@ {
        (stat, StatAt::Done)
    } else if line == "duration of events"@ {
        (stat_words(stat, words_of(line)), StatAt::Duration)
    } else if at == StatAt::Duration {
        (stat_words(stat, words_of(line)), at)
    } else {
        (stat, at)
    }
}

pub open spec fn stat_scan(start: TimeStatFullView, ls: Seq<Seq<char>>) -> (TimeStatFullView, StatAt)
    decreases ls.len(),
{
    if ls.len() == 0 {
        (start, StatAt::Before)
    } else {
        let (stat, at) = stat_scan(start, ls.drop_last());
        stat_line(stat, at, ls.last())
    }
}

/// An operation from its text; none where the text states no count.
pub open spec fn stat_text(name: Seq<char>, text: Seq<char>) -> Option<TimeStatFullView> {
    match first_count(lines_of(text)) {
        Some(count) => Some(
            stat_scan(
                TimeStatFullView { name, count, ..TimeStatFullView::blank() },
                lines_of(text),
            ).0,
        ),
        None => None,
    }
}

fn stat_step(stat: &mut TimeStatFull, at: StatAt, raw: &str) -> (r: StatAt)
    ensures
        (final(stat)@, r) == stat_line(old(stat)@, at, raw@),
{
    let line = trim(raw);
    if at == StatAt::Done || same(line.as_str(), "time between events") {
        return StatAt::Done;
    }
    let next = if same(line.as_str(), "duration of events") {
        StatAt::Duration
    } else {
        at
    };
    if next != StatAt::Duration {
        return next;
    }
    let f = words(line.as_str());
    let n = count(&f);
    if n < 3 {
        return next;
    }
    if same(item(&f, 0), "max:") {
        stat.dur_max_ns = match parse_duration_ns(item(&f, 1), item(&f, 2)) {
            Some(v) => v,
            None => 0,
        };
    } else if same(item(&f, 0), "mean:") {
        stat.dur_mean_ns = match parse_duration_ns(item(&f, 1), item(&f, 2)) {
            Some(v) => v,
            None => 0,
        };
        if n == 5 {
            if let Some(v) = parse_duration_ns(item(&f, 3), item(&f, 4)) {
                stat.dur_recent_ns = v;
                stat.recent_valid = true;
            }
        }
    }
    next
}

pub fn parse_time_stat_text(name: &str, content: &str) -> (r: Option<TimeStatFull>)
    ensures
        opt(r) == stat_text(name@, content@),
{
    let ls = lines(content);
    let ghost all = views(ls@);
    let n: u64 = match find_count(&ls) {
        Some(n) => n,
        None => {
            return None;
        },
    };
    let mut stat = TimeStatFull {
        name: copy(name),
        count: n,
        dur_max_ns: 0,
        dur_mean_ns: 0,
        dur_recent_ns: 0,
        recent_valid: false,
    };
    let ghost start = stat@;
    assert(start == (TimeStatFullView { name: name@, count: n, ..TimeStatFullView::blank() }));
    let mut at = StatAt::Before;
    let mut i: usize = 0;
    proof {
        assert(all.take(0) =~= Seq::<Seq<char>>::empty());
    }
    while i < count(&ls)
        invariant
            i <= all.len(),
            all == views(ls@),
            (stat@, at) == stat_scan(start, all.take(i as int)),
        decreases all.len() - i,
    {
        proof {
            lemma_next_line(all, i as int);
        }
        at = stat_step(&mut stat, at, item(&ls, i));
        i = i + 1;
    }
    proof {
        assert(all.take(i as int) =~= all);
    }
    Some(stat)
}

// ----------------------------------------------------------------- JSON form

/// An operation from the members of its JSON object; none without a count.
pub open spec fn stat_json(name: Seq<char>, members: Option<Seq<JsonMemberView>>) -> Option<
    TimeStatFullView,
> {
    match members {
        Some(m) => match own_number(m, "count"@) {
            Some(count) => Some(
                TimeStatFullView {
                    name,
                    count,
                    dur_max_ns: or_zero(inner_number(m, "duration_ns"@, "max"@)),
                    dur_mean_ns: or_zero(inner_number(m, "duration_ns"@, "mean"@)),
                    dur_recent_ns: or_zero(inner_number(m, "duration_ewma_ns"@, "mean"@)),
                    recent_valid: inner_number(m, "duration_ewma_ns"@, "mean"@) is Some,
                },
            ),
            None => None,
        },
        None => None,
    }
}

pub fn time_stat_from(name: &str, members: &Option<Vec<JsonMember>>) -> (r: Option<TimeStatFull>)
    ensures
        opt(r) == stat_json(name@, opt_json(*members)),
{
    let m = match members {
        Some(m) => m,
        None => {
            return None;
        },
    };
    let n: u64 = match get_own(m, "count") {
        Some(n) => n,
        None => {
            return None;
        },
    };
    let recent = get_inner(m, "duration_ewma_ns", "mean");
    Some(
        TimeStatFull {
            name: copy(name),
            count: n,
            dur_max_ns: match get_inner(m, "duration_ns", "max") {
                Some(v) => v,
                None => 0,
            },
            dur_mean_ns: match get_inner(m, "duration_ns", "mean") {
                Some(v) => v,
                None => 0,
            },
            dur_recent_ns: match recent {
                Some(v) => v,
                None => 0,
            },
            recent_valid: recent.is_some(),
        },
    )
}

/// The operations that the JSON files of a directory describe.
pub open spec fn stats_of_json(files: Seq<(Seq<char>, Seq<char>)>) -> Seq<TimeStatFullView>
    decreases files.len(),
{
    if files.len() == 0 {
        Seq::empty()
    } else {
        let rest = stats_of_json(files.drop_last());
        match stat_json(files.last().0, json_members(files.last().1)) {
            Some(stat) => rest.push(stat),
            None => rest,
        }
    }
}

/// The operations of the journal, which older kernels describe in text alone.
pub open spec fn journal_operations() -> Seq<Seq<char>> {
    seq![
        "journal_flush_write"@,
        "journal_noflush_write"@,
        "journal_flush_seq"@,
        "journal_pin_flush_btree"@,
        "journal_pin_flush_key_cache"@,
    ]
}

pub fn journal_operation_names() -> (r: Vec<String>)
    ensures
        views(r@) == journal_operations(),
{
    let mut r: Vec<String> = Vec::new();
    r.push(copy("journal_flush_write"));
    r.push(copy("journal_noflush_write"));
    r.push(copy("journal_flush_seq"));
    r.push(copy("journal_pin_flush_btree"));
    r.push(copy("journal_pin_flush_key_cache"));
    assert(views(r@) =~= journal_operations());
    r
}

pub open spec fn names_stat(stats: Seq<TimeStatFullView>, name: Seq<char>) -> bool {
    exists|i: int| 0 <= i < stats.len() && (#[trigger] stats[i]).name == name
}

/// The content of a file, trimmed; none where nothing is left.
pub open spec fn text_of(content: Option<Seq<char>>) -> Option<Seq<char>> {
    match content {
        Some(t) => if trimmed(t).len() == 0 {
            None
        } else {
            Some(trimmed(t))
        },
        None => None,
    }
}

pub open spec fn add_fallback(
    stats: Seq<TimeStatFullView>,
    name: Seq<char>,
    texts: Seq<(Seq<char>, Seq<char>)>,
) -> Seq<TimeStatFullView> {
    if names_stat(stats, name) {
        stats
    } else {
        match text_of(find(texts, name)) {
            Some(text) => match stat_text(name, text) {
                Some(stat) => stats.push(stat),
                None => stats,
            },
            None => stats,
        }
    }
}

pub open spec fn add_fallbacks(
    stats: Seq<TimeStatFullView>,
    names: Seq<Seq<char>>,
    texts: Seq<(Seq<char>, Seq<char>)>,
) -> Seq<TimeStatFullView>
    decreases names.len(),
{
    if names.len() == 0 {
        stats
    } else {
        add_fallback(add_fallbacks(stats, names.drop_last(), texts), names.last(), texts)
    }
}

pub struct ByName;

impl Rule<TimeStatFull> for ByName {
    open spec fn before(a: TimeStatFullView, b: TimeStatFullView) -> bool {
        text_before(a.name, b.name)
    }

    fn precedes(a: &TimeStatFull, b: &TimeStatFull) -> (r: bool) {
        precedes_text(a.name.as_str(), b.name.as_str())
    }
}

/// Every operation by name: from JSON, and the journal's from text where JSON
/// does not have them.
pub open spec fn all_stats(
    json: Seq<(Seq<char>, Seq<char>)>,
    texts: Seq<(Seq<char>, Seq<char>)>,
) -> Seq<TimeStatFullView> {
    arranged::<TimeStatFull, ByName>(
        add_fallbacks(stats_of_json(json), journal_operations(), texts),
    )
}

pub fn file_text(content: Option<&String>) -> (r: Option<String>)
    ensures
        opt(r) == text_of(
            match content {
                Some(t) => Some(t@),
                None => None,
            },
        ),
{
    match content {
        Some(t) => {
            let t = trim(t.as_str());
            if is_empty(t.as_str()) {
                None
            } else {
                Some(t)
            }
        },
        None => None,
    }
}

fn has_stat(stats: &Vec<TimeStatFull>, name: &str) -> (r: bool)
    ensures
        r == names_stat(views(stats@), name@),
{
    let mut i: usize = 0;
    while i < stats.len()
        invariant
            i <= stats@.len(),
            forall|k: int| 0 <= k < i ==> (#[trigger] views(stats@)[k]).name != name@,
        decreases stats@.len() - i,
    {
        if same(stats[i].name.as_str(), name) {
            assert(views(stats@)[i as int].name == name@);
            return true;
        }
        i = i + 1;
    }
    false
}

pub fn read_all_time_stats(json: &StrMap<String>, texts: &StrMap<String>) -> (r: Vec<TimeStatFull>)
    ensures
        views(r@) == all_stats(json@, texts@),
{
    broadcast use lemma_views_push;

    let mut stats: Vec<TimeStatFull> = Vec::new();
    let ghost files = json@;
    let mut i: usize = 0;
    proof {
        assert(files.take(0) =~= Seq::<(Seq<char>, Seq<char>)>::empty());
        assert(views(stats@) =~= Seq::<TimeStatFullView>::empty());
    }
    while i < json.len()
        invariant
            i <= files.len(),
            files == json@,
            views(stats@) == stats_of_json(files.take(i as int)),
        decreases files.len() - i,
    {
        proof {
            assert(files.take(i + 1).drop_last() =~= files.take(i as int));
            assert(files.take(i + 1).last() == files[i as int]);
        }
        let members = read_json(json.value_at(i).as_str());
        proof {
            assert(opt_json(members) == crate::json::opt_members(members));
        }
        if let Some(stat) = time_stat_from(json.key_at(i), &members) {
            stats.push(stat);
        }
        i = i + 1;
    }
    proof {
        assert(files.take(i as int) =~= files);
    }
    let ghost start = views(stats@);
    let names = journal_operation_names();
    let ghost all = views(names@);
    let mut k: usize = 0;
    proof {
        assert(all.take(0) =~= Seq::<Seq<char>>::empty());
    }
    while k < count(&names)
        invariant
            k <= all.len(),
            all == views(names@),
            views(stats@) == add_fallbacks(start, all.take(k as int), texts@),
        decreases all.len() - k,
    {
        proof {
            lemma_next_line(all, k as int);
        }
        let name = item(&names, k);
        if !has_stat(&stats, name) {
            if let Some(text) = file_text(texts.get(name)) {
                if let Some(stat) = parse_time_stat_text(name, text.as_str()) {
                    stats.push(stat);
                }
            }
        }
        k = k + 1;
    }
    proof {
        assert(all.take(k as int) =~= all);
    }
    sort::<TimeStatFull, ByName>(stats)
}

// ------------------------------------------------------------- blocked events

/// What the text of a blocked operation states so far: its count, its recent
/// mean, and whether the lines of durations follow.
pub open spec fn blocked_line(b: (Option<u64>, Double, bool), raw: Seq<char>) -> (
    Option<u64>,
    Double,
    bool,
) {
    let line = trimmed(raw);
    let f = words_of(line);
    let n = if has_prefix(line, "count:"@) {
        number_in(f, 1)
    } else {
        b.0
    };
    if has_prefix(line, "duration of events"@) {
        (n, b.1, true)
    } else if has_prefix(line, "time between events"@) {
        (n, b.1, false)
    } else if b.2 && has_prefix(line, "mean:"@) && f.len() >= 4 {
        (n, recent_of(f), b.2)
    } else {
        (n, b.1, b.2)
    }
}

pub open spec fn blocked_scan(ls: Seq<Seq<char>>) -> (Option<u64>, Double, bool)
    decreases ls.len(),
{
    if ls.len() == 0 {
        (None, zero(), false)
    } else {
        blocked_line(blocked_scan(ls.drop_last()), ls.last())
    }
}

fn blocked_step(b: (Option<u64>, Double, bool), raw: &str) -> (r: (Option<u64>, Double, bool))
    ensures
        r == blocked_line(b, raw@),
{
    let line = trim(raw);
    let f = words(line.as_str());
    let n = if starts_with(line.as_str(), "count:") {
        if count(&f) >= 2 {
            parse_u64(item(&f, 1))
        } else {
            None
        }
    } else {
        b.0
    };
    if starts_with(line.as_str(), "duration of events") {
        (n, b.1, true)
    } else if starts_with(line.as_str(), "time between events") {
        (n, b.1, false)
    } else if b.2 && starts_with(line.as_str(), "mean:") && count(&f) >= 4 {
        (n, recent_in(&f), b.2)
    } else {
        (n, b.1, b.2)
    }
}

fn parse_blocked(content: &str) -> (r: (Option<u64>, Double, bool))
    ensures
        r == blocked_scan(lines_of(content@)),
{
    let ls = lines(content);
    let ghost all = views(ls@);
    let mut b: (Option<u64>, Double, bool) = (None, Double::zero(), false);
    let mut i: usize = 0;
    proof {
        assert(all.take(0) =~= Seq::<Seq<char>>::empty());
    }
    while i < count(&ls)
        invariant
            i <= all.len(),
            all == views(ls@),
            b == blocked_scan(all.take(i as int)),
        decreases all.len() - i,
    {
        proof {
            lemma_next_line(all, i as int);
        }
        b = blocked_step(b, item(&ls, i));
        i = i + 1;
    }
    proof {
        assert(all.take(i as int) =~= all);
    }
    b
}

/// The blocked operations of a directory that state a count.
pub open spec fn blocked_of(files: Seq<(Seq<char>, Seq<char>)>) -> Seq<(Seq<char>, u64, Double)>
    decreases files.len(),
{
    if files.len() == 0 {
        Seq::empty()
    } else {
        let rest = blocked_of(files.drop_last());
        let b = blocked_scan(lines_of(files.last().1));
        match (after_prefix(files.last().0, "blocked_"@), b.0) {
            (Some(name), Some(n)) => rest.push((name, n, b.1)),
            _ => rest,
        }
    }
}

/// Active ones first, then by count from the highest down, then by name.
pub struct ByActivity;

impl Rule<(String, u64, Double)> for ByActivity {
    open spec fn before(a: (Seq<char>, u64, Double), b: (Seq<char>, u64, Double)) -> bool {
        a.1 > b.1 || (a.1 == b.1 && text_before(a.0, b.0))
    }

    fn precedes(a: &(String, u64, Double), b: &(String, u64, Double)) -> (r: bool) {
        a.1 > b.1 || (a.1 == b.1 && precedes_text(a.0.as_str(), b.0.as_str()))
    }
}

pub open spec fn blocked_stats(files: Seq<(Seq<char>, Seq<char>)>) -> Seq<(Seq<char>, u64, Double)> {
    arranged::<(String, u64, Double), ByActivity>(blocked_of(files))
}

pub fn read_blocked_stats(texts: &StrMap<String>) -> (r: Vec<(String, u64, Double)>)
    ensures
        views(r@) == blocked_stats(texts@),
{
    broadcast use lemma_views_push;

    let mut out: Vec<(String, u64, Double)> = Vec::new();
    let ghost files = texts@;
    let mut i: usize = 0;
    proof {
        assert(files.take(0) =~= Seq::<(Seq<char>, Seq<char>)>::empty());
        assert(views(out@) =~= Seq::<(Seq<char>, u64, Double)>::empty());
    }
    while i < texts.len()
        invariant
            i <= files.len(),
            files == texts@,
            views(out@) == blocked_of(files.take(i as int)),
        decreases files.len() - i,
    {
        proof {
            assert(files.take(i + 1).drop_last() =~= files.take(i as int));
            assert(files.take(i + 1).last() == files[i as int]);
        }
        if let Some(name) = strip_prefix(texts.key_at(i), "blocked_") {
            let b = parse_blocked(texts.value_at(i).as_str());
            if let Some(n) = b.0 {
                out.push((name, n, b.1));
            }
        }
        i = i + 1;
    }
    proof {
        assert(files.take(i as int) =~= files);
    }
    sort::<(String, u64, Double), ByActivity>(out)
}

} // verus!
