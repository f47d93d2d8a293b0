//! The journal's state, reconcile progress, space usage, mounts and processes.

use crate::double::{whole, zero, Double};
use crate::numeral::{parse_double, parsed};
use crate::parse::{human_bytes, lemma_next_line, parse_human_bytes};
use crate::strmap::{find, has_key, put, StrMap};
use crate::sysfs::{
    BcachefsFs, BcachefsFsView, JournalState, JournalStateView, ProcessIo, ProcessIoView,
};
use crate::targets::{ReconcileStatus, ReconcileStatusView, ReconcileWork, ReconcileWorkView};
use crate::text::{
    after_prefix, before_suffix, cat2, chomped, contains, copy, count, cut_first, has_part,
    has_prefix, head_len, is_empty, item, lemma_head_len, lemma_head_len_is, lemma_views_push,
    lines, lines_of, number, number32, opt, parse_u32, parse_u64, pieces, same, split, split_once,
    starts_with, strip_prefix, strip_suffix, trim, trim_start, trimmed, trimmed_start, views, white,
    words, words_of, Sep,
};
use vstd::prelude::*;

verus! {

// -------------------------------------------------------------------- journal

/// Dirty entries and all entries from a fraction that makes sense.
pub open spec fn fraction(s: Seq<char>) -> Option<(u64, u64)> {
    let p = pieces(trimmed(s), Sep::Is('/'));
    if p.len() != 2 {
        None
    } else {
        match (number(trimmed(p[0])), number(trimmed(p[1]))) {
            (Some(dirty), Some(all)) => if all > 0 && dirty <= all {
                Some((dirty, all))
            } else {
                None
            },
            _ => None,
        }
    }
}

fn parse_fraction(s: &str) -> (r: Option<(u64, u64)>)
    ensures
        r == fraction(s@),
{
    let p = split(trim(s).as_str(), Sep::Is('/'));
    if count(&p) != 2 {
        return None;
    }
    match (parse_u64(trim(item(&p, 0)).as_str()), parse_u64(trim(item(&p, 1)).as_str())) {
        (Some(dirty), Some(all)) => {
            if all > 0 && dirty <= all {
                Some((dirty, all))
            } else {
                None
            }
        },
        _ => None,
    }
}

/// The journal and its watermark after one line more. What a line does not
/// state well stays as it was or becomes unknown; it never becomes zero.
pub open spec fn journal_line(j: JournalStateView, watermark: Seq<char>, raw: Seq<char>) -> (
    JournalStateView,
    Seq<char>,
) {
    let line = trimmed(raw);
    match after_prefix(line, "dirty journal entries:"@) {
        Some(v) => match fraction(v) {
            Some(entries) => (JournalStateView { entries: Some(entries), ..j }, watermark),
            None => (j, watermark),
        },
        None => match after_prefix(line, "watermark:"@) {
            Some(v) => (j, trimmed(v)),
            None => match after_prefix(line, "seq:"@) {
                Some(v) => (JournalStateView { seq: number(trimmed(v)), ..j }, watermark),
                None => match after_prefix(line, "seq_ondisk:"@) {
                    Some(v) => (JournalStateView { seq_ondisk: number(trimmed(v)), ..j }, watermark),
                    None => (j, watermark),
                },
            },
        },
    }
}

pub open spec fn journal_scan(ls: Seq<Seq<char>>) -> (JournalStateView, Seq<char>)
    decreases ls.len(),
{
    if ls.len() == 0 {
        (JournalStateView::blank(), Seq::empty())
    } else {
        let (j, watermark) = journal_scan(ls.drop_last());
        journal_line(j, watermark, ls.last())
    }
}

fn journal_step(j: &mut JournalState, watermark: String, raw: &str) -> (r: String)
    ensures
        (final(j)@, r@) == journal_line(old(j)@, watermark@, raw@),
{
    let line = trim(raw);
    if let Some(v) = strip_prefix(line.as_str(), "dirty journal entries:") {
        if let Some(entries) = parse_fraction(v.as_str()) {
            j.entries = Some(entries);
        }
        watermark
    } else if let Some(v) = strip_prefix(line.as_str(), "watermark:") {
        trim(v.as_str())
    } else if let Some(v) = strip_prefix(line.as_str(), "seq:") {
        j.seq = parse_u64(trim(v.as_str()).as_str());
        watermark
    } else if let Some(v) = strip_prefix(line.as_str(), "seq_ondisk:") {
        j.seq_ondisk = parse_u64(trim(v.as_str()).as_str());
        watermark
    } else {
        watermark
    }
}

pub fn parse_journal_state(content: &str) -> (r: (JournalState, String))
    ensures
        (r.0@, r.1@) == journal_scan(lines_of(content@)),
{
    let ls = lines(content);
    let ghost all = views(ls@);
    let mut j = JournalState::default();
    let mut watermark = String::new();
    let mut i: usize = 0;
    proof {
        assert(all.take(0) =~= Seq::<Seq<char>>::empty());
        assert(watermark@ =~= Seq::<char>::empty());
    }
    while i < count(&ls)
        invariant
            i <= all.len(),
            all == views(ls@),
            (j@, watermark@) == journal_scan(all.take(i as int)),
        decreases all.len() - i,
    {
        proof {
            lemma_next_line(all, i as int);
        }
        watermark = journal_step(&mut j, watermark, item(&ls, i));
        i = i + 1;
    }
    proof {
        assert(all.take(i as int) =~= all);
    }
    (j, watermark)
}

// ------------------------------------------------------- output of `bcachefs`

/// A line of the warning that the command prints on some kernels.
pub open spec fn is_warning(line: Seq<char>) -> bool {
    let t = trimmed_start(line);
    has_prefix(t, "WARNING:"@) || has_prefix(t, "please alert"@)
}

/// The lines that are no warnings.
pub open spec fn plain_lines(ls: Seq<Seq<char>>) -> Seq<Seq<char>>
    decreases ls.len(),
{
    if ls.len() == 0 {
        Seq::empty()
    } else if is_warning(ls.last()) {
        plain_lines(ls.drop_last())
    } else {
        plain_lines(ls.drop_last()).push(ls.last())
    }
}

pub fn skip_bcachefs_warning(line: &str) -> (r: bool)
    ensures
        r == is_warning(line@),
{
    let t = trim_start(line);
    starts_with(t.as_str(), "WARNING:") || starts_with(t.as_str(), "please alert")
}

pub open spec fn number_or_zero(s: Seq<char>) -> u64 {
    match number(s) {
        Some(n) => n,
        None => 0,
    }
}

fn parse_or_zero(s: &str) -> (r: u64)
    ensures
        r == number_or_zero(s@),
{
    match parse_u64(s) {
        Some(n) => n,
        None => 0,
    }
}

/// Total and used bytes after one line more.
pub open spec fn usage_line(u: (u64, u64), raw: Seq<char>) -> (u64, u64) {
    let line = trimmed_start(raw);
    if is_warning(raw) {
        u
    } else {
        match after_prefix(line, "Size:"@) {
            Some(rest) => (number_or_zero(trimmed(rest)), u.1),
            None => match after_prefix(line, "Used:"@) {
                Some(rest) => (u.0, number_or_zero(trimmed(rest))),
                None => u,
            },
        }
    }
}

pub open spec fn usage_scan(ls: Seq<Seq<char>>) -> (u64, u64)
    decreases ls.len(),
{
    if ls.len() == 0 {
        (0, 0)
    } else {
        usage_line(usage_scan(ls.drop_last()), ls.last())
    }
}

fn usage_step(u: (u64, u64), raw: &str) -> (r: (u64, u64))
    ensures
        r == usage_line(u, raw@),
{
    if skip_bcachefs_warning(raw) {
        return u;
    }
    let line = trim_start(raw);
    if let Some(rest) = strip_prefix(line.as_str(), "Size:") {
        (parse_or_zero(trim(rest.as_str()).as_str()), u.1)
    } else if let Some(rest) = strip_prefix(line.as_str(), "Used:") {
        (u.0, parse_or_zero(trim(rest.as_str()).as_str()))
    } else {
        u
    }
}

/// Total and used bytes from the output of `bcachefs fs usage`.
pub fn parse_fs_usage(output: &str) -> (r: (u64, u64))
    ensures
        r == usage_scan(lines_of(output@)),
{
    let ls = lines(output);
    let ghost all = views(ls@);
    let mut u: (u64, u64) = (0, 0);
    let mut i: usize = 0;
    proof {
        assert(all.take(0) =~= Seq::<Seq<char>>::empty());
    }
    while i < count(&ls)
        invariant
            i <= all.len(),
            all == views(ls@),
            u == usage_scan(all.take(i as int)),
        decreases all.len() - i,
    {
        proof {
            lemma_next_line(all, i as int);
        }
        u = usage_step(u, item(&ls, i));
        i = i + 1;
    }
    proof {
        assert(all.take(i as int) =~= all);
    }
    u
}

/// What `statvfs` reports: blocks, blocks available and the block size.
#[derive(Debug, Clone, Copy)]
pub struct StatFs {
    pub blocks: u64,
    pub available: u64,
    pub block_size: u64,
}

/// Total and used bytes from `statvfs`, unless it reports nothing: some kernels
/// do so for filesystems of many devices.
pub open spec fn space_of(stat: Option<StatFs>, usage: (u64, u64)) -> (u64, u64) {
    match stat {
        Some(s) => {
            let all = (s.blocks * s.block_size) % 0x1_0000_0000_0000_0000;
            let free = (s.available * s.block_size) % 0x1_0000_0000_0000_0000;
            if all > 0 {
                (
                    all as u64,
                    if all >= free {
                        (all - free) as u64
                    } else {
                        0
                    },
                )
            } else {
                usage
            }
        },
        None => usage,
    }
}

pub fn fs_space(stat: Option<StatFs>, usage: (u64, u64)) -> (r: (u64, u64))
    ensures
        r == space_of(stat, usage),
{
    if let Some(s) = stat {
        proof {
            assert(s.blocks * s.block_size <= 0xFFFF_FFFF_FFFF_FFFF * 0xFFFF_FFFF_FFFF_FFFF)
                by (nonlinear_arith);
            assert(s.available * s.block_size <= 0xFFFF_FFFF_FFFF_FFFF * 0xFFFF_FFFF_FFFF_FFFF)
                by (nonlinear_arith);
            assert(s.blocks * s.block_size >= 0 && s.available * s.block_size >= 0)
                by (nonlinear_arith);
        }
        let all = ((s.blocks as u128 * s.block_size as u128) % 0x1_0000_0000_0000_0000) as u64;
        let free = ((s.available as u128 * s.block_size as u128) % 0x1_0000_0000_0000_0000) as u64;
        if all > 0 {
            return (all, all.saturating_sub(free));
        }
    }
    usage
}

// ------------------------------------------------------------------ reconcile

/// The kinds of reconcile work.
pub open spec fn is_category(name: Seq<char>) -> bool {
    ||| name == "replicas"@
    ||| name == "checksum"@
    ||| name == "erasure_code"@
    ||| name == "compression"@
    ||| name == "target"@
    ||| name == "high_priority"@
    ||| name == "pending"@
    ||| name == "stripes"@
}

fn known_category(name: &str) -> (r: bool)
    ensures
        r == is_category(name@),
{
    same(name, "replicas") || same(name, "checksum") || same(name, "erasure_code") || same(
        name,
        "compression",
    ) || same(name, "target") || same(name, "high_priority") || same(name, "pending") || same(
        name,
        "stripes",
    )
}

/// The place of a word.
pub open spec fn place(f: Seq<Seq<char>>, word: Seq<char>) -> Option<nat>
    decreases f.len(),
{
    if f.len() == 0 {
        None
    } else if f[0] == word {
        Some(0)
    } else {
        match place(f.skip(1), word) {
            Some(n) => Some(n + 1),
            None => None,
        }
    }
}

fn place_of(f: &Vec<String>, word: &str) -> (r: Option<usize>)
    ensures
        match place(views(f@), word@) {
            Some(n) => r is Some && r->0 == n && n < f@.len(),
            None => r is None,
        },
{
    let ghost all = views(f@);
    let mut i: usize = 0;
    proof {
        assert(all.skip(0) =~= all);
    }
    while i < count(f)
        invariant
            i <= all.len(),
            all == views(f@),
            place(all, word@) == match place(all.skip(i as int), word@) {
                Some(n) => Some((n + i) as nat),
                None => None,
            },
        decreases all.len() - i,
    {
        proof {
            assert(all.skip(i as int).skip(1) =~= all.skip(i + 1));
        }
        if same(item(f, i), word) {
            return Some(i);
        }
        i = i + 1;
    }
    None
}

/// The percentage that stands before the first percent sign of a line.
pub open spec fn percentage(line: Seq<char>) -> Option<Seq<char>> {
    match cut_first(line, '%') {
        Some((head, _)) => {
            let f = words_of(head);
            if f.len() == 0 {
                None
            } else {
                match parsed(f.last()) {
                    Some(x) => if x.finite() && zero().at_most(x) && x.at_most(whole(100)) {
                        Some(f.last() + "%"@)
                    } else {
                        None
                    },
                    None => None,
                }
            }
        },
        None => None,
    }
}

fn find_percentage(line: &str) -> (r: Option<String>)
    ensures
        opt(r) == percentage(line@),
{
    match split_once(line, '%') {
        Some((head, _)) => {
            let f = words(head.as_str());
            let n = count(&f);
            if n == 0 {
                return None;
            }
            match parse_double(item(&f, n - 1)) {
                Some(x) => {
                    if x.is_finite() && Double::zero().is_at_most(x) && x.is_at_most(
                        Double::from_u64(100),
                    ) {
                        Some(cat2(item(&f, n - 1), "%"))
                    } else {
                        None
                    }
                },
                None => None,
            }
        },
        None => None,
    }
}

/// What a line says of the work going on.
pub open spec fn state_line(state: Option<Seq<char>>, line: Seq<char>) -> Option<Seq<char>> {
    if has_prefix(line, "processing "@) || has_prefix(line, "running"@) {
        Some("working"@)
    } else if has_prefix(line, "waiting"@) || line == "idle"@ {
        Some("idle"@)
    } else {
        state
    }
}

/// The bytes in a column of a row.
pub open spec fn cell(f: Seq<Seq<char>>, column: nat) -> Option<u64> {
    if column < f.len() {
        human_bytes(f[column as int])
    } else {
        None
    }
}

fn parse_cell(f: &Vec<String>, column: usize) -> (r: Option<u64>)
    ensures
        r == cell(views(f@), column as nat),
{
    if column < count(f) {
        parse_human_bytes(item(f, column))
    } else {
        None
    }
}

/// The work that a row of the table states; no column is known before the
/// heading.
pub open spec fn work_row(f: Seq<Seq<char>>, columns: Option<(nat, nat)>) -> Option<ReconcileWorkView> {
    if f.len() == 0 {
        None
    } else {
        match before_suffix(f[0], ":"@) {
            Some(name) => if is_category(name) {
                Some(
                    match columns {
                        Some((data, metadata)) => ReconcileWorkView {
                            category: name,
                            data_bytes: cell(f, data),
                            metadata_bytes: cell(f, metadata),
                        },
                        None => ReconcileWorkView {
                            category: name,
                            data_bytes: None,
                            metadata_bytes: None,
                        },
                    },
                )
            } else {
                None
            },
            None => None,
        }
    }
}

/// The columns of data and metadata that a heading names, counted with the
/// name of the row.
pub open spec fn heading(f: Seq<Seq<char>>) -> Option<(nat, nat)> {
    match (place(f, "data"@), place(f, "metadata"@)) {
        (Some(data), Some(metadata)) => Some((data + 1, metadata + 1)),
        _ => None,
    }
}

/// The status after one line more, and the columns of the table.
pub open spec fn reconcile_line(
    s: ReconcileStatusView,
    columns: Option<(nat, nat)>,
    raw: Seq<char>,
) -> (ReconcileStatusView, Option<(nat, nat)>) {
    let line = trimmed(raw);
    let f = words_of(line);
    if is_warning(raw) {
        (s, columns)
    } else {
        let t = ReconcileStatusView {
            scan_pending: match after_prefix(line, "Scan pending:"@) {
                Some(v) => number(trimmed(v)),
                None => s.scan_pending,
            },
            state: state_line(s.state, line),
            progress: match percentage(line) {
                Some(p) => Some(p),
                None => s.progress,
            },
            work: s.work,
        };
        match heading(f) {
            Some(c) => (t, Some(c)),
            None => match work_row(f, columns) {
                Some(w) => (ReconcileStatusView { work: t.work.push(w), ..t }, columns),
                None => (t, columns),
            },
        }
    }
}

pub open spec fn reconcile_scan(ls: Seq<Seq<char>>) -> (ReconcileStatusView, Option<(nat, nat)>)
    decreases ls.len(),
{
    if ls.len() == 0 {
        (ReconcileStatusView::blank(), None)
    } else {
        let (s, columns) = reconcile_scan(ls.drop_last());
        reconcile_line(s, columns, ls.last())
    }
}

/// The status from the output of `bcachefs reconcile status`. The table alone
/// is still of use; empty or unknown output is not taken for an idle
/// filesystem.
pub open spec fn reconcile_status(s: Seq<char>) -> ReconcileStatusView {
    let r = reconcile_scan(lines_of(s)).0;
    if r.state is None && (r.scan_pending is Some || r.work.len() > 0) {
        ReconcileStatusView { state: Some("status unknown"@), ..r }
    } else {
        r
    }
}

pub open spec fn columns_view(c: Option<(usize, usize)>) -> Option<(nat, nat)> {
    match c {
        Some((a, b)) => Some((a as nat, b as nat)),
        None => None,
    }
}

fn reconcile_step(
    s: &mut ReconcileStatus,
    columns: Option<(usize, usize)>,
    raw: &str,
) -> (r: Option<(usize, usize)>)
    ensures
        (final(s)@, columns_view(r)) == reconcile_line(old(s)@, columns_view(columns), raw@),
{
    broadcast use lemma_views_push;

    if skip_bcachefs_warning(raw) {
        return columns;
    }
    let ghost before = s@;
    let line = trim(raw);
    if let Some(v) = strip_prefix(line.as_str(), "Scan pending:") {
        s.scan_pending = parse_u64(trim(v.as_str()).as_str());
    }
    if starts_with(line.as_str(), "processing ") || starts_with(line.as_str(), "running") {
        s.state = Some(copy("working"));
    } else if starts_with(line.as_str(), "waiting") || same(line.as_str(), "idle") {
        s.state = Some(copy("idle"));
    }
    if let Some(p) = find_percentage(line.as_str()) {
        s.progress = Some(p);
    }
    let f = words(line.as_str());
    let n = count(&f);
    if let (Some(data), Some(metadata)) = (place_of(&f, "data"), place_of(&f, "metadata")) {
        return Some((data + 1, metadata + 1));
    }
    if n == 0 {
        return columns;
    }
    if let Some(name) = strip_suffix(item(&f, 0), ":") {
        if known_category(name.as_str()) {
            let (data_bytes, metadata_bytes) = match columns {
                Some((data, metadata)) => (parse_cell(&f, data), parse_cell(&f, metadata)),
                None => (None, None),
            };
            s.work.push(ReconcileWork { category: name, data_bytes, metadata_bytes });
        }
    }
    columns
}

pub fn parse_reconcile_status(output: &str) -> (r: ReconcileStatus)
    ensures
        r@ == reconcile_status(output@),
{
    let ls = lines(output);
    let ghost all = views(ls@);
    let mut s = ReconcileStatus::default();
    let mut columns: Option<(usize, usize)> = None;
    let mut i: usize = 0;
    proof {
        assert(all.take(0) =~= Seq::<Seq<char>>::empty());
    }
    while i < count(&ls)
        invariant
            i <= all.len(),
            all == views(ls@),
            (s@, columns_view(columns)) == reconcile_scan(all.take(i as int)),
        decreases all.len() - i,
    {
        proof {
            lemma_next_line(all, i as int);
        }
        columns = reconcile_step(&mut s, columns, item(&ls, i));
        i = i + 1;
    }
    proof {
        assert(all.take(i as int) =~= all);
    }
    let rows = count(&s.work);
    if s.state.is_none() && (s.scan_pending.is_some() || rows > 0) {
        s.state = Some(copy("status unknown"));
    }
    s
}

// --------------------------------------------------------------------- mounts

/// Sources with a mount point, each at the first one it was seen with: bind
/// mounts come later.
pub open spec fn add_sources(
    mounts: Seq<(Seq<char>, Seq<char>)>,
    sources: Seq<Seq<char>>,
    at: Seq<char>,
) -> Seq<(Seq<char>, Seq<char>)>
    decreases sources.len(),
{
    if sources.len() == 0 {
        mounts
    } else {
        let rest = add_sources(mounts, sources.drop_last(), at);
        if has_key(rest, sources.last()) {
            rest
        } else {
            put(rest, sources.last(), at)
        }
    }
}

/// The mounts after one line more; every member of a source of many devices
/// is registered.
pub open spec fn mount_line(mounts: Seq<(Seq<char>, Seq<char>)>, line: Seq<char>) -> Seq<
    (Seq<char>, Seq<char>),
> {
    let f = words_of(line);
    if f.len() < 3 || f[2] != "bcachefs"@ {
        mounts
    } else {
        add_sources(mounts, pieces(f[0], Sep::Is(':')), f[1])
    }
}

pub open spec fn mount_scan(ls: Seq<Seq<char>>) -> Seq<(Seq<char>, Seq<char>)>
    decreases ls.len(),
{
    if ls.len() == 0 {
        Seq::empty()
    } else {
        mount_line(mount_scan(ls.drop_last()), ls.last())
    }
}

fn mount_step(mounts: &mut StrMap<String>, line: &str)
    ensures
        final(mounts)@ == mount_line(old(mounts)@, line@),
{
    let f = words(line);
    if count(&f) < 3 || !same(item(&f, 2), "bcachefs") {
        return ;
    }
    let sources = split(item(&f, 0), Sep::Is(':'));
    let ghost all = views(sources@);
    let ghost start = mounts@;
    let ghost at = views(f@)[1];
    let mut i: usize = 0;
    proof {
        assert(all.take(0) =~= Seq::<Seq<char>>::empty());
    }
    while i < count(&sources)
        invariant
            i <= all.len(),
            all == views(sources@),
            views(f@).len() >= 3,
            at == views(f@)[1],
            mounts@ == add_sources(start, all.take(i as int), at),
        decreases all.len() - i,
    {
        proof {
            lemma_next_line(all, i as int);
        }
        let source = item(&sources, i);
        if !mounts.contains_key(source) {
            mounts.insert(source, copy(item(&f, 1)));
        }
        i = i + 1;
    }
    proof {
        assert(all.take(i as int) =~= all);
    }
}

/// The mount point of every source of a bcachefs mount.
pub fn bcachefs_mounts(mounts: &str) -> (r: StrMap<String>)
    ensures
        r@ == mount_scan(lines_of(mounts@)),
{
    let ls = lines(mounts);
    let ghost all = views(ls@);
    let mut r: StrMap<String> = StrMap::new();
    let mut i: usize = 0;
    proof {
        assert(all.take(0) =~= Seq::<Seq<char>>::empty());
    }
    while i < count(&ls)
        invariant
            i <= all.len(),
            all == views(ls@),
            r@ == mount_scan(all.take(i as int)),
        decreases all.len() - i,
    {
        proof {
            lemma_next_line(all, i as int);
        }
        mount_step(&mut r, item(&ls, i));
        i = i + 1;
    }
    proof {
        assert(all.take(i as int) =~= all);
    }
    r
}

proof fn lemma_sources_keep(
    mounts: Seq<(Seq<char>, Seq<char>)>,
    sources: Seq<Seq<char>>,
    at: Seq<char>,
    key: Seq<char>,
)
    requires
        has_key(mounts, key),
    ensures
        find(add_sources(mounts, sources, at), key) == find(mounts, key),
    decreases sources.len(),
{
    if sources.len() > 0 {
        lemma_sources_keep(mounts, sources.drop_last(), at, key);
        let rest = add_sources(mounts, sources.drop_last(), at);
        if !has_key(rest, sources.last()) {
            crate::strmap::law_put_then_find(rest, sources.last(), at, key);
        }
    }
}

/// A source keeps the first mount point it was seen with, whatever is mounted
/// later.
pub proof fn law_first_mount_wins(ls: Seq<Seq<char>>, k: int, source: Seq<char>)
    requires
        0 <= k <= ls.len(),
        has_key(mount_scan(ls.take(k)), source),
    ensures
        find(mount_scan(ls), source) == find(mount_scan(ls.take(k)), source),
    decreases ls.len() - k,
{
    if k < ls.len() {
        lemma_next_line(ls, k);
        let f = words_of(ls[k]);
        if f.len() >= 3 && f[2] == "bcachefs"@ {
            lemma_sources_keep(mount_scan(ls.take(k)), pieces(f[0], Sep::Is(':')), f[1], source);
        }
        law_first_mount_wins(ls, k + 1, source);
    } else {
        assert(ls.take(k) =~= ls);
    }
}

/// The last component of a path; none where it names no file.
pub open spec fn base_of(path: Seq<char>) -> Option<Seq<char>> {
    last_name(pieces(path, Sep::Is('/')))
}

pub open spec fn last_name(parts: Seq<Seq<char>>) -> Option<Seq<char>>
    decreases parts.len(),
{
    if parts.len() == 0 {
        None
    } else if parts.last().len() == 0 || parts.last() == "."@ {
        last_name(parts.drop_last())
    } else if parts.last() == ".."@ {
        None
    } else {
        Some(parts.last())
    }
}

pub fn base_name(path: &str) -> (r: Option<String>)
    ensures
        opt(r) == base_of(path@),
{
    let parts = split(path, Sep::Is('/'));
    let ghost all = views(parts@);
    let mut n: usize = count(&parts);
    proof {
        assert(all.take(n as int) =~= all);
    }
    while n > 0
        invariant
            n <= all.len(),
            all == views(parts@),
            base_of(path@) == last_name(all.take(n as int)),
        decreases n,
    {
        proof {
            lemma_next_line(all, n - 1);
        }
        let part = item(&parts, n - 1);
        if is_empty(part) || same(part, ".") {
            n = n - 1;
        } else if same(part, "..") {
            return None;
        } else {
            return Some(copy(part));
        }
    }
    None
}

/// The mount point of the first device that has one.
pub open spec fn device_mount(
    devices: Seq<Option<Seq<char>>>,
    mounts: Seq<(Seq<char>, Seq<char>)>,
) -> Option<Seq<char>>
    decreases devices.len(),
{
    if devices.len() == 0 {
        None
    } else {
        let here = match devices[0] {
            Some(name) => find(mounts, "/dev/"@ + name),
            None => None,
        };
        match here {
            Some(at) => Some(at),
            None => device_mount(devices.skip(1), mounts),
        }
    }
}

/// Where a filesystem is mounted: under its own identifier, else under one of
/// its member devices, whatever their numbers.
pub open spec fn mount_of(
    uuid: Seq<char>,
    devices: Seq<Option<Seq<char>>>,
    mounts: Seq<(Seq<char>, Seq<char>)>,
) -> Option<Seq<char>> {
    match find(mounts, "/dev/disk/by-uuid/"@ + uuid) {
        Some(at) => Some(at),
        None => device_mount(devices, mounts),
    }
}

/// A directory inside that of a filesystem.
#[derive(Debug)]
pub struct DirLink {
    pub dir: String,
    /// Where its link to a block device leads.
    pub target: Option<String>,
}

#[verifier::ext_equal]
pub struct DirLinkView {
    pub dir: Seq<char>,
    pub target: Option<Seq<char>>,
}

impl View for DirLink {
    type V = DirLinkView;

    open spec fn view(&self) -> DirLinkView {
        DirLinkView {
            dir: self.dir@,
            target: opt(self.target),
        }
    }
}

/// The block device of a directory, where that is one of a member.
pub open spec fn linked_device(l: DirLinkView) -> Option<Seq<char>> {
    if !has_prefix(l.dir, "dev-"@) {
        None
    } else {
        match l.target {
            Some(target) => base_of(target),
            None => None,
        }
    }
}

fn find_linked_device(l: &DirLink) -> (r: Option<String>)
    ensures
        opt(r) == linked_device(l@),
{
    if !starts_with(l.dir.as_str(), "dev-") {
        return None;
    }
    match &l.target {
        Some(target) => base_name(target.as_str()),
        None => None,
    }
}

/// The block devices that the links of member directories lead to.
pub open spec fn link_names(links: Seq<DirLinkView>) -> Seq<Option<Seq<char>>> {
    Seq::new(links.len(), |i: int| linked_device(links[i]))
}

/// Finds the mount point of a filesystem with some directories.
pub fn find_mount_for_uuid(uuid: &str, links: &Vec<DirLink>, mounts: &StrMap<String>) -> (r: Option<
    String,
>)
    ensures
        opt(r) == mount_of(uuid@, link_names(views(links@)), mounts@),
{
    if let Some(at) = mounts.get(cat2("/dev/disk/by-uuid/", uuid).as_str()) {
        return Some(copy(at.as_str()));
    }
    let ghost all = link_names(views(links@));
    let mut i: usize = 0;
    proof {
        assert(all.skip(0) =~= all);
    }
    while i < links.len()
        invariant
            i <= links@.len() == all.len(),
            all == link_names(views(links@)),
            device_mount(all, mounts@) == device_mount(all.skip(i as int), mounts@),
            find(mounts@, "/dev/disk/by-uuid/"@ + uuid@) is None,
        decreases all.len() - i,
    {
        proof {
            assert(all.skip(i as int).skip(1) =~= all.skip(i + 1));
            assert(all.skip(i as int)[0] == all[i as int]);
        }
        if let Some(name) = find_linked_device(&links[i]) {
            if let Some(at) = mounts.get(cat2("/dev/", name.as_str()).as_str()) {
                return Some(copy(at.as_str()));
            }
        }
        i = i + 1;
    }
    None
}

pub open spec fn or_empty(s: Option<Seq<char>>) -> Seq<char> {
    match s {
        Some(t) => t,
        None => Seq::empty(),
    }
}

/// A filesystem goes by its label, else by the last component of its mount
/// point, else by its identifier.
pub open spec fn name_of(label: Option<Seq<char>>, mount_point: Seq<char>, uuid: Seq<char>) -> Seq<char> {
    let own = match label {
        Some(t) => if trimmed(t).len() > 0 && trimmed(t) != "(none)"@ {
            Some(trimmed(t))
        } else {
            None
        },
        None => None,
    };
    match own {
        Some(t) => t,
        None => match base_of(mount_point) {
            Some(base) => base,
            None => uuid,
        },
    }
}

/// The directory of a filesystem.
#[derive(Debug)]
pub struct FsDir {
    /// Its name.
    pub uuid: String,
    /// Its path.
    pub sysfs: String,
    pub links: Vec<DirLink>,
    pub label: Option<String>,
}

#[verifier::ext_equal]
pub struct FsDirView {
    pub uuid: Seq<char>,
    pub sysfs: Seq<char>,
    pub links: Seq<DirLinkView>,
    pub label: Option<Seq<char>>,
}

impl View for FsDir {
    type V = FsDirView;

    open spec fn view(&self) -> FsDirView {
        FsDirView {
            uuid: self.uuid@,
            sysfs: self.sysfs@,
            links: views(self.links@),
            label: opt(self.label),
        }
    }
}

/// A filesystem from what its directory and the table of mounts show.
pub open spec fn described(d: FsDirView, mounts: Seq<(Seq<char>, Seq<char>)>) -> BcachefsFsView {
    let at = or_empty(mount_of(d.uuid, link_names(d.links), mounts));
    BcachefsFsView {
        uuid: d.uuid,
        mount_point: at,
        fs_name: name_of(d.label, at, d.uuid),
        sysfs: d.sysfs,
    }
}

fn describe_fs(d: &FsDir, mounts: &StrMap<String>) -> (r: BcachefsFs)
    ensures
        r@ == described(d@, mounts@),
{
    let mount_point = match find_mount_for_uuid(d.uuid.as_str(), &d.links, mounts) {
        Some(at) => at,
        None => {
            let r = String::new();
            assert(r@ =~= Seq::<char>::empty());
            r
        },
    };
    let own = match &d.label {
        Some(t) => {
            let t = trim(t.as_str());
            if !is_empty(t.as_str()) && !same(t.as_str(), "(none)") {
                Some(t)
            } else {
                None
            }
        },
        None => None,
    };
    let fs_name = match own {
        Some(t) => t,
        None => match base_name(mount_point.as_str()) {
            Some(base) => base,
            None => copy(d.uuid.as_str()),
        },
    };
    BcachefsFs {
        uuid: copy(d.uuid.as_str()),
        mount_point,
        fs_name,
        sysfs: copy(d.sysfs.as_str()),
    }
}

pub open spec fn all_described(dirs: Seq<FsDirView>, mounts: Seq<char>) -> Seq<BcachefsFsView> {
    Seq::new(dirs.len(), |i: int| described(dirs[i], mount_scan(lines_of(mounts))))
}

/// The filesystems with a directory each, given the table of mounts.
pub fn discover(dirs: &Vec<FsDir>, mounts: &str) -> (r: Vec<BcachefsFs>)
    ensures
        views(r@) == all_described(views(dirs@), mounts@),
{
    let table = bcachefs_mounts(mounts);
    let mut r: Vec<BcachefsFs> = Vec::new();
    let mut i: usize = 0;
    while i < dirs.len()
        invariant
            i <= dirs@.len(),
            r@.len() == i,
            table@ == mount_scan(lines_of(mounts@)),
            forall|k: int|
                0 <= k < i ==> (#[trigger] r@[k])@ == described(views(dirs@)[k], table@),
        decreases dirs@.len() - i,
    {
        r.push(describe_fs(&dirs[i], &table));
        i = i + 1;
    }
    assert(views(r@) =~= all_described(views(dirs@), mounts@));
    r
}

// ------------------------------------------------------- counters, processes

/// The number behind the last colon of the first line that counts since the
/// mount.
pub open spec fn since_mount(ls: Seq<Seq<char>>) -> u64
    decreases ls.len(),
{
    if ls.len() == 0 {
        0
    } else if has_part(ls[0], "since mount"@) {
        let p = pieces(ls[0], Sep::Is(':'));
        number_or_zero(trimmed(p.last()))
    } else {
        since_mount(ls.skip(1))
    }
}

/// A counter: a plain number, else the count since the mount.
pub open spec fn counter_of(s: Seq<char>) -> u64 {
    match number(trimmed(s)) {
        Some(n) => n,
        None => since_mount(lines_of(s)),
    }
}

proof fn lemma_some_piece(s: Seq<char>, sep: Sep)
    ensures
        pieces(s, sep).len() > 0,
{
}

pub fn parse_counter(content: &str) -> (r: u64)
    ensures
        r == counter_of(content@),
{
    if let Some(n) = parse_u64(trim(content).as_str()) {
        return n;
    }
    let ls = lines(content);
    let ghost all = views(ls@);
    let mut i: usize = 0;
    proof {
        assert(all.skip(0) =~= all);
    }
    while i < count(&ls)
        invariant
            i <= all.len(),
            all == views(ls@),
            all == lines_of(content@),
            number(trimmed(content@)) is None,
            since_mount(all) == since_mount(all.skip(i as int)),
        decreases all.len() - i,
    {
        proof {
            assert(all.skip(i as int).skip(1) =~= all.skip(i + 1));
        }
        if contains(item(&ls, i), "since mount") {
            let p = split(item(&ls, i), Sep::Is(':'));
            proof {
                lemma_some_piece(all[i as int], Sep::Is(':'));
            }
            let n = count(&p);
            return parse_or_zero(trim(item(&p, n - 1)).as_str());
        }
        i = i + 1;
    }
    0
}

/// The counters of a directory.
pub open spec fn counters_of(files: Seq<(Seq<char>, Seq<char>)>) -> Seq<(Seq<char>, u64)>
    decreases files.len(),
{
    if files.len() == 0 {
        Seq::empty()
    } else {
        put(counters_of(files.drop_last()), files.last().0, counter_of(files.last().1))
    }
}

pub fn read_counters(files: &StrMap<String>) -> (r: StrMap<u64>)
    ensures
        r@ == counters_of(files@),
{
    let mut r: StrMap<u64> = StrMap::new();
    let ghost all = files@;
    let mut i: usize = 0;
    proof {
        assert(all.take(0) =~= Seq::<(Seq<char>, Seq<char>)>::empty());
    }
    while i < files.len()
        invariant
            i <= all.len(),
            all == files@,
            r@ == counters_of(all.take(i as int)),
        decreases all.len() - i,
    {
        proof {
            assert(all.take(i + 1).drop_last() =~= all.take(i as int));
            assert(all.take(i + 1).last() == all[i as int]);
        }
        r.insert(files.key_at(i), parse_counter(files.value_at(i).as_str()));
        i = i + 1;
    }
    proof {
        assert(all.take(i as int) =~= all);
    }
    r
}

/// The options of a directory: contents without the white space around them.
pub open spec fn options_of(files: Seq<(Seq<char>, Seq<char>)>) -> Seq<(Seq<char>, Seq<char>)>
    decreases files.len(),
{
    if files.len() == 0 {
        Seq::empty()
    } else {
        put(options_of(files.drop_last()), files.last().0, trimmed(files.last().1))
    }
}

pub fn read_options(files: &StrMap<String>) -> (r: StrMap<String>)
    ensures
        r@ == options_of(files@),
{
    let mut r: StrMap<String> = StrMap::new();
    let ghost all = files@;
    let mut i: usize = 0;
    proof {
        assert(all.take(0) =~= Seq::<(Seq<char>, Seq<char>)>::empty());
    }
    while i < files.len()
        invariant
            i <= all.len(),
            all == files@,
            r@ == options_of(all.take(i as int)),
        decreases all.len() - i,
    {
        proof {
            assert(all.take(i + 1).drop_last() =~= all.take(i as int));
            assert(all.take(i + 1).last() == all[i as int]);
        }
        r.insert(files.key_at(i), trim(files.value_at(i).as_str()));
        i = i + 1;
    }
    proof {
        assert(all.take(i as int) =~= all);
    }
    r
}

/// Bytes read and written after one line more.
pub open spec fn io_line(b: (u64, u64), line: Seq<char>) -> (u64, u64) {
    match after_prefix(line, "read_bytes: "@) {
        Some(v) => (number_or_zero(trimmed(v)), b.1),
        None => match after_prefix(line, "write_bytes: "@) {
            Some(v) => (b.0, number_or_zero(trimmed(v))),
            None => b,
        },
    }
}

pub open spec fn io_scan(ls: Seq<Seq<char>>) -> (u64, u64)
    decreases ls.len(),
{
    if ls.len() == 0 {
        (0, 0)
    } else {
        io_line(io_scan(ls.drop_last()), ls.last())
    }
}

/// A process from the name of its directory; none where that is no number.
pub open spec fn process_of(dir: Seq<char>, io: Seq<char>, comm: Seq<char>) -> Option<ProcessIoView> {
    match number32(dir) {
        Some(pid) => Some(
            ProcessIoView {
                pid,
                name: trimmed(comm),
                read_bytes: io_scan(lines_of(io)).0,
                write_bytes: io_scan(lines_of(io)).1,
            },
        ),
        None => None,
    }
}

pub fn parse_process_io(dir: &str, io: &str, comm: &str) -> (r: Option<ProcessIo>)
    ensures
        opt(r) == process_of(dir@, io@, comm@),
{
    let pid: u32 = match parse_u32(dir) {
        Some(pid) => pid,
        None => {
            return None;
        },
    };
    let ls = lines(io);
    let ghost all = views(ls@);
    let mut b: (u64, u64) = (0, 0);
    let mut i: usize = 0;
    proof {
        assert(all.take(0) =~= Seq::<Seq<char>>::empty());
    }
    while i < count(&ls)
        invariant
            i <= all.len(),
            all == views(ls@),
            b == io_scan(all.take(i as int)),
        decreases all.len() - i,
    {
        proof {
            lemma_next_line(all, i as int);
        }
        let line = item(&ls, i);
        if let Some(v) = strip_prefix(line, "read_bytes: ") {
            b = (parse_or_zero(trim(v.as_str()).as_str()), b.1);
        } else if let Some(v) = strip_prefix(line, "write_bytes: ") {
            b = (b.0, parse_or_zero(trim(v.as_str()).as_str()));
        }
        i = i + 1;
    }
    proof {
        assert(all.take(i as int) =~= all);
    }
    Some(ProcessIo { pid, name: trim(comm), read_bytes: b.0, write_bytes: b.1 })
}

/// What `/proc` holds of one process.
#[derive(Debug)]
pub struct RawProcess {
    pub dir: String,
    pub io: Option<String>,
    pub comm: String,
}

#[verifier::ext_equal]
pub struct RawProcessView {
    pub dir: Seq<char>,
    pub io: Option<Seq<char>>,
    pub comm: Seq<char>,
}

impl View for RawProcess {
    type V = RawProcessView;

    open spec fn view(&self) -> RawProcessView {
        RawProcessView {
            dir: self.dir@,
            io: opt(self.io),
            comm: self.comm@,
        }
    }
}

/// The processes whose I/O can be read.
pub open spec fn processes_of(raws: Seq<RawProcessView>) -> Seq<ProcessIoView>
    decreases raws.len(),
{
    if raws.len() == 0 {
        Seq::empty()
    } else {
        let rest = processes_of(raws.drop_last());
        let found = match raws.last().io {
            Some(io) => process_of(raws.last().dir, io, raws.last().comm),
            None => None,
        };
        match found {
            Some(p) => rest.push(p),
            None => rest,
        }
    }
}

pub fn read_all_process_io(raws: &Vec<RawProcess>) -> (r: Vec<ProcessIo>)
    ensures
        views(r@) == processes_of(views(raws@)),
{
    broadcast use lemma_views_push;

    let ghost all = views(raws@);
    let mut r: Vec<ProcessIo> = Vec::new();
    let mut i: usize = 0;
    proof {
        assert(all.take(0) =~= Seq::<RawProcessView>::empty());
        assert(views(r@) =~= Seq::<ProcessIoView>::empty());
    }
    while i < raws.len()
        invariant
            i <= all.len(),
            all == views(raws@),
            views(r@) == processes_of(all.take(i as int)),
        decreases all.len() - i,
    {
        proof {
            assert(all.take(i + 1).drop_last() =~= all.take(i as int));
            assert(all.take(i + 1).last() == raws@[i as int]@);
        }
        if let Some(io) = &raws[i].io {
            if let Some(p) = parse_process_io(
                raws[i].dir.as_str(),
                io.as_str(),
                raws[i].comm.as_str(),
            ) {
                r.push(p);
            }
        }
        i = i + 1;
    }
    proof {
        assert(all.take(i as int) =~= all);
    }
    r
}

// ------------------------------------------------------------- laws on warnings

proof fn lemma_scan_of_plain(ls: Seq<Seq<char>>)
    ensures
        reconcile_scan(ls) == reconcile_scan(plain_lines(ls)),
    decreases ls.len(),
{
    if ls.len() > 0 {
        let rest = ls.drop_last();
        lemma_scan_of_plain(rest);
        if !is_warning(ls.last()) {
            let p = plain_lines(rest);
            assert(p.push(ls.last()).drop_last() =~= p);
        }
    }
}

/// Lines of the warning change nothing, wherever they stand: two outputs that
/// agree in their other lines have one status.
pub proof fn law_warnings_change_nothing(a: Seq<char>, b: Seq<char>)
    requires
        plain_lines(lines_of(a)) == plain_lines(lines_of(b)),
    ensures
        reconcile_status(a) == reconcile_status(b),
{
    lemma_scan_of_plain(lines_of(a));
    lemma_scan_of_plain(lines_of(b));
}

/// An output of nothing but the warning says nothing: it is never taken for an
/// idle filesystem.
pub proof fn law_warnings_alone_say_nothing(s: Seq<char>)
    requires
        forall|i: int| 0 <= i < lines_of(s).len() ==> is_warning(#[trigger] lines_of(s)[i]),
    ensures
        reconcile_status(s).state is None,
        reconcile_status(s).text() == "n/a"@,
{
    lemma_scan_of_plain(lines_of(s));
    lemma_no_plain(lines_of(s));
}

proof fn lemma_no_plain(ls: Seq<Seq<char>>)
    requires
        forall|i: int| 0 <= i < ls.len() ==> is_warning(#[trigger] ls[i]),
    ensures
        plain_lines(ls) == Seq::<Seq<char>>::empty(),
    decreases ls.len(),
{
    if ls.len() > 0 {
        let rest = ls.drop_last();
        assert forall|i: int| 0 <= i < rest.len() implies is_warning(#[trigger] rest[i]) by {
            assert(rest[i] == ls[i]);
        }
        lemma_no_plain(rest);
        assert(is_warning(ls[ls.len() - 1]));
    }
}

proof fn lemma_plain_of_both(a: Seq<Seq<char>>, b: Seq<Seq<char>>)
    ensures
        plain_lines(a + b) == plain_lines(a) + plain_lines(b),
    decreases b.len(),
{
    if b.len() == 0 {
        assert(a + b =~= a);
        assert(plain_lines(a) + plain_lines(b) =~= plain_lines(a));
    } else {
        assert((a + b).drop_last() =~= a + b.drop_last());
        lemma_plain_of_both(a, b.drop_last());
        assert(plain_lines(a + b) =~= plain_lines(a) + plain_lines(b));
    }
}

/// The lines of a text that ends with a line, and of what follows it.
proof fn lemma_lines_of_both(a: Seq<char>, b: Seq<char>)
    requires
        a.len() == 0 || a.last() == '\n',
    ensures
        lines_of(a + b) == lines_of(a) + lines_of(b),
    decreases a.len(),
{
    if a.len() == 0 {
        assert(a + b =~= b);
        assert(lines_of(a) + lines_of(b) =~= lines_of(b));
    } else {
        let n = head_len(a, Sep::Is('\n')) as int;
        lemma_head_len(a, Sep::Is('\n'));
        assert(Sep::Is('\n').hits(a[a.len() - 1]));
        assert(n < a.len());
        let s = a + b;
        assert(s[n] == a[n]);
        assert forall|i: int| 0 <= i < n implies !Sep::Is('\n').hits(#[trigger] s[i]) by {
            assert(s[i] == a[i]);
        }
        lemma_head_len_is(s, Sep::Is('\n'), n as nat);
        let rest = a.skip(n + 1);
        assert(s.take(n) =~= a.take(n));
        assert(s.skip(n + 1) =~= rest + b);
        if rest.len() > 0 {
            assert(rest.last() == a.last());
        }
        lemma_lines_of_both(rest, b);
        assert(lines_of(s) =~= lines_of(a) + lines_of(b));
    }
}

proof fn lemma_trimmed_start_drops_last(s: Seq<char>)
    requires
        trimmed_start(s).len() > 0,
    ensures
        s.len() > 0,
        trimmed_start(s).last() == s.last(),
        trimmed_start(s).len() > 1 ==> trimmed_start(s.drop_last()) == trimmed_start(s).drop_last(),
    decreases s.len(),
{
    if s.len() > 0 && white(s[0]) {
        let t = s.skip(1);
        lemma_trimmed_start_drops_last(t);
        assert(t.last() == s.last());
        if trimmed_start(s).len() > 1 {
            assert(t.len() > 1) by {
                lemma_trimmed_start_len(t);
            }
            assert(s.drop_last().skip(1) =~= t.drop_last());
        }
    }
}

proof fn lemma_trimmed_start_len(s: Seq<char>)
    ensures
        trimmed_start(s).len() <= s.len(),
    decreases s.len(),
{
    if s.len() > 0 {
        lemma_trimmed_start_len(s.skip(1));
    }
}

proof fn lemma_prefix_of_chomped(t: Seq<char>, p: Seq<char>)
    requires
        has_prefix(t, p),
        p.len() > 1,
        p.last() != '\r',
        t.last() == '\r',
    ensures
        t.len() > 1,
        has_prefix(t.drop_last(), p),
{
    if t.len() == p.len() {
        assert(t.take(p.len() as int) =~= t);
        assert(p == t);
    }
    assert(t.drop_last().take(p.len() as int) =~= t.take(p.len() as int));
}

proof fn lemma_chomped_warning(line: Seq<char>)
    requires
        is_warning(line),
    ensures
        is_warning(chomped(line)),
{
    reveal_strlit("WARNING:");
    reveal_strlit("please alert");
    let t = trimmed_start(line);
    lemma_trimmed_start_drops_last(line);
    if line.last() == '\r' {
        if has_prefix(t, "WARNING:"@) {
            lemma_prefix_of_chomped(t, "WARNING:"@);
        } else {
            lemma_prefix_of_chomped(t, "please alert"@);
        }
    }
}

/// A line of the warning that is put between two lines of an output, or behind
/// the last, changes nothing.
pub proof fn law_an_inserted_warning_changes_nothing(
    before: Seq<char>,
    line: Seq<char>,
    after: Seq<char>,
)
    requires
        before.len() == 0 || before.last() == '\n',
        !line.contains('\n'),
        is_warning(line),
    ensures
        reconcile_status(before + (line.push('\n') + after)) == reconcile_status(before + after),
        reconcile_status(before + line) == reconcile_status(before),
{
    let inserted = line.push('\n') + after;
    lemma_lines_of_both(before, inserted);
    lemma_lines_of_both(before, after);
    lemma_lines_of_both(before, line);
    let n = line.len() as int;
    assert forall|i: int| 0 <= i < n implies !Sep::Is('\n').hits(#[trigger] inserted[i]) by {
        assert(inserted[i] == line[i]);
        assert(line.contains(line[i]));
    }
    assert(inserted[n] == '\n');
    lemma_head_len_is(inserted, Sep::Is('\n'), n as nat);
    assert(inserted.take(n) =~= line);
    assert(inserted.skip(n + 1) =~= after);
    assert(lines_of(inserted) == seq![chomped(line)] + lines_of(after));
    lemma_chomped_warning(line);
    let one = seq![chomped(line)];
    let whole_line = seq![line];
    lemma_one_warning(chomped(line));
    lemma_one_warning(line);
    lemma_plain_of_both(one, lines_of(after));
    lemma_plain_of_both(lines_of(before), one + lines_of(after));
    lemma_plain_of_both(lines_of(before), lines_of(after));
    assert(plain_lines(one) + plain_lines(lines_of(after)) =~= plain_lines(lines_of(after)));
    law_warnings_change_nothing(before + inserted, before + after);
    // The line alone, not terminated.
    lemma_head_len(line, Sep::Is('\n'));
    lemma_trimmed_start_len(line);
    reveal_strlit("WARNING:");
    reveal_strlit("please alert");
    let h = head_len(line, Sep::Is('\n')) as int;
    if h < n {
        assert(Sep::Is('\n').hits(line[h]));
        assert(line.contains(line[h]));
    }
    assert(lines_of(line) == whole_line);
    lemma_plain_of_both(lines_of(before), whole_line);
    assert(plain_lines(lines_of(before)) + plain_lines(whole_line) =~= plain_lines(
        lines_of(before),
    ));
    law_warnings_change_nothing(before + line, before);
}

proof fn lemma_one_warning(line: Seq<char>)
    requires
        is_warning(line),
    ensures
        plain_lines(seq![line]) == Seq::<Seq<char>>::empty(),
{
    let one = seq![line];
    assert(one.last() == line);
    assert(one.drop_last() =~= Seq::<Seq<char>>::empty());
    assert(plain_lines(one.drop_last()) == Seq::<Seq<char>>::empty());
}

} // verus!
