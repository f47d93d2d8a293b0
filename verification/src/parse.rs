//! The text formats of sysfs, `/proc` and the `bcachefs` command.

use crate::double::{product, whole, zero, Double};
use crate::numeral::{parse_double, parsed, truncate, truncated};
use crate::strmap::{put, StrMap};
use crate::targets::{CopyGcStatus, CopyGcStatusView, MemberAllocation, MemberAllocationView};
use crate::text::{
    after_prefix, chars_of, count, cut_first, has_prefix, head_len, is_empty, item, join, joined,
    lines, lines_of, number, parse_u64, same, split_once, starts_with, string_of, strip_prefix,
    trim, trimmed, trimmed_end, trimmed_start, views, words, words_of, Sep,
};
use vstd::prelude::*;

verus! {

pub const SECTOR: u64 = 512;

// -------------------------------------------------------------- human numbers

/// What a unit letter multiplies by.
pub open spec fn unit(c: char) -> Option<u64> {
    if c == 'k' || c == 'K' {
        Some(0x400)
    } else if c == 'M' {
        Some(0x10_0000)
    } else if c == 'G' {
        Some(0x4000_0000)
    } else if c == 'T' {
        Some(0x100_0000_0000)
    } else if c == 'P' {
        Some(0x4_0000_0000_0000)
    } else {
        None
    }
}

/// A number of bytes, plain or with a unit letter; what is beyond `u64`, not
/// finite or below zero is no number of bytes.
pub open spec fn human_bytes(s: Seq<char>) -> Option<u64> {
    let v = trimmed(s);
    match number(v) {
        Some(n) => Some(n),
        None => if v.len() == 0 {
            None
        } else {
            match (unit(v.last()), parsed(v.drop_last())) {
                (Some(m), Some(x)) => scaled_bytes(x, m),
                _ => None,
            }
        },
    }
}

pub open spec fn scaled_bytes(x: Double, multiplier: u64) -> Option<u64> {
    let bytes = product(x, whole(multiplier as nat));
    if x.finite() && zero().at_most(x) && bytes.less(whole(u64::MAX as nat)) {
        Some(truncated(bytes))
    } else {
        None
    }
}

fn unit_of(c: char) -> (r: Option<u64>)
    ensures
        r == unit(c),
{
    if c == 'k' || c == 'K' {
        Some(0x400)
    } else if c == 'M' {
        Some(0x10_0000)
    } else if c == 'G' {
        Some(0x4000_0000)
    } else if c == 'T' {
        Some(0x100_0000_0000)
    } else if c == 'P' {
        Some(0x4_0000_0000_0000)
    } else {
        None
    }
}

pub fn parse_human_bytes(value: &str) -> (r: Option<u64>)
    ensures
        r == human_bytes(value@),
{
    let value = trim(value);
    if let Some(n) = parse_u64(value.as_str()) {
        return Some(n);
    }
    let v = chars_of(value.as_str());
    let n = v.len();
    if n == 0 {
        return None;
    }
    let multiplier = match unit_of(v[n - 1]) {
        Some(m) => m,
        None => {
            return None;
        },
    };
    let head = string_of(&v, 0, n - 1);
    assert(head@ =~= v@.drop_last());
    match parse_double(head.as_str()) {
        Some(x) => {
            let bytes = x.times(Double::from_u64(multiplier));
            if x.is_finite() && Double::zero().is_at_most(x) && bytes.is_less(
                Double::from_u64(u64::MAX),
            ) {
                Some(truncate(bytes))
            } else {
                None
            }
        },
        None => None,
    }
}

// ------------------------------------------------------------ allocator tables

pub open spec fn times_checked(a: u64, b: u64) -> Option<u64> {
    if a * b <= u64::MAX {
        Some((a * b) as u64)
    } else {
        None
    }
}

pub open spec fn plus_checked(a: u64, b: u64) -> Option<u64> {
    if a + b <= u64::MAX {
        Some((a + b) as u64)
    } else {
        None
    }
}

/// A number of sectors in bytes.
pub open spec fn sectors(s: Seq<char>) -> Option<u64> {
    match number(s) {
        Some(n) => times_checked(n, SECTOR),
        None => None,
    }
}

fn parse_sectors(s: &str) -> (r: Option<u64>)
    ensures
        r == sectors(s@),
{
    match parse_u64(s) {
        Some(n) => n.checked_mul(SECTOR),
        None => None,
    }
}

/// The btree sectors that a line states, in bytes.
pub open spec fn btree_line(line: Seq<char>) -> Option<u64> {
    let f = words_of(line);
    if f.len() >= 2 && f[0] == "btree"@ {
        sectors(f[1])
    } else {
        None
    }
}

/// The first line that states btree sectors which fit.
pub open spec fn first_btree(ls: Seq<Seq<char>>) -> Option<u64>
    decreases ls.len(),
{
    if ls.len() == 0 {
        None
    } else {
        match btree_line(ls[0]) {
            Some(n) => Some(n),
            None => first_btree(ls.skip(1)),
        }
    }
}

pub fn parse_btree_disk_bytes(content: &str) -> (r: Option<u64>)
    ensures
        r == first_btree(lines_of(content@)),
{
    let ls = lines(content);
    let ghost all = views(ls@);
    let mut i: usize = 0;
    proof {
        assert(all.skip(0) =~= all);
    }
    while i < count(&ls)
        invariant
            i <= all.len(),
            all == views(ls@),
            all == lines_of(content@),
            first_btree(all) == first_btree(all.skip(i as int)),
        decreases all.len() - i,
    {
        proof {
            assert(all.skip(i as int).skip(1) =~= all.skip(i + 1));
        }
        let f = words(item(&ls, i));
        if count(&f) >= 2 && same(item(&f, 0), "btree") {
            if let Some(n) = parse_sectors(item(&f, 1)) {
                return Some(n);
            }
        }
        i = i + 1;
    }
    None
}

/// One line more than the lines before a place.
pub proof fn lemma_next_line(all: Seq<Seq<char>>, i: int)
    requires
        0 <= i < all.len(),
    ensures
        all.take(i + 1).drop_last() == all.take(i),
        all.take(i + 1).last() == all[i],
{
    assert(all.take(i + 1).drop_last() =~= all.take(i));
}

// ------------------------------------------------------------ copygc status

pub open spec fn flag(s: Seq<char>) -> Option<bool> {
    if s == "0"@ {
        Some(false)
    } else if s == "1"@ {
        Some(true)
    } else {
        None
    }
}

/// What one line adds to the status, and whether the device waits follow.
pub open spec fn gc_line(status: CopyGcStatusView, in_devices: bool, raw: Seq<char>) -> (
    CopyGcStatusView,
    bool,
) {
    let line = trimmed(raw);
    let s = match after_prefix(line, "running:"@) {
        Some(v) => CopyGcStatusView { running: flag(trimmed(v)), ..status },
        None => status,
    };
    if line == "Currently calculated wait:"@ {
        (s, true)
    } else if !in_devices {
        (s, false)
    } else {
        match cut_first(line, ':') {
            Some((name, value)) => (gc_wait(s, trimmed(name), trimmed(value)), true),
            None => (s, true),
        }
    }
}

/// A device whose calculated wait is not positive needs collection.
pub open spec fn gc_wait(s: CopyGcStatusView, name: Seq<char>, value: Seq<char>) -> CopyGcStatusView {
    let magnitude = match after_prefix(value, "-"@) {
        Some(rest) => human_bytes(rest),
        None => human_bytes(value),
    };
    match magnitude {
        Some(m) => CopyGcStatusView {
            needs_gc: put(s.needs_gc, name, has_prefix(value, "-"@) || m == 0),
            ..s
        },
        None => s,
    }
}

pub open spec fn gc_scan(ls: Seq<Seq<char>>) -> (CopyGcStatusView, bool)
    decreases ls.len(),
{
    if ls.len() == 0 {
        (CopyGcStatusView::blank(), false)
    } else {
        let (status, in_devices) = gc_scan(ls.drop_last());
        gc_line(status, in_devices, ls.last())
    }
}

fn gc_step(status: &mut CopyGcStatus, in_devices: bool, raw: &str) -> (r: bool)
    ensures
        (final(status)@, r) == gc_line(old(status)@, in_devices, raw@),
{
    let line = trim(raw);
    if let Some(v) = strip_prefix(line.as_str(), "running:") {
        let v = trim(v.as_str());
        status.running = if same(v.as_str(), "0") {
            Some(false)
        } else if same(v.as_str(), "1") {
            Some(true)
        } else {
            None
        };
    }
    if same(line.as_str(), "Currently calculated wait:") {
        return true;
    }
    if !in_devices {
        return false;
    }
    if let Some((name, value)) = split_once(line.as_str(), ':') {
        let value = trim(value.as_str());
        let name = trim(name.as_str());
        let negative = starts_with(value.as_str(), "-");
        let magnitude = match strip_prefix(value.as_str(), "-") {
            Some(rest) => parse_human_bytes(rest.as_str()),
            None => parse_human_bytes(value.as_str()),
        };
        if let Some(m) = magnitude {
            status.needs_gc.insert(name.as_str(), negative || m == 0);
        }
    }
    true
}

pub fn parse_copygc_status(content: &str) -> (r: CopyGcStatus)
    ensures
        r@ == gc_scan(lines_of(content@)).0,
{
    let ls = lines(content);
    let ghost all = views(ls@);
    let mut status = CopyGcStatus::default();
    let mut in_devices = false;
    let mut i: usize = 0;
    proof {
        assert(all.take(0) =~= Seq::<Seq<char>>::empty());
    }
    while i < count(&ls)
        invariant
            i <= all.len(),
            all == views(ls@),
            (status@, in_devices) == gc_scan(all.take(i as int)),
        decreases all.len() - i,
    {
        proof {
            lemma_next_line(all, i as int);
        }
        in_devices = gc_step(&mut status, in_devices, item(&ls, i));
        i = i + 1;
    }
    proof {
        assert(all.take(i as int) =~= all);
    }
    status
}

// ------------------------------------------------------------ member usage

pub open spec fn both_times(a: Option<u64>, b: Option<u64>) -> Option<u64> {
    match (a, b) {
        (Some(x), Some(y)) => times_checked(x, y),
        _ => None,
    }
}

pub open spec fn both_plus(a: Option<u64>, b: Option<u64>) -> Option<u64> {
    match (a, b) {
        (Some(x), Some(y)) => plus_checked(x, y),
        _ => None,
    }
}

fn mul_both(a: Option<u64>, b: Option<u64>) -> (r: Option<u64>)
    ensures
        r == both_times(a, b),
{
    match (a, b) {
        (Some(x), Some(y)) => x.checked_mul(y),
        _ => None,
    }
}

fn add_both(a: Option<u64>, b: Option<u64>) -> (r: Option<u64>)
    ensures
        r == both_plus(a, b),
{
    match (a, b) {
        (Some(x), Some(y)) => x.checked_add(y),
        _ => None,
    }
}

/// How far the table of a member has been read.
#[derive(Clone, Copy, PartialEq, Eq, Structural)]
pub enum UsageAt {
    Before,
    /// In the table, with the fragmented bytes of the rows so far.
    Table(Option<u64>),
    Done,
}

/// What a row of the table adds. Free space is free buckets times the bucket
/// size, not the live sectors of the row.
pub open spec fn usage_row(
    a: MemberAllocationView,
    f: Seq<Seq<char>>,
    bucket_bytes: Option<u64>,
) -> MemberAllocationView {
    if f[0] == "free"@ {
        MemberAllocationView { free_bytes: both_times(number(f[1]), bucket_bytes), ..a }
    } else if f[0] == "btree"@ {
        MemberAllocationView { btree_bytes: sectors(f[2]), ..a }
    } else {
        a
    }
}

pub open spec fn usage_line(
    a: MemberAllocationView,
    at: UsageAt,
    line: Seq<char>,
    bucket_bytes: Option<u64>,
) -> (MemberAllocationView, UsageAt) {
    let f = words_of(line);
    match at {
        UsageAt::Done => (a, at),
        _ => if f.len() == 3 && f[0] == "buckets"@ && f[1] == "sectors"@ && f[2] == "fragmented"@ {
            match at {
                UsageAt::Before => (a, UsageAt::Table(Some(0))),
                _ => (a, at),
            }
        } else {
            match at {
                UsageAt::Table(fragmented) => if f.len() > 0 && f[0] == "capacity"@ {
                    (MemberAllocationView { fragmented_bytes: fragmented, ..a }, UsageAt::Done)
                } else if f.len() == 0 {
                    (a, at)
                } else if f.len() != 4 {
                    (a, UsageAt::Done)
                } else {
                    (
                        usage_row(a, f, bucket_bytes),
                        UsageAt::Table(both_plus(fragmented, sectors(f[3]))),
                    )
                },
                _ => (a, at),
            }
        },
    }
}

pub open spec fn usage_scan(
    start: MemberAllocationView,
    ls: Seq<Seq<char>>,
    bucket_bytes: Option<u64>,
) -> (MemberAllocationView, UsageAt)
    decreases ls.len(),
{
    if ls.len() == 0 {
        (start, UsageAt::Before)
    } else {
        let (a, at) = usage_scan(start, ls.drop_last(), bucket_bytes);
        usage_line(a, at, ls.last(), bucket_bytes)
    }
}

fn usage_step(
    a: &mut MemberAllocation,
    at: UsageAt,
    line: &str,
    bucket_bytes: Option<u64>,
) -> (r: UsageAt)
    ensures
        (final(a)@, r) == usage_line(old(a)@, at, line@, bucket_bytes),
{
    let f = words(line);
    let n = count(&f);
    let done = match at {
        UsageAt::Done => true,
        _ => false,
    };
    if done {
        return at;
    }
    if n == 3 && same(item(&f, 0), "buckets") && same(item(&f, 1), "sectors") && same(
        item(&f, 2),
        "fragmented",
    ) {
        return match at {
            UsageAt::Before => UsageAt::Table(Some(0)),
            _ => at,
        };
    }
    match at {
        UsageAt::Table(fragmented) => {
            if n > 0 && same(item(&f, 0), "capacity") {
                a.fragmented_bytes = fragmented;
                UsageAt::Done
            } else if n == 0 {
                at
            } else if n != 4 {
                UsageAt::Done
            } else {
                if same(item(&f, 0), "free") {
                    a.free_bytes = mul_both(parse_u64(item(&f, 1)), bucket_bytes);
                } else if same(item(&f, 0), "btree") {
                    a.btree_bytes = parse_sectors(item(&f, 2));
                }
                UsageAt::Table(add_both(fragmented, parse_sectors(item(&f, 3))))
            }
        },
        _ => at,
    }
}

pub fn parse_member_usage(
    content: &str,
    bucket_bytes: Option<u64>,
    allocation: &mut MemberAllocation,
)
    ensures
        final(allocation)@ == usage_scan(old(allocation)@, lines_of(content@), bucket_bytes).0,
{
    let ls = lines(content);
    let ghost all = views(ls@);
    let ghost start = allocation@;
    let mut at = UsageAt::Before;
    let mut i: usize = 0;
    proof {
        assert(all.take(0) =~= Seq::<Seq<char>>::empty());
    }
    while i < count(&ls)
        invariant
            i <= all.len(),
            all == views(ls@),
            (allocation@, at) == usage_scan(start, all.take(i as int), bucket_bytes),
        decreases all.len() - i,
    {
        proof {
            lemma_next_line(all, i as int);
        }
        at = usage_step(allocation, at, item(&ls, i), bucket_bytes);
        i = i + 1;
    }
    proof {
        assert(all.take(i as int) =~= all);
    }
}

// ---------------------------------------------------------------- error counts

/// What `str::to_lowercase` makes of a text.
pub uninterp spec fn lowercase(s: Seq<char>) -> Seq<char>;

pub open spec fn ascii_lower(c: char) -> char {
    if 'A' <= c && c <= 'Z' {
        (c as nat + 32) as char
    } else {
        c
    }
}

pub open spec fn is_ascii(s: Seq<char>) -> bool {
    forall|i: int| 0 <= i < s.len() ==> (#[trigger] s[i]) < '\u{80}'
}

/// A text with its letters from A to Z lowered.
pub open spec fn ascii_lowered(s: Seq<char>) -> Seq<char> {
    s.map_values(|c: char| ascii_lower(c))
}

/// A text in lower case. Of a text of ASCII characters this says which it is.
pub open spec fn lowered(s: Seq<char>) -> Seq<char> {
    if is_ascii(s) {
        ascii_lowered(s)
    } else {
        lowercase(s)
    }
}

/// Calls `str::to_lowercase`. The claim is that its result depends on the text
/// alone, and that of a text of ASCII characters it lowers the letters and
/// keeps the rest; what becomes of other characters is left to the standard
/// library.
#[verifier::external_body]
fn to_lowercase(s: &str) -> (r: String)
    ensures
        r@ == lowercase(s@),
        is_ascii(s@) ==> r@ == ascii_lowered(s@),
{
    s.to_lowercase()
}

pub open spec fn without_colons(s: Seq<char>) -> Seq<char>
    decreases s.len(),
{
    if s.len() > 0 && s.last() == ':' {
        without_colons(s.drop_last())
    } else {
        s
    }
}

fn trim_colons(s: &str) -> (r: String)
    ensures
        r@ == without_colons(s@),
{
    let v = chars_of(s);
    let mut n: usize = v.len();
    proof {
        assert(v@.take(n as int) =~= v@);
    }
    while n > 0 && v[n - 1] == ':'
        invariant
            n <= v@.len(),
            without_colons(v@) == without_colons(v@.take(n as int)),
        decreases n,
    {
        proof {
            assert(v@.take(n as int).drop_last() =~= v@.take(n - 1));
        }
        n = n - 1;
    }
    proof {
        assert(v@.subrange(0, n as int) =~= v@.take(n as int));
    }
    string_of(&v, 0, n)
}

/// The counter that a name in lower case stands for.
pub open spec fn counter_named(lower: Seq<char>) -> Seq<char> {
    if lower == "csum"@ {
        "checksum"@
    } else {
        lower
    }
}

/// Sets the counter that a name in lower case stands for.
pub fn set_error_count(counts: &mut StrMap<u64>, lower: &str, n: u64)
    ensures
        final(counts)@ == put(old(counts)@, counter_named(lower@), n),
{
    if same(lower, "csum") {
        counts.insert("checksum", n);
    } else {
        counts.insert(lower, n);
    }
}

/// The counter that the words before a value name.
pub open spec fn error_name(f: Seq<Seq<char>>) -> Seq<char> {
    counter_named(lowered(without_colons(joined(f, " "@))))
}

/// What one line adds to the counters, and whether the counters since a reset
/// follow; none where the line is malformed. The counters since a reset repeat
/// the lifetime counters and are left out.
pub open spec fn error_line(counts: Seq<(Seq<char>, u64)>, since_reset: bool, raw: Seq<char>) -> Option<
    (Seq<(Seq<char>, u64)>, bool),
> {
    let line = trimmed(raw);
    let f = words_of(line);
    if line == "IO errors since filesystem creation"@ {
        Some((put(counts, "flush"@, 0), since_reset))
    } else if has_prefix(line, "IO errors since "@) {
        Some((counts, true))
    } else if has_prefix(line, "Flush errors (device not honoring FUA/flush):"@) {
        if f.len() == 0 {
            None
        } else {
            match number(f.last()) {
                Some(n) => Some((put(counts, "flush"@, n), since_reset)),
                None => None,
            }
        }
    } else if since_reset || line.len() == 0 {
        Some((counts, since_reset))
    } else if f.len() == 0 {
        None
    } else {
        match number(f.last()) {
            Some(n) => if f.len() == 1 {
                Some((counts, since_reset))
            } else {
                Some((put(counts, error_name(f.drop_last()), n), since_reset))
            },
            None => None,
        }
    }
}

pub open spec fn error_scan(ls: Seq<Seq<char>>) -> Option<(Seq<(Seq<char>, u64)>, bool)>
    decreases ls.len(),
{
    if ls.len() == 0 {
        Some((Seq::empty(), false))
    } else {
        match error_scan(ls.drop_last()) {
            Some((counts, since_reset)) => error_line(counts, since_reset, ls.last()),
            None => None,
        }
    }
}

pub open spec fn more_than_flush(counts: Seq<(Seq<char>, u64)>) -> bool {
    exists|i: int| 0 <= i < counts.len() && (#[trigger] counts[i]).0 != "flush"@
}

/// The error counters of a member; none where a line is malformed or nothing
/// but flush errors is counted.
pub open spec fn error_table(s: Seq<char>) -> Option<Seq<(Seq<char>, u64)>> {
    match error_scan(lines_of(s)) {
        Some((counts, _)) => if more_than_flush(counts) {
            Some(counts)
        } else {
            None
        },
        None => None,
    }
}

proof fn lemma_error_scan_stops(ls: Seq<Seq<char>>, k: int)
    requires
        0 <= k <= ls.len(),
        error_scan(ls.take(k)) is None,
    ensures
        error_scan(ls) is None,
    decreases ls.len() - k,
{
    if k < ls.len() {
        lemma_next_line(ls, k);
        lemma_error_scan_stops(ls, k + 1);
    } else {
        assert(ls.take(k) =~= ls);
    }
}

fn error_step(counts: &mut StrMap<u64>, since_reset: bool, raw: &str) -> (r: Option<bool>)
    ensures
        match error_line(old(counts)@, since_reset, raw@) {
            Some((after, reset)) => r == Some(reset) && final(counts)@ == after,
            None => r is None,
        },
{
    let line = trim(raw);
    let mut f = words(line.as_str());
    let n = count(&f);
    if same(line.as_str(), "IO errors since filesystem creation") {
        counts.insert("flush", 0);
        return Some(since_reset);
    }
    if starts_with(line.as_str(), "IO errors since ") {
        return Some(true);
    }
    if starts_with(line.as_str(), "Flush errors (device not honoring FUA/flush):") {
        if n == 0 {
            return None;
        }
        return match parse_u64(item(&f, n - 1)) {
            Some(v) => {
                counts.insert("flush", v);
                Some(since_reset)
            },
            None => None,
        };
    }
    if since_reset || is_empty(line.as_str()) {
        return Some(since_reset);
    }
    if n == 0 {
        return None;
    }
    match parse_u64(item(&f, n - 1)) {
        Some(v) => {
            if n == 1 {
                return Some(since_reset);
            }
            let ghost before = f@;
            f.pop();
            assert(views(f@) =~= views(before).drop_last());
            let name = to_lowercase(trim_colons(join(&f, " ").as_str()).as_str());
            set_error_count(counts, name.as_str(), v);
            Some(since_reset)
        },
        None => None,
    }
}

pub open spec fn opt_map<V: View>(r: Option<StrMap<V>>) -> Option<Seq<(Seq<char>, V::V)>> {
    match r {
        Some(m) => Some(m@),
        None => None,
    }
}

pub fn parse_io_errors(content: &str) -> (r: Option<StrMap<u64>>)
    ensures
        opt_map(r) == error_table(content@),
{
    let ls = lines(content);
    let ghost all = views(ls@);
    let mut counts: StrMap<u64> = StrMap::new();
    let mut since_reset = false;
    let mut i: usize = 0;
    proof {
        assert(all.take(0) =~= Seq::<Seq<char>>::empty());
    }
    while i < count(&ls)
        invariant
            i <= all.len(),
            all == views(ls@),
            all == lines_of(content@),
            error_scan(all.take(i as int)) == Some((counts@, since_reset)),
        decreases all.len() - i,
    {
        proof {
            lemma_next_line(all, i as int);
        }
        match error_step(&mut counts, since_reset, item(&ls, i)) {
            Some(reset) => {
                since_reset = reset;
            },
            None => {
                proof {
                    lemma_error_scan_stops(all, i + 1);
                }
                return None;
            },
        }
        i = i + 1;
    }
    proof {
        assert(all.take(i as int) =~= all);
    }
    let mut k: usize = 0;
    while k < counts.len()
        invariant
            k <= counts@.len(),
            all == lines_of(content@),
            error_scan(all) == Some((counts@, since_reset)),
            forall|j: int| 0 <= j < k ==> (#[trigger] counts@[j]).0 == "flush"@,
        decreases counts@.len() - k,
    {
        if !same(counts.key_at(k), "flush") {
            return Some(counts);
        }
        k = k + 1;
    }
    None
}

// ------------------------------------------------------------- host statistics

pub open spec fn times_capped(a: u64, b: u64) -> u64 {
    if a * b <= u64::MAX {
        (a * b) as u64
    } else {
        u64::MAX
    }
}

/// Total, available and reclaimable bytes after one line more.
pub open spec fn memory_line(m: (u64, u64, u64), line: Seq<char>) -> (u64, u64, u64) {
    let f = words_of(line);
    let value = if f.len() >= 2 {
        match number(f[1]) {
            Some(n) => n,
            None => 0,
        }
    } else {
        0
    };
    let bytes = times_capped(value, 1024);
    if f.len() == 0 {
        m
    } else if f[0] == "MemTotal:"@ {
        (bytes, m.1, m.2)
    } else if f[0] == "MemAvailable:"@ {
        (m.0, bytes, m.2)
    } else if f[0] == "KReclaimable:"@ {
        (m.0, m.1, bytes)
    } else {
        m
    }
}

pub open spec fn memory_scan(ls: Seq<Seq<char>>) -> (u64, u64, u64)
    decreases ls.len(),
{
    if ls.len() == 0 {
        (0, 0, 0)
    } else {
        memory_line(memory_scan(ls.drop_last()), ls.last())
    }
}

fn memory_step(m: (u64, u64, u64), line: &str) -> (r: (u64, u64, u64))
    ensures
        r == memory_line(m, line@),
{
    let f = words(line);
    let n = count(&f);
    if n == 0 {
        return m;
    }
    let value: u64 = if n >= 2 {
        match parse_u64(item(&f, 1)) {
            Some(v) => v,
            None => 0,
        }
    } else {
        0
    };
    let bytes: u64 = match value.checked_mul(1024) {
        Some(b) => b,
        None => u64::MAX,
    };
    if same(item(&f, 0), "MemTotal:") {
        (bytes, m.1, m.2)
    } else if same(item(&f, 0), "MemAvailable:") {
        (m.0, bytes, m.2)
    } else if same(item(&f, 0), "KReclaimable:") {
        (m.0, m.1, bytes)
    } else {
        m
    }
}

pub fn parse_memory_info(content: &str) -> (r: (u64, u64, u64))
    ensures
        r == memory_scan(lines_of(content@)),
{
    let ls = lines(content);
    let ghost all = views(ls@);
    let mut m: (u64, u64, u64) = (0, 0, 0);
    let mut i: usize = 0;
    proof {
        assert(all.take(0) =~= Seq::<Seq<char>>::empty());
    }
    while i < count(&ls)
        invariant
            i <= all.len(),
            all == views(ls@),
            m == memory_scan(all.take(i as int)),
        decreases all.len() - i,
    {
        proof {
            lemma_next_line(all, i as int);
        }
        m = memory_step(m, item(&ls, i));
        i = i + 1;
    }
    proof {
        assert(all.take(i as int) =~= all);
    }
    m
}

/// A row of `/proc/diskstats`.
#[derive(Debug, Clone, Copy, PartialEq, Eq, Structural)]
pub struct DiskStats {
    pub reads: u64,
    pub writes: u64,
    pub read_ms: u64,
    pub write_ms: u64,
    pub in_flight: u64,
    pub io_ms: u64,
    pub weighted_io_ms: u64,
    pub valid: bool,
    pub discards: Option<u64>,
    pub flushes: Option<u64>,
}

impl DiskStats {
    pub open spec fn blank() -> DiskStats {
        DiskStats {
            reads: 0,
            writes: 0,
            read_ms: 0,
            write_ms: 0,
            in_flight: 0,
            io_ms: 0,
            weighted_io_ms: 0,
            valid: false,
            discards: None,
            flushes: None,
        }
    }
}

impl Default for DiskStats {
    fn default() -> (r: DiskStats)
        ensures
            r == DiskStats::blank(),
    {
        DiskStats {
            reads: 0,
            writes: 0,
            read_ms: 0,
            write_ms: 0,
            in_flight: 0,
            io_ms: 0,
            weighted_io_ms: 0,
            valid: false,
            discards: None,
            flushes: None,
        }
    }
}

pub open spec fn number_in(f: Seq<Seq<char>>, i: int) -> Option<u64> {
    if i < f.len() {
        number(f[i])
    } else {
        None
    }
}

fn parse_in(f: &Vec<String>, i: usize) -> (r: Option<u64>)
    ensures
        r == number_in(views(f@), i as int),
{
    if i < count(f) {
        parse_u64(item(f, i))
    } else {
        None
    }
}

/// The fields of a row; a row with a malformed field counts as none.
pub open spec fn disk_row(f: Seq<Seq<char>>) -> DiskStats {
    match (
        number_in(f, 3),
        number_in(f, 6),
        number_in(f, 7),
        number_in(f, 10),
        number_in(f, 11),
        number_in(f, 12),
        number_in(f, 13),
    ) {
        (
            Some(reads),
            Some(read_ms),
            Some(writes),
            Some(write_ms),
            Some(in_flight),
            Some(io_ms),
            Some(weighted_io_ms),
        ) => DiskStats {
            reads,
            writes,
            read_ms,
            write_ms,
            in_flight,
            io_ms,
            weighted_io_ms,
            valid: true,
            discards: number_in(f, 14),
            flushes: number_in(f, 18),
        },
        _ => DiskStats::blank(),
    }
}

/// The first row of a device with enough fields.
pub open spec fn disk_scan(ls: Seq<Seq<char>>, name: Seq<char>) -> DiskStats
    decreases ls.len(),
{
    if ls.len() == 0 {
        DiskStats::blank()
    } else {
        let f = words_of(ls[0]);
        if f.len() >= 14 && f[2] == name {
            disk_row(f)
        } else {
            disk_scan(ls.skip(1), name)
        }
    }
}

fn disk_fields(f: &Vec<String>) -> (r: DiskStats)
    ensures
        r == disk_row(views(f@)),
{
    match (
        parse_in(f, 3),
        parse_in(f, 6),
        parse_in(f, 7),
        parse_in(f, 10),
        parse_in(f, 11),
        parse_in(f, 12),
        parse_in(f, 13),
    ) {
        (
            Some(reads),
            Some(read_ms),
            Some(writes),
            Some(write_ms),
            Some(in_flight),
            Some(io_ms),
            Some(weighted_io_ms),
        ) => DiskStats {
            reads,
            writes,
            read_ms,
            write_ms,
            in_flight,
            io_ms,
            weighted_io_ms,
            valid: true,
            discards: parse_in(f, 14),
            flushes: parse_in(f, 18),
        },
        _ => DiskStats::default(),
    }
}

pub fn parse_diskstats_for(content: &str, dev_name: &str) -> (r: DiskStats)
    ensures
        r == disk_scan(lines_of(content@), dev_name@),
{
    let ls = lines(content);
    let ghost all = views(ls@);
    let mut i: usize = 0;
    proof {
        assert(all.skip(0) =~= all);
    }
    while i < count(&ls)
        invariant
            i <= all.len(),
            all == views(ls@),
            all == lines_of(content@),
            disk_scan(all, dev_name@) == disk_scan(all.skip(i as int), dev_name@),
        decreases all.len() - i,
    {
        proof {
            assert(all.skip(i as int).skip(1) =~= all.skip(i + 1));
        }
        let f = words(item(&ls, i));
        if count(&f) >= 14 && same(item(&f, 2), dev_name) {
            return disk_fields(&f);
        }
        i = i + 1;
    }
    DiskStats::default()
}

/// The texts that are numbers.
pub open spec fn numbers_in(f: Seq<Seq<char>>) -> Seq<u64>
    decreases f.len(),
{
    if f.len() == 0 {
        Seq::empty()
    } else {
        match number(f.last()) {
            Some(n) => numbers_in(f.drop_last()).push(n),
            None => numbers_in(f.drop_last()),
        }
    }
}

pub open spec fn total(s: Seq<u64>) -> nat
    decreases s.len(),
{
    if s.len() == 0 {
        0
    } else {
        total(s.drop_last()) + s.last() as nat
    }
}

/// A sum within 64 bits.
pub open spec fn wrapped(n: nat) -> u64 {
    (n % 0x1_0000_0000_0000_0000) as u64
}

pub fn sum_all(v: &Vec<u64>) -> (r: u64)
    ensures
        r == wrapped(total(v@)),
{
    let mut sum: u64 = 0;
    let mut i: usize = 0;
    proof {
        assert(v@.take(0) =~= Seq::<u64>::empty());
    }
    while i < v.len()
        invariant
            i <= v@.len(),
            sum == wrapped(total(v@.take(i as int))),
        decreases v@.len() - i,
    {
        proof {
            assert(v@.take(i + 1).drop_last() =~= v@.take(i as int));
            assert(v@.take(i + 1).last() == v@[i as int]);
        }
        sum = sum.wrapping_add(v[i]);
        i = i + 1;
    }
    proof {
        assert(v@.take(i as int) =~= v@);
    }
    sum
}

/// Waiting and total processor time from the line of all processors.
pub open spec fn cpu_scan(ls: Seq<Seq<char>>) -> (u64, u64)
    decreases ls.len(),
{
    if ls.len() == 0 {
        (0, 0)
    } else if has_prefix(ls[0], "cpu "@) {
        let f = words_of(ls[0]);
        let n = numbers_in(f.subrange(1, f.len() as int));
        if f.len() > 0 && n.len() >= 5 {
            (n[4], wrapped(total(n)))
        } else {
            (0, 0)
        }
    } else {
        cpu_scan(ls.skip(1))
    }
}

fn numbers_from(f: &Vec<String>, from: usize) -> (r: Vec<u64>)
    requires
        from <= f@.len(),
    ensures
        r@ == numbers_in(views(f@).skip(from as int)),
{
    let ghost all = views(f@).skip(from as int);
    let mut r: Vec<u64> = Vec::new();
    let mut i: usize = from;
    proof {
        assert(all.take(0) =~= Seq::<Seq<char>>::empty());
    }
    while i < count(f)
        invariant
            from <= i <= f@.len(),
            all == views(f@).skip(from as int),
            r@ == numbers_in(all.take(i - from)),
        decreases f@.len() - i,
    {
        proof {
            lemma_next_line(all, i - from);
        }
        if let Some(n) = parse_u64(item(f, i)) {
            r.push(n);
        }
        i = i + 1;
    }
    proof {
        assert(all.take(i - from) =~= all);
    }
    r
}

pub fn parse_cpu_iowait(content: &str) -> (r: (u64, u64))
    ensures
        r == cpu_scan(lines_of(content@)),
{
    let ls = lines(content);
    let ghost all = views(ls@);
    let mut i: usize = 0;
    proof {
        assert(all.skip(0) =~= all);
    }
    while i < count(&ls)
        invariant
            i <= all.len(),
            all == views(ls@),
            all == lines_of(content@),
            cpu_scan(all) == cpu_scan(all.skip(i as int)),
        decreases all.len() - i,
    {
        proof {
            assert(all.skip(i as int).skip(1) =~= all.skip(i + 1));
        }
        if starts_with(item(&ls, i), "cpu ") {
            let f = words(item(&ls, i));
            if count(&f) == 0 {
                return (0, 0);
            }
            let n = numbers_from(&f, 1);
            assert(views(f@).skip(1) =~= views(f@).subrange(1, f@.len() as int));
            return if n.len() >= 5 {
                (n[4], sum_all(&n))
            } else {
                (0, 0)
            };
        }
        i = i + 1;
    }
    (0, 0)
}

/// Counts since a reset are neither added nor put in place of the lifetime
/// counts: once their section began, no line of a category changes anything.
pub proof fn law_counts_since_a_reset_are_left_out(
    ls: Seq<Seq<char>>,
    counts: Seq<(Seq<char>, u64)>,
    line: Seq<char>,
)
    requires
        error_scan(ls) == Some((counts, true)),
        trimmed(line) != "IO errors since filesystem creation"@,
        !has_prefix(trimmed(line), "Flush errors (device not honoring FUA/flush):"@),
    ensures
        error_scan(ls.push(line)) == Some((counts, true)),
{
    assert(ls.push(line).drop_last() =~= ls);
}

proof fn lemma_ascii_trimmed(s: Seq<char>)
    requires
        is_ascii(s),
    ensures
        is_ascii(trimmed_start(s)),
        is_ascii(trimmed_end(s)),
    decreases s.len(),
{
    if s.len() > 0 {
        lemma_ascii_part(s, 1, s.len() as int);
        lemma_ascii_part(s, 0, s.len() - 1);
        assert(s.skip(1) =~= s.subrange(1, s.len() as int));
        assert(s.drop_last() =~= s.subrange(0, s.len() - 1));
        lemma_ascii_trimmed(s.skip(1));
        lemma_ascii_trimmed(s.drop_last());
    }
}

proof fn lemma_ascii_part(s: Seq<char>, from: int, to: int)
    requires
        is_ascii(s),
        0 <= from <= to <= s.len(),
    ensures
        is_ascii(s.subrange(from, to)),
{
    assert forall|i: int| 0 <= i < to - from implies (#[trigger] s.subrange(from, to)[i])
        < '\u{80}' by {
        assert(s.subrange(from, to)[i] == s[from + i]);
    }
}

proof fn lemma_ascii_words(s: Seq<char>)
    requires
        is_ascii(s),
    ensures
        forall|k: int| 0 <= k < words_of(s).len() ==> is_ascii(#[trigger] words_of(s)[k]),
    decreases s.len(),
{
    let n = head_len(s, Sep::White);
    let w = words_of(s);
    if s.len() == 0 {
        assert(w.len() == 0);
    } else if n == 0 {
        lemma_ascii_part(s, 1, s.len() as int);
        assert(s.skip(1) =~= s.subrange(1, s.len() as int));
        lemma_ascii_words(s.skip(1));
        assert(w == words_of(s.skip(1)));
    } else if n >= s.len() {
        assert(w =~= seq![s]);
    } else {
        lemma_ascii_part(s, 0, n as int);
        lemma_ascii_part(s, n as int, s.len() as int);
        assert(s.take(n as int) =~= s.subrange(0, n as int));
        assert(s.skip(n as int) =~= s.subrange(n as int, s.len() as int));
        lemma_ascii_words(s.skip(n as int));
        let rest = words_of(s.skip(n as int));
        assert(w == seq![s.take(n as int)] + rest);
        assert forall|k: int| 0 <= k < w.len() implies is_ascii(#[trigger] w[k]) by {
            if k > 0 {
                assert(w[k] == rest[k - 1]);
            }
        }
    }
}

proof fn lemma_ascii_joined(list: Seq<Seq<char>>)
    requires
        forall|k: int| 0 <= k < list.len() ==> is_ascii(#[trigger] list[k]),
    ensures
        is_ascii(joined(list, " "@)),
    decreases list.len(),
{
    reveal_strlit(" ");
    if list.len() == 1 {
        assert(is_ascii(list[0]));
    } else if list.len() > 1 {
        let rest = list.drop_last();
        assert forall|k: int| 0 <= k < rest.len() implies is_ascii(#[trigger] rest[k]) by {
            assert(rest[k] == list[k]);
        }
        lemma_ascii_joined(rest);
        assert(is_ascii(list[list.len() - 1]));
        let a = joined(rest, " "@);
        let b = a + " "@;
        let all = b + list.last();
        assert forall|i: int| 0 <= i < all.len() implies (#[trigger] all[i]) < '\u{80}' by {
            if i < a.len() {
                assert(all[i] == a[i]);
            } else if i >= b.len() {
                assert(all[i] == list.last()[i - b.len()]);
            } else {
                assert(all[i] == ' ');
            }
        }
    }
}

proof fn lemma_ascii_without_colons(s: Seq<char>)
    requires
        is_ascii(s),
    ensures
        is_ascii(without_colons(s)),
    decreases s.len(),
{
    if s.len() > 0 {
        lemma_ascii_part(s, 0, s.len() - 1);
        assert(s.drop_last() =~= s.subrange(0, s.len() - 1));
        lemma_ascii_without_colons(s.drop_last());
    }
}

/// A line of ASCII characters names its counter by its own words, with their
/// letters lowered: `read` stays `read`.
pub proof fn law_ascii_names_are_only_lowered(raw: Seq<char>)
    requires
        is_ascii(raw),
    ensures
        ({
            let f = words_of(trimmed(raw));
            f.len() > 0 ==> error_name(f.drop_last()) == counter_named(
                ascii_lowered(without_colons(joined(f.drop_last(), " "@))),
            )
        }),
{
    let f = words_of(trimmed(raw));
    lemma_ascii_trimmed(raw);
    lemma_ascii_trimmed(trimmed_start(raw));
    lemma_ascii_words(trimmed(raw));
    if f.len() > 0 {
        let names = f.drop_last();
        assert forall|k: int| 0 <= k < names.len() implies is_ascii(#[trigger] names[k]) by {
            assert(names[k] == f[k]);
        }
        lemma_ascii_joined(names);
        lemma_ascii_without_colons(joined(names, " "@));
    }
}

} // verus!
