//! Where a snapshot takes what it does not state itself from: mounts, links, either
//! of two files, or the snapshot before it.

use crate::app::errors_by_name;
use crate::collect::{
    background_of, copygc_of, kept_of, known_before, reconcile_of, same_member, snapshot_of,
    target_of, RawFsView, RawUsageView,
};
use crate::json::{members_at, number_at, numbers, own_number, JsonMemberView};
use crate::member::{devices_of, file_in, with_usage, FilesView};
use crate::parse::{first_btree, gc_scan, human_bytes};
use crate::readings::lemma_prefix_at;
use crate::spelling::is_whole;
use crate::stats::{add_fallback, count_from, first_count, stat_json, stat_text, stats_of_json};
use crate::status::{
    all_described, base_of, described, linked_device, mount_scan, name_of, plain_lines,
    reconcile_status, DirLinkView, FsDirView,
};
use crate::strmap::{find, has_key, law_put_then_find};
use crate::sysfs::{DeviceInfoView, FsSnapshotView, TimeStatFullView};
use crate::targets::{CopyGcStatusView, ReconcileStatusView};
use crate::text::{
    has_prefix, head_len, joined, lemma_head_len, lemma_head_len_is, lines_of, number, pieces,
    trimmed, words_of, Sep,
};
use crate::tuning::names_in;
use crate::window::since;
use vstd::prelude::*;

verus! {

// ----------------------------------------------------------------------- mounts

/// A line of the mounts registers its source at its mount point where it is one of
/// bcachefs and the source is not known yet; other lines register nothing.
pub proof fn law_a_mount_is_registered(ls: Seq<Seq<char>>, line: Seq<char>, source: Seq<char>)
    requires
        words_of(line).len() >= 3,
        pieces(words_of(line)[0], Sep::Is(':')) == seq![source],
    ensures
        ({
            let before = mount_scan(ls);
            let after = mount_scan(ls.push(line));
            &&& words_of(line)[2] == "bcachefs"@ && !has_key(before, source) ==> find(after, source)
                == Some(words_of(line)[1])
            &&& words_of(line)[2] != "bcachefs"@ ==> after == before
        }),
{
    assert(ls.push(line).drop_last() =~= ls);
    let before = mount_scan(ls);
    let one = seq![source];
    assert(one.drop_last() =~= Seq::<Seq<char>>::empty());
    assert(crate::status::add_sources(before, one.drop_last(), words_of(line)[1]) == before);
    assert(one.last() == source);
    law_put_then_find(before, source, words_of(line)[1], source);
}

proof fn lemma_pieces_behind(a: Seq<char>, c: char, b: Seq<char>)
    ensures
        pieces(a.push(c) + b, Sep::Is(c)) == pieces(a, Sep::Is(c)) + pieces(b, Sep::Is(c)),
    decreases a.len(),
{
    let sep = Sep::Is(c);
    let all = a.push(c) + b;
    let n = head_len(a, sep);
    lemma_head_len(a, sep);
    assert(all[n as int] == a.push(c)[n as int]);
    assert forall|i: int| 0 <= i < n implies !sep.hits(#[trigger] all[i]) by {
        assert(all[i] == a[i]);
    }
    lemma_head_len_is(all, sep, n);
    if n >= a.len() {
        assert(all.take(n as int) =~= a);
        assert(all.skip(n as int + 1) =~= b);
    } else {
        let rest = a.skip(n as int + 1);
        lemma_pieces_behind(rest, c, b);
        assert(all.take(n as int) =~= a.take(n as int));
        assert(all.skip(n as int + 1) =~= rest.push(c) + b);
        assert(pieces(all, sep) =~= pieces(a, sep) + pieces(b, sep));
    }
}

/// The last part of a path is what stands behind its last slash.
pub proof fn law_a_path_ends_in_its_name(dir: Seq<char>, name: Seq<char>)
    requires
        name.len() > 0,
        is_whole(name, Sep::Is('/')),
        name != "."@,
        name != ".."@,
    ensures
        base_of(dir.push('/') + name) == Some(name),
        base_of(name) == Some(name),
{
    let sep = Sep::Is('/');
    lemma_head_len(name, sep);
    if head_len(name, sep) < name.len() {
        assert(sep.hits(name[head_len(name, sep) as int]));
    }
    assert(pieces(name, sep) == seq![name]);
    lemma_pieces_behind(dir, '/', name);
    let all = pieces(dir, sep) + seq![name];
    assert(all.last() == name);
}

/// The link of a member's directory leads to its block device; other directories
/// are of no member.
pub proof fn law_links_lead_to_devices(l: DirLinkView)
    ensures
        has_prefix(l.dir, "dev-"@) && l.target is Some ==> linked_device(l) == base_of(l.target->0),
        !has_prefix(l.dir, "dev-"@) || l.target is None ==> linked_device(l) is None,
{
}

/// A filesystem has the identifier and the place of its directory, and the mount
/// point of its identifier or of its devices.
pub proof fn law_a_filesystem_is_described(
    d: FsDirView,
    mounts: Seq<(Seq<char>, Seq<char>)>,
    at: Seq<char>,
)
    requires
        find(mounts, "/dev/disk/by-uuid/"@ + d.uuid) == Some(at),
    ensures
        ({
            let fs = described(d, mounts);
            &&& fs.uuid == d.uuid && fs.sysfs == d.sysfs && fs.mount_point == at
            &&& fs.fs_name == name_of(d.label, at, d.uuid)
        }),
{
}

// ------------------------------------------------------------------------- JSON

/// A key of an object is looked up by its name, the first of a name counts.
pub proof fn law_keys_are_looked_up(s: Seq<JsonMemberView>, m: JsonMemberView, key: Seq<char>)
    ensures
        ({
            let all = seq![m] + s;
            &&& own_number(all, m.key) == m.number && members_at(all, m.key) == m.members
            &&& key != m.key ==> own_number(all, key) == own_number(s, key) && members_at(all, key)
                == members_at(s, key)
        }),
        own_number(Seq::empty(), key) is None,
        members_at(Seq::empty(), key).len() == 0,
{
    let all = seq![m] + s;
    assert(all[0] == m);
    assert(all.skip(1) =~= s);
}

/// The same for numbers; those of an object are kept under their names, and what is
/// no number is left out.
pub proof fn law_numbers_are_kept_by_name(
    s: Seq<(Seq<char>, Option<u64>)>,
    name: Seq<char>,
    value: Option<u64>,
    other: Seq<char>,
)
    ensures
        number_at(seq![(name, value)] + s, name) == value,
        other != name ==> number_at(seq![(name, value)] + s, other) == number_at(s, other),
        ({
            let before = numbers(s);
            let after = numbers(s.push((name, value)));
            &&& value is Some ==> find(after, name) == value
            &&& value is None ==> after == before
            &&& other != name ==> find(after, other) == find(before, other)
        }),
        numbers(Seq::empty()).len() == 0,
{
    let all = seq![(name, value)] + s;
    assert(all[0] == (name, value));
    assert(all.skip(1) =~= s);
    let more = s.push((name, value));
    assert(more.drop_last() =~= s);
    assert(more.last() == (name, value));
    if let Some(n) = value {
        law_put_then_find(numbers(s), name, n, name);
        law_put_then_find(numbers(s), name, n, other);
    }
}

// ------------------------------------------------------------------- operations

/// A count that JSON does not have is that of the first line that states one.
pub proof fn law_counts_come_from_the_text(ls: Seq<Seq<char>>, text: Seq<char>, n: u64)
    requires
        ls == lines_of(text),
        ls.len() > 0,
    ensures
        ({
            let line = trimmed(ls[0]);
            let k = "count:"@.len() as int;
            has_prefix(line, "count:"@) && number(trimmed(line.skip(k))) == Some(n) ==> first_count(
                ls,
            ) == Some(n) && count_from(None, text) == n
        }),
        !has_prefix(trimmed(ls[0]), "count:"@) ==> first_count(ls) == first_count(ls.skip(1)),
{
}

/// Every JSON file with a count is an operation, under the name of its file.
pub proof fn law_json_files_are_operations(
    files: Seq<(Seq<char>, Seq<char>)>,
    name: Seq<char>,
    content: Seq<char>,
)
    ensures
        ({
            let before = stats_of_json(files);
            let after = stats_of_json(files.push((name, content)));
            let t = stat_json(name, crate::json::json_members(content));
            &&& t is Some ==> after == before.push(t->0)
            &&& t is None ==> after == before
        }),
{
    assert(files.push((name, content)).drop_last() =~= files);
}

/// An operation that JSON has is not read from its text; one that it does not have
/// is.
pub proof fn law_text_stands_in_for_json(
    stats: Seq<TimeStatFullView>,
    name: Seq<char>,
    texts: Seq<(Seq<char>, Seq<char>)>,
    content: Seq<char>,
    t: TimeStatFullView,
)
    ensures
        (exists|i: int| 0 <= i < stats.len() && (#[trigger] stats[i]).name == name) ==> add_fallback(
            stats,
            name,
            texts,
        ) == stats,
        (forall|i: int| 0 <= i < stats.len() ==> (#[trigger] stats[i]).name != name) && find(
            texts,
            name,
        ) == Some(content) && trimmed(content).len() > 0 && stat_text(name, trimmed(content))
            == Some(t) ==> add_fallback(stats, name, texts) == stats.push(t),
{
}

// --------------------------------------------------------------- status of tasks

/// The status of copygc is in the file of either name, the newer first.
pub proof fn law_copygc_has_two_files(internal: FilesView, text: Seq<char>)
    ensures
        file_in(internal, "copy_gc_wait"@) == Some(text) ==> copygc_of(internal) == gc_scan(
            lines_of(text),
        ).0,
        file_in(internal, "copy_gc_wait"@) is None && file_in(internal, "copygc_status"@) == Some(
            text,
        ) ==> copygc_of(internal) == gc_scan(lines_of(text)).0,
        file_in(internal, "copy_gc_wait"@) is None && file_in(internal, "copygc_status"@) is None
            ==> copygc_of(internal).running is None && copygc_of(internal).needs_gc.len() == 0,
{
}

/// Reconcile is off where it is switched off; what it does is known only where it is
/// switched on and the tool answered.
pub proof fn law_reconcile_is_asked_where_it_is_on(
    options: Seq<(Seq<char>, Seq<char>)>,
    text: Seq<char>,
)
    ensures
        find(options, "reconcile_enabled"@) == Some("1"@) ==> reconcile_of(options, Some(text))
            == reconcile_status(joined(plain_lines(lines_of(text)), "\n"@)),
        find(options, "reconcile_enabled"@) == Some("1"@) ==> reconcile_of(options, None).state
            is None,
        find(options, "reconcile_enabled"@) == Some("0"@) ==> reconcile_of(options, Some(text)).state
            == Some("off"@) && reconcile_of(options, Some(text)).work.len() == 0,
        find(options, "reconcile_enabled"@) is None ==> reconcile_of(options, Some(text)).state
            is None,
{
    reveal_strlit("0");
    reveal_strlit("1");
    assert("0"@[0] == '0');
    assert("1"@[0] == '1');
}

/// Rebalance stands behind reconcile where the kernel has it: off, or what its file
/// says of running.
pub proof fn law_rebalance_runs_as_its_file_says(
    names: Seq<Seq<char>>,
    options: FilesView,
    internal: FilesView,
    reconcile: ReconcileStatusView,
    copygc: CopyGcStatusView,
    text: Seq<char>,
)
    requires
        names.contains("rebalance_enabled"@),
    ensures
        ({
            let all = background_of(names, options, internal, reconcile, copygc);
            let on = find(options, "rebalance_enabled"@) is Some && trimmed(
                find(options, "rebalance_enabled"@)->0,
            ) == "1"@;
            &&& all.len() >= 2 && all[1].0 == "rebalance"@
            &&& !on ==> all[1].1 == "off"@
            &&& on && find(internal, "rebalance_status"@) is None ==> all[1].1 == "enabled"@
            &&& on && find(internal, "rebalance_status"@) == Some(text) && lines_of(text).len() > 0
                && has_prefix(trimmed(lines_of(text)[0]), "running:"@) ==> all[1].1 == if trimmed(
                pieces(lines_of(text)[0], Sep::Is(':')).last(),
            ) == "1"@ {
                "working"@
            } else {
                "idle"@
            }
        }),
{
}

// ---------------------------------------------------------------------- targets

/// A target that is a path stands for the device that it leads to; a label stands
/// for no device.
pub proof fn law_a_path_stands_for_its_device(
    role: Seq<char>,
    options: Seq<(Seq<char>, Seq<char>)>,
    canonical: FilesView,
    target: Seq<char>,
)
    requires
        find(options, role + "_target"@) == Some(target),
    ensures
        target_of(role, options, canonical) matches Some(t) && {
            &&& t.role == role && t.target == target
            &&& !has_prefix(target, "/"@) ==> t.device_name is None
            &&& has_prefix(target, "/"@) && find(canonical, target) is None ==> t.device_name is None
            &&& has_prefix(target, "/"@) && find(canonical, target) is Some ==> t.device_name
                == base_of(find(canonical, target)->0)
        },
{
}

// ------------------------------------------------------------------ slow tables

/// Whether nothing is different that decides what the slow tables say of a member.
pub open spec fn is_unchanged(p: DeviceInfoView, d: DeviceInfoView) -> bool {
    &&& p.index == d.index && p.name == d.name
    &&& p.member_uuid == d.member_uuid && p.label == d.label
    &&& p.allocation.state == d.allocation.state && p.allocation.online == d.allocation.online
    &&& p.allocation.durability == d.allocation.durability
    &&& p.allocation.data_allowed == d.allocation.data_allowed
}

/// Whether a member is one of those before, unchanged.
pub open spec fn is_among(before: Seq<DeviceInfoView>, d: DeviceInfoView) -> bool {
    exists|k: int| 0 <= k < before.len() && is_unchanged(#[trigger] before[k], d)
}

/// The slow tables are kept for ten seconds, exactly while the options and every
/// member are as they were.
pub proof fn law_unchanged_tables_are_kept(raw: RawFsView, previous: FsSnapshotView)
    ensures
        ({
            let devices = devices_of(raw.devices, raw.diskstats, raw.nodes);
            kept_of(raw, Some(previous)) is Some <==> {
                &&& previous.options == crate::status::options_of(raw.options)
                &&& previous.allocation_sampled_at is Some && since(
                    raw.now,
                    previous.allocation_sampled_at->0,
                ) < 10_000_000_000
                &&& previous.devices.len() == devices.len()
                &&& forall|i: int|
                    0 <= i < devices.len() ==> is_among(previous.devices, #[trigger] devices[i])
            }
        }),
        kept_of(raw, None) is None,
{
    let devices = devices_of(raw.devices, raw.diskstats, raw.nodes);
    assert forall|i: int| 0 <= i < devices.len() implies known_before(
        previous.devices,
        #[trigger] devices[i],
    ) == is_among(previous.devices, devices[i]) by {
        lemma_among(previous.devices, devices[i]);
    }
}

proof fn lemma_among(before: Seq<DeviceInfoView>, d: DeviceInfoView)
    ensures
        known_before(before, d) == is_among(before, d),
{
    if known_before(before, d) {
        let k = choose|k: int| 0 <= k < before.len() && same_member(#[trigger] before[k], d);
        assert(is_unchanged(before[k], d));
    }
    if is_among(before, d) {
        let k = choose|k: int| 0 <= k < before.len() && is_unchanged(#[trigger] before[k], d);
        assert(same_member(before[k], d));
    }
}

/// Tables that are not kept are read anew: those of a member from its directory, and
/// the btree's from the table of the filesystem. They are of now.
pub proof fn law_tables_are_read_anew(
    raw: RawFsView,
    usage: RawUsageView,
    previous: Option<FsSnapshotView>,
    i: int,
)
    requires
        kept_of(raw, previous) is None,
        0 <= i < devices_of(raw.devices, raw.diskstats, raw.nodes).len(),
    ensures
        ({
            let d = devices_of(raw.devices, raw.diskstats, raw.nodes)[i];
            let next = snapshot_of(raw, usage, previous);
            let files = find(usage.members, crate::member::dir_of(d.index));
            &&& next.allocation_sampled_at == Some(raw.now)
            &&& next.devices.len() == devices_of(raw.devices, raw.diskstats, raw.nodes).len()
            &&& next.devices[i].name == d.name && next.devices[i].index == d.index
            &&& files is Some ==> next.devices[i].allocation == with_usage(d.allocation, files->0)
            &&& usage.alloc_debug is Some && trimmed(usage.alloc_debug->0).len() > 0
                ==> next.btree_disk_bytes == first_btree(lines_of(trimmed(usage.alloc_debug->0)))
            &&& usage.alloc_debug is None ==> next.btree_disk_bytes is None
            &&& file_in(raw.top, "btree_cache_size"@) matches Some(t) ==> next.btree_cache_size_bytes
                == human_bytes(t)
        }),
{
}

/// A warning of the tool is no line of its output; all other lines are, in order.
pub proof fn law_warnings_are_left_out(ls: Seq<Seq<char>>, line: Seq<char>)
    ensures
        ({
            let t = crate::text::trimmed_start(line);
            let warns = has_prefix(t, "WARNING:"@) || has_prefix(t, "please alert"@);
            &&& warns ==> plain_lines(ls.push(line)) == plain_lines(ls)
            &&& !warns ==> plain_lines(ls.push(line)) == plain_lines(ls).push(line)
        }),
        plain_lines(Seq::empty()).len() == 0,
{
    assert(ls.push(line).drop_last() =~= ls);
}

/// The errors that a device starts with are its own; of devices of one name, those of
/// the last.
pub proof fn law_errors_start_with_the_devices(
    devices: Seq<DeviceInfoView>,
    d: DeviceInfoView,
    other: Seq<char>,
)
    ensures
        find(errors_by_name(devices.push(d)), d.name) == Some(d.io_errors),
        other != d.name ==> find(errors_by_name(devices.push(d)), other) == find(
            errors_by_name(devices),
            other,
        ),
        errors_by_name(Seq::empty()).len() == 0,
{
    assert(devices.push(d).drop_last() =~= devices);
    assert(devices.push(d).last() == d);
    law_put_then_find(errors_by_name(devices), d.name, d.io_errors, d.name);
    law_put_then_find(errors_by_name(devices), d.name, d.io_errors, other);
}

/// Every directory is a filesystem, in order, described by the table of mounts.
pub proof fn law_every_directory_is_described(dirs: Seq<FsDirView>, mounts: Seq<char>, i: int)
    requires
        0 <= i < dirs.len(),
    ensures
        all_described(dirs, mounts).len() == dirs.len(),
        all_described(dirs, mounts)[i] == described(dirs[i], mount_scan(lines_of(mounts))),
        all_described(dirs, mounts)[i].uuid == dirs[i].uuid,
{
}

/// A list of names has one to a line, trimmed; blank lines and comments name nothing.
pub proof fn law_lists_have_a_name_to_a_line(ls: Seq<Seq<char>>, line: Seq<char>)
    ensures
        ({
            let t = trimmed(line);
            let names_one = t.len() > 0 && t[0] != '#';
            &&& names_one ==> names_in(ls.push(line)) == names_in(ls).push(t)
            &&& !names_one ==> names_in(ls.push(line)) == names_in(ls)
        }),
        names_in(Seq::empty()).len() == 0,
{
    assert(ls.push(line).drop_last() =~= ls);
    let t = trimmed(line);
    reveal_strlit("#");
    if has_prefix(t, "#"@) {
        lemma_prefix_at(t, "#"@, 0);
    }
    if t.len() > 0 && t[0] == '#' {
        assert(t.take(1) =~= "#"@);
    }
}

} // verus!
