//! What a snapshot of a filesystem is made of: the journal, the space, the background
//! work, the mounts and the processes, each as its own text states it.

use crate::collect::{background_of, snapshot_of, targets_of, RawFsView, RawUsageView};
use crate::double::{whole, zero, Double};
use crate::member::FilesView;
use crate::numeral::parsed;
use crate::parse::{cpu_scan, human_bytes, memory_scan};
use crate::readings::lemma_prefix_at;
use crate::stats::{all_stats, blocked_stats, count_from, json_of, mean_scan};
use crate::status::{
    base_of, counter_of, counters_of, fraction, io_scan, journal_scan, mount_of, name_of,
    options_of, percentage, processes_of, reconcile_scan, reconcile_status, since_mount, space_of,
    usage_scan, RawProcessView, StatFs,
};
use crate::strmap::{find, law_put_then_find};
use crate::sysfs::FsSnapshotView;
use crate::targets::{CopyGcStatusView, ReconcileStatusView};
use crate::text::{
    cut_first, has_part, has_prefix, lines_of, number, number32, pieces, trimmed, trimmed_start,
    words_of, Sep,
};
use vstd::prelude::*;

verus! {

// ---------------------------------------------------------------------- journal

/// A fraction of two numbers around a slash is the dirty entries and all entries,
/// where there are any and not more are dirty.
pub proof fn law_a_fraction_is_dirty_of_all(s: Seq<char>, dirty: u64, all: u64)
    requires
        pieces(trimmed(s), Sep::Is('/')).len() == 2,
        number(trimmed(pieces(trimmed(s), Sep::Is('/'))[0])) == Some(dirty),
        number(trimmed(pieces(trimmed(s), Sep::Is('/'))[1])) == Some(all),
    ensures
        all > 0 && dirty <= all ==> fraction(s) == Some((dirty, all)),
        all == 0 || dirty > all ==> fraction(s) is None,
{
}

/// A line of the journal sets what it names and leaves the rest.
pub proof fn law_the_journal_is_read_by_name(ls: Seq<Seq<char>>, line: Seq<char>)
    ensures
        ({
            let t = trimmed(line);
            let (a, mark) = journal_scan(ls);
            let (b, after) = journal_scan(ls.push(line));
            &&& has_prefix(t, "seq:"@) ==> b.seq == number(
                trimmed(t.skip("seq:"@.len() as int)),
            ) && b.seq_ondisk == a.seq_ondisk && b.entries == a.entries && after == mark
            &&& has_prefix(t, "seq_ondisk:"@) ==> b.seq_ondisk == number(
                trimmed(t.skip("seq_ondisk:"@.len() as int)),
            ) && b.seq == a.seq && b.entries == a.entries && after == mark
            &&& has_prefix(t, "watermark:"@) ==> after == trimmed(
                t.skip("watermark:"@.len() as int),
            ) && b == a
            &&& has_prefix(t, "dirty journal entries:"@) ==> {
                let f = fraction(t.skip("dirty journal entries:"@.len() as int));
                &&& f is Some ==> b.entries == f
                &&& f is None ==> b.entries == a.entries
                &&& b.seq == a.seq && b.seq_ondisk == a.seq_ondisk && after == mark
            }
        }),
        journal_scan(Seq::empty()).0.entries is None,
        journal_scan(Seq::empty()).0.seq is None,
        journal_scan(Seq::empty()).0.seq_ondisk is None,
{
    assert(ls.push(line).drop_last() =~= ls);
    let t = trimmed(line);
    reveal_strlit("seq:");
    reveal_strlit("seq_ondisk:");
    reveal_strlit("watermark:");
    reveal_strlit("dirty journal entries:");
    if has_prefix(t, "seq:"@) {
        lemma_prefix_at(t, "seq:"@, 0);
        lemma_prefix_at(t, "seq:"@, 3);
    }
    if has_prefix(t, "seq_ondisk:"@) {
        lemma_prefix_at(t, "seq_ondisk:"@, 0);
        lemma_prefix_at(t, "seq_ondisk:"@, 3);
    }
    if has_prefix(t, "watermark:"@) {
        lemma_prefix_at(t, "watermark:"@, 0);
    }
    if has_prefix(t, "dirty journal entries:"@) {
        lemma_prefix_at(t, "dirty journal entries:"@, 0);
    }
}

// ------------------------------------------------------------------------ space

/// The size of a filesystem is its blocks, and used is what is not available, at the
/// size of a block.
pub proof fn law_used_space_is_what_is_not_available(s: StatFs, usage: (u64, u64))
    requires
        s.blocks * s.block_size <= u64::MAX,
        s.available * s.block_size <= u64::MAX,
    ensures
        s.blocks * s.block_size > 0 && s.available <= s.blocks ==> space_of(Some(s), usage) == (
            (s.blocks * s.block_size) as u64,
            (s.blocks * s.block_size - s.available * s.block_size) as u64,
        ),
        s.blocks * s.block_size == 0 ==> space_of(Some(s), usage) == usage,
        space_of(None, usage) == usage,
{
    let b = s.blocks as int;
    let a = s.available as int;
    let z = s.block_size as int;
    if a <= b {
        assert(a * z <= b * z) by (nonlinear_arith)
            requires
                a <= b,
                0 <= z,
        ;
    }
    assert(0 <= b * z && 0 <= a * z) by (nonlinear_arith)
        requires
            0 <= a,
            0 <= b,
            0 <= z,
    ;
}

/// The table of usage states the size and what is used, each in its own line.
pub proof fn law_usage_is_read_by_name(ls: Seq<Seq<char>>, line: Seq<char>, n: u64)
    ensures
        ({
            let t = trimmed_start(line);
            let before = usage_scan(ls);
            let after = usage_scan(ls.push(line));
            &&& has_prefix(t, "Size:"@) && number(trimmed(t.skip("Size:"@.len() as int))) == Some(n)
                ==> after == (n, before.1)
            &&& has_prefix(t, "Used:"@) && number(trimmed(t.skip("Used:"@.len() as int))) == Some(n)
                ==> after == (before.0, n)
            &&& !has_prefix(t, "Size:"@) && !has_prefix(t, "Used:"@) ==> after == before
        }),
        usage_scan(Seq::empty()) == (0u64, 0u64),
{
    assert(ls.push(line).drop_last() =~= ls);
    let t = trimmed_start(line);
    reveal_strlit("Size:");
    reveal_strlit("Used:");
    reveal_strlit("WARNING:");
    reveal_strlit("please alert");
    if has_prefix(t, "Size:"@) {
        lemma_prefix_at(t, "Size:"@, 0);
    }
    if has_prefix(t, "Used:"@) {
        lemma_prefix_at(t, "Used:"@, 0);
    }
    if has_prefix(t, "WARNING:"@) {
        lemma_prefix_at(t, "WARNING:"@, 0);
    }
    if has_prefix(t, "please alert"@) {
        lemma_prefix_at(t, "please alert"@, 0);
    }
}

// -------------------------------------------------------------------- reconcile

/// A line of the status of reconcile is a row of its table: a category with the bytes
/// of data and metadata in the columns that the heading named.
pub proof fn law_reconcile_work_is_read_by_column(
    ls: Seq<Seq<char>>,
    line: Seq<char>,
    name: Seq<char>,
    data: nat,
    metadata: nat,
)
    requires
        reconcile_scan(ls).1 == Some((data, metadata)),
        !crate::status::is_warning(line),
        words_of(trimmed(line)).len() > data,
        words_of(trimmed(line)).len() > metadata,
        words_of(trimmed(line))[0] == name + ":"@,
        name == "replicas"@ || name == "checksum"@ || name == "erasure_code"@ || name
            == "compression"@ || name == "target"@ || name == "high_priority"@ || name
            == "pending"@ || name == "stripes"@,
        crate::status::heading(words_of(trimmed(line))) is None,
    ensures
        ({
            let f = words_of(trimmed(line));
            let before = reconcile_scan(ls).0.work;
            let after = reconcile_scan(ls.push(line)).0.work;
            &&& after.len() == before.len() + 1
            &&& after.take(before.len() as int) == before
            &&& after.last().category == name
            &&& after.last().data_bytes == human_bytes(f[data as int])
            &&& after.last().metadata_bytes == human_bytes(f[metadata as int])
        }),
{
    assert(ls.push(line).drop_last() =~= ls);
    let w = words_of(trimmed(line))[0];
    reveal_strlit(":");
    assert(w.skip(w.len() - 1) =~= ":"@);
    assert(w.take(w.len() - 1) =~= name);
    let before = reconcile_scan(ls).0.work;
    let after = reconcile_scan(ls.push(line)).0.work;
    assert(after.take(before.len() as int) =~= before);
}

/// What reconcile does is what the last line on it says; how many scans wait is what
/// their line says.
pub proof fn law_reconcile_states_are_read(ls: Seq<Seq<char>>, line: Seq<char>)
    requires
        !crate::status::is_warning(line),
    ensures
        ({
            let t = trimmed(line);
            let before = reconcile_scan(ls).0;
            let after = reconcile_scan(ls.push(line)).0;
            &&& has_prefix(t, "processing "@) || has_prefix(t, "running"@) ==> after.state == Some(
                "working"@,
            )
            &&& has_prefix(t, "waiting"@) || t == "idle"@ ==> after.state == Some("idle"@)
            &&& has_prefix(t, "Scan pending:"@) ==> after.scan_pending == number(
                trimmed(t.skip("Scan pending:"@.len() as int)),
            ) && after.state == before.state
            &&& !has_prefix(t, "Scan pending:"@) ==> after.scan_pending == before.scan_pending
        }),
{
    assert(ls.push(line).drop_last() =~= ls);
    let t = trimmed(line);
    reveal_strlit("processing ");
    reveal_strlit("running");
    reveal_strlit("waiting");
    reveal_strlit("idle");
    reveal_strlit("Scan pending:");
    if has_prefix(t, "processing "@) {
        lemma_prefix_at(t, "processing "@, 0);
    }
    if has_prefix(t, "running"@) {
        lemma_prefix_at(t, "running"@, 0);
    }
    if has_prefix(t, "waiting"@) {
        lemma_prefix_at(t, "waiting"@, 0);
    }
    if has_prefix(t, "Scan pending:"@) {
        lemma_prefix_at(t, "Scan pending:"@, 0);
    }
}

/// Output that says nothing of the work but something of the rest is of an unknown
/// state, not of an idle one.
pub proof fn law_unknown_is_not_idle(s: Seq<char>)
    ensures
        ({
            let r = reconcile_scan(lines_of(s)).0;
            let t = reconcile_status(s);
            &&& r.state is Some ==> t.state == r.state
            &&& r.state is None && (r.work.len() > 0 || r.scan_pending is Some) ==> t.state == Some(
                "status unknown"@,
            )
            &&& r.state is None && r.work.len() == 0 && r.scan_pending is None ==> t.state is None
            &&& t.work == r.work && t.scan_pending == r.scan_pending && t.progress == r.progress
        }),
{
}

/// The progress of reconcile is the last word before the first percent sign, where
/// that is a number up to a hundred.
pub proof fn law_progress_stands_before_the_sign(
    line: Seq<char>,
    head: Seq<char>,
    tail: Seq<char>,
    x: Double,
)
    requires
        cut_first(line, '%') == Some((head, tail)),
        words_of(head).len() > 0,
        parsed(words_of(head).last()) == Some(x),
        x.finite(),
    ensures
        zero().at_most(x) && x.at_most(whole(100)) ==> percentage(line) == Some(
            words_of(head).last() + "%"@,
        ),
        !zero().at_most(x) || !x.at_most(whole(100)) ==> percentage(line) is None,
{
}

// ----------------------------------------------------------------------- mounts

/// A filesystem is found under its own identifier before its devices.
pub proof fn law_the_own_identifier_comes_first(
    uuid: Seq<char>,
    devices: Seq<Option<Seq<char>>>,
    mounts: Seq<(Seq<char>, Seq<char>)>,
    at: Seq<char>,
)
    ensures
        find(mounts, "/dev/disk/by-uuid/"@ + uuid) == Some(at) ==> mount_of(uuid, devices, mounts)
            == Some(at),
        find(mounts, "/dev/disk/by-uuid/"@ + uuid) is None && devices.len() > 0
            && devices[0] is Some ==> {
            &&& find(mounts, "/dev/"@ + devices[0]->0) matches Some(a) ==> mount_of(
                uuid,
                devices,
                mounts,
            ) == Some(a)
            &&& find(mounts, "/dev/"@ + devices[0]->0) is None ==> mount_of(uuid, devices, mounts)
                == mount_of(uuid, devices.skip(1), mounts)
        },
        find(mounts, "/dev/disk/by-uuid/"@ + uuid) is None && devices.len() == 0 ==> mount_of(
            uuid,
            devices,
            mounts,
        ) is None,
{
}

/// A filesystem goes by its label, else by the last part of where it is mounted,
/// else by its identifier.
pub proof fn law_a_filesystem_has_a_name(
    label: Option<Seq<char>>,
    mount_point: Seq<char>,
    uuid: Seq<char>,
)
    ensures
        label is Some && trimmed(label->0).len() > 0 && trimmed(label->0) != "(none)"@ ==> name_of(
            label,
            mount_point,
            uuid,
        ) == trimmed(label->0),
        label is None && base_of(mount_point) is Some ==> name_of(label, mount_point, uuid)
            == base_of(mount_point)->0,
        label is None && base_of(mount_point) is None ==> name_of(label, mount_point, uuid) == uuid,
        label is Some && (trimmed(label->0).len() == 0 || trimmed(label->0) == "(none)"@)
            ==> name_of(label, mount_point, uuid) == name_of(None, mount_point, uuid),
{
}

// --------------------------------------------------------------------- counters

/// Every file of counters has its own count, and every option its own value without
/// the white space around it.
pub proof fn law_files_are_read_apart(
    files: Seq<(Seq<char>, Seq<char>)>,
    name: Seq<char>,
    content: Seq<char>,
    other: Seq<char>,
)
    ensures
        find(options_of(files.push((name, content))), name) == Some(trimmed(content)),
        other != name ==> find(options_of(files.push((name, content))), other) == find(
            options_of(files),
            other,
        ),
        number(trimmed(content)) matches Some(n) ==> find(
            counters_of(files.push((name, content))),
            name,
        ) == Some(n),
        other != name ==> find(counters_of(files.push((name, content))), other) == find(
            counters_of(files),
            other,
        ),
{
    let more = files.push((name, content));
    assert(more.drop_last() =~= files);
    assert(more.last() == (name, content));
    law_put_then_find(options_of(files), name, trimmed(content), other);
    law_put_then_find(options_of(files), name, trimmed(content), name);
    law_put_then_find(counters_of(files), name, counter_of(content), other);
    law_put_then_find(counters_of(files), name, counter_of(content), name);
}

/// A counter that is no plain number is the count since the mount.
pub proof fn law_counts_are_since_the_mount(content: Seq<char>, k: int, n: u64)
    requires
        number(trimmed(content)) is None,
        0 <= k < lines_of(content).len(),
        has_part(lines_of(content)[k], "since mount"@),
        forall|i: int| 0 <= i < k ==> !has_part(#[trigger] lines_of(content)[i], "since mount"@),
        number(trimmed(pieces(lines_of(content)[k], Sep::Is(':')).last())) == Some(n),
    ensures
        counter_of(content) == n,
{
    lemma_since(lines_of(content), k, n);
}

proof fn lemma_since(ls: Seq<Seq<char>>, k: int, n: u64)
    requires
        0 <= k < ls.len(),
        has_part(ls[k], "since mount"@),
        forall|i: int| 0 <= i < k ==> !has_part(#[trigger] ls[i], "since mount"@),
        number(trimmed(pieces(ls[k], Sep::Is(':')).last())) == Some(n),
    ensures
        since_mount(ls) == n,
    decreases k,
{
    if k > 0 {
        assert(!has_part(ls[0], "since mount"@));
        assert(ls.skip(1)[k - 1] == ls[k]);
        assert forall|i: int| 0 <= i < k - 1 implies !has_part(
            #[trigger] ls.skip(1)[i],
            "since mount"@,
        ) by {
            assert(ls.skip(1)[i] == ls[i + 1]);
        }
        lemma_since(ls.skip(1), k - 1, n);
    }
}

// -------------------------------------------------------------------- processes

/// A process is known by its directory; what it read and wrote are read from the
/// lines that name them.
pub proof fn law_processes_are_read(raws: Seq<RawProcessView>, raw: RawProcessView)
    ensures
        ({
            let before = processes_of(raws);
            let after = processes_of(raws.push(raw));
            &&& number32(raw.dir) is Some && raw.io is Some ==> {
                &&& after.len() == before.len() + 1 && after.take(before.len() as int) == before
                &&& Some(after.last().pid) == number32(raw.dir)
                &&& after.last().name == trimmed(raw.comm)
                &&& after.last().read_bytes == io_scan(lines_of(raw.io->0)).0
                &&& after.last().write_bytes == io_scan(lines_of(raw.io->0)).1
            }
            &&& number32(raw.dir) is None || raw.io is None ==> after == before
        }),
{
    assert(raws.push(raw).drop_last() =~= raws);
    let before = processes_of(raws);
    let after = processes_of(raws.push(raw));
    if number32(raw.dir) is Some && raw.io is Some {
        assert(after.take(before.len() as int) =~= before);
    }
}

/// The bytes that a process read and wrote stand in lines of their own.
pub proof fn law_process_bytes_are_read_by_name(ls: Seq<Seq<char>>, line: Seq<char>, n: u64)
    ensures
        ({
            let before = io_scan(ls);
            let after = io_scan(ls.push(line));
            &&& has_prefix(line, "read_bytes: "@) && number(
                trimmed(line.skip("read_bytes: "@.len() as int)),
            ) == Some(n) ==> after == (n, before.1)
            &&& has_prefix(line, "write_bytes: "@) && number(
                trimmed(line.skip("write_bytes: "@.len() as int)),
            ) == Some(n) ==> after == (before.0, n)
            &&& !has_prefix(line, "read_bytes: "@) && !has_prefix(line, "write_bytes: "@) ==> after
                == before
        }),
        io_scan(Seq::empty()) == (0u64, 0u64),
{
    assert(ls.push(line).drop_last() =~= ls);
    reveal_strlit("read_bytes: ");
    reveal_strlit("write_bytes: ");
    if has_prefix(line, "read_bytes: "@) {
        lemma_prefix_at(line, "read_bytes: "@, 0);
    }
    if has_prefix(line, "write_bytes: "@) {
        lemma_prefix_at(line, "write_bytes: "@, 0);
    }
}

// --------------------------------------------------------------------- snapshot

/// A snapshot holds what the texts of the filesystem say, each from its own.
pub proof fn law_a_snapshot_is_read_from_its_files(
    raw: RawFsView,
    usage: RawUsageView,
    previous: Option<FsSnapshotView>,
)
    ensures
        ({
            let s = snapshot_of(raw, usage, previous);
            let m = memory_scan(lines_of(raw.meminfo));
            let c = cpu_scan(lines_of(raw.cpu));
            &&& s.counters == counters_of(raw.counters) && s.options == options_of(raw.options)
            &&& s.memory_total_bytes == m.0 && s.memory_available_bytes == m.1
                && s.kernel_reclaimable_bytes == m.2
            &&& s.cpu_iowait == c.0 && s.cpu_total == c.1
            &&& s.blocked_stats == blocked_stats(raw.time_stats)
            &&& s.all_time_stats == all_stats(raw.time_stats_json, raw.time_stats)
            &&& find(raw.time_stats, "data_read"@) matches Some(t) ==> s.recent_data_read_us
                == mean_scan(lines_of(t), false)
            &&& find(raw.time_stats, "data_write"@) matches Some(t) ==> s.recent_data_write_us
                == mean_scan(lines_of(t), false)
            &&& find(raw.time_stats, "btree_node_read"@) matches Some(t) ==> {
                &&& s.recent_btree_read_us == mean_scan(lines_of(t), false)
                &&& s.btree_read_count == count_from(
                    json_of(find(raw.time_stats_json, "btree_node_read"@)),
                    t,
                )
            }
            &&& find(raw.internal, "journal_debug"@) matches Some(t) ==> s.journal == journal_scan(
                lines_of(t),
            ).0 && s.journal_watermark == journal_scan(lines_of(t)).1
            &&& s.journal.entries matches Some(e) ==> s.journal_fill == e
            &&& s.diskstats_sampled_at == Some(raw.sampled_at)
            &&& s.collection_started_at == Some(raw.started_at)
        }),
{
}

/// Background tasks come in a fixed order; one that is switched off is off, and
/// copygc does what its file says.
pub proof fn law_background_tasks_are_listed(
    names: Seq<Seq<char>>,
    options: FilesView,
    internal: FilesView,
    reconcile: ReconcileStatusView,
    copygc: CopyGcStatusView,
)
    ensures
        ({
            let all = background_of(names, options, internal, reconcile, copygc);
            let on = find(options, "copygc_enabled"@) is Some && trimmed(
                find(options, "copygc_enabled"@)->0,
            ) == "1"@;
            &&& all.len() > 0 && all[0] == ("reconcile"@, reconcile.text())
            &&& names.contains("copygc_enabled"@) ==> {
                &&& all.last().0 == "copygc"@
                &&& !on ==> all.last().1 == "off"@
                &&& on && copygc.running == Some(true) ==> all.last().1 == "working"@
                &&& on && copygc.running == Some(false) ==> all.last().1 == "idle"@
                &&& on && copygc.running is None ==> all.last().1 == "enabled (status unknown)"@
            }
        }),
{
    if copygc.running == Some(true) {
    } else if copygc.running == Some(false) {
    }
}

/// A target is read from the option of its own role, in a fixed order of roles.
pub proof fn law_targets_are_of_their_roles(
    options: Seq<(Seq<char>, Seq<char>)>,
    canonical: FilesView,
)
    requires
        find(options, "metadata"@ + "_target"@) is Some,
        find(options, "foreground"@ + "_target"@) is Some,
        find(options, "background"@ + "_target"@) is Some,
        find(options, "promote"@ + "_target"@) is Some,
    ensures
        ({
            let t = targets_of(options, canonical);
            &&& t.len() == 4
            &&& t[0].role == "metadata"@ && t[1].role == "foreground"@
            &&& t[2].role == "background"@ && t[3].role == "promote"@
            &&& Some(t[0].target) == find(options, "metadata"@ + "_target"@)
            &&& Some(t[1].target) == find(options, "foreground"@ + "_target"@)
            &&& Some(t[2].target) == find(options, "background"@ + "_target"@)
            &&& Some(t[3].target) == find(options, "promote"@ + "_target"@)
        }),
{
}

} // verus!
