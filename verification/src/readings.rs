//! What the kernel's files say: every number from its own file, line and column.

use crate::double::{product, quotient, whole, zero, Double};
use crate::json::{inner_number, own_number, JsonMemberView};
use crate::member::{
    allowed_of, device_of, dir_of, file_in, index_of, latency_of, state_of, with_usage, FilesView,
    RawDeviceView,
};
use crate::numeral::{parsed, truncated};
use crate::parse::{
    cpu_scan, disk_scan, error_scan, error_table, first_btree, gc_scan, human_bytes, memory_scan,
    numbers_in, total, usage_scan, wrapped, UsageAt,
};
use crate::spelling::law_written_numbers_are_read;
use crate::stats::{
    blocked_scan, count_from, duration_ns, json_of, mean_scan, microseconds, stat_json, stat_scan,
    StatAt,
};
use crate::strmap::{find, law_put_then_find};
use crate::sysfs::TimeStatFullView;
use crate::targets::MemberAllocationView;
use crate::text::{cut_first, has_prefix, lines_of, number, trimmed, words_of, Sep};
use crate::topology::BlockTopologyView;
use vstd::prelude::*;

verus! {

// ------------------------------------------------------------------------ disks

/// Whether a line is a row of a disk with all columns up to the weighted time.
pub open spec fn is_row(line: Seq<char>, name: Seq<char>) -> bool {
    words_of(line).len() >= 14 && words_of(line)[2] == name
}

/// The first row of a disk counts: operations and their time stand in the fourth and
/// seventh column for reads, in the eighth and eleventh for writes, and what waits,
/// the busy and the weighted time in the three columns behind.
pub proof fn law_disks_are_read_by_column(ls: Seq<Seq<char>>, name: Seq<char>, k: int)
    requires
        0 <= k < ls.len(),
        is_row(ls[k], name),
        forall|i: int| 0 <= i < k ==> !is_row(#[trigger] ls[i], name),
    ensures
        ({
            let f = words_of(ls[k]);
            let d = disk_scan(ls, name);
            &&& d.valid <==> number(f[3]) is Some && number(f[6]) is Some && number(f[7]) is Some
                && number(f[10]) is Some && number(f[11]) is Some && number(f[12]) is Some
                && number(f[13]) is Some
            &&& d.valid ==> {
                &&& number(f[3]) == Some(d.reads) && number(f[6]) == Some(d.read_ms)
                &&& number(f[7]) == Some(d.writes) && number(f[10]) == Some(d.write_ms)
                &&& number(f[11]) == Some(d.in_flight) && number(f[12]) == Some(d.io_ms)
                &&& number(f[13]) == Some(d.weighted_io_ms)
                &&& f.len() > 18 ==> d.discards == number(f[14]) && d.flushes == number(f[18])
                &&& f.len() == 14 ==> d.discards is None && d.flushes is None
            }
            &&& !d.valid ==> d.reads == 0 && d.writes == 0 && d.io_ms == 0 && d.in_flight == 0
        }),
    decreases k,
{
    if k > 0 {
        assert(!is_row(ls[0], name));
        assert(ls.skip(1)[k - 1] == ls[k]);
        assert forall|i: int| 0 <= i < k - 1 implies !is_row(#[trigger] ls.skip(1)[i], name) by {
            assert(ls.skip(1)[i] == ls[i + 1]);
        }
        law_disks_are_read_by_column(ls.skip(1), name, k - 1);
    }
}

/// A disk without a row has no valid numbers.
pub proof fn law_a_disk_without_a_row_is_unknown(ls: Seq<Seq<char>>, name: Seq<char>)
    requires
        forall|i: int| 0 <= i < ls.len() ==> !is_row(#[trigger] ls[i], name),
    ensures
        !disk_scan(ls, name).valid,
    decreases ls.len(),
{
    if ls.len() > 0 {
        assert(!is_row(ls[0], name));
        assert forall|i: int| 0 <= i < ls.skip(1).len() implies !is_row(
            #[trigger] ls.skip(1)[i],
            name,
        ) by {
            assert(ls.skip(1)[i] == ls[i + 1]);
        }
        law_a_disk_without_a_row_is_unknown(ls.skip(1), name);
    }
}

// ------------------------------------------------------------------- processors

proof fn lemma_all_numbers(f: Seq<Seq<char>>)
    requires
        forall|i: int| 0 <= i < f.len() ==> number(#[trigger] f[i]) is Some,
    ensures
        numbers_in(f).len() == f.len(),
        forall|i: int| 0 <= i < f.len() ==> numbers_in(f)[i] == number(#[trigger] f[i])->0,
    decreases f.len(),
{
    if f.len() > 0 {
        let rest = f.drop_last();
        assert forall|i: int| 0 <= i < rest.len() implies number(#[trigger] rest[i]) is Some by {
            assert(rest[i] == f[i]);
        }
        lemma_all_numbers(rest);
        assert forall|i: int| 0 <= i < f.len() implies numbers_in(f)[i] == number(
            #[trigger] f[i],
        )->0 by {
            if i < rest.len() {
                assert(rest[i] == f[i]);
            }
        }
    }
}

/// The line of all processors counts: waiting for I/O is the fifth number behind
/// its name, and the whole time is the sum of all.
pub proof fn law_waiting_is_the_fifth_number(ls: Seq<Seq<char>>, k: int)
    requires
        0 <= k < ls.len(),
        has_prefix(ls[k], "cpu "@),
        forall|i: int| 0 <= i < k ==> !has_prefix(#[trigger] ls[i], "cpu "@),
        words_of(ls[k]).len() >= 6,
        forall|i: int|
            1 <= i < words_of(ls[k]).len() ==> number(#[trigger] words_of(ls[k])[i]) is Some,
    ensures
        number(words_of(ls[k])[5]) == Some(cpu_scan(ls).0),
        cpu_scan(ls).1 == wrapped(total(numbers_in(words_of(ls[k]).skip(1)))),
    decreases k,
{
    if k > 0 {
        assert(!has_prefix(ls[0], "cpu "@));
        assert(ls.skip(1)[k - 1] == ls[k]);
        assert forall|i: int| 0 <= i < k - 1 implies !has_prefix(
            #[trigger] ls.skip(1)[i],
            "cpu "@,
        ) by {
            assert(ls.skip(1)[i] == ls[i + 1]);
        }
        law_waiting_is_the_fifth_number(ls.skip(1), k - 1);
    } else {
        let f = words_of(ls[0]);
        let rest = f.subrange(1, f.len() as int);
        assert(rest =~= f.skip(1));
        assert forall|i: int| 0 <= i < rest.len() implies number(#[trigger] rest[i]) is Some by {
            assert(rest[i] == f[i + 1]);
        }
        lemma_all_numbers(rest);
        assert(rest[4] == f[5]);
    }
}

/// A sum grows by what is added, and a sum of nothing is zero.
pub proof fn law_a_sum_adds_up(s: Seq<u64>, n: u64)
    ensures
        total(Seq::<u64>::empty()) == 0,
        total(s.push(n)) == total(s) + n,
        total(s) <= u64::MAX ==> wrapped(total(s)) == total(s),
{
    assert(s.push(n).drop_last() =~= s);
}

// ----------------------------------------------------------------------- memory

/// Every line of the memory table sets its own number, in bytes of the kilobytes
/// that it states, and leaves the others.
pub proof fn law_memory_is_read_by_name(ls: Seq<Seq<char>>, line: Seq<char>)
    requires
        words_of(line).len() >= 2,
        number(words_of(line)[1]) is Some,
        number(words_of(line)[1])->0 * 1024 <= u64::MAX,
    ensures
        ({
            let before = memory_scan(ls);
            let after = memory_scan(ls.push(line));
            let name = words_of(line)[0];
            let bytes = number(words_of(line)[1])->0 * 1024;
            &&& after.0 == if name == "MemTotal:"@ {
                bytes
            } else {
                before.0 as int
            }
            &&& after.1 == if name == "MemAvailable:"@ {
                bytes
            } else {
                before.1 as int
            }
            &&& after.2 == if name == "KReclaimable:"@ {
                bytes
            } else {
                before.2 as int
            }
        }),
        memory_scan(Seq::empty()) == (0u64, 0u64, 0u64),
{
    assert(ls.push(line).drop_last() =~= ls);
    reveal_strlit("MemTotal:");
    reveal_strlit("MemAvailable:");
    reveal_strlit("KReclaimable:");
    assert("MemTotal:"@[3] == 'T');
    assert("MemAvailable:"@[3] == 'A');
    assert("KReclaimable:"@[3] == 'c');
}

// ------------------------------------------------------------------------ sizes

/// A number of bytes stands for itself; with a unit it is multiplied by a power of
/// 1024 and cut to whole bytes.
pub proof fn law_units_are_powers_of_1024(s: Seq<char>, x: Double, c: char)
    requires
        trimmed(s) == s,
        s.len() > 0,
        s.last() == c,
        number(s) is None,
        parsed(s.drop_last()) == Some(x),
        x.finite(),
        zero().at_most(x),
    ensures
        (c == 'k' || c == 'K') && product(x, whole(1024)).less(whole(u64::MAX as nat))
            ==> human_bytes(s) == Some(truncated(product(x, whole(1024)))),
        c == 'M' && product(x, whole(1_048_576)).less(whole(u64::MAX as nat)) ==> human_bytes(s)
            == Some(truncated(product(x, whole(1_048_576)))),
        c == 'G' && product(x, whole(1_073_741_824)).less(whole(u64::MAX as nat)) ==> human_bytes(s)
            == Some(truncated(product(x, whole(1_073_741_824)))),
        c == 'T' && product(x, whole(1_099_511_627_776)).less(whole(u64::MAX as nat))
            ==> human_bytes(s) == Some(truncated(product(x, whole(1_099_511_627_776)))),
        c == 'P' && product(x, whole(1_125_899_906_842_624)).less(whole(u64::MAX as nat))
            ==> human_bytes(s) == Some(truncated(product(x, whole(1_125_899_906_842_624)))),
{
}

/// A plain number is that number of bytes; a size below zero is none.
pub proof fn law_plain_numbers_are_bytes(s: Seq<char>)
    ensures
        number(trimmed(s)) matches Some(n) ==> human_bytes(s) == Some(n),
        number(trimmed(s)) is None && trimmed(s).len() > 0 && parsed(trimmed(s).drop_last()) is Some
            && !zero().at_most(parsed(trimmed(s).drop_last())->0) ==> human_bytes(s) is None,
        trimmed(s).len() == 0 ==> human_bytes(s) is None,
{
}

/// The first line of btree sectors that makes sense counts, at 512 bytes a sector.
pub proof fn law_btree_sectors_have_512_bytes(ls: Seq<Seq<char>>, n: u64)
    requires
        ls.len() > 0,
        words_of(ls[0]).len() >= 2,
        number(words_of(ls[0])[1]) == Some(n),
    ensures
        words_of(ls[0])[0] == "btree"@ && n * 512 <= u64::MAX ==> first_btree(ls) == Some(
            (n * 512) as u64,
        ),
        words_of(ls[0])[0] != "btree"@ || n * 512 > u64::MAX ==> first_btree(ls) == first_btree(
            ls.skip(1),
        ),
{
}

/// A table of a member is in progress after these lines.
pub open spec fn in_table(
    start: MemberAllocationView,
    ls: Seq<Seq<char>>,
    bucket: u64,
    fragmented: u64,
) -> bool {
    usage_scan(start, ls, Some(bucket)).1 == UsageAt::Table(Some(fragmented))
}

/// A row of the table of a member has four columns. Its fragmented sectors are added
/// up; free space is that of whole buckets, and btree data is in sectors of 512 bytes.
pub proof fn law_a_table_is_read_by_column(
    start: MemberAllocationView,
    ls: Seq<Seq<char>>,
    line: Seq<char>,
    bucket: u64,
    fragmented: u64,
    buckets: u64,
    used: u64,
    more: u64,
)
    requires
        in_table(start, ls, bucket, fragmented),
        words_of(line).len() == 4,
        words_of(line)[0] != "capacity"@,
        number(words_of(line)[1]) == Some(buckets),
        number(words_of(line)[2]) == Some(used),
        number(words_of(line)[3]) == Some(more),
        buckets * bucket <= u64::MAX,
        used * 512 <= u64::MAX,
        fragmented + more * 512 <= u64::MAX,
    ensures
        in_table(start, ls.push(line), bucket, (fragmented + more * 512) as u64),
        ({
            let a = usage_scan(start, ls, Some(bucket)).0;
            let b = usage_scan(start, ls.push(line), Some(bucket)).0;
            let name = words_of(line)[0];
            &&& name == "free"@ ==> b.free_bytes == Some((buckets * bucket) as u64)
            &&& name != "free"@ ==> b.free_bytes == a.free_bytes
            &&& name == "btree"@ ==> b.btree_bytes == Some((used * 512) as u64)
            &&& name != "btree"@ ==> b.btree_bytes == a.btree_bytes
            &&& b.capacity_bytes == a.capacity_bytes && b.fragmented_bytes == a.fragmented_bytes
            &&& b.state == a.state && b.data_allowed == a.data_allowed && b.durability
                == a.durability && b.online == a.online
        }),
{
    assert(ls.push(line).drop_last() =~= ls);
    reveal_strlit("free");
    reveal_strlit("btree");
    assert("free"@[0] == 'f');
    assert("btree"@[0] == 'b');
}

/// The line of the capacity ends the table: all that was added up is fragmented.
pub proof fn law_the_capacity_ends_a_table(
    start: MemberAllocationView,
    ls: Seq<Seq<char>>,
    line: Seq<char>,
    bucket: u64,
    fragmented: u64,
)
    requires
        in_table(start, ls, bucket, fragmented),
        words_of(line).len() > 0,
        words_of(line)[0] == "capacity"@,
    ensures
        usage_scan(start, ls.push(line), Some(bucket)).0 == (MemberAllocationView {
            fragmented_bytes: Some(fragmented),
            ..usage_scan(start, ls, Some(bucket)).0
        }),
        usage_scan(start, ls.push(line), Some(bucket)).1 == UsageAt::Done,
{
    assert(ls.push(line).drop_last() =~= ls);
    reveal_strlit("capacity");
    reveal_strlit("buckets");
    assert("capacity"@[0] == 'c');
    assert("buckets"@[0] == 'b');
}

/// The capacity of a member is the number of its buckets times their size.
pub proof fn law_capacity_is_buckets_times_their_size(
    a: MemberAllocationView,
    files: FilesView,
    n: u64,
    size: u64,
)
    requires
        file_in(files, "nbuckets"@) is Some,
        number(file_in(files, "nbuckets"@)->0) == Some(n),
        file_in(files, "bucket_size"@) is Some,
        human_bytes(file_in(files, "bucket_size"@)->0) == Some(size),
        file_in(files, "alloc_debug"@) is None,
    ensures
        size > 0 && n * size <= u64::MAX ==> with_usage(a, files).capacity_bytes == Some(
            (n * size) as u64,
        ),
        size == 0 || n * size > u64::MAX ==> with_usage(a, files).capacity_bytes is None,
        with_usage(a, files).free_bytes == a.free_bytes,
        with_usage(a, files).durability == a.durability,
{
}

// ---------------------------------------------------------------------- members

pub proof fn lemma_prefix_at(s: Seq<char>, p: Seq<char>, i: int)
    requires
        has_prefix(s, p),
        0 <= i < p.len(),
    ensures
        s[i] == p[i],
        i < s.len(),
{
    assert(s.take(p.len() as int)[i] == s[i]);
}

/// Of the states of a member, the one in brackets is its own; a text that is none of
/// the four is unknown.
pub proof fn law_the_state_is_one_of_four(text: Seq<char>)
    ensures
        state_of(Some(text)) matches Some(s) ==> s == "rw"@ || s == "ro"@ || s == "failed"@ || s
            == "spare"@,
        text == "rw"@ && crate::member::first_marked(words_of(text)) is None ==> state_of(
            Some(text),
        ) == Some(text),
        state_of(None) is None,
{
}

/// A word in brackets among words without them is the state.
pub proof fn law_the_marked_state_counts(text: Seq<char>, k: int, state: Seq<char>)
    requires
        0 <= k < words_of(text).len(),
        words_of(text)[k] == seq!['['] + state + seq![']'],
        forall|i: int| 0 <= i < k ==> (#[trigger] words_of(text)[i])[0] != '[',
        forall|i: int| 0 <= i < k ==> (#[trigger] words_of(text)[i]).len() > 0,
        state == "rw"@ || state == "ro"@ || state == "failed"@ || state == "spare"@,
    ensures
        state_of(Some(text)) == Some(state),
{
    lemma_marked_at(words_of(text), k, state);
}

proof fn lemma_marked_at(ws: Seq<Seq<char>>, k: int, state: Seq<char>)
    requires
        0 <= k < ws.len(),
        ws[k] == seq!['['] + state + seq![']'],
        forall|i: int| 0 <= i < k ==> (#[trigger] ws[i])[0] != '[',
        forall|i: int| 0 <= i < k ==> (#[trigger] ws[i]).len() > 0,
    ensures
        crate::member::first_marked(ws) == Some(state),
    decreases k,
{
    reveal_strlit("[");
    reveal_strlit("]");
    if k > 0 {
        assert(ws[0][0] != '[');
        if has_prefix(ws[0], "["@) {
            lemma_prefix_at(ws[0], "["@, 0);
        }
        assert(ws.skip(1)[k - 1] == ws[k]);
        assert forall|i: int| 0 <= i < k - 1 implies (#[trigger] ws.skip(1)[i])[0] != '[' && ws.skip(
            1,
        )[i].len() > 0 by {
            assert(ws.skip(1)[i] == ws[i + 1]);
        }
        lemma_marked_at(ws.skip(1), k - 1, state);
    } else {
        let w = ws[0];
        assert(w.take(1) =~= "["@);
        assert(w.skip(1) =~= state + seq![']']);
        let r = w.skip(1);
        assert(r.skip(r.len() - 1) =~= "]"@);
        assert(r.take(r.len() - 1) =~= state);
    }
}

/// A member takes exactly the kinds of data that its file lists; nothing where it
/// says none, and what it takes is unknown where a kind is.
pub proof fn law_a_member_takes_what_it_lists(text: Seq<char>, i: int)
    ensures
        text == "none"@ || text == "(none)"@ ==> allowed_of(Some(text)) == Some(
            Seq::<Seq<char>>::empty(),
        ),
        text != "none"@ && text != "(none)"@ ==> {
            let kinds = crate::text::words_by(text, Sep::WhiteOrComma);
            &&& allowed_of(Some(text)) is Some ==> allowed_of(Some(text)) == Some(kinds)
            &&& 0 <= i < kinds.len() && kinds[i] != "journal"@ && kinds[i] != "btree"@ && kinds[i]
                != "user"@ ==> allowed_of(Some(text)) is None
            &&& (forall|j: int|
                0 <= j < kinds.len() ==> #[trigger] kinds[j] == "journal"@ || kinds[j] == "btree"@
                    || kinds[j] == "user"@) ==> allowed_of(Some(text)) is Some
        },
{
    let kinds = crate::text::words_by(text, Sep::WhiteOrComma);
    if 0 <= i < kinds.len() && kinds[i] != "journal"@ && kinds[i] != "btree"@ && kinds[i]
        != "user"@ {
        assert(!crate::member::is_data_type(kinds[i]));
    }
}

/// The number of a member is the one in the name of its directory.
pub proof fn law_directories_are_numbered(index: u32)
    ensures
        index_of(dir_of(index)) == index,
{
    law_written_numbers_are_read(0, index);
    let d = dir_of(index);
    assert(d.take("dev-"@.len() as int) =~= "dev-"@);
    assert(d.skip("dev-"@.len() as int) =~= crate::text::decimal(index as nat));
}

/// What is known of a member comes from its own files and its row among the disks.
pub proof fn law_a_member_is_read_from_its_files(
    raw: RawDeviceView,
    diskstats: Seq<char>,
    topology: BlockTopologyView,
)
    ensures
        ({
            let d = device_of(raw, diskstats, topology);
            let row = disk_scan(lines_of(diskstats), d.name);
            &&& file_in(raw.files, "dev"@) matches Some(n) ==> d.name == n
            &&& d.index == index_of(raw.dir) && d.topology == topology
            &&& d.member_uuid == file_in(raw.files, "uuid"@)
            &&& d.label == file_in(raw.files, "label"@)
            &&& d.allocation.state == state_of(file_in(raw.files, "state"@))
            &&& d.allocation.data_allowed == allowed_of(file_in(raw.files, "data_allowed"@))
            &&& file_in(raw.files, "durability"@) is Some ==> d.allocation.durability == number(
                file_in(raw.files, "durability"@)->0,
            )
            &&& d.allocation.online == raw.online
            &&& d.allocation.capacity_bytes is None && d.allocation.free_bytes is None
            &&& d.diskstats_reads == row.reads && d.diskstats_read_ms == row.read_ms
            &&& d.diskstats_writes == row.writes && d.diskstats_write_ms == row.write_ms
            &&& d.diskstats_io_ms == row.io_ms && d.diskstats_in_flight == row.in_flight
            &&& d.diskstats_weighted_io_ms == row.weighted_io_ms
            &&& d.diskstats_valid == row.valid && d.diskstats_discards == row.discards
            &&& !raw.partition ==> d.diskstats_flushes == row.flushes
            &&& raw.partition ==> d.diskstats_flushes is None
        }),
{
}

/// What a member did comes from its own tables: reads from those of reads, writes
/// from those of writes.
pub proof fn law_directions_are_read_apart(
    raw: RawDeviceView,
    diskstats: Seq<char>,
    topology: BlockTopologyView,
    done: Seq<JsonMemberView>,
    slow: Seq<JsonMemberView>,
)
    requires
        json_of(find(raw.files, "io_done"@)) == Some(done),
    ensures
        ({
            let d = device_of(raw, diskstats, topology);
            &&& d.io_read_by_type == crate::json::numbers(crate::json::members_at(done, "read"@))
            &&& d.io_write_by_type == crate::json::numbers(crate::json::members_at(done, "write"@))
            &&& json_of(find(raw.files, "io_latency_stats_read_json"@)) == Some(slow)
                && inner_number(slow, "duration_ewma_ns"@, "mean"@) is Some
                ==> d.io_latency_read_ns == inner_number(slow, "duration_ewma_ns"@, "mean"@)->0
            &&& json_of(find(raw.files, "io_latency_stats_write_json"@)) == Some(slow)
                && inner_number(slow, "duration_ewma_ns"@, "mean"@) is Some
                ==> d.io_latency_write_ns == inner_number(slow, "duration_ewma_ns"@, "mean"@)->0
            &&& d.io_done_read == wrapped(
                total(Seq::new(d.io_read_by_type.len(), |i: int| d.io_read_by_type[i].1)),
            )
            &&& d.io_done_write == wrapped(
                total(Seq::new(d.io_write_by_type.len(), |i: int| d.io_write_by_type[i].1)),
            )
        }),
{
}

/// A mean time that JSON does not have is the plain number of the older file.
pub proof fn law_older_kernels_state_a_plain_mean(text: Seq<char>, n: u64)
    ensures
        number(trimmed(text)) == Some(n) ==> latency_of(None, Some(text)) == n,
        number(trimmed(text)) is None ==> latency_of(None, Some(text)) == 0,
        latency_of(None, None) == 0,
{
}

/// A line of errors sets the counter that its words name to the number at its end,
/// and no other.
pub proof fn law_an_error_line_sets_its_counter(
    ls: Seq<Seq<char>>,
    line: Seq<char>,
    counts: Seq<(Seq<char>, u64)>,
    n: u64,
    other: Seq<char>,
)
    requires
        error_scan(ls) == Some((counts, false)),
        words_of(trimmed(line)).len() >= 2,
        trimmed(line).len() > 0,
        number(words_of(trimmed(line)).last()) == Some(n),
        !has_prefix(trimmed(line), "IO errors since "@),
        trimmed(line) != "IO errors since filesystem creation"@,
        !has_prefix(trimmed(line), "Flush errors (device not honoring FUA/flush):"@),
    ensures
        error_scan(ls.push(line)) matches Some((after, since)) && {
            let name = crate::parse::error_name(words_of(trimmed(line)).drop_last());
            &&& !since
            &&& find(after, name) == Some(n)
            &&& other != name ==> find(after, other) == find(counts, other)
        },
{
    assert(ls.push(line).drop_last() =~= ls);
    let name = crate::parse::error_name(words_of(trimmed(line)).drop_last());
    law_put_then_find(counts, name, n, other);
    law_put_then_find(counts, name, n, name);
}

/// The errors of a member add up over its counters, up to the largest number.
pub proof fn law_errors_add_up(counts: Seq<(Seq<char>, u64)>, name: Seq<char>, n: u64)
    ensures
        ({
            let before = crate::member::capped_total(counts);
            let after = crate::member::capped_total(counts.push((name, n)));
            before + n <= u64::MAX ==> after == before + n
        }),
        crate::member::capped_total(Seq::empty()) == 0,
{
    assert(counts.push((name, n)).drop_last() =~= counts);
}

// ----------------------------------------------------------------------- copygc

/// A member whose calculated wait is not above zero needs collection; a line of the
/// waits says so of its own member only.
pub proof fn law_no_wait_means_collection(
    ls: Seq<Seq<char>>,
    line: Seq<char>,
    name: Seq<char>,
    value: Seq<char>,
    n: u64,
    other: Seq<char>,
)
    requires
        gc_scan(ls).1,
        trimmed(line) != "Currently calculated wait:"@,
        cut_first(trimmed(line), ':') == Some((name, value)),
        !has_prefix(trimmed(line), "running:"@),
    ensures
        ({
            let before = gc_scan(ls).0;
            let after = gc_scan(ls.push(line)).0;
            let v = trimmed(value);
            &&& v.len() > 0 && v[0] == '-' && human_bytes(v.skip(1)) == Some(n) ==> find(
                after.needs_gc,
                trimmed(name),
            ) == Some(true)
            &&& v.len() > 0 && v[0] != '-' && human_bytes(v) == Some(n) ==> find(
                after.needs_gc,
                trimmed(name),
            ) == Some(n == 0)
            &&& other != trimmed(name) ==> find(after.needs_gc, other) == find(
                before.needs_gc,
                other,
            )
            &&& after.running == before.running
        }),
{
    assert(ls.push(line).drop_last() =~= ls);
    let v = trimmed(value);
    let before = gc_scan(ls).0.needs_gc;
    reveal_strlit("-");
    if v.len() > 0 && v[0] == '-' {
        assert(v.take(1) =~= "-"@);
        assert(v.skip(1) == v.skip("-"@.len() as int));
    }
    if v.len() > 0 && has_prefix(v, "-"@) {
        lemma_prefix_at(v, "-"@, 0);
    }
    law_put_then_find(before, trimmed(name), true, other);
    law_put_then_find(before, trimmed(name), true, trimmed(name));
    law_put_then_find(before, trimmed(name), false, other);
    law_put_then_find(before, trimmed(name), false, trimmed(name));
}

/// Whether copygc runs is what the line on running says; anything but one and zero
/// is unknown.
pub proof fn law_running_is_a_flag(ls: Seq<Seq<char>>, line: Seq<char>)
    requires
        has_prefix(trimmed(line), "running:"@),
        !gc_scan(ls).1,
    ensures
        ({
            let v = trimmed(trimmed(line).skip("running:"@.len() as int));
            let running = gc_scan(ls.push(line)).0.running;
            &&& v == "1"@ ==> running == Some(true)
            &&& v == "0"@ ==> running == Some(false)
            &&& v != "1"@ && v != "0"@ ==> running is None
        }),
{
    assert(ls.push(line).drop_last() =~= ls);
    reveal_strlit("0");
    reveal_strlit("1");
    assert("0"@[0] == '0');
    assert("1"@[0] == '1');
}

// ------------------------------------------------------------------- operations

/// The times of an operation stand between the two headings: the longest under its
/// name, the mean first and the recent mean behind it.
pub proof fn law_times_are_read_by_name(
    start: TimeStatFullView,
    ls: Seq<Seq<char>>,
    line: Seq<char>,
    n: u64,
    recent: u64,
)
    requires
        stat_scan(start, ls).1 == StatAt::Duration,
        trimmed(line) != "time between events"@,
        trimmed(line) != "duration of events"@,
        words_of(trimmed(line)).len() == 5,
        duration_ns(words_of(trimmed(line))[1], words_of(trimmed(line))[2]) == Some(n),
        duration_ns(words_of(trimmed(line))[3], words_of(trimmed(line))[4]) == Some(recent),
    ensures
        ({
            let name = words_of(trimmed(line))[0];
            let before = stat_scan(start, ls).0;
            let after = stat_scan(start, ls.push(line)).0;
            &&& name == "max:"@ ==> after.dur_max_ns == n
            &&& name != "max:"@ ==> after.dur_max_ns == before.dur_max_ns
            &&& name == "mean:"@ ==> after.dur_mean_ns == n && after.dur_recent_ns == recent
                && after.recent_valid
            &&& name != "mean:"@ ==> after.dur_mean_ns == before.dur_mean_ns && after.dur_recent_ns
                == before.dur_recent_ns && after.recent_valid == before.recent_valid
            &&& after.name == before.name && after.count == before.count
        }),
{
    assert(ls.push(line).drop_last() =~= ls);
    reveal_strlit("max:");
    reveal_strlit("mean:");
    assert("max:"@[1] == 'a');
    assert("mean:"@[1] == 'e');
}

/// The unit of a duration scales it to nanoseconds.
pub proof fn law_durations_are_scaled(value: Seq<char>, x: Double)
    requires
        parsed(value) == Some(x),
    ensures
        forall|unit: Seq<char>, scale: nat|
            #![trigger duration_ns(value, unit), whole(scale)]
            (unit == "ns"@ && scale == 1 || unit == "us"@ && scale == 1_000 || unit == "ms"@ && scale
                == 1_000_000 || unit == "s"@ && scale == 1_000_000_000 || unit == "m"@ && scale
                == 60_000_000_000 || unit == "h"@ && scale == 3_600_000_000_000) && product(
                x,
                whole(scale),
            ).finite() && zero().at_most(product(x, whole(scale))) && product(
                x,
                whole(scale),
            ).less(whole(u64::MAX as nat)) ==> duration_ns(value, unit) == Some(
                truncated(product(x, whole(scale))),
            ),
{
    lemma_units_differ();
}

proof fn lemma_units_differ()
    ensures
        "ns"@ != "us"@,
        "ns"@ != "ms"@,
        "ns"@ != "s"@,
        "ns"@ != "m"@,
        "ns"@ != "h"@,
        "us"@ != "ms"@,
        "us"@ != "s"@,
        "us"@ != "m"@,
        "us"@ != "h"@,
        "ms"@ != "s"@,
        "ms"@ != "m"@,
        "ms"@ != "h"@,
        "s"@ != "m"@,
        "s"@ != "h"@,
        "m"@ != "h"@,
{
    reveal_strlit("ns");
    reveal_strlit("us");
    reveal_strlit("ms");
    reveal_strlit("s");
    reveal_strlit("m");
    reveal_strlit("h");
    assert("ns"@[0] == 'n' && "us"@[0] == 'u' && "ms"@[0] == 'm');
    assert("s"@[0] == 's' && "m"@[0] == 'm' && "h"@[0] == 'h');
    assert("ms"@.len() == 2 && "m"@.len() == 1);
}

/// The unit of a recent mean scales it to microseconds.
pub proof fn law_means_are_scaled(x: Double)
    ensures
        microseconds(x, "ns"@) == quotient(x, whole(1_000)),
        microseconds(x, "us"@) == x,
        microseconds(x, "ms"@) == product(x, whole(1_000)),
        microseconds(x, "s"@) == product(x, whole(1_000_000)),
        microseconds(x, "m"@) == product(x, whole(60_000_000)),
        microseconds(x, "h"@) == product(x, whole(3_600_000_000)),
{
    lemma_units_differ();
}

/// The recent mean is the last pair of number and unit of the first line of means
/// behind the heading of durations; the means behind the other heading are not of
/// durations.
pub proof fn law_the_recent_mean_comes_last(ls: Seq<Seq<char>>, x: Double)
    requires
        ls.len() > 0,
    ensures
        ({
            let line = trimmed(ls[0]);
            let f = words_of(line);
            let n = f.len();
            &&& has_prefix(line, "mean:"@) && n >= 4 && parsed(f[n - 2]) == Some(x) ==> mean_scan(
                ls,
                true,
            ) == microseconds(x, f[n - 1])
            &&& has_prefix(line, "mean:"@) ==> mean_scan(ls, false) == mean_scan(ls.skip(1), false)
            &&& has_prefix(line, "duration of events"@) ==> mean_scan(ls, false) == mean_scan(
                ls.skip(1),
                true,
            )
            &&& has_prefix(line, "time between events"@) ==> mean_scan(ls, true) == zero()
        }),
        mean_scan(Seq::empty(), true) == zero(),
{
    let line = trimmed(ls[0]);
    reveal_strlit("mean:");
    reveal_strlit("duration of events");
    reveal_strlit("time between events");
    if has_prefix(line, "mean:"@) {
        lemma_prefix_at(line, "mean:"@, 0);
    }
    if has_prefix(line, "duration of events"@) {
        lemma_prefix_at(line, "duration of events"@, 0);
    }
    if has_prefix(line, "time between events"@) {
        lemma_prefix_at(line, "time between events"@, 0);
    }
}

/// An operation in JSON has its count, the longest and the mean time of all, and the
/// weighted mean as the recent one.
pub proof fn law_json_times_are_read_by_key(name: Seq<char>, m: Seq<JsonMemberView>)
    ensures
        own_number(m, "count"@) is None ==> stat_json(name, Some(m)) is None,
        own_number(m, "count"@) matches Some(n) ==> (stat_json(name, Some(m)) matches Some(t) && {
            &&& t.name == name && t.count == n
            &&& inner_number(m, "duration_ns"@, "max"@) matches Some(v) ==> t.dur_max_ns == v
            &&& inner_number(m, "duration_ns"@, "mean"@) matches Some(v) ==> t.dur_mean_ns == v
            &&& inner_number(m, "duration_ewma_ns"@, "mean"@) matches Some(v) ==> t.dur_recent_ns
                == v && t.recent_valid
            &&& inner_number(m, "duration_ewma_ns"@, "mean"@) is None ==> !t.recent_valid
        }),
        own_number(m, "count"@) matches Some(n) ==> forall|text: Seq<char>| #[trigger]
            count_from(Some(m), text) == n,
{
}

/// What blocks is counted by the number behind its name, and its recent mean is that
/// of the durations.
pub proof fn law_blocked_counts_are_read(ls: Seq<Seq<char>>, line: Seq<char>)
    ensures
        ({
            let t = trimmed(line);
            let f = words_of(t);
            let before = blocked_scan(ls);
            let after = blocked_scan(ls.push(line));
            &&& has_prefix(t, "count:"@) && f.len() >= 2 ==> after.0 == number(f[1]) && after.1
                == before.1
            &&& !has_prefix(t, "count:"@) ==> after.0 == before.0
            &&& has_prefix(t, "mean:"@) && before.2 && f.len() >= 4 && parsed(
                f[f.len() - 2],
            ) is Some ==> after.1 == microseconds(parsed(f[f.len() - 2])->0, f[f.len() - 1])
            &&& !has_prefix(t, "mean:"@) || !before.2 ==> after.1 == before.1
            &&& has_prefix(t, "duration of events"@) ==> after.2
            &&& has_prefix(t, "time between events"@) ==> !after.2
        }),
{
    assert(ls.push(line).drop_last() =~= ls);
    let t = trimmed(line);
    reveal_strlit("mean:");
    reveal_strlit("count:");
    reveal_strlit("duration of events");
    reveal_strlit("time between events");
    if has_prefix(t, "count:"@) {
        lemma_prefix_at(t, "count:"@, 0);
    }
    if has_prefix(t, "mean:"@) {
        lemma_prefix_at(t, "mean:"@, 0);
    }
    if has_prefix(t, "duration of events"@) {
        lemma_prefix_at(t, "duration of events"@, 0);
    }
    if has_prefix(t, "time between events"@) {
        lemma_prefix_at(t, "time between events"@, 0);
    }
}

/// A table of errors has its counters where it counts more than flushes; a malformed
/// one and one of flushes alone have none.
pub proof fn law_errors_need_more_than_flushes(
    text: Seq<char>,
    counts: Seq<(Seq<char>, u64)>,
    since: bool,
    i: int,
)
    ensures
        error_scan(lines_of(text)) == Some((counts, since)) && 0 <= i < counts.len() && counts[i].0
            != "flush"@ ==> error_table(text) == Some(counts),
        error_scan(lines_of(text)) == Some((counts, since)) && (forall|k: int|
            0 <= k < counts.len() ==> (#[trigger] counts[k]).0 == "flush"@) ==> error_table(text)
            is None,
        error_scan(lines_of(text)) is None ==> error_table(text) is None,
{
}

/// What the text of an operation does not state is zero, and no recent mean is valid.
pub proof fn law_unstated_times_are_zero(name: Seq<char>, text: Seq<char>, n: u64)
    requires
        crate::stats::first_count(lines_of(text)) == Some(n),
    ensures
        ({
            let start = TimeStatFullView {
                name,
                count: n,
                dur_max_ns: 0,
                dur_mean_ns: 0,
                dur_recent_ns: 0,
                recent_valid: false,
            };
            crate::stats::stat_text(name, text) == Some(stat_scan(start, lines_of(text)).0)
        }),
{
}

} // verus!
