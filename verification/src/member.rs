//! Member devices from the files of their directories.

use crate::json::{
    get_inner, get_numbers, inner_number, members_at, numbers, JsonMember, JsonMemberView,
};
use crate::natural::ByPlace;
use crate::order::{arranged, sort};
use crate::parse::{
    both_times, disk_scan, error_table, human_bytes, opt_map, parse_diskstats_for,
    parse_human_bytes, parse_io_errors, parse_member_usage, sum_all, total, usage_scan, wrapped,
};
use crate::stats::{file_text, json_of, opt_json, read_opt_json, text_of};
use crate::status::{base_name, base_of};
use crate::strmap::{find, StrMap};
use crate::sysfs::{DeviceInfo, DeviceInfoView};
use crate::targets::{MemberAllocation, MemberAllocationView};
use crate::text::{
    after_prefix, before_suffix, cat2, copy, count, decimal, has_prefix, item, lemma_views_push,
    lines_of, number, number32, opt, opt_copy, opt_views, parse_u32, parse_u64, same, starts_with,
    strip_prefix, strip_suffix, trim, trimmed, u64_text, views, words, words_by, words_of,
    words_with, Duplicate, Sep,
};
use crate::topology::{
    topology_of, traced, BlockNode, BlockTopologyView, CacheView, NodesView, Resolver,
};
use crate::window::capped_sum;
use vstd::prelude::*;

verus! {

pub type FilesView = Seq<(Seq<char>, Seq<char>)>;

/// What the directory of one member holds.
#[derive(Debug)]
pub struct RawDevice {
    /// The name of the directory.
    pub dir: String,
    /// The files that could be read, by name.
    pub files: StrMap<String>,
    /// Where the link to the block device leads.
    pub block_link: Option<String>,
    pub online: Option<bool>,
    /// Whether the block device is a partition.
    pub partition: bool,
}

#[verifier::ext_equal]
pub struct RawDeviceView {
    pub dir: Seq<char>,
    pub files: Seq<(Seq<char>, Seq<char>)>,
    pub block_link: Option<Seq<char>>,
    pub online: Option<bool>,
    pub partition: bool,
}

impl View for RawDevice {
    type V = RawDeviceView;

    open spec fn view(&self) -> RawDeviceView {
        RawDeviceView {
            dir: self.dir@,
            files: self.files@,
            block_link: opt(self.block_link),
            online: self.online,
            partition: self.partition,
        }
    }
}

impl Duplicate for RawDevice {
    fn duplicate(&self) -> (r: RawDevice) {
        RawDevice {
            dir: copy(self.dir.as_str()),
            files: self.files.duplicate(),
            block_link: opt_copy(&self.block_link),
            online: self.online,
            partition: self.partition,
        }
    }
}

impl Clone for RawDevice {
    fn clone(&self) -> (r: RawDevice)
        ensures
            r@ == self@,
    {
        self.duplicate()
    }
}

/// A file of a directory, trimmed; none where it is missing or blank.
pub open spec fn file_in(files: FilesView, name: Seq<char>) -> Option<Seq<char>> {
    text_of(find(files, name))
}

pub fn get_file(files: &StrMap<String>, name: &str) -> (r: Option<String>)
    ensures
        opt(r) == file_in(files@, name@),
{
    file_text(files.get(name))
}

/// A file as it is.
pub fn get_raw(files: &StrMap<String>, name: &str) -> (r: Option<String>)
    ensures
        opt(r) == find(files@, name@),
{
    match files.get(name) {
        Some(t) => Some(copy(t.as_str())),
        None => None,
    }
}

// -------------------------------------------------------------- allocation

/// A word in square brackets, without them.
pub open spec fn marked(word: Seq<char>) -> Option<Seq<char>> {
    match after_prefix(word, "["@) {
        Some(rest) => before_suffix(rest, "]"@),
        None => None,
    }
}

fn find_marked(word: &str) -> (r: Option<String>)
    ensures
        opt(r) == marked(word@),
{
    match strip_prefix(word, "[") {
        Some(rest) => strip_suffix(rest.as_str(), "]"),
        None => None,
    }
}

pub open spec fn first_marked(ws: Seq<Seq<char>>) -> Option<Seq<char>>
    decreases ws.len(),
{
    if ws.len() == 0 {
        None
    } else {
        match marked(ws[0]) {
            Some(w) => Some(w),
            None => first_marked(ws.skip(1)),
        }
    }
}

fn find_first_marked(ws: &Vec<String>) -> (r: Option<String>)
    ensures
        opt(r) == first_marked(views(ws@)),
{
    let ghost all = views(ws@);
    let mut i: usize = 0;
    proof {
        assert(all.skip(0) =~= all);
    }
    while i < count(ws)
        invariant
            i <= all.len(),
            all == views(ws@),
            first_marked(all) == first_marked(all.skip(i as int)),
        decreases all.len() - i,
    {
        proof {
            assert(all.skip(i as int).skip(1) =~= all.skip(i + 1));
        }
        if let Some(w) = find_marked(item(ws, i)) {
            return Some(w);
        }
        i = i + 1;
    }
    None
}

pub open spec fn is_state(s: Seq<char>) -> bool {
    s == "rw"@ || s == "ro"@ || s == "failed"@ || s == "spare"@
}

/// The state of a member: the word in brackets, or the whole text where none
/// is, provided that it is a state.
pub open spec fn state_of(text: Option<Seq<char>>) -> Option<Seq<char>> {
    match text {
        Some(s) => {
            let value = match first_marked(words_of(s)) {
                Some(w) => w,
                None => s,
            };
            if is_state(value) {
                Some(value)
            } else {
                None
            }
        },
        None => None,
    }
}

pub fn parse_state(text: &Option<String>) -> (r: Option<String>)
    ensures
        opt(r) == state_of(opt(*text)),
{
    let s = match text {
        Some(s) => s,
        None => {
            return None;
        },
    };
    let value = match find_first_marked(&words(s.as_str())) {
        Some(w) => w,
        None => copy(s.as_str()),
    };
    if same(value.as_str(), "rw") || same(value.as_str(), "ro") || same(value.as_str(), "failed")
        || same(value.as_str(), "spare") {
        Some(value)
    } else {
        None
    }
}

pub open spec fn is_data_type(s: Seq<char>) -> bool {
    s == "journal"@ || s == "btree"@ || s == "user"@
}

/// The types of data that a member takes. Unknown where a type is.
pub open spec fn allowed_of(text: Option<Seq<char>>) -> Option<Seq<Seq<char>>> {
    match text {
        Some(s) => if s == "none"@ || s == "(none)"@ {
            Some(Seq::empty())
        } else {
            let types = words_by(s, Sep::WhiteOrComma);
            if forall|i: int| 0 <= i < types.len() ==> is_data_type(#[trigger] types[i]) {
                Some(types)
            } else {
                None
            }
        },
        None => None,
    }
}

pub fn parse_data_allowed(text: &Option<String>) -> (r: Option<Vec<String>>)
    ensures
        opt_views(r) == allowed_of(opt(*text)),
{
    let s = match text {
        Some(s) => s,
        None => {
            return None;
        },
    };
    if same(s.as_str(), "none") || same(s.as_str(), "(none)") {
        let none: Vec<String> = Vec::new();
        assert(views(none@) =~= Seq::<Seq<char>>::empty());
        return Some(none);
    }
    let types = words_with(s.as_str(), Sep::WhiteOrComma);
    let ghost all = views(types@);
    let mut i: usize = 0;
    while i < count(&types)
        invariant
            i <= all.len(),
            all == views(types@),
            all == words_by(s@, Sep::WhiteOrComma),
            forall|k: int| 0 <= k < i ==> is_data_type(#[trigger] all[k]),
            *text == Some(*s),
            s@ != "none"@ && s@ != "(none)"@,
        decreases all.len() - i,
    {
        let t = item(&types, i);
        if !(same(t, "journal") || same(t, "btree") || same(t, "user")) {
            assert(!is_data_type(all[i as int]));
            return None;
        }
        i = i + 1;
    }
    Some(types)
}

pub open spec fn number_text(text: Option<Seq<char>>) -> Option<u64> {
    match text {
        Some(s) => number(s),
        None => None,
    }
}

fn parse_number(text: &Option<String>) -> (r: Option<u64>)
    ensures
        r == number_text(opt(*text)),
{
    match text {
        Some(s) => parse_u64(s.as_str()),
        None => None,
    }
}

/// What the files of a member say of what it takes.
pub open spec fn allocation_of(files: FilesView, online: Option<bool>) -> MemberAllocationView {
    MemberAllocationView {
        state: state_of(file_in(files, "state"@)),
        data_allowed: allowed_of(file_in(files, "data_allowed"@)),
        durability: number_text(file_in(files, "durability"@)),
        online,
        ..MemberAllocationView::blank()
    }
}

pub fn read_member_allocation(files: &StrMap<String>, online: Option<bool>) -> (r: MemberAllocation)
    ensures
        r@ == allocation_of(files@, online),
{
    let r = MemberAllocation {
        state: parse_state(&get_file(files, "state")),
        data_allowed: parse_data_allowed(&get_file(files, "data_allowed")),
        durability: parse_number(&get_file(files, "durability")),
        online,
        ..MemberAllocation::default()
    };
    r
}

/// The size of a bucket; a size of zero is none.
pub open spec fn bucket_of(text: Option<Seq<char>>) -> Option<u64> {
    match text {
        Some(s) => match human_bytes(s) {
            Some(n) => if n > 0 {
                Some(n)
            } else {
                None
            },
            None => None,
        },
        None => None,
    }
}

fn parse_bucket(text: &Option<String>) -> (r: Option<u64>)
    ensures
        r == bucket_of(opt(*text)),
{
    match text {
        Some(s) => match parse_human_bytes(s.as_str()) {
            Some(n) => if n > 0 {
                Some(n)
            } else {
                None
            },
            None => None,
        },
        None => None,
    }
}

/// The allocation with what the slow tables say. What they do not say stays.
pub open spec fn with_usage(a: MemberAllocationView, files: FilesView) -> MemberAllocationView {
    let bucket = bucket_of(file_in(files, "bucket_size"@));
    let sized = MemberAllocationView {
        capacity_bytes: both_times(number_text(file_in(files, "nbuckets"@)), bucket),
        ..a
    };
    match file_in(files, "alloc_debug"@) {
        Some(text) => usage_scan(sized, lines_of(text), bucket).0,
        None => sized,
    }
}

pub fn read_member_usage(files: &StrMap<String>, allocation: &mut MemberAllocation)
    ensures
        final(allocation)@ == with_usage(old(allocation)@, files@),
{
    let bucket = parse_bucket(&get_file(files, "bucket_size"));
    let nbuckets = parse_number(&get_file(files, "nbuckets"));
    allocation.capacity_bytes = match (nbuckets, bucket) {
        (Some(n), Some(size)) => n.checked_mul(size),
        _ => None,
    };
    if let Some(text) = get_file(files, "alloc_debug") {
        parse_member_usage(text.as_str(), bucket, allocation);
    }
}

// ----------------------------------------------------------------- latency

/// The recent mean from JSON, else the cumulative one.
pub open spec fn latency_of(members: Option<Seq<JsonMemberView>>, text: Option<Seq<char>>) -> u64 {
    let recent = match members {
        Some(m) => inner_number(m, "duration_ewma_ns"@, "mean"@),
        None => None,
    };
    match recent {
        Some(n) => n,
        None => match text {
            Some(t) => match number(trimmed(t)) {
                Some(n) => n,
                None => 0,
            },
            None => 0,
        },
    }
}

pub fn choose_latency(members: &Option<Vec<JsonMember>>, text: &Option<String>) -> (r: u64)
    ensures
        r == latency_of(opt_json(*members), opt(*text)),
{
    if let Some(m) = members {
        if let Some(n) = get_inner(m, "duration_ewma_ns", "mean") {
            return n;
        }
    }
    match text {
        Some(t) => match parse_u64(trim(t.as_str()).as_str()) {
            Some(n) => n,
            None => 0,
        },
        None => 0,
    }
}

/// Latency in nanoseconds from the contents of the two files that have it.
pub fn latency_ns(json: &Option<String>, text: &Option<String>) -> (r: u64)
    ensures
        r == latency_of(json_of(opt(*json)), opt(*text)),
{
    choose_latency(&read_opt_json(json), text)
}

// ------------------------------------------------------------------ I/O done

pub open spec fn values_of(m: Seq<(Seq<char>, u64)>) -> Seq<u64> {
    Seq::new(m.len(), |i: int| m[i].1)
}

pub open spec fn bytes_by_type(members: Option<Seq<JsonMemberView>>, key: Seq<char>) -> Seq<
    (Seq<char>, u64),
> {
    match members {
        Some(m) => numbers(members_at(m, key)),
        None => Seq::empty(),
    }
}

pub fn get_bytes_by_type(members: &Option<Vec<JsonMember>>, key: &str) -> (r: StrMap<u64>)
    ensures
        r@ == bytes_by_type(opt_json(*members), key@),
{
    match members {
        Some(m) => get_numbers(m, key),
        None => StrMap::new(),
    }
}

pub fn sum_values(m: &StrMap<u64>) -> (r: u64)
    ensures
        r == wrapped(total(values_of(m@))),
{
    let mut v: Vec<u64> = Vec::new();
    let mut i: usize = 0;
    while i < m.len()
        invariant
            i <= m@.len(),
            v@.len() == i,
            forall|k: int| 0 <= k < i ==> v@[k] == (#[trigger] m@[k]).1,
        decreases m@.len() - i,
    {
        v.push(*m.value_at(i));
        i = i + 1;
    }
    assert(v@ =~= values_of(m@));
    sum_all(&v)
}

// -------------------------------------------------------------------- device

/// The number in the name of a directory; zero where it has none.
pub open spec fn index_of(dir: Seq<char>) -> u32 {
    match after_prefix(dir, "dev-"@) {
        Some(s) => match number32(s) {
            Some(n) => n,
            None => 0,
        },
        None => 0,
    }
}

fn find_index(dir: &str) -> (r: u32)
    ensures
        r == index_of(dir@),
{
    match strip_prefix(dir, "dev-") {
        Some(s) => match parse_u32(s.as_str()) {
            Some(n) => n,
            None => 0,
        },
        None => 0,
    }
}

pub open spec fn dir_of(index: u32) -> Seq<char> {
    "dev-"@ + decimal(index as nat)
}

pub fn dir_name(index: u32) -> (r: String)
    ensures
        r@ == dir_of(index),
{
    cat2("dev-", u64_text(index as u64).as_str())
}

/// The name of a member: what its file says, else what its link leads to, else
/// its directory.
pub open spec fn member_name(raw: RawDeviceView) -> Seq<char> {
    match file_in(raw.files, "dev"@) {
        Some(name) => name,
        None => {
            let linked = match raw.block_link {
                Some(path) => base_of(path),
                None => None,
            };
            match linked {
                Some(name) => name,
                None => dir_of(index_of(raw.dir)),
            }
        },
    }
}

fn find_name(raw: &RawDevice) -> (r: String)
    ensures
        r@ == member_name(raw@),
{
    if let Some(name) = get_file(&raw.files, "dev") {
        return name;
    }
    if let Some(path) = &raw.block_link {
        if let Some(name) = base_name(path.as_str()) {
            return name;
        }
    }
    dir_name(find_index(raw.dir.as_str()))
}

pub open spec fn errors_of(text: Option<Seq<char>>) -> Option<Seq<(Seq<char>, u64)>> {
    match text {
        Some(s) => error_table(s),
        None => None,
    }
}

/// The sum, which stops at the largest number.
pub open spec fn capped_total(counts: Seq<(Seq<char>, u64)>) -> u64
    decreases counts.len(),
{
    if counts.len() == 0 {
        0
    } else {
        capped_sum(capped_total(counts.drop_last()), counts.last().1)
    }
}

fn sum_errors(counts: &Option<StrMap<u64>>) -> (r: u64)
    ensures
        r == (match opt_map(*counts) {
            Some(m) => capped_total(m),
            None => 0,
        }),
{
    let m = match counts {
        Some(m) => m,
        None => {
            return 0;
        },
    };
    let ghost all = m@;
    let mut n: u64 = 0;
    let mut i: usize = 0;
    proof {
        assert(all.take(0) =~= Seq::<(Seq<char>, u64)>::empty());
    }
    while i < m.len()
        invariant
            i <= all.len(),
            all == m@,
            n == capped_total(all.take(i as int)),
        decreases all.len() - i,
    {
        proof {
            assert(all.take(i + 1).drop_last() =~= all.take(i as int));
            assert(all.take(i + 1).last() == all[i as int]);
        }
        n = n.saturating_add(*m.value_at(i));
        i = i + 1;
    }
    proof {
        assert(all.take(i as int) =~= all);
    }
    n
}

pub open spec fn device_of(
    raw: RawDeviceView,
    diskstats: Seq<char>,
    topology: BlockTopologyView,
) -> DeviceInfoView {
    let name = member_name(raw);
    let row = disk_scan(lines_of(diskstats), name);
    let done = json_of(find(raw.files, "io_done"@));
    let read = bytes_by_type(done, "read"@);
    let written = bytes_by_type(done, "write"@);
    let errors = errors_of(file_in(raw.files, "io_errors"@));
    DeviceInfoView {
        index: index_of(raw.dir),
        name,
        member_uuid: file_in(raw.files, "uuid"@),
        label: file_in(raw.files, "label"@),
        topology,
        allocation: allocation_of(raw.files, raw.online),
        io_latency_read_ns: latency_of(
            json_of(find(raw.files, "io_latency_stats_read_json"@)),
            find(raw.files, "io_latency_read"@),
        ),
        io_latency_write_ns: latency_of(
            json_of(find(raw.files, "io_latency_stats_write_json"@)),
            find(raw.files, "io_latency_write"@),
        ),
        io_done_read: wrapped(total(values_of(read))),
        io_done_write: wrapped(total(values_of(written))),
        io_read_by_type: read,
        io_write_by_type: written,
        io_errors: match errors {
            Some(counts) => capped_total(counts),
            None => 0,
        },
        error_counts: errors,
        diskstats_io_ms: row.io_ms,
        diskstats_reads: row.reads,
        diskstats_writes: row.writes,
        diskstats_read_ms: row.read_ms,
        diskstats_write_ms: row.write_ms,
        diskstats_in_flight: row.in_flight,
        diskstats_weighted_io_ms: row.weighted_io_ms,
        diskstats_valid: row.valid,
        diskstats_discards: row.discards,
        diskstats_flushes: if raw.partition {
            None
        } else {
            row.flushes
        },
    }
}

fn read_latency(files: &StrMap<String>, json: &str, text: &str) -> (r: u64)
    ensures
        r == latency_of(json_of(find(files@, json@)), find(files@, text@)),
{
    latency_ns(&get_raw(files, json), &get_raw(files, text))
}

fn read_errors(files: &StrMap<String>) -> (r: Option<StrMap<u64>>)
    ensures
        opt_map(r) == errors_of(file_in(files@, "io_errors"@)),
{
    match get_file(files, "io_errors") {
        Some(s) => parse_io_errors(s.as_str()),
        None => None,
    }
}

/// One member from its files, the rows of the disk statistics, and the disks
/// that it lies on.
pub fn read_device(raw: &RawDevice, diskstats: &str, resolver: &mut Resolver) -> (r: DeviceInfo)
    ensures
        final(resolver).nodes@ == old(resolver).nodes@,
        ({
            let (leaves, cache) = traced(
                old(resolver).nodes@,
                old(resolver).cache@,
                member_name(raw@),
                Seq::empty(),
                0,
            );
            &&& final(resolver).cache@ == cache
            &&& r@ == device_of(raw@, diskstats@, topology_of(leaves))
        }),
{
    let name = find_name(raw);
    let row = parse_diskstats_for(diskstats, name.as_str());
    let done = read_opt_json(&get_raw(&raw.files, "io_done"));
    let read = get_bytes_by_type(&done, "read");
    let written = get_bytes_by_type(&done, "write");
    let errors = read_errors(&raw.files);
    let topology = resolver.resolve(name.as_str());
    DeviceInfo {
        index: find_index(raw.dir.as_str()),
        member_uuid: get_file(&raw.files, "uuid"),
        label: get_file(&raw.files, "label"),
        topology,
        allocation: read_member_allocation(&raw.files, raw.online),
        io_latency_read_ns: read_latency(
            &raw.files,
            "io_latency_stats_read_json",
            "io_latency_read",
        ),
        io_latency_write_ns: read_latency(
            &raw.files,
            "io_latency_stats_write_json",
            "io_latency_write",
        ),
        io_done_read: sum_values(&read),
        io_done_write: sum_values(&written),
        io_read_by_type: read,
        io_write_by_type: written,
        io_errors: sum_errors(&errors),
        error_counts: errors,
        diskstats_io_ms: row.io_ms,
        diskstats_reads: row.reads,
        diskstats_writes: row.writes,
        diskstats_read_ms: row.read_ms,
        diskstats_write_ms: row.write_ms,
        diskstats_in_flight: row.in_flight,
        diskstats_weighted_io_ms: row.weighted_io_ms,
        diskstats_valid: row.valid,
        diskstats_discards: row.discards,
        diskstats_flushes: if raw.partition {
            None
        } else {
            row.flushes
        },
        name,
    }
}

/// The members as they stand in the directory, and what is remembered of the
/// disks.
pub open spec fn devices_scan(raws: Seq<RawDeviceView>, diskstats: Seq<char>, nodes: NodesView) -> (
    Seq<DeviceInfoView>,
    CacheView,
)
    decreases raws.len(),
{
    if raws.len() == 0 {
        (Seq::empty(), Seq::empty())
    } else {
        let (devices, cache) = devices_scan(raws.drop_last(), diskstats, nodes);
        let raw = raws.last();
        if has_prefix(raw.dir, "dev-"@) {
            let (leaves, after) = traced(nodes, cache, member_name(raw), Seq::empty(), 0);
            (devices.push(device_of(raw, diskstats, topology_of(leaves))), after)
        } else {
            (devices, cache)
        }
    }
}

/// The members by label and by natural name.
pub open spec fn devices_of(raws: Seq<RawDeviceView>, diskstats: Seq<char>, nodes: NodesView) -> Seq<
    DeviceInfoView,
> {
    arranged::<DeviceInfo, ByPlace>(devices_scan(raws, diskstats, nodes).0)
}

pub fn read_devices(raws: &Vec<RawDevice>, diskstats: &str, nodes: &StrMap<BlockNode>) -> (r: Vec<
    DeviceInfo,
>)
    ensures
        views(r@) == devices_of(views(raws@), diskstats@, nodes@),
{
    broadcast use lemma_views_push;

    let ghost all = views(raws@);
    let mut resolver = Resolver::new(nodes.duplicate());
    let mut devices: Vec<DeviceInfo> = Vec::new();
    let mut i: usize = 0;
    proof {
        assert(all.take(0) =~= Seq::<RawDeviceView>::empty());
        assert(resolver.cache@ =~= Seq::empty());
        assert(views(devices@) =~= Seq::<DeviceInfoView>::empty());
    }
    while i < raws.len()
        invariant
            i <= all.len(),
            all == views(raws@),
            resolver.nodes@ == nodes@,
            (views(devices@), resolver.cache@) == devices_scan(
                all.take(i as int),
                diskstats@,
                nodes@,
            ),
        decreases all.len() - i,
    {
        proof {
            assert(all.take(i + 1).drop_last() =~= all.take(i as int));
            assert(all.take(i + 1).last() == raws@[i as int]@);
        }
        if starts_with(raws[i].dir.as_str(), "dev-") {
            let device = read_device(&raws[i], diskstats, &mut resolver);
            devices.push(device);
        }
        i = i + 1;
    }
    proof {
        assert(all.take(i as int) =~= all);
    }
    sort::<DeviceInfo, ByPlace>(devices)
}

} // verus!
