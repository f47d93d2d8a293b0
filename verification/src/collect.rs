//! The snapshot of a filesystem from the texts that the kernel and the
//! `bcachefs` tool give of it.

use crate::double::Double;
use crate::member::{
    devices_of, dir_name, dir_of, file_in, get_file, get_raw, read_devices, read_member_usage,
    with_usage, FilesView, RawDevice, RawDeviceView,
};
use crate::parse::{
    cpu_scan, first_btree, gc_scan, human_bytes, lemma_next_line, memory_scan,
    parse_btree_disk_bytes, parse_copygc_status, parse_cpu_iowait, parse_human_bytes,
    parse_memory_info,
};
use crate::stats::{
    all_stats, blocked_stats, count_from, file_text, json_of, mean_scan, parse_recent_mean_us,
    read_all_time_stats, read_blocked_stats, text_of, time_stat_count,
};
use crate::status::{
    base_name, base_of, counters_of, fs_space, journal_scan, options_of, or_empty, parse_fs_usage,
    parse_journal_state, parse_reconcile_status, plain_lines, read_counters, read_options,
    reconcile_status, skip_bcachefs_warning, space_of, usage_scan, StatFs,
};
use crate::strmap::{find, StrMap};
use crate::sysfs::{DeviceInfo, DeviceInfoView, FsSnapshot, FsSnapshotView, Instant};
use crate::targets::{
    CopyGcStatus, CopyGcStatusView, MemberAllocation, MemberAllocationView, ReconcileStatus,
    ReconcileStatusView, TargetConfig, TargetConfigView,
};
use crate::text::{
    cat2, copy, count, has_prefix, holds, item, join, joined, lemma_views_push, lines, lines_of,
    opt, opt_same, opt_views, pieces, same, split, starts_with, trim, trimmed, views, Duplicate,
    Sep,
};
use crate::topology::{BlockNode, NodesView};
use crate::window::{since, time_since};
use vstd::prelude::*;

verus! {

/// The texts of one filesystem, and when they were read.
#[derive(Debug)]
pub struct RawFs {
    pub started_at: Instant,
    /// When the disk statistics were read.
    pub sampled_at: Instant,
    /// When everything else had been read.
    pub now: Instant,
    /// `/proc/stat`.
    pub cpu: String,
    /// `/proc/meminfo`.
    pub meminfo: String,
    /// `/proc/diskstats`.
    pub diskstats: String,
    pub stat: Option<StatFs>,
    /// What `bcachefs fs usage` printed.
    pub usage: Option<String>,
    /// What `bcachefs reconcile status` printed.
    pub reconcile: Option<String>,
    /// The options that exist, readable or not.
    pub option_names: Vec<String>,
    pub options: StrMap<String>,
    pub counters: StrMap<String>,
    pub time_stats: StrMap<String>,
    pub time_stats_json: StrMap<String>,
    /// Files of the directory `internal`, without the slow allocator table.
    pub internal: StrMap<String>,
    /// Files of the directory of the filesystem itself.
    pub top: StrMap<String>,
    /// Where the targets that are paths lead.
    pub canonical: StrMap<String>,
    pub devices: Vec<RawDevice>,
    /// The block devices of the host.
    pub nodes: StrMap<BlockNode>,
}

#[verifier::ext_equal]
pub struct RawFsView {
    pub started_at: Instant,
    pub sampled_at: Instant,
    pub now: Instant,
    pub cpu: Seq<char>,
    pub meminfo: Seq<char>,
    pub diskstats: Seq<char>,
    pub stat: Option<StatFs>,
    pub usage: Option<Seq<char>>,
    pub reconcile: Option<Seq<char>>,
    pub option_names: Seq<Seq<char>>,
    pub options: Seq<(Seq<char>, Seq<char>)>,
    pub counters: Seq<(Seq<char>, Seq<char>)>,
    pub time_stats: Seq<(Seq<char>, Seq<char>)>,
    pub time_stats_json: Seq<(Seq<char>, Seq<char>)>,
    pub internal: Seq<(Seq<char>, Seq<char>)>,
    pub top: Seq<(Seq<char>, Seq<char>)>,
    pub canonical: Seq<(Seq<char>, Seq<char>)>,
    pub devices: Seq<RawDeviceView>,
    pub nodes: NodesView,
}

impl View for RawFs {
    type V = RawFsView;

    open spec fn view(&self) -> RawFsView {
        RawFsView {
            started_at: self.started_at,
            sampled_at: self.sampled_at,
            now: self.now,
            cpu: self.cpu@,
            meminfo: self.meminfo@,
            diskstats: self.diskstats@,
            stat: self.stat,
            usage: opt(self.usage),
            reconcile: opt(self.reconcile),
            option_names: views(self.option_names@),
            options: self.options@,
            counters: self.counters@,
            time_stats: self.time_stats@,
            time_stats_json: self.time_stats_json@,
            internal: self.internal@,
            top: self.top@,
            canonical: self.canonical@,
            devices: views(self.devices@),
            nodes: self.nodes@,
        }
    }
}

/// The slow allocator tables.
#[derive(Debug)]
pub struct RawUsage {
    /// By the directory of the member.
    pub members: StrMap<StrMap<String>>,
    /// The table of the whole filesystem.
    pub alloc_debug: Option<String>,
}

#[verifier::ext_equal]
pub struct RawUsageView {
    pub members: Seq<(Seq<char>, Seq<(Seq<char>, Seq<char>)>)>,
    pub alloc_debug: Option<Seq<char>>,
}

impl View for RawUsage {
    type V = RawUsageView;

    open spec fn view(&self) -> RawUsageView {
        RawUsageView {
            members: self.members@,
            alloc_debug: opt(self.alloc_debug),
        }
    }
}

impl RawUsageView {
    pub open spec fn blank() -> RawUsageView {
        RawUsageView {
            members: Seq::empty(),
            alloc_debug: None,
        }
    }
}

impl Default for RawUsage {
    fn default() -> (r: RawUsage)
        ensures
            r@ == RawUsageView::blank(),
    {
        let r = RawUsage {
            members: StrMap::new(),
            alloc_debug: None,
        };
        assert(r@ =~= RawUsageView::blank());
        r
    }
}

/// How long slow tables are kept.
pub const REFRESH_AFTER: u64 = 10_000_000_000;

// ------------------------------------------------------------ reading again

/// Whether nothing that decides what the slow tables say has changed.
pub open spec fn same_member(p: DeviceInfoView, d: DeviceInfoView) -> bool {
    &&& p.index == d.index
    &&& p.name == d.name
    &&& p.member_uuid == d.member_uuid
    &&& p.label == d.label
    &&& p.allocation.state == d.allocation.state
    &&& p.allocation.online == d.allocation.online
    &&& p.allocation.durability == d.allocation.durability
    &&& p.allocation.data_allowed == d.allocation.data_allowed
}

pub open spec fn known_before(previous: Seq<DeviceInfoView>, d: DeviceInfoView) -> bool {
    exists|i: int| 0 <= i < previous.len() && same_member(#[trigger] previous[i], d)
}

/// Whether the slow tables of the previous snapshot still stand: they are
/// younger than ten seconds, and neither options nor members have changed.
pub open spec fn reusable(
    previous: FsSnapshotView,
    options: Seq<(Seq<char>, Seq<char>)>,
    devices: Seq<DeviceInfoView>,
    now: Instant,
) -> bool {
    &&& previous.options == options
    &&& match previous.allocation_sampled_at {
        Some(at) => since(now, at) < REFRESH_AFTER,
        None => false,
    }
    &&& previous.devices.len() == devices.len()
    &&& forall|i: int|
        0 <= i < devices.len() ==> known_before(previous.devices, #[trigger] devices[i])
}

fn opt_same_all(a: &Option<Vec<String>>, b: &Option<Vec<String>>) -> (r: bool)
    ensures
        r == (opt_views(*a) == opt_views(*b)),
{
    match (a, b) {
        (Some(x), Some(y)) => {
            if x.len() != y.len() {
                assert(views(x@).len() != views(y@).len());
                return false;
            }
            let mut i: usize = 0;
            while i < x.len()
                invariant
                    i <= x@.len() == y@.len(),
                    *a == Some(*x),
                    *b == Some(*y),
                    forall|k: int| 0 <= k < i ==> views(x@)[k] == views(y@)[k],
                decreases x@.len() - i,
            {
                if !same(item(x, i), item(y, i)) {
                    assert(views(x@)[i as int] != views(y@)[i as int]);
                    return false;
                }
                i = i + 1;
            }
            assert(views(x@) =~= views(y@));
            true
        },
        (None, None) => true,
        _ => false,
    }
}

fn is_same_member(p: &DeviceInfo, d: &DeviceInfo) -> (r: bool)
    ensures
        r == same_member(p@, d@),
{
    p.index == d.index && same(p.name.as_str(), d.name.as_str()) && opt_same(
        &p.member_uuid,
        &d.member_uuid,
    ) && opt_same(&p.label, &d.label) && opt_same(&p.allocation.state, &d.allocation.state)
        && same_flag(p.allocation.online, d.allocation.online) && same_number(
        p.allocation.durability,
        d.allocation.durability,
    ) && opt_same_all(&p.allocation.data_allowed, &d.allocation.data_allowed)
}

fn same_flag(a: Option<bool>, b: Option<bool>) -> (r: bool)
    ensures
        r == (a == b),
{
    match (a, b) {
        (Some(x), Some(y)) => x == y,
        (None, None) => true,
        _ => false,
    }
}

fn same_number(a: Option<u64>, b: Option<u64>) -> (r: bool)
    ensures
        r == (a == b),
{
    match (a, b) {
        (Some(x), Some(y)) => x == y,
        (None, None) => true,
        _ => false,
    }
}

fn was_known(previous: &Vec<DeviceInfo>, d: &DeviceInfo) -> (r: bool)
    ensures
        r == known_before(views(previous@), d@),
{
    let mut i: usize = 0;
    while i < previous.len()
        invariant
            i <= previous@.len(),
            forall|k: int| 0 <= k < i ==> !same_member(#[trigger] views(previous@)[k], d@),
        decreases previous@.len() - i,
    {
        if is_same_member(&previous[i], d) {
            assert(same_member(views(previous@)[i as int], d@));
            return true;
        }
        assert(views(previous@)[i as int] == previous@[i as int]@);
        i = i + 1;
    }
    false
}

fn same_options(a: &StrMap<String>, b: &StrMap<String>) -> (r: bool)
    ensures
        r == (a@ == b@),
{
    if a.len() != b.len() {
        return false;
    }
    let mut i: usize = 0;
    while i < a.len()
        invariant
            i <= a@.len() == b@.len(),
            forall|k: int| 0 <= k < i ==> a@[k] == b@[k],
        decreases a@.len() - i,
    {
        if !same(a.key_at(i), b.key_at(i)) || !same(a.value_at(i).as_str(), b.value_at(i).as_str()) {
            assert(a@[i as int] != b@[i as int]);
            return false;
        }
        i = i + 1;
    }
    assert(a@ =~= b@);
    true
}

pub fn can_reuse(
    previous: &FsSnapshot,
    options: &StrMap<String>,
    devices: &Vec<DeviceInfo>,
    now: Instant,
) -> (r: bool)
    ensures
        r == reusable(previous@, options@, views(devices@), now),
{
    if !same_options(&previous.options, options) {
        return false;
    }
    let young = match previous.allocation_sampled_at {
        Some(at) => time_since(now, at) < REFRESH_AFTER,
        None => false,
    };
    if !young || count(&previous.devices) != count(devices) {
        return false;
    }
    let mut i: usize = 0;
    while i < devices.len()
        invariant
            i <= devices@.len(),
            forall|k: int|
                0 <= k < i ==> known_before(views(previous.devices@), #[trigger] views(devices@)[k]),
        decreases devices@.len() - i,
    {
        if !was_known(&previous.devices, &devices[i]) {
            assert(!known_before(previous@.devices, views(devices@)[i as int]));
            return false;
        }
        i = i + 1;
    }
    true
}

/// The allocation of the first device with an index.
pub open spec fn allocation_at(devices: Seq<DeviceInfoView>, index: u32) -> Option<
    MemberAllocationView,
>
    decreases devices.len(),
{
    if devices.len() == 0 {
        None
    } else if devices[0].index == index {
        Some(devices[0].allocation)
    } else {
        allocation_at(devices.skip(1), index)
    }
}

fn find_allocation(devices: &Vec<DeviceInfo>, index: u32) -> (r: Option<MemberAllocation>)
    ensures
        opt(r) == allocation_at(views(devices@), index),
{
    let ghost all = views(devices@);
    let mut i: usize = 0;
    proof {
        assert(all.skip(0) =~= all);
    }
    while i < devices.len()
        invariant
            i <= all.len(),
            all == views(devices@),
            allocation_at(all, index) == allocation_at(all.skip(i as int), index),
        decreases all.len() - i,
    {
        proof {
            assert(all.skip(i as int).skip(1) =~= all.skip(i + 1));
            assert(all.skip(i as int)[0] == devices@[i as int]@);
        }
        if devices[i].index == index {
            return Some(devices[i].allocation.duplicate());
        }
        i = i + 1;
    }
    None
}

/// A device with what the slow tables say, kept or read anew.
pub open spec fn refreshed(
    d: DeviceInfoView,
    kept: Option<FsSnapshotView>,
    usage: RawUsageView,
) -> DeviceInfoView {
    match kept {
        Some(previous) => match allocation_at(previous.devices, d.index) {
            Some(a) => DeviceInfoView { allocation: a, ..d },
            None => d,
        },
        None => DeviceInfoView {
            allocation: with_usage(
                d.allocation,
                match find(usage.members, dir_of(d.index)) {
                    Some(files) => files,
                    None => Seq::empty(),
                },
            ),
            ..d
        },
    }
}

pub open spec fn all_refreshed(
    devices: Seq<DeviceInfoView>,
    kept: Option<FsSnapshotView>,
    usage: RawUsageView,
) -> Seq<DeviceInfoView> {
    Seq::new(devices.len(), |i: int| refreshed(devices[i], kept, usage))
}

pub open spec fn opt_ref<T: View>(s: Option<&T>) -> Option<T::V> {
    match s {
        Some(v) => Some(v@),
        None => None,
    }
}

fn refresh(device: DeviceInfo, kept: Option<&FsSnapshot>, usage: &RawUsage) -> (r: DeviceInfo)
    ensures
        r@ == refreshed(device@, opt_ref(kept), usage@),
{
    let mut d = device;
    match kept {
        Some(previous) => {
            if let Some(a) = find_allocation(&previous.devices, d.index) {
                d.allocation = a;
            }
        },
        None => {
            let dir = dir_name(d.index);
            let mut a = d.allocation.duplicate();
            match usage.members.get(dir.as_str()) {
                Some(files) => {
                    read_member_usage(files, &mut a);
                },
                None => {
                    let none: StrMap<String> = StrMap::new();
                    read_member_usage(&none, &mut a);
                },
            }
            d.allocation = a;
        },
    }
    d
}

fn refresh_all(devices: Vec<DeviceInfo>, kept: Option<&FsSnapshot>, usage: &RawUsage) -> (r: Vec<
    DeviceInfo,
>)
    ensures
        views(r@) == all_refreshed(views(devices@), opt_ref(kept), usage@),
{
    let mut out: Vec<DeviceInfo> = Vec::new();
    let mut i: usize = 0;
    while i < devices.len()
        invariant
            i <= devices@.len(),
            out@.len() == i,
            forall|k: int|
                0 <= k < i ==> (#[trigger] out@[k])@ == refreshed(
                    views(devices@)[k],
                    opt_ref(kept),
                    usage@,
                ),
        decreases devices@.len() - i,
    {
        let d = refresh(devices[i].duplicate(), kept, usage);
        out.push(d);
        i = i + 1;
    }
    assert(views(out@) =~= all_refreshed(views(devices@), opt_ref(kept), usage@));
    out
}

// ---------------------------------------------------------------- background

/// What a status file says of a background task: the line about running, where
/// one is, decides.
pub open spec fn first_running(ls: Seq<Seq<char>>) -> bool
    decreases ls.len(),
{
    if ls.len() == 0 {
        false
    } else if has_prefix(trimmed(ls[0]), "running:"@) {
        trimmed(pieces(ls[0], Sep::Is(':')).last()) == "1"@
    } else {
        first_running(ls.skip(1))
    }
}

fn find_running(ls: &Vec<String>) -> (r: bool)
    ensures
        r == first_running(views(ls@)),
{
    let ghost all = views(ls@);
    let mut i: usize = 0;
    proof {
        assert(all.skip(0) =~= all);
    }
    while i < count(ls)
        invariant
            i <= all.len(),
            all == views(ls@),
            first_running(all) == first_running(all.skip(i as int)),
        decreases all.len() - i,
    {
        proof {
            assert(all.skip(i as int).skip(1) =~= all.skip(i + 1));
        }
        let line = item(ls, i);
        if starts_with(trim(line).as_str(), "running:") {
            let parts = split(line, Sep::Is(':'));
            let n = count(&parts);
            proof {
                lemma_some_piece(line@, Sep::Is(':'));
            }
            return same(trim(item(&parts, n - 1)).as_str(), "1");
        }
        i = i + 1;
    }
    false
}

proof fn lemma_some_piece(s: Seq<char>, sep: Sep)
    ensures
        pieces(s, sep).len() > 0,
{
}

/// What a task does whose file says whether it runs.
pub open spec fn task_status(text: Option<Seq<char>>) -> Seq<char> {
    match text {
        Some(t) => if first_running(lines_of(t)) {
            "working"@
        } else {
            "idle"@
        },
        None => "enabled"@,
    }
}

pub open spec fn copygc_state(running: Option<bool>) -> Seq<char> {
    match running {
        Some(true) => "working"@,
        Some(false) => "idle"@,
        None => "enabled (status unknown)"@,
    }
}

pub open spec fn is_on(options: FilesView, name: Seq<char>) -> bool {
    match find(options, name) {
        Some(v) => trimmed(v) == "1"@,
        None => false,
    }
}

/// The background tasks in a fixed order. A task without a toggle is left out.
pub open spec fn background_of(
    names: Seq<Seq<char>>,
    options: FilesView,
    internal: FilesView,
    reconcile: ReconcileStatusView,
    copygc: CopyGcStatusView,
) -> Seq<(Seq<char>, Seq<char>)> {
    let first = seq![("reconcile"@, reconcile.text())];
    let second = if !names.contains("rebalance_enabled"@) {
        first
    } else if !is_on(options, "rebalance_enabled"@) {
        first.push(("rebalance"@, "off"@))
    } else {
        first.push(("rebalance"@, task_status(find(internal, "rebalance_status"@))))
    };
    if !names.contains("copygc_enabled"@) {
        second
    } else if !is_on(options, "copygc_enabled"@) {
        second.push(("copygc"@, "off"@))
    } else {
        second.push(("copygc"@, copygc_state(copygc.running)))
    }
}

fn find_on(options: &StrMap<String>, name: &str) -> (r: bool)
    ensures
        r == is_on(options@, name@),
{
    match options.get(name) {
        Some(v) => same(trim(v.as_str()).as_str(), "1"),
        None => false,
    }
}

pub fn read_background(
    names: &Vec<String>,
    options: &StrMap<String>,
    internal: &StrMap<String>,
    reconcile: &ReconcileStatus,
    copygc: &CopyGcStatus,
) -> (r: Vec<(String, String)>)
    ensures
        views(r@) == background_of(views(names@), options@, internal@, reconcile@, copygc@),
{
    broadcast use lemma_views_push;

    let mut r: Vec<(String, String)> = Vec::new();
    r.push((copy("reconcile"), reconcile.summary()));
    assert(views(r@) =~= seq![("reconcile"@, reconcile@.text())]);
    if holds(names, "rebalance_enabled") {
        if !find_on(options, "rebalance_enabled") {
            r.push((copy("rebalance"), copy("off")));
        } else {
            let status = match internal.get("rebalance_status") {
                Some(text) => if find_running(&lines(text.as_str())) {
                    copy("working")
                } else {
                    copy("idle")
                },
                None => copy("enabled"),
            };
            r.push((copy("rebalance"), status));
        }
    }
    if holds(names, "copygc_enabled") {
        if !find_on(options, "copygc_enabled") {
            r.push((copy("copygc"), copy("off")));
        } else {
            let status = match copygc.running {
                Some(true) => copy("working"),
                Some(false) => copy("idle"),
                None => copy("enabled (status unknown)"),
            };
            r.push((copy("copygc"), status));
        }
    }
    r
}

// -------------------------------------------------------------- the snapshot

/// The text of a file; empty where there is none.
pub open spec fn text_in(files: FilesView, name: Seq<char>) -> Seq<char> {
    or_empty(find(files, name))
}

fn get_text(files: &StrMap<String>, name: &str) -> (r: String)
    ensures
        r@ == text_in(files@, name@),
{
    match files.get(name) {
        Some(t) => copy(t.as_str()),
        None => String::new(),
    }
}

/// The status of copygc, under either of the names of its file.
pub open spec fn copygc_of(internal: FilesView) -> CopyGcStatusView {
    let text = match file_in(internal, "copy_gc_wait"@) {
        Some(t) => Some(t),
        None => file_in(internal, "copygc_status"@),
    };
    match text {
        Some(t) => gc_scan(lines_of(t)).0,
        None => CopyGcStatusView::blank(),
    }
}

fn read_copygc(internal: &StrMap<String>) -> (r: CopyGcStatus)
    ensures
        r@ == copygc_of(internal@),
{
    let text = match get_file(internal, "copy_gc_wait") {
        Some(t) => Some(t),
        None => get_file(internal, "copygc_status"),
    };
    match text {
        Some(t) => parse_copygc_status(t.as_str()),
        None => CopyGcStatus::default(),
    }
}

fn keep_plain(ls: &Vec<String>) -> (r: Vec<String>)
    ensures
        views(r@) == plain_lines(views(ls@)),
{
    broadcast use lemma_views_push;

    let ghost all = views(ls@);
    let mut r: Vec<String> = Vec::new();
    let mut i: usize = 0;
    proof {
        assert(all.take(0) =~= Seq::<Seq<char>>::empty());
        assert(views(r@) =~= Seq::<Seq<char>>::empty());
    }
    while i < count(ls)
        invariant
            i <= all.len(),
            all == views(ls@),
            views(r@) == plain_lines(all.take(i as int)),
        decreases all.len() - i,
    {
        proof {
            lemma_next_line(all, i as int);
        }
        let line = item(ls, i);
        if !skip_bcachefs_warning(line) {
            r.push(copy(line));
        }
        i = i + 1;
    }
    proof {
        assert(all.take(i as int) =~= all);
    }
    r
}

/// What is known of reconcile: the tool is asked only where it is switched on.
pub open spec fn reconcile_of(options: Seq<(Seq<char>, Seq<char>)>, output: Option<Seq<char>>) -> ReconcileStatusView {
    let enabled = find(options, "reconcile_enabled"@);
    if enabled == Some("1"@) {
        match output {
            Some(text) => reconcile_status(joined(plain_lines(lines_of(text)), "\n"@)),
            None => ReconcileStatusView::blank(),
        }
    } else if enabled == Some("0"@) {
        ReconcileStatusView { state: Some("off"@), ..ReconcileStatusView::blank() }
    } else {
        ReconcileStatusView::blank()
    }
}

fn read_reconcile(options: &StrMap<String>, output: &Option<String>) -> (r: ReconcileStatus)
    ensures
        r@ == reconcile_of(options@, opt(*output)),
{
    let enabled = match options.get("reconcile_enabled") {
        Some(v) => v,
        None => {
            return ReconcileStatus::default();
        },
    };
    if same(enabled.as_str(), "1") {
        match output {
            Some(text) => parse_reconcile_status(
                join(&keep_plain(&lines(text.as_str())), "\n").as_str(),
            ),
            None => ReconcileStatus::default(),
        }
    } else if same(enabled.as_str(), "0") {
        let mut r = ReconcileStatus::default();
        r.state = Some(copy("off"));
        r
    } else {
        ReconcileStatus::default()
    }
}

/// Whether the tool has to be asked about reconcile.
pub fn wants_reconcile(options: &StrMap<String>) -> (r: bool)
    ensures
        r == (find(options_of(options@), "reconcile_enabled"@) == Some("1"@)),
{
    match read_options(options).get("reconcile_enabled") {
        Some(v) => same(v.as_str(), "1"),
        None => false,
    }
}

/// The target of a role, where it is set. A path stands for the block device
/// that it leads to.
pub open spec fn target_of(
    role: Seq<char>,
    options: Seq<(Seq<char>, Seq<char>)>,
    canonical: FilesView,
) -> Option<TargetConfigView> {
    match find(options, role + "_target"@) {
        Some(target) => Some(
            TargetConfigView {
                role,
                target,
                device_name: if has_prefix(target, "/"@) {
                    match find(canonical, target) {
                        Some(path) => base_of(path),
                        None => None,
                    }
                } else {
                    None
                },
            },
        ),
        None => None,
    }
}

pub open spec fn with_target(list: Seq<TargetConfigView>, target: Option<TargetConfigView>) -> Seq<
    TargetConfigView,
> {
    match target {
        Some(t) => list.push(t),
        None => list,
    }
}

pub open spec fn targets_of(options: Seq<(Seq<char>, Seq<char>)>, canonical: FilesView) -> Seq<
    TargetConfigView,
> {
    let metadata = with_target(Seq::empty(), target_of("metadata"@, options, canonical));
    let foreground = with_target(metadata, target_of("foreground"@, options, canonical));
    let background = with_target(foreground, target_of("background"@, options, canonical));
    with_target(background, target_of("promote"@, options, canonical))
}

fn push_target(
    list: &mut Vec<TargetConfig>,
    role: &'static str,
    options: &StrMap<String>,
    canonical: &StrMap<String>,
)
    ensures
        views(final(list)@) == with_target(
            views(old(list)@),
            target_of(role@, options@, canonical@),
        ),
{
    broadcast use lemma_views_push;

    if let Some(target) = options.get(cat2(role, "_target").as_str()) {
        let device_name = if starts_with(target.as_str(), "/") {
            match canonical.get(target.as_str()) {
                Some(path) => base_name(path.as_str()),
                None => None,
            }
        } else {
            None
        };
        list.push(TargetConfig { role, target: copy(target.as_str()), device_name });
    }
}

fn read_targets(options: &StrMap<String>, canonical: &StrMap<String>) -> (r: Vec<TargetConfig>)
    ensures
        views(r@) == targets_of(options@, canonical@),
{
    let mut r: Vec<TargetConfig> = Vec::new();
    assert(views(r@) =~= Seq::<TargetConfigView>::empty());
    push_target(&mut r, "metadata", options, canonical);
    push_target(&mut r, "foreground", options, canonical);
    push_target(&mut r, "background", options, canonical);
    push_target(&mut r, "promote", options, canonical);
    r
}

/// The previous snapshot, where its slow tables still stand.
pub open spec fn kept_of(raw: RawFsView, previous: Option<FsSnapshotView>) -> Option<FsSnapshotView> {
    match previous {
        Some(p) => if reusable(
            p,
            options_of(raw.options),
            devices_of(raw.devices, raw.diskstats, raw.nodes),
            raw.now,
        ) {
            Some(p)
        } else {
            None
        },
        None => None,
    }
}

pub open spec fn recent_us(texts: FilesView, name: Seq<char>) -> Double {
    mean_scan(lines_of(text_in(texts, name)), false)
}

pub open spec fn opt_bytes(text: Option<Seq<char>>) -> Option<u64> {
    match text {
        Some(t) => human_bytes(t),
        None => None,
    }
}

pub open spec fn btree_bytes_of(kept: Option<FsSnapshotView>, usage: RawUsageView) -> Option<u64> {
    match kept {
        Some(p) => p.btree_disk_bytes,
        None => match text_of(usage.alloc_debug) {
            Some(t) => first_btree(lines_of(t)),
            None => None,
        },
    }
}

pub open spec fn usage_space(output: Option<Seq<char>>) -> (u64, u64) {
    match output {
        Some(t) => usage_scan(lines_of(t)),
        None => (0, 0),
    }
}

/// The snapshot of a filesystem from its texts. The slow tables are those of
/// the previous snapshot while they stand.
pub open spec fn snapshot_of(
    raw: RawFsView,
    usage: RawUsageView,
    previous: Option<FsSnapshotView>,
) -> FsSnapshotView {
    let options = options_of(raw.options);
    let devices = devices_of(raw.devices, raw.diskstats, raw.nodes);
    let kept = kept_of(raw, previous);
    let (cpu_iowait, cpu_total) = cpu_scan(lines_of(raw.cpu));
    let (journal, watermark) = journal_scan(lines_of(text_in(raw.internal, "journal_debug"@)));
    let memory = memory_scan(lines_of(raw.meminfo));
    let (space_total, space_used) = space_of(raw.stat, usage_space(raw.usage));
    let copygc = copygc_of(raw.internal);
    let reconcile = reconcile_of(options, raw.reconcile);
    FsSnapshotView {
        counters: counters_of(raw.counters),
        recent_data_read_us: recent_us(raw.time_stats, "data_read"@),
        recent_data_write_us: recent_us(raw.time_stats, "data_write"@),
        recent_btree_read_us: recent_us(raw.time_stats, "btree_node_read"@),
        btree_read_count: count_from(
            json_of(find(raw.time_stats_json, "btree_node_read"@)),
            text_in(raw.time_stats, "btree_node_read"@),
        ),
        blocked_stats: blocked_stats(raw.time_stats),
        all_time_stats: all_stats(raw.time_stats_json, raw.time_stats),
        devices: all_refreshed(devices, kept, usage),
        space_total,
        space_used,
        options,
        background: background_of(raw.option_names, raw.options, raw.internal, reconcile, copygc),
        cpu_iowait,
        cpu_total,
        journal_fill: match journal.entries {
            Some(e) => e,
            None => (0, 0),
        },
        journal_watermark: watermark,
        journal,
        diskstats_sampled_at: Some(raw.sampled_at),
        collection_started_at: Some(raw.started_at),
        memory_total_bytes: memory.0,
        memory_available_bytes: memory.1,
        kernel_reclaimable_bytes: memory.2,
        btree_cache_size_bytes: opt_bytes(file_in(raw.top, "btree_cache_size"@)),
        btree_disk_bytes: btree_bytes_of(kept, usage),
        target_configs: targets_of(options, raw.canonical),
        reconcile,
        copygc,
        allocation_sampled_at: match kept {
            Some(p) => p.allocation_sampled_at,
            None => Some(raw.now),
        },
    }
}

fn read_members(raw: &RawFs) -> (r: Vec<DeviceInfo>)
    ensures
        views(r@) == devices_of(raw@.devices, raw@.diskstats, raw@.nodes),
{
    read_devices(&raw.devices, raw.diskstats.as_str(), &raw.nodes)
}

/// Whether the slow tables have to be read for the next snapshot.
pub fn wants_usage(raw: &RawFs, previous: Option<&FsSnapshot>) -> (r: bool)
    ensures
        r == (kept_of(raw@, opt_ref(previous)) is None),
{
    match previous {
        Some(p) => !can_reuse(p, &read_options(&raw.options), &read_members(raw), raw.now),
        None => true,
    }
}

fn read_recent(texts: &StrMap<String>, name: &str) -> (r: Double)
    ensures
        r == recent_us(texts@, name@),
{
    parse_recent_mean_us(get_text(texts, name).as_str())
}

fn read_opt_bytes(text: &Option<String>) -> (r: Option<u64>)
    ensures
        r == opt_bytes(opt(*text)),
{
    match text {
        Some(t) => parse_human_bytes(t.as_str()),
        None => None,
    }
}

fn read_btree_bytes(kept: Option<&FsSnapshot>, usage: &RawUsage) -> (r: Option<u64>)
    ensures
        r == btree_bytes_of(opt_ref(kept), usage@),
{
    match kept {
        Some(p) => p.btree_disk_bytes,
        None => {
            let text = match &usage.alloc_debug {
                Some(t) => file_text(Some(t)),
                None => None,
            };
            match text {
                Some(t) => parse_btree_disk_bytes(t.as_str()),
                None => None,
            }
        },
    }
}

fn read_space(stat: Option<StatFs>, output: &Option<String>) -> (r: (u64, u64))
    ensures
        r == space_of(stat, usage_space(opt(*output))),
{
    let usage = match output {
        Some(t) => parse_fs_usage(t.as_str()),
        None => (0, 0),
    };
    fs_space(stat, usage)
}

/// The snapshot of a filesystem.
pub fn snapshot(raw: &RawFs, usage: &RawUsage) -> (r: FsSnapshot)
    ensures
        r@ == snapshot_of(raw@, usage@, None),
{
    snapshot_after(raw, usage, None)
}

/// The snapshot of a filesystem that follows another.
pub fn snapshot_after(raw: &RawFs, usage: &RawUsage, previous: Option<&FsSnapshot>) -> (r:
    FsSnapshot)
    ensures
        r@ == snapshot_of(raw@, usage@, opt_ref(previous)),
{
    let options = read_options(&raw.options);
    let members = read_members(raw);
    let kept: Option<&FsSnapshot> = match previous {
        Some(p) => if can_reuse(p, &options, &members, raw.now) {
            Some(p)
        } else {
            None
        },
        None => None,
    };
    assert(opt_ref(kept) == kept_of(raw@, opt_ref(previous)));
    let devices = refresh_all(members, kept, usage);
    let (cpu_iowait, cpu_total) = parse_cpu_iowait(raw.cpu.as_str());
    let (journal, watermark) = parse_journal_state(get_text(&raw.internal, "journal_debug").as_str());
    let memory = parse_memory_info(raw.meminfo.as_str());
    let space = read_space(raw.stat, &raw.usage);
    let copygc = read_copygc(&raw.internal);
    let reconcile = read_reconcile(&options, &raw.reconcile);
    let background = read_background(
        &raw.option_names,
        &raw.options,
        &raw.internal,
        &reconcile,
        &copygc,
    );
    FsSnapshot {
        counters: read_counters(&raw.counters),
        recent_data_read_us: read_recent(&raw.time_stats, "data_read"),
        recent_data_write_us: read_recent(&raw.time_stats, "data_write"),
        recent_btree_read_us: read_recent(&raw.time_stats, "btree_node_read"),
        btree_read_count: time_stat_count(
            &get_raw(&raw.time_stats_json, "btree_node_read"),
            get_text(&raw.time_stats, "btree_node_read").as_str(),
        ),
        blocked_stats: read_blocked_stats(&raw.time_stats),
        all_time_stats: read_all_time_stats(&raw.time_stats_json, &raw.time_stats),
        devices,
        space_total: space.0,
        space_used: space.1,
        background,
        cpu_iowait,
        cpu_total,
        journal_fill: match journal.entries {
            Some(e) => e,
            None => (0, 0),
        },
        journal_watermark: watermark,
        journal,
        diskstats_sampled_at: Some(raw.sampled_at),
        collection_started_at: Some(raw.started_at),
        memory_total_bytes: memory.0,
        memory_available_bytes: memory.1,
        kernel_reclaimable_bytes: memory.2,
        btree_cache_size_bytes: read_opt_bytes(&get_file(&raw.top, "btree_cache_size")),
        btree_disk_bytes: read_btree_bytes(kept, usage),
        target_configs: read_targets(&options, &raw.canonical),
        options,
        reconcile,
        copygc,
        allocation_sampled_at: match kept {
            Some(p) => p.allocation_sampled_at,
            None => Some(raw.now),
        },
    }
}

// ------------------------------------------------------------------------ laws

/// Slow tables older than ten seconds are never used again.
pub proof fn law_stale_tables_are_not_kept(raw: RawFsView, previous: FsSnapshotView)
    requires
        previous.allocation_sampled_at is Some ==> since(
            raw.now,
            previous.allocation_sampled_at->0,
        ) >= 10_000_000_000,
    ensures
        kept_of(raw, Some(previous)) is None,
{
}

/// A member whose state, place or rights changed makes the tables be read anew.
pub proof fn law_changed_members_are_read_anew(
    raw: RawFsView,
    previous: FsSnapshotView,
    i: int,
)
    requires
        0 <= i < devices_of(raw.devices, raw.diskstats, raw.nodes).len(),
        !known_before(previous.devices, devices_of(raw.devices, raw.diskstats, raw.nodes)[i]),
    ensures
        kept_of(raw, Some(previous)) is None,
{
}

/// While the tables are kept, every member has the allocation that a member
/// with its index had before, and the time of the tables does not move.
pub proof fn law_kept_tables_do_not_age_anew(
    raw: RawFsView,
    usage: RawUsageView,
    previous: FsSnapshotView,
    i: int,
)
    requires
        kept_of(raw, Some(previous)) is Some,
        0 <= i < snapshot_of(raw, usage, Some(previous)).devices.len(),
    ensures
        ({
            let next = snapshot_of(raw, usage, Some(previous));
            &&& next.allocation_sampled_at == previous.allocation_sampled_at
            &&& next.btree_disk_bytes == previous.btree_disk_bytes
            &&& allocation_at(previous.devices, next.devices[i].index) == Some(
                next.devices[i].allocation,
            )
        }),
{
    let devices = devices_of(raw.devices, raw.diskstats, raw.nodes);
    let d = devices[i];
    assert(known_before(previous.devices, d));
    let k = choose|k: int| 0 <= k < previous.devices.len() && same_member(
        #[trigger] previous.devices[k],
        d,
    );
    lemma_allocation_found(previous.devices, d.index, k);
}

proof fn lemma_allocation_found(devices: Seq<DeviceInfoView>, index: u32, k: int)
    requires
        0 <= k < devices.len(),
        devices[k].index == index,
    ensures
        allocation_at(devices, index) is Some,
    decreases devices.len(),
{
    if devices[0].index != index {
        assert(devices.skip(1)[k - 1] == devices[k]);
        lemma_allocation_found(devices.skip(1), index, k - 1);
    }
}

} // verus!
