//! A filesystem as its sysfs directory shows it.

use crate::double::{zero, Double};
use crate::strmap::StrMap;
use crate::targets::{
    CopyGcStatus, CopyGcStatusView, MemberAllocation, MemberAllocationView, ReconcileStatus,
    ReconcileStatusView, TargetConfig, TargetConfigView,
};
use crate::text::{cat3, copy, decimal, dup_opt, dup_vec, opt, opt_copy, u64_text, views, Duplicate};
use crate::topology::{BlockTopology, BlockTopologyView};
use vstd::prelude::*;

verus! {

/// A moment, in nanoseconds on a clock that never goes back.
pub type Instant = u64;

/// A span of time in nanoseconds.
pub type Duration = u64;

pub const SECOND: u64 = 1_000_000_000;

/// A discovered filesystem.
#[derive(Debug)]
pub struct BcachefsFs {
    pub uuid: String,
    pub mount_point: String,
    pub fs_name: String,
    pub sysfs: String,
}

#[verifier::ext_equal]
pub struct BcachefsFsView {
    pub uuid: Seq<char>,
    pub mount_point: Seq<char>,
    pub fs_name: Seq<char>,
    pub sysfs: Seq<char>,
}

impl View for BcachefsFs {
    type V = BcachefsFsView;

    open spec fn view(&self) -> BcachefsFsView {
        BcachefsFsView {
            uuid: self.uuid@,
            mount_point: self.mount_point@,
            fs_name: self.fs_name@,
            sysfs: self.sysfs@,
        }
    }
}

impl Duplicate for BcachefsFs {
    fn duplicate(&self) -> (r: BcachefsFs) {
        BcachefsFs {
            uuid: copy(self.uuid.as_str()),
            mount_point: copy(self.mount_point.as_str()),
            fs_name: copy(self.fs_name.as_str()),
            sysfs: copy(self.sysfs.as_str()),
        }
    }
}

impl Clone for BcachefsFs {
    fn clone(&self) -> (r: BcachefsFs)
        ensures
            r@ == self@,
    {
        self.duplicate()
    }
}

/// One member device.
#[derive(Debug)]
pub struct DeviceInfo {
    pub index: u32,
    pub name: String,
    pub member_uuid: Option<String>,
    pub label: Option<String>,
    pub topology: BlockTopology,
    pub allocation: MemberAllocation,
    pub io_latency_read_ns: u64,
    pub io_latency_write_ns: u64,
    pub io_done_read: u64,
    pub io_done_write: u64,
    /// Bytes by category: sb, journal, btree, user, ...
    pub io_read_by_type: StrMap<u64>,
    pub io_write_by_type: StrMap<u64>,
    pub io_errors: u64,
    /// Missing or malformed counters are not zero; each named counter is optional.
    pub error_counts: Option<StrMap<u64>>,
    /// Milliseconds spent doing I/O.
    pub diskstats_io_ms: u64,
    /// Completed reads.
    pub diskstats_reads: u64,
    /// Completed writes.
    pub diskstats_writes: u64,
    /// Milliseconds spent servicing reads and writes.
    pub diskstats_read_ms: u64,
    pub diskstats_write_ms: u64,
    /// Requests currently in the block layer.
    pub diskstats_in_flight: u64,
    /// Weighted milliseconds doing I/O, from which the average queue depth derives.
    pub diskstats_weighted_io_ms: u64,
    /// Whether the snapshot held a complete row that parses.
    pub diskstats_valid: bool,
    pub diskstats_discards: Option<u64>,
    /// Not tracked for partitions, even where the row has a zero column.
    pub diskstats_flushes: Option<u64>,
}

#[verifier::ext_equal]
pub struct DeviceInfoView {
    pub index: u32,
    pub name: Seq<char>,
    pub member_uuid: Option<Seq<char>>,
    pub label: Option<Seq<char>>,
    pub topology: BlockTopologyView,
    pub allocation: MemberAllocationView,
    pub io_latency_read_ns: u64,
    pub io_latency_write_ns: u64,
    pub io_done_read: u64,
    pub io_done_write: u64,
    pub io_read_by_type: Seq<(Seq<char>, u64)>,
    pub io_write_by_type: Seq<(Seq<char>, u64)>,
    pub io_errors: u64,
    pub error_counts: Option<Seq<(Seq<char>, u64)>>,
    pub diskstats_io_ms: u64,
    pub diskstats_reads: u64,
    pub diskstats_writes: u64,
    pub diskstats_read_ms: u64,
    pub diskstats_write_ms: u64,
    pub diskstats_in_flight: u64,
    pub diskstats_weighted_io_ms: u64,
    pub diskstats_valid: bool,
    pub diskstats_discards: Option<u64>,
    pub diskstats_flushes: Option<u64>,
}

impl View for DeviceInfo {
    type V = DeviceInfoView;

    open spec fn view(&self) -> DeviceInfoView {
        DeviceInfoView {
            index: self.index,
            name: self.name@,
            member_uuid: opt(self.member_uuid),
            label: opt(self.label),
            topology: self.topology@,
            allocation: self.allocation@,
            io_latency_read_ns: self.io_latency_read_ns,
            io_latency_write_ns: self.io_latency_write_ns,
            io_done_read: self.io_done_read,
            io_done_write: self.io_done_write,
            io_read_by_type: self.io_read_by_type@,
            io_write_by_type: self.io_write_by_type@,
            io_errors: self.io_errors,
            error_counts: opt(self.error_counts),
            diskstats_io_ms: self.diskstats_io_ms,
            diskstats_reads: self.diskstats_reads,
            diskstats_writes: self.diskstats_writes,
            diskstats_read_ms: self.diskstats_read_ms,
            diskstats_write_ms: self.diskstats_write_ms,
            diskstats_in_flight: self.diskstats_in_flight,
            diskstats_weighted_io_ms: self.diskstats_weighted_io_ms,
            diskstats_valid: self.diskstats_valid,
            diskstats_discards: self.diskstats_discards,
            diskstats_flushes: self.diskstats_flushes,
        }
    }
}

impl DeviceInfoView {
    pub open spec fn blank() -> DeviceInfoView {
        DeviceInfoView {
            index: 0,
            name: Seq::empty(),
            member_uuid: None,
            label: None,
            topology: BlockTopologyView::blank(),
            allocation: MemberAllocationView::blank(),
            io_latency_read_ns: 0,
            io_latency_write_ns: 0,
            io_done_read: 0,
            io_done_write: 0,
            io_read_by_type: Seq::empty(),
            io_write_by_type: Seq::empty(),
            io_errors: 0,
            error_counts: None,
            diskstats_io_ms: 0,
            diskstats_reads: 0,
            diskstats_writes: 0,
            diskstats_read_ms: 0,
            diskstats_write_ms: 0,
            diskstats_in_flight: 0,
            diskstats_weighted_io_ms: 0,
            diskstats_valid: false,
            diskstats_discards: None,
            diskstats_flushes: None,
        }
    }
}

impl Default for DeviceInfo {
    fn default() -> (r: DeviceInfo)
        ensures
            r@ == DeviceInfoView::blank(),
    {
        let r = DeviceInfo {
            index: 0,
            name: String::new(),
            member_uuid: None,
            label: None,
            topology: BlockTopology::default(),
            allocation: MemberAllocation::default(),
            io_latency_read_ns: 0,
            io_latency_write_ns: 0,
            io_done_read: 0,
            io_done_write: 0,
            io_read_by_type: StrMap::new(),
            io_write_by_type: StrMap::new(),
            io_errors: 0,
            error_counts: None,
            diskstats_io_ms: 0,
            diskstats_reads: 0,
            diskstats_writes: 0,
            diskstats_read_ms: 0,
            diskstats_write_ms: 0,
            diskstats_in_flight: 0,
            diskstats_weighted_io_ms: 0,
            diskstats_valid: false,
            diskstats_discards: None,
            diskstats_flushes: None,
        };
        assert(r@ =~= DeviceInfoView::blank());
        r
    }
}

impl Duplicate for DeviceInfo {
    fn duplicate(&self) -> (r: DeviceInfo) {
        DeviceInfo {
            index: self.index,
            name: copy(self.name.as_str()),
            member_uuid: opt_copy(&self.member_uuid),
            label: opt_copy(&self.label),
            topology: self.topology.duplicate(),
            allocation: self.allocation.duplicate(),
            io_latency_read_ns: self.io_latency_read_ns,
            io_latency_write_ns: self.io_latency_write_ns,
            io_done_read: self.io_done_read,
            io_done_write: self.io_done_write,
            io_read_by_type: self.io_read_by_type.duplicate(),
            io_write_by_type: self.io_write_by_type.duplicate(),
            io_errors: self.io_errors,
            error_counts: dup_opt(&self.error_counts),
            diskstats_io_ms: self.diskstats_io_ms,
            diskstats_reads: self.diskstats_reads,
            diskstats_writes: self.diskstats_writes,
            diskstats_read_ms: self.diskstats_read_ms,
            diskstats_write_ms: self.diskstats_write_ms,
            diskstats_in_flight: self.diskstats_in_flight,
            diskstats_weighted_io_ms: self.diskstats_weighted_io_ms,
            diskstats_valid: self.diskstats_valid,
            diskstats_discards: self.diskstats_discards,
            diskstats_flushes: self.diskstats_flushes,
        }
    }
}

impl Clone for DeviceInfo {
    fn clone(&self) -> (r: DeviceInfo)
        ensures
            r@ == self@,
    {
        self.duplicate()
    }
}

/// One operation of the time statistics.
#[derive(Debug)]
pub struct TimeStatFull {
    pub name: String,
    pub count: u64,
    pub dur_max_ns: u64,
    pub dur_mean_ns: u64,
    pub dur_recent_ns: u64,
    pub recent_valid: bool,
}

#[verifier::ext_equal]
pub struct TimeStatFullView {
    pub name: Seq<char>,
    pub count: u64,
    pub dur_max_ns: u64,
    pub dur_mean_ns: u64,
    pub dur_recent_ns: u64,
    pub recent_valid: bool,
}

impl View for TimeStatFull {
    type V = TimeStatFullView;

    open spec fn view(&self) -> TimeStatFullView {
        TimeStatFullView {
            name: self.name@,
            count: self.count,
            dur_max_ns: self.dur_max_ns,
            dur_mean_ns: self.dur_mean_ns,
            dur_recent_ns: self.dur_recent_ns,
            recent_valid: self.recent_valid,
        }
    }
}

impl TimeStatFullView {
    pub open spec fn blank() -> TimeStatFullView {
        TimeStatFullView {
            name: Seq::empty(),
            count: 0,
            dur_max_ns: 0,
            dur_mean_ns: 0,
            dur_recent_ns: 0,
            recent_valid: false,
        }
    }
}

impl Default for TimeStatFull {
    fn default() -> (r: TimeStatFull)
        ensures
            r@ == TimeStatFullView::blank(),
    {
        let r = TimeStatFull {
            name: String::new(),
            count: 0,
            dur_max_ns: 0,
            dur_mean_ns: 0,
            dur_recent_ns: 0,
            recent_valid: false,
        };
        assert(r@ =~= TimeStatFullView::blank());
        r
    }
}

impl Duplicate for TimeStatFull {
    fn duplicate(&self) -> (r: TimeStatFull) {
        TimeStatFull {
            name: copy(self.name.as_str()),
            count: self.count,
            dur_max_ns: self.dur_max_ns,
            dur_mean_ns: self.dur_mean_ns,
            dur_recent_ns: self.dur_recent_ns,
            recent_valid: self.recent_valid,
        }
    }
}

impl Clone for TimeStatFull {
    fn clone(&self) -> (r: TimeStatFull)
        ensures
            r@ == self@,
    {
        self.duplicate()
    }
}

#[derive(Debug)]
pub struct JournalState {
    /// Dirty entries and all entries.
    pub entries: Option<(u64, u64)>,
    pub seq: Option<u64>,
    pub seq_ondisk: Option<u64>,
}

#[verifier::ext_equal]
pub struct JournalStateView {
    pub entries: Option<(u64, u64)>,
    pub seq: Option<u64>,
    pub seq_ondisk: Option<u64>,
}

impl View for JournalState {
    type V = JournalStateView;

    open spec fn view(&self) -> JournalStateView {
        JournalStateView {
            entries: self.entries,
            seq: self.seq,
            seq_ondisk: self.seq_ondisk,
        }
    }
}

impl JournalStateView {
    pub open spec fn blank() -> JournalStateView {
        JournalStateView {
            entries: None,
            seq: None,
            seq_ondisk: None,
        }
    }
}

impl Default for JournalState {
    fn default() -> (r: JournalState)
        ensures
            r@ == JournalStateView::blank(),
    {
        let r = JournalState {
            entries: None,
            seq: None,
            seq_ondisk: None,
        };
        assert(r@ =~= JournalStateView::blank());
        r
    }
}

impl Duplicate for JournalState {
    fn duplicate(&self) -> (r: JournalState) {
        JournalState {
            entries: self.entries,
            seq: self.seq,
            seq_ondisk: self.seq_ondisk,
        }
    }
}

impl Clone for JournalState {
    fn clone(&self) -> (r: JournalState)
        ensures
            r@ == self@,
    {
        self.duplicate()
    }
}

/// All metrics of one filesystem at one moment.
#[derive(Debug)]
pub struct FsSnapshot {
    pub counters: StrMap<u64>,
    /// Recent means of the time statistics.
    pub recent_data_read_us: Double,
    pub recent_data_write_us: Double,
    pub recent_btree_read_us: Double,
    pub btree_read_count: u64,
    /// Name, cumulative count and recent mean in microseconds.
    pub blocked_stats: Vec<(String, u64, Double)>,
    pub all_time_stats: Vec<TimeStatFull>,
    pub devices: Vec<DeviceInfo>,
    pub space_total: u64,
    pub space_used: u64,
    pub options: StrMap<String>,
    pub background: Vec<(String, String)>,
    pub cpu_iowait: u64,
    pub cpu_total: u64,
    /// Dirty entries and all entries.
    pub journal_fill: (u64, u64),
    pub journal_watermark: String,
    pub journal: JournalState,
    pub diskstats_sampled_at: Option<Instant>,
    pub collection_started_at: Option<Instant>,
    pub memory_total_bytes: u64,
    pub memory_available_bytes: u64,
    pub kernel_reclaimable_bytes: u64,
    /// Main buffers of btree nodes; not all memory of the filesystem.
    pub btree_cache_size_bytes: Option<u64>,
    /// Btree sectors on disk in bytes, all replicas counted.
    pub btree_disk_bytes: Option<u64>,
    pub target_configs: Vec<TargetConfig>,
    pub reconcile: ReconcileStatus,
    pub copygc: CopyGcStatus,
    /// Slow allocator tables are refreshed at most every ten seconds unless
    /// membership or options change.
    pub allocation_sampled_at: Option<Instant>,
}

#[verifier::ext_equal]
pub struct FsSnapshotView {
    pub counters: Seq<(Seq<char>, u64)>,
    pub recent_data_read_us: Double,
    pub recent_data_write_us: Double,
    pub recent_btree_read_us: Double,
    pub btree_read_count: u64,
    pub blocked_stats: Seq<(Seq<char>, u64, Double)>,
    pub all_time_stats: Seq<TimeStatFullView>,
    pub devices: Seq<DeviceInfoView>,
    pub space_total: u64,
    pub space_used: u64,
    pub options: Seq<(Seq<char>, Seq<char>)>,
    pub background: Seq<(Seq<char>, Seq<char>)>,
    pub cpu_iowait: u64,
    pub cpu_total: u64,
    pub journal_fill: (u64, u64),
    pub journal_watermark: Seq<char>,
    pub journal: JournalStateView,
    pub diskstats_sampled_at: Option<Instant>,
    pub collection_started_at: Option<Instant>,
    pub memory_total_bytes: u64,
    pub memory_available_bytes: u64,
    pub kernel_reclaimable_bytes: u64,
    pub btree_cache_size_bytes: Option<u64>,
    pub btree_disk_bytes: Option<u64>,
    pub target_configs: Seq<TargetConfigView>,
    pub reconcile: ReconcileStatusView,
    pub copygc: CopyGcStatusView,
    pub allocation_sampled_at: Option<Instant>,
}

impl View for FsSnapshot {
    type V = FsSnapshotView;

    open spec fn view(&self) -> FsSnapshotView {
        FsSnapshotView {
            counters: self.counters@,
            recent_data_read_us: self.recent_data_read_us,
            recent_data_write_us: self.recent_data_write_us,
            recent_btree_read_us: self.recent_btree_read_us,
            btree_read_count: self.btree_read_count,
            blocked_stats: views(self.blocked_stats@),
            all_time_stats: views(self.all_time_stats@),
            devices: views(self.devices@),
            space_total: self.space_total,
            space_used: self.space_used,
            options: self.options@,
            background: views(self.background@),
            cpu_iowait: self.cpu_iowait,
            cpu_total: self.cpu_total,
            journal_fill: self.journal_fill,
            journal_watermark: self.journal_watermark@,
            journal: self.journal@,
            diskstats_sampled_at: self.diskstats_sampled_at,
            collection_started_at: self.collection_started_at,
            memory_total_bytes: self.memory_total_bytes,
            memory_available_bytes: self.memory_available_bytes,
            kernel_reclaimable_bytes: self.kernel_reclaimable_bytes,
            btree_cache_size_bytes: self.btree_cache_size_bytes,
            btree_disk_bytes: self.btree_disk_bytes,
            target_configs: views(self.target_configs@),
            reconcile: self.reconcile@,
            copygc: self.copygc@,
            allocation_sampled_at: self.allocation_sampled_at,
        }
    }
}

impl FsSnapshotView {
    pub open spec fn blank() -> FsSnapshotView {
        FsSnapshotView {
            counters: Seq::empty(),
            recent_data_read_us: zero(),
            recent_data_write_us: zero(),
            recent_btree_read_us: zero(),
            btree_read_count: 0,
            blocked_stats: Seq::empty(),
            all_time_stats: Seq::empty(),
            devices: Seq::empty(),
            space_total: 0,
            space_used: 0,
            options: Seq::empty(),
            background: Seq::empty(),
            cpu_iowait: 0,
            cpu_total: 0,
            journal_fill: (0, 0),
            journal_watermark: Seq::empty(),
            journal: JournalStateView::blank(),
            diskstats_sampled_at: None,
            collection_started_at: None,
            memory_total_bytes: 0,
            memory_available_bytes: 0,
            kernel_reclaimable_bytes: 0,
            btree_cache_size_bytes: None,
            btree_disk_bytes: None,
            target_configs: Seq::empty(),
            reconcile: ReconcileStatusView::blank(),
            copygc: CopyGcStatusView::blank(),
            allocation_sampled_at: None,
        }
    }
}

impl Default for FsSnapshot {
    fn default() -> (r: FsSnapshot)
        ensures
            r@ == FsSnapshotView::blank(),
    {
        let r = FsSnapshot {
            counters: StrMap::new(),
            recent_data_read_us: Double::zero(),
            recent_data_write_us: Double::zero(),
            recent_btree_read_us: Double::zero(),
            btree_read_count: 0,
            blocked_stats: Vec::new(),
            all_time_stats: Vec::new(),
            devices: Vec::new(),
            space_total: 0,
            space_used: 0,
            options: StrMap::new(),
            background: Vec::new(),
            cpu_iowait: 0,
            cpu_total: 0,
            journal_fill: (0, 0),
            journal_watermark: String::new(),
            journal: JournalState::default(),
            diskstats_sampled_at: None,
            collection_started_at: None,
            memory_total_bytes: 0,
            memory_available_bytes: 0,
            kernel_reclaimable_bytes: 0,
            btree_cache_size_bytes: None,
            btree_disk_bytes: None,
            target_configs: Vec::new(),
            reconcile: ReconcileStatus::default(),
            copygc: CopyGcStatus::default(),
            allocation_sampled_at: None,
        };
        assert(r@ =~= FsSnapshotView::blank());
        r
    }
}

impl Duplicate for FsSnapshot {
    fn duplicate(&self) -> (r: FsSnapshot) {
        FsSnapshot {
            counters: self.counters.duplicate(),
            recent_data_read_us: self.recent_data_read_us,
            recent_data_write_us: self.recent_data_write_us,
            recent_btree_read_us: self.recent_btree_read_us,
            btree_read_count: self.btree_read_count,
            blocked_stats: dup_vec(&self.blocked_stats),
            all_time_stats: dup_vec(&self.all_time_stats),
            devices: dup_vec(&self.devices),
            space_total: self.space_total,
            space_used: self.space_used,
            options: self.options.duplicate(),
            background: dup_vec(&self.background),
            cpu_iowait: self.cpu_iowait,
            cpu_total: self.cpu_total,
            journal_fill: self.journal_fill,
            journal_watermark: copy(self.journal_watermark.as_str()),
            journal: self.journal.duplicate(),
            diskstats_sampled_at: self.diskstats_sampled_at,
            collection_started_at: self.collection_started_at,
            memory_total_bytes: self.memory_total_bytes,
            memory_available_bytes: self.memory_available_bytes,
            kernel_reclaimable_bytes: self.kernel_reclaimable_bytes,
            btree_cache_size_bytes: self.btree_cache_size_bytes,
            btree_disk_bytes: self.btree_disk_bytes,
            target_configs: dup_vec(&self.target_configs),
            reconcile: self.reconcile.duplicate(),
            copygc: self.copygc.duplicate(),
            allocation_sampled_at: self.allocation_sampled_at,
        }
    }
}

impl Clone for FsSnapshot {
    fn clone(&self) -> (r: FsSnapshot)
        ensures
            r@ == self@,
    {
        self.duplicate()
    }
}

/// I/O totals of one process.
#[derive(Debug)]
pub struct ProcessIo {
    pub pid: u32,
    pub name: String,
    pub read_bytes: u64,
    pub write_bytes: u64,
}

#[verifier::ext_equal]
pub struct ProcessIoView {
    pub pid: u32,
    pub name: Seq<char>,
    pub read_bytes: u64,
    pub write_bytes: u64,
}

impl View for ProcessIo {
    type V = ProcessIoView;

    open spec fn view(&self) -> ProcessIoView {
        ProcessIoView {
            pid: self.pid,
            name: self.name@,
            read_bytes: self.read_bytes,
            write_bytes: self.write_bytes,
        }
    }
}

impl ProcessIoView {
    pub open spec fn blank() -> ProcessIoView {
        ProcessIoView {
            pid: 0,
            name: Seq::empty(),
            read_bytes: 0,
            write_bytes: 0,
        }
    }
}

impl Default for ProcessIo {
    fn default() -> (r: ProcessIo)
        ensures
            r@ == ProcessIoView::blank(),
    {
        let r = ProcessIo {
            pid: 0,
            name: String::new(),
            read_bytes: 0,
            write_bytes: 0,
        };
        assert(r@ =~= ProcessIoView::blank());
        r
    }
}

impl Duplicate for ProcessIo {
    fn duplicate(&self) -> (r: ProcessIo) {
        ProcessIo {
            pid: self.pid,
            name: copy(self.name.as_str()),
            read_bytes: self.read_bytes,
            write_bytes: self.write_bytes,
        }
    }
}

impl Clone for ProcessIo {
    fn clone(&self) -> (r: ProcessIo)
        ensures
            r@ == self@,
    {
        self.duplicate()
    }
}

impl DeviceInfoView {
    /// The name under which a member is known from sample to sample.
    pub open spec fn key(self) -> Seq<char> {
        match self.member_uuid {
            Some(uuid) => uuid,
            None => decimal(self.index as nat) + ":"@ + self.name,
        }
    }
}

impl DeviceInfo {
    pub fn identity(&self) -> (r: String)
        ensures
            r@ == self@.key(),
    {
        match &self.member_uuid {
            Some(uuid) => copy(uuid.as_str()),
            None => cat3(u64_text(self.index as u64).as_str(), ":", self.name.as_str()),
        }
    }
}

} // verus!
