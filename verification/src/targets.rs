//! Target capacity and allocator pressure. Findings describe observed
//! constraints, not the decisions of a best-effort allocator.

use crate::double::{quotient, whole, Double};
use crate::numeral::{fixed, fixed_text};
use crate::strmap::StrMap;
use crate::text::{
    cat2, cat3, cat5, copy, copy_all, decimal, dup_vec, join, joined, lemma_views_push, opt,
    opt_copy, opt_copy_all, opt_views, same, u64_text, views, Duplicate,
};
use vstd::prelude::*;

verus! {

/// What is known of the space on one member.
#[derive(Debug)]
pub struct MemberAllocation {
    pub capacity_bytes: Option<u64>,
    pub free_bytes: Option<u64>,
    pub btree_bytes: Option<u64>,
    pub fragmented_bytes: Option<u64>,
    pub state: Option<String>,
    pub durability: Option<u64>,
    pub data_allowed: Option<Vec<String>>,
    pub online: Option<bool>,
}

#[verifier::ext_equal]
pub struct MemberAllocationView {
    pub capacity_bytes: Option<u64>,
    pub free_bytes: Option<u64>,
    pub btree_bytes: Option<u64>,
    pub fragmented_bytes: Option<u64>,
    pub state: Option<Seq<char>>,
    pub durability: Option<u64>,
    pub data_allowed: Option<Seq<Seq<char>>>,
    pub online: Option<bool>,
}

impl View for MemberAllocation {
    type V = MemberAllocationView;

    open spec fn view(&self) -> MemberAllocationView {
        MemberAllocationView {
            capacity_bytes: self.capacity_bytes,
            free_bytes: self.free_bytes,
            btree_bytes: self.btree_bytes,
            fragmented_bytes: self.fragmented_bytes,
            state: opt(self.state),
            durability: self.durability,
            data_allowed: opt_views(self.data_allowed),
            online: self.online,
        }
    }
}

impl MemberAllocationView {
    pub open spec fn blank() -> MemberAllocationView {
        MemberAllocationView {
            capacity_bytes: None,
            free_bytes: None,
            btree_bytes: None,
            fragmented_bytes: None,
            state: None,
            durability: None,
            data_allowed: None,
            online: None,
        }
    }
}

impl Default for MemberAllocation {
    fn default() -> (r: MemberAllocation)
        ensures
            r@ == MemberAllocationView::blank(),
    {
        let r = MemberAllocation {
            capacity_bytes: None,
            free_bytes: None,
            btree_bytes: None,
            fragmented_bytes: None,
            state: None,
            durability: None,
            data_allowed: None,
            online: None,
        };
        assert(r@ =~= MemberAllocationView::blank());
        r
    }
}

impl Duplicate for MemberAllocation {
    fn duplicate(&self) -> (r: MemberAllocation) {
        MemberAllocation {
            capacity_bytes: self.capacity_bytes,
            free_bytes: self.free_bytes,
            btree_bytes: self.btree_bytes,
            fragmented_bytes: self.fragmented_bytes,
            state: opt_copy(&self.state),
            durability: self.durability,
            data_allowed: opt_copy_all(&self.data_allowed),
            online: self.online,
        }
    }
}

impl Clone for MemberAllocation {
    fn clone(&self) -> (r: MemberAllocation)
        ensures
            r@ == self@,
    {
        self.duplicate()
    }
}

#[derive(Debug)]
pub struct TargetConfig {
    pub role: &'static str,
    pub target: String,
    /// The block name that a device path, or an alias of one, stands for.
    pub device_name: Option<String>,
}

#[verifier::ext_equal]
pub struct TargetConfigView {
    pub role: Seq<char>,
    pub target: Seq<char>,
    pub device_name: Option<Seq<char>>,
}

impl View for TargetConfig {
    type V = TargetConfigView;

    open spec fn view(&self) -> TargetConfigView {
        TargetConfigView {
            role: self.role@,
            target: self.target@,
            device_name: opt(self.device_name),
        }
    }
}

impl Duplicate for TargetConfig {
    fn duplicate(&self) -> (r: TargetConfig) {
        TargetConfig {
            role: self.role,
            target: copy(self.target.as_str()),
            device_name: opt_copy(&self.device_name),
        }
    }
}

impl Clone for TargetConfig {
    fn clone(&self) -> (r: TargetConfig)
        ensures
            r@ == self@,
    {
        self.duplicate()
    }
}

#[derive(Debug)]
pub struct CopyGcStatus {
    pub running: Option<bool>,
    /// The sign of the kernel's calculated wait, not a quantity of free space.
    /// A device that was not reported stays unknown.
    pub needs_gc: StrMap<bool>,
}

#[verifier::ext_equal]
pub struct CopyGcStatusView {
    pub running: Option<bool>,
    pub needs_gc: Seq<(Seq<char>, bool)>,
}

impl View for CopyGcStatus {
    type V = CopyGcStatusView;

    open spec fn view(&self) -> CopyGcStatusView {
        CopyGcStatusView {
            running: self.running,
            needs_gc: self.needs_gc@,
        }
    }
}

impl CopyGcStatusView {
    pub open spec fn blank() -> CopyGcStatusView {
        CopyGcStatusView {
            running: None,
            needs_gc: Seq::empty(),
        }
    }
}

impl Default for CopyGcStatus {
    fn default() -> (r: CopyGcStatus)
        ensures
            r@ == CopyGcStatusView::blank(),
    {
        let r = CopyGcStatus {
            running: None,
            needs_gc: StrMap::new(),
        };
        assert(r@ =~= CopyGcStatusView::blank());
        r
    }
}

impl Duplicate for CopyGcStatus {
    fn duplicate(&self) -> (r: CopyGcStatus) {
        CopyGcStatus {
            running: self.running,
            needs_gc: self.needs_gc.duplicate(),
        }
    }
}

impl Clone for CopyGcStatus {
    fn clone(&self) -> (r: CopyGcStatus)
        ensures
            r@ == self@,
    {
        self.duplicate()
    }
}

#[derive(Debug)]
pub struct ReconcileWork {
    pub category: String,
    pub data_bytes: Option<u64>,
    pub metadata_bytes: Option<u64>,
}

#[verifier::ext_equal]
pub struct ReconcileWorkView {
    pub category: Seq<char>,
    pub data_bytes: Option<u64>,
    pub metadata_bytes: Option<u64>,
}

impl View for ReconcileWork {
    type V = ReconcileWorkView;

    open spec fn view(&self) -> ReconcileWorkView {
        ReconcileWorkView {
            category: self.category@,
            data_bytes: self.data_bytes,
            metadata_bytes: self.metadata_bytes,
        }
    }
}

impl ReconcileWorkView {
    pub open spec fn blank() -> ReconcileWorkView {
        ReconcileWorkView {
            category: Seq::empty(),
            data_bytes: None,
            metadata_bytes: None,
        }
    }
}

impl Default for ReconcileWork {
    fn default() -> (r: ReconcileWork)
        ensures
            r@ == ReconcileWorkView::blank(),
    {
        let r = ReconcileWork {
            category: String::new(),
            data_bytes: None,
            metadata_bytes: None,
        };
        assert(r@ =~= ReconcileWorkView::blank());
        r
    }
}

impl Duplicate for ReconcileWork {
    fn duplicate(&self) -> (r: ReconcileWork) {
        ReconcileWork {
            category: copy(self.category.as_str()),
            data_bytes: self.data_bytes,
            metadata_bytes: self.metadata_bytes,
        }
    }
}

impl Clone for ReconcileWork {
    fn clone(&self) -> (r: ReconcileWork)
        ensures
            r@ == self@,
    {
        self.duplicate()
    }
}

#[derive(Debug)]
pub struct ReconcileStatus {
    pub state: Option<String>,
    pub progress: Option<String>,
    pub scan_pending: Option<u64>,
    pub work: Vec<ReconcileWork>,
}

#[verifier::ext_equal]
pub struct ReconcileStatusView {
    pub state: Option<Seq<char>>,
    pub progress: Option<Seq<char>>,
    pub scan_pending: Option<u64>,
    pub work: Seq<ReconcileWorkView>,
}

impl View for ReconcileStatus {
    type V = ReconcileStatusView;

    open spec fn view(&self) -> ReconcileStatusView {
        ReconcileStatusView {
            state: opt(self.state),
            progress: opt(self.progress),
            scan_pending: self.scan_pending,
            work: views(self.work@),
        }
    }
}

impl ReconcileStatusView {
    pub open spec fn blank() -> ReconcileStatusView {
        ReconcileStatusView {
            state: None,
            progress: None,
            scan_pending: None,
            work: Seq::empty(),
        }
    }
}

impl Default for ReconcileStatus {
    fn default() -> (r: ReconcileStatus)
        ensures
            r@ == ReconcileStatusView::blank(),
    {
        let r = ReconcileStatus {
            state: None,
            progress: None,
            scan_pending: None,
            work: Vec::new(),
        };
        assert(r@ =~= ReconcileStatusView::blank());
        r
    }
}

impl Duplicate for ReconcileStatus {
    fn duplicate(&self) -> (r: ReconcileStatus) {
        ReconcileStatus {
            state: opt_copy(&self.state),
            progress: opt_copy(&self.progress),
            scan_pending: self.scan_pending,
            work: dup_vec(&self.work),
        }
    }
}

impl Clone for ReconcileStatus {
    fn clone(&self) -> (r: ReconcileStatus)
        ensures
            r@ == self@,
    {
        self.duplicate()
    }
}

#[derive(Debug, Clone, Copy, PartialEq, Eq, PartialOrd, Ord, Structural)]
pub enum Severity {
    Warning,
    Critical,
}

#[derive(Debug)]
pub struct Finding {
    pub id: String,
    pub severity: Severity,
    pub summary: String,
    pub detail: String,
    pub criteria: String,
    pub evidence: Vec<String>,
}

#[verifier::ext_equal]
pub struct FindingView {
    pub id: Seq<char>,
    pub severity: Severity,
    pub summary: Seq<char>,
    pub detail: Seq<char>,
    pub criteria: Seq<char>,
    pub evidence: Seq<Seq<char>>,
}

impl View for Finding {
    type V = FindingView;

    open spec fn view(&self) -> FindingView {
        FindingView {
            id: self.id@,
            severity: self.severity,
            summary: self.summary@,
            detail: self.detail@,
            criteria: self.criteria@,
            evidence: views(self.evidence@),
        }
    }
}

impl Duplicate for Finding {
    fn duplicate(&self) -> (r: Finding) {
        Finding {
            id: copy(self.id.as_str()),
            severity: self.severity,
            summary: copy(self.summary.as_str()),
            detail: copy(self.detail.as_str()),
            criteria: copy(self.criteria.as_str()),
            evidence: copy_all(&self.evidence),
        }
    }
}

impl Clone for Finding {
    fn clone(&self) -> (r: Finding)
        ensures
            r@ == self@,
    {
        self.duplicate()
    }
}

#[derive(Debug)]
pub struct TargetReport {
    pub role: &'static str,
    pub target: String,
    pub members: Vec<String>,
    pub eligible_members: Option<usize>,
    pub eligible_devices: Vec<String>,
    /// Raw member capacity: an upper bound, before journals, reserves and other data.
    pub capacity_bytes: Option<u64>,
    pub free_bytes: Option<u64>,
    pub findings: Vec<Finding>,
    pub notes: Vec<String>,
}

#[verifier::ext_equal]
pub struct TargetReportView {
    pub role: Seq<char>,
    pub target: Seq<char>,
    pub members: Seq<Seq<char>>,
    pub eligible_members: Option<usize>,
    pub eligible_devices: Seq<Seq<char>>,
    pub capacity_bytes: Option<u64>,
    pub free_bytes: Option<u64>,
    pub findings: Seq<FindingView>,
    pub notes: Seq<Seq<char>>,
}

impl View for TargetReport {
    type V = TargetReportView;

    open spec fn view(&self) -> TargetReportView {
        TargetReportView {
            role: self.role@,
            target: self.target@,
            members: views(self.members@),
            eligible_members: self.eligible_members,
            eligible_devices: views(self.eligible_devices@),
            capacity_bytes: self.capacity_bytes,
            free_bytes: self.free_bytes,
            findings: views(self.findings@),
            notes: views(self.notes@),
        }
    }
}

impl Duplicate for TargetReport {
    fn duplicate(&self) -> (r: TargetReport) {
        TargetReport {
            role: self.role,
            target: copy(self.target.as_str()),
            members: copy_all(&self.members),
            eligible_members: self.eligible_members,
            eligible_devices: copy_all(&self.eligible_devices),
            capacity_bytes: self.capacity_bytes,
            free_bytes: self.free_bytes,
            findings: dup_vec(&self.findings),
            notes: copy_all(&self.notes),
        }
    }
}

impl Clone for TargetReport {
    fn clone(&self) -> (r: TargetReport)
        ensures
            r@ == self@,
    {
        self.duplicate()
    }
}

// ----------------------------------------------------------------- quantities

/// A number of bytes with its largest fitting unit.
pub open spec fn bytes_text(bytes: Option<u64>) -> Seq<char> {
    match bytes {
        None => "?"@,
        Some(b) => if b >= 0x100_0000_0000 {
            fixed(quotient(whole(b as nat), whole(0x100_0000_0000)), 2) + " TiB"@
        } else if b >= 0x4000_0000 {
            fixed(quotient(whole(b as nat), whole(0x4000_0000)), 2) + " GiB"@
        } else if b >= 0x10_0000 {
            fixed(quotient(whole(b as nat), whole(0x10_0000)), 2) + " MiB"@
        } else if b >= 0x400 {
            fixed(quotient(whole(b as nat), whole(0x400)), 2) + " KiB"@
        } else {
            decimal(b as nat) + " B"@
        },
    }
}

fn in_units(b: u64, divisor: u64, unit: &str) -> (r: String)
    ensures
        r@ == fixed(quotient(whole(b as nat), whole(divisor as nat)), 2) + unit@,
{
    cat2(
        fixed_text(Double::from_u64(b).over(Double::from_u64(divisor)), 2).as_str(),
        unit,
    )
}

pub fn format_optional_bytes(bytes: Option<u64>) -> (r: String)
    ensures
        r@ == bytes_text(bytes),
{
    match bytes {
        None => copy("?"),
        Some(b) => {
            if b >= 0x100_0000_0000 {
                in_units(b, 0x100_0000_0000, " TiB")
            } else if b >= 0x4000_0000 {
                in_units(b, 0x4000_0000, " GiB")
            } else if b >= 0x10_0000 {
                in_units(b, 0x10_0000, " MiB")
            } else if b >= 0x400 {
                in_units(b, 0x400, " KiB")
            } else {
                cat2(u64_text(b).as_str(), " B")
            }
        },
    }
}

// ------------------------------------------------------------------ reconcile

pub open spec fn positive(n: Option<u64>) -> bool {
    n is Some && n->0 > 0
}

/// The first entry of a category.
pub open spec fn work_of(work: Seq<ReconcileWorkView>, category: Seq<char>) -> Option<
    ReconcileWorkView,
>
    decreases work.len(),
{
    if work.len() == 0 {
        None
    } else if work[0].category == category {
        Some(work[0])
    } else {
        work_of(work.skip(1), category)
    }
}

pub open spec fn work_text(w: ReconcileWorkView) -> Seq<char> {
    w.category + ":data="@ + bytes_text(w.data_bytes) + " meta="@ + bytes_text(w.metadata_bytes)
}

/// A line for every category with work left.
pub open spec fn work_texts(work: Seq<ReconcileWorkView>) -> Seq<Seq<char>>
    decreases work.len(),
{
    if work.len() == 0 {
        Seq::empty()
    } else {
        let rest = work_texts(work.drop_last());
        let w = work.last();
        if positive(w.data_bytes) || positive(w.metadata_bytes) {
            rest.push(work_text(w))
        } else {
            rest
        }
    }
}

impl ReconcileStatusView {
    pub open spec fn metadata(self, category: Seq<char>) -> Option<u64> {
        match work_of(self.work, category) {
            Some(w) => w.metadata_bytes,
            None => None,
        }
    }

    pub open spec fn text(self) -> Seq<char> {
        match self.state {
            None => "n/a"@,
            Some(state) => {
                let first = match self.progress {
                    Some(p) => state + " "@ + p,
                    None => state,
                };
                let scans = if positive(self.scan_pending) {
                    seq![first, "scans:"@ + decimal(self.scan_pending->0 as nat)]
                } else {
                    seq![first]
                };
                joined(scans + work_texts(self.work), " \u{2014} "@)
            },
        }
    }
}

impl ReconcileStatus {
    /// The first entry of a category, by its place.
    fn entry(&self, category: &str) -> (r: Option<&ReconcileWork>)
        ensures
            match r {
                Some(w) => work_of(self@.work, category@) == Some(w@),
                None => work_of(self@.work, category@) is None,
            },
    {
        let ghost all = self@.work;
        let mut i: usize = 0;
        proof {
            assert(all.skip(0) =~= all);
        }
        while i < self.work.len()
            invariant
                i <= self.work@.len() == all.len(),
                all == self@.work,
                work_of(all, category@) == work_of(all.skip(i as int), category@),
            decreases all.len() - i,
        {
            proof {
                assert(all.skip(i as int).skip(1) =~= all.skip(i + 1));
                assert(all.skip(i as int)[0] == self.work@[i as int]@);
            }
            if same(self.work[i].category.as_str(), category) {
                return Some(&self.work[i]);
            }
            i = i + 1;
        }
        None
    }

    pub fn metadata_pending(&self, category: &str) -> (r: Option<u64>)
        ensures
            r == self@.metadata(category@),
    {
        match self.entry(category) {
            Some(w) => w.metadata_bytes,
            None => None,
        }
    }

    /// The bytes of data and of metadata that a category has left.
    pub fn pending(&self, category: &str) -> (r: (Option<u64>, Option<u64>))
        ensures
            match work_of(self@.work, category@) {
                Some(w) => r == (w.data_bytes, w.metadata_bytes),
                None => r == (None::<u64>, None::<u64>),
            },
    {
        match self.entry(category) {
            Some(w) => (w.data_bytes, w.metadata_bytes),
            None => (None, None),
        }
    }

    pub fn summary(&self) -> (r: String)
        ensures
            r@ == self@.text(),
    {
        broadcast use lemma_views_push;

        let state = match &self.state {
            Some(state) => state,
            None => {
                return copy("n/a");
            },
        };
        let mut parts: Vec<String> = Vec::new();
        proof {
            assert(views(parts@) =~= Seq::<Seq<char>>::empty());
        }
        match &self.progress {
            Some(p) => {
                parts.push(cat3(state.as_str(), " ", p.as_str()));
            },
            None => {
                parts.push(copy(state.as_str()));
            },
        }
        let ghost first = views(parts@)[0];
        if let Some(n) = self.scan_pending {
            if n > 0 {
                parts.push(cat2("scans:", u64_text(n).as_str()));
            }
        }
        let ghost head = views(parts@);
        let ghost all = self@.work;
        let mut i: usize = 0;
        proof {
            assert(all.take(0) =~= Seq::<ReconcileWorkView>::empty());
            assert(head + Seq::<Seq<char>>::empty() =~= head);
        }
        while i < self.work.len()
            invariant
                i <= self.work@.len() == all.len(),
                all == self@.work,
                views(parts@) == head + work_texts(all.take(i as int)),
            decreases all.len() - i,
        {
            let w = &self.work[i];
            proof {
                assert(all.take(i + 1).drop_last() =~= all.take(i as int));
                assert(all.take(i + 1).last() == w@);
            }
            if w.data_bytes.is_some() && w.data_bytes.unwrap() > 0 || (w.metadata_bytes.is_some()
                && w.metadata_bytes.unwrap() > 0) {
                let text = cat5(
                    w.category.as_str(),
                    ":data=",
                    format_optional_bytes(w.data_bytes).as_str(),
                    " meta=",
                    format_optional_bytes(w.metadata_bytes).as_str(),
                );
                proof {
                    assert((head + work_texts(all.take(i as int))).push(text@) =~= head
                        + work_texts(all.take(i as int)).push(text@));
                }
                parts.push(text);
            }
            i = i + 1;
        }
        proof {
            assert(all.take(i as int) =~= all);
            if positive(self.scan_pending) {
                assert(head =~= seq![first, "scans:"@ + decimal(self.scan_pending->0 as nat)]);
            } else {
                assert(head =~= seq![first]);
            }
        }
        join(&parts, " \u{2014} ")
    }
}

} // verus!
