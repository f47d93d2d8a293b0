//! The physical disks behind a block device. A mapper or a partition is not
//! solid-state just because its own queue reports non-rotational storage.

use crate::double::{whole, Double};
use crate::order::{arranged, ascending, sort, ByText};
use crate::strmap::{find, keys_ordered, law_put_then_find, put, StrMap};
use crate::text::{
    contains, copy, copy_all, count, has_part, has_prefix, holds, is_empty, item, lemma_views_push,
    opt, opt_copy, opt_copy_all, opt_views, same, starts_with, trim, trimmed, views, Duplicate,
};
use vstd::prelude::*;

verus! {

#[derive(Debug, Clone, Copy, PartialEq, Eq, Structural)]
pub enum MediaKind {
    Rotational,
    Nvme,
    NonRotational,
}

impl MediaKind {
    pub open spec fn title(self) -> Seq<char> {
        match self {
            MediaKind::Rotational => "rotational"@,
            MediaKind::Nvme => "NVMe"@,
            MediaKind::NonRotational => "non-rotational"@,
        }
    }

    /// The latency in milliseconds below which a device is never slow.
    pub open spec fn floor(self) -> Double {
        match self {
            MediaKind::Rotational => whole(20),
            MediaKind::Nvme => whole(2),
            MediaKind::NonRotational => whole(5),
        }
    }

    pub fn label(self) -> (r: &'static str)
        ensures
            r@ == self.title(),
    {
        match self {
            MediaKind::Rotational => "rotational",
            MediaKind::Nvme => "NVMe",
            MediaKind::NonRotational => "non-rotational",
        }
    }

    pub fn latency_floor_ms(self) -> (r: Double)
        ensures
            r == self.floor(),
    {
        match self {
            MediaKind::Rotational => Double::from_u64(20),
            MediaKind::Nvme => Double::from_u64(2),
            MediaKind::NonRotational => Double::from_u64(5),
        }
    }
}

#[derive(Debug, PartialEq, Eq)]
pub struct BlockTopology {
    pub leaves: Vec<String>,
    /// None means unknown or mixed media; no partial graph is used for peers.
    pub media: Option<MediaKind>,
}

#[verifier::ext_equal]
pub struct BlockTopologyView {
    pub leaves: Seq<Seq<char>>,
    pub media: Option<MediaKind>,
}

impl View for BlockTopology {
    type V = BlockTopologyView;

    open spec fn view(&self) -> BlockTopologyView {
        BlockTopologyView {
            leaves: views(self.leaves@),
            media: self.media,
        }
    }
}

impl BlockTopologyView {
    pub open spec fn blank() -> BlockTopologyView {
        BlockTopologyView {
            leaves: Seq::empty(),
            media: None,
        }
    }
}

impl Default for BlockTopology {
    fn default() -> (r: BlockTopology)
        ensures
            r@ == BlockTopologyView::blank(),
    {
        let r = BlockTopology {
            leaves: Vec::new(),
            media: None,
        };
        assert(r@ =~= BlockTopologyView::blank());
        r
    }
}

impl Duplicate for BlockTopology {
    fn duplicate(&self) -> (r: BlockTopology) {
        BlockTopology {
            leaves: copy_all(&self.leaves),
            media: self.media,
        }
    }
}

impl Clone for BlockTopology {
    fn clone(&self) -> (r: BlockTopology)
        ensures
            r@ == self@,
    {
        self.duplicate()
    }
}

/// What the kernel shows of one block device.
#[derive(Debug)]
pub struct BlockNode {
    pub partition: bool,
    /// The device that a partition lies on.
    pub parent: Option<String>,
    /// The devices that a mapped device is made of.
    pub slaves: Option<Vec<String>>,
    pub rotational: Option<String>,
}

#[verifier::ext_equal]
pub struct BlockNodeView {
    pub partition: bool,
    pub parent: Option<Seq<char>>,
    pub slaves: Option<Seq<Seq<char>>>,
    pub rotational: Option<Seq<char>>,
}

impl View for BlockNode {
    type V = BlockNodeView;

    open spec fn view(&self) -> BlockNodeView {
        BlockNodeView {
            partition: self.partition,
            parent: opt(self.parent),
            slaves: opt_views(self.slaves),
            rotational: opt(self.rotational),
        }
    }
}

impl Duplicate for BlockNode {
    fn duplicate(&self) -> (r: BlockNode) {
        BlockNode {
            partition: self.partition,
            parent: opt_copy(&self.parent),
            slaves: opt_copy_all(&self.slaves),
            rotational: opt_copy(&self.rotational),
        }
    }
}

impl Clone for BlockNode {
    fn clone(&self) -> (r: BlockNode)
        ensures
            r@ == self@,
    {
        self.duplicate()
    }
}

/// Physical disks with their kind, where that is known.
pub type Leaves = StrMap<Option<MediaKind>>;

pub type LeavesView = Seq<(Seq<char>, Option<MediaKind>)>;

pub type CacheView = Seq<(Seq<char>, Seq<(Seq<char>, Option<MediaKind>)>)>;

pub type NodesView = Seq<(Seq<char>, BlockNodeView)>;

/// Traces block devices down to disks, and remembers what it traced.
pub struct Resolver {
    pub nodes: StrMap<BlockNode>,
    pub cache: StrMap<Leaves>,
}

/// The deepest stack of devices that is followed.
pub const MAX_DEPTH: usize = 16;

pub const MAX_NODES: usize = 4096;

pub const MAX_LEAVES: usize = 256;

pub open spec fn is_device_name(name: Seq<char>) -> bool {
    name.len() > 0 && !has_part(name, "/"@) && name != "."@ && name != ".."@
}

/// The kind of a disk. A mapped device is not a disk.
pub open spec fn media_of(name: Seq<char>, rotational: Option<Seq<char>>) -> Option<MediaKind> {
    match rotational {
        Some(r) => if trimmed(r) == "1"@ {
            Some(MediaKind::Rotational)
        } else if trimmed(r) == "0"@ {
            if has_prefix(name, "nvme"@) {
                Some(MediaKind::Nvme)
            } else {
                Some(MediaKind::NonRotational)
            }
        } else {
            None
        },
        None => None,
    }
}

pub open spec fn is_mapped(name: Seq<char>) -> bool {
    has_prefix(name, "dm-"@) || has_prefix(name, "md"@)
}

/// The disks of both.
pub open spec fn merged(a: LeavesView, b: LeavesView) -> LeavesView
    decreases b.len(),
{
    if b.len() == 0 {
        a
    } else {
        put(merged(a, b.drop_last()), b.last().0, b.last().1)
    }
}

/// The disks behind a device, and what is remembered afterwards. None where
/// the device is unknown, the stack is too deep or too large, or it leads back
/// to a device that is being traced.
pub open spec fn traced(
    nodes: NodesView,
    cache: CacheView,
    name: Seq<char>,
    visiting: Seq<Seq<char>>,
    depth: nat,
) -> (Option<LeavesView>, CacheView)
    decreases 18 - depth, 2nat, 0nat,
{
    if depth > MAX_DEPTH || !is_device_name(name) || cache.len() + visiting.len() >= MAX_NODES
        || visiting.contains(name) {
        (None, cache)
    } else {
        let (found, after) = match find(cache, name) {
            Some(leaves) => (Some(leaves), cache),
            None => traced_node(nodes, cache, name, visiting.push(name), depth),
        };
        match found {
            Some(leaves) => (found, put(after, name, leaves)),
            None => (None, after),
        }
    }
}

pub open spec fn traced_node(
    nodes: NodesView,
    cache: CacheView,
    name: Seq<char>,
    visiting: Seq<Seq<char>>,
    depth: nat,
) -> (Option<LeavesView>, CacheView)
    decreases 18 - depth, 1nat, 0nat,
{
    if depth > MAX_DEPTH {
        (None, cache)
    } else {
        match find(nodes, name) {
            None => (None, cache),
            Some(node) => if node.partition {
                match node.parent {
                    Some(parent) => traced(nodes, cache, parent, visiting, depth + 1),
                    None => (None, cache),
                }
            } else {
                match node.slaves {
                    None => (None, cache),
                    Some(slaves) => if slaves.len() == 0 {
                        if is_mapped(name) {
                            (None, cache)
                        } else {
                            (Some(seq![(name, media_of(name, node.rotational))]), cache)
                        }
                    } else {
                        traced_all(
                            nodes,
                            cache,
                            arranged::<String, ByText>(slaves),
                            Seq::empty(),
                            visiting,
                            depth,
                        )
                    },
                }
            },
        }
    }
}

/// The disks behind several devices together with those found before.
pub open spec fn traced_all(
    nodes: NodesView,
    cache: CacheView,
    names: Seq<Seq<char>>,
    leaves: LeavesView,
    visiting: Seq<Seq<char>>,
    depth: nat,
) -> (Option<LeavesView>, CacheView)
    decreases 18 - depth, 0nat, names.len(),
{
    if depth > MAX_DEPTH {
        (None, cache)
    } else if names.len() == 0 {
        (Some(leaves), cache)
    } else {
        let (found, after) = traced(nodes, cache, names[0], visiting, depth + 1);
        match found {
            Some(more) => {
                let both = merged(leaves, more);
                if both.len() > MAX_LEAVES {
                    (None, after)
                } else {
                    traced_all(nodes, after, names.skip(1), both, visiting, depth)
                }
            },
            None => (None, after),
        }
    }
}

/// The kind of all disks, where they are of one known kind.
pub open spec fn common_media(leaves: LeavesView) -> Option<MediaKind> {
    if leaves.len() > 0 && leaves[0].1 is Some && forall|i: int|
        0 <= i < leaves.len() ==> (#[trigger] leaves[i]).1 == leaves[0].1 {
        leaves[0].1
    } else {
        None
    }
}

pub open spec fn leaf_names(leaves: LeavesView) -> Seq<Seq<char>> {
    Seq::new(leaves.len(), |i: int| leaves[i].0)
}

pub open spec fn topology_of(found: Option<LeavesView>) -> BlockTopologyView {
    match found {
        Some(leaves) => BlockTopologyView {
            leaves: leaf_names(leaves),
            media: common_media(leaves),
        },
        None => BlockTopologyView::blank(),
    }
}

impl Duplicate for Option<MediaKind> {
    fn duplicate(&self) -> (r: Option<MediaKind>) {
        *self
    }
}

fn merge(a: &mut Leaves, b: &Leaves)
    ensures
        final(a)@ == merged(old(a)@, b@),
{
    let ghost all = b@;
    let ghost start = a@;
    let mut i: usize = 0;
    proof {
        assert(all.take(0) =~= Seq::<(Seq<char>, Option<MediaKind>)>::empty());
    }
    while i < b.len()
        invariant
            i <= all.len(),
            all == b@,
            a@ == merged(start, all.take(i as int)),
        decreases all.len() - i,
    {
        proof {
            assert(all.take(i + 1).drop_last() =~= all.take(i as int));
            assert(all.take(i + 1).last() == all[i as int]);
        }
        a.insert(b.key_at(i), *b.value_at(i));
        i = i + 1;
    }
    proof {
        assert(all.take(i as int) =~= all);
    }
}

fn find_media(name: &str, rotational: &Option<String>) -> (r: Option<MediaKind>)
    ensures
        r == media_of(name@, opt(*rotational)),
{
    match rotational {
        Some(text) => {
            let t = trim(text.as_str());
            if same(t.as_str(), "1") {
                Some(MediaKind::Rotational)
            } else if same(t.as_str(), "0") {
                if starts_with(name, "nvme") {
                    Some(MediaKind::Nvme)
                } else {
                    Some(MediaKind::NonRotational)
                }
            } else {
                None
            }
        },
        None => None,
    }
}

fn find_common(leaves: &Leaves) -> (r: Option<MediaKind>)
    ensures
        r == common_media(leaves@),
{
    if leaves.len() == 0 {
        return None;
    }
    let kind = match *leaves.value_at(0) {
        Some(kind) => kind,
        None => {
            return None;
        },
    };
    let mut i: usize = 0;
    while i < leaves.len()
        invariant
            i <= leaves@.len(),
            leaves@.len() > 0,
            leaves@[0].1 == Some(kind),
            forall|k: int| 0 <= k < i ==> (#[trigger] leaves@[k]).1 == leaves@[0].1,
        decreases leaves@.len() - i,
    {
        let alike = match *leaves.value_at(i) {
            Some(k) => k == kind,
            None => false,
        };
        if !alike {
            return None;
        }
        i = i + 1;
    }
    Some(kind)
}

pub open spec fn opt_leaves(r: Option<Leaves>) -> Option<LeavesView> {
    match r {
        Some(l) => Some(l@),
        None => None,
    }
}

impl Resolver {
    pub fn new(nodes: StrMap<BlockNode>) -> (r: Resolver)
        ensures
            r.nodes@ == nodes@,
            r.cache@ == Seq::<(Seq<char>, LeavesView)>::empty(),
    {
        Resolver { nodes, cache: StrMap::new() }
    }

    /// The disks behind a device, each once, in the order of their names.
    pub fn resolve(&mut self, name: &str) -> (r: BlockTopology)
        ensures
            final(self).nodes@ == old(self).nodes@,
            r@ == topology_of(
                traced(old(self).nodes@, old(self).cache@, name@, Seq::empty(), 0).0,
            ),
            ascending(r@.leaves),
            final(self).cache@ == traced(
                old(self).nodes@,
                old(self).cache@,
                name@,
                Seq::empty(),
                0,
            ).1,
    {
        let mut visiting: Vec<String> = Vec::new();
        proof {
            assert(views(visiting@) =~= Seq::<Seq<char>>::empty());
        }
        match self.walk(name, &mut visiting, 0) {
            Some(leaves) => {
                let mut names: Vec<String> = Vec::new();
                let mut i: usize = 0;
                while i < leaves.len()
                    invariant
                        i <= leaves@.len(),
                        names@.len() == i,
                        forall|k: int| 0 <= k < i ==> (#[trigger] names@[k])@ == leaves@[k].0,
                    decreases leaves@.len() - i,
                {
                    names.push(copy(leaves.key_at(i)));
                    i = i + 1;
                }
                assert(views(names@) =~= leaf_names(leaves@));
                assert(keys_ordered(leaves@));
                BlockTopology { leaves: names, media: find_common(&leaves) }
            },
            None => BlockTopology::default(),
        }
    }

    fn walk(&mut self, name: &str, visiting: &mut Vec<String>, depth: usize) -> (r: Option<Leaves>)
        requires
            depth <= MAX_DEPTH + 1,
        ensures
            final(self).nodes@ == old(self).nodes@,
            views(final(visiting)@) == views(old(visiting)@),
            (opt_leaves(r), final(self).cache@) == traced(
                old(self).nodes@,
                old(self).cache@,
                name@,
                views(old(visiting)@),
                depth as nat,
            ),
        decreases 18 - depth, 2nat, 0nat,
    {
        broadcast use lemma_views_push;

        if depth > MAX_DEPTH || is_empty(name) || contains(name, "/") || same(name, ".") || same(
            name,
            "..",
        ) {
            return None;
        }
        let known = self.cache.len();
        let open = count(visiting);
        if known >= MAX_NODES || open >= MAX_NODES - known || holds(visiting, name) {
            return None;
        }
        let ghost before = views(visiting@);
        let cached = match self.cache.get(name) {
            Some(leaves) => Some(leaves.duplicate()),
            None => None,
        };
        let found = match cached {
            Some(leaves) => Some(leaves),
            None => {
                visiting.push(copy(name));
                let r = self.read_node(name, visiting, depth);
                let ghost inner = views(visiting@);
                visiting.pop();
                assert(views(visiting@) =~= inner.drop_last());
                assert(inner.drop_last() =~= before);
                r
            },
        };
        if let Some(leaves) = &found {
            self.cache.insert(name, leaves.duplicate());
        }
        found
    }

    fn read_node(&mut self, name: &str, visiting: &mut Vec<String>, depth: usize) -> (r: Option<
        Leaves,
    >)
        requires
            depth <= MAX_DEPTH,
            old(visiting)@.len() > 0,
        ensures
            final(self).nodes@ == old(self).nodes@,
            views(final(visiting)@) == views(old(visiting)@),
            (opt_leaves(r), final(self).cache@) == traced_node(
                old(self).nodes@,
                old(self).cache@,
                name@,
                views(old(visiting)@),
                depth as nat,
            ),
        decreases 18 - depth, 1nat, 0nat,
    {
        let node = match self.nodes.get(name) {
            Some(node) => node.duplicate(),
            None => {
                return None;
            },
        };
        if node.partition {
            return match &node.parent {
                Some(parent) => self.walk(parent.as_str(), visiting, depth + 1),
                None => None,
            };
        }
        let slaves = match node.slaves {
            Some(slaves) => slaves,
            None => {
                return None;
            },
        };
        if count(&slaves) == 0 {
            if starts_with(name, "dm-") || starts_with(name, "md") {
                return None;
            }
            let mut leaves: Leaves = StrMap::new();
            leaves.insert(name, find_media(name, &node.rotational));
            assert(leaves@ =~= seq![(name@, media_of(name@, opt(node.rotational)))]);
            return Some(leaves);
        }
        let names = sort::<String, ByText>(slaves);
        self.walk_all(&names, visiting, depth)
    }

    fn walk_all(&mut self, names: &Vec<String>, visiting: &mut Vec<String>, depth: usize) -> (r: Option<
        Leaves,
    >)
        requires
            depth <= MAX_DEPTH,
        ensures
            final(self).nodes@ == old(self).nodes@,
            views(final(visiting)@) == views(old(visiting)@),
            (opt_leaves(r), final(self).cache@) == traced_all(
                old(self).nodes@,
                old(self).cache@,
                views(names@),
                Seq::empty(),
                views(old(visiting)@),
                depth as nat,
            ),
        decreases 18 - depth, 0nat, 0nat,
    {
        let ghost all = views(names@);
        let ghost nodes = self.nodes@;
        let ghost start = self.cache@;
        let ghost path = views(visiting@);
        let mut leaves: Leaves = StrMap::new();
        let mut i: usize = 0;
        proof {
            assert(all.skip(0) =~= all);
        }
        while i < count(names)
            invariant
                i <= all.len(),
                all == views(names@),
                depth <= MAX_DEPTH,
                self.nodes@ == nodes,
                nodes == old(self).nodes@,
                start == old(self).cache@,
                path == views(old(visiting)@),
                views(visiting@) == path,
                traced_all(nodes, start, all, Seq::empty(), path, depth as nat) == traced_all(
                    nodes,
                    self.cache@,
                    all.skip(i as int),
                    leaves@,
                    path,
                    depth as nat,
                ),
            decreases all.len() - i,
        {
            proof {
                assert(all.skip(i as int).skip(1) =~= all.skip(i + 1));
            }
            match self.walk(item(names, i), visiting, depth + 1) {
                Some(more) => {
                    merge(&mut leaves, &more);
                    if leaves.len() > MAX_LEAVES {
                        return None;
                    }
                },
                None => {
                    return None;
                },
            }
            i = i + 1;
        }
        Some(leaves)
    }
}

// ------------------------------------------------------------------------ laws

/// Tracing other devices leaves the ones being traced as they were remembered.
proof fn lemma_open_devices_keep(
    nodes: NodesView,
    cache: CacheView,
    name: Seq<char>,
    visiting: Seq<Seq<char>>,
    depth: nat,
    open: Seq<char>,
)
    requires
        visiting.contains(open),
    ensures
        find(traced(nodes, cache, name, visiting, depth).1, open) == find(cache, open),
    decreases 18 - depth, 2nat, 0nat,
{
    if depth > MAX_DEPTH || !is_device_name(name) || cache.len() + visiting.len() >= MAX_NODES
        || visiting.contains(name) {
    } else {
        let inner = visiting.push(name);
        assert(inner.contains(open)) by {
            let k = choose|k: int| 0 <= k < visiting.len() && visiting[k] == open;
            assert(inner[k] == open);
        }
        lemma_open_in_node(nodes, cache, name, inner, depth, open);
        let (found, after) = match find(cache, name) {
            Some(leaves) => (Some(leaves), cache),
            None => traced_node(nodes, cache, name, inner, depth),
        };
        if found is Some {
            law_put_then_find(after, name, found->0, open);
        }
    }
}

proof fn lemma_open_in_node(
    nodes: NodesView,
    cache: CacheView,
    name: Seq<char>,
    visiting: Seq<Seq<char>>,
    depth: nat,
    open: Seq<char>,
)
    requires
        visiting.contains(open),
    ensures
        find(traced_node(nodes, cache, name, visiting, depth).1, open) == find(cache, open),
    decreases 18 - depth, 1nat, 0nat,
{
    if depth <= MAX_DEPTH && find(nodes, name) is Some {
        let node = find(nodes, name)->0;
        if node.partition {
            if node.parent is Some {
                lemma_open_devices_keep(nodes, cache, node.parent->0, visiting, depth + 1, open);
            }
        } else if node.slaves is Some {
            lemma_open_in_all(
                nodes,
                cache,
                arranged::<String, ByText>(node.slaves->0),
                Seq::empty(),
                visiting,
                depth,
                open,
            );
        }
    }
}

proof fn lemma_open_in_all(
    nodes: NodesView,
    cache: CacheView,
    names: Seq<Seq<char>>,
    leaves: LeavesView,
    visiting: Seq<Seq<char>>,
    depth: nat,
    open: Seq<char>,
)
    requires
        visiting.contains(open),
    ensures
        find(traced_all(nodes, cache, names, leaves, visiting, depth).1, open) == find(cache, open),
    decreases 18 - depth, 0nat, names.len(),
{
    if depth <= MAX_DEPTH && names.len() > 0 {
        lemma_open_devices_keep(nodes, cache, names[0], visiting, depth + 1, open);
        let (found, after) = traced(nodes, cache, names[0], visiting, depth + 1);
        if found is Some {
            lemma_open_in_all(
                nodes,
                after,
                names.skip(1),
                merged(leaves, found->0),
                visiting,
                depth,
                open,
            );
        }
    }
}

/// A trace that failed is not remembered: whether a stack is too deep or leads
/// back depends on where the trace began, so a later one may succeed.
pub proof fn law_failures_are_not_remembered(
    nodes: NodesView,
    cache: CacheView,
    name: Seq<char>,
    visiting: Seq<Seq<char>>,
    depth: nat,
)
    requires
        traced(nodes, cache, name, visiting, depth).0 is None,
    ensures
        find(traced(nodes, cache, name, visiting, depth).1, name) == find(cache, name),
{
    if depth > MAX_DEPTH || !is_device_name(name) || cache.len() + visiting.len() >= MAX_NODES
        || visiting.contains(name) {
    } else {
        let inner = visiting.push(name);
        assert(inner[inner.len() - 1] == name);
        lemma_open_in_node(nodes, cache, name, inner, depth, name);
    }
}

/// A device that leads back to itself has no disks.
pub proof fn law_a_device_being_traced_is_no_answer(
    nodes: NodesView,
    cache: CacheView,
    name: Seq<char>,
    visiting: Seq<Seq<char>>,
    depth: nat,
)
    requires
        visiting.contains(name),
    ensures
        traced(nodes, cache, name, visiting, depth) == (None::<LeavesView>, cache),
{
}

/// Disks of more than one kind, or of a kind that is not known, have no common
/// kind.
pub proof fn law_mixed_disks_have_no_kind(leaves: LeavesView, i: int, j: int)
    requires
        0 <= i < leaves.len(),
        0 <= j < leaves.len(),
        leaves[i].1 is None || leaves[i].1 != leaves[j].1,
    ensures
        common_media(leaves) is None,
{
    if common_media(leaves) is Some {
        assert(leaves[i].1 == leaves[0].1);
        assert(leaves[j].1 == leaves[0].1);
    }
}

} // verus!
