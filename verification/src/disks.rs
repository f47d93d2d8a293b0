//! The disks behind a device: what they are, and which are found.

use crate::double::whole;
use crate::strmap::{find, law_put_then_find};
use crate::text::{has_prefix, trimmed};
use crate::topology::{
    is_device_name, is_mapped, media_of, merged, topology_of, traced, BlockNodeView, CacheView,
    LeavesView, MediaKind, NodesView,
};
use vstd::prelude::*;

verus! {

/// A disk that turns is rotational; of the others, those named so are NVMe. What the
/// kernel does not say is unknown.
pub proof fn law_disks_are_of_three_kinds(name: Seq<char>, text: Seq<char>)
    ensures
        trimmed(text) == "1"@ ==> media_of(name, Some(text)) == Some(MediaKind::Rotational),
        trimmed(text) == "0"@ && has_prefix(name, "nvme"@) ==> media_of(name, Some(text)) == Some(
            MediaKind::Nvme,
        ),
        trimmed(text) == "0"@ && !has_prefix(name, "nvme"@) ==> media_of(name, Some(text)) == Some(
            MediaKind::NonRotational,
        ),
        trimmed(text) != "0"@ && trimmed(text) != "1"@ ==> media_of(name, Some(text)) is None,
        media_of(name, None) is None,
{
    reveal_strlit("0");
    reveal_strlit("1");
    assert("0"@[0] == '0');
    assert("1"@[0] == '1');
}

/// Below twenty, two and five milliseconds no disk of its kind is slow.
pub proof fn law_kinds_have_their_floors(kind: MediaKind)
    ensures
        kind == MediaKind::Rotational ==> kind.floor() == whole(20),
        kind == MediaKind::Nvme ==> kind.floor() == whole(2),
        kind == MediaKind::NonRotational ==> kind.floor() == whole(5),
{
}

/// Whether a device can be traced anew at a depth.
pub open spec fn can_be_traced(
    cache: CacheView,
    name: Seq<char>,
    visiting: Seq<Seq<char>>,
    depth: nat,
) -> bool {
    &&& depth <= 16
    &&& is_device_name(name)
    &&& cache.len() + visiting.len() < 4096
    &&& !visiting.contains(name)
    &&& find(cache, name) is None
}

/// A disk is its own only disk, of its own kind; a mapped device without devices
/// below it has none that are known.
pub proof fn law_a_disk_is_its_own(
    nodes: NodesView,
    cache: CacheView,
    name: Seq<char>,
    visiting: Seq<Seq<char>>,
    depth: nat,
    node: BlockNodeView,
)
    requires
        can_be_traced(cache, name, visiting, depth),
        find(nodes, name) == Some(node),
        !node.partition,
        node.slaves == Some(Seq::<Seq<char>>::empty()),
    ensures
        ({
            let found = traced(nodes, cache, name, visiting, depth).0;
            &&& !is_mapped(name) ==> found == Some(seq![(name, media_of(name, node.rotational))])
            &&& is_mapped(name) ==> found is None
        }),
{
}

/// A partition stands on the disks of the device that it is a part of.
pub proof fn law_a_partition_stands_on_its_parent(
    nodes: NodesView,
    cache: CacheView,
    name: Seq<char>,
    visiting: Seq<Seq<char>>,
    depth: nat,
    node: BlockNodeView,
    parent: Seq<char>,
)
    requires
        can_be_traced(cache, name, visiting, depth),
        find(nodes, name) == Some(node),
        node.partition,
        node.parent == Some(parent),
    ensures
        traced(nodes, cache, name, visiting, depth).0 == traced(
            nodes,
            cache,
            parent,
            visiting.push(name),
            depth + 1,
        ).0,
{
}

/// An unknown device, one that is too deep and one that is being traced have no
/// known disks.
pub proof fn law_some_devices_are_not_traced(
    nodes: NodesView,
    cache: CacheView,
    name: Seq<char>,
    visiting: Seq<Seq<char>>,
    depth: nat,
)
    ensures
        depth > 16 || visiting.contains(name) || !is_device_name(name) ==> traced(
            nodes,
            cache,
            name,
            visiting,
            depth,
        ).0 is None,
        find(cache, name) is None && find(nodes, name) is None ==> traced(
            nodes,
            cache,
            name,
            visiting,
            depth,
        ).0 is None,
{
}

/// Disks found in two places are all kept; one found in both is as it was found last.
pub proof fn law_all_disks_are_kept(
    a: LeavesView,
    b: LeavesView,
    name: Seq<char>,
    kind: Option<MediaKind>,
    other: Seq<char>,
)
    ensures
        find(merged(a, b.push((name, kind))), name) == Some(kind),
        other != name ==> find(merged(a, b.push((name, kind))), other) == find(merged(a, b), other),
        merged(a, Seq::empty()) == a,
{
    let more = b.push((name, kind));
    assert(more.drop_last() =~= b);
    assert(more.last() == (name, kind));
    law_put_then_find(merged(a, b), name, kind, name);
    law_put_then_find(merged(a, b), name, kind, other);
}

/// The disks behind a device are those that were found, and it is of a kind exactly
/// where all of them are known to be of it.
pub proof fn law_a_device_has_the_kind_of_its_disks(leaves: LeavesView, kind: MediaKind)
    requires
        leaves.len() > 0,
    ensures
        ({
            let t = topology_of(Some(leaves));
            &&& t.leaves.len() == leaves.len()
            &&& forall|i: int| 0 <= i < leaves.len() ==> t.leaves[i] == (#[trigger] leaves[i]).0
            &&& t.media == Some(kind) <==> forall|i: int|
                0 <= i < leaves.len() ==> (#[trigger] leaves[i]).1 == Some(kind)
        }),
        topology_of(None).leaves.len() == 0,
        topology_of(None).media is None,
{
    let t = topology_of(Some(leaves));
    if t.media == Some(kind) {
        assert(leaves[0].1 == Some(kind));
    }
    if forall|i: int| 0 <= i < leaves.len() ==> (#[trigger] leaves[i]).1 == Some(kind) {
        assert(leaves[0].1 == Some(kind));
    }
}

} // verus!
