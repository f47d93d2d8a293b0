use nasty_top::strmap::StrMap;
use nasty_top::topology::{BlockNode, BlockTopology, MediaKind, Resolver};

struct Fixture(StrMap<BlockNode>);

impl Fixture {
    fn new() -> Self {
        Self(StrMap::new())
    }

    fn disk(&mut self, name: &str, rotational: &str) {
        self.mapper_with(name, rotational, &[]);
    }

    fn mapper(&mut self, name: &str, slaves: &[&str]) {
        self.mapper_with(name, "0", slaves);
    }

    fn mapper_with(&mut self, name: &str, rotational: &str, slaves: &[&str]) {
        self.0.insert(
            name,
            BlockNode {
                partition: false,
                parent: None,
                slaves: Some(slaves.iter().map(|s| s.to_string()).collect()),
                rotational: Some(rotational.to_string()),
            },
        );
    }

    fn partition(&mut self, name: &str, parent: &str) {
        self.0.insert(
            name,
            BlockNode {
                partition: true,
                parent: Some(parent.to_string()),
                slaves: None,
                rotational: None,
            },
        );
    }

    fn nodes(&self) -> StrMap<BlockNode> {
        let mut copied = StrMap::new();
        for i in 0..self.0.len() {
            copied.insert(self.0.key_at(i), self.0.value_at(i).clone());
        }
        copied
    }

    fn resolve(&self, name: &str) -> BlockTopology {
        Resolver::new(self.nodes()).resolve(name)
    }
}

#[test]
fn nested_dm_and_partitions_resolve_to_the_rotational_backing_disk() {
    let mut f = Fixture::new();
    f.disk("sda", "1");
    f.partition("sda1", "sda");
    f.mapper("dm-0", &["sda1"]);
    f.mapper("dm-1", &["dm-0"]);
    let topology = f.resolve("dm-1");
    assert_eq!(topology.media, Some(MediaKind::Rotational));
    assert_eq!(topology.leaves, ["sda"]);
}

#[test]
fn mixed_media_missing_slaves_and_cycles_are_unknown_not_ssds() {
    let mut f = Fixture::new();
    f.disk("sda", "1");
    f.disk("nvme0n1", "0");
    f.mapper("dm-0", &["sda", "nvme0n1"]);
    assert_eq!(f.resolve("dm-0").media, None);
    assert_eq!(f.resolve("dm-0").leaves.len(), 2);
    f.mapper("dm-1", &["missing"]);
    assert_eq!(f.resolve("dm-1"), BlockTopology::default());
    f.mapper("dm-2", &["dm-3"]);
    f.mapper("dm-3", &["dm-2"]);
    assert_eq!(f.resolve("dm-2"), BlockTopology::default());
    f.mapper("dm-4", &[]);
    assert_eq!(f.resolve("dm-4").media, None);
    assert_eq!(f.resolve("nvme0n1").media, Some(MediaKind::Nvme));
}

#[test]
fn depth_limit_does_not_poison_a_later_shallow_lookup() {
    let mut f = Fixture::new();
    f.disk("sda", "1");
    f.mapper("dm-0", &["sda"]);
    for i in 1..=18 {
        f.mapper(&format!("dm-{i}"), &[&format!("dm-{}", i - 1)]);
    }
    let mut resolver = Resolver::new(f.nodes());
    assert_eq!(resolver.resolve("dm-18"), BlockTopology::default());
    assert_eq!(resolver.resolve("dm-2").media, Some(MediaKind::Rotational));
}

#[test]
fn the_deepest_stack_that_is_followed_has_sixteen_layers() {
    let mut f = Fixture::new();
    f.disk("sda", "1");
    f.mapper("dm-0", &["sda"]);
    for i in 1..=16 {
        f.mapper(&format!("dm-{i}"), &[&format!("dm-{}", i - 1)]);
    }
    assert_eq!(f.resolve("dm-15").leaves, ["sda"]);
    assert_eq!(f.resolve("dm-16"), BlockTopology::default());
}

#[test]
fn disks_are_listed_once_and_in_order() {
    let mut f = Fixture::new();
    f.disk("sdb", "1");
    f.disk("sda", "1");
    f.mapper("dm-0", &["sdb", "sda"]);
    f.mapper("dm-1", &["sda", "sdb"]);
    f.mapper("md0", &["dm-0", "dm-1"]);
    let topology = f.resolve("md0");
    assert_eq!(topology.leaves, ["sda", "sdb"]);
    assert_eq!(topology.media, Some(MediaKind::Rotational));
}

#[test]
fn names_that_are_paths_resolve_to_nothing() {
    let mut f = Fixture::new();
    f.disk("sda", "0");
    for name in ["", ".", "..", "a/b", "/sda"] {
        assert_eq!(f.resolve(name), BlockTopology::default(), "{name}");
    }
    assert_eq!(f.resolve("sda").media, Some(MediaKind::NonRotational));
}

#[test]
fn a_disk_of_unknown_kind_has_no_media() {
    let mut f = Fixture::new();
    f.disk("sda", "2");
    assert_eq!(f.resolve("sda").leaves, ["sda"]);
    assert_eq!(f.resolve("sda").media, None);
    f.disk("sdb", " 1\n");
    assert_eq!(f.resolve("sdb").media, Some(MediaKind::Rotational));
}

#[test]
fn more_disks_than_the_limit_are_not_followed() {
    let mut f = Fixture::new();
    let names: Vec<String> = (0..257).map(|i| format!("sd{i}")).collect();
    for name in &names {
        f.disk(name, "1");
    }
    let all: Vec<&str> = names.iter().map(|n| n.as_str()).collect();
    f.mapper("dm-0", &all);
    assert_eq!(f.resolve("dm-0"), BlockTopology::default());
    f.mapper("dm-1", &all[..256]);
    assert_eq!(f.resolve("dm-1").leaves.len(), 256);
}

#[test]
fn kinds_have_a_label_and_a_latency_floor() {
    let floor = |kind: MediaKind| f64::from_bits(kind.latency_floor_ms().bits);
    assert_eq!(MediaKind::Rotational.label(), "rotational");
    assert_eq!(MediaKind::Nvme.label(), "NVMe");
    assert_eq!(MediaKind::NonRotational.label(), "non-rotational");
    assert_eq!(floor(MediaKind::Rotational), 20.0);
    assert_eq!(floor(MediaKind::Nvme), 2.0);
    assert_eq!(floor(MediaKind::NonRotational), 5.0);
}
