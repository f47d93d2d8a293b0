use nasty_top::schedule::{find_fs, Schedule};
use nasty_top::status::{
    bcachefs_mounts, discover, fs_space, parse_counter, parse_fs_usage, read_all_process_io,
    DirLink, FsDir, RawProcess, StatFs,
};
use nasty_top::sysfs::SECOND;

fn dir(uuid: &str, label: Option<&str>, links: Vec<DirLink>) -> FsDir {
    FsDir {
        uuid: uuid.to_string(),
        sysfs: format!("/sys/fs/bcachefs/{uuid}"),
        links,
        label: label.map(|s| s.to_string()),
    }
}

fn link(dir: &str, target: &str) -> DirLink {
    DirLink { dir: dir.to_string(), target: Some(target.to_string()) }
}

#[test]
fn a_filesystem_goes_by_its_label_its_mount_point_or_its_identifier() {
    let mounts = "/dev/sda /fs/pool bcachefs rw 0 0\n/dev/sdx /mnt ext4 rw 0 0\n";
    let found = discover(
        &vec![
            dir("one", Some("tank\n"), Vec::new()),
            dir("two", Some("(none)"), vec![link("dev-3", "../../block/sda")]),
            dir("three", None, vec![link("other", "../../block/sda"), link("dev-1", "../sdx")]),
        ],
        mounts,
    );
    let names: Vec<&str> = found.iter().map(|f| f.fs_name.as_str()).collect();
    assert_eq!(names, ["tank", "pool", "three"]);
    assert_eq!(found[0].mount_point, "");
    assert_eq!(found[1].mount_point, "/fs/pool");
    assert_eq!(found[2].mount_point, "");
    assert_eq!(find_fs(&found, "pool"), Some(1));
    assert_eq!(find_fs(&found, "one"), Some(0));
    assert_eq!(find_fs(&found, "missing"), None);
}

#[test]
fn the_first_mount_of_a_source_wins() {
    let mounts = bcachefs_mounts(
        "/dev/sda:/dev/sdb /first bcachefs rw 0 0\n/dev/sdb /second bcachefs rw 0 0\n/dev/sdc /x xfs rw 0 0\n",
    );
    assert_eq!(mounts.get("/dev/sdb").map(String::as_str), Some("/first"));
    assert_eq!(mounts.len(), 2);
}

#[test]
fn space_falls_back_to_the_tool_where_the_kernel_reports_none() {
    let usage = parse_fs_usage("WARNING: x\n  Size: 1000\nUsed: 400\nOnline reserved: 5\n");
    assert_eq!(usage, (1000, 400));
    let stat = StatFs { blocks: 10, available: 4, block_size: 100 };
    assert_eq!(fs_space(Some(stat), usage), (1000, 600));
    let empty = StatFs { blocks: 0, available: 0, block_size: 100 };
    assert_eq!(fs_space(Some(empty), usage), (1000, 400));
    assert_eq!(fs_space(None, (0, 0)), (0, 0));
    let odd = StatFs { blocks: 10, available: 40, block_size: 100 };
    assert_eq!(fs_space(Some(odd), usage), (1000, 0));
}

#[test]
fn counters_are_plain_or_since_mount() {
    assert_eq!(parse_counter(" 42\n"), 42);
    assert_eq!(parse_counter("since mount: 7\nsince filesystem creation: 900\n"), 7);
    assert_eq!(parse_counter("nothing\n"), 0);
}

#[test]
fn only_processes_with_readable_io_are_listed() {
    let raw = |dir: &str, io: Option<&str>| RawProcess {
        dir: dir.to_string(),
        io: io.map(|s| s.to_string()),
        comm: "name\n".to_string(),
    };
    let list = read_all_process_io(&vec![
        raw("12", Some("rchar: 1\nread_bytes: 7\nwrite_bytes: 9\n")),
        raw("13", None),
        raw("self", Some("read_bytes: 7\n")),
        raw("14", Some("")),
    ]);
    assert_eq!(list.len(), 2);
    assert_eq!((list[0].pid, list[0].read_bytes, list[0].write_bytes), (12, 7, 9));
    assert_eq!(list[0].name, "name");
    assert_eq!((list[1].pid, list[1].read_bytes), (14, 0));
}

#[test]
fn keys_do_not_put_a_sample_off() {
    let mut schedule = Schedule::new(10 * SECOND, 2 * SECOND);
    for tenth in 0..30 {
        schedule.key_handled(false, 10 * SECOND + tenth * SECOND / 10);
    }
    assert_eq!(schedule.next, 12 * SECOND);
    assert!(!schedule.is_due(12 * SECOND - 1));
    assert!(schedule.is_due(12 * SECOND));
    assert_eq!(schedule.timeout(11 * SECOND), SECOND);
    assert_eq!(schedule.timeout(13 * SECOND), 0);
    schedule.key_handled(true, 11 * SECOND);
    assert_eq!(schedule.next, 13 * SECOND);
    schedule.sampled(20 * SECOND);
    assert_eq!(schedule.next, 22 * SECOND);
}
