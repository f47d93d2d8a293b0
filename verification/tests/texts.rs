use nasty_top::json::get_numbers;
use nasty_top::member::{
    choose_latency, latency_ns, parse_data_allowed, parse_state, read_devices, sum_values,
    RawDevice,
};
use nasty_top::natural::{natural_key, precedes_key};
use nasty_top::order::{precedes_text, sort, ByText};
use nasty_top::parse::{parse_cpu_iowait, parse_human_bytes, parse_io_errors, set_error_count};
use nasty_top::stats::{
    choose_count, parse_recent_mean_us, read_all_time_stats, read_blocked_stats, read_opt_json,
    time_stat_count, to_microseconds,
};
use nasty_top::strmap::StrMap;
use nasty_top::text::{
    contains, join, lines, parse_u32, parse_u64, quote_all, split, split_once, trim, u64_text,
    words, words_with, Sep,
};
use nasty_top::double::Double;

fn float(x: Double) -> f64 {
    f64::from_bits(x.bits)
}

fn files(entries: &[(&str, &str)]) -> StrMap<String> {
    let mut map = StrMap::new();
    for (name, content) in entries {
        map.insert(name, content.to_string());
    }
    map
}

fn some(s: &str) -> Option<String> {
    Some(s.to_string())
}

#[test]
fn texts_split_as_the_standard_library_splits_them() {
    for text in ["", " ", "a", " a  b\tc ", "a\nb\r\nc", "\n", "a\n", "a\r", "a\n\nb\n", "\u{a0}x\u{2003}"] {
        assert_eq!(trim(text), text.trim());
        assert_eq!(words(text), text.split_whitespace().collect::<Vec<_>>());
        assert_eq!(lines(text), text.lines().collect::<Vec<_>>());
        assert_eq!(split(text, Sep::Is('\n')), text.split('\n').collect::<Vec<_>>());
    }
    assert_eq!(words_with("a, b,,c", Sep::WhiteOrComma), ["a", "b", "c"]);
    assert_eq!(split_once("a:b:c", ':'), Some(("a".to_string(), "b:c".to_string())));
    assert_eq!(split_once("abc", ':'), None);
    assert!(contains("abcabd", "abd"));
    assert!(!contains("abcab", "abd"));
    assert_eq!(join(&vec!["a".to_string(), "b".to_string()], ", "), "a, b");
}

#[test]
fn numbers_parse_as_the_standard_library_parses_them() {
    for text in [
        "0", "7", "+7", "-7", "", "+", "00012", "18446744073709551615", "18446744073709551616",
        "4294967295", "4294967296", "1 ", "1x", "٣",
    ] {
        assert_eq!(parse_u64(text), text.parse::<u64>().ok(), "{text}");
        assert_eq!(parse_u32(text), text.parse::<u32>().ok(), "{text}");
    }
    assert_eq!(u64_text(u64::MAX), u64::MAX.to_string());
    assert_eq!(u64_text(0), "0");
}

#[test]
fn texts_are_quoted_as_debug_output_is() {
    let list = vec!["plain".to_string(), "a\"b\\c\n".to_string(), String::new()];
    let quoted: Vec<String> = list.iter().map(|s| format!("{s:?}")).collect();
    assert_eq!(quote_all(&list), quoted);
}

#[test]
fn texts_are_ordered_strictly_and_totally() {
    let list = ["", "a", "ab", "b", "ä", "B"];
    for a in list {
        for b in list {
            assert_eq!(precedes_text(a, b), a < b, "{a} {b}");
        }
    }
    let names: Vec<String> = ["b", "a", "c", "a"].iter().map(|s| s.to_string()).collect();
    assert_eq!(sort::<String, ByText>(names), ["a", "a", "b", "c"]);
}

#[test]
fn device_names_are_ordered_naturally() {
    let names = ["nvme0n1", "nvme2n1", "nvme10n1", "sda", "sda2", "sda10", "sdz", "sdaa", "sdab"];
    let mut sorted = names;
    sorted.sort_by(|a, b| {
        if precedes_key(&natural_key(a), &natural_key(b)) {
            std::cmp::Ordering::Less
        } else {
            std::cmp::Ordering::Greater
        }
    });
    let place = |n: &str| sorted.iter().position(|s| *s == n).unwrap();
    assert!(place("sda") < place("sdz"));
    assert!(place("sdz") < place("sdaa"));
    assert!(place("sda2") < place("sda10"));
    assert!(place("nvme2n1") < place("nvme10n1"));
    assert!(!precedes_key(&natural_key("sda"), &natural_key("sda")));
}

#[test]
fn labelled_groups_stay_together_and_names_rise_within_them() {
    let raw = |dir: &str, name: &str, label: &str| RawDevice {
        dir: dir.to_string(),
        files: files(&[("dev", name), ("label", label)]),
        block_link: None,
        online: Some(true),
        partition: false,
    };
    let raws = vec![
        raw("dev-0", "sdaa", "ssd"),
        raw("dev-1", "sdb", "hdd"),
        raw("dev-2", "sdz", "ssd"),
        raw("dev-3", "sda", "hdd"),
        raw("dev-4", "sdq", ""),
        raw("options", "ignored", ""),
    ];
    let devices = read_devices(&raws, "", &StrMap::new());
    let names: Vec<&str> = devices.iter().map(|d| d.name.as_str()).collect();
    assert_eq!(names, ["sdq", "sda", "sdb", "sdz", "sdaa"]);
    assert_eq!(devices[4].index, 0);
    assert_eq!(devices[0].label, None);
}

#[test]
fn a_device_is_named_by_its_file_then_its_link_then_its_directory() {
    let raw = |dir: &str, dev: &str, link: Option<&str>| RawDevice {
        dir: dir.to_string(),
        files: files(&[("dev", dev)]),
        block_link: link.map(|s| s.to_string()),
        online: None,
        partition: true,
    };
    let raws = vec![
        raw("dev-1", "sda\n", Some("../x/sdb")),
        raw("dev-2", "", Some("../x/sdb/")),
        raw("dev-x", "", None),
    ];
    let row = "8 0 sda 100 0 0 400 50 0 0 600 3 700 900 7 0 0 1 8 2";
    let devices = read_devices(&raws, row, &StrMap::new());
    let names: Vec<&str> = devices.iter().map(|d| d.name.as_str()).collect();
    assert_eq!(names, ["sda", "sdb", "dev-0"]); // shorter runs of letters come first
    assert_eq!(devices[0].diskstats_discards, Some(7));
    assert_eq!(devices[0].diskstats_flushes, None); // not tracked for partitions
    assert!(devices[0].diskstats_valid);
    assert!(!devices[1].diskstats_valid);
}

#[test]
fn categories_of_errors_are_read_whatever_their_case() {
    let counts = parse_io_errors("READ: 5\nWrite: 2\nCsum: 3\n").unwrap();
    assert_eq!(counts.get("read"), Some(&5));
    assert_eq!(counts.get("write"), Some(&2));
    assert_eq!(counts.get("checksum"), Some(&3));
}

#[test]
fn a_lowered_name_sets_its_counter() {
    let mut counts: StrMap<u64> = StrMap::new();
    set_error_count(&mut counts, "csum", 3);
    set_error_count(&mut counts, "read", 5);
    set_error_count(&mut counts, "read", 6);
    assert_eq!(counts.len(), 2);
    assert_eq!(counts.get("checksum"), Some(&3));
    assert_eq!(counts.get("read"), Some(&6));
}

#[test]
fn the_member_state_is_the_marked_word() {
    assert_eq!(parse_state(&some("[rw] ro failed spare")).as_deref(), Some("rw"));
    assert_eq!(parse_state(&some("rw ro [failed] spare")).as_deref(), Some("failed"));
    assert_eq!(parse_state(&some("ro")).as_deref(), Some("ro"));
    assert_eq!(parse_state(&some("rw ro failed spare")), None);
    assert_eq!(parse_state(&some("[evacuating]")), None);
    assert_eq!(parse_state(&None), None);
}

#[test]
fn allowed_data_is_unknown_where_a_type_is() {
    assert_eq!(
        parse_data_allowed(&some("journal,btree user")),
        Some(vec!["journal".to_string(), "btree".to_string(), "user".to_string()])
    );
    assert_eq!(parse_data_allowed(&some("none")), Some(Vec::new()));
    assert_eq!(parse_data_allowed(&some("(none)")), Some(Vec::new()));
    assert_eq!(parse_data_allowed(&some("journal,parity")), None);
    assert_eq!(parse_data_allowed(&None), None);
}

#[test]
fn sizes_are_read_in_binary_units() {
    assert_eq!(parse_human_bytes("1G"), Some(1 << 30));
    assert_eq!(parse_human_bytes("1T"), Some(1 << 40));
    assert_eq!(parse_human_bytes("0"), Some(0));
    assert_eq!(parse_human_bytes(""), None);
    assert_eq!(parse_human_bytes("-1k"), None);
    assert_eq!(parse_human_bytes("NaN"), None);
}

#[test]
fn latency_prefers_the_recent_mean() {
    let json = some("{\"duration_ewma_ns\": {\"mean\": 1234}, \"count\": 7}");
    assert_eq!(latency_ns(&json, &some("99\n")), 1234);
    assert_eq!(latency_ns(&some("not json"), &some(" 99\n")), 99);
    assert_eq!(latency_ns(&some("{\"duration_ewma_ns\": {\"mean\": -1}}"), &some("99")), 99);
    assert_eq!(latency_ns(&None, &some("x")), 0);
    assert_eq!(latency_ns(&None, &None), 0);
    assert_eq!(choose_latency(&read_opt_json(&json), &None), 1234);
}

#[test]
fn io_done_is_split_by_category() {
    let json = some("{\"read\": {\"sb\": 1, \"user\": 20, \"x\": \"no\"}, \"write\": 3}");
    let members = read_opt_json(&json).unwrap();
    let read = get_numbers(&members, "read");
    assert_eq!(read.get("user"), Some(&20));
    assert_eq!(read.get("sb"), Some(&1));
    assert_eq!(read.len(), 2);
    assert_eq!(sum_values(&read), 21);
    assert_eq!(get_numbers(&members, "write").len(), 0);
    assert_eq!(get_numbers(&members, "absent").len(), 0);
}

#[test]
fn counts_come_from_json_and_else_from_text() {
    assert_eq!(time_stat_count(&some("{\"count\": 5}"), "count: 9\n"), 5);
    assert_eq!(time_stat_count(&some("{\"count\": \"5\"}"), "count: 9\n"), 9);
    assert_eq!(time_stat_count(&some("[1, 2]"), "x\n  count: 9\n"), 9);
    assert_eq!(time_stat_count(&None, "nothing"), 0);
    assert_eq!(choose_count(&None, "count: 3"), 3);
}

#[test]
fn recent_means_are_the_last_value_of_the_duration() {
    let text = "count: 3\nduration of events\n  min: 1 us\n  mean:    12 ms    762 us\ntime between events\n  mean: 1 s 2 s\n";
    assert_eq!(float(parse_recent_mean_us(text)), 762.0);
    assert_eq!(float(parse_recent_mean_us("mean: 1 ms 2 ms")), 0.0);
    assert_eq!(float(parse_recent_mean_us("duration of events\ntime between events\nmean: 1 ms 2 ms")), 0.0);
    for (unit, factor) in [("ns", 0.001), ("us", 1.0), ("ms", 1_000.0), ("s", 1_000_000.0)] {
        let x = Double { bits: 2.0f64.to_bits() };
        assert_eq!(float(to_microseconds(x, unit)), 2.0 * factor, "{unit}");
    }
}

#[test]
fn time_stats_are_listed_by_name_with_text_where_json_lacks_them() {
    let json = files(&[
        ("zeta", "{\"count\": 1, \"duration_ns\": {\"max\": 9, \"mean\": 4}, \"duration_ewma_ns\": {\"mean\": 5}}"),
        ("broken", "{"),
        ("alpha", "{\"count\": 2}"),
    ]);
    let texts = files(&[("journal_flush_write", "count: 4\n"), ("other", "count: 4\n")]);
    let stats = read_all_time_stats(&json, &texts);
    let names: Vec<&str> = stats.iter().map(|s| s.name.as_str()).collect();
    assert_eq!(names, ["alpha", "journal_flush_write", "zeta"]);
    assert_eq!((stats[2].dur_max_ns, stats[2].dur_mean_ns, stats[2].dur_recent_ns), (9, 4, 5));
    assert!(stats[2].recent_valid);
    assert!(!stats[0].recent_valid);
}

#[test]
fn blocked_operations_come_with_the_most_frequent_first() {
    let texts = files(&[
        ("blocked_allocate", "count: 2\n"),
        ("blocked_b", "count: 0\n"),
        ("blocked_a", "count: 0\n"),
        ("blocked_journal", "count: 7\nduration of events\nmean: 1 ms 3 ms\n"),
        ("blocked_unknown", "no count\n"),
        ("data_read", "count: 9\n"),
    ]);
    let blocked = read_blocked_stats(&texts);
    let names: Vec<&str> = blocked.iter().map(|b| b.0.as_str()).collect();
    assert_eq!(names, ["journal", "allocate", "a", "b"]);
    assert_eq!(float(blocked[0].2), 3_000.0);
}

#[test]
fn iowait_needs_five_numbers() {
    assert_eq!(parse_cpu_iowait("cpu  1 2 3 4 5 6\ncpu0 9 9 9 9 9\n"), (5, 21));
    assert_eq!(parse_cpu_iowait("cpu  1 2 3 4\n"), (0, 0));
    assert_eq!(parse_cpu_iowait("intr 1\n"), (0, 0));
}
