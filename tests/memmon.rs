use memmon::present::{limit_processes, pretty_print_bytes, tail_records, truncate_chars};
use memmon::protocol::{parse_log, ParseErrorKind, Parser};
use memmon::record::{sanitize, sorted_by_rss, ProcessInfo, Record};
use memmon::store::{parse_duration_secs, ConfigError, SnapshotStore};
use memmon::timestamp::Timestamp;

fn proc_info(name: &str, cmd: &str, pid: u32, rss: u64) -> ProcessInfo {
    ProcessInfo {
        name: name.to_string(),
        pid,
        cmd: cmd.to_string(),
        parent: 1,
        start_time: 1000,
        resident_memory: rss,
        virtual_memory: rss * 2,
    }
}

fn record_at(secs: i64, processes: Vec<ProcessInfo>) -> Record {
    Record { timestamp: Timestamp::from_unix(secs, 0).unwrap(), processes }
}

const TWO_RECORDS: &str = "[2024-01-01T00:00:00Z]\n\
alice,/bin/sleep 10,1,1000,42,4096,8192\n\
bob,/bin/top,1,1000,43,2048,4096\n\
\n\
[2024-01-01T00:01:00Z]\n\
alice,/bin/sleep 10,1,1000,42,5120,8192\n";

#[test]
fn process_line_before_timestamp_fails() {
    let err = parse_log("alice,/bin/sleep,1,100,42,2048,4096\n").unwrap_err();
    assert_eq!(err.kind, ParseErrorKind::ProtocolOrder);
    assert_eq!(err.line, "alice,/bin/sleep,1,100,42,2048,4096");
}

#[test]
fn short_process_line_fails() {
    let err = parse_log("[2024-01-01T00:00:00Z]\nalice,1,100,42,2048\n").unwrap_err();
    assert_eq!(err.kind, ParseErrorKind::MalformedRecord);
    let err = parse_log("[2024-01-01T00:00:00Z]\nalice,/bin/sleep,1,100,42,2048\n").unwrap_err();
    assert_eq!(err.kind, ParseErrorKind::MalformedRecord);
}

#[test]
fn non_numeric_field_fails() {
    let err = parse_log("[2024-01-01T00:00:00Z]\nalice,/bin/sleep,1,x,42,2048,4096\n").unwrap_err();
    assert_eq!(err.kind, ParseErrorKind::MalformedRecord);
    let err = parse_log("[2024-01-01T00:00:00Z]\nalice,/bin/sleep,-1,1,42,2048,4096\n").unwrap_err();
    assert_eq!(err.kind, ParseErrorKind::MalformedRecord);
    let err =
        parse_log("[2024-01-01T00:00:00Z]\nalice,/bin/sleep,4294967296,1,42,2048,4096\n").unwrap_err();
    assert_eq!(err.kind, ParseErrorKind::MalformedRecord);
}

#[test]
fn bad_timestamp_fails() {
    let err = parse_log("[yesterday]\n").unwrap_err();
    assert_eq!(err.kind, ParseErrorKind::BadTimestamp);
    assert_eq!(err.line, "[yesterday]");
}

#[test]
fn two_records_parse_and_reserialize_sorted() {
    let records = parse_log(TWO_RECORDS).unwrap();
    assert_eq!(records.len(), 2);
    assert_eq!(records[0].processes.len(), 2);
    assert_eq!(records[1].processes.len(), 1);
    assert_eq!(records[0].processes[0].name, "alice");
    assert_eq!(records[0].processes[0].cmd, "/bin/sleep 10");
    assert_eq!(records[0].processes[0].parent, 1);
    assert_eq!(records[0].processes[0].start_time, 1000);
    assert_eq!(records[0].processes[0].pid, 42);
    assert_eq!(records[0].processes[0].resident_memory, 4096);
    assert_eq!(records[0].processes[0].virtual_memory, 8192);
    assert_eq!(records[1].processes[0].resident_memory, 5120);
    assert_eq!(records[1].timestamp.secs() - records[0].timestamp.secs(), 60);
    assert_eq!(
        records[0].to_string(),
        "[2024-01-01T00:00:00Z]\nbob,/bin/top,1,1000,43,2048,4096\nalice,/bin/sleep 10,1,1000,42,4096,8192\n"
    );
}

#[test]
fn blank_lines_and_crlf_are_accepted() {
    let text = "\n  \n[2024-01-01T00:00:00Z]\r\n\r\nbob,/bin/top,1,1000,43,2048,4096\r\n\n\n";
    let records = parse_log(text).unwrap();
    assert_eq!(records.len(), 1);
    assert_eq!(records[0].processes.len(), 1);
    assert_eq!(records[0].processes[0].virtual_memory, 4096);
    assert_eq!(parse_log("").unwrap().len(), 0);
}

#[test]
fn last_record_is_kept_without_trailing_newline() {
    let records = parse_log("[2024-01-01T00:00:00Z]\nbob,/bin/top,1,1000,43,2048,4096").unwrap();
    assert_eq!(records.len(), 1);
    assert_eq!(records[0].processes.len(), 1);
}

#[test]
fn parser_runs_line_by_line() {
    let mut parser = Parser::new();
    assert!(parser.process_line("[1970-01-01T00:00:10Z]").is_ok());
    assert!(parser.process_line("").is_ok());
    assert!(parser.process_line("a,b,0,0,1,2,3").is_ok());
    let records = parser.records();
    assert_eq!(records.len(), 1);
    assert_eq!(records[0].timestamp.secs(), 10);
    assert_eq!(records[0].processes[0].virtual_memory, 3);
}

#[test]
fn store_round_trip_through_text() {
    let mut store = SnapshotStore::new(4).unwrap();
    store.insert_record(record_at(
        1_700_000_000,
        vec![proc_info("big", "/usr/bin/big --x", 7, 9000), proc_info("small", "sh", 8, 10)],
    ));
    store.insert_record(record_at(1_700_000_060, vec![proc_info("only", "", 9, 0)]));
    let text = store.to_string();
    let parsed = parse_log(&text).unwrap();
    assert_eq!(parsed.len(), 2);
    assert_eq!(parsed[0].timestamp, store.get(0).timestamp);
    assert_eq!(parsed[1].timestamp, store.get(1).timestamp);
    assert_eq!(parsed[0].processes[0].name, "small");
    assert_eq!(parsed[0].processes[1].name, "big");
    assert_eq!(parsed[0].processes[1].cmd, "/usr/bin/big --x");
    assert_eq!(parsed[0].processes[1].virtual_memory, 18000);
    assert_eq!(parsed[1].processes[0].cmd, "");
    assert_eq!(parsed[1].processes[0].resident_memory, 0);
}

#[test]
fn store_text_layout() {
    let mut store = SnapshotStore::new(2).unwrap();
    store.insert_record(record_at(0, vec![proc_info("a", "x", 1, 5)]));
    assert_eq!(store.to_string(), "[1970-01-01T00:00:00Z]\na,x,1,1000,1,5,10\n\n");
}

#[test]
fn store_evicts_oldest_first() {
    let mut store = SnapshotStore::new(2).unwrap();
    for secs in 0..5i64 {
        store.insert_record(record_at(secs, vec![]));
        assert!(store.len() <= 2);
    }
    assert_eq!(store.len(), 2);
    assert_eq!(store.capacity(), 2);
    assert_eq!(store.get(0).timestamp.secs(), 3);
    assert_eq!(store.get(1).timestamp.secs(), 4);
}

#[test]
fn store_below_capacity_keeps_everything() {
    let mut store = SnapshotStore::new(3).unwrap();
    store.insert_record(record_at(1, vec![]));
    store.insert_record(record_at(2, vec![]));
    assert_eq!(store.len(), 2);
    assert_eq!(store.get(0).timestamp.secs(), 1);
}

#[test]
fn store_configuration_errors() {
    assert_eq!(SnapshotStore::new(0).unwrap_err(), ConfigError::ZeroCapacity);
    assert_eq!(
        SnapshotStore::from_durations(60, 60).unwrap_err(),
        ConfigError::PeriodNotShorterThanHistory
    );
    assert_eq!(
        SnapshotStore::from_durations(7200, 60).unwrap_err(),
        ConfigError::PeriodNotShorterThanHistory
    );
    assert_eq!(
        SnapshotStore::from_durations(0, 60).unwrap_err(),
        ConfigError::PeriodNotShorterThanHistory
    );
    assert_eq!(SnapshotStore::from_durations(60, 7200).unwrap().capacity(), 120);
    assert_eq!(SnapshotStore::from_durations(60, 119).unwrap().capacity(), 1);
}

#[test]
fn duration_settings() {
    assert_eq!(parse_duration_secs("60s"), Ok(60));
    assert_eq!(parse_duration_secs("2h"), Ok(7200));
    assert_eq!(parse_duration_secs("not a duration"), Err(ConfigError::InvalidDuration));
}

#[test]
fn pretty_bytes_values() {
    assert_eq!(pretty_print_bytes(0), "0.00 B");
    assert_eq!(pretty_print_bytes(999), "999.00 B");
    assert_eq!(pretty_print_bytes(1000), "1.00 kB");
    assert_eq!(pretty_print_bytes(1024), "1.02 kB");
    assert_eq!(pretty_print_bytes(1500), "1.50 kB");
    assert_eq!(pretty_print_bytes(2_500_000), "2.50 MB");
    assert_eq!(pretty_print_bytes(u64::MAX), "18.45 EB");
}

#[test]
fn tail_keeps_most_recent() {
    let records = vec![record_at(1, vec![]), record_at(2, vec![]), record_at(3, vec![])];
    let last = tail_records(records, 1);
    assert_eq!(last.len(), 1);
    assert_eq!(last[0].timestamp.secs(), 3);
    let records = vec![record_at(1, vec![]), record_at(2, vec![]), record_at(3, vec![])];
    let two = tail_records(records, 2);
    assert_eq!(two[0].timestamp.secs(), 2);
    assert_eq!(two[1].timestamp.secs(), 3);
    let records = vec![record_at(1, vec![])];
    assert_eq!(tail_records(records, 5).len(), 1);
}

#[test]
fn limit_keeps_largest_in_order() {
    let ps = vec![proc_info("a", "", 1, 1), proc_info("b", "", 2, 2), proc_info("c", "", 3, 3)];
    let top = limit_processes(ps, 2);
    assert_eq!(top.len(), 2);
    assert_eq!(top[0].name, "b");
    assert_eq!(top[1].name, "c");
}

#[test]
fn truncate_counts_characters() {
    assert_eq!(truncate_chars("/usr/bin/python3", 8), "/usr/bin");
    assert_eq!(truncate_chars("héllo", 2), "hé");
    assert_eq!(truncate_chars("ab", 80), "ab");
}

#[test]
fn sort_is_stable_and_ascending() {
    let ps = vec![
        proc_info("a", "", 1, 30),
        proc_info("b", "", 2, 10),
        proc_info("c", "", 3, 30),
        proc_info("d", "", 4, 20),
    ];
    let sorted = sorted_by_rss(&ps);
    let names: Vec<&str> = sorted.iter().map(|p| p.name.as_str()).collect();
    assert_eq!(names, vec!["b", "d", "a", "c"]);
}

#[test]
fn snapshot_from_os_values_is_sanitized() {
    let words = vec!["/bin/echo".to_string(), "a,b".to_string(), "c\nd".to_string()];
    let p = ProcessInfo::from_parts("we,ird\n", &words, 5, None, 77, 100, 200);
    assert_eq!(p.cmd, "/bin/echo a_b cd");
    assert_eq!(p.name, "we_ird");
    assert_eq!(p.parent, 0);
    assert_eq!(p.pid, 5);
    let p = ProcessInfo::from_parts("init", &vec![], 1, Some(9), 0, 0, 0);
    assert_eq!(p.parent, 9);
    assert_eq!(p.cmd, "");
    assert_eq!(sanitize("x,y,z"), "x_y_z");
    assert_eq!(p.to_string(), "init,,9,0,1,0,0");
}

#[test]
fn timestamps_through_chrono() {
    let t = Timestamp::from_unix(0, 0).unwrap();
    assert_eq!(t.to_rfc3339(), "1970-01-01T00:00:00Z");
    let t = Timestamp::parse("2024-01-01T00:01:00Z").unwrap();
    assert_eq!(t.secs(), 1_704_067_260);
    assert_eq!(t.nanos(), 0);
    let t = Timestamp::parse("2024-01-01 00:00:00.5 UTC").unwrap();
    assert_eq!(t.nanos(), 500_000_000);
    assert_eq!(t.to_rfc3339(), "2024-01-01T00:00:00.500Z");
    assert!(Timestamp::parse("nope").is_none());
    assert!(Timestamp::from_unix(i64::MAX, 0).is_none());
}
