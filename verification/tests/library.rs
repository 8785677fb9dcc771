use porter::privilege::is_superuser_id;
use porter::snapshot::Watcher;
use porter::{diff, format_uptime, kill_args, sanitize, scan, PortChange, PortInfo, ScanError};

fn info(port: u16, pid: u32, process: &str, uptime_secs: u64) -> PortInfo {
    PortInfo { port, pid, process: process.to_string(), uptime_secs }
}

#[test]
fn format_uptime_seconds() {
    assert_eq!(format_uptime(0), "0s");
    assert_eq!(format_uptime(59), "59s");
}

#[test]
fn format_uptime_minutes() {
    assert_eq!(format_uptime(60), "1m");
    assert_eq!(format_uptime(240), "4m");
    assert_eq!(format_uptime(3599), "59m");
}

#[test]
fn format_uptime_hours() {
    assert_eq!(format_uptime(3600), "1h");
    assert_eq!(format_uptime(86399), "23h");
}

#[test]
fn format_uptime_days() {
    assert_eq!(format_uptime(86400), "1d");
    assert_eq!(format_uptime(35 * 86400 + 5), "35d");
    assert_eq!(format_uptime(u64::MAX), "213503982334601d");
}

#[test]
fn sanitize_keeps_printable_text() {
    assert_eq!(sanitize("node server.js"), "node server.js");
    assert_eq!(sanitize(""), "");
    assert_eq!(sanitize("~!{}"), "~!{}");
}

#[test]
fn sanitize_replaces_escapes_and_non_ascii() {
    assert_eq!(sanitize("\x1b[31mred"), "?[31mred");
    assert_eq!(sanitize("tab\there\n"), "tab?here?");
    assert_eq!(sanitize("caf\u{e9}"), "caf?");
    assert_eq!(sanitize("\u{7f}"), "?");
}

#[test]
fn sanitize_is_idempotent() {
    let once = sanitize("a\u{1b}b\u{2603}c");
    assert_eq!(once, "a?b?c");
    assert_eq!(sanitize(&once), once);
}

#[test]
fn port_info_line() {
    let p = info(3000, 142, "node", 240);
    assert_eq!(p.to_string(), ":3000 node (pid 142, up 4m)");
}

#[test]
fn port_change_lines() {
    let p = info(8080, 198, "python3", 7200);
    assert_eq!(PortChange::Opened(p.clone()).to_string(), "+ :8080 python3 (pid 198, up 2h)");
    assert_eq!(PortChange::Closed(p).to_string(), "- :8080 python3 (pid 198, up 2h)");
}

#[test]
fn scan_error_line() {
    let e = ScanError::Unavailable("lsof: not found".to_string());
    assert_eq!(e.to_string(), "scan failed: lsof: not found");
}

#[test]
fn kill_args_refuses_reserved_pids() {
    assert_eq!(kill_args(0, false), None);
    assert_eq!(kill_args(1, true), None);
    assert_eq!(kill_args(i32::MAX as u32 + 1, false), None);
    assert_eq!(kill_args(u32::MAX, false), None);
}

#[test]
fn kill_args_signals() {
    assert_eq!(kill_args(2, false), Some(vec!["-15".to_string(), "2".to_string()]));
    assert_eq!(kill_args(142, true), Some(vec!["-9".to_string(), "142".to_string()]));
    assert_eq!(
        kill_args(i32::MAX as u32, false),
        Some(vec!["-15".to_string(), "2147483647".to_string()])
    );
}

#[test]
fn scan_dedups_first_entry_and_sorts() {
    let raw = vec![
        info(8080, 1, "a", 0),
        info(22, 2, "sshd", 5),
        info(8080, 3, "b", 0),
        info(443, 4, "nginx", 9),
        info(22, 5, "sshd6", 5),
    ];
    let merged = scan(&raw);
    assert_eq!(merged, vec![info(22, 2, "sshd", 5), info(443, 4, "nginx", 9), info(8080, 1, "a", 0)]);
}

#[test]
fn scan_of_nothing_is_empty() {
    assert_eq!(scan(&[]), Vec::<PortInfo>::new());
}

#[test]
fn scan_is_idempotent() {
    let raw = vec![info(9, 1, "x", 0), info(3, 2, "y", 0), info(9, 3, "z", 0)];
    let once = scan(&raw);
    assert_eq!(scan(&once), once);
}

#[test]
fn diff_reports_opened_then_closed() {
    let before = vec![info(3000, 142, "node", 10), info(8080, 198, "python3", 20)];
    let after = vec![info(3000, 142, "node", 12), info(9090, 304, "java", 1)];
    let changes = diff(&before, &after);
    assert_eq!(
        changes,
        vec![
            PortChange::Opened(info(9090, 304, "java", 1)),
            PortChange::Closed(info(8080, 198, "python3", 20)),
        ]
    );
}

#[test]
fn diff_of_same_snapshot_is_empty() {
    let a = vec![info(1, 1, "a", 0), info(2, 2, "b", 0), info(1, 3, "c", 0)];
    assert!(diff(&a, &a).is_empty());
    assert!(diff(&[], &[]).is_empty());
}

#[test]
fn diff_keeps_last_record_per_port() {
    let after = vec![info(5, 1, "first", 0), info(6, 2, "other", 0), info(5, 3, "last", 0)];
    let changes = diff(&[], &after);
    assert_eq!(
        changes,
        vec![PortChange::Opened(info(6, 2, "other", 0)), PortChange::Opened(info(5, 3, "last", 0))]
    );
}

#[test]
fn diff_swapped_swaps_roles() {
    let a = vec![info(1, 1, "a", 0), info(2, 2, "b", 0)];
    let b = vec![info(2, 2, "b", 0), info(3, 3, "c", 0)];
    assert_eq!(
        diff(&a, &b),
        vec![PortChange::Opened(info(3, 3, "c", 0)), PortChange::Closed(info(1, 1, "a", 0))]
    );
    assert_eq!(
        diff(&b, &a),
        vec![PortChange::Opened(info(1, 1, "a", 0)), PortChange::Closed(info(3, 3, "c", 0))]
    );
}

#[test]
fn watcher_reports_each_change_once() {
    let mut w = Watcher::new(vec![info(3000, 142, "node", 0)]);
    let changes = w.observe(vec![info(3000, 142, "node", 1), info(5432, 201, "postgres", 0)]);
    assert_eq!(changes, vec![PortChange::Opened(info(5432, 201, "postgres", 0))]);
    assert_eq!(w.last_seen().len(), 2);
    let again = w.observe(vec![info(3000, 142, "node", 2), info(5432, 201, "postgres", 1)]);
    assert!(again.is_empty());
    let gone = w.observe(vec![info(5432, 201, "postgres", 2)]);
    assert_eq!(gone, vec![PortChange::Closed(info(3000, 142, "node", 2))]);
}

#[test]
fn superuser_id_output() {
    assert!(is_superuser_id("0\n"));
    assert!(is_superuser_id("  0 "));
    assert!(!is_superuser_id("1000\n"));
    assert!(!is_superuser_id("00"));
    assert!(!is_superuser_id(""));
}

#[test]
fn watcher_reports_consecutive_comparisons() {
    let s0 = vec![info(1, 1, "a", 0)];
    let s1 = vec![info(1, 1, "a", 0), info(2, 2, "b", 0)];
    let s2 = vec![info(2, 2, "b", 0)];
    let mut w = Watcher::new(s0.clone());
    let mut all = Vec::new();
    all.extend(w.observe(s1.clone()));
    all.extend(w.observe(s2.clone()));
    let mut expected = diff(&s0, &s1);
    expected.extend(diff(&s1, &s2));
    assert_eq!(all, expected);
}

#[test]
fn scan_ignores_order_of_distinct_ports() {
    let a = vec![info(80, 1, "h", 0), info(22, 2, "s", 0), info(443, 3, "t", 0)];
    let b = vec![info(443, 3, "t", 0), info(80, 1, "h", 0), info(22, 2, "s", 0)];
    assert_eq!(scan(&a), scan(&b));
    assert_eq!(scan(&a), vec![info(22, 2, "s", 0), info(80, 1, "h", 0), info(443, 3, "t", 0)]);
}

#[test]
fn format_uptime_never_shrinks() {
    fn key(t: u64) -> (usize, u64) {
        let s = format_uptime(t);
        let unit = s.chars().last().unwrap();
        let rank = "smhd".find(unit).unwrap();
        (rank, s[..s.len() - 1].parse().unwrap())
    }
    let samples = [0u64, 1, 59, 60, 61, 119, 120, 3599, 3600, 7199, 86399, 86400, 90000, u64::MAX];
    for w in samples.windows(2) {
        assert!(key(w[0]) <= key(w[1]));
    }
}
