use std::collections::HashMap;

use porter::darwin::{
    attach_uptimes, lsof_is_readable, lsof_listeners, parse_etime, pid_args, ps_is_readable,
    ps_uptimes,
};
use porter::linux::{
    boot_time, cmdline_process_name, comm_process_name, listening_sockets, port_entry,
    process_name, process_uptime, socket_inode, table_listeners, uptime_is_readable,
};
use porter::number::{decimal_string, parse_u16, parse_u32};
use porter::{PortInfo, ScanError};

const TCP4: &str = "  sl  local_address rem_address   st tx_queue rx_queue tr tm->when retrnsmt   uid  timeout inode\n   0: 0100007F:0BB8 00000000:0000 0A 00000000:00000000 00:00000000 00000000  1000        0 12345 1 0000000000000000 100 0 0 10 0\n   1: 0100007F:1F90 0100007F:C350 01 00000000:00000000 00:00000000 00000000  1000        0 23456 1 0000000000000000 20 4 30 10 -1\n   2: 00000000:1538 00000000:0000 0A 00000000:00000000 00:00000000 00000000   999        0 34567 1 0000000000000000 100 0 0 10 0\n";

const TCP6: &str = "  sl  local_address                         remote_address                        st tx_queue rx_queue tr tm->when retrnsmt   uid  timeout inode\n   0: 00000000000000000000000000000000:1F90 00000000000000000000000000000000:0000 0A 00000000:00000000 00:00000000 00000000  1000        0 45678 1 0000000000000000 100 0 0 10 0\n";

#[test]
fn tcp_table_listening_rows() {
    assert_eq!(table_listeners(TCP4), vec![(3000, 12345), (5432, 34567)]);
    assert_eq!(table_listeners(TCP6), vec![(8080, 45678)]);
}

#[test]
fn tcp_table_skips_header_and_malformed_rows() {
    assert_eq!(table_listeners(""), vec![]);
    let header_only = "  sl  local_address rem_address   st\n";
    assert_eq!(table_listeners(header_only), vec![]);
    let short = "header\n 0: 0100007F:0BB8 00000000:0000 0A 1 2 3 4 5\n";
    assert_eq!(table_listeners(short), vec![]);
    let lowercase_state = "header\n 0: 0100007F:0BB8 00000000:0000 0a 1 2 3 4 5 77\n";
    assert_eq!(table_listeners(lowercase_state), vec![]);
    let no_colon = "header\n 0: 0100007F 00000000:0000 0A 1 2 3 4 5 77\n";
    assert_eq!(table_listeners(no_colon), vec![]);
    let big_port = "header\n 0: 0100007F:10000 00000000:0000 0A 1 2 3 4 5 77\n";
    assert_eq!(table_listeners(big_port), vec![]);
    let bad_inode = "header\n 0: 0100007F:0050 00000000:0000 0A 1 2 3 4 5 x7\n";
    assert_eq!(table_listeners(bad_inode), vec![]);
    let crlf = "header\r\n 0: 0100007F:0050 00000000:0000 0A 1 2 3 4 5 77\r\n";
    assert_eq!(table_listeners(crlf), vec![(80, 77)]);
}

#[test]
fn listening_sockets_needs_one_table() {
    match listening_sockets(None, None) {
        Err(ScanError::Unavailable(m)) => assert_eq!(m, "/proc/net/tcp not readable"),
        Ok(_) => panic!("expected an error"),
    }
    assert_eq!(listening_sockets(None, Some(TCP6)).unwrap(), vec![(8080, 45678)]);
    assert_eq!(
        listening_sockets(Some(TCP4), Some(TCP6)).unwrap(),
        vec![(3000, 12345), (5432, 34567), (8080, 45678)]
    );
}

#[test]
fn port_entry_with_and_without_owner() {
    assert_eq!(
        port_entry(3000, Some((142, "node".to_string(), 77))),
        PortInfo { port: 3000, pid: 142, process: "node".to_string(), uptime_secs: 77 }
    );
    assert_eq!(
        port_entry(22, None),
        PortInfo { port: 22, pid: 0, process: "unknown".to_string(), uptime_secs: 0 }
    );
}

#[test]
fn socket_link_inodes() {
    assert_eq!(socket_inode("socket:[12345]"), Some(12345));
    assert_eq!(socket_inode("socket:[+7]"), Some(7));
    assert_eq!(socket_inode("socket:[]"), None);
    assert_eq!(socket_inode("pipe:[12345]"), None);
    assert_eq!(socket_inode("socket:[12345"), None);
    assert_eq!(socket_inode("/dev/null"), None);
    assert_eq!(socket_inode("socket:[18446744073709551616]"), None);
}

#[test]
fn boot_time_from_stat() {
    assert_eq!(boot_time("cpu  1 2 3\nbtime 1700000000\nprocesses 5\n"), 1700000000);
    assert_eq!(boot_time("cpu  1 2 3\n"), 0);
    assert_eq!(boot_time("btime x\nbtime 5\n"), 0);
    assert_eq!(boot_time("btimes 4\nbtime 6"), 6);
}

const PSTAT: &str = "142 (my (app)) S 1 2 3 4 5 6 7 8 9 10 11 12 13 14 15 16 17 18 12345 99 100\n";

#[test]
fn process_uptime_from_stat() {
    assert!(uptime_is_readable(PSTAT, 1000));
    assert_eq!(process_uptime(PSTAT, 1000, 2000), 877);
    assert_eq!(process_uptime(PSTAT, 1000, 1100), 0);
    assert_eq!(process_uptime(PSTAT, 0, 2000), 0);
    assert_eq!(process_uptime("no paren here", 1000, 2000), 0);
    assert_eq!(process_uptime("1 (x) S 1 2", 1000, 2000), 1000);
}

#[test]
fn process_uptime_unreadable_stat() {
    assert!(!uptime_is_readable("1 (x)", 1000));
    assert!(!uptime_is_readable("1 (x)\u{e9}", 1000));
    assert!(uptime_is_readable("1 (x)", 0));
    let late = "1 (x) S 1 2 3 4 5 6 7 8 9 10 11 12 13 14 15 16 17 18 100";
    assert!(!uptime_is_readable(late, u64::MAX));
}

#[test]
fn process_names() {
    assert_eq!(cmdline_process_name(b"/usr/bin/node\0server.js\0"), "node");
    assert_eq!(cmdline_process_name(b"python3\0-m\0http.server\0"), "python3");
    assert_eq!(cmdline_process_name(b""), "");
    assert_eq!(cmdline_process_name(b"/usr/bin/\0"), "");
    assert_eq!(cmdline_process_name(b"\xff\xfe\0"), "");
    assert_eq!(cmdline_process_name("/opt/caf\u{e9}/bin".as_bytes()), "bin");
    assert_eq!(comm_process_name(Some("kworker/0:1\n")), "kworker/0:1");
    assert_eq!(comm_process_name(None), "unknown");
}

#[test]
fn process_name_falls_back_to_comm() {
    assert_eq!(process_name("node".to_string(), Some("ignored")), "node");
    assert_eq!(process_name(String::new(), Some(" kthreadd\n")), "kthreadd");
    assert_eq!(process_name(String::new(), None), "unknown");
}

const LSOF: &str = "p142\ncnode\nn*:3000\nn127.0.0.1:3001\np198\ncpython3\nn[::1]:8080\nnlocalhost:http\n";

#[test]
fn lsof_report() {
    assert!(lsof_is_readable(LSOF));
    assert_eq!(
        lsof_listeners(LSOF),
        vec![
            (142, "node".to_string(), 3000),
            (142, "node".to_string(), 3001),
            (198, "python3".to_string(), 8080),
        ]
    );
}

#[test]
fn lsof_report_edge_cases() {
    assert_eq!(lsof_listeners(""), vec![]);
    assert_eq!(lsof_listeners("n*:22\n"), vec![(0, String::new(), 22)]);
    assert_eq!(lsof_listeners("pabc\ncx\nn*:1\n\nf3\n"), vec![(0, "x".to_string(), 1)]);
    assert_eq!(lsof_listeners("p5\ncx\np6\nn*:2\n"), vec![(6, String::new(), 2)]);
    assert!(!lsof_is_readable("p1\n\u{e9}x\n"));
}

#[test]
fn etime_formats() {
    assert_eq!(parse_etime("05"), 5);
    assert_eq!(parse_etime("01:05"), 65);
    assert_eq!(parse_etime("01:02:03"), 3723);
    assert_eq!(parse_etime("2-01:02:03"), 176523);
    assert_eq!(parse_etime("01-07:55:09"), 114909);
    assert_eq!(parse_etime("x-01:02"), 62);
    assert_eq!(parse_etime("garbage"), 0);
    assert_eq!(parse_etime("1:2:3:4"), 0);
    assert_eq!(parse_etime("1:x:3"), 63);
    assert_eq!(parse_etime("45"), 45);
}

#[test]
fn etime_single_field_only_alone() {
    assert_eq!(parse_etime("2-05"), 0);
    assert_eq!(parse_etime("05:xx"), 0);
    assert_eq!(parse_etime("x:05"), 0);
    assert_eq!(parse_etime("999999999999999999-05"), 0);
    assert!(ps_is_readable("1 999999999999999999-05\n"));
    assert_eq!(ps_uptimes("1 999999999999999999-05\n").get(&1), Some(&0));
}

#[test]
fn ps_report() {
    let out = "  142 01-07:55:09\n  198 35:12\nbogus line\n  198 00:10\n";
    assert!(ps_is_readable(out));
    let m = ps_uptimes(out);
    let mut expected = HashMap::new();
    expected.insert(142u32, 114909u64);
    expected.insert(198u32, 10u64);
    assert_eq!(m, expected);
    assert!(!ps_is_readable("1 999999999999999999-00:00:00\n"));
}

#[test]
fn uptimes_attach_to_entries() {
    let entries = vec![(142, "node".to_string(), 3000), (7, "x".to_string(), 22)];
    let mut m = HashMap::new();
    m.insert(142u32, 99u64);
    assert_eq!(
        attach_uptimes(&entries, &m),
        vec![
            PortInfo { port: 3000, pid: 142, process: "node".to_string(), uptime_secs: 99 },
            PortInfo { port: 22, pid: 7, process: "x".to_string(), uptime_secs: 0 },
        ]
    );
    assert_eq!(pid_args(&entries), vec!["142".to_string(), "7".to_string()]);
}

#[test]
fn number_parsing_rules() {
    assert_eq!(parse_u32("42"), Some(42));
    assert_eq!(parse_u32("+42"), Some(42));
    assert_eq!(parse_u32("-1"), None);
    assert_eq!(parse_u32("+"), None);
    assert_eq!(parse_u32(""), None);
    assert_eq!(parse_u32("4294967295"), Some(u32::MAX));
    assert_eq!(parse_u32("4294967296"), None);
    assert_eq!(parse_u16("65535"), Some(65535));
    assert_eq!(parse_u16("65536"), None);
    assert_eq!(parse_u16(" 1"), None);
}

#[test]
fn decimal_round_trip() {
    for n in [0u64, 7, 10, 99, 100, 65535, 4294967296, u64::MAX] {
        assert_eq!(decimal_string(n), n.to_string());
    }
    assert_eq!(parse_u32(&decimal_string(4294967295)), Some(u32::MAX));
}
