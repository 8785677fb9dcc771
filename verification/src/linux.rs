//! Linux: the listening sockets in `/proc/net/tcp{,6}`, the socket inodes
//! behind `/proc/<pid>/fd/*`, boot and start times from `/proc/.../stat`,
//! and process names from `/proc/<pid>/cmdline` and `/proc/<pid>/comm`.

use vstd::prelude::*;
use vstd::utf8::{decode_utf8, valid_utf8};
use crate::number::{lemma_parse_uint_bound, parse_range, parse_uint};
use crate::port::{PortInfo, ScanError};
use crate::text::{
    after_last, chars_of, last_index_of, lines, lines_of, rfind_char, string_of, trim,
    trim_bounds, views, words, words_of,
};

verus! {

/// The value of a parse that falls back to 0 where it fails.
pub open spec fn or_zero(v: Option<nat>) -> nat {
    match v {
        Some(x) => x,
        None => 0,
    }
}

/// The lines of a file after its header line.
pub open spec fn body_lines(s: Seq<char>) -> Seq<Seq<char>> {
    let ls = lines(s);
    if ls.len() == 0 {
        ls
    } else {
        ls.drop_first()
    }
}

/// One row of a TCP socket table: the local port and the socket's inode,
/// where the socket listens (state `0A`) and both fields parse.
pub open spec fn socket_row(line: Seq<char>) -> Option<(u16, u64)> {
    let cols = words(line);
    if cols.len() < 10 || cols[3] != "0A"@ {
        None
    } else {
        let addr = cols[1];
        if last_index_of(addr, ':') < 0 {
            None
        } else {
            match (
                parse_uint(after_last(addr, ':'), 16, u16::MAX as nat),
                parse_uint(cols[9], 10, u64::MAX as nat),
            ) {
                (Some(port), Some(inode)) => Some((port as u16, inode as u64)),
                _ => None,
            }
        }
    }
}

/// The listening sockets of some rows, in order.
pub open spec fn socket_rows(ls: Seq<Seq<char>>) -> Seq<(u16, u64)>
    decreases ls.len(),
{
    if ls.len() == 0 {
        seq![]
    } else {
        socket_rows(ls.drop_last()) + match socket_row(ls.last()) {
            Some(e) => seq![e],
            None => seq![],
        }
    }
}

/// The listening sockets of a TCP socket table, as (port, inode), in order.
pub open spec fn table_sockets(table: Seq<char>) -> Seq<(u16, u64)> {
    socket_rows(body_lines(table))
}

/// The listening sockets of a table that could be read, none of one that could not.
pub open spec fn read_sockets(table: Option<&str>) -> Seq<(u16, u64)> {
    match table {
        Some(t) => table_sockets(t@),
        None => seq![],
    }
}

/// The inode of a `socket:[<inode>]` link target.
pub open spec fn link_inode(link: Seq<char>) -> Option<nat> {
    if link.len() >= 9 && link.take(8) == "socket:["@ && link.last() == ']' {
        parse_uint(link.subrange(8, link.len() - 1), 10, u64::MAX as nat)
    } else {
        None
    }
}

/// The first line of `ls` that starts with `prefix`.
pub open spec fn first_line_with(ls: Seq<Seq<char>>, prefix: Seq<char>) -> Option<Seq<char>>
    decreases ls.len(),
{
    if ls.len() == 0 {
        None
    } else if ls[0].len() >= prefix.len() && ls[0].take(prefix.len() as int) == prefix {
        Some(ls[0])
    } else {
        first_line_with(ls.drop_first(), prefix)
    }
}

/// Boot time, in seconds since the epoch, from the `btime` line of `/proc/stat`; 0 where it is missing.
pub open spec fn boot_secs(stat: Seq<char>) -> nat {
    match first_line_with(lines(stat), "btime "@) {
        None => 0,
        Some(l) => if words(l).len() < 2 {
            0
        } else {
            or_zero(parse_uint(words(l)[1], 10, u64::MAX as nat))
        },
    }
}

/// The start time of a process, in seconds after boot, from its `/proc/<pid>/stat`:
/// field 22 counts clock ticks of 1/100 s; 0 where it is missing.
pub open spec fn start_secs(stat: Seq<char>) -> nat {
    let w = words(stat.skip(last_index_of(stat, ')') + 2));
    if w.len() > 19 {
        or_zero(parse_uint(w[19], 10, u64::MAX as nat)) / 100
    } else {
        0
    }
}

/// The stat text can be read for an uptime without slicing inside a character
/// or past the end, and boot time plus start time fits in a `u64`.
pub open spec fn uptime_readable(stat: Seq<char>, btime: u64) -> bool {
    let i = last_index_of(stat, ')');
    btime == 0 || i < 0 || (i + 1 < stat.len() && stat[i + 1] <= '\x7f' && btime
        + start_secs(stat) <= u64::MAX)
}

/// How long a process has run, in seconds, at time `now`.
pub open spec fn uptime_secs(stat: Seq<char>, btime: u64, now: u64) -> nat {
    if btime == 0 || last_index_of(stat, ')') < 0 {
        0
    } else if now >= btime + start_secs(stat) {
        (now - btime - start_secs(stat)) as nat
    } else {
        0
    }
}

/// A process name from its command line: argv[0] (up to the first NUL),
/// without its directory; empty where argv[0] is not UTF-8.
pub open spec fn cmdline_name(cmdline: Seq<u8>) -> Seq<char> {
    let end = cmdline_end(cmdline);
    let arg0 = cmdline.take(end);
    if valid_utf8(arg0) {
        after_last(decode_utf8(arg0), '/')
    } else {
        seq![]
    }
}

/// Index of the first NUL byte, or the length.
pub open spec fn cmdline_end(cmdline: Seq<u8>) -> int
    decreases cmdline.len(),
{
    if cmdline.len() == 0 || cmdline[0] == 0 {
        0
    } else {
        1 + cmdline_end(cmdline.drop_first())
    }
}

/// Decodes bytes with `std::str::from_utf8`. Trusted: it succeeds exactly on
/// valid UTF-8 (vstd's `valid_utf8`), and then the text is the characters
/// that the bytes encode (vstd's `decode_utf8`).
#[verifier::external_body]
fn utf8_str(b: &[u8]) -> (r: Option<&str>)
    ensures
        r is Some <==> valid_utf8(b@),
        r matches Some(s) ==> s@ == decode_utf8(b@),
{
    std::str::from_utf8(b).ok()
}

/// The listening sockets of one TCP socket table (`/proc/net/tcp` or
/// `/proc/net/tcp6`): after the header line, each row in state `0A` (TCP_LISTEN)
/// whose local port (hex, after the last `:` of column 1) and inode (column 9) parse.
pub fn table_listeners(table: &str) -> (r: Vec<(u16, u64)>)
    ensures
        r@ == table_sockets(table@),
{
    let chars = chars_of(table);
    let ls = lines_of(&chars);
    let mut r: Vec<(u16, u64)> = Vec::new();
    if ls.len() == 0 {
        return r;
    }
    let ghost body = views(ls@).drop_first();
    let mut i: usize = 1;
    assert(body.take(0) == Seq::<Seq<char>>::empty());
    while i < ls.len()
        invariant
            1 <= i <= ls.len(),
            body == views(ls@).drop_first(),
            views(ls@) == lines(table@),
            r@ == socket_rows(body.take(i - 1)),
        decreases ls.len() - i,
    {
        assert(body.take(i as int).drop_last() == body.take(i - 1));
        assert(body.take(i as int).last() == ls@[i as int]@);
        let row = socket_of_row(&ls[i]);
        match row {
            Some(e) => {
                r.push(e);
            },
            None => {},
        }
        i = i + 1;
    }
    assert(body.take(ls.len() - 1) == body);
    r
}

fn socket_of_row(line: &Vec<char>) -> (r: Option<(u16, u64)>)
    ensures
        r == socket_row(line@),
{
    let cols = words_of(line);
    proof {
        assert(views(cols@) == words(line@));
        reveal_strlit("0A");
    }
    if cols.len() < 10 {
        return None;
    }
    assert(views(cols@)[3] == cols@[3]@);
    if !(cols[3].len() == 2 && cols[3][0] == '0' && cols[3][1] == 'A') {
        assert(cols@[3]@ != "0A"@) by {
            if cols@[3]@ == "0A"@ {
                assert(cols@[3]@[0] == '0' && cols@[3]@[1] == 'A');
            }
        }
        return None;
    }
    assert(cols@[3]@ == "0A"@);
    let addr = &cols[1];
    assert(views(cols@)[1] == addr@);
    assert(views(cols@)[9] == cols@[9]@);
    let colon = match rfind_char(addr, ':') {
        Some(k) => k,
        None => {
            return None;
        },
    };
    assert(addr@.subrange(colon + 1, addr@.len() as int) == after_last(addr@, ':'));
    let port = match parse_range(addr, colon + 1, addr.len(), 16, 0xffff) {
        Some(p) => p as u16,
        None => {
            return None;
        },
    };
    let col9 = &cols[9];
    assert(col9@.subrange(0, col9@.len() as int) == col9@);
    let inode = match parse_range(col9, 0, col9.len(), 10, 0xffff_ffff_ffff_ffff) {
        Some(v) => v,
        None => {
            return None;
        },
    };
    Some((port, inode))
}

/// The listening sockets of the IPv4 and IPv6 tables, in that order, where at
/// least one of them could be read; an error where neither could.
pub fn listening_sockets(tcp4: Option<&str>, tcp6: Option<&str>) -> (r: Result<
    Vec<(u16, u64)>,
    ScanError,
>)
    ensures
        match r {
            Ok(v) => !(tcp4 is None && tcp6 is None) && v@ == read_sockets(tcp4) + read_sockets(
                tcp6,
            ),
            Err(e) => {
                &&& tcp4 is None && tcp6 is None
                &&& e matches ScanError::Unavailable(m) && m@ == "/proc/net/tcp not readable"@
            },
        },
{
    if tcp4.is_none() && tcp6.is_none() {
        let mut msg = String::new();
        crate::port::push_str(&mut msg, "/proc/net/tcp not readable");
        assert(Seq::<char>::empty() + "/proc/net/tcp not readable"@
            == "/proc/net/tcp not readable"@);
        return Err(ScanError::Unavailable(msg));
    }
    let mut all: Vec<(u16, u64)> = match tcp4 {
        Some(t) => table_listeners(t),
        None => Vec::new(),
    };
    let mut more: Vec<(u16, u64)> = match tcp6 {
        Some(t) => table_listeners(t),
        None => Vec::new(),
    };
    all.append(&mut more);
    Ok(all)
}

/// The record of a listening port: its owner's pid, name and uptime where the
/// socket's owner was found, else pid 0, `unknown` and no uptime.
pub fn port_entry(port: u16, owner: Option<(u32, String, u64)>) -> (r: PortInfo)
    ensures
        match owner {
            Some((pid, name, up)) => r == PortInfo { port, pid, process: name, uptime_secs: up },
            None => r.port == port && r.pid == 0 && r.process@ == "unknown"@ && r.uptime_secs
                == 0,
        },
{
    match owner {
        Some((pid, name, up)) => PortInfo { port, pid, process: name, uptime_secs: up },
        None => {
            let mut name = String::new();
            crate::port::push_str(&mut name, "unknown");
            assert(Seq::<char>::empty() + "unknown"@ == "unknown"@);
            PortInfo { port, pid: 0, process: name, uptime_secs: 0 }
        },
    }
}

/// The inode of a socket from the target of its `/proc/<pid>/fd/*` link,
/// `socket:[<inode>]`; none for any other target.
pub fn socket_inode(link: &str) -> (r: Option<u64>)
    ensures
        match r {
            Some(v) => link_inode(link@) == Some(v as nat),
            None => link_inode(link@) is None,
        },
{
    let v = chars_of(link);
    let prefix = chars_of("socket:[");
    proof {
        reveal_strlit("socket:[");
    }
    let n = v.len();
    if n < 9 || v[n - 1] != ']' || !starts_with(&v, &prefix) {
        return None;
    }
    parse_range(&v, 8, n - 1, 10, 0xffff_ffff_ffff_ffff)
}

fn starts_with(v: &Vec<char>, prefix: &Vec<char>) -> (b: bool)
    ensures
        b == (v@.len() >= prefix@.len() && v@.take(prefix@.len() as int) == prefix@),
{
    if v.len() < prefix.len() {
        return false;
    }
    let mut i: usize = 0;
    while i < prefix.len()
        invariant
            i <= prefix.len() <= v.len(),
            forall|j: int| 0 <= j < i ==> v@[j] == prefix@[j],
        decreases prefix.len() - i,
    {
        if v[i] != prefix[i] {
            assert(v@.take(prefix@.len() as int)[i as int] != prefix@[i as int]);
            return false;
        }
        i = i + 1;
    }
    assert(v@.take(prefix@.len() as int) == prefix@);
    true
}

/// Boot time, in seconds since the epoch, from the text of `/proc/stat`:
/// the second field of the first line that starts with `btime `; 0 where
/// there is none or it does not parse.
pub fn boot_time(stat: &str) -> (r: u64)
    ensures
        r == boot_secs(stat@),
{
    let chars = chars_of(stat);
    let ls = lines_of(&chars);
    let prefix = chars_of("btime ");
    let mut i: usize = 0;
    assert(views(ls@).skip(0) == views(ls@));
    while i < ls.len()
        invariant
            i <= ls.len(),
            views(ls@) == lines(stat@),
            prefix@ == "btime "@,
            first_line_with(views(ls@).skip(i as int), prefix@) == first_line_with(
                lines(stat@),
                prefix@,
            ),
        decreases ls.len() - i,
    {
        let ghost rest = views(ls@).skip(i as int);
        assert(rest[0] == ls@[i as int]@);
        if starts_with(&ls[i], &prefix) {
            let w = words_of(&ls[i]);
            if w.len() < 2 {
                return 0;
            }
            assert(views(w@)[1] == w@[1]@);
            assert(w@[1]@.subrange(0, w@[1]@.len() as int) == w@[1]@);
            return match parse_range(&w[1], 0, w[1].len(), 10, 0xffff_ffff_ffff_ffff) {
                Some(v) => v,
                None => 0,
            };
        }
        assert(rest.drop_first() == views(ls@).skip(i + 1));
        i = i + 1;
    }
    assert(views(ls@).skip(ls.len() as int) == Seq::<Seq<char>>::empty());
    0
}

/// Whether `process_uptime` can read this stat text with this boot time.
pub fn uptime_is_readable(stat: &str, btime: u64) -> (b: bool)
    ensures
        b == uptime_readable(stat@, btime),
{
    let v = chars_of(stat);
    if btime == 0 {
        return true;
    }
    match rfind_char(&v, ')') {
        None => true,
        Some(i) => {
            let n = v.len();
            if !(i + 1 < n && v[i + 1] <= '\x7f') {
                return false;
            }
            let start = start_of(&v, i);
            start <= 0xffff_ffff_ffff_ffff - btime
        },
    }
}

fn start_of(v: &Vec<char>, close: usize) -> (r: u64)
    requires
        close + 1 < v.len(),
        last_index_of(v@, ')') == close,
    ensures
        r == start_secs(v@),
{
    let rest = copy_from(v, close + 2);
    let w = words_of(&rest);
    if w.len() > 19 {
        assert(views(w@)[19] == w@[19]@);
        assert(w@[19]@.subrange(0, w@[19]@.len() as int) == w@[19]@);
        let ticks = match parse_range(&w[19], 0, w[19].len(), 10, 0xffff_ffff_ffff_ffff) {
            Some(t) => t,
            None => 0,
        };
        ticks / 100
    } else {
        0
    }
}

fn copy_from(v: &Vec<char>, lo: usize) -> (r: Vec<char>)
    requires
        lo <= v.len(),
    ensures
        r@ == v@.skip(lo as int),
{
    let r = crate::text::copy_range(v, lo, v.len());
    assert(v@.subrange(lo as int, v@.len() as int) == v@.skip(lo as int));
    r
}

/// How long a process has been running, in seconds: `now` less boot time and
/// the process's start time (field 22 of its `/proc/<pid>/stat`, in 1/100 s),
/// not below 0; 0 where the boot time is unknown (0) or the text has no `)`.
pub fn process_uptime(stat: &str, btime: u64, now: u64) -> (r: u64)
    requires
        uptime_readable(stat@, btime),
    ensures
        r == uptime_secs(stat@, btime, now),
{
    if btime == 0 {
        return 0;
    }
    let v = chars_of(stat);
    let i = match rfind_char(&v, ')') {
        Some(i) => i,
        None => {
            return 0;
        },
    };
    let start = start_of(&v, i);
    let since = btime + start;
    if now >= since {
        now - since
    } else {
        0
    }
}

/// A process name from the bytes of `/proc/<pid>/cmdline`: argv[0] (up to
/// the first NUL) without its directory; empty where argv[0] is not UTF-8.
pub fn cmdline_process_name(cmdline: &[u8]) -> (r: String)
    ensures
        r@ == cmdline_name(cmdline@),
{
    let mut end: usize = 0;
    assert(cmdline@.skip(0) == cmdline@);
    while end < cmdline.len() && cmdline[end] != 0
        invariant
            end <= cmdline.len(),
            cmdline_end(cmdline@) == end + cmdline_end(cmdline@.skip(end as int)),
        decreases cmdline.len() - end,
    {
        assert(cmdline@.skip(end as int).drop_first() == cmdline@.skip(end + 1));
        end = end + 1;
    }
    proof {
        let t = cmdline@.skip(end as int);
        assert(t.len() == 0 || t[0] == 0);
        assert(cmdline_end(t) == 0);
    }
    let arg0 = slice_take(cmdline, end);
    match utf8_str(arg0) {
        None => String::new(),
        Some(s) => {
            let v = chars_of(s);
            let n = v.len();
            let start = match rfind_char(&v, '/') {
                Some(k) => k + 1,
                None => 0,
            };
            assert(v@.subrange(start as int, v@.len() as int) == after_last(v@, '/'));
            string_of(&v, start, v.len())
        },
    }
}

fn slice_take(b: &[u8], n: usize) -> (r: &[u8])
    requires
        n <= b@.len(),
    ensures
        r@ == b@.take(n as int),
{
    let r = b.split_at(n).0;
    assert(b@.subrange(0, n as int) == b@.take(n as int));
    r
}

/// The fallback process name: the text of `/proc/<pid>/comm` without
/// surrounding white space where it could be read, else `unknown`.
pub fn comm_process_name(comm: Option<&str>) -> (r: String)
    ensures
        r@ == match comm {
            Some(c) => trim(c@),
            None => "unknown"@,
        },
{
    match comm {
        Some(c) => {
            let v = chars_of(c);
            let (lo, hi) = trim_bounds(&v);
            string_of(&v, lo, hi)
        },
        None => {
            let mut s = String::new();
            crate::port::push_str(&mut s, "unknown");
            assert(Seq::<char>::empty() + "unknown"@ == "unknown"@);
            s
        },
    }
}

/// The name of a process: the one from its command line where that is not
/// empty, else the fallback from `comm` (`unknown` where `comm` could not be read).
pub fn process_name(cmdline_name: String, comm: Option<&str>) -> (r: String)
    ensures
        r@ == if cmdline_name@.len() > 0 {
            cmdline_name@
        } else {
            match comm {
                Some(c) => trim(c@),
                None => "unknown"@,
            }
        },
{
    if cmdline_name.as_str().is_empty() {
        comm_process_name(comm)
    } else {
        cmdline_name
    }
}

proof fn lemma_socket_rows_contains(ls: Seq<Seq<char>>, i: int, e: (u16, u64))
    requires
        0 <= i < ls.len(),
        socket_row(ls[i]) == Some(e),
    ensures
        socket_rows(ls).contains(e),
    decreases ls.len(),
{
    let t = ls.drop_last();
    if i == ls.len() - 1 {
        let r = socket_rows(ls);
        assert(r[r.len() - 1] == e);
    } else {
        assert(t[i] == ls[i]);
        lemma_socket_rows_contains(t, i, e);
        let k = choose|k: int| 0 <= k < socket_rows(t).len() && socket_rows(t)[k] == e;
        assert(socket_rows(ls)[k] == e);
    }
}

/// Every listening row of a socket table is read, whatever its port: a line
/// after the header with at least ten columns, state `0A` in column 3, a local
/// address (column 1) whose part after its last `:` is the hex of any port in
/// 0..=65535, and a decimal inode in column 9 gives that (port, inode).
pub proof fn lemma_listening_row_read(table: Seq<char>, i: int, port: nat, inode: nat)
    requires
        0 <= i < body_lines(table).len(),
        words(body_lines(table)[i]).len() >= 10,
        words(body_lines(table)[i])[3] == "0A"@,
        last_index_of(words(body_lines(table)[i])[1], ':') >= 0,
        parse_uint(after_last(words(body_lines(table)[i])[1], ':'), 16, u64::MAX as nat) == Some(
            port,
        ),
        port <= 65535,
        parse_uint(words(body_lines(table)[i])[9], 10, u64::MAX as nat) == Some(inode),
    ensures
        table_sockets(table).contains((port as u16, inode as u64)),
{
    let l = body_lines(table)[i];
    lemma_parse_uint_bound(after_last(words(l)[1], ':'), 16, u64::MAX as nat, u16::MAX as nat);
    assert(socket_row(l) == Some((port as u16, inode as u64)));
    lemma_socket_rows_contains(body_lines(table), i, (port as u16, inode as u64));
}

proof fn lemma_cmdline_end(arg0: Seq<u8>, tail: Seq<u8>)
    requires
        forall|j: int| 0 <= j < arg0.len() ==> arg0[j] != 0,
        tail.len() == 0 || tail[0] == 0,
    ensures
        cmdline_end(arg0 + tail) == arg0.len(),
    decreases arg0.len(),
{
    let s = arg0 + tail;
    if arg0.len() > 0 {
        assert(s[0] == arg0[0]);
        assert(s.drop_first() == arg0.drop_first() + tail);
        lemma_cmdline_end(arg0.drop_first(), tail);
    } else {
        assert(s == tail);
    }
}

/// The name read from a command line is the part of argv[0] after its last
/// `/`, whatever argv[0]'s length: where argv[0] (the bytes before the first
/// NUL, or all of them) is UTF-8 text `d`, the name is a suffix of `d` that
/// holds no `/`, and it is all of `d` or follows a `/`.
pub proof fn lemma_cmdline_name_last_component(arg0: Seq<u8>, tail: Seq<u8>)
    requires
        forall|j: int| 0 <= j < arg0.len() ==> arg0[j] != 0,
        tail.len() == 0 || tail[0] == 0,
        valid_utf8(arg0),
    ensures
        ({
            let d = decode_utf8(arg0);
            let name = cmdline_name(arg0 + tail);
            &&& name.len() <= d.len()
            &&& d.skip(d.len() - name.len()) == name
            &&& forall|j: int| 0 <= j < name.len() ==> name[j] != '/'
            &&& name.len() < d.len() ==> d[d.len() - name.len() - 1] == '/'
        }),
{
    lemma_cmdline_end(arg0, tail);
    assert((arg0 + tail).take(arg0.len() as int) == arg0);
    let d = decode_utf8(arg0);
    crate::text::lemma_last_index_of(d, '/');
    let k = last_index_of(d, '/');
    let name = cmdline_name(arg0 + tail);
    assert(name == d.skip(k + 1));
    assert(d.skip(d.len() - name.len()) == name);
    assert forall|j: int| 0 <= j < name.len() implies name[j] != '/' by {
        assert(name[j] == d[k + 1 + j]);
    }
}

/// The target `socket:[<n>]` of an fd link reads as inode `n`, for every `u64` n.
pub proof fn lemma_socket_link_read(n: nat)
    requires
        n <= u64::MAX,
    ensures
        link_inode("socket:["@ + crate::number::decimal(n) + "]"@) == Some(n),
{
    reveal_strlit("socket:[");
    reveal_strlit("]");
    let d = crate::number::decimal(n);
    crate::number::lemma_decimal_parses(n, u64::MAX as nat);
    crate::number::lemma_decimal_digits(n);
    let l = "socket:["@ + d + "]"@;
    assert(l.take(8) == "socket:["@);
    assert(l.last() == ']');
    assert(l.subrange(8, l.len() - 1) == d);
}

/// The boot time is the number on the first line of `/proc/stat` that
/// starts with `btime `: where that line is `btime <t>`, for any `u64` t,
/// the boot time is t.
pub proof fn lemma_boot_time_read(stat: Seq<char>, i: int, t: nat)
    requires
        0 <= i < lines(stat).len(),
        lines(stat)[i] == "btime "@ + crate::number::decimal(t),
        t <= u64::MAX,
        forall|j: int|
            0 <= j < i ==> !(lines(stat)[j].len() >= 6 && #[trigger] lines(stat)[j].take(6)
                == "btime "@),
    ensures
        boot_secs(stat) == t,
{
    reveal_strlit("btime ");
    let ls = lines(stat);
    let l = ls[i];
    let d = crate::number::decimal(t);
    crate::number::lemma_decimal_digits(t);
    crate::number::lemma_decimal_parses(t, u64::MAX as nat);
    assert(l.take(6) == "btime "@);
    lemma_first_line_with(ls, "btime "@, i);
    // The words of `btime <t>`: `btime`, then the digits.
    let tag = seq!['b', 't', 'i', 'm', 'e'];
    assert forall|j: int| 0 <= j < 5 implies !crate::text::space()(#[trigger] l[j]) by {}
    assert(crate::text::is_space(l[5]));
    crate::text::lemma_first_match_at(l, crate::text::space(), 5);
    assert(l.take(5) == tag);
    let rest = l.skip(5);
    assert(rest.drop_first() == d);
    assert forall|j: int| 0 <= j < d.len() implies !crate::text::space()(#[trigger] d[j]) by {
        assert(crate::number::digit_value(d[j], 10) is Some);
    }
    crate::text::lemma_first_match_at(d, crate::text::space(), d.len() as int);
    assert(d.take(d.len() as int) == d);
    assert(d.skip(d.len() as int) == Seq::<char>::empty());
    assert(words(d) == seq![d] + words(Seq::<char>::empty()));
    assert(words(rest) == words(d));
    assert(words(l) == seq![tag] + words(rest));
    assert(words(l)[1] == d);
}

proof fn lemma_first_line_with(ls: Seq<Seq<char>>, prefix: Seq<char>, i: int)
    requires
        0 <= i < ls.len(),
        ls[i].len() >= prefix.len() && ls[i].take(prefix.len() as int) == prefix,
        forall|j: int|
            0 <= j < i ==> !(ls[j].len() >= prefix.len() && #[trigger] ls[j].take(
                prefix.len() as int,
            ) == prefix),
    ensures
        first_line_with(ls, prefix) == Some(ls[i]),
    decreases i,
{
    if i > 0 {
        let t = ls.drop_first();
        assert(!(ls[0].len() >= prefix.len() && ls[0].take(prefix.len() as int) == prefix));
        assert forall|j: int| 0 <= j < i - 1 implies !(t[j].len() >= prefix.len() && #[trigger] t[j].take(
            prefix.len() as int,
        ) == prefix) by {
            assert(t[j] == ls[j + 1]);
        }
        lemma_first_line_with(t, prefix, i - 1);
    }
}

/// A process's uptime counts from its start: field 22 of its stat text (the
/// 20th after the last `)` and the state) counts clock ticks of 1/100 s
/// after boot, and the uptime is `now` less boot time and that start, or 0
/// where `now` is earlier.
pub proof fn lemma_uptime_from_start(stat: Seq<char>, btime: u64, now: u64, ticks: nat)
    requires
        btime > 0,
        last_index_of(stat, ')') >= 0,
        words(stat.skip(last_index_of(stat, ')') + 2)).len() >= 20,
        parse_uint(words(stat.skip(last_index_of(stat, ')') + 2))[19], 10, u64::MAX as nat)
            == Some(ticks),
    ensures
        now >= btime + ticks / 100 ==> uptime_secs(stat, btime, now) == now - btime - ticks / 100,
        now < btime + ticks / 100 ==> uptime_secs(stat, btime, now) == 0,
{
}

} // verus!
