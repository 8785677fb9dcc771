//! macOS: the listening sockets that `lsof -F pcn` reports and the elapsed
//! times that `ps -o pid=,etime=` reports.

use std::collections::HashMap;
use vstd::prelude::*;
use crate::linux::or_zero;
use crate::number::{decimal, lemma_parse_uint_bound, parse_range, parse_uint, push_decimal};
use crate::port::PortInfo;
use crate::text::{
    after_last, chars_of, copy_range, find_char_from, find_space_from, first_match, is_char,
    is_space, lines, lines_of, pieces, pieces_of, rfind_char, space, string_of, trim, trim_bounds,
    trim_end, trim_start, views,
};

verus! {

broadcast use vstd::std_specs::hash::group_hash_axioms;

/// A listening socket as `lsof` names it: (pid, command, port).
pub open spec fn entry_views(s: Seq<(u32, String, u16)>) -> Seq<(u32, Seq<char>, u16)> {
    s.map_values(|e: (u32, String, u16)| (e.0, e.1@, e.2))
}

/// The sockets that the `lsof -F pcn` lines `ls` name, read with the current
/// pid and command: a `p` line sets the pid (0 where it does not parse) and
/// clears the command, a `c` line sets the command, and an `n` line whose text
/// after its last `:` is a port names a socket of the current process.
pub open spec fn lsof_fold(ls: Seq<Seq<char>>, pid: u32, process: Seq<char>) -> Seq<
    (u32, Seq<char>, u16),
>
    decreases ls.len(),
{
    if ls.len() == 0 {
        seq![]
    } else {
        let l = ls[0];
        let rest = ls.drop_first();
        if l.len() == 0 {
            lsof_fold(rest, pid, process)
        } else {
            let val = l.drop_first();
            if l[0] == 'p' {
                lsof_fold(rest, or_zero(parse_uint(val, 10, u32::MAX as nat)) as u32, seq![])
            } else if l[0] == 'c' {
                lsof_fold(rest, pid, val)
            } else if l[0] == 'n' {
                match parse_uint(after_last(val, ':'), 10, u16::MAX as nat) {
                    Some(port) => seq![(pid, process, port as u16)] + lsof_fold(
                        rest,
                        pid,
                        process,
                    ),
                    None => lsof_fold(rest, pid, process),
                }
            } else {
                lsof_fold(rest, pid, process)
            }
        }
    }
}

/// The sockets of a whole `lsof -F pcn` report.
pub open spec fn lsof_entries(out: Seq<char>) -> Seq<(u32, Seq<char>, u16)> {
    lsof_fold(lines(out), 0, seq![])
}

/// Every line of the report begins with an ASCII character, so that its
/// value can be cut off after the one-byte tag.
pub open spec fn lsof_readable(out: Seq<char>) -> bool {
    forall|i: int|
        0 <= i < lines(out).len() && #[trigger] lines(out)[i].len() > 0 ==> lines(out)[i][0]
            <= '\x7f'
}

/// The numbers among some fields, in order.
pub open spec fn parsed_fields(ps: Seq<Seq<char>>) -> Seq<nat>
    decreases ps.len(),
{
    if ps.len() == 0 {
        seq![]
    } else {
        parsed_fields(ps.drop_last()) + match parse_uint(ps.last(), 10, u64::MAX as nat) {
            Some(v) => seq![v],
            None => seq![],
        }
    }
}

/// Seconds of a `ps` elapsed time `[D-][[HH:]MM:]SS`: the days before a `-`
/// (0 where they do not parse), then the numbers among the `:` fields; three
/// are hours, minutes, seconds, two are minutes, seconds. A text that is one
/// field alone, with no days, is seconds. Anything else gives 0.
pub open spec fn etime_value(s: Seq<char>) -> nat {
    let k = first_match(s, is_char('-')) as int;
    let days = if k < s.len() {
        or_zero(parse_uint(s.take(k), 10, u64::MAX as nat))
    } else {
        0
    };
    let rest = if k < s.len() {
        s.skip(k + 1)
    } else {
        s
    };
    let parts = parsed_fields(pieces(rest, ':'));
    if parts.len() == 3 {
        days * 86400 + parts[0] * 3600 + parts[1] * 60 + parts[2]
    } else if parts.len() == 2 {
        days * 86400 + parts[0] * 60 + parts[1]
    } else if k >= s.len() && pieces(rest, ':').len() == 1 && parts.len() == 1 {
        parts[0]
    } else {
        0
    }
}

/// One line of `ps -o pid=,etime=`: the pid before the first white space of
/// the trimmed line, and the trimmed elapsed time after it.
pub open spec fn ps_row(l: Seq<char>) -> Option<(u32, Seq<char>)> {
    let t = trim(l);
    let k = first_match(t, space()) as int;
    if k >= t.len() {
        None
    } else {
        match parse_uint(trim(t.take(k)), 10, u32::MAX as nat) {
            Some(pid) => Some((pid as u32, trim(t.skip(k + 1)))),
            None => None,
        }
    }
}

/// The elapsed time of a row fits in a `u64`.
pub open spec fn row_fits(l: Seq<char>) -> bool {
    match ps_row(l) {
        Some((_, e)) => etime_value(e) <= u64::MAX,
        None => true,
    }
}

/// Every elapsed time in the report fits in a `u64`.
pub open spec fn ps_readable(out: Seq<char>) -> bool {
    forall|i: int| 0 <= i < lines(out).len() ==> row_fits(#[trigger] lines(out)[i])
}

/// Uptime by pid from the rows `ls`; a later row for a pid replaces an earlier one.
pub open spec fn ps_map(ls: Seq<Seq<char>>) -> Map<u32, u64>
    decreases ls.len(),
{
    if ls.len() == 0 {
        Map::empty()
    } else {
        match ps_row(ls.last()) {
            Some((pid, e)) => ps_map(ls.drop_last()).insert(pid, etime_value(e) as u64),
            None => ps_map(ls.drop_last()),
        }
    }
}

/// The uptime that a map gives a pid, 0 where it has none.
pub open spec fn uptime_of(m: Map<u32, u64>, pid: u32) -> u64 {
    if m.contains_key(pid) {
        m[pid]
    } else {
        0
    }
}

/// Whether `lsof_listeners` can read this report.
pub fn lsof_is_readable(out: &str) -> (b: bool)
    ensures
        b == lsof_readable(out@),
{
    let chars = chars_of(out);
    let ls = lines_of(&chars);
    let mut i: usize = 0;
    while i < ls.len()
        invariant
            i <= ls.len(),
            views(ls@) == lines(out@),
            forall|j: int|
                0 <= j < i && #[trigger] lines(out@)[j].len() > 0 ==> lines(out@)[j][0] <= '\x7f',
        decreases ls.len() - i,
    {
        assert(views(ls@)[i as int] == ls@[i as int]@);
        if ls[i].len() > 0 && ls[i][0] > '\x7f' {
            return false;
        }
        i = i + 1;
    }
    true
}

/// The listening sockets in the output of `lsof -iTCP -sTCP:LISTEN -n -P -F pcn`,
/// as (pid, command, port), in the order of their `n` lines.
pub fn lsof_listeners(out: &str) -> (r: Vec<(u32, String, u16)>)
    requires
        lsof_readable(out@),
    ensures
        entry_views(r@) == lsof_entries(out@),
{
    let chars = chars_of(out);
    let ls = lines_of(&chars);
    let mut r: Vec<(u32, String, u16)> = Vec::new();
    let mut pid: u32 = 0;
    let mut process = String::new();
    let mut i: usize = 0;
    assert(views(ls@).skip(0) == views(ls@));
    while i < ls.len()
        invariant
            i <= ls.len(),
            views(ls@) == lines(out@),
            entry_views(r@) + lsof_fold(views(ls@).skip(i as int), pid, process@) == lsof_entries(
                out@,
            ),
        decreases ls.len() - i,
    {
        let ghost rest = views(ls@).skip(i as int);
        assert(rest[0] == ls@[i as int]@);
        assert(rest.drop_first() == views(ls@).skip(i + 1));
        let line = &ls[i];
        let n = line.len();
        if n > 0 {
            let tag = line[0];
            assert(line@.drop_first() == line@.subrange(1, n as int));
            if tag == 'p' {
                pid = match parse_range(line, 1, n, 10, 0xffff_ffff) {
                    Some(v) => v as u32,
                    None => 0,
                };
                process = String::new();
            } else if tag == 'c' {
                process = string_of(line, 1, n);
            } else if tag == 'n' {
                let val = copy_range(line, 1, n);
                let start = match rfind_char(&val, ':') {
                    Some(k) => k + 1,
                    None => 0,
                };
                assert(val@.subrange(start as int, val@.len() as int) == after_last(val@, ':'));
                match parse_range(&val, start, val.len(), 10, 0xffff) {
                    Some(port) => {
                        let ghost before = r@;
                        r.push((pid, process.clone(), port as u16));
                        assert(entry_views(r@) == entry_views(before).push(
                            (pid, process@, port as u16),
                        ));
                        assert(entry_views(r@) + lsof_fold(rest.drop_first(), pid, process@)
                            == entry_views(before) + lsof_fold(rest, pid, process@));
                    },
                    None => {},
                }
            }
        }
        i = i + 1;
    }
    assert(views(ls@).skip(ls.len() as int) == Seq::<Seq<char>>::empty());
    assert(entry_views(r@) + Seq::<(u32, Seq<char>, u16)>::empty() == entry_views(r@));
    r
}

fn fields_of(ps: &Vec<Vec<char>>) -> (r: Vec<u64>)
    ensures
        r@.map_values(|x: u64| x as nat) == parsed_fields(views(ps@)),
{
    let mut r: Vec<u64> = Vec::new();
    let mut i: usize = 0;
    while i < ps.len()
        invariant
            i <= ps.len(),
            r@.map_values(|x: u64| x as nat) == parsed_fields(views(ps@).take(i as int)),
        decreases ps.len() - i,
    {
        assert(views(ps@).take(i + 1).drop_last() == views(ps@).take(i as int));
        assert(views(ps@).take(i + 1).last() == ps@[i as int]@);
        let p = &ps[i];
        assert(p@.subrange(0, p@.len() as int) == p@);
        match parse_range(p, 0, p.len(), 10, 0xffff_ffff_ffff_ffff) {
            Some(v) => {
                let ghost before = r@;
                r.push(v);
                assert(r@.map_values(|x: u64| x as nat) == before.map_values(|x: u64| x as nat).push(
                    v as nat,
                ));
            },
            None => {},
        }
        i = i + 1;
    }
    assert(views(ps@).take(ps.len() as int) == views(ps@));
    r
}

fn etime_wide(v: &Vec<char>) -> (r: u128)
    ensures
        r == etime_value(v@),
{
    let k = find_char_from(v, 0, '-');
    assert(v@.skip(0) == v@);
    let n = v.len();
    let (days, lo) = if k < n {
        assert(v@.subrange(0, k as int) == v@.take(k as int));
        match parse_range(v, 0, k, 10, 0xffff_ffff_ffff_ffff) {
            Some(d) => (d, k + 1),
            None => (0, k + 1),
        }
    } else {
        (0, 0)
    };
    let rest = copy_range(v, lo, n);
    assert(k < n ==> rest@ == v@.skip(k + 1));
    assert(k >= n ==> rest@ == v@);
    let ps = pieces_of(&rest, ':');
    let parts = fields_of(&ps);
    assert(parts@.len() == parsed_fields(pieces(rest@, ':')).len());
    if parts.len() == 3 {
        assert(parts@.map_values(|x: u64| x as nat)[0] == parts@[0] as nat);
        assert(parts@.map_values(|x: u64| x as nat)[1] == parts@[1] as nat);
        assert(parts@.map_values(|x: u64| x as nat)[2] == parts@[2] as nat);
        days as u128 * 86400 + parts[0] as u128 * 3600 + parts[1] as u128 * 60 + parts[2] as u128
    } else if parts.len() == 2 {
        assert(parts@.map_values(|x: u64| x as nat)[0] == parts@[0] as nat);
        assert(parts@.map_values(|x: u64| x as nat)[1] == parts@[1] as nat);
        days as u128 * 86400 + parts[0] as u128 * 60 + parts[1] as u128
    } else if k >= n && ps.len() == 1 && parts.len() == 1 {
        assert(parts@.map_values(|x: u64| x as nat)[0] == parts@[0] as nat);
        assert(views(ps@).len() == ps@.len());
        parts[0] as u128
    } else {
        assert(views(ps@).len() == ps@.len());
        0
    }
}

/// Parse a `ps` elapsed time string into total seconds.
/// Formats: "SS", "MM:SS", "HH:MM:SS", "D-HH:MM:SS"
pub fn parse_etime(s: &str) -> (r: u64)
    requires
        etime_value(s@) <= u64::MAX,
    ensures
        r == etime_value(s@),
{
    let v = chars_of(s);
    etime_wide(&v) as u64
}

fn trimmed(v: &Vec<char>) -> (r: Vec<char>)
    ensures
        r@ == trim(v@),
{
    let (lo, hi) = trim_bounds(v);
    copy_range(v, lo, hi)
}

fn row_of(line: &Vec<char>) -> (r: Option<(u32, Vec<char>)>)
    ensures
        match r {
            Some((pid, e)) => ps_row(line@) == Some((pid, e@)),
            None => ps_row(line@) is None,
        },
{
    let t = trimmed(line);
    let k = find_space_from(&t, 0);
    assert(t@.skip(0) == t@);
    if k >= t.len() {
        return None;
    }
    let head = copy_range(&t, 0, k);
    assert(head@ == t@.take(k as int));
    let pid_text = trimmed(&head);
    assert(pid_text@.subrange(0, pid_text@.len() as int) == pid_text@);
    match parse_range(&pid_text, 0, pid_text.len(), 10, 0xffff_ffff) {
        None => None,
        Some(pid) => {
            let tail = copy_range(&t, k + 1, t.len());
            assert(tail@ == t@.skip(k + 1));
            Some((pid as u32, trimmed(&tail)))
        },
    }
}

/// Whether `ps_uptimes` can read this report.
pub fn ps_is_readable(out: &str) -> (b: bool)
    ensures
        b == ps_readable(out@),
{
    let chars = chars_of(out);
    let ls = lines_of(&chars);
    let mut i: usize = 0;
    while i < ls.len()
        invariant
            i <= ls.len(),
            views(ls@) == lines(out@),
            forall|j: int| 0 <= j < i ==> row_fits(#[trigger] lines(out@)[j]),
        decreases ls.len() - i,
    {
        assert(views(ls@)[i as int] == ls@[i as int]@);
        match row_of(&ls[i]) {
            Some((_, e)) => {
                if etime_wide(&e) > 0xffff_ffff_ffff_ffff {
                    return false;
                }
            },
            None => {},
        }
        i = i + 1;
    }
    true
}

/// Uptime in seconds by pid from the output of `ps -o pid=,etime= -p <pids>`;
/// a later line for a pid replaces an earlier one.
pub fn ps_uptimes(out: &str) -> (r: HashMap<u32, u64>)
    requires
        ps_readable(out@),
    ensures
        r@ == ps_map(lines(out@)),
{
    let chars = chars_of(out);
    let ls = lines_of(&chars);
    let mut m: HashMap<u32, u64> = HashMap::new();
    let mut i: usize = 0;
    assert(views(ls@).take(0) == Seq::<Seq<char>>::empty());
    while i < ls.len()
        invariant
            i <= ls.len(),
            views(ls@) == lines(out@),
            ps_readable(out@),
            m@ == ps_map(views(ls@).take(i as int)),
        decreases ls.len() - i,
    {
        assert(views(ls@).take(i + 1).drop_last() == views(ls@).take(i as int));
        assert(views(ls@).take(i + 1).last() == ls@[i as int]@);
        assert(row_fits(lines(out@)[i as int]));
        match row_of(&ls[i]) {
            Some((pid, e)) => {
                let secs = etime_wide(&e) as u64;
                m.insert(pid, secs);
            },
            None => {},
        }
        i = i + 1;
    }
    assert(views(ls@).take(ls.len() as int) == views(ls@));
    m
}

/// The records of the listening sockets, each with its process's uptime, 0
/// where `ps` gave none.
pub fn attach_uptimes(entries: &[(u32, String, u16)], uptimes: &HashMap<u32, u64>) -> (r: Vec<
    PortInfo,
>)
    ensures
        r@.len() == entries@.len(),
        forall|i: int|
            0 <= i < r@.len() ==> #[trigger] r@[i] == (PortInfo {
                port: entries@[i].2,
                pid: entries@[i].0,
                process: entries@[i].1,
                uptime_secs: uptime_of(uptimes@, entries@[i].0),
            }),
{
    let mut r: Vec<PortInfo> = Vec::new();
    let mut i: usize = 0;
    while i < entries.len()
        invariant
            i <= entries@.len(),
            r@.len() == i,
            forall|j: int|
                0 <= j < i ==> #[trigger] r@[j] == (PortInfo {
                    port: entries@[j].2,
                    pid: entries@[j].0,
                    process: entries@[j].1,
                    uptime_secs: uptime_of(uptimes@, entries@[j].0),
                }),
        decreases entries@.len() - i,
    {
        let pid = entries[i].0;
        let up = match uptimes.get(&pid) {
            Some(u) => *u,
            None => 0,
        };
        r.push(PortInfo { port: entries[i].2, pid, process: entries[i].1.clone(), uptime_secs: up });
        i = i + 1;
    }
    r
}

/// The pids of the listening sockets in decimal, as arguments for `ps -p`.
pub fn pid_args(entries: &[(u32, String, u16)]) -> (r: Vec<String>)
    ensures
        r@.len() == entries@.len(),
        forall|i: int| 0 <= i < r@.len() ==> #[trigger] r@[i]@ == decimal(entries@[i].0 as nat),
{
    let mut r: Vec<String> = Vec::new();
    let mut i: usize = 0;
    while i < entries.len()
        invariant
            i <= entries@.len(),
            r@.len() == i,
            forall|j: int| 0 <= j < i ==> #[trigger] r@[j]@ == decimal(entries@[j].0 as nat),
        decreases entries@.len() - i,
    {
        let mut s = String::new();
        push_decimal(&mut s, entries[i].0 as u64);
        assert(Seq::<char>::empty() + decimal(entries@[i as int].0 as nat) == decimal(
            entries@[i as int].0 as nat,
        ));
        r.push(s);
        i = i + 1;
    }
    r
}

/// Lines whose tag is not `p`, `c` or `n` (such as lsof's `f` lines), and
/// empty lines, change nothing: inserting one anywhere in a report leaves the
/// listeners read from it, and the pid and command that they carry, as they were.
pub proof fn lemma_lsof_other_lines_ignored(
    ls: Seq<Seq<char>>,
    i: int,
    l: Seq<char>,
    pid: u32,
    process: Seq<char>,
)
    requires
        0 <= i <= ls.len(),
        l.len() == 0 || (l[0] != 'p' && l[0] != 'c' && l[0] != 'n'),
    ensures
        lsof_fold(ls.insert(i, l), pid, process) == lsof_fold(ls, pid, process),
    decreases i,
{
    let m = ls.insert(i, l);
    if i == 0 {
        assert(m[0] == l);
        assert(m.drop_first() == ls);
    } else {
        let h = ls[0];
        assert(m[0] == h);
        assert(m.drop_first() == ls.drop_first().insert(i - 1, l));
        let rest = ls.drop_first();
        if h.len() == 0 {
            lemma_lsof_other_lines_ignored(rest, i - 1, l, pid, process);
        } else {
            let val = h.drop_first();
            if h[0] == 'p' {
                lemma_lsof_other_lines_ignored(
                    rest,
                    i - 1,
                    l,
                    or_zero(parse_uint(val, 10, u32::MAX as nat)) as u32,
                    seq![],
                );
            } else if h[0] == 'c' {
                lemma_lsof_other_lines_ignored(rest, i - 1, l, pid, val);
            } else {
                lemma_lsof_other_lines_ignored(rest, i - 1, l, pid, process);
            }
        }
    }
}

/// An `n` line after a `p` line and a `c` line names a listener of that
/// pid and command, whatever lines of other tags stand between them.
pub proof fn lemma_lsof_names_current_process(
    pid_text: Seq<char>,
    command: Seq<char>,
    others: Seq<Seq<char>>,
    address: Seq<char>,
    pid: nat,
    port: nat,
)
    requires
        parse_uint(pid_text, 10, u64::MAX as nat) == Some(pid),
        pid <= u32::MAX,
        parse_uint(after_last(address, ':'), 10, u64::MAX as nat) == Some(port),
        port <= u16::MAX,
        forall|j: int|
            0 <= j < others.len() ==> (#[trigger] others[j]).len() == 0 || (others[j][0] != 'p'
                && others[j][0] != 'c' && others[j][0] != 'n'),
    ensures
        lsof_fold(
            seq![seq!['p'] + pid_text, seq!['c'] + command] + others + seq![seq!['n'] + address],
            0,
            seq![],
        ) == seq![(pid as u32, command, port as u16)],
    decreases others.len(),
{
    lemma_parse_uint_bound(pid_text, 10, u64::MAX as nat, u32::MAX as nat);
    lemma_parse_uint_bound(after_last(address, ':'), 10, u64::MAX as nat, u16::MAX as nat);
    let pl = seq!['p'] + pid_text;
    let cl = seq!['c'] + command;
    let nl = seq!['n'] + address;
    assert(pl.drop_first() == pid_text);
    assert(cl.drop_first() == command);
    assert(nl.drop_first() == address);
    lemma_others_then_n(others, nl, pid as u32, command, port as u16);
    let all = seq![pl, cl] + others + seq![nl];
    let after_p = seq![cl] + others + seq![nl];
    assert(all[0] == pl && pl[0] == 'p');
    assert(all.drop_first() == after_p);
    assert(or_zero(parse_uint(pid_text, 10, u32::MAX as nat)) as u32 == pid as u32);
    assert(lsof_fold(all, 0, seq![]) == lsof_fold(after_p, pid as u32, seq![]));
    assert(after_p[0] == cl && cl[0] == 'c');
    assert(after_p.drop_first() == others + seq![nl]);
    assert(lsof_fold(after_p, pid as u32, seq![]) == lsof_fold(
        others + seq![nl],
        pid as u32,
        command,
    ));
}

proof fn lemma_others_then_n(
    others: Seq<Seq<char>>,
    nl: Seq<char>,
    pid: u32,
    command: Seq<char>,
    port: u16,
)
    requires
        nl.len() > 0 && nl[0] == 'n',
        parse_uint(after_last(nl.drop_first(), ':'), 10, u16::MAX as nat) == Some(port as nat),
        forall|j: int|
            0 <= j < others.len() ==> (#[trigger] others[j]).len() == 0 || (others[j][0] != 'p'
                && others[j][0] != 'c' && others[j][0] != 'n'),
    ensures
        lsof_fold(others + seq![nl], pid, command) == seq![(pid, command, port)],
    decreases others.len(),
{
    if others.len() == 0 {
        let s = others + seq![nl];
        assert(s == seq![nl]);
        assert(s[0] == nl);
        assert(s.drop_first() == Seq::<Seq<char>>::empty());
        assert(lsof_fold(s.drop_first(), pid, command) == Seq::<(u32, Seq<char>, u16)>::empty());
        let v = parse_uint(after_last(nl.drop_first(), ':'), 10, u16::MAX as nat)->0;
        assert(v as u16 == port);
        assert(lsof_fold(s, pid, command) == seq![(pid, command, v as u16)] + lsof_fold(
            s.drop_first(),
            pid,
            command,
        ));
    } else {
        let s = others + seq![nl];
        assert(s[0] == others[0]);
        assert(s.drop_first() == others.drop_first() + seq![nl]);
        assert forall|j: int| 0 <= j < others.drop_first().len() implies (#[trigger] others.drop_first()[j]).len()
            == 0 || (others.drop_first()[j][0] != 'p' && others.drop_first()[j][0] != 'c'
            && others.drop_first()[j][0] != 'n') by {
            assert(others.drop_first()[j] == others[j + 1]);
        }
        lemma_others_then_n(others.drop_first(), nl, pid, command, port);
        assert(lsof_fold(s, pid, command) == lsof_fold(s.drop_first(), pid, command));
    }
}

proof fn lemma_decimal_not_space(n: nat)
    ensures
        decimal(n).len() > 0,
        forall|j: int| 0 <= j < decimal(n).len() ==> !is_space(#[trigger] decimal(n)[j]),
{
    crate::number::lemma_decimal_digits(n);
    assert forall|j: int| 0 <= j < decimal(n).len() implies !is_space(#[trigger] decimal(n)[j]) by {
        assert(crate::number::digit_value(decimal(n)[j], 10) is Some);
    }
}

/// A `ps` line `<pid> <elapsed>` is read as that pid with the seconds of that
/// elapsed time, for every `u32` pid written in decimal and every elapsed
/// time (no white space at its ends) whose seconds fit in a `u64`; a later
/// line for the pid replaces what an earlier one gave.
pub proof fn lemma_ps_line_read(ls: Seq<Seq<char>>, pid: u32, e: Seq<char>)
    requires
        e.len() > 0,
        !is_space(e[0]),
        !is_space(e.last()),
        etime_value(e) <= u64::MAX,
    ensures
        ps_map(ls.push(decimal(pid as nat) + seq![' '] + e)) == ps_map(ls).insert(
            pid,
            etime_value(e) as u64,
        ),
        ps_map(ls.push(decimal(pid as nat) + seq![' '] + e))[pid] as nat == etime_value(e),
{
    let d = decimal(pid as nat);
    let line = d + seq![' '] + e;
    lemma_decimal_not_space(pid as nat);
    assert(line[0] == d[0]);
    assert(line.last() == e.last());
    assert(trim_start(line) == line);
    assert(trim_end(line) == line);
    assert(trim(line) == line);
    assert forall|j: int| 0 <= j < d.len() implies !space()(#[trigger] line[j]) by {
        assert(line[j] == d[j]);
    }
    assert(line[d.len() as int] == ' ');
    crate::text::lemma_first_match_at(line, space(), d.len() as int);
    assert(line.take(d.len() as int) == d);
    assert(line.skip(d.len() as int + 1) == e);
    assert(d[0] == d[0] && !is_space(d[0]) && !is_space(d.last()));
    assert(trim_start(d) == d);
    assert(trim_end(d) == d);
    assert(trim_start(e) == e);
    assert(trim_end(e) == e);
    crate::number::lemma_decimal_parses(pid as nat, u32::MAX as nat);
    assert(ps_row(line) == Some((pid, e)));
    assert(ls.push(line).drop_last() == ls);
}

proof fn lemma_decimal_plain(n: nat)
    ensures
        decimal(n).len() > 0,
        forall|j: int| 0 <= j < decimal(n).len() ==> '0' <= #[trigger] decimal(n)[j] <= '9',
        parse_uint(decimal(n), 10, u64::MAX as nat) == (if n <= u64::MAX {
            Some(n)
        } else {
            None
        }),
{
    crate::number::lemma_decimal_digits(n);
    assert forall|j: int| 0 <= j < decimal(n).len() implies '0' <= #[trigger] decimal(n)[j]
        <= '9' by {
        assert(crate::number::digit_value(decimal(n)[j], 10) is Some);
    }
    if n <= u64::MAX {
        crate::number::lemma_decimal_parses(n, u64::MAX as nat);
    }
}

proof fn lemma_fields3(a: Seq<char>, b: Seq<char>, c: Seq<char>, x: nat, y: nat, z: nat)
    requires
        parse_uint(a, 10, u64::MAX as nat) == Some(x),
        parse_uint(b, 10, u64::MAX as nat) == Some(y),
        parse_uint(c, 10, u64::MAX as nat) == Some(z),
    ensures
        parsed_fields(seq![a, b, c]) == seq![x, y, z],
        parsed_fields(seq![b, c]) == seq![y, z],
        parsed_fields(seq![c]) == seq![z],
{
    assert(seq![a, b, c].drop_last() == seq![a, b] && seq![a, b, c].last() == c);
    assert(seq![a, b].drop_last() == seq![a] && seq![a, b].last() == b);
    assert(seq![a].drop_last() == Seq::<Seq<char>>::empty() && seq![a].last() == a);
    assert(seq![b, c].drop_last() == seq![b] && seq![b, c].last() == c);
    assert(seq![b].drop_last() == Seq::<Seq<char>>::empty() && seq![b].last() == b);
    assert(seq![c].drop_last() == Seq::<Seq<char>>::empty() && seq![c].last() == c);
    assert(parsed_fields(Seq::<Seq<char>>::empty()) == Seq::<nat>::empty());
    assert(Seq::<nat>::empty() + seq![x] == seq![x]);
    assert(Seq::<nat>::empty() + seq![y] == seq![y]);
    assert(parsed_fields(seq![a]) == seq![x]);
    assert(parsed_fields(seq![a, b]) == seq![x] + seq![y]);
    assert(parsed_fields(seq![a, b, c]) == seq![x, y] + seq![z]);
    assert(parsed_fields(seq![b]) == seq![y]);
    assert(parsed_fields(seq![b, c]) == seq![y] + seq![z]);
}

/// The elapsed-time forms that `ps` writes, read for every value: `SS` is SS
/// seconds, `MM:SS` is MM minutes and SS seconds, `HH:MM:SS` adds HH hours and
/// `D-HH:MM:SS` adds D days; a day count before a lone field gives 0.
pub proof fn lemma_etime_forms(d: nat, h: nat, m: nat, s: nat)
    requires
        d <= u64::MAX,
        h <= u64::MAX,
        m <= u64::MAX,
        s <= u64::MAX,
    ensures
        etime_value(decimal(s)) == s,
        etime_value(decimal(m) + seq![':'] + decimal(s)) == m * 60 + s,
        etime_value(decimal(h) + seq![':'] + decimal(m) + seq![':'] + decimal(s)) == h * 3600 + m
            * 60 + s,
        etime_value(
            decimal(d) + seq!['-'] + decimal(h) + seq![':'] + decimal(m) + seq![':'] + decimal(s),
        ) == d * 86400 + h * 3600 + m * 60 + s,
        etime_value(decimal(d) + seq!['-'] + decimal(s)) == 0,
{
    lemma_decimal_plain(d);
    lemma_decimal_plain(h);
    lemma_decimal_plain(m);
    lemma_decimal_plain(s);
    let dd = decimal(d);
    let dh = decimal(h);
    let dm = decimal(m);
    let ds = decimal(s);
    lemma_fields3(dh, dm, ds, h, m, s);
    // Lone seconds.
    crate::text::lemma_first_char_absent(ds, '-');
    crate::text::lemma_pieces_whole(ds, ':');
    // Minutes and seconds.
    let ms = dm + seq![':'] + ds;
    assert forall|j: int| 0 <= j < ms.len() implies ms[j] != '-' by {
        if j < dm.len() {
            assert(ms[j] == dm[j]);
        } else if j > dm.len() {
            assert(ms[j] == ds[j - dm.len() - 1]);
        }
    }
    crate::text::lemma_first_char_absent(ms, '-');
    crate::text::lemma_pieces_split(dm, ds, ':');
    assert(pieces(ms, ':') == seq![dm, ds]);
    // Hours, minutes and seconds.
    let hms = dh + seq![':'] + ms;
    assert(dh + seq![':'] + dm + seq![':'] + ds == hms);
    assert forall|j: int| 0 <= j < hms.len() implies hms[j] != '-' by {
        if j < dh.len() {
            assert(hms[j] == dh[j]);
        } else if j > dh.len() {
            assert(hms[j] == ms[j - dh.len() - 1]);
        }
    }
    crate::text::lemma_first_char_absent(hms, '-');
    crate::text::lemma_pieces_split(dh, ms, ':');
    assert(pieces(hms, ':') == seq![dh, dm, ds]);
    // Days, then hours, minutes and seconds.
    let dhms = dd + seq!['-'] + hms;
    assert(dd + seq!['-'] + dh + seq![':'] + dm + seq![':'] + ds == dhms);
    assert forall|j: int| 0 <= j < dd.len() implies !is_char('-')(#[trigger] dhms[j]) by {
        assert(dhms[j] == dd[j]);
    }
    assert(dhms[dd.len() as int] == '-');
    crate::text::lemma_first_match_at(dhms, is_char('-'), dd.len() as int);
    assert(dhms.take(dd.len() as int) == dd);
    assert(dhms.skip(dd.len() as int + 1) == hms);
    // Days, then a lone field.
    let dsec = dd + seq!['-'] + ds;
    assert forall|j: int| 0 <= j < dd.len() implies !is_char('-')(#[trigger] dsec[j]) by {
        assert(dsec[j] == dd[j]);
    }
    assert(dsec[dd.len() as int] == '-');
    crate::text::lemma_first_match_at(dsec, is_char('-'), dd.len() as int);
    assert(dsec.take(dd.len() as int) == dd);
    assert(dsec.skip(dd.len() as int + 1) == ds);
}

} // verus!
