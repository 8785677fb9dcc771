//! The records of a scan and how they are written for people.

use vstd::prelude::*;
use crate::number::{
    decimal, digits_value, lemma_decimal_digits, lemma_decimal_parses, parse_uint, push_decimal,
};
use crate::text::{chars_of, push_char, push_range};

verus! {

/// Information about a single listening TCP port.
#[derive(Clone, Debug, PartialEq, Eq)]
pub struct PortInfo {
    pub port: u16,
    pub pid: u32,
    pub process: String,
    pub uptime_secs: u64,
}

/// A change detected between two port scans.
#[derive(Clone, Debug, PartialEq, Eq)]
pub enum PortChange {
    Opened(PortInfo),
    Closed(PortInfo),
}

/// Why a scan failed.
#[derive(Clone, Debug)]
pub enum ScanError {
    /// /proc not readable (Linux) or lsof not available (macOS)
    Unavailable(String),
}

/// `seconds` as a short duration: whole seconds, minutes, hours or days.
pub open spec fn uptime_text(seconds: nat) -> Seq<char> {
    if seconds < 60 {
        decimal(seconds).push('s')
    } else if seconds < 3600 {
        decimal(seconds / 60).push('m')
    } else if seconds < 86400 {
        decimal(seconds / 3600).push('h')
    } else {
        decimal(seconds / 86400).push('d')
    }
}

/// `:<port> <process> (pid <pid>, up <uptime>)`.
pub open spec fn port_text(p: PortInfo) -> Seq<char> {
    seq![':'] + decimal(p.port as nat) + seq![' '] + p.process@ + " (pid "@ + decimal(p.pid as nat)
        + ", up "@ + uptime_text(p.uptime_secs as nat) + seq![')']
}

/// `+ <port>` for an opened port, `- <port>` for a closed one.
pub open spec fn change_text(c: PortChange) -> Seq<char> {
    match c {
        PortChange::Opened(p) => "+ "@ + port_text(p),
        PortChange::Closed(p) => "- "@ + port_text(p),
    }
}

/// What a character becomes in text that is safe to print to a terminal.
pub open spec fn safe_char(c: char) -> char {
    if ('!' <= c && c <= '~') || c == ' ' {
        c
    } else {
        '?'
    }
}

/// `s` with every character that is neither ASCII graphic nor a space replaced by `'?'`.
pub open spec fn sanitized(s: Seq<char>) -> Seq<char> {
    s.map_values(|c: char| safe_char(c))
}

/// The arguments of `kill` for `pid`, or none where `pid` is refused.
pub open spec fn kill_arguments(pid: u32, force: bool) -> Option<Seq<Seq<char>>> {
    if pid <= 1 || pid > i32::MAX {
        None
    } else {
        Some(seq![if force { "-9"@ } else { "-15"@ }, decimal(pid as nat)])
    }
}

/// Appends a string slice to a string.
pub fn push_str(s: &mut String, t: &str)
    ensures
        final(s)@ == old(s)@ + t@,
{
    let v = chars_of(t);
    push_range(s, &v, 0, v.len());
    assert(v@.subrange(0, v@.len() as int) == t@);
}

impl PortInfo {
    /// A copy of this record.
    pub fn duplicate(&self) -> (r: PortInfo)
        ensures
            r == *self,
    {
        PortInfo {
            port: self.port,
            pid: self.pid,
            process: self.process.clone(),
            uptime_secs: self.uptime_secs,
        }
    }

    /// The record as one line: `:<port> <process> (pid <pid>, up <uptime>)`.
    pub fn to_string(&self) -> (s: String)
        ensures
            s@ == port_text(*self),
    {
        let mut s = String::new();
        push_text(&mut s, self);
        assert(Seq::<char>::empty() + port_text(*self) == port_text(*self));
        s
    }
}

fn push_text(s: &mut String, p: &PortInfo)
    ensures
        final(s)@ == old(s)@ + port_text(*p),
{
    push_char(s, ':');
    push_decimal(s, p.port as u64);
    push_char(s, ' ');
    push_str(s, p.process.as_str());
    push_str(s, " (pid ");
    push_decimal(s, p.pid as u64);
    push_str(s, ", up ");
    push_uptime(s, p.uptime_secs);
    push_char(s, ')');
    assert(final(s)@ == old(s)@ + port_text(*p));
}

impl PortChange {
    /// The change as one line: `+ ` or `- ` before the port's line.
    pub fn to_string(&self) -> (s: String)
        ensures
            s@ == change_text(*self),
    {
        let mut s = String::new();
        match self {
            PortChange::Opened(p) => {
                push_str(&mut s, "+ ");
                push_text(&mut s, p);
            },
            PortChange::Closed(p) => {
                push_str(&mut s, "- ");
                push_text(&mut s, p);
            },
        }
        assert(s@ == change_text(*self));
        s
    }
}

impl ScanError {
    /// The error as one line: `scan failed: <reason>`.
    pub fn to_string(&self) -> (s: String)
        ensures
            s@ == match *self {
                ScanError::Unavailable(msg) => "scan failed: "@ + msg@,
            },
    {
        let mut s = String::new();
        match self {
            ScanError::Unavailable(msg) => {
                push_str(&mut s, "scan failed: ");
                push_str(&mut s, msg.as_str());
            },
        }
        s
    }
}

fn push_uptime(s: &mut String, seconds: u64)
    ensures
        final(s)@ == old(s)@ + uptime_text(seconds as nat),
{
    let (n, unit) = if seconds < 60 {
        (seconds, 's')
    } else if seconds < 3600 {
        (seconds / 60, 'm')
    } else if seconds < 86400 {
        (seconds / 3600, 'h')
    } else {
        (seconds / 86400, 'd')
    };
    push_decimal(s, n);
    push_char(s, unit);
    assert(final(s)@ == old(s)@ + uptime_text(seconds as nat));
}

/// Format seconds into a short human-readable duration.
pub fn format_uptime(seconds: u64) -> (s: String)
    ensures
        s@ == uptime_text(seconds as nat),
{
    let mut s = String::new();
    push_uptime(&mut s, seconds);
    assert(Seq::<char>::empty() + uptime_text(seconds as nat) == uptime_text(seconds as nat));
    s
}

/// Replace non-printable characters with '?' to prevent terminal escape injection.
/// Allows ASCII graphic characters and spaces only. Not safe for shell arguments.
pub fn sanitize(s: &str) -> (r: String)
    ensures
        r@ == sanitized(s@),
{
    let v = chars_of(s);
    let mut r = String::new();
    let mut i: usize = 0;
    while i < v.len()
        invariant
            i <= v.len(),
            v@ == s@,
            r@ == sanitized(v@.take(i as int)),
        decreases v.len() - i,
    {
        let c = v[i];
        let out = if ('!' <= c && c <= '~') || c == ' ' {
            c
        } else {
            '?'
        };
        push_char(&mut r, out);
        i = i + 1;
        assert(sanitized(v@.take(i as int)) == sanitized(v@.take(i - 1)).push(out));
    }
    assert(v@.take(v.len() as int) == v@);
    r
}

/// The arguments for `kill` that signal `pid`: `-9` (SIGKILL) when forced,
/// else `-15` (SIGTERM), then the pid. Refuses pid 0, 1 and values above `i32::MAX`.
pub fn kill_args(pid: u32, force: bool) -> (r: Option<Vec<String>>)
    ensures
        match r {
            Some(a) => kill_arguments(pid, force) matches Some(k) && a@.len() == k.len() && forall|
                i: int,
            | 0 <= i < a@.len() ==> #[trigger] a@[i]@ == k[i],
            None => kill_arguments(pid, force) is None,
        },
{
    if pid <= 1 || pid > 0x7fff_ffff {
        return None;
    }
    let mut signal = String::new();
    if force {
        push_str(&mut signal, "-9");
    } else {
        push_str(&mut signal, "-15");
    }
    let mut number = String::new();
    push_decimal(&mut number, pid as u64);
    let mut args: Vec<String> = Vec::new();
    args.push(signal);
    args.push(number);
    assert(Seq::<char>::empty() + "-9"@ == "-9"@);
    assert(Seq::<char>::empty() + "-15"@ == "-15"@);
    assert(Seq::<char>::empty() + decimal(pid as nat) == decimal(pid as nat));
    Some(args)
}

/// Sanitizing twice is sanitizing once: what `sanitize` writes is already safe.
pub proof fn lemma_sanitize_idempotent(s: Seq<char>)
    ensures
        sanitized(sanitized(s)) == sanitized(s),
{
    assert(sanitized(sanitized(s)) =~= sanitized(s));
}

/// Everything `sanitize` writes is an ASCII graphic character or a space, one per input character.
pub proof fn lemma_sanitize_printable(s: Seq<char>)
    ensures
        sanitized(s).len() == s.len(),
        forall|i: int|
            0 <= i < s.len() ==> ('!' <= #[trigger] sanitized(s)[i] <= '~') || sanitized(s)[i]
                == ' ',
        forall|i: int|
            0 <= i < s.len() && (('!' <= #[trigger] s[i] <= '~') || s[i] == ' ') ==> sanitized(
                s,
            )[i] == s[i],
{
}

/// The rank of a duration's unit: seconds, minutes, hours, days.
pub open spec fn unit_rank(c: char) -> nat {
    if c == 's' {
        0
    } else if c == 'm' {
        1
    } else if c == 'h' {
        2
    } else {
        3
    }
}

/// A longer duration never shows a smaller unit, nor a smaller number in the same unit.
pub proof fn lemma_uptime_monotone(a: nat, b: nat)
    requires
        a <= b,
    ensures
        ({
            let ta = uptime_text(a);
            let tb = uptime_text(b);
            ||| unit_rank(ta.last()) < unit_rank(tb.last())
            ||| unit_rank(ta.last()) == unit_rank(tb.last()) && digits_value(ta.drop_last(), 10)
                <= digits_value(tb.drop_last(), 10)
        }),
{
    lemma_uptime_parts(a);
    lemma_uptime_parts(b);
    vstd::arithmetic::div_mod::lemma_div_is_ordered(a as int, b as int, 60);
    vstd::arithmetic::div_mod::lemma_div_is_ordered(a as int, b as int, 3600);
    vstd::arithmetic::div_mod::lemma_div_is_ordered(a as int, b as int, 86400);
}

proof fn lemma_uptime_parts(t: nat)
    ensures
        uptime_text(t).last() == (if t < 60 {
            's'
        } else if t < 3600 {
            'm'
        } else if t < 86400 {
            'h'
        } else {
            'd'
        }),
        digits_value(uptime_text(t).drop_last(), 10) == (if t < 60 {
            t
        } else if t < 3600 {
            t / 60
        } else if t < 86400 {
            t / 3600
        } else {
            t / 86400
        }),
{
    let n = if t < 60 {
        t
    } else if t < 3600 {
        t / 60
    } else if t < 86400 {
        t / 3600
    } else {
        t / 86400
    };
    lemma_decimal_digits(n);
    assert(uptime_text(t).drop_last() == decimal(n));
}

/// For every pid that may be signalled (2..=i32::MAX) there are two
/// arguments: `-9` (SIGKILL) when forced and `-15` (SIGTERM) otherwise, the
/// same for every pid, then the pid in decimal, which reads back as the pid.
pub proof fn lemma_kill_signal(pid: u32, other: u32, force: bool)
    requires
        2 <= pid <= i32::MAX,
        2 <= other <= i32::MAX,
    ensures
        kill_arguments(pid, force) is Some,
        kill_arguments(pid, force)->0.len() == 2,
        kill_arguments(pid, force)->0[0] == (if force {
            "-9"@
        } else {
            "-15"@
        }),
        kill_arguments(pid, force)->0[0] == kill_arguments(other, force)->0[0],
        parse_uint(kill_arguments(pid, force)->0[1], 10, u32::MAX as nat) == Some(pid as nat),
{
    lemma_decimal_parses(pid as nat, u32::MAX as nat);
}

/// Only pids 0, 1 and those above `i32::MAX` are refused.
pub proof fn lemma_kill_refuses(pid: u32, force: bool)
    ensures
        kill_arguments(pid, force) is None <==> (pid <= 1 || pid > i32::MAX),
{
}

/// The duration shown is `t` counted down to a whole number in the largest
/// unit that it reaches: seconds below a minute, minutes below an hour, hours
/// below a day, else days; the number shown, times its unit, is at most `t`
/// and short of it by less than one unit.
pub proof fn lemma_uptime_scale(t: nat)
    ensures
        ({
            let u = uptime_text(t).last();
            let n = digits_value(uptime_text(t).drop_last(), 10);
            &&& u == 's' || u == 'm' || u == 'h' || u == 'd'
            &&& u == 's' ==> t < 60 && n == t
            &&& u == 'm' ==> 60 <= t < 3600 && n * 60 <= t < n * 60 + 60
            &&& u == 'h' ==> 3600 <= t < 86400 && n * 3600 <= t < n * 3600 + 3600
            &&& u == 'd' ==> 86400 <= t && n * 86400 <= t < n * 86400 + 86400
        }),
{
    lemma_uptime_parts(t);
}

} // verus!
