//! Snapshots of the listening ports: merging a raw scan, comparing two
//! snapshots, and following a sequence of them.

use vstd::prelude::*;
use crate::port::{PortChange, PortInfo};

verus! {

/// Some record of `s` is for `port`.
pub open spec fn has_port(s: Seq<PortInfo>, port: u16) -> bool {
    exists|i: int| 0 <= i < s.len() && #[trigger] s[i].port == port
}

/// Ports strictly increase along `s`: sorted, and no port twice.
pub open spec fn sorted_by_port(s: Seq<PortInfo>) -> bool {
    forall|i: int, j: int| 0 <= i < j < s.len() ==> #[trigger] s[i].port < #[trigger] s[j].port
}

/// The first record of `s` for `port`.
pub open spec fn first_for(s: Seq<PortInfo>, port: u16) -> Option<PortInfo>
    decreases s.len(),
{
    if s.len() == 0 {
        None
    } else {
        match first_for(s.drop_last(), port) {
            Some(p) => Some(p),
            None => if s.last().port == port {
                Some(s.last())
            } else {
                None
            },
        }
    }
}

/// The last record of `s` for `port`: the one a map keyed by port keeps.
pub open spec fn last_for(s: Seq<PortInfo>, port: u16) -> Option<PortInfo>
    decreases s.len(),
{
    if s.len() == 0 {
        None
    } else {
        match last_for(s.drop_first(), port) {
            Some(p) => Some(p),
            None => if s[0].port == port {
                Some(s[0])
            } else {
                None
            },
        }
    }
}

/// `s` with `p` put in port order, unless `s` already holds a record for its port.
pub open spec fn insert_by_port(s: Seq<PortInfo>, p: PortInfo) -> Seq<PortInfo>
    decreases s.len(),
{
    if s.len() == 0 {
        seq![p]
    } else if s[0].port == p.port {
        s
    } else if p.port < s[0].port {
        seq![p] + s
    } else {
        seq![s[0]] + insert_by_port(s.drop_first(), p)
    }
}

/// A raw scan merged: one record per port, the first one seen, in port order.
pub open spec fn merged(raw: Seq<PortInfo>) -> Seq<PortInfo>
    decreases raw.len(),
{
    if raw.len() == 0 {
        seq![]
    } else {
        insert_by_port(merged(raw.drop_last()), raw.last())
    }
}

/// `s` holds what a merge of `raw` holds: one record per port of `raw`,
/// the first that `raw` has for it, in increasing port order.
pub open spec fn is_merge_of(s: Seq<PortInfo>, raw: Seq<PortInfo>) -> bool {
    &&& sorted_by_port(s)
    &&& forall|i: int| 0 <= i < s.len() ==> first_for(raw, #[trigger] s[i].port) == Some(s[i])
    &&& forall|port: u16| has_port(s, port) <==> has_port(raw, port)
}

/// The records of `curr` whose port `prev` lacks, each port once with its
/// last record in `curr`, in the order of those last records.
pub open spec fn appeared(prev: Seq<PortInfo>, curr: Seq<PortInfo>) -> Seq<PortInfo>
    decreases curr.len(),
{
    if curr.len() == 0 {
        seq![]
    } else {
        let rest = appeared(prev, curr.drop_first());
        if !has_port(prev, curr[0].port) && !has_port(curr.drop_first(), curr[0].port) {
            seq![curr[0]] + rest
        } else {
            rest
        }
    }
}

/// Each record as an opened port.
pub open spec fn as_opened(s: Seq<PortInfo>) -> Seq<PortChange> {
    s.map_values(|p: PortInfo| PortChange::Opened(p))
}

/// Each record as a closed port.
pub open spec fn as_closed(s: Seq<PortInfo>) -> Seq<PortChange> {
    s.map_values(|p: PortInfo| PortChange::Closed(p))
}

/// What changed from `prev` to `curr`: the ports that opened, then those that closed.
pub open spec fn changes(prev: Seq<PortInfo>, curr: Seq<PortInfo>) -> Seq<PortChange> {
    as_opened(appeared(prev, curr)) + as_closed(appeared(curr, prev))
}

/// The records that a list of changes opens.
pub open spec fn opened_of(c: Seq<PortChange>) -> Seq<PortInfo>
    decreases c.len(),
{
    if c.len() == 0 {
        seq![]
    } else {
        match c[0] {
            PortChange::Opened(p) => seq![p] + opened_of(c.drop_first()),
            PortChange::Closed(_) => opened_of(c.drop_first()),
        }
    }
}

/// The records that a list of changes closes.
pub open spec fn closed_of(c: Seq<PortChange>) -> Seq<PortInfo>
    decreases c.len(),
{
    if c.len() == 0 {
        seq![]
    } else {
        match c[0] {
            PortChange::Opened(_) => closed_of(c.drop_first()),
            PortChange::Closed(p) => seq![p] + closed_of(c.drop_first()),
        }
    }
}

proof fn lemma_first_for(s: Seq<PortInfo>, port: u16)
    ensures
        first_for(s, port) is None <==> !has_port(s, port),
        first_for(s, port) matches Some(p) ==> p.port == port && s.contains(p),
    decreases s.len(),
{
    if s.len() > 0 {
        let t = s.drop_last();
        lemma_first_for(t, port);
        if has_port(t, port) {
            let i = choose|i: int| 0 <= i < t.len() && #[trigger] t[i].port == port;
            assert(s[i].port == port);
        }
        if has_port(s, port) && !has_port(t, port) {
            let i = choose|i: int| 0 <= i < s.len() && #[trigger] s[i].port == port;
            if i < s.len() - 1 {
                assert(t[i].port == port);
            }
        }
        if let Some(p) = first_for(t, port) {
            let k = choose|k: int| 0 <= k < t.len() && t[k] == p;
            assert(s[k] == p);
        } else if s.last().port == port {
            assert(s[s.len() - 1] == s.last());
        }
    }
}

proof fn lemma_cons(a: PortInfo, t: Seq<PortInfo>)
    ensures
        forall|q: u16| has_port(seq![a] + t, q) <==> a.port == q || has_port(t, q),
        forall|x: PortInfo| (seq![a] + t).contains(x) <==> x == a || t.contains(x),
{
    let r = seq![a] + t;
    assert forall|q: u16| has_port(r, q) <==> a.port == q || has_port(t, q) by {
        if has_port(r, q) {
            let k = choose|k: int| 0 <= k < r.len() && #[trigger] r[k].port == q;
            if k > 0 {
                assert(t[k - 1].port == q);
            }
        }
        if has_port(t, q) {
            let k = choose|k: int| 0 <= k < t.len() && #[trigger] t[k].port == q;
            assert(r[k + 1].port == q);
        }
        if a.port == q {
            assert(r[0].port == q);
        }
    }
    assert forall|x: PortInfo| r.contains(x) <==> x == a || t.contains(x) by {
        if r.contains(x) {
            let k = choose|k: int| 0 <= k < r.len() && r[k] == x;
            if k > 0 {
                assert(t[k - 1] == x);
            }
        }
        if t.contains(x) {
            let k = choose|k: int| 0 <= k < t.len() && t[k] == x;
            assert(r[k + 1] == x);
        }
        if x == a {
            assert(r[0] == x);
        }
    }
}

proof fn lemma_sorted_tail(s: Seq<PortInfo>)
    requires
        sorted_by_port(s),
        s.len() > 0,
    ensures
        sorted_by_port(s.drop_first()),
        forall|q: u16| has_port(s.drop_first(), q) ==> s[0].port < q,
        s == seq![s[0]] + s.drop_first(),
{
    let t = s.drop_first();
    assert forall|i: int, j: int| 0 <= i < j < t.len() implies #[trigger] t[i].port
        < #[trigger] t[j].port by {
        assert(t[i] == s[i + 1] && t[j] == s[j + 1]);
    }
    assert forall|q: u16| has_port(t, q) implies s[0].port < q by {
        let k = choose|k: int| 0 <= k < t.len() && #[trigger] t[k].port == q;
        assert(t[k] == s[k + 1]);
    }
    assert(s == seq![s[0]] + t);
}

proof fn lemma_sorted_cons(a: PortInfo, t: Seq<PortInfo>)
    requires
        sorted_by_port(t),
        forall|q: u16| has_port(t, q) ==> a.port < q,
    ensures
        sorted_by_port(seq![a] + t),
{
    let r = seq![a] + t;
    assert forall|i: int, j: int| 0 <= i < j < r.len() implies #[trigger] r[i].port
        < #[trigger] r[j].port by {
        assert(r[j] == t[j - 1]);
        if i > 0 {
            assert(r[i] == t[i - 1]);
        } else {
            assert(has_port(t, t[j - 1].port));
        }
    }
}

proof fn lemma_insert_by_port(s: Seq<PortInfo>, p: PortInfo)
    requires
        sorted_by_port(s),
    ensures
        sorted_by_port(insert_by_port(s, p)),
        forall|x: PortInfo|
            insert_by_port(s, p).contains(x) <==> s.contains(x) || (x == p && !has_port(
                s,
                p.port,
            )),
        forall|q: u16| has_port(insert_by_port(s, p), q) <==> has_port(s, q) || q == p.port,
    decreases s.len(),
{
    let r = insert_by_port(s, p);
    if s.len() == 0 {
        lemma_cons(p, s);
        assert(r == seq![p] + s);
        lemma_sorted_cons(p, s);
        assert(r.len() == 1 && r[0] == p);
        assert forall|q: u16| has_port(r, q) <==> has_port(s, q) || q == p.port by {
            if q == p.port {
                assert(r[0].port == q);
            }
        }
    } else {
        lemma_sorted_tail(s);
        let t = s.drop_first();
        lemma_cons(s[0], t);
        assert(has_port(s, p.port) <==> s[0].port == p.port || has_port(t, p.port));
        if s[0].port == p.port {
            assert(r == s);
            assert(has_port(s, p.port)) by {
                assert(s[0].port == p.port);
            }
        } else if p.port < s[0].port {
            lemma_cons(p, s);
            lemma_sorted_cons(p, s);
            assert(r == seq![p] + s);
            assert(!has_port(s, p.port));
            assert forall|q: u16| has_port(r, q) <==> has_port(s, q) || q == p.port by {
                assert(has_port(r, q) <==> p.port == q || has_port(s, q));
            }
            assert forall|x: PortInfo| r.contains(x) <==> s.contains(x) || (x == p && !has_port(
                s,
                p.port,
            )) by {
                assert(r.contains(x) <==> x == p || s.contains(x));
            }
        } else {
            lemma_insert_by_port(t, p);
            let rt = insert_by_port(t, p);
            lemma_cons(s[0], rt);
            assert forall|q: u16| has_port(rt, q) implies s[0].port < q by {
                if has_port(t, q) {
                }
            }
            lemma_sorted_cons(s[0], rt);
            assert(r == seq![s[0]] + rt);
            assert(has_port(s, p.port) <==> has_port(t, p.port));
            assert forall|q: u16| has_port(r, q) <==> has_port(s, q) || q == p.port by {
                assert(has_port(r, q) <==> s[0].port == q || has_port(rt, q));
                assert(has_port(s, q) <==> s[0].port == q || has_port(t, q));
            }
            assert forall|x: PortInfo| r.contains(x) <==> s.contains(x) || (x == p && !has_port(
                s,
                p.port,
            )) by {
                assert(r.contains(x) <==> x == s[0] || rt.contains(x));
                assert(s.contains(x) <==> x == s[0] || t.contains(x));
            }
        }
    }
}

/// What `merged` makes of a raw scan is a merge of it in the sense of `is_merge_of`.
pub proof fn lemma_merged(raw: Seq<PortInfo>)
    ensures
        is_merge_of(merged(raw), raw),
    decreases raw.len(),
{
    if raw.len() > 0 {
        let t = raw.drop_last();
        let p = raw.last();
        lemma_merged(t);
        let m0 = merged(t);
        let m = merged(raw);
        lemma_insert_by_port(m0, p);
        assert forall|port: u16| has_port(raw, port) <==> has_port(t, port) || port == p.port by {
            if has_port(raw, port) {
                let k = choose|k: int| 0 <= k < raw.len() && #[trigger] raw[k].port == port;
                if k < raw.len() - 1 {
                    assert(t[k].port == port);
                }
            }
            if has_port(t, port) {
                let k = choose|k: int| 0 <= k < t.len() && #[trigger] t[k].port == port;
                assert(raw[k].port == port);
            }
            if port == p.port {
                assert(raw[raw.len() - 1].port == port);
            }
        }
        assert forall|i: int| 0 <= i < m.len() implies first_for(raw, #[trigger] m[i].port) == Some(
            m[i],
        ) by {
            let x = m[i];
            assert(m.contains(x));
            if m0.contains(x) {
                let k = choose|k: int| 0 <= k < m0.len() && m0[k] == x;
                assert(first_for(t, m0[k].port) == Some(m0[k]));
            } else {
                lemma_first_for(t, p.port);
            }
        }
    }
}

/// `s` merged is `s` itself when its ports already strictly increase.
proof fn lemma_merged_sorted(s: Seq<PortInfo>)
    requires
        sorted_by_port(s),
    ensures
        merged(s) == s,
    decreases s.len(),
{
    if s.len() > 0 {
        let t = s.drop_last();
        assert forall|i: int, j: int| 0 <= i < j < t.len() implies #[trigger] t[i].port
            < #[trigger] t[j].port by {
            assert(t[i] == s[i] && t[j] == s[j]);
        }
        lemma_merged_sorted(t);
        lemma_insert_last(t, s.last());
        assert(t.push(s.last()) == s);
    }
}

proof fn lemma_insert_last(s: Seq<PortInfo>, p: PortInfo)
    requires
        forall|i: int| 0 <= i < s.len() ==> #[trigger] s[i].port < p.port,
    ensures
        insert_by_port(s, p) == s.push(p),
    decreases s.len(),
{
    if s.len() > 0 {
        let t = s.drop_first();
        assert forall|i: int| 0 <= i < t.len() implies #[trigger] t[i].port < p.port by {
            assert(t[i] == s[i + 1]);
        }
        lemma_insert_last(t, p);
        assert(s[0].port < p.port);
        assert(seq![s[0]] + t.push(p) == s.push(p));
    }
}

/// Merging is idempotent: merging a merged scan changes nothing.
pub proof fn lemma_merge_idempotent(raw: Seq<PortInfo>)
    ensures
        merged(merged(raw)) == merged(raw),
{
    lemma_merged(raw);
    lemma_merged_sorted(merged(raw));
}

/// Any two merges of one raw scan are equal: `is_merge_of` pins the result down.
pub proof fn lemma_merge_unique(a: Seq<PortInfo>, b: Seq<PortInfo>, raw: Seq<PortInfo>)
    requires
        is_merge_of(a, raw),
        is_merge_of(b, raw),
    ensures
        a == b,
    decreases a.len() + b.len(),
{
    if a.len() > 0 && b.len() > 0 {
        // The first record of each is for the smallest port of `raw`.
        assert(has_port(a, a[0].port));
        assert(has_port(b, a[0].port));
        assert(has_port(b, b[0].port));
        assert(has_port(a, b[0].port));
        let ia = choose|i: int| 0 <= i < a.len() && #[trigger] a[i].port == b[0].port;
        let ib = choose|i: int| 0 <= i < b.len() && #[trigger] b[i].port == a[0].port;
        if ia > 0 {
            assert(a[0].port < a[ia].port);
        }
        if ib > 0 {
            assert(b[0].port < b[ib].port);
        }
        assert(a[0].port == b[0].port);
        assert(first_for(raw, a[0].port) == Some(a[0]));
        assert(first_for(raw, b[0].port) == Some(b[0]));
        let port0 = a[0].port;
        let r = raw.filter(|x: PortInfo| x.port != port0);
        let a1 = a.drop_first();
        let b1 = b.drop_first();
        lemma_drop_smallest(a, raw);
        lemma_drop_smallest(b, raw);
        lemma_merge_unique(a1, b1, r);
        assert(a == seq![a[0]] + a1);
        assert(b == seq![b[0]] + b1);
    } else if a.len() > 0 {
        assert(has_port(a, a[0].port));
        assert(has_port(b, a[0].port));
    } else if b.len() > 0 {
        assert(has_port(b, b[0].port));
        assert(has_port(a, b[0].port));
    }
}

proof fn lemma_first_for_filter(raw: Seq<PortInfo>, port0: u16, q: u16)
    requires
        q != port0,
    ensures
        first_for(raw.filter(|x: PortInfo| x.port != port0), q) == first_for(raw, q),
    decreases raw.len(),
{
    let f = |x: PortInfo| x.port != port0;
    if raw.len() > 0 {
        let t = raw.drop_last();
        lemma_first_for_filter(t, port0, q);
        t.lemma_filter_push(raw.last(), f);
        assert(t.push(raw.last()) == raw);
        let r = raw.filter(f);
        if f(raw.last()) {
            assert(r.drop_last() == t.filter(f));
        } else {
            assert(r == t.filter(f));
        }
    }
}

proof fn lemma_has_port_filter(raw: Seq<PortInfo>, port0: u16, q: u16)
    ensures
        has_port(raw.filter(|x: PortInfo| x.port != port0), q) <==> has_port(raw, q) && q
            != port0,
{
    let f = |x: PortInfo| x.port != port0;
    let r = raw.filter(f);
    lemma_first_for(raw, q);
    lemma_first_for(r, q);
    if q != port0 {
        lemma_first_for_filter(raw, port0, q);
    } else {
        if has_port(r, q) {
            let k = choose|k: int| 0 <= k < r.len() && #[trigger] r[k].port == q;
            raw.lemma_filter_contains_rev(f, r[k]);
        }
    }
}

proof fn lemma_drop_smallest(a: Seq<PortInfo>, raw: Seq<PortInfo>)
    requires
        is_merge_of(a, raw),
        a.len() > 0,
    ensures
        is_merge_of(a.drop_first(), raw.filter(|x: PortInfo| x.port != a[0].port)),
{
    let port0 = a[0].port;
    let a1 = a.drop_first();
    let r = raw.filter(|x: PortInfo| x.port != port0);
    assert forall|i: int, j: int| 0 <= i < j < a1.len() implies #[trigger] a1[i].port
        < #[trigger] a1[j].port by {
        assert(a1[i] == a[i + 1] && a1[j] == a[j + 1]);
    }
    assert forall|i: int| 0 <= i < a1.len() implies first_for(r, #[trigger] a1[i].port) == Some(
        a1[i],
    ) by {
        assert(a1[i] == a[i + 1]);
        assert(a[0].port < a[i + 1].port);
        lemma_first_for_filter(raw, port0, a1[i].port);
    }
    assert forall|q: u16| has_port(a1, q) <==> has_port(r, q) by {
        lemma_has_port_filter(raw, port0, q);
        if has_port(a1, q) {
            let k = choose|k: int| 0 <= k < a1.len() && #[trigger] a1[k].port == q;
            assert(a[k + 1].port == q);
            assert(a[0].port < a[k + 1].port);
        }
        if has_port(a, q) && q != port0 {
            let k = choose|k: int| 0 <= k < a.len() && #[trigger] a[k].port == q;
            assert(a1[k - 1].port == q);
        }
    }
}

/// No two records of `s` share a port.
pub open spec fn distinct_ports(s: Seq<PortInfo>) -> bool {
    forall|i: int, j: int| 0 <= i < j < s.len() ==> #[trigger] s[i].port != #[trigger] s[j].port
}

proof fn lemma_insert_position(s: Seq<PortInfo>, p: PortInfo) -> (j: int)
    requires
        !has_port(s, p.port),
    ensures
        0 <= j <= s.len(),
        insert_by_port(s, p) == s.insert(j, p),
    decreases s.len(),
{
    if s.len() == 0 {
        assert(seq![p] == s.insert(0, p));
        0
    } else {
        assert(s[0].port != p.port) by {
            if s[0].port == p.port {
                assert(has_port(s, p.port));
            }
        }
        if p.port < s[0].port {
            assert(seq![p] + s == s.insert(0, p));
            0
        } else {
            let t = s.drop_first();
            assert(!has_port(t, p.port)) by {
                if has_port(t, p.port) {
                    let k = choose|k: int| 0 <= k < t.len() && #[trigger] t[k].port == p.port;
                    assert(s[k + 1].port == p.port);
                }
            }
            let j = lemma_insert_position(t, p);
            assert(seq![s[0]] + t.insert(j, p) == s.insert(j + 1, p));
            j + 1
        }
    }
}

/// Where no two records of a raw scan share a port, merging keeps every
/// record: the merge is the raw scan sorted by port.
pub proof fn lemma_merged_keeps_all(raw: Seq<PortInfo>)
    requires
        distinct_ports(raw),
    ensures
        merged(raw).to_multiset() == raw.to_multiset(),
        sorted_by_port(merged(raw)),
    decreases raw.len(),
{
    broadcast use vstd::seq_lib::group_to_multiset_ensures;

    lemma_merged(raw);
    if raw.len() > 0 {
        let t = raw.drop_last();
        let p = raw.last();
        assert forall|i: int, j: int| 0 <= i < j < t.len() implies #[trigger] t[i].port
            != #[trigger] t[j].port by {
            assert(t[i] == raw[i] && t[j] == raw[j]);
        }
        lemma_merged_keeps_all(t);
        lemma_merged(t);
        assert(!has_port(t, p.port)) by {
            if has_port(t, p.port) {
                let k = choose|k: int| 0 <= k < t.len() && #[trigger] t[k].port == p.port;
                assert(raw[k].port != raw[raw.len() - 1].port);
            }
        }
        let j = lemma_insert_position(merged(t), p);
        assert(t.push(p) == raw);
    }
}

proof fn lemma_first_for_distinct(raw: Seq<PortInfo>, x: PortInfo)
    requires
        distinct_ports(raw),
        raw.contains(x),
    ensures
        first_for(raw, x.port) == Some(x),
{
    lemma_first_for(raw, x.port);
    let m = choose|m: int| 0 <= m < raw.len() && raw[m] == x;
    assert(has_port(raw, x.port)) by {
        assert(raw[m].port == x.port);
    }
    let y = first_for(raw, x.port)->0;
    let k = choose|k: int| 0 <= k < raw.len() && raw[k] == y;
    if k < m {
        assert(raw[k].port != raw[m].port);
    } else if m < k {
        assert(raw[m].port != raw[k].port);
    }
}

proof fn lemma_same_ports(a: Seq<PortInfo>, b: Seq<PortInfo>)
    requires
        forall|x: PortInfo| a.contains(x) <==> b.contains(x),
    ensures
        forall|q: u16| has_port(a, q) <==> has_port(b, q),
{
    assert forall|q: u16| has_port(a, q) implies has_port(b, q) by {
        let k = choose|k: int| 0 <= k < a.len() && #[trigger] a[k].port == q;
        assert(a.contains(a[k]));
        let m = choose|m: int| 0 <= m < b.len() && b[m] == a[k];
        assert(b[m].port == q);
    }
    assert forall|q: u16| has_port(b, q) implies has_port(a, q) by {
        let k = choose|k: int| 0 <= k < b.len() && #[trigger] b[k].port == q;
        assert(b.contains(b[k]));
        let m = choose|m: int| 0 <= m < a.len() && a[m] == b[k];
        assert(a[m].port == q);
    }
}

/// The order of a raw scan does not matter where no port repeats: any
/// reordering merges to the same result, the records sorted by port.
pub proof fn lemma_merge_reordered(raw1: Seq<PortInfo>, raw2: Seq<PortInfo>)
    requires
        distinct_ports(raw1),
        raw2.to_multiset() == raw1.to_multiset(),
    ensures
        merged(raw2) == merged(raw1),
        sorted_by_port(merged(raw1)),
        merged(raw1).to_multiset() == raw1.to_multiset(),
{
    broadcast use vstd::seq_lib::group_to_multiset_ensures;

    lemma_merged(raw1);
    lemma_merged(raw2);
    lemma_merged_keeps_all(raw1);
    assert forall|x: PortInfo| raw1.contains(x) <==> raw2.contains(x) by {
        assert(raw1.contains(x) <==> raw1.to_multiset().count(x) > 0);
        assert(raw2.contains(x) <==> raw2.to_multiset().count(x) > 0);
    }
    lemma_same_ports(raw1, raw2);
    let m = merged(raw2);
    assert forall|i: int| 0 <= i < m.len() implies first_for(raw1, #[trigger] m[i].port) == Some(
        m[i],
    ) by {
        lemma_first_for(raw2, m[i].port);
        lemma_first_for_distinct(raw1, m[i]);
    }
    assert(is_merge_of(m, raw1));
    lemma_merge_unique(m, merged(raw1), raw1);
}

/// Deduplicates raw scan records by port (first entry wins) and returns them sorted by port.
pub fn scan(raw: &[PortInfo]) -> (r: Vec<PortInfo>)
    ensures
        r@ == merged(raw@),
        is_merge_of(r@, raw@),
{
    let mut res: Vec<PortInfo> = Vec::new();
    let n = raw.len();
    for i in 0..n
        invariant
            n == raw@.len(),
            res@ == merged(raw@.take(i as int)),
            sorted_by_port(res@),
    {
        assert(raw@.take(i + 1).drop_last() == raw@.take(i as int));
        assert(raw@.take(i + 1).last() == raw@[i as int]);
        let port = raw[i].port;
        let mut j: usize = 0;
        while j < res.len() && res[j].port < port
            invariant
                j <= res.len(),
                forall|k: int| 0 <= k < j ==> #[trigger] res@[k].port < port,
            decreases res.len() - j,
        {
            j = j + 1;
        }
        proof {
            lemma_insert_at(res@, raw@[i as int], j as int);
            lemma_insert_by_port(res@, raw@[i as int]);
        }
        if !(j < res.len() && res[j].port == port) {
            res.insert(j, raw[i].duplicate());
        }
    }
    assert(raw@.take(n as int) == raw@);
    proof {
        lemma_merged(raw@);
    }
    res
}

proof fn lemma_insert_at(s: Seq<PortInfo>, p: PortInfo, j: int)
    requires
        sorted_by_port(s),
        0 <= j <= s.len(),
        forall|k: int| 0 <= k < j ==> #[trigger] s[k].port < p.port,
        j < s.len() ==> s[j].port >= p.port,
    ensures
        insert_by_port(s, p) == if j < s.len() && s[j].port == p.port {
            s
        } else {
            s.insert(j, p)
        },
    decreases s.len(),
{
    if s.len() > 0 {
        if j == 0 {
            assert(seq![p] + s == s.insert(0, p));
        } else {
            let t = s.drop_first();
            assert forall|a: int, b: int| 0 <= a < b < t.len() implies #[trigger] t[a].port
                < #[trigger] t[b].port by {
                assert(t[a] == s[a + 1] && t[b] == s[b + 1]);
            }
            assert forall|k: int| 0 <= k < j - 1 implies #[trigger] t[k].port < p.port by {
                assert(t[k] == s[k + 1]);
            }
            lemma_insert_at(t, p, j - 1);
            assert(s[0].port < p.port);
            if !(j < s.len() && s[j].port == p.port) {
                assert(seq![s[0]] + t.insert(j - 1, p) == s.insert(j, p));
            } else {
                assert(seq![s[0]] + t == s);
            }
        }
    }
}

fn has_port_from(s: &[PortInfo], lo: usize, port: u16) -> (b: bool)
    requires
        lo <= s@.len(),
    ensures
        b == has_port(s@.skip(lo as int), port),
{
    let ghost t = s@.skip(lo as int);
    let mut i = lo;
    while i < s.len()
        invariant
            lo <= i <= s@.len(),
            t == s@.skip(lo as int),
            forall|k: int| lo <= k < i ==> #[trigger] s@[k].port != port,
        decreases s.len() - i,
    {
        if s[i].port == port {
            assert(t[i - lo].port == port);
            return true;
        }
        i = i + 1;
    }
    assert forall|k: int| 0 <= k < t.len() implies #[trigger] t[k].port != port by {
        assert(t[k] == s@[lo + k]);
    }
    false
}

fn appeared_in(prev: &[PortInfo], curr: &[PortInfo]) -> (r: Vec<PortInfo>)
    ensures
        r@ == appeared(prev@, curr@),
{
    let mut r: Vec<PortInfo> = Vec::new();
    let n = curr.len();
    let mut i: usize = 0;
    assert(curr@.skip(0) == curr@);
    assert(prev@.skip(0) == prev@);
    while i < n
        invariant
            i <= n == curr@.len(),
            r@ + appeared(prev@, curr@.skip(i as int)) == appeared(prev@, curr@),
        decreases n - i,
    {
        let ghost rest = curr@.skip(i as int);
        assert(rest.drop_first() == curr@.skip(i + 1));
        assert(rest[0] == curr@[i as int]);
        assert(prev@.skip(0) == prev@);
        let port = curr[i].port;
        if !has_port_from(prev, 0, port) && !has_port_from(curr, i + 1, port) {
            let ghost before = r@;
            r.push(curr[i].duplicate());
            assert(r@ + appeared(prev@, curr@.skip(i + 1)) == before + appeared(prev@, rest));
        }
        i = i + 1;
    }
    assert(curr@.skip(n as int) == Seq::<PortInfo>::empty());
    assert(r@ + Seq::<PortInfo>::empty() == r@);
    r
}

/// Compare two scan results and return what changed (opened/closed ports).
pub fn diff(prev: &[PortInfo], curr: &[PortInfo]) -> (r: Vec<PortChange>)
    ensures
        r@ == changes(prev@, curr@),
{
    let opened = appeared_in(prev, curr);
    let closed = appeared_in(curr, prev);
    let mut r: Vec<PortChange> = Vec::new();
    for i in 0..opened.len()
        invariant
            r@ == as_opened(opened@.take(i as int)),
    {
        r.push(PortChange::Opened(opened[i].duplicate()));
        assert(as_opened(opened@.take(i + 1)) == as_opened(opened@.take(i as int)).push(
            PortChange::Opened(opened@[i as int]),
        ));
    }
    assert(opened@.take(opened@.len() as int) == opened@);
    let ghost head = r@;
    for i in 0..closed.len()
        invariant
            head == as_opened(opened@),
            r@ == head + as_closed(closed@.take(i as int)),
    {
        r.push(PortChange::Closed(closed[i].duplicate()));
        assert(as_closed(closed@.take(i + 1)) == as_closed(closed@.take(i as int)).push(
            PortChange::Closed(closed@[i as int]),
        ));
    }
    assert(closed@.take(closed@.len() as int) == closed@);
    r
}

proof fn lemma_last_for(s: Seq<PortInfo>, port: u16)
    ensures
        last_for(s, port) is None <==> !has_port(s, port),
        last_for(s, port) matches Some(p) ==> p.port == port,
    decreases s.len(),
{
    if s.len() > 0 {
        let t = s.drop_first();
        lemma_last_for(t, port);
        lemma_cons(s[0], t);
        assert(s == seq![s[0]] + t);
    }
}

/// What `appeared(prev, curr)` holds: for each port that `curr` has and
/// `prev` lacks, exactly one record, the last that `curr` has for it.
pub proof fn lemma_appeared(prev: Seq<PortInfo>, curr: Seq<PortInfo>)
    ensures
        forall|i: int|
            0 <= i < appeared(prev, curr).len() ==> !has_port(
                prev,
                #[trigger] appeared(prev, curr)[i].port,
            ) && last_for(curr, appeared(prev, curr)[i].port) == Some(appeared(prev, curr)[i]),
        forall|q: u16| has_port(appeared(prev, curr), q) <==> has_port(curr, q) && !has_port(prev, q),
        forall|i: int, j: int|
            0 <= i < j < appeared(prev, curr).len() ==> #[trigger] appeared(prev, curr)[i].port
                != #[trigger] appeared(prev, curr)[j].port,
    decreases curr.len(),
{
    if curr.len() > 0 {
        let c = curr[0];
        let t = curr.drop_first();
        lemma_appeared(prev, t);
        lemma_cons(c, t);
        assert(curr == seq![c] + t);
        let at = appeared(prev, t);
        let a = appeared(prev, curr);
        lemma_last_for(t, c.port);
        if !has_port(prev, c.port) && !has_port(t, c.port) {
            assert(a == seq![c] + at);
            lemma_cons(c, at);
            assert forall|i: int| 0 <= i < a.len() implies !has_port(prev, #[trigger] a[i].port)
                && last_for(curr, a[i].port) == Some(a[i]) by {
                if i > 0 {
                    assert(a[i] == at[i - 1]);
                    assert(has_port(at, at[i - 1].port));
                }
            }
            assert forall|i: int, j: int| 0 <= i < j < a.len() implies #[trigger] a[i].port
                != #[trigger] a[j].port by {
                assert(a[j] == at[j - 1]);
                if i > 0 {
                    assert(a[i] == at[i - 1]);
                } else {
                    assert(has_port(at, at[j - 1].port));
                }
            }
        } else {
            assert(a == at);
            assert forall|i: int| 0 <= i < a.len() implies !has_port(prev, #[trigger] a[i].port)
                && last_for(curr, a[i].port) == Some(a[i]) by {
                assert(has_port(at, at[i].port));
                lemma_last_for(t, at[i].port);
            }
        }
    }
}

/// Comparing a snapshot with itself finds no change.
pub proof fn lemma_diff_same(a: Seq<PortInfo>)
    ensures
        changes(a, a) == Seq::<PortChange>::empty(),
{
    lemma_appeared(a, a);
    let x = appeared(a, a);
    if x.len() > 0 {
        assert(has_port(x, x[0].port));
    }
    assert(as_opened(x) == Seq::<PortChange>::empty());
    assert(as_closed(x) == Seq::<PortChange>::empty());
}

proof fn lemma_opened_closed_of(x: Seq<PortInfo>, y: Seq<PortInfo>)
    ensures
        opened_of(as_opened(x) + as_closed(y)) == x,
        closed_of(as_opened(x) + as_closed(y)) == y,
    decreases x.len() + y.len(),
{
    let c = as_opened(x) + as_closed(y);
    if x.len() > 0 {
        lemma_opened_closed_of(x.drop_first(), y);
        assert(c.drop_first() == as_opened(x.drop_first()) + as_closed(y));
        assert(x == seq![x[0]] + x.drop_first());
    } else if y.len() > 0 {
        lemma_opened_closed_of(x, y.drop_first());
        assert(c.drop_first() == as_opened(x) + as_closed(y.drop_first()));
        assert(y == seq![y[0]] + y.drop_first());
    } else {
        assert(c == Seq::<PortChange>::empty());
    }
}

/// Swapping the snapshots swaps the roles: what one comparison opens the
/// reverse comparison closes, and what it closes the reverse one opens.
pub proof fn lemma_diff_swap(a: Seq<PortInfo>, b: Seq<PortInfo>)
    ensures
        opened_of(changes(b, a)) == closed_of(changes(a, b)),
        closed_of(changes(b, a)) == opened_of(changes(a, b)),
{
    lemma_opened_closed_of(appeared(a, b), appeared(b, a));
    lemma_opened_closed_of(appeared(b, a), appeared(a, b));
}

/// A comparison opens exactly the ports that only the newer snapshot has and
/// closes exactly those that only the older one has, each port once, with
/// the record that a map keyed by port keeps (the last for that port).
pub proof fn lemma_diff_ports(prev: Seq<PortInfo>, curr: Seq<PortInfo>)
    ensures
        opened_of(changes(prev, curr)) == appeared(prev, curr),
        closed_of(changes(prev, curr)) == appeared(curr, prev),
        forall|q: u16|
            has_port(opened_of(changes(prev, curr)), q) <==> has_port(curr, q) && !has_port(
                prev,
                q,
            ),
        forall|q: u16|
            has_port(closed_of(changes(prev, curr)), q) <==> has_port(prev, q) && !has_port(
                curr,
                q,
            ),
        forall|i: int|
            0 <= i < appeared(prev, curr).len() ==> last_for(
                curr,
                #[trigger] appeared(prev, curr)[i].port,
            ) == Some(appeared(prev, curr)[i]),
        forall|i: int|
            0 <= i < appeared(curr, prev).len() ==> last_for(
                prev,
                #[trigger] appeared(curr, prev)[i].port,
            ) == Some(appeared(curr, prev)[i]),
{
    lemma_opened_closed_of(appeared(prev, curr), appeared(curr, prev));
    lemma_appeared(prev, curr);
    lemma_appeared(curr, prev);
}

/// The changes carry the old snapshot's ports to the new one's: a port is in
/// the new snapshot exactly when it was in the old one and did not close, or
/// it opened; and no port both opens and closes.
pub proof fn lemma_diff_applies(prev: Seq<PortInfo>, curr: Seq<PortInfo>)
    ensures
        forall|q: u16|
            has_port(curr, q) <==> (has_port(prev, q) && !has_port(
                closed_of(changes(prev, curr)),
                q,
            )) || has_port(opened_of(changes(prev, curr)), q),
        forall|q: u16|
            !(has_port(opened_of(changes(prev, curr)), q) && has_port(
                closed_of(changes(prev, curr)),
                q,
            )),
{
    lemma_diff_ports(prev, curr);
    let o = opened_of(changes(prev, curr));
    let c = closed_of(changes(prev, curr));
    assert forall|q: u16| !(has_port(o, q) && has_port(c, q)) by {
        if has_port(o, q) {
            assert(has_port(curr, q));
        }
    }
}

/// Follows a sequence of snapshots: each new one is compared with the last seen.
pub struct Watcher {
    prev: Vec<PortInfo>,
    history: Ghost<Seq<Seq<PortInfo>>>,
    reported: Ghost<Seq<PortChange>>,
}

/// What a watcher reports over a sequence of snapshots: each one compared
/// with the one just before it, round after round.
pub open spec fn rounds(h: Seq<Seq<PortInfo>>) -> Seq<PortChange>
    decreases h.len(),
{
    if h.len() <= 1 {
        seq![]
    } else {
        rounds(h.drop_last()) + changes(h[h.len() - 2], h.last())
    }
}

impl Watcher {
    #[verifier::type_invariant]
    spec fn consistent(&self) -> bool {
        &&& self.history@.len() >= 1
        &&& self.history@.last() == self.prev@
        &&& self.reported@ == rounds(self.history@)
    }

    /// The snapshot seen last.
    pub closed spec fn seen(&self) -> Seq<PortInfo> {
        self.prev@
    }

    /// Every snapshot seen, the first one first.
    pub closed spec fn history(&self) -> Seq<Seq<PortInfo>> {
        self.history@
    }

    /// Every change reported so far, in order.
    pub closed spec fn reported(&self) -> Seq<PortChange> {
        self.reported@
    }

    /// Starts from `initial`.
    pub fn new(initial: Vec<PortInfo>) -> (w: Watcher)
        ensures
            w.seen() == initial@,
            w.history() == seq![initial@],
            w.reported() == Seq::<PortChange>::empty(),
    {
        let ghost h = seq![initial@];
        Watcher { prev: initial, history: Ghost(h), reported: Ghost(Seq::empty()) }
    }

    /// Takes in the next snapshot: returns what changed since the last one,
    /// and remembers the new one. Over all rounds, the changes reported are
    /// exactly the comparisons of each snapshot with the one before it.
    pub fn observe(&mut self, curr: Vec<PortInfo>) -> (r: Vec<PortChange>)
        ensures
            r@ == changes(old(self).seen(), curr@),
            final(self).seen() == curr@,
            final(self).history() == old(self).history().push(curr@),
            final(self).reported() == old(self).reported() + r@,
            final(self).reported() == rounds(final(self).history()),
    {
        proof {
            use_type_invariant(&*self);
        }
        let r = diff(self.prev.as_slice(), curr.as_slice());
        let ghost old_h: Seq<Seq<PortInfo>> = self.history@;
        let ghost h = old_h.push(curr@);
        let ghost rep = self.reported@ + r@;
        proof {
            assert(h.drop_last() =~= old_h);
            assert(h[h.len() - 2] == self.prev@);
        }
        *self = Watcher { prev: curr, history: Ghost(h), reported: Ghost(rep) };
        r
    }

    /// The snapshot seen last.
    pub fn last_seen(&self) -> (s: &[PortInfo])
        ensures
            s@ == self.seen(),
    {
        self.prev.as_slice()
    }
}

/// Seeing the same snapshot twice reports nothing the second time.
pub proof fn lemma_watch_settles(a: Seq<PortInfo>, b: Seq<PortInfo>)
    ensures
        changes(b, b) == Seq::<PortChange>::empty(),
        changes(a, b).len() == 0 <==> (forall|q: u16| has_port(a, q) <==> has_port(b, q)),
{
    lemma_diff_same(b);
    lemma_appeared(a, b);
    lemma_appeared(b, a);
    let x = appeared(a, b);
    let y = appeared(b, a);
    if changes(a, b).len() == 0 {
        assert(x.len() == 0 && y.len() == 0);
        assert forall|q: u16| has_port(a, q) <==> has_port(b, q) by {
            if has_port(b, q) && !has_port(a, q) {
                assert(has_port(x, q));
            }
            if has_port(a, q) && !has_port(b, q) {
                assert(has_port(y, q));
            }
        }
    }
    if forall|q: u16| has_port(a, q) <==> has_port(b, q) {
        if x.len() > 0 {
            assert(has_port(x, x[0].port));
        }
        if y.len() > 0 {
            assert(has_port(y, y[0].port));
        }
    }
}

} // verus!
