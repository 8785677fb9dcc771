//! Character-level text handling: the line, word and trim rules of `str`,
//! stated over `Seq<char>` and carried out on `Vec<char>`.

use vstd::prelude::*;

verus! {

/// Unicode `White_Space`, the property that `char::is_whitespace` tests.
pub open spec fn is_space(c: char) -> bool {
    ||| '\t' <= c <= '\r'
    ||| c == ' '
    ||| c == '\u{85}'
    ||| c == '\u{a0}'
    ||| c == '\u{1680}'
    ||| '\u{2000}' <= c <= '\u{200a}'
    ||| c == '\u{2028}'
    ||| c == '\u{2029}'
    ||| c == '\u{202f}'
    ||| c == '\u{205f}'
    ||| c == '\u{3000}'
}

/// The predicate "is the character `c`".
pub open spec fn is_char(c: char) -> spec_fn(char) -> bool {
    |x: char| x == c
}

/// The predicate "is white space".
pub open spec fn space() -> spec_fn(char) -> bool {
    |x: char| is_space(x)
}

/// Index of the first character of `s` that satisfies `p`, or `s.len()`.
pub open spec fn first_match(s: Seq<char>, p: spec_fn(char) -> bool) -> nat
    decreases s.len(),
{
    if s.len() == 0 {
        0
    } else if p(s[0]) {
        0
    } else {
        1 + first_match(s.drop_first(), p)
    }
}

/// Index of the last occurrence of `c` in `s`, or -1.
pub open spec fn last_index_of(s: Seq<char>, c: char) -> int
    decreases s.len(),
{
    if s.len() == 0 {
        -1
    } else if s.last() == c {
        s.len() - 1
    } else {
        last_index_of(s.drop_last(), c)
    }
}

/// A line without the `'\r'` that ends it, if one does.
pub open spec fn strip_cr(l: Seq<char>) -> Seq<char> {
    if l.len() > 0 && l.last() == '\r' {
        l.drop_last()
    } else {
        l
    }
}

/// `str::lines`: split at `'\n'`, drop a `'\r'` before it; a final
/// line ending yields no empty line after it.
pub open spec fn lines(s: Seq<char>) -> Seq<Seq<char>>
    decreases s.len(),
{
    if s.len() == 0 {
        seq![]
    } else {
        let k = first_match(s, is_char('\n')) as int;
        if k >= s.len() {
            seq![s]
        } else {
            seq![strip_cr(s.take(k))] + lines(s.skip(k + 1))
        }
    }
}

/// `str::split_whitespace`: the maximal runs of non-space characters.
pub open spec fn words(s: Seq<char>) -> Seq<Seq<char>>
    decreases s.len(),
{
    if s.len() == 0 {
        seq![]
    } else if is_space(s[0]) {
        words(s.drop_first())
    } else {
        let k = first_match(s, space()) as int;
        proof {
            lemma_first_match(s, space());
        }
        seq![s.take(k)] + words(s.skip(k))
    }
}

/// `str::split` on one character: every piece, empty ones included.
pub open spec fn pieces(s: Seq<char>, c: char) -> Seq<Seq<char>>
    decreases s.len(),
{
    let k = first_match(s, is_char(c)) as int;
    if k >= s.len() {
        seq![s]
    } else {
        seq![s.take(k)] + pieces(s.skip(k + 1), c)
    }
}

/// `str::trim_start`.
pub open spec fn trim_start(s: Seq<char>) -> Seq<char>
    decreases s.len(),
{
    if s.len() > 0 && is_space(s[0]) {
        trim_start(s.drop_first())
    } else {
        s
    }
}

/// `str::trim_end`.
pub open spec fn trim_end(s: Seq<char>) -> Seq<char>
    decreases s.len(),
{
    if s.len() > 0 && is_space(s.last()) {
        trim_end(s.drop_last())
    } else {
        s
    }
}

/// `str::trim`.
pub open spec fn trim(s: Seq<char>) -> Seq<char> {
    trim_end(trim_start(s))
}

/// The part after the last `c` (`rsplit(c).next()`): all of `s` where it holds none.
pub open spec fn after_last(s: Seq<char>, c: char) -> Seq<char> {
    s.skip(last_index_of(s, c) + 1)
}

/// The views of a sequence of character vectors.
pub open spec fn views(v: Seq<Vec<char>>) -> Seq<Seq<char>> {
    v.map_values(|l: Vec<char>| l@)
}

pub proof fn lemma_first_match(s: Seq<char>, p: spec_fn(char) -> bool)
    ensures
        first_match(s, p) <= s.len(),
        forall|j: int| 0 <= j < first_match(s, p) ==> !p(#[trigger] s[j]),
        first_match(s, p) < s.len() ==> p(s[first_match(s, p) as int]),
    decreases s.len(),
{
    if s.len() > 0 && !p(s[0]) {
        lemma_first_match(s.drop_first(), p);
        assert forall|j: int| 0 <= j < first_match(s, p) implies !p(#[trigger] s[j]) by {
            if j > 0 {
                assert(s[j] == s.drop_first()[j - 1]);
            }
        }
    }
}

/// The first match is the one index before which nothing matches and at which `p` holds.
pub proof fn lemma_first_match_at(s: Seq<char>, p: spec_fn(char) -> bool, k: int)
    requires
        0 <= k <= s.len(),
        forall|j: int| 0 <= j < k ==> !p(#[trigger] s[j]),
        k < s.len() ==> p(s[k]),
    ensures
        first_match(s, p) == k,
{
    lemma_first_match(s, p);
    let f = first_match(s, p) as int;
    if f < k {
        assert(!p(s[f]));
    } else if k < f {
        assert(!p(s[k]));
    }
}

pub proof fn lemma_last_index_of(s: Seq<char>, c: char)
    ensures
        -1 <= last_index_of(s, c) < s.len(),
        last_index_of(s, c) >= 0 ==> s[last_index_of(s, c)] == c,
        forall|j: int| last_index_of(s, c) < j < s.len() ==> #[trigger] s[j] != c,
    decreases s.len(),
{
    if s.len() > 0 && s.last() != c {
        lemma_last_index_of(s.drop_last(), c);
        assert forall|j: int| last_index_of(s, c) < j < s.len() implies #[trigger] s[j] != c by {
            if j < s.len() - 1 {
                assert(s[j] == s.drop_last()[j]);
            }
        }
    }
}

pub proof fn lemma_last_index_of_at(s: Seq<char>, c: char, k: int)
    requires
        -1 <= k < s.len(),
        k >= 0 ==> s[k] == c,
        forall|j: int| k < j < s.len() ==> #[trigger] s[j] != c,
    ensures
        last_index_of(s, c) == k,
{
    lemma_last_index_of(s, c);
    let f = last_index_of(s, c);
    if f < k {
        assert(s[k] == c);
    } else if k < f {
        assert(s[f] == c);
    }
}

/// Appends one character to a string with `String::push`, which vstd does not
/// specify. Trusted: the string afterwards is the one before with `c` at its end.
#[verifier::external_body]
pub(crate) fn push_char(s: &mut String, c: char)
    ensures
        final(s)@ == old(s)@.push(c),
{
    s.push(c);
}

/// The characters of a string slice.
pub fn chars_of(s: &str) -> (v: Vec<char>)
    ensures
        v@ == s@,
{
    let mut v: Vec<char> = Vec::new();
    for c in it: s.chars()
        invariant
            v@ == it.seq().take(it.index() as int),
    {
        v.push(c);
    }
    v
}

/// Appends `v[lo..hi]` to `s`.
pub fn push_range(s: &mut String, v: &Vec<char>, lo: usize, hi: usize)
    requires
        lo <= hi <= v.len(),
    ensures
        final(s)@ == old(s)@ + v@.subrange(lo as int, hi as int),
{
    let ghost start = s@;
    let mut i = lo;
    while i < hi
        invariant
            lo <= i <= hi <= v.len(),
            s@ == start + v@.subrange(lo as int, i as int),
        decreases hi - i,
    {
        push_char(s, v[i]);
        i = i + 1;
        assert(v@.subrange(lo as int, i as int) == v@.subrange(lo as int, i - 1).push(v@[i - 1]));
    }
}

/// The string made of `v[lo..hi]`.
pub fn string_of(v: &Vec<char>, lo: usize, hi: usize) -> (s: String)
    requires
        lo <= hi <= v.len(),
    ensures
        s@ == v@.subrange(lo as int, hi as int),
{
    let mut s = String::new();
    push_range(&mut s, v, lo, hi);
    assert(Seq::<char>::empty() + v@.subrange(lo as int, hi as int) == v@.subrange(
        lo as int,
        hi as int,
    ));
    s
}

/// The vector made of `v[lo..hi]`.
pub fn copy_range(v: &Vec<char>, lo: usize, hi: usize) -> (r: Vec<char>)
    requires
        lo <= hi <= v.len(),
    ensures
        r@ == v@.subrange(lo as int, hi as int),
{
    let mut r: Vec<char> = Vec::new();
    let mut i = lo;
    while i < hi
        invariant
            lo <= i <= hi <= v.len(),
            r@ == v@.subrange(lo as int, i as int),
        decreases hi - i,
    {
        r.push(v[i]);
        i = i + 1;
        assert(v@.subrange(lo as int, i as int) == v@.subrange(lo as int, i - 1).push(v@[i - 1]));
    }
    r
}

/// `char::is_whitespace`.
pub fn is_space_char(c: char) -> (b: bool)
    ensures
        b == is_space(c),
{
    ('\t' <= c && c <= '\r') || c == ' ' || c == '\u{85}' || c == '\u{a0}' || c == '\u{1680}'
        || ('\u{2000}' <= c && c <= '\u{200a}') || c == '\u{2028}' || c == '\u{2029}' || c
        == '\u{202f}' || c == '\u{205f}' || c == '\u{3000}'
}

/// Index of the first `target` in `v` at or after `start`, or `v.len()`.
pub fn find_char_from(v: &Vec<char>, start: usize, target: char) -> (k: usize)
    requires
        start <= v.len(),
    ensures
        start <= k <= v.len(),
        first_match(v@.skip(start as int), is_char(target)) == k - start,
        forall|j: int| start <= j < k ==> v@[j] != target,
        k < v.len() ==> v@[k as int] == target,
{
    let mut k = start;
    while k < v.len() && v[k] != target
        invariant
            start <= k <= v.len(),
            forall|j: int| start <= j < k ==> v@[j] != target,
        decreases v.len() - k,
    {
        k = k + 1;
    }
    proof {
        let t = v@.skip(start as int);
        assert forall|j: int| 0 <= j < k - start implies !is_char(target)(#[trigger] t[j]) by {
            assert(t[j] == v@[start + j]);
        }
        lemma_first_match_at(t, is_char(target), k - start);
    }
    k
}

/// Index of the first space in `v` at or after `start`, or `v.len()`.
pub fn find_space_from(v: &Vec<char>, start: usize) -> (k: usize)
    requires
        start <= v.len(),
    ensures
        start <= k <= v.len(),
        first_match(v@.skip(start as int), space()) == k - start,
        forall|j: int| start <= j < k ==> !is_space(#[trigger] v@[j]),
        k < v.len() ==> is_space(v@[k as int]),
{
    let mut k = start;
    while k < v.len() && !is_space_char(v[k])
        invariant
            start <= k <= v.len(),
            forall|j: int| start <= j < k ==> !is_space(#[trigger] v@[j]),
        decreases v.len() - k,
    {
        k = k + 1;
    }
    proof {
        let t = v@.skip(start as int);
        assert forall|j: int| 0 <= j < k - start implies !space()(#[trigger] t[j]) by {
            assert(t[j] == v@[start + j]);
        }
        lemma_first_match_at(t, space(), k - start);
    }
    k
}

/// Index of the last `target` in `v`, if any.
pub fn rfind_char(v: &Vec<char>, target: char) -> (r: Option<usize>)
    ensures
        match r {
            Some(k) => last_index_of(v@, target) == k && k < v@.len() && v@[k as int] == target,
            None => last_index_of(v@, target) == -1,
        },
{
    let mut k = v.len();
    while k > 0 && v[k - 1] != target
        invariant
            k <= v.len(),
            forall|j: int| k <= j < v.len() ==> #[trigger] v@[j] != target,
        decreases k,
    {
        k = k - 1;
    }
    proof {
        lemma_last_index_of_at(v@, target, k - 1);
    }
    if k == 0 {
        None
    } else {
        Some(k - 1)
    }
}

/// `str::lines` over characters.
pub fn lines_of(s: &Vec<char>) -> (res: Vec<Vec<char>>)
    ensures
        views(res@) == lines(s@),
{
    let mut res: Vec<Vec<char>> = Vec::new();
    let mut pos: usize = 0;
    let len = s.len();
    assert(s@.skip(0) == s@);
    while pos < len
        invariant
            pos <= len == s.len(),
            views(res@) + lines(s@.skip(pos as int)) == lines(s@),
        decreases len - pos,
    {
        let k = find_char_from(s, pos, '\n');
        let ghost rest = s@.skip(pos as int);
        let end = if k < len && k > pos && s[k - 1] == '\r' {
            k - 1
        } else {
            k
        };
        let line = copy_range(s, pos, end);
        proof {
            assert(rest.take(k - pos) == s@.subrange(pos as int, k as int));
            if k < len {
                assert(rest.skip(k - pos + 1) == s@.skip(k + 1));
                assert(strip_cr(rest.take(k - pos)) == line@);
            } else {
                assert(rest == line@);
                assert(s@.skip(len as int) == Seq::<char>::empty());
            }
        }
        let ghost before = res@;
        res.push(line);
        assert(views(res@) == views(before).push(line@));
        pos = if k < len {
            k + 1
        } else {
            len
        };
    }
    assert(s@.skip(len as int) == Seq::<char>::empty());
    assert(views(res@) + Seq::<Seq<char>>::empty() == views(res@));
    res
}

/// `str::split_whitespace` over characters.
pub fn words_of(s: &Vec<char>) -> (res: Vec<Vec<char>>)
    ensures
        views(res@) == words(s@),
{
    let mut res: Vec<Vec<char>> = Vec::new();
    let mut pos: usize = 0;
    let len = s.len();
    assert(s@.skip(0) == s@);
    while pos < len
        invariant
            pos <= len == s.len(),
            views(res@) + words(s@.skip(pos as int)) == words(s@),
        decreases len - pos,
    {
        let ghost rest = s@.skip(pos as int);
        if is_space_char(s[pos]) {
            assert(rest.drop_first() == s@.skip(pos + 1));
            pos = pos + 1;
        } else {
            let k = find_space_from(s, pos);
            let word = copy_range(s, pos, k);
            proof {
                assert(rest.take(k - pos) == word@);
                assert(rest.skip(k - pos) == s@.skip(k as int));
            }
            let ghost before = res@;
            res.push(word);
            assert(views(res@) == views(before).push(word@));
            pos = k;
        }
    }
    assert(s@.skip(len as int) == Seq::<char>::empty());
    assert(views(res@) + Seq::<Seq<char>>::empty() == views(res@));
    res
}

/// `str::split` on one character.
pub fn pieces_of(s: &Vec<char>, c: char) -> (res: Vec<Vec<char>>)
    ensures
        views(res@) == pieces(s@, c),
{
    let mut res: Vec<Vec<char>> = Vec::new();
    let mut pos: usize = 0;
    let len = s.len();
    assert(s@.skip(0) == s@);
    loop
        invariant
            pos <= len == s.len(),
            views(res@) + pieces(s@.skip(pos as int), c) == pieces(s@, c),
        decreases len - pos,
    {
        let ghost rest = s@.skip(pos as int);
        let k = find_char_from(s, pos, c);
        let piece = copy_range(s, pos, k);
        assert(rest.take(k - pos) == piece@);
        let ghost before = res@;
        res.push(piece);
        assert(views(res@) == views(before).push(piece@));
        if k == len {
            assert(rest == piece@);
            assert(views(res@) == views(before) + pieces(rest, c));
            return res;
        }
        assert(rest.skip(k - pos + 1) == s@.skip(k + 1));
        pos = k + 1;
    }
}

/// The bounds of `str::trim` in `s`: `trim(s@) == s@[lo..hi]`.
pub fn trim_bounds(s: &Vec<char>) -> (r: (usize, usize))
    ensures
        r.0 <= r.1 <= s.len(),
        trim(s@) == s@.subrange(r.0 as int, r.1 as int),
{
    let len = s.len();
    let mut lo: usize = 0;
    assert(s@.skip(0) == s@);
    while lo < len && is_space_char(s[lo])
        invariant
            lo <= len == s.len(),
            trim_start(s@) == trim_start(s@.skip(lo as int)),
        decreases len - lo,
    {
        assert(s@.skip(lo as int).drop_first() == s@.skip(lo + 1));
        lo = lo + 1;
    }
    let mut hi: usize = len;
    assert(s@.skip(lo as int) == s@.subrange(lo as int, len as int));
    while hi > lo && is_space_char(s[hi - 1])
        invariant
            lo <= hi <= len == s.len(),
            trim(s@) == trim_end(s@.subrange(lo as int, hi as int)),
        decreases hi,
    {
        assert(s@.subrange(lo as int, hi as int).drop_last() == s@.subrange(lo as int, hi - 1));
        hi = hi - 1;
    }
    (lo, hi)
}

/// Where `s` holds no `c`, no character of it matches "is `c`".
pub proof fn lemma_first_char_absent(s: Seq<char>, c: char)
    requires
        forall|j: int| 0 <= j < s.len() ==> s[j] != c,
    ensures
        first_match(s, is_char(c)) == s.len(),
{
    assert forall|j: int| 0 <= j < s.len() implies !is_char(c)(#[trigger] s[j]) by {}
    lemma_first_match_at(s, is_char(c), s.len() as int);
}

/// A text without the separator is one piece.
pub proof fn lemma_pieces_whole(a: Seq<char>, c: char)
    requires
        forall|j: int| 0 <= j < a.len() ==> a[j] != c,
    ensures
        pieces(a, c) == seq![a],
{
    lemma_first_char_absent(a, c);
}

/// Splitting at the first separator: the text before it is the first piece.
pub proof fn lemma_pieces_split(a: Seq<char>, b: Seq<char>, c: char)
    requires
        forall|j: int| 0 <= j < a.len() ==> a[j] != c,
    ensures
        pieces(a + seq![c] + b, c) == seq![a] + pieces(b, c),
{
    let x = a + seq![c] + b;
    assert forall|j: int| 0 <= j < a.len() implies !is_char(c)(#[trigger] x[j]) by {
        assert(x[j] == a[j]);
    }
    assert(x[a.len() as int] == c);
    lemma_first_match_at(x, is_char(c), a.len() as int);
    assert(x.take(a.len() as int) == a);
    assert(x.skip(a.len() as int + 1) == b);
}

} // verus!
