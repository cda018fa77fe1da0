//! The hosts table: lines of `<ip> <hostname>`, rewritten when an announcement
//! arrives.
use vstd::prelude::*;
use vstd::slice::slice_subrange;
use crate::frame::{CR, LF};

verus! {

/// The space between an address and a hostname.
pub const SP: u8 = 32;

/// Where the line that holds position `start` of `s` ends: the first line feed at
/// or after `start`, or the end of `s`.
pub open spec fn line_end(s: Seq<u8>, start: int) -> int
    decreases s.len() - start,
{
    if start < 0 || start >= s.len() || s[start] == LF {
        start
    } else {
        line_end(s, start + 1)
    }
}

/// `l` without one carriage return at its end.
pub open spec fn strip_cr(l: Seq<u8>) -> Seq<u8> {
    if l.len() > 0 && l.last() == CR {
        l.drop_last()
    } else {
        l
    }
}

/// The lines of `s` from position `start` on, as a line reader yields them: `s` is
/// cut at each line feed, a line that a line feed ends loses one carriage return
/// before it, and nothing after a final line feed makes a line.
pub open spec fn lines_from(s: Seq<u8>, start: int) -> Seq<Seq<u8>>
    decreases s.len() - start,
{
    if start < 0 || start >= s.len() {
        Seq::empty()
    } else {
        let e = line_end(s, start);
        if start <= e && e < s.len() {
            seq![strip_cr(s.subrange(start, e))] + lines_from(s, e + 1)
        } else {
            seq![s.subrange(start, s.len() as int)]
        }
    }
}

/// The lines of the table `s`.
pub open spec fn table_lines(s: Seq<u8>) -> Seq<Seq<u8>> {
    lines_from(s, 0)
}

/// `needle` occurs in `hay`.
pub open spec fn contains(hay: Seq<u8>, needle: Seq<u8>) -> bool {
    exists|i: int| 0 <= i && i + needle.len() <= hay.len() && #[trigger] hay.subrange(i, i + needle.len()) == needle
}

/// The entry that maps `host` to `ip`, without its line feed.
pub open spec fn entry(host: Seq<u8>, ip: Seq<u8>) -> Seq<u8> {
    ip + seq![SP] + host
}

/// A line as it is written back: replaced by the new entry where it mentions
/// `host`, kept as it is otherwise; a line feed ends it either way.
pub open spec fn rewrite_line(l: Seq<u8>, host: Seq<u8>, ip: Seq<u8>) -> Seq<u8> {
    if contains(l, host) {
        entry(host, ip) + seq![LF]
    } else {
        l + seq![LF]
    }
}

/// All lines of `ls` as they are written back, in order.
pub open spec fn rewrite_lines(ls: Seq<Seq<u8>>, host: Seq<u8>, ip: Seq<u8>) -> Seq<u8>
    decreases ls.len(),
{
    if ls.len() == 0 {
        Seq::empty()
    } else {
        rewrite_line(ls[0], host, ip) + rewrite_lines(ls.drop_first(), host, ip)
    }
}

/// Some line of `ls` mentions `host`.
pub open spec fn any_contains(ls: Seq<Seq<u8>>, host: Seq<u8>) -> bool {
    exists|k: int| 0 <= k < ls.len() && contains(#[trigger] ls[k], host)
}

/// The table `s` after `host` was mapped to `ip`: every line that mentions `host`
/// is replaced by the entry, and where none does the entry is appended.
pub open spec fn updated_table(s: Seq<u8>, host: Seq<u8>, ip: Seq<u8>) -> Seq<u8> {
    let ls = table_lines(s);
    if any_contains(ls, host) {
        rewrite_lines(ls, host, ip)
    } else {
        rewrite_lines(ls, host, ip) + entry(host, ip)
    }
}

fn push_all(out: &mut Vec<u8>, b: &[u8])
    ensures
        final(out)@ == old(out)@ + b@,
{
    let mut i: usize = 0;
    while i < b.len()
        invariant
            i <= b@.len(),
            out@ == old(out)@ + b@.subrange(0, i as int),
        decreases b@.len() - i,
    {
        out.push(b[i]);
        i = i + 1;
    }
    assert(b@.subrange(0, b@.len() as int) == b@);
}

fn occurs_at(hay: &[u8], needle: &[u8], at: usize) -> (r: bool)
    requires
        at + needle@.len() <= hay@.len(),
    ensures
        r == (hay@.subrange(at as int, at + needle@.len()) == needle@),
{
    let n = hay.len();
    let mut j: usize = 0;
    while j < needle.len()
        invariant
            n == hay@.len(),
            at + needle@.len() <= hay@.len(),
            j <= needle@.len(),
            forall|k: int| 0 <= k < j ==> hay@[at + k] == needle@[k],
        decreases needle@.len() - j,
    {
        if hay[at + j] != needle[j] {
            assert(hay@.subrange(at as int, at + needle@.len())[j as int] != needle@[j as int]);
            return false;
        }
        j = j + 1;
    }
    assert(hay@.subrange(at as int, at + needle@.len()) == needle@);
    true
}

/// Whether `needle` occurs in `hay`.
pub fn contains_bytes(hay: &[u8], needle: &[u8]) -> (r: bool)
    ensures
        r == contains(hay@, needle@),
{
    let n = hay.len();
    let m = needle.len();
    if m > n {
        return false;
    }
    if m == 0 {
        assert(hay@.subrange(0, 0 + needle@.len() as int) == needle@);
        return true;
    }
    let mut i: usize = 0;
    while i <= n - m
        invariant
            0 < m <= n,
            n == hay@.len(),
            m == needle@.len(),
            forall|j: int| 0 <= j < i ==> #[trigger] hay@.subrange(j, j + m) != needle@,
        decreases n - m + 1 - i,
    {
        if occurs_at(hay, needle, i) {
            return true;
        }
        i = i + 1;
    }
    false
}

proof fn lemma_rewrite_cons(l: Seq<u8>, rest: Seq<Seq<u8>>, host: Seq<u8>, ip: Seq<u8>)
    ensures
        rewrite_lines(seq![l] + rest, host, ip) == rewrite_line(l, host, ip) + rewrite_lines(rest, host, ip),
        any_contains(seq![l] + rest, host) == (contains(l, host) || any_contains(rest, host)),
{
    let ls = seq![l] + rest;
    assert(ls.drop_first() == rest);
    assert(ls[0] == l);
    if any_contains(rest, host) {
        let k = choose|k: int| 0 <= k < rest.len() && contains(#[trigger] rest[k], host);
        assert(ls[k + 1] == rest[k]);
    }
    if any_contains(ls, host) && !contains(l, host) {
        let k = choose|k: int| 0 <= k < ls.len() && contains(#[trigger] ls[k], host);
        assert(rest[k - 1] == ls[k]);
    }
}

/// The table `table` after `hostname` was mapped to `ip`: each line that mentions
/// `hostname` is replaced by `<ip> <hostname>`; where no line does, that entry is
/// appended, without a line feed.
pub fn update_table(table: &[u8], hostname: &[u8], ip: &[u8]) -> (r: Vec<u8>)
    requires
        table@.len() < usize::MAX,
    ensures
        r@ == updated_table(table@, hostname@, ip@),
{
    let ghost s = table@;
    let ghost h = hostname@;
    let ghost a = ip@;
    let n = table.len();
    let mut out: Vec<u8> = Vec::new();
    let mut matched = false;
    let mut start: usize = 0;
    while start < n
        invariant
            n == s.len(),
            n < usize::MAX,
            s == table@,
            h == hostname@,
            a == ip@,
            start <= n,
            out@ + rewrite_lines(lines_from(s, start as int), h, a) == rewrite_lines(table_lines(s), h, a),
            (matched || any_contains(lines_from(s, start as int), h)) == any_contains(table_lines(s), h),
        decreases n - start,
    {
        let mut e = start;
        while e < n && table[e] != LF
            invariant
                n == s.len(),
                s == table@,
                start <= e <= n,
                start < n,
                line_end(s, e as int) == line_end(s, start as int),
            decreases n - e,
        {
            e = e + 1;
        }
        let ghost rest = lines_from(s, e + 1);
        let stop = if e < n && e > start && table[e - 1] == CR {
            e - 1
        } else {
            e
        };
        let line = slice_subrange(table, start, stop);
        proof {
            assert(line_end(s, start as int) == e);
            if e < n {
                assert(line@ == strip_cr(s.subrange(start as int, e as int)));
                assert(lines_from(s, start as int) == seq![line@] + rest);
            } else {
                assert(lines_from(s, start as int) == seq![line@] + Seq::<Seq<u8>>::empty());
                assert(rest == Seq::<Seq<u8>>::empty());
            }
            lemma_rewrite_cons(line@, rest, h, a);
        }
        if contains_bytes(line, hostname) {
            push_all(&mut out, ip);
            out.push(SP);
            push_all(&mut out, hostname);
            out.push(LF);
            matched = true;
        } else {
            push_all(&mut out, line);
            out.push(LF);
        }
        start = if e < n {
            e + 1
        } else {
            n
        };
        proof {
            assert(lines_from(s, start as int) == rest);
        }
    }
    assert(lines_from(s, start as int) == Seq::<Seq<u8>>::empty());
    assert(rewrite_lines(Seq::<Seq<u8>>::empty(), h, a) == Seq::<u8>::empty());
    assert(out@ + Seq::<u8>::empty() == out@);
    if !matched {
        push_all(&mut out, ip);
        out.push(SP);
        push_all(&mut out, hostname);
    }
    out
}

proof fn lemma_line_end(s: Seq<u8>, i: int)
    requires
        0 <= i <= s.len(),
    ensures
        i <= line_end(s, i) <= s.len(),
        forall|j: int| i <= j < line_end(s, i) ==> s[j] != LF,
        line_end(s, i) < s.len() ==> s[line_end(s, i)] == LF,
    decreases s.len() - i,
{
    if i < s.len() && s[i] != LF {
        lemma_line_end(s, i + 1);
    }
}

proof fn lemma_line_end_at(s: Seq<u8>, i: int, e: int)
    requires
        0 <= i <= e <= s.len(),
        forall|j: int| i <= j < e ==> s[j] != LF,
        e == s.len() || s[e] == LF,
    ensures
        line_end(s, i) == e,
    decreases e - i,
{
    if i < e {
        lemma_line_end_at(s, i + 1, e);
    }
}

proof fn lemma_lines_shift(p: Seq<u8>, q: Seq<u8>, i: int)
    requires
        0 <= i <= q.len(),
    ensures
        lines_from(p + q, p.len() + i) == lines_from(q, i),
    decreases q.len() - i,
{
    let s = p + q;
    let o = p.len() as int;
    if i < q.len() {
        lemma_line_end(q, i);
        let e = line_end(q, i);
        assert forall|j: int| o + i <= j < o + e implies s[j] != LF by {
            assert(s[j] == q[j - o]);
        }
        lemma_line_end_at(s, o + i, o + e);
        assert(s.subrange(o + i, o + e) == q.subrange(i, e));
        if e < q.len() {
            lemma_lines_shift(p, q, e + 1);
        } else {
            assert(s.subrange(o + i, s.len() as int) == q.subrange(i, q.len() as int));
        }
    }
}

proof fn lemma_lines_cons(l: Seq<u8>, y: Seq<u8>)
    requires
        forall|j: int| 0 <= j < l.len() ==> l[j] != LF,
    ensures
        lines_from(l + seq![LF] + y, 0) == seq![strip_cr(l)] + lines_from(y, 0),
{
    let p = l + seq![LF];
    let s = p + y;
    lemma_line_end_at(s, 0, l.len() as int);
    assert(s.subrange(0, l.len() as int) == l);
    lemma_lines_shift(p, y, 0);
}

proof fn lemma_lines_no_lf(s: Seq<u8>, i: int)
    requires
        0 <= i,
    ensures
        forall|k: int, j: int|
            0 <= k < lines_from(s, i).len() && 0 <= j < lines_from(s, i)[k].len() ==> lines_from(s, i)[k][j]
                != LF,
    decreases s.len() - i,
{
    if i < s.len() {
        lemma_line_end(s, i);
        let e = line_end(s, i);
        let l = s.subrange(i, e);
        assert forall|j: int| 0 <= j < strip_cr(l).len() implies strip_cr(l)[j] != LF by {
            assert(strip_cr(l)[j] == l[j]);
        }
        if e < s.len() {
            lemma_lines_no_lf(s, e + 1);
            let rest = lines_from(s, e + 1);
            assert forall|k: int, j: int|
                0 <= k < lines_from(s, i).len() && 0 <= j < lines_from(s, i)[k].len() implies lines_from(
                s,
                i,
            )[k][j] != LF by {
                if k > 0 {
                    assert(lines_from(s, i)[k] == rest[k - 1]);
                }
            }
        }
    }
}

proof fn lemma_strip_cr_contains(l: Seq<u8>, h: Seq<u8>)
    ensures
        contains(strip_cr(l), h) ==> contains(l, h),
{
    if contains(strip_cr(l), h) {
        let i = choose|i: int|
            0 <= i && i + h.len() <= strip_cr(l).len() && #[trigger] strip_cr(l).subrange(i, i + h.len())
                == h;
        assert(l.subrange(i, i + h.len()) == strip_cr(l).subrange(i, i + h.len()));
    }
}

/// Every line of `ls` with one carriage return taken off its end.
pub open spec fn strip_all(ls: Seq<Seq<u8>>) -> Seq<Seq<u8>> {
    ls.map_values(|l: Seq<u8>| strip_cr(l))
}

proof fn lemma_rewritten_lines(ls: Seq<Seq<u8>>, h: Seq<u8>, ip: Seq<u8>, tail: Seq<u8>)
    requires
        forall|k: int| 0 <= k < ls.len() ==> !contains(#[trigger] ls[k], h),
        forall|k: int, j: int| 0 <= k < ls.len() && 0 <= j < ls[k].len() ==> ls[k][j] != LF,
    ensures
        lines_from(rewrite_lines(ls, h, ip) + tail, 0) == strip_all(ls) + lines_from(tail, 0),
    decreases ls.len(),
{
    if ls.len() == 0 {
        assert(rewrite_lines(ls, h, ip) + tail == tail);
        assert(strip_all(ls) + lines_from(tail, 0) == lines_from(tail, 0));
    } else {
        let l = ls[0];
        let rest = ls.drop_first();
        assert(!contains(ls[0], h));
        assert forall|k: int, j: int| 0 <= k < rest.len() && 0 <= j < rest[k].len() implies rest[k][j] != LF by {
            assert(rest[k] == ls[k + 1]);
        }
        assert forall|k: int| 0 <= k < rest.len() implies !contains(#[trigger] rest[k], h) by {
            assert(rest[k] == ls[k + 1]);
        }
        lemma_rewritten_lines(rest, h, ip, tail);
        let y = rewrite_lines(rest, h, ip) + tail;
        assert(forall|j: int| 0 <= j < l.len() ==> l[j] != LF);
        lemma_lines_cons(l, y);
        assert(rewrite_lines(ls, h, ip) + tail == l + seq![LF] + y);
        assert(strip_all(ls) == seq![strip_cr(l)] + strip_all(rest));
    }
}

proof fn lemma_rewrite_concat(a: Seq<Seq<u8>>, b: Seq<Seq<u8>>, h: Seq<u8>, ip: Seq<u8>)
    ensures
        rewrite_lines(a + b, h, ip) == rewrite_lines(a, h, ip) + rewrite_lines(b, h, ip),
    decreases a.len(),
{
    if a.len() == 0 {
        assert(a + b == b);
    } else {
        lemma_rewrite_concat(a.drop_first(), b, h, ip);
        assert((a + b).drop_first() == a.drop_first() + b);
        assert((a + b)[0] == a[0]);
    }
}

/// Mapping a hostname to an address twice in a row, on a table where no line
/// mentions that hostname, leaves exactly one line that mentions it: the last
/// one, `<ip> <hostname>`. A hostname holds no line break, an address no line
/// feed.
pub proof fn lemma_update_twice_one_entry(s: Seq<u8>, h: Seq<u8>, ip: Seq<u8>)
    requires
        !any_contains(table_lines(s), h),
        forall|j: int| 0 <= j < h.len() ==> h[j] != LF && h[j] != CR,
        forall|j: int| 0 <= j < ip.len() ==> ip[j] != LF,
    ensures
        ({
            let ls = table_lines(updated_table(updated_table(s, h, ip), h, ip));
            &&& ls.len() >= 1
            &&& ls.last() == entry(h, ip)
            &&& forall|k: int| 0 <= k < ls.len() - 1 ==> !contains(#[trigger] ls[k], h)
        }),
{
    let e = entry(h, ip);
    let l0 = table_lines(s);
    lemma_lines_no_lf(s, 0);
    assert forall|k: int| 0 <= k < l0.len() implies !contains(#[trigger] l0[k], h) by {
        if contains(l0[k], h) {
            assert(any_contains(l0, h));
        }
    }
    assert forall|j: int| 0 <= j < e.len() implies e[j] != LF by {
        if j < ip.len() {
            assert(e[j] == ip[j]);
        } else if j > ip.len() {
            assert(e[j] == h[j - ip.len() - 1]);
        }
    }
    assert(e.subrange(ip.len() + 1 as int, ip.len() + 1 + h.len() as int) == h);
    assert(contains(e, h));
    // The first update appends the entry.
    let u1 = updated_table(s, h, ip);
    lemma_rewritten_lines(l0, h, ip, e);
    lemma_line_end_at(e, 0, e.len() as int);
    assert(e.subrange(0, e.len() as int) == e);
    let l1 = strip_all(l0) + seq![e];
    assert(table_lines(u1) == l1);
    assert(l1[l1.len() - 1] == e);
    assert(any_contains(l1, h));
    // The second replaces it and leaves the other lines as they were.
    let m = strip_all(l0);
    assert forall|k: int| 0 <= k < m.len() implies !contains(#[trigger] m[k], h) by {
        lemma_strip_cr_contains(l0[k], h);
    }
    assert forall|k: int, j: int| 0 <= k < m.len() && 0 <= j < m[k].len() implies m[k][j] != LF by {
        assert(m[k][j] == l0[k][j]);
    }
    lemma_rewrite_concat(m, seq![e], h, ip);
    assert(seq![e].drop_first() == Seq::<Seq<u8>>::empty());
    assert(seq![e][0] == e);
    assert(rewrite_lines(Seq::<Seq<u8>>::empty(), h, ip) == Seq::<u8>::empty());
    assert(rewrite_line(e, h, ip) == e + seq![LF]);
    assert(rewrite_lines(seq![e], h, ip) == e + seq![LF] + Seq::<u8>::empty());
    let u2 = updated_table(u1, h, ip);
    assert(u2 == rewrite_lines(m, h, ip) + (e + seq![LF]));
    lemma_rewritten_lines(m, h, ip, e + seq![LF]);
    lemma_lines_cons(e, Seq::<u8>::empty());
    assert(e + seq![LF] + Seq::<u8>::empty() == e + seq![LF]);
    assert(strip_cr(e) == e);
    let l2 = strip_all(m) + seq![e];
    assert(table_lines(u2) == l2);
    assert forall|k: int| 0 <= k < l2.len() - 1 implies !contains(#[trigger] l2[k], h) by {
        assert(l2[k] == strip_cr(m[k]));
        lemma_strip_cr_contains(m[k], h);
    }
}

} // verus!
