//! Framing of payloads with a two-byte delimiter, and per-sender reassembly of
//! frames from datagram fragments.
use vstd::prelude::*;
use vstd::slice::{slice_subrange, slice_to_vec};
use bytes::BytesMut;

verus! {

/// Carriage return, the first byte of the delimiter.
pub const CR: u8 = 13;

/// Line feed, the second byte of the delimiter.
pub const LF: u8 = 10;

#[verifier::external_type_specification]
#[verifier::external_body]
pub struct ExBytesMut(BytesMut);

/// The bytes that a `BytesMut` holds.
pub uninterp spec fn buffered(b: BytesMut) -> Seq<u8>;

/// Relies on `BytesMut::new`: an empty buffer.
#[verifier::external_body]
pub(crate) fn buffer_new() -> (r: BytesMut)
    ensures
        buffered(r) == Seq::<u8>::empty(),
{
    BytesMut::new()
}

/// Relies on `BytesMut::extend_from_slice`: appends `extend`. It panics only when
/// the new length overflows or exceeds what an allocation may hold.
#[verifier::external_body]
fn buffer_extend(b: &mut BytesMut, extend: &[u8])
    requires
        buffered(*old(b)).len() + extend@.len() <= isize::MAX,
    ensures
        buffered(*final(b)) == buffered(*old(b)) + extend@,
{
    b.extend_from_slice(extend)
}

/// Relies on `BytesMut`'s `Deref` to `[u8]`: the bytes it holds.
#[verifier::external_body]
pub(crate) fn buffer_bytes(b: &BytesMut) -> (r: &[u8])
    ensures
        r@ == buffered(*b),
{
    b.as_ref()
}

/// Relies on `BytesMut::split_to`: the first `at` bytes leave `b` and are returned.
/// It panics when `at` exceeds the length.
#[verifier::external_body]
fn buffer_split_to(b: &mut BytesMut, at: usize) -> (r: BytesMut)
    requires
        at <= buffered(*old(b)).len(),
    ensures
        buffered(r) == buffered(*old(b)).subrange(0, at as int),
        buffered(*final(b)) == buffered(*old(b)).subrange(at as int, buffered(*old(b)).len() as int),
{
    b.split_to(at)
}

/// The frame that carries `payload`: the payload followed by `\r\n`.
pub open spec fn framed(payload: Seq<u8>) -> Seq<u8> {
    payload + seq![CR, LF]
}

/// The delimiter starts at position `p` of `s`.
pub open spec fn delim_at(s: Seq<u8>, p: int) -> bool {
    0 <= p && p + 1 < s.len() && s[p] == CR && s[p + 1] == LF
}

/// No delimiter starts before position `p` of `s`.
pub open spec fn no_delim_before(s: Seq<u8>, p: int) -> bool {
    forall|q: int| 0 <= q < p ==> !delim_at(s, q)
}

/// `s` holds no delimiter.
pub open spec fn no_delim(s: Seq<u8>) -> bool {
    no_delim_before(s, s.len() as int)
}

/// Where the first delimiter of `s` starts, if it holds one.
pub open spec fn first_delim(s: Seq<u8>) -> Option<int> {
    if exists|p: int| delim_at(s, p) && no_delim_before(s, p) {
        Some(choose|p: int| delim_at(s, p) && no_delim_before(s, p))
    } else {
        None
    }
}

/// The buffer after `incoming` was appended and a frame, if one is complete, was
/// taken out, and the payload of that frame.
pub open spec fn reassembled(buffer: Seq<u8>, incoming: Seq<u8>) -> (Seq<u8>, Option<Seq<u8>>) {
    let acc = buffer + incoming;
    match first_delim(acc) {
        Some(p) => (acc.subrange(p + 2, acc.len() as int), Some(acc.subrange(0, p))),
        None => (acc, None),
    }
}

proof fn lemma_first_delim_is(s: Seq<u8>, p: int)
    requires
        delim_at(s, p),
        no_delim_before(s, p),
    ensures
        first_delim(s) == Some(p),
{
    let c = choose|q: int| delim_at(s, q) && no_delim_before(s, q);
    assert(delim_at(s, c) && no_delim_before(s, c));
    if c < p {
        assert(!delim_at(s, c));
    }
    if p < c {
        assert(!delim_at(s, p));
    }
}

/// Appends the delimiter to `payload`.
pub fn frame(payload: &[u8]) -> (r: Vec<u8>)
    requires
        payload@.len() + 2 <= usize::MAX,
    ensures
        r@ == framed(payload@),
{
    let mut r = slice_to_vec(payload);
    r.push(CR);
    r.push(LF);
    r
}

/// Where the first delimiter of `s` starts, if it holds one.
pub fn find_delim(s: &[u8]) -> (r: Option<usize>)
    requires
        s@.len() <= isize::MAX,
    ensures
        match r {
            Some(p) => first_delim(s@) == Some(p as int),
            None => first_delim(s@) == None::<int>,
        },
{
    let n = s.len();
    let mut i: usize = 0;
    while i + 1 < n
        invariant
            n == s@.len(),
            n <= isize::MAX,
            i <= n,
            no_delim_before(s@, i as int),
        decreases n - i,
    {
        if s[i] == CR && s[i + 1] == LF {
            proof {
                lemma_first_delim_is(s@, i as int);
            }
            return Some(i);
        }
        i = i + 1;
    }
    assert forall|p: int| !(delim_at(s@, p) && no_delim_before(s@, p)) by {
        if delim_at(s@, p) {
            assert(!delim_at(s@, p));
        }
    }
    None
}

/// Appends `incoming` to `buffer` and, where the buffer then holds a delimiter,
/// takes out everything up to and including the first one, and returns what came
/// before it. Bytes after that delimiter stay in `buffer`.
pub fn reassemble(buffer: &mut BytesMut, incoming: &[u8]) -> (r: Option<Vec<u8>>)
    requires
        buffered(*old(buffer)).len() + incoming@.len() <= isize::MAX,
    ensures
        buffered(*final(buffer)) == reassembled(buffered(*old(buffer)), incoming@).0,
        match r {
            Some(m) => reassembled(buffered(*old(buffer)), incoming@).1 == Some(m@),
            None => reassembled(buffered(*old(buffer)), incoming@).1 == None::<Seq<u8>>,
        },
{
    buffer_extend(buffer, incoming);
    let found = find_delim(buffer_bytes(buffer));
    match found {
        Some(p) => {
            let frame = buffer_split_to(buffer, p + 2);
            Some(slice_to_vec(slice_subrange(buffer_bytes(&frame), 0, p)))
        },
        None => None,
    }
}

/// The buffer that is left, and the payloads taken out in order, when `data`
/// arrives at an empty buffer one byte at a time.
pub open spec fn delivered_bytewise(data: Seq<u8>) -> (Seq<u8>, Seq<Seq<u8>>)
    decreases data.len(),
{
    if data.len() == 0 {
        (Seq::empty(), Seq::empty())
    } else {
        let prev = delivered_bytewise(data.drop_last());
        let step = reassembled(prev.0, seq![data.last()]);
        (
            step.0,
            match step.1 {
                Some(m) => prev.1.push(m),
                None => prev.1,
            },
        )
    }
}

proof fn lemma_no_delim_none(s: Seq<u8>)
    requires
        no_delim(s),
    ensures
        first_delim(s) == None::<int>,
{
    assert forall|p: int| !(delim_at(s, p) && no_delim_before(s, p)) by {
        if delim_at(s, p) {
            assert(!delim_at(s, p));
        }
    }
}

proof fn lemma_frame_prefix_has_no_delim(payload: Seq<u8>, k: int)
    requires
        no_delim(payload),
        0 <= k < framed(payload).len(),
    ensures
        no_delim(framed(payload).subrange(0, k)),
{
    let f = framed(payload);
    let t = f.subrange(0, k);
    assert forall|q: int| 0 <= q < t.len() implies !delim_at(t, q) by {
        if delim_at(t, q) {
            if q + 1 < payload.len() {
                assert(delim_at(payload, q));
            } else {
                assert(t[q + 1] == f[q + 1]);
                assert(f[q + 1] == CR);
            }
        }
    }
}

proof fn lemma_bytewise_prefix(payload: Seq<u8>, k: int)
    requires
        no_delim(payload),
        0 <= k < framed(payload).len(),
    ensures
        delivered_bytewise(framed(payload).subrange(0, k)) == (
        framed(payload).subrange(0, k),
        Seq::<Seq<u8>>::empty(),
        ),
    decreases k,
{
    let f = framed(payload);
    if k == 0 {
        assert(f.subrange(0, 0) == Seq::<u8>::empty());
    } else {
        lemma_bytewise_prefix(payload, k - 1);
        let t = f.subrange(0, k);
        assert(t.drop_last() == f.subrange(0, k - 1));
        assert(f.subrange(0, k - 1) + seq![t.last()] == t);
        lemma_frame_prefix_has_no_delim(payload, k);
        lemma_no_delim_none(t);
    }
}

/// A frame whose payload holds no delimiter, delivered one byte at a time, yields
/// its payload exactly once and leaves the buffer empty.
pub proof fn lemma_bytewise_reassembly(payload: Seq<u8>)
    requires
        no_delim(payload),
    ensures
        delivered_bytewise(framed(payload)) == (Seq::<u8>::empty(), seq![payload]),
{
    let f = framed(payload);
    let n = f.len() as int;
    let m = payload.len() as int;
    lemma_bytewise_prefix(payload, n - 1);
    assert(f.drop_last() == f.subrange(0, n - 1));
    assert(f.subrange(0, n - 1) + seq![f.last()] == f);
    assert forall|q: int| 0 <= q < m implies !delim_at(f, q) by {
        if delim_at(f, q) && q + 1 < m {
            assert(delim_at(payload, q));
        }
    }
    lemma_first_delim_is(f, m);
    assert(f.subrange(0, m) == payload);
    assert(f.subrange(m + 2, n) == Seq::<u8>::empty());
    assert(Seq::<Seq<u8>>::empty().push(payload) == seq![payload]);
}

} // verus!
