//! What the listener makes of each datagram.
use vstd::prelude::*;
use vstd::utf8::{decode_utf8, valid_utf8};
use bytes::BytesMut;
use crate::frame::{buffer_bytes, buffer_new, buffered, reassemble, reassembled};
use crate::sig::{AuthError, Signer};

verus! {

/// Why a complete frame was dropped.
#[derive(Debug, Clone, Copy, PartialEq, Eq, Structural)]
pub enum ReceiveError {
    /// The payload failed authentication.
    Auth(AuthError),
    /// The authenticated message is not UTF-8.
    NotUtf8,
}

/// What became of a datagram.
#[derive(Debug, PartialEq, Eq)]
pub enum Received {
    /// No frame is complete yet; the sender's bytes stay buffered.
    Incomplete,
    /// A frame was complete but is dropped.
    Rejected(ReceiveError),
    /// A frame announced this machine's own hostname; nothing is to be done.
    OwnName,
    /// A frame announced a peer's hostname, to be entered in the hosts table.
    Announced(String),
}

impl Received {
    /// A frame was complete, so the sender's buffer is to be discarded.
    pub fn is_complete(&self) -> (r: bool)
        ensures
            r == !(self is Incomplete),
    {
        match self {
            Received::Incomplete => false,
            _ => true,
        }
    }
}

/// Relies on `String::from_utf8`: the string that `bytes` encode, where they are
/// valid UTF-8.
#[verifier::external_body]
fn utf8_string(bytes: Vec<u8>) -> (r: Option<String>)
    ensures
        r is Some <==> valid_utf8(bytes@),
        r matches Some(s) ==> s@ == decode_utf8(bytes@),
{
    String::from_utf8(bytes).ok()
}

/// What a frame with payload `frame` means to a machine named `own`.
pub open spec fn classified<S: Signer>(signer: &S, frame: Seq<u8>, own: Seq<char>, r: Received) -> bool {
    match signer.verified(frame) {
        Err(e) => r == Received::Rejected(ReceiveError::Auth(e)),
        Ok(m) => if !valid_utf8(m) {
            r == Received::Rejected(ReceiveError::NotUtf8)
        } else if decode_utf8(m) == own {
            r is OwnName
        } else {
            r matches Received::Announced(h) && h@ == decode_utf8(m)
        },
    }
}

/// Takes a datagram `data` from a sender whose bytes so far are in `buffer`:
/// appends it, and where a frame is then complete, takes it out, authenticates it,
/// decodes it and compares it with `own_hostname`.
pub fn handle_datagram<S: Signer>(
    buffer: &mut BytesMut,
    data: &[u8],
    own_hostname: &String,
    signer: &S,
) -> (r: Received)
    requires
        buffered(*old(buffer)).len() + data@.len() <= isize::MAX,
    ensures
        buffered(*final(buffer)) == reassembled(buffered(*old(buffer)), data@).0,
        match reassembled(buffered(*old(buffer)), data@).1 {
            None => r is Incomplete,
            Some(f) => classified(signer, f, own_hostname@, r),
        },
        r matches Received::Announced(h) ==> h@ != own_hostname@,
{
    match reassemble(buffer, data) {
        None => Received::Incomplete,
        Some(frame) => match signer.verify(frame.as_slice()) {
            Err(e) => Received::Rejected(ReceiveError::Auth(e)),
            Ok(message) => match utf8_string(message) {
                None => Received::Rejected(ReceiveError::NotUtf8),
                Some(host_name) => {
                    if host_name == *own_hostname {
                        Received::OwnName
                    } else {
                        Received::Announced(host_name)
                    }
                },
            },
        },
    }
}

/// The address of a sender: the bits of its IP address (an IPv4 address in the
/// low 32 bits, with `v6` false) and its port.
#[derive(Debug, Clone, Copy, PartialEq, Eq, Structural)]
pub struct PeerAddr {
    pub ip: u128,
    pub v6: bool,
    pub port: u16,
}

/// The bytes received so far from each sender whose frame is not complete yet.
pub struct PeerBuffers {
    entries: Vec<(PeerAddr, BytesMut)>,
    contents: Ghost<Map<PeerAddr, Seq<u8>>>,
}

impl View for PeerBuffers {
    type V = Map<PeerAddr, Seq<u8>>;

    closed spec fn view(&self) -> Map<PeerAddr, Seq<u8>> {
        self.contents@
    }
}

impl PeerBuffers {
    /// One entry per sender, and the entries are what the view maps each sender to.
    pub closed spec fn wf(&self) -> bool {
        &&& forall|i: int, j: int|
            0 <= i < j < self.entries@.len() ==> #[trigger] self.entries@[i].0 != #[trigger] self.entries@[j].0
        &&& forall|i: int|
            0 <= i < self.entries@.len() ==> self.contents@.contains_key(#[trigger] self.entries@[i].0)
                && self.contents@[self.entries@[i].0] == buffered(self.entries@[i].1)
        &&& forall|p: PeerAddr|
            #[trigger] self.contents@.contains_key(p) ==> exists|i: int|
                0 <= i < self.entries@.len() && #[trigger] self.entries@[i].0 == p
    }

    /// What is buffered for `from`: nothing where it has no entry.
    pub open spec fn pending(&self, from: PeerAddr) -> Seq<u8> {
        if self@.contains_key(from) {
            self@[from]
        } else {
            Seq::empty()
        }
    }

    pub fn new() -> (r: Self)
        ensures
            r.wf(),
            r@ == Map::<PeerAddr, Seq<u8>>::empty(),
    {
        PeerBuffers { entries: Vec::new(), contents: Ghost(Map::empty()) }
    }

    /// The number of bytes buffered for `from`.
    pub fn pending_len(&self, from: PeerAddr) -> (r: usize)
        requires
            self.wf(),
        ensures
            r == self.pending(from).len(),
    {
        match self.find(from) {
            Some(i) => buffer_bytes(&self.entries[i].1).len(),
            None => 0,
        }
    }

    fn find(&self, from: PeerAddr) -> (r: Option<usize>)
        requires
            self.wf(),
        ensures
            match r {
                Some(i) => i < self.entries@.len() && self.entries@[i as int].0 == from,
                None => !self@.contains_key(from),
            },
    {
        let mut i: usize = 0;
        while i < self.entries.len()
            invariant
                self.wf(),
                i <= self.entries@.len(),
                forall|j: int| 0 <= j < i ==> self.entries@[j].0 != from,
            decreases self.entries@.len() - i,
        {
            if self.entries[i].0 == from {
                return Some(i);
            }
            i = i + 1;
        }
        None
    }

    /// Takes a datagram `data` from `from`: appends it to what `from` sent so far,
    /// and where a frame is then complete, drops the sender's entry, with any bytes
    /// after that frame, and says what the frame means to a machine named
    /// `own_hostname`. Otherwise the sender keeps its entry, with `data` appended.
    pub fn receive<S: Signer>(&mut self, from: PeerAddr, data: &[u8], own_hostname: &String, signer: &S) -> (r:
        Received)
        requires
            old(self).wf(),
            old(self).pending(from).len() + data@.len() <= isize::MAX,
        ensures
            final(self).wf(),
            match reassembled(old(self).pending(from), data@).1 {
                None => r is Incomplete && final(self)@ == old(self)@.insert(
                    from,
                    reassembled(old(self).pending(from), data@).0,
                ),
                Some(f) => classified(signer, f, own_hostname@, r) && final(self)@ == old(self)@.remove(from),
            },
            r matches Received::Announced(h) ==> h@ != own_hostname@,
    {
        let ghost old_entries = self.entries@;
        let ghost old_map = self.contents@;
        let mut buffer = match self.find(from) {
            Some(i) => {
                let (_, b) = self.entries.remove(i);
                proof {
                    assert forall|k: int| 0 <= k < self.entries@.len() implies #[trigger] self.entries@[k].0
                        != from by {
                        if k < i {
                            assert(self.entries@[k] == old_entries[k]);
                        } else {
                            assert(self.entries@[k] == old_entries[k + 1]);
                        }
                    }
                }
                b
            },
            None => buffer_new(),
        };
        proof {
            assert forall|k: int| 0 <= k < self.entries@.len() implies #[trigger] self.entries@[k].0 != from by {
                if !old_map.contains_key(from) {
                    assert(self.entries@[k] == old_entries[k]);
                    assert(old_map.contains_key(old_entries[k].0));
                }
            }
            self.contents@ = old_map.remove(from);
            assert forall|p: PeerAddr| #[trigger] self.contents@.contains_key(p) implies exists|i: int|
                0 <= i < self.entries@.len() && #[trigger] self.entries@[i].0 == p by {
                let i = choose|i: int| 0 <= i < old_entries.len() && #[trigger] old_entries[i].0 == p;
                if old_entries.len() != self.entries@.len() {
                    let j = choose|j: int| 0 <= j < old_entries.len() && #[trigger] old_entries[j].0 == from;
                    if i < j {
                        assert(self.entries@[i] == old_entries[i]);
                    } else {
                        assert(self.entries@[i - 1] == old_entries[i]);
                    }
                } else {
                    assert(self.entries@[i] == old_entries[i]);
                }
            }
            assert forall|a: int, b: int| 0 <= a < b < self.entries@.len() implies #[trigger] self.entries@[a].0
                != #[trigger] self.entries@[b].0 by {
                if old_entries.len() != self.entries@.len() {
                    let j = choose|j: int| 0 <= j < old_entries.len() && #[trigger] old_entries[j].0 == from;
                    let oa = if a < j { a } else { a + 1 };
                    let ob = if b < j { b } else { b + 1 };
                    assert(self.entries@[a] == old_entries[oa]);
                    assert(self.entries@[b] == old_entries[ob]);
                } else {
                    assert(self.entries@[a] == old_entries[a]);
                    assert(self.entries@[b] == old_entries[b]);
                }
            }
            assert forall|k: int| 0 <= k < self.entries@.len() implies self.contents@.contains_key(
                #[trigger] self.entries@[k].0,
            ) && self.contents@[self.entries@[k].0] == buffered(self.entries@[k].1) by {
                if old_entries.len() != self.entries@.len() {
                    let j = choose|j: int| 0 <= j < old_entries.len() && #[trigger] old_entries[j].0 == from;
                    let ok = if k < j { k } else { k + 1 };
                    assert(self.entries@[k] == old_entries[ok]);
                } else {
                    assert(self.entries@[k] == old_entries[k]);
                }
            }
            assert(self.wf());
        }
        let r = handle_datagram(&mut buffer, data, own_hostname, signer);
        if !r.is_complete() {
            proof {
                self.contents@ = self.contents@.insert(from, buffered(buffer));
            }
            let ghost mid = self.entries@;
            self.entries.push((from, buffer));
            proof {
                let n = self.entries@.len() - 1;
                assert(self.entries@[n].0 == from);
                assert forall|p: PeerAddr| #[trigger] self.contents@.contains_key(p) implies exists|i: int|
                    0 <= i < self.entries@.len() && #[trigger] self.entries@[i].0 == p by {
                    if p == from {
                        assert(self.entries@[n].0 == p);
                    } else {
                        assert(old_map.remove(from).contains_key(p));
                        let i = choose|i: int| 0 <= i < mid.len() && #[trigger] mid[i].0 == p;
                        assert(self.entries@[i] == mid[i]);
                    }
                }
                assert(self.wf());
            }
        }
        proof {
            assert(self.contents@ =~= (match reassembled(old(self).pending(from), data@).1 {
                None => old_map.insert(from, reassembled(old(self).pending(from), data@).0),
                Some(_) => old_map.remove(from),
            }));
        }
        r
    }
}

} // verus!
