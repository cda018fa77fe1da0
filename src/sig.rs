//! Authentication of announcement payloads: a keyed HMAC-SHA256 strategy and a
//! passthrough strategy.
use vstd::prelude::*;
use vstd::slice::{slice_subrange, slice_to_vec};
use hmac::{Hmac, Mac};
use sha2::Sha256;

verus! {

/// Length in bytes of the tag that the keyed strategy appends.
pub const TAG_LEN: usize = 32;

/// Why a received payload was refused.
#[derive(Debug, Clone, Copy, PartialEq, Eq, Structural)]
pub enum AuthError {
    /// The payload is shorter than a tag.
    TooShort,
    /// The tag does not match the message under the shared key.
    BadSignature,
}

/// HMAC-SHA256 of `msg` under `key`.
pub uninterp spec fn hmac_sha256_of(key: Seq<u8>, msg: Seq<u8>) -> [u8; 32];

/// Relies on `Hmac::<Sha256>::new_from_slice`, `Mac::chain_update` and
/// `Mac::finalize` (hmac 0.12): the HMAC-SHA256 tag of `data` under `key`.
/// `new_from_slice` accepts keys of every length.
#[verifier::external_body]
fn hmac_sha256(key: &[u8], data: &[u8]) -> (r: [u8; 32])
    ensures
        r == hmac_sha256_of(key@, data@),
{
    let mac = <Hmac<Sha256> as Mac>::new_from_slice(key).expect("HMAC takes keys of any length");
    mac.chain_update(data).finalize().into_bytes().into()
}

/// Relies on `Mac::verify_slice` (digest 0.10): `Ok` exactly when `tag` equals the
/// HMAC-SHA256 tag of `data` under `key`, compared in constant time.
#[verifier::external_body]
fn hmac_sha256_matches(key: &[u8], data: &[u8], tag: &[u8]) -> (r: bool)
    ensures
        r == (tag@ == hmac_sha256_of(key@, data@)@),
{
    let mac = <Hmac<Sha256> as Mac>::new_from_slice(key).expect("HMAC takes keys of any length");
    mac.chain_update(data).verify_slice(tag).is_ok()
}

/// The signed payload of the keyed strategy: the message followed by its tag.
pub open spec fn keyed_signed(key: Seq<u8>, msg: Seq<u8>) -> Seq<u8> {
    msg + hmac_sha256_of(key, msg)@
}

/// The outcome of checking `payload` under the keyed strategy.
pub open spec fn keyed_verified(key: Seq<u8>, payload: Seq<u8>) -> Result<Seq<u8>, AuthError> {
    if payload.len() < TAG_LEN {
        Err(AuthError::TooShort)
    } else {
        let split = payload.len() - TAG_LEN;
        let msg = payload.subrange(0, split);
        if payload.subrange(split, payload.len() as int) == hmac_sha256_of(key, msg)@ {
            Ok(msg)
        } else {
            Err(AuthError::BadSignature)
        }
    }
}

/// A payload signed under a key passes the check under that key and yields the
/// message back.
pub proof fn lemma_keyed_round_trip(key: Seq<u8>, msg: Seq<u8>)
    ensures
        keyed_verified(key, keyed_signed(key, msg)) == Ok::<Seq<u8>, AuthError>(msg),
{
    let tag = hmac_sha256_of(key, msg);
    let p = keyed_signed(key, msg);
    assert(tag@.len() == TAG_LEN);
    assert(p.subrange(0, msg.len() as int) == msg);
    assert(p.subrange(msg.len() as int, p.len() as int) == tag@);
}

/// Changing one byte of the tag of a signed payload (flipping one of its bits,
/// for one) makes the check fail with `BadSignature`.
pub proof fn lemma_tampered_tag_refused(key: Seq<u8>, msg: Seq<u8>, i: int, b: u8)
    requires
        msg.len() <= i < msg.len() + TAG_LEN,
        keyed_signed(key, msg)[i] != b,
    ensures
        keyed_verified(key, keyed_signed(key, msg).update(i, b)) == Err::<Seq<u8>, AuthError>(
            AuthError::BadSignature,
        ),
{
    let tag = hmac_sha256_of(key, msg);
    let p = keyed_signed(key, msg).update(i, b);
    assert(tag@.len() == TAG_LEN);
    assert(p.subrange(0, msg.len() as int) == msg);
    let t2 = p.subrange(msg.len() as int, p.len() as int);
    assert(t2[i - msg.len()] != tag@[i - msg.len()]);
}

/// Changing one byte of the message part of a signed payload (flipping one of
/// its bits, for one) makes the check fail with `BadSignature`, unless the
/// changed message happens to have the same tag as the original one.
pub proof fn lemma_tampered_message_refused(key: Seq<u8>, msg: Seq<u8>, i: int, b: u8)
    requires
        0 <= i < msg.len(),
        msg[i] != b,
        hmac_sha256_of(key, msg.update(i, b)) != hmac_sha256_of(key, msg),
    ensures
        keyed_verified(key, keyed_signed(key, msg).update(i, b)) == Err::<Seq<u8>, AuthError>(
            AuthError::BadSignature,
        ),
{
    let tag = hmac_sha256_of(key, msg);
    let tag2 = hmac_sha256_of(key, msg.update(i, b));
    let p = keyed_signed(key, msg).update(i, b);
    assert(tag@.len() == TAG_LEN);
    assert(tag2@.len() == TAG_LEN);
    assert(p.subrange(0, msg.len() as int) == msg.update(i, b));
    assert(p.subrange(msg.len() as int, p.len() as int) == tag@);
    if tag@ == tag2@ {
        assert forall|j: int| 0 <= j < 32 implies tag[j] == tag2[j] by {
            assert(tag@[j] == tag2@[j]);
        }
        assert(tag == tag2);
    }
}

/// A strategy that turns a message into a payload and checks a received payload.
pub trait Signer {
    /// The payload that `sign` makes of `data`.
    spec fn signed(&self, data: Seq<u8>) -> Seq<u8>;

    /// What `verify` makes of `payload`.
    spec fn verified(&self, payload: Seq<u8>) -> Result<Seq<u8>, AuthError>;

    /// The payload that carries `data`.
    fn sign(&self, data: &[u8]) -> (r: Vec<u8>)
        requires
            data@.len() + TAG_LEN <= usize::MAX,
        ensures
            r@ == self.signed(data@),
            r@.len() <= data@.len() + TAG_LEN,
    ;

    /// The message that the payload `data` carries, where it passes the check.
    fn verify(&self, data: &[u8]) -> (r: Result<Vec<u8>, AuthError>)
        ensures
            match r {
                Ok(m) => self.verified(data@) == Ok::<Seq<u8>, AuthError>(m@),
                Err(e) => self.verified(data@) == Err::<Seq<u8>, AuthError>(e),
            },
    ;
}

/// The keyed strategy: HMAC-SHA256 under a shared secret key.
pub struct HmacSigner {
    key: Vec<u8>,
}

impl HmacSigner {
    /// The shared secret key.
    pub closed spec fn key(&self) -> Seq<u8> {
        self.key@
    }

    pub fn new(key: Vec<u8>) -> (r: Self)
        ensures
            r.key() == key@,
    {
        HmacSigner { key }
    }
}

impl Signer for HmacSigner {
    open spec fn signed(&self, data: Seq<u8>) -> Seq<u8> {
        keyed_signed(self.key(), data)
    }

    open spec fn verified(&self, payload: Seq<u8>) -> Result<Seq<u8>, AuthError> {
        keyed_verified(self.key(), payload)
    }

    fn sign(&self, data: &[u8]) -> (r: Vec<u8>) {
        let tag = hmac_sha256(self.key.as_slice(), data);
        let mut signed = slice_to_vec(data);
        let mut i: usize = 0;
        while i < TAG_LEN
            invariant
                i <= TAG_LEN,
                tag@.len() == TAG_LEN,
                signed@ == data@ + tag@.subrange(0, i as int),
            decreases TAG_LEN - i,
        {
            signed.push(tag[i]);
            i = i + 1;
        }
        assert(tag@.subrange(0, TAG_LEN as int) == tag@);
        signed
    }

    fn verify(&self, data: &[u8]) -> (r: Result<Vec<u8>, AuthError>) {
        let n = data.len();
        if n < TAG_LEN {
            return Err(AuthError::TooShort);
        }
        let split = n - TAG_LEN;
        let msg = slice_subrange(data, 0, split);
        let tag = slice_subrange(data, split, n);
        if hmac_sha256_matches(self.key.as_slice(), msg, tag) {
            Ok(slice_to_vec(msg))
        } else {
            Err(AuthError::BadSignature)
        }
    }
}

/// The passthrough strategy: payloads are the messages themselves.
pub struct UnsecureSigner;

impl Signer for UnsecureSigner {
    open spec fn signed(&self, data: Seq<u8>) -> Seq<u8> {
        data
    }

    open spec fn verified(&self, payload: Seq<u8>) -> Result<Seq<u8>, AuthError> {
        Ok(payload)
    }

    fn sign(&self, data: &[u8]) -> (r: Vec<u8>) {
        slice_to_vec(data)
    }

    fn verify(&self, data: &[u8]) -> (r: Result<Vec<u8>, AuthError>) {
        Ok(slice_to_vec(data))
    }
}

/// The passthrough strategy signs a message as the message itself, and every
/// payload passes its check unchanged.
pub proof fn lemma_passthrough_identity(signer: UnsecureSigner, msg: Seq<u8>)
    ensures
        signer.signed(msg) == msg,
        signer.verified(msg) == Ok::<Seq<u8>, AuthError>(msg),
{
}

} // verus!
