//! The Fiat-Shamir transcript: an append-only list of byte-string objects
//! with a read cursor, serialized through the verified wire format and
//! hashed with the SHAKE256 extendable-output function.
//!
//! The security-critical asymmetry: the prover derives a challenge from the
//! whole object list, the verifier only from the prefix it has pulled, so a
//! verifier's challenge can never depend on data revealed later.

use vstd::prelude::*;

verus! {

use sha3::digest::{ExtendableOutput, Update, XofReader};
use crate::bincode_serializer::{BincodeSerializer, EncodingError, encode_stream};
use crate::merkle::views;

/// The first `n` bytes SHAKE256 produces on the given input; a function of
/// the input and the length alone.
pub uninterp spec fn shake256_of(input: Seq<u8>, n: nat) -> Seq<u8>;

/// Relies on sha3's SHAKE256: an extendable-output digest read to the
/// requested length, a function of the input bytes alone.
#[verifier::external_body]
fn shake256(input: &Vec<u8>, num_bytes: usize) -> (r: Vec<u8>)
    ensures
        r@ == shake256_of(input@, num_bytes as nat),
        r@.len() == num_bytes,
{
    let mut hasher = sha3::Shake256::default();
    hasher.update(input.as_slice());
    let mut reader = hasher.finalize_xof();
    let mut out = vec![0u8; num_bytes];
    reader.read(&mut out);
    out
}

/// The challenge derived from a list of transcript objects: the XOF digest
/// of their encoding.
pub open spec fn challenge(objs: Seq<Seq<u8>>, n: nat) -> Seq<u8> {
    shake256_of(encode_stream(objs), n)
}

/// An ordered log of transcript objects with a monotone read cursor.
pub struct ProofStream {
    pub objects: Vec<Vec<u8>>,
    pub read_index: usize,
}

impl ProofStream {
    /// The cursor never passes the end of the log.
    pub open spec fn wf(self) -> bool {
        self.read_index <= self.objects@.len()
    }

    /// Creates an empty transcript with the cursor at the start.
    pub fn new() -> (r: ProofStream)
        ensures
            r.wf(),
            r.objects@.len() == 0,
            r.read_index == 0,
    {
        ProofStream { objects: Vec::new(), read_index: 0 }
    }

    /// Appends an object; the cursor does not move.
    pub fn push(&mut self, obj: Vec<u8>)
        requires
            old(self).wf(),
        ensures
            final(self).wf(),
            final(self).objects@.len() == old(self).objects@.len() + 1,
            views(final(self).objects@) == views(old(self).objects@).push(obj@),
            final(self).read_index == old(self).read_index,
    {
        self.objects.push(obj);
        proof {
            assert(views(self.objects@) =~= views(old(self).objects@).push(obj@));
        }
    }

    /// Reads the next object and advances the cursor. The transcript must
    /// not be exhausted.
    pub fn pull(&mut self) -> (r: Vec<u8>)
        requires
            old(self).wf(),
            old(self).read_index < old(self).objects@.len(),
        ensures
            final(self).wf(),
            final(self).objects@ == old(self).objects@,
            final(self).read_index == old(self).read_index + 1,
            r@ == views(old(self).objects@)[old(self).read_index as int],
    {
        let n = self.objects.len();
        let r = copy_item(&self.objects[self.read_index]);
        self.read_index = self.read_index + 1;
        r
    }

    /// Serializes the whole object list; this cannot fail.
    pub fn serialize(&self) -> (r: Result<Vec<u8>, EncodingError>)
        ensures
            r is Ok,
            r is Ok ==> (r->Ok_0)@ == encode_stream(views(self.objects@)),
    {
        Ok(BincodeSerializer::serialize(&self.objects))
    }

    /// Rebuilds a transcript from bytes, with the cursor reset to the start.
    /// It succeeds exactly on the byte strings that [`Self::serialize`]
    /// produces, and recovers the one object list they encode.
    pub fn deserialize(bytes: &Vec<u8>) -> (r: Result<ProofStream, EncodingError>)
        ensures
            r is Ok ==> (r->Ok_0).wf() && (r->Ok_0).read_index == 0 && bytes@ == encode_stream(
                views((r->Ok_0).objects@),
            ),
            forall|objs: Seq<Seq<u8>>| bytes@ == #[trigger] encode_stream(objs) ==> r is Ok,
    {
        match BincodeSerializer::deserialize(bytes) {
            Ok(objects) => Ok(ProofStream { objects, read_index: 0 }),
            Err(e) => Err(e),
        }
    }

    /// The prover's challenge: the XOF digest of the encoding of the whole
    /// object list, read to the requested length.
    pub fn prover_fiat_shamir(&self, num_bytes: usize) -> (r: Result<Vec<u8>, EncodingError>)
        ensures
            r is Ok,
            r is Ok ==> (r->Ok_0)@ == challenge(views(self.objects@), num_bytes as nat) && (
            r->Ok_0)@.len() == num_bytes,
    {
        let encoded = BincodeSerializer::serialize(&self.objects);
        Ok(shake256(&encoded, num_bytes))
    }

    /// The verifier's challenge: as the prover's, but over only the objects
    /// pulled so far. A verifier's challenge therefore never depends on
    /// objects revealed after its cursor.
    pub fn verifier_fiat_shamir(&self, num_bytes: usize) -> (r: Result<Vec<u8>, EncodingError>)
        requires
            self.wf(),
        ensures
            r is Ok,
            r is Ok ==> (r->Ok_0)@ == challenge(
                views(self.objects@).take(self.read_index as int),
                num_bytes as nat,
            ) && (r->Ok_0)@.len() == num_bytes,
    {
        let mut prefix: Vec<Vec<u8>> = Vec::new();
        let mut i: usize = 0;
        while i < self.read_index
            invariant
                self.wf(),
                i <= self.read_index,
                views(prefix@) == views(self.objects@).take(i as int),
            decreases self.read_index - i,
        {
            let item = copy_item(&self.objects[i]);
            let ghost p0 = prefix@;
            prefix.push(item);
            proof {
                assert(views(prefix@) =~= views(p0).push(self.objects@[i as int]@));
                assert(views(self.objects@).take(i as int + 1) =~= views(self.objects@).take(
                    i as int,
                ).push(self.objects@[i as int]@));
            }
            i = i + 1;
        }
        let encoded = BincodeSerializer::serialize(&prefix);
        Ok(shake256(&encoded, num_bytes))
    }
}

/// Copies one transcript object.
fn copy_item(v: &Vec<u8>) -> (r: Vec<u8>)
    ensures
        r@ == v@,
{
    let mut out: Vec<u8> = Vec::new();
    let mut i: usize = 0;
    while i < v.len()
        invariant
            i <= v@.len(),
            out@ == v@.take(i as int),
        decreases v@.len() - i,
    {
        out.push(v[i]);
        proof {
            assert(out@ =~= v@.take(i as int + 1));
        }
        i = i + 1;
    }
    proof {
        assert(out@ =~= v@);
    }
    out
}

/// Two transcripts built by identical push sequences hold the same objects,
/// and then derive the same prover challenge for every requested length:
/// the challenge is a function of the transcript contents alone.
pub proof fn lemma_fiat_shamir_deterministic(s: ProofStream, t: ProofStream, n: nat)
    requires
        views(s.objects@) == views(t.objects@),
    ensures
        challenge(views(s.objects@), n) == challenge(views(t.objects@), n),
{
}

/// The verifier's challenge after pulling exactly the first objects of `s`
/// equals the prover's challenge over a transcript `t` truncated to those
/// same objects.
pub proof fn lemma_verifier_matches_truncated_prover(s: ProofStream, t: ProofStream, n: nat)
    requires
        s.wf(),
        views(t.objects@) == views(s.objects@).take(s.read_index as int),
    ensures
        challenge(views(s.objects@).take(s.read_index as int), n) == challenge(
            views(t.objects@),
            n,
        ),
{
}

} // verus!
