use vstd::prelude::*;
use vstd::bytes::spec_u128_to_le_bytes;
use vstd::bytes::spec_u64_to_le_bytes;
use vstd::bytes::u128_to_le_bytes;
use vstd::bytes::u64_to_le_bytes;

verus! {

/// Number of bytes of a serialised `ScoreResult`:
/// owner (32) | encrypted_result (32) | nonce (16) | processed_at (8) | version (1).
pub const SCORE_RESULT_BYTES: usize = 89;

/// Number of bytes of a packed dispatch argument blob:
/// ephemeral_pubkey (32) | nonce (16) | ciphertext (32) | count (1).
pub const QUEUE_ARGS_BYTES: usize = 81;

/// Marker written into the `version` byte of every stored result.
pub const RESULT_VERSION: u8 = 1;

/// A validated submission: the encrypted packed scores together with the
/// material the cluster needs to encrypt its answer back to the submitter.
/// The ciphertext is opaque to the core and never inspected.
#[derive(Clone, Copy, Debug, PartialEq, Eq)]
pub struct EncryptedRequest {
    /// Encrypted packed block of eight score slots.
    pub ciphertext: [u8; 32],
    /// Per-submission public key the cluster encrypts its output under.
    pub ephemeral_pubkey: [u8; 32],
    /// Encryption nonce chosen by the submitter.
    pub nonce: u128,
    /// Number of meaningful score slots; always within 1..=8.
    pub count: u8,
    /// Identity the eventual result is stored under.
    pub owner: [u8; 32],
}

impl EncryptedRequest {
    /// The request's count lies within the accepted range.
    pub open spec fn wf(self) -> bool {
        1 <= self.count <= 8
    }

    /// The packed argument blob the queue dispatches to the cluster:
    /// ephemeral_pubkey | nonce (little-endian) | ciphertext | count.
    pub open spec fn spec_queue_args(self) -> Seq<u8> {
        self.ephemeral_pubkey@ + spec_u128_to_le_bytes(self.nonce) + self.ciphertext@
            + seq![self.count]
    }

    /// Package the request for dispatch to the cluster.
    pub fn queue_args(&self) -> (r: Vec<u8>)
        ensures
            r@ == self.spec_queue_args(),
            r@.len() == QUEUE_ARGS_BYTES,
    {
        let mut r: Vec<u8> = Vec::new();
        let mut i: usize = 0;
        while i < 32
            invariant
                0 <= i <= 32,
                r@ == self.ephemeral_pubkey@.subrange(0, i as int),
            decreases 32 - i,
        {
            r.push(self.ephemeral_pubkey[i]);
            proof {
                assert(r@ =~= self.ephemeral_pubkey@.subrange(0, i + 1));
            }
            i = i + 1;
        }
        proof {
            assert(r@ =~= self.ephemeral_pubkey@);
        }
        let mut nonce_bytes = u128_to_le_bytes(self.nonce);
        r.append(&mut nonce_bytes);
        i = 0;
        while i < 32
            invariant
                0 <= i <= 32,
                r@ == self.ephemeral_pubkey@ + spec_u128_to_le_bytes(self.nonce)
                    + self.ciphertext@.subrange(0, i as int),
            decreases 32 - i,
        {
            r.push(self.ciphertext[i]);
            proof {
                assert(r@ =~= self.ephemeral_pubkey@ + spec_u128_to_le_bytes(self.nonce)
                    + self.ciphertext@.subrange(0, i + 1));
            }
            i = i + 1;
        }
        r.push(self.count);
        proof {
            assert(r@ =~= self.spec_queue_args());
        }
        r
    }
}

/// Lifecycle of a computation job. `Pending` is the only initial state;
/// `Completed` and `Aborted` are terminal and are never left again.
#[derive(Clone, Copy, Debug, PartialEq, Eq, Structural)]
pub enum JobStatus {
    /// Submitted and dispatched; the callback has not arrived yet.
    Pending,
    /// The callback arrived with a valid proof; the result was stored.
    Completed,
    /// The callback arrived with an invalid proof; no result was stored.
    Aborted,
}

impl JobStatus {
    /// A terminal status admits no further transition.
    pub open spec fn is_terminal(self) -> bool {
        self != JobStatus::Pending
    }
}

/// One queued computation: the caller-chosen offset that correlates the
/// submission with its single expected callback, the job's state, and the
/// request that was dispatched.
#[derive(Clone, Copy, Debug, PartialEq, Eq)]
pub struct ComputationJob {
    /// Caller-chosen job identifier.
    pub offset: u64,
    /// Current lifecycle state.
    pub status: JobStatus,
    /// The submission this job was created for.
    pub request: EncryptedRequest,
}

/// What the cluster's signature over an output attests: the identity of the
/// issuing cluster and the job the output answers. A proof is accepted only
/// if both match, which rejects forged outputs and outputs replayed across
/// jobs.
#[derive(Clone, Copy, Debug, PartialEq, Eq)]
pub struct ComputationProof {
    /// Identity of the cluster that claims to have produced the output.
    pub cluster: [u8; 32],
    /// Offset of the job the output claims to answer.
    pub offset: u64,
}

/// The signed output the cluster delivers on the callback: one or more
/// result ciphertexts, the nonce they were encrypted under, and the proof
/// binding them to a cluster and a job.
#[derive(Debug, PartialEq, Eq)]
pub struct SignedComputationOutput {
    /// Result ciphertexts; the first carries the packed `[sum, count]`.
    pub ciphertexts: Vec<[u8; 32]>,
    /// Nonce the cluster encrypted the result under.
    pub nonce: u128,
    /// Authenticity proof for this output.
    pub proof: ComputationProof,
}

impl SignedComputationOutput {
    /// An output carries at least one ciphertext.
    pub open spec fn wf(self) -> bool {
        self.ciphertexts@.len() >= 1
    }
}

/// The single stored result slot of one owner: the latest verified
/// encrypted result, the nonce to decrypt it under, and when it was
/// processed. At most one lives per owner; each verified callback for the
/// owner fully replaces it.
#[derive(Clone, Copy, Debug, PartialEq, Eq)]
pub struct ScoreResult {
    /// Identity the slot is keyed under.
    pub owner: [u8; 32],
    /// Latest verified encrypted result.
    pub encrypted_result: [u8; 32],
    /// Nonce of the result ciphertext, little-endian.
    pub nonce: [u8; 16],
    /// Callback timestamp of the write, seconds.
    pub processed_at: i64,
    /// Layout version marker.
    pub version: u8,
}

impl ScoreResult {
    /// The fixed persisted layout:
    /// owner | encrypted_result | nonce | processed_at (little-endian,
    /// two's complement) | version.
    pub open spec fn spec_bytes(self) -> Seq<u8> {
        self.owner@ + self.encrypted_result@ + self.nonce@
            + spec_u64_to_le_bytes(self.processed_at as u64) + seq![self.version]
    }

    /// Serialise the result into its persisted layout.
    pub fn to_bytes(&self) -> (r: Vec<u8>)
        ensures
            r@ == self.spec_bytes(),
            r@.len() == SCORE_RESULT_BYTES,
    {
        let mut r: Vec<u8> = Vec::new();
        let mut i: usize = 0;
        while i < 32
            invariant
                0 <= i <= 32,
                r@ == self.owner@.subrange(0, i as int),
            decreases 32 - i,
        {
            r.push(self.owner[i]);
            proof {
                assert(r@ =~= self.owner@.subrange(0, i + 1));
            }
            i = i + 1;
        }
        proof {
            assert(r@ =~= self.owner@);
        }
        i = 0;
        while i < 32
            invariant
                0 <= i <= 32,
                r@ == self.owner@ + self.encrypted_result@.subrange(0, i as int),
            decreases 32 - i,
        {
            r.push(self.encrypted_result[i]);
            proof {
                assert(r@ =~= self.owner@ + self.encrypted_result@.subrange(0, i + 1));
            }
            i = i + 1;
        }
        i = 0;
        while i < 16
            invariant
                0 <= i <= 16,
                r@ == self.owner@ + self.encrypted_result@ + self.nonce@.subrange(0, i as int),
            decreases 16 - i,
        {
            r.push(self.nonce[i]);
            proof {
                assert(r@ =~= self.owner@ + self.encrypted_result@ + self.nonce@.subrange(
                    0,
                    i + 1,
                ));
            }
            i = i + 1;
        }
        #[verifier::truncate]
        let stamp: u64 = self.processed_at as u64;
        let mut stamp_bytes = u64_to_le_bytes(stamp);
        r.append(&mut stamp_bytes);
        r.push(self.version);
        proof {
            assert(r@ =~= self.spec_bytes());
        }
        r
    }
}

/// The result-ready notification emitted for external subscribers once a
/// verified result has been stored. Carries only ciphertext, nonce and
/// owner; subscribers decrypt off-system.
#[derive(Clone, Copy, Debug, PartialEq, Eq)]
pub struct ScoresProcessedEvent {
    /// The stored encrypted result.
    pub encrypted_result: [u8; 32],
    /// Nonce of the result ciphertext, little-endian.
    pub nonce: [u8; 16],
    /// Owner the result was stored for.
    pub owner: [u8; 32],
}

/// Copy a 128-bit nonce into its 16 little-endian bytes.
pub fn nonce_le_bytes(nonce: u128) -> (r: [u8; 16])
    ensures
        r@ == spec_u128_to_le_bytes(nonce),
{
    let v = u128_to_le_bytes(nonce);
    let mut r: [u8; 16] = [0u8; 16];
    let mut i: usize = 0;
    while i < 16
        invariant
            0 <= i <= 16,
            v@ == spec_u128_to_le_bytes(nonce),
            v@.len() == 16,
            r@.len() == 16,
            forall|j: int| 0 <= j < i ==> r@[j] == v@[j],
        decreases 16 - i,
    {
        r[i] = v[i];
        i = i + 1;
    }
    proof {
        assert(r@ =~= v@);
    }
    r
}

} // verus!
