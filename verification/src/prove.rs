//! The proving-client boundary: the artifact a proving backend returns —
//! journal, post-state digest, seal — and the stub backend the tests run
//! the pipeline against. The real backend is an opaque, possibly remote
//! service; what matters here is the artifact's binding: a seal attests one
//! program identity and one journal, and fails against any other.

use vstd::prelude::*;

use crate::abi::push_bytes;
use crate::abi::push_zero_bytes;
use crate::abi::zero_bytes;
use crate::env::ChainSpec;
use crate::env::GuestAbort;
use crate::guest::run_guest;
use crate::guest::spec_run_guest;
use crate::values::bytes_eq;
use crate::values::clone_vec;

verus! {

/// Output of the proving client: the guest's public journal, the digest of
/// the guest's final machine state, and the opaque seal attesting both.
#[derive(Debug)]
pub struct ProofArtifact {
    pub journal: Vec<u8>,
    pub post_state_digest: Vec<u8>,
    pub seal: Vec<u8>,
}

/// Why no proof came back. A guest abort means the claim itself is invalid:
/// the outcome is deterministic and retrying the same input is pointless. A
/// transport failure is the backend being unreachable, and may be retried
/// with backoff. The two are distinct so callers can tell them apart.
#[derive(Clone, Copy, PartialEq, Eq, Structural, Debug)]
pub enum ProveFailure {
    Abort(GuestAbort),
    Transport,
}

/// The stub seal: the program identity followed by the journal it attests.
pub open spec fn mock_seal(image_id: Seq<u8>, journal: Seq<u8>) -> Seq<u8> {
    image_id + journal
}

/// The stub proving backend: runs the guest program locally and, on a
/// committed journal, returns the artifact whose seal binds the program
/// identity to exactly those journal bytes. The machine-state digest of the
/// stub is fixed at 32 zero bytes.
pub struct MockProver {}

impl MockProver {
    /// Proves one guest run, or reports the guest's abort.
    pub fn prove(image_id: &Vec<u8>, input_bytes: &Vec<u8>, chain: &ChainSpec) -> (r: Result<
        ProofArtifact,
        ProveFailure,
    >)
        ensures
            match spec_run_guest(input_bytes@, chain.chain_id) {
                Result::Ok(j) => r matches Ok(a) && a.journal@ == j && a.seal@ == mock_seal(
                    image_id@,
                    j,
                ) && a.post_state_digest@ == zero_bytes(32),
                Result::Err(a0) => r == Err::<ProofArtifact, ProveFailure>(
                    ProveFailure::Abort(a0),
                ),
            },
    {
        let j = match run_guest(input_bytes, chain) {
            Ok(j) => j,
            Err(a) => {
                return Err(ProveFailure::Abort(a));
            },
        };
        let mut seal = clone_vec(image_id);
        push_bytes(&mut seal, &j.bytes);
        let mut digest: Vec<u8> = Vec::new();
        push_zero_bytes(&mut digest, 32);
        proof {
            assert(digest@ =~= zero_bytes(32));
        }
        Ok(ProofArtifact { journal: j.bytes, post_state_digest: digest, seal })
    }
}

/// Verifies a seal as the stub backend sealed it: the recomputed binding of
/// the presented program identity and journal must match byte for byte.
pub fn mock_verify(image_id: &Vec<u8>, journal: &Vec<u8>, seal: &Vec<u8>) -> (r: bool)
    ensures
        r == (seal@ == mock_seal(image_id@, journal@)),
{
    let mut expected = clone_vec(image_id);
    push_bytes(&mut expected, journal);
    bytes_eq(seal, &expected)
}

/// Tamper evidence: a seal bound to one journal never verifies against an
/// altered journal under the same program identity.
pub proof fn lemma_seal_tamper_evident(image_id: Seq<u8>, j1: Seq<u8>, j2: Seq<u8>)
    requires
        j1 != j2,
    ensures
        mock_seal(image_id, j1) != mock_seal(image_id, j2),
{
    if mock_seal(image_id, j1) == mock_seal(image_id, j2) {
        assert(image_id + j1 == image_id + j2);
        assert((image_id + j1).len() == (image_id + j2).len());
        assert(j1.len() == j2.len());
        assert forall|i: int| 0 <= i < j1.len() implies j1[i] == j2[i] by {
            assert((image_id + j1)[image_id.len() + i] == j1[i]);
            assert((image_id + j2)[image_id.len() + i] == j2[i]);
        }
        assert(j1 =~= j2);
    }
}

} // verus!
