//! The claim submitter: encodes the proof artifact as the contract call the
//! chain expects — journal, post-state digest, seal and goal index, byte
//! for byte as the prover returned them — and binds the transaction to the
//! configured chain. The function selector is derived from the configured
//! signature, as the call surface is configuration, not a constant of this
//! library. The contract-side acceptance stub the tests submit against
//! lives here too.

use vstd::prelude::*;

use crate::abi::abi_word_of_limbs;
use crate::abi::abi_word_of_u64;
use crate::abi::push_abi_limbs;
use crate::abi::push_abi_u64;
use crate::abi::push_bytes;
use crate::abi::push_zero_bytes;
use crate::abi::zero_bytes;
use crate::env::ChainSpec;
use crate::prove::ProofArtifact;
use crate::prove::mock_seal;
use crate::prove::mock_verify;
use crate::values::Address;
use crate::values::U256;
use crate::values::clone_vec;

verus! {

/// The Keccak-256 digest of a byte string.
pub uninterp spec fn keccak_of(bs: Seq<u8>) -> Seq<u8>;

/// Relies on alloy_primitives::keccak256: the Keccak-256 digest of the
/// input, 32 bytes long, a function of the input bytes alone.
#[verifier::external_body]
fn keccak256(data: &Vec<u8>) -> (r: Vec<u8>)
    ensures
        r@ == keccak_of(data@),
        r@.len() == 32,
{
    alloy_primitives::keccak256(data.as_slice()).to_vec()
}

/// The 4-byte selector of a Solidity function signature: the first four
/// bytes of the signature's Keccak-256 digest.
pub fn selector(signature: &Vec<u8>) -> (r: Vec<u8>)
    ensures
        r@ == keccak_of(signature@).take(4),
{
    let h = keccak256(signature);
    let mut out: Vec<u8> = Vec::new();
    out.push(h[0]);
    out.push(h[1]);
    out.push(h[2]);
    out.push(h[3]);
    proof {
        assert(out@ =~= keccak_of(signature@).take(4));
    }
    out
}

/// Zero padding to the next 32-byte boundary.
pub open spec fn pad32(n: nat) -> nat {
    (((32 - (n % 32)) % 32)) as nat
}

/// A dynamic `bytes` tail: the length word, the bytes themselves, zero
/// padding to a word boundary.
pub open spec fn abi_bytes_tail(b: Seq<u8>) -> Seq<u8> {
    abi_word_of_u64(b.len() as u64) + b + zero_bytes(pad32(b.len()))
}

/// The calldata of the claim call: the 4-byte selector; four head words —
/// the offset of the journal tail, the post-state digest, the offset of the
/// seal tail, the goal index — and the journal and seal tails, in order.
pub open spec fn claim_calldata(
    sel: Seq<u8>,
    journal: Seq<u8>,
    digest: Seq<u8>,
    seal: Seq<u8>,
    goal_index: Seq<u64>,
) -> Seq<u8> {
    sel + abi_word_of_u64(128) + digest + abi_word_of_u64(
        (160 + journal.len() + pad32(journal.len())) as u64,
    ) + abi_word_of_limbs(goal_index) + abi_bytes_tail(journal) + abi_bytes_tail(seal)
}

/// Why a claim transaction could not be built.
#[derive(Clone, Copy, PartialEq, Eq, Structural, Debug)]
pub enum SubmissionError {
    /// The configured chain is not the one the endpoint serves: fatal, for
    /// the operator, never retried here.
    ChainIdMismatch,
}

/// A claim transaction ready for the signing and broadcast layer: target
/// contract, chain, and the encoded call.
#[derive(Debug)]
pub struct ClaimTransaction {
    pub to: Address,
    pub chain_id: u64,
    pub calldata: Vec<u8>,
}

/// Encodes the claim call, embedding journal and seal byte for byte as the
/// prover produced them — never reordered, never repaired.
pub fn encode_claim_calldata(sel: &Vec<u8>, artifact: &ProofArtifact, goal_index: &U256) -> (r:
    Vec<u8>)
    requires
        sel@.len() == 4,
        artifact.post_state_digest@.len() == 32,
        goal_index.wf(),
        artifact.journal@.len() + artifact.seal@.len() + 320 <= usize::MAX,
    ensures
        r@ == claim_calldata(
            sel@,
            artifact.journal@,
            artifact.post_state_digest@,
            artifact.seal@,
            goal_index@,
        ),
{
    let mut out = clone_vec(sel);
    push_abi_u64(&mut out, 128);
    push_bytes(&mut out, &artifact.post_state_digest);
    let jlen = artifact.journal.len();
    let jpad = (32 - (jlen % 32)) % 32;
    push_abi_u64(&mut out, (160 + jlen + jpad) as u64);
    push_abi_limbs(&mut out, &goal_index.limbs);
    push_abi_u64(&mut out, jlen as u64);
    push_bytes(&mut out, &artifact.journal);
    push_zero_bytes(&mut out, jpad);
    let slen = artifact.seal.len();
    let spad = (32 - (slen % 32)) % 32;
    push_abi_u64(&mut out, slen as u64);
    push_bytes(&mut out, &artifact.seal);
    push_zero_bytes(&mut out, spad);
    proof {
        assert(out@ =~= claim_calldata(
            sel@,
            artifact.journal@,
            artifact.post_state_digest@,
            artifact.seal@,
            goal_index@,
        ));
    }
    out
}

/// Builds the claim transaction: refuses an endpoint on another chain than
/// the configured one, and otherwise wraps the encoded call for the signing
/// and broadcast layer.
pub fn build_claim_tx(
    chain: &ChainSpec,
    endpoint_chain_id: u64,
    to: &Address,
    sel: &Vec<u8>,
    artifact: &ProofArtifact,
    goal_index: &U256,
) -> (r: Result<ClaimTransaction, SubmissionError>)
    requires
        sel@.len() == 4,
        artifact.post_state_digest@.len() == 32,
        goal_index.wf(),
        artifact.journal@.len() + artifact.seal@.len() + 320 <= usize::MAX,
    ensures
        chain.chain_id != endpoint_chain_id ==> r == Err::<ClaimTransaction, SubmissionError>(
            SubmissionError::ChainIdMismatch,
        ),
        chain.chain_id == endpoint_chain_id ==> (r matches Ok(tx) && tx.to@ == to@ && tx.chain_id
            == chain.chain_id && tx.calldata@ == claim_calldata(
            sel@,
            artifact.journal@,
            artifact.post_state_digest@,
            artifact.seal@,
            goal_index@,
        )),
{
    if chain.chain_id != endpoint_chain_id {
        return Err(SubmissionError::ChainIdMismatch);
    }
    let calldata = encode_claim_calldata(sel, artifact, goal_index);
    Ok(ClaimTransaction { to: to.duplicate(), chain_id: chain.chain_id, calldata })
}

/// The on-chain contract's acceptance rule, as the stub the tests submit
/// against: a claim is accepted only when the presented seal verifies
/// against the contract's recorded program identity and the presented
/// journal bytes.
#[derive(Debug)]
pub struct ClaimContract {
    pub image_id: Vec<u8>,
}

impl ClaimContract {
    /// Whether the contract accepts the presented journal and seal.
    pub fn accept_claim(&self, journal: &Vec<u8>, seal: &Vec<u8>) -> (r: bool)
        ensures
            r == (seal@ == mock_seal(self.image_id@, journal@)),
    {
        mock_verify(&self.image_id, journal, seal)
    }
}

} // verus!
