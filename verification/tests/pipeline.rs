use sweatstake::env::BlockHeader;
use sweatstake::env::ChainSpec;
use sweatstake::env::GuestAbort;
use sweatstake::env::PreflightError;
use sweatstake::env::StateFragment;
use sweatstake::env::ViewCall;
use sweatstake::env::ViewCallEnvironment;
use sweatstake::env::block_commitment;
use sweatstake::env::preflight;
use sweatstake::guest::build_guest_input;
use sweatstake::guest::journal_bytes;
use sweatstake::guest::run_guest;
use sweatstake::prove::MockProver;
use sweatstake::prove::ProveFailure;
use sweatstake::prove::mock_verify;
use sweatstake::submit::ClaimContract;
use sweatstake::submit::SubmissionError;
use sweatstake::submit::build_claim_tx;
use sweatstake::submit::encode_claim_calldata;
use sweatstake::submit::selector;
use sweatstake::prove::ProofArtifact;
use sweatstake::values::Address;
use sweatstake::values::U256;
use alloy_sol_types::SolValue;

const CHAIN_ID: u64 = 11155111;

fn addr(seed: u8) -> Address {
    let mut bytes = Vec::new();
    for i in 0..20u8 {
        bytes.push(seed.wrapping_add(i));
    }
    Address { bytes }
}

fn uint(v: u64) -> U256 {
    U256 { limbs: vec![v, 0, 0, 0] }
}

/// A snapshot in which `goalPerDayOf(account, goal_index)` on `contract`
/// answers `value`.
fn mock_env(value: u64) -> (ViewCallEnvironment, ViewCall) {
    let contract = addr(0x10);
    let account = addr(0x40);
    let state_root = vec![0x5a; 32];
    let env = ViewCallEnvironment {
        chain_id: CHAIN_ID,
        header: BlockHeader { number: 123456, hash: vec![0xaa; 32], state_root: state_root.clone() },
        fragments: vec![StateFragment {
            contract: addr(0x10),
            account: addr(0x40),
            goal_index: uint(0),
            value: uint(value),
            root: state_root,
        }],
    };
    let call = ViewCall { contract, account, goal_index: uint(0) };
    (env, call)
}

fn prove_claim(value: u64, count: u64) -> Result<ProofArtifact, ProveFailure> {
    let chain = ChainSpec { chain_id: CHAIN_ID };
    let (env, call) = mock_env(value);
    let (input, returns) = preflight(&call, &env, &chain).unwrap();
    assert_eq!(returns.limbs, vec![value, 0, 0, 0]);
    let bytes = build_guest_input(&input, &call, &uint(count)).unwrap();
    let image_id = vec![0x11; 32];
    MockProver::prove(&image_id, &bytes, &chain)
}

#[test]
fn guest_commits_at_threshold() {
    // goalPerDayOf(account, 0) = 5 and count = 5: the invariant holds.
    let artifact = prove_claim(5, 5).unwrap();
    let (env, _) = mock_env(5);
    let expected_journal = journal_bytes(&block_commitment(&env.header));
    assert_eq!(artifact.journal, expected_journal);
}

#[test]
fn guest_aborts_under_threshold() {
    // goalPerDayOf(account, 0) = 5 and count = 4: the guest must abort and
    // no artifact is produced.
    let r = prove_claim(5, 4);
    assert_eq!(r.unwrap_err(), ProveFailure::Abort(GuestAbort::AssertionFailed));
}

#[test]
fn guest_aborts_on_zero_threshold() {
    let r = prove_claim(1, 0);
    assert_eq!(r.unwrap_err(), ProveFailure::Abort(GuestAbort::AssertionFailed));
}

#[test]
fn preflight_and_guest_agree_on_result() {
    // The defining consistency property, on concrete values: what preflight
    // returned is exactly what the guest re-derived, so a threshold equal to
    // the preflight result commits and one below it aborts.
    assert!(prove_claim(7, 7).is_ok());
    assert!(prove_claim(7, 6).is_err());
}

#[test]
fn journal_binds_the_block() {
    let artifact = prove_claim(5, 5).unwrap();
    // bytes32 block hash, then the block number as a 32-byte big-endian word;
    // 123456 is 0x01e240.
    assert_eq!(artifact.journal.len(), 64);
    assert_eq!(&artifact.journal[..32], &[0xaa; 32]);
    assert_eq!(&artifact.journal[32..61], &[0u8; 29][..]);
    assert_eq!(&artifact.journal[61..], &[0x01, 0xe2, 0x40]);
}

#[test]
fn guest_fails_closed_on_inconsistent_state() {
    let chain = ChainSpec { chain_id: CHAIN_ID };
    let (mut env, call) = mock_env(5);
    env.fragments[0].root = vec![0xee; 32];
    let (input, _) = preflight(&call, &env, &chain).unwrap();
    let bytes = build_guest_input(&input, &call, &uint(5)).unwrap();
    assert_eq!(run_guest(&bytes, &chain).unwrap_err(), GuestAbort::InconsistentState);
}

#[test]
fn guest_rejects_wrong_chain() {
    let chain = ChainSpec { chain_id: CHAIN_ID };
    let (env, call) = mock_env(5);
    let (input, _) = preflight(&call, &env, &chain).unwrap();
    let bytes = build_guest_input(&input, &call, &uint(5)).unwrap();
    let other = ChainSpec { chain_id: CHAIN_ID + 1 };
    assert_eq!(run_guest(&bytes, &other).unwrap_err(), GuestAbort::ChainMismatch);
}

#[test]
fn guest_reverts_on_missing_state() {
    let chain = ChainSpec { chain_id: CHAIN_ID };
    let (env, call) = mock_env(5);
    let other_call = ViewCall { contract: addr(0x10), account: addr(0x77), goal_index: uint(0) };
    // Preflight itself reverts for an unanswerable call.
    assert_eq!(preflight(&other_call, &env, &chain).unwrap_err(), PreflightError::CallReverted);
    // A guest handed a snapshot that cannot answer its call reverts too.
    let (input, _) = preflight(&call, &env, &chain).unwrap();
    let bytes = build_guest_input(&input, &other_call, &uint(5)).unwrap();
    assert_eq!(run_guest(&bytes, &chain).unwrap_err(), GuestAbort::CallReverted);
}

#[test]
fn guest_rejects_malformed_input() {
    let chain = ChainSpec { chain_id: CHAIN_ID };
    assert_eq!(run_guest(&vec![1, 2, 3], &chain).unwrap_err(), GuestAbort::MalformedInput);
    assert_eq!(run_guest(&vec![0; 8], &chain).unwrap_err(), GuestAbort::MalformedInput);
}

#[test]
fn preflight_rejects_chain_mismatch() {
    let other = ChainSpec { chain_id: 1 };
    let (env, call) = mock_env(5);
    assert_eq!(preflight(&call, &env, &other).unwrap_err(), PreflightError::ChainMismatch);
}

#[test]
fn preflight_rejects_unsupported_environment() {
    let chain = ChainSpec { chain_id: CHAIN_ID };
    let (mut env, call) = mock_env(5);
    env.header.hash = vec![1, 2, 3];
    assert_eq!(preflight(&call, &env, &chain).unwrap_err(), PreflightError::UnsupportedEnvironment);
}

#[test]
fn seal_is_tamper_evident() {
    let artifact = prove_claim(5, 5).unwrap();
    let image_id = vec![0x11; 32];
    assert!(mock_verify(&image_id, &artifact.journal, &artifact.seal));
    let mut tampered = artifact.journal.clone();
    tampered[0] ^= 1;
    assert!(!mock_verify(&image_id, &tampered, &artifact.seal));
    let mut truncated = artifact.journal.clone();
    truncated.pop();
    assert!(!mock_verify(&image_id, &truncated, &artifact.seal));
}

#[test]
fn contract_rejects_foreign_program() {
    let artifact = prove_claim(5, 5).unwrap();
    let recorded = ClaimContract { image_id: vec![0x11; 32] };
    assert!(recorded.accept_claim(&artifact.journal, &artifact.seal));
    let other = ClaimContract { image_id: vec![0x22; 32] };
    assert!(!other.accept_claim(&artifact.journal, &artifact.seal));
}

#[test]
fn submitter_embeds_bytes_verbatim() {
    let artifact = prove_claim(5, 5).unwrap();
    let chain = ChainSpec { chain_id: CHAIN_ID };
    let sel = selector(&b"claim(bytes,bytes32,bytes,uint256)".to_vec());
    let tx = build_claim_tx(&chain, CHAIN_ID, &addr(0x10), &sel, &artifact, &uint(0)).unwrap();
    assert_eq!(tx.chain_id, CHAIN_ID);
    assert_eq!(&tx.calldata[..4], &sel[..]);
    // Head: journal offset 0x80, digest, seal offset, goal index; the
    // journal tail starts at 4 + 128 with its length word.
    let jstart = 4 + 128 + 32;
    assert_eq!(&tx.calldata[jstart..jstart + 64], &artifact.journal[..]);
    let sstart = jstart + 64 + 32;
    assert_eq!(&tx.calldata[sstart..sstart + artifact.seal.len()], &artifact.seal[..]);
}

#[test]
fn submit_rejects_chain_id_mismatch() {
    let artifact = prove_claim(5, 5).unwrap();
    let chain = ChainSpec { chain_id: CHAIN_ID };
    let sel = vec![1, 2, 3, 4];
    let r = build_claim_tx(&chain, CHAIN_ID + 1, &addr(0x10), &sel, &artifact, &uint(0));
    assert_eq!(r.unwrap_err(), SubmissionError::ChainIdMismatch);
}

#[test]
fn claim_calldata_matches_alloy_abi() {
    let journal = vec![1u8, 2, 3];
    let digest = vec![7u8; 32];
    let seal = vec![9u8; 65];
    let artifact = ProofArtifact {
        journal: journal.clone(),
        post_state_digest: digest.clone(),
        seal: seal.clone(),
    };
    let sel = vec![0xde, 0xad, 0xbe, 0xef];
    let calldata = encode_claim_calldata(&sel, &artifact, &uint(5));
    let expected = (
        alloy_primitives::Bytes::from(journal),
        alloy_primitives::B256::from_slice(&digest),
        alloy_primitives::Bytes::from(seal),
        alloy_primitives::U256::from(5u64),
    )
        .abi_encode_params();
    assert_eq!(&calldata[..4], &sel[..]);
    assert_eq!(&calldata[4..], &expected[..]);
}

#[test]
fn selector_is_keccak_prefix() {
    let sig = b"claim(bytes,bytes32,bytes,uint256)".to_vec();
    let sel = selector(&sig);
    let h = alloy_primitives::keccak256(&sig);
    assert_eq!(&sel[..], &h[..4]);
}

#[test]
fn selector_of_empty_signature() {
    // The Keccak-256 digest of the empty string begins c5 d2 46 01.
    assert_eq!(selector(&Vec::new()), vec![0xc5, 0xd2, 0x46, 0x01]);
}
