//! The guest program: a single linear pass — read the inputs in fixed order,
//! reconstruct the snapshot fail-closed, re-execute the view call, assert
//! the domain invariant, and commit the block-bound journal. A failure at
//! any state is fatal to the run: no journal is ever observable for an
//! invalid claim.

use vstd::prelude::*;

use crate::abi::abi_word_of_u64;
use crate::abi::push_abi_u64;
use crate::codec::GuestValue;
use crate::codec::InputBuilder;
use crate::codec::SerializationError;
use crate::codec::ValueKind;
use crate::codec::ValueModel;
use crate::codec::ViewCallInput;
use crate::codec::dec_values;
use crate::codec::decode_values;
use crate::codec::enc_values;
use crate::codec::models_of;
use crate::codec::lemma_codec_round_trip;
use crate::codec::lemma_dec_values_shape;
use crate::env::BlockCommitment;
use crate::env::CallModel;
use crate::env::ChainSpec;
use crate::env::CommitmentModel;
use crate::env::EnvModel;
use crate::env::FragmentModel;
use crate::env::GuestAbort;
use crate::env::ViewCall;
use crate::env::as_bytes;
use crate::env::as_uint;
use crate::env::as_words;
use crate::env::block_commitment;
use crate::env::commitment_of;
use crate::env::enc_env;
use crate::env::execute;
use crate::env::lemma_reconstruct_of_serialized;
use crate::env::lookup;
use crate::env::reconstruct;
use crate::env::spec_execute;
use crate::env::spec_reconstruct;
use crate::values::U256;
use crate::values::clone_vec;
use crate::values::nat_of_limbs;
use crate::words::bytes_to_words;
use crate::words::le_bytes_of_words;
use crate::words::lemma_le_bytes_of_words_len;
use crate::words::lemma_words_of_le_bytes_of_words;
use crate::words::words_of_le_bytes;

verus! {

/// The kinds the guest reads, in its fixed order: the serialized snapshot,
/// the target contract, the account, the goal index, and the threshold.
pub open spec fn guest_kinds() -> Seq<ValueKind> {
    seq![ValueKind::Input, ValueKind::Account, ValueKind::Account, ValueKind::Uint,
        ValueKind::Uint]
}

/// The host-side value list for one guest run, in the guest's read order.
pub open spec fn host_models(c: CallModel, env_words: Seq<u32>, cnt: Seq<u64>) -> Seq<ValueModel> {
    seq![
        ValueModel::Input(env_words),
        ValueModel::Account(c.contract),
        ValueModel::Account(c.account),
        ValueModel::Uint(c.goal_index),
        ValueModel::Uint(cnt),
    ]
}

/// The byte buffer the host hands the proving runtime for one guest run.
pub open spec fn host_input_bytes(c: CallModel, env_words: Seq<u32>, cnt: Seq<u64>) -> Seq<u8> {
    le_bytes_of_words(enc_values(host_models(c, env_words, cnt)))
}

/// The guest's public output: the journal the chain trusts.
#[derive(Debug)]
pub struct Journal {
    pub bytes: Vec<u8>,
}

impl View for Journal {
    type V = Seq<u8>;

    open spec fn view(&self) -> Seq<u8> {
        self.bytes@
    }
}

/// The journal a block commitment commits to: the 32-byte block hash, then
/// the block number as a 32-byte big-endian word — the static ABI encoding
/// of `(bytes32, uint256)`.
pub open spec fn journal_of(cm: CommitmentModel) -> Seq<u8> {
    cm.hash + abi_word_of_u64(cm.number)
}

/// Encodes the journal of a block commitment.
pub fn journal_bytes(cm: &BlockCommitment) -> (r: Vec<u8>)
    ensures
        r@ == journal_of(cm@),
{
    let mut out = clone_vec(&cm.hash);
    push_abi_u64(&mut out, cm.number);
    out
}

/// What one guest run makes of its input buffer: the journal it commits, or
/// the abort that ends the run with nothing committed.
pub open spec fn spec_run_guest(bs: Seq<u8>, chain_id: u64) -> Result<Seq<u8>, GuestAbort> {
    if bs.len() % 4 != 0 {
        Err(GuestAbort::MalformedInput)
    } else {
        match dec_values(guest_kinds(), words_of_le_bytes(bs)) {
            Option::None => Err(GuestAbort::MalformedInput),
            Option::Some(vs) => {
                let c = CallModel {
                    contract: as_bytes(vs[1]),
                    account: as_bytes(vs[2]),
                    goal_index: as_uint(vs[3]),
                };
                let cnt = as_uint(vs[4]);
                match spec_reconstruct(as_words(vs[0]), chain_id) {
                    Result::Err(a) => Err(a),
                    Result::Ok(e) => match spec_execute(c, e) {
                        Option::None => Err(GuestAbort::CallReverted),
                        Option::Some(v) => if nat_of_limbs(v) <= nat_of_limbs(cnt) {
                            Ok(journal_of(commitment_of(e.header)))
                        } else {
                            Err(GuestAbort::AssertionFailed)
                        },
                    },
                }
            },
        }
    }
}

/// The value a successful lookup returns is a well-formed 256-bit value.
proof fn lemma_lookup_wf(frags: Seq<FragmentModel>, c: CallModel)
    requires
        forall|i: int| 0 <= i < frags.len() ==> (#[trigger] frags[i]).wf(),
    ensures
        match lookup(frags, c) {
            Option::Some(v) => v.len() == 4,
            Option::None => true,
        },
    decreases frags.len(),
{
    if frags.len() > 0 {
        assert(frags[0].wf());
        assert(forall|i: int|
            0 <= i < frags.len() - 1 ==> (#[trigger] frags.skip(1)[i]) == frags[i + 1]);
        lemma_lookup_wf(frags.skip(1), c);
    }
}

/// Runs the guest program on its input buffer: reads the five inputs in the
/// fixed order, reconstructs the snapshot fail-closed, re-executes the view
/// call against it alone, asserts the call's result does not exceed the
/// threshold, and commits the journal binding the snapshot's block.
#[verifier::loop_isolation(false)]
pub fn run_guest(input_bytes: &Vec<u8>, chain: &ChainSpec) -> (r: Result<Journal, GuestAbort>)
    ensures
        match spec_run_guest(input_bytes@, chain.chain_id) {
            Result::Ok(j) => r matches Ok(jr) && jr@ == j,
            Result::Err(a) => r == Err::<Journal, GuestAbort>(a),
        },
{
    let ws = match bytes_to_words(input_bytes) {
        Some(ws) => ws,
        None => {
            return Err(GuestAbort::MalformedInput);
        },
    };
    let mut ks: Vec<ValueKind> = Vec::new();
    ks.push(ValueKind::Input);
    ks.push(ValueKind::Account);
    ks.push(ValueKind::Account);
    ks.push(ValueKind::Uint);
    ks.push(ValueKind::Uint);
    proof {
        assert(ks@ =~= guest_kinds());
    }
    let vs = match decode_values(&ks, &ws) {
        Some(v) => v,
        None => {
            return Err(GuestAbort::MalformedInput);
        },
    };
    proof {
        lemma_dec_values_shape(guest_kinds(), ws@);
    }
    let ghost ms = models_of(vs@);
    proof {
        assert(dec_values(guest_kinds(), ws@) == Some(ms));
        assert(ms.len() == 5);
        assert(ms[0] == vs@[0]@ && ms[1] == vs@[1]@ && ms[2] == vs@[2]@ && ms[3] == vs@[3]@
            && ms[4] == vs@[4]@);
    }
    let vci = match &vs[0] {
        GuestValue::Input(i) => i.duplicate(),
        _ => {
            proof {
                assert(ms[0].kind() == ValueKind::Input);
                assert(false);
            }
            return Err(GuestAbort::MalformedInput);
        },
    };
    let contract = match &vs[1] {
        GuestValue::Account(a) => a.duplicate(),
        _ => {
            proof {
                assert(ms[1].kind() == ValueKind::Account);
                assert(false);
            }
            return Err(GuestAbort::MalformedInput);
        },
    };
    let account = match &vs[2] {
        GuestValue::Account(a) => a.duplicate(),
        _ => {
            proof {
                assert(ms[2].kind() == ValueKind::Account);
                assert(false);
            }
            return Err(GuestAbort::MalformedInput);
        },
    };
    let goal_index = match &vs[3] {
        GuestValue::Uint(u) => u.duplicate(),
        _ => {
            proof {
                assert(ms[3].kind() == ValueKind::Uint);
                assert(false);
            }
            return Err(GuestAbort::MalformedInput);
        },
    };
    let count = match &vs[4] {
        GuestValue::Uint(u) => u.duplicate(),
        _ => {
            proof {
                assert(ms[4].kind() == ValueKind::Uint);
                assert(false);
            }
            return Err(GuestAbort::MalformedInput);
        },
    };
    proof {
        assert(as_words(ms[0]) == vci@);
        assert(as_bytes(ms[1]) == contract@ && as_bytes(ms[2]) == account@);
        assert(as_uint(ms[3]) == goal_index@ && as_uint(ms[4]) == count@);
        assert(count.wf());
    }
    let env = match reconstruct(&vci, chain) {
        Ok(e) => e,
        Err(a) => {
            return Err(a);
        },
    };
    let call = ViewCall { contract, account, goal_index };
    let ghost c_spec = CallModel {
        contract: as_bytes(ms[1]),
        account: as_bytes(ms[2]),
        goal_index: as_uint(ms[3]),
    };
    proof {
        assert(call@ =~= c_spec);
    }
    let value = match execute(&call, &env) {
        Some(v) => v,
        None => {
            return Err(GuestAbort::CallReverted);
        },
    };
    proof {
        lemma_lookup_wf(env@.fragments, call@);
        assert(value.wf());
    }
    if !value.le(&count) {
        return Err(GuestAbort::AssertionFailed);
    }
    let cm = block_commitment(&env.header);
    let jb = journal_bytes(&cm);
    Ok(Journal { bytes: jb })
}

/// The defining consistency property of the pipeline, end to end: a guest
/// fed the host-built input — the serialized snapshot, the call, and the
/// threshold, in the fixed read order — re-derives exactly the preflight's
/// call result; it commits the journal binding the preflighted block when
/// the result stays within the threshold, and aborts with no journal when
/// the call reverts or the result exceeds the threshold.
pub proof fn lemma_host_guest_end_to_end(c: CallModel, e: EnvModel, cnt: Seq<u64>, chain_id: u64)
    requires
        e.wf(),
        e.consistent(),
        e.chain_id == chain_id,
        e.fragments.len() <= 0xffffffffffffffff,
        enc_env(e).len() <= 0xffffffff,
        c.wf(),
        cnt.len() == 4,
    ensures
        spec_run_guest(host_input_bytes(c, enc_env(e), cnt), chain_id) == (match spec_execute(
            c,
            e,
        ) {
            Option::None => Err::<Seq<u8>, GuestAbort>(GuestAbort::CallReverted),
            Option::Some(v) => if nat_of_limbs(v) <= nat_of_limbs(cnt) {
                Ok(journal_of(commitment_of(e.header)))
            } else {
                Err(GuestAbort::AssertionFailed)
            },
        }),
{
    let hm = host_models(c, enc_env(e), cnt);
    let hws = enc_values(hm);
    let bs = host_input_bytes(c, enc_env(e), cnt);
    lemma_le_bytes_of_words_len(hws);
    assert(bs.len() % 4 == 0);
    lemma_words_of_le_bytes_of_words(hws);
    assert(words_of_le_bytes(bs) == hws);
    assert forall|i: int| 0 <= i < hm.len() implies (#[trigger] hm[i]).wf() by {
        assert(hm[0] == ValueModel::Input(enc_env(e)));
        assert(hm[1] == ValueModel::Account(c.contract));
        assert(hm[2] == ValueModel::Account(c.account));
        assert(hm[3] == ValueModel::Uint(c.goal_index));
        assert(hm[4] == ValueModel::Uint(cnt));
    }
    lemma_codec_round_trip(hm);
    assert(crate::codec::kinds_of(hm) =~= guest_kinds());
    assert(dec_values(guest_kinds(), hws) == Some(hm));
    let c2 = CallModel {
        contract: as_bytes(hm[1]),
        account: as_bytes(hm[2]),
        goal_index: as_uint(hm[3]),
    };
    assert(c2 =~= c);
    assert(as_uint(hm[4]) == cnt);
    assert(as_words(hm[0]) == enc_env(e));
    lemma_reconstruct_of_serialized(e, chain_id);
}

/// No journal is ever observable for an invalid claim: when the call's
/// result exceeds the supplied threshold, the guest run ends in an abort,
/// not a journal.
pub proof fn lemma_no_journal_over_threshold(c: CallModel, e: EnvModel, cnt: Seq<u64>, chain_id: u64)
    requires
        e.wf(),
        e.consistent(),
        e.chain_id == chain_id,
        e.fragments.len() <= 0xffffffffffffffff,
        enc_env(e).len() <= 0xffffffff,
        c.wf(),
        cnt.len() == 4,
        spec_execute(c, e) matches Some(v) && nat_of_limbs(v) > nat_of_limbs(cnt),
    ensures
        spec_run_guest(host_input_bytes(c, enc_env(e), cnt), chain_id) == Err::<Seq<u8>,
            GuestAbort,
        >(GuestAbort::AssertionFailed),
{
    lemma_host_guest_end_to_end(c, e, cnt, chain_id);
}

/// The block commitment — and with it the committed journal — the guest
/// derives from the reconstructed snapshot is byte-identical to the one the
/// preflight derives from its own.
pub proof fn lemma_commitment_agreement(e: EnvModel, chain_id: u64)
    requires
        e.wf(),
        e.consistent(),
        e.chain_id == chain_id,
        e.fragments.len() <= 0xffffffffffffffff,
    ensures
        spec_reconstruct(enc_env(e), chain_id) matches Ok(e2) && commitment_of(e2.header)
            == commitment_of(e.header) && journal_of(commitment_of(e2.header)) == journal_of(
            commitment_of(e.header),
        ),
{
    lemma_reconstruct_of_serialized(e, chain_id);
}

/// Builds the guest input as the host does: the serialized snapshot, the
/// call's contract, account and goal index, and the threshold, written in
/// the guest's fixed read order and handed out as bytes.
pub fn build_guest_input(input: &ViewCallInput, call: &ViewCall, count: &U256) -> (r: Result<
    Vec<u8>,
    SerializationError,
>)
    ensures
        (input@.len() <= 0xffffffff && call@.wf() && count@.len() == 4) ==> (r matches Ok(b)
            && b@ == host_input_bytes(call@, input@, count@)),
        !(input@.len() <= 0xffffffff && call@.wf() && count@.len() == 4) ==> r is Err,
{
    let b = InputBuilder::new();
    let b = match b.write(&GuestValue::Input(input.duplicate())) {
        Ok(b) => b,
        Err(e) => {
            return Err(e);
        },
    };
    let b = match b.write(&GuestValue::Account(call.contract.duplicate())) {
        Ok(b) => b,
        Err(e) => {
            return Err(e);
        },
    };
    let b = match b.write(&GuestValue::Account(call.account.duplicate())) {
        Ok(b) => b,
        Err(e) => {
            return Err(e);
        },
    };
    let b = match b.write(&GuestValue::Uint(call.goal_index.duplicate())) {
        Ok(b) => b,
        Err(e) => {
            return Err(e);
        },
    };
    let b = match b.write(&GuestValue::Uint(count.duplicate())) {
        Ok(b) => b,
        Err(e) => {
            return Err(e);
        },
    };
    proof {
        let hm = host_models(call@, input@, count@);
        assert(b.input@ =~= enc_values(hm)) by {
            assert(hm.skip(1) =~= seq![
                ValueModel::Account(call@.contract),
                ValueModel::Account(call@.account),
                ValueModel::Uint(call@.goal_index),
                ValueModel::Uint(count@),
            ]);
            assert(hm.skip(1).skip(1) =~= seq![
                ValueModel::Account(call@.account),
                ValueModel::Uint(call@.goal_index),
                ValueModel::Uint(count@),
            ]);
            assert(hm.skip(1).skip(1).skip(1) =~= seq![
                ValueModel::Uint(call@.goal_index),
                ValueModel::Uint(count@),
            ]);
            assert(hm.skip(1).skip(1).skip(1).skip(1) =~= seq![ValueModel::Uint(count@)]);
            assert(hm.skip(1).skip(1).skip(1).skip(1).skip(1) =~= Seq::<ValueModel>::empty());
            assert(enc_values(Seq::<ValueModel>::empty()) =~= Seq::<u32>::empty());
            assert(enc_values(hm.skip(1).skip(1).skip(1).skip(1)) == crate::codec::enc_value(
                hm[4],
            ) + enc_values(hm.skip(1).skip(1).skip(1).skip(1).skip(1)));
            assert(enc_values(hm.skip(1).skip(1).skip(1)) == crate::codec::enc_value(hm[3])
                + enc_values(hm.skip(1).skip(1).skip(1).skip(1)));
            assert(enc_values(hm.skip(1).skip(1)) == crate::codec::enc_value(hm[2]) + enc_values(
                hm.skip(1).skip(1).skip(1),
            ));
            assert(enc_values(hm.skip(1)) == crate::codec::enc_value(hm[1]) + enc_values(
                hm.skip(1).skip(1),
            ));
            assert(enc_values(hm) == crate::codec::enc_value(hm[0]) + enc_values(hm.skip(1)));
        }
    }
    Ok(b.bytes())
}

} // verus!
