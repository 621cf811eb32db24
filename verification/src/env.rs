//! The view-call environment: a snapshot of contract-readable chain state
//! sufficient to answer a view call without network access, together with
//! the one pure `execute` both the off-chain preflight and the in-circuit
//! guest run — bit for bit the same — and the serialization that carries the
//! snapshot from one to the other.

use vstd::prelude::*;

use crate::codec::GuestValue;
use crate::codec::ValueKind;
use crate::codec::ValueModel;
use crate::codec::ViewCallInput;
use crate::codec::SerializationError;
use crate::codec::dec_values;
use crate::codec::decode_values;
use crate::codec::enc_value;
use crate::codec::enc_values;
use crate::codec::encode_values;
use crate::codec::first_err;
use crate::codec::kinds_of;
use crate::codec::read_value;
use crate::codec::models_of;
use crate::codec::lemma_codec_round_trip;
use crate::codec::lemma_dec_values_shape;
use crate::codec::lemma_enc_values_concat;
use crate::values::Address;
use crate::values::U256;
use crate::values::bytes_eq;
use crate::values::clone_vec;
use crate::values::limbs_eq;
use crate::words::copy_words;

verus! {

/// The chain configuration a claim is bound to.
#[derive(Debug)]
pub struct ChainSpec {
    pub chain_id: u64,
}

/// A block header reduced to what the pipeline reads: the block number, the
/// block hash, and the state root every recorded fragment verifies against.
#[derive(Debug)]
pub struct BlockHeader {
    pub number: u64,
    pub hash: Vec<u8>,
    pub state_root: Vec<u8>,
}

/// The model of a block header.
#[verifier::ext_equal]
pub struct HeaderModel {
    pub number: u64,
    pub hash: Seq<u8>,
    pub state_root: Seq<u8>,
}

impl View for BlockHeader {
    type V = HeaderModel;

    open spec fn view(&self) -> HeaderModel {
        HeaderModel { number: self.number, hash: self.hash@, state_root: self.state_root@ }
    }
}

impl HeaderModel {
    /// Hash and state root are 32-byte digests.
    pub open spec fn wf(self) -> bool {
        self.hash.len() == 32 && self.state_root.len() == 32
    }
}

/// One recorded fragment of contract state: the answer to one
/// (contract, account, goal index) query, bound to the state root it was
/// verified against when it was recorded.
#[derive(Debug)]
pub struct StateFragment {
    pub contract: Address,
    pub account: Address,
    pub goal_index: U256,
    pub value: U256,
    pub root: Vec<u8>,
}

/// The model of a state fragment.
#[verifier::ext_equal]
pub struct FragmentModel {
    pub contract: Seq<u8>,
    pub account: Seq<u8>,
    pub goal_index: Seq<u64>,
    pub value: Seq<u64>,
    pub root: Seq<u8>,
}

impl View for StateFragment {
    type V = FragmentModel;

    open spec fn view(&self) -> FragmentModel {
        FragmentModel {
            contract: self.contract@,
            account: self.account@,
            goal_index: self.goal_index@,
            value: self.value@,
            root: self.root@,
        }
    }
}

impl FragmentModel {
    /// Addresses are 20 bytes, values four limbs, the root a 32-byte digest.
    pub open spec fn wf(self) -> bool {
        self.contract.len() == 20 && self.account.len() == 20 && self.goal_index.len() == 4
            && self.value.len() == 4 && self.root.len() == 32
    }
}

/// A snapshot of chain state sufficient to answer a view call with no
/// further network access.
#[derive(Debug)]
pub struct ViewCallEnvironment {
    pub chain_id: u64,
    pub header: BlockHeader,
    pub fragments: Vec<StateFragment>,
}

/// The model of a view-call environment.
#[verifier::ext_equal]
pub struct EnvModel {
    pub chain_id: u64,
    pub header: HeaderModel,
    pub fragments: Seq<FragmentModel>,
}

impl View for ViewCallEnvironment {
    type V = EnvModel;

    open spec fn view(&self) -> EnvModel {
        EnvModel {
            chain_id: self.chain_id,
            header: self.header@,
            fragments: self.fragments@.map_values(|f: StateFragment| f@),
        }
    }
}

impl EnvModel {
    /// All lengths as the schema demands.
    pub open spec fn wf(self) -> bool {
        self.header.wf() && (forall|i: int|
            0 <= i < self.fragments.len() ==> (#[trigger] self.fragments[i]).wf())
    }

    /// Internally consistent: every state fragment verifies against the
    /// embedded block header's state root.
    pub open spec fn consistent(self) -> bool {
        forall|i: int|
            0 <= i < self.fragments.len() ==> (#[trigger] self.fragments[i]).root
                == self.header.state_root
    }
}

/// A read-only contract call: the target contract and the parameters of the
/// goal-per-day query.
#[derive(Debug)]
pub struct ViewCall {
    pub contract: Address,
    pub account: Address,
    pub goal_index: U256,
}

/// The model of a view call.
#[verifier::ext_equal]
pub struct CallModel {
    pub contract: Seq<u8>,
    pub account: Seq<u8>,
    pub goal_index: Seq<u64>,
}

impl View for ViewCall {
    type V = CallModel;

    open spec fn view(&self) -> CallModel {
        CallModel {
            contract: self.contract@,
            account: self.account@,
            goal_index: self.goal_index@,
        }
    }
}

impl CallModel {
    /// Addresses are 20 bytes, the goal index four limbs.
    pub open spec fn wf(self) -> bool {
        self.contract.len() == 20 && self.account.len() == 20 && self.goal_index.len() == 4
    }
}

/// The binding of a specific block — number and hash — into a proof's public
/// output.
#[derive(Debug)]
pub struct BlockCommitment {
    pub number: u64,
    pub hash: Vec<u8>,
}

/// The model of a block commitment.
#[verifier::ext_equal]
pub struct CommitmentModel {
    pub number: u64,
    pub hash: Seq<u8>,
}

impl View for BlockCommitment {
    type V = CommitmentModel;

    open spec fn view(&self) -> CommitmentModel {
        CommitmentModel { number: self.number, hash: self.hash@ }
    }
}

/// The commitment a header gives rise to.
pub open spec fn commitment_of(h: HeaderModel) -> CommitmentModel {
    CommitmentModel { number: h.number, hash: h.hash }
}

/// Derives the block commitment from a header — the same derivation for the
/// preflight and for the guest.
pub fn block_commitment(header: &BlockHeader) -> (r: BlockCommitment)
    ensures
        r@ == commitment_of(header@),
{
    BlockCommitment { number: header.number, hash: clone_vec(&header.hash) }
}

/// Whether a fragment answers a call.
pub open spec fn frag_matches(f: FragmentModel, c: CallModel) -> bool {
    f.contract == c.contract && f.account == c.account && f.goal_index == c.goal_index
}

/// The result of a view call against a list of fragments: the value of the
/// first fragment answering it, or nothing — the call reverts — if none does.
pub open spec fn lookup(frags: Seq<FragmentModel>, c: CallModel) -> Option<Seq<u64>>
    decreases frags.len(),
{
    if frags.len() == 0 {
        None
    } else if frag_matches(frags[0], c) {
        Some(frags[0].value)
    } else {
        lookup(frags.skip(1), c)
    }
}

/// The result of a view call against a snapshot.
pub open spec fn spec_execute(c: CallModel, e: EnvModel) -> Option<Seq<u64>> {
    lookup(e.fragments, c)
}

/// Executes the view call against the snapshot alone: the one pure function
/// the preflight and the guest both run.
pub fn execute(call: &ViewCall, env: &ViewCallEnvironment) -> (r: Option<U256>)
    ensures
        match spec_execute(call@, env@) {
            Option::Some(v) => r matches Some(u) && u@ == v,
            Option::None => r is None,
        },
{
    let n = env.fragments.len();
    let mut i: usize = 0;
    proof {
        assert(env@.fragments.skip(0) =~= env@.fragments);
    }
    while i < n
        invariant
            i <= n,
            n == env.fragments@.len(),
            env@.fragments.len() == env.fragments@.len(),
            lookup(env@.fragments, call@) == lookup(env@.fragments.skip(i as int), call@),
        decreases n - i,
    {
        let f = &env.fragments[i];
        proof {
            assert(env@.fragments[i as int] == env.fragments@[i as int]@);
            assert(env@.fragments.skip(i as int)[0] == env@.fragments[i as int]);
        }
        let hit = f.contract.eq_addr(&call.contract) && f.account.eq_addr(&call.account)
            && limbs_eq(&f.goal_index.limbs, &call.goal_index.limbs);
        if hit {
            proof {
                assert(frag_matches(env@.fragments[i as int], call@));
            }
            return Some(f.value.duplicate());
        }
        proof {
            assert(!frag_matches(env@.fragments[i as int], call@));
            assert(env@.fragments.skip(i as int).skip(1) =~= env@.fragments.skip(i + 1));
        }
        i = i + 1;
    }
    proof {
        assert(env@.fragments.skip(n as int) =~= Seq::<FragmentModel>::empty());
    }
    None
}

/// The header values and fragment count that lead the serialized snapshot.
pub open spec fn head_models(e: EnvModel) -> Seq<ValueModel> {
    seq![
        ValueModel::Word64(e.chain_id),
        ValueModel::Word64(e.header.number),
        ValueModel::Digest(e.header.hash),
        ValueModel::Digest(e.header.state_root),
        ValueModel::Word64(e.fragments.len() as u64),
    ]
}

/// The values of each fragment, in order.
pub open spec fn frag_models(fs: Seq<FragmentModel>) -> Seq<ValueModel>
    decreases fs.len(),
{
    if fs.len() == 0 {
        Seq::empty()
    } else {
        seq![
            ValueModel::Account(fs[0].contract),
            ValueModel::Account(fs[0].account),
            ValueModel::Uint(fs[0].goal_index),
            ValueModel::Uint(fs[0].value),
            ValueModel::Digest(fs[0].root),
        ] + frag_models(fs.skip(1))
    }
}

/// Every value a snapshot serializes to, in order.
pub open spec fn env_models(e: EnvModel) -> Seq<ValueModel> {
    head_models(e) + frag_models(e.fragments)
}

/// The canonical word payload of a snapshot.
pub open spec fn enc_env(e: EnvModel) -> Seq<u32> {
    enc_values(env_models(e))
}

/// The kinds the head of the serialized snapshot is read with.
pub open spec fn head_kinds() -> Seq<ValueKind> {
    seq![
        ValueKind::Word64,
        ValueKind::Word64,
        ValueKind::Digest,
        ValueKind::Digest,
        ValueKind::Word64,
    ]
}

/// The kinds one fragment is read with.
pub open spec fn group_kinds() -> Seq<ValueKind> {
    seq![ValueKind::Account, ValueKind::Account, ValueKind::Uint, ValueKind::Uint,
        ValueKind::Digest]
}

/// The kinds `n` fragments are read with.
pub open spec fn frag_kinds(n: nat) -> Seq<ValueKind>
    decreases n,
{
    if n == 0 {
        Seq::empty()
    } else {
        group_kinds() + frag_kinds((n - 1) as nat)
    }
}

/// The 64-bit payload of a word value.
pub open spec fn as_word64(m: ValueModel) -> u64 {
    match m {
        ValueModel::Word64(v) => v,
        _ => 0,
    }
}

/// The limb payload of a 256-bit value.
pub open spec fn as_uint(m: ValueModel) -> Seq<u64> {
    match m {
        ValueModel::Uint(l) => l,
        _ => Seq::empty(),
    }
}

/// The byte payload of an address or digest value.
pub open spec fn as_bytes(m: ValueModel) -> Seq<u8> {
    match m {
        ValueModel::Account(b) => b,
        ValueModel::Digest(b) => b,
        _ => Seq::empty(),
    }
}

/// The word payload of an opaque input value.
pub open spec fn as_words(m: ValueModel) -> Seq<u32> {
    match m {
        ValueModel::Input(w) => w,
        _ => Seq::empty(),
    }
}

/// The fragments read back from their decoded values, five per fragment.
pub open spec fn frags_of_models(ms: Seq<ValueModel>) -> Seq<FragmentModel>
    decreases ms.len(),
{
    if ms.len() < 5 {
        Seq::empty()
    } else {
        seq![
            FragmentModel {
                contract: as_bytes(ms[0]),
                account: as_bytes(ms[1]),
                goal_index: as_uint(ms[2]),
                value: as_uint(ms[3]),
                root: as_bytes(ms[4]),
            },
        ] + frags_of_models(ms.skip(5))
    }
}

/// The models of a list of fragments.
pub open spec fn frag_views(fs: Seq<StateFragment>) -> Seq<FragmentModel> {
    fs.map_values(|f: StateFragment| f@)
}

/// Reasons a guest run aborts without committing a journal.
#[derive(Clone, Copy, PartialEq, Eq, Structural, Debug)]
pub enum GuestAbort {
    /// The input buffer does not parse under the fixed read order.
    MalformedInput,
    /// The embedded chain id is not the configured one.
    ChainMismatch,
    /// A state fragment does not verify against the embedded header.
    InconsistentState,
    /// The re-executed call found no answer in the snapshot.
    CallReverted,
    /// The domain invariant over the call's return value does not hold.
    AssertionFailed,
}

/// What reconstruction makes of a serialized snapshot: the environment read
/// back, or the abort that refuses it. Fail closed: an inconsistent snapshot
/// never yields an environment.
pub open spec fn spec_reconstruct(ws: Seq<u32>, chain_id: u64) -> Result<EnvModel, GuestAbort> {
    if ws.len() < 22 {
        Err(GuestAbort::MalformedInput)
    } else {
        match dec_values(head_kinds(), ws.take(22)) {
            Option::None => Err(GuestAbort::MalformedInput),
            Option::Some(h) => match dec_values(frag_kinds(as_word64(h[4]) as nat), ws.skip(22)) {
                Option::None => Err(GuestAbort::MalformedInput),
                Option::Some(fv) => {
                    let e = EnvModel {
                        chain_id: as_word64(h[0]),
                        header: HeaderModel {
                            number: as_word64(h[1]),
                            hash: as_bytes(h[2]),
                            state_root: as_bytes(h[3]),
                        },
                        fragments: frags_of_models(fv),
                    };
                    if e.chain_id != chain_id {
                        Err(GuestAbort::ChainMismatch)
                    } else if !e.consistent() {
                        Err(GuestAbort::InconsistentState)
                    } else {
                        Ok(e)
                    }
                },
            },
        }
    }
}

/// Serializes a snapshot into the portable view-call input. The payload is
/// produced only when every length is as the schema demands.
pub fn serialize_env(env: &ViewCallEnvironment) -> (r: Result<ViewCallInput, SerializationError>)
    ensures
        env@.wf() ==> (r matches Ok(inp) && inp@ == enc_env(env@)),
        !env@.wf() ==> (r matches Err(er) && first_err(env_models(env@)) == Some(er)),
{
    let mut vals: Vec<GuestValue> = Vec::new();
    vals.push(GuestValue::Word64(env.chain_id));
    vals.push(GuestValue::Word64(env.header.number));
    vals.push(GuestValue::Digest(clone_vec(&env.header.hash)));
    vals.push(GuestValue::Digest(clone_vec(&env.header.state_root)));
    vals.push(GuestValue::Word64(env.fragments.len() as u64));
    proof {
        assert(models_of(vals@) =~= head_models(env@));
    }
    let n = env.fragments.len();
    let mut i: usize = 0;
    while i < n
        invariant
            i <= n,
            n == env.fragments@.len(),
            env@.fragments.len() == n,
            models_of(vals@) == head_models(env@) + frag_models(env@.fragments.take(i as int)),
        decreases n - i,
    {
        let f = &env.fragments[i];
        proof {
            assert(env@.fragments[i as int] == env.fragments@[i as int]@);
        }
        let ghost fv = env@.fragments[i as int];
        let ghost p0 = vals@;
        vals.push(GuestValue::Account(f.contract.duplicate()));
        let ghost p1 = vals@;
        vals.push(GuestValue::Account(f.account.duplicate()));
        let ghost p2 = vals@;
        vals.push(GuestValue::Uint(f.goal_index.duplicate()));
        let ghost p3 = vals@;
        vals.push(GuestValue::Uint(f.value.duplicate()));
        let ghost p4 = vals@;
        vals.push(GuestValue::Digest(clone_vec(&f.root)));
        proof {
            assert(models_of(p1) =~= models_of(p0).push(ValueModel::Account(fv.contract)));
            assert(models_of(p2) =~= models_of(p1).push(ValueModel::Account(fv.account)));
            assert(models_of(p3) =~= models_of(p2).push(ValueModel::Uint(fv.goal_index)));
            assert(models_of(p4) =~= models_of(p3).push(ValueModel::Uint(fv.value)));
            assert(models_of(vals@) =~= models_of(p4).push(ValueModel::Digest(fv.root)));
            assert(models_of(vals@) =~= models_of(p0) + seq![
                ValueModel::Account(fv.contract),
                ValueModel::Account(fv.account),
                ValueModel::Uint(fv.goal_index),
                ValueModel::Uint(fv.value),
                ValueModel::Digest(fv.root),
            ]);
            lemma_frag_models_push(env@.fragments.take(i as int), fv);
            assert(env@.fragments.take(i as int).push(fv) =~= env@.fragments.take(i + 1 as int));
            assert(models_of(vals@) =~= head_models(env@) + frag_models(
                env@.fragments.take(i + 1 as int),
            ));
        }
        i = i + 1;
    }
    proof {
        assert(env@.fragments.take(n as int) =~= env@.fragments);
        assert(models_of(vals@) == env_models(env@));
    }
    match encode_values(&vals) {
        Ok(ws) => {
            proof {
                lemma_env_models_wf_iff(env@);
            }
            Ok(ViewCallInput { words: ws })
        },
        Err(e) => {
            proof {
                lemma_env_models_wf_iff(env@);
            }
            Err(e)
        },
    }
}

/// Appending one fragment appends its five values.
proof fn lemma_frag_models_push(fs: Seq<FragmentModel>, f: FragmentModel)
    ensures
        frag_models(fs.push(f)) == frag_models(fs) + seq![
            ValueModel::Account(f.contract),
            ValueModel::Account(f.account),
            ValueModel::Uint(f.goal_index),
            ValueModel::Uint(f.value),
            ValueModel::Digest(f.root),
        ],
    decreases fs.len(),
{
    let g = seq![
        ValueModel::Account(f.contract),
        ValueModel::Account(f.account),
        ValueModel::Uint(f.goal_index),
        ValueModel::Uint(f.value),
        ValueModel::Digest(f.root),
    ];
    if fs.len() == 0 {
        assert(fs.push(f)[0] == f);
        assert(fs.push(f).skip(1) =~= Seq::<FragmentModel>::empty());
        assert(frag_models(Seq::<FragmentModel>::empty()) == Seq::<ValueModel>::empty());
        assert(frag_models(fs.push(f)) =~= frag_models(fs) + g);
    } else {
        lemma_frag_models_push(fs.skip(1), f);
        assert(fs.push(f).skip(1) =~= fs.skip(1).push(f));
        assert(fs.push(f)[0] == fs[0]);
        assert(frag_models(fs.push(f)) =~= frag_models(fs) + g);
    }
}

/// All values of a list of well-formed fragments are supported.
proof fn lemma_frag_models_wf(fs: Seq<FragmentModel>)
    requires
        forall|i: int| 0 <= i < fs.len() ==> (#[trigger] fs[i]).wf(),
    ensures
        forall|k: int|
            0 <= k < frag_models(fs).len() ==> (#[trigger] frag_models(fs)[k]).wf(),
    decreases fs.len(),
{
    if fs.len() > 0 {
        assert(fs[0].wf());
        assert(forall|i: int| 0 <= i < fs.len() - 1 ==> (#[trigger] fs.skip(1)[i]) == fs[i + 1]);
        lemma_frag_models_wf(fs.skip(1));
        let fm = frag_models(fs);
        let rest = frag_models(fs.skip(1));
        assert forall|k: int| 0 <= k < fm.len() implies (#[trigger] fm[k]).wf() by {
            if k >= 5 {
                assert(fm[k] == rest[k - 5]);
            }
        }
    }
}

/// A snapshot's values are all supported exactly when the snapshot is
/// well-formed.
proof fn lemma_env_models_wf_iff(e: EnvModel)
    ensures
        (first_err(env_models(e)) is None) == e.wf(),
        e.wf() ==> forall|k: int|
            0 <= k < env_models(e).len() ==> (#[trigger] env_models(e)[k]).wf(),
{
    lemma_frag_models_shape(e.fragments);
    let ms = env_models(e);
    let hm = head_models(e);
    let fm = frag_models(e.fragments);
    let fs = e.fragments;
    if e.wf() {
        lemma_frag_models_wf(fs);
        assert forall|k: int| 0 <= k < ms.len() implies (#[trigger] ms[k]).wf() by {
            if k < 5 {
                assert(ms[k] == hm[k]);
            } else {
                assert(ms[k] == fm[k - 5]);
            }
        }
        crate::codec::lemma_first_err_none(ms);
    }
    if first_err(ms) is None {
        crate::codec::lemma_first_err_none_wf(ms);
        assert(ms[2] == hm[2] && ms[3] == hm[3]);
        assert(e.header.wf());
        assert forall|i: int| 0 <= i < fs.len() implies (#[trigger] fs[i]).wf() by {
            assert(ms[5 + 5 * i] == fm[5 * i]);
            assert(ms[5 + 5 * i + 1] == fm[5 * i + 1]);
            assert(ms[5 + 5 * i + 2] == fm[5 * i + 2]);
            assert(ms[5 + 5 * i + 3] == fm[5 * i + 3]);
            assert(ms[5 + 5 * i + 4] == fm[5 * i + 4]);
            assert(ms[5 + 5 * i].wf() && ms[5 + 5 * i + 1].wf() && ms[5 + 5 * i + 2].wf() && ms[
            5 + 5 * i + 3].wf() && ms[5 + 5 * i + 4].wf());
        }
        assert(e.wf());
    }
}

/// The fixed word footprint of one value of a kind that carries no length
/// word.
pub open spec fn kind_len(k: ValueKind) -> int {
    match k {
        ValueKind::Word64 => 2,
        ValueKind::Uint => 8,
        ValueKind::Account => 5,
        ValueKind::Digest => 8,
        ValueKind::Input => 0,
    }
}

/// The word footprint of a kind list without opaque inputs.
pub open spec fn fixed_len(ks: Seq<ValueKind>) -> int
    decreases ks.len(),
{
    if ks.len() == 0 {
        0
    } else {
        kind_len(ks[0]) + fixed_len(ks.skip(1))
    }
}

/// No kind in the list carries a length word of its own.
pub open spec fn no_input_kind(ks: Seq<ValueKind>) -> bool {
    forall|k: int| 0 <= k < ks.len() ==> ks[k] != ValueKind::Input
}

/// A decode under fixed-footprint kinds consumes exactly their footprint.
proof fn lemma_dec_fixed_len(ks: Seq<ValueKind>, ws: Seq<u32>)
    requires
        no_input_kind(ks),
    ensures
        dec_values(ks, ws) is Some ==> ws.len() == fixed_len(ks),
    decreases ks.len(),
{
    if ks.len() == 0 {
    } else {
        assert(ks[0] != ValueKind::Input);
        match read_value(ks[0], ws) {
            Option::None => {},
            Option::Some((m, rest)) => {
                assert(forall|k: int|
                    0 <= k < ks.len() - 1 ==> (#[trigger] ks.skip(1)[k]) == ks[k + 1]);
                lemma_dec_fixed_len(ks.skip(1), rest);
                assert(rest.len() == ws.len() - kind_len(ks[0]));
            },
        }
    }
}

/// The footprint of two kind lists in a row.
proof fn lemma_fixed_len_concat(a: Seq<ValueKind>, b: Seq<ValueKind>)
    ensures
        fixed_len(a + b) == fixed_len(a) + fixed_len(b),
    decreases a.len(),
{
    if a.len() == 0 {
        assert(a + b =~= b);
    } else {
        lemma_fixed_len_concat(a.skip(1), b);
        assert((a + b).skip(1) =~= a.skip(1) + b);
        assert((a + b)[0] == a[0]);
    }
}

/// The shape of the fragment kinds: five per fragment, 34 words each, no
/// opaque inputs.
proof fn lemma_frag_kinds_shape(n: nat)
    ensures
        frag_kinds(n).len() == 5 * n,
        fixed_len(frag_kinds(n)) == 34 * n,
        no_input_kind(frag_kinds(n)),
        forall|k: int| 0 <= k < 5 * n ==> (#[trigger] frag_kinds(n)[k]) == group_kinds()[k % 5],
    decreases n,
{
    if n > 0 {
        lemma_frag_kinds_shape((n - 1) as nat);
        lemma_fixed_len_concat(group_kinds(), frag_kinds((n - 1) as nat));
        assert(fixed_len(group_kinds()) == 34) by {
            let g = group_kinds();
            let g1 = seq![ValueKind::Account, ValueKind::Uint, ValueKind::Uint, ValueKind::Digest];
            let g2 = seq![ValueKind::Uint, ValueKind::Uint, ValueKind::Digest];
            let g3 = seq![ValueKind::Uint, ValueKind::Digest];
            let g4 = seq![ValueKind::Digest];
            assert(g.skip(1) =~= g1 && g1.skip(1) =~= g2 && g2.skip(1) =~= g3 && g3.skip(1) =~= g4);
            assert(g4.skip(1) =~= Seq::<ValueKind>::empty());
            assert(fixed_len(Seq::<ValueKind>::empty()) == 0);
            assert(fixed_len(g4) == 8);
            assert(fixed_len(g3) == 16);
            assert(fixed_len(g2) == 24);
            assert(fixed_len(g1) == 29);
        }
        assert forall|k: int| 0 <= k < 5 * n implies (#[trigger] frag_kinds(n)[k])
            == group_kinds()[k % 5] by {
            if k >= 5 {
                assert(frag_kinds(n)[k] == frag_kinds((n - 1) as nat)[k - 5]);
                assert((k - 5) % 5 == k % 5);
            }
        }
    }
}

/// Growing the fragment count by one appends one group of kinds.
proof fn lemma_frag_kinds_snoc(n: nat)
    ensures
        frag_kinds(n) + group_kinds() == frag_kinds(n + 1),
    decreases n,
{
    if n == 0 {
        assert(frag_kinds(0) + group_kinds() =~= group_kinds() + frag_kinds(0));
    } else {
        lemma_frag_kinds_snoc((n - 1) as nat);
        assert(frag_kinds(n) + group_kinds() =~= group_kinds() + (frag_kinds((n - 1) as nat)
            + group_kinds()));
    }
}

/// Reconstructs the snapshot a view-call input serializes, bound to the
/// configured chain. Fail closed: a payload that does not parse, names
/// another chain, or embeds a fragment that does not verify against its own
/// header yields an abort, never an environment.
#[verifier::loop_isolation(false)]
#[verifier::rlimit(100)]
pub fn reconstruct(input: &ViewCallInput, chain: &ChainSpec) -> (r: Result<
    ViewCallEnvironment,
    GuestAbort,
>)
    ensures
        match spec_reconstruct(input@, chain.chain_id) {
            Result::Ok(e) => r matches Ok(env) && env@ == e && e.wf() && e.consistent()
                && e.chain_id == chain.chain_id,
            Result::Err(a) => r == Err::<ViewCallEnvironment, GuestAbort>(a),
        },
{
    let ws = &input.words;
    if ws.len() < 22 {
        return Err(GuestAbort::MalformedInput);
    }
    let head_words = copy_words(ws, 0, 22);
    let mut hk: Vec<ValueKind> = Vec::new();
    hk.push(ValueKind::Word64);
    hk.push(ValueKind::Word64);
    hk.push(ValueKind::Digest);
    hk.push(ValueKind::Digest);
    hk.push(ValueKind::Word64);
    proof {
        assert(hk@ =~= head_kinds());
        assert(head_words@ =~= input@.take(22));
    }
    let hv = match decode_values(&hk, &head_words) {
        Some(v) => v,
        None => {
            return Err(GuestAbort::MalformedInput);
        },
    };
    proof {
        lemma_dec_values_shape(head_kinds(), input@.take(22));
    }
    let ghost hms = models_of(hv@);
    proof {
        assert(dec_values(head_kinds(), input@.take(22)) == Some(hms));
        assert(hms.len() == 5);
        assert(hms[0] == hv@[0]@ && hms[1] == hv@[1]@ && hms[2] == hv@[2]@ && hms[3] == hv@[3]@
            && hms[4] == hv@[4]@);
    }
    let chain_id_read = match &hv[0] {
        GuestValue::Word64(v) => *v,
        _ => {
            proof {
                assert(hms[0].kind() == ValueKind::Word64);
                assert(false);
            }
            return Err(GuestAbort::MalformedInput);
        },
    };
    let number_read = match &hv[1] {
        GuestValue::Word64(v) => *v,
        _ => {
            proof {
                assert(hms[1].kind() == ValueKind::Word64);
                assert(false);
            }
            return Err(GuestAbort::MalformedInput);
        },
    };
    let hash_read = match &hv[2] {
        GuestValue::Digest(d) => clone_vec(d),
        _ => {
            proof {
                assert(hms[2].kind() == ValueKind::Digest);
                assert(false);
            }
            return Err(GuestAbort::MalformedInput);
        },
    };
    let root_read = match &hv[3] {
        GuestValue::Digest(d) => clone_vec(d),
        _ => {
            proof {
                assert(hms[3].kind() == ValueKind::Digest);
                assert(false);
            }
            return Err(GuestAbort::MalformedInput);
        },
    };
    let count_read = match &hv[4] {
        GuestValue::Word64(v) => *v,
        _ => {
            proof {
                assert(hms[4].kind() == ValueKind::Word64);
                assert(false);
            }
            return Err(GuestAbort::MalformedInput);
        },
    };
    proof {
        assert(as_word64(hms[0]) == chain_id_read);
        assert(as_word64(hms[1]) == number_read);
        assert(as_bytes(hms[2]) == hash_read@);
        assert(as_bytes(hms[3]) == root_read@);
        assert(as_word64(hms[4]) == count_read);
    }
    let rem = ws.len() - 22;
    let n = rem / 34;
    proof {
        lemma_frag_kinds_shape(count_read as nat);
    }
    if rem % 34 != 0 || count_read != n as u64 {
        proof {
            lemma_dec_fixed_len(frag_kinds(count_read as nat), input@.skip(22));
            assert(input@.skip(22).len() != 34 * (count_read as nat));
            assert(dec_values(frag_kinds(count_read as nat), input@.skip(22)) is None);
        }
        return Err(GuestAbort::MalformedInput);
    }
    let mut fk: Vec<ValueKind> = Vec::new();
    let mut gi: usize = 0;
    proof {
        assert(fk@ =~= frag_kinds(0));
    }
    while gi < n
        invariant
            gi <= n,
            fk@ == frag_kinds(gi as nat),
        decreases n - gi,
    {
        fk.push(ValueKind::Account);
        fk.push(ValueKind::Account);
        fk.push(ValueKind::Uint);
        fk.push(ValueKind::Uint);
        fk.push(ValueKind::Digest);
        proof {
            lemma_frag_kinds_snoc(gi as nat);
            assert(fk@ =~= frag_kinds(gi as nat) + group_kinds());
        }
        gi = gi + 1;
    }
    let tail_words = copy_words(ws, 22, rem);
    proof {
        assert(tail_words@ =~= input@.skip(22));
    }
    let fv = match decode_values(&fk, &tail_words) {
        Some(v) => v,
        None => {
            return Err(GuestAbort::MalformedInput);
        },
    };
    proof {
        lemma_dec_values_shape(frag_kinds(n as nat), input@.skip(22));
    }
    let ghost fms = models_of(fv@);
    proof {
        assert(dec_values(frag_kinds(n as nat), input@.skip(22)) == Some(fms));
        assert(fms.len() == frag_kinds(n as nat).len());
        assert(fms.len() == 5 * n);
        assert(fv@.len() == fms.len());
    }
    let mut fragments: Vec<StateFragment> = Vec::new();
    let mut i: usize = 0;
    proof {
        assert(fms.skip(0) =~= fms);
        assert(frag_views(fragments@) =~= Seq::<FragmentModel>::empty());
    }
    while i < n
        invariant
            i <= n,
            frags_of_models(fms) == frag_views(fragments@) + frags_of_models(fms.skip(5 * i)),
        decreases n - i,
    {
        let ghost here = fms.skip(5 * i);
        proof {
            assert((5 * i as int) % 5 == 0 && (5 * i as int + 1) % 5 == 1 && (5 * i as int + 2) % 5
                == 2 && (5 * i as int + 3) % 5 == 3 && (5 * i as int + 4) % 5 == 4);
            assert(fms[5 * i].kind() == group_kinds()[0]);
            assert(fms[5 * i + 1].kind() == group_kinds()[1]);
            assert(fms[5 * i + 2].kind() == group_kinds()[2]);
            assert(fms[5 * i + 3].kind() == group_kinds()[3]);
            assert(fms[5 * i + 4].kind() == group_kinds()[4]);
            assert(here[0] == fms[5 * i] && here[1] == fms[5 * i + 1] && here[2] == fms[5 * i + 2]
                && here[3] == fms[5 * i + 3] && here[4] == fms[5 * i + 4]);
            assert(fms[5 * i] == fv@[5 * i as int]@);
            assert(fms[5 * i + 1] == fv@[5 * i as int + 1]@);
            assert(fms[5 * i + 2] == fv@[5 * i as int + 2]@);
            assert(fms[5 * i + 3] == fv@[5 * i as int + 3]@);
            assert(fms[5 * i + 4] == fv@[5 * i as int + 4]@);
        }
        let contract = match &fv[5 * i] {
            GuestValue::Account(a) => a.duplicate(),
            _ => {
                proof {
                    assert(false);
                }
                return Err(GuestAbort::MalformedInput);
            },
        };
        let account = match &fv[5 * i + 1] {
            GuestValue::Account(a) => a.duplicate(),
            _ => {
                proof {
                    assert(false);
                }
                return Err(GuestAbort::MalformedInput);
            },
        };
        let goal_index = match &fv[5 * i + 2] {
            GuestValue::Uint(u) => u.duplicate(),
            _ => {
                proof {
                    assert(false);
                }
                return Err(GuestAbort::MalformedInput);
            },
        };
        let value = match &fv[5 * i + 3] {
            GuestValue::Uint(u) => u.duplicate(),
            _ => {
                proof {
                    assert(false);
                }
                return Err(GuestAbort::MalformedInput);
            },
        };
        let root = match &fv[5 * i + 4] {
            GuestValue::Digest(d) => clone_vec(d),
            _ => {
                proof {
                    assert(false);
                }
                return Err(GuestAbort::MalformedInput);
            },
        };
        let ghost prev = fragments@;
        fragments.push(StateFragment { contract, account, goal_index, value, root });
        proof {
            let fm_new = FragmentModel {
                contract: as_bytes(here[0]),
                account: as_bytes(here[1]),
                goal_index: as_uint(here[2]),
                value: as_uint(here[3]),
                root: as_bytes(here[4]),
            };
            assert(frag_views(fragments@) =~= frag_views(prev).push(fragments@.last()@));
            assert(fragments@.last()@ =~= fm_new);
            assert(here.len() >= 5);
            assert(frags_of_models(here) == seq![fm_new] + frags_of_models(here.skip(5)));
            assert(here.skip(5) =~= fms.skip(5 * i + 5));
            assert(frag_views(prev) + (seq![fm_new] + frags_of_models(fms.skip(5 * i + 5)))
                =~= frag_views(fragments@) + frags_of_models(fms.skip(5 * (i + 1))));
        }
        i = i + 1;
    }
    proof {
        assert(fms.skip(5 * (n as int)) =~= Seq::<ValueModel>::empty());
        assert(frags_of_models(Seq::<ValueModel>::empty()) == Seq::<FragmentModel>::empty());
        assert(frag_views(fragments@) + frags_of_models(fms.skip(5 * (n as int))) =~= frag_views(
            fragments@,
        ));
        assert(frags_of_models(fms) =~= frag_views(fragments@));
    }
    let env = ViewCallEnvironment {
        chain_id: chain_id_read,
        header: BlockHeader { number: number_read, hash: hash_read, state_root: root_read },
        fragments,
    };
    let ghost e_spec = EnvModel {
        chain_id: as_word64(hms[0]),
        header: HeaderModel {
            number: as_word64(hms[1]),
            hash: as_bytes(hms[2]),
            state_root: as_bytes(hms[3]),
        },
        fragments: frags_of_models(fms),
    };
    proof {
        assert(env@.fragments =~= frag_views(env.fragments@));
        assert(env@ =~= e_spec);
        assert(as_word64(hms[4]) as nat == n as nat);
    }
    if chain_id_read != chain.chain_id {
        proof {
            assert(spec_reconstruct(input@, chain.chain_id) == Err::<EnvModel, GuestAbort>(
                GuestAbort::ChainMismatch,
            ));
        }
        return Err(GuestAbort::ChainMismatch);
    }
    let mut ci: usize = 0;
    let nf = env.fragments.len();
    while ci < nf
        invariant
            ci <= nf,
            nf == env.fragments@.len(),
            forall|j: int| 0 <= j < ci ==> (#[trigger] env@.fragments[j]).root
                == env@.header.state_root,
        decreases nf - ci,
    {
        let f = &env.fragments[ci];
        let ok = bytes_eq(&f.root, &env.header.state_root);
        proof {
            assert(env@.fragments[ci as int] == env.fragments@[ci as int]@);
        }
        if !ok {
            proof {
                assert(!env@.consistent());
                assert(!e_spec.consistent());
                assert(spec_reconstruct(input@, chain.chain_id) == Err::<EnvModel, GuestAbort>(
                    GuestAbort::InconsistentState,
                ));
            }
            return Err(GuestAbort::InconsistentState);
        }
        ci = ci + 1;
    }
    proof {
        assert(env@.consistent());
        lemma_reconstruct_env_wf(env@, fms);
        assert(spec_reconstruct(input@, chain.chain_id) == Ok::<EnvModel, GuestAbort>(e_spec));
    }
    Ok(env)
}

/// An environment assembled from decoded values is well-formed.
proof fn lemma_reconstruct_env_wf(e: EnvModel, fms: Seq<ValueModel>)
    requires
        e.header.hash.len() == 32,
        e.header.state_root.len() == 32,
        e.fragments == frags_of_models(fms),
        forall|k: int| 0 <= k < fms.len() ==> (#[trigger] fms[k]).wf(),
        forall|k: int| 0 <= k < fms.len() ==> (#[trigger] fms[k]).kind() == frag_kinds(
            (fms.len() / 5) as nat,
        )[k],
        fms.len() % 5 == 0,
    ensures
        e.wf(),
    decreases fms.len(),
{
    lemma_frag_kinds_shape((fms.len() / 5) as nat);
    lemma_frags_of_models_len(fms);
    assert forall|i: int| 0 <= i < e.fragments.len() implies (#[trigger] e.fragments[i]).wf() by {
        lemma_frags_of_models_index(fms, i);
        assert((5 * i) % 5 == 0 && (5 * i + 1) % 5 == 1 && (5 * i + 2) % 5 == 2 && (5 * i + 3) % 5
            == 3 && (5 * i + 4) % 5 == 4);
        assert(fms[5 * i].kind() == ValueKind::Account && fms[5 * i].wf());
        assert(fms[5 * i + 1].kind() == ValueKind::Account && fms[5 * i + 1].wf());
        assert(fms[5 * i + 2].kind() == ValueKind::Uint && fms[5 * i + 2].wf());
        assert(fms[5 * i + 3].kind() == ValueKind::Uint && fms[5 * i + 3].wf());
        assert(fms[5 * i + 4].kind() == ValueKind::Digest && fms[5 * i + 4].wf());
    }
}

/// The `i`-th reconstructed fragment reads the five values of its group.
proof fn lemma_frags_of_models_index(ms: Seq<ValueModel>, i: int)
    requires
        ms.len() % 5 == 0,
        0 <= i < ms.len() / 5,
    ensures
        frags_of_models(ms).len() == ms.len() / 5,
        frags_of_models(ms)[i] == (FragmentModel {
            contract: as_bytes(ms[5 * i]),
            account: as_bytes(ms[5 * i + 1]),
            goal_index: as_uint(ms[5 * i + 2]),
            value: as_uint(ms[5 * i + 3]),
            root: as_bytes(ms[5 * i + 4]),
        }),
    decreases ms.len(),
{
    lemma_frags_of_models_len(ms);
    if i == 0 {
    } else {
        lemma_frags_of_models_index(ms.skip(5), i - 1);
        assert(frags_of_models(ms)[i] == frags_of_models(ms.skip(5))[i - 1]);
        assert(ms.skip(5)[5 * (i - 1)] == ms[5 * i]);
        assert(ms.skip(5)[5 * (i - 1) + 1] == ms[5 * i + 1]);
        assert(ms.skip(5)[5 * (i - 1) + 2] == ms[5 * i + 2]);
        assert(ms.skip(5)[5 * (i - 1) + 3] == ms[5 * i + 3]);
        assert(ms.skip(5)[5 * (i - 1) + 4] == ms[5 * i + 4]);
    }
}

/// Five values make one fragment.
proof fn lemma_frags_of_models_len(ms: Seq<ValueModel>)
    requires
        ms.len() % 5 == 0,
    ensures
        frags_of_models(ms).len() == ms.len() / 5,
    decreases ms.len(),
{
    if ms.len() >= 5 {
        lemma_frags_of_models_len(ms.skip(5));
    }
}

/// The kinds of a fragment list's values are the fragment kinds.
proof fn lemma_frag_models_kinds(fs: Seq<FragmentModel>)
    ensures
        kinds_of(frag_models(fs)) == frag_kinds(fs.len()),
    decreases fs.len(),
{
    if fs.len() == 0 {
        assert(kinds_of(frag_models(fs)) =~= frag_kinds(0));
    } else {
        lemma_frag_models_kinds(fs.skip(1));
        let fm = frag_models(fs);
        let rest = frag_models(fs.skip(1));
        assert(fm.len() == 5 + rest.len());
        assert(kinds_of(fm) =~= group_kinds() + frag_kinds((fs.len() - 1) as nat)) by {
            assert forall|k: int| 0 <= k < fm.len() implies kinds_of(fm)[k] == (group_kinds()
                + frag_kinds((fs.len() - 1) as nat))[k] by {
                assert(kinds_of(fm)[k] == fm[k].kind());
                if k >= 5 {
                    assert(fm[k] == rest[k - 5]);
                    assert(kinds_of(rest)[k - 5] == rest[k - 5].kind());
                }
            }
        }
    }
}

/// Reading back the values of a fragment list gives the fragments.
proof fn lemma_frags_of_frag_models(fs: Seq<FragmentModel>)
    ensures
        frags_of_models(frag_models(fs)) == fs,
    decreases fs.len(),
{
    if fs.len() == 0 {
        assert(frags_of_models(frag_models(fs)) =~= fs);
    } else {
        lemma_frags_of_frag_models(fs.skip(1));
        let fm = frag_models(fs);
        let rest = frag_models(fs.skip(1));
        assert(fm.len() >= 5);
        assert(fm[0] == ValueModel::Account(fs[0].contract));
        assert(fm[1] == ValueModel::Account(fs[0].account));
        assert(fm[2] == ValueModel::Uint(fs[0].goal_index));
        assert(fm[3] == ValueModel::Uint(fs[0].value));
        assert(fm[4] == ValueModel::Digest(fs[0].root));
        assert(fm.skip(5) =~= rest);
        let f0 = FragmentModel {
            contract: as_bytes(fm[0]),
            account: as_bytes(fm[1]),
            goal_index: as_uint(fm[2]),
            value: as_uint(fm[3]),
            root: as_bytes(fm[4]),
        };
        assert(f0 =~= fs[0]);
        assert(frags_of_models(fm) == seq![f0] + frags_of_models(fm.skip(5)));
        assert(frags_of_models(fm) =~= fs);
    }
}

/// Round trip of the snapshot: reconstructing a serialized well-formed,
/// consistent environment under its own chain gives the environment back —
/// fail-closed reconstruction loses nothing on the honest path.
pub proof fn lemma_reconstruct_of_serialized(e: EnvModel, chain_id: u64)
    requires
        e.wf(),
        e.consistent(),
        e.chain_id == chain_id,
        e.fragments.len() <= 0xffffffffffffffff,
    ensures
        spec_reconstruct(enc_env(e), chain_id) == Ok::<EnvModel, GuestAbort>(e),
{
    let hm = head_models(e);
    let fm = frag_models(e.fragments);
    let ms = env_models(e);
    let ws = enc_env(e);
    lemma_env_models_wf_iff(e);
    lemma_frag_models_shape(e.fragments);
    lemma_enc_values_concat(hm, fm);
    assert(hm[0].wf() && hm[1].wf() && hm[2].wf() && hm[3].wf() && hm[4].wf()) by {
        assert(hm[0] == ms[0] && hm[1] == ms[1] && hm[2] == ms[2] && hm[3] == ms[3] && hm[4]
            == ms[4]);
    }
    assert(enc_values(hm).len() == 22) by {
        let h1 = hm.skip(1);
        let h2 = h1.skip(1);
        let h3 = h2.skip(1);
        let h4 = h3.skip(1);
        assert(h1 =~= seq![
            ValueModel::Word64(e.header.number),
            ValueModel::Digest(e.header.hash),
            ValueModel::Digest(e.header.state_root),
            ValueModel::Word64(e.fragments.len() as u64),
        ]);
        assert(h2 =~= seq![
            ValueModel::Digest(e.header.hash),
            ValueModel::Digest(e.header.state_root),
            ValueModel::Word64(e.fragments.len() as u64),
        ]);
        assert(h3 =~= seq![
            ValueModel::Digest(e.header.state_root),
            ValueModel::Word64(e.fragments.len() as u64),
        ]);
        assert(h4 =~= seq![ValueModel::Word64(e.fragments.len() as u64)]);
        assert(h4.skip(1) =~= Seq::<ValueModel>::empty());
        assert(enc_values(Seq::<ValueModel>::empty()).len() == 0);
        crate::words::lemma_words_of_le_bytes_len(e.header.hash);
        crate::words::lemma_words_of_le_bytes_len(e.header.state_root);
        assert(enc_values(h4) == enc_value(h4[0]) + enc_values(h4.skip(1)));
        assert(enc_values(h4).len() == 2);
        assert(enc_values(h3) == enc_value(h3[0]) + enc_values(h3.skip(1)));
        assert(h3.skip(1) =~= h4);
        assert(enc_values(h3).len() == 10);
        assert(enc_values(h2) == enc_value(h2[0]) + enc_values(h2.skip(1)));
        assert(h2.skip(1) =~= h3);
        assert(enc_values(h2).len() == 18);
        assert(enc_values(h1) == enc_value(h1[0]) + enc_values(h1.skip(1)));
        assert(h1.skip(1) =~= h2);
        assert(enc_values(h1).len() == 20);
        assert(enc_values(hm) == enc_value(hm[0]) + enc_values(h1));
        assert(enc_values(hm).len() == 22);
    }
    assert(ws.take(22) =~= enc_values(hm));
    assert(ws.skip(22) =~= enc_values(fm));
    assert(kinds_of(hm) =~= head_kinds());
    lemma_codec_round_trip(hm);
    assert(dec_values(head_kinds(), ws.take(22)) == Some(hm));
    lemma_frag_models_kinds(e.fragments);
    lemma_frag_models_wf(e.fragments);
    lemma_codec_round_trip(fm);
    assert(as_word64(hm[4]) == e.fragments.len() as u64);
    assert(as_word64(hm[4]) as nat == e.fragments.len());
    assert(dec_values(frag_kinds(as_word64(hm[4]) as nat), ws.skip(22)) == Some(fm));
    lemma_frags_of_frag_models(e.fragments);
    let e2 = EnvModel {
        chain_id: as_word64(hm[0]),
        header: HeaderModel {
            number: as_word64(hm[1]),
            hash: as_bytes(hm[2]),
            state_root: as_bytes(hm[3]),
        },
        fragments: frags_of_models(fm),
    };
    assert(e2 =~= e);
    assert(ws.len() >= 22);
}

/// The two phases agree: the view call executed off-chain against a
/// snapshot returns exactly what a network-isolated re-execution against
/// the reconstructed serialized snapshot returns.
pub proof fn lemma_preflight_guest_execute_agree(c: CallModel, e: EnvModel, chain_id: u64)
    requires
        e.wf(),
        e.consistent(),
        e.chain_id == chain_id,
        e.fragments.len() <= 0xffffffffffffffff,
    ensures
        spec_reconstruct(enc_env(e), chain_id) matches Ok(e2) && spec_execute(c, e2)
            == spec_execute(c, e),
{
    lemma_reconstruct_of_serialized(e, chain_id);
}

/// Why a preflight run failed.
#[derive(Clone, Copy, PartialEq, Eq, Structural, Debug)]
pub enum PreflightError {
    /// The environment is bound to another chain than the configured one.
    ChainMismatch,
    /// The environment does not fit the serialization schema.
    UnsupportedEnvironment,
    /// The view call found no answer in the snapshot: it reverts.
    CallReverted,
}

/// The off-chain half of the pipeline: executes the view call against the
/// snapshot and serializes the snapshot into the self-contained input from
/// which the guest re-derives the identical result.
pub fn preflight(call: &ViewCall, env: &ViewCallEnvironment, chain: &ChainSpec) -> (r: Result<
    (ViewCallInput, U256),
    PreflightError,
>)
    ensures
        env@.chain_id != chain.chain_id ==> r == Err::<(ViewCallInput, U256), PreflightError>(
            PreflightError::ChainMismatch,
        ),
        env@.chain_id == chain.chain_id && !env@.wf() ==> r == Err::<
            (ViewCallInput, U256),
            PreflightError,
        >(PreflightError::UnsupportedEnvironment),
        env@.chain_id == chain.chain_id && env@.wf() ==> (match spec_execute(call@, env@) {
            Option::None => r == Err::<(ViewCallInput, U256), PreflightError>(
                PreflightError::CallReverted,
            ),
            Option::Some(v) => r matches Ok(p) && p.0@ == enc_env(env@) && p.1@ == v,
        }),
{
    if env.chain_id != chain.chain_id {
        return Err(PreflightError::ChainMismatch);
    }
    let input = match serialize_env(env) {
        Ok(inp) => inp,
        Err(_) => {
            return Err(PreflightError::UnsupportedEnvironment);
        },
    };
    match execute(call, env) {
        Some(v) => Ok((input, v)),
        None => Err(PreflightError::CallReverted),
    }
}

/// The shape of a fragment list's values: five per fragment, each the value
/// of its fragment's field.
proof fn lemma_frag_models_shape(fs: Seq<FragmentModel>)
    ensures
        frag_models(fs).len() == 5 * fs.len(),
        forall|i: int|
            0 <= i < fs.len() ==> {
                &&& frag_models(fs)[5 * i] == ValueModel::Account((#[trigger] fs[i]).contract)
                &&& frag_models(fs)[5 * i + 1] == ValueModel::Account(fs[i].account)
                &&& frag_models(fs)[5 * i + 2] == ValueModel::Uint(fs[i].goal_index)
                &&& frag_models(fs)[5 * i + 3] == ValueModel::Uint(fs[i].value)
                &&& frag_models(fs)[5 * i + 4] == ValueModel::Digest(fs[i].root)
            },
    decreases fs.len(),
{
    if fs.len() > 0 {
        lemma_frag_models_shape(fs.skip(1));
        assert forall|i: int| 0 <= i < fs.len() implies {
            &&& frag_models(fs)[5 * i] == ValueModel::Account((#[trigger] fs[i]).contract)
            &&& frag_models(fs)[5 * i + 1] == ValueModel::Account(fs[i].account)
            &&& frag_models(fs)[5 * i + 2] == ValueModel::Uint(fs[i].goal_index)
            &&& frag_models(fs)[5 * i + 3] == ValueModel::Uint(fs[i].value)
            &&& frag_models(fs)[5 * i + 4] == ValueModel::Digest(fs[i].root)
        } by {
            if i > 0 {
                assert(fs.skip(1)[i - 1] == fs[i]);
                assert(frag_models(fs)[5 * i] == frag_models(fs.skip(1))[5 * (i - 1)]);
                assert(frag_models(fs)[5 * i + 1] == frag_models(fs.skip(1))[5 * (i - 1) + 1]);
                assert(frag_models(fs)[5 * i + 2] == frag_models(fs.skip(1))[5 * (i - 1) + 2]);
                assert(frag_models(fs)[5 * i + 3] == frag_models(fs.skip(1))[5 * (i - 1) + 3]);
                assert(frag_models(fs)[5 * i + 4] == frag_models(fs.skip(1))[5 * (i - 1) + 4]);
            }
        }
    }
}

} // verus!
