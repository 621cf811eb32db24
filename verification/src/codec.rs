//! The Input Encoder and its reader: typed values serialized, in a fixed
//! caller-chosen order, into the flat word buffer the proving runtime hands
//! to the guest. The encoding carries no schema, so the reader must name the
//! expected kinds in the identical order; the round-trip law at the end of
//! this module is what entitles it to.

use vstd::prelude::*;

use crate::values::Address;
use crate::values::U256;
use crate::values::clone_vec;
use crate::words::le_bytes_of_words;
use crate::words::lemma_le_bytes_of_words_of_le_bytes;
use crate::words::lemma_u64_words_roundtrip;
use crate::words::lemma_words_of_le_bytes_len;
use crate::words::join_u64;
use crate::words::split_u64;
use crate::words::append_words;
use crate::words::bytes_to_words;
use crate::words::copy_words;
use crate::words::u64_of_words;
use crate::words::words_of_le_bytes;
use crate::words::words_of_u64;
use crate::words::words_to_bytes;

verus! {

/// The serialized, portable form of a view-call environment: an opaque word
/// payload, produced once per proof request and consumed once by the guest.
#[derive(Debug)]
pub struct ViewCallInput {
    pub words: Vec<u32>,
}

impl View for ViewCallInput {
    type V = Seq<u32>;

    open spec fn view(&self) -> Seq<u32> {
        self.words@
    }
}

impl ViewCallInput {
    /// Copies the payload.
    pub fn duplicate(&self) -> (r: ViewCallInput)
        ensures
            r@ == self@,
    {
        ViewCallInput { words: clone_vec(&self.words) }
    }
}

/// A typed value the guest reads back from its input, in the order written.
#[derive(Debug)]
pub enum GuestValue {
    Word64(u64),
    Uint(U256),
    Account(Address),
    Digest(Vec<u8>),
    Input(ViewCallInput),
}

/// The model of a typed guest input value.
pub enum ValueModel {
    Word64(u64),
    Uint(Seq<u64>),
    Account(Seq<u8>),
    Digest(Seq<u8>),
    Input(Seq<u32>),
}

/// The type tag of a value: what the reader expects next.
#[derive(Clone, Copy, PartialEq, Eq, Structural)]
pub enum ValueKind {
    Word64,
    Uint,
    Account,
    Digest,
    Input,
}

impl View for GuestValue {
    type V = ValueModel;

    open spec fn view(&self) -> ValueModel {
        match self {
            GuestValue::Word64(v) => ValueModel::Word64(*v),
            GuestValue::Uint(u) => ValueModel::Uint(u@),
            GuestValue::Account(a) => ValueModel::Account(a@),
            GuestValue::Digest(d) => ValueModel::Digest(d@),
            GuestValue::Input(i) => ValueModel::Input(i@),
        }
    }
}

impl ValueModel {
    /// A value the encoding supports: well-formed lengths, and a payload
    /// that fits its length word.
    pub open spec fn wf(self) -> bool {
        match self {
            ValueModel::Word64(_) => true,
            ValueModel::Uint(l) => l.len() == 4,
            ValueModel::Account(b) => b.len() == 20,
            ValueModel::Digest(b) => b.len() == 32,
            ValueModel::Input(w) => w.len() <= 0xffffffff,
        }
    }

    /// The type tag of the value.
    pub open spec fn kind(self) -> ValueKind {
        match self {
            ValueModel::Word64(_) => ValueKind::Word64,
            ValueModel::Uint(_) => ValueKind::Uint,
            ValueModel::Account(_) => ValueKind::Account,
            ValueModel::Digest(_) => ValueKind::Digest,
            ValueModel::Input(_) => ValueKind::Input,
        }
    }
}

/// The eight words of four limbs, least significant limb first.
pub open spec fn enc_limbs(l: Seq<u64>) -> Seq<u32> {
    words_of_u64(l[0]) + words_of_u64(l[1]) + words_of_u64(l[2]) + words_of_u64(l[3])
}

/// The canonical word encoding of one value.
pub open spec fn enc_value(m: ValueModel) -> Seq<u32> {
    match m {
        ValueModel::Word64(v) => words_of_u64(v),
        ValueModel::Uint(l) => enc_limbs(l),
        ValueModel::Account(b) => words_of_le_bytes(b),
        ValueModel::Digest(b) => words_of_le_bytes(b),
        ValueModel::Input(w) => seq![w.len() as u32] + w,
    }
}

/// The buffer of a value sequence: each value's encoding, in order.
pub open spec fn enc_values(ms: Seq<ValueModel>) -> Seq<u32>
    decreases ms.len(),
{
    if ms.len() == 0 {
        Seq::empty()
    } else {
        enc_value(ms[0]) + enc_values(ms.skip(1))
    }
}

/// Reads one value of the expected kind off the front of a word buffer.
pub open spec fn read_value(k: ValueKind, ws: Seq<u32>) -> Option<(ValueModel, Seq<u32>)> {
    match k {
        ValueKind::Word64 => if ws.len() >= 2 {
            Some((ValueModel::Word64(u64_of_words(ws[0], ws[1])), ws.skip(2)))
        } else {
            None
        },
        ValueKind::Uint => if ws.len() >= 8 {
            Some(
                (
                    ValueModel::Uint(
                        seq![
                            u64_of_words(ws[0], ws[1]),
                            u64_of_words(ws[2], ws[3]),
                            u64_of_words(ws[4], ws[5]),
                            u64_of_words(ws[6], ws[7]),
                        ],
                    ),
                    ws.skip(8),
                ),
            )
        } else {
            None
        },
        ValueKind::Account => if ws.len() >= 5 {
            Some((ValueModel::Account(le_bytes_of_words(ws.take(5))), ws.skip(5)))
        } else {
            None
        },
        ValueKind::Digest => if ws.len() >= 8 {
            Some((ValueModel::Digest(le_bytes_of_words(ws.take(8))), ws.skip(8)))
        } else {
            None
        },
        ValueKind::Input => if ws.len() >= 1 && ws.len() >= 1 + ws[0] {
            Some((ValueModel::Input(ws.subrange(1, 1 + ws[0])), ws.skip(1 + ws[0])))
        } else {
            None
        },
    }
}

/// Reads values of the expected kinds, in order, consuming the whole buffer.
pub open spec fn dec_values(ks: Seq<ValueKind>, ws: Seq<u32>) -> Option<Seq<ValueModel>>
    decreases ks.len(),
{
    if ks.len() == 0 {
        if ws.len() == 0 {
            Some(Seq::empty())
        } else {
            None
        }
    } else {
        match read_value(ks[0], ws) {
            Option::None => None,
            Option::Some((m, rest)) => match dec_values(ks.skip(1), rest) {
                Option::None => None,
                Option::Some(ms) => Some(seq![m] + ms),
            },
        }
    }
}

/// The kind tags of a value sequence, in order.
pub open spec fn kinds_of(ms: Seq<ValueModel>) -> Seq<ValueKind> {
    ms.map_values(|m: ValueModel| m.kind())
}

/// The models of a sequence of values.
pub open spec fn models_of(vs: Seq<GuestValue>) -> Seq<ValueModel> {
    vs.map_values(|v: GuestValue| v@)
}

/// Reading one encoded value off the front of a buffer gives the value back
/// and leaves the rest of the buffer untouched.
proof fn lemma_read_enc_value(m: ValueModel, rest: Seq<u32>)
    requires
        m.wf(),
    ensures
        read_value(m.kind(), enc_value(m) + rest) == Some((m, rest)),
{
    let ws = enc_value(m) + rest;
    match m {
        ValueModel::Word64(v) => {
            lemma_u64_words_roundtrip(v);
            assert(ws[0] == words_of_u64(v)[0] && ws[1] == words_of_u64(v)[1]);
            assert(ws.skip(2) =~= rest);
        },
        ValueModel::Uint(l) => {
            lemma_u64_words_roundtrip(l[0]);
            lemma_u64_words_roundtrip(l[1]);
            lemma_u64_words_roundtrip(l[2]);
            lemma_u64_words_roundtrip(l[3]);
            assert(ws[0] == words_of_u64(l[0])[0] && ws[1] == words_of_u64(l[0])[1]);
            assert(ws[2] == words_of_u64(l[1])[0] && ws[3] == words_of_u64(l[1])[1]);
            assert(ws[4] == words_of_u64(l[2])[0] && ws[5] == words_of_u64(l[2])[1]);
            assert(ws[6] == words_of_u64(l[3])[0] && ws[7] == words_of_u64(l[3])[1]);
            assert(seq![
                u64_of_words(ws[0], ws[1]),
                u64_of_words(ws[2], ws[3]),
                u64_of_words(ws[4], ws[5]),
                u64_of_words(ws[6], ws[7]),
            ] =~= l);
            assert(ws.skip(8) =~= rest);
        },
        ValueModel::Account(b) => {
            lemma_words_of_le_bytes_len(b);
            assert(ws.take(5) =~= words_of_le_bytes(b));
            lemma_le_bytes_of_words_of_le_bytes(b);
            assert(ws.skip(5) =~= rest);
        },
        ValueModel::Digest(b) => {
            lemma_words_of_le_bytes_len(b);
            assert(ws.take(8) =~= words_of_le_bytes(b));
            lemma_le_bytes_of_words_of_le_bytes(b);
            assert(ws.skip(8) =~= rest);
        },
        ValueModel::Input(w) => {
            assert(ws[0] == w.len() as u32);
            assert(ws.len() >= 1 + ws[0]);
            assert(ws.subrange(1, 1 + ws[0]) =~= w);
            assert(ws.skip(1 + ws[0]) =~= rest);
        },
    }
}

/// Round trip of the Input Encoder: decoding an encoded value sequence, with
/// the same kinds in the same order, gives the values back. This is what lets
/// the host write its input blind and the guest read it back typed.
pub proof fn lemma_codec_round_trip(ms: Seq<ValueModel>)
    requires
        forall|i: int| 0 <= i < ms.len() ==> (#[trigger] ms[i]).wf(),
    ensures
        dec_values(kinds_of(ms), enc_values(ms)) == Some(ms),
    decreases ms.len(),
{
    if ms.len() == 0 {
        assert(kinds_of(ms).len() == 0);
        assert(enc_values(ms).len() == 0);
        assert(ms =~= Seq::<ValueModel>::empty());
    } else {
        assert(ms[0].wf());
        lemma_read_enc_value(ms[0], enc_values(ms.skip(1)));
        lemma_codec_round_trip(ms.skip(1));
        assert(kinds_of(ms)[0] == ms[0].kind());
        assert(kinds_of(ms).skip(1) =~= kinds_of(ms.skip(1)));
        assert(enc_values(ms) == enc_value(ms[0]) + enc_values(ms.skip(1)));
        assert(seq![ms[0]] + ms.skip(1) =~= ms);
    }
}

/// Appending one value appends its encoding.
pub proof fn lemma_enc_values_push(ms: Seq<ValueModel>, m: ValueModel)
    ensures
        enc_values(ms.push(m)) == enc_values(ms) + enc_value(m),
    decreases ms.len(),
{
    if ms.len() == 0 {
        assert(ms.push(m)[0] == m);
        assert(ms.push(m).skip(1) =~= Seq::<ValueModel>::empty());
        assert(enc_values(Seq::<ValueModel>::empty()) == Seq::<u32>::empty());
        assert(enc_values(ms.push(m)) == enc_value(m) + enc_values(ms.push(m).skip(1)));
        assert(enc_values(ms.push(m)) =~= enc_values(ms) + enc_value(m));
    } else {
        lemma_enc_values_push(ms.skip(1), m);
        assert(ms.push(m).skip(1) =~= ms.skip(1).push(m));
        assert(ms.push(m)[0] == ms[0]);
        assert(enc_values(ms.push(m)) == enc_value(ms[0]) + enc_values(ms.skip(1).push(m)));
        assert(enc_values(ms.push(m)) =~= enc_values(ms) + enc_value(m));
    }
}

/// The encoding of two value sequences in a row is the two encodings in a row.
pub proof fn lemma_enc_values_concat(a: Seq<ValueModel>, b: Seq<ValueModel>)
    ensures
        enc_values(a + b) == enc_values(a) + enc_values(b),
    decreases a.len(),
{
    if a.len() == 0 {
        assert(a + b =~= b);
        assert(enc_values(a) == Seq::<u32>::empty());
        assert(enc_values(a + b) =~= enc_values(a) + enc_values(b));
    } else {
        lemma_enc_values_concat(a.skip(1), b);
        assert((a + b).skip(1) =~= a.skip(1) + b);
        assert((a + b)[0] == a[0]);
        assert(enc_values(a + b) == enc_value(a[0]) + enc_values(a.skip(1) + b));
        assert(enc_values(a + b) =~= enc_values(a) + enc_values(b));
    }
}

/// What a successful decode guarantees of each value: it carries the kind
/// the reader asked for, with a well-formed payload.
pub proof fn lemma_dec_values_shape(ks: Seq<ValueKind>, ws: Seq<u32>)
    ensures
        match dec_values(ks, ws) {
            Option::Some(ms) => ms.len() == ks.len() && (forall|i: int|
                0 <= i < ms.len() ==> (#[trigger] ms[i]).kind() == ks[i] && ms[i].wf()),
            Option::None => true,
        },
    decreases ks.len(),
{
    if ks.len() == 0 {
    } else {
        match read_value(ks[0], ws) {
            Option::None => {},
            Option::Some((m, rest)) => {
                lemma_dec_values_shape(ks.skip(1), rest);
                match ks[0] {
                    ValueKind::Word64 => {},
                    ValueKind::Uint => {},
                    ValueKind::Account => {
                        if ws.len() >= 5 {
                            crate::words::lemma_le_bytes_of_words_len(ws.take(5));
                        }
                    },
                    ValueKind::Digest => {
                        if ws.len() >= 8 {
                            crate::words::lemma_le_bytes_of_words_len(ws.take(8));
                        }
                    },
                    ValueKind::Input => {},
                }
                match dec_values(ks.skip(1), rest) {
                    Option::None => {},
                    Option::Some(ms) => {
                        let full = seq![m] + ms;
                        assert(full[0] == m);
                        assert(forall|i: int| 1 <= i < full.len() ==> full[i] == ms[i - 1]);
                    },
                }
            },
        }
    }
}

/// Why a value could not be serialized.
#[derive(Clone, Copy, PartialEq, Eq, Structural, Debug)]
pub enum SerializationError {
    /// An address or 256-bit value of the wrong width.
    WrongLength,
    /// A payload too long for its length word.
    Oversized,
}

/// The error `write` reports for an unsupported value.
pub open spec fn spec_write_err(m: ValueModel) -> SerializationError {
    match m {
        ValueModel::Input(_) => SerializationError::Oversized,
        _ => SerializationError::WrongLength,
    }
}

/// Builds the guest input: each written value's canonical words, appended in
/// caller order. The finished buffer is only handed out on full success.
#[derive(Debug)]
pub struct InputBuilder {
    pub input: Vec<u32>,
}

impl InputBuilder {
    /// An empty input buffer.
    pub fn new() -> (r: InputBuilder)
        ensures
            r.input@ == Seq::<u32>::empty(),
    {
        InputBuilder { input: Vec::new() }
    }

    /// Appends one value's canonical serialized form; fails, leaving no
    /// partial output observable, on a value the encoding does not support.
    pub fn write(self, value: &GuestValue) -> (r: Result<InputBuilder, SerializationError>)
        ensures
            value@.wf() ==> (r matches Ok(b) && b.input@ == self.input@ + enc_value(value@)),
            !value@.wf() ==> r == Err::<InputBuilder, SerializationError>(spec_write_err(value@)),
    {
        let ghost orig = self.input@;
        let InputBuilder { mut input } = self;
        match value {
            GuestValue::Word64(v) => {
                let (lo, hi) = split_u64(*v);
                input.push(lo);
                input.push(hi);
                proof {
                    assert(input@ =~= orig + enc_value(value@));
                }
                Ok(InputBuilder { input })
            },
            GuestValue::Uint(u) => {
                if u.limbs.len() != 4 {
                    return Err(SerializationError::WrongLength);
                }
                let (lo0, hi0) = split_u64(u.limbs[0]);
                let (lo1, hi1) = split_u64(u.limbs[1]);
                let (lo2, hi2) = split_u64(u.limbs[2]);
                let (lo3, hi3) = split_u64(u.limbs[3]);
                input.push(lo0);
                input.push(hi0);
                input.push(lo1);
                input.push(hi1);
                input.push(lo2);
                input.push(hi2);
                input.push(lo3);
                input.push(hi3);
                proof {
                    assert(input@ =~= orig + enc_limbs(u@));
                }
                Ok(InputBuilder { input })
            },
            GuestValue::Account(a) => {
                if a.bytes.len() != 20 {
                    return Err(SerializationError::WrongLength);
                }
                let ws = match bytes_to_words(&a.bytes) {
                    Some(ws) => ws,
                    None => {
                        return Err(SerializationError::WrongLength);
                    },
                };
                append_words(&mut input, &ws);
                proof {
                    assert(input@ =~= orig + enc_value(value@));
                }
                Ok(InputBuilder { input })
            },
            GuestValue::Digest(d) => {
                if d.len() != 32 {
                    return Err(SerializationError::WrongLength);
                }
                let ws = match bytes_to_words(d) {
                    Some(ws) => ws,
                    None => {
                        return Err(SerializationError::WrongLength);
                    },
                };
                append_words(&mut input, &ws);
                proof {
                    assert(input@ =~= orig + enc_value(value@));
                }
                Ok(InputBuilder { input })
            },
            GuestValue::Input(inp) => {
                if inp.words.len() > 0xffffffff {
                    return Err(SerializationError::Oversized);
                }
                input.push(inp.words.len() as u32);
                append_words(&mut input, &inp.words);
                proof {
                    assert(input@ =~= orig + enc_value(value@));
                }
                Ok(InputBuilder { input })
            },
        }
    }

    /// The finished buffer, as the byte stream the proving runtime consumes.
    pub fn bytes(self) -> (r: Vec<u8>)
        ensures
            r@ == le_bytes_of_words(self.input@),
    {
        words_to_bytes(&self.input)
    }
}

/// The first reason, in writing order, a value sequence cannot be encoded.
pub open spec fn first_err(ms: Seq<ValueModel>) -> Option<SerializationError>
    decreases ms.len(),
{
    if ms.len() == 0 {
        None
    } else if !ms[0].wf() {
        Some(spec_write_err(ms[0]))
    } else {
        first_err(ms.skip(1))
    }
}

/// The first unsupported value decides the error.
pub proof fn lemma_first_err_at(ms: Seq<ValueModel>, i: int)
    requires
        0 <= i < ms.len(),
        forall|j: int| 0 <= j < i ==> (#[trigger] ms[j]).wf(),
        !ms[i].wf(),
    ensures
        first_err(ms) == Some(spec_write_err(ms[i])),
    decreases i,
{
    if i == 0 {
    } else {
        assert(ms[0].wf());
        assert(forall|j: int| 0 <= j < i - 1 ==> (#[trigger] ms.skip(1)[j]) == ms[j + 1]);
        lemma_first_err_at(ms.skip(1), i - 1);
    }
}

/// A sequence of supported values encodes without error.
pub proof fn lemma_first_err_none(ms: Seq<ValueModel>)
    requires
        forall|j: int| 0 <= j < ms.len() ==> (#[trigger] ms[j]).wf(),
    ensures
        first_err(ms) is None,
    decreases ms.len(),
{
    if ms.len() > 0 {
        assert(ms[0].wf());
        assert(forall|j: int| 0 <= j < ms.len() - 1 ==> (#[trigger] ms.skip(1)[j]) == ms[j + 1]);
        lemma_first_err_none(ms.skip(1));
    }
}

/// A sequence that encodes without error holds supported values only.
pub proof fn lemma_first_err_none_wf(ms: Seq<ValueModel>)
    requires
        first_err(ms) is None,
    ensures
        forall|j: int| 0 <= j < ms.len() ==> (#[trigger] ms[j]).wf(),
    decreases ms.len(),
{
    if ms.len() > 0 {
        assert(ms[0].wf());
        lemma_first_err_none_wf(ms.skip(1));
        assert(forall|j: int| 0 <= j < ms.len() - 1 ==> (#[trigger] ms.skip(1)[j]) == ms[j + 1]);
        assert forall|j: int| 0 <= j < ms.len() implies (#[trigger] ms[j]).wf() by {
            if j > 0 {
                assert(ms[j] == ms.skip(1)[j - 1]);
            }
        }
    }
}

/// Serializes a value sequence in order; the buffer is handed out only on
/// full success, and the first unsupported value decides the error.
pub fn encode_values(vals: &Vec<GuestValue>) -> (r: Result<Vec<u32>, SerializationError>)
    ensures
        match first_err(models_of(vals@)) {
            Option::None => r matches Ok(ws) && ws@ == enc_values(models_of(vals@)),
            Option::Some(e) => r == Err::<Vec<u32>, SerializationError>(e),
        },
{
    let mut b = InputBuilder::new();
    let mut i: usize = 0;
    proof {
        assert(models_of(vals@).take(0) =~= Seq::<ValueModel>::empty());
    }
    while i < vals.len()
        invariant
            i <= vals@.len(),
            forall|j: int| 0 <= j < i ==> (#[trigger] models_of(vals@)[j]).wf(),
            b.input@ == enc_values(models_of(vals@).take(i as int)),
        decreases vals@.len() - i,
    {
        let ghost ms = models_of(vals@);
        proof {
            assert(ms[i as int] == vals@[i as int]@);
        }
        let v = &vals[i];
        b = match b.write(v) {
            Ok(nb) => nb,
            Err(e) => {
                proof {
                    lemma_first_err_at(ms, i as int);
                }
                return Err(e);
            },
        };
        proof {
            assert(ms.take(i as int).push(ms[i as int]) =~= ms.take(i + 1 as int));
            lemma_enc_values_push(ms.take(i as int), ms[i as int]);
        }
        i = i + 1;
    }
    proof {
        assert(models_of(vals@).take(vals@.len() as int) =~= models_of(vals@));
        lemma_first_err_none(models_of(vals@));
    }
    Ok(b.input)
}

/// Reads back, in order, values of the expected kinds; refuses a buffer that
/// is malformed for those kinds or not fully consumed by them.
pub fn decode_values(kinds: &Vec<ValueKind>, words: &Vec<u32>) -> (r: Option<Vec<GuestValue>>)
    ensures
        match dec_values(kinds@, words@) {
            Option::Some(ms) => r matches Some(vs) && models_of(vs@) == ms,
            Option::None => r is None,
        },
{
    let mut out: Vec<GuestValue> = Vec::new();
    let mut pos: usize = 0;
    let mut i: usize = 0;
    proof {
        assert(kinds@.skip(0) =~= kinds@);
        assert(words@.skip(0) =~= words@);
        assert(models_of(out@) =~= Seq::<ValueModel>::empty());
        assert(match dec_values(kinds@, words@) {
            Option::Some(tail) => models_of(out@) + tail =~= tail,
            Option::None => true,
        });
    }
    while i < kinds.len()
        invariant
            i <= kinds@.len(),
            pos <= words@.len(),
            dec_values(kinds@, words@) == (match dec_values(
                kinds@.skip(i as int),
                words@.skip(pos as int),
            ) {
                Option::None => Option::<Seq<ValueModel>>::None,
                Option::Some(tail) => Option::Some(models_of(out@) + tail),
            }),
        decreases kinds@.len() - i,
    {
        let ghost ws_here = words@.skip(pos as int);
        let ghost ks_here = kinds@.skip(i as int);
        proof {
            assert(ks_here[0] == kinds@[i as int]);
        }
        let k = kinds[i];
        match k {
            ValueKind::Word64 => {
                if words.len() - pos < 2 {
                    proof {
                        assert(ws_here.len() < 2);
                        assert(dec_values(ks_here, ws_here) is None);
                    }
                    return None;
                }
                let v = join_u64(words[pos], words[pos + 1]);
                out.push(GuestValue::Word64(v));
                proof {
                    assert(ws_here[0] == words@[pos as int] && ws_here[1] == words@[pos + 1]);
                    assert(read_value(k, ws_here) == Some(
                        (ValueModel::Word64(v), ws_here.skip(2)),
                    ));
                    assert(ws_here.skip(2) =~= words@.skip(pos + 2));
                }
                pos = pos + 2;
            },
            ValueKind::Uint => {
                if words.len() - pos < 8 {
                    proof {
                        assert(ws_here.len() < 8);
                        assert(dec_values(ks_here, ws_here) is None);
                    }
                    return None;
                }
                let mut limbs: Vec<u64> = Vec::new();
                limbs.push(join_u64(words[pos], words[pos + 1]));
                limbs.push(join_u64(words[pos + 2], words[pos + 3]));
                limbs.push(join_u64(words[pos + 4], words[pos + 5]));
                limbs.push(join_u64(words[pos + 6], words[pos + 7]));
                let ghost lm = limbs@;
                out.push(GuestValue::Uint(U256 { limbs }));
                proof {
                    assert(ws_here[0] == words@[pos as int] && ws_here[1] == words@[pos + 1]
                        && ws_here[2] == words@[pos + 2] && ws_here[3] == words@[pos + 3]
                        && ws_here[4] == words@[pos + 4] && ws_here[5] == words@[pos + 5]
                        && ws_here[6] == words@[pos + 6] && ws_here[7] == words@[pos + 7]);
                    assert(lm =~= seq![
                        u64_of_words(ws_here[0], ws_here[1]),
                        u64_of_words(ws_here[2], ws_here[3]),
                        u64_of_words(ws_here[4], ws_here[5]),
                        u64_of_words(ws_here[6], ws_here[7]),
                    ]);
                    assert(read_value(k, ws_here) == Some((ValueModel::Uint(lm), ws_here.skip(8))));
                    assert(ws_here.skip(8) =~= words@.skip(pos + 8));
                }
                pos = pos + 8;
            },
            ValueKind::Account => {
                if words.len() - pos < 5 {
                    proof {
                        assert(ws_here.len() < 5);
                        assert(dec_values(ks_here, ws_here) is None);
                    }
                    return None;
                }
                let five = copy_words(words, pos, 5);
                let bytes = words_to_bytes(&five);
                out.push(GuestValue::Account(Address { bytes }));
                proof {
                    assert(five@ =~= ws_here.take(5));
                    assert(read_value(k, ws_here) == Some(
                        (ValueModel::Account(le_bytes_of_words(ws_here.take(5))), ws_here.skip(5)),
                    ));
                    assert(ws_here.skip(5) =~= words@.skip(pos + 5));
                }
                pos = pos + 5;
            },
            ValueKind::Digest => {
                if words.len() - pos < 8 {
                    proof {
                        assert(ws_here.len() < 8);
                        assert(dec_values(ks_here, ws_here) is None);
                    }
                    return None;
                }
                let eight = copy_words(words, pos, 8);
                let bytes = words_to_bytes(&eight);
                out.push(GuestValue::Digest(bytes));
                proof {
                    assert(eight@ =~= ws_here.take(8));
                    assert(read_value(k, ws_here) == Some(
                        (ValueModel::Digest(le_bytes_of_words(ws_here.take(8))), ws_here.skip(8)),
                    ));
                    assert(ws_here.skip(8) =~= words@.skip(pos + 8));
                }
                pos = pos + 8;
            },
            ValueKind::Input => {
                if words.len() - pos < 1 {
                    proof {
                        assert(ws_here.len() < 1);
                        assert(dec_values(ks_here, ws_here) is None);
                    }
                    return None;
                }
                let n32 = words[pos];
                let n = n32 as usize;
                if words.len() - pos - 1 < n {
                    proof {
                        assert(ws_here[0] == n32);
                        assert(ws_here.len() < 1 + ws_here[0]);
                        assert(dec_values(ks_here, ws_here) is None);
                    }
                    return None;
                }
                let payload = copy_words(words, pos + 1, n);
                out.push(GuestValue::Input(ViewCallInput { words: payload }));
                proof {
                    assert(ws_here[0] == n32);
                    assert(ws_here.len() >= 1 + ws_here[0]);
                    assert(ws_here.subrange(1, 1 + ws_here[0]) =~= words@.subrange(
                        pos + 1,
                        pos + 1 + n,
                    ));
                    assert(read_value(k, ws_here) == Some(
                        (
                            ValueModel::Input(ws_here.subrange(1, 1 + ws_here[0])),
                            ws_here.skip(1 + ws_here[0]),
                        ),
                    ));
                    assert(ws_here.skip(1 + ws_here[0]) =~= words@.skip(pos + 1 + n));
                }
                pos = pos + 1 + n;
            },
        }
        proof {
            let prev = out@.drop_last();
            let m = out@.last()@;
            assert(out@ =~= prev.push(out@.last()));
            assert(models_of(out@) =~= models_of(prev) + seq![m]);
            assert(ks_here.skip(1) =~= kinds@.skip(i + 1));
            assert(read_value(ks_here[0], ws_here) == Some((m, words@.skip(pos as int))));
            assert(dec_values(ks_here, ws_here) == (match dec_values(
                kinds@.skip(i + 1),
                words@.skip(pos as int),
            ) {
                Option::None => Option::<Seq<ValueModel>>::None,
                Option::Some(tail) => Option::Some(seq![m] + tail),
            }));
            assert(match dec_values(kinds@.skip(i + 1), words@.skip(pos as int)) {
                Option::Some(tail) => models_of(prev) + (seq![m] + tail) =~= models_of(out@) + tail,
                Option::None => true,
            });
        }
        i = i + 1;
    }
    proof {
        assert(kinds@.skip(i as int) =~= Seq::<ValueKind>::empty());
    }
    if pos != words.len() {
        proof {
            assert(words@.skip(pos as int).len() != 0);
        }
        return None;
    }
    proof {
        assert(words@.skip(pos as int).len() == 0);
        assert(models_of(out@) + Seq::<ValueModel>::empty() =~= models_of(out@));
    }
    Some(out)
}

} // verus!
