//! Plain-value models of the on-chain value types the pipeline reads and
//! writes: 20-byte addresses and 256-bit unsigned integers held as four
//! 64-bit limbs, least significant first.

use vstd::prelude::*;

verus! {

/// Copies a vector of plain values element by element.
pub fn clone_vec<T: Copy>(v: &Vec<T>) -> (r: Vec<T>)
    ensures
        r@ == v@,
{
    let mut out: Vec<T> = Vec::new();
    let mut i: usize = 0;
    while i < v.len()
        invariant
            i <= v@.len(),
            out@ == v@.take(i as int),
        decreases v@.len() - i,
    {
        out.push(v[i]);
        proof {
            assert(v@.take(i as int).push(v@[i as int]) =~= v@.take(i + 1 as int));
        }
        i = i + 1;
    }
    proof {
        assert(v@.take(v@.len() as int) =~= v@);
    }
    out
}

/// Compares two byte vectors for equality of their contents.
pub fn bytes_eq(a: &Vec<u8>, b: &Vec<u8>) -> (r: bool)
    ensures
        r == (a@ == b@),
{
    if a.len() != b.len() {
        return false;
    }
    let mut i: usize = 0;
    while i < a.len()
        invariant
            i <= a@.len(),
            a@.len() == b@.len(),
            forall|j: int| 0 <= j < i ==> a@[j] == b@[j],
        decreases a@.len() - i,
    {
        if a[i] != b[i] {
            return false;
        }
        i = i + 1;
    }
    proof {
        assert(a@ =~= b@);
    }
    true
}

/// Compares two limb vectors for equality of their contents.
pub fn limbs_eq(a: &Vec<u64>, b: &Vec<u64>) -> (r: bool)
    ensures
        r == (a@ == b@),
{
    if a.len() != b.len() {
        return false;
    }
    let mut i: usize = 0;
    while i < a.len()
        invariant
            i <= a@.len(),
            a@.len() == b@.len(),
            forall|j: int| 0 <= j < i ==> a@[j] == b@[j],
        decreases a@.len() - i,
    {
        if a[i] != b[i] {
            return false;
        }
        i = i + 1;
    }
    proof {
        assert(a@ =~= b@);
    }
    true
}

/// A 20-byte account or contract address.
#[derive(Debug)]
pub struct Address {
    pub bytes: Vec<u8>,
}

impl View for Address {
    type V = Seq<u8>;

    open spec fn view(&self) -> Seq<u8> {
        self.bytes@
    }
}

impl Address {
    /// An address is exactly 20 bytes long.
    pub open spec fn wf(self) -> bool {
        self@.len() == 20
    }

    /// Builds an address from its raw bytes; refuses any length but 20.
    pub fn new(bytes: Vec<u8>) -> (r: Option<Address>)
        ensures
            bytes@.len() == 20 ==> (r matches Some(a) && a@ == bytes@),
            bytes@.len() != 20 ==> r is None,
    {
        if bytes.len() == 20 {
            Some(Address { bytes })
        } else {
            None
        }
    }

    /// Copies the address.
    pub fn duplicate(&self) -> (r: Address)
        ensures
            r@ == self@,
    {
        Address { bytes: clone_vec(&self.bytes) }
    }

    /// Compares two addresses byte for byte.
    pub fn eq_addr(&self, other: &Address) -> (r: bool)
        ensures
            r == (self@ == other@),
    {
        bytes_eq(&self.bytes, &other.bytes)
    }
}

/// `2^(64 * n)`: the weight of the `n`-th 64-bit limb.
pub open spec fn wpow(n: nat) -> nat
    decreases n,
{
    if n == 0 {
        1
    } else {
        0x10000000000000000 * wpow((n - 1) as nat)
    }
}

/// The value of a little-endian limb sequence.
pub open spec fn nat_of_limbs(l: Seq<u64>) -> nat
    decreases l.len(),
{
    if l.len() == 0 {
        0
    } else {
        (nat_of_limbs(l.drop_last()) + l.last() * wpow((l.len() - 1) as nat)) as nat
    }
}

/// A limb sequence is worth less than the weight just above its top limb.
pub proof fn lemma_nat_of_limbs_bound(l: Seq<u64>)
    ensures
        nat_of_limbs(l) < wpow(l.len()),
    decreases l.len(),
{
    if l.len() == 0 {
        assert(wpow(0) == 1);
    } else {
        let n = (l.len() - 1) as nat;
        lemma_nat_of_limbs_bound(l.drop_last());
        assert(nat_of_limbs(l) == nat_of_limbs(l.drop_last()) + l.last() * wpow(n));
        assert(l.last() * wpow(n) <= 0xffffffffffffffff * wpow(n)) by (nonlinear_arith)
            requires
                l.last() <= 0xffffffffffffffff,
        ;
        assert(wpow(n) + 0xffffffffffffffff * wpow(n) == 0x10000000000000000 * wpow(n))
            by (nonlinear_arith);
        assert(wpow(n + 1) == 0x10000000000000000 * wpow(n));
        assert(wpow(l.len()) == wpow(n + 1));
    }
}

/// A strictly smaller top limb means a strictly smaller value, whatever the
/// lower limbs hold.
pub proof fn lemma_limbs_msb_lt(a: Seq<u64>, b: Seq<u64>)
    requires
        a.len() == b.len(),
        a.len() > 0,
        a.last() < b.last(),
    ensures
        nat_of_limbs(a) < nat_of_limbs(b),
{
    let n = (a.len() - 1) as nat;
    lemma_nat_of_limbs_bound(a.drop_last());
    assert(nat_of_limbs(a) == nat_of_limbs(a.drop_last()) + a.last() * wpow(n));
    assert(nat_of_limbs(b) == nat_of_limbs(b.drop_last()) + b.last() * wpow(n));
    assert(wpow(n) + a.last() * wpow(n) == (a.last() + 1) * wpow(n)) by (nonlinear_arith);
    assert((a.last() + 1) * wpow(n) <= b.last() * wpow(n)) by (nonlinear_arith)
        requires
            a.last() + 1 <= b.last(),
    ;
}

/// With equal top limbs, the order of two limb sequences is the order of
/// their lower limbs.
pub proof fn lemma_limbs_msb_eq(a: Seq<u64>, b: Seq<u64>)
    requires
        a.len() == b.len(),
        a.len() > 0,
        a.last() == b.last(),
    ensures
        (nat_of_limbs(a) <= nat_of_limbs(b)) == (nat_of_limbs(a.drop_last()) <= nat_of_limbs(
            b.drop_last(),
        )),
{
    let n = (a.len() - 1) as nat;
    assert(nat_of_limbs(a) == nat_of_limbs(a.drop_last()) + a.last() * wpow(n));
    assert(nat_of_limbs(b) == nat_of_limbs(b.drop_last()) + b.last() * wpow(n));
}

/// A 256-bit unsigned integer: four 64-bit limbs, least significant first.
#[derive(Debug)]
pub struct U256 {
    pub limbs: Vec<u64>,
}

impl View for U256 {
    type V = Seq<u64>;

    open spec fn view(&self) -> Seq<u64> {
        self.limbs@
    }
}

impl U256 {
    /// A 256-bit value holds exactly four limbs.
    pub open spec fn wf(self) -> bool {
        self@.len() == 4
    }

    /// The numeric value.
    pub open spec fn value(self) -> nat {
        nat_of_limbs(self@)
    }

    /// Builds a value from its limbs, least significant first; refuses any
    /// count but four.
    pub fn new(limbs: Vec<u64>) -> (r: Option<U256>)
        ensures
            limbs@.len() == 4 ==> (r matches Some(v) && v@ == limbs@),
            limbs@.len() != 4 ==> r is None,
    {
        if limbs.len() == 4 {
            Some(U256 { limbs })
        } else {
            None
        }
    }

    /// The 256-bit value of a 64-bit integer.
    pub fn from_u64(v: u64) -> (r: U256)
        ensures
            r.wf(),
            r@ == seq![v, 0u64, 0u64, 0u64],
            r.value() == v,
    {
        let mut limbs: Vec<u64> = Vec::new();
        limbs.push(v);
        limbs.push(0);
        limbs.push(0);
        limbs.push(0);
        proof {
            assert(limbs@ =~= seq![v, 0u64, 0u64, 0u64]);
            lemma_nat_of_small_limbs(v);
        }
        U256 { limbs }
    }

    /// Copies the value.
    pub fn duplicate(&self) -> (r: U256)
        ensures
            r@ == self@,
    {
        U256 { limbs: clone_vec(&self.limbs) }
    }

    /// Compares two values limb for limb.
    pub fn eq_u256(&self, other: &U256) -> (r: bool)
        requires
            self.wf(),
            other.wf(),
        ensures
            r == (self@ == other@),
    {
        let r = self.limbs[0] == other.limbs[0] && self.limbs[1] == other.limbs[1]
            && self.limbs[2] == other.limbs[2] && self.limbs[3] == other.limbs[3];
        proof {
            if r {
                assert(self@ =~= other@);
            }
        }
        r
    }

    /// Numeric order: `self <= other` as 256-bit naturals.
    pub fn le(&self, other: &U256) -> (r: bool)
        requires
            self.wf(),
            other.wf(),
        ensures
            r == (self.value() <= other.value()),
    {
        let a = &self.limbs;
        let b = &other.limbs;
        proof {
            assert(self@.last() == self@[3] && other@.last() == other@[3]);
        }
        if a[3] != b[3] {
            proof {
                if self@[3] < other@[3] {
                    lemma_limbs_msb_lt(self@, other@);
                } else {
                    lemma_limbs_msb_lt(other@, self@);
                }
            }
            a[3] < b[3]
        } else {
            let ghost ad = self@.drop_last();
            let ghost bd = other@.drop_last();
            proof {
                lemma_limbs_msb_eq(self@, other@);
                assert(ad.last() == self@[2] && bd.last() == other@[2]);
            }
            if a[2] != b[2] {
                proof {
                    if self@[2] < other@[2] {
                        lemma_limbs_msb_lt(ad, bd);
                    } else {
                        lemma_limbs_msb_lt(bd, ad);
                    }
                }
                a[2] < b[2]
            } else {
                let ghost ad2 = ad.drop_last();
                let ghost bd2 = bd.drop_last();
                proof {
                    lemma_limbs_msb_eq(ad, bd);
                    assert(ad2.last() == self@[1] && bd2.last() == other@[1]);
                }
                if a[1] != b[1] {
                    proof {
                        if self@[1] < other@[1] {
                            lemma_limbs_msb_lt(ad2, bd2);
                        } else {
                            lemma_limbs_msb_lt(bd2, ad2);
                        }
                    }
                    a[1] < b[1]
                } else {
                    proof {
                        lemma_limbs_msb_eq(ad2, bd2);
                        let a1 = ad2.drop_last();
                        let b1 = bd2.drop_last();
                        assert(a1.last() == self@[0] && b1.last() == other@[0]);
                        assert(nat_of_limbs(a1) == nat_of_limbs(a1.drop_last()) + a1.last()
                            * wpow(0));
                        assert(nat_of_limbs(b1) == nat_of_limbs(b1.drop_last()) + b1.last()
                            * wpow(0));
                        assert(a1.drop_last().len() == 0 && b1.drop_last().len() == 0);
                        assert(nat_of_limbs(a1.drop_last()) == 0 && nat_of_limbs(b1.drop_last())
                            == 0);
                        assert(wpow(0) == 1);
                    }
                    a[0] <= b[0]
                }
            }
        }
    }
}

/// The value of `[v, 0, 0, 0]` is `v`.
proof fn lemma_nat_of_small_limbs(v: u64)
    ensures
        nat_of_limbs(seq![v, 0u64, 0u64, 0u64]) == v,
{
    let l3 = seq![v, 0u64, 0u64, 0u64];
    let l2 = seq![v, 0u64, 0u64];
    let l1 = seq![v, 0u64];
    let l0 = seq![v];
    assert(l3.drop_last() =~= l2 && l2.drop_last() =~= l1 && l1.drop_last() =~= l0);
    assert(l0.drop_last() =~= Seq::<u64>::empty());
    assert(l3.last() == 0u64 && l2.last() == 0u64 && l1.last() == 0u64 && l0.last() == v);
    assert(nat_of_limbs(Seq::<u64>::empty()) == 0);
    assert(wpow(0) == 1);
    assert(v * wpow(0) == v && 0u64 * wpow(1) == 0 && 0u64 * wpow(2) == 0 && 0u64 * wpow(3) == 0);
    assert(nat_of_limbs(l0) == v);
    assert(nat_of_limbs(l1) == nat_of_limbs(l0) + 0 * wpow(1));
    assert(nat_of_limbs(l2) == nat_of_limbs(l1) + 0 * wpow(2));
    assert(nat_of_limbs(l3) == nat_of_limbs(l2) + 0 * wpow(3));
    assert(nat_of_limbs(l3) == v);
}

} // verus!
