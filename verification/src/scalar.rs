//! The scalar field of BN254, as it appears on the wire: canonical
//! little-endian 32-byte encodings of integers below the group order.

use vstd::prelude::*;

verus! {

/// 256 raised to a power: the weight of the byte at a given position in a
/// little-endian byte string.
pub open spec fn pow256(n: nat) -> nat
    decreases n,
{
    if n == 0 {
        1
    } else {
        256 * pow256((n - 1) as nat)
    }
}

pub proof fn lemma_pow256_pos(n: nat)
    ensures
        pow256(n) >= 1,
    decreases n,
{
    if n > 0 {
        lemma_pow256_pos((n - 1) as nat);
    }
}

pub proof fn lemma_pow256_adds(a: nat, b: nat)
    ensures
        pow256(a + b) == pow256(a) * pow256(b),
    decreases a,
{
    if a == 0 {
        assert(pow256(0) == 1);
    } else {
        lemma_pow256_adds((a - 1) as nat, b);
        assert(pow256(a) == 256 * pow256((a - 1) as nat));
        assert(pow256(((a - 1) + b) as nat) == pow256((a - 1) as nat) * pow256(b));
        assert(pow256(a + b) == 256 * pow256(((a - 1) + b) as nat));
        assert(256 * (pow256((a - 1) as nat) * pow256(b)) == (256 * pow256((a - 1) as nat))
            * pow256(b)) by (nonlinear_arith)
            requires
                pow256((a - 1) as nat) >= 0,
                pow256(b) >= 0,
        ;
    }
}

/// The integer that a little-endian byte string stands for.
pub open spec fn le_bytes_value(s: Seq<u8>) -> nat
    decreases s.len(),
{
    if s.len() == 0 {
        0
    } else {
        s[0] as nat + 256 * le_bytes_value(s.skip(1))
    }
}

/// The order of the BN254 scalar field,
/// 0x30644e72e131a029b85045b68181585d2833e84879b9709143e1f593f0000001,
/// written little-endian byte by byte.
pub open spec fn fr_modulus_le_bytes() -> Seq<u8> {
    seq![
        0x01u8, 0x00, 0x00, 0xf0, 0x93, 0xf5, 0xe1, 0x43,
        0x91, 0x70, 0xb9, 0x79, 0x48, 0xe8, 0x33, 0x28,
        0x5d, 0x58, 0x81, 0x81, 0xb6, 0x45, 0x50, 0xb8,
        0x29, 0xa0, 0x31, 0xe1, 0x72, 0x4e, 0x64, 0x30,
    ]
}

/// The order of the BN254 scalar field as an integer.
pub open spec fn fr_modulus() -> nat {
    le_bytes_value(fr_modulus_le_bytes())
}

pub proof fn lemma_le_bytes_value_zero(s: Seq<u8>)
    requires
        forall|j: int| 0 <= j < s.len() ==> s[j] == 0,
    ensures
        le_bytes_value(s) == 0,
    decreases s.len(),
{
    if s.len() > 0 {
        lemma_le_bytes_value_zero(s.skip(1));
    }
}

pub proof fn lemma_le_bytes_value_bound(s: Seq<u8>)
    ensures
        le_bytes_value(s) < pow256(s.len() as nat),
    decreases s.len(),
{
    if s.len() == 0 {
    } else {
        lemma_le_bytes_value_bound(s.skip(1));
    }
}

pub proof fn lemma_le_bytes_value_split(s: Seq<u8>, k: int)
    requires
        0 <= k <= s.len(),
    ensures
        le_bytes_value(s) == le_bytes_value(s.take(k)) + pow256(k as nat) * le_bytes_value(
            s.skip(k),
        ),
    decreases k,
{
    if k == 0 {
        assert(s.take(0) =~= Seq::<u8>::empty());
        assert(s.skip(0) =~= s);
        assert(le_bytes_value(Seq::<u8>::empty()) == 0);
        assert(pow256(0) == 1);
        assert(le_bytes_value(s.take(k)) == 0);
        assert(pow256(k as nat) == 1);
        assert(le_bytes_value(s) == le_bytes_value(s.take(k)) + pow256(k as nat) * le_bytes_value(
            s.skip(k),
        ));
    } else {
        lemma_le_bytes_value_split(s.skip(1), k - 1);
        assert(s.skip(1).take(k - 1) =~= s.take(k).skip(1));
        assert(s.skip(1).skip(k - 1) =~= s.skip(k));
        assert(s.take(k)[0] == s[0]);
        assert(le_bytes_value(s.take(k)) == s[0] as nat + 256 * le_bytes_value(
            s.take(k).skip(1),
        ));
        let rest = le_bytes_value(s.skip(k));
        let q = pow256((k - 1) as nat);
        assert(pow256(k as nat) == 256 * q);
        assert(le_bytes_value(s) == s[0] as nat + 256 * (le_bytes_value(s.take(k).skip(1)) + q
            * rest));
        assert(256 * (le_bytes_value(s.take(k).skip(1)) + q * rest) == 256 * le_bytes_value(
            s.take(k).skip(1),
        ) + (256 * q) * rest) by (nonlinear_arith)
            requires
                le_bytes_value(s.take(k).skip(1)) >= 0,
                q >= 0,
                rest >= 0,
        ;
        assert(le_bytes_value(s) == s[0] as nat + 256 * le_bytes_value(s.take(k).skip(1)) + (256
            * q) * rest);
        assert(le_bytes_value(s) == le_bytes_value(s.take(k)) + (256 * q) * rest);
        assert(le_bytes_value(s) == le_bytes_value(s.take(k)) + pow256(k as nat) * rest);
    }
}

proof fn lemma_le_bytes_value_push(s: Seq<u8>, b: u8)
    ensures
        le_bytes_value(s.push(b)) == le_bytes_value(s) + pow256(s.len() as nat) * (b as nat),
{
    lemma_le_bytes_value_split(s.push(b), s.len() as int);
    assert(s.push(b).take(s.len() as int) =~= s);
    assert(s.push(b).skip(s.len() as int) =~= seq![b]);
    assert(seq![b].skip(1) =~= Seq::<u8>::empty());
    assert(le_bytes_value(Seq::<u8>::empty()) == 0);
    assert(le_bytes_value(seq![b]) == b as nat);
}

/// Little-endian strings of equal length compare as integers the way their
/// bytes compare from the most significant end down.
proof fn lemma_le_bytes_value_lex(s: Seq<u8>, t: Seq<u8>, i: int)
    requires
        s.len() == t.len(),
        0 <= i < s.len(),
        s[i] < t[i],
        forall|j: int| i < j < s.len() ==> s[j] == t[j],
    ensures
        le_bytes_value(s) < le_bytes_value(t),
{
    lemma_le_bytes_value_split(s, i);
    lemma_le_bytes_value_split(t, i);
    lemma_le_bytes_value_bound(s.take(i));
    lemma_pow256_pos(i as nat);
    assert(s.skip(i)[0] == s[i]);
    assert(t.skip(i)[0] == t[i]);
    assert(s.skip(i).skip(1) =~= t.skip(i).skip(1));
    let rest = le_bytes_value(s.skip(i).skip(1));
    assert(le_bytes_value(s.skip(i)) == s[i] as nat + 256 * rest);
    assert(le_bytes_value(t.skip(i)) == t[i] as nat + 256 * rest);
    let p = pow256(i as nat);
    assert(le_bytes_value(s) < p + p * (s[i] as nat + 256 * rest));
    assert(p + p * (s[i] as nat + 256 * rest) <= p * (t[i] as nat + 256 * rest))
        by (nonlinear_arith)
        requires
            p >= 1,
            s[i] as nat + 1 <= t[i] as nat,
            rest >= 0,
    ;
    assert(le_bytes_value(t) >= p * (t[i] as nat + 256 * rest));
}

/// Any value that fits in sixteen bytes lies below the field order.
pub proof fn lemma_fr_modulus_large()
    ensures
        fr_modulus() > pow256(16),
{
    let m = fr_modulus_le_bytes();
    lemma_le_bytes_value_split(m, 31);
    assert(m.skip(31) =~= seq![0x30u8]);
    assert(seq![0x30u8].skip(1) =~= Seq::<u8>::empty());
    assert(le_bytes_value(Seq::<u8>::empty()) == 0);
    assert(le_bytes_value(seq![0x30u8]) == 0x30);
    assert(le_bytes_value(m.skip(31)) == 0x30);
    lemma_pow256_adds(16, 15);
    lemma_pow256_pos(31);
    lemma_pow256_pos(16);
    lemma_pow256_pos(14);
    assert(pow256(15) == 256 * pow256(14));
    assert(pow256(16) * pow256(15) >= pow256(16) * 256) by (nonlinear_arith)
        requires
            pow256(15) >= 256,
            pow256(16) >= 1,
    ;
    assert(pow256(31) * le_bytes_value(m.skip(31)) >= pow256(31)) by (nonlinear_arith)
        requires
            pow256(31) >= 1,
            le_bytes_value(m.skip(31)) >= 1,
    ;
}

/// An element of the BN254 scalar field, held as its canonical
/// little-endian encoding.
#[derive(Clone, Copy, Debug, PartialEq, Eq)]
pub struct Scalar {
    bytes: [u8; 32],
}

impl View for Scalar {
    type V = Seq<u8>;

    closed spec fn view(&self) -> Seq<u8> {
        self.bytes@
    }
}

impl Scalar {
    /// The integer this scalar stands for.
    pub open spec fn value(&self) -> nat {
        le_bytes_value(self@)
    }

    /// A scalar is well formed when its encoding is canonical: the value
    /// lies below the field order.
    pub open spec fn wf(&self) -> bool {
        self@.len() == 32 && self.value() < fr_modulus()
    }

    /// The all-zero scalar.
    pub fn zero() -> (r: Scalar)
        ensures
            r.wf(),
            r.value() == 0,
            forall|i: int| 0 <= i < 32 ==> r@[i] == 0u8,
    {
        let r = Scalar { bytes: [0u8; 32] };
        proof {
            lemma_le_bytes_value_zero(r@);
            lemma_fr_modulus_large();
            lemma_pow256_pos(16);
        }
        r
    }

    /// Reads a scalar from its 32-byte little-endian encoding; rejects a
    /// non-canonical encoding (a value at or above the field order).
    pub fn from_bytes(bytes: &[u8; 32]) -> (r: Option<Scalar>)
        ensures
            r is Some <==> le_bytes_value(bytes@) < fr_modulus(),
            r matches Some(s) ==> s@ == bytes@ && s.wf(),
    {
        if is_canonical_bytes(bytes) {
            Some(Scalar { bytes: *bytes })
        } else {
            None
        }
    }

    /// The canonical 32-byte little-endian encoding.
    pub fn to_bytes(&self) -> (r: [u8; 32])
        ensures
            r@ == self@,
    {
        self.bytes
    }

    /// The scalar congruent to a 128-bit integer.
    pub fn from_u128(v: u128) -> (r: Scalar)
        ensures
            r.wf(),
            r.value() == v,
    {
        let mut bytes = [0u8; 32];
        let mut x: u128 = v;
        let mut i: usize = 0;
        proof {
            assert(bytes@.take(0) =~= Seq::<u8>::empty());
            assert(pow256(0) == 1);
            lemma_pow256_16_is_u128_range();
        }
        while i < 16
            invariant
                i <= 16,
                x < pow256((16 - i) as nat),
                le_bytes_value(bytes@.take(i as int)) + pow256(i as nat) * x == v,
                forall|j: int| i <= j < 32 ==> bytes@[j] == 0,
            decreases 16 - i,
        {
            let ghost prefix = bytes@.take(i as int);
            let ghost x0 = x;
            let b: u8 = #[verifier::truncate] ((x & 0xff) as u8);
            bytes[i] = b;
            x = x >> 8;
            proof {
                assert(b == x0 & 0xff && x0 & 0xff < 256 && x0 == (x0 & 0xff) + 256 * (x0 >> 8))
                    by (bit_vector)
                    requires
                        b == #[verifier::truncate] ((x0 & 0xff) as u8) && x == x0 >> 8,
                ;
                assert(bytes@.take(i + 1) =~= prefix.push(b));
                lemma_le_bytes_value_push(prefix, b);
                let p = pow256(i as nat);
                assert(pow256((i + 1) as nat) == 256 * p);
                assert(p * (b as nat) + (256 * p) * x == p * (b as nat + 256 * x))
                    by (nonlinear_arith);
                assert(pow256((16 - i) as nat) == 256 * pow256((16 - (i + 1)) as nat));
                assert(x0 >> 8 == x0 / 256) by (bit_vector);
                assert(x0 / 256 < pow256((16 - (i + 1)) as nat)) by (nonlinear_arith)
                    requires
                        x0 < 256 * pow256((16 - (i + 1)) as nat),
                ;
            }
            i = i + 1;
        }
        proof {
            lemma_pow256_pos(0);
            assert(x == 0);
            lemma_le_bytes_value_split(bytes@, 16);
            lemma_le_bytes_value_zero(bytes@.skip(16));
            assert(le_bytes_value(bytes@) == v);
            lemma_fr_modulus_large();
            lemma_pow256_16_is_u128_range();
        }
        Scalar { bytes }
    }


    /// Whether two scalars carry the same encoding, byte for byte.
    #[verifier::loop_isolation(false)]
    pub fn eq_bytes(&self, other: &Scalar) -> (r: bool)
        ensures
            r == (self@ == other@),
    {
        let mut i: usize = 0;
        while i < 32
            invariant
                i <= 32,
                forall|j: int| 0 <= j < i ==> self@[j] == other@[j],
            decreases 32 - i,
        {
            if self.bytes[i] != other.bytes[i] {
                return false;
            }
            i = i + 1;
        }
        proof {
            assert(self@ =~= other@);
        }
        true
    }

    /// The scalar congruent to a 64-bit integer.
    pub fn from_u64(v: u64) -> (r: Scalar)
        ensures
            r.wf(),
            r.value() == v,
    {
        Scalar::from_u128(v as u128)
    }
}

/// Sixteen bytes hold exactly the 128-bit range.
proof fn lemma_pow256_16_is_u128_range()
    ensures
        pow256(16) == 0x1_0000_0000_0000_0000_0000_0000_0000_0000,
{
    assert(pow256(0) == 1);
    assert(pow256(1) == 256);
    lemma_pow256_adds(1, 1);
    assert(pow256(2) == 0x1_0000);
    lemma_pow256_adds(2, 2);
    assert(pow256(4) == 0x1_0000_0000);
    lemma_pow256_adds(4, 4);
    assert(pow256(8) == 0x1_0000_0000_0000_0000);
    lemma_pow256_adds(8, 8);
}

/// Decides whether 32 little-endian bytes are the canonical encoding of a
/// field element, that is whether their value lies below the field order.
pub fn is_canonical_bytes(b: &[u8; 32]) -> (r: bool)
    ensures
        r == (le_bytes_value(b@) < fr_modulus()),
{
    let m: [u8; 32] = [
        0x01u8, 0x00, 0x00, 0xf0, 0x93, 0xf5, 0xe1, 0x43,
        0x91, 0x70, 0xb9, 0x79, 0x48, 0xe8, 0x33, 0x28,
        0x5d, 0x58, 0x81, 0x81, 0xb6, 0x45, 0x50, 0xb8,
        0x29, 0xa0, 0x31, 0xe1, 0x72, 0x4e, 0x64, 0x30,
    ];
    proof {
        assert(m@ =~= fr_modulus_le_bytes());
    }
    let mut i: usize = 32;
    while i > 0
        invariant
            i <= 32,
            m@ == fr_modulus_le_bytes(),
            forall|j: int| i <= j < 32 ==> b@[j] == fr_modulus_le_bytes()[j],
        decreases i,
    {
        i = i - 1;
        if b[i] < m[i] {
            proof {
                lemma_le_bytes_value_lex(b@, fr_modulus_le_bytes(), i as int);
            }
            return true;
        }
        if b[i] > m[i] {
            proof {
                lemma_le_bytes_value_lex(fr_modulus_le_bytes(), b@, i as int);
            }
            return false;
        }
    }
    proof {
        assert(b@ =~= fr_modulus_le_bytes());
    }
    false
}


/// Zero bytes appended at the most significant end leave the value as it
/// was.
pub proof fn lemma_le_bytes_value_zero_pad(s: Seq<u8>, z: Seq<u8>)
    requires
        forall|i: int| 0 <= i < z.len() ==> z[i] == 0,
    ensures
        le_bytes_value(s + z) == le_bytes_value(s),
{
    lemma_le_bytes_value_split(s + z, s.len() as int);
    assert((s + z).take(s.len() as int) =~= s);
    assert((s + z).skip(s.len() as int) =~= z);
    lemma_le_bytes_value_zero(z);
}

/// Relies on halo2curves bn256::Fr::from_uniform_bytes, which reduces a
/// little-endian 512-bit integer modulo the field order, and to_repr, its
/// canonical little-endian encoding.
#[verifier::external_body]
pub fn wide_to_scalar(b: &[u8; 64]) -> (r: Scalar)
    ensures
        r.value() == le_bytes_value(b@) % fr_modulus(),
        r.wf(),
{
    let f = <halo2curves::bn256::Fr as halo2curves::ff::FromUniformBytes<64>>::from_uniform_bytes(
        b,
    );
    let repr = <halo2curves::bn256::Fr as halo2curves::ff::PrimeField>::to_repr(&f);
    let bytes: [u8; 32] = repr.into();
    Scalar { bytes }
}

} // verus!
