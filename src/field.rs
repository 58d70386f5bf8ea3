use vstd::prelude::*;
use vstd::arithmetic::power::pow;
use ark_bls12_381::Fr;
use ark_ff::{BigInteger, Field, PrimeField};
use crate::utils::le_value;

verus! {

/// The order of the scalar field of BLS12-381, as 32 little-endian bytes.
pub const MODULUS_LE: [u8; 32] = [
    0x01, 0x00, 0x00, 0x00, 0xff, 0xff, 0xff, 0xff, 0xfe, 0x5b, 0xfe, 0xff, 0x02, 0xa4, 0xbd, 0x53,
    0x05, 0xd8, 0xa1, 0x09, 0x08, 0xd8, 0x39, 0x33, 0x48, 0x7d, 0x9d, 0x29, 0x53, 0xa7, 0xed, 0x73,
];

/// The order of the scalar field of BLS12-381.
pub open spec fn modulus() -> nat {
    le_value(MODULUS_LE@)
}

/// Errors met while reading encoded values.
#[derive(Debug, Clone, Copy, PartialEq, Eq)]
pub enum DecodingError {
    MalformedBytes,
}

/// An element of the scalar field, held as its canonical 32-byte
/// little-endian encoding.
#[derive(Debug, Clone, Copy, PartialEq, Eq)]
pub struct FieldElement {
    pub(crate) bytes: [u8; 32],
}

impl FieldElement {
    pub open spec fn value(self) -> nat {
        le_value(self.spec_bytes())
    }

    pub open spec fn wf(self) -> bool {
        self.value() < modulus()
    }

    pub closed spec fn spec_bytes(self) -> Seq<u8> {
        self.bytes@
    }

    /// The integer `v` as a field element.
    pub fn from_u64(v: u64) -> (r: FieldElement)
        ensures
            r.value() == v as nat,
            r.wf(),
    {
        fe_from_u64(v)
    }

    /// Whether two elements are equal.
    pub fn equals(&self, other: &FieldElement) -> (r: bool)
        ensures
            r == (self.value() == other.value()),
    {
        !le_less(&self.bytes, &other.bytes) && !le_less(&other.bytes, &self.bytes)
    }

    /// Whether this is the zero element.
    pub fn is_zero(&self) -> (r: bool)
        ensures
            r == (self.value() == 0),
    {
        let mut i: usize = 0;
        while i < 32
            invariant
                i <= 32,
                forall|j: int| 0 <= j < i ==> self.bytes@[j] == 0,
            decreases 32 - i,
        {
            if self.bytes[i] != 0 {
                proof {
                    lemma_le_value_split(self.bytes@, i as int);
                    let hi = self.bytes@.subrange(i as int, 32);
                    assert(hi[0] != 0);
                    assert(le_value(hi) > 0);
                    assert(pow(256, i as nat) > 0) by {
                        vstd::arithmetic::power::lemma_pow_positive(256, i as nat);
                    }
                    assert(pow(256, i as nat) * le_value(hi) > 0) by (nonlinear_arith)
                        requires
                            pow(256, i as nat) > 0,
                            le_value(hi) > 0,
                    ;
                }
                return false;
            }
            i = i + 1;
        }
        proof {
            lemma_le_value_zero(self.bytes@);
        }
        true
    }

    /// The canonical encoding.
    pub fn to_bytes(&self) -> (r: [u8; 32])
        ensures
            r@ == self.spec_bytes(),
    {
        self.bytes
    }

    /// Reads a canonical encoding; a value at or above the modulus is refused.
    pub fn from_bytes(bytes: &[u8; 32]) -> (r: Result<FieldElement, DecodingError>)
        ensures
            le_value(bytes@) < modulus() ==> r is Ok && r.unwrap().spec_bytes() == bytes@,
            le_value(bytes@) >= modulus() ==> r == Err::<FieldElement, DecodingError>(DecodingError::MalformedBytes),
    {
        let m = MODULUS_LE;
        if le_less(bytes, &m) {
            Ok(FieldElement { bytes: *bytes })
        } else {
            Err(DecodingError::MalformedBytes)
        }
    }
}

/// An element is determined by its encoding: what `from_bytes` reads back
/// from `to_bytes` is the element written.
pub proof fn lemma_field_round_trip(x: FieldElement, y: FieldElement)
    requires
        x.wf(),
        y.spec_bytes() == x.spec_bytes(),
    ensures
        y == x,
{
    assert forall|i: int| 0 <= i < 32 implies y.bytes[i] == x.bytes[i] by {
        vstd::array::lemma_array_index(y.bytes, i);
        vstd::array::lemma_array_index(x.bytes, i);
    }
    assert(y.bytes =~= x.bytes);
}

/// An element has at most one inverse modulo the field order.
pub proof fn lemma_inverse_unique(a: nat, x: nat, y: nat)
    requires
        x < modulus(),
        y < modulus(),
        mod_mul(a, x) == 1,
        mod_mul(a, y) == 1,
    ensures
        x == y,
{
    lemma_modulus_large();
    let m = modulus() as int;
    vstd::arithmetic::div_mod::lemma_mul_mod_noop_right(x as int, (a * y) as int, m);
    vstd::arithmetic::div_mod::lemma_mul_mod_noop_right(y as int, (a * x) as int, m);
    vstd::arithmetic::div_mod::lemma_small_mod(x, modulus());
    vstd::arithmetic::div_mod::lemma_small_mod(y, modulus());
    assert(x * (a * y) == y * (a * x)) by (nonlinear_arith);
}

/// Zero has no inverse.
pub proof fn lemma_zero_no_inverse(x: nat)
    ensures
        mod_mul(0, x) == 0,
{
    lemma_modulus_large();
    assert(0 * x == 0);
    vstd::arithmetic::div_mod::lemma_small_mod(0, modulus());
}

proof fn lemma_top_limb_small(b: Seq<u8>, v: u64)
    requires
        b.len() == 32,
        le_value(b) == v as nat,
    ensures
        le_value(b) < modulus(),
{
    let m = MODULUS_LE@;
    lemma_le_value_split(m, 31);
    let top = m.subrange(31, 32);
    assert(top.drop_first().len() == 0);
    assert(le_value(top.drop_first()) == 0);
    assert(top[0] == m[31]);
    assert(m[31] == 0x73);
    assert(le_value(top) == 0x73);
    assert(pow(256, 31) >= 0x1_0000_0000_0000_0000) by {
        vstd::arithmetic::power::lemma_pow_increases(256, 8, 31);
        reveal_with_fuel(pow, 9);
    }
    assert(pow(256, 31) * 0x73 >= 0x1_0000_0000_0000_0000) by (nonlinear_arith)
        requires
            pow(256, 31) >= 0x1_0000_0000_0000_0000,
    ;
}

/// A value below the modulus has a top byte of at most `0x73`.
pub proof fn lemma_top_byte(b: Seq<u8>)
    requires
        b.len() == 32,
        le_value(b) < modulus(),
    ensures
        b[31] <= 0x73,
{
    let m = MODULUS_LE@;
    assert(m[31] == 0x73);
    assert(b.subrange(32, 32) =~= m.subrange(32, 32));
    if b[31] != m[31] {
        lemma_digit_decides(b, m, 31);
    }
}

/// An encoding is 32 bytes long.
pub proof fn lemma_field_len(x: FieldElement)
    ensures
        x.spec_bytes().len() == 32,
{
}

pub open spec fn mod_add(a: nat, b: nat) -> nat {
    (a + b) % modulus()
}

pub open spec fn mod_sub(a: nat, b: nat) -> nat {
    ((a + modulus() - b) % (modulus() as int)) as nat
}

pub open spec fn mod_mul(a: nat, b: nat) -> nat {
    (a * b) % modulus()
}

/// `x` to the power `k`, modulo the field order.
pub open spec fn mod_pow(x: nat, k: nat) -> nat
    decreases k,
{
    if k == 0 {
        1
    } else {
        mod_mul(x, mod_pow(x, (k - 1) as nat))
    }
}

/// Relies on `Field::pow`: `a` to the power `e`.
#[verifier::external_body]
pub(crate) fn fe_pow(a: &FieldElement, e: u64) -> (r: FieldElement)
    requires
        a.wf(),
    ensures
        r.value() == mod_pow(a.value(), e as nat),
        r.wf(),
{
    let x = Fr::from_le_bytes_mod_order(&a.bytes).pow([e]);
    FieldElement { bytes: x.into_bigint().to_bytes_le().try_into().unwrap() }
}

/// The integer `v` as a field element: its eight little-endian bytes, then
/// zeros.
pub(crate) fn fe_from_u64(v: u64) -> (r: FieldElement)
    ensures
        r.value() == v as nat,
        r.wf(),
{
    let mut bytes: [u8; 32] = [0u8; 32];
    let mut x: u64 = v;
    let mut i: usize = 0;
    proof {
        assert(pow(256, 8) == 0x1_0000_0000_0000_0000) by {
            reveal_with_fuel(pow, 9);
        }
        assert(pow(256, 0) == 1) by {
            reveal(pow);
        }
        assert(bytes@.subrange(0, 0).len() == 0);
        assert(le_value(bytes@.subrange(0, 0)) == 0);
    }
    while i < 8
        invariant
            i <= 8,
            v as nat == le_value(bytes@.subrange(0, i as int)) + pow(256, i as nat) * x,
            forall|j: int| i <= j < 32 ==> bytes@[j] == 0,
            x < pow(256, (8 - i) as nat),
        decreases 8 - i,
    {
        let byte = (x % 256) as u8;
        proof {
            let s = bytes@.update(i as int, byte);
            lemma_le_value_split(s.subrange(0, i + 1), i as int);
            assert(s.subrange(0, i + 1).subrange(0, i as int) =~= bytes@.subrange(0, i as int));
            let one = s.subrange(0, i + 1).subrange(i as int, i + 1);
            assert(one.drop_first().len() == 0);
            assert(le_value(one.drop_first()) == 0);
            assert(one[0] == byte);
            assert(le_value(one) == byte as nat);
            assert(pow(256, (i + 1) as nat) == pow(256, i as nat) * 256) by {
                reveal(pow);
                assert(pow(256, (i + 1) as nat) == 256 * pow(256, i as nat));
            }
            assert(pow(256, (8 - i) as nat) == 256 * pow(256, (8 - i - 1) as nat)) by {
                reveal(pow);
            }
            let p = pow(256, i as nat);
            assert(p * x == p * byte + (p * 256) * (x / 256)) by (nonlinear_arith)
                requires
                    byte == x % 256,
            ;
            assert(x / 256 < pow(256, (8 - i - 1) as nat)) by (nonlinear_arith)
                requires
                    x < 256 * pow(256, (8 - i - 1) as nat),
            ;
        }
        bytes[i] = byte;
        x = x / 256;
        i = i + 1;
    }
    proof {
        assert(pow(256, 0) == 1) by {
            reveal(pow);
        }
        assert(x == 0);
        lemma_le_value_split(bytes@, 8);
        assert(bytes@.subrange(0, 8) == bytes@.subrange(0, 8));
        lemma_le_value_zero(bytes@.subrange(8, 32));
        lemma_modulus_large();
        lemma_top_limb_small(bytes@, v);
    }
    FieldElement { bytes }
}

/// Relies on `Fr`'s `+`: addition modulo the field order.
#[verifier::external_body]
pub(crate) fn fe_add(a: &FieldElement, b: &FieldElement) -> (r: FieldElement)
    requires
        a.wf(),
        b.wf(),
    ensures
        r.value() == mod_add(a.value(), b.value()),
        r.wf(),
{
    let x = Fr::from_le_bytes_mod_order(&a.bytes) + Fr::from_le_bytes_mod_order(&b.bytes);
    let out = x.into_bigint().to_bytes_le();
    let mut bytes = [0u8; 32];
    bytes.copy_from_slice(&out);
    FieldElement { bytes }
}

/// Relies on `Fr`'s `-`: subtraction modulo the field order.
#[verifier::external_body]
pub(crate) fn fe_sub(a: &FieldElement, b: &FieldElement) -> (r: FieldElement)
    requires
        a.wf(),
        b.wf(),
    ensures
        r.value() == mod_sub(a.value(), b.value()),
        r.wf(),
{
    let x = Fr::from_le_bytes_mod_order(&a.bytes) - Fr::from_le_bytes_mod_order(&b.bytes);
    let out = x.into_bigint().to_bytes_le();
    let mut bytes = [0u8; 32];
    bytes.copy_from_slice(&out);
    FieldElement { bytes }
}

/// Relies on `Fr`'s `*`: multiplication modulo the field order.
#[verifier::external_body]
pub(crate) fn fe_mul(a: &FieldElement, b: &FieldElement) -> (r: FieldElement)
    requires
        a.wf(),
        b.wf(),
    ensures
        r.value() == mod_mul(a.value(), b.value()),
        r.wf(),
{
    let x = Fr::from_le_bytes_mod_order(&a.bytes) * Fr::from_le_bytes_mod_order(&b.bytes);
    let out = x.into_bigint().to_bytes_le();
    let mut bytes = [0u8; 32];
    bytes.copy_from_slice(&out);
    FieldElement { bytes }
}

/// Relies on `Field::inverse`: no inverse for zero, else the element whose
/// product with the input is one.
#[verifier::external_body]
pub(crate) fn fe_inverse(a: &FieldElement) -> (r: Option<FieldElement>)
    requires
        a.wf(),
    ensures
        a.value() == 0 <==> r.is_none(),
        r matches Some(x) ==> x.wf() && mod_mul(a.value(), x.value()) == 1,
{
    match Fr::from_le_bytes_mod_order(&a.bytes).inverse() {
        Some(x) => {
            let out = x.into_bigint().to_bytes_le();
            let mut bytes = [0u8; 32];
            bytes.copy_from_slice(&out);
            Some(FieldElement { bytes })
        },
        None => None,
    }
}

proof fn lemma_le_value_split(s: Seq<u8>, k: int)
    requires
        0 <= k <= s.len(),
    ensures
        le_value(s) == le_value(s.subrange(0, k)) + pow(256, k as nat) * le_value(s.subrange(k, s.len() as int)),
    decreases k,
{
    reveal(pow);
    if k == 0 {
        assert(s.subrange(0, s.len() as int) =~= s);
        assert(le_value(s.subrange(0, 0)) == 0);
    } else {
        let t = s.drop_first();
        lemma_le_value_split(t, k - 1);
        assert(t.subrange(0, k - 1) =~= s.subrange(0, k).drop_first());
        assert(t.subrange(k - 1, t.len() as int) =~= s.subrange(k, s.len() as int));
        let a = le_value(t.subrange(0, k - 1));
        let b = le_value(s.subrange(k, s.len() as int));
        let p = pow(256, (k - 1) as nat);
        assert(256 * (a + p * b) == 256 * a + (256 * p) * b) by (nonlinear_arith);
    }
}

/// The modulus is far above the small constants that the protocol uses.
pub proof fn lemma_modulus_large()
    ensures
        modulus() >= 0x73,
{
    let s = MODULUS_LE@;
    lemma_le_value_split(s, 31);
    let top = s.subrange(31, 32);
    assert(top.drop_first().len() == 0);
    assert(le_value(top.drop_first()) == 0);
    assert(top[0] == s[31]);
    assert(s[31] == 0x73);
    assert(le_value(top) == 0x73);
    assert(pow(256, 31) >= 1) by {
        vstd::arithmetic::power::lemma_pow_positive(256, 31);
    }
    assert(pow(256, 31) * 0x73 >= 0x73) by (nonlinear_arith)
        requires
            pow(256, 31) >= 1,
    ;
}

proof fn lemma_le_value_zero(s: Seq<u8>)
    requires
        forall|j: int| 0 <= j < s.len() ==> s[j] == 0,
    ensures
        le_value(s) == 0,
    decreases s.len(),
{
    if s.len() > 0 {
        lemma_le_value_zero(s.drop_first());
    }
}

proof fn lemma_le_value_bound(s: Seq<u8>)
    ensures
        le_value(s) < pow(256, s.len()),
    decreases s.len(),
{
    reveal(pow);
    if s.len() > 0 {
        lemma_le_value_bound(s.drop_first());
        let v = le_value(s.drop_first());
        let p = pow(256, (s.len() - 1) as nat);
        assert(s[0] as nat + 256 * v < 256 * p) by (nonlinear_arith)
            requires
                v < p,
                s[0] < 256,
        ;
    }
}

/// Compares two 32-byte little-endian numbers.
pub fn le_less(a: &[u8; 32], b: &[u8; 32]) -> (r: bool)
    ensures
        r == (le_value(a@) < le_value(b@)),
{
    let mut i: usize = 32;
    while i > 0
        invariant
            i <= 32,
            a@.subrange(i as int, 32) == b@.subrange(i as int, 32),
        decreases i,
    {
        let j = i - 1;
        if a[j] != b[j] {
            proof {
                lemma_digit_decides(a@, b@, j as int);
            }
            return a[j] < b[j];
        }
        assert(a@.subrange(j as int, 32) =~= b@.subrange(j as int, 32)) by {
            assert forall|t: int| j <= t < 32 implies a@[t] == b@[t] by {
                if t > j {
                    assert(a@[t] == a@.subrange(i as int, 32)[t - i]);
                    assert(b@[t] == b@.subrange(i as int, 32)[t - i]);
                }
            }
        }
        i = j;
    }
    assert(a@ =~= a@.subrange(0, 32));
    assert(b@ =~= b@.subrange(0, 32));
    false
}

proof fn lemma_digit_decides(a: Seq<u8>, b: Seq<u8>, j: int)
    requires
        a.len() == 32,
        b.len() == 32,
        0 <= j < 32,
        a.subrange(j + 1, 32) == b.subrange(j + 1, 32),
        a[j] != b[j],
    ensures
        (le_value(a) < le_value(b)) == (a[j] < b[j]),
{
    lemma_le_value_split(a, j);
    lemma_le_value_split(b, j);
    let ah = a.subrange(j, 32);
    let bh = b.subrange(j, 32);
    assert(ah.drop_first() =~= a.subrange(j + 1, 32));
    assert(bh.drop_first() =~= b.subrange(j + 1, 32));
    let hi = le_value(a.subrange(j + 1, 32));
    assert(le_value(ah) == ah[0] as nat + 256 * hi);
    assert(le_value(bh) == bh[0] as nat + 256 * hi);
    let la = le_value(a.subrange(0, j));
    let lb = le_value(b.subrange(0, j));
    let p = pow(256, j as nat);
    lemma_le_value_bound(a.subrange(0, j));
    lemma_le_value_bound(b.subrange(0, j));
    let da = a[j] as int;
    let db = b[j] as int;
    if da < db {
        assert(la + p * (da + 256 * hi) < lb + p * (db + 256 * hi)) by (nonlinear_arith)
            requires
                la < p,
                0 <= lb,
                da + 1 <= db,
        ;
    } else {
        assert(lb + p * (db + 256 * hi) < la + p * (da + 256 * hi)) by (nonlinear_arith)
            requires
                lb < p,
                0 <= la,
                db + 1 <= da,
        ;
    }
}

} // verus!
