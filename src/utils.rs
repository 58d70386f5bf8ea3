use vstd::prelude::*;
use vstd::arithmetic::power::pow;
use bitvec::order::Lsb0;
use bitvec::vec::BitVec;
use bls12_381::Scalar;

verus! {

#[verifier::external_type_specification]
#[verifier::external_body]
pub struct ExScalar(Scalar);

/// A bit-vector over bytes in `Lsb0` order, kept opaque: Verus sees what it
/// holds through `bits_of` alone.
#[verifier::external_body]
pub struct BitString {
    bits: BitVec<u8, Lsb0>,
}

/// The little-endian value of a byte string.
pub open spec fn le_value(s: Seq<u8>) -> nat
    decreases s.len(),
{
    if s.len() == 0 {
        0
    } else {
        s[0] as nat + 256 * le_value(s.drop_first())
    }
}

/// The bits of a byte string, least significant bit of each byte first.
pub open spec fn lsb_bits(s: Seq<u8>) -> Seq<bool> {
    Seq::new(8 * s.len(), |i: int| (s[i / 8] >> ((i % 8) as u8)) & 1u8 == 1u8)
}

/// The four 64-bit little-endian words of a 32-byte string.
pub open spec fn le_words(s: Seq<u8>) -> Seq<u64> {
    Seq::new(4, |i: int| le_value(s.subrange(8 * i, 8 * i + 8)) as u64)
}

/// The canonical little-endian encoding of a scalar.
pub uninterp spec fn scalar_bytes(s: Scalar) -> Seq<u8>;

/// The bits that a bit-vector holds, in index order.
pub uninterp spec fn bits_of(v: BitString) -> Seq<bool>;

/// Relies on `bls12_381::Scalar::to_bytes`: the canonical 32-byte little-endian form.
#[verifier::external_body]
fn scalar_to_bytes(s: &Scalar) -> (r: [u8; 32])
    ensures
        r@ == scalar_bytes(*s),
        le_value(r@) < crate::field::modulus(),
{
    s.to_bytes()
}

/// Relies on `bitvec::vec::BitVec::from_slice`: one bit per bit of the input,
/// in `Lsb0` order within each byte.
#[verifier::external_body]
fn bits_from_slice(b: &[u8; 32]) -> (r: BitString)
    ensures
        bits_of(r) == lsb_bits(b@),
{
    BitString { bits: BitVec::<u8, Lsb0>::from_slice(&b[..]) }
}

impl BitString {
    /// Relies on `bitvec::vec::BitVec::len`: the number of bits held.
    #[verifier::external_body]
    pub fn len(&self) -> (r: usize)
        ensures
            r == bits_of(*self).len(),
    {
        self.bits.len()
    }

    /// Relies on `bitvec::slice::BitSlice::get`: the bit at `i`, if `i` is in range.
    #[verifier::external_body]
    pub fn get(&self, i: usize) -> (r: Option<bool>)
        ensures
            i < bits_of(*self).len() ==> r == Some(bits_of(*self)[i as int]),
            i >= bits_of(*self).len() ==> r.is_none(),
    {
        self.bits.get(i).map(|b| *b)
    }

    /// The bits in index order, as a vector.
    pub fn to_vec(&self) -> (r: Vec<bool>)
        ensures
            r@ == bits_of(*self),
    {
        let n = self.len();
        let mut out: Vec<bool> = Vec::new();
        let mut i: usize = 0;
        while i < n
            invariant
                i <= n,
                n == bits_of(*self).len(),
                out@ == bits_of(*self).subrange(0, i as int),
            decreases n - i,
        {
            let b = match self.get(i) {
                Some(b) => b,
                None => false,
            };
            out.push(b);
            i = i + 1;
            assert(out@ =~= bits_of(*self).subrange(0, i as int));
        }
        assert(bits_of(*self).subrange(0, n as int) =~= bits_of(*self));
        out
    }
}

/// Reads eight bytes as a little-endian 64-bit word.
pub fn u64_from_le(b: [u8; 8]) -> (r: u64)
    ensures
        r as nat == le_value(b@),
{
    let mut acc: u64 = 0;
    let mut i: usize = 8;
    assert(pow(256, 0) == 1) by {
        reveal(pow);
    }
    while i > 0
        invariant
            i <= 8,
            acc as nat == le_value(b@.subrange(i as int, 8)),
            acc < pow(256, (8 - i) as nat),
        decreases i,
    {
        i = i - 1;
        let ghost rest = b@.subrange(i as int + 1, 8);
        assert(b@.subrange(i as int, 8).drop_first() =~= rest);
        assert(pow(256, (8 - i) as nat) == 256 * pow(256, (8 - i - 1) as nat)) by {
            reveal(pow);
        }
        assert(pow(256, (8 - i) as nat) <= pow(256, 8)) by {
            vstd::arithmetic::power::lemma_pow_increases(256, (8 - i) as nat, 8);
        }
        assert(pow(256, 8) == 0x1_0000_0000_0000_0000) by {
            reveal_with_fuel(pow, 9);
        }
        let byte = b[i];
        assert(acc * 256 + byte < 256 * pow(256, (8 - i - 1) as nat)) by (nonlinear_arith)
            requires
                acc < pow(256, (8 - i - 1) as nat),
                byte < 256,
        ;
        acc = acc * 256 + byte as u64;
    }
    assert(b@.subrange(0, 8) =~= b@);
    acc
}

/// Copies an eight-byte slice into an array.
pub fn slice_to_array8(slice: &[u8]) -> (r: [u8; 8])
    requires
        slice@.len() == 8,
    ensures
        r@ == slice@,
{
    let mut out: [u8; 8] = [0u8; 8];
    let mut i: usize = 0;
    while i < 8
        invariant
            i <= 8,
            slice@.len() == 8,
            forall|j: int| 0 <= j < i ==> out@[j] == slice@[j],
        decreases 8 - i,
    {
        out[i] = slice[i];
        i = i + 1;
    }
    assert(out@ =~= slice@);
    out
}

/// Copies a 32-byte slice into an array.
pub fn slice_to_array32(slice: &[u8]) -> (r: [u8; 32])
    requires
        slice@.len() == 32,
    ensures
        r@ == slice@,
{
    let mut out: [u8; 32] = [0u8; 32];
    let mut i: usize = 0;
    while i < 32
        invariant
            i <= 32,
            slice@.len() == 32,
            forall|j: int| 0 <= j < i ==> out@[j] == slice@[j],
        decreases 32 - i,
    {
        out[i] = slice[i];
        i = i + 1;
    }
    assert(out@ =~= slice@);
    out
}

/// Splits 32 bytes into four little-endian 64-bit words, lowest first.
pub fn words_from_le_bytes(bytes: &[u8; 32]) -> (r: [u64; 4])
    ensures
        r@ == le_words(bytes@),
{
    let mut out: [u64; 4] = [0u64; 4];
    let mut i: usize = 0;
    while i < 4
        invariant
            i <= 4,
            forall|j: int| 0 <= j < i ==> out@[j] == le_words(bytes@)[j],
        decreases 4 - i,
    {
        let mut chunk: [u8; 8] = [0u8; 8];
        let mut k: usize = 0;
        while k < 8
            invariant
                i < 4,
                k <= 8,
                forall|j: int| 0 <= j < k ==> chunk@[j] == bytes@[8 * i + j],
                forall|j: int| 0 <= j < i ==> out@[j] == le_words(bytes@)[j],
            decreases 8 - k,
        {
            chunk[k] = bytes[8 * i + k];
            k = k + 1;
        }
        assert(chunk@ =~= bytes@.subrange(8 * i as int, 8 * i as int + 8));
        let w = u64_from_le(chunk);
        out[i] = w;
        i = i + 1;
    }
    assert(out@ =~= le_words(bytes@));
    out
}

/// The canonical form of a scalar as four little-endian 64-bit words.
pub fn to_raw_bytes(scalar: &Scalar) -> (r: [u64; 4])
    ensures
        r@ == le_words(scalar_bytes(*scalar)),
        scalar_bytes(*scalar).len() == 32,
        le_value(scalar_bytes(*scalar)) < crate::field::modulus(),
{
    let bytes = scalar_to_bytes(scalar);
    words_from_le_bytes(&bytes)
}

/// The bits of a scalar's canonical little-endian encoding, least significant first.
pub fn to_bits(scalar: &Scalar) -> (r: BitString)
    ensures
        bits_of(r) == lsb_bits(scalar_bytes(*scalar)),
        scalar_bytes(*scalar).len() == 32,
        le_value(scalar_bytes(*scalar)) < crate::field::modulus(),
        bits_of(r).len() == 256,
        !bits_of(r)[255],
{
    let bytes = scalar_to_bytes(scalar);
    let r = bits_from_slice(&bytes);
    proof {
        crate::field::lemma_top_byte(bytes@);
        let top = bytes@[31];
        assert(top <= 0x73 ==> (top >> 7u8) & 1u8 == 0u8) by (bit_vector);
        assert(255int / 8 == 31 && 255int % 8 == 7);
    }
    r
}

} // verus!
