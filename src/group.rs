use vstd::prelude::*;
use ark_bls12_381::{Bls12_381, Fr, G1Affine, G1Projective, G2Affine};
use ark_ec::pairing::Pairing;
use ark_ec::VariableBaseMSM;
use ark_ec::CurveGroup;
use ark_ff::PrimeField;
use ark_serialize::{CanonicalDeserialize, CanonicalSerialize};
use crate::field::FieldElement;

verus! {

/// Whether 48 bytes decode, as a compressed point, to a point of the
/// prime-order subgroup of G1 (any bytes with the infinity flag decode to the
/// identity).
pub uninterp spec fn valid_g1(b: Seq<u8>) -> bool;

/// Whether 96 bytes decode, as a compressed point, to a point of the
/// prime-order subgroup of G2.
pub uninterp spec fn valid_g2(b: Seq<u8>) -> bool;

/// The compressed form of a multi-scalar multiplication in G1.
pub uninterp spec fn msm_of(points: Seq<Seq<u8>>, scalars: Seq<nat>) -> Seq<u8>;

/// Whether `e(a, b) == e(c, d)` for compressed points `a, c` of G1 and `b, d` of G2.
pub uninterp spec fn pairings_equal(a: Seq<u8>, b: Seq<u8>, c: Seq<u8>, d: Seq<u8>) -> bool;

/// A point of G1 in compressed form.
#[derive(Debug, Clone, Copy, PartialEq, Eq)]
pub struct G1Point {
    pub(crate) bytes: [u8; 48],
}

/// A point of G2 in compressed form.
#[derive(Debug, Clone, Copy, PartialEq, Eq)]
pub struct G2Point {
    pub(crate) bytes: [u8; 96],
}

impl G1Point {
    pub closed spec fn spec_bytes(self) -> Seq<u8> {
        self.bytes@
    }

    pub open spec fn wf(self) -> bool {
        valid_g1(self.spec_bytes())
    }

    /// The compressed encoding.
    pub fn to_bytes(&self) -> (r: [u8; 48])
        ensures
            r@ == self.spec_bytes(),
    {
        self.bytes
    }
}

impl G2Point {
    pub closed spec fn spec_bytes(self) -> Seq<u8> {
        self.bytes@
    }

    pub open spec fn wf(self) -> bool {
        valid_g2(self.spec_bytes())
    }
}

/// A point is determined by its encoding.
pub proof fn lemma_g1_round_trip(x: G1Point, y: G1Point)
    requires
        y.spec_bytes() == x.spec_bytes(),
    ensures
        y == x,
{
    assert forall|i: int| 0 <= i < 48 implies y.bytes[i] == x.bytes[i] by {
        vstd::array::lemma_array_index(y.bytes, i);
        vstd::array::lemma_array_index(x.bytes, i);
    }
    assert(y.bytes =~= x.bytes);
}

/// An encoding is 48 bytes long.
pub proof fn lemma_g1_len(x: G1Point)
    ensures
        x.spec_bytes().len() == 48,
{
}

pub open spec fn point_bytes(points: Seq<G1Point>) -> Seq<Seq<u8>> {
    points.map_values(|p: G1Point| p.spec_bytes())
}

pub open spec fn scalar_values(scalars: Seq<FieldElement>) -> Seq<nat> {
    scalars.map_values(|s: FieldElement| s.value())
}

/// Relies on `G1Affine::deserialize_compressed`: the point, if the bytes are a
/// valid compressed point of the subgroup.
#[verifier::external_body]
pub(crate) fn g1_from_bytes(b: &[u8; 48]) -> (r: Option<G1Point>)
    ensures
        r is Some <==> valid_g1(b@),
        r matches Some(p) ==> p.spec_bytes() == b@,
{
    match G1Affine::deserialize_compressed(&b[..]) {
        Ok(_) => Some(G1Point { bytes: *b }),
        Err(_) => None,
    }
}

/// Relies on `VariableBaseMSM::msm_unchecked` over G1: the sum of the points
/// times the scalars, compressed.
#[verifier::external_body]
pub(crate) fn msm(points: &[G1Point], scalars: &[FieldElement]) -> (r: G1Point)
    requires
        scalars@.len() <= points@.len(),
        forall|i: int| 0 <= i < points@.len() ==> #[trigger] points@[i].wf(),
    ensures
        r.spec_bytes() == msm_of(point_bytes(points@.subrange(0, scalars@.len() as int)), scalar_values(scalars@)),
        r.wf(),
{
    let bases: Vec<G1Affine> = points[..scalars.len()].iter().map(|p| G1Affine::deserialize_compressed_unchecked(&p.bytes[..]).unwrap()).collect();
    let sc: Vec<Fr> = scalars.iter().map(|s| Fr::from_le_bytes_mod_order(&s.bytes)).collect();
    let sum: G1Projective = VariableBaseMSM::msm_unchecked(&bases, &sc);
    let mut out = [0u8; 48];
    sum.into_affine().serialize_compressed(&mut out[..]).unwrap();
    G1Point { bytes: out }
}

/// Relies on `Bls12_381::pairing`: compares `e(a, b)` with `e(c, d)`.
#[verifier::external_body]
pub(crate) fn pairing_check(a: &G1Point, b: &G2Point, c: &G1Point, d: &G2Point) -> (r: bool)
    requires
        a.wf(),
        b.wf(),
        c.wf(),
        d.wf(),
    ensures
        r == pairings_equal(a.spec_bytes(), b.spec_bytes(), c.spec_bytes(), d.spec_bytes()),
{
    let pa = G1Affine::deserialize_compressed_unchecked(&a.bytes[..]).unwrap();
    let pb = G2Affine::deserialize_compressed_unchecked(&b.bytes[..]).unwrap();
    let pc = G1Affine::deserialize_compressed_unchecked(&c.bytes[..]).unwrap();
    let pd = G2Affine::deserialize_compressed_unchecked(&d.bytes[..]).unwrap();
    Bls12_381::pairing(pa, pb) == Bls12_381::pairing(pc, pd)
}

} // verus!
