//! Scalars and points that arrive from a peer, decoded strictly.
//!
//! The only way to a [`PeerScalar`] or a [`PeerPoint`] is a decoder that refuses every
//! string but the canonical encoding. The wire formats refuse the neutral element too.
use vstd::prelude::*;
use crate::bytes::array_32;
use crate::error;
use crate::error::Result;
use crate::field;
use crate::group;
use crate::group::{RistrettoPoint, Scalar};

verus! {

/// The text of the refusal of a scalar.
pub open spec fn scalar_fault() -> Seq<char> {
    "peer-supplied scalar is not a canonical curve25519 encoding"@
}

/// The text of the refusal of a string that encodes no point.
pub open spec fn point_fault() -> Seq<char> {
    "peer-supplied point is not a valid Ristretto encoding"@
}

/// The text of the refusal of the neutral element.
pub open spec fn identity_fault() -> Seq<char> {
    "peer-supplied point is the identity element (not admissible here)"@
}

/// The text of the refusal of a wire string of the wrong length.
pub open spec fn length_fault() -> Seq<char> {
    "peer-supplied value is not 32 bytes long"@
}

/// A scalar that came from a canonical encoding.
#[derive(Clone, Copy, Debug, PartialEq, Eq)]
pub struct PeerScalar {
    scalar: Scalar,
}

impl View for PeerScalar {
    type V = nat;

    closed spec fn view(&self) -> nat {
        self.scalar@
    }
}

impl PeerScalar {
    /// Decodes 32 bytes, refusing every string but a canonical encoding.
    pub fn decode(bytes: [u8; 32]) -> (r: Result<PeerScalar>)
        ensures
            match r {
                Ok(s) => field::le_nat(bytes@) < field::order() && s@ == field::le_nat(bytes@),
                Err(e) => field::le_nat(bytes@) >= field::order() && error::is_crypto(
                    e,
                    scalar_fault(),
                ),
            },
    {
        match Scalar::from_canonical_bytes(&bytes) {
            Some(scalar) => Ok(PeerScalar { scalar }),
            None => Err(
                error::crypto("peer-supplied scalar is not a canonical curve25519 encoding"),
            ),
        }
    }

    /// The scalar zero.
    pub fn zero() -> (r: PeerScalar)
        ensures
            r@ == 0,
    {
        PeerScalar { scalar: Scalar::zero() }
    }

    /// The scalar.
    pub fn as_scalar(&self) -> (r: &Scalar)
        ensures
            r@ == self@,
    {
        &self.scalar
    }

    /// The scalar, by value.
    pub fn into_scalar(self) -> (r: Scalar)
        ensures
            r@ == self@,
    {
        self.scalar
    }

    /// The wire format: the 32 bytes of the canonical encoding.
    pub fn to_wire(&self) -> (r: Vec<u8>)
        ensures
            r@ == field::scalar_bytes(self@),
    {
        let b = self.scalar.to_bytes();
        let mut v: Vec<u8> = Vec::new();
        crate::bytes::append(&mut v, &b);
        assert(v@ =~= b@);
        v
    }

    /// Reads the wire format: exactly 32 bytes that are a canonical encoding.
    pub fn from_wire(bytes: &[u8]) -> (r: Result<PeerScalar>)
        ensures
            match r {
                Ok(s) => bytes@.len() == 32 && field::le_nat(bytes@) < field::order() && s@
                    == field::le_nat(bytes@),
                Err(e) => if bytes@.len() != 32 {
                    error::is_crypto(e, length_fault())
                } else {
                    field::le_nat(bytes@) >= field::order() && error::is_crypto(e, scalar_fault())
                },
            },
    {
        if bytes.len() != 32 {
            return Err(error::crypto("peer-supplied value is not 32 bytes long"));
        }
        let b = array_32(bytes, 0);
        assert(b@ =~= bytes@);
        PeerScalar::decode(b)
    }
}

/// A group element that came from a canonical encoding.
#[derive(Clone, Copy, Debug, PartialEq, Eq)]
pub struct PeerPoint {
    point: RistrettoPoint,
}

impl View for PeerPoint {
    type V = nat;

    closed spec fn view(&self) -> nat {
        self.point@
    }
}

/// The refusal of 32 bytes as a point other than the neutral element, if there is one.
pub open spec fn non_identity_fault(bytes: Seq<u8>) -> Option<Seq<char>> {
    match group::ristretto_log(bytes) {
        None => Some(point_fault()),
        Some(k) => if k == 0 {
            Some(identity_fault())
        } else {
            None
        },
    }
}

impl PeerPoint {
    /// Decodes 32 bytes, refusing every string but a canonical encoding. The neutral
    /// element is accepted.
    pub fn decode(bytes: [u8; 32]) -> (r: Result<PeerPoint>)
        ensures
            match r {
                Ok(p) => group::ristretto_log(bytes@) == Some(p@) && group::encodes(bytes@, p@),
                Err(e) => group::ristretto_log(bytes@) is None && error::is_crypto(
                    e,
                    point_fault(),
                ),
            },
    {
        match RistrettoPoint::decompress(&bytes) {
            Some(point) => Ok(PeerPoint { point }),
            None => Err(error::crypto("peer-supplied point is not a valid Ristretto encoding")),
        }
    }

    /// Decodes 32 bytes, refusing every string but a canonical encoding, and the neutral
    /// element.
    pub fn decode_non_identity(bytes: [u8; 32]) -> (r: Result<PeerPoint>)
        ensures
            match r {
                Ok(p) => group::ristretto_log(bytes@) == Some(p@) && group::encodes(bytes@, p@)
                    && p@ != 0 && non_identity_fault(bytes@) is None,
                Err(e) => match non_identity_fault(bytes@) {
                    Some(text) => error::is_crypto(e, text),
                    None => false,
                },
            },
    {
        let p = match PeerPoint::decode(bytes) {
            Ok(p) => p,
            Err(e) => {
                return Err(e);
            },
        };
        if p.point.is_identity() {
            return Err(
                error::crypto("peer-supplied point is the identity element (not admissible here)"),
            );
        }
        Ok(p)
    }

    /// The group element.
    pub fn as_point(&self) -> (r: &RistrettoPoint)
        ensures
            r@ == self@,
    {
        &self.point
    }

    /// The group element, by value.
    pub fn into_point(self) -> (r: RistrettoPoint)
        ensures
            r@ == self@,
    {
        self.point
    }

    /// The wire format: the 32 bytes of the canonical encoding.
    pub fn to_wire(&self) -> (r: Vec<u8>)
        ensures
            r@ == group::ristretto_encoding(self@),
            group::encodes(r@, self@),
    {
        let b = self.point.compress();
        let mut v: Vec<u8> = Vec::new();
        crate::bytes::append(&mut v, &b);
        assert(v@ =~= b@);
        v
    }

    /// Reads the wire format: exactly 32 bytes that encode a point other than the neutral
    /// element.
    pub fn from_wire(bytes: &[u8]) -> (r: Result<PeerPoint>)
        ensures
            match r {
                Ok(p) => bytes@.len() == 32 && group::ristretto_log(bytes@) == Some(p@) && p@ != 0,
                Err(e) => if bytes@.len() != 32 {
                    error::is_crypto(e, length_fault())
                } else {
                    match non_identity_fault(bytes@) {
                        Some(text) => error::is_crypto(e, text),
                        None => false,
                    }
                },
            },
    {
        if bytes.len() != 32 {
            return Err(error::crypto("peer-supplied value is not 32 bytes long"));
        }
        let b = array_32(bytes, 0);
        assert(b@ =~= bytes@);
        PeerPoint::decode_non_identity(b)
    }
}

/// A scalar read back from its wire format is the scalar that was written.
pub proof fn law_scalar_wire_round_trip(s: PeerScalar)
    ensures
        field::scalar_bytes(s@).len() == 32,
        field::le_nat(field::scalar_bytes(s@)) < field::order(),
        field::le_nat(field::scalar_bytes(s@)) == s@,
{
    group::lemma_scalar_range(s.scalar);
    field::lemma_scalar_bytes(s@);
}

/// The wire format of a point other than the neutral element is read back as that point.
pub proof fn law_point_wire_round_trip(wire: Seq<u8>, point: nat)
    requires
        group::encodes(wire, point),
        point != 0,
    ensures
        wire.len() == 32,
        group::ristretto_log(wire) == Some(point),
        non_identity_fault(wire) is None,
{
}

} // verus!
