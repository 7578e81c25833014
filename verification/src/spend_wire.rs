//! The wire formats of the shielded spends.
use vstd::prelude::*;
use crate::bytes::{append, array_32};
use crate::error;
use crate::error::{Error, Result};
use crate::groth_kohlweiss::GkOneOfManyProof;
use crate::shielded_spend::{SparkSpendProofV2, SparkSpendProofV3};
use crate::text;
use crate::wire;
use crate::wire::{append_list, read_list};

verus! {

/// The vectors of a one-out-of-many proof, in wire order.
pub open spec fn vectors(p: GkOneOfManyProof) -> Seq<Seq<Seq<u8>>> {
    seq![
        wire::strings(p.cl@),
        wire::strings(p.ca@),
        wire::strings(p.cb@),
        wire::strings(p.gk@),
        wire::strings(p.f@),
        wire::strings(p.za@),
        wire::strings(p.zb@),
    ]
}

/// Whether every vector of a proof has a length that the wire format can hold.
pub open spec fn encodable(p: GkOneOfManyProof) -> bool {
    &&& p.cl@.len() <= u32::MAX
    &&& p.ca@.len() <= u32::MAX
    &&& p.cb@.len() <= u32::MAX
    &&& p.gk@.len() <= u32::MAX
    &&& p.f@.len() <= u32::MAX
    &&& p.za@.len() <= u32::MAX
    &&& p.zb@.len() <= u32::MAX
}

/// The wire format of a one-out-of-many proof.
pub open spec fn one_of_many_wire(p: GkOneOfManyProof) -> Seq<u8> {
    wire::list_wire(p.cl@) + (wire::list_wire(p.ca@) + (wire::list_wire(p.cb@) + (wire::list_wire(
        p.gk@,
    ) + (wire::list_wire(p.f@) + (wire::list_wire(p.za@) + (wire::list_wire(p.zb@) + p.zd@))))))
}

/// Whether the refusal of a wire string is the right one: it ends too early, or something
/// is left at its end.
pub open spec fn is_wire_error(e: Error, name: Seq<char>, short: bool) -> bool {
    error::is_crypto(
        e,
        name + if short {
            " decode: Unexpected length of input"@
        } else {
            " decode: Not all bytes read"@
        },
    )
}

pub(crate) fn wire_error(name: &str, short: bool) -> (e: Error)
    ensures
        is_wire_error(e, name@, short),
{
    let mut s: String = name.to_owned();
    if short {
        text::push_text(&mut s, " decode: Unexpected length of input");
    } else {
        text::push_text(&mut s, " decode: Not all bytes read");
    }
    Error::CryptoError(s)
}

struct Vectors {
    cl: Vec<[u8; 32]>,
    ca: Vec<[u8; 32]>,
    cb: Vec<[u8; 32]>,
    gk: Vec<[u8; 32]>,
    f: Vec<[u8; 32]>,
    za: Vec<[u8; 32]>,
    zb: Vec<[u8; 32]>,
}

spec fn read_vectors_is(v: Vectors, lists: Seq<Seq<Seq<u8>>>) -> bool {
    lists == seq![
        wire::strings(v.cl@),
        wire::strings(v.ca@),
        wire::strings(v.cb@),
        wire::strings(v.gk@),
        wire::strings(v.f@),
        wire::strings(v.za@),
        wire::strings(v.zb@),
    ]
}

fn read_vectors<'a>(b: &'a [u8]) -> (r: Option<(Vectors, &'a [u8])>)
    ensures
        match wire::parse_lists(b@, 7) {
            Some((lists, rest)) => r matches Some((v, s)) && read_vectors_is(v, lists) && s@
                == rest,
            None => r is None,
        },
{
    proof {
        reveal_with_fuel(wire::parse_lists, 8);
    }
    let (cl, b1) = read_list(b)?;
    let (ca, b2) = read_list(b1)?;
    let (cb, b3) = read_list(b2)?;
    let (gk, b4) = read_list(b3)?;
    let (f, b5) = read_list(b4)?;
    let (za, b6) = read_list(b5)?;
    let (zb, b7) = read_list(b6)?;
    proof {
        let lists = (wire::parse_lists(b@, 7)->0).0;
        assert(lists =~= seq![
            wire::strings(cl@),
            wire::strings(ca@),
            wire::strings(cb@),
            wire::strings(gk@),
            wire::strings(f@),
            wire::strings(za@),
            wire::strings(zb@),
        ]);
    }
    Some((Vectors { cl, ca, cb, gk, f, za, zb }, b7))
}

fn append_one_of_many(v: &mut Vec<u8>, p: &GkOneOfManyProof)
    requires
        encodable(*p),
    ensures
        final(v)@ == old(v)@ + one_of_many_wire(*p),
{
    let ghost t8 = p.zd@;
    let ghost t7 = wire::list_wire(p.zb@) + t8;
    let ghost t6 = wire::list_wire(p.za@) + t7;
    let ghost t5 = wire::list_wire(p.f@) + t6;
    let ghost t4 = wire::list_wire(p.gk@) + t5;
    let ghost t3 = wire::list_wire(p.cb@) + t4;
    let ghost t2 = wire::list_wire(p.ca@) + t3;
    let ghost t1 = wire::list_wire(p.cl@) + t2;
    let ghost v0 = v@;
    append_list(v, &p.cl);
    let ghost v1 = v@;
    assert(v0 + t1 =~= v1 + t2);
    append_list(v, &p.ca);
    let ghost v2 = v@;
    assert(v1 + t2 =~= v2 + t3);
    append_list(v, &p.cb);
    let ghost v3 = v@;
    assert(v2 + t3 =~= v3 + t4);
    append_list(v, &p.gk);
    let ghost v4 = v@;
    assert(v3 + t4 =~= v4 + t5);
    append_list(v, &p.f);
    let ghost v5 = v@;
    assert(v4 + t5 =~= v5 + t6);
    append_list(v, &p.za);
    let ghost v6 = v@;
    assert(v5 + t6 =~= v6 + t7);
    append_list(v, &p.zb);
    let ghost v7 = v@;
    assert(v6 + t7 =~= v7 + t8);
    append(v, &p.zd);
    assert(v@ == v7 + t8);
}

/// The vectors of a one-out-of-many proof are read back from its wire format.
pub proof fn law_vectors_round_trip(p: GkOneOfManyProof, tail: Seq<u8>)
    requires
        encodable(p),
    ensures
        wire::parse_lists(one_of_many_wire(p) + tail, 7) == Some((vectors(p), p.zd@ + tail)),
{
    reveal_with_fuel(wire::parse_lists, 8);
    let t8 = p.zd@ + tail;
    let t7 = wire::list_wire(p.zb@) + t8;
    let t6 = wire::list_wire(p.za@) + t7;
    let t5 = wire::list_wire(p.f@) + t6;
    let t4 = wire::list_wire(p.gk@) + t5;
    let t3 = wire::list_wire(p.cb@) + t4;
    let t2 = wire::list_wire(p.ca@) + t3;
    assert(one_of_many_wire(p) + tail =~= wire::list_wire(p.cl@) + t2);
    wire::law_list_round_trip(p.cl@, t2);
    wire::law_list_round_trip(p.ca@, t3);
    wire::law_list_round_trip(p.cb@, t4);
    wire::law_list_round_trip(p.gk@, t5);
    wire::law_list_round_trip(p.f@, t6);
    wire::law_list_round_trip(p.za@, t7);
    wire::law_list_round_trip(p.zb@, t8);
    assert((wire::parse_lists(one_of_many_wire(p) + tail, 7)->0).0 =~= vectors(p));
}

// --- One-out-of-many proofs ------------------------------------------------------------------

impl GkOneOfManyProof {
    /// The wire format of the proof.
    pub fn encode(&self) -> (r: Vec<u8>)
        requires
            encodable(*self),
        ensures
            r@ == one_of_many_wire(*self),
    {
        let mut v: Vec<u8> = Vec::new();
        append_one_of_many(&mut v, self);
        assert(v@ =~= one_of_many_wire(*self));
        v
    }

    /// Reads the wire format. A string that ends too early, or that goes on after the
    /// proof, is refused.
    pub fn from_bytes(bytes: &[u8]) -> (r: Result<GkOneOfManyProof>)
        ensures
            match wire::parse_lists(bytes@, 7) {
                Some((lists, rest)) => if rest.len() == 32 {
                    r matches Ok(p) && vectors(p) == lists && p.zd@ == rest
                } else {
                    r matches Err(e) && is_wire_error(e, "GkOneOfManyProof"@, rest.len() < 32)
                },
                None => r matches Err(e) && is_wire_error(e, "GkOneOfManyProof"@, true),
            },
    {
        match read_vectors(bytes) {
            None => Err(wire_error("GkOneOfManyProof", true)),
            Some((v, rest)) => {
                if rest.len() != 32 {
                    return Err(wire_error("GkOneOfManyProof", rest.len() < 32));
                }
                let zd = array_32(rest, 0);
                assert(zd@ =~= rest@);
                Ok(
                    GkOneOfManyProof {
                        cl: v.cl,
                        ca: v.ca,
                        cb: v.cb,
                        gk: v.gk,
                        f: v.f,
                        za: v.za,
                        zb: v.zb,
                        zd,
                    },
                )
            },
        }
    }
}

// --- Spends that reveal the serial number ----------------------------------------------------

impl SparkSpendProofV2 {
    /// What the wire format holds behind the vectors.
    pub open spec fn tail(self) -> Seq<u8> {
        self.one_of_many.zd@ + self.serial@ + self.message@
    }

    /// The wire format of the spend.
    pub open spec fn wire(self) -> Seq<u8> {
        one_of_many_wire(self.one_of_many) + (self.serial@ + self.message@)
    }

    /// Writes the wire format.
    pub fn encode(&self) -> (r: Vec<u8>)
        requires
            encodable(self.one_of_many),
        ensures
            r@ == self.wire(),
    {
        let mut v: Vec<u8> = Vec::new();
        append_one_of_many(&mut v, &self.one_of_many);
        append(&mut v, &self.serial);
        append(&mut v, &self.message);
        assert(v@ =~= self.wire());
        v
    }

    /// Reads the wire format. A string that ends too early, or that goes on after the
    /// spend, is refused.
    pub fn from_bytes(bytes: &[u8]) -> (r: Result<SparkSpendProofV2>)
        ensures
            match wire::parse_lists(bytes@, 7) {
                Some((lists, rest)) => if rest.len() == 96 {
                    r matches Ok(p) && vectors(p.one_of_many) == lists && p.tail() == rest
                } else {
                    r matches Err(e) && is_wire_error(e, "SparkSpendProofV2"@, rest.len() < 96)
                },
                None => r matches Err(e) && is_wire_error(e, "SparkSpendProofV2"@, true),
            },
    {
        match read_vectors(bytes) {
            None => Err(wire_error("SparkSpendProofV2", true)),
            Some((v, rest)) => {
                if rest.len() != 96 {
                    return Err(wire_error("SparkSpendProofV2", rest.len() < 96));
                }
                let zd = array_32(rest, 0);
                let serial = array_32(rest, 32);
                let message = array_32(rest, 64);
                assert(zd@ + serial@ + message@ =~= rest@);
                let one_of_many = GkOneOfManyProof {
                    cl: v.cl,
                    ca: v.ca,
                    cb: v.cb,
                    gk: v.gk,
                    f: v.f,
                    za: v.za,
                    zb: v.zb,
                    zd,
                };
                Ok(SparkSpendProofV2 { one_of_many, serial, message })
            },
        }
    }
}

/// A spend that was written is read back: the reader finds its vectors and its tail.
pub proof fn law_spend_v2_round_trip(p: SparkSpendProofV2)
    requires
        encodable(p.one_of_many),
    ensures
        wire::parse_lists(p.wire(), 7) == Some((vectors(p.one_of_many), p.tail())),
        p.tail().len() == 96,
{
    law_vectors_round_trip(p.one_of_many, p.serial@ + p.message@);
    assert(p.one_of_many.zd@ + (p.serial@ + p.message@) =~= p.tail());
}

// --- Spends that bind the value --------------------------------------------------------------

impl SparkSpendProofV3 {
    /// What the wire format holds behind the vectors.
    pub open spec fn tail(self) -> Seq<u8> {
        self.one_of_many.zd@ + self.serial@ + self.value_commitment@ + self.message@
    }

    /// The wire format of the spend.
    pub open spec fn wire(self) -> Seq<u8> {
        one_of_many_wire(self.one_of_many) + (self.serial@ + self.value_commitment@ + self.message@)
    }

    /// Writes the wire format.
    pub fn encode(&self) -> (r: Vec<u8>)
        requires
            encodable(self.one_of_many),
        ensures
            r@ == self.wire(),
    {
        let mut v: Vec<u8> = Vec::new();
        append_one_of_many(&mut v, &self.one_of_many);
        append(&mut v, &self.serial);
        append(&mut v, &self.value_commitment);
        append(&mut v, &self.message);
        assert(v@ =~= self.wire());
        v
    }

    /// Reads the wire format. A string that ends too early, or that goes on after the
    /// spend, is refused.
    pub fn from_bytes(bytes: &[u8]) -> (r: Result<SparkSpendProofV3>)
        ensures
            match wire::parse_lists(bytes@, 7) {
                Some((lists, rest)) => if rest.len() == 128 {
                    r matches Ok(p) && vectors(p.one_of_many) == lists && p.tail() == rest
                } else {
                    r matches Err(e) && is_wire_error(e, "SparkSpendProofV3"@, rest.len() < 128)
                },
                None => r matches Err(e) && is_wire_error(e, "SparkSpendProofV3"@, true),
            },
    {
        match read_vectors(bytes) {
            None => Err(wire_error("SparkSpendProofV3", true)),
            Some((v, rest)) => {
                if rest.len() != 128 {
                    return Err(wire_error("SparkSpendProofV3", rest.len() < 128));
                }
                let zd = array_32(rest, 0);
                let serial = array_32(rest, 32);
                let value_commitment = array_32(rest, 64);
                let message = array_32(rest, 96);
                assert(zd@ + serial@ + value_commitment@ + message@ =~= rest@);
                let one_of_many = GkOneOfManyProof {
                    cl: v.cl,
                    ca: v.ca,
                    cb: v.cb,
                    gk: v.gk,
                    f: v.f,
                    za: v.za,
                    zb: v.zb,
                    zd,
                };
                Ok(SparkSpendProofV3 { one_of_many, serial, value_commitment, message })
            },
        }
    }
}

/// A value-bound spend that was written is read back: the reader finds its vectors and its
/// tail.
pub proof fn law_spend_v3_round_trip(p: SparkSpendProofV3)
    requires
        encodable(p.one_of_many),
    ensures
        wire::parse_lists(p.wire(), 7) == Some((vectors(p.one_of_many), p.tail())),
        p.tail().len() == 128,
{
    law_vectors_round_trip(p.one_of_many, p.serial@ + p.value_commitment@ + p.message@);
    assert(p.one_of_many.zd@ + (p.serial@ + p.value_commitment@ + p.message@) =~= p.tail());
}

} // verus!
