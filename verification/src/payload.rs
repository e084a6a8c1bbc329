//! Component payload values and their serialized text form.
//!
//! The snapshot subsystem handles a fixed set of payload shapes: a bare
//! marker (a tag with no data), the box-dimensions record carried by walls,
//! and a spatial transform (translation plus rotation quaternion). Spatial
//! quantities are held as signed 64-bit counts of millionths of a unit, so
//! the persisted text is exact and the round trip loses nothing.
//!
//! A payload serializes to a fixed-width field per scalar, separated by
//! single spaces; decoding is strict, accepting exactly the canonical
//! encodings, which makes encode/decode a bijection.

use vstd::prelude::*;

use crate::digits::{
    dec_i64, enc_i64, encode_i64, lemma_dec_enc_i64, lemma_enc_dec_i64, read_i64, I64_WIDTH,
};

verus! {

/// Separator byte between scalar fields.
pub const FIELD_SEP: u8 = 32;

/// Serialized length of a box-dimensions payload: three scalar fields.
pub const BOX_DIMS_LEN: usize = 62;

/// Serialized length of a transform payload: seven scalar fields.
pub const TRANSFORM_LEN: usize = 146;

/// A component payload value, in millionths of a world unit.
#[derive(Clone, Copy, PartialEq, Eq, Structural, Debug)]
pub enum Payload {
    /// A tag with no data, such as the level root or an element kind.
    Marker,
    /// Box dimensions along the three axes.
    BoxDims { x: i64, y: i64, z: i64 },
    /// A spatial transform: translation and rotation quaternion.
    Transform { tx: i64, ty: i64, tz: i64, rx: i64, ry: i64, rz: i64, rw: i64 },
}

/// The shape a registry entry promises to read and write.
#[derive(Clone, Copy, PartialEq, Eq, Structural, Debug)]
pub enum PayloadKind {
    Marker,
    BoxDims,
    Transform,
}

pub open spec fn kind_of(p: Payload) -> PayloadKind {
    match p {
        Payload::Marker => PayloadKind::Marker,
        Payload::BoxDims { .. } => PayloadKind::BoxDims,
        Payload::Transform { .. } => PayloadKind::Transform,
    }
}

/// Canonical serialized form of a payload.
pub open spec fn enc_payload(p: Payload) -> Seq<u8> {
    match p {
        Payload::Marker => Seq::empty(),
        Payload::BoxDims { x, y, z } => enc_i64(x as int) + seq![FIELD_SEP] + enc_i64(y as int)
            + seq![FIELD_SEP] + enc_i64(z as int),
        Payload::Transform { tx, ty, tz, rx, ry, rz, rw } => enc_i64(tx as int) + seq![FIELD_SEP]
            + enc_i64(ty as int) + seq![FIELD_SEP] + enc_i64(tz as int) + seq![FIELD_SEP]
            + enc_i64(rx as int) + seq![FIELD_SEP] + enc_i64(ry as int) + seq![FIELD_SEP]
            + enc_i64(rz as int) + seq![FIELD_SEP] + enc_i64(rw as int),
    }
}

/// The scalar field at position `j` (fields are laid out with a stride of 21
/// bytes: 20 field bytes and one separator).
pub open spec fn field_at(s: Seq<u8>, j: int) -> Option<int> {
    dec_i64(s.subrange(21 * j, 21 * j + 20))
}

/// Strict decoding of a payload of the given shape; accepts exactly the
/// canonical images of `enc_payload`.
pub open spec fn dec_payload(k: PayloadKind, s: Seq<u8>) -> Option<Payload> {
    match k {
        PayloadKind::Marker => if s.len() == 0 {
            Some(Payload::Marker)
        } else {
            None
        },
        PayloadKind::BoxDims => if s.len() == BOX_DIMS_LEN && s[20] == FIELD_SEP && s[41]
            == FIELD_SEP {
            match (field_at(s, 0), field_at(s, 1), field_at(s, 2)) {
                (Some(x), Some(y), Some(z)) => Some(
                    Payload::BoxDims { x: x as i64, y: y as i64, z: z as i64 },
                ),
                _ => None,
            }
        } else {
            None
        },
        PayloadKind::Transform => if s.len() == TRANSFORM_LEN && s[20] == FIELD_SEP && s[41]
            == FIELD_SEP && s[62] == FIELD_SEP && s[83] == FIELD_SEP && s[104] == FIELD_SEP
            && s[125] == FIELD_SEP {
            match (field_at(s, 0), field_at(s, 1), field_at(s, 2), field_at(s, 3), field_at(s, 4),
            field_at(s, 5), field_at(s, 6)) {
                (Some(tx), Some(ty), Some(tz), Some(rx), Some(ry), Some(rz), Some(rw)) => Some(
                    Payload::Transform {
                        tx: tx as i64,
                        ty: ty as i64,
                        tz: tz as i64,
                        rx: rx as i64,
                        ry: ry as i64,
                        rz: rz as i64,
                        rw: rw as i64,
                    },
                ),
                _ => None,
            }
        } else {
            None
        },
    }
}

/// Encoding a payload and decoding it with its own shape gives it back.
pub proof fn lemma_dec_enc_payload(p: Payload)
    ensures
        dec_payload(kind_of(p), enc_payload(p)) == Some(p),
{
    let e = enc_payload(p);
    match p {
        Payload::Marker => {},
        Payload::BoxDims { x, y, z } => {
            lemma_dec_enc_i64(x as int);
            lemma_dec_enc_i64(y as int);
            lemma_dec_enc_i64(z as int);
            assert(e.len() == BOX_DIMS_LEN);
            assert(e.subrange(0, 20) =~= enc_i64(x as int));
            assert(e.subrange(21, 41) =~= enc_i64(y as int));
            assert(e.subrange(42, 62) =~= enc_i64(z as int));
            assert(e[20] == FIELD_SEP && e[41] == FIELD_SEP);
        },
        Payload::Transform { tx, ty, tz, rx, ry, rz, rw } => {
            lemma_dec_enc_i64(tx as int);
            lemma_dec_enc_i64(ty as int);
            lemma_dec_enc_i64(tz as int);
            lemma_dec_enc_i64(rx as int);
            lemma_dec_enc_i64(ry as int);
            lemma_dec_enc_i64(rz as int);
            lemma_dec_enc_i64(rw as int);
            assert(e.len() == TRANSFORM_LEN);
            assert(e.subrange(0, 20) =~= enc_i64(tx as int));
            assert(e.subrange(21, 41) =~= enc_i64(ty as int));
            assert(e.subrange(42, 62) =~= enc_i64(tz as int));
            assert(e.subrange(63, 83) =~= enc_i64(rx as int));
            assert(e.subrange(84, 104) =~= enc_i64(ry as int));
            assert(e.subrange(105, 125) =~= enc_i64(rz as int));
            assert(e.subrange(126, 146) =~= enc_i64(rw as int));
            assert(e[20] == FIELD_SEP);
            assert(e[41] == FIELD_SEP);
            assert(e[62] == FIELD_SEP);
            assert(e[83] == FIELD_SEP);
            assert(e[104] == FIELD_SEP);
            assert(e[125] == FIELD_SEP);
        },
    }
}

/// Bytes that decode successfully are the canonical encoding of the decoded
/// payload: decoding is strict.
pub proof fn lemma_enc_dec_payload(k: PayloadKind, s: Seq<u8>, p: Payload)
    requires
        dec_payload(k, s) == Some(p),
    ensures
        kind_of(p) == k,
        enc_payload(p) == s,
{
    match k {
        PayloadKind::Marker => {
            assert(enc_payload(p) =~= s);
        },
        PayloadKind::BoxDims => {
            let c0 = s.subrange(0, 20);
            let c1 = s.subrange(21, 41);
            let c2 = s.subrange(42, 62);
            lemma_enc_dec_i64(c0, field_at(s, 0)->Some_0);
            lemma_enc_dec_i64(c1, field_at(s, 1)->Some_0);
            lemma_enc_dec_i64(c2, field_at(s, 2)->Some_0);
            assert(enc_payload(p) =~= s);
        },
        PayloadKind::Transform => {
            lemma_enc_dec_i64(s.subrange(0, 20), field_at(s, 0)->Some_0);
            lemma_enc_dec_i64(s.subrange(21, 41), field_at(s, 1)->Some_0);
            lemma_enc_dec_i64(s.subrange(42, 62), field_at(s, 2)->Some_0);
            lemma_enc_dec_i64(s.subrange(63, 83), field_at(s, 3)->Some_0);
            lemma_enc_dec_i64(s.subrange(84, 104), field_at(s, 4)->Some_0);
            lemma_enc_dec_i64(s.subrange(105, 125), field_at(s, 5)->Some_0);
            lemma_enc_dec_i64(s.subrange(126, 146), field_at(s, 6)->Some_0);
            assert(s[20] == FIELD_SEP);
            assert(s[41] == FIELD_SEP);
            assert(s[62] == FIELD_SEP);
            assert(s[83] == FIELD_SEP);
            assert(s[104] == FIELD_SEP);
            assert(s[125] == FIELD_SEP);
            assert(enc_payload(p) =~= s);
        },
    }
}

/// Serializes a payload to its canonical text form.
pub fn encode_payload(p: &Payload) -> (r: Vec<u8>)
    ensures
        r@ == enc_payload(*p),
{
    let mut out: Vec<u8> = Vec::new();
    match p {
        Payload::Marker => {},
        Payload::BoxDims { x, y, z } => {
            encode_i64(*x, &mut out);
            out.push(FIELD_SEP);
            encode_i64(*y, &mut out);
            out.push(FIELD_SEP);
            encode_i64(*z, &mut out);
            assert(out@ =~= enc_payload(*p));
        },
        Payload::Transform { tx, ty, tz, rx, ry, rz, rw } => {
            encode_i64(*tx, &mut out);
            out.push(FIELD_SEP);
            encode_i64(*ty, &mut out);
            out.push(FIELD_SEP);
            encode_i64(*tz, &mut out);
            out.push(FIELD_SEP);
            encode_i64(*rx, &mut out);
            out.push(FIELD_SEP);
            encode_i64(*ry, &mut out);
            out.push(FIELD_SEP);
            encode_i64(*rz, &mut out);
            out.push(FIELD_SEP);
            encode_i64(*rw, &mut out);
            assert(out@ =~= enc_payload(*p));
        },
    }
    out
}

/// Strictly parses the serialized form of a payload of the given shape.
pub fn decode_payload(k: PayloadKind, bytes: &[u8]) -> (r: Option<Payload>)
    ensures
        r == dec_payload(k, bytes@),
{
    match k {
        PayloadKind::Marker => {
            if bytes.len() == 0 {
                Some(Payload::Marker)
            } else {
                None
            }
        },
        PayloadKind::BoxDims => {
            if bytes.len() != BOX_DIMS_LEN {
                return None;
            }
            if bytes[20] != FIELD_SEP || bytes[41] != FIELD_SEP {
                return None;
            }
            let x = read_i64(bytes, 0);
            let y = read_i64(bytes, 21);
            let z = read_i64(bytes, 42);
            match (x, y, z) {
                (Some(x), Some(y), Some(z)) => Some(Payload::BoxDims { x, y, z }),
                _ => None,
            }
        },
        PayloadKind::Transform => {
            if bytes.len() != TRANSFORM_LEN {
                return None;
            }
            if bytes[20] != FIELD_SEP || bytes[41] != FIELD_SEP || bytes[62] != FIELD_SEP
                || bytes[83] != FIELD_SEP || bytes[104] != FIELD_SEP || bytes[125] != FIELD_SEP {
                return None;
            }
            let tx = read_i64(bytes, 0);
            let ty = read_i64(bytes, 21);
            let tz = read_i64(bytes, 42);
            let rx = read_i64(bytes, 63);
            let ry = read_i64(bytes, 84);
            let rz = read_i64(bytes, 105);
            let rw = read_i64(bytes, 126);
            match (tx, ty, tz, rx, ry, rz, rw) {
                (Some(tx), Some(ty), Some(tz), Some(rx), Some(ry), Some(rz), Some(rw)) => Some(
                    Payload::Transform { tx, ty, tz, rx, ry, rz, rw },
                ),
                _ => None,
            }
        },
    }
}

} // verus!
