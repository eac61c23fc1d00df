//! The `EncryptedPrivateKeyInfo` container itself: its typed representation,
//! the decoder and encoder, and the laws that relate them.

use vstd::prelude::*;

use crate::tlv::is_tlv;
use crate::tlv::parse_tlv;
use crate::tlv::tlv_bytes;

verus! {

/// How a decode or encode attempt failed.
#[derive(Clone, Copy, Debug, PartialEq, Eq, Structural)]
pub enum Error {
    /// The input bytes are not one well-formed tag-length-value encoding:
    /// truncated input, an invalid tag form, an invalid length header, or
    /// bytes left over after the outer value.
    StructuralDecode,
    /// The parsed value's shape does not match the schema: the outer value
    /// is not a sequence, a field is missing, the ciphertext field does not
    /// carry the octet-string tag, or extra fields follow the two required
    /// ones.
    ShapeMismatch,
    /// The first field of the sequence is not a well-formed encoding of an
    /// algorithm identifier.
    SchemeDecode,
    /// The value cannot be serialized because its total encoded size does
    /// not fit in memory.
    Encode,
}

/// An algorithm identifier for a password-based encryption scheme, held
/// opaquely as its own complete DER encoding. The container never interprets
/// the scheme; it only stores and round-trips its bytes.
#[derive(Clone, Debug)]
pub struct AlgorithmIdentifier {
    bytes: Vec<u8>,
}

impl View for AlgorithmIdentifier {
    type V = Seq<u8>;

    closed spec fn view(&self) -> Seq<u8> {
        self.bytes@
    }
}

impl AlgorithmIdentifier {
    /// Wraps an already-encoded algorithm identifier, validating that the
    /// bytes form exactly one well-formed tag-length-value encoding.
    pub fn new(bytes: Vec<u8>) -> (r: Result<AlgorithmIdentifier, Error>)
        ensures
            match r {
                Ok(a) => is_tlv(bytes@) && a@ == bytes@,
                Err(e) => !is_tlv(bytes@) && e == Error::SchemeDecode,
            },
    {
        let total = bytes.len();
        match crate::tlv::read_tlv(bytes.as_slice(), 0) {
            Ok((_t, cs, cl)) => {
                if cs + cl == total {
                    proof {
                        assert(bytes@.skip(0) =~= bytes@);
                    }
                    Ok(AlgorithmIdentifier { bytes })
                } else {
                    proof {
                        assert(bytes@.skip(0) =~= bytes@);
                    }
                    Err(Error::SchemeDecode)
                }
            },
            Err(()) => {
                proof {
                    assert(bytes@.skip(0) =~= bytes@);
                }
                Err(Error::SchemeDecode)
            },
        }
    }

    /// The stored DER encoding of the identifier.
    pub fn as_bytes(&self) -> (r: &Vec<u8>)
        ensures
            r@ == self@,
    {
        &self.bytes
    }
}

/// The canonical encoding of the container: a `SEQUENCE` (tag `0x30`)
/// holding the algorithm identifier's own encoding followed by the
/// ciphertext as a primitive `OCTET STRING` (tag `0x04`).
pub open spec fn container_bytes(alg: Seq<u8>, data: Seq<u8>) -> Seq<u8> {
    tlv_bytes(0x30, alg + tlv_bytes(0x04, data))
}

/// What decoding a byte string yields: the algorithm identifier's encoding
/// and the ciphertext bytes on success, and otherwise which way the input
/// fails the schema, checked in this order: the input must be exactly one
/// well-formed tag-length-value encoding, tagged as a `SEQUENCE`, holding a
/// first sub-value that is itself well-formed (the scheme), then a second
/// sub-value tagged as an `OCTET STRING`, and nothing further.
pub open spec fn spec_decode(s: Seq<u8>) -> Result<(Seq<u8>, Seq<u8>), Error> {
    match parse_tlv(s) {
        None => Err(Error::StructuralDecode),
        Some(outer) => {
            let body = outer.1;
            if outer.2 != s.len() {
                Err(Error::StructuralDecode)
            } else if outer.0 != 0x30 {
                Err(Error::ShapeMismatch)
            } else if body.len() == 0 {
                Err(Error::ShapeMismatch)
            } else {
                match parse_tlv(body) {
                    None => Err(Error::SchemeDecode),
                    Some(first) => {
                        let n1 = first.2;
                        let rest = body.skip(n1 as int);
                        if rest.len() == 0 {
                            Err(Error::ShapeMismatch)
                        } else {
                            match parse_tlv(rest) {
                                None => Err(Error::StructuralDecode),
                                Some(second) => {
                                    if second.0 != 0x04 {
                                        Err(Error::ShapeMismatch)
                                    } else if n1 + second.2 != body.len() {
                                        Err(Error::ShapeMismatch)
                                    } else {
                                        Ok((body.take(n1 as int), second.1))
                                    }
                                },
                            }
                        }
                    },
                }
            }
        },
    }
}

/// PKCS#8 `EncryptedPrivateKeyInfo`: a DER `SEQUENCE` of an algorithm
/// identifier for a password-based symmetric encryption scheme and the
/// encrypted private-key data as an `OCTET STRING`.
#[derive(Clone, Debug)]
pub struct EncryptedPrivateKeyInfo {
    /// Algorithm identifier describing the password-based symmetric
    /// encryption scheme used to encrypt the `encrypted_data` field.
    pub encryption_algorithm: AlgorithmIdentifier,
    /// The encrypted private-key data.
    pub encrypted_data: Vec<u8>,
}

impl EncryptedPrivateKeyInfo {
    /// Decodes a container from its DER encoding. Succeeds exactly on the
    /// byte strings that `spec_decode` accepts and returns their two
    /// fields; fails with the error that `spec_decode` assigns, reading no
    /// byte beyond the input.
    pub fn try_from(bytes: &[u8]) -> (r: Result<EncryptedPrivateKeyInfo, Error>)
        ensures
            match r {
                Ok(v) => spec_decode(bytes@) == Ok::<(Seq<u8>, Seq<u8>), Error>(
                    (v.encryption_algorithm@, v.encrypted_data@),
                ) && is_tlv(v.encryption_algorithm@),
                Err(e) => spec_decode(bytes@) == Err::<(Seq<u8>, Seq<u8>), Error>(e),
            },
    {
        let total = bytes.len();
        let ghost s = bytes@;
        proof {
            assert(bytes@.skip(0) =~= s);
        }
        let (t, cs, cl) = match crate::tlv::read_tlv(bytes, 0) {
            Err(()) => {
                return Err(Error::StructuralDecode);
            },
            Ok(x) => x,
        };
        if cs + cl != total {
            return Err(Error::StructuralDecode);
        }
        if t != 0x30 {
            return Err(Error::ShapeMismatch);
        }
        if cl == 0 {
            return Err(Error::ShapeMismatch);
        }
        let ghost body = s.subrange(cs as int, cs + cl as int);
        proof {
            assert(body =~= s.skip(cs as int));
        }
        let (t1, cs1, cl1) = match crate::tlv::read_tlv(bytes, cs) {
            Err(()) => {
                return Err(Error::SchemeDecode);
            },
            Ok(x) => x,
        };
        let p2 = cs1 + cl1;
        let ghost n1 = (cs1 - cs) + cl1;
        proof {
            assert(body.skip(n1 as int) =~= s.skip(p2 as int));
        }
        if p2 == total {
            return Err(Error::ShapeMismatch);
        }
        let (t2, cs2, cl2) = match crate::tlv::read_tlv(bytes, p2) {
            Err(()) => {
                return Err(Error::StructuralDecode);
            },
            Ok(x) => x,
        };
        if t2 != 0x04 {
            return Err(Error::ShapeMismatch);
        }
        if cs2 + cl2 != total {
            return Err(Error::ShapeMismatch);
        }
        let algv = crate::tlv::copy_range(bytes, cs, p2);
        let datav = crate::tlv::copy_range(bytes, cs2, cs2 + cl2);
        proof {
            assert(algv@ =~= body.take(n1 as int));
            let first = parse_tlv(body)->Some_0;
            crate::tlv::lemma_parse_tlv_take(body, first.0, first.1, first.2);
        }
        Ok(
            EncryptedPrivateKeyInfo {
                encryption_algorithm: AlgorithmIdentifier { bytes: algv },
                encrypted_data: datav,
            },
        )
    }

    /// Encodes the container canonically: the algorithm identifier's bytes
    /// and the ciphertext as an `OCTET STRING`, in that fixed order, framed
    /// as a `SEQUENCE`. Fails only when the total encoded size does not fit
    /// in memory.
    pub fn to_vec(&self) -> (r: Result<Vec<u8>, Error>)
        ensures
            match r {
                Ok(out) => out@ == container_bytes(
                    self.encryption_algorithm@,
                    self.encrypted_data@,
                ),
                Err(e) => {
                    &&& e == Error::Encode
                    &&& container_bytes(self.encryption_algorithm@, self.encrypted_data@).len()
                        > usize::MAX
                },
            },
    {
        let alg_len = self.encryption_algorithm.bytes.len();
        let d_len = self.encrypted_data.len();
        let hd = crate::tlv::len_hdr_size(d_len);
        if d_len > usize::MAX - 1 - hd {
            return Err(Error::Encode);
        }
        let ot_len = 1 + hd + d_len;
        if alg_len > usize::MAX - ot_len {
            return Err(Error::Encode);
        }
        let body_len = alg_len + ot_len;
        let hb = crate::tlv::len_hdr_size(body_len);
        if body_len > usize::MAX - 1 - hb {
            return Err(Error::Encode);
        }
        let ghost alg = self.encryption_algorithm@;
        let ghost data = self.encrypted_data@;
        let ghost body = alg + tlv_bytes(0x04, data);
        proof {
            assert(body.len() == body_len);
        }
        let mut out: Vec<u8> = Vec::new();
        out.push(0x30);
        out = crate::tlv::append_len(out, body_len);
        out = crate::tlv::append_from(out, self.encryption_algorithm.bytes.as_slice());
        out.push(0x04);
        out = crate::tlv::append_len(out, d_len);
        out = crate::tlv::append_from(out, self.encrypted_data.as_slice());
        proof {
            assert(out@ =~= container_bytes(alg, data));
        }
        Ok(out)
    }
}

/// A canonical tag-length-value encoding is exactly one well-formed value
/// and parses back to its tag and contents.
proof fn lemma_tlv_parses(t: u8, c: Seq<u8>)
    requires
        t & 0x1f != 0x1f,
        c.len() < crate::tlv::pow256(8),
    ensures
        parse_tlv(tlv_bytes(t, c)) == Some((t, c, tlv_bytes(t, c).len() as nat)),
        is_tlv(tlv_bytes(t, c)),
        tlv_bytes(t, c).len() >= 2 + c.len(),
{
    crate::tlv::lemma_parse_tlv_of_tlv(t, c, Seq::<u8>::empty());
    assert(tlv_bytes(t, c) + Seq::<u8>::empty() =~= tlv_bytes(t, c));
}

/// A well-formed first value followed by anything parses out of the
/// concatenation unchanged, and the concatenation splits back into the two
/// parts.
proof fn lemma_first_of_concat(a: Seq<u8>, b: Seq<u8>)
    requires
        is_tlv(a),
    ensures
        parse_tlv(a + b) == Some(
            (parse_tlv(a)->Some_0.0, parse_tlv(a)->Some_0.1, a.len() as nat),
        ),
        (a + b).take(a.len() as int) == a,
        (a + b).skip(a.len() as int) == b,
{
    let pa = parse_tlv(a)->Some_0;
    assert(a.take(a.len() as int) =~= a);
    assert((a + b).take(a.len() as int) =~= a);
    assert((a + b).skip(a.len() as int) =~= b);
    crate::tlv::lemma_parse_tlv_prefix(a, a + b, pa.0, pa.1, a.len() as nat);
}

/// Decoding the canonical encoding of any container — a well-formed
/// algorithm identifier together with any ciphertext whose encoding fits
/// in memory — yields back exactly its two fields.
pub proof fn lemma_encode_decode(alg: Seq<u8>, data: Seq<u8>)
    requires
        is_tlv(alg),
        container_bytes(alg, data).len() <= usize::MAX,
    ensures
        spec_decode(container_bytes(alg, data)) == Ok::<(Seq<u8>, Seq<u8>), Error>((alg, data)),
{
    let ot = tlv_bytes(0x04, data);
    let body = alg + ot;
    let s = container_bytes(alg, data);
    assert((usize::MAX as nat) < crate::tlv::pow256(8)) by {
        reveal_with_fuel(crate::tlv::pow256, 9);
    }
    assert(0x04u8 & 0x1f != 0x1f) by (bit_vector);
    assert(0x30u8 & 0x1f != 0x1f) by (bit_vector);
    assert(data.len() < crate::tlv::pow256(8));
    lemma_tlv_parses(0x04, data);
    assert(body.len() < crate::tlv::pow256(8));
    lemma_tlv_parses(0x30, body);
    lemma_first_of_concat(alg, ot);
    assert(body.skip(alg.len() as int) == ot);
    assert(body.take(alg.len() as int) == alg);
}

/// A byte string that decodes is the canonical encoding of what it
/// decodes to — re-encoding a decoded container reproduces the input byte
/// for byte, and the algorithm identifier comes out well-formed.
pub proof fn lemma_decode_encode(s: Seq<u8>, a: Seq<u8>, d: Seq<u8>)
    requires
        spec_decode(s) == Ok::<(Seq<u8>, Seq<u8>), Error>((a, d)),
    ensures
        s == container_bytes(a, d),
        is_tlv(a),
{
    let outer = parse_tlv(s)->Some_0;
    let body = outer.1;
    crate::tlv::lemma_parse_tlv_canonical(s, 0x30, body, s.len() as nat);
    assert(s.take(s.len() as int) =~= s);
    let first = parse_tlv(body)->Some_0;
    crate::tlv::lemma_parse_tlv_take(body, first.0, first.1, first.2);
    let rest = body.skip(first.2 as int);
    let second = parse_tlv(rest)->Some_0;
    crate::tlv::lemma_parse_tlv_canonical(rest, 0x04, d, second.2);
    assert(rest.take(second.2 as int) =~= rest);
    assert(body =~= body.take(first.2 as int) + body.skip(first.2 as int));
    assert(s == tlv_bytes(0x30, body));
    assert(body == a + tlv_bytes(0x04, d));
}

/// An encoding whose two fields stand in the wrong order — the octet
/// string first and the scheme second — fails to decode with a shape
/// error, for every scheme whose own encoding does not itself carry the
/// octet-string tag (an actual algorithm identifier is a `SEQUENCE`, tag
/// `0x30`).
pub proof fn lemma_swapped_fields_rejected(alg: Seq<u8>, data: Seq<u8>)
    requires
        is_tlv(alg),
        alg[0] != 0x04,
        tlv_bytes(0x30, tlv_bytes(0x04, data) + alg).len() <= usize::MAX,
    ensures
        spec_decode(tlv_bytes(0x30, tlv_bytes(0x04, data) + alg)) == Err::<
            (Seq<u8>, Seq<u8>),
            Error,
        >(Error::ShapeMismatch),
{
    let ot = tlv_bytes(0x04, data);
    let body = ot + alg;
    assert((usize::MAX as nat) < crate::tlv::pow256(8)) by {
        reveal_with_fuel(crate::tlv::pow256, 9);
    }
    assert(0x04u8 & 0x1f != 0x1f) by (bit_vector);
    assert(0x30u8 & 0x1f != 0x1f) by (bit_vector);
    lemma_tlv_parses(0x04, data);
    lemma_tlv_parses(0x30, body);
    lemma_first_of_concat(ot, alg);
    let pa = parse_tlv(alg)->Some_0;
    assert(pa.0 == alg[0]);
}

/// A sequence holding only one sub-value — or none at all — fails to
/// decode with a shape error: both fields must be present.
pub proof fn lemma_single_field_rejected(v: Seq<u8>)
    requires
        is_tlv(v),
        tlv_bytes(0x30, v).len() <= usize::MAX,
    ensures
        spec_decode(tlv_bytes(0x30, v)) == Err::<(Seq<u8>, Seq<u8>), Error>(Error::ShapeMismatch),
{
    assert((usize::MAX as nat) < crate::tlv::pow256(8)) by {
        reveal_with_fuel(crate::tlv::pow256, 9);
    }
    assert(0x30u8 & 0x1f != 0x1f) by (bit_vector);
    lemma_tlv_parses(0x30, v);
    assert(v.skip(v.len() as int) =~= Seq::<u8>::empty());
}

/// A container whose second field carries any tag byte other than the
/// octet-string tag fails to decode, whatever bytes that field holds —
/// with a shape error for a readable tag, and a structural error when the
/// tag byte announces the multi-byte form that DER's single-byte-tag
/// subset excludes.
pub proof fn lemma_wrong_tag_rejected(alg: Seq<u8>, tag: u8, data: Seq<u8>)
    requires
        is_tlv(alg),
        tag != 0x04,
        tlv_bytes(0x30, alg + tlv_bytes(tag, data)).len() <= usize::MAX,
    ensures
        spec_decode(tlv_bytes(0x30, alg + tlv_bytes(tag, data))) == Err::<
            (Seq<u8>, Seq<u8>),
            Error,
        >(
            if tag & 0x1f == 0x1f {
                Error::StructuralDecode
            } else {
                Error::ShapeMismatch
            },
        ),
{
    let ot = tlv_bytes(tag, data);
    let body = alg + ot;
    assert((usize::MAX as nat) < crate::tlv::pow256(8)) by {
        reveal_with_fuel(crate::tlv::pow256, 9);
    }
    assert(0x30u8 & 0x1f != 0x1f) by (bit_vector);
    lemma_tlv_parses(0x30, body);
    lemma_first_of_concat(alg, ot);
    if tag & 0x1f == 0x1f {
        assert(ot[0] == tag);
        assert(parse_tlv(ot) is None);
    } else {
        lemma_tlv_parses(tag, data);
    }
}

/// A zero-length octet string is a valid ciphertext field and round-trips
/// like any other: empty is not an error condition.
pub proof fn lemma_empty_ciphertext_round_trip(alg: Seq<u8>)
    requires
        is_tlv(alg),
        container_bytes(alg, Seq::<u8>::empty()).len() <= usize::MAX,
    ensures
        spec_decode(container_bytes(alg, Seq::<u8>::empty())) == Ok::<(Seq<u8>, Seq<u8>), Error>(
            (alg, Seq::<u8>::empty()),
        ),
{
    lemma_encode_decode(alg, Seq::<u8>::empty());
}

} // verus!
