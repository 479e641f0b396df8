//! The certificate bundle: the certificate, the key and the authority's
//! certificate that configure a connection, held together as one message
//! so that they can be stored as a single blob.

use vstd::prelude::*;
use crate::wire::{MAX_TAG, bytes_field, parse_bytes, parse_key, skipped, varint_bytes};
use crate::wire::{lemma_bytes_field_round_trip, lemma_varint_rest};
use crate::wire::{put_bytes_field, read_bytes, read_key, skip_unknown};

verus! {

/// Field number of the certificate.
pub const CERT_TAG: u32 = 1;

/// Field number of the key.
pub const KEY_TAG: u32 = 2;

/// Field number of the authority's certificate.
pub const CA_TAG: u32 = 3;

/// Why a bundle could not be written or read.
#[derive(Clone, Copy, Debug, PartialEq, Eq, Structural)]
pub enum CertFileError {
    /// The bytes are not a message in the wire format.
    Malformed,
}

/// The certificates and the key of one identity.
#[derive(Clone, Debug, PartialEq, Eq, Default)]
pub struct CertFile {
    pub cert: Vec<u8>,
    pub key: Vec<u8>,
    pub ca: Vec<u8>,
}

/// The mathematical content of a bundle.
pub struct CertModel {
    pub cert: Seq<u8>,
    pub key: Seq<u8>,
    pub ca: Seq<u8>,
}

impl View for CertFile {
    type V = CertModel;

    open spec fn view(&self) -> CertModel {
        CertModel { cert: self.cert@, key: self.key@, ca: self.ca@ }
    }
}

/// The bundle with nothing in it.
pub open spec fn empty_model() -> CertModel {
    CertModel { cert: Seq::empty(), key: Seq::empty(), ca: Seq::empty() }
}

/// The bytes of one field of a bundle: nothing for an empty value.
pub open spec fn field_bytes(tag: u32, value: Seq<u8>) -> Seq<u8> {
    if value.len() == 0 {
        Seq::empty()
    } else {
        bytes_field(tag, value)
    }
}

/// The bytes of a bundle: its fields that are not empty, in the order of
/// their numbers.
pub open spec fn encoding(m: CertModel) -> Seq<u8> {
    field_bytes(CERT_TAG, m.cert) + field_bytes(KEY_TAG, m.key) + field_bytes(CA_TAG, m.ca)
}

/// Reads into `m` the field with the number `tag` and the wire type
/// `wire`, whose key has been read: the new bundle and the bytes that
/// follow the field. A field of the bundle replaces what `m` held; any
/// other field is stepped over.
pub open spec fn field_read(m: CertModel, tag: u32, wire: u8, b: Seq<u8>) -> Option<(CertModel, Seq<u8>)> {
    if tag == CERT_TAG || tag == KEY_TAG || tag == CA_TAG {
        match parse_bytes(wire, b) {
            Some((value, rest)) => Some(
                (
                    if tag == CERT_TAG {
                        CertModel { cert: value, ..m }
                    } else if tag == KEY_TAG {
                        CertModel { key: value, ..m }
                    } else {
                        CertModel { ca: value, ..m }
                    },
                    rest,
                ),
            ),
            None => None,
        }
    } else {
        match skipped(wire, tag, b) {
            Some(rest) => if rest.len() <= b.len() {
                Some((m, rest))
            } else {
                None
            },
            None => None,
        }
    }
}

/// Reads fields into `m` until the bytes are used up. There is no bundle
/// where a key or a field cannot be read.
pub open spec fn decoded_from(m: CertModel, b: Seq<u8>) -> Option<CertModel>
    decreases b.len(),
{
    if b.len() == 0 {
        Some(m)
    } else {
        match parse_key(b) {
            Some((tag, wire, after_key)) => match field_read(m, tag, wire, after_key) {
                Some((next, rest)) => if rest.len() < b.len() {
                    decoded_from(next, rest)
                } else {
                    None
                },
                None => None,
            },
            None => None,
        }
    }
}

/// The bundle that the bytes `b` stand for, if they stand for one.
pub open spec fn decoded(b: Seq<u8>) -> Option<CertModel> {
    decoded_from(empty_model(), b)
}

/// Reading a field never gives back more bytes than it was given.
pub proof fn lemma_field_read_rest(m: CertModel, tag: u32, wire: u8, b: Seq<u8>)
    requires
        field_read(m, tag, wire, b) is Some,
    ensures
        field_read(m, tag, wire, b)->Some_0.1.len() <= b.len(),
{
    if tag == CERT_TAG || tag == KEY_TAG || tag == CA_TAG {
        lemma_varint_rest(b, 0);
    }
}

impl CertFile {
    /// Appends the field `tag` to `buf` unless it is empty.
    fn put_field(tag: u32, value: &Vec<u8>, buf: &mut Vec<u8>)
        requires
            1 <= tag <= MAX_TAG,
        ensures
            final(buf)@ == old(buf)@ + field_bytes(tag, value@),
    {
        if value.len() != 0 {
            put_bytes_field(tag, value, buf);
        } else {
            assert(buf@ + field_bytes(tag, value@) =~= buf@);
        }
    }

    /// The bundle as one blob of bytes.
    pub fn serialize(&self) -> (r: Result<Vec<u8>, CertFileError>)
        ensures
            r is Ok,
            r->Ok_0@ == encoding(self@),
    {
        let mut buf: Vec<u8> = Vec::new();
        CertFile::put_field(CERT_TAG, &self.cert, &mut buf);
        CertFile::put_field(KEY_TAG, &self.key, &mut buf);
        CertFile::put_field(CA_TAG, &self.ca, &mut buf);
        assert(buf@ =~= encoding(self@));
        Ok(buf)
    }

    /// Reads one field, whose key has been read, into the bundle, and
    /// hands back the bytes that follow it.
    fn merge_field<'a>(&mut self, tag: u32, wire: u8, buf: &'a [u8]) -> (r: Result<
        &'a [u8],
        CertFileError,
    >)
        ensures
            match r {
                Ok(rest) => field_read(old(self)@, tag, wire, buf@) == Some((final(self)@, rest@)),
                Err(e) => field_read(old(self)@, tag, wire, buf@) is None,
            },
    {
        if tag == CERT_TAG || tag == KEY_TAG || tag == CA_TAG {
            match read_bytes(wire, buf) {
                Ok((value, rest)) => {
                    if tag == CERT_TAG {
                        self.cert = value;
                    } else if tag == KEY_TAG {
                        self.key = value;
                    } else {
                        self.ca = value;
                    }
                    Ok(rest)
                },
                Err(_) => Err(CertFileError::Malformed),
            }
        } else {
            match skip_unknown(wire, tag, buf) {
                Ok(rest) => Ok(rest),
                Err(_) => Err(CertFileError::Malformed),
            }
        }
    }

    /// The bundle that a blob of bytes stands for. Of a field that occurs
    /// more than once the last stands; fields that are no part of the
    /// bundle are stepped over; a blob that cannot be read to its end is
    /// refused.
    pub fn deserialize(data: &[u8]) -> (r: Result<CertFile, CertFileError>)
        ensures
            match r {
                Ok(cf) => decoded(data@) == Some(cf@),
                Err(e) => e == CertFileError::Malformed && decoded(data@) is None,
            },
    {
        let mut msg = CertFile { cert: Vec::new(), key: Vec::new(), ca: Vec::new() };
        let mut rest: &[u8] = data;
        assert(msg@ == empty_model());
        while rest.len() > 0
            invariant
                decoded_from(msg@, rest@) == decoded(data@),
            decreases rest@.len(),
        {
            let (tag, wire, after_key) = match read_key(rest) {
                Ok(k) => k,
                Err(_) => {
                    return Err(CertFileError::Malformed);
                },
            };
            proof {
                lemma_varint_rest(rest@, 0);
                if field_read(msg@, tag, wire, after_key@) is Some {
                    lemma_field_read_rest(msg@, tag, wire, after_key@);
                }
            }
            match msg.merge_field(tag, wire, after_key) {
                Ok(after) => {
                    rest = after;
                },
                Err(_) => {
                    return Err(CertFileError::Malformed);
                },
            }
        }
        Ok(msg)
    }
}

/// A bundle that was written is read back as it was.
pub proof fn lemma_serialize_round_trip(cf: CertFile)
    ensures
        decoded(encoding(cf@)) == Some(cf@),
{
    let m = cf@;
    let e3 = field_bytes(CA_TAG, m.ca);
    let e2 = field_bytes(KEY_TAG, m.key);
    let e1 = field_bytes(CERT_TAG, m.cert);
    let m1 = CertModel { cert: m.cert, ..empty_model() };
    let m2 = CertModel { key: m.key, ..m1 };
    let empty = Seq::<u8>::empty();
    assert(m.cert.len() == cf.cert.len());
    assert(m.key.len() == cf.key.len());
    assert(m.ca.len() == cf.ca.len());
    // the last field, read into a bundle that holds the first two
    assert(decoded_from(m2, e3) == Some(m)) by {
        if m.ca.len() > 0 {
            lemma_bytes_field_round_trip(CA_TAG, m.ca, empty);
            assert(e3 + empty =~= e3);
            assert(varint_bytes(m.ca.len()) + m.ca + empty =~= varint_bytes(m.ca.len()) + m.ca);
            lemma_varint_rest(e3, 0);
            assert(CertModel { ca: m.ca, ..m2 } == m);
            assert(decoded_from(m, empty) == Some(m));
        } else {
            assert(m.ca =~= empty);
            assert(m2 == m);
        }
    }
    // the second field, followed by the last
    assert(decoded_from(m1, e2 + e3) == Some(m)) by {
        if m.key.len() > 0 {
            lemma_bytes_field_round_trip(KEY_TAG, m.key, e3);
            lemma_varint_rest(e2 + e3, 0);
        } else {
            assert(m.key =~= empty);
            assert(m1 == m2);
            assert(e2 + e3 =~= e3);
        }
    }
    // the first field, followed by the other two
    assert(decoded_from(empty_model(), e1 + (e2 + e3)) == Some(m)) by {
        if m.cert.len() > 0 {
            lemma_bytes_field_round_trip(CERT_TAG, m.cert, e2 + e3);
            lemma_varint_rest(e1 + (e2 + e3), 0);
        } else {
            assert(m.cert =~= empty);
            assert(m1 == empty_model());
            assert(e1 + (e2 + e3) =~= e2 + e3);
        }
    }
    assert(encoding(m) =~= e1 + (e2 + e3));
}

} // verus!
