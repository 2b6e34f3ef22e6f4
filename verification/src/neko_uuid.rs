//! Deterministic content-addressed point identifiers: version-5 UUIDs under a
//! fixed application namespace, derived from raw bytes through SHA-1, or from
//! a precomputed 20-byte digest.

use crate::point_id::PointId;
use sha1::Digest;
use vstd::prelude::*;

verus! {

/// The SHA-1 digest of a byte string; a function of the input bytes alone.
pub uninterp spec fn sha1_of(data: Seq<u8>) -> Seq<u8>;

/// The RFC 9562 version-5 UUID of a namespace and a name, as 128 bits;
/// a function of its arguments alone.
pub uninterp spec fn v5_of(namespace: u128, name: Seq<u8>) -> u128;

/// The RFC 9562 UUID namespace for Domain Name System names.
pub const NAMESPACE_DNS_VALUE: u128 = 0x6ba7b8109dad11d180b400c04fd430c8;

/// Relies on sha1::Sha1 (through the Digest trait): the digest is a function
/// of the input bytes alone and is 20 bytes long.
#[verifier::external_body]
fn sha1_digest(data: &[u8]) -> (r: Vec<u8>)
    ensures
        r@ == sha1_of(data@),
        r@.len() == 20,
{
    sha1::Sha1::digest(data).to_vec()
}

/// Relies on uuid::Uuid::new_v5: the name-based UUID of RFC 9562, a function
/// of the namespace and name bytes alone.
#[verifier::external_body]
fn uuid_v5(namespace: u128, name: &[u8]) -> (r: u128)
    ensures
        r == v5_of(namespace, name@),
{
    uuid::Uuid::new_v5(&uuid::Uuid::from_u128(namespace), name).as_u128()
}

/// The lowercase hexadecimal digit for a value below sixteen, as an ASCII byte.
pub open spec fn hex_digit_ascii(d: int) -> u8 {
    if d < 10 {
        (48 + d) as u8
    } else {
        (87 + d) as u8
    }
}

/// The lowercase hexadecimal spelling of a byte string, as ASCII bytes:
/// two digits per byte, high nibble first.
pub open spec fn hex_ascii(bytes: Seq<u8>) -> Seq<u8> {
    Seq::new(
        2 * bytes.len(),
        |i: int|
            if i % 2 == 0 {
                hex_digit_ascii(bytes[i / 2] as int / 16)
            } else {
                hex_digit_ascii(bytes[i / 2] as int % 16)
            },
    )
}

/// Spell a byte string in lowercase hexadecimal ASCII.
fn to_hex_ascii(bytes: &[u8]) -> (r: Vec<u8>)
    requires
        bytes@.len() <= usize::MAX as nat / 2,
    ensures
        r@ == hex_ascii(bytes@),
{
    let mut r: Vec<u8> = Vec::new();
    let mut i: usize = 0;
    while i < bytes.len()
        invariant
            i <= bytes@.len(),
            bytes@.len() <= usize::MAX as nat / 2,
            r@.len() == 2 * i,
            forall|j: int| 0 <= j < r@.len() ==> r@[j] == hex_ascii(bytes@)[j],
        decreases bytes@.len() - i,
    {
        let b = bytes[i];
        let hi = b / 16;
        let lo = b % 16;
        r.push(if hi < 10 { 48 + hi } else { 87 + hi });
        r.push(if lo < 10 { 48 + lo } else { 87 + lo });
        i = i + 1;
    }
    proof {
        assert(r@ =~= hex_ascii(bytes@));
    }
    r
}

/// The name that derives the application namespace, as UTF-8 bytes.
pub open spec fn app_namespace_name() -> Seq<u8> {
    vstd::utf8::encode_utf8("github.com/hv0905/NekoImageGallery"@)
}

/// The fixed application namespace: the version-5 UUID of the project URL
/// under the DNS namespace.
pub open spec fn app_namespace() -> u128 {
    v5_of(NAMESPACE_DNS_VALUE, app_namespace_name())
}

/// Generator of deterministic content-addressed UUIDs.
pub struct NekoUuid {
    namespace: PointId,
}

impl NekoUuid {
    /// The namespace under which this generator derives identifiers.
    pub closed spec fn namespace_value(&self) -> u128 {
        self.namespace.value
    }

    /// The spec-level identifier that `generate` derives from raw bytes.
    pub open spec fn generated(data: Seq<u8>) -> u128 {
        v5_of(app_namespace(), hex_ascii(sha1_of(data)))
    }

    /// A generator under the fixed application namespace.
    pub fn new() -> (r: NekoUuid)
        ensures
            r.namespace_value() == app_namespace(),
    {
        let name: &str = "github.com/hv0905/NekoImageGallery";
        let ns = uuid_v5(NAMESPACE_DNS_VALUE, name.as_bytes());
        NekoUuid { namespace: PointId { value: ns } }
    }

    /// The identifier of a byte string: hash it, then derive from the digest.
    pub fn generate(&self, data: &[u8]) -> (r: PointId)
        requires
            self.namespace_value() == app_namespace(),
        ensures
            r.value == Self::generated(data@),
    {
        let digest = sha1_digest(data);
        self.generate_from_sha1(digest.as_slice())
    }

    /// The identifier of a precomputed 20-byte SHA-1 digest: the version-5
    /// UUID of the digest's hexadecimal spelling under the application
    /// namespace.
    pub fn generate_from_sha1(&self, digest: &[u8]) -> (r: PointId)
        requires
            digest@.len() == 20,
        ensures
            r.value == v5_of(self.namespace_value(), hex_ascii(digest@)),
    {
        let hex = to_hex_ascii(digest);
        PointId { value: uuid_v5(self.namespace.value, hex.as_slice()) }
    }
}

} // verus!
