//! Message digests of file contents, through the RustCrypto hash crates, and
//! their textual forms.
use digest::Digest;
use vstd::prelude::*;

use crate::srcinfo::HashAlgorithm;
use crate::text::{byte_decimal, decimal, hex_lower, string_from_chars, to_hex_lower};

verus! {

/// The MD5 digest of a byte sequence.
pub uninterp spec fn md5_digest(data: Seq<u8>) -> Seq<u8>;

/// The SHA-1 digest of a byte sequence.
pub uninterp spec fn sha1_digest(data: Seq<u8>) -> Seq<u8>;

/// The SHA-224 digest of a byte sequence.
pub uninterp spec fn sha224_digest(data: Seq<u8>) -> Seq<u8>;

/// The SHA-256 digest of a byte sequence.
pub uninterp spec fn sha256_digest(data: Seq<u8>) -> Seq<u8>;

/// The SHA-384 digest of a byte sequence.
pub uninterp spec fn sha384_digest(data: Seq<u8>) -> Seq<u8>;

/// The SHA-512 digest of a byte sequence.
pub uninterp spec fn sha512_digest(data: Seq<u8>) -> Seq<u8>;

/// Calls `md5::Md5::digest` (crate md-5) and copies the output out. Claimed:
/// the result is `md5_digest` of the input, 16 bytes long (the output size
/// fixed by `Md5`).
#[verifier::external_body]
fn md5_bytes(data: &[u8]) -> (d: Vec<u8>)
    ensures
        d@ == md5_digest(data@),
        d@.len() == 16,
{
    md5::Md5::digest(data).to_vec()
}

/// Calls `sha1::Sha1::digest` and copies the output out. Claimed: the result
/// is `sha1_digest` of the input, 20 bytes long.
#[verifier::external_body]
fn sha1_bytes(data: &[u8]) -> (d: Vec<u8>)
    ensures
        d@ == sha1_digest(data@),
        d@.len() == 20,
{
    sha1::Sha1::digest(data).to_vec()
}

/// Calls `sha2::Sha224::digest` and copies the output out. Claimed: the
/// result is `sha224_digest` of the input, 28 bytes long.
#[verifier::external_body]
fn sha224_bytes(data: &[u8]) -> (d: Vec<u8>)
    ensures
        d@ == sha224_digest(data@),
        d@.len() == 28,
{
    sha2::Sha224::digest(data).to_vec()
}

/// Calls `sha2::Sha256::digest` and copies the output out. Claimed: the
/// result is `sha256_digest` of the input, 32 bytes long.
#[verifier::external_body]
fn sha256_bytes(data: &[u8]) -> (d: Vec<u8>)
    ensures
        d@ == sha256_digest(data@),
        d@.len() == 32,
{
    sha2::Sha256::digest(data).to_vec()
}

/// Calls `sha2::Sha384::digest` and copies the output out. Claimed: the
/// result is `sha384_digest` of the input, 48 bytes long.
#[verifier::external_body]
fn sha384_bytes(data: &[u8]) -> (d: Vec<u8>)
    ensures
        d@ == sha384_digest(data@),
        d@.len() == 48,
{
    sha2::Sha384::digest(data).to_vec()
}

/// Calls `sha2::Sha512::digest` and copies the output out. Claimed: the
/// result is `sha512_digest` of the input, 64 bytes long.
#[verifier::external_body]
fn sha512_bytes(data: &[u8]) -> (d: Vec<u8>)
    ensures
        d@ == sha512_digest(data@),
        d@.len() == 64,
{
    sha2::Sha512::digest(data).to_vec()
}

/// The digest of `data` under algorithm `a`.
pub open spec fn digest_of(a: HashAlgorithm, data: Seq<u8>) -> Seq<u8> {
    match a {
        HashAlgorithm::Md5 => md5_digest(data),
        HashAlgorithm::Sha1 => sha1_digest(data),
        HashAlgorithm::Sha224 => sha224_digest(data),
        HashAlgorithm::Sha256 => sha256_digest(data),
        HashAlgorithm::Sha384 => sha384_digest(data),
        HashAlgorithm::Sha512 => sha512_digest(data),
    }
}

/// The number of bytes in a digest of algorithm `a`.
pub open spec fn digest_len(a: HashAlgorithm) -> nat {
    match a {
        HashAlgorithm::Md5 => 16,
        HashAlgorithm::Sha1 => 20,
        HashAlgorithm::Sha224 => 28,
        HashAlgorithm::Sha256 => 32,
        HashAlgorithm::Sha384 => 48,
        HashAlgorithm::Sha512 => 64,
    }
}

/// The digest of `data` under algorithm `a`.
pub fn digest(a: HashAlgorithm, data: &[u8]) -> (d: Vec<u8>)
    ensures
        d@ == digest_of(a, data@),
        d@.len() == digest_len(a),
        d@ == match a {
            HashAlgorithm::Md5 => md5_digest(data@),
            HashAlgorithm::Sha1 => sha1_digest(data@),
            HashAlgorithm::Sha224 => sha224_digest(data@),
            HashAlgorithm::Sha256 => sha256_digest(data@),
            HashAlgorithm::Sha384 => sha384_digest(data@),
            HashAlgorithm::Sha512 => sha512_digest(data@),
        },
{
    match a {
        HashAlgorithm::Md5 => md5_bytes(data),
        HashAlgorithm::Sha1 => sha1_bytes(data),
        HashAlgorithm::Sha224 => sha224_bytes(data),
        HashAlgorithm::Sha256 => sha256_bytes(data),
        HashAlgorithm::Sha384 => sha384_bytes(data),
        HashAlgorithm::Sha512 => sha512_bytes(data),
    }
}

/// A digest written as lower-case hexadecimal, two digits per byte.
pub fn digest_hex(digest: &[u8]) -> (s: String)
    ensures
        s@ == hex_lower(digest@),
{
    let v = to_hex_lower(digest);
    string_from_chars(v.as_slice())
}

/// The checksum that `makepkg` expects for a file's contents: its digest
/// under `a` in lower-case hexadecimal.
pub fn checksum(a: HashAlgorithm, data: &[u8]) -> (s: String)
    ensures
        s@ == hex_lower(digest_of(a, data@)),
        s@.len() == 2 * digest_len(a),
        s@ == hex_lower(
            match a {
                HashAlgorithm::Md5 => md5_digest(data@),
                HashAlgorithm::Sha1 => sha1_digest(data@),
                HashAlgorithm::Sha224 => sha224_digest(data@),
                HashAlgorithm::Sha256 => sha256_digest(data@),
                HashAlgorithm::Sha384 => sha384_digest(data@),
                HashAlgorithm::Sha512 => sha512_digest(data@),
            },
        ),
{
    let d = digest(a, data);
    let s = digest_hex(d.as_slice());
    proof {
        lemma_hex_lower_len(d@);
    }
    s
}

/// The digest of a file's contents under each algorithm is that
/// algorithm's digest of all of the contents, byte for byte: nothing is cut
/// off or changed before hashing.
pub proof fn lemma_digest_of_whole_input(data: Seq<u8>)
    ensures
        digest_of(HashAlgorithm::Md5, data) == md5_digest(data),
        digest_of(HashAlgorithm::Sha1, data) == sha1_digest(data),
        digest_of(HashAlgorithm::Sha224, data) == sha224_digest(data),
        digest_of(HashAlgorithm::Sha256, data) == sha256_digest(data),
        digest_of(HashAlgorithm::Sha384, data) == sha384_digest(data),
        digest_of(HashAlgorithm::Sha512, data) == sha512_digest(data),
{
}

/// Two hexadecimal digits per byte.
pub proof fn lemma_hex_lower_len(bytes: Seq<u8>)
    ensures
        hex_lower(bytes).len() == 2 * bytes.len(),
    decreases bytes.len(),
{
    if bytes.len() > 0 {
        lemma_hex_lower_len(bytes.drop_last());
    }
}

/// The first byte of a digest, in decimal.
pub fn first_byte_decimal(digest: &[u8]) -> (s: String)
    requires
        digest@.len() > 0,
    ensures
        s@ == decimal(digest@[0] as nat),
{
    let v = byte_decimal(digest[0]);
    string_from_chars(v.as_slice())
}

/// The first byte of the SHA-1 digest of `data`, in decimal.
pub fn compute_sha1(data: &[u8]) -> (s: String)
    ensures
        s@ == decimal(sha1_digest(data@)[0] as nat),
{
    let d = sha1_bytes(data);
    first_byte_decimal(d.as_slice())
}

/// The first byte of the SHA-224 digest of `data`, in decimal.
pub fn compute_sha224(data: &[u8]) -> (s: String)
    ensures
        s@ == decimal(sha224_digest(data@)[0] as nat),
{
    let d = sha224_bytes(data);
    first_byte_decimal(d.as_slice())
}

/// The first byte of the SHA-384 digest of `data`, in decimal.
pub fn compute_sha384(data: &[u8]) -> (s: String)
    ensures
        s@ == decimal(sha384_digest(data@)[0] as nat),
{
    let d = sha384_bytes(data);
    first_byte_decimal(d.as_slice())
}

/// The first byte of the SHA-256 digest of `data`, in decimal.
pub fn compute_sha256(data: &[u8]) -> (s: String)
    ensures
        s@ == decimal(sha256_digest(data@)[0] as nat),
{
    let d = sha256_bytes(data);
    first_byte_decimal(d.as_slice())
}

/// The first byte of the SHA-512 digest of `data`, in decimal.
pub fn compute_sha512(data: &[u8]) -> (s: String)
    ensures
        s@ == decimal(sha512_digest(data@)[0] as nat),
{
    let d = sha512_bytes(data);
    first_byte_decimal(d.as_slice())
}

/// The first byte of the MD5 digest of `data`, in decimal.
pub fn compute_md5(data: &[u8]) -> (s: String)
    ensures
        s@ == decimal(md5_digest(data@)[0] as nat),
{
    let d = md5_bytes(data);
    first_byte_decimal(d.as_slice())
}

} // verus!
