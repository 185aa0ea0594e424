use makeppkg::digests::{
    checksum, compute_md5, compute_sha1, compute_sha224, compute_sha256, compute_sha384,
    compute_sha512, digest, digest_hex, first_byte_decimal,
};
use makeppkg::srcinfo::HashAlgorithm;

#[test]
fn checksums_of_abc() {
    let abc = b"abc";
    assert_eq!(checksum(HashAlgorithm::Md5, abc), "900150983cd24fb0d6963f7d28e17f72");
    assert_eq!(checksum(HashAlgorithm::Sha1, abc), "a9993e364706816aba3e25717850c26c9cd0d89d");
    assert_eq!(
        checksum(HashAlgorithm::Sha224, abc),
        "23097d223405d8228642a477bda255b32aadbce4bda0b3f7e36c9da7"
    );
    assert_eq!(
        checksum(HashAlgorithm::Sha256, abc),
        "ba7816bf8f01cfea414140de5dae2223b00361a396177a9cb410ff61f20015ad"
    );
    assert_eq!(
        checksum(HashAlgorithm::Sha384, abc),
        "cb00753f45a35e8bb5a03d699ac65007272c32ab0eded1631a8b605a43ff5bed8086072ba1e7cc2358baeca134c825a7"
    );
    assert_eq!(
        checksum(HashAlgorithm::Sha512, abc),
        "ddaf35a193617abacc417349ae20413112e6fa4e89a97ea20a9eeee64b55d39a2192992a274fc1a836ba3c23a3feebbd454d4423643ce80e2a9ac94fa54ca49f"
    );
}

#[test]
fn checksum_of_empty() {
    assert_eq!(checksum(HashAlgorithm::Md5, b""), "d41d8cd98f00b204e9800998ecf8427e");
}

#[test]
fn digest_lengths() {
    assert_eq!(digest(HashAlgorithm::Md5, b"x").len(), 16);
    assert_eq!(digest(HashAlgorithm::Sha1, b"x").len(), 20);
    assert_eq!(digest(HashAlgorithm::Sha224, b"x").len(), 28);
    assert_eq!(digest(HashAlgorithm::Sha256, b"x").len(), 32);
    assert_eq!(digest(HashAlgorithm::Sha384, b"x").len(), 48);
    assert_eq!(digest(HashAlgorithm::Sha512, b"x").len(), 64);
}

#[test]
fn hex_two_digits_per_byte() {
    assert_eq!(digest_hex(&[0x00, 0x0f, 0xa0, 0xff]), "000fa0ff");
    assert_eq!(digest_hex(&[]), "");
}

#[test]
fn first_byte_in_decimal() {
    assert_eq!(first_byte_decimal(&[0]), "0");
    assert_eq!(first_byte_decimal(&[9, 1]), "9");
    assert_eq!(first_byte_decimal(&[10]), "10");
    assert_eq!(first_byte_decimal(&[99]), "99");
    assert_eq!(first_byte_decimal(&[100]), "100");
    assert_eq!(first_byte_decimal(&[255]), "255");
}

#[test]
fn compute_first_bytes() {
    assert_eq!(compute_md5(b""), "212");
    assert_eq!(compute_sha1(b"abc"), "169");
    assert_eq!(compute_sha224(b"abc"), "35");
    assert_eq!(compute_sha256(b"abc"), "186");
    assert_eq!(compute_sha384(b"abc"), "203");
    assert_eq!(compute_sha512(b"abc"), "221");
}
