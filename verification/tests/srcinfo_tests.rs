use makeppkg::srcinfo::{find_algorithm, package_name, srcinfo_values, HashAlgorithm};
use makeppkg::text::chars_of;

const SRCINFO: &str = "pkgbase = linux-zen\n\tpkgdesc = The Linux ZEN kernel\n\tpkgver = 4.19.1\n\tsource = https://example.org/linux.tar.xz\n\tsource = config\n\tsha256sums = aaaa\n\tsha256sums = bbbb\n\npkgname = linux-zen\n\npkgname = linux-zen-headers\n";

#[test]
fn package_name_reads_pkgbase() {
    assert_eq!(package_name(&SRCINFO.to_string()), Ok("linux-zen".to_string()));
}

#[test]
fn package_name_first_pkgbase_wins() {
    let s = "pkgname = a\npkgbase = first\npkgbase = second\n".to_string();
    assert_eq!(package_name(&s), Ok("first".to_string()));
}

#[test]
fn package_name_needs_line_start() {
    let s = "\tpkgbase = indented\n".to_string();
    assert_eq!(package_name(&s), Err("No package name found".to_string()));
}

#[test]
fn package_name_missing() {
    assert_eq!(package_name(&"".to_string()), Err("No package name found".to_string()));
    assert_eq!(
        package_name(&"pkgname = x\n".to_string()),
        Err("No package name found".to_string())
    );
}

#[test]
fn package_name_keeps_carriage_return_free_value() {
    let s = "pkgbase = win\r\nother\n".to_string();
    assert_eq!(package_name(&s), Ok("win".to_string()));
}

#[test]
fn package_name_empty_value() {
    assert_eq!(package_name(&"pkgbase = ".to_string()), Ok("".to_string()));
}

#[test]
fn find_algorithm_reads_first_sums_line() {
    assert_eq!(find_algorithm(&SRCINFO.to_string()), Ok(HashAlgorithm::Sha256));
}

#[test]
fn find_algorithm_each_name() {
    for (line, alg) in [
        ("md5sums = x", HashAlgorithm::Md5),
        ("sha1sums = x", HashAlgorithm::Sha1),
        ("sha224sums = x", HashAlgorithm::Sha224),
        ("sha256sums = x", HashAlgorithm::Sha256),
        ("sha384sums = x", HashAlgorithm::Sha384),
        ("sha512sums = x", HashAlgorithm::Sha512),
    ] {
        assert_eq!(find_algorithm(&format!("pkgbase = p\n  {}\n", line)), Ok(alg));
    }
}

#[test]
fn find_algorithm_earliest_line() {
    let s = "\tsha512sums = a\n\tmd5sums = b\n".to_string();
    assert_eq!(find_algorithm(&s), Ok(HashAlgorithm::Sha512));
}

#[test]
fn find_algorithm_trailing_space_trimmed() {
    // "md5sums = " trimmed is "md5sums =", which lacks the space
    let s = "md5sums = \nsha1sums = x\n".to_string();
    assert_eq!(find_algorithm(&s), Ok(HashAlgorithm::Sha1));
}

#[test]
fn find_algorithm_missing() {
    let s = "pkgbase = p\n\tsource = x\n\tb2sums = y\n".to_string();
    assert_eq!(find_algorithm(&s), Err("No algorithm found".to_string()));
}

#[test]
fn algorithm_names() {
    assert_eq!(HashAlgorithm::Md5.name(), "md5");
    assert_eq!(HashAlgorithm::Sha384.name(), "sha384");
    let key: String = HashAlgorithm::Sha512.sums_key().into_iter().collect();
    assert_eq!(key, "sha512sums");
}

#[test]
fn srcinfo_values_of_sources() {
    let key = chars_of("source");
    let v = srcinfo_values(&SRCINFO.to_string(), &key).unwrap();
    assert_eq!(v, vec!["https://example.org/linux.tar.xz".to_string(), "config".to_string()]);
}

#[test]
fn srcinfo_values_of_sums_any_case() {
    let key = chars_of("sha256sums");
    let s = "\tSHA256SUMS = one\n\tsha256sums = two\n".to_string();
    let v = srcinfo_values(&s, &key).unwrap();
    assert_eq!(v, vec!["one".to_string(), "two".to_string()]);
}

#[test]
fn srcinfo_values_none() {
    let key = chars_of("source");
    let v = srcinfo_values(&"pkgbase = x\n".to_string(), &key).unwrap();
    assert!(v.is_empty());
}
