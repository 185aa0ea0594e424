use makeppkg::patches::PatchFile;
use makeppkg::pkgbuild::{
    prepend_prepare_patches, replace_array_string, try_replace_array_string, update_pkgbuild,
};
use makeppkg::srcinfo::HashAlgorithm;

fn patch(file_name: &str, checksum: Option<&str>) -> PatchFile {
    PatchFile {
        name: file_name.to_string(),
        path: format!("/patches/{}", file_name),
        file_name: file_name.to_string(),
        checksum: checksum.map(|c| c.to_string()),
    }
}

const PKGBUILD: &str = "pkgname=foo\npkgver=1\nsource=('a.tar.gz'\n        'config')\nsha256sums=('11'\n            '22')\n\nprepare() {\n  cd foo\n}\n\nbuild() {\n  make\n}\n";

#[test]
fn replace_multi_line_array() {
    let r = replace_array_string(
        &PKGBUILD.to_string(),
        "source".to_string(),
        &vec!["a.tar.gz".to_string(), "x.patch".to_string()],
    );
    assert_eq!(
        r,
        "pkgname=foo\npkgver=1\nsource=(\n\t'a.tar.gz'\n\t'x.patch'\n)\nsha256sums=('11'\n            '22')\n\nprepare() {\n  cd foo\n}\n\nbuild() {\n  make\n}"
    );
}

#[test]
fn replace_one_line_array() {
    let r = replace_array_string(
        &"a=1\nmd5sums=('x')\nb=2".to_string(),
        "md5sums".to_string(),
        &vec!["x".to_string(), "y".to_string()],
    );
    assert_eq!(r, "a=1\nmd5sums=(\n\t'x'\n\t'y'\n)\nb=2");
}

#[test]
fn replace_empty_array() {
    let r = replace_array_string(&"a=1\nsource=()".to_string(), "source".to_string(), &vec![]);
    assert_eq!(r, "a=1\nsource=(\n)");
}

#[test]
fn replace_missing_array_takes_first_line() {
    // with no line that starts with the name, the span is line 0
    let r = replace_array_string(&"a=1\nb=2".to_string(), "source".to_string(), &vec!["s".to_string()]);
    assert_eq!(r, "source=(\n\t's'\n)\nb=2");
}

#[test]
fn replace_unclosed_array_on_second_line() {
    let r = replace_array_string(&"a=1\nsource=(x\nb=2".to_string(), "source".to_string(), &vec![]);
    assert_eq!(r, "a=1\nsource=(\n)\nsource=(x\nb=2");
}

#[test]
fn replace_refused_where_span_cannot_be_removed() {
    assert_eq!(try_replace_array_string(&"".to_string(), &"source".to_string(), &vec![]), None);
    assert_eq!(
        try_replace_array_string(&"a\nb\nsource=(x\nc".to_string(), &"source".to_string(), &vec![]),
        None
    );
}

#[test]
fn prepend_into_prepare() {
    let r = prepend_prepare_patches(
        PKGBUILD.to_string(),
        &vec![patch("one.patch", None), patch("two.diff", None)],
    );
    assert_eq!(
        r,
        "pkgname=foo\npkgver=1\nsource=('a.tar.gz'\n        'config')\nsha256sums=('11'\n            '22')\n\nprepare() {\n\tpatch -Np1 -i ${srcdir}/one.patch\n\tpatch -Np1 -i ${srcdir}/two.diff\n\n  cd foo\n}\n\nbuild() {\n  make\n}"
    );
}

#[test]
fn prepend_creates_prepare_before_build() {
    let r = prepend_prepare_patches("a=1\nbuild() {\n  make\n}\n".to_string(), &vec![patch("p.patch", None)]);
    assert_eq!(r, "a=1\nprepare() {\n\tpatch -Np1 -i ${srcdir}/p.patch\n}\n\nbuild() {\n  make\n}");
}

#[test]
fn prepend_without_functions_goes_on_top() {
    let r = prepend_prepare_patches("a=1\n".to_string(), &vec![patch("p.patch", None)]);
    assert_eq!(r, "prepare() {\n\tpatch -Np1 -i ${srcdir}/p.patch\n}\n\na=1");
}

#[test]
fn update_adds_sources_checksums_and_commands() {
    let r = update_pkgbuild(
        &PKGBUILD.to_string(),
        HashAlgorithm::Sha256,
        &vec!["a.tar.gz".to_string(), "config".to_string()],
        &vec!["11".to_string(), "22".to_string()],
        &vec![patch("fix.patch", Some("33"))],
    )
    .unwrap();
    assert_eq!(
        r,
        "pkgname=foo\npkgver=1\nsource=(\n\t'a.tar.gz'\n\t'config'\n\t'fix.patch'\n)\nsha256sums=(\n\t'11'\n\t'22'\n\t'33'\n)\n\nprepare() {\n\tpatch -Np1 -i ${srcdir}/fix.patch\n\n  cd foo\n}\n\nbuild() {\n  make\n}"
    );
}

#[test]
fn replacing_twice_is_replacing_once() {
    let text = PKGBUILD.to_string();
    let a = vec!["x".to_string(), "y".to_string()];
    let b = vec!["z".to_string()];
    let once = replace_array_string(&text, "source".to_string(), &b);
    let first = replace_array_string(&text, "source".to_string(), &a);
    let twice = replace_array_string(&first, "source".to_string(), &b);
    assert_eq!(twice, once);
    let again = replace_array_string(&first, "source".to_string(), &a);
    assert_eq!(again, first);
}

#[test]
fn replaced_array_has_one_line_per_item() {
    let r = replace_array_string(
        &PKGBUILD.to_string(),
        "sha256sums".to_string(),
        &vec!["11".to_string(), "22".to_string(), "33".to_string()],
    );
    let lines: Vec<&str> = r.lines().collect();
    assert_eq!(&lines[4..9], &["sha256sums=(", "\t'11'", "\t'22'", "\t'33'", ")"]);
    assert_eq!(&lines[..4], &PKGBUILD.lines().collect::<Vec<_>>()[..4]);
}

#[test]
fn replacing_twice_with_carriage_return_inside_a_line() {
    let text = "a=1\r\nx\ry=2\nsource=('s')\nb=2".to_string();
    let a = vec!["x".to_string()];
    let b = vec!["z".to_string(), "w".to_string()];
    let first = replace_array_string(&text, "source".to_string(), &a);
    assert_eq!(
        replace_array_string(&first, "source".to_string(), &b),
        replace_array_string(&text, "source".to_string(), &b)
    );
}
