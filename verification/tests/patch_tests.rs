use makeppkg::digests::checksum;
use makeppkg::patch::{compute_sums, patch, AbortReason, PatchAction, PatchEvent, PatchStage};
use makeppkg::patches::PatchFile;
use makeppkg::patches::PatchDirEntry;
use makeppkg::srcinfo::HashAlgorithm;

const SRCINFO: &str = "pkgbase = foo\n\tpkgver = 1\n\tsource = foo.tar.gz\n\tmd5sums = 11\n\npkgname = foo\n";
const PKGBUILD: &str = "pkgname=foo\nsource=('foo.tar.gz')\nmd5sums=('11')\nbuild() {\n  make\n}\n";

fn entry(file_name: &str, contents: &str) -> PatchDirEntry {
    PatchDirEntry {
        path: format!("/p/foo/{}", file_name),
        file_name: file_name.to_string(),
        stem: file_name.split('.').next().unwrap().to_string(),
        contents: Some(contents.to_string()),
    }
}

fn start(srcinfo: &String) -> PatchStage {
    let (stage, action) = patch(PatchStage::Start, srcinfo, PatchEvent::Begin);
    assert!(matches!(action, PatchAction::ReadPatchDirectory));
    stage
}

#[test]
fn directory_error_ends_run() {
    let s = SRCINFO.to_string();
    let stage = start(&s);
    let (stage, action) = patch(stage, &s, PatchEvent::DirectoryRead(Err("gone: /p/foo".to_string())));
    assert!(matches!(stage, PatchStage::Finished));
    assert!(matches!(action, PatchAction::Finish(Err(e)) if e == "gone: /p/foo"));
}

#[test]
fn no_patches_ends_run() {
    let s = SRCINFO.to_string();
    let stage = start(&s);
    let (stage, action) =
        patch(stage, &s, PatchEvent::DirectoryRead(Ok(vec![entry("README", "read me")])));
    assert!(matches!(stage, PatchStage::Finished));
    assert!(matches!(action, PatchAction::Finish(Ok(w)) if w == "worked"));
}

#[test]
fn short_patch_named_by_stem() {
    let s = SRCINFO.to_string();
    let stage = start(&s);
    let (_, action) = patch(stage, &s, PatchEvent::DirectoryRead(Ok(vec![entry("x.patch", "ab")])));
    assert!(matches!(&action, PatchAction::ReadPatches(p) if p == &vec!["/p/foo/x.patch".to_string()]));
}

#[test]
fn only_pkgbuild_patch() {
    let s = SRCINFO.to_string();
    let stage = start(&s);
    let (stage, action) = patch(
        stage,
        &s,
        PatchEvent::DirectoryRead(Ok(vec![entry("pkg.patch", "--- PKGBUILD\n+++ PKGBUILD\n")])),
    );
    assert!(matches!(&action, PatchAction::ApplyPkgbuildPatch(p) if p == "/p/foo/pkg.patch"));
    let (stage, action) = patch(stage, &s, PatchEvent::PkgbuildPatchApplied);
    assert!(matches!(stage, PatchStage::Finished));
    assert!(matches!(action, PatchAction::Finish(Ok(w)) if w == "worked"));
}

#[test]
fn no_algorithm_ends_with_error() {
    let s = "pkgbase = foo\n\tsource = x\n".to_string();
    let stage = start(&s);
    let (_, action) = patch(stage, &s, PatchEvent::DirectoryRead(Ok(vec![entry("a.patch", "--- a.c\n")])));
    assert!(matches!(action, PatchAction::Finish(Err(e)) if e == "No algorithm found"));
}

#[test]
fn full_run() {
    let s = SRCINFO.to_string();
    let stage = start(&s);
    let (stage, action) = patch(
        stage,
        &s,
        PatchEvent::DirectoryRead(Ok(vec![
            entry("fix.patch", "--- src/main.c\n+++ src/main.c\n"),
            entry("pkg.patch", "--- pkgbuild\n"),
            entry("more.diff", "--- src/x.c\n"),
        ])),
    );
    assert!(matches!(&action, PatchAction::ApplyPkgbuildPatch(p) if p == "/p/foo/pkg.patch"));
    let (stage, action) = patch(stage, &s, PatchEvent::PkgbuildPatchApplied);
    match &action {
        PatchAction::ReadPatches(paths) => {
            assert_eq!(paths, &vec!["/p/foo/fix.patch".to_string(), "/p/foo/more.diff".to_string()])
        }
        _ => panic!("expected ReadPatches"),
    }
    assert!(matches!(&stage, PatchStage::ReadingPatches { algorithm: HashAlgorithm::Md5, .. }));
    let contents = vec![b"fix".to_vec(), b"more".to_vec()];
    let (stage, action) = patch(stage, &s, PatchEvent::PatchesRead(contents));
    match &action {
        PatchAction::CopyPatchesAndReadPkgbuild(paths) => assert_eq!(paths.len(), 2),
        _ => panic!("expected CopyPatchesAndReadPkgbuild"),
    }
    let (stage, action) = patch(stage, &s, PatchEvent::PkgbuildRead(PKGBUILD.to_string()));
    let fix = checksum(HashAlgorithm::Md5, b"fix");
    let more = checksum(HashAlgorithm::Md5, b"more");
    let expected = format!(
        "pkgname=foo\nsource=(\n\t'foo.tar.gz'\n\t'fix.patch'\n\t'more.diff'\n)\nmd5sums=(\n\t'11'\n\t'{}'\n\t'{}'\n)\nprepare() {{\n\tpatch -Np1 -i ${{srcdir}}/fix.patch\n\tpatch -Np1 -i ${{srcdir}}/more.diff\n}}\n\nbuild() {{\n  make\n}}",
        fix, more
    );
    match &action {
        PatchAction::WritePkgbuild(t) => assert_eq!(t, &expected),
        _ => panic!("expected WritePkgbuild"),
    }
    let (stage, action) = patch(stage, &s, PatchEvent::PkgbuildWritten);
    assert!(matches!(stage, PatchStage::Finished));
    assert!(matches!(action, PatchAction::Finish(Ok(w)) if w == "worked"));
}

#[test]
fn empty_pkgbuild_aborts() {
    let s = SRCINFO.to_string();
    let stage = start(&s);
    let (stage, _) = patch(stage, &s, PatchEvent::DirectoryRead(Ok(vec![entry("a.patch", "--- a\n")])));
    let (stage, _) = patch(stage, &s, PatchEvent::PatchesRead(vec![b"a".to_vec()]));
    let (_, action) = patch(stage, &s, PatchEvent::PkgbuildRead(String::new()));
    assert!(matches!(action, PatchAction::Abort(AbortReason::PkgbuildArray)));
}

#[test]
fn compute_sums_sets_each_checksum_in_order() {
    let mk = |n: &str| PatchFile {
        name: n.to_string(),
        path: format!("/p/{}", n),
        file_name: n.to_string(),
        checksum: None,
    };
    let ps = vec![mk("a.patch"), mk("b.patch")];
    let sums = compute_sums(&ps, HashAlgorithm::Sha1, &vec![b"abc".to_vec(), b"".to_vec()]);
    assert_eq!(sums.len(), 2);
    assert_eq!(sums[0].checksum.as_deref(), Some("a9993e364706816aba3e25717850c26c9cd0d89d"));
    assert_eq!(sums[1].checksum.as_deref(), Some("da39a3ee5e6b4b0d3255bfef95601890afd80709"));
    assert_eq!(sums[1].path, "/p/b.patch");
}
