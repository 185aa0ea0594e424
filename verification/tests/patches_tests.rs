use makeppkg::patches::{
    find_patches, is_patch_file, patch_name, pkgbuild_patch_index, PatchDirEntry,
    PatchFile,
};

fn entry(file_name: &str, contents: Option<&str>) -> PatchDirEntry {
    let stem = match file_name.rfind('.') {
        Some(i) if i > 0 => &file_name[..i],
        _ => file_name,
    };
    PatchDirEntry {
        path: format!("/home/u/.config/makeppkg/linux-zen/{}", file_name),
        file_name: file_name.to_string(),
        stem: stem.to_string(),
        contents: contents.map(|c| c.to_string()),
    }
}

#[test]
fn name_from_first_line() {
    assert_eq!(
        patch_name(Some("--- PKGBUILD\t2018-11-10\n+++ PKGBUILD\n".to_string()), "x".to_string()),
        "PKGBUILD"
    );
    assert_eq!(
        patch_name(Some("--- a/config\n+++ b/config\n".to_string()), "x".to_string()),
        "a/config"
    );
}

#[test]
fn name_falls_back_to_stem() {
    assert_eq!(patch_name(None, "fix".to_string()), "fix");
    assert_eq!(patch_name(Some("".to_string()), "fix".to_string()), "fix");
}

fn name(contents: &str) -> String {
    patch_name(Some(contents.to_string()), "stem".to_string())
}

#[test]
fn name_falls_back_where_contents_name_nothing() {
    // shorter than three bytes
    assert_eq!(name("ab\n"), "stem");
    assert_eq!(name("---"), "stem");
    // byte 3 inside a character
    assert_eq!(name("ab\u{e9}xyz"), "stem");
    // nothing after the first three bytes
    assert_eq!(name("---   \nmore"), "stem");
    // empty first line
    assert_eq!(name("\n--- PKGBUILD\n"), "stem");
}

#[test]
fn name_after_multibyte_prefix() {
    assert_eq!(name("a\u{e9}xyz"), "xyz");
    assert_eq!(name("\u{e9}-name rest"), "name");
}

#[test]
fn patch_files_by_suffix() {
    assert!(is_patch_file("/a/b.patch"));
    assert!(is_patch_file("/a/b.diff"));
    assert!(!is_patch_file("/a/b.patch.orig"));
    assert!(!is_patch_file("/a/README"));
}

#[test]
fn find_patches_keeps_patch_files_in_order() {
    let entries = vec![
        entry("0001-fix.patch", Some("--- src/main.c\n")),
        entry("notes.txt", Some("notes about it")),
        entry("config.diff", Some("--- config\n")),
        entry("unreadable.patch", None),
    ];
    let ps = find_patches(&entries);
    let names: Vec<&str> = ps.iter().map(|p| p.name.as_str()).collect();
    assert_eq!(names, vec!["src/main.c", "config", "unreadable"]);
    let files: Vec<&str> = ps.iter().map(|p| p.file_name.as_str()).collect();
    assert_eq!(files, vec!["0001-fix.patch", "config.diff", "unreadable.patch"]);
    assert!(ps.iter().all(|p| p.checksum.is_none()));
    assert_eq!(ps[1].path, "/home/u/.config/makeppkg/linux-zen/config.diff");
}

#[test]
fn find_patches_ignores_other_files() {
    let entries = vec![entry("fix.patch", Some("--- foo.c\n")), entry("notes.txt", Some("ok"))];
    let ps = find_patches(&entries);
    assert_eq!(ps.len(), 1);
    assert_eq!(ps[0].name, "foo.c");
    assert_eq!(ps[0].file_name, "fix.patch");
}

#[test]
fn find_patches_names_short_patch_by_stem() {
    let entries = vec![entry("short.patch", Some("xy\n"))];
    assert_eq!(find_patches(&entries)[0].name, "short");
}

#[test]
fn find_patches_empty_directory() {
    assert_eq!(find_patches(&vec![]).len(), 0);
}

fn named(name: &str) -> PatchFile {
    PatchFile { name: name.to_string(), path: String::new(), file_name: String::new(), checksum: None }
}

#[test]
fn pkgbuild_patch_found_in_any_case() {
    assert_eq!(pkgbuild_patch_index(&vec![named("config"), named("pkgbuild"), named("PKGBUILD")]), Some(1));
    assert_eq!(pkgbuild_patch_index(&vec![named("a/PKGBUILD")]), None);
    assert_eq!(pkgbuild_patch_index(&vec![]), None);
}

#[test]
fn copy_keeps_fields() {
    let p = PatchFile {
        name: "n".to_string(),
        path: "p".to_string(),
        file_name: "f".to_string(),
        checksum: Some("c".to_string()),
    };
    let q = p.copy();
    assert_eq!((q.name, q.path, q.file_name, q.checksum), (p.name, p.path, p.file_name, p.checksum));
}
