//! Patch files: how they are recognised, what they are named after, and which
//! of them patches the PKGBUILD itself.
use vstd::prelude::*;

use crate::text::{
    chars_of, ends_with, eq_ignore_ascii_case, eq_ignore_case, first_word, first_word_of,
    has_suffix, lines_of, opt_view, slice_chars, split_lines, string_from_chars, vec_views,
};

verus! {

broadcast use vstd::string::group_string_axioms;

/// A patch found in the patch directory of a package.
pub struct PatchFile {
    /// The file that the patch applies to, as its first line names it (or
    /// the patch's base name).
    pub name: String,
    /// Where the patch is.
    pub path: String,
    /// The last component of `path`, as it is added to the sources.
    pub file_name: String,
    /// The patch's checksum, once computed.
    pub checksum: Option<String>,
}

/// What a `PatchFile` holds, as character sequences.
pub struct PatchView {
    pub name: Seq<char>,
    pub path: Seq<char>,
    pub file_name: Seq<char>,
    pub checksum: Option<Seq<char>>,
}

impl View for PatchFile {
    type V = PatchView;

    open spec fn view(&self) -> PatchView {
        PatchView {
            name: self.name@,
            path: self.path@,
            file_name: self.file_name@,
            checksum: opt_view(self.checksum),
        }
    }
}

/// The views of a sequence of patches.
pub open spec fn patch_views(v: Seq<PatchFile>) -> Seq<PatchView> {
    v.map_values(|p: PatchFile| p@)
}

/// Views of a sequence with one more patch at its end.
pub proof fn lemma_patch_views_push(v: Seq<PatchFile>, x: PatchFile)
    ensures
        patch_views(v.push(x)) == patch_views(v).push(x@),
{
    assert(patch_views(v.push(x)) =~= patch_views(v).push(x@));
}

fn copy_string(s: &String) -> (t: String)
    ensures
        t@ == s@,
{
    s.clone()
}

impl PatchFile {
    /// A copy of this patch.
    pub fn copy(&self) -> (p: PatchFile)
        ensures
            p@ == self@,
    {
        PatchFile {
            name: copy_string(&self.name),
            path: copy_string(&self.path),
            file_name: copy_string(&self.file_name),
            checksum: match &self.checksum {
                Some(c) => Some(copy_string(c)),
                None => None,
            },
        }
    }
}

/// A file of the patch directory, as it was read.
pub struct PatchDirEntry {
    /// Where the file is.
    pub path: String,
    /// The last component of `path`.
    pub file_name: String,
    /// `file_name` without its extension (`Path::file_stem`).
    pub stem: String,
    /// The file's text, where it could be opened and read as UTF-8.
    pub contents: Option<String>,
}

// ---------------------------------------------------------------------------
// Patch names
// ---------------------------------------------------------------------------

/// The number of bytes that UTF-8 takes for a character.
pub open spec fn utf8_width(c: char) -> int {
    let u = c as u32;
    if u < 0x80 {
        1
    } else if u < 0x800 {
        2
    } else if u < 0x10000 {
        3
    } else {
        4
    }
}

/// The index of the character that starts at byte `b` of the UTF-8 encoding
/// of `s`, if a character starts there (or `b` is its end).
pub open spec fn char_at_byte(s: Seq<char>, b: int) -> Option<int>
    decreases s.len(),
{
    if b == 0 {
        Some(0)
    } else if b < 0 || s.len() == 0 {
        None
    } else {
        match char_at_byte(s.drop_first(), b - utf8_width(s[0])) {
            Some(k) => Some(k + 1),
            None => None,
        }
    }
}

/// The name of a patch: the first word after the first three bytes of its
/// first line (as in `--- PKGBUILD`). Where no name can be found there (the
/// patch could not be read, is empty, its first line is not split at byte 3,
/// being shorter or split inside a character, or holds no word after it),
/// the stem of its file name.
pub open spec fn patch_name_of(contents: Option<Seq<char>>, stem: Seq<char>) -> Seq<char> {
    match contents {
        None => stem,
        Some(text) => {
            let lines = lines_of(text);
            if lines.len() == 0 {
                stem
            } else {
                match char_at_byte(lines[0], 3) {
                    None => stem,
                    Some(k) => match first_word(lines[0].skip(k)) {
                        Some(w) => w,
                        None => stem,
                    },
                }
            }
        },
    }
}

fn utf8_width_of(c: char) -> (w: usize)
    ensures
        w as int == utf8_width(c),
{
    let u = c as u32;
    if u < 0x80 {
        1
    } else if u < 0x800 {
        2
    } else if u < 0x10000 {
        3
    } else {
        4
    }
}

/// The index of the character that starts at byte 3.
fn char_at_byte_three(s: &[char]) -> (r: Option<usize>)
    ensures
        match r {
            Some(k) => char_at_byte(s@, 3) == Some(k as int) && k <= s@.len(),
            None => char_at_byte(s@, 3) is None,
        },
{
    let mut i: usize = 0;
    let mut b: usize = 3;
    assert(s@.skip(0) =~= s@);
    while b > 0 && i < s.len() && utf8_width_of(s[i]) <= b
        invariant
            i <= s@.len(),
            b <= 3,
            char_at_byte(s@, 3) == match char_at_byte(s@.skip(i as int), b as int) {
                Some(k) => Some(k + i),
                None => None,
            },
        decreases b,
    {
        assert(s@.skip(i as int).drop_first() =~= s@.skip(i + 1));
        b -= utf8_width_of(s[i]);
        i += 1;
    }
    proof {
        let t = s@.skip(i as int);
        if b > 0 && t.len() > 0 {
            assert(t[0] == s@[i as int]);
            assert(char_at_byte(t.drop_first(), b - utf8_width(t[0])) is None);
        }
    }
    if b == 0 {
        Some(i)
    } else {
        None
    }
}

/// The first word after the first three bytes of the first line of a text,
/// where there is one.
fn name_in_contents(text: &str) -> (r: Option<Vec<char>>)
    ensures
        match r {
            Some(w) => forall|stem: Seq<char>| #[trigger] patch_name_of(Some(text@), stem) == w@,
            None => forall|stem: Seq<char>| #[trigger] patch_name_of(Some(text@), stem) == stem,
        },
{
    let chars = chars_of(text);
    let lines = split_lines(chars.as_slice());
    if lines.len() == 0 {
        return None;
    }
    let line = &lines[0];
    assert(vec_views(lines@)[0] == line@);
    match char_at_byte_three(line.as_slice()) {
        None => None,
        Some(k) => {
            let rest = slice_chars(line.as_slice(), k, line.len());
            assert(rest@ =~= line@.skip(k as int));
            first_word_of(rest.as_slice())
        },
    }
}

/// The name of a patch: the first word after the first three bytes of its
/// first line, or `stem` where the patch could not be read or no name is
/// found in it.
pub fn patch_name(contents: Option<String>, stem: String) -> (r: String)
    ensures
        r@ == patch_name_of(opt_view(contents), stem@),
{
    match &contents {
        None => stem,
        Some(text) => match name_in_contents(text.as_str()) {
            Some(w) => {
                assert(patch_name_of(Some(text@), stem@) == w@);
                string_from_chars(w.as_slice())
            },
            None => {
                assert(patch_name_of(Some(text@), stem@) == stem@);
                stem
            },
        },
    }
}

// ---------------------------------------------------------------------------
// Finding patches
// ---------------------------------------------------------------------------

/// A file is taken for a patch where its path ends with `.patch` or `.diff`.
pub open spec fn is_patch_path(path: Seq<char>) -> bool {
    has_suffix(path, ".patch"@) || has_suffix(path, ".diff"@)
}

pub fn is_patch_file(path: &str) -> (b: bool)
    ensures
        b == is_patch_path(path@),
{
    let p = chars_of(path);
    let patch = chars_of(".patch");
    let diff = chars_of(".diff");
    ends_with(p.as_slice(), patch.as_slice()) || ends_with(p.as_slice(), diff.as_slice())
}

/// The patch that a directory entry is, once named.
pub open spec fn entry_patch(e: PatchDirEntry, name: Seq<char>) -> PatchView {
    PatchView { name, path: e.path@, file_name: e.file_name@, checksum: None }
}

/// The patches among the entries of a patch directory, in order: the
/// entries whose paths end with `.patch` or `.diff`, each named by
/// `patch_name_of`. Other files are left alone.
pub open spec fn found_patches(entries: Seq<PatchDirEntry>) -> Seq<PatchView>
    decreases entries.len(),
{
    if entries.len() == 0 {
        seq![]
    } else {
        let e = entries.last();
        let ps = found_patches(entries.drop_last());
        if is_patch_path(e.path@) {
            ps.push(entry_patch(e, patch_name_of(opt_view(e.contents), e.stem@)))
        } else {
            ps
        }
    }
}

/// Keeps the patches among the entries of a patch directory, in order,
/// named and without checksums.
pub fn find_patches(entries: &Vec<PatchDirEntry>) -> (ps: Vec<PatchFile>)
    ensures
        patch_views(ps@) == found_patches(entries@),
{
    let mut ps: Vec<PatchFile> = Vec::new();
    for i in 0..entries.len()
        invariant
            found_patches(entries@.take(i as int)) == patch_views(ps@),
    {
        let e = &entries[i];
        assert(entries@.take(i + 1).drop_last() =~= entries@.take(i as int));
        assert(entries@.take(i + 1).last() == *e);
        if is_patch_file(e.path.as_str()) {
            let contents: Option<String> = match &e.contents {
                Some(c) => Some(copy_string(c)),
                None => None,
            };
            let name = patch_name(contents, copy_string(&e.stem));
            let ghost prev = ps@;
            ps.push(
                PatchFile {
                    name,
                    path: copy_string(&e.path),
                    file_name: copy_string(&e.file_name),
                    checksum: None,
                },
            );
            proof {
                lemma_patch_views_push(prev, ps@.last());
            }
        }
    }
    assert(entries@.take(entries.len() as int) =~= entries@);
    ps
}

// ---------------------------------------------------------------------------
// The PKGBUILD patch
// ---------------------------------------------------------------------------

/// A patch applies to the PKGBUILD where its name is `PKGBUILD`, in any
/// ASCII case.
pub open spec fn patches_pkgbuild(p: PatchView) -> bool {
    eq_ignore_case(p.name, "PKGBUILD"@)
}

/// The index of the first patch that applies to the PKGBUILD.
pub open spec fn pkgbuild_patch_position(ps: Seq<PatchView>) -> Option<int>
    decreases ps.len(),
{
    if ps.len() == 0 {
        None
    } else if patches_pkgbuild(ps[0]) {
        Some(0)
    } else {
        match pkgbuild_patch_position(ps.drop_first()) {
            Some(i) => Some(i + 1),
            None => None,
        }
    }
}

/// The index of the first patch that applies to the PKGBUILD
/// (`Iterator::position`).
pub fn pkgbuild_patch_index(patches: &Vec<PatchFile>) -> (r: Option<usize>)
    ensures
        match r {
            Some(i) => pkgbuild_patch_position(patch_views(patches@)) == Some(i as int) && i
                < patches@.len(),
            None => pkgbuild_patch_position(patch_views(patches@)) is None,
        },
{
    let ghost all = patch_views(patches@);
    let target = chars_of("PKGBUILD");
    let mut i: usize = 0;
    assert(all.skip(0) =~= all);
    while i < patches.len()
        invariant
            i <= patches@.len(),
            all == patch_views(patches@),
            target@ == "PKGBUILD"@,
            pkgbuild_patch_position(all) == match pkgbuild_patch_position(all.skip(i as int)) {
                Some(k) => Some(k + i),
                None => None,
            },
        decreases patches.len() - i,
    {
        let name = chars_of(patches[i].name.as_str());
        assert(all.skip(i as int)[0] == patches@[i as int]@);
        if eq_ignore_ascii_case(name.as_slice(), target.as_slice()) {
            return Some(i);
        }
        assert(all.skip(i as int).drop_first() =~= all.skip(i + 1));
        i += 1;
    }
    None
}

} // verus!

verus! {

/// The patches found in a directory are the files whose paths end with
/// `.patch` or `.diff`, none of them with a checksum yet, and every such
/// file is among them.
pub proof fn lemma_found_patches_are_patch_files(entries: Seq<PatchDirEntry>)
    ensures
        forall|i: int|
            0 <= i < found_patches(entries).len() ==> is_patch_path(
                #[trigger] found_patches(entries)[i].path,
            ),
        forall|i: int|
            0 <= i < found_patches(entries).len() ==> (#[trigger] found_patches(
                entries,
            )[i]).checksum is None,
        forall|j: int|
            0 <= j < entries.len() && is_patch_path(#[trigger] entries[j].path@) ==> exists|i: int|
                0 <= i < found_patches(entries).len() && found_patches(entries)[i].path
                    == entries[j].path@ && found_patches(entries)[i].file_name
                    == entries[j].file_name@,
    decreases entries.len(),
{
    if entries.len() > 0 {
        let rest = entries.drop_last();
        lemma_found_patches_are_patch_files(rest);
        let ps = found_patches(entries);
        let prev = found_patches(rest);
        assert forall|j: int|
            0 <= j < entries.len() && is_patch_path(#[trigger] entries[j].path@) implies exists|
            i: int,
        |
            0 <= i < ps.len() && ps[i].path == entries[j].path@ && ps[i].file_name
                == entries[j].file_name@ by {
            if j == entries.len() - 1 {
                let i = ps.len() - 1;
                assert(ps[i].path == entries[j].path@);
            } else {
                assert(rest[j] == entries[j]);
                let i = choose|i: int|
                    0 <= i < prev.len() && prev[i].path == rest[j].path@ && prev[i].file_name
                        == rest[j].file_name@;
                assert(ps[i] == prev[i]);
            }
        }
    }
}

/// A file that is no patch plays no part in what is found, whatever it
/// holds.
pub proof fn lemma_other_files_ignored(entries: Seq<PatchDirEntry>, e: PatchDirEntry)
    requires
        !is_patch_path(e.path@),
    ensures
        found_patches(entries.push(e)) == found_patches(entries),
{
    assert(entries.push(e).drop_last() =~= entries);
}

} // verus!

verus! {

/// The patch that a directory entry gives: named by its contents, else by
/// its stem, with its path and file name and no checksum.
pub open spec fn named_entry(e: PatchDirEntry) -> PatchView {
    entry_patch(e, patch_name_of(opt_view(e.contents), e.stem@))
}

/// The patches found are exactly the entries whose paths end with `.patch`
/// or `.diff`, kept in order, each named by the file its first line names
/// (else by its stem) whatever its suffix, with its own path and file name
/// and no checksum.
pub proof fn lemma_found_patches_named(entries: Seq<PatchDirEntry>)
    ensures
        found_patches(entries) == entries.filter(|e: PatchDirEntry| is_patch_path(e.path@)).map_values(
            |e: PatchDirEntry| named_entry(e),
        ),
    decreases entries.len(),
{
    reveal(Seq::filter);
    let pred = |e: PatchDirEntry| is_patch_path(e.path@);
    let f = |e: PatchDirEntry| named_entry(e);
    if entries.len() == 0 {
        assert(entries.filter(pred).map_values(f) =~= seq![]);
    } else {
        lemma_found_patches_named(entries.drop_last());
        let rest = entries.drop_last().filter(pred);
        if pred(entries.last()) {
            assert(entries.filter(pred) == rest.push(entries.last()));
            assert(rest.push(entries.last()).map_values(f) =~= rest.map_values(f).push(
                f(entries.last()),
            ));
        } else {
            assert(entries.filter(pred) == rest);
        }
    }
}

} // verus!

verus! {

/// The PKGBUILD patch is the first patch named `PKGBUILD` in any ASCII
/// case: it is so named and no patch before it is; where there is none, no
/// patch is so named.
pub proof fn lemma_pkgbuild_patch_first(ps: Seq<PatchView>)
    ensures
        match pkgbuild_patch_position(ps) {
            Some(i) => 0 <= i < ps.len() && patches_pkgbuild(ps[i]) && forall|j: int|
                0 <= j < i ==> !patches_pkgbuild(#[trigger] ps[j]),
            None => forall|j: int| 0 <= j < ps.len() ==> !patches_pkgbuild(#[trigger] ps[j]),
        },
    decreases ps.len(),
{
    if ps.len() > 0 && !patches_pkgbuild(ps[0]) {
        let rest = ps.drop_first();
        lemma_pkgbuild_patch_first(rest);
        assert forall|j: int| 1 <= j < ps.len() implies ps[j] == #[trigger] rest[j - 1] by {}
        match pkgbuild_patch_position(rest) {
            Some(i) => {
                assert forall|j: int| 0 <= j < i + 1 implies !patches_pkgbuild(#[trigger] ps[j]) by {
                    if j > 0 {
                        assert(ps[j] == rest[j - 1]);
                    }
                }
            },
            None => {
                assert forall|j: int| 0 <= j < ps.len() implies !patches_pkgbuild(#[trigger] ps[j]) by {
                    if j > 0 {
                        assert(ps[j] == rest[j - 1]);
                    }
                }
            },
        }
    }
}

} // verus!

verus! {

/// A patch whose first line starts with three ASCII characters (as
/// `--- ` does) is named by the first word after them, or by its stem where
/// no word follows; a patch that could not be read, or has no line, is
/// named by its stem.
pub proof fn lemma_patch_name_after_three(contents: Option<Seq<char>>, stem: Seq<char>)
    ensures
        contents is None ==> patch_name_of(contents, stem) == stem,
        contents matches Some(text) ==> {
            let lines = lines_of(text);
            &&& lines.len() == 0 ==> patch_name_of(contents, stem) == stem
            &&& (lines.len() > 0 && lines[0].len() >= 3 && (lines[0][0] as u32) < 0x80
                && (lines[0][1] as u32) < 0x80 && (lines[0][2] as u32) < 0x80) ==> patch_name_of(
                contents,
                stem,
            ) == match first_word(lines[0].skip(3)) {
                Some(w) => w,
                None => stem,
            }
        },
{
    if let Some(text) = contents {
        let lines = lines_of(text);
        if lines.len() > 0 && lines[0].len() >= 3 && (lines[0][0] as u32) < 0x80 && (
        lines[0][1] as u32) < 0x80 && (lines[0][2] as u32) < 0x80 {
            let l = lines[0];
            reveal_with_fuel(char_at_byte, 4);
            assert(l.drop_first()[0] == l[1]);
            assert(l.drop_first().drop_first()[0] == l[2]);
            assert(char_at_byte(l, 3) == Some(3int));
        }
    }
}

} // verus!
