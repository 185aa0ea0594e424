//! Rewriting PKGBUILD text: replacing an array and adding `patch` commands
//! to the `prepare()` function.
use vstd::prelude::*;

use crate::patches::{patch_views, PatchFile, PatchView};
use crate::srcinfo::{sums_key, HashAlgorithm};
use crate::text::{
    append_chars, append_str, chars_of, copy_chars, ends_with, has_prefix, has_suffix, join_lines,
    join_with_newlines, lemma_join_lines_concat, lemma_join_lines_prepend,
    lemma_split_join_roundtrip, lemma_vec_views_push, lemma_views_push, lines_of, plain_lines, split_lines, starts_with, string_from_chars, vec_views, views,
};

verus! {

broadcast use vstd::string::group_string_axioms;

/// Where the array named `name` starts and ends among `lines`, scanning from
/// line `n` with `start` found so far (0 while nothing was found).
///
/// The scan looks for the first line that starts with `name`, then for the
/// first line from there that ends with `)`. A start found on line 0 looks
/// the same as none found, so the search for a start goes on past it. If no
/// end is found, the end is 0.
pub open spec fn array_span_from(lines: Seq<Seq<char>>, name: Seq<char>, n: int, start: int) -> (int, int)
    decreases lines.len() - n,
{
    if n < 0 || n >= lines.len() {
        (start, 0)
    } else if start == 0 {
        if has_prefix(lines[n], name) {
            if has_suffix(lines[n], seq![')']) {
                (n, n)
            } else {
                array_span_from(lines, name, n + 1, n)
            }
        } else {
            array_span_from(lines, name, n + 1, start)
        }
    } else if has_suffix(lines[n], seq![')']) {
        (start, n)
    } else {
        array_span_from(lines, name, n + 1, start)
    }
}

/// The first and last line of the array named `name`.
pub open spec fn array_span(lines: Seq<Seq<char>>, name: Seq<char>) -> (int, int) {
    array_span_from(lines, name, 0, 0)
}

/// The quoted items of an array, each on a line of its own after a tab.
pub open spec fn quoted_items(items: Seq<Seq<char>>) -> Seq<char>
    decreases items.len(),
{
    if items.len() == 0 {
        seq![]
    } else {
        quoted_items(items.drop_last()) + "\n\t'"@ + items.last() + "'"@
    }
}

/// The text of a bash array assignment: `name=(`, the quoted items, `)`.
pub open spec fn array_text(name: Seq<char>, items: Seq<Seq<char>>) -> Seq<char> {
    name + "=("@ + quoted_items(items) + "\n)"@
}

/// Lines `start..=end` can be taken out of `lines`.
pub open spec fn span_removable(lines: Seq<Seq<char>>, span: (int, int)) -> bool {
    0 <= span.0 <= span.1 + 1 && span.1 < lines.len()
}

/// The text with the array named `name` replaced by an assignment of
/// `items`; `None` where the span found cannot be removed.
pub open spec fn replaced_array(text: Seq<char>, name: Seq<char>, items: Seq<Seq<char>>) -> Option<
    Seq<char>,
> {
    let lines = lines_of(text);
    let span = array_span(lines, name);
    if span_removable(lines, span) {
        Some(
            join_lines(
                lines.take(span.0) + seq![array_text(name, items)] + lines.skip(span.1 + 1),
            ),
        )
    } else {
        None
    }
}

/// Scans for the span of the array named `name`.
fn find_array_span(lines: &Vec<Vec<char>>, name: &[char]) -> (span: (usize, usize))
    ensures
        span.0 as int == array_span(vec_views(lines@), name@).0,
        span.1 as int == array_span(vec_views(lines@), name@).1,
{
    let ghost all = vec_views(lines@);
    let close = vec![')'];
    let mut start: usize = 0;
    let mut n: usize = 0;
    while n < lines.len()
        invariant
            n <= lines@.len(),
            all == vec_views(lines@),
            close@ == seq![')'],
            start <= n,
            array_span(all, name@) == array_span_from(all, name@, n as int, start as int),
        decreases lines.len() - n,
    {
        let line = &lines[n];
        assert(all[n as int] == line@);
        if start == 0 {
            if starts_with(line.as_slice(), name) {
                start = n;
                if ends_with(line.as_slice(), close.as_slice()) {
                    return (n, n);
                }
            }
        } else {
            if ends_with(line.as_slice(), close.as_slice()) {
                return (start, n);
            }
        }
        n += 1;
    }
    (start, 0)
}

/// The assignment text of an array.
fn array_text_of(name: &[char], items: &Vec<String>) -> (t: Vec<char>)
    ensures
        t@ == array_text(name@, views(items@)),
{
    let ghost all = views(items@);
    let mut t: Vec<char> = Vec::new();
    append_chars(&mut t, name);
    append_str(&mut t, "=(");
    let ghost head = t@;
    assert(head == name@ + "=("@);
    for i in 0..items.len()
        invariant
            head == name@ + "=("@,
            all == views(items@),
            t@ == head + quoted_items(all.take(i as int)),
    {
        append_str(&mut t, "\n\t'");
        append_str(&mut t, items[i].as_str());
        append_str(&mut t, "'");
        assert(all.take(i + 1).drop_last() =~= all.take(i as int));
        assert(all.take(i + 1).last() == items@[i as int]@);
    }
    assert(all.take(items.len() as int) =~= all);
    append_str(&mut t, "\n)");
    t
}

/// Replaces the array named `name` in a PKGBUILD text by an assignment of
/// `new_array`, one quoted item per line; `None` where the span found cannot
/// be removed (no lines at all, or a start after line 1 without an end).
pub fn try_replace_array_string(text: &String, name: &String, new_array: &Vec<String>) -> (r:
    Option<String>)
    ensures
        match r {
            Some(s) => replaced_array(text@, name@, views(new_array@)) == Some(s@),
            None => replaced_array(text@, name@, views(new_array@)) is None,
        },
{
    let chars = chars_of(text.as_str());
    let lines = split_lines(chars.as_slice());
    let ghost all = vec_views(lines@);
    let name_chars = chars_of(name.as_str());
    let (start, end) = find_array_span(&lines, name_chars.as_slice());
    if !(end < lines.len() && start <= end + 1) {
        return None;
    }
    let mut out: Vec<Vec<char>> = Vec::new();
    for i in 0..start
        invariant
            start <= end + 1,
            end < lines@.len(),
            all == vec_views(lines@),
            vec_views(out@) == all.take(i as int),
    {
        let ghost prev = out@;
        out.push(copy_chars(lines[i].as_slice()));
        proof {
            lemma_vec_views_push(prev, out@.last());
        }
        assert(vec_views(out@) =~= all.take(i + 1));
    }
    let ghost before = vec_views(out@);
    let ghost prev = out@;
    out.push(array_text_of(name_chars.as_slice(), new_array));
    proof {
        lemma_vec_views_push(prev, out@.last());
    }
    let ghost middle = vec_views(out@);
    assert(middle =~= before + seq![array_text(name@, views(new_array@))]);
    let mut j: usize = end + 1;
    while j < lines.len()
        invariant
            end + 1 <= j <= lines@.len(),
            all == vec_views(lines@),
            vec_views(out@) == middle + all.subrange(end + 1, j as int),
        decreases lines.len() - j,
    {
        let ghost prev = out@;
        out.push(copy_chars(lines[j].as_slice()));
        proof {
            lemma_vec_views_push(prev, out@.last());
        }
        assert(vec_views(out@) =~= middle + all.subrange(end + 1, j + 1));
        j += 1;
    }
    assert(all.subrange(end + 1, all.len() as int) =~= all.skip(end + 1));
    let joined = join_with_newlines(&out);
    Some(string_from_chars(joined.as_slice()))
}

/// Replaces the array named `name` in a PKGBUILD text by an assignment of
/// `new_array`, one quoted item per line, and joins the lines with `\n`.
pub fn replace_array_string(text: &String, name: String, new_array: &Vec<String>) -> (r: String)
    requires
        replaced_array(text@, name@, views(new_array@)) is Some,
    ensures
        replaced_array(text@, name@, views(new_array@)) == Some(r@),
{
    match try_replace_array_string(text, &name, new_array) {
        Some(r) => r,
        None => {
            assert(false);
            String::new()
        },
    }
}

/// The line that opens the `prepare()` function.
pub open spec fn prepare_header() -> Seq<char> {
    "prepare() {"@
}

/// The line that opens the `build()` function.
pub open spec fn build_header() -> Seq<char> {
    "build() {"@
}

/// Scanning from line `n`, the line after the first `prepare() {` line, and
/// the line after the first `build() {` line before it (0 for none); the
/// scan stops at the `prepare() {` line.
pub open spec fn function_starts_from(lines: Seq<Seq<char>>, n: int, build_start: int) -> (int, int)
    decreases lines.len() - n,
{
    if n < 0 || n >= lines.len() {
        (0, build_start)
    } else if has_prefix(lines[n], prepare_header()) {
        (n + 1, build_start)
    } else if build_start == 0 && has_prefix(lines[n], build_header()) {
        function_starts_from(lines, n + 1, n + 1)
    } else {
        function_starts_from(lines, n + 1, build_start)
    }
}

/// `(prepare_start, build_start)` of a PKGBUILD's lines.
pub open spec fn function_starts(lines: Seq<Seq<char>>) -> (int, int) {
    function_starts_from(lines, 0, 0)
}

/// The command lines that apply patches, one per file name.
pub open spec fn patch_commands(file_names: Seq<Seq<char>>) -> Seq<char>
    decreases file_names.len(),
{
    if file_names.len() == 0 {
        seq![]
    } else {
        patch_commands(file_names.drop_last()) + "\tpatch -Np1 -i ${srcdir}/"@ + file_names.last()
            + "\n"@
    }
}

/// The file names of patches.
pub open spec fn file_names(patches: Seq<PatchView>) -> Seq<Seq<char>> {
    patches.map_values(|p: PatchView| p.file_name)
}

/// The text inserted into a PKGBUILD: the patch commands, inside a new
/// `prepare() {` ... `}` function when the PKGBUILD has none.
pub open spec fn prepare_insert(starts: (int, int), names: Seq<Seq<char>>) -> Seq<char> {
    (if starts.0 == 0 {
        "prepare() {\n"@
    } else {
        seq![]
    }) + patch_commands(names) + (if starts.0 == 0 {
        "}\n"@
    } else {
        seq![]
    })
}

/// The line at which the inserted text goes: after `prepare() {`, else in
/// place of `build() {`, else at the top.
pub open spec fn prepare_insert_line(starts: (int, int)) -> int {
    if starts.0 != 0 {
        starts.0
    } else if starts.1 != 0 {
        starts.1 - 1
    } else {
        0
    }
}

/// A PKGBUILD text with commands that apply the patches added at the start
/// of its `prepare()` function.
pub open spec fn prepended(pkgbuild: Seq<char>, names: Seq<Seq<char>>) -> Seq<char> {
    let lines = lines_of(pkgbuild);
    let starts = function_starts(lines);
    let at = prepare_insert_line(starts);
    join_lines(lines.take(at) + seq![prepare_insert(starts, names)] + lines.skip(at))
}

fn find_function_starts(lines: &Vec<Vec<char>>) -> (r: (usize, usize))
    ensures
        r.0 as int == function_starts(vec_views(lines@)).0,
        r.1 as int == function_starts(vec_views(lines@)).1,
        r.0 <= lines@.len(),
        r.1 <= lines@.len(),
{
    let ghost all = vec_views(lines@);
    let prepare = chars_of("prepare() {");
    let build = chars_of("build() {");
    let mut build_start: usize = 0;
    let mut n: usize = 0;
    while n < lines.len()
        invariant
            n <= lines@.len(),
            build_start <= n,
            all == vec_views(lines@),
            prepare@ == prepare_header(),
            build@ == build_header(),
            function_starts(all) == function_starts_from(all, n as int, build_start as int),
        decreases lines.len() - n,
    {
        let line = &lines[n];
        assert(all[n as int] == line@);
        if starts_with(line.as_slice(), prepare.as_slice()) {
            return (n + 1, build_start);
        }
        if build_start == 0 && starts_with(line.as_slice(), build.as_slice()) {
            build_start = n + 1;
        }
        n += 1;
    }
    (0, build_start)
}

/// Adds a `patch` command for each patch at the start of the PKGBUILD's
/// `prepare()` function, creating the function (before `build()`, else at
/// the top) when there is none, and joins the lines with `\n`.
pub fn prepend_prepare_patches(pkgbuild: String, patches: &Vec<PatchFile>) -> (r: String)
    ensures
        r@ == prepended(pkgbuild@, file_names(patch_views(patches@))),
{
    let chars = chars_of(pkgbuild.as_str());
    let lines = split_lines(chars.as_slice());
    let ghost all = vec_views(lines@);
    let (prepare_start, build_start) = find_function_starts(&lines);
    let ghost starts = (prepare_start as int, build_start as int);
    let ghost names = file_names(patch_views(patches@));
    let mut insert: Vec<char> = Vec::new();
    let start_line: usize = if prepare_start != 0 {
        prepare_start
    } else if build_start != 0 {
        build_start - 1
    } else {
        0
    };
    if prepare_start == 0 {
        append_str(&mut insert, "prepare() {\n");
    }
    let ghost head = insert@;
    assert(head == (if starts.0 == 0 {
        "prepare() {\n"@
    } else {
        seq![]
    }));
    for i in 0..patches.len()
        invariant
            names == file_names(patch_views(patches@)),
            insert@ == head + patch_commands(names.take(i as int)),
    {
        append_str(&mut insert, "\tpatch -Np1 -i ${srcdir}/");
        append_str(&mut insert, patches[i].file_name.as_str());
        append_str(&mut insert, "\n");
        assert(names.take(i + 1).drop_last() =~= names.take(i as int));
        assert(names.take(i + 1).last() == patches@[i as int].file_name@);
    }
    assert(names.take(patches.len() as int) =~= names);
    if prepare_start == 0 {
        append_str(&mut insert, "}\n");
    }
    assert(insert@ == prepare_insert(starts, names));
    assert(start_line as int == prepare_insert_line(starts));
    let mut out: Vec<Vec<char>> = Vec::new();
    for i in 0..start_line
        invariant
            start_line <= lines@.len(),
            all == vec_views(lines@),
            vec_views(out@) == all.take(i as int),
    {
        let ghost prev = out@;
        out.push(copy_chars(lines[i].as_slice()));
        proof {
            lemma_vec_views_push(prev, out@.last());
        }
        assert(vec_views(out@) =~= all.take(i + 1));
    }
    let ghost prev = out@;
    let ghost inserted = insert@;
    out.push(insert);
    proof {
        lemma_vec_views_push(prev, out@.last());
    }
    let ghost middle = vec_views(out@);
    assert(middle =~= all.take(start_line as int) + seq![inserted]);
    let mut j: usize = start_line;
    while j < lines.len()
        invariant
            start_line <= j <= lines@.len(),
            all == vec_views(lines@),
            vec_views(out@) == middle + all.subrange(start_line as int, j as int),
        decreases lines.len() - j,
    {
        let ghost prev = out@;
        out.push(copy_chars(lines[j].as_slice()));
        proof {
            lemma_vec_views_push(prev, out@.last());
        }
        assert(vec_views(out@) =~= middle + all.subrange(start_line as int, j + 1));
        j += 1;
    }
    assert(all.subrange(start_line as int, all.len() as int) =~= all.skip(start_line as int));
    let joined = join_with_newlines(&out);
    string_from_chars(joined.as_slice())
}

// ---------------------------------------------------------------------------
// The whole update
// ---------------------------------------------------------------------------

/// The checksums of patches that all have one.
pub open spec fn checksums(patches: Seq<PatchView>) -> Seq<Seq<char>> {
    patches.map_values(|p: PatchView| p.checksum->0)
}

/// Every patch has its checksum.
pub open spec fn all_summed(patches: Seq<PatchView>) -> bool {
    forall|i: int| 0 <= i < patches.len() ==> #[trigger] patches[i].checksum is Some
}

/// The PKGBUILD text once the patches are added: the `source` array holds
/// the sources of the `.SRCINFO` and then the patches' file names, the
/// checksum array the `.SRCINFO` checksums and then the patches'
/// checksums, and `prepare()` starts by applying the patches. `None` where
/// an array cannot be replaced.
pub open spec fn updated_pkgbuild(
    pkgbuild: Seq<char>,
    algorithm: HashAlgorithm,
    sources: Seq<Seq<char>>,
    sums: Seq<Seq<char>>,
    patches: Seq<PatchView>,
) -> Option<Seq<char>> {
    match replaced_array(pkgbuild, "source"@, sources + file_names(patches)) {
        None => None,
        Some(with_sources) => match replaced_array(
            with_sources,
            sums_key(algorithm),
            sums + checksums(patches),
        ) {
            None => None,
            Some(with_sums) => Some(prepended(with_sums, file_names(patches))),
        },
    }
}

/// `base` followed by one string per patch, chosen by `checksum`: the
/// patch's checksum, else its file name.
fn extended(base: &Vec<String>, patches: &Vec<PatchFile>, checksum: bool) -> (r: Vec<String>)
    requires
        checksum ==> all_summed(patch_views(patches@)),
    ensures
        views(r@) == views(base@) + (if checksum {
            checksums(patch_views(patches@))
        } else {
            file_names(patch_views(patches@))
        }),
{
    let ghost ps = patch_views(patches@);
    let ghost tail = if checksum {
        checksums(ps)
    } else {
        file_names(ps)
    };
    let mut r: Vec<String> = Vec::new();
    for i in 0..base.len()
        invariant
            views(r@) == views(base@).take(i as int),
    {
        let ghost prev = r@;
        r.push(base[i].clone());
        proof {
            lemma_views_push(prev, r@.last());
        }
        assert(views(r@) =~= views(base@).take(i + 1));
    }
    assert(views(base@).take(base.len() as int) =~= views(base@));
    for i in 0..patches.len()
        invariant
            ps == patch_views(patches@),
            checksum ==> all_summed(ps),
            tail == (if checksum {
                checksums(ps)
            } else {
                file_names(ps)
            }),
            views(r@) == views(base@) + tail.take(i as int),
    {
        let ghost prev = r@;
        let p = &patches[i];
        assert(ps[i as int] == p@);
        let s = if checksum {
            match &p.checksum {
                Some(c) => c.clone(),
                None => {
                    assert(ps[i as int].checksum is Some);
                    String::new()
                },
            }
        } else {
            p.file_name.clone()
        };
        r.push(s);
        proof {
            lemma_views_push(prev, r@.last());
        }
        assert(views(r@) =~= views(base@) + tail.take(i + 1));
    }
    assert(tail.take(patches.len() as int) =~= tail);
    r
}

/// Adds the patches to a PKGBUILD text, given the sources and checksums
/// that its `.SRCINFO` lists; `None` where an array cannot be replaced.
pub fn update_pkgbuild(
    pkgbuild: &String,
    algorithm: HashAlgorithm,
    sources: &Vec<String>,
    sums: &Vec<String>,
    patches: &Vec<PatchFile>,
) -> (r: Option<String>)
    requires
        all_summed(patch_views(patches@)),
    ensures
        match r {
            Some(t) => updated_pkgbuild(
                pkgbuild@,
                algorithm,
                views(sources@),
                views(sums@),
                patch_views(patches@),
            ) == Some(t@),
            None => updated_pkgbuild(
                pkgbuild@,
                algorithm,
                views(sources@),
                views(sums@),
                patch_views(patches@),
            ) is None,
        },
{
    let new_sources = extended(sources, patches, false);
    let new_sums = extended(sums, patches, true);
    let source_key = String::from_str("source");
    let with_sources = match try_replace_array_string(pkgbuild, &source_key, &new_sources) {
        None => return None,
        Some(t) => t,
    };
    let key = string_from_chars(algorithm.sums_key().as_slice());
    let with_sums = match try_replace_array_string(&with_sources, &key, &new_sums) {
        None => return None,
        Some(t) => t,
    };
    Some(prepend_prepare_patches(with_sums, patches))
}

} // verus!

verus! {

/// The sources and the checksums of a PKGBUILD grow by one entry per patch
/// each, so that every added source has its checksum at the same place.
pub proof fn lemma_one_checksum_per_source(
    sources: Seq<Seq<char>>,
    sums: Seq<Seq<char>>,
    patches: Seq<PatchView>,
)
    requires
        sources.len() == sums.len(),
    ensures
        (sources + file_names(patches)).len() == (sums + checksums(patches)).len(),
        forall|i: int|
            0 <= i < patches.len() ==> (sources + file_names(patches))[sources.len() + i]
                == patches[i].file_name && (sums + checksums(patches))[sums.len() + i]
                == patches[i].checksum->0,
{
}

} // verus!

verus! {

proof fn lemma_function_starts_from(lines: Seq<Seq<char>>, n: int, build_start: int)
    requires
        0 <= n,
        forall|j: int| 0 <= j < n ==> !has_prefix(#[trigger] lines[j], prepare_header()),
    ensures
        function_starts_from(lines, n, build_start).0 != 0 ==> {
            let k = function_starts_from(lines, n, build_start).0 - 1;
            &&& 0 <= k < lines.len()
            &&& has_prefix(lines[k], prepare_header())
            &&& forall|j: int| 0 <= j < k ==> !has_prefix(#[trigger] lines[j], prepare_header())
        },
    decreases lines.len() - n,
{
    if n < lines.len() && !has_prefix(lines[n], prepare_header()) {
        let b = if build_start == 0 && has_prefix(lines[n], build_header()) {
            n + 1
        } else {
            build_start
        };
        lemma_function_starts_from(lines, n + 1, b);
    }
}

/// Where a PKGBUILD has a `prepare() {` line, the patch commands go right
/// after the first one.
pub proof fn lemma_commands_follow_prepare(pkgbuild: Seq<char>)
    ensures
        ({
            let lines = lines_of(pkgbuild);
            let starts = function_starts(lines);
            starts.0 != 0 ==> {
                let k = prepare_insert_line(starts) - 1;
                &&& 0 <= k < lines.len()
                &&& has_prefix(lines[k], prepare_header())
                &&& forall|j: int| 0 <= j < k ==> !has_prefix(#[trigger] lines[j], prepare_header())
            }
        }),
{
    lemma_function_starts_from(lines_of(pkgbuild), 0, 0);
}

proof fn lemma_array_span_from(lines: Seq<Seq<char>>, name: Seq<char>, n: int, start: int)
    requires
        0 <= n,
        0 <= start,
        start != 0 ==> start < n && has_prefix(lines[start], name),
    ensures
        array_span_from(lines, name, n, start).0 != 0 ==> has_prefix(
            lines[array_span_from(lines, name, n, start).0],
            name,
        ),
    decreases lines.len() - n,
{
    if n < lines.len() {
        if start == 0 {
            if has_prefix(lines[n], name) {
                if !has_suffix(lines[n], seq![')']) {
                    lemma_array_span_from(lines, name, n + 1, n);
                }
            } else {
                lemma_array_span_from(lines, name, n + 1, start);
            }
        } else if !has_suffix(lines[n], seq![')']) {
            lemma_array_span_from(lines, name, n + 1, start);
        }
    }
}

/// The array that is replaced starts at a line that starts with its name
/// (or at the first line, where the scan found no other).
pub proof fn lemma_replaced_array_starts_with_name(lines: Seq<Seq<char>>, name: Seq<char>)
    ensures
        array_span(lines, name).0 != 0 ==> has_prefix(lines[array_span(lines, name).0], name),
{
    lemma_array_span_from(lines, name, 0, 0);
}

} // verus!

verus! {

/// The lines of an array assignment: `name=(`, one `\t'item'` per item,
/// and `)`.
pub open spec fn array_lines(name: Seq<char>, items: Seq<Seq<char>>) -> Seq<Seq<char>> {
    seq![name + "=("@] + items.map_values(|it: Seq<char>| "\t'"@ + it + "'"@) + seq![")"@]
}

proof fn lemma_join_quoted(head: Seq<char>, items: Seq<Seq<char>>)
    ensures
        join_lines(seq![head] + items.map_values(|it: Seq<char>| "\t'"@ + it + "'"@)) == head
            + quoted_items(items),
    decreases items.len(),
{
    let q = items.map_values(|it: Seq<char>| "\t'"@ + it + "'"@);
    if items.len() == 0 {
        assert(seq![head] + q =~= seq![head]);
        assert(head + quoted_items(items) =~= head);
    } else {
        let init = items.drop_last();
        let qi = init.map_values(|it: Seq<char>| "\t'"@ + it + "'"@);
        lemma_join_quoted(head, init);
        assert((seq![head] + q).drop_last() =~= seq![head] + qi);
        assert((seq![head] + q).last() == "\t'"@ + items.last() + "'"@);
        reveal_strlit("\n\t'");
        reveal_strlit("\t'");
        assert("\n\t'"@ =~= seq!['\n'] + "\t'"@);
        assert(head + quoted_items(init) + seq!['\n'] + ("\t'"@ + items.last() + "'"@) =~= head
            + (quoted_items(init) + "\n\t'"@ + items.last() + "'"@));
    }
}

/// The lines of an array assignment, joined, are its text.
pub proof fn lemma_join_array_lines(name: Seq<char>, items: Seq<Seq<char>>)
    ensures
        join_lines(array_lines(name, items)) == array_text(name, items),
{
    let q = items.map_values(|it: Seq<char>| "\t'"@ + it + "'"@);
    let front = seq![name + "=("@] + q;
    lemma_join_quoted(name + "=("@, items);
    assert(array_lines(name, items) =~= front + seq![")"@]);
    lemma_join_lines_concat(front, seq![")"@]);
    reveal_strlit("\n)");
    reveal_strlit(")");
    assert(")"@ =~= seq![')']);
    assert(name + "=("@ + quoted_items(items) + seq!['\n'] + seq![')'] =~= array_text(name, items));
}

/// Joining lines where one of them is itself joined lines.
proof fn lemma_join_flatten(p: Seq<Seq<char>>, x: Seq<Seq<char>>, q: Seq<Seq<char>>)
    requires
        x.len() > 0,
    ensures
        join_lines(p + seq![join_lines(x)] + q) == join_lines(p + x + q),
{
    let jx = join_lines(x);
    let left = if q.len() == 0 {
        join_lines(p + seq![jx])
    } else {
        join_lines(p + seq![jx] + q)
    };
    if q.len() > 0 {
        lemma_join_lines_concat(x, q);
        lemma_join_lines_prepend(jx, q);
        if p.len() > 0 {
            assert(p + seq![jx] + q =~= p + (seq![jx] + q));
            lemma_join_lines_concat(p, seq![jx] + q);
            assert(p + x + q =~= p + (x + q));
            lemma_join_lines_concat(p, x + q);
        } else {
            assert(p + seq![jx] + q =~= seq![jx] + q);
            assert(p + x + q =~= x + q);
        }
    } else {
        assert(p + seq![jx] + q =~= p + seq![jx]);
        assert(p + x + q =~= p + x);
        if p.len() > 0 {
            lemma_join_lines_concat(p, seq![jx]);
            lemma_join_lines_concat(p, x);
        } else {
            assert(p + seq![jx] =~= seq![jx]);
            assert(p + x =~= x);
        }
    }
}

/// The text's lines are plain, and the name and items hold no `\n`.
pub open spec fn replaceable(text: Seq<char>, name: Seq<char>, items: Seq<Seq<char>>) -> bool {
    &&& plain_lines(lines_of(text))
    &&& !name.contains('\n')
    &&& forall|i: int| 0 <= i < items.len() ==> !(#[trigger] items[i]).contains('\n')
}

/// Where no line of the text ends with `\r`, its last line is not empty
/// and no item holds a `\n`, the lines of the text with an array replaced are the
/// lines before the array, one line `name=(`, one line `\t'item'` per item
/// in order, one line `)`, and the lines after the array.
pub proof fn lemma_replaced_array_lines(text: Seq<char>, name: Seq<char>, items: Seq<Seq<char>>)
    requires
        replaceable(text, name, items),
        replaced_array(text, name, items) is Some,
    ensures
        ({
            let lines = lines_of(text);
            let span = array_span(lines, name);
            lines_of(replaced_array(text, name, items)->0) == lines.take(span.0) + array_lines(
                name,
                items,
            ) + lines.skip(span.1 + 1)
        }),
        plain_lines(lines_of(replaced_array(text, name, items)->0)),
{
    let lines = lines_of(text);
    let span = array_span(lines, name);
    let arr = array_lines(name, items);
    let all = lines.take(span.0) + arr + lines.skip(span.1 + 1);
    lemma_join_array_lines(name, items);
    lemma_join_flatten(lines.take(span.0), arr, lines.skip(span.1 + 1));
    reveal_strlit("=(");
    reveal_strlit("\t'");
    reveal_strlit("'");
    reveal_strlit(")");
    assert forall|i: int| 0 <= i < arr.len() implies !(#[trigger] arr[i]).contains('\n') && (
    arr[i].len() > 0 && arr[i].last() != '\r') by {
        if i == 0 {
            if arr[0].contains('\n') {
                let k = choose|k: int| 0 <= k < arr[0].len() && arr[0][k] == '\n';
                assert(arr[0][k] == name[k]);
                assert(name.contains(name[k]));
            }
            assert(arr[0].last() == '(');
        } else if i < arr.len() - 1 {
            let it = items[i - 1];
            assert(arr[i] == "\t'"@ + it + "'"@);
            if arr[i].contains('\n') {
                let k = choose|k: int| 0 <= k < arr[i].len() && arr[i][k] == '\n';
                assert(1 <= k < it.len() + 1);
                assert(arr[i][k] == it[k - 1]);
                assert(it.contains(it[k - 1]));
            }
            assert(arr[i].last() == '\'');
        } else {
            assert(arr[i] == ")"@);
        }
    }
    assert(plain_lines(all)) by {
        assert forall|i: int| 0 <= i < all.len() implies !(#[trigger] all[i]).contains('\n') && (
        all[i].len() > 0 ==> all[i].last() != '\r') by {
            if i < span.0 {
                assert(all[i] == lines[i]);
            } else if i < span.0 + arr.len() {
                assert(all[i] == arr[i - span.0]);
            } else {
                assert(all[i] == lines[i - span.0 - arr.len() + span.1 + 1]);
            }
        }
        if lines.skip(span.1 + 1).len() > 0 {
            assert(all.last() == lines.last());
        } else {
            assert(all.last() == arr.last());
        }
    }
    lemma_split_join_roundtrip(all);
}

/// Once a start other than 0 is found, it stays.
proof fn lemma_span_start_stays(lines: Seq<Seq<char>>, name: Seq<char>, n: int, start: int)
    requires
        start != 0,
    ensures
        array_span_from(lines, name, n, start).0 == start,
    decreases lines.len() - n,
{
    if 0 <= n < lines.len() && !has_suffix(lines[n], seq![')']) {
        lemma_span_start_stays(lines, name, n + 1, start);
    }
}

/// Two texts whose first `t` lines agree are scanned alike up to line `t`,
/// where the first finds its array at line `s >= t`; no line from 1 to `t`
/// starts with the name.
proof fn lemma_span_prefix(
    l1: Seq<Seq<char>>,
    l2: Seq<Seq<char>>,
    name: Seq<char>,
    s: int,
    t: int,
    n: int,
)
    requires
        1 <= s,
        0 <= n <= t <= s,
        s <= l1.len(),
        t <= l2.len(),
        l1.take(t) == l2.take(t),
        array_span(l1, name).0 == s,
        array_span(l1, name) == array_span_from(l1, name, n, 0),
        array_span(l2, name) == array_span_from(l2, name, n, 0),
        forall|j: int| 1 <= j < n ==> !has_prefix(#[trigger] l1[j], name),
    ensures
        array_span(l1, name) == array_span_from(l1, name, t, 0),
        array_span(l2, name) == array_span_from(l2, name, t, 0),
        forall|j: int| 1 <= j < t ==> !has_prefix(#[trigger] l1[j], name),
    decreases t - n,
{
    if n < t {
        assert(l1[n] == l1.take(t)[n]);
        assert(l2[n] == l2.take(t)[n]);
        if has_prefix(l1[n], name) {
            if has_suffix(l1[n], seq![')']) {
                assert(array_span_from(l1, name, n, 0) == (n, n));
                assert(false);
            } else if n >= 1 {
                lemma_span_start_stays(l1, name, n + 1, n);
                assert(false);
            } else {
                lemma_span_prefix(l1, l2, name, s, t, n + 1);
            }
        } else {
            lemma_span_prefix(l1, l2, name, s, t, n + 1);
        }
    }
}

/// From a start, lines that do not end with `)` are passed over.
proof fn lemma_span_to_close(lines: Seq<Seq<char>>, name: Seq<char>, n: int, start: int, close: int)
    requires
        start != 0,
        0 <= n <= close < lines.len(),
        has_suffix(lines[close], seq![')']),
        forall|j: int| n <= j < close ==> !has_suffix(#[trigger] lines[j], seq![')']),
    ensures
        array_span_from(lines, name, n, start) == (start, close),
    decreases close - n,
{
    if n < close {
        lemma_span_to_close(lines, name, n + 1, start, close);
    }
}

/// Replacing an array a second time gives what replacing it once with the
/// second items gives, where the array starts after the first line and the
/// texts are as `lemma_replaced_array_lines` needs.
pub proof fn lemma_replace_array_twice(
    text: Seq<char>,
    name: Seq<char>,
    a: Seq<Seq<char>>,
    b: Seq<Seq<char>>,
)
    requires
        replaceable(text, name, a),
        replaced_array(text, name, a) is Some,
        array_span(lines_of(text), name).0 >= 1,
    ensures
        replaced_array(replaced_array(text, name, a)->0, name, b) == replaced_array(text, name, b),
{
    let lines = lines_of(text);
    let span = array_span(lines, name);
    let s = span.0;
    let r = replaced_array(text, name, a)->0;
    let arr = array_lines(name, a);
    lemma_replaced_array_lines(text, name, a);
    let l2 = lines_of(r);
    assert(l2 == lines.take(s) + arr + lines.skip(span.1 + 1));
    assert(l2.take(s) =~= lines.take(s));
    lemma_span_prefix(lines, l2, name, s, s, 0);
    reveal_strlit("=(");
    reveal_strlit("\t'");
    reveal_strlit("'");
    reveal_strlit(")");
    assert(l2[s] == name + "=("@);
    assert(has_prefix(l2[s], name)) by {
        assert(l2[s].take(name.len() as int) =~= name);
    }
    assert(!has_suffix(l2[s], seq![')'])) by {
        assert(l2[s].skip(l2[s].len() - 1)[0] == '(');
    }
    let close = s + a.len() + 1;
    assert(l2[close] == ")"@);
    assert(has_suffix(l2[close], seq![')'])) by {
        assert(l2[close].skip(0) =~= seq![')']);
    }
    assert forall|j: int| s + 1 <= j < close implies !has_suffix(#[trigger] l2[j], seq![')']) by {
        assert(l2[j] == arr[j - s]);
        assert(arr[j - s] == "\t'"@ + a[j - s - 1] + "'"@);
        assert(l2[j].skip(l2[j].len() - 1)[0] == '\'');
    }
    lemma_span_to_close(l2, name, s + 1, s, close);
    assert(array_span(l2, name) == (s, close));
    assert(l2.take(s) =~= lines.take(s));
    assert(l2.skip(close + 1) =~= lines.skip(span.1 + 1));
}

/// Every line that starts with `name` has a line ending with `)` at or
/// after it: each array that the name starts is closed.
pub open spec fn closed_after(lines: Seq<Seq<char>>, name: Seq<char>) -> bool {
    forall|i: int|
        0 <= i < lines.len() && has_prefix(#[trigger] lines[i], name) ==> exists|j: int|
            i <= j < lines.len() && has_suffix(lines[j], seq![')'])
}

proof fn lemma_span_from_removable(lines: Seq<Seq<char>>, name: Seq<char>, n: int, start: int)
    requires
        lines.len() > 0,
        0 <= n,
        closed_after(lines, name),
        start == 0 || (1 <= start < n && exists|j: int|
            n <= j < lines.len() && has_suffix(lines[j], seq![')'])),
    ensures
        span_removable(lines, array_span_from(lines, name, n, start)),
    decreases lines.len() - n,
{
    if n < lines.len() {
        if start == 0 {
            if has_prefix(lines[n], name) {
                if !has_suffix(lines[n], seq![')']) {
                    let j = choose|j: int| n <= j < lines.len() && has_suffix(lines[j], seq![')']);
                    assert(j != n);
                    if n >= 1 {
                        lemma_span_from_removable(lines, name, n + 1, n);
                    } else {
                        lemma_span_from_removable(lines, name, n + 1, 0);
                    }
                }
            } else {
                lemma_span_from_removable(lines, name, n + 1, 0);
            }
        } else if !has_suffix(lines[n], seq![')']) {
            let j = choose|j: int| n <= j < lines.len() && has_suffix(lines[j], seq![')']);
            assert(j != n);
            lemma_span_from_removable(lines, name, n + 1, start);
        }
    } else if start != 0 {
        let j = choose|j: int| n <= j < lines.len() && has_suffix(lines[j], seq![')']);
        assert(false);
    }
}

/// An array whose every start is closed can be replaced in a text that has
/// lines.
pub proof fn lemma_closed_array_replaceable(text: Seq<char>, name: Seq<char>, items: Seq<Seq<char>>)
    requires
        lines_of(text).len() > 0,
        closed_after(lines_of(text), name),
    ensures
        replaced_array(text, name, items) is Some,
{
    lemma_span_from_removable(lines_of(text), name, 0, 0);
}

/// The name of a checksum array starts with `m` or with `sh`.
proof fn lemma_sums_key_start(a: HashAlgorithm)
    ensures
        sums_key(a).len() >= 2,
        sums_key(a)[0] == 'm' || (sums_key(a)[0] == 's' && sums_key(a)[1] == 'h'),
{
    reveal_strlit("md5");
    reveal_strlit("sha1");
    reveal_strlit("sha224");
    reveal_strlit("sha256");
    reveal_strlit("sha384");
    reveal_strlit("sha512");
    reveal_strlit("sums");
}

/// Where a PKGBUILD's lines are plain and its `source` array and checksum
/// array are closed, and no source, file name or checksum holds a `\n`,
/// adding patches to it succeeds.
pub proof fn lemma_update_succeeds(
    pkgbuild: Seq<char>,
    algorithm: HashAlgorithm,
    sources: Seq<Seq<char>>,
    sums: Seq<Seq<char>>,
    patches: Seq<PatchView>,
)
    requires
        lines_of(pkgbuild).len() > 0,
        plain_lines(lines_of(pkgbuild)),
        closed_after(lines_of(pkgbuild), "source"@),
        closed_after(lines_of(pkgbuild), sums_key(algorithm)),
        forall|i: int|
            0 <= i < (sources + file_names(patches)).len() ==> !(#[trigger] (sources + file_names(
                patches,
            ))[i]).contains('\n'),
    ensures
        updated_pkgbuild(pkgbuild, algorithm, sources, sums, patches) is Some,
{
    let lines = lines_of(pkgbuild);
    let ns = sources + file_names(patches);
    let key = sums_key(algorithm);
    lemma_closed_array_replaceable(pkgbuild, "source"@, ns);
    reveal_strlit("source");
    assert(!"source"@.contains('\n'));
    lemma_replaced_array_lines(pkgbuild, "source"@, ns);
    let text1 = replaced_array(pkgbuild, "source"@, ns)->0;
    let span = array_span(lines, "source"@);
    let arr = array_lines("source"@, ns);
    let l1 = lines_of(text1);
    assert(l1 == lines.take(span.0) + arr + lines.skip(span.1 + 1));
    let s0 = span.0;
    let shift = s0 + arr.len() - (span.1 + 1);
    lemma_sums_key_start(algorithm);
    reveal_strlit("=(");
    reveal_strlit("\t'");
    reveal_strlit(")");
    assert(closed_after(l1, key)) by {
        assert forall|i: int|
            0 <= i < l1.len() && has_prefix(#[trigger] l1[i], key) implies exists|j: int|
            i <= j < l1.len() && has_suffix(l1[j], seq![')']) by {
            if i < s0 {
                assert(l1[i] == lines[i]);
                let j0 = choose|j: int| i <= j < lines.len() && has_suffix(lines[j], seq![')']);
                if j0 < s0 {
                    assert(l1[j0] == lines[j0]);
                } else {
                    let j = s0 + arr.len() - 1;
                    assert(l1[j] == ")"@);
                    assert(l1[j].skip(0) =~= seq![')']);
                }
            } else if i < s0 + arr.len() {
                let k = i - s0;
                assert(l1[i] == arr[k]);
                assert(l1[i].take(key.len() as int)[0] == key[0]);
                if k == 0 {
                    assert(arr[k][0] == 's' && arr[k][1] == 'o');
                    assert(l1[i].take(key.len() as int)[1] == key[1]);
                } else if k < arr.len() - 1 {
                    assert(arr[k] == "\t'"@ + ns[k - 1] + "'"@);
                    assert(arr[k][0] == '\t');
                } else {
                    assert(arr[k][0] == ')');
                }
            } else {
                let i0 = i - shift;
                assert(l1[i] == lines[i0]);
                let j0 = choose|j: int| i0 <= j < lines.len() && has_suffix(lines[j], seq![')']);
                assert(l1[j0 + shift] == lines[j0]);
            }
        }
    }
    lemma_closed_array_replaceable(text1, key, sums + checksums(patches));
}

/// The end found is the line where the scan stopped, or 0.
proof fn lemma_span_end_at_or_after(lines: Seq<Seq<char>>, name: Seq<char>, n: int, start: int)
    ensures
        array_span_from(lines, name, n, start).1 >= n || array_span_from(lines, name, n, start).1
            == 0,
    decreases lines.len() - n,
{
    if 0 <= n < lines.len() {
        lemma_span_end_at_or_after(lines, name, n + 1, start);
        lemma_span_end_at_or_after(lines, name, n + 1, n);
    }
}

/// A scan that closes its array before line `m` reads only lines before
/// `m`.
proof fn lemma_span_reads_prefix(
    l1: Seq<Seq<char>>,
    l2: Seq<Seq<char>>,
    name: Seq<char>,
    m: int,
    n: int,
    start: int,
)
    requires
        0 <= n,
        m <= l1.len(),
        m <= l2.len(),
        l1.take(m) == l2.take(m),
        1 <= array_span_from(l1, name, n, start).1 < m,
    ensures
        array_span_from(l2, name, n, start) == array_span_from(l1, name, n, start),
    decreases l1.len() - n,
{
    lemma_span_end_at_or_after(l1, name, n, start);
    if n < l1.len() {
        assert(n < m);
        assert(l1[n] == l1.take(m)[n]);
        assert(l2[n] == l2.take(m)[n]);
        if start == 0 {
            if has_prefix(l1[n], name) {
                if !has_suffix(l1[n], seq![')']) {
                    lemma_span_reads_prefix(l1, l2, name, m, n + 1, n);
                }
            } else {
                lemma_span_reads_prefix(l1, l2, name, m, n + 1, start);
            }
        } else if !has_suffix(l1[n], seq![')']) {
            lemma_span_reads_prefix(l1, l2, name, m, n + 1, start);
        }
    }
}

/// Lines that do not start with the name are passed over while no start is
/// found.
proof fn lemma_span_skips(lines: Seq<Seq<char>>, name: Seq<char>, n: int, n2: int)
    requires
        0 <= n <= n2 <= lines.len(),
        forall|j: int| n <= j < n2 ==> !has_prefix(#[trigger] lines[j], name),
    ensures
        array_span_from(lines, name, n, 0) == array_span_from(lines, name, n2, 0),
    decreases n2 - n,
{
    if n < n2 {
        lemma_span_skips(lines, name, n + 1, n2);
    }
}

/// Texts whose ends agree past lines `a` and `b` are scanned alike there,
/// the found lines moved by `a - b`.
proof fn lemma_span_shifted(
    l1: Seq<Seq<char>>,
    l2: Seq<Seq<char>>,
    name: Seq<char>,
    a: int,
    b: int,
    x: int,
    st1: int,
    st2: int,
)
    requires
        1 <= a <= l1.len(),
        1 <= b <= l2.len(),
        0 <= x,
        l1.skip(a) == l2.skip(b),
        (st1 == 0 && st2 == 0) || (st2 >= b && st1 == st2 + (a - b)),
        array_span_from(l2, name, b + x, st2).1 >= 1,
    ensures
        array_span_from(l1, name, a + x, st1) == (
            array_span_from(l2, name, b + x, st2).0 + (a - b),
            array_span_from(l2, name, b + x, st2).1 + (a - b),
        ),
    decreases l2.len() - b - x,
{
    assert(l1.skip(a).len() == l2.skip(b).len());
    assert(l1.skip(a).len() == l1.len() - a);
    assert(l2.skip(b).len() == l2.len() - b);
    if b + x < l2.len() {
        assert(a + x < l1.len());
        assert(l1.skip(a)[x] == l1[a + x]);
        assert(l1[a + x] == l1.skip(a)[x]);
        assert(l2[b + x] == l2.skip(b)[x]);
        let line = l2[b + x];
        if st2 == 0 {
            if has_prefix(line, name) {
                if !has_suffix(line, seq![')']) {
                    lemma_span_shifted(l1, l2, name, a, b, x + 1, a + x, b + x);
                }
            } else {
                lemma_span_shifted(l1, l2, name, a, b, x + 1, st1, st2);
            }
        } else if !has_suffix(line, seq![')']) {
            lemma_span_shifted(l1, l2, name, a, b, x + 1, st1, st2);
        }
    }
}

/// No line of a `source` array assignment starts with the name of a
/// checksum array.
proof fn lemma_source_lines_not_sums(items: Seq<Seq<char>>, a: HashAlgorithm)
    ensures
        forall|k: int|
            0 <= k < array_lines("source"@, items).len() ==> !has_prefix(
                #[trigger] array_lines("source"@, items)[k],
                sums_key(a),
            ),
{
    let arr = array_lines("source"@, items);
    let key = sums_key(a);
    lemma_sums_key_start(a);
    reveal_strlit("source");
    reveal_strlit("=(");
    reveal_strlit("\t'");
    reveal_strlit(")");
    assert forall|k: int| 0 <= k < arr.len() implies !has_prefix(#[trigger] arr[k], key) by {
        if has_prefix(arr[k], key) {
            assert(arr[k].take(key.len() as int)[0] == key[0]);
            if k == 0 {
                assert(arr[k][0] == 's' && arr[k][1] == 'o');
                assert(arr[k].take(key.len() as int)[1] == key[1]);
            } else if k < arr.len() - 1 {
                assert(arr[k] == "\t'"@ + items[k - 1] + "'"@);
                assert(arr[k][0] == '\t');
            } else {
                assert(arr[k][0] == ')');
            }
        }
    }
}

/// The name of a checksum array holds no `\n`.
proof fn lemma_sums_key_one_line(a: HashAlgorithm)
    ensures
        !sums_key(a).contains('\n'),
{
    reveal_strlit("md5");
    reveal_strlit("sha1");
    reveal_strlit("sha224");
    reveal_strlit("sha256");
    reveal_strlit("sha384");
    reveal_strlit("sha512");
    reveal_strlit("sums");
    let key = sums_key(a);
    assert forall|i: int| 0 <= i < key.len() implies key[i] != '\n' by {
        assert(key[i] == 'm' || key[i] == 'd' || key[i] == '5' || key[i] == 's' || key[i] == 'h'
            || key[i] == 'a' || key[i] == '1' || key[i] == '2' || key[i] == '3' || key[i] == '4'
            || key[i] == '6' || key[i] == '8' || key[i] == 'u');
    }
}

/// `blk` stands in `lines` from line `k` on.
pub open spec fn block_at(lines: Seq<Seq<char>>, k: int, blk: Seq<Seq<char>>) -> bool {
    0 <= k && k + blk.len() <= lines.len() && lines.subrange(k, k + blk.len()) == blk
}

/// Where a PKGBUILD's lines are plain and its `source` array and checksum
/// array each start after the first line, are closed, and do not overlap,
/// and no value holds a `\n`: adding patches succeeds, and before the
/// `patch` commands are added the text holds, each on consecutive lines,
/// the `source` array listing the `.SRCINFO` sources and then the patches'
/// file names, and the checksum array listing the `.SRCINFO` checksums and
/// then the patches' checksums.
pub proof fn lemma_update_lists_arrays(
    pkgbuild: Seq<char>,
    algorithm: HashAlgorithm,
    sources: Seq<Seq<char>>,
    sums: Seq<Seq<char>>,
    patches: Seq<PatchView>,
)
    requires
        plain_lines(lines_of(pkgbuild)),
        1 <= array_span(lines_of(pkgbuild), "source"@).0 <= array_span(
            lines_of(pkgbuild),
            "source"@,
        ).1 < lines_of(pkgbuild).len(),
        1 <= array_span(lines_of(pkgbuild), sums_key(algorithm)).0 <= array_span(
            lines_of(pkgbuild),
            sums_key(algorithm),
        ).1 < lines_of(pkgbuild).len(),
        array_span(lines_of(pkgbuild), "source"@).1 < array_span(
            lines_of(pkgbuild),
            sums_key(algorithm),
        ).0 || array_span(lines_of(pkgbuild), sums_key(algorithm)).1 < array_span(
            lines_of(pkgbuild),
            "source"@,
        ).0,
        forall|i: int|
            0 <= i < (sources + file_names(patches)).len() ==> !(#[trigger] (sources + file_names(
                patches,
            ))[i]).contains('\n'),
        forall|i: int|
            0 <= i < (sums + checksums(patches)).len() ==> !(#[trigger] (sums + checksums(
                patches,
            ))[i]).contains('\n'),
    ensures
        ({
            let ns = sources + file_names(patches);
            let nc = sums + checksums(patches);
            let key = sums_key(algorithm);
            let with_sources = replaced_array(pkgbuild, "source"@, ns);
            let with_sums = replaced_array(with_sources->0, key, nc);
            &&& with_sources is Some
            &&& with_sums is Some
            &&& updated_pkgbuild(pkgbuild, algorithm, sources, sums, patches) == Some(
                prepended(with_sums->0, file_names(patches)),
            )
            &&& exists|k: int| block_at(lines_of(with_sums->0), k, array_lines("source"@, ns))
            &&& exists|k: int| block_at(lines_of(with_sums->0), k, array_lines(key, nc))
        }),
{
    let lines = lines_of(pkgbuild);
    let ns = sources + file_names(patches);
    let nc = sums + checksums(patches);
    let key = sums_key(algorithm);
    let sp = array_span(lines, "source"@);
    let sq = array_span(lines, key);
    reveal_strlit("source");
    assert(!"source"@.contains('\n'));
    lemma_replaced_array_lines(pkgbuild, "source"@, ns);
    let t1 = replaced_array(pkgbuild, "source"@, ns)->0;
    let a1 = array_lines("source"@, ns);
    let l1 = lines_of(t1);
    assert(l1 == lines.take(sp.0) + a1 + lines.skip(sp.1 + 1));
    assert(l1.take(sp.0) =~= lines.take(sp.0));
    let d = sp.0 + a1.len() - (sp.1 + 1);
    if sq.1 < sp.0 {
        lemma_span_reads_prefix(lines, l1, key, sp.0, 0, 0);
    } else {
        lemma_span_prefix(lines, l1, key, sq.0, sp.0, 0);
        lemma_span_prefix(lines, lines, key, sq.0, sq.0, 0);
        lemma_span_skips(lines, key, sp.0, sp.1 + 1);
        lemma_source_lines_not_sums(ns, algorithm);
        assert forall|j: int| sp.0 <= j < sp.0 + a1.len() implies !has_prefix(#[trigger] l1[j], key) by {
            assert(l1[j] == a1[j - sp.0]);
        }
        lemma_span_skips(l1, key, sp.0, sp.0 + a1.len());
        assert(l1.skip(sp.0 + a1.len()) =~= lines.skip(sp.1 + 1));
        lemma_span_shifted(l1, lines, key, sp.0 + a1.len(), sp.1 + 1, 0, 0, 0);
    }
    let q = array_span(l1, key);
    assert(sq.1 < sp.0 ==> q == sq);
    assert(sq.1 >= sp.0 ==> q == (sq.0 + d, sq.1 + d));
    lemma_sums_key_one_line(algorithm);
    lemma_replaced_array_lines(t1, key, nc);
    let t2 = replaced_array(t1, key, nc)->0;
    let a2 = array_lines(key, nc);
    let l2 = lines_of(t2);
    assert(l2 == l1.take(q.0) + a2 + l1.skip(q.1 + 1));
    assert(block_at(l2, q.0, a2)) by {
        assert(l2.subrange(q.0, q.0 + a2.len()) =~= a2);
    }
    if sq.1 < sp.0 {
        let k1 = sp.0 - (q.1 + 1) + q.0 + a2.len();
        assert(block_at(l2, k1, a1)) by {
            assert forall|i: int| 0 <= i < a1.len() implies #[trigger] l2.subrange(k1, k1 + a1.len())[i]
                == a1[i] by {
                assert(l2[k1 + i] == l1[sp.0 + i]);
                assert(l1[sp.0 + i] == a1[i]);
            }
            assert(l2.subrange(k1, k1 + a1.len()) =~= a1);
        }
    } else {
        assert(block_at(l2, sp.0, a1)) by {
            assert forall|i: int| 0 <= i < a1.len() implies #[trigger] l2.subrange(sp.0, sp.0 + a1.len())[i]
                == a1[i] by {
                assert(l2[sp.0 + i] == l1[sp.0 + i]);
                assert(l1[sp.0 + i] == a1[i]);
            }
            assert(l2.subrange(sp.0, sp.0 + a1.len()) =~= a1);
        }
    }
}

/// Lines, each followed by `\n`.
pub open spec fn terminated(xs: Seq<Seq<char>>) -> Seq<char>
    decreases xs.len(),
{
    if xs.len() == 0 {
        seq![]
    } else {
        terminated(xs.drop_last()) + xs.last() + seq!['\n']
    }
}

/// The command line that applies each patch.
pub open spec fn command_lines(names: Seq<Seq<char>>) -> Seq<Seq<char>> {
    names.map_values(|n: Seq<char>| "\tpatch -Np1 -i ${srcdir}/"@ + n)
}

/// The lines of the inserted text, with the empty piece after its last
/// `\n`: a `prepare() {` line where the PKGBUILD has none, the commands,
/// and a `}` line where it has none.
pub open spec fn insert_lines(starts: (int, int), names: Seq<Seq<char>>) -> Seq<Seq<char>> {
    (if starts.0 == 0 {
        seq![prepare_header()]
    } else {
        seq![]
    }) + command_lines(names) + (if starts.0 == 0 {
        seq!["}"@]
    } else {
        seq![]
    }) + seq![seq![]]
}

proof fn lemma_terminated_concat(a: Seq<Seq<char>>, b: Seq<Seq<char>>)
    ensures
        terminated(a + b) == terminated(a) + terminated(b),
    decreases b.len(),
{
    if b.len() == 0 {
        assert(a + b =~= a);
        assert(terminated(a) + terminated(b) =~= terminated(a));
    } else {
        assert((a + b).drop_last() =~= a + b.drop_last());
        lemma_terminated_concat(a, b.drop_last());
        assert(terminated(a) + terminated(b.drop_last()) + b.last() + seq!['\n'] =~= terminated(a)
            + (terminated(b.drop_last()) + b.last() + seq!['\n']));
    }
}

proof fn lemma_patch_commands_terminated(names: Seq<Seq<char>>)
    ensures
        patch_commands(names) == terminated(command_lines(names)),
    decreases names.len(),
{
    if names.len() > 0 {
        lemma_patch_commands_terminated(names.drop_last());
        assert(command_lines(names).drop_last() =~= command_lines(names.drop_last()));
        reveal_strlit("\n");
        assert("\n"@ =~= seq!['\n']);
    } else {
        assert(command_lines(names).len() == 0);
    }
}

proof fn lemma_join_terminated(xs: Seq<Seq<char>>)
    ensures
        join_lines(xs + seq![seq![]]) == terminated(xs),
    decreases xs.len(),
{
    if xs.len() == 0 {
        assert(xs + seq![seq![]] =~= seq![seq![]]);
    } else {
        lemma_join_lines_concat(xs, seq![seq![]]);
        lemma_join_terminated(xs.drop_last());
        assert(xs =~= xs.drop_last() + seq![xs.last()]);
        if xs.len() == 1 {
            assert(xs.drop_last() + seq![seq![]] =~= seq![seq![]]);
            assert(terminated(xs) =~= xs.last() + seq!['\n']);
        } else {
            lemma_join_lines_concat(xs.drop_last(), seq![xs.last()]);
            assert(join_lines(xs.drop_last() + seq![seq![]]) == join_lines(xs.drop_last())
                + seq!['\n']) by {
                lemma_join_lines_concat(xs.drop_last(), seq![seq![]]);
                assert(join_lines(seq![seq![]]) == Seq::<char>::empty());
            }
        }
        assert(join_lines(seq![Seq::<char>::empty()]) == Seq::<char>::empty());
    }
}

/// The inserted text is its lines joined.
proof fn lemma_insert_joined(starts: (int, int), names: Seq<Seq<char>>)
    ensures
        join_lines(insert_lines(starts, names)) == prepare_insert(starts, names),
{
    let hdr: Seq<Seq<char>> = if starts.0 == 0 {
        seq![prepare_header()]
    } else {
        seq![]
    };
    let ftr: Seq<Seq<char>> = if starts.0 == 0 {
        seq!["}"@]
    } else {
        seq![]
    };
    let cmds = command_lines(names);
    assert(insert_lines(starts, names) =~= (hdr + cmds + ftr) + seq![seq![]]);
    lemma_join_terminated(hdr + cmds + ftr);
    lemma_terminated_concat(hdr + cmds, ftr);
    lemma_terminated_concat(hdr, cmds);
    lemma_patch_commands_terminated(names);
    reveal_strlit("prepare() {\n");
    reveal_strlit("prepare() {");
    reveal_strlit("}\n");
    reveal_strlit("}");
    if starts.0 == 0 {
        assert(terminated(hdr) =~= "prepare() {\n"@) by {
            assert(hdr.drop_last() =~= Seq::<Seq<char>>::empty());
            assert(terminated(hdr.drop_last()) =~= seq![]);
            assert(terminated(hdr) == terminated(hdr.drop_last()) + hdr.last() + seq!['\n']);
            assert(hdr.last() == "prepare() {"@);
        }
        assert(terminated(ftr) =~= "}\n"@) by {
            assert(ftr.drop_last() =~= Seq::<Seq<char>>::empty());
            assert(terminated(ftr.drop_last()) =~= seq![]);
            assert(terminated(ftr) == terminated(ftr.drop_last()) + ftr.last() + seq!['\n']);
            assert(ftr.last() == "}"@);
        }
    } else {
        assert(terminated(hdr) =~= seq![]);
        assert(terminated(ftr) =~= seq![]);
    }
    assert(prepare_insert(starts, names) =~= terminated(hdr) + terminated(cmds) + terminated(ftr));
}

proof fn lemma_build_start_from(lines: Seq<Seq<char>>, n: int, build_start: int)
    requires
        0 <= n,
        build_start == 0 || (1 <= build_start <= n && build_start <= lines.len() && has_prefix(
            lines[build_start - 1],
            build_header(),
        )),
    ensures
        ({
            let r = function_starts_from(lines, n, build_start);
            r.0 == 0 && r.1 != 0 ==> 1 <= r.1 <= lines.len() && has_prefix(
                lines[r.1 - 1],
                build_header(),
            )
        }),
    decreases lines.len() - n,
{
    if n < lines.len() && !has_prefix(lines[n], prepare_header()) {
        if build_start == 0 && has_prefix(lines[n], build_header()) {
            lemma_build_start_from(lines, n + 1, n + 1);
        } else {
            lemma_build_start_from(lines, n + 1, build_start);
        }
    }
}

/// No line of an array assignment whose name starts with neither `p` nor
/// `b` starts a `prepare()` or `build()` function.
proof fn lemma_array_lines_not_headers(name: Seq<char>, items: Seq<Seq<char>>)
    requires
        name.len() > 0,
        name[0] != 'p',
        name[0] != 'b',
    ensures
        forall|k: int|
            0 <= k < array_lines(name, items).len() ==> !has_prefix(
                #[trigger] array_lines(name, items)[k],
                prepare_header(),
            ) && !has_prefix(array_lines(name, items)[k], build_header()),
{
    let arr = array_lines(name, items);
    reveal_strlit("prepare() {");
    reveal_strlit("build() {");
    reveal_strlit("=(");
    reveal_strlit("\t'");
    reveal_strlit(")");
    assert forall|k: int| 0 <= k < arr.len() implies !has_prefix(#[trigger] arr[k], prepare_header())
        && !has_prefix(arr[k], build_header()) by {
        let c = arr[k][0];
        if k == 0 {
            assert(c == name[0]);
        } else if k < arr.len() - 1 {
            assert(arr[k] == "\t'"@ + items[k - 1] + "'"@);
            assert(c == '\t');
        } else {
            assert(c == ')');
        }
        if has_prefix(arr[k], prepare_header()) {
            assert(arr[k].take(prepare_header().len() as int)[0] == c);
        }
        if has_prefix(arr[k], build_header()) {
            assert(arr[k].take(build_header().len() as int)[0] == c);
        }
    }
}

/// A block that holds no header line does not straddle the place where
/// the `patch` commands go.
proof fn lemma_block_beside_insert(lines: Seq<Seq<char>>, k: int, blk: Seq<Seq<char>>)
    requires
        block_at(lines, k, blk),
        forall|j: int|
            0 <= j < blk.len() ==> !has_prefix(#[trigger] blk[j], prepare_header()) && !has_prefix(
                blk[j],
                build_header(),
            ),
    ensures
        k + blk.len() <= prepare_insert_line(function_starts(lines)) || k >= prepare_insert_line(
            function_starts(lines),
        ),
{
    let starts = function_starts(lines);
    let at = prepare_insert_line(starts);
    lemma_function_starts_from(lines, 0, 0);
    lemma_build_start_from(lines, 0, 0);
    if k < at && at < k + blk.len() {
        if starts.0 != 0 {
            let p = at - 1;
            assert(lines[p] == lines.subrange(k, k + blk.len())[p - k]);
            assert(blk[p - k] == lines[p]);
        } else {
            assert(lines[at] == lines.subrange(k, k + blk.len())[at - k]);
            assert(blk[at - k] == lines[at]);
        }
    }
}

/// The block stays whole where the inserted lines go in beside it.
proof fn lemma_block_after_insert(
    lines: Seq<Seq<char>>,
    at: int,
    ins: Seq<Seq<char>>,
    k: int,
    blk: Seq<Seq<char>>,
)
    requires
        0 <= at <= lines.len(),
        block_at(lines, k, blk),
        k + blk.len() <= at || k >= at,
    ensures
        exists|k2: int| block_at(lines.take(at) + ins + lines.skip(at), k2, blk),
{
    let f = lines.take(at) + ins + lines.skip(at);
    let k2 = if k >= at {
        k + ins.len()
    } else {
        k
    };
    assert forall|i: int| 0 <= i < blk.len() implies #[trigger] f.subrange(k2, k2 + blk.len())[i]
        == blk[i] by {
        assert(lines[k + i] == lines.subrange(k, k + blk.len())[i]);
        assert(f[k2 + i] == lines[k + i]);
    }
    assert(f.subrange(k2, k2 + blk.len()) =~= blk);
    assert(block_at(f, k2, blk));
}

/// The lines of a text with the `patch` commands added, where the text's
/// lines are plain and its last line does not open `prepare()`, and no file
/// name holds a `\n` or ends with `\r`: the inserted lines go in whole,
/// before the last line.
proof fn lemma_prepended_lines(text: Seq<char>, names: Seq<Seq<char>>)
    requires
        plain_lines(lines_of(text)),
        lines_of(text).len() > 0,
        !has_prefix(lines_of(text).last(), prepare_header()),
        forall|i: int| 0 <= i < names.len() ==> !(#[trigger] names[i]).contains('\n'),
        forall|i: int|
            0 <= i < names.len() && (#[trigger] names[i]).len() > 0 ==> names[i].last() != '\r',
    ensures
        ({
            let lines = lines_of(text);
            let at = prepare_insert_line(function_starts(lines));
            &&& 0 <= at < lines.len()
            &&& lines_of(prepended(text, names)) == lines.take(at) + insert_lines(
                function_starts(lines),
                names,
            ) + lines.skip(at)
        }),
{
    let l2 = lines_of(text);
    let starts = function_starts(l2);
    let at = prepare_insert_line(starts);
    lemma_function_starts_from(l2, 0, 0);
    lemma_build_start_from(l2, 0, 0);
    assert(0 <= at < l2.len());
    let p = insert_lines(starts, names);
    lemma_insert_joined(starts, names);
    lemma_join_flatten(l2.take(at), p, l2.skip(at));
    let f = l2.take(at) + p + l2.skip(at);
    let hdr: Seq<Seq<char>> = if starts.0 == 0 {
        seq![prepare_header()]
    } else {
        seq![]
    };
    let cmds = command_lines(names);
    reveal_strlit("\tpatch -Np1 -i ${srcdir}/");
    reveal_strlit("}");
    reveal_strlit("prepare() {");
    assert forall|j: int| 0 <= j < p.len() implies !(#[trigger] p[j]).contains('\n') && (p[j].len()
        > 0 ==> p[j].last() != '\r') by {
        if j < hdr.len() {
            assert(p[j] == prepare_header());
        } else if j < hdr.len() + cmds.len() {
            let c = j - hdr.len();
            let n = names[c];
            assert(p[j] == "\tpatch -Np1 -i ${srcdir}/"@ + n);
            if p[j].contains('\n') {
                let x = choose|x: int| 0 <= x < p[j].len() && p[j][x] == '\n';
                assert(x >= 25);
                assert(n[x - 25] == '\n');
                assert(n.contains(n[x - 25]));
            }
            if n.len() > 0 {
                assert(p[j].last() == n.last());
            }
        } else if j < p.len() - 1 {
            assert(p[j] == "}"@);
        } else {
            assert(p[j] == Seq::<char>::empty());
        }
    }
    assert(plain_lines(f)) by {
        assert forall|i: int| 0 <= i < f.len() implies !(#[trigger] f[i]).contains('\n') && (
        f[i].len() > 0 ==> f[i].last() != '\r') by {
            if i < at {
                assert(f[i] == l2[i]);
            } else if i >= at + p.len() {
                assert(f[i] == l2[i - p.len()]);
            } else {
                assert(f[i] == p[i - at]);
            }
        }
        assert(f.last() == l2.last());
    }
    lemma_split_join_roundtrip(f);
}

/// Right after a `prepare() {` line stand the `patch` commands.
proof fn lemma_commands_after_prepare(lines: Seq<Seq<char>>, names: Seq<Seq<char>>)
    requires
        prepare_insert_line(function_starts(lines)) < lines.len(),
    ensures
        ({
            let at = prepare_insert_line(function_starts(lines));
            let f = lines.take(at) + insert_lines(function_starts(lines), names) + lines.skip(at);
            exists|k: int|
                1 <= k && block_at(f, k, command_lines(names)) && has_prefix(
                    f[k - 1],
                    prepare_header(),
                )
        }),
{
    let starts = function_starts(lines);
    let at = prepare_insert_line(starts);
    lemma_function_starts_from(lines, 0, 0);
    lemma_build_start_from(lines, 0, 0);
    assert(0 <= at);
    let p = insert_lines(starts, names);
    let f = lines.take(at) + p + lines.skip(at);
    let h: int = if starts.0 == 0 {
        1
    } else {
        0
    };
    let cmds = command_lines(names);
    let kc = at + h;
    if starts.0 == 0 {
        assert(p == seq![prepare_header()] + cmds + seq!["}"@] + seq![Seq::<char>::empty()]);
    } else {
        assert(p =~= cmds + seq![Seq::<char>::empty()]);
    }
    assert(p.len() == 2 * h + cmds.len() + 1);
    assert(f.len() == lines.len() + p.len());
    assert(block_at(f, kc, cmds)) by {
        assert forall|i: int| 0 <= i < cmds.len() implies #[trigger] f.subrange(kc, kc + cmds.len())[i]
            == cmds[i] by {
            assert(f[kc + i] == p[h + i]);
            assert(p[h + i] == cmds[i]);
        }
        assert(f.subrange(kc, kc + cmds.len()) =~= cmds);
    }
    if starts.0 == 0 {
        assert(f[at] == prepare_header());
        assert(prepare_header().take(prepare_header().len() as int) =~= prepare_header());
    } else {
        assert(f[at - 1] == lines[at - 1]);
    }
    assert(1 <= kc && has_prefix(f[kc - 1], prepare_header()));
}

/// After both arrays are replaced, the lines are plain and the last one is
/// the PKGBUILD's or a `)`.
proof fn lemma_with_sums_lines(
    pkgbuild: Seq<char>,
    algorithm: HashAlgorithm,
    ns: Seq<Seq<char>>,
    nc: Seq<Seq<char>>,
)
    requires
        plain_lines(lines_of(pkgbuild)),
        forall|i: int| 0 <= i < ns.len() ==> !(#[trigger] ns[i]).contains('\n'),
        forall|i: int| 0 <= i < nc.len() ==> !(#[trigger] nc[i]).contains('\n'),
        replaced_array(pkgbuild, "source"@, ns) is Some,
        replaced_array(replaced_array(pkgbuild, "source"@, ns)->0, sums_key(algorithm), nc) is Some,
    ensures
        ({
            let l2 = lines_of(
                replaced_array(replaced_array(pkgbuild, "source"@, ns)->0, sums_key(algorithm), nc)->0,
            );
            &&& plain_lines(l2)
            &&& l2.len() > 0
            &&& (l2.last() == lines_of(pkgbuild).last() || l2.last() == ")"@)
        }),
{
    let lines = lines_of(pkgbuild);
    let key = sums_key(algorithm);
    reveal_strlit("source");
    assert(!"source"@.contains('\n'));
    lemma_replaced_array_lines(pkgbuild, "source"@, ns);
    let t1 = replaced_array(pkgbuild, "source"@, ns)->0;
    let l1 = lines_of(t1);
    lemma_sums_key_one_line(algorithm);
    lemma_replaced_array_lines(t1, key, nc);
    let t2 = replaced_array(t1, key, nc)->0;
    let l2 = lines_of(t2);
    let sp = array_span(lines, "source"@);
    let q = array_span(l1, key);
    let a1 = array_lines("source"@, ns);
    let a2 = array_lines(key, nc);
    assert(l1 == lines.take(sp.0) + a1 + lines.skip(sp.1 + 1));
    assert(l1.last() == lines.last() || l1.last() == ")"@);
    assert(l2 == l1.take(q.0) + a2 + l1.skip(q.1 + 1));
    assert(l2.last() == l1.last() || l2.last() == ")"@);
}

/// Where a PKGBUILD's lines are plain, its `source` array and checksum
/// array each start after the first line, are closed and do not overlap,
/// its last line does not open `prepare()`, no value holds a `\n` and no
/// patch file name ends with `\r`: the PKGBUILD written holds, each on
/// consecutive lines, the `source` array listing the `.SRCINFO` sources and
/// then the patches' file names, the checksum array listing the `.SRCINFO`
/// checksums and then the patches' checksums, and, right after a
/// `prepare() {` line, one `patch` command per patch in order.
pub proof fn lemma_written_pkgbuild(
    pkgbuild: Seq<char>,
    algorithm: HashAlgorithm,
    sources: Seq<Seq<char>>,
    sums: Seq<Seq<char>>,
    patches: Seq<PatchView>,
)
    requires
        plain_lines(lines_of(pkgbuild)),
        1 <= array_span(lines_of(pkgbuild), "source"@).0 <= array_span(
            lines_of(pkgbuild),
            "source"@,
        ).1 < lines_of(pkgbuild).len(),
        1 <= array_span(lines_of(pkgbuild), sums_key(algorithm)).0 <= array_span(
            lines_of(pkgbuild),
            sums_key(algorithm),
        ).1 < lines_of(pkgbuild).len(),
        array_span(lines_of(pkgbuild), "source"@).1 < array_span(
            lines_of(pkgbuild),
            sums_key(algorithm),
        ).0 || array_span(lines_of(pkgbuild), sums_key(algorithm)).1 < array_span(
            lines_of(pkgbuild),
            "source"@,
        ).0,
        !has_prefix(lines_of(pkgbuild).last(), prepare_header()),
        forall|i: int|
            0 <= i < (sources + file_names(patches)).len() ==> !(#[trigger] (sources + file_names(
                patches,
            ))[i]).contains('\n'),
        forall|i: int|
            0 <= i < (sums + checksums(patches)).len() ==> !(#[trigger] (sums + checksums(
                patches,
            ))[i]).contains('\n'),
        forall|i: int|
            0 <= i < patches.len() && (#[trigger] patches[i]).file_name.len() > 0
                ==> patches[i].file_name.last() != '\r',
    ensures
        updated_pkgbuild(pkgbuild, algorithm, sources, sums, patches) is Some,
        ({
            let f = lines_of(updated_pkgbuild(pkgbuild, algorithm, sources, sums, patches)->0);
            &&& exists|k: int| block_at(f, k, array_lines("source"@, sources + file_names(patches)))
            &&& exists|k: int|
                block_at(f, k, array_lines(sums_key(algorithm), sums + checksums(patches)))
            &&& exists|k: int|
                1 <= k && block_at(f, k, command_lines(file_names(patches))) && has_prefix(
                    f[k - 1],
                    prepare_header(),
                )
        }),
{
    let names = file_names(patches);
    let ns = sources + names;
    let nc = sums + checksums(patches);
    let key = sums_key(algorithm);
    let a1 = array_lines("source"@, ns);
    let a2 = array_lines(key, nc);
    lemma_update_lists_arrays(pkgbuild, algorithm, sources, sums, patches);
    lemma_with_sums_lines(pkgbuild, algorithm, ns, nc);
    let t2 = replaced_array(replaced_array(pkgbuild, "source"@, ns)->0, key, nc)->0;
    let l2 = lines_of(t2);
    reveal_strlit("prepare() {");
    reveal_strlit(")");
    assert(!has_prefix(l2.last(), prepare_header())) by {
        if l2.last() == ")"@ && has_prefix(")"@, prepare_header()) {
            assert(")"@.take(prepare_header().len() as int)[0] == ')');
        }
    }
    assert forall|i: int| 0 <= i < names.len() implies !(#[trigger] names[i]).contains('\n') && (
    names[i].len() > 0 ==> names[i].last() != '\r') by {
        assert(names[i] == ns[sources.len() + i]);
        assert(names[i] == patches[i].file_name);
    }
    lemma_prepended_lines(t2, names);
    let starts = function_starts(l2);
    let at = prepare_insert_line(starts);
    let p = insert_lines(starts, names);
    lemma_commands_after_prepare(l2, names);
    let k1 = choose|k: int| block_at(l2, k, a1);
    let k2 = choose|k: int| block_at(l2, k, a2);
    lemma_sums_key_start(algorithm);
    reveal_strlit("source");
    lemma_array_lines_not_headers("source"@, ns);
    lemma_array_lines_not_headers(key, nc);
    lemma_block_beside_insert(l2, k1, a1);
    lemma_block_beside_insert(l2, k2, a2);
    lemma_block_after_insert(l2, at, p, k1, a1);
    lemma_block_after_insert(l2, at, p, k2, a2);
    let f = lines_of(updated_pkgbuild(pkgbuild, algorithm, sources, sums, patches)->0);
    assert(f == l2.take(at) + p + l2.skip(at));
}

} // verus!

verus! {

/// A line ends with `)`.
pub open spec fn closes_array(line: Seq<char>) -> bool {
    has_suffix(line, seq![')'])
}

/// `e` is where an array that starts on line `s` ends: the first line from
/// `s` on that ends with `)`, or 0 where no such line follows.
pub open spec fn span_end(lines: Seq<Seq<char>>, s: int, e: int) -> bool {
    ||| e == 0 && forall|j: int| s <= j < lines.len() ==> !closes_array(#[trigger] lines[j])
    ||| s <= e < lines.len() && closes_array(lines[e]) && forall|j: int|
        s <= j < e ==> !closes_array(#[trigger] lines[j])
}

proof fn lemma_span_end_from(lines: Seq<Seq<char>>, name: Seq<char>, n: int, start: int)
    requires
        1 <= start < n,
        forall|j: int| start <= j < n ==> !closes_array(#[trigger] lines[j]),
    ensures
        array_span_from(lines, name, n, start).0 == start,
        span_end(lines, start, array_span_from(lines, name, n, start).1),
    decreases lines.len() - n,
{
    if n < lines.len() && !closes_array(lines[n]) {
        lemma_span_end_from(lines, name, n + 1, start);
    }
}

proof fn lemma_span_start_from(lines: Seq<Seq<char>>, name: Seq<char>, n: int)
    requires
        1 <= n,
    ensures
        ({
            let (s, e) = array_span_from(lines, name, n, 0);
            ||| s == 0 && e == 0 && forall|i: int|
                n <= i < lines.len() ==> !has_prefix(#[trigger] lines[i], name)
            ||| n <= s < lines.len() && has_prefix(lines[s], name) && (forall|i: int|
                n <= i < s ==> !has_prefix(#[trigger] lines[i], name)) && span_end(lines, s, e)
        }),
    decreases lines.len() - n,
{
    if n < lines.len() {
        if has_prefix(lines[n], name) {
            if !closes_array(lines[n]) {
                lemma_span_end_from(lines, name, n + 1, n);
            }
        } else {
            lemma_span_start_from(lines, name, n + 1);
        }
    }
}

/// Where the array named `name` is found: unless line 0 is a whole
/// one-line assignment of it (then the span is `(0, 0)`), the array starts
/// on the first line after line 0 that starts with `name`, and ends on the
/// first line from there that ends with `)` (0 where none does); with no
/// such start, the span is `(0, 0)`.
pub proof fn lemma_array_span_first(lines: Seq<Seq<char>>, name: Seq<char>)
    ensures
        ({
            let (s, e) = array_span(lines, name);
            if lines.len() > 0 && has_prefix(lines[0], name) && closes_array(lines[0]) {
                s == 0 && e == 0
            } else {
                ||| s == 0 && e == 0 && forall|i: int|
                    1 <= i < lines.len() ==> !has_prefix(#[trigger] lines[i], name)
                ||| 1 <= s < lines.len() && has_prefix(lines[s], name) && (forall|i: int|
                    1 <= i < s ==> !has_prefix(#[trigger] lines[i], name)) && span_end(lines, s, e)
            }
        }),
{
    lemma_span_start_from(lines, name, 1);
}

} // verus!

verus! {

proof fn lemma_starts_without_prepare(lines: Seq<Seq<char>>, n: int, b: int)
    requires
        0 <= n <= lines.len(),
        forall|i: int| 0 <= i < n ==> !has_prefix(#[trigger] lines[i], prepare_header()),
        (b == 0 && forall|i: int| 0 <= i < n ==> !has_prefix(#[trigger] lines[i], build_header()))
            || (1 <= b <= n && has_prefix(lines[b - 1], build_header()) && forall|i: int|
            0 <= i < b - 1 ==> !has_prefix(#[trigger] lines[i], build_header())),
    ensures
        ({
            let (p, bs) = function_starts_from(lines, n, b);
            p == 0 ==> {
                &&& forall|i: int|
                    0 <= i < lines.len() ==> !has_prefix(#[trigger] lines[i], prepare_header())
                &&& (bs == 0 && forall|i: int|
                    0 <= i < lines.len() ==> !has_prefix(#[trigger] lines[i], build_header()))
                    || (1 <= bs <= lines.len() && has_prefix(lines[bs - 1], build_header())
                    && forall|i: int|
                    0 <= i < bs - 1 ==> !has_prefix(#[trigger] lines[i], build_header()))
            }
        }),
    decreases lines.len() - n,
{
    if n < lines.len() && !has_prefix(lines[n], prepare_header()) {
        if b == 0 && has_prefix(lines[n], build_header()) {
            lemma_starts_without_prepare(lines, n + 1, n + 1);
        } else {
            lemma_starts_without_prepare(lines, n + 1, b);
        }
    }
}

/// Where a PKGBUILD has no `prepare() {` line, the new `prepare()` function
/// goes right before its first `build() {` line, or at the top where it has
/// none.
pub proof fn lemma_prepare_added_before_build(pkgbuild: Seq<char>)
    ensures
        ({
            let lines = lines_of(pkgbuild);
            let starts = function_starts(lines);
            let at = prepare_insert_line(starts);
            starts.0 == 0 ==> {
                &&& forall|i: int|
                    0 <= i < lines.len() ==> !has_prefix(#[trigger] lines[i], prepare_header())
                &&& (at == 0 && forall|i: int|
                    0 <= i < lines.len() ==> !has_prefix(#[trigger] lines[i], build_header()))
                    || (0 <= at < lines.len() && has_prefix(lines[at], build_header()) && forall|
                    i: int,
                | 0 <= i < at ==> !has_prefix(#[trigger] lines[i], build_header()))
            }
        }),
{
    lemma_starts_without_prepare(lines_of(pkgbuild), 0, 0);
}

} // verus!
