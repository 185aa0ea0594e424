//! Reading `.SRCINFO` text: the package name and the checksum algorithm.
use vstd::prelude::*;

use crate::text::{
    append_chars, append_str, chars_of, has_prefix, opt_view, views, lines_of, split_lines, starts_with, string_from_chars, trim,
    trim_chars, vec_views,
};

verus! {

broadcast use vstd::string::group_string_axioms;

/// The start of the line that names the package base.
pub open spec fn pkgbase_prefix() -> Seq<char> {
    "pkgbase = "@
}

/// The value of the first line that starts with `pkgbase = `.
pub open spec fn find_pkgbase(lines: Seq<Seq<char>>) -> Option<Seq<char>>
    decreases lines.len(),
{
    if lines.len() == 0 {
        None
    } else if has_prefix(lines[0], pkgbase_prefix()) {
        Some(lines[0].skip(pkgbase_prefix().len() as int))
    } else {
        find_pkgbase(lines.drop_first())
    }
}

/// The package name of a `.SRCINFO` text: what follows `pkgbase = ` on the
/// first line that starts with it.
pub fn package_name(srcinfo: &String) -> (r: Result<String, String>)
    ensures
        match r {
            Ok(name) => find_pkgbase(lines_of(srcinfo@)) == Some(name@),
            Err(e) => find_pkgbase(lines_of(srcinfo@)) is None && e@ == "No package name found"@,
        },
{
    let text = chars_of(srcinfo.as_str());
    let lines = split_lines(text.as_slice());
    let ghost all = vec_views(lines@);
    let prefix = chars_of("pkgbase = ");
    proof {
        reveal_strlit("pkgbase = ");
    }
    let mut i: usize = 0;
    assert(all.skip(0) =~= all);
    while i < lines.len()
        invariant
            i <= lines@.len(),
            all == vec_views(lines@),
            all == lines_of(srcinfo@),
            prefix@ == pkgbase_prefix(),
            prefix@.len() == 10,
            find_pkgbase(all) == find_pkgbase(all.skip(i as int)),
        decreases lines.len() - i,
    {
        let line = &lines[i];
        assert(all[i as int] == line@);
        if starts_with(line.as_slice(), prefix.as_slice()) {
            let mut rest: Vec<char> = Vec::new();
            let mut j: usize = 10;
            while j < line.len()
                invariant
                    10 <= j <= line@.len(),
                    rest@ == line@.subrange(10, j as int),
                decreases line.len() - j,
            {
                rest.push(line[j]);
                assert(line@.subrange(10, j + 1) =~= line@.subrange(10, j as int).push(line@[j as int]));
                j += 1;
            }
            assert(rest@ =~= line@.skip(10));
            return Ok(string_from_chars(rest.as_slice()));
        }
        assert(all.skip(i as int).drop_first() =~= all.skip(i + 1));
        i += 1;
    }
    assert(all.skip(i as int).len() == 0);
    Err(String::from_str("No package name found"))
}

/// The checksum algorithms that `makepkg` knows, in the order in which a
/// `.SRCINFO` line is tried against them.
#[derive(Clone, Copy, Debug, PartialEq, Eq, Structural)]
pub enum HashAlgorithm {
    Md5,
    Sha1,
    Sha224,
    Sha256,
    Sha384,
    Sha512,
}

/// The name of an algorithm as `makepkg` writes it.
pub open spec fn alg_name(a: HashAlgorithm) -> Seq<char> {
    match a {
        HashAlgorithm::Md5 => "md5"@,
        HashAlgorithm::Sha1 => "sha1"@,
        HashAlgorithm::Sha224 => "sha224"@,
        HashAlgorithm::Sha256 => "sha256"@,
        HashAlgorithm::Sha384 => "sha384"@,
        HashAlgorithm::Sha512 => "sha512"@,
    }
}

/// The array that holds an algorithm's checksums, such as `sha256sums`.
pub open spec fn sums_key(a: HashAlgorithm) -> Seq<char> {
    alg_name(a) + "sums"@
}

/// The start of a `.SRCINFO` line that assigns a key, such as `source = `.
pub open spec fn assign_prefix(key: Seq<char>) -> Seq<char> {
    key + " = "@
}

/// The algorithms in the order in which they are tried.
pub open spec fn algorithm_order() -> Seq<HashAlgorithm> {
    seq![
        HashAlgorithm::Md5,
        HashAlgorithm::Sha1,
        HashAlgorithm::Sha224,
        HashAlgorithm::Sha256,
        HashAlgorithm::Sha384,
        HashAlgorithm::Sha512,
    ]
}

/// The first algorithm of `algs` whose checksum line `line` is.
pub open spec fn first_matching(algs: Seq<HashAlgorithm>, line: Seq<char>) -> Option<HashAlgorithm>
    decreases algs.len(),
{
    if algs.len() == 0 {
        None
    } else if has_prefix(line, assign_prefix(sums_key(algs[0]))) {
        Some(algs[0])
    } else {
        first_matching(algs.drop_first(), line)
    }
}

/// The algorithm of the first line that, trimmed, starts with
/// `<name>sums = `; on each line the algorithms are tried in order.
pub open spec fn find_algorithm_in(lines: Seq<Seq<char>>) -> Option<HashAlgorithm>
    decreases lines.len(),
{
    if lines.len() == 0 {
        None
    } else {
        match first_matching(algorithm_order(), trim(lines[0])) {
            Some(a) => Some(a),
            None => find_algorithm_in(lines.drop_first()),
        }
    }
}

impl HashAlgorithm {
    /// The algorithm's name, such as `sha256`.
    pub fn name(&self) -> (s: String)
        ensures
            s@ == alg_name(*self),
    {
        match self {
            HashAlgorithm::Md5 => String::from_str("md5"),
            HashAlgorithm::Sha1 => String::from_str("sha1"),
            HashAlgorithm::Sha224 => String::from_str("sha224"),
            HashAlgorithm::Sha256 => String::from_str("sha256"),
            HashAlgorithm::Sha384 => String::from_str("sha384"),
            HashAlgorithm::Sha512 => String::from_str("sha512"),
        }
    }

    /// The name of the array that holds this algorithm's checksums.
    pub fn sums_key(&self) -> (s: Vec<char>)
        ensures
            s@ == sums_key(*self),
    {
        let mut s = chars_of(self.name().as_str());
        let suffix = chars_of("sums");
        for i in 0..suffix.len()
            invariant
                s@ == alg_name(*self) + suffix@.take(i as int),
        {
            s.push(suffix[i]);
            assert(suffix@.take(i + 1) =~= suffix@.take(i as int).push(suffix@[i as int]));
        }
        assert(suffix@.take(suffix@.len() as int) =~= suffix@);
        s
    }
}

/// `key` followed by ` = `.
pub fn assign_prefix_of(key: &[char]) -> (p: Vec<char>)
    ensures
        p@ == assign_prefix(key@),
{
    let mut p: Vec<char> = Vec::new();
    for i in 0..key.len()
        invariant
            p@ == key@.take(i as int),
    {
        p.push(key[i]);
        assert(key@.take(i + 1) =~= key@.take(i as int).push(key@[i as int]));
    }
    let eq = chars_of(" = ");
    for i in 0..eq.len()
        invariant
            p@ == key@ + eq@.take(i as int),
    {
        p.push(eq[i]);
        assert(eq@.take(i + 1) =~= eq@.take(i as int).push(eq@[i as int]));
    }
    assert(key@.take(key@.len() as int) =~= key@);
    assert(eq@.take(eq@.len() as int) =~= eq@);
    p
}

fn algorithm_at(i: usize) -> (a: HashAlgorithm)
    requires
        i < 6,
    ensures
        a == algorithm_order()[i as int],
{
    match i {
        0 => HashAlgorithm::Md5,
        1 => HashAlgorithm::Sha1,
        2 => HashAlgorithm::Sha224,
        3 => HashAlgorithm::Sha256,
        4 => HashAlgorithm::Sha384,
        _ => HashAlgorithm::Sha512,
    }
}

/// The first algorithm in order whose checksum line `line` is.
fn line_algorithm(line: &[char]) -> (r: Option<HashAlgorithm>)
    ensures
        r == first_matching(algorithm_order(), line@),
{
    let ghost order = algorithm_order();
    assert(order.skip(0) =~= order);
    let mut i: usize = 0;
    while i < 6
        invariant
            i <= 6,
            order == algorithm_order(),
            first_matching(order, line@) == first_matching(order.skip(i as int), line@),
        decreases 6 - i,
    {
        let a = algorithm_at(i);
        let prefix = assign_prefix_of(a.sums_key().as_slice());
        if starts_with(line, prefix.as_slice()) {
            return Some(a);
        }
        assert(order.skip(i as int).drop_first() =~= order.skip(i + 1));
        i += 1;
    }
    assert(order.skip(6).len() == 0);
    None
}

/// The checksum algorithm that a `.SRCINFO` text uses: that of the first
/// line that, trimmed, starts with `<name>sums = `.
pub fn find_algorithm(srcinfo: &String) -> (r: Result<HashAlgorithm, String>)
    ensures
        match r {
            Ok(a) => find_algorithm_in(lines_of(srcinfo@)) == Some(a),
            Err(e) => find_algorithm_in(lines_of(srcinfo@)) is None && e@ == "No algorithm found"@,
        },
{
    let text = chars_of(srcinfo.as_str());
    let lines = split_lines(text.as_slice());
    let ghost all = vec_views(lines@);
    let mut i: usize = 0;
    assert(all.skip(0) =~= all);
    while i < lines.len()
        invariant
            i <= lines@.len(),
            all == vec_views(lines@),
            all == lines_of(srcinfo@),
            find_algorithm_in(all) == find_algorithm_in(all.skip(i as int)),
        decreases lines.len() - i,
    {
        assert(all[i as int] == lines@[i as int]@);
        let line = trim_chars(lines[i].as_slice());
        assert(all.skip(i as int).drop_first() =~= all.skip(i + 1));
        if let Some(a) = line_algorithm(line.as_slice()) {
            return Ok(a);
        }
        i += 1;
    }
    assert(all.skip(i as int).len() == 0);
    Err(String::from_str("No algorithm found"))
}

// ---------------------------------------------------------------------------
// Values of a key
// ---------------------------------------------------------------------------

/// What a regular expression captures in its group 1 at each of its
/// matches in `text`, in order (`None` for a match in which the group took
/// no part); `None` where `pattern` does not compile.
pub uninterp spec fn regex_group_one(pattern: Seq<char>, text: Seq<char>) -> Option<
    Seq<Option<Seq<char>>>,
>;

/// The views of optional strings.
pub open spec fn group_views(v: Seq<Option<String>>) -> Seq<Option<Seq<char>>> {
    v.map_values(|o: Option<String>| opt_view(o))
}

/// Compiles `pattern` with `regex::Regex::new` and collects group 1 of each
/// match of `regex::Regex::captures_iter` on `text`. Claimed: the result is
/// `regex_group_one` of the pattern and the text; it is `None` exactly where
/// `Regex::new` returns an error.
#[verifier::external_body]
fn regex_captures(pattern: &str, text: &str) -> (r: Option<Vec<Option<String>>>)
    ensures
        match r {
            Some(v) => regex_group_one(pattern@, text@) == Some(group_views(v@)),
            None => regex_group_one(pattern@, text@) is None,
        },
{
    match regex::Regex::new(pattern) {
        Ok(re) => Some(
            re.captures_iter(text).map(|c| c.get(1).map(|m| m.as_str().to_string())).collect(),
        ),
        Err(_) => None,
    }
}

/// The multi-line, case-insensitive pattern whose group 1 captures the
/// rest of each line that assigns `key`.
pub open spec fn value_pattern(key: Seq<char>) -> Seq<char> {
    "(?mi)(?:^\\s*"@ + key + " = )(.*)+"@
}

/// Every group took part in its match.
pub open spec fn all_present(groups: Seq<Option<Seq<char>>>) -> bool {
    forall|i: int| 0 <= i < groups.len() ==> #[trigger] groups[i] is Some
}

/// The captured texts, where all are present.
pub open spec fn present_texts(groups: Seq<Option<Seq<char>>>) -> Option<Seq<Seq<char>>> {
    if all_present(groups) {
        Some(groups.map_values(|o: Option<Seq<char>>| o->0))
    } else {
        None
    }
}

/// The values that a `.SRCINFO` text assigns to `key`, in order; `None`
/// where the pattern does not compile or a match leaves group 1 out.
pub open spec fn srcinfo_values_of(srcinfo: Seq<char>, key: Seq<char>) -> Option<Seq<Seq<char>>> {
    match regex_group_one(value_pattern(key), srcinfo) {
        Some(groups) => present_texts(groups),
        None => None,
    }
}

/// The captured texts, where every group took part in its match.
pub fn present_values(groups: Vec<Option<String>>) -> (r: Option<Vec<String>>)
    ensures
        match r {
            Some(v) => present_texts(group_views(groups@)) == Some(views(v@)),
            None => present_texts(group_views(groups@)) is None,
        },
{
    let ghost g = group_views(groups@);
    let mut out: Vec<String> = Vec::new();
    for i in 0..groups.len()
        invariant
            g == group_views(groups@),
            out@.len() == i,
            forall|j: int| 0 <= j < i ==> #[trigger] g[j] == Some(out@[j]@),
    {
        assert(g[i as int] == opt_view(groups@[i as int]));
        match &groups[i] {
            Some(s) => {
                out.push(s.clone());
            },
            None => {
                assert(g[i as int] is None);
                assert(!all_present(g));
                return None;
            },
        }
    }
    assert(all_present(g));
    assert(views(out@) =~= g.map_values(|o: Option<Seq<char>>| o->0));
    Some(out)
}

/// The values that a `.SRCINFO` text assigns to `key`, found with the
/// pattern `(?mi)(?:^\s*<key> = )(.*)+`.
pub fn srcinfo_values(srcinfo: &String, key: &[char]) -> (r: Option<Vec<String>>)
    ensures
        match r {
            Some(v) => srcinfo_values_of(srcinfo@, key@) == Some(views(v@)),
            None => srcinfo_values_of(srcinfo@, key@) is None,
        },
{
    let mut p: Vec<char> = Vec::new();
    append_str(&mut p, "(?mi)(?:^\\s*");
    append_chars(&mut p, key);
    append_str(&mut p, " = )(.*)+");
    assert(p@ =~= value_pattern(key@));
    let pattern = string_from_chars(p.as_slice());
    match regex_captures(pattern.as_str(), srcinfo.as_str()) {
        None => None,
        Some(groups) => present_values(groups),
    }
}

} // verus!

verus! {

/// The algorithm found in a `.SRCINFO` is that of one of its lines: the
/// line, trimmed, starts with `<name>sums = `.
pub proof fn lemma_found_algorithm_has_line(lines: Seq<Seq<char>>)
    ensures
        find_algorithm_in(lines) matches Some(a) ==> exists|k: int|
            0 <= k < lines.len() && has_prefix(
                trim(#[trigger] lines[k]),
                assign_prefix(sums_key(a)),
            ),
    decreases lines.len(),
{
    if lines.len() > 0 {
        lemma_first_matching_matches(algorithm_order(), trim(lines[0]));
        match first_matching(algorithm_order(), trim(lines[0])) {
            Some(a) => {
                assert(has_prefix(trim(lines[0]), assign_prefix(sums_key(a))));
            },
            None => {
                lemma_found_algorithm_has_line(lines.drop_first());
                if let Some(a) = find_algorithm_in(lines) {
                    let k = choose|k: int|
                        0 <= k < lines.drop_first().len() && has_prefix(
                            trim(#[trigger] lines.drop_first()[k]),
                            assign_prefix(sums_key(a)),
                        );
                    assert(lines.drop_first()[k] == lines[k + 1]);
                }
            },
        }
    }
}

/// The algorithm that a line is matched to is one whose prefix it has.
proof fn lemma_first_matching_matches(algs: Seq<HashAlgorithm>, line: Seq<char>)
    ensures
        first_matching(algs, line) matches Some(a) ==> has_prefix(line, assign_prefix(sums_key(a))),
    decreases algs.len(),
{
    if algs.len() > 0 {
        lemma_first_matching_matches(algs.drop_first(), line);
    }
}

} // verus!

verus! {

/// The line, trimmed, starts with `<name>sums = ` for algorithm `a`.
pub open spec fn sums_line(line: Seq<char>, a: HashAlgorithm) -> bool {
    has_prefix(trim(line), assign_prefix(sums_key(a)))
}

/// A line that no algorithm's checksum prefix starts is passed over.
proof fn lemma_no_match_no_prefix(line: Seq<char>)
    requires
        first_matching(algorithm_order(), line) is None,
    ensures
        forall|b: HashAlgorithm| !has_prefix(line, #[trigger] assign_prefix(sums_key(b))),
{
    reveal_with_fuel(first_matching, 7);
    let order = algorithm_order();
    assert(order.drop_first() =~= seq![
        HashAlgorithm::Sha1,
        HashAlgorithm::Sha224,
        HashAlgorithm::Sha256,
        HashAlgorithm::Sha384,
        HashAlgorithm::Sha512,
    ]);
    assert(order.drop_first().drop_first() =~= seq![
        HashAlgorithm::Sha224,
        HashAlgorithm::Sha256,
        HashAlgorithm::Sha384,
        HashAlgorithm::Sha512,
    ]);
    assert(order.drop_first().drop_first().drop_first() =~= seq![
        HashAlgorithm::Sha256,
        HashAlgorithm::Sha384,
        HashAlgorithm::Sha512,
    ]);
    assert(order.drop_first().drop_first().drop_first().drop_first() =~= seq![
        HashAlgorithm::Sha384,
        HashAlgorithm::Sha512,
    ]);
    assert(order.drop_first().drop_first().drop_first().drop_first().drop_first() =~= seq![
        HashAlgorithm::Sha512,
    ]);
    assert(order.drop_first().drop_first().drop_first().drop_first().drop_first().drop_first()
        =~= Seq::<HashAlgorithm>::empty());
}

/// The algorithm found is that of the first line that, trimmed, starts with
/// `<name>sums = ` for some algorithm, whatever value follows on that line
/// (`SKIP` too): no line before it starts so; where nothing is found, no
/// line starts so.
pub proof fn lemma_algorithm_of_first_sums_line(lines: Seq<Seq<char>>)
    ensures
        match find_algorithm_in(lines) {
            Some(a) => exists|k: int|
                0 <= k < lines.len() && sums_line(#[trigger] lines[k], a) && forall|
                    j: int,
                    b: HashAlgorithm,
                | 0 <= j < k ==> !(#[trigger] sums_line(lines[j], b)),
            None => forall|k: int, b: HashAlgorithm|
                0 <= k < lines.len() ==> !(#[trigger] sums_line(lines[k], b)),
        },
    decreases lines.len(),
{
    if lines.len() > 0 {
        let line = trim(lines[0]);
        lemma_first_matching_matches(algorithm_order(), line);
        match first_matching(algorithm_order(), line) {
            Some(a) => {
                assert(sums_line(lines[0], a));
            },
            None => {
                lemma_no_match_no_prefix(line);
                let rest = lines.drop_first();
                lemma_algorithm_of_first_sums_line(rest);
                assert forall|b: HashAlgorithm| !sums_line(lines[0], b) by {
                    assert(!has_prefix(line, assign_prefix(sums_key(b))));
                }
                match find_algorithm_in(lines) {
                    Some(a) => {
                        let k = choose|k: int|
                            0 <= k < rest.len() && sums_line(#[trigger] rest[k], a) && forall|
                                j: int,
                                b: HashAlgorithm,
                            | 0 <= j < k ==> !(#[trigger] sums_line(rest[j], b));
                        assert(rest[k] == lines[k + 1]);
                        assert forall|j: int, b: HashAlgorithm| 0 <= j < k + 1 implies !(#[trigger] sums_line(lines[j], b)) by {
                            if j > 0 {
                                assert(lines[j] == rest[j - 1]);
                            }
                        }
                    },
                    None => {
                        assert forall|k: int, b: HashAlgorithm| 0 <= k < lines.len() implies !(#[trigger] sums_line(lines[k], b)) by {
                            if k > 0 {
                                assert(lines[k] == rest[k - 1]);
                            }
                        }
                    },
                }
            },
        }
    }
}

/// No line is the checksum line of two algorithms: the prefixes
/// `<name>sums = ` exclude one another.
pub proof fn lemma_sums_line_unique(line: Seq<char>, a: HashAlgorithm, b: HashAlgorithm)
    requires
        sums_line(line, a),
        sums_line(line, b),
    ensures
        a == b,
{
    reveal_strlit("md5");
    reveal_strlit("sha1");
    reveal_strlit("sha224");
    reveal_strlit("sha256");
    reveal_strlit("sha384");
    reveal_strlit("sha512");
    reveal_strlit("sums");
    reveal_strlit(" = ");
    let t = trim(line);
    let pa = assign_prefix(sums_key(a));
    let pb = assign_prefix(sums_key(b));
    assert(t.take(pa.len() as int) == pa);
    assert(t.take(pb.len() as int) == pb);
    assert(pa.len() >= 10 && pb.len() >= 10);
    assert(pa[0] == t[0] && pa[3] == t[3] && pa[4] == t[4]) by {
        assert(t.take(pa.len() as int)[0] == t[0]);
        assert(t.take(pa.len() as int)[3] == t[3]);
        assert(t.take(pa.len() as int)[4] == t[4]);
    }
    assert(pb[0] == t[0] && pb[3] == t[3] && pb[4] == t[4]) by {
        assert(t.take(pb.len() as int)[0] == t[0]);
        assert(t.take(pb.len() as int)[3] == t[3]);
        assert(t.take(pb.len() as int)[4] == t[4]);
    }
}

} // verus!

verus! {

/// The values of a key are group 1 of the matches of exactly the pattern
/// `(?mi)(?:^\s*<key> = )(.*)+`, character for character: at the start of
/// a line (multi-line, case-insensitive), optional whitespace, the key
/// itself with nothing between it and ` = `, then the rest of the line.
pub proof fn lemma_values_pattern(srcinfo: Seq<char>, key: Seq<char>)
    ensures
        value_pattern(key) == seq!['(', '?', 'm', 'i', ')', '(', '?', ':', '^', '\\', 's', '*']
            + key + seq![' ', '=', ' ', ')', '(', '.', '*', ')', '+'],
        srcinfo_values_of(srcinfo, key) == match regex_group_one(
            seq!['(', '?', 'm', 'i', ')', '(', '?', ':', '^', '\\', 's', '*'] + key + seq![
                ' ',
                '=',
                ' ',
                ')',
                '(',
                '.',
                '*',
                ')',
                '+',
            ],
            srcinfo,
        ) {
            Some(groups) => present_texts(groups),
            None => None,
        },
{
    reveal_strlit("(?mi)(?:^\\s*");
    reveal_strlit(" = )(.*)+");
    assert("(?mi)(?:^\\s*"@ =~= seq!['(', '?', 'm', 'i', ')', '(', '?', ':', '^', '\\', 's', '*']);
    assert(" = )(.*)+"@ =~= seq![' ', '=', ' ', ')', '(', '.', '*', ')', '+']);
}

} // verus!

verus! {

/// The package name is the rest of the first line that starts with
/// `pkgbase = `, after those ten characters; no line before it starts so,
/// and where no name is found, no line starts so.
pub proof fn lemma_pkgbase_of_first_line(lines: Seq<Seq<char>>)
    ensures
        match find_pkgbase(lines) {
            Some(name) => exists|k: int|
                0 <= k < lines.len() && has_prefix(#[trigger] lines[k], "pkgbase = "@) && name
                    == lines[k].skip(10) && forall|j: int|
                    0 <= j < k ==> !has_prefix(#[trigger] lines[j], "pkgbase = "@),
            None => forall|k: int| 0 <= k < lines.len() ==> !has_prefix(#[trigger] lines[k], "pkgbase = "@),
        },
    decreases lines.len(),
{
    reveal_strlit("pkgbase = ");
    if lines.len() > 0 && !has_prefix(lines[0], pkgbase_prefix()) {
        let rest = lines.drop_first();
        lemma_pkgbase_of_first_line(rest);
        match find_pkgbase(lines) {
            Some(name) => {
                let k = choose|k: int|
                    0 <= k < rest.len() && has_prefix(#[trigger] rest[k], "pkgbase = "@) && name
                        == rest[k].skip(10) && forall|j: int|
                        0 <= j < k ==> !has_prefix(#[trigger] rest[j], "pkgbase = "@);
                assert(rest[k] == lines[k + 1]);
                assert forall|j: int| 0 <= j < k + 1 implies !has_prefix(
                    #[trigger] lines[j],
                    "pkgbase = "@,
                ) by {
                    if j > 0 {
                        assert(lines[j] == rest[j - 1]);
                    }
                }
            },
            None => {
                assert forall|k: int| 0 <= k < lines.len() implies !has_prefix(
                    #[trigger] lines[k],
                    "pkgbase = "@,
                ) by {
                    if k > 0 {
                        assert(lines[k] == rest[k - 1]);
                    }
                }
            },
        }
    }
}

} // verus!
