//! The command line: which `makepkg` runs are wrapped, and where the patch
//! directory and the PKGBUILD are.
use vstd::prelude::*;

use crate::text::{
    chars_eq, chars_of, lemma_views_push, strip_dashes, strip_leading_dashes, views,
};

verus! {

broadcast use vstd::string::group_string_axioms;

/// `makepkg` operations that build nothing, after their leading dashes; any
/// of them on the command line makes the run a plain `makepkg` run.
pub open spec fn blacklist() -> Seq<Seq<char>> {
    seq![
        "noextract"@,
        "verifysource"@,
        "geninteg"@,
        "repackage"@,
        "source"@,
        "version"@,
        "allsource"@,
        "packagelist"@,
        "printsrcinfo"@,
    ]
}

/// An argument names an operation of the blacklist.
pub open spec fn blacklisted(arg: Seq<char>) -> bool {
    blacklist().contains(strip_dashes(arg))
}

/// How reading the command line ends.
pub enum ArgScan {
    /// Run `makepkg` with these arguments and nothing else.
    Bypass(Seq<Seq<char>>),
    /// Patch, then run `makepkg` with these arguments; the patch directory
    /// and the PKGBUILD path.
    Wrap(Seq<Seq<char>>, Seq<char>, Seq<char>),
    /// `-l` is the last argument.
    MissingLocation,
    /// Removing a `-l` and its value reaches past the end of the arguments
    /// left (which happens on a second `-l`, whose index is that of the
    /// original arguments).
    OutOfRange,
}

/// Reads the arguments `args` from index `i`, with `options` the arguments
/// still passed on, `location` the patch directory and `pkgbuild` the
/// PKGBUILD path so far.
pub open spec fn scan_args(
    args: Seq<Seq<char>>,
    i: int,
    options: Seq<Seq<char>>,
    location: Seq<char>,
    pkgbuild: Seq<char>,
) -> ArgScan
    decreases args.len() - i,
{
    if i < 0 || i >= args.len() {
        ArgScan::Wrap(options, location, pkgbuild)
    } else if blacklisted(args[i]) {
        ArgScan::Bypass(options)
    } else if args[i] == "-l"@ {
        if i + 1 >= args.len() {
            ArgScan::MissingLocation
        } else if i + 1 >= options.len() {
            ArgScan::OutOfRange
        } else {
            scan_args(args, i + 1, options.remove(i + 1).remove(i), args[i + 1], pkgbuild)
        }
    } else if args[i] == "-p"@ && i + 1 < args.len() {
        scan_args(args, i + 1, options, location, args[i + 1])
    } else {
        scan_args(args, i + 1, options, location, pkgbuild)
    }
}

/// How the command line `args` (without the program name) is read, with
/// `default_location` the patch directory where no `-l` gives one: a
/// blacklisted operation bypasses patching; `-l <dir>` sets the patch
/// directory and is not passed on; `-p <file>` sets the PKGBUILD (default
/// `PKGBUILD`) and is passed on.
pub open spec fn arg_scan(args: Seq<Seq<char>>, default_location: Seq<char>) -> ArgScan {
    scan_args(args, 0, args, default_location, "PKGBUILD"@)
}

/// The command line ends in `-l`, which needs a directory after it.
#[derive(Debug, PartialEq, Eq, Structural)]
pub enum ArgError {
    MissingLocation,
}

/// Arguments to pass on, and the patch directory and PKGBUILD path where
/// the run is patched.
pub type ParsedArgs = (Vec<String>, Option<(String, String)>);

/// `r` is what `arg_scan` gives for `args`.
pub open spec fn parsed_as(r: Result<ParsedArgs, ArgError>, s: ArgScan) -> bool {
    match r {
        Ok((options, None)) => s == ArgScan::Bypass(views(options@)),
        Ok((options, Some((location, pkgbuild)))) => s == ArgScan::Wrap(
            views(options@),
            location@,
            pkgbuild@,
        ),
        Err(ArgError::MissingLocation) => s == ArgScan::MissingLocation,
    }
}

fn word_in_blacklist(w: &[char]) -> (b: bool)
    ensures
        b == blacklist().contains(w@),
{
    let ghost bl = blacklist();
    let words = [
        "noextract",
        "verifysource",
        "geninteg",
        "repackage",
        "source",
        "version",
        "allsource",
        "packagelist",
        "printsrcinfo",
    ];
    assert(forall|k: int| 0 <= k < 9 ==> #[trigger] words@[k]@ == bl[k]);
    for k in 0..9
        invariant
            bl == blacklist(),
            forall|k: int| 0 <= k < 9 ==> #[trigger] words@[k]@ == bl[k],
            forall|j: int| 0 <= j < k ==> bl[j] != w@,
    {
        let c = chars_of(words[k]);
        if chars_eq(w, c.as_slice()) {
            assert(bl[k as int] == w@);
            return true;
        }
    }
    assert(!bl.contains(w@)) by {
        if bl.contains(w@) {
            let j = choose|j: int| 0 <= j < bl.len() && bl[j] == w@;
            assert(bl[j] != w@);
        }
    }
    false
}

fn copy_strings(v: &Vec<String>) -> (r: Vec<String>)
    ensures
        views(r@) == views(v@),
{
    let mut r: Vec<String> = Vec::new();
    for i in 0..v.len()
        invariant
            views(r@) == views(v@).take(i as int),
    {
        let ghost prev = r@;
        r.push(v[i].clone());
        proof {
            lemma_views_push(prev, r@.last());
        }
        assert(views(r@) =~= views(v@).take(i + 1));
    }
    assert(views(v@).take(v.len() as int) =~= views(v@));
    r
}

/// Reads the command line as `arg_scan` does; `None` where removing a `-l`
/// and its value reaches past the end (`ArgScan::OutOfRange`).
pub fn try_arg_parse(args: Vec<String>, default_location: String) -> (r: Option<
    Result<ParsedArgs, ArgError>,
>)
    ensures
        match r {
            Some(p) => parsed_as(p, arg_scan(views(args@), default_location@)),
            None => arg_scan(views(args@), default_location@) == ArgScan::OutOfRange,
        },
{
    let ghost orig = views(args@);
    let mut options = copy_strings(&args);
    let mut location = default_location;
    let mut pkgbuild = String::from_str("PKGBUILD");
    let minus_l = chars_of("-l");
    let minus_p = chars_of("-p");
    let mut i: usize = 0;
    while i < args.len()
        invariant
            i <= args@.len(),
            orig == views(args@),
            minus_l@ == "-l"@,
            minus_p@ == "-p"@,
            arg_scan(orig, default_location@) == scan_args(
                orig,
                i as int,
                views(options@),
                location@,
                pkgbuild@,
            ),
        decreases args.len() - i,
    {
        let value = chars_of(args[i].as_str());
        assert(orig[i as int] == value@);
        let stripped = strip_leading_dashes(value.as_slice());
        if word_in_blacklist(stripped.as_slice()) {
            return Some(Ok((options, None)));
        }
        if chars_eq(value.as_slice(), minus_l.as_slice()) {
            if i + 1 < args.len() {
                if i + 1 >= options.len() {
                    return None;
                }
                location = args[i + 1].clone();
                let ghost before = options@;
                options.remove(i + 1);
                options.remove(i);
                assert(views(options@) =~= views(before).remove(i + 1).remove(i as int));
            } else {
                return Some(Err(ArgError::MissingLocation));
            }
        } else if chars_eq(value.as_slice(), minus_p.as_slice()) {
            if i + 1 < args.len() {
                pkgbuild = args[i + 1].clone();
            }
        }
        i += 1;
    }
    Some(Ok((options, Some((location, pkgbuild)))))
}

/// Reads the command line (without the program name): a blacklisted
/// operation bypasses patching; `-l <dir>` sets the patch directory (default
/// `default_location`) and is not passed on; `-p <file>` sets the PKGBUILD
/// path (default `PKGBUILD`) and is passed on; `-l` with nothing after it is
/// an error.
pub fn arg_parse(args: Vec<String>, default_location: String) -> (r: Result<ParsedArgs, ArgError>)
    requires
        arg_scan(views(args@), default_location@) != ArgScan::OutOfRange,
    ensures
        parsed_as(r, arg_scan(views(args@), default_location@)),
{
    match try_arg_parse(args, default_location) {
        Some(r) => r,
        None => {
            assert(false);
            Err(ArgError::MissingLocation)
        },
    }
}

} // verus!

verus! {

/// From index `i` on, no argument is `-l` or blacklisted.
pub open spec fn plain_from(args: Seq<Seq<char>>, i: int) -> bool {
    forall|j: int| i <= j < args.len() ==> #[trigger] args[j] != "-l"@ && !blacklisted(args[j])
}

proof fn lemma_scan_plain(
    args: Seq<Seq<char>>,
    i: int,
    options: Seq<Seq<char>>,
    location: Seq<char>,
    pkgbuild: Seq<char>,
)
    requires
        0 <= i,
        plain_from(args, i),
    ensures
        scan_args(args, i, options, location, pkgbuild) matches ArgScan::Wrap(o, l, _) && o
            == options && l == location,
    decreases args.len() - i,
{
    if i < args.len() {
        assert(args[i] != "-l"@ && !blacklisted(args[i]));
        if args[i] == "-p"@ && i + 1 < args.len() {
            lemma_scan_plain(args, i + 1, options, location, args[i + 1]);
        } else {
            lemma_scan_plain(args, i + 1, options, location, pkgbuild);
        }
    }
}

/// A blacklisted operation first bypasses patching and passes every
/// argument on.
pub proof fn lemma_blacklisted_first_bypasses(args: Seq<Seq<char>>, default_location: Seq<char>)
    requires
        args.len() > 0,
        blacklisted(args[0]),
    ensures
        arg_scan(args, default_location) == ArgScan::Bypass(args),
{
}

/// `-l` is no blacklisted operation.
proof fn lemma_minus_l_not_blacklisted()
    ensures
        !blacklisted("-l"@),
{
    reveal_strlit("-l");
    reveal_strlit("noextract");
    reveal_strlit("verifysource");
    reveal_strlit("geninteg");
    reveal_strlit("repackage");
    reveal_strlit("source");
    reveal_strlit("version");
    reveal_strlit("allsource");
    reveal_strlit("packagelist");
    reveal_strlit("printsrcinfo");
    let l = "-l"@;
    assert(l.drop_first() =~= seq!['l']);
    assert(strip_dashes(seq!['l']) == seq!['l']);
    assert(strip_dashes(l) == seq!['l']);
    let bl = blacklist();
    assert forall|k: int| 0 <= k < bl.len() implies bl[k] != seq!['l'] by {
        assert(bl[k].len() != 1);
    }
}

/// `-l <dir>` in front of arguments without `-l` or a blacklisted
/// operation: the patch directory is `dir`, and the other arguments are
/// passed on.
pub proof fn lemma_location_taken_out(
    dir: Seq<char>,
    rest: Seq<Seq<char>>,
    default_location: Seq<char>,
)
    requires
        dir != "-l"@,
        !blacklisted(dir),
        plain_from(rest, 0),
    ensures
        arg_scan(seq!["-l"@, dir] + rest, default_location) matches ArgScan::Wrap(o, l, _) && o
            == rest && l == dir,
{
    let args = seq!["-l"@, dir] + rest;
    lemma_minus_l_not_blacklisted();
    assert(args[0] == "-l"@);
    assert(args[1] == dir);
    assert(args.remove(1).remove(0) =~= rest);
    assert(plain_from(args, 1)) by {
        assert forall|j: int| 1 <= j < args.len() implies #[trigger] args[j] != "-l"@
            && !blacklisted(args[j]) by {
            if j >= 2 {
                assert(args[j] == rest[j - 2]);
            }
        }
    }
    lemma_scan_plain(args, 1, rest, dir, "PKGBUILD"@);
}

/// The reading ends with a result for the program: bypass or wrap.
pub open spec fn settled(r: ArgScan) -> bool {
    r is Bypass || r is Wrap
}

proof fn lemma_scan_without_l(
    args: Seq<Seq<char>>,
    i: int,
    options: Seq<Seq<char>>,
    location: Seq<char>,
    pkgbuild: Seq<char>,
)
    requires
        0 <= i,
        forall|j: int| i <= j < args.len() ==> #[trigger] args[j] != "-l"@,
    ensures
        settled(scan_args(args, i, options, location, pkgbuild)),
    decreases args.len() - i,
{
    if i < args.len() && !blacklisted(args[i]) {
        assert(args[i] != "-l"@);
        if args[i] == "-p"@ && i + 1 < args.len() {
            lemma_scan_without_l(args, i + 1, options, location, args[i + 1]);
        } else {
            lemma_scan_without_l(args, i + 1, options, location, pkgbuild);
        }
    }
}

/// At most one `-l` from index `i` on, and never last.
pub open spec fn single_location_from(args: Seq<Seq<char>>, i: int) -> bool {
    &&& forall|j: int, k: int|
        i <= j < args.len() && i <= k < args.len() && #[trigger] args[j] == "-l"@
            && #[trigger] args[k] == "-l"@ ==> j == k
    &&& forall|j: int| i <= j < args.len() && #[trigger] args[j] == "-l"@ ==> j + 1 < args.len()
}

proof fn lemma_scan_single_location(
    args: Seq<Seq<char>>,
    i: int,
    location: Seq<char>,
    pkgbuild: Seq<char>,
)
    requires
        0 <= i,
        single_location_from(args, i),
    ensures
        settled(scan_args(args, i, args, location, pkgbuild)),
    decreases args.len() - i,
{
    if i < args.len() && !blacklisted(args[i]) {
        if args[i] == "-l"@ {
            assert(i + 1 < args.len());
            assert forall|j: int| i + 1 <= j < args.len() implies #[trigger] args[j] != "-l"@ by {
                if args[j] == "-l"@ {
                    assert(j == i);
                }
            }
            lemma_scan_without_l(args, i + 1, args.remove(i + 1).remove(i), args[i + 1], pkgbuild);
        } else if args[i] == "-p"@ && i + 1 < args.len() {
            lemma_scan_single_location(args, i + 1, location, args[i + 1]);
        } else {
            lemma_scan_single_location(args, i + 1, location, pkgbuild);
        }
    }
}

/// A command line with at most one `-l`, which is not the last argument,
/// is read without error and without reaching past its end.
pub proof fn lemma_single_location_settles(args: Seq<Seq<char>>, default_location: Seq<char>)
    requires
        single_location_from(args, 0),
    ensures
        settled(arg_scan(args, default_location)),
{
    lemma_scan_single_location(args, 0, default_location, "PKGBUILD"@);
}

/// `-p` at index `k` is followed by a value.
pub open spec fn sets_pkgbuild(args: Seq<Seq<char>>, k: int) -> bool {
    args[k] == "-p"@ && k + 1 < args.len()
}

/// The value after the last `-p` among the first `n` arguments that is
/// followed by one; `PKGBUILD` where there is none.
pub open spec fn last_pkgbuild(args: Seq<Seq<char>>, n: int) -> Seq<char>
    decreases n,
{
    if n <= 0 {
        "PKGBUILD"@
    } else if sets_pkgbuild(args, n - 1) {
        args[n]
    } else {
        last_pkgbuild(args, n - 1)
    }
}

proof fn lemma_scan_plain_pkgbuild(
    args: Seq<Seq<char>>,
    i: int,
    options: Seq<Seq<char>>,
    location: Seq<char>,
)
    requires
        0 <= i <= args.len(),
        plain_from(args, i),
    ensures
        scan_args(args, i, options, location, last_pkgbuild(args, i)) == ArgScan::Wrap(
            options,
            location,
            last_pkgbuild(args, args.len() as int),
        ),
    decreases args.len() - i,
{
    if i < args.len() {
        assert(args[i] != "-l"@ && !blacklisted(args[i]));
        lemma_scan_plain_pkgbuild(args, i + 1, options, location);
    }
}

/// Without `-l` and without a blacklisted operation, the PKGBUILD is the
/// value after the last `-p` that has one, else `PKGBUILD`.
pub proof fn lemma_last_p_names_pkgbuild(args: Seq<Seq<char>>, default_location: Seq<char>)
    requires
        plain_from(args, 0),
    ensures
        arg_scan(args, default_location) == ArgScan::Wrap(
            args,
            default_location,
            last_pkgbuild(args, args.len() as int),
        ),
{
    lemma_scan_plain_pkgbuild(args, 0, args, default_location);
}

} // verus!

verus! {

/// No argument is a blacklisted operation.
pub open spec fn none_blacklisted(args: Seq<Seq<char>>) -> bool {
    forall|j: int| 0 <= j < args.len() ==> !blacklisted(#[trigger] args[j])
}

/// Reading up to index `k` past arguments that are neither `-l` nor
/// blacklisted keeps every argument and the patch directory, and leaves the
/// PKGBUILD at the value after the last `-p` so far.
proof fn lemma_scan_prefix(args: Seq<Seq<char>>, i: int, k: int, location: Seq<char>)
    requires
        0 <= i <= k <= args.len(),
        forall|j: int| i <= j < k ==> #[trigger] args[j] != "-l"@ && !blacklisted(args[j]),
    ensures
        scan_args(args, i, args, location, last_pkgbuild(args, i)) == scan_args(
            args,
            k,
            args,
            location,
            last_pkgbuild(args, k),
        ),
    decreases k - i,
{
    if i < k {
        assert(args[i] != "-l"@ && !blacklisted(args[i]));
        lemma_scan_prefix(args, i + 1, k, location);
    }
}

/// With one `-l <dir>` (at index `k`) and no blacklisted operation, the
/// patch directory is `dir`, every other argument is passed on in order,
/// and the PKGBUILD is the value after the last `-p` that has one (else
/// `PKGBUILD`), wherever the `-p` stands: `-l` never changes the PKGBUILD
/// path.
pub proof fn lemma_location_keeps_pkgbuild(
    args: Seq<Seq<char>>,
    k: int,
    default_location: Seq<char>,
)
    requires
        0 <= k,
        k + 1 < args.len(),
        args[k] == "-l"@,
        forall|j: int| 0 <= j < args.len() && j != k ==> #[trigger] args[j] != "-l"@,
        none_blacklisted(args),
    ensures
        arg_scan(args, default_location) == ArgScan::Wrap(
            args.remove(k + 1).remove(k),
            args[k + 1],
            last_pkgbuild(args, args.len() as int),
        ),
{
    reveal_strlit("-l");
    reveal_strlit("-p");
    assert("-l"@ != "-p"@) by {
        assert("-l"@[1] != "-p"@[1]);
    }
    assert(!blacklisted(args[k]));
    lemma_scan_prefix(args, 0, k, default_location);
    assert(!sets_pkgbuild(args, k));
    assert(last_pkgbuild(args, k + 1) == last_pkgbuild(args, k));
    assert(plain_from(args, k + 1)) by {
        assert forall|j: int| k + 1 <= j < args.len() implies #[trigger] args[j] != "-l"@
            && !blacklisted(args[j]) by {
            assert(j != k);
        }
    }
    lemma_scan_plain_pkgbuild(args, k + 1, args.remove(k + 1).remove(k), args[k + 1]);
}

} // verus!

verus! {

/// `k` dashes.
pub open spec fn dashes(k: nat) -> Seq<char> {
    Seq::new(k, |_i: int| '-')
}

/// An argument is blacklisted exactly when, after any number of leading
/// dashes (none, `-`, `--`, ...), it is one of the blacklisted operations.
pub proof fn lemma_blacklisted_after_dashes(k: nat, word: Seq<char>)
    requires
        word.len() == 0 || word[0] != '-',
    ensures
        strip_dashes(dashes(k) + word) == word,
        blacklisted(dashes(k) + word) == blacklist().contains(word),
    decreases k,
{
    if k == 0 {
        assert(dashes(0) + word =~= word);
    } else {
        lemma_blacklisted_after_dashes((k - 1) as nat, word);
        let s = dashes(k) + word;
        assert(s[0] == '-');
        assert(s.drop_first() =~= dashes((k - 1) as nat) + word);
    }
}

} // verus!

verus! {

/// The first blacklisted operation, with no `-l` before it, bypasses
/// patching and passes every argument on, unchanged and in order, whatever
/// stands before or after it.
pub proof fn lemma_blacklisted_bypasses(args: Seq<Seq<char>>, k: int, default_location: Seq<char>)
    requires
        0 <= k < args.len(),
        blacklisted(args[k]),
        forall|j: int| 0 <= j < k ==> #[trigger] args[j] != "-l"@ && !blacklisted(args[j]),
    ensures
        arg_scan(args, default_location) == ArgScan::Bypass(args),
{
    lemma_scan_prefix(args, 0, k, default_location);
}

} // verus!
