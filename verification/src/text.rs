//! Character-level text utilities shared by the rest of the library.
//!
//! Text is handled as sequences of `char`: a `String` is turned into a
//! `Vec<char>` on the way in, and a `Vec<char>` back into a `String` on the
//! way out.
use vstd::prelude::*;

verus! {

broadcast use vstd::string::group_string_axioms;

// ---------------------------------------------------------------------------
// Conversions
// ---------------------------------------------------------------------------

/// The characters of a string slice, in order.
pub fn chars_of(s: &str) -> (v: Vec<char>)
    ensures
        v@ == s@,
{
    let mut v: Vec<char> = Vec::new();
    for c in it: s.chars()
        invariant
            v@ == it.seq().take(it.index()),
            it.seq() == s@,
    {
        v.push(c);
    }
    v
}

/// Collects characters into a `String` (std's `FromIterator<&char>` for
/// `String`); the string holds exactly these characters, in order.
#[verifier::external_body]
pub(crate) fn string_from_chars(chars: &[char]) -> (s: String)
    ensures
        s@ == chars@,
{
    chars.iter().collect()
}

/// Turns a sequence of lines into owned strings.
pub fn strings_from_lines(lines: &Vec<Vec<char>>) -> (res: Vec<String>)
    ensures
        res@.len() == lines@.len(),
        forall|i: int| 0 <= i < lines@.len() ==> #[trigger] res@[i]@ == lines@[i]@,
{
    let mut res: Vec<String> = Vec::new();
    for i in 0..lines.len()
        invariant
            res@.len() == i,
            forall|j: int| 0 <= j < i ==> #[trigger] res@[j]@ == lines@[j]@,
    {
        res.push(string_from_chars(lines[i].as_slice()));
    }
    res
}

/// The character views of a sequence of strings.
pub open spec fn views(v: Seq<String>) -> Seq<Seq<char>> {
    v.map_values(|s: String| s@)
}

/// The view of an optional string.
pub open spec fn opt_view(o: Option<String>) -> Option<Seq<char>> {
    match o {
        Some(s) => Some(s@),
        None => None,
    }
}

/// The character views of a sequence of character vectors.
pub open spec fn vec_views(v: Seq<Vec<char>>) -> Seq<Seq<char>> {
    v.map_values(|s: Vec<char>| s@)
}

/// Views of a sequence with one more vector at its end.
pub proof fn lemma_vec_views_push(v: Seq<Vec<char>>, x: Vec<char>)
    ensures
        vec_views(v.push(x)) == vec_views(v).push(x@),
{
    assert(vec_views(v.push(x)) =~= vec_views(v).push(x@));
}

/// Views of a sequence with one more string at its end.
pub proof fn lemma_views_push(v: Seq<String>, x: String)
    ensures
        views(v.push(x)) == views(v).push(x@),
{
    assert(views(v.push(x)) =~= views(v).push(x@));
}

/// Turns owned strings into character vectors.
pub fn chars_of_all(v: &Vec<String>) -> (res: Vec<Vec<char>>)
    ensures
        vec_views(res@) == views(v@),
{
    let mut res: Vec<Vec<char>> = Vec::new();
    for i in 0..v.len()
        invariant
            res@.len() == i,
            forall|j: int| 0 <= j < i ==> #[trigger] res@[j]@ == v@[j]@,
    {
        res.push(chars_of(v[i].as_str()));
    }
    assert(vec_views(res@) =~= views(v@));
    res
}

/// Appends characters to a character vector.
pub fn append_chars(v: &mut Vec<char>, s: &[char])
    ensures
        final(v)@ == old(v)@ + s@,
{
    let ghost start = v@;
    for i in 0..s.len()
        invariant
            v@ == start + s@.take(i as int),
    {
        v.push(s[i]);
        assert(s@.take(i + 1) =~= s@.take(i as int).push(s@[i as int]));
    }
    assert(s@.take(s@.len() as int) =~= s@);
}

/// Appends the characters of a string slice to a character vector.
pub fn append_str(v: &mut Vec<char>, s: &str)
    ensures
        final(v)@ == old(v)@ + s@,
{
    let c = chars_of(s);
    append_chars(v, c.as_slice());
}

// ---------------------------------------------------------------------------
// Prefixes and suffixes
// ---------------------------------------------------------------------------

/// `s` begins with `p`.
pub open spec fn has_prefix(s: Seq<char>, p: Seq<char>) -> bool {
    p.len() <= s.len() && s.take(p.len() as int) == p
}

/// `s` ends with `p`.
pub open spec fn has_suffix(s: Seq<char>, p: Seq<char>) -> bool {
    p.len() <= s.len() && s.skip(s.len() - p.len()) == p
}

pub fn starts_with(s: &[char], p: &[char]) -> (b: bool)
    ensures
        b == has_prefix(s@, p@),
{
    if p.len() > s.len() {
        return false;
    }
    let mut i: usize = 0;
    while i < p.len()
        invariant
            i <= p.len() <= s.len(),
            forall|j: int| 0 <= j < i ==> s@[j] == p@[j],
        decreases p.len() - i,
    {
        if s[i] != p[i] {
            assert(s@.take(p.len() as int)[i as int] != p@[i as int]);
            return false;
        }
        i += 1;
    }
    assert(s@.take(p.len() as int) =~= p@);
    true
}

pub fn ends_with(s: &[char], p: &[char]) -> (b: bool)
    ensures
        b == has_suffix(s@, p@),
{
    if p.len() > s.len() {
        return false;
    }
    let off = s.len() - p.len();
    let mut i: usize = 0;
    while i < p.len()
        invariant
            i <= p.len() <= s.len(),
            off == s.len() - p.len(),
            forall|j: int| 0 <= j < i ==> s@[off + j] == p@[j],
        decreases p.len() - i,
    {
        if s[off + i] != p[i] {
            assert(s@.skip(off as int)[i as int] != p@[i as int]);
            return false;
        }
        i += 1;
    }
    assert(s@.skip(off as int) =~= p@);
    true
}

/// Equality of two character slices.
pub fn chars_eq(a: &[char], b: &[char]) -> (r: bool)
    ensures
        r == (a@ == b@),
{
    if a.len() != b.len() {
        return false;
    }
    let r = starts_with(a, b);
    assert(a@.take(b@.len() as int) =~= a@);
    r
}

// ---------------------------------------------------------------------------
// Lines
// ---------------------------------------------------------------------------

/// A line without the carriage return that ended it, if any.
pub open spec fn strip_cr(l: Seq<char>) -> Seq<char> {
    if l.len() > 0 && l.last() == '\r' {
        l.drop_last()
    } else {
        l
    }
}

/// The lines of `cur` followed by `s[i..]`, where `cur` is the unfinished
/// line read so far. Lines end at `\n`; a `\r` just before it is dropped; a
/// final line ending is optional, and an empty text has no lines.
pub open spec fn lines_from(s: Seq<char>, i: int, cur: Seq<char>) -> Seq<Seq<char>>
    decreases s.len() - i,
{
    if i >= s.len() {
        if cur.len() == 0 {
            seq![]
        } else {
            seq![cur]
        }
    } else if s[i] == '\n' {
        seq![strip_cr(cur)] + lines_from(s, i + 1, seq![])
    } else {
        lines_from(s, i + 1, cur.push(s[i]))
    }
}

/// The lines of a text, as `str::lines` yields them.
pub open spec fn lines_of(s: Seq<char>) -> Seq<Seq<char>> {
    lines_from(s, 0, seq![])
}

/// Splits a text into its lines (`str::lines`).
pub fn split_lines(s: &[char]) -> (lines: Vec<Vec<char>>)
    ensures
        vec_views(lines@) == lines_of(s@),
{
    let mut lines: Vec<Vec<char>> = Vec::new();
    let mut cur: Vec<char> = Vec::new();
    let mut i: usize = 0;
    while i < s.len()
        invariant
            i <= s.len(),
            vec_views(lines@) + lines_from(s@, i as int, cur@) == lines_of(s@),
        decreases s.len() - i,
    {
        let ghost old_lines = lines@;
        let ghost old_cur = cur@;
        if s[i] == '\n' {
            if cur.len() > 0 && cur[cur.len() - 1] == '\r' {
                cur.pop();
            }
            assert(cur@ == strip_cr(old_cur));
            lines.push(cur);
            cur = Vec::new();
            assert(vec_views(lines@) =~= vec_views(old_lines).push(strip_cr(old_cur)));
            assert(vec_views(lines@) + lines_from(s@, i + 1, cur@) =~= vec_views(old_lines)
                + lines_from(s@, i as int, old_cur));
        } else {
            cur.push(s[i]);
        }
        i += 1;
    }
    if cur.len() > 0 {
        let ghost old_lines = lines@;
        lines.push(cur);
        assert(vec_views(lines@) =~= vec_views(old_lines).push(cur@));
    } else {
        assert(vec_views(lines@) =~= vec_views(lines@) + lines_from(s@, i as int, cur@));
    }
    lines
}

// ---------------------------------------------------------------------------
// Joining
// ---------------------------------------------------------------------------

/// The lines joined with `\n` between them (`[String]::join("\n")`).
pub open spec fn join_lines(lines: Seq<Seq<char>>) -> Seq<char>
    decreases lines.len(),
{
    if lines.len() == 0 {
        seq![]
    } else if lines.len() == 1 {
        lines[0]
    } else {
        join_lines(lines.drop_last()) + seq!['\n'] + lines.last()
    }
}

/// Joins lines with `\n` between them.
pub fn join_with_newlines(lines: &Vec<Vec<char>>) -> (res: Vec<char>)
    ensures
        res@ == join_lines(vec_views(lines@)),
{
    let ghost all = vec_views(lines@);
    let mut res: Vec<char> = Vec::new();
    for i in 0..lines.len()
        invariant
            all == vec_views(lines@),
            res@ == join_lines(all.take(i as int)),
    {
        let ghost before = res@;
        if i != 0 {
            res.push('\n');
        }
        let line = &lines[i];
        for j in 0..line.len()
            invariant
                res@ == (if i != 0 { before + seq!['\n'] } else { before }) + line@.take(j as int),
        {
            res.push(line[j]);
            assert(line@.take(j + 1) =~= line@.take(j as int).push(line@[j as int]));
        }
        assert(line@.take(line.len() as int) =~= line@);
        assert(all.take(i + 1).drop_last() =~= all.take(i as int));
        assert(all[i as int] == line@);
        if i == 0 {
            assert(before =~= seq![]);
            assert(res@ =~= join_lines(all.take(1)));
        }
    }
    assert(all.take(lines.len() as int) =~= all);
    res
}

/// Text that remains to be split, or an unfinished line, gives a line.
proof fn lemma_lines_from_nonempty(s: Seq<char>, i: int, cur: Seq<char>)
    requires
        0 <= i,
        i < s.len() || cur.len() > 0,
    ensures
        lines_from(s, i, cur).len() > 0,
    decreases s.len() - i,
{
    if i < s.len() && s[i] != '\n' {
        lemma_lines_from_nonempty(s, i + 1, cur.push(s[i]));
    }
}

/// Joining a line in front of other lines puts a `\n` between them.
pub proof fn lemma_join_lines_prepend(a: Seq<char>, rest: Seq<Seq<char>>)
    requires
        rest.len() > 0,
    ensures
        join_lines(seq![a] + rest) == a + seq!['\n'] + join_lines(rest),
    decreases rest.len(),
{
    let all = seq![a] + rest;
    if rest.len() == 1 {
        assert(all.drop_last() =~= seq![a]);
    } else {
        assert(all.drop_last() =~= seq![a] + rest.drop_last());
        lemma_join_lines_prepend(a, rest.drop_last());
        assert(all.last() == rest.last());
        assert(join_lines(all) == join_lines(all.drop_last()) + seq!['\n'] + all.last());
        assert(join_lines(rest) == join_lines(rest.drop_last()) + seq!['\n'] + rest.last());
        assert(a + seq!['\n'] + join_lines(rest.drop_last()) + seq!['\n'] + rest.last()
            =~= a + seq!['\n'] + (join_lines(rest.drop_last()) + seq!['\n'] + rest.last()));
    }
}

proof fn lemma_join_lines_from(s: Seq<char>, i: int, cur: Seq<char>)
    requires
        0 <= i <= s.len(),
        !s.contains('\r'),
        !cur.contains('\r'),
        s.len() > 0 ==> s.last() != '\n',
    ensures
        join_lines(lines_from(s, i, cur)) == cur + s.skip(i),
    decreases s.len() - i,
{
    if i >= s.len() {
        assert(s.skip(i) =~= seq![]);
        assert(cur + s.skip(i) =~= cur);
    } else if s[i] == '\n' {
        assert(i + 1 < s.len());
        lemma_lines_from_nonempty(s, i + 1, seq![]);
        assert(strip_cr(cur) == cur) by {
            if cur.len() > 0 && cur.last() == '\r' {
                assert(cur.contains(cur.last()));
            }
        }
        lemma_join_lines_prepend(cur, lines_from(s, i + 1, seq![]));
        lemma_join_lines_from(s, i + 1, seq![]);
        assert(s.skip(i) =~= seq!['\n'] + s.skip(i + 1));
        assert(seq![] + s.skip(i + 1) =~= s.skip(i + 1));
        assert(cur + seq!['\n'] + s.skip(i + 1) =~= cur + s.skip(i));
    } else {
        assert(s[i] != '\r') by {
            assert(s.contains(s[i]));
        }
        assert(!cur.push(s[i]).contains('\r')) by {
            if cur.push(s[i]).contains('\r') {
                let k = choose|k: int| 0 <= k < cur.len() + 1 && cur.push(s[i])[k] == '\r';
                if k < cur.len() {
                    assert(cur.contains(cur[k]));
                }
            }
        }
        lemma_join_lines_from(s, i + 1, cur.push(s[i]));
        assert(cur.push(s[i]) + s.skip(i + 1) =~= cur + s.skip(i));
    }
}

/// Splitting a text into lines and joining them again with `\n` gives the
/// text back, where it holds no carriage return and does not end with a
/// line ending.
pub proof fn lemma_join_split_roundtrip(s: Seq<char>)
    requires
        !s.contains('\r'),
        s.len() > 0 ==> s.last() != '\n',
    ensures
        join_lines(lines_of(s)) == s,
{
    lemma_join_lines_from(s, 0, seq![]);
    assert(seq![] + s.skip(0) =~= s);
}

/// Lines that splitting gives back unchanged once joined: none holds a
/// `\n` or ends with a `\r`, and the last is not empty.
pub open spec fn plain_lines(ls: Seq<Seq<char>>) -> bool {
    &&& forall|i: int| 0 <= i < ls.len() ==> !(#[trigger] ls[i]).contains('\n')
    &&& forall|i: int| 0 <= i < ls.len() && (#[trigger] ls[i]).len() > 0 ==> ls[i].last() != '\r'
    &&& ls.len() > 0 ==> ls.last().len() > 0
}

proof fn lemma_lines_from_shift(s: Seq<char>, k: int, m: int, cur: Seq<char>)
    requires
        0 <= k <= s.len(),
        0 <= m,
    ensures
        lines_from(s, k + m, cur) == lines_from(s.skip(k), m, cur),
    decreases s.len() - k - m,
{
    if k + m < s.len() {
        assert(s.skip(k)[m] == s[k + m]);
        if s[k + m] == '\n' {
            lemma_lines_from_shift(s, k, m + 1, seq![]);
        } else {
            lemma_lines_from_shift(s, k, m + 1, cur.push(s[k + m]));
        }
    }
}

proof fn lemma_lines_from_run(s: Seq<char>, i: int, j: int, cur: Seq<char>)
    requires
        0 <= i <= j <= s.len(),
        !s.subrange(i, j).contains('\n'),
    ensures
        lines_from(s, i, cur) == lines_from(s, j, cur + s.subrange(i, j)),
    decreases j - i,
{
    if i < j {
        assert(s.subrange(i, j)[0] == s[i]);
        assert(s[i] != '\n');
        assert(!s.subrange(i + 1, j).contains('\n')) by {
            let t = s.subrange(i + 1, j);
            if t.contains('\n') {
                let k = choose|k: int| 0 <= k < t.len() && #[trigger] t[k] == '\n';
                assert(s.subrange(i, j)[k + 1] == '\n');
            }
        }
        lemma_lines_from_run(s, i + 1, j, cur.push(s[i]));
        assert(cur.push(s[i]) + s.subrange(i + 1, j) =~= cur + s.subrange(i, j));
    } else {
        assert(cur + s.subrange(i, j) =~= cur);
    }
}

/// A line ended by `\n` in front of a text is its first line.
proof fn lemma_lines_of_line_then(a: Seq<char>, t: Seq<char>)
    requires
        !a.contains('\n'),
        a.len() > 0 ==> a.last() != '\r',
    ensures
        lines_of(a + seq!['\n'] + t) == seq![a] + lines_of(t),
{
    let s = a + seq!['\n'] + t;
    assert(s.subrange(0, a.len() as int) =~= a);
    lemma_lines_from_run(s, 0, a.len() as int, seq![]);
    assert(seq![] + a =~= a);
    assert(s[a.len() as int] == '\n');
    lemma_lines_from_shift(s, a.len() as int + 1, 0, seq![]);
    assert(s.skip(a.len() as int + 1) =~= t);
}

/// A non-empty line without `\n` is one line.
proof fn lemma_lines_of_single(a: Seq<char>)
    requires
        !a.contains('\n'),
        a.len() > 0,
    ensures
        lines_of(a) == seq![a],
{
    assert(a.subrange(0, a.len() as int) =~= a);
    lemma_lines_from_run(a, 0, a.len() as int, seq![]);
    assert(seq![] + a =~= a);
}

/// Joining plain lines with `\n` and splitting the text gives them back.
pub proof fn lemma_split_join_roundtrip(ls: Seq<Seq<char>>)
    requires
        plain_lines(ls),
    ensures
        lines_of(join_lines(ls)) == ls,
    decreases ls.len(),
{
    if ls.len() == 0 {
        assert(lines_of(seq![]) == Seq::<Seq<char>>::empty());
    } else if ls.len() == 1 {
        assert(ls[0] == ls.last());
        lemma_lines_of_single(ls[0]);
    } else {
        let rest = ls.drop_first();
        assert(ls =~= seq![ls[0]] + rest);
        assert(plain_lines(rest)) by {
            assert forall|i: int| 0 <= i < rest.len() implies !(#[trigger] rest[i]).contains('\n') by {
                assert(rest[i] == ls[i + 1]);
            }
            assert forall|i: int| 0 <= i < rest.len() && (#[trigger] rest[i]).len() > 0 implies rest[i].last() != '\r' by {
                assert(rest[i] == ls[i + 1]);
            }
        }
        lemma_split_join_roundtrip(rest);
        lemma_join_lines_prepend(ls[0], rest);
        lemma_lines_of_line_then(ls[0], join_lines(rest));
    }
}

/// Joining two lists of lines puts a `\n` between their joins.
pub proof fn lemma_join_lines_concat(a: Seq<Seq<char>>, b: Seq<Seq<char>>)
    requires
        a.len() > 0,
        b.len() > 0,
    ensures
        join_lines(a + b) == join_lines(a) + seq!['\n'] + join_lines(b),
    decreases b.len(),
{
    if b.len() == 1 {
        assert((a + b).drop_last() =~= a);
        assert(b.drop_last().len() == 0);
    } else {
        assert((a + b).drop_last() =~= a + b.drop_last());
        lemma_join_lines_concat(a, b.drop_last());
        assert(join_lines(a) + seq!['\n'] + join_lines(b.drop_last()) + seq!['\n'] + b.last()
            =~= join_lines(a) + seq!['\n'] + (join_lines(b.drop_last()) + seq!['\n'] + b.last()));
    }
}

// ---------------------------------------------------------------------------
// Whitespace
// ---------------------------------------------------------------------------

/// The Unicode `White_Space` property (`char::is_whitespace`).
pub open spec fn is_space(c: char) -> bool {
    let u = c as u32;
    ||| 0x09 <= u <= 0x0d
    ||| u == 0x20
    ||| u == 0x85
    ||| u == 0xa0
    ||| u == 0x1680
    ||| 0x2000 <= u <= 0x200a
    ||| u == 0x2028
    ||| u == 0x2029
    ||| u == 0x202f
    ||| u == 0x205f
    ||| u == 0x3000
}

pub fn is_whitespace(c: char) -> (b: bool)
    ensures
        b == is_space(c),
{
    let u = c as u32;
    (0x09 <= u && u <= 0x0d) || u == 0x20 || u == 0x85 || u == 0xa0 || u == 0x1680 || (0x2000 <= u
        && u <= 0x200a) || u == 0x2028 || u == 0x2029 || u == 0x202f || u == 0x205f || u == 0x3000
}

/// `s` without its leading whitespace (`str::trim_start`).
pub open spec fn trim_start(s: Seq<char>) -> Seq<char>
    decreases s.len(),
{
    if s.len() > 0 && is_space(s[0]) {
        trim_start(s.drop_first())
    } else {
        s
    }
}

/// `s` without its trailing whitespace (`str::trim_end`).
pub open spec fn trim_end(s: Seq<char>) -> Seq<char>
    decreases s.len(),
{
    if s.len() > 0 && is_space(s.last()) {
        trim_end(s.drop_last())
    } else {
        s
    }
}

/// `s` without leading and trailing whitespace (`str::trim`).
pub open spec fn trim(s: Seq<char>) -> Seq<char> {
    trim_end(trim_start(s))
}

/// Index of the first character of `s` that is not whitespace.
fn first_non_space(s: &[char]) -> (i: usize)
    ensures
        i <= s@.len(),
        trim_start(s@) == s@.skip(i as int),
{
    let mut i: usize = 0;
    assert(s@.skip(0) =~= s@);
    while i < s.len() && is_whitespace(s[i])
        invariant
            i <= s@.len(),
            trim_start(s@) == trim_start(s@.skip(i as int)),
        decreases s.len() - i,
    {
        assert(s@.skip(i as int).drop_first() =~= s@.skip(i + 1));
        i += 1;
    }
    i
}

pub fn trim_chars(s: &[char]) -> (t: Vec<char>)
    ensures
        t@ == trim(s@),
{
    let a = first_non_space(s);
    let mut b: usize = s.len();
    assert(s@.skip(a as int).subrange(0, (b - a) as int) =~= s@.skip(a as int));
    while b > a && is_whitespace(s[b - 1])
        invariant
            a <= b <= s@.len(),
            trim(s@) == trim_end(s@.subrange(a as int, b as int)),
        decreases b,
    {
        assert(s@.subrange(a as int, b as int).drop_last() =~= s@.subrange(a as int, b - 1));
        b -= 1;
    }
    let t = slice_chars(s, a, b);
    t
}

/// The characters `s[from..to]`.
pub fn slice_chars(s: &[char], from: usize, to: usize) -> (t: Vec<char>)
    requires
        from <= to <= s@.len(),
    ensures
        t@ == s@.subrange(from as int, to as int),
{
    let mut t: Vec<char> = Vec::new();
    for i in from..to
        invariant
            from <= to <= s@.len(),
            t@ == s@.subrange(from as int, i as int),
    {
        t.push(s[i]);
        assert(s@.subrange(from as int, i + 1) =~= s@.subrange(from as int, i as int).push(s@[i as int]));
    }
    t
}

/// A copy of a character slice.
pub fn copy_chars(s: &[char]) -> (t: Vec<char>)
    ensures
        t@ == s@,
{
    let t = slice_chars(s, 0, s.len());
    assert(s@.subrange(0, s@.len() as int) =~= s@);
    t
}

/// The longest prefix of `s` that holds no whitespace.
pub open spec fn take_word(s: Seq<char>) -> Seq<char>
    decreases s.len(),
{
    if s.len() == 0 || is_space(s[0]) {
        seq![]
    } else {
        seq![s[0]] + take_word(s.drop_first())
    }
}

/// The first whitespace-separated word of `s`
/// (`str::split_whitespace().next()`).
pub open spec fn first_word(s: Seq<char>) -> Option<Seq<char>> {
    let t = trim_start(s);
    if t.len() == 0 {
        None
    } else {
        Some(take_word(t))
    }
}

pub fn first_word_of(s: &[char]) -> (w: Option<Vec<char>>)
    ensures
        match w {
            Some(v) => first_word(s@) == Some(v@),
            None => first_word(s@) is None,
        },
{
    let a = first_non_space(s);
    if a == s.len() {
        return None;
    }
    let mut b: usize = a;
    assert(s@.skip(a as int).take(0) =~= seq![]);
    while b < s.len() && !is_whitespace(s[b])
        invariant
            a <= b <= s@.len(),
            take_word(s@.skip(a as int)) == s@.subrange(a as int, b as int) + take_word(
                s@.skip(b as int),
            ),
        decreases s.len() - b,
    {
        assert(s@.skip(b as int).drop_first() =~= s@.skip(b + 1));
        assert(s@.subrange(a as int, b + 1) =~= s@.subrange(a as int, b as int) + seq![s@[b as int]]);
        b += 1;
    }
    assert(take_word(s@.skip(b as int)) =~= seq![]);
    assert(s@.subrange(a as int, b as int) + seq![] =~= s@.subrange(a as int, b as int));
    Some(slice_chars(s, a, b))
}

/// `s` without its leading `-` characters (`str::trim_start_matches("-")`).
pub open spec fn strip_dashes(s: Seq<char>) -> Seq<char>
    decreases s.len(),
{
    if s.len() > 0 && s[0] == '-' {
        strip_dashes(s.drop_first())
    } else {
        s
    }
}

pub fn strip_leading_dashes(s: &[char]) -> (t: Vec<char>)
    ensures
        t@ == strip_dashes(s@),
{
    let mut i: usize = 0;
    assert(s@.skip(0) =~= s@);
    while i < s.len() && s[i] == '-'
        invariant
            i <= s@.len(),
            strip_dashes(s@) == strip_dashes(s@.skip(i as int)),
        decreases s.len() - i,
    {
        assert(s@.skip(i as int).drop_first() =~= s@.skip(i + 1));
        i += 1;
    }
    assert(s@.subrange(i as int, s@.len() as int) =~= s@.skip(i as int));
    slice_chars(s, i, s.len())
}

// ---------------------------------------------------------------------------
// ASCII case
// ---------------------------------------------------------------------------

/// `char::to_ascii_lowercase`.
pub open spec fn ascii_lower(c: char) -> char {
    if 'A' <= c <= 'Z' {
        ((c as u32) + 32) as char
    } else {
        c
    }
}

/// `str::eq_ignore_ascii_case`: equal lengths and equal characters once
/// ASCII letters are lowered.
pub open spec fn eq_ignore_case(a: Seq<char>, b: Seq<char>) -> bool {
    a.len() == b.len() && forall|i: int| 0 <= i < a.len() ==> ascii_lower(#[trigger] a[i]) == ascii_lower(b[i])
}

fn to_ascii_lower(c: char) -> (r: char)
    ensures
        r == ascii_lower(c),
{
    if 'A' <= c && c <= 'Z' {
        let u: u32 = c as u32 + 32;
        assert(0x61 <= u <= 0x7a);
        char_from_ascii(u)
    } else {
        c
    }
}

/// The character with an ASCII code below 128.
fn char_from_ascii(u: u32) -> (c: char)
    requires
        u < 128,
    ensures
        c == u as char,
{
    let b: u8 = u as u8;
    b as char
}

pub fn eq_ignore_ascii_case(a: &[char], b: &[char]) -> (r: bool)
    ensures
        r == eq_ignore_case(a@, b@),
{
    if a.len() != b.len() {
        return false;
    }
    for i in 0..a.len()
        invariant
            a@.len() == b@.len(),
            forall|j: int| 0 <= j < i ==> ascii_lower(#[trigger] a@[j]) == ascii_lower(b@[j]),
    {
        if to_ascii_lower(a[i]) != to_ascii_lower(b[i]) {
            return false;
        }
    }
    true
}

// ---------------------------------------------------------------------------
// Numbers
// ---------------------------------------------------------------------------

/// The digit character of `d` in base 16, lower case (`0`-`9`, `a`-`f`).
pub open spec fn hex_digit(d: nat) -> char {
    if d < 10 {
        (48 + d) as char
    } else {
        (87 + d) as char
    }
}

/// The decimal representation of `n`, without leading zeros.
pub open spec fn decimal(n: nat) -> Seq<char>
    decreases n,
{
    if n < 10 {
        seq![hex_digit(n)]
    } else {
        decimal(n / 10).push(hex_digit(n % 10))
    }
}

/// The lower-case hexadecimal encoding of bytes, two digits per byte
/// (`{:x}` on a digest).
pub open spec fn hex_lower(bytes: Seq<u8>) -> Seq<char>
    decreases bytes.len(),
{
    if bytes.len() == 0 {
        seq![]
    } else {
        hex_lower(bytes.drop_last()) + seq![
            hex_digit((bytes.last() / 16) as nat),
            hex_digit((bytes.last() % 16) as nat),
        ]
    }
}

fn digit_char(d: u8) -> (c: char)
    requires
        d < 16,
    ensures
        c == hex_digit(d as nat),
{
    if d < 10 {
        char_from_ascii((48 + d) as u32)
    } else {
        char_from_ascii((87 + d) as u32)
    }
}

/// The decimal representation of a byte (`u8::to_string`).
pub fn byte_decimal(b: u8) -> (s: Vec<char>)
    ensures
        s@ == decimal(b as nat),
{
    let mut s: Vec<char> = Vec::new();
    if b >= 100 {
        s.push(digit_char(b / 100));
        s.push(digit_char((b / 10) % 10));
        s.push(digit_char(b % 10));
        assert(decimal((b / 100) as nat) == seq![hex_digit((b / 100) as nat)]);
        assert(((b / 10) as nat) / 10 == (b / 100) as nat);
        assert(decimal((b / 10) as nat) == decimal((b / 100) as nat).push(
            hex_digit(((b / 10) % 10) as nat),
        ));
        assert(s@ =~= decimal((b / 10) as nat).push(hex_digit((b % 10) as nat)));
    } else if b >= 10 {
        s.push(digit_char(b / 10));
        s.push(digit_char(b % 10));
        assert(s@ =~= decimal((b / 10) as nat).push(hex_digit((b % 10) as nat)));
    } else {
        s.push(digit_char(b));
        assert(s@ =~= seq![hex_digit(b as nat)]);
    }
    s
}

/// The lower-case hexadecimal encoding of bytes.
pub fn to_hex_lower(bytes: &[u8]) -> (s: Vec<char>)
    ensures
        s@ == hex_lower(bytes@),
{
    let mut s: Vec<char> = Vec::new();
    for i in 0..bytes.len()
        invariant
            s@ == hex_lower(bytes@.take(i as int)),
    {
        let b = bytes[i];
        s.push(digit_char(b / 16));
        s.push(digit_char(b % 16));
        assert(bytes@.take(i + 1).drop_last() =~= bytes@.take(i as int));
        assert(bytes@.take(i + 1).last() == b);
    }
    assert(bytes@.take(bytes.len() as int) =~= bytes@);
    s
}

} // verus!

verus! {

/// `c` is the lower-case hexadecimal digit of `d`.
pub open spec fn is_hex_digit_of(c: char, d: int) -> bool {
    ||| '0' <= c <= '9' && c as u32 - 48 == d
    ||| 'a' <= c <= 'f' && c as u32 - 87 == d
}

/// The lower-case hexadecimal text of bytes has two characters per byte,
/// in order: the digit of its high four bits, then that of its low four
/// bits, each `0`-`9` or `a`-`f`.
pub proof fn lemma_hex_lower_digits(bytes: Seq<u8>)
    ensures
        hex_lower(bytes).len() == 2 * bytes.len(),
        forall|i: int|
            0 <= i < bytes.len() ==> is_hex_digit_of(
                hex_lower(bytes)[2 * i],
                (#[trigger] bytes[i] / 16) as int,
            ) && is_hex_digit_of(hex_lower(bytes)[2 * i + 1], (bytes[i] % 16) as int),
    decreases bytes.len(),
{
    if bytes.len() > 0 {
        let rest = bytes.drop_last();
        lemma_hex_lower_digits(rest);
        let h = hex_lower(bytes);
        let n = rest.len();
        assert forall|i: int| 0 <= i < bytes.len() implies is_hex_digit_of(
            h[2 * i],
            (#[trigger] bytes[i] / 16) as int,
        ) && is_hex_digit_of(h[2 * i + 1], (bytes[i] % 16) as int) by {
            if i < n {
                assert(h[2 * i] == hex_lower(rest)[2 * i]);
                assert(h[2 * i + 1] == hex_lower(rest)[2 * i + 1]);
                assert(rest[i] == bytes[i]);
            } else {
                let b = bytes.last();
                assert(h[2 * i] == hex_digit((b / 16) as nat));
                assert(h[2 * i + 1] == hex_digit((b % 16) as nat));
            }
        }
    }
}

} // verus!

verus! {

proof fn lemma_trim_start_skip(s: Seq<char>) -> (i: int)
    ensures
        0 <= i <= s.len(),
        trim_start(s) == s.skip(i),
        forall|k: int| 0 <= k < i ==> is_space(#[trigger] s[k]),
        i < s.len() ==> !is_space(s[i]),
    decreases s.len(),
{
    if s.len() > 0 && is_space(s[0]) {
        let i1 = lemma_trim_start_skip(s.drop_first());
        assert(s.drop_first().skip(i1) =~= s.skip(i1 + 1));
        assert forall|k: int| 0 <= k < i1 + 1 implies is_space(#[trigger] s[k]) by {
            if k > 0 {
                assert(s[k] == s.drop_first()[k - 1]);
            }
        }
        i1 + 1
    } else {
        assert(s.skip(0) =~= s);
        0
    }
}

proof fn lemma_trim_end_take(s: Seq<char>) -> (j: int)
    ensures
        0 <= j <= s.len(),
        trim_end(s) == s.take(j),
        forall|k: int| j <= k < s.len() ==> is_space(#[trigger] s[k]),
        j > 0 ==> !is_space(s[j - 1]),
    decreases s.len(),
{
    if s.len() > 0 && is_space(s.last()) {
        let j1 = lemma_trim_end_take(s.drop_last());
        assert(s.drop_last().take(j1) =~= s.take(j1));
        assert forall|k: int| j1 <= k < s.len() implies is_space(#[trigger] s[k]) by {
            if k < s.len() - 1 {
                assert(s[k] == s.drop_last()[k]);
            }
        }
        j1
    } else {
        assert(s.take(s.len() as int) =~= s);
        s.len() as int
    }
}

/// Trimming takes off the whitespace at both ends and nothing else: what
/// is left is a piece `s[i..j]` of the text, everything before `i` and from
/// `j` on is whitespace, and the piece neither starts nor ends with
/// whitespace.
pub proof fn lemma_trim_strips_spaces(s: Seq<char>)
    ensures
        exists|i: int, j: int|
            0 <= i <= j <= s.len() && trim(s) == s.subrange(i, j) && (forall|k: int|
                0 <= k < i ==> is_space(#[trigger] s[k])) && (forall|k: int|
                j <= k < s.len() ==> is_space(#[trigger] s[k])) && (i < j ==> !is_space(s[i])
                && !is_space(s[j - 1])),
{
    let i = lemma_trim_start_skip(s);
    let t = s.skip(i);
    let j = lemma_trim_end_take(t);
    assert(t.take(j) =~= s.subrange(i, i + j));
    assert forall|k: int| i + j <= k < s.len() implies is_space(#[trigger] s[k]) by {
        assert(s[k] == t[k - i]);
    }
    if j > 0 {
        assert(s[i] == t[0]);
        assert(s[i + j - 1] == t[j - 1]);
    }
    assert(trim(s) == s.subrange(i, i + j));
}

} // verus!

verus! {

/// The number that a string of decimal digits stands for.
pub open spec fn digits_value(s: Seq<char>) -> int
    decreases s.len(),
{
    if s.len() == 0 {
        0
    } else {
        digits_value(s.drop_last()) * 10 + (s.last() as u32 - 48)
    }
}

/// The decimal form of a number is made of the digits `0`-`9`, starts with
/// `0` only for zero itself, and stands for the number.
pub proof fn lemma_decimal_value(n: nat)
    ensures
        decimal(n).len() > 0,
        forall|k: int| 0 <= k < decimal(n).len() ==> '0' <= #[trigger] decimal(n)[k] <= '9',
        decimal(n)[0] == '0' ==> n == 0,
        digits_value(decimal(n)) == n,
    decreases n,
{
    if n >= 10 {
        lemma_decimal_value(n / 10);
        let d = decimal(n);
        assert(d.drop_last() == decimal(n / 10));
        assert forall|k: int| 0 <= k < d.len() implies '0' <= #[trigger] d[k] <= '9' by {
            if k < d.len() - 1 {
                assert(d[k] == decimal(n / 10)[k]);
            }
        }
        assert(d[0] == decimal(n / 10)[0]);
        assert(d.last() == hex_digit(n % 10));
        assert(hex_digit(n % 10) as u32 == 48 + n % 10);
        assert(digits_value(d) == digits_value(decimal(n / 10)) * 10 + (d.last() as u32 - 48));
        assert(digits_value(d) == (n / 10) * 10 + n % 10);
        assert((n / 10) * 10 + n % 10 == n) by (nonlinear_arith);
    } else {
        let d = decimal(n);
        assert(d.drop_last() =~= Seq::<char>::empty());
        assert(hex_digit(n) as u32 == 48 + n);
        assert(digits_value(d) == digits_value(d.drop_last()) * 10 + (d.last() as u32 - 48));
    }
}

} // verus!
