//! Character-level text model: whitespace, trimming, prefixes, substrings,
//! lines and words, stated over `Seq<char>` and computed over `Vec<char>`.
use vstd::prelude::*;

verus! {

/// Whether `c` has the Unicode `White_Space` property.
pub open spec fn is_white_space(c: char) -> bool {
    ||| ('\u{9}' <= c && c <= '\u{d}')
    ||| c == ' '
    ||| c == '\u{85}'
    ||| c == '\u{a0}'
    ||| c == '\u{1680}'
    ||| ('\u{2000}' <= c && c <= '\u{200a}')
    ||| c == '\u{2028}'
    ||| c == '\u{2029}'
    ||| c == '\u{202f}'
    ||| c == '\u{205f}'
    ||| c == '\u{3000}'
}

/// `s` without its leading whitespace.
pub open spec fn trim_start(s: Seq<char>) -> Seq<char>
    decreases s.len(),
{
    if s.len() > 0 && is_white_space(s[0]) {
        trim_start(s.drop_first())
    } else {
        s
    }
}

/// `s` without its trailing whitespace.
pub open spec fn trim_end(s: Seq<char>) -> Seq<char>
    decreases s.len(),
{
    if s.len() > 0 && is_white_space(s.last()) {
        trim_end(s.drop_last())
    } else {
        s
    }
}

/// `s` without leading and trailing whitespace.
pub open spec fn trim(s: Seq<char>) -> Seq<char> {
    trim_end(trim_start(s))
}

/// `p` is a prefix of `s`.
pub open spec fn has_prefix(s: Seq<char>, p: Seq<char>) -> bool {
    p.len() <= s.len() && s.subrange(0, p.len() as int) == p
}

/// `needle` occurs in `hay` as a contiguous run.
pub open spec fn has_infix(hay: Seq<char>, needle: Seq<char>) -> bool {
    exists|i: int|
        0 <= i && i + needle.len() <= hay.len() && #[trigger] hay.subrange(i, i + needle.len())
            == needle
}

/// Whether `c` is a `White_Space` character.
pub(crate) fn is_space(c: char) -> (r: bool)
    ensures
        r == is_white_space(c),
{
    ('\u{9}' <= c && c <= '\u{d}') || c == ' ' || c == '\u{85}' || c == '\u{a0}' || c
        == '\u{1680}' || ('\u{2000}' <= c && c <= '\u{200a}') || c == '\u{2028}' || c
        == '\u{2029}' || c == '\u{202f}' || c == '\u{205f}' || c == '\u{3000}'
}

/// Relies on `FromIterator<&char> for String`: the characters, in order.
#[verifier::external_body]
pub(crate) fn string_of(v: &[char]) -> (r: String)
    ensures
        r@ == v@,
{
    v.iter().collect()
}

/// The characters of `s`, in order.
pub(crate) fn chars_of(s: &str) -> (r: Vec<char>)
    ensures
        r@ == s@,
{
    let mut r: Vec<char> = Vec::new();
    for c in it: s.chars()
        invariant
            r@ == it.seq().take(it.index() as int),
    {
        r.push(c);
    }
    assert(r@ =~= s@);
    r
}

/// A copy of `v[from..to]`.
pub(crate) fn copy_range(v: &[char], from: usize, to: usize) -> (r: Vec<char>)
    requires
        from <= to <= v@.len(),
    ensures
        r@ == v@.subrange(from as int, to as int),
{
    let mut r: Vec<char> = Vec::new();
    let mut i: usize = from;
    while i < to
        invariant
            from <= i <= to <= v@.len(),
            r@ == v@.subrange(from as int, i as int),
        decreases to - i,
    {
        r.push(v[i]);
        i = i + 1;
        assert(r@ =~= v@.subrange(from as int, i as int));
    }
    r
}

proof fn lemma_trim_start_skip(s: Seq<char>, i: int)
    requires
        0 <= i <= s.len(),
        forall|k: int| 0 <= k < i ==> is_white_space(#[trigger] s[k]),
    ensures
        trim_start(s) == trim_start(s.subrange(i, s.len() as int)),
    decreases i,
{
    if i > 0 {
        assert(s.drop_first().subrange(i - 1, s.len() - 1) =~= s.subrange(i, s.len() as int));
        lemma_trim_start_skip(s.drop_first(), i - 1);
    } else {
        assert(s.subrange(0, s.len() as int) =~= s);
    }
}

proof fn lemma_trim_end_skip(s: Seq<char>, j: int)
    requires
        0 <= j <= s.len(),
        forall|k: int| j <= k < s.len() ==> is_white_space(#[trigger] s[k]),
    ensures
        trim_end(s) == trim_end(s.subrange(0, j)),
    decreases s.len() - j,
{
    if j < s.len() {
        assert(s.drop_last().subrange(0, j) =~= s.subrange(0, j));
        lemma_trim_end_skip(s.drop_last(), j);
    } else {
        assert(s.subrange(0, j) =~= s);
    }
}

/// Where the trimmed part of `v` lies.
pub(crate) fn trim_bounds(v: &[char]) -> (r: (usize, usize))
    ensures
        r.0 <= r.1 <= v@.len(),
        v@.subrange(r.0 as int, r.1 as int) == trim(v@),
{
    let n = v.len();
    let mut a: usize = 0;
    while a < n && is_space(v[a])
        invariant
            a <= n == v@.len(),
            forall|k: int| 0 <= k < a ==> is_white_space(#[trigger] v@[k]),
        decreases n - a,
    {
        a = a + 1;
    }
    let ghost t = v@.subrange(a as int, n as int);
    proof {
        lemma_trim_start_skip(v@, a as int);
        if t.len() > 0 {
            assert(!is_white_space(t[0]));
        }
        assert(trim_start(v@) == t);
    }
    let mut b: usize = n;
    while b > a && is_space(v[b - 1])
        invariant
            a <= b <= n == v@.len(),
            t == v@.subrange(a as int, n as int),
            forall|k: int| b <= k < n ==> is_white_space(#[trigger] v@[k]),
        decreases b,
    {
        b = b - 1;
    }
    proof {
        assert forall|k: int| b - a <= k < t.len() implies is_white_space(#[trigger] t[k]) by {
            assert(t[k] == v@[k + a]);
        }
        lemma_trim_end_skip(t, b - a);
        let u = t.subrange(0, b - a);
        assert(u =~= v@.subrange(a as int, b as int));
        if u.len() > 0 {
            assert(!is_white_space(u.last()));
        }
    }
    (a, b)
}

/// The trimmed copy of `v`.
pub(crate) fn trimmed(v: &[char]) -> (r: Vec<char>)
    ensures
        r@ == trim(v@),
{
    let (a, b) = trim_bounds(v);
    copy_range(v, a, b)
}

/// Whether `s[from..]` starts with `p`.
pub(crate) fn prefix_at(s: &[char], from: usize, p: &[char]) -> (r: bool)
    requires
        from <= s@.len(),
    ensures
        r == has_prefix(s@.subrange(from as int, s@.len() as int), p@),
{
    let ghost t = s@.subrange(from as int, s@.len() as int);
    let n = s.len();
    if p.len() > n - from {
        return false;
    }
    let mut i: usize = 0;
    while i < p.len()
        invariant
            i <= p@.len() <= s@.len() - from,
            from + p@.len() <= n == s@.len(),
            t == s@.subrange(from as int, s@.len() as int),
            forall|k: int| 0 <= k < i ==> s@[from + k] == p@[k],
        decreases p.len() - i,
    {
        if s[from + i] != p[i] {
            assert(t.subrange(0, p@.len() as int)[i as int] != p@[i as int]);
            return false;
        }
        i = i + 1;
    }
    assert(t.subrange(0, p@.len() as int) =~= p@);
    true
}

/// Whether `s` starts with `p`.
pub(crate) fn starts_with(s: &[char], p: &[char]) -> (r: bool)
    ensures
        r == has_prefix(s@, p@),
{
    let r = prefix_at(s, 0, p);
    assert(s@.subrange(0, s@.len() as int) =~= s@);
    r
}

/// Whether `needle` occurs in `hay`.
pub(crate) fn contains(hay: &[char], needle: &[char]) -> (r: bool)
    ensures
        r == has_infix(hay@, needle@),
{
    if needle.len() > hay.len() {
        return false;
    }
    let limit = hay.len() - needle.len();
    let mut i: usize = 0;
    loop
        invariant
            needle@.len() <= hay@.len(),
            limit == hay@.len() - needle@.len(),
            i <= limit,
            forall|j: int|
                0 <= j < i ==> #[trigger] hay@.subrange(j, j + needle@.len()) != needle@,
        decreases limit - i,
    {
        assert(hay@.subrange(i as int, hay@.len() as int).subrange(0, needle@.len() as int)
            =~= hay@.subrange(i as int, i + needle@.len()));
        if prefix_at(hay, i, needle) {
            return true;
        }
        if i == limit {
            return false;
        }
        i = i + 1;
    }
}

/// The pieces of `s` between newline characters; there is always at least one.
pub open spec fn split_lf(s: Seq<char>) -> Seq<Seq<char>>
    decreases s.len(),
{
    if s.len() == 0 {
        seq![Seq::empty()]
    } else {
        let p = split_lf(s.drop_last());
        if s.last() == '\n' {
            p.push(Seq::empty())
        } else {
            p.update(p.len() - 1, p.last().push(s.last()))
        }
    }
}

/// `l` without one carriage return at its end.
pub open spec fn strip_cr(l: Seq<char>) -> Seq<char> {
    if l.len() > 0 && l.last() == '\r' {
        l.drop_last()
    } else {
        l
    }
}

/// The lines of `s`. A line ends at `\n` or `\r\n`, which it does not hold; a
/// final line ending adds no empty line, and an empty text has no lines.
pub open spec fn lines(s: Seq<char>) -> Seq<Seq<char>> {
    if s.len() == 0 {
        Seq::empty()
    } else if s.last() == '\n' {
        split_lf(s.drop_last()).map_values(|l: Seq<char>| strip_cr(l))
    } else {
        let p = split_lf(s);
        p.drop_last().map_values(|l: Seq<char>| strip_cr(l)).push(p.last())
    }
}

/// Each line of `ls` followed by a newline.
pub open spec fn unlines(ls: Seq<Seq<char>>) -> Seq<char>
    decreases ls.len(),
{
    if ls.len() == 0 {
        Seq::empty()
    } else {
        unlines(ls.drop_last()) + ls.last().push('\n')
    }
}

/// The number of maximal runs of non-whitespace characters in `s`.
pub open spec fn word_count(s: Seq<char>) -> nat
    decreases s.len(),
{
    if s.len() == 0 {
        0
    } else {
        let starts = !is_white_space(s.last()) && (s.len() == 1 || is_white_space(
            s[s.len() - 2],
        ));
        word_count(s.drop_last()) + if starts {
            1nat
        } else {
            0nat
        }
    }
}

/// The character sequences held by a sequence of vectors.
pub open spec fn views(ls: Seq<Vec<char>>) -> Seq<Seq<char>> {
    ls.map_values(|l: Vec<char>| l@)
}

/// Splitting at newlines gives at least one piece.
pub proof fn lemma_split_lf_len(s: Seq<char>)
    ensures
        split_lf(s).len() >= 1,
    decreases s.len(),
{
    if s.len() > 0 {
        lemma_split_lf_len(s.drop_last());
    }
}

fn strip_cr_vec(l: Vec<char>) -> (r: Vec<char>)
    ensures
        r@ == strip_cr(l@),
{
    let mut l = l;
    let n = l.len();
    if n > 0 && l[n - 1] == '\r' {
        l.pop();
    }
    l
}

/// The lines of `v`, as `lines` gives them.
pub(crate) fn split_lines(v: &[char]) -> (r: Vec<Vec<char>>)
    ensures
        views(r@) == lines(v@),
{
    let n = v.len();
    let mut out: Vec<Vec<char>> = Vec::new();
    if n == 0 {
        assert(views(out@) =~= lines(v@));
        return out;
    }
    let mut cur: Vec<char> = Vec::new();
    let mut i: usize = 0;
    proof {
        assert(v@.take(0) =~= Seq::<char>::empty());
    }
    while i < n
        invariant
            i <= n == v@.len(),
            split_lf(v@.take(i as int)).len() == out@.len() + 1,
            forall|k: int|
                0 <= k < out@.len() ==> #[trigger] out@[k]@ == strip_cr(
                    split_lf(v@.take(i as int))[k],
                ),
            cur@ == split_lf(v@.take(i as int)).last(),
        decreases n - i,
    {
        let c = v[i];
        proof {
            assert(v@.take(i + 1).drop_last() =~= v@.take(i as int));
            lemma_split_lf_len(v@.take(i as int));
        }
        if c == '\n' {
            let done = strip_cr_vec(cur);
            out.push(done);
            cur = Vec::new();
        } else {
            cur.push(c);
        }
        i = i + 1;
    }
    proof {
        assert(v@.take(n as int) =~= v@);
    }
    if v[n - 1] == '\n' {
        proof {
            let p = split_lf(v@.drop_last());
            assert(v@.drop_last() =~= v@.take(n - 1));
            lemma_split_lf_len(v@.drop_last());
            assert(views(out@) =~= p.map_values(|l: Seq<char>| strip_cr(l)));
        }
    } else {
        let ghost before = out@;
        out.push(cur);
        proof {
            let p = split_lf(v@);
            assert(views(out@) =~= p.drop_last().map_values(|l: Seq<char>| strip_cr(l)).push(
                p.last(),
            ));
        }
    }
    out
}

/// The characters of `ls`, each line followed by a newline.
pub(crate) fn join_lines(ls: &Vec<Vec<char>>) -> (r: Vec<char>)
    ensures
        r@ == unlines(views(ls@)),
{
    let mut r: Vec<char> = Vec::new();
    let mut i: usize = 0;
    while i < ls.len()
        invariant
            i <= ls@.len(),
            r@ == unlines(views(ls@.take(i as int))),
        decreases ls.len() - i,
    {
        let line = &ls[i];
        let mut j: usize = 0;
        let ghost base = r@;
        while j < line.len()
            invariant
                i < ls@.len(),
                line == ls@[i as int],
                j <= line@.len(),
                r@ == base + line@.take(j as int),
            decreases line.len() - j,
        {
            r.push(line[j]);
            j = j + 1;
            assert(r@ =~= base + line@.take(j as int));
        }
        r.push('\n');
        proof {
            assert(views(ls@.take(i + 1)).drop_last() =~= views(ls@.take(i as int)));
            assert(line@.take(j as int) =~= line@);
        }
        i = i + 1;
    }
    assert(ls@.take(ls@.len() as int) =~= ls@);
    r
}

/// The number of words of `v`, as `word_count` gives it.
pub(crate) fn count_word_runs(v: &[char]) -> (r: usize)
    ensures
        r == word_count(v@),
{
    let mut count: usize = 0;
    let mut i: usize = 0;
    let mut after_space = true;
    while i < v.len()
        invariant
            i <= v@.len(),
            count <= i,
            count == word_count(v@.take(i as int)),
            after_space == (i == 0 || is_white_space(v@[i - 1])),
        decreases v.len() - i,
    {
        let space = is_space(v[i]);
        proof {
            assert(v@.take(i + 1).drop_last() =~= v@.take(i as int));
        }
        if !space && after_space {
            count = count + 1;
        }
        after_space = space;
        i = i + 1;
    }
    assert(v@.take(v@.len() as int) =~= v@);
    count
}

pub proof fn lemma_trim_end_last(s: Seq<char>)
    ensures
        trim_end(s).len() > 0 ==> !is_white_space(trim_end(s).last()),
        trim_end(s).len() <= s.len(),
        trim_end(s) == s.subrange(0, trim_end(s).len() as int),
    decreases s.len(),
{
    if s.len() > 0 && is_white_space(s.last()) {
        lemma_trim_end_last(s.drop_last());
        assert(s.drop_last().subrange(0, trim_end(s).len() as int) =~= s.subrange(
            0,
            trim_end(s).len() as int,
        ));
    } else {
        assert(s.subrange(0, s.len() as int) =~= s);
    }
}

pub proof fn lemma_trim_start_keeps_last(s: Seq<char>)
    requires
        s.len() > 0,
        !is_white_space(s.last()),
    ensures
        trim_start(s).len() > 0,
        trim_start(s).last() == s.last(),
    decreases s.len(),
{
    if is_white_space(s[0]) {
        lemma_trim_start_keeps_last(s.drop_first());
    }
}

/// Trimming leaves either nothing or text that ends in a non-whitespace character.
pub proof fn lemma_trim_last(s: Seq<char>)
    ensures
        trim(s).len() > 0 ==> !is_white_space(trim(s).last()),
{
    lemma_trim_end_last(trim_start(s));
}

/// Text that ends in a non-whitespace character trims to something non-empty.
pub proof fn lemma_trim_nonempty(s: Seq<char>)
    requires
        s.len() > 0,
        !is_white_space(s.last()),
    ensures
        trim(s).len() > 0,
{
    lemma_trim_start_keeps_last(s);
}

/// Whether `l` holds no newline character.
pub open spec fn no_newline(l: Seq<char>) -> bool {
    forall|k: int| 0 <= k < l.len() ==> l[k] != '\n'
}

proof fn lemma_split_lf_single(l: Seq<char>)
    requires
        no_newline(l),
    ensures
        split_lf(l) == seq![l],
    decreases l.len(),
{
    if l.len() > 0 {
        lemma_split_lf_single(l.drop_last());
        assert(l.drop_last().push(l.last()) =~= l);
        assert(seq![l.drop_last()].update(0, l.drop_last().push(l.last())) =~= seq![l]);
    } else {
        assert(l =~= Seq::<char>::empty());
    }
}

proof fn lemma_split_lf_after_newline(x: Seq<char>, l: Seq<char>)
    requires
        no_newline(l),
    ensures
        split_lf(x.push('\n') + l) == split_lf(x).push(l),
    decreases l.len(),
{
    let s = x.push('\n') + l;
    if l.len() == 0 {
        assert(s =~= x.push('\n'));
        assert(s.drop_last() =~= x);
        assert(l =~= Seq::<char>::empty());
    } else {
        lemma_split_lf_after_newline(x, l.drop_last());
        assert(s.drop_last() =~= x.push('\n') + l.drop_last());
        let p = split_lf(x).push(l.drop_last());
        assert(l.drop_last().push(l.last()) =~= l);
        assert(s.last() == l.last());
        assert(p.update(p.len() - 1, p.last().push(s.last())) =~= split_lf(x).push(l));
    }
}

proof fn lemma_split_lf_unlines(ls: Seq<Seq<char>>, l: Seq<char>)
    requires
        no_newline(l),
        forall|k: int| 0 <= k < ls.len() ==> no_newline(#[trigger] ls[k]),
    ensures
        split_lf(unlines(ls) + l) == ls.push(l),
    decreases ls.len(),
{
    if ls.len() == 0 {
        assert(unlines(ls) + l =~= l);
        lemma_split_lf_single(l);
        assert(ls.push(l) =~= seq![l]);
    } else {
        let m = ls.last();
        assert(no_newline(ls[ls.len() - 1]));
        lemma_split_lf_unlines(ls.drop_last(), m);
        assert(unlines(ls) + l =~= (unlines(ls.drop_last()) + m).push('\n') + l);
        lemma_split_lf_after_newline(unlines(ls.drop_last()) + m, l);
        assert(ls.drop_last().push(m) =~= ls);
    }
}

/// Joining lines and splitting the result again gives the lines back, but
/// for a carriage return that ended one of them.
pub proof fn lemma_lines_unlines(ls: Seq<Seq<char>>)
    requires
        ls.len() > 0,
        forall|k: int| 0 <= k < ls.len() ==> no_newline(#[trigger] ls[k]),
    ensures
        lines(unlines(ls)) == ls.map_values(|l: Seq<char>| strip_cr(l)),
{
    let u = unlines(ls);
    assert(u == unlines(ls.drop_last()) + ls.last().push('\n'));
    assert(u.drop_last() =~= unlines(ls.drop_last()) + ls.last());
    assert(no_newline(ls[ls.len() - 1]));
    lemma_split_lf_unlines(ls.drop_last(), ls.last());
    assert(ls.drop_last().push(ls.last()) =~= ls);
}

/// The lines that `lines` gives hold no newline.
pub proof fn lemma_lines_no_newline(s: Seq<char>)
    ensures
        forall|k: int| 0 <= k < lines(s).len() ==> no_newline(#[trigger] lines(s)[k]),
{
    if s.len() > 0 {
        let p = if s.last() == '\n' {
            split_lf(s.drop_last())
        } else {
            split_lf(s)
        };
        lemma_split_lf_no_newline(s.drop_last());
        lemma_split_lf_no_newline(s);
        lemma_split_lf_len(s);
        assert forall|k: int| 0 <= k < lines(s).len() implies no_newline(#[trigger] lines(s)[k]) by {
            assert(no_newline(p[k]));
            if k < p.len() - 1 || s.last() == '\n' {
                assert(lines(s)[k] == strip_cr(p[k]));
                assert forall|m: int| 0 <= m < lines(s)[k].len() implies lines(s)[k][m] != '\n' by {
                    assert(lines(s)[k][m] == p[k][m]);
                }
            }
        }
    }
}

proof fn lemma_split_lf_no_newline(s: Seq<char>)
    ensures
        forall|k: int| 0 <= k < split_lf(s).len() ==> no_newline(#[trigger] split_lf(s)[k]),
    decreases s.len(),
{
    if s.len() > 0 {
        lemma_split_lf_no_newline(s.drop_last());
        lemma_split_lf_len(s.drop_last());
    }
}

/// Trimming at the end keeps every character up to the last non-whitespace one.
pub proof fn lemma_trim_end_keeps(s: Seq<char>, j: int)
    requires
        0 <= j < s.len(),
        !is_white_space(s[j]),
    ensures
        j < trim_end(s).len() <= s.len(),
        trim_end(s) == s.subrange(0, trim_end(s).len() as int),
    decreases s.len(),
{
    lemma_trim_end_last(s);
    if is_white_space(s.last()) {
        lemma_trim_end_keeps(s.drop_last(), j);
    }
}

/// The lowercase form of a text, as `str::to_lowercase` gives it.
pub uninterp spec fn lower_of(s: Seq<char>) -> Seq<char>;

/// Relies on `str::to_lowercase`: its result depends on the characters alone.
#[verifier::external_body]
pub(crate) fn lowercase(s: &str) -> (r: String)
    ensures
        r@ == lower_of(s@),
{
    s.to_lowercase()
}

/// The lowercase form of `v`, as characters.
pub(crate) fn lower_chars(v: &[char]) -> (r: Vec<char>)
    ensures
        r@ == lower_of(v@),
{
    let s = string_of(v);
    let l = lowercase(s.as_str());
    chars_of(l.as_str())
}

/// Whether `a` and `b` hold the same characters.
pub(crate) fn same_chars(a: &[char], b: &[char]) -> (r: bool)
    ensures
        r == (a@ == b@),
{
    if a.len() != b.len() {
        return false;
    }
    let r = starts_with(a, b);
    assert(a@.subrange(0, b@.len() as int) =~= a@);
    r
}

} // verus!
