//! Paths as `/`-separated character strings: file name, extension, stem,
//! parent, joining and relative paths. These follow `std::path` on Unix for
//! paths without `.` components or repeated `/` inside them; a relative path
//! is found by comparing characters, where `std::path` compares components.
use vstd::prelude::*;

use crate::text::{copy_range, has_prefix, prefix_at};

verus! {

/// The characters of `p` after its last `/`.
pub open spec fn last_segment(p: Seq<char>) -> Seq<char>
    decreases p.len(),
{
    if p.len() == 0 || p.last() == '/' {
        Seq::empty()
    } else {
        last_segment(p.drop_last()).push(p.last())
    }
}

/// The final component of `p`: trailing `/` and `.` components are passed
/// over, and a path that ends in `..` or has no component has none.
pub open spec fn file_name(p: Seq<char>) -> Option<Seq<char>>
    decreases p.len(),
{
    if p.len() == 0 {
        None
    } else if p.last() == '/' {
        file_name(p.drop_last())
    } else if last_segment(p) == seq!['.'] {
        file_name(p.drop_last())
    } else if last_segment(p) == seq!['.', '.'] {
        None
    } else {
        Some(last_segment(p))
    }
}

/// The index of the last `.` in `f`, or -1.
pub open spec fn last_dot(f: Seq<char>) -> int
    decreases f.len(),
{
    if f.len() == 0 {
        -1
    } else if f.last() == '.' {
        f.len() - 1
    } else {
        last_dot(f.drop_last())
    }
}

/// The extension of a file name: what follows its last `.`, unless it has no
/// `.` or its only `.` is the first character.
pub open spec fn name_extension(f: Seq<char>) -> Option<Seq<char>> {
    if last_dot(f) <= 0 {
        None
    } else {
        Some(f.subrange(last_dot(f) + 1, f.len() as int))
    }
}

/// The stem of a file name: what comes before the `.` of its extension, or
/// the whole name when it has no extension.
pub open spec fn name_stem(f: Seq<char>) -> Seq<char> {
    if last_dot(f) <= 0 {
        f
    } else {
        f.subrange(0, last_dot(f))
    }
}

/// The extension of the file name of `p`.
pub open spec fn extension(p: Seq<char>) -> Option<Seq<char>> {
    match file_name(p) {
        Some(f) => name_extension(f),
        None => None,
    }
}

/// The stem of the file name of `p`.
pub open spec fn file_stem(p: Seq<char>) -> Option<Seq<char>> {
    match file_name(p) {
        Some(f) => Some(name_stem(f)),
        None => None,
    }
}

/// `p` joined with `name`: an absolute `name` replaces `p`, and a `/` is put
/// between them unless `p` is empty or already ends with one.
pub open spec fn join(p: Seq<char>, name: Seq<char>) -> Seq<char> {
    if name.len() > 0 && name[0] == '/' {
        name
    } else if p.len() == 0 || p.last() == '/' {
        p + name
    } else {
        p + seq!['/'] + name
    }
}

/// `p` without the `/` characters at its end, but for a leading one.
pub open spec fn trim_trailing_slashes(p: Seq<char>) -> Seq<char>
    decreases p.len(),
{
    if p.len() > 1 && p.last() == '/' {
        trim_trailing_slashes(p.drop_last())
    } else {
        p
    }
}

/// `p` without the `/` characters at its start.
pub open spec fn trim_leading_slashes(p: Seq<char>) -> Seq<char>
    decreases p.len(),
{
    if p.len() > 0 && p[0] == '/' {
        trim_leading_slashes(p.drop_first())
    } else {
        p
    }
}

/// `p` without its final component; none for the empty path and the root.
pub open spec fn parent(p: Seq<char>) -> Option<Seq<char>>
    decreases p.len(),
{
    if p.len() == 0 || p == seq!['/'] {
        None
    } else if p.last() == '/' {
        parent(p.drop_last())
    } else if p.len() > 1 && last_segment(p) == seq!['.'] {
        parent(p.drop_last())
    } else {
        let k = p.len() - last_segment(p).len();
        if k == 0 {
            Some(Seq::empty())
        } else {
            Some(trim_trailing_slashes(p.take(k)))
        }
    }
}

/// `p` relative to `root`: present when `root` is a leading run of whole
/// components of `p`, and then the rest of `p` without leading `/`; an empty
/// root leaves `p` as it is. The comparison goes by characters, so `.`
/// components and repeated `/` inside the paths are not set aside, as
/// `std::path` would set them aside.
pub open spec fn relative_to(p: Seq<char>, root: Seq<char>) -> Option<Seq<char>> {
    if root.len() == 0 {
        Some(p)
    } else if has_prefix(p, root) {
        let rest = p.subrange(root.len() as int, p.len() as int);
        if root.last() == '/' || rest.len() == 0 || rest[0] == '/' {
            Some(trim_leading_slashes(rest))
        } else {
            None
        }
    } else {
        None
    }
}

/// The last segment of `s` runs back over its trailing characters other than `/`.
pub proof fn lemma_last_segment_split(s: Seq<char>, j: int)
    requires
        0 <= j <= s.len(),
        forall|k: int| j <= k < s.len() ==> #[trigger] s[k] != '/',
    ensures
        last_segment(s) == last_segment(s.take(j)) + s.subrange(j, s.len() as int),
    decreases s.len() - j,
{
    if j < s.len() {
        lemma_last_segment_split(s.drop_last(), j);
        assert(s.drop_last().take(j) =~= s.take(j));
        assert(s.subrange(j, s.len() - 1).push(s.last()) =~= s.subrange(j, s.len() as int));
        assert(s.drop_last().subrange(j, s.len() - 1) =~= s.subrange(j, s.len() - 1));
    } else {
        assert(s.take(j) =~= s);
    }
}

/// Where the last segment of `v[..end]` starts.
fn segment_start(v: &[char], end: usize) -> (start: usize)
    requires
        end <= v@.len(),
    ensures
        start <= end,
        last_segment(v@.take(end as int)) == v@.subrange(start as int, end as int),
        forall|k: int| start <= k < end ==> #[trigger] v@[k] != '/',
        start > 0 ==> v@[start - 1] == '/',
{
    let mut start: usize = end;
    while start > 0 && v[start - 1] != '/'
        invariant
            start <= end <= v@.len(),
            forall|k: int| start <= k < end ==> #[trigger] v@[k] != '/',
        decreases start,
    {
        start = start - 1;
    }
    proof {
        let s = v@.take(end as int);
        assert forall|k: int| start <= k < s.len() implies #[trigger] s[k] != '/' by {
            assert(s[k] == v@[k]);
        }
        lemma_last_segment_split(s, start as int);
        assert(s.take(start as int) =~= v@.take(start as int));
        assert(s.subrange(start as int, s.len() as int) =~= v@.subrange(start as int, end as int));
        if start > 0 {
            assert(v@.take(start as int).last() == '/');
        }
        assert(last_segment(v@.take(start as int)) =~= Seq::<char>::empty());
    }
    start
}

/// Where the file name of `v` lies, as `file_name` gives it.
pub(crate) fn file_name_bounds(v: &[char]) -> (r: Option<(usize, usize)>)
    ensures
        match r {
            Some((a, b)) => a <= b <= v@.len() && file_name(v@) == Some(
                v@.subrange(a as int, b as int),
            ),
            None => file_name(v@) is None,
        },
{
    let mut end: usize = v.len();
    assert(v@.take(end as int) =~= v@);
    loop
        invariant
            end <= v@.len(),
            file_name(v@) == file_name(v@.take(end as int)),
        decreases end,
    {
        if end == 0 {
            return None;
        }
        assert(v@.take(end as int).drop_last() =~= v@.take(end - 1));
        assert(v@.take(end as int).last() == v@[end - 1]);
        if v[end - 1] == '/' {
            end = end - 1;
            continue;
        }
        let start = segment_start(v, end);
        let ghost seg = v@.subrange(start as int, end as int);
        if end - start == 1 && v[start] == '.' {
            assert(seg =~= seq!['.']);
            end = end - 1;
            continue;
        }
        if end - start == 2 && v[start] == '.' && v[start + 1] == '.' {
            assert(seg =~= seq!['.', '.']);
            return None;
        }
        proof {
            if seg == seq!['.'] {
                assert(seg[0] == v@[start as int]);
            }
            if seg == seq!['.', '.'] {
                assert(seg[0] == v@[start as int]);
                assert(seg[1] == v@[start + 1]);
            }
            let s = v@.take(end as int);
            assert(s.len() > 0 && s.last() != '/');
            assert(last_segment(s) == seg);
            assert(seg != seq!['.']) by {
                if seg == seq!['.'] {
                    assert(seg.len() == 1);
                    assert(seg[0] == '.');
                    assert(v@[start as int] == '.');
                }
            }
            assert(seg != seq!['.', '.']) by {
                if seg == seq!['.', '.'] {
                    assert(seg.len() == 2);
                    assert(seg[0] == '.' && seg[1] == '.');
                    assert(v@[start as int] == '.' && v@[start + 1] == '.');
                }
            }
            assert(file_name(s) == Some(seg));
        }
        return Some((start, end));
    }
}

proof fn lemma_last_dot(f: Seq<char>, j: int)
    requires
        0 <= j <= f.len(),
        forall|k: int| j <= k < f.len() ==> #[trigger] f[k] != '.',
    ensures
        last_dot(f) == last_dot(f.take(j)),
    decreases f.len() - j,
{
    if j < f.len() {
        lemma_last_dot(f.drop_last(), j);
        assert(f.drop_last().take(j) =~= f.take(j));
    } else {
        assert(f.take(j) =~= f);
    }
}

proof fn lemma_last_dot_range(f: Seq<char>)
    ensures
        -1 <= last_dot(f) < f.len(),
    decreases f.len(),
{
    if f.len() > 0 {
        lemma_last_dot_range(f.drop_last());
    }
}

/// The index of the last `.` in `v[a..b]`, counted from `a`.
fn last_dot_in(v: &[char], a: usize, b: usize) -> (r: Option<usize>)
    requires
        a <= b <= v@.len(),
    ensures
        match r {
            Some(k) => last_dot(v@.subrange(a as int, b as int)) == k as int,
            None => last_dot(v@.subrange(a as int, b as int)) == -1,
        },
{
    let ghost f = v@.subrange(a as int, b as int);
    let mut k: usize = b - a;
    while k > 0 && v[a + k - 1] != '.'
        invariant
            k <= b - a,
            a <= b <= v@.len(),
            f == v@.subrange(a as int, b as int),
            forall|m: int| k <= m < f.len() ==> #[trigger] f[m] != '.',
        decreases k,
    {
        k = k - 1;
    }
    proof {
        lemma_last_dot(f, k as int);
    }
    if k == 0 {
        assert(f.take(0) =~= Seq::<char>::empty());
        None
    } else {
        assert(f.take(k as int).last() == f[k - 1]);
        Some(k - 1)
    }
}

/// The extension of `p`, as `extension` gives it.
pub fn path_extension(p: &[char]) -> (r: Option<Vec<char>>)
    ensures
        match r {
            Some(e) => extension(p@) == Some(e@),
            None => extension(p@) is None,
        },
{
    match file_name_bounds(p) {
        None => None,
        Some((a, b)) => {
            match last_dot_in(p, a, b) {
                Some(k) if k > 0 => {
                    let ghost f = p@.subrange(a as int, b as int);
                    proof {
                        lemma_last_dot_range(f);
                    }
                    let e = copy_range(p, a + k + 1, b);
                    assert(e@ =~= f.subrange(k + 1, f.len() as int));
                    Some(e)
                },
                _ => None,
            }
        },
    }
}

/// The file stem of `p`, as `file_stem` gives it.
pub fn path_stem(p: &[char]) -> (r: Option<Vec<char>>)
    ensures
        match r {
            Some(e) => file_stem(p@) == Some(e@),
            None => file_stem(p@) is None,
        },
{
    match file_name_bounds(p) {
        None => None,
        Some((a, b)) => {
            let ghost f = p@.subrange(a as int, b as int);
            match last_dot_in(p, a, b) {
                Some(k) if k > 0 => {
                    proof {
                        lemma_last_dot_range(f);
                    }
                    let e = copy_range(p, a, a + k);
                    assert(e@ =~= f.subrange(0, k as int));
                    Some(e)
                },
                _ => Some(copy_range(p, a, b)),
            }
        },
    }
}

/// `p` joined with `name`, as `join` gives it.
pub fn join_path(p: &[char], name: &[char]) -> (r: Vec<char>)
    ensures
        r@ == join(p@, name@),
{
    let mut r: Vec<char>;
    if name.len() > 0 && name[0] == '/' {
        r = copy_range(name, 0, name.len());
        assert(r@ =~= name@);
        return r;
    }
    r = copy_range(p, 0, p.len());
    assert(r@ =~= p@);
    if p.len() > 0 && p[p.len() - 1] != '/' {
        r.push('/');
    }
    let ghost base = r@;
    let mut i: usize = 0;
    while i < name.len()
        invariant
            i <= name@.len(),
            r@ == base + name@.take(i as int),
        decreases name.len() - i,
    {
        r.push(name[i]);
        i = i + 1;
        assert(r@ =~= base + name@.take(i as int));
    }
    assert(name@.take(i as int) =~= name@);
    r
}

/// Trimming trailing slashes does not lengthen a path.
pub proof fn lemma_trim_trailing_len(s: Seq<char>)
    ensures
        trim_trailing_slashes(s).len() <= s.len(),
    decreases s.len(),
{
    if s.len() > 1 && s.last() == '/' {
        lemma_trim_trailing_len(s.drop_last());
    }
}

proof fn lemma_last_segment_len(s: Seq<char>)
    ensures
        last_segment(s).len() <= s.len(),
    decreases s.len(),
{
    if s.len() > 0 && s.last() != '/' {
        lemma_last_segment_len(s.drop_last());
    }
}

/// A parent is shorter than its path.
pub proof fn lemma_parent_shorter(p: Seq<char>)
    ensures
        parent(p) matches Some(q) ==> q.len() < p.len(),
    decreases p.len(),
{
    if p.len() == 0 || p == seq!['/'] {
    } else if p.last() == '/' {
        lemma_parent_shorter(p.drop_last());
    } else if p.len() > 1 && last_segment(p) == seq!['.'] {
        lemma_parent_shorter(p.drop_last());
    } else {
        lemma_last_segment_len(p);
        let k = p.len() - last_segment(p).len();
        if k > 0 {
            lemma_trim_trailing_len(p.take(k));
            assert(last_segment(p).len() > 0);
        }
    }
}

/// The parent of `p`, as `parent` gives it.
pub fn path_parent(p: &[char]) -> (r: Option<Vec<char>>)
    ensures
        match r {
            Some(q) => parent(p@) == Some(q@),
            None => parent(p@) is None,
        },
{
    let mut end: usize = p.len();
    assert(p@.take(end as int) =~= p@);
    loop
        invariant
            end <= p@.len(),
            parent(p@) == parent(p@.take(end as int)),
        decreases end,
    {
        let ghost s = p@.take(end as int);
        if end == 0 {
            return None;
        }
        if end == 1 && p[0] == '/' {
            assert(s =~= seq!['/']);
            return None;
        }
        assert(s != seq!['/']) by {
            if s == seq!['/'] {
                assert(s[0] == p@[0]);
            }
        }
        assert(s.drop_last() =~= p@.take(end - 1));
        if p[end - 1] == '/' {
            end = end - 1;
            continue;
        }
        let start = segment_start(p, end);
        if end > 1 && end - start == 1 && p[start] == '.' {
            assert(p@.subrange(start as int, end as int) =~= seq!['.']);
            end = end - 1;
            continue;
        }
        proof {
            if end > 1 && last_segment(s) == seq!['.'] {
                assert(last_segment(s)[0] == p@[start as int]);
            }
            assert(s.len() - last_segment(s).len() == start);
        }
        if start == 0 {
            return Some(Vec::new());
        }
        let mut e: usize = start;
        assert(s.take(start as int) =~= p@.take(start as int));
        while e > 1 && p[e - 1] == '/'
            invariant
                1 <= e <= start <= end <= p@.len(),
                s == p@.take(end as int),
                trim_trailing_slashes(s.take(start as int)) == trim_trailing_slashes(p@.take(e as int)),
            decreases e,
        {
            proof {
                assert(p@.take(e as int).drop_last() =~= p@.take(e - 1));
            }
            e = e - 1;
        }
        proof {
            assert(s.take(start as int) =~= p@.take(start as int));
            if e > 1 {
                assert(p@.take(e as int).last() == p@[e - 1]);
            }
        }
        let q = copy_range(p, 0, e);
        assert(q@ =~= p@.take(e as int));
        return Some(q);
    }
}

proof fn lemma_trim_leading(s: Seq<char>, j: int)
    requires
        0 <= j <= s.len(),
        forall|k: int| 0 <= k < j ==> #[trigger] s[k] == '/',
    ensures
        trim_leading_slashes(s) == trim_leading_slashes(s.subrange(j, s.len() as int)),
    decreases j,
{
    if j > 0 {
        assert(s.drop_first().subrange(j - 1, s.len() - 1) =~= s.subrange(j, s.len() as int));
        lemma_trim_leading(s.drop_first(), j - 1);
    } else {
        assert(s.subrange(0, s.len() as int) =~= s);
    }
}

/// `p` relative to `root`, as `relative_to` gives it.
pub fn relative_path(p: &[char], root: &[char]) -> (r: Option<Vec<char>>)
    ensures
        match r {
            Some(q) => relative_to(p@, root@) == Some(q@),
            None => relative_to(p@, root@) is None,
        },
{
    let n = p.len();
    let m = root.len();
    if m == 0 {
        let whole = copy_range(p, 0, n);
        assert(whole@ =~= p@);
        return Some(whole);
    }
    if !prefix_at(p, 0, root) {
        assert(p@.subrange(0, n as int) =~= p@);
        return None;
    }
    assert(p@.subrange(0, n as int) =~= p@);
    let ghost rest = p@.subrange(m as int, n as int);
    assert(has_prefix(p@, root@));
    let whole = root[m - 1] == '/' || m == n || p[m] == '/';
    proof {
        if m < n {
            assert(rest[0] == p@[m as int]);
        }
        assert(whole == (root@.last() == '/' || rest.len() == 0 || rest[0] == '/'));
    }
    if !whole {
        return None;
    }
    assert(relative_to(p@, root@) == Some(trim_leading_slashes(rest)));
    let mut a: usize = m;
    while a < n && p[a] == '/'
        invariant
            0 < m <= a <= n == p@.len(),
            rest == p@.subrange(m as int, n as int),
            forall|k: int| m <= k < a ==> #[trigger] p@[k] == '/',
        decreases n - a,
    {
        a = a + 1;
    }
    proof {
        assert forall|k: int| 0 <= k < a - m implies #[trigger] rest[k] == '/' by {
            assert(rest[k] == p@[m + k]);
        }
        lemma_trim_leading(rest, a - m);
        assert(rest.subrange(a - m, rest.len() as int) =~= p@.subrange(a as int, n as int));
        if a < n {
            assert(p@.subrange(a as int, n as int)[0] == p@[a as int]);
        }
        assert(trim_leading_slashes(rest) == p@.subrange(a as int, n as int));
    }
    Some(copy_range(p, a, n))
}

} // verus!
