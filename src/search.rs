//! Case-insensitive search over documents, by title or by line.
use vstd::prelude::*;

use crate::path::{file_stem, path_stem, relative_path, relative_to};
use crate::text::{
    chars_of, contains, copy_range, has_infix, lines, lower_chars, lower_of, lowercase,
    split_lines, string_of, trim, trimmed, views,
};
use crate::utils::{extract_title_from_content, title_of};

verus! {

/// A line of a document that matched a query.
#[derive(Debug)]
pub struct SearchMatch {
    pub line_number: usize,
    pub line_content: String,
}

/// A document that matched a query, with its matching lines.
#[derive(Debug)]
pub struct SearchResult {
    pub path: String,
    pub title: String,
    pub matches: Vec<SearchMatch>,
}

/// A match as a line number and the line.
pub open spec fn match_view(m: SearchMatch) -> (nat, Seq<char>) {
    (m.line_number as nat, m.line_content@)
}

/// A result as its path, title and matches.
pub open spec fn result_view(r: SearchResult) -> (Seq<char>, Seq<char>, Seq<(nat, Seq<char>)>) {
    (r.path@, r.title@, r.matches@.map_values(|m: SearchMatch| match_view(m)))
}

/// The title of a document at `path` that has no heading: the stem of its
/// file name, else `Untitled`.
pub open spec fn stem_title(path: Seq<char>) -> Seq<char> {
    match file_stem(path) {
        Some(s) => s,
        None => "Untitled"@,
    }
}

/// The title shown for the document at `path` with text `content`: its
/// heading title, else the stem of its file name, else `Untitled`.
pub open spec fn display_title(path: Seq<char>, content: Seq<char>) -> Seq<char> {
    match title_of(content) {
        Some(t) => t,
        None => stem_title(path),
    }
}

/// The path shown for `path`: relative to `root` where it lies under it,
/// else `path` itself.
pub open spec fn shown_path(path: Seq<char>, root: Seq<char>) -> Seq<char> {
    match relative_to(path, root) {
        Some(r) => r,
        None => path,
    }
}

/// The lines of `ls` whose lowercase form holds `query`, each with its
/// number counted from 1.
pub open spec fn matching_lines(ls: Seq<Seq<char>>, query: Seq<char>) -> Seq<(nat, Seq<char>)>
    decreases ls.len(),
{
    if ls.len() == 0 {
        Seq::empty()
    } else {
        let m = matching_lines(ls.drop_last(), query);
        if has_infix(lower_of(ls.last()), query) {
            m.push((ls.len(), ls.last()))
        } else {
            m
        }
    }
}

/// What searching one document for the lowercased `query` finds: by title,
/// the document with no lines when its lowercased title holds the query; by
/// line, the document with its matching lines when there is one.
pub open spec fn file_hit(
    path: Seq<char>,
    root: Seq<char>,
    query: Seq<char>,
    title_only: bool,
    content: Seq<char>,
) -> Option<(Seq<char>, Seq<char>, Seq<(nat, Seq<char>)>)> {
    let title = display_title(path, content);
    let shown = shown_path(path, root);
    if title_only {
        if has_infix(lower_of(title), query) {
            Some((shown, title, Seq::empty()))
        } else {
            None
        }
    } else {
        let ms = matching_lines(lines(content), query);
        if ms.len() > 0 {
            Some((shown, title, ms))
        } else {
            None
        }
    }
}

/// The results of searching `files`, pairs of path and text, in their order.
pub open spec fn search_hits(
    files: Seq<(String, String)>,
    root: Seq<char>,
    query: Seq<char>,
    title_only: bool,
) -> Seq<(Seq<char>, Seq<char>, Seq<(nat, Seq<char>)>)>
    decreases files.len(),
{
    if files.len() == 0 {
        Seq::empty()
    } else {
        let rest = search_hits(files.drop_last(), root, query, title_only);
        match file_hit(files.last().0@, root, query, title_only, files.last().1@) {
            Some(h) => rest.push(h),
            None => rest,
        }
    }
}

/// The title shown for a document, as `display_title` gives it.
pub fn document_title(path: &str, content: &str) -> (r: String)
    ensures
        r@ == display_title(path@, content@),
{
    match extract_title_from_content(content) {
        Some(t) => t,
        None => fallback_title(path),
    }
}

/// The title of a document at `path` without a heading, as `stem_title` gives it.
pub fn fallback_title(path: &str) -> (r: String)
    ensures
        r@ == stem_title(path@),
{
    let p = chars_of(path);
    match path_stem(&p) {
        Some(s) => string_of(&s),
        None => String::from_str("Untitled"),
    }
}

/// The path shown for `path`, as `shown_path` gives it.
pub fn display_path(path: &str, lib_root: &str) -> (r: String)
    ensures
        r@ == shown_path(path@, lib_root@),
{
    let p = chars_of(path);
    let root = chars_of(lib_root);
    match relative_path(&p, &root) {
        Some(q) => string_of(&q),
        None => String::from_str(path),
    }
}

/// Searches the document at `path`, with text `content`, for `query`, which
/// is taken as already lowercased; see `file_hit`.
pub fn search_file(path: &str, lib_root: &str, query: &str, title_only: bool, content: &str) -> (r:
    Option<SearchResult>)
    ensures
        match r {
            Some(res) => file_hit(path@, lib_root@, query@, title_only, content@) == Some(
                result_view(res),
            ),
            None => file_hit(path@, lib_root@, query@, title_only, content@) is None,
        },
{
    let title = document_title(path, content);
    let shown = display_path(path, lib_root);
    let q = chars_of(query);
    if title_only {
        let lowered = lowercase(title.as_str());
        let lt = chars_of(lowered.as_str());
        if contains(&lt, &q) {
            let matches: Vec<SearchMatch> = Vec::new();
            let res = SearchResult { path: shown, title, matches };
            assert(result_view(res).2 =~= Seq::<(nat, Seq<char>)>::empty());
            return Some(res);
        }
        return None;
    }
    let v = chars_of(content);
    let ls = split_lines(&v);
    let ghost all = lines(content@);
    let mut matches: Vec<SearchMatch> = Vec::new();
    let mut i: usize = 0;
    assert(all.take(0) =~= Seq::<Seq<char>>::empty());
    while i < ls.len()
        invariant
            i <= ls@.len() == all.len(),
            views(ls@) == all,
            q@ == query@,
            matches@.map_values(|m: SearchMatch| match_view(m)) == matching_lines(
                all.take(i as int),
                query@,
            ),
        decreases ls.len() - i,
    {
        proof {
            assert(all.take(i + 1).drop_last() =~= all.take(i as int));
            assert(all.take(i + 1).last() == ls@[i as int]@);
        }
        let line = &ls[i];
        let lowered = lower_chars(line);
        if contains(&lowered, &q) {
            let ghost before = matches@;
            matches.push(SearchMatch { line_number: i + 1, line_content: string_of(line) });
            assert(matches@.map_values(|m: SearchMatch| match_view(m)) =~= before.map_values(
                |m: SearchMatch| match_view(m),
            ).push(((i + 1) as nat, ls@[i as int]@)));
        }
        i = i + 1;
    }
    assert(all.take(i as int) =~= all);
    if matches.len() > 0 {
        Some(SearchResult { path: shown, title, matches })
    } else {
        None
    }
}

/// Searches `files`, pairs of path and text, for `query` in any case, by
/// title or by line; the results follow the order of `files`.
pub fn search_documents(lib_root: &str, query: &str, title_only: bool, files: &Vec<(String, String)>) -> (r:
    Vec<SearchResult>)
    ensures
        r@.map_values(|x: SearchResult| result_view(x)) == search_hits(
            files@,
            lib_root@,
            lower_of(query@),
            title_only,
        ),
{
    let lowered = lowercase(query);
    let mut results: Vec<SearchResult> = Vec::new();
    let mut i: usize = 0;
    assert(files@.take(0) =~= Seq::<(String, String)>::empty());
    while i < files.len()
        invariant
            i <= files@.len(),
            lowered@ == lower_of(query@),
            results@.map_values(|x: SearchResult| result_view(x)) == search_hits(
                files@.take(i as int),
                lib_root@,
                lower_of(query@),
                title_only,
            ),
        decreases files.len() - i,
    {
        proof {
            assert(files@.take(i + 1).drop_last() =~= files@.take(i as int));
        }
        let file = &files[i];
        let ghost before = results@;
        match search_file(file.0.as_str(), lib_root, lowered.as_str(), title_only, file.1.as_str()) {
            Some(res) => {
                results.push(res);
                assert(results@.map_values(|x: SearchResult| result_view(x)) =~= before.map_values(
                    |x: SearchResult| result_view(x),
                ).push(result_view(results@.last())));
            },
            None => {},
        }
        i = i + 1;
    }
    assert(files@.take(i as int) =~= files@);
    results
}

/// A search in which no document matches finds nothing.
pub proof fn lemma_no_match_no_results(
    files: Seq<(String, String)>,
    root: Seq<char>,
    query: Seq<char>,
    title_only: bool,
)
    requires
        forall|i: int|
            0 <= i < files.len() ==> file_hit(
                (#[trigger] files[i]).0@,
                root,
                query,
                title_only,
                files[i].1@,
            ) is None,
    ensures
        search_hits(files, root, query, title_only).len() == 0,
    decreases files.len(),
{
    if files.len() > 0 {
        assert forall|i: int| 0 <= i < files.drop_last().len() implies file_hit(
            (#[trigger] files.drop_last()[i]).0@,
            root,
            query,
            title_only,
            files.drop_last()[i].1@,
        ) is None by {
            assert(files.drop_last()[i] == files[i]);
        }
        lemma_no_match_no_results(files.drop_last(), root, query, title_only);
        assert(file_hit(files.last().0@, root, query, title_only, files.last().1@) is None);
    }
}

/// Search ignores case: a line matches every query with the same lowercase
/// form, and so does a title.
pub proof fn lemma_search_ignores_case(
    files: Seq<(String, String)>,
    root: Seq<char>,
    q1: Seq<char>,
    q2: Seq<char>,
    title_only: bool,
)
    requires
        lower_of(q1) == lower_of(q2),
    ensures
        search_hits(files, root, lower_of(q1), title_only) == search_hits(
            files,
            root,
            lower_of(q2),
            title_only,
        ),
{
}

/// The number of bytes that `c` takes in UTF-8.
pub open spec fn utf8_width(c: char) -> nat {
    if (c as u32) < 0x80 {
        1
    } else if (c as u32) < 0x800 {
        2
    } else if (c as u32) < 0x10000 {
        3
    } else {
        4
    }
}

/// The number of bytes that `s` takes in UTF-8.
pub open spec fn utf8_len(s: Seq<char>) -> nat
    decreases s.len(),
{
    if s.len() == 0 {
        0
    } else {
        utf8_len(s.drop_last()) + utf8_width(s.last())
    }
}

/// Whether a cut after `n` bytes of `s` falls between two characters.
pub open spec fn is_char_boundary(s: Seq<char>, n: nat) -> bool {
    exists|k: int| 0 <= k <= s.len() && #[trigger] utf8_len(s.take(k)) == n
}

/// The trimmed line, cut after `max_len` bytes with `...` appended when longer.
pub open spec fn truncated_line(line: Seq<char>, max_len: nat, k: int) -> Seq<char> {
    let t = trim(line);
    if utf8_len(t) <= max_len {
        t
    } else {
        t.take(k) + seq!['.', '.', '.']
    }
}

proof fn lemma_utf8_len_take(s: Seq<char>, k: int)
    requires
        0 <= k < s.len(),
    ensures
        utf8_len(s.take(k + 1)) == utf8_len(s.take(k)) + utf8_width(s[k]),
        utf8_len(s.take(k + 1)) > utf8_len(s.take(k)),
{
    assert(s.take(k + 1).drop_last() =~= s.take(k));
}

proof fn lemma_utf8_len_mono(s: Seq<char>, j: int, k: int)
    requires
        0 <= j <= k <= s.len(),
    ensures
        utf8_len(s.take(j)) <= utf8_len(s.take(k)),
        j < k ==> utf8_len(s.take(j)) < utf8_len(s.take(k)),
    decreases k - j,
{
    if j < k {
        lemma_utf8_len_mono(s, j, k - 1);
        lemma_utf8_len_take(s, k - 1);
    }
}

/// `line` trimmed, and when it takes more than `max_len` bytes, its first
/// `max_len` bytes followed by `...`; the cut must fall between characters.
pub fn truncate_line(line: &str, max_len: usize) -> (r: String)
    requires
        utf8_len(trim(line@)) <= max_len || is_char_boundary(trim(line@), max_len as nat),
    ensures
        utf8_len(trim(line@)) <= max_len ==> r@ == trim(line@),
        utf8_len(trim(line@)) > max_len ==> exists|k: int|
            0 <= k <= trim(line@).len() && utf8_len(trim(line@).take(k)) == max_len && r@
                == truncated_line(line@, max_len as nat, k),
{
    let v = chars_of(line);
    let t = trimmed(&v);
    let ghost ts = t@;
    let mut bytes: usize = 0;
    let mut k: usize = 0;
    let mut over = false;
    assert(ts.take(0) =~= Seq::<char>::empty());
    while k < t.len() && !over
        invariant
            k <= ts.len(),
            ts == t@,
            bytes == utf8_len(ts.take(k as int)),
            bytes <= max_len,
            over ==> k < ts.len() && utf8_len(ts.take(k + 1)) > max_len,
        decreases ts.len() - k + if over {
            0int
        } else {
            1int
        },
    {
        let c = t[k];
        let code = c as u32;
        let w: usize = if code < 0x80 {
            1
        } else if code < 0x800 {
            2
        } else if code < 0x10000 {
            3
        } else {
            4
        };
        proof {
            lemma_utf8_len_take(ts, k as int);
        }
        if w > max_len - bytes {
            over = true;
        } else {
            bytes = bytes + w;
            k = k + 1;
        }
    }
    if !over {
        assert(ts.take(k as int) =~= ts);
        return string_of(&t);
    }
    proof {
        lemma_utf8_len_mono(ts, k + 1, ts.len() as int);
        assert(ts.take(ts.len() as int) =~= ts);
        let j = choose|j: int| 0 <= j <= ts.len() && #[trigger] utf8_len(ts.take(j)) == max_len;
        if j <= k {
            lemma_utf8_len_mono(ts, j, k as int);
        } else {
            lemma_utf8_len_mono(ts, k + 1, j);
        }
        assert(bytes == max_len);
    }
    let mut cut = copy_range(&t, 0, k);
    cut.push('.');
    cut.push('.');
    cut.push('.');
    assert(cut@ =~= ts.take(k as int) + seq!['.', '.', '.']);
    let r = string_of(&cut);
    assert(utf8_len(ts) > max_len);
    assert(r@ == truncated_line(line@, max_len as nat, k as int));
    r
}

} // verus!
