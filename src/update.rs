//! Editing a document: rewriting or inserting its title, counting its words,
//! and locating it in the library.
use vstd::prelude::*;

use crate::config::{LibraryError, DOCS_DIR, TEMPLATES_DIR};
use crate::path::{join, join_path};
use crate::text::{
    chars_of, copy_range, count_word_runs, is_white_space, join_lines, lemma_lines_no_newline,
    lemma_lines_unlines, lemma_trim_end_keeps, lines, no_newline, same_chars, split_lines,
    starts_with, string_of, strip_cr, trim, trim_end, trim_start, trimmed, unlines, views,
    word_count,
};
use crate::utils::{extract_title_from_content, heading_mark, heading_text, title_of};

verus! {

/// The index of the first line of `ls` that is a heading.
pub open spec fn first_heading(ls: Seq<Seq<char>>) -> Option<int>
    decreases ls.len(),
{
    if ls.len() == 0 {
        None
    } else if heading_text(ls[0]) is Some {
        Some(0)
    } else {
        match first_heading(ls.drop_first()) {
            Some(i) => Some(i + 1),
            None => None,
        }
    }
}

/// The heading line for `title`.
pub open spec fn title_line(title: Seq<char>) -> Seq<char> {
    heading_mark() + title
}

/// The lines `ls` with the first heading replaced by the heading line for
/// `title`, or, without a heading, with that line and an empty one in front.
pub open spec fn retitled_lines(ls: Seq<Seq<char>>, title: Seq<char>) -> Seq<Seq<char>> {
    match first_heading(ls) {
        Some(i) => ls.update(i, title_line(title)),
        None => seq![title_line(title), Seq::empty()] + ls,
    }
}

/// The text `content` with its title set to `title`, each line ended by a newline.
pub open spec fn retitled(content: Seq<char>, title: Seq<char>) -> Seq<char> {
    unlines(retitled_lines(lines(content), title))
}

/// `first_heading` finds the line `i` exactly when no line before it is a heading.
pub proof fn lemma_first_heading(ls: Seq<Seq<char>>, i: int)
    requires
        0 <= i <= ls.len(),
        forall|k: int| 0 <= k < i ==> heading_text(#[trigger] ls[k]) is None,
    ensures
        i < ls.len() && heading_text(ls[i]) is Some ==> first_heading(ls) == Some(i),
        i == ls.len() ==> first_heading(ls) is None,
    decreases i,
{
    if i > 0 {
        assert forall|k: int| 0 <= k < i - 1 implies heading_text(#[trigger] ls.drop_first()[k])
            is None by {
            assert(ls.drop_first()[k] == ls[k + 1]);
        }
        lemma_first_heading(ls.drop_first(), i - 1);
    }
}

/// What `first_heading` returns is a heading with no heading before it.
pub proof fn lemma_first_heading_found(ls: Seq<Seq<char>>)
    ensures
        first_heading(ls) matches Some(i) ==> {
            &&& 0 <= i < ls.len()
            &&& heading_text(ls[i]) is Some
            &&& forall|k: int| 0 <= k < i ==> heading_text(#[trigger] ls[k]) is None
        },
        first_heading(ls) is None ==> forall|k: int|
            0 <= k < ls.len() ==> heading_text(#[trigger] ls[k]) is None,
    decreases ls.len(),
{
    if ls.len() > 0 {
        lemma_first_heading_found(ls.drop_first());
        assert forall|k: int| 1 <= k < ls.len() implies #[trigger] ls[k] == ls.drop_first()[k
            - 1] by {}
    }
}

/// `content` with its first heading line replaced by `# ` and `new_title`,
/// or, when it has no heading, with `# ` and `new_title` and an empty line
/// put in front. Every line of the result ends with a newline.
pub fn update_document_title(content: &str, new_title: &str) -> (r: String)
    ensures
        r@ == retitled(content@, new_title@),
{
    let v = chars_of(content);
    let mut ls = split_lines(&v);
    let ghost all = lines(content@);
    let mark: Vec<char> = vec!['#', ' '];
    assert(mark@ =~= heading_mark());
    let mut heading = mark.clone();
    let title_chars = chars_of(new_title);
    let mut j: usize = 0;
    while j < title_chars.len()
        invariant
            j <= title_chars@.len(),
            heading@ == heading_mark() + title_chars@.take(j as int),
        decreases title_chars.len() - j,
    {
        heading.push(title_chars[j]);
        j = j + 1;
        assert(heading@ =~= heading_mark() + title_chars@.take(j as int));
    }
    assert(title_chars@.take(j as int) =~= new_title@);
    let mut i: usize = 0;
    let mut found = false;
    while i < ls.len() && !found
        invariant
            i <= ls@.len() == all.len(),
            views(ls@) == all,
            mark@ == heading_mark(),
            forall|k: int| 0 <= k < i ==> heading_text(#[trigger] all[k]) is None,
            found ==> i < ls@.len() && heading_text(all[i as int]) is Some,
        decreases ls.len() - i + if found {
            0int
        } else {
            1int
        },
    {
        assert(all[i as int] == ls@[i as int]@);
        let t = trimmed(&ls[i]);
        if starts_with(&t, &mark) {
            found = true;
        } else {
            i = i + 1;
        }
    }
    proof {
        lemma_first_heading(all, i as int);
    }
    if found {
        ls.remove(i);
        ls.insert(i, heading);
        assert(views(ls@) =~= all.update(i as int, title_line(new_title@)));
        assert(first_heading(all) == Some(i as int));
        assert(views(ls@) == retitled_lines(all, new_title@));
    } else {
        let mut front: Vec<Vec<char>> = Vec::new();
        front.push(heading);
        front.push(Vec::new());
        front.append(&mut ls);
        ls = front;
        assert(views(ls@) =~= seq![title_line(new_title@), Seq::empty()] + all);
        assert(first_heading(all) is None);
        assert(views(ls@) == retitled_lines(all, new_title@));
    }
    assert(views(ls@) == retitled_lines(all, new_title@));
    let out = join_lines(&ls);
    string_of(&out)
}

/// The number of whitespace-separated words in `content`.
pub fn count_words(content: &str) -> (r: usize)
    ensures
        r == word_count(content@),
{
    let v = chars_of(content);
    count_word_runs(&v)
}

/// The heading line for a title with a non-whitespace character and no
/// newline is a heading, also without a carriage return at its end.
proof fn lemma_title_line_heading(title: Seq<char>)
    requires
        exists|j: int| 0 <= j < title.len() && !is_white_space(#[trigger] title[j]),
        no_newline(title),
    ensures
        heading_text(title_line(title)) is Some,
        heading_text(strip_cr(title_line(title))) is Some,
        no_newline(title_line(title)),
{
    let j = choose|j: int| 0 <= j < title.len() && !is_white_space(#[trigger] title[j]);
    let h = title_line(title);
    assert(h[j + 2] == title[j]);
    assert(!is_white_space(h[0]));
    assert(trim_start(h) == h);
    lemma_trim_end_keeps(h, j + 2);
    assert(trim(h) == trim_end(h));
    assert(trim(h).subrange(0, 2) =~= h.subrange(0, 2));
    assert(h.subrange(0, 2) =~= heading_mark());
    let c = strip_cr(h);
    if c != h {
        assert(c[j + 2] == title[j]);
        assert(!is_white_space(c[0]));
        assert(trim_start(c) == c);
        lemma_trim_end_keeps(c, j + 2);
        assert(trim(c) == trim_end(c));
        assert(trim(c).subrange(0, 2) =~= c.subrange(0, 2));
        assert(c.subrange(0, 2) =~= heading_mark());
    }
}

/// Setting the same title twice gives the text that setting it once gives,
/// for a title with a non-whitespace character and no newline, when no line
/// of the text but the one retitled ends with a carriage return.
pub proof fn lemma_update_title_idempotent(content: Seq<char>, title: Seq<char>)
    requires
        exists|j: int| 0 <= j < title.len() && !is_white_space(#[trigger] title[j]),
        no_newline(title),
        forall|k: int|
            0 <= k < lines(content).len() && first_heading(lines(content)) != Some(k)
                ==> strip_cr(#[trigger] lines(content)[k]) == lines(content)[k],
    ensures
        retitled(retitled(content, title), title) == retitled(content, title),
{
    let ls = lines(content);
    let once = retitled_lines(ls, title);
    lemma_lines_no_newline(content);
    lemma_title_line_heading(title);
    lemma_first_heading_found(ls);
    assert forall|k: int| 0 <= k < once.len() implies no_newline(#[trigger] once[k]) by {
        match first_heading(ls) {
            Some(i) => {
                if k != i {
                    assert(once[k] == ls[k]);
                }
            },
            None => {
                if k >= 2 {
                    assert(once[k] == ls[k - 2]);
                }
            },
        }
    }
    lemma_lines_unlines(once);
    let again = once.map_values(|l: Seq<char>| strip_cr(l));
    assert(lines(retitled(content, title)) == again);
    match first_heading(ls) {
        Some(i) => {
            assert forall|k: int| 0 <= k < i implies heading_text(#[trigger] again[k]) is None by {
                assert(again[k] == strip_cr(ls[k]));
            }
            lemma_first_heading(again, i);
            assert(again.update(i, title_line(title)) =~= once);
        },
        None => {
            lemma_first_heading(again, 0);
            assert forall|k: int| 0 <= k < once.len() && k != 0 implies #[trigger] again[k]
                == once[k] by {
                if k >= 2 {
                    assert(once[k] == ls[k - 2]);
                } else {
                    assert(once[1] =~= Seq::<char>::empty());
                }
            }
            assert(again.update(0, title_line(title)) =~= once);
        },
    }
}

/// The `.md` suffix.
pub open spec fn md_suffix() -> Seq<char> {
    seq!['.', 'm', 'd']
}

/// Whether `s` ends with `.md`.
pub open spec fn ends_with_md(s: Seq<char>) -> bool {
    s.len() >= 3 && s.subrange(s.len() - 3, s.len() as int) == md_suffix()
}

/// `name` under the library root, under its documents directory and under
/// its templates directory, in that order.
pub open spec fn places(root: Seq<char>, name: Seq<char>) -> Seq<Seq<char>> {
    seq![join(root, name), join(join(root, DOCS_DIR@), name), join(join(root, TEMPLATES_DIR@), name)]
}

/// The paths tried for the document `document`, in order: its places, then,
/// when it does not end with `.md`, the places of it with `.md` appended.
pub open spec fn document_candidates(root: Seq<char>, document: Seq<char>) -> Seq<Seq<char>> {
    if ends_with_md(document) {
        places(root, document)
    } else {
        places(root, document) + places(root, document + md_suffix())
    }
}

/// The first of `candidates`, from the `i`-th on, whose flag in `exists` is
/// set; a candidate past the end of `exists` counts as missing.
pub open spec fn first_existing(candidates: Seq<Seq<char>>, exists: Seq<bool>, i: nat) -> Option<
    Seq<char>,
>
    decreases candidates.len() - i,
{
    if i >= candidates.len() || i >= exists.len() {
        None
    } else if exists[i as int] {
        Some(candidates[i as int])
    } else {
        first_existing(candidates, exists, i + 1)
    }
}

fn push_places(out: &mut Vec<String>, root: &Vec<char>, name: &Vec<char>)
    ensures
        final(out)@.map_values(|s: String| s@) == old(out)@.map_values(|s: String| s@) + places(
            root@,
            name@,
        ),
{
    let docs = chars_of(DOCS_DIR);
    let templates = chars_of(TEMPLATES_DIR);
    let ghost before = out@.map_values(|s: String| s@);
    out.push(string_of(&join_path(root, name)));
    out.push(string_of(&join_path(&join_path(root, &docs), name)));
    out.push(string_of(&join_path(&join_path(root, &templates), name)));
    assert(out@.map_values(|s: String| s@) =~= before + places(root@, name@));
}

/// The paths tried for `document` under `lib_root`, as `document_candidates`
/// gives them.
pub fn candidate_paths(lib_root: &str, document: &str) -> (r: Vec<String>)
    ensures
        r@.map_values(|s: String| s@) == document_candidates(lib_root@, document@),
{
    let root = chars_of(lib_root);
    let doc = chars_of(document);
    let mut out: Vec<String> = Vec::new();
    assert(out@.map_values(|s: String| s@) =~= Seq::<Seq<char>>::empty());
    push_places(&mut out, &root, &doc);
    let n = doc.len();
    let md: Vec<char> = vec!['.', 'm', 'd'];
    assert(md@ =~= md_suffix());
    let has_md = n >= 3 && same_chars(&copy_range(&doc, n - 3, n), &md);
    if !has_md {
        let mut with_ext = copy_range(&doc, 0, n);
        with_ext.push('.');
        with_ext.push('m');
        with_ext.push('d');
        assert(with_ext@ =~= doc@ + md_suffix());
        assert(doc@.subrange(0, n as int) =~= doc@);
        push_places(&mut out, &root, &with_ext);
    }
    out
}

/// The path of the document `document` under `lib_root`: the first of
/// `candidate_paths` whose flag in `exists`, in the same order, is set; a
/// `NotFound` error naming the document when none is.
pub fn find_document(lib_root: &str, document: &str, exists: &Vec<bool>) -> (r: Result<
    String,
    LibraryError,
>)
    ensures
        match r {
            Ok(p) => first_existing(document_candidates(lib_root@, document@), exists@, 0) == Some(
                p@,
            ),
            Err(LibraryError::NotFound(d)) => first_existing(
                document_candidates(lib_root@, document@),
                exists@,
                0,
            ) is None && d@ == document@,
        },
{
    let candidates = candidate_paths(lib_root, document);
    let ghost cands = document_candidates(lib_root@, document@);
    let mut i: usize = 0;
    while i < candidates.len() && i < exists.len()
        invariant
            candidates@.map_values(|s: String| s@) == cands,
            cands == document_candidates(lib_root@, document@),
            i <= candidates@.len(),
            first_existing(cands, exists@, 0) == first_existing(cands, exists@, i as nat),
        decreases candidates.len() - i,
    {
        if exists[i] {
            let found = String::from_str(candidates[i].as_str());
            assert(cands[i as int] == candidates@[i as int]@);
            assert(first_existing(cands, exists@, i as nat) == Some(cands[i as int]));
            return Ok(found);
        }
        i = i + 1;
    }
    Err(LibraryError::NotFound(String::from_str(document)))
}

/// What is shown of a document: its title, or `Untitled`, and its numbers
/// of lines and words.
#[derive(Debug)]
pub struct DocumentInfo {
    pub title: String,
    pub lines: usize,
    pub words: usize,
}

/// The title, line count and word count of the text `content`.
pub fn document_info(content: &str) -> (r: DocumentInfo)
    ensures
        r.title@ == match title_of(content@) {
            Some(t) => t,
            None => "Untitled"@,
        },
        r.lines == lines(content@).len(),
        r.words == word_count(content@),
{
    let title = match extract_title_from_content(content) {
        Some(t) => t,
        None => String::from_str("Untitled"),
    };
    let v = chars_of(content);
    let ls = split_lines(&v);
    assert(views(ls@).len() == ls@.len());
    DocumentInfo { title, lines: ls.len(), words: count_word_runs(&v) }
}

} // verus!
