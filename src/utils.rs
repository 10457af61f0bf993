//! Helpers shared by the commands: markdown classification, title
//! extraction and display truncation.
use vstd::prelude::*;

use crate::path::{extension, path_extension};
use crate::text::{
    chars_of, copy_range, has_prefix, lemma_trim_last, lemma_trim_nonempty, lines, lower_chars,
    lower_of, same_chars, split_lines, starts_with, string_of, trim, trimmed,
};

verus! {

/// The characters that open a level-1 heading.
pub open spec fn heading_mark() -> Seq<char> {
    seq!['#', ' ']
}

/// The heading text of `line`: present when the trimmed line starts with
/// `# `, and then the trimmed rest of it.
pub open spec fn heading_text(line: Seq<char>) -> Option<Seq<char>> {
    let t = trim(line);
    if has_prefix(t, heading_mark()) {
        Some(trim(t.subrange(2, t.len() as int)))
    } else {
        None
    }
}

/// The heading text of the first line of `ls` that has one.
pub open spec fn title_in(ls: Seq<Seq<char>>) -> Option<Seq<char>>
    decreases ls.len(),
{
    if ls.len() == 0 {
        None
    } else if heading_text(ls[0]) is Some {
        heading_text(ls[0])
    } else {
        title_in(ls.drop_first())
    }
}

/// The title of a markdown text: the heading text of its first heading line.
pub open spec fn title_of(content: Seq<char>) -> Option<Seq<char>> {
    title_in(lines(content))
}

/// The character sequence held by an optional string.
pub open spec fn opt_view(o: Option<String>) -> Option<Seq<char>> {
    match o {
        Some(s) => Some(s@),
        None => None,
    }
}

/// Heading text is never empty: a trimmed line that starts with `# ` goes on
/// past the space, to a non-whitespace character.
pub proof fn lemma_heading_text_nonempty(line: Seq<char>)
    ensures
        heading_text(line) matches Some(h) ==> h.len() > 0,
{
    let t = trim(line);
    if has_prefix(t, heading_mark()) {
        lemma_trim_last(line);
        assert(t[1] == ' ');
        assert(t.len() > 2);
        let u = t.subrange(2, t.len() as int);
        assert(u.last() == t.last());
        lemma_trim_nonempty(u);
    }
}

/// The title of `content`: the trimmed text after `# ` on the first line
/// whose trimmed form starts with `# `, or `None` when no line does.
pub fn extract_title_from_content(content: &str) -> (r: Option<String>)
    ensures
        opt_view(r) == title_of(content@),
        r matches Some(t) ==> t@.len() > 0,
{
    let v = chars_of(content);
    let ls = split_lines(&v);
    let ghost all = lines(content@);
    let mark: Vec<char> = vec!['#', ' '];
    assert(mark@ =~= heading_mark());
    assert(all.subrange(0, all.len() as int) =~= all);
    let mut i: usize = 0;
    while i < ls.len()
        invariant
            i <= ls@.len() == all.len(),
            forall|k: int| 0 <= k < ls@.len() ==> #[trigger] ls@[k]@ == all[k],
            mark@ == heading_mark(),
            title_of(content@) == title_in(all.subrange(i as int, all.len() as int)),
        decreases ls.len() - i,
    {
        let ghost rest = all.subrange(i as int, all.len() as int);
        assert(rest.drop_first() =~= all.subrange(i + 1, all.len() as int));
        assert(rest[0] == ls@[i as int]@);
        let t = trimmed(&ls[i]);
        if starts_with(&t, &mark) {
            let after = copy_range(&t, 2, t.len());
            let h = trimmed(&after);
            proof {
                lemma_heading_text_nonempty(rest[0]);
            }
            if h.len() > 0 {
                return Some(string_of(&h));
            }
        }
        i = i + 1;
    }
    None
}

/// The trimmed text, cut to `max_len` characters with `...` appended when longer.
pub open spec fn truncated(s: Seq<char>, max_len: nat) -> Seq<char> {
    let t = trim(s);
    if t.len() <= max_len {
        t
    } else {
        t.take(max_len as int) + seq!['.', '.', '.']
    }
}

/// `s` trimmed, and when it has more than `max_len` characters, its first
/// `max_len` characters followed by `...`.
pub fn truncate_display(s: &str, max_len: usize) -> (r: String)
    ensures
        r@ == truncated(s@, max_len as nat),
{
    let v = chars_of(s);
    let t = trimmed(&v);
    if t.len() <= max_len {
        string_of(&t)
    } else {
        let mut cut = copy_range(&t, 0, max_len);
        cut.push('.');
        cut.push('.');
        cut.push('.');
        assert(cut@ =~= t@.take(max_len as int) + seq!['.', '.', '.']);
        string_of(&cut)
    }
}

/// Whether a lowercased extension names markdown: `md` or `markdown`.
pub open spec fn markdown_extension(lowered: Seq<char>) -> bool {
    lowered == seq!['m', 'd'] || lowered == seq!['m', 'a', 'r', 'k', 'd', 'o', 'w', 'n']
}

/// Whether the path `p` names a markdown file: it has an extension whose
/// lowercase form is `md` or `markdown`.
pub open spec fn is_markdown_path(p: Seq<char>) -> bool {
    match extension(p) {
        Some(e) => markdown_extension(lower_of(e)),
        None => false,
    }
}

/// Whether the lowercased extension `lowered` is `md` or `markdown`.
pub fn is_markdown_extension(lowered: &str) -> (r: bool)
    ensures
        r == markdown_extension(lowered@),
{
    let v = chars_of(lowered);
    let md: Vec<char> = vec!['m', 'd'];
    let markdown: Vec<char> = vec!['m', 'a', 'r', 'k', 'd', 'o', 'w', 'n'];
    assert(md@ =~= seq!['m', 'd']);
    assert(markdown@ =~= seq!['m', 'a', 'r', 'k', 'd', 'o', 'w', 'n']);
    same_chars(&v, &md) || same_chars(&v, &markdown)
}

/// Whether `path` names a markdown file, by the extension of its file name,
/// in any case.
pub fn is_markdown_file(path: &str) -> (r: bool)
    ensures
        r == is_markdown_path(path@),
{
    let v = chars_of(path);
    match path_extension(&v) {
        None => false,
        Some(e) => {
            let lowered = string_of(&lower_chars(&e));
            is_markdown_extension(lowered.as_str())
        },
    }
}

/// Markdown classification looks at the extension only through its
/// lowercase form: two paths whose extensions lowercase alike are
/// classified alike, and a path without an extension is not markdown.
pub proof fn lemma_markdown_case_insensitive(p: Seq<char>, q: Seq<char>)
    requires
        extension(p) is Some,
        extension(q) is Some,
        lower_of(extension(p)->0) == lower_of(extension(q)->0),
    ensures
        is_markdown_path(p) == is_markdown_path(q),
{
}

/// A path without an extension is not markdown.
pub proof fn lemma_no_extension_not_markdown(p: Seq<char>)
    requires
        extension(p) is None,
    ensures
        !is_markdown_path(p),
{
}

} // verus!
