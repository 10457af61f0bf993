//! Listing the documents of a library: their entries and the filter on them.
use vstd::prelude::*;

use crate::path::{relative_path, relative_to};
use crate::search::{display_title, document_title, fallback_title, stem_title};
use crate::text::{chars_of, contains, has_infix, lower_chars, lower_of, string_of};
use crate::utils::{is_markdown_file, is_markdown_path, opt_view};

verus! {

/// Where a document was found: among the documents or the templates.
#[derive(Debug, Clone, Copy, PartialEq, Eq, Structural)]
pub enum DocumentType {
    Document,
    Template,
}

/// The label of a document type.
pub open spec fn type_label(t: DocumentType) -> Seq<char> {
    match t {
        DocumentType::Document => "doc"@,
        DocumentType::Template => "template"@,
    }
}

impl DocumentType {
    /// `doc` or `template`.
    pub fn to_string(&self) -> (r: String)
        ensures
            r@ == type_label(*self),
    {
        match self {
            DocumentType::Document => String::from_str("doc"),
            DocumentType::Template => String::from_str("template"),
        }
    }
}

/// A markdown document of the library.
#[derive(Debug)]
pub struct DocumentEntry {
    pub path: String,
    pub title: String,
    pub doc_type: DocumentType,
}

/// A file met while walking the library: its path, the type of the part of
/// the library it lies in, and its text where it could be read.
#[derive(Debug)]
pub struct FoundFile {
    pub path: String,
    pub doc_type: DocumentType,
    pub content: Option<String>,
}

/// An entry as its path, title and type.
pub open spec fn entry_view(e: DocumentEntry) -> (Seq<char>, Seq<char>, DocumentType) {
    (e.path@, e.title@, e.doc_type)
}

/// The entry for the file at `path` under `root`: its path relative to the
/// root, its heading title where its text could be read and has one, else
/// the stem of its file name; none when the file does not lie under the root.
pub open spec fn entry_for(
    path: Seq<char>,
    root: Seq<char>,
    doc_type: DocumentType,
    content: Option<Seq<char>>,
) -> Option<(Seq<char>, Seq<char>, DocumentType)> {
    match relative_to(path, root) {
        None => None,
        Some(rel) => Some(
            (
                rel,
                match content {
                    Some(c) => display_title(path, c),
                    None => stem_title(path),
                },
                doc_type,
            ),
        ),
    }
}

/// The entries for the markdown files among `files`, in their order.
pub open spec fn collected(files: Seq<FoundFile>, root: Seq<char>) -> Seq<
    (Seq<char>, Seq<char>, DocumentType),
>
    decreases files.len(),
{
    if files.len() == 0 {
        Seq::empty()
    } else {
        let rest = collected(files.drop_last(), root);
        let f = files.last();
        if is_markdown_path(f.path@) {
            match entry_for(f.path@, root, f.doc_type, opt_view(f.content)) {
                Some(e) => rest.push(e),
                None => rest,
            }
        } else {
            rest
        }
    }
}

/// The entry for the file at `path` under `lib_root`, as `entry_for` gives it.
pub fn create_document_entry(
    path: &str,
    lib_root: &str,
    doc_type: DocumentType,
    content: Option<&str>,
) -> (r: Option<DocumentEntry>)
    ensures
        match r {
            Some(e) => entry_for(
                path@,
                lib_root@,
                doc_type,
                match content {
                    Some(c) => Some(c@),
                    None => None,
                },
            ) == Some(entry_view(e)),
            None => entry_for(
                path@,
                lib_root@,
                doc_type,
                match content {
                    Some(c) => Some(c@),
                    None => None,
                },
            ) is None,
        },
{
    let p = chars_of(path);
    let root = chars_of(lib_root);
    let rel = match relative_path(&p, &root) {
        Some(q) => q,
        None => {
            return None;
        },
    };
    let title = match content {
        Some(c) => document_title(path, c),
        None => fallback_title(path),
    };
    Some(DocumentEntry { path: string_of(&rel), title, doc_type })
}

/// The entries for the markdown files among `files`, in their order; see
/// `collected`.
pub fn collect_documents(lib_root: &str, files: &Vec<FoundFile>) -> (r: Vec<DocumentEntry>)
    ensures
        r@.map_values(|e: DocumentEntry| entry_view(e)) == collected(files@, lib_root@),
{
    let mut out: Vec<DocumentEntry> = Vec::new();
    let mut i: usize = 0;
    assert(files@.take(0) =~= Seq::<FoundFile>::empty());
    while i < files.len()
        invariant
            i <= files@.len(),
            out@.map_values(|e: DocumentEntry| entry_view(e)) == collected(
                files@.take(i as int),
                lib_root@,
            ),
        decreases files.len() - i,
    {
        proof {
            assert(files@.take(i + 1).drop_last() =~= files@.take(i as int));
        }
        let f = &files[i];
        if is_markdown_file(f.path.as_str()) {
            let content: Option<&str> = match &f.content {
                Some(c) => Some(c.as_str()),
                None => None,
            };
            let ghost before = out@;
            match create_document_entry(f.path.as_str(), lib_root, f.doc_type, content) {
                Some(e) => {
                    out.push(e);
                    assert(out@.map_values(|e: DocumentEntry| entry_view(e)) =~= before.map_values(
                        |e: DocumentEntry| entry_view(e),
                    ).push(entry_view(out@.last())));
                },
                None => {},
            }
        }
        i = i + 1;
    }
    assert(files@.take(i as int) =~= files@);
    out
}

/// Whether `doc` passes the filter `filter`: its title or its path holds it,
/// all three in lowercase.
pub open spec fn passes_filter(doc: DocumentEntry, filter: Seq<char>) -> bool {
    has_infix(lower_of(doc.title@), lower_of(filter)) || has_infix(
        lower_of(doc.path@),
        lower_of(filter),
    )
}

/// Whether the title or the path of `doc` holds `filter`, in any case.
pub fn matches_filter(doc: &DocumentEntry, filter: &str) -> (r: bool)
    ensures
        r == passes_filter(*doc, filter@),
{
    let f = chars_of(filter);
    let lf = lower_chars(&f);
    let t = chars_of(doc.title.as_str());
    let p = chars_of(doc.path.as_str());
    contains(&lower_chars(&t), &lf) || contains(&lower_chars(&p), &lf)
}

} // verus!
