//! The library configuration: its file name and layout, the two-key config
//! text, and the search for the library root among a directory's ancestors.
use vstd::prelude::*;

use crate::path::{join, join_path, lemma_parent_shorter, parent, path_parent};
use crate::utils::opt_view;
use crate::text::{
    chars_of, copy_range, lines, same_chars, split_lines, string_of, trim, trimmed,
    views,
};

verus! {

/// The name of the file that marks a library root.
pub const CONFIG_FILE_NAME: &'static str = ".mdlibs.toml";

/// The directory of templates, under the library root.
pub const TEMPLATES_DIR: &'static str = "templates";

/// The directory of documents, under the library root.
pub const DOCS_DIR: &'static str = "docs";

/// What can go wrong in the library's operations.
#[derive(Debug)]
pub enum LibraryError {
    /// The named document, or the configuration, does not exist.
    NotFound(String),
}

/// A library's configuration.
#[derive(Debug, Clone)]
pub struct LibraryConfig {
    pub name: String,
    pub path: String,
    pub version: String,
}

/// `s` without the `"` characters at its start.
pub open spec fn trim_start_quotes(s: Seq<char>) -> Seq<char>
    decreases s.len(),
{
    if s.len() > 0 && s[0] == '"' {
        trim_start_quotes(s.drop_first())
    } else {
        s
    }
}

/// `s` without the `"` characters at its end.
pub open spec fn trim_end_quotes(s: Seq<char>) -> Seq<char>
    decreases s.len(),
{
    if s.len() > 0 && s.last() == '"' {
        trim_end_quotes(s.drop_last())
    } else {
        s
    }
}

/// The index of the first `=` in `s`, or -1.
pub open spec fn first_equals(s: Seq<char>) -> int
    decreases s.len(),
{
    if s.len() == 0 {
        -1
    } else if s[0] == '=' {
        0
    } else if first_equals(s.drop_first()) < 0 {
        -1
    } else {
        first_equals(s.drop_first()) + 1
    }
}

/// The value of a `key = "value"` line: what follows the first `=`, trimmed
/// of whitespace and then of `"` at both ends; none without an `=`.
pub open spec fn toml_value(line: Seq<char>) -> Option<Seq<char>> {
    let k = first_equals(line);
    if k < 0 {
        None
    } else {
        Some(trim_end_quotes(trim_start_quotes(trim(line.subrange(k + 1, line.len() as int)))))
    }
}

/// The key of a `key = "value"` line: what comes before the first `=`,
/// trimmed of whitespace; none without an `=`.
pub open spec fn line_key(line: Seq<char>) -> Option<Seq<char>> {
    let k = first_equals(line);
    if k < 0 {
        None
    } else {
        Some(trim(line.subrange(0, k)))
    }
}

/// The value given by the last of `ls` whose key is exactly `key`, or
/// `default` when none is; lines with another key, or none, are passed over.
pub open spec fn setting(ls: Seq<Seq<char>>, key: Seq<char>, default: Seq<char>) -> Seq<char>
    decreases ls.len(),
{
    if ls.len() == 0 {
        default
    } else if line_key(trim(ls.last())) == Some(key) {
        toml_value(trim(ls.last()))->0
    } else {
        setting(ls.drop_last(), key, default)
    }
}

/// The key of the library's name.
pub open spec fn name_key() -> Seq<char> {
    seq!['n', 'a', 'm', 'e']
}

/// The key of the library's version.
pub open spec fn version_key() -> Seq<char> {
    seq!['v', 'e', 'r', 's', 'i', 'o', 'n']
}

/// The `n`-th ancestor of `p`: `p` itself first, then each parent in turn.
pub open spec fn nth_ancestor(p: Seq<char>, n: nat) -> Option<Seq<char>>
    decreases n,
{
    if n == 0 {
        Some(p)
    } else {
        match nth_ancestor(p, (n - 1) as nat) {
            Some(q) => parent(q),
            None => None,
        }
    }
}

/// The first ancestor of `start`, from the `i`-th on, whose flag in `marks`
/// is set; an ancestor past the end of `marks` counts as unmarked.
pub open spec fn marked_root(start: Seq<char>, marks: Seq<bool>, i: nat) -> Option<Seq<char>>
    decreases marks.len() - i,
{
    if i >= marks.len() {
        None
    } else {
        match nth_ancestor(start, i) {
            None => None,
            Some(d) => if marks[i as int] {
                Some(d)
            } else {
                marked_root(start, marks, i + 1)
            },
        }
    }
}

/// An extension of the library: it has a name and a version, and can be set up.
pub trait Plugin {
    /// The plugin's name.
    fn name(&self) -> &str;

    /// The plugin's version.
    fn version(&self) -> &str;

    /// Sets the plugin up.
    fn init(&self) -> Result<(), LibraryError>;
}

/// With no ancestor marked, there is no library root.
pub proof fn lemma_no_marker_no_root(start: Seq<char>, marks: Seq<bool>, i: nat)
    requires
        forall|k: int| 0 <= k < marks.len() ==> !#[trigger] marks[k],
    ensures
        marked_root(start, marks, i) is None,
    decreases marks.len() - i,
{
    if i < marks.len() {
        lemma_no_marker_no_root(start, marks, i + 1);
    }
}

/// The header and layout of the config text for `name` and `version`.
pub open spec fn config_text(name: Seq<char>, version: Seq<char>) -> Seq<char> {
    "# mdlibs configuration file\n[library]\nname = \""@ + name + "\"\nversion = \""@ + version
        + "\"\n"@
}


proof fn lemma_first_equals(s: Seq<char>, k: int)
    requires
        0 <= k <= s.len(),
        forall|j: int| 0 <= j < k ==> #[trigger] s[j] != '=',
    ensures
        k < s.len() && s[k] == '=' ==> first_equals(s) == k,
        k == s.len() ==> first_equals(s) == -1,
    decreases k,
{
    if k > 0 {
        assert forall|j: int| 0 <= j < k - 1 implies #[trigger] s.drop_first()[j] != '=' by {
            assert(s.drop_first()[j] == s[j + 1]);
        }
        lemma_first_equals(s.drop_first(), k - 1);
    }
}

proof fn lemma_trim_start_quotes(s: Seq<char>, i: int)
    requires
        0 <= i <= s.len(),
        forall|k: int| 0 <= k < i ==> #[trigger] s[k] == '"',
        i < s.len() ==> s[i] != '"',
    ensures
        trim_start_quotes(s) == s.subrange(i, s.len() as int),
    decreases i,
{
    if i > 0 {
        assert(s.drop_first().subrange(i - 1, s.len() - 1) =~= s.subrange(i, s.len() as int));
        lemma_trim_start_quotes(s.drop_first(), i - 1);
    } else {
        assert(s.subrange(0, s.len() as int) =~= s);
    }
}

proof fn lemma_trim_end_quotes(s: Seq<char>, j: int)
    requires
        0 <= j <= s.len(),
        forall|k: int| j <= k < s.len() ==> #[trigger] s[k] == '"',
        j > 0 ==> s[j - 1] != '"',
    ensures
        trim_end_quotes(s) == s.subrange(0, j),
    decreases s.len() - j,
{
    if j < s.len() {
        assert(s.drop_last().subrange(0, j) =~= s.subrange(0, j));
        lemma_trim_end_quotes(s.drop_last(), j);
    } else {
        assert(s.subrange(0, j) =~= s);
    }
}

/// Where the first `=` of `v` stands, as `first_equals` gives it.
fn equals_index(v: &[char]) -> (r: Option<usize>)
    ensures
        match r {
            Some(k) => k < v@.len() && first_equals(v@) == k as int,
            None => first_equals(v@) == -1,
        },
{
    let n = v.len();
    let mut k: usize = 0;
    while k < n && v[k] != '='
        invariant
            k <= n == v@.len(),
            forall|j: int| 0 <= j < k ==> #[trigger] v@[j] != '=',
        decreases n - k,
    {
        k = k + 1;
    }
    proof {
        lemma_first_equals(v@, k as int);
    }
    if k == n {
        None
    } else {
        Some(k)
    }
}

/// The key of a `key = "value"` line, as `line_key` gives it.
pub(crate) fn toml_key_of(v: &[char]) -> (r: Option<Vec<char>>)
    ensures
        match r {
            Some(x) => line_key(v@) == Some(x@),
            None => line_key(v@) is None,
        },
{
    match equals_index(v) {
        None => None,
        Some(k) => {
            let before = copy_range(v, 0, k);
            Some(trimmed(&before))
        },
    }
}

/// The value of a `key = "value"` line, as `toml_value` gives it.
pub(crate) fn toml_value_of(v: &[char]) -> (r: Option<Vec<char>>)
    ensures
        match r {
            Some(x) => toml_value(v@) == Some(x@),
            None => toml_value(v@) is None,
        },
{
    let n = v.len();
    let k = match equals_index(v) {
        None => {
            return None;
        },
        Some(k) => k,
    };
    let rest = copy_range(v, k + 1, n);
    let t = trimmed(&rest);
    let m = t.len();
    let mut a: usize = 0;
    while a < m && t[a] == '"'
        invariant
            a <= m == t@.len(),
            forall|j: int| 0 <= j < a ==> #[trigger] t@[j] == '"',
        decreases m - a,
    {
        a = a + 1;
    }
    proof {
        lemma_trim_start_quotes(t@, a as int);
    }
    let ghost u = t@.subrange(a as int, m as int);
    let mut b: usize = m;
    while b > a && t[b - 1] == '"'
        invariant
            a <= b <= m == t@.len(),
            forall|j: int| b <= j < m ==> #[trigger] t@[j] == '"',
        decreases b,
    {
        b = b - 1;
    }
    proof {
        assert forall|j: int| b - a <= j < u.len() implies #[trigger] u[j] == '"' by {
            assert(u[j] == t@[j + a]);
        }
        if b > a {
            assert(u[b - a - 1] == t@[b - 1]);
        }
        lemma_trim_end_quotes(u, b - a);
        assert(u.subrange(0, b - a) =~= t@.subrange(a as int, b as int));
    }
    Some(copy_range(&t, a, b))
}

impl Default for LibraryConfig {
    /// Name `mdlibs`, path `.`, version `0.1.0`.
    fn default() -> (r: Self)
        ensures
            r.name@ == "mdlibs"@,
            r.path@ == "."@,
            r.version@ == "0.1.0"@,
    {
        LibraryConfig {
            name: String::from_str("mdlibs"),
            path: String::from_str("."),
            version: String::from_str("0.1.0"),
        }
    }
}

impl LibraryConfig {
    /// A configuration named `name` at `path`, with version `0.1.0`.
    pub fn new(name: &str, path: String) -> (r: Self)
        ensures
            r.name@ == name@,
            r.path@ == path@,
            r.version@ == "0.1.0"@,
    {
        LibraryConfig { name: String::from_str(name), path, version: String::from_str("0.1.0") }
    }

    /// The config file text: a comment, a `[library]` section, and the
    /// `name` and `version` keys with quoted values.
    pub fn to_toml(&self) -> (r: String)
        ensures
            r@ == config_text(self.name@, self.version@),
    {
        let mut r = String::from_str("# mdlibs configuration file\n[library]\nname = \"");
        r.append(self.name.as_str());
        r.append("\"\nversion = \"");
        r.append(self.version.as_str());
        r.append("\"\n");
        r
    }

    /// The value of a `key = "value"` line: what follows the first `=`,
    /// trimmed of whitespace and then of quotes; `None` without an `=`.
    pub fn extract_toml_value(line: &str) -> (r: Option<String>)
        ensures
            opt_view(r) == toml_value(line@),
    {
        let v = chars_of(line);
        match toml_value_of(&v) {
            Some(x) => Some(string_of(&x)),
            None => None,
        }
    }

    /// The configuration that `content` gives for the library at `path`: the
    /// last lines whose key is exactly `name` or `version` set those values,
    /// which default to `mdlibs` and `0.1.0`; other lines are passed over.
    pub fn parse_toml(content: &str, path: &str) -> (r: Self)
        ensures
            r.name@ == setting(lines(content@), name_key(), "mdlibs"@),
            r.version@ == setting(lines(content@), version_key(), "0.1.0"@),
            r.path@ == path@,
    {
        let v = chars_of(content);
        let ls = split_lines(&v);
        let ghost all = lines(content@);
        let name_k: Vec<char> = vec!['n', 'a', 'm', 'e'];
        let version_k: Vec<char> = vec!['v', 'e', 'r', 's', 'i', 'o', 'n'];
        assert(name_k@ =~= name_key());
        assert(version_k@ =~= version_key());
        let mut name = String::from_str("mdlibs");
        let mut version = String::from_str("0.1.0");
        let mut i: usize = 0;
        assert(all.take(0) =~= Seq::<Seq<char>>::empty());
        while i < ls.len()
            invariant
                i <= ls@.len() == all.len(),
                views(ls@) == all,
                name_k@ == name_key(),
                version_k@ == version_key(),
                name@ == setting(all.take(i as int), name_key(), "mdlibs"@),
                version@ == setting(all.take(i as int), version_key(), "0.1.0"@),
            decreases ls.len() - i,
        {
            proof {
                assert(all.take(i + 1).drop_last() =~= all.take(i as int));
                assert(all.take(i + 1).last() == ls@[i as int]@);
            }
            let t = trimmed(&ls[i]);
            if let Some(key) = toml_key_of(&t) {
                if same_chars(&key, &name_k) {
                    if let Some(x) = toml_value_of(&t) {
                        name = string_of(&x);
                    }
                } else if same_chars(&key, &version_k) {
                    if let Some(x) = toml_value_of(&t) {
                        version = string_of(&x);
                    }
                }
                proof {
                    if key@ == name_key() {
                        assert(key@ != version_key()) by {
                            assert(name_key()[0] != version_key()[0]);
                        }
                    }
                }
            }
            i = i + 1;
        }
        assert(all.take(i as int) =~= all);
        LibraryConfig { name, path: String::from_str(path), version }
    }

    /// The path of the config file in the directory `dir`.
    pub fn config_path(dir: &str) -> (r: String)
        ensures
            r@ == join(dir@, CONFIG_FILE_NAME@),
    {
        let d = chars_of(dir);
        let f = chars_of(CONFIG_FILE_NAME);
        string_of(&join_path(&d, &f))
    }

    /// `start` and its ancestors, each the parent of the one before, up to
    /// one that has no parent.
    pub fn ancestors(start: &str) -> (r: Vec<String>)
        ensures
            r@.len() >= 1,
            forall|i: int| 0 <= i < r@.len() ==> nth_ancestor(start@, i as nat) == Some(
                #[trigger] r@[i]@,
            ),
            nth_ancestor(start@, r@.len() as nat) is None,
    {
        let mut cur = chars_of(start);
        let mut r: Vec<String> = Vec::new();
        loop
            invariant
                nth_ancestor(start@, r@.len() as nat) == Some(cur@),
                forall|i: int| 0 <= i < r@.len() ==> nth_ancestor(start@, i as nat) == Some(
                    #[trigger] r@[i]@,
                ),
            decreases cur@.len(),
        {
            r.push(string_of(&cur));
            match path_parent(&cur) {
                None => {
                    return r;
                },
                Some(q) => {
                    proof {
                        lemma_parent_shorter(cur@);
                    }
                    cur = q;
                },
            }
        }
    }

    /// The library root for a search that starts at `start_path`: the first of
    /// its ancestors (itself first) whose flag in `has_marker` is set, the
    /// flags standing in the order of `ancestors`; `None` when none is.
    pub fn find_library_root(start_path: &str, has_marker: &Vec<bool>) -> (r: Option<String>)
        ensures
            opt_view(r) == marked_root(start_path@, has_marker@, 0),
    {
        let mut cur = chars_of(start_path);
        let mut i: usize = 0;
        while i < has_marker.len()
            invariant
                i <= has_marker@.len(),
                nth_ancestor(start_path@, i as nat) == Some(cur@),
                marked_root(start_path@, has_marker@, 0) == marked_root(
                    start_path@,
                    has_marker@,
                    i as nat,
                ),
            decreases has_marker.len() - i,
        {
            if has_marker[i] {
                return Some(string_of(&cur));
            }
            match path_parent(&cur) {
                None => {
                    assert(nth_ancestor(start_path@, (i + 1) as nat) is None);
                    assert(marked_root(start_path@, has_marker@, (i + 1) as nat) is None);
                    return None;
                },
                Some(q) => {
                    cur = q;
                },
            }
            i = i + 1;
        }
        None
    }
}

} // verus!
