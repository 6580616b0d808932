//! Taking code from GitHub repositories: which licences and files are used,
//! and how a structure found in a file is recorded as a snippet.
use sha2::Digest;
use vstd::prelude::*;

use crate::content::{spec_code_extensions, CodeLanguage, Snippet};
use crate::text::{
    append_decimal, chars_of, lowercase, push_char, spec_decimal, spec_lowercase, string_of,
    text_eq,
};

verus! {

broadcast use vstd::string::group_string_axioms;

/// The licences (lower-case SPDX identifiers) whose code may be practised on.
pub open spec fn spec_allowed_license(id: Seq<char>) -> bool {
    ||| id == "mit"@
    ||| id == "apache-2.0"@
    ||| id == "bsd-2-clause"@
    ||| id == "bsd-3-clause"@
    ||| id == "isc"@
}

/// Whether a repository's licence, given by its SPDX identifier in any case, allows its use.
pub fn license_allowed(spdx_id: &str) -> (r: bool)
    ensures
        r == spec_allowed_license(spec_lowercase(spdx_id@)),
{
    let lower = lowercase(spdx_id);
    let id = lower.as_str();
    text_eq(id, "mit") || text_eq(id, "apache-2.0") || text_eq(id, "bsd-2-clause")
        || text_eq(id, "bsd-3-clause") || text_eq(id, "isc")
}

/// `pattern` occurs somewhere in `s`.
pub open spec fn contains_text(s: Seq<char>, pattern: Seq<char>) -> bool {
    exists|i: int| 0 <= i && i + pattern.len() <= s.len() && #[trigger] s.subrange(i, i + pattern.len()) == pattern
}

pub(crate) fn contains(s: &Vec<char>, pattern: &str) -> (r: bool)
    ensures
        r == contains_text(s@, pattern@),
{
    let p = chars_of(pattern);
    let n = s.len();
    let m = p.len();
    if m > n {
        return false;
    }
    let mut i: usize = 0;
    while i <= n - m
        invariant
            p@ == pattern@,
            n == s@.len(),
            m == p@.len(),
            m <= n,
            i <= n - m + 1,
            forall|j: int| 0 <= j < i ==> #[trigger] s@.subrange(j, j + m) != p@,
        decreases n - m + 1 - i,
    {
        let mut k: usize = 0;
        while k < m && s[i + k] == p[k]
            invariant
                n == s@.len(),
                m == p@.len(),
                i + m <= n,
                k <= m,
                forall|q: int| 0 <= q < k ==> s@[i + q] == p@[q],
            decreases m - k,
        {
            k += 1;
        }
        if k == m {
            assert(s@.subrange(i as int, i + m) =~= p@);
            return true;
        }
        assert(s@.subrange(i as int, i + m)[k as int] != p@[k as int]);
        i += 1;
    }
    proof {
        assert forall|j: int| 0 <= j && j + pattern@.len() <= s@.len() implies #[trigger] s@.subrange(j, j + pattern@.len()) != pattern@ by {
            assert(s@.subrange(j, j + m) != p@);
        }
    }
    false
}

/// Index of the last `c` in `s`, or -1.
pub open spec fn last_index_of(s: Seq<char>, c: char) -> int
    decreases s.len(),
{
    if s.len() == 0 {
        -1
    } else if s.last() == c {
        s.len() - 1
    } else {
        last_index_of(s.drop_last(), c)
    }
}

proof fn lemma_last_index_bounds(s: Seq<char>, c: char)
    ensures
        -1 <= last_index_of(s, c) < s.len(),
    decreases s.len(),
{
    if s.len() > 0 && s.last() != c {
        lemma_last_index_bounds(s.drop_last(), c);
    }
}

fn last_index(v: &Vec<char>, from: usize, c: char) -> (r: usize)
    requires
        from <= v@.len(),
    ensures
        r == last_index_of(v@.skip(from as int), c) + 1,
{
    let mut i = v.len();
    let ghost s = v@.skip(from as int);
    assert(s.take(s.len() as int) =~= s);
    while i > from
        invariant
            from <= i <= v@.len(),
            s == v@.skip(from as int),
            last_index_of(s, c) == last_index_of(s.take(i - from), c),
        decreases i,
    {
        proof {
            let t = s.take(i - from);
            assert(t.last() == v@[i - 1]);
            assert(t.drop_last() =~= s.take(i - 1 - from));
        }
        if v[i - 1] == c {
            return i - from;
        }
        i -= 1;
    }
    assert(s.take(0).len() == 0);
    0
}

/// The extension of a file in a repository tree, as `Path::extension` reads
/// it: the text after the last dot of the last path segment, when that dot
/// does not open the segment.
pub open spec fn file_extension(path: Seq<char>) -> Option<Seq<char>> {
    let name = path.skip(last_index_of(path, '/') + 1);
    let dot = last_index_of(name, '.');
    if dot > 0 {
        Some(name.skip(dot + 1))
    } else {
        None
    }
}

/// A file of a repository tree worth reading for snippets: a blob of 100 to
/// 150 000 bytes with an extension of the language, outside vendored,
/// generated and `node_modules` directories.
pub open spec fn spec_candidate_file(kind: Seq<char>, size: Option<u64>, path: Seq<char>, language: CodeLanguage) -> bool {
    &&& kind == "blob"@
    &&& size matches Some(n) && 100 <= n <= 150_000
    &&& file_extension(path) matches Some(e) && spec_code_extensions(language).contains(e)
    &&& !contains_text(path, "vendor/"@)
    &&& !contains_text(path, "generated/"@)
    &&& !contains_text(path, "node_modules/"@)
}

fn has_extension(path: &Vec<char>, language: CodeLanguage) -> (r: bool)
    ensures
        r == (file_extension(path@) matches Some(e) && spec_code_extensions(language).contains(e)),
{
    let start = last_index(path, 0, '/');
    proof {
        assert(path@.skip(0) =~= path@);
        lemma_last_index_bounds(path@, '/');
    }
    let dot = last_index(path, start, '.');
    proof {
        lemma_last_index_bounds(path@.skip(start as int), '.');
    }
    if dot <= 1 {
        return false;
    }
    let ghost name = path@.skip(start as int);
    assert(start == last_index_of(path@, '/') + 1);
    assert(name == path@.skip(last_index_of(path@, '/') + 1));
    assert(dot == last_index_of(name, '.') + 1);
    assert(dot <= name.len());
    assert(start <= path@.len());
    assert(name.len() == path@.len() - start);
    assert(start + dot <= path@.len());
    assert(path@.len() == path.len());
    let from = start + dot;
    let extension = string_of(path, from, path.len());
    assert(extension@ =~= name.skip(dot as int));
    assert(file_extension(path@) == Some(extension@));
    let known = language.extensions();
    let mut j: usize = 0;
    while j < known.len()
        invariant
            known@.len() == spec_code_extensions(language).len(),
            forall|q: int| 0 <= q < known@.len() ==> #[trigger] known@[q]@ == spec_code_extensions(language)[q],
            j <= known@.len(),
            file_extension(path@) == Some(extension@),
            forall|q: int| 0 <= q < j ==> spec_code_extensions(language)[q] != extension@,
        decreases known@.len() - j,
    {
        if text_eq(extension.as_str(), known[j]) {
            assert(spec_code_extensions(language)[j as int] == extension@);
            assert(spec_code_extensions(language).contains(extension@));
            return true;
        }
        j += 1;
    }
    false
}

/// Whether a file of a repository tree is read for snippets (see `spec_candidate_file`).
pub fn is_candidate_file(kind: &str, size: Option<u64>, path: &str, language: CodeLanguage) -> (r: bool)
    ensures
        r == spec_candidate_file(kind@, size, path@, language),
{
    if !text_eq(kind, "blob") {
        return false;
    }
    let fits = match size {
        Some(n) => 100 <= n && n <= 150_000,
        None => false,
    };
    if !fits {
        return false;
    }
    let p = chars_of(path);
    has_extension(&p, language) && !contains(&p, "vendor/") && !contains(&p, "generated/")
        && !contains(&p, "node_modules/")
}

/// The SHA-256 digest of a text's UTF-8 bytes in lower-case hexadecimal.
pub uninterp spec fn spec_sha256_hex(text: Seq<char>) -> Seq<char>;

/// sha2's `Sha256::digest` of the text's UTF-8 bytes, formatted with `{:x}`.
/// The digest is named, not stated.
#[verifier::external_body]
fn sha256_hex(text: &str) -> (r: String)
    ensures
        r@ == spec_sha256_hex(text@),
{
    format!("{:x}", sha2::Sha256::digest(text.as_bytes()))
}

/// The identifier of a snippet: the digest of the repository, the file, the
/// byte where the structure starts and the snippet text, joined by colons.
pub open spec fn spec_snippet_id(repository: Seq<char>, path: Seq<char>, start_byte: usize, text: Seq<char>) -> Seq<char> {
    spec_sha256_hex(repository + ":"@ + path + ":"@ + spec_decimal(start_byte as nat) + ":"@ + text)
}

pub fn snippet_id(repository: &str, path: &str, start_byte: usize, text: &str) -> (r: String)
    ensures
        r@ == spec_snippet_id(repository@, path@, start_byte, text@),
{
    let mut key = repository.to_owned();
    key.append(":");
    key.append(path);
    key.append(":");
    append_decimal(&mut key, start_byte as u64);
    key.append(":");
    key.append(text);
    sha256_hex(key.as_str())
}

/// The file a repository's tree listing is cached in.
pub fn tree_cache_file(full_name: &str) -> (r: String)
    ensures
        r@ == "tree-"@ + spec_sha256_hex(full_name@) + ".json"@,
{
    let mut name = "tree-".to_owned();
    let digest = sha256_hex(full_name);
    name.append(digest.as_str());
    name.append(".json");
    name
}

/// A syntax node kind as snippets show it: underscores become spaces.
pub open spec fn spec_kind_label(kind: Seq<char>) -> Seq<char> {
    kind.map_values(|c: char| if c == '_' { ' ' } else { c })
}

fn kind_label(kind: &str) -> (r: String)
    ensures
        r@ == spec_kind_label(kind@),
{
    let v = chars_of(kind);
    let mut r = String::new();
    let mut i: usize = 0;
    while i < v.len()
        invariant
            v@ == kind@,
            i <= v@.len(),
            r@ == spec_kind_label(v@.take(i as int)),
        decreases v@.len() - i,
    {
        proof {
            assert(spec_kind_label(v@.take(i + 1)) =~= spec_kind_label(v@.take(i as int)).push(
                if v@[i as int] == '_' { ' ' } else { v@[i as int] },
            ));
        }
        push_char(&mut r, if v[i] == '_' { ' ' } else { v[i] });
        i += 1;
    }
    assert(v@.take(v@.len() as int) =~= v@);
    r
}

/// Where a file of a repository is shown on GitHub.
pub open spec fn spec_blob_url(html_url: Seq<char>, branch: Seq<char>, path: Seq<char>) -> Seq<char> {
    html_url + "/blob/"@ + branch + "/"@ + path
}

/// The snippet recorded for a structure of kind `node_kind`, starting at
/// byte `start_byte` of the file `path` of repository `repository`
/// (browsed at `html_url`, on branch `branch`), once its text is normalised.
pub fn new_snippet(
    language: CodeLanguage,
    node_kind: &str,
    text: String,
    repository: &str,
    html_url: &str,
    branch: &str,
    path: &str,
    license: &str,
    start_byte: usize,
) -> (r: Snippet)
    ensures
        r.id@ == spec_snippet_id(repository@, path@, start_byte, text@),
        r.language == language,
        r.kind@ == spec_kind_label(node_kind@),
        r.text@ == text@,
        r.repository@ == repository@,
        r.path@ == path@,
        r.url@ == spec_blob_url(html_url@, branch@, path@),
        r.license@ == license@,
        r.indent_normalized,
{
    let id = snippet_id(repository, path, start_byte, text.as_str());
    let mut url = html_url.to_owned();
    url.append("/blob/");
    url.append(branch);
    url.append("/");
    url.append(path);
    Snippet {
        id,
        language,
        kind: kind_label(node_kind),
        text,
        repository: repository.to_owned(),
        path: path.to_owned(),
        url,
        license: license.to_owned(),
        indent_normalized: true,
    }
}

} // verus!
