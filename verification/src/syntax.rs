//! Code structure from tree-sitter: the parse tree as a list of nodes, the
//! comments in it, the structures worth practising, and the snippets made
//! of them.
use vstd::prelude::*;

use crate::comments::{char_boundary, comment_ranges_valid, spec_strip_comments, strip_comments};
use crate::content::{CodeLanguage, Snippet};
use crate::snippet::{
    candidate_kinds, column_after, law_nesting_does_not_change_the_snippet, lemma_utf8_len_strict, nested_by,
    normalize_snippet, spec_candidate_kinds, spec_normalize, tab_free, visual_column,
};
use crate::sources::{contains, contains_text, new_snippet, spec_blob_url, spec_kind_label, spec_snippet_id};
use crate::text::{chars_of, lemma_utf8_len_push, spec_utf8_len, string_of, text_eq, utf8_width};

verus! {

broadcast use vstd::string::group_string_axioms;

#[verifier::external_type_specification]
#[verifier::external_body]
pub struct ExGrammar(tree_sitter::Language);

/// One node of a parse tree, as a depth-first walk meets it.
#[derive(Debug)]
pub struct SyntaxNode {
    pub kind: String,
    pub start_byte: usize,
    pub end_byte: usize,
    pub named: bool,
    /// Distance from the root.
    pub depth: usize,
}

pub ghost struct NodeView {
    pub kind: Seq<char>,
    pub start_byte: usize,
    pub end_byte: usize,
    pub named: bool,
    pub depth: usize,
}

impl View for SyntaxNode {
    type V = NodeView;

    open spec fn view(&self) -> NodeView {
        NodeView {
            kind: self.kind@,
            start_byte: self.start_byte,
            end_byte: self.end_byte,
            named: self.named,
            depth: self.depth,
        }
    }
}

pub open spec fn nodes_view(nodes: Seq<SyntaxNode>) -> Seq<NodeView> {
    nodes.map_values(|n: SyntaxNode| n@)
}

/// The parse tree tree-sitter gives for a text in a language, as its nodes
/// in depth-first order, or `None` when it gives no tree.
pub uninterp spec fn spec_syntax_tree(language: CodeLanguage, text: Seq<char>) -> Option<Seq<NodeView>>;

/// The language as tree-sitter's grammar type, one arm per language: the
/// `LANGUAGE` constant of its grammar crate (`LANGUAGE_TYPESCRIPT` for
/// TypeScript), turned into a `tree_sitter::Language` by its `From`. Only
/// `syntax_tree` uses it, inside its own trusted body; nothing is claimed
/// of the value.
#[verifier::external_body]
fn grammar(language: CodeLanguage) -> tree_sitter::Language {
    match language {
        CodeLanguage::Python => tree_sitter_python::LANGUAGE.into(),
        CodeLanguage::JavaScript => tree_sitter_javascript::LANGUAGE.into(),
        CodeLanguage::TypeScript => tree_sitter_typescript::LANGUAGE_TYPESCRIPT.into(),
        CodeLanguage::Rust => tree_sitter_rust::LANGUAGE.into(),
        CodeLanguage::Go => tree_sitter_go::LANGUAGE.into(),
        CodeLanguage::Swift => tree_sitter_swift::LANGUAGE.into(),
        CodeLanguage::Kotlin => tree_sitter_kotlin_ng::LANGUAGE.into(),
        CodeLanguage::Cpp => tree_sitter_cpp::LANGUAGE.into(),
        CodeLanguage::CSharp => tree_sitter_c_sharp::LANGUAGE.into(),
        CodeLanguage::Java => tree_sitter_java::LANGUAGE.into(),
    }
}

/// tree-sitter's `Parser::parse` of the text with the language's grammar,
/// its tree turned into the list of its nodes by descendant index, which is
/// depth-first order (each node's kind, byte range, whether it is named,
/// and its depth). `None` when the grammar cannot be set or no tree comes
/// back. The tree is named (`spec_syntax_tree`), not stated: the contract
/// claims only that the same language and text give the same nodes.
#[verifier::external_body]
fn syntax_tree(language: CodeLanguage, text: &str) -> (r: Option<Vec<SyntaxNode>>)
    ensures
        match r {
            Some(nodes) => spec_syntax_tree(language, text@) == Some(nodes_view(nodes@)),
            None => spec_syntax_tree(language, text@) is None,
        },
{
    let mut parser = tree_sitter::Parser::new();
    parser.set_language(&grammar(language)).ok()?;
    let tree = parser.parse(text, None)?;
    let mut cursor = tree.walk();
    let mut nodes = Vec::new();
    for index in 0..tree.root_node().descendant_count() {
        cursor.goto_descendant(index);
        let n = cursor.node();
        nodes.push(SyntaxNode { kind: n.kind().to_owned(), start_byte: n.start_byte(), end_byte: n.end_byte(), named: n.is_named(), depth: cursor.depth() as usize });
    }
    Some(nodes)
}

/// The comments of a tree, walking the first `n` nodes: a node whose kind
/// names a comment gives its byte range, and the walk does not go into it.
/// The second part is the depth of the comment being passed over.
pub open spec fn comment_scan(nodes: Seq<NodeView>, n: int) -> (Seq<(usize, usize)>, Option<usize>)
    decreases n,
{
    if n <= 0 {
        (seq![], None)
    } else {
        let (ranges, skip) = comment_scan(nodes, n - 1);
        let node = nodes[n - 1];
        if skip matches Some(d) && node.depth > d {
            (ranges, skip)
        } else if contains_text(node.kind, "comment"@) {
            (ranges.push((node.start_byte, node.end_byte)), Some(node.depth))
        } else {
            (ranges, None)
        }
    }
}

pub open spec fn spec_comment_ranges(nodes: Seq<NodeView>) -> Seq<(usize, usize)> {
    comment_scan(nodes, nodes.len() as int).0
}

fn comment_ranges_of(nodes: &Vec<SyntaxNode>) -> (r: Vec<(usize, usize)>)
    ensures
        r@ == spec_comment_ranges(nodes_view(nodes@)),
{
    let ghost ns = nodes_view(nodes@);
    let mut ranges: Vec<(usize, usize)> = Vec::new();
    let mut skip: Option<usize> = None;
    let mut i: usize = 0;
    while i < nodes.len()
        invariant
            ns == nodes_view(nodes@),
            i <= nodes@.len(),
            (ranges@, skip) == comment_scan(ns, i as int),
        decreases nodes@.len() - i,
    {
        let node = &nodes[i];
        assert(ns[i as int] == node@);
        let inside = match skip {
            Some(d) => node.depth > d,
            None => false,
        };
        if !inside {
            let kind = chars_of(node.kind.as_str());
            if contains(&kind, "comment") {
                ranges.push((node.start_byte, node.end_byte));
                skip = Some(node.depth);
            } else {
                skip = None;
            }
        }
        i += 1;
    }
    ranges
}

/// The structures of a tree worth practising, walking the first `n` nodes:
/// the walk goes from the root through named nodes only, and keeps those
/// whose kind is a candidate kind of the language (as positions in the list).
/// The second part is the depth of the unnamed node being passed over.
pub open spec fn candidate_scan(nodes: Seq<NodeView>, language: CodeLanguage, n: int) -> (Seq<usize>, Option<usize>)
    decreases n,
{
    if n <= 0 {
        (seq![], None)
    } else {
        let (found, skip) = candidate_scan(nodes, language, n - 1);
        let node = nodes[n - 1];
        if skip matches Some(d) && node.depth > d {
            (found, skip)
        } else if !node.named && node.depth > 0 {
            (found, Some(node.depth))
        } else if spec_candidate_kinds(language).contains(node.kind) {
            (found.push((n - 1) as usize), None)
        } else {
            (found, None)
        }
    }
}

pub open spec fn spec_candidates(nodes: Seq<NodeView>, language: CodeLanguage) -> Seq<usize> {
    candidate_scan(nodes, language, nodes.len() as int).0
}

fn is_candidate_kind(kind: &str, language: CodeLanguage) -> (r: bool)
    ensures
        r == spec_candidate_kinds(language).contains(kind@),
{
    let kinds = candidate_kinds(language);
    let mut j: usize = 0;
    while j < kinds.len()
        invariant
            kinds@.len() == spec_candidate_kinds(language).len(),
            forall|q: int| 0 <= q < kinds@.len() ==> #[trigger] kinds@[q]@ == spec_candidate_kinds(language)[q],
            j <= kinds@.len(),
            forall|q: int| 0 <= q < j ==> spec_candidate_kinds(language)[q] != kind@,
        decreases kinds@.len() - j,
    {
        if text_eq(kinds[j], kind) {
            assert(spec_candidate_kinds(language)[j as int] == kind@);
            return true;
        }
        j += 1;
    }
    false
}

fn candidates_of(nodes: &Vec<SyntaxNode>, language: CodeLanguage) -> (r: Vec<usize>)
    ensures
        r@ == spec_candidates(nodes_view(nodes@), language),
        forall|q: int| 0 <= q < r@.len() ==> (#[trigger] r@[q]) < nodes@.len(),
{
    let ghost ns = nodes_view(nodes@);
    let mut found: Vec<usize> = Vec::new();
    let mut skip: Option<usize> = None;
    let mut i: usize = 0;
    while i < nodes.len()
        invariant
            ns == nodes_view(nodes@),
            i <= nodes@.len(),
            (found@, skip) == candidate_scan(ns, language, i as int),
            forall|q: int| 0 <= q < found@.len() ==> (#[trigger] found@[q]) < i,
        decreases nodes@.len() - i,
    {
        let node = &nodes[i];
        assert(ns[i as int] == node@);
        let inside = match skip {
            Some(d) => node.depth > d,
            None => false,
        };
        if !inside {
            if !node.named && node.depth > 0 {
                skip = Some(node.depth);
            } else {
                if is_candidate_kind(node.kind.as_str(), language) {
                    found.push(i);
                }
                skip = None;
            }
        }
        i += 1;
    }
    found
}

/// The structures worth practising that tree-sitter finds in a text (see
/// `spec_candidates`), in the order of the tree; `None` when it gives no tree.
pub fn structure_nodes(language: CodeLanguage, text: &str) -> (r: Option<Vec<SyntaxNode>>)
    ensures
        match spec_syntax_tree(language, text@) {
            None => r is None,
            Some(nodes) => r matches Some(found) && nodes_view(found@) == spec_candidates(nodes, language).map_values(
                |i: usize| nodes[i as int],
            ),
        },
{
    let nodes = match syntax_tree(language, text) {
        Some(nodes) => nodes,
        None => return None,
    };
    let picks = candidates_of(&nodes, language);
    let ghost ns = nodes_view(nodes@);
    let ghost want = spec_candidates(ns, language).map_values(|i: usize| ns[i as int]);
    let mut found: Vec<SyntaxNode> = Vec::new();
    let mut q: usize = 0;
    while q < picks.len()
        invariant
            ns == nodes_view(nodes@),
            picks@ == spec_candidates(ns, language),
            want == spec_candidates(ns, language).map_values(|i: usize| ns[i as int]),
            forall|j: int| 0 <= j < picks@.len() ==> (#[trigger] picks@[j]) < nodes@.len(),
            q <= picks@.len(),
            nodes_view(found@) == want.take(q as int),
        decreases picks@.len() - q,
    {
        let node = &nodes[picks[q]];
        assert(ns[picks@[q as int] as int] == node@);
        assert(want[q as int] == node@);
        let ghost before = found@;
        found.push(SyntaxNode {
            kind: node.kind.clone(),
            start_byte: node.start_byte,
            end_byte: node.end_byte,
            named: node.named,
            depth: node.depth,
        });
        assert(found@ == before.push(found@.last()));
        assert(found@.last()@ == node@);
        assert(nodes_view(found@) =~= nodes_view(before).push(node@));
        assert(nodes_view(found@) =~= want.take(q as int + 1));
        q += 1;
    }
    assert(want.take(picks@.len() as int) =~= want);
    Some(found)
}

/// The position of the character at which byte offset `b` of the text
/// falls, when it falls between two characters.
pub open spec fn char_position(text: Seq<char>, b: usize) -> int {
    choose|k: int| 0 <= k <= text.len() && spec_utf8_len(#[trigger] text.take(k)) == b
}

proof fn lemma_position_unique(text: Seq<char>, b: usize, k: int)
    requires
        0 <= k <= text.len(),
        spec_utf8_len(text.take(k)) == b,
    ensures
        char_boundary(text, b),
        char_position(text, b) == k,
{
    let w = char_position(text, b);
    if w < k {
        lemma_utf8_len_strict(text, w, k);
    } else if w > k {
        lemma_utf8_len_strict(text, k, w);
    }
}

/// Where byte offset `b` falls in the characters, if between two of them.
fn position_of_byte(v: &Vec<char>, b: usize) -> (r: Option<usize>)
    ensures
        match r {
            Some(k) => k <= v@.len() && char_boundary(v@, b) && char_position(v@, b) == k,
            None => !char_boundary(v@, b),
        },
{
    let mut acc: u128 = 0;
    let mut k: usize = 0;
    loop
        invariant
            k <= v@.len(),
            acc == spec_utf8_len(v@.take(k as int)),
            acc <= 4 * k,
            forall|j: int| 0 <= j < k ==> spec_utf8_len(#[trigger] v@.take(j)) != b,
        decreases v@.len() - k,
    {
        if acc == b as u128 {
            proof {
                lemma_position_unique(v@, b, k as int);
            }
            return Some(k);
        }
        if acc > b as u128 || k == v.len() {
            proof {
                assert forall|j: int| 0 <= j <= v@.len() implies spec_utf8_len(#[trigger] v@.take(j)) != b by {
                    if j > k {
                        lemma_utf8_len_strict(v@, k as int, j);
                    }
                }
            }
            return None;
        }
        let c = v[k];
        proof {
            assert(v@.take(k + 1) =~= v@.take(k as int).push(c));
            lemma_utf8_len_push(v@.take(k as int), c);
        }
        acc = acc + utf8_width(c) as u128;
        k += 1;
    }
}

fn ranges_valid(v: &Vec<char>, ranges: &Vec<(usize, usize)>) -> (r: bool)
    ensures
        r == comment_ranges_valid(v@, ranges@),
{
    let mut q: usize = 0;
    while q < ranges.len()
        invariant
            q <= ranges@.len(),
            forall|j: int| 0 <= j < q ==> (#[trigger] ranges@[j]).0 <= ranges@[j].1,
            forall|j: int| 0 <= j < q ==> char_boundary(v@, (#[trigger] ranges@[j]).0),
            forall|j: int| 0 <= j < q ==> char_boundary(v@, (#[trigger] ranges@[j]).1),
            forall|j: int| 0 <= j < q && j < ranges@.len() - 1 ==> (#[trigger] ranges@[j]).1 <= ranges@[j + 1].0,
        decreases ranges@.len() - q,
    {
        let (start, end) = ranges[q];
        if start > end || position_of_byte(v, start).is_none() || position_of_byte(v, end).is_none() {
            return false;
        }
        if q + 1 < ranges.len() && end > ranges[q + 1].0 {
            return false;
        }
        q += 1;
    }
    true
}

/// A text without its comments, as tree-sitter finds them: `None` when
/// there is no parse tree or the comments it reports are out of order or
/// not between characters.
pub open spec fn spec_stripped(language: CodeLanguage, text: Seq<char>) -> Option<Seq<char>> {
    match spec_syntax_tree(language, text) {
        None => None,
        Some(nodes) => {
            let ranges = spec_comment_ranges(nodes);
            if comment_ranges_valid(text, ranges) {
                Some(spec_strip_comments(text, ranges))
            } else {
                None
            }
        },
    }
}

/// Removes the comments tree-sitter finds in a block of code (see `spec_stripped`).
pub fn strip_source_comments(language: CodeLanguage, text: &str) -> (r: Option<String>)
    ensures
        match r {
            Some(t) => spec_stripped(language, text@) == Some(t@),
            None => spec_stripped(language, text@) is None,
        },
{
    let nodes = match syntax_tree(language, text) {
        Some(nodes) => nodes,
        None => return None,
    };
    let ranges = comment_ranges_of(&nodes);
    let v = chars_of(text);
    if !ranges_valid(&v, &ranges) {
        return None;
    }
    Some(strip_comments(text, &ranges))
}

/// The text of a node: its byte range of the source, when that range is in
/// order and falls between characters.
pub open spec fn node_text(source: Seq<char>, node: NodeView) -> Option<Seq<char>> {
    if node.start_byte <= node.end_byte && char_boundary(source, node.start_byte) && char_boundary(source, node.end_byte) {
        Some(source.subrange(char_position(source, node.start_byte), char_position(source, node.end_byte)))
    } else {
        None
    }
}

/// The snippet a node gives: its text without comments, normalised from
/// the column the node starts at in its file.
pub open spec fn snippet_text(language: CodeLanguage, source: Seq<char>, node: NodeView) -> Option<Seq<char>> {
    match node_text(source, node) {
        None => None,
        Some(raw) => match spec_stripped(language, raw) {
            None => None,
            Some(code) => spec_normalize(code, column_after(source.take(char_position(source, node.start_byte)))),
        },
    }
}

/// The nodes at the given positions that give a snippet, with its text.
pub open spec fn extracted(language: CodeLanguage, source: Seq<char>, nodes: Seq<NodeView>, picks: Seq<usize>) -> Seq<(NodeView, Seq<char>)>
    decreases picks.len(),
{
    if picks.len() == 0 {
        seq![]
    } else {
        let before = extracted(language, source, nodes, picks.drop_last());
        let node = nodes[picks.last() as int];
        match snippet_text(language, source, node) {
            Some(t) => before.push((node, t)),
            None => before,
        }
    }
}

/// Snippet `s` records the structure `node` with text `text`, found in file
/// `path` of a repository.
pub open spec fn records(
    s: Snippet,
    node: NodeView,
    text: Seq<char>,
    language: CodeLanguage,
    repository: Seq<char>,
    html_url: Seq<char>,
    branch: Seq<char>,
    path: Seq<char>,
    license: Seq<char>,
) -> bool {
    &&& s.id@ == spec_snippet_id(repository, path, node.start_byte, text)
    &&& s.language == language
    &&& s.kind@ == spec_kind_label(node.kind)
    &&& s.text@ == text
    &&& s.repository@ == repository
    &&& s.path@ == path
    &&& s.url@ == spec_blob_url(html_url, branch, path)
    &&& s.license@ == license
    &&& s.indent_normalized
}

fn node_snippet_text(language: CodeLanguage, source: &str, v: &Vec<char>, node: &SyntaxNode) -> (r: Option<String>)
    requires
        v@ == source@,
        source@.len() <= usize::MAX / 4,
    ensures
        match r {
            Some(t) => snippet_text(language, source@, node@) == Some(t@),
            None => snippet_text(language, source@, node@) is None,
        },
{
    if node.start_byte > node.end_byte {
        return None;
    }
    let a = match position_of_byte(v, node.start_byte) {
        Some(a) => a,
        None => return None,
    };
    let b = match position_of_byte(v, node.end_byte) {
        Some(b) => b,
        None => return None,
    };
    proof {
        if a > b {
            lemma_utf8_len_strict(v@, b as int, a as int);
        }
    }
    let raw = string_of(v, a, b);
    let indent = visual_column(source, node.start_byte);
    let code = match strip_source_comments(language, raw.as_str()) {
        Some(code) => code,
        None => return None,
    };
    normalize_snippet(code.as_str(), indent)
}

/// The snippets of a source file: each structure of the language that
/// tree-sitter finds (see `spec_candidates`), in the order found, whose text
/// survives comment removal and normalisation, recorded as found in file
/// `path` of `repository` (browsed at `html_url` on `branch`).
pub fn extract_snippets(
    language: CodeLanguage,
    source: &str,
    repository: &str,
    html_url: &str,
    branch: &str,
    path: &str,
    license: &str,
) -> (r: Vec<Snippet>)
    requires
        source@.len() <= usize::MAX / 4,
    ensures
        match spec_syntax_tree(language, source@) {
            None => r@.len() == 0,
            Some(nodes) => {
                let picked = extracted(language, source@, nodes, spec_candidates(nodes, language));
                &&& r@.len() == picked.len()
                &&& forall|q: int|
                    0 <= q < r@.len() ==> records(
                        #[trigger] r@[q],
                        picked[q].0,
                        picked[q].1,
                        language,
                        repository@,
                        html_url@,
                        branch@,
                        path@,
                        license@,
                    )
            },
        },
{
    let nodes = match syntax_tree(language, source) {
        Some(nodes) => nodes,
        None => return Vec::new(),
    };
    let ghost ns = nodes_view(nodes@);
    let picks = candidates_of(&nodes, language);
    let v = chars_of(source);
    let mut out: Vec<Snippet> = Vec::new();
    let mut q: usize = 0;
    while q < picks.len()
        invariant
            ns == nodes_view(nodes@),
            picks@ == spec_candidates(ns, language),
            forall|j: int| 0 <= j < picks@.len() ==> (#[trigger] picks@[j]) < nodes@.len(),
            v@ == source@,
            source@.len() <= usize::MAX / 4,
            q <= picks@.len(),
            ({
                let picked = extracted(language, source@, ns, picks@.take(q as int));
                &&& out@.len() == picked.len()
                &&& forall|j: int|
                    0 <= j < out@.len() ==> records(
                        #[trigger] out@[j],
                        picked[j].0,
                        picked[j].1,
                        language,
                        repository@,
                        html_url@,
                        branch@,
                        path@,
                        license@,
                    )
            }),
        decreases picks@.len() - q,
    {
        let node = &nodes[picks[q]];
        let ghost before = out@;
        proof {
            assert(picks@.take(q + 1).drop_last() =~= picks@.take(q as int));
            assert(picks@.take(q + 1).last() == picks@[q as int]);
            assert(ns[picks@[q as int] as int] == node@);
        }
        match node_snippet_text(language, source, &v, node) {
            Some(text) => {
                let snippet = new_snippet(
                    language,
                    node.kind.as_str(),
                    text,
                    repository,
                    html_url,
                    branch,
                    path,
                    license,
                    node.start_byte,
                );
                out.push(snippet);
                proof {
                    let picked = extracted(language, source@, ns, picks@.take(q + 1));
                    assert forall|j: int|
                        0 <= j < out@.len() implies records(
                            #[trigger] out@[j],
                            picked[j].0,
                            picked[j].1,
                            language,
                            repository@,
                            html_url@,
                            branch@,
                            path@,
                            license@,
                        ) by {
                        if j < before.len() {
                            assert(out@[j] == before[j]);
                        }
                    }
                }
            },
            None => {},
        }
        q += 1;
    }
    proof {
        assert(picks@.take(picks@.len() as int) =~= picks@);
    }
    out
}

/// The column at which a structure starts in its file, tabs counted to
/// the next multiple of four.
pub open spec fn start_column(source: Seq<char>, node: NodeView) -> nat {
    column_after(source.take(char_position(source, node.start_byte)))
}

/// Every snippet taken from a file is the code of its structure, comments
/// removed, normalised with the column at which the structure starts in
/// the file as the source indentation: the lines after the first lose that
/// column, so a structure nested in another is not left indented by its
/// nesting.
pub proof fn law_snippet_from_structure_column(
    language: CodeLanguage,
    source: Seq<char>,
    nodes: Seq<NodeView>,
    picks: Seq<usize>,
    q: int,
)
    requires
        0 <= q < extracted(language, source, nodes, picks).len(),
    ensures
        ({
            let (node, text) = extracted(language, source, nodes, picks)[q];
            &&& node_text(source, node) is Some
            &&& spec_stripped(language, node_text(source, node)->0) is Some
            &&& spec_normalize(spec_stripped(language, node_text(source, node)->0)->0, start_column(source, node)) == Some(text)
        }),
    decreases picks.len(),
{
    let before = extracted(language, source, nodes, picks.drop_last());
    if q < before.len() {
        law_snippet_from_structure_column(language, source, nodes, picks.drop_last(), q);
        let node = nodes[picks.last() as int];
        if snippet_text(language, source, node) is Some {
            assert(extracted(language, source, nodes, picks)[q] == before[q]);
        }
    }
}

/// A structure's snippet does not depend on how deeply the structure is
/// nested in its file: a structure that starts at column `k` and whose
/// code, comments removed, is some code `c` moved `k` columns right after
/// every line break gives the snippet that `c` gives at the margin. (Code
/// as `law_nesting_does_not_change_the_snippet` takes it.)
pub proof fn law_nested_structure_same_snippet(
    language: CodeLanguage,
    source: Seq<char>,
    node: NodeView,
    c: Seq<char>,
    k: nat,
)
    requires
        node_text(source, node) is Some,
        spec_stripped(language, node_text(source, node)->0) == Some(nested_by(c, k)),
        start_column(source, node) == k,
        tab_free(c),
        c.len() > 0,
        c[0] != '\n',
        c.last() != '\n',
        100 <= c.len(),
        nested_by(c, k).len() <= 600,
    ensures
        snippet_text(language, source, node) == spec_normalize(c, 0),
{
    law_nesting_does_not_change_the_snippet(c, k);
}

} // verus!
