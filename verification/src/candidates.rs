use vstd::prelude::*;

use crate::config::Config;
use crate::files::SourceFile;
use crate::fingerprints::{Fingerprints, spec_fingerprints, capped_set};
use crate::language::Language;
use crate::normalize::{Normalized, normalize_node, normalized_as, children_normalized_as, spec_kept, spec_node_count, spec_count_all, min_usize, spec_subtree_reprs, lemma_normalized_unique};
use crate::syntax::{SyntaxNode, spec_text, spec_child_by_field, text_of, child_by_field};
use crate::text::str_eq;
use crate::parse::{parse_source, spec_grammar_parse, ParseFailure};
use crate::DryerError;

verus! {

/// A unit of code that may duplicate another: where it is, what it is, how
/// big its normalized form is, and its fingerprints.
#[derive(Debug)]
pub struct Candidate {
    pub file: String,
    pub language: Language,
    pub kind: String,
    pub name: Option<String>,
    pub start_line: usize,
    pub end_line: usize,
    pub nodes: usize,
    pub fingerprints: Fingerprints,
}

/// The number of nodes that survive normalization in a syntax tree.
pub open spec fn spec_kept_count(node: SyntaxNode) -> nat
    decreases node,
{
    if !node.named {
        1
    } else {
        1 + spec_kept_count_list(node.children@)
    }
}

/// The number of nodes that survive normalization in a sequence of trees.
pub open spec fn spec_kept_count_list(cs: Seq<SyntaxNode>) -> nat
    decreases cs,
{
    if cs.len() == 0 {
        0
    } else if spec_kept(cs.last()) {
        spec_kept_count_list(cs.drop_last()) + spec_kept_count(cs.last())
    } else {
        spec_kept_count_list(cs.drop_last())
    }
}

proof fn lemma_kept_count_list(cs: Seq<SyntaxNode>, src: Seq<char>, config: crate::config::NormalizationConfig, ns: Seq<Normalized>)
    requires
        children_normalized_as(cs, src, config, ns),
    ensures
        spec_count_all(ns) == spec_kept_count_list(cs),
    decreases cs,
{
    if cs.len() > 0 {
        if spec_kept(cs.last()) {
            lemma_kept_count_list(cs.drop_last(), src, config, ns.drop_last());
            lemma_kept_count(cs.last(), src, config, ns.last());
        } else {
            lemma_kept_count_list(cs.drop_last(), src, config, ns);
        }
    }
}

/// A normalized tree has as many nodes as survive normalization.
pub proof fn lemma_kept_count(node: SyntaxNode, src: Seq<char>, config: crate::config::NormalizationConfig, n: Normalized)
    requires
        normalized_as(node, src, config, n),
    ensures
        spec_node_count(n) == spec_kept_count(node),
    decreases node,
{
    if node.named {
        lemma_kept_count_list(node.children@, src, config, n.children@);
    } else {
        assert(n.children@ =~= Seq::<Normalized>::empty());
    }
}

/// Node kinds that make a candidate in each language.
pub open spec fn spec_is_candidate_kind(language: Language, kind: Seq<char>) -> bool {
    match language {
        Language::Rust => kind == "function_item"@ || kind == "closure_expression"@,
        Language::TypeScript | Language::Tsx => kind == "function_declaration"@
            || kind == "method_definition"@ || kind == "arrow_function"@,
        Language::Haskell | Language::Daml => kind == "function"@ || kind == "bind"@
            || kind == "data_type"@ || kind == "newtype"@ || kind == "class"@ || kind == "instance"@,
    }
}

/// Whether nodes of this kind make a candidate in `language`.
pub fn is_candidate_node(language: Language, node: &SyntaxNode) -> (r: bool)
    ensures
        r == spec_is_candidate_kind(language, node.kind@),
{
    let kind = node.kind.as_str();
    match language {
        Language::Rust => str_eq(kind, "function_item") || str_eq(kind, "closure_expression"),
        Language::TypeScript | Language::Tsx => str_eq(kind, "function_declaration")
            || str_eq(kind, "method_definition") || str_eq(kind, "arrow_function"),
        Language::Haskell | Language::Daml => str_eq(kind, "function") || str_eq(kind, "bind")
            || str_eq(kind, "data_type") || str_eq(kind, "newtype") || str_eq(kind, "class")
            || str_eq(kind, "instance"),
    }
}

/// Some named child has the given kind.
pub open spec fn spec_child_kind_exists(children: Seq<SyntaxNode>, kind: Seq<char>) -> bool {
    exists|i: int| 0 <= i < children.len() && (#[trigger] children[i]).named && children[i].kind@ == kind
}

/// Whether some named child of `node` has the given kind.
pub fn child_kind_exists(node: &SyntaxNode, kind: &str) -> (r: bool)
    ensures
        r == spec_child_kind_exists(node.children@, kind@),
{
    let mut i: usize = 0;
    while i < node.children.len()
        invariant
            0 <= i <= node.children@.len(),
            forall|k: int| 0 <= k < i ==> !((#[trigger] node.children@[k]).named && node.children@[k].kind@ == kind@),
        decreases node.children@.len() - i,
    {
        if node.children[i].named && str_eq(node.children[i].kind.as_str(), kind) {
            return true;
        }
        i = i + 1;
    }
    false
}

/// Whether a candidate node has a body worth comparing: a function needs its
/// block, a declaration its members.
pub open spec fn spec_has_body(node: SyntaxNode) -> bool {
    let kind = node.kind@;
    let cs = node.children@;
    if kind == "function_item"@ {
        spec_child_kind_exists(cs, "block"@)
    } else if kind == "function_declaration"@ || kind == "method_definition"@ {
        spec_child_kind_exists(cs, "statement_block"@)
    } else if kind == "arrow_function"@ || kind == "closure_expression"@ {
        true
    } else if kind == "function"@ || kind == "bind"@ {
        spec_child_kind_exists(cs, "match"@) || spec_child_by_field(cs, "expression"@) is Some
    } else if kind == "data_type"@ || kind == "newtype"@ {
        spec_child_kind_exists(cs, "data_constructors"@) || spec_child_kind_exists(cs, "gadt_constructors"@)
    } else if kind == "class"@ {
        spec_child_kind_exists(cs, "class_declarations"@)
    } else if kind == "instance"@ {
        spec_child_kind_exists(cs, "instance_declarations"@)
    } else {
        true
    }
}

/// Whether a candidate node has a body worth comparing.
pub fn has_body(node: &SyntaxNode) -> (r: bool)
    ensures
        r == spec_has_body(*node),
{
    let kind = node.kind.as_str();
    if str_eq(kind, "function_item") {
        child_kind_exists(node, "block")
    } else if str_eq(kind, "function_declaration") || str_eq(kind, "method_definition") {
        child_kind_exists(node, "statement_block")
    } else if str_eq(kind, "arrow_function") || str_eq(kind, "closure_expression") {
        true
    } else if str_eq(kind, "function") || str_eq(kind, "bind") {
        child_kind_exists(node, "match") || child_by_field(node, "expression").is_some()
    } else if str_eq(kind, "data_type") || str_eq(kind, "newtype") {
        child_kind_exists(node, "data_constructors") || child_kind_exists(node, "gadt_constructors")
    } else if str_eq(kind, "class") {
        child_kind_exists(node, "class_declarations")
    } else if str_eq(kind, "instance") {
        child_kind_exists(node, "instance_declarations")
    } else {
        true
    }
}

/// The kind a report gives a candidate.
pub open spec fn spec_candidate_kind(language: Language, kind: Seq<char>) -> Seq<char> {
    if language == Language::Rust && kind == "function_item"@ {
        "function"@
    } else if language == Language::Rust && kind == "closure_expression"@ {
        "closure"@
    } else if (language == Language::Haskell || language == Language::Daml) && (kind == "function"@ || kind == "bind"@) {
        "function"@
    } else if (language == Language::Haskell || language == Language::Daml) && kind == "data_type"@ {
        "data"@
    } else if (language == Language::Haskell || language == Language::Daml) && kind == "newtype"@ {
        "newtype"@
    } else if (language == Language::Haskell || language == Language::Daml) && kind == "class"@ {
        "class"@
    } else if (language == Language::Haskell || language == Language::Daml) && kind == "instance"@ {
        "instance"@
    } else if kind == "function_declaration"@ {
        "function"@
    } else if kind == "method_definition"@ {
        "method"@
    } else if kind == "arrow_function"@ {
        "arrow_function"@
    } else {
        "code"@
    }
}

/// The kind a report gives a candidate.
pub fn candidate_kind(language: Language, node: &SyntaxNode) -> (r: &'static str)
    ensures
        r@ == spec_candidate_kind(language, node.kind@),
{
    let kind = node.kind.as_str();
    let haskell = language == Language::Haskell || language == Language::Daml;
    if language == Language::Rust && str_eq(kind, "function_item") {
        "function"
    } else if language == Language::Rust && str_eq(kind, "closure_expression") {
        "closure"
    } else if haskell && (str_eq(kind, "function") || str_eq(kind, "bind")) {
        "function"
    } else if haskell && str_eq(kind, "data_type") {
        "data"
    } else if haskell && str_eq(kind, "newtype") {
        "newtype"
    } else if haskell && str_eq(kind, "class") {
        "class"
    } else if haskell && str_eq(kind, "instance") {
        "instance"
    } else if str_eq(kind, "function_declaration") {
        "function"
    } else if str_eq(kind, "method_definition") {
        "method"
    } else if str_eq(kind, "arrow_function") {
        "arrow_function"
    } else {
        "code"
    }
}

} // verus!

verus! {

/// The view of a name found on the way down: `None` when no ancestor names
/// anything, `Some(text)` with the text (if readable) of the nearest naming one.
pub open spec fn ctx_view(ctx: Option<Option<String>>) -> Option<Option<Seq<char>>> {
    match ctx {
        Some(Some(s)) => Some(Some(s@)),
        Some(None) => Some(None),
        None => None,
    }
}

pub open spec fn opt_view(o: Option<String>) -> Option<Seq<char>> {
    match o {
        Some(s) => Some(s@),
        None => None,
    }
}

/// The kinds of node that can give a name to the arrow function under them.
pub open spec fn spec_is_naming_kind(kind: Seq<char>) -> bool {
    kind == "variable_declarator"@ || kind == "pair"@ || kind == "assignment_expression"@
}

/// The name a node gives to the arrow functions under it: the text of its
/// `name`, `key` or `left` child, the first of these that it has.
pub open spec fn spec_naming_text(node: SyntaxNode, src: Seq<char>) -> Option<Option<Seq<char>>> {
    if spec_is_naming_kind(node.kind@) {
        match spec_child_by_field(node.children@, "name"@) {
            Some(c) => Some(spec_text(c, src)),
            None => match spec_child_by_field(node.children@, "key"@) {
                Some(c) => Some(spec_text(c, src)),
                None => match spec_child_by_field(node.children@, "left"@) {
                    Some(c) => Some(spec_text(c, src)),
                    None => None,
                },
            },
        }
    } else {
        None
    }
}

/// The naming context that the children of `node` see.
pub open spec fn spec_context_after(node: SyntaxNode, src: Seq<char>, ctx: Option<Option<Seq<char>>>) -> Option<Option<Seq<char>>> {
    match spec_naming_text(node, src) {
        Some(x) => Some(x),
        None => ctx,
    }
}

/// The name of a candidate: the text of its `name` child, or for an arrow
/// function without one, the name its nearest naming ancestor gives it.
pub open spec fn spec_candidate_name(node: SyntaxNode, src: Seq<char>, ctx: Option<Option<Seq<char>>>) -> Option<Seq<char>> {
    match spec_child_by_field(node.children@, "name"@) {
        Some(c) => spec_text(c, src),
        None => if node.kind@ == "arrow_function"@ {
            match ctx {
                Some(x) => x,
                None => None,
            }
        } else {
            None
        },
    }
}

fn naming_text(node: &SyntaxNode, source: &str) -> (r: Option<Option<String>>)
    ensures
        ctx_view(r) == spec_naming_text(*node, source@),
{
    let kind = node.kind.as_str();
    if !(str_eq(kind, "variable_declarator") || str_eq(kind, "pair") || str_eq(kind, "assignment_expression")) {
        return None;
    }
    if let Some(i) = child_by_field(node, "name") {
        return Some(text_of(&node.children[i], source));
    }
    if let Some(i) = child_by_field(node, "key") {
        return Some(text_of(&node.children[i], source));
    }
    if let Some(i) = child_by_field(node, "left") {
        return Some(text_of(&node.children[i], source));
    }
    None
}

fn context_after(node: &SyntaxNode, source: &str, ctx: &Option<Option<String>>) -> (r: Option<Option<String>>)
    ensures
        ctx_view(r) == spec_context_after(*node, source@, ctx_view(*ctx)),
{
    match naming_text(node, source) {
        Some(x) => Some(x),
        None => match ctx {
            Some(Some(s)) => Some(Some(s.clone())),
            Some(None) => Some(None),
            None => None,
        },
    }
}

/// The name of a candidate.
pub fn candidate_name(node: &SyntaxNode, source: &str, ctx: &Option<Option<String>>) -> (r: Option<String>)
    ensures
        opt_view(r) == spec_candidate_name(*node, source@, ctx_view(*ctx)),
{
    if let Some(i) = child_by_field(node, "name") {
        return text_of(&node.children[i], source);
    }
    if str_eq(node.kind.as_str(), "arrow_function") {
        return match ctx {
            Some(Some(s)) => Some(s.clone()),
            _ => None,
        };
    }
    None
}

/// The one-based line of a zero-based row (saturating).
pub open spec fn spec_line(row: usize) -> usize {
    if row < usize::MAX { (row + 1) as usize } else { usize::MAX }
}

/// The number of lines a node spans.
pub open spec fn spec_lines(node: SyntaxNode) -> int {
    let s = spec_line(node.start_row);
    let e = spec_line(node.end_row);
    (if e >= s { e - s } else { 0 }) + 1
}

/// Whether `node` makes a candidate: its kind is one, it has a body, it
/// survives normalization, and it is big enough in lines and nodes.
pub open spec fn spec_selected(node: SyntaxNode, language: Language, config: Config) -> bool {
    &&& spec_is_candidate_kind(language, node.kind@)
    &&& spec_has_body(node)
    &&& spec_kept(node)
    &&& spec_lines(node) >= config.min_lines
    &&& min_usize(spec_kept_count(node)) >= config.min_nodes
}

/// `c` is the candidate that `node` makes in `file`.
pub open spec fn candidate_of(node: SyntaxNode, src: Seq<char>, file: SourceFile, config: Config, ctx: Option<Option<Seq<char>>>, c: Candidate) -> bool {
    &&& c.file@ == file.path@
    &&& c.language == file.language
    &&& c.kind@ == spec_candidate_kind(file.language, node.kind@)
    &&& opt_view(c.name) == spec_candidate_name(node, src, ctx)
    &&& c.start_line == spec_line(node.start_row)
    &&& c.end_line == spec_line(node.end_row)
    &&& c.nodes == min_usize(spec_kept_count(node))
    &&& exists|n: Normalized| #[trigger] normalized_as(node, src, config.normalization, n)
        && c.fingerprints@ == capped_set(spec_subtree_reprs(n))
        && c.fingerprints@.subset_of(spec_fingerprints(n))
        && (spec_fingerprints(n).len() <= isize::MAX ==> c.fingerprints@ == spec_fingerprints(n))
}

/// The candidate that `node` makes, if it makes one.
pub fn build_candidate(node: &SyntaxNode, source: &str, file: &SourceFile, config: &Config, ctx: &Option<Option<String>>) -> (r: Option<Candidate>)
    requires
        spec_is_candidate_kind(file.language, node.kind@),
        spec_has_body(*node),
    ensures
        match r {
            Some(c) => spec_selected(*node, file.language, *config) && candidate_of(*node, source@, *file, *config, ctx_view(*ctx), c),
            None => !spec_selected(*node, file.language, *config),
        },
{
    let normalized = match normalize_node(node, source, &config.normalization) {
        Some(n) => n,
        None => return None,
    };
    proof {
        lemma_kept_count(*node, source@, config.normalization, normalized);
    }
    let nodes = normalized.node_count();
    let start_line = if node.start_row < usize::MAX { node.start_row + 1 } else { usize::MAX };
    let end_line = if node.end_row < usize::MAX { node.end_row + 1 } else { usize::MAX };
    let lines = (if end_line >= start_line { end_line - start_line } else { 0 }) + 1;
    if lines < config.min_lines || nodes < config.min_nodes {
        return None;
    }
    let fingerprints = Fingerprints::from_normalized(&normalized);
    let c = Candidate {
        file: file.path.clone(),
        language: file.language,
        kind: crate::text::owned(candidate_kind(file.language, node)),
        name: candidate_name(node, source, ctx),
        start_line,
        end_line,
        nodes,
        fingerprints,
    };
    assert(normalized_as(*node, source@, config.normalization, normalized));
    Some(c)
}

} // verus!

verus! {

/// The number of candidates in a syntax tree.
pub open spec fn spec_count(node: SyntaxNode, language: Language, config: Config) -> nat
    decreases node,
{
    (if spec_selected(node, language, config) { 1nat } else { 0nat }) + spec_count_list(node.children@, language, config)
}

/// The number of candidates under the named nodes of a sequence of trees.
pub open spec fn spec_count_list(cs: Seq<SyntaxNode>, language: Language, config: Config) -> nat
    decreases cs,
{
    if cs.len() == 0 {
        0
    } else {
        spec_count_list(cs.drop_last(), language, config) + if cs.last().named {
            spec_count(cs.last(), language, config)
        } else {
            0
        }
    }
}

/// `cs` are the candidates that `node` and the named nodes under it make, in
/// pre-order, where `ctx` is the name its ancestors give.
pub open spec fn collected(node: SyntaxNode, src: Seq<char>, file: SourceFile, config: Config, ctx: Option<Option<Seq<char>>>, cs: Seq<Candidate>) -> bool
    decreases node,
{
    let own: int = if spec_selected(node, file.language, config) { 1 } else { 0 };
    &&& cs.len() >= own
    &&& (own == 1 ==> candidate_of(node, src, file, config, ctx, cs[0]))
    &&& collected_list(node.children@, src, file, config, spec_context_after(node, src, ctx), cs.skip(own))
}

/// `cs` are the candidates that the named nodes of `children` make, in order.
pub open spec fn collected_list(children: Seq<SyntaxNode>, src: Seq<char>, file: SourceFile, config: Config, ctx: Option<Option<Seq<char>>>, cs: Seq<Candidate>) -> bool
    decreases children,
{
    if children.len() == 0 {
        cs.len() == 0
    } else {
        let k = spec_count_list(children.drop_last(), file.language, config) as int;
        &&& k <= cs.len()
        &&& collected_list(children.drop_last(), src, file, config, ctx, cs.take(k))
        &&& if children.last().named {
            collected(children.last(), src, file, config, ctx, cs.skip(k))
        } else {
            cs.len() == k
        }
    }
}

/// Appends to `out` the candidates that `node` and the named nodes under it
/// make, in pre-order.
pub fn collect_candidates(
    node: &SyntaxNode,
    source: &str,
    file: &SourceFile,
    config: &Config,
    ctx: &Option<Option<String>>,
    out: &mut Vec<Candidate>,
)
    ensures
        final(out)@.len() == old(out)@.len() + spec_count(*node, file.language, *config),
        final(out)@.take(old(out)@.len() as int) == old(out)@,
        collected(*node, source@, *file, *config, ctx_view(*ctx), final(out)@.skip(old(out)@.len() as int)),
    decreases node,
{
    let ghost start = old(out)@.len() as int;
    let ghost own: int = if spec_selected(*node, file.language, *config) { 1 } else { 0 };
    if is_candidate_node(file.language, node) && has_body(node) {
        if let Some(candidate) = build_candidate(node, source, file, config, ctx) {
            out.push(candidate);
        }
    }
    assert(out@.len() == start + own);
    let ghost base = start + own;
    let inner = context_after(node, source, ctx);
    let mut i: usize = 0;
    assert(out@.skip(base) =~= Seq::<Candidate>::empty());
    assert(out@.take(start) =~= old(out)@);
    while i < node.children.len()
        invariant
            0 <= i <= node.children@.len(),
            start == old(out)@.len(),
            base == start + own,
            own == 0 || own == 1,
            own == (if spec_selected(*node, file.language, *config) { 1int } else { 0int }),
            out@.len() == base + spec_count_list(node.children@.take(i as int), file.language, *config),
            out@.take(start) == old(out)@,
            own == 1 ==> candidate_of(*node, source@, *file, *config, ctx_view(*ctx), out@[start]),
            collected_list(node.children@.take(i as int), source@, *file, *config, ctx_view(inner), out@.skip(base)),
        decreases node.children@.len() - i,
    {
        let ghost prev = out@;
        proof {
            assert(node.children@.take(i + 1).drop_last() =~= node.children@.take(i as int));
            assert(node.children@.take(i + 1).last() == node.children@[i as int]);
        }
        if node.children[i].named {
            collect_candidates(&node.children[i], source, file, config, &inner, out);
        }
        proof {
            let k = spec_count_list(node.children@.take(i as int), file.language, *config) as int;
            assert(prev.len() == base + k);
            assert(out@.take(prev.len() as int) == prev);
            assert(out@.len() >= prev.len());
            assert forall|j: int| 0 <= j < k implies #[trigger] out@.skip(base)[j] == prev.skip(base)[j] by {
                assert(0 <= base + j < prev.len());
                assert(prev.len() <= out@.len());
                assert(out@.take(prev.len() as int)[base + j] == out@[base + j]);
            }
            assert(out@.skip(base).take(k) =~= prev.skip(base));
            assert(out@.skip(base).skip(k) =~= out@.skip(prev.len() as int));
            assert(out@.take(start) =~= prev.take(start));
            if own == 1 {
                assert(out@[start] == prev[start]);
            }
        }
        i = i + 1;
    }
    proof {
        assert(node.children@.take(i as int) =~= node.children@);
        let cs = out@.skip(start);
        assert(cs.skip(own) =~= out@.skip(base));
        if own == 1 {
            assert(cs[0] == out@[start]);
        }
    }
}

} // verus!

verus! {

/// The error a file's scan stops on, as its parse reports it.
pub open spec fn scan_error_matches(file: SourceFile, src: Seq<char>, e: DryerError) -> bool {
    match spec_grammar_parse(file.language, src) {
        None => e matches DryerError::ParserLanguage { language: l, .. } && l == file.language,
        Some(Err(ParseFailure::Grammar(message))) => e == (DryerError::ParserLanguage { language: file.language, message }),
        _ => false,
    }
}

/// Whether tree-sitter gives a tree for a file's source.
pub open spec fn scan_ok(file: SourceFile, src: Seq<char>) -> bool {
    spec_grammar_parse(file.language, src) matches Some(Ok(_))
}

/// The syntax tree of a file that parses.
pub open spec fn scanned_tree(file: SourceFile, src: Seq<char>) -> SyntaxNode {
    spec_grammar_parse(file.language, src).unwrap().unwrap()
}

/// The candidates that one file makes, given its source text.
pub fn scan_file(config: &Config, file: &SourceFile, source: &str) -> (r: Result<Vec<Candidate>, DryerError>)
    ensures
        scan_ok(*file, source@) ==> (r matches Ok(cs) && cs@.len() == spec_count(scanned_tree(*file, source@), file.language, *config)
            && collected(scanned_tree(*file, source@), source@, *file, *config, None, cs@)),
        !scan_ok(*file, source@) ==> (r matches Err(e) && scan_error_matches(*file, source@, e)),
{
    let tree = match parse_source(file.language, source) {
        Ok(tree) => tree,
        Err(DryerError::Parse { .. }) => return Err(DryerError::Parse { path: file.path.clone() }),
        Err(other) => return Err(other),
    };
    let mut candidates: Vec<Candidate> = Vec::new();
    collect_candidates(&tree, source, file, config, &None, &mut candidates);
    assert(candidates@.skip(0) =~= candidates@);
    Ok(candidates)
}

/// The number of candidates in the files up to some point, counting none for a file that does not parse.
pub open spec fn spec_count_files(files: Seq<SourceFile>, srcs: Seq<String>, config: Config) -> nat
    decreases files.len(),
{
    if files.len() == 0 || srcs.len() != files.len() {
        0
    } else {
        spec_count_files(files.drop_last(), srcs.drop_last(), config) + if scan_ok(files.last(), srcs.last()@) {
            spec_count(scanned_tree(files.last(), srcs.last()@), files.last().language, config)
        } else {
            0
        }
    }
}

/// `cs` are the candidates of every file in order, each file's in pre-order.
pub open spec fn scanned_all(files: Seq<SourceFile>, srcs: Seq<String>, config: Config, cs: Seq<Candidate>) -> bool
    decreases files.len(),
{
    if files.len() == 0 || srcs.len() != files.len() {
        cs.len() == 0
    } else {
        let k = spec_count_files(files.drop_last(), srcs.drop_last(), config) as int;
        &&& k <= cs.len()
        &&& scanned_all(files.drop_last(), srcs.drop_last(), config, cs.take(k))
        &&& collected(scanned_tree(files.last(), srcs.last()@), srcs.last()@, files.last(), config, None, cs.skip(k))
    }
}

/// The candidates of all files, each read from the source text at the same
/// index. The scan stops on the first file that cannot be parsed.
pub fn scan_candidates(config: &Config, files: &Vec<SourceFile>, sources: &Vec<String>) -> (r: Result<Vec<Candidate>, DryerError>)
    requires
        files@.len() == sources@.len(),
    ensures
        (forall|i: int| 0 <= i < files@.len() ==> scan_ok(#[trigger] files@[i], sources@[i]@)) ==> (r matches Ok(cs)
            && cs@.len() == spec_count_files(files@, sources@, *config)
            && scanned_all(files@, sources@, *config, cs@)),
        r is Ok ==> forall|i: int| 0 <= i < files@.len() ==> scan_ok(#[trigger] files@[i], sources@[i]@),
        r matches Err(e) ==> exists|i: int| 0 <= i < files@.len() && !scan_ok(#[trigger] files@[i], sources@[i]@)
            && (forall|j: int| 0 <= j < i ==> scan_ok(#[trigger] files@[j], sources@[j]@))
            && scan_error_matches(files@[i], sources@[i]@, e),
{
    let mut all: Vec<Candidate> = Vec::new();
    let mut i: usize = 0;
    while i < files.len()
        invariant
            files@.len() == sources@.len(),
            0 <= i <= files@.len(),
            forall|j: int| 0 <= j < i ==> scan_ok(#[trigger] files@[j], sources@[j]@),
            all@.len() == spec_count_files(files@.take(i as int), sources@.take(i as int), *config),
            scanned_all(files@.take(i as int), sources@.take(i as int), *config, all@),
        decreases files@.len() - i,
    {
        let ghost prev = all@;
        proof {
            assert(files@.take(i + 1).drop_last() =~= files@.take(i as int));
            assert(sources@.take(i + 1).drop_last() =~= sources@.take(i as int));
            assert(files@.take(i + 1).last() == files@[i as int]);
            assert(sources@.take(i + 1).last() == sources@[i as int]);
        }
        match scan_file(config, &files[i], sources[i].as_str()) {
            Ok(found) => {
                let mut found = found;
                let ghost found_view = found@;
                all.append(&mut found);
                proof {
                    assert(all@.take(prev.len() as int) =~= prev);
                    assert(all@.skip(prev.len() as int) =~= found_view);
                }
            },
            Err(e) => {
                return Err(e);
            },
        }
        i = i + 1;
    }
    proof {
        assert(files@.take(i as int) =~= files@);
        assert(sources@.take(i as int) =~= sources@);
    }
    Ok(all)
}

/// What a report can tell of a candidate, as plain values.
pub open spec fn cand_view(c: Candidate) -> (Seq<char>, Language, Seq<char>, Option<Seq<char>>, usize, usize, usize, Set<Seq<char>>) {
    (c.file@, c.language, c.kind@, opt_view(c.name), c.start_line, c.end_line, c.nodes, c.fingerprints@)
}

/// `a` and `b` hold the same candidates, one by one.
pub open spec fn same_cands(a: Seq<Candidate>, b: Seq<Candidate>) -> bool {
    &&& a.len() == b.len()
    &&& forall|k: int| 0 <= k < a.len() ==> cand_view(#[trigger] a[k]) == cand_view(b[k])
}

/// Two configurations that pick and build candidates alike.
pub open spec fn same_scan_settings(c1: Config, c2: Config) -> bool {
    &&& c1.min_lines == c2.min_lines
    &&& c1.min_nodes == c2.min_nodes
    &&& c1.normalization == c2.normalization
}

proof fn lemma_same_cands_split(a: Seq<Candidate>, b: Seq<Candidate>, k: int)
    requires
        0 <= k <= a.len(),
        k <= b.len(),
        same_cands(a.take(k), b.take(k)),
        same_cands(a.skip(k), b.skip(k)),
    ensures
        same_cands(a, b),
{
    assert forall|i: int| 0 <= i < a.len() implies cand_view(#[trigger] a[i]) == cand_view(b[i]) by {
        if i < k {
            assert(a.take(k)[i] == a[i]);
            assert(b.take(k)[i] == b[i]);
        } else {
            assert(a.skip(k)[i - k] == a[i]);
            assert(b.skip(k)[i - k] == b[i]);
        }
    }
}

proof fn lemma_count_same(node: SyntaxNode, language: Language, c1: Config, c2: Config)
    requires
        same_scan_settings(c1, c2),
    ensures
        spec_count(node, language, c1) == spec_count(node, language, c2),
    decreases node,
{
    lemma_count_list_same(node.children@, language, c1, c2);
}

proof fn lemma_count_list_same(cs: Seq<SyntaxNode>, language: Language, c1: Config, c2: Config)
    requires
        same_scan_settings(c1, c2),
    ensures
        spec_count_list(cs, language, c1) == spec_count_list(cs, language, c2),
    decreases cs,
{
    if cs.len() > 0 {
        lemma_count_list_same(cs.drop_last(), language, c1, c2);
        lemma_count_same(cs.last(), language, c1, c2);
    }
}

proof fn lemma_candidate_unique(
    node: SyntaxNode,
    src: Seq<char>,
    file: SourceFile,
    c1: Config,
    c2: Config,
    ctx: Option<Option<Seq<char>>>,
    a: Candidate,
    b: Candidate,
)
    requires
        same_scan_settings(c1, c2),
        candidate_of(node, src, file, c1, ctx, a),
        candidate_of(node, src, file, c2, ctx, b),
    ensures
        cand_view(a) == cand_view(b),
{
    let n1 = choose|n: Normalized| #[trigger] normalized_as(node, src, c1.normalization, n)
        && a.fingerprints@ == capped_set(spec_subtree_reprs(n))
        && a.fingerprints@.subset_of(spec_fingerprints(n))
        && (spec_fingerprints(n).len() <= isize::MAX ==> a.fingerprints@ == spec_fingerprints(n));
    let n2 = choose|n: Normalized| #[trigger] normalized_as(node, src, c2.normalization, n)
        && b.fingerprints@ == capped_set(spec_subtree_reprs(n))
        && b.fingerprints@.subset_of(spec_fingerprints(n))
        && (spec_fingerprints(n).len() <= isize::MAX ==> b.fingerprints@ == spec_fingerprints(n));
    lemma_normalized_unique(node, src, c1.normalization, n1, n2);
}

proof fn lemma_collected_unique(
    node: SyntaxNode,
    src: Seq<char>,
    file: SourceFile,
    c1: Config,
    c2: Config,
    ctx: Option<Option<Seq<char>>>,
    a: Seq<Candidate>,
    b: Seq<Candidate>,
)
    requires
        same_scan_settings(c1, c2),
        collected(node, src, file, c1, ctx, a),
        collected(node, src, file, c2, ctx, b),
    ensures
        same_cands(a, b),
    decreases node,
{
    let own: int = if spec_selected(node, file.language, c1) { 1 } else { 0 };
    assert(spec_selected(node, file.language, c1) == spec_selected(node, file.language, c2));
    lemma_collected_list_unique(node.children@, src, file, c1, c2, spec_context_after(node, src, ctx), a.skip(own), b.skip(own));
    if own == 1 {
        lemma_candidate_unique(node, src, file, c1, c2, ctx, a[0], b[0]);
        assert(a.take(1)[0] == a[0]);
        assert(b.take(1)[0] == b[0]);
    }
    lemma_same_cands_split(a, b, own);
}

proof fn lemma_collected_list_unique(
    children: Seq<SyntaxNode>,
    src: Seq<char>,
    file: SourceFile,
    c1: Config,
    c2: Config,
    ctx: Option<Option<Seq<char>>>,
    a: Seq<Candidate>,
    b: Seq<Candidate>,
)
    requires
        same_scan_settings(c1, c2),
        collected_list(children, src, file, c1, ctx, a),
        collected_list(children, src, file, c2, ctx, b),
    ensures
        same_cands(a, b),
    decreases children,
{
    if children.len() > 0 {
        let k = spec_count_list(children.drop_last(), file.language, c1) as int;
        lemma_count_list_same(children.drop_last(), file.language, c1, c2);
        lemma_collected_list_unique(children.drop_last(), src, file, c1, c2, ctx, a.take(k), b.take(k));
        if children.last().named {
            lemma_collected_unique(children.last(), src, file, c1, c2, ctx, a.skip(k), b.skip(k));
        }
        lemma_same_cands_split(a, b, k);
    }
}

proof fn lemma_count_files_same(files: Seq<SourceFile>, srcs: Seq<String>, c1: Config, c2: Config)
    requires
        same_scan_settings(c1, c2),
    ensures
        spec_count_files(files, srcs, c1) == spec_count_files(files, srcs, c2),
    decreases files.len(),
{
    if files.len() > 0 && srcs.len() == files.len() {
        lemma_count_files_same(files.drop_last(), srcs.drop_last(), c1, c2);
        lemma_count_same(scanned_tree(files.last(), srcs.last()@), files.last().language, c1, c2);
    }
}

/// Scanning is a function of the files and of the settings that pick and
/// build candidates: two scans of the same files under such settings give the
/// same candidates in the same order.
pub proof fn lemma_scan_unique(files: Seq<SourceFile>, srcs: Seq<String>, c1: Config, c2: Config, a: Seq<Candidate>, b: Seq<Candidate>)
    requires
        same_scan_settings(c1, c2),
        scanned_all(files, srcs, c1, a),
        scanned_all(files, srcs, c2, b),
    ensures
        same_cands(a, b),
    decreases files.len(),
{
    if files.len() > 0 && srcs.len() == files.len() {
        let k = spec_count_files(files.drop_last(), srcs.drop_last(), c1) as int;
        lemma_count_files_same(files.drop_last(), srcs.drop_last(), c1, c2);
        lemma_scan_unique(files.drop_last(), srcs.drop_last(), c1, c2, a.take(k), b.take(k));
        lemma_collected_unique(scanned_tree(files.last(), srcs.last()@), srcs.last()@, files.last(), c1, c2, None, a.skip(k), b.skip(k));
        lemma_same_cands_split(a, b, k);
    }
}

/// Which nodes make candidates. A named node big enough in lines and in
/// normalized nodes is one when it is, in Rust, a function with its block or
/// a closure, and in TypeScript or TSX, a function declaration or method with
/// its statement block, or an arrow function. Each is reported under its kind:
/// `function`, `closure`, `function`, `method`, `arrow_function`.
pub proof fn lemma_candidate_kinds(node: SyntaxNode, config: Config)
    requires
        node.named,
        spec_lines(node) >= config.min_lines,
        min_usize(spec_kept_count(node)) >= config.min_nodes,
    ensures
        node.kind@ == "closure_expression"@ ==> spec_selected(node, Language::Rust, config)
            && spec_candidate_kind(Language::Rust, node.kind@) == "closure"@,
        node.kind@ == "function_item"@ && spec_child_kind_exists(node.children@, "block"@)
            ==> spec_selected(node, Language::Rust, config) && spec_candidate_kind(Language::Rust, node.kind@) == "function"@,
        node.kind@ == "arrow_function"@ ==> spec_selected(node, Language::TypeScript, config)
            && spec_selected(node, Language::Tsx, config)
            && spec_candidate_kind(Language::TypeScript, node.kind@) == "arrow_function"@,
        node.kind@ == "function_declaration"@ && spec_child_kind_exists(node.children@, "statement_block"@)
            ==> spec_selected(node, Language::TypeScript, config) && spec_selected(node, Language::Tsx, config)
            && spec_candidate_kind(Language::TypeScript, node.kind@) == "function"@,
        node.kind@ == "method_definition"@ && spec_child_kind_exists(node.children@, "statement_block"@)
            ==> spec_selected(node, Language::TypeScript, config) && spec_selected(node, Language::Tsx, config)
            && spec_candidate_kind(Language::TypeScript, node.kind@) == "method"@,
{
    reveal_strlit("comment");
    reveal_strlit("function_item");
    reveal_strlit("closure_expression");
    reveal_strlit("function_declaration");
    reveal_strlit("method_definition");
    reveal_strlit("arrow_function");
    reveal_strlit("function");
    reveal_strlit("bind");
    reveal_strlit("data_type");
    reveal_strlit("newtype");
    reveal_strlit("class");
    reveal_strlit("instance");
    assert("comment"@[1] != "closure_expression"@[1]);
    assert("comment"@[0] != "function_item"@[0]);
    assert("comment"@[0] != "arrow_function"@[0]);
    assert("comment"@[0] != "function_declaration"@[0]);
    assert("comment"@[0] != "method_definition"@[0]);
    assert("closure_expression"@[0] != "function_item"@[0]);
    assert("arrow_function"@[0] != "function_item"@[0]);
    assert("arrow_function"@[0] != "function_declaration"@[0]);
    assert("arrow_function"@[0] != "method_definition"@[0]);
    assert("method_definition"@[0] != "function_item"@[0]);
    assert("method_definition"@[0] != "function_declaration"@[0]);
    assert("function_declaration"@.len() != "function_item"@.len());
    assert("function_declaration"@.len() != "function"@.len());
    assert("function_item"@.len() != "function"@.len());
    assert("closure_expression"@[0] != "function"@[0]);
    assert("closure_expression"@[0] != "bind"@[0]);
    assert("closure_expression"@[0] != "data_type"@[0]);
    assert("closure_expression"@[0] != "newtype"@[0]);
    assert("closure_expression"@.len() != "class"@.len());
    assert("closure_expression"@[0] != "instance"@[0]);
    assert("arrow_function"@[0] != "function"@[0]);
    assert("arrow_function"@[0] != "bind"@[0]);
    assert("arrow_function"@[0] != "data_type"@[0]);
    assert("arrow_function"@[0] != "newtype"@[0]);
    assert("arrow_function"@[0] != "class"@[0]);
    assert("arrow_function"@[0] != "instance"@[0]);
    assert("method_definition"@[0] != "function"@[0]);
    assert("method_definition"@[0] != "bind"@[0]);
    assert("method_definition"@[0] != "data_type"@[0]);
    assert("method_definition"@[0] != "newtype"@[0]);
    assert("method_definition"@[0] != "class"@[0]);
    assert("method_definition"@[0] != "instance"@[0]);
}

} // verus!
