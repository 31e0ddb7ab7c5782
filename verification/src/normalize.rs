use vstd::prelude::*;
use vstd::string::*;

use crate::config::{NameMode, NormalizationConfig};
use crate::syntax::{SyntaxNode, spec_text, text_of};
use crate::text::{str_eq, contains_str, seq_contains};

verus! {

/// A syntax tree with incidental detail taken out: each node keeps a label
/// and its children in order.
#[derive(Debug)]
pub struct Normalized {
    pub label: String,
    pub children: Vec<Normalized>,
}

/// The number of nodes in a normalized tree.
pub open spec fn spec_node_count(n: Normalized) -> nat
    decreases n,
{
    1 + spec_count_all(n.children@)
}

/// The number of nodes in a sequence of normalized trees.
pub open spec fn spec_count_all(s: Seq<Normalized>) -> nat
    decreases s,
{
    if s.len() == 0 {
        0
    } else {
        spec_count_all(s.drop_last()) + spec_node_count(s.last())
    }
}

/// The text form of a normalized tree: a leaf is its label; any other node is
/// `(label child child ...)`, its children's forms separated by spaces.
pub open spec fn spec_repr(n: Normalized) -> Seq<char>
    decreases n,
{
    if n.children@.len() == 0 {
        n.label@
    } else {
        "("@ + n.label@ + spec_joined(n.children@) + ")"@
    }
}

/// The text forms of a sequence of trees, each preceded by a space.
pub open spec fn spec_joined(s: Seq<Normalized>) -> Seq<char>
    decreases s,
{
    if s.len() == 0 {
        Seq::empty()
    } else {
        spec_joined(s.drop_last()) + " "@ + spec_repr(s.last())
    }
}

/// The text forms of a tree and of every subtree in it, in pre-order.
pub open spec fn spec_subtree_reprs(n: Normalized) -> Seq<Seq<char>>
    decreases n,
{
    seq![spec_repr(n)] + spec_all_subtree_reprs(n.children@)
}

/// The text forms of the subtrees of a sequence of trees, in pre-order.
pub open spec fn spec_all_subtree_reprs(s: Seq<Normalized>) -> Seq<Seq<char>>
    decreases s,
{
    if s.len() == 0 {
        Seq::empty()
    } else {
        spec_all_subtree_reprs(s.drop_last()) + spec_subtree_reprs(s.last())
    }
}

pub open spec fn min_usize(x: nat) -> usize {
    if x <= usize::MAX { x as usize } else { usize::MAX }
}

impl Normalized {
    /// A node with the given label and children.
    pub fn new(label: String, children: Vec<Normalized>) -> (r: Self)
        ensures
            r.label == label,
            r.children == children,
    {
        Normalized { label, children }
    }

    /// The number of nodes in this tree (saturating at `usize::MAX`).
    pub fn node_count(&self) -> (r: usize)
        ensures
            r == min_usize(spec_node_count(*self)),
        decreases self,
    {
        let mut total: usize = 1;
        let mut i: usize = 0;
        while i < self.children.len()
            invariant
                0 <= i <= self.children@.len(),
                total == min_usize(1 + spec_count_all(self.children@.take(i as int))),
            decreases self.children@.len() - i,
        {
            proof {
                assert(self.children@.take(i + 1).drop_last() =~= self.children@.take(i as int));
                assert(self.children@.take(i + 1).last() == self.children@[i as int]);
            }
            let c = self.children[i].node_count();
            total = total.saturating_add(c);
            i = i + 1;
        }
        assert(self.children@.take(i as int) =~= self.children@);
        total
    }

    /// The text form of this tree.
    pub fn repr(&self) -> (r: String)
        ensures
            r@ == spec_repr(*self),
        decreases self,
    {
        if self.children.len() == 0 {
            return self.label.clone();
        }
        let mut out = String::new();
        out.append("(");
        out.append(self.label.as_str());
        let mut i: usize = 0;
        while i < self.children.len()
            invariant
                0 <= i <= self.children@.len(),
                out@ == "("@ + self.label@ + spec_joined(self.children@.take(i as int)),
            decreases self.children@.len() - i,
        {
            proof {
                assert(self.children@.take(i + 1).drop_last() =~= self.children@.take(i as int));
                assert(self.children@.take(i + 1).last() == self.children@[i as int]);
            }
            let child = self.children[i].repr();
            out.append(" ");
            out.append(child.as_str());
            i = i + 1;
        }
        assert(self.children@.take(i as int) =~= self.children@);
        out.append(")");
        out
    }

    /// Appends to `out` the text form of this tree and of every subtree, in pre-order.
    pub fn child_reprs(&self, out: &mut Vec<String>)
        ensures
            crate::config::string_views(final(out)@) == crate::config::string_views(old(out)@)
                + spec_subtree_reprs(*self),
        decreases self,
    {
        let r = self.repr();
        out.push(r);
        proof {
            assert(crate::config::string_views(out@) =~= crate::config::string_views(old(out)@) + seq![spec_repr(*self)]);
        }
        let mut i: usize = 0;
        while i < self.children.len()
            invariant
                0 <= i <= self.children@.len(),
                crate::config::string_views(out@) == crate::config::string_views(old(out)@)
                    + seq![spec_repr(*self)] + spec_all_subtree_reprs(self.children@.take(i as int)),
            decreases self.children@.len() - i,
        {
            proof {
                assert(self.children@.take(i + 1).drop_last() =~= self.children@.take(i as int));
                assert(self.children@.take(i + 1).last() == self.children@[i as int]);
            }
            self.children[i].child_reprs(out);
            proof {
                assert(crate::config::string_views(out@) =~= crate::config::string_views(old(out)@)
                    + seq![spec_repr(*self)] + spec_all_subtree_reprs(self.children@.take(i + 1)));
            }
            i = i + 1;
        }
        assert(self.children@.take(i as int) =~= self.children@);
        assert(crate::config::string_views(out@) =~= crate::config::string_views(old(out)@) + spec_subtree_reprs(*self));
    }
}

} // verus!

verus! {

/// The label that an anonymous token keeps, if it carries meaning: operators
/// keep their symbol, and strict and loose equality share one label.
pub open spec fn spec_meaningful_token(kind: Seq<char>) -> Option<Seq<char>> {
    if kind == "+"@ { Some("+"@) }
    else if kind == "-"@ { Some("-"@) }
    else if kind == "*"@ { Some("*"@) }
    else if kind == "/"@ { Some("/"@) }
    else if kind == "%"@ { Some("%"@) }
    else if kind == "=="@ || kind == "==="@ { Some("eq"@) }
    else if kind == "!="@ || kind == "!=="@ { Some("neq"@) }
    else if kind == "<"@ { Some("<"@) }
    else if kind == ">"@ { Some(">"@) }
    else if kind == "<="@ { Some("<="@) }
    else if kind == ">="@ { Some(">="@) }
    else if kind == "&&"@ { Some("&&"@) }
    else if kind == "||"@ { Some("||"@) }
    else if kind == "!"@ { Some("!"@) }
    else if kind == "??"@ { Some("??"@) }
    else if kind == "?"@ { Some("?"@) }
    else if kind == "="@ { Some("="@) }
    else if kind == "+="@ { Some("+="@) }
    else if kind == "-="@ { Some("-="@) }
    else if kind == "*="@ { Some("*="@) }
    else if kind == "/="@ { Some("/="@) }
    else if kind == "%="@ { Some("%="@) }
    else if kind == "=>"@ { Some("=>"@) }
    else if kind == ".."@ { Some(".."@) }
    else if kind == "..="@ { Some("..="@) }
    else if kind == "&"@ { Some("&"@) }
    else if kind == "|"@ { Some("|"@) }
    else if kind == "^"@ { Some("^"@) }
    else if kind == "<<"@ { Some("<<"@) }
    else if kind == ">>"@ { Some(">>"@) }
    else { None }
}

/// The label that an anonymous token keeps, if it carries meaning.
pub fn meaningful_token(kind: &str) -> (r: Option<&'static str>)
    ensures
        match r {
            Some(t) => spec_meaningful_token(kind@) == Some(t@),
            None => spec_meaningful_token(kind@) is None,
        },
{
    if str_eq(kind, "+") { Some("+") }
    else if str_eq(kind, "-") { Some("-") }
    else if str_eq(kind, "*") { Some("*") }
    else if str_eq(kind, "/") { Some("/") }
    else if str_eq(kind, "%") { Some("%") }
    else if str_eq(kind, "==") || str_eq(kind, "===") { Some("eq") }
    else if str_eq(kind, "!=") || str_eq(kind, "!==") { Some("neq") }
    else if str_eq(kind, "<") { Some("<") }
    else if str_eq(kind, ">") { Some(">") }
    else if str_eq(kind, "<=") { Some("<=") }
    else if str_eq(kind, ">=") { Some(">=") }
    else if str_eq(kind, "&&") { Some("&&") }
    else if str_eq(kind, "||") { Some("||") }
    else if str_eq(kind, "!") { Some("!") }
    else if str_eq(kind, "??") { Some("??") }
    else if str_eq(kind, "?") { Some("?") }
    else if str_eq(kind, "=") { Some("=") }
    else if str_eq(kind, "+=") { Some("+=") }
    else if str_eq(kind, "-=") { Some("-=") }
    else if str_eq(kind, "*=") { Some("*=") }
    else if str_eq(kind, "/=") { Some("/=") }
    else if str_eq(kind, "%=") { Some("%=") }
    else if str_eq(kind, "=>") { Some("=>") }
    else if str_eq(kind, "..") { Some("..") }
    else if str_eq(kind, "..=") { Some("..=") }
    else if str_eq(kind, "&") { Some("&") }
    else if str_eq(kind, "|") { Some("|") }
    else if str_eq(kind, "^") { Some("^") }
    else if str_eq(kind, "<<") { Some("<<") }
    else if str_eq(kind, ">>") { Some(">>") }
    else { None }
}

/// Node kinds that name something: their text is incidental unless names are strict.
pub open spec fn spec_is_identifier(kind: Seq<char>) -> bool {
    kind == "identifier"@ || kind == "field_identifier"@ || kind == "property_identifier"@
        || kind == "shorthand_property_identifier"@ || kind == "type_identifier"@
        || kind == "scoped_type_identifier"@ || kind == "namespace_identifier"@
        || kind == "label_identifier"@
}

/// Whether nodes of this kind name something.
pub fn is_identifier(kind: &str) -> (r: bool)
    ensures
        r == spec_is_identifier(kind@),
{
    str_eq(kind, "identifier") || str_eq(kind, "field_identifier") || str_eq(kind, "property_identifier")
        || str_eq(kind, "shorthand_property_identifier") || str_eq(kind, "type_identifier")
        || str_eq(kind, "scoped_type_identifier") || str_eq(kind, "namespace_identifier")
        || str_eq(kind, "label_identifier")
}

/// Node kinds that write a literal value.
pub open spec fn spec_is_literal(kind: Seq<char>) -> bool {
    seq_contains(kind, "literal"@) || kind == "string"@ || kind == "template_string"@
        || kind == "number"@ || kind == "regex"@ || kind == "true"@ || kind == "false"@
        || kind == "null"@ || kind == "undefined"@
}

/// Whether nodes of this kind write a literal value.
pub fn is_literal(kind: &str) -> (r: bool)
    ensures
        r == spec_is_literal(kind@),
{
    contains_str(kind, "literal") || str_eq(kind, "string") || str_eq(kind, "template_string")
        || str_eq(kind, "number") || str_eq(kind, "regex") || str_eq(kind, "true") || str_eq(kind, "false")
        || str_eq(kind, "null") || str_eq(kind, "undefined")
}

/// The label that stands for every literal of a kind: only its sort survives.
pub open spec fn spec_literal_label(kind: Seq<char>) -> Seq<char> {
    if seq_contains(kind, "string"@) || kind == "template_string"@ {
        "literal:string"@
    } else if seq_contains(kind, "char"@) {
        "literal:char"@
    } else if seq_contains(kind, "number"@) || seq_contains(kind, "integer"@) || seq_contains(kind, "float"@) {
        "literal:number"@
    } else if kind == "true"@ || kind == "false"@ {
        "literal:boolean"@
    } else if kind == "null"@ || kind == "undefined"@ {
        "literal:nullish"@
    } else {
        "literal"@
    }
}

/// The label that stands for every literal of a kind.
pub fn literal_label(kind: &str) -> (r: &'static str)
    ensures
        r@ == spec_literal_label(kind@),
{
    if contains_str(kind, "string") || str_eq(kind, "template_string") {
        "literal:string"
    } else if contains_str(kind, "char") {
        "literal:char"
    } else if contains_str(kind, "number") || contains_str(kind, "integer") || contains_str(kind, "float") {
        "literal:number"
    } else if str_eq(kind, "true") || str_eq(kind, "false") {
        "literal:boolean"
    } else if str_eq(kind, "null") || str_eq(kind, "undefined") {
        "literal:nullish"
    } else {
        "literal"
    }
}

/// The text a node spans, or empty text when its offsets are unusable.
pub open spec fn spec_node_text(node: SyntaxNode, src: Seq<char>) -> Seq<char> {
    match spec_text(node, src) {
        Some(t) => t,
        None => Seq::empty(),
    }
}

/// The text a node spans, or empty text when its offsets are unusable.
pub fn node_text(node: &SyntaxNode, source: &str) -> (r: String)
    ensures
        r@ == spec_node_text(*node, source@),
{
    match text_of(node, source) {
        Some(t) => t,
        None => String::new(),
    }
}

/// The first named child that names something.
pub open spec fn spec_first_identifier(children: Seq<SyntaxNode>) -> Option<SyntaxNode>
    decreases children.len(),
{
    if children.len() == 0 {
        None
    } else {
        match spec_first_identifier(children.drop_last()) {
            Some(c) => Some(c),
            None => if children.last().named && spec_is_identifier(children.last().kind@) {
                Some(children.last())
            } else {
                None
            },
        }
    }
}

proof fn lemma_first_identifier_prefix(children: Seq<SyntaxNode>, k: int)
    requires
        0 <= k <= children.len(),
        spec_first_identifier(children.take(k)) is Some,
    ensures
        spec_first_identifier(children) == spec_first_identifier(children.take(k)),
    decreases children.len() - k,
{
    if k < children.len() {
        assert(children.take(k + 1).drop_last() =~= children.take(k));
        lemma_first_identifier_prefix(children, k + 1);
    } else {
        assert(children.take(k) =~= children);
    }
}

/// The text of the first named child that names something.
pub fn first_identifier_text(node: &SyntaxNode, source: &str) -> (r: Option<String>)
    ensures
        match r {
            Some(t) => spec_first_identifier(node.children@) is Some
                && t@ == spec_node_text(spec_first_identifier(node.children@).unwrap(), source@),
            None => spec_first_identifier(node.children@) is None,
        },
{
    let mut i: usize = 0;
    while i < node.children.len()
        invariant
            0 <= i <= node.children@.len(),
            spec_first_identifier(node.children@.take(i as int)) is None,
        decreases node.children@.len() - i,
    {
        proof {
            assert(node.children@.take(i + 1).drop_last() =~= node.children@.take(i as int));
        }
        let child = &node.children[i];
        if child.named && is_identifier(child.kind.as_str()) {
            proof {
                lemma_first_identifier_prefix(node.children@, i + 1);
            }
            return Some(node_text(child, source));
        }
        i = i + 1;
    }
    assert(node.children@.take(i as int) =~= node.children@);
    None
}

/// The label a named node gets: a macro call keeps its macro's name, a name is
/// replaced by `ident` (kept in full when names are strict), a literal by its
/// sort, and any other node keeps its kind.
pub open spec fn spec_label(node: SyntaxNode, src: Seq<char>, config: NormalizationConfig) -> Seq<char> {
    let kind = node.kind@;
    if kind == "macro_invocation"@ && spec_first_identifier(node.children@) is Some {
        "macro:"@ + spec_node_text(spec_first_identifier(node.children@).unwrap(), src)
    } else if spec_is_identifier(kind) {
        if config.name_mode == NameMode::Strict {
            "ident:"@ + spec_node_text(node, src)
        } else {
            "ident"@
        }
    } else if spec_is_literal(kind) {
        spec_literal_label(kind)
    } else {
        kind
    }
}

/// The label a named node gets.
pub fn label_for(node: &SyntaxNode, source: &str, config: &NormalizationConfig) -> (r: String)
    ensures
        r@ == spec_label(*node, source@, *config),
{
    let kind = node.kind.as_str();
    if str_eq(kind, "macro_invocation") {
        if let Some(name) = first_identifier_text(node, source) {
            let mut out = String::new();
            out.append("macro:");
            out.append(name.as_str());
            return out;
        }
    }
    if is_identifier(kind) {
        return match config.name_mode {
            NameMode::Strict => {
                let mut out = String::new();
                out.append("ident:");
                let t = node_text(node, source);
                out.append(t.as_str());
                out
            },
            NameMode::Loose | NameMode::Balanced => crate::text::owned("ident"),
        };
    }
    if is_literal(kind) {
        return crate::text::owned(literal_label(kind));
    }
    crate::text::owned(kind)
}

/// Whether a node survives normalization: an anonymous token only when it
/// carries meaning, a named node unless it is a comment.
pub open spec fn spec_kept(node: SyntaxNode) -> bool {
    if !node.named {
        spec_meaningful_token(node.kind@) is Some
    } else {
        node.kind@ != "comment"@
    }
}

/// `n` is the normalized form of `node`.
pub open spec fn normalized_as(node: SyntaxNode, src: Seq<char>, config: NormalizationConfig, n: Normalized) -> bool
    decreases node,
{
    if !node.named {
        &&& spec_meaningful_token(node.kind@) is Some
        &&& n.label@ == "token:"@ + spec_meaningful_token(node.kind@).unwrap()
        &&& n.children@.len() == 0
    } else {
        &&& node.kind@ != "comment"@
        &&& n.label@ == spec_label(node, src, config)
        &&& children_normalized_as(node.children@, src, config, n.children@)
    }
}

/// `ns` are the normalized forms of the nodes of `cs` that survive, in order.
pub open spec fn children_normalized_as(cs: Seq<SyntaxNode>, src: Seq<char>, config: NormalizationConfig, ns: Seq<Normalized>) -> bool
    decreases cs,
{
    if cs.len() == 0 {
        ns.len() == 0
    } else if spec_kept(cs.last()) {
        &&& ns.len() > 0
        &&& normalized_as(cs.last(), src, config, ns.last())
        &&& children_normalized_as(cs.drop_last(), src, config, ns.drop_last())
    } else {
        children_normalized_as(cs.drop_last(), src, config, ns)
    }
}

/// The normalized form of `node`, or `None` when the node does not survive
/// normalization.
pub fn normalize_node(node: &SyntaxNode, source: &str, config: &NormalizationConfig) -> (r: Option<Normalized>)
    ensures
        match r {
            Some(n) => spec_kept(*node) && normalized_as(*node, source@, *config, n),
            None => !spec_kept(*node),
        },
    decreases node,
{
    if !node.named {
        return match meaningful_token(node.kind.as_str()) {
            Some(label) => {
                let mut text = String::new();
                text.append("token:");
                text.append(label);
                Some(Normalized::new(text, Vec::new()))
            },
            None => None,
        };
    }
    if str_eq(node.kind.as_str(), "comment") {
        return None;
    }
    let mut children: Vec<Normalized> = Vec::new();
    let mut i: usize = 0;
    while i < node.children.len()
        invariant
            0 <= i <= node.children@.len(),
            children_normalized_as(node.children@.take(i as int), source@, *config, children@),
        decreases node.children@.len() - i,
    {
        proof {
            assert(node.children@.take(i + 1).drop_last() =~= node.children@.take(i as int));
            assert(node.children@.take(i + 1).last() == node.children@[i as int]);
        }
        let ghost before = children@;
        if let Some(normalized) = normalize_node(&node.children[i], source, config) {
            children.push(normalized);
            proof {
                assert(children@.drop_last() =~= before);
            }
        }
        i = i + 1;
    }
    assert(node.children@.take(i as int) =~= node.children@);
    Some(Normalized::new(label_for(node, source, config), children))
}

/// A normalized tree as mathematical values: its label and its children.
#[verifier::ext_equal]
pub struct NormView {
    pub label: Seq<char>,
    pub children: Seq<NormView>,
}

/// The view of a normalized tree.
pub open spec fn norm_view(n: Normalized) -> NormView
    decreases n,
{
    NormView { label: n.label@, children: norm_views(n.children@) }
}

/// The views of a sequence of normalized trees.
pub open spec fn norm_views(s: Seq<Normalized>) -> Seq<NormView>
    decreases s,
{
    if s.len() == 0 {
        Seq::empty()
    } else {
        norm_views(s.drop_last()).push(norm_view(s.last()))
    }
}

/// The name a macro call is labelled with, if it has one.
pub open spec fn spec_macro_name(node: SyntaxNode, src: Seq<char>) -> Option<Seq<char>> {
    match spec_first_identifier(node.children@) {
        Some(c) => Some(spec_node_text(c, src)),
        None => None,
    }
}

/// `a` (read from `sa`) and `b` (read from `sb`) are copies of one another
/// but for the text of their names and literals: the same kinds in the same
/// shape, and the same macro names.
pub open spec fn renamed_copy(a: SyntaxNode, sa: Seq<char>, b: SyntaxNode, sb: Seq<char>) -> bool
    decreases a,
{
    &&& a.kind@ == b.kind@
    &&& a.named == b.named
    &&& a.kind@ == "macro_invocation"@ ==> spec_macro_name(a, sa) == spec_macro_name(b, sb)
    &&& renamed_copies(a.children@, sa, b.children@, sb)
}

/// The trees of `as_` and `bs` are pairwise renamed copies.
pub open spec fn renamed_copies(as_: Seq<SyntaxNode>, sa: Seq<char>, bs: Seq<SyntaxNode>, sb: Seq<char>) -> bool
    decreases as_,
{
    if as_.len() == 0 {
        bs.len() == 0
    } else {
        &&& bs.len() == as_.len()
        &&& renamed_copy(as_.last(), sa, bs.last(), sb)
        &&& renamed_copies(as_.drop_last(), sa, bs.drop_last(), sb)
    }
}

proof fn lemma_renamed_children(
    as_: Seq<SyntaxNode>,
    sa: Seq<char>,
    bs: Seq<SyntaxNode>,
    sb: Seq<char>,
    config: NormalizationConfig,
    nas: Seq<Normalized>,
    nbs: Seq<Normalized>,
)
    requires
        config.name_mode != NameMode::Strict,
        renamed_copies(as_, sa, bs, sb),
        children_normalized_as(as_, sa, config, nas),
        children_normalized_as(bs, sb, config, nbs),
    ensures
        nas.len() == nbs.len(),
        spec_all_subtree_reprs(nas) == spec_all_subtree_reprs(nbs),
        spec_joined(nas) == spec_joined(nbs),
        spec_count_all(nas) == spec_count_all(nbs),
        norm_views(nas) == norm_views(nbs),
    decreases as_,
{
    if as_.len() > 0 {
        assert(renamed_copy(as_.last(), sa, bs.last(), sb));
        assert(as_.last().kind@ == bs.last().kind@ && as_.last().named == bs.last().named);
        assert(spec_kept(bs.last()) == spec_kept(as_.last()));
        if spec_kept(as_.last()) {
            lemma_renamed_normalizes_alike(as_.last(), sa, bs.last(), sb, config, nas.last(), nbs.last());
            lemma_renamed_children(as_.drop_last(), sa, bs.drop_last(), sb, config, nas.drop_last(), nbs.drop_last());
            assert(nas =~= nas.drop_last().push(nas.last()));
            assert(nbs =~= nbs.drop_last().push(nbs.last()));
        } else {
            lemma_renamed_children(as_.drop_last(), sa, bs.drop_last(), sb, config, nas, nbs);
        }
    }
}

/// A renamed copy survives normalization exactly when the tree it copies does.
pub proof fn lemma_renamed_kept_alike(a: SyntaxNode, sa: Seq<char>, b: SyntaxNode, sb: Seq<char>)
    requires
        renamed_copy(a, sa, b, sb),
    ensures
        spec_kept(a) == spec_kept(b),
{
}

/// A renamed copy normalizes alike: unless names are strict, two trees that
/// differ only in the text of their names and literals (and of the comments
/// that normalization drops) have the same normalized tree, so the same text
/// forms of subtrees, the same fingerprints and the same node count.
pub proof fn lemma_renamed_normalizes_alike(
    a: SyntaxNode,
    sa: Seq<char>,
    b: SyntaxNode,
    sb: Seq<char>,
    config: NormalizationConfig,
    na: Normalized,
    nb: Normalized,
)
    requires
        config.name_mode != NameMode::Strict,
        renamed_copy(a, sa, b, sb),
        normalized_as(a, sa, config, na),
        normalized_as(b, sb, config, nb),
    ensures
        norm_view(na) == norm_view(nb),
        spec_repr(na) == spec_repr(nb),
        spec_subtree_reprs(na) == spec_subtree_reprs(nb),
        crate::fingerprints::spec_fingerprints(na) == crate::fingerprints::spec_fingerprints(nb),
        spec_node_count(na) == spec_node_count(nb),
    decreases a,
{
    if a.named {
        lemma_renamed_children(a.children@, sa, b.children@, sb, config, na.children@, nb.children@);
        assert(na.label@ == nb.label@);
    }
}

/// Each node of a normalized tree gives one text form of a subtree.
pub proof fn lemma_subtree_reprs_count(n: Normalized)
    ensures
        spec_subtree_reprs(n).len() == spec_node_count(n),
    decreases n,
{
    lemma_all_subtree_reprs_count(n.children@);
}

proof fn lemma_all_subtree_reprs_count(s: Seq<Normalized>)
    ensures
        spec_all_subtree_reprs(s).len() == spec_count_all(s),
    decreases s,
{
    if s.len() > 0 {
        lemma_all_subtree_reprs_count(s.drop_last());
        lemma_subtree_reprs_count(s.last());
    }
}

proof fn lemma_children_unique(cs: Seq<SyntaxNode>, src: Seq<char>, config: NormalizationConfig, ns1: Seq<Normalized>, ns2: Seq<Normalized>)
    requires
        children_normalized_as(cs, src, config, ns1),
        children_normalized_as(cs, src, config, ns2),
    ensures
        ns1.len() == ns2.len(),
        norm_views(ns1) == norm_views(ns2),
        spec_all_subtree_reprs(ns1) == spec_all_subtree_reprs(ns2),
        spec_joined(ns1) == spec_joined(ns2),
    decreases cs,
{
    if cs.len() > 0 {
        if spec_kept(cs.last()) {
            lemma_normalized_unique(cs.last(), src, config, ns1.last(), ns2.last());
            lemma_children_unique(cs.drop_last(), src, config, ns1.drop_last(), ns2.drop_last());
        } else {
            lemma_children_unique(cs.drop_last(), src, config, ns1, ns2);
        }
    }
}

/// Normalization is a function: two normalized forms of one tree have the
/// same view, so the same text forms of subtrees.
pub proof fn lemma_normalized_unique(node: SyntaxNode, src: Seq<char>, config: NormalizationConfig, n1: Normalized, n2: Normalized)
    requires
        normalized_as(node, src, config, n1),
        normalized_as(node, src, config, n2),
    ensures
        norm_view(n1) == norm_view(n2),
        spec_repr(n1) == spec_repr(n2),
        spec_subtree_reprs(n1) == spec_subtree_reprs(n2),
    decreases node,
{
    if node.named {
        lemma_children_unique(node.children@, src, config, n1.children@, n2.children@);
    }
}

/// Every operator token is kept, and each keeps its own symbol as its label,
/// so distinct operators stay distinct; only strict and loose equality (`==`,
/// `===`) share the label `eq`, and `!=`, `!==` share `neq`.
pub proof fn lemma_operators_keep_their_symbols(kind: Seq<char>)
    ensures
        spec_meaningful_token(kind) is Some && kind != "=="@ && kind != "==="@ && kind != "!="@ && kind != "!=="@
            ==> spec_meaningful_token(kind) == Some(kind),
        kind == "+"@ || kind == "-"@ || kind == "*"@ || kind == "/"@ || kind == "%"@ || kind == "<"@
            || kind == ">"@ || kind == "<="@ || kind == ">="@ || kind == "&&"@ || kind == "||"@ || kind == "!"@
            || kind == "??"@ || kind == "?"@ || kind == "="@ || kind == "+="@ || kind == "-="@ || kind == "*="@
            || kind == "/="@ || kind == "%="@ || kind == "=>"@ || kind == ".."@ || kind == "..="@ || kind == "&"@
            || kind == "|"@ || kind == "^"@ || kind == "<<"@ || kind == ">>"@ || kind == "=="@ || kind == "==="@
            || kind == "!="@ || kind == "!=="@ ==> spec_meaningful_token(kind) is Some,
        kind == "=="@ || kind == "==="@ ==> spec_meaningful_token(kind) == Some("eq"@),
        kind == "!="@ || kind == "!=="@ ==> spec_meaningful_token(kind) == Some("neq"@),
{
    reveal_strlit("+");
    reveal_strlit("-");
    reveal_strlit("*");
    reveal_strlit("/");
    reveal_strlit("%");
    reveal_strlit("==");
    reveal_strlit("===");
    reveal_strlit("!=");
    reveal_strlit("!==");
    assert("!="@[0] != "=="@[0]);
    assert("!="@[0] != "==="@[0]);
    assert("!=="@[0] != "=="@[0]);
    assert("!=="@[0] != "==="@[0]);
}

/// Two operators get the same label only when they are the same operator or
/// the two spellings of one equality test.
pub proof fn lemma_operator_labels_distinct(a: Seq<char>, b: Seq<char>)
    requires
        spec_meaningful_token(a) is Some,
        spec_meaningful_token(a) == spec_meaningful_token(b),
        !(a == "=="@ || a == "==="@ || a == "!="@ || a == "!=="@),
        !(b == "=="@ || b == "==="@ || b == "!="@ || b == "!=="@),
    ensures
        a == b,
{
    lemma_operators_keep_their_symbols(a);
    lemma_operators_keep_their_symbols(b);
}

} // verus!
