use vstd::prelude::*;

use crate::language::Language;
use crate::syntax::SyntaxNode;
use crate::DryerError;

verus! {

#[verifier::external_type_specification]
#[verifier::external_body]
pub struct ExTreeSitterNode<'tree>(tree_sitter::Node<'tree>);

/// Why a tree-sitter parse gave no tree.
#[derive(Debug)]
pub enum ParseFailure {
    /// The parser refused the grammar; the message says why.
    Grammar(String),
    /// The parser returned no tree.
    NoTree,
}

/// The syntax tree that `tree_sitter::Parser::parse` builds from `source` with
/// the grammar `tree_sitter_rust::LANGUAGE`, held as plain values.
pub uninterp spec fn rust_syntax(source: Seq<char>) -> Result<SyntaxNode, ParseFailure>;

/// The syntax tree that `tree_sitter::Parser::parse` builds from `source` with
/// the grammar `tree_sitter_typescript::LANGUAGE_TYPESCRIPT`, held as plain values.
pub uninterp spec fn typescript_syntax(source: Seq<char>) -> Result<SyntaxNode, ParseFailure>;

/// The syntax tree that `tree_sitter::Parser::parse` builds from `source` with
/// the grammar `tree_sitter_typescript::LANGUAGE_TSX`, held as plain values.
pub uninterp spec fn tsx_syntax(source: Seq<char>) -> Result<SyntaxNode, ParseFailure>;

/// Copies a tree-sitter node and everything under it into plain values, one
/// for one: `Node::kind`, `Node::is_named`, the field name that
/// `Node::field_name_for_child` gives it under its parent, its start and end
/// rows and bytes, and its children from `Node::child`. Nothing is claimed of
/// the copy; the parse wrappers below name what they return.
#[verifier::external_body]
fn syntax_of(node: tree_sitter::Node<'_>, field: Option<&str>) -> SyntaxNode {
    let children = (0..node.child_count()).map(|i| syntax_of(node.child(i).unwrap(), node.field_name_for_child(i))).collect();
    SyntaxNode {
        kind: node.kind().to_string(),
        named: node.is_named(),
        field: field.map(str::to_string),
        start_row: node.start_position().row,
        end_row: node.end_position().row,
        start_byte: node.start_byte(),
        end_byte: node.end_byte(),
        children,
    }
}

/// Parses `source` with `tree_sitter::Parser` and the Rust grammar. The result
/// is named `rust_syntax`; once `Parser::set_language` accepts the grammar,
/// `Parser::parse` returns a tree (it returns none only without a language).
#[verifier::external_body]
fn parse_rust(source: &str) -> (r: Result<SyntaxNode, ParseFailure>)
    ensures
        r == rust_syntax(source@),
        !(r matches Err(ParseFailure::NoTree)),
{
    let mut parser = tree_sitter::Parser::new();
    parser.set_language(&tree_sitter_rust::LANGUAGE.into()).map_err(|e| ParseFailure::Grammar(e.to_string()))?;
    parser.parse(source, None).map(|tree| syntax_of(tree.root_node(), None)).ok_or(ParseFailure::NoTree)
}

/// Parses `source` with `tree_sitter::Parser` and the TypeScript grammar. The
/// result is named `typescript_syntax`; once the grammar is accepted,
/// `Parser::parse` returns a tree.
#[verifier::external_body]
fn parse_typescript(source: &str) -> (r: Result<SyntaxNode, ParseFailure>)
    ensures
        r == typescript_syntax(source@),
        !(r matches Err(ParseFailure::NoTree)),
{
    let mut parser = tree_sitter::Parser::new();
    parser.set_language(&tree_sitter_typescript::LANGUAGE_TYPESCRIPT.into()).map_err(|e| ParseFailure::Grammar(e.to_string()))?;
    parser.parse(source, None).map(|tree| syntax_of(tree.root_node(), None)).ok_or(ParseFailure::NoTree)
}

/// Parses `source` with `tree_sitter::Parser` and the TSX grammar. The result
/// is named `tsx_syntax`; once the grammar is accepted, `Parser::parse`
/// returns a tree.
#[verifier::external_body]
fn parse_tsx(source: &str) -> (r: Result<SyntaxNode, ParseFailure>)
    ensures
        r == tsx_syntax(source@),
        !(r matches Err(ParseFailure::NoTree)),
{
    let mut parser = tree_sitter::Parser::new();
    parser.set_language(&tree_sitter_typescript::LANGUAGE_TSX.into()).map_err(|e| ParseFailure::Grammar(e.to_string()))?;
    parser.parse(source, None).map(|tree| syntax_of(tree.root_node(), None)).ok_or(ParseFailure::NoTree)
}

/// What tree-sitter makes of `source` in the grammar of `language`; Haskell
/// and Daml have no grammar here.
pub open spec fn spec_grammar_parse(language: Language, source: Seq<char>) -> Option<Result<SyntaxNode, ParseFailure>> {
    match language {
        Language::Rust => Some(rust_syntax(source)),
        Language::TypeScript => Some(typescript_syntax(source)),
        Language::Tsx => Some(tsx_syntax(source)),
        Language::Haskell | Language::Daml => None,
    }
}

/// The syntax tree of `source`, read as `language`.
pub fn parse_source(language: Language, source: &str) -> (r: Result<SyntaxNode, DryerError>)
    ensures
        match spec_grammar_parse(language, source@) {
            None => r matches Err(DryerError::ParserLanguage { language: l, .. }) && l == language,
            Some(Ok(tree)) => r == Ok::<SyntaxNode, DryerError>(tree),
            Some(Err(ParseFailure::Grammar(message))) => r == Err::<SyntaxNode, DryerError>(
                DryerError::ParserLanguage { language, message },
            ),
            Some(Err(ParseFailure::NoTree)) => false,
        },
{
    let parsed = match language {
        Language::Rust => parse_rust(source),
        Language::TypeScript => parse_typescript(source),
        Language::Tsx => parse_tsx(source),
        Language::Haskell | Language::Daml => {
            return Err(DryerError::ParserLanguage {
                language,
                message: crate::text::owned("no grammar is available for this language"),
            });
        },
    };
    match parsed {
        Ok(tree) => Ok(tree),
        Err(ParseFailure::Grammar(message)) => Err(DryerError::ParserLanguage { language, message }),
        Err(ParseFailure::NoTree) => Err(DryerError::Parse { path: crate::text::owned("<memory>") }),
    }
}

} // verus!
