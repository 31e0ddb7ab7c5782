use vstd::prelude::*;
use vstd::string::*;
use vstd::utf8::*;

verus! {

broadcast use {
    vstd::utf8::encode_utf8_decode_utf8,
    vstd::utf8::encode_utf8_valid_utf8,
    vstd::utf8::valid_utf8_split,
    vstd::utf8::is_char_boundary_start_end_of_seq,
    vstd::utf8::is_char_boundary_iff_not_is_continuation_byte,
};

/// One node of a concrete syntax tree, held as plain values: its kind, whether
/// the grammar names it, the field under which its parent holds it, the rows
/// and byte offsets it spans in the source, and its children in order.
#[derive(Debug)]
pub struct SyntaxNode {
    pub kind: String,
    pub named: bool,
    pub field: Option<String>,
    pub start_row: usize,
    pub end_row: usize,
    pub start_byte: usize,
    pub end_byte: usize,
    pub children: Vec<SyntaxNode>,
}

/// The text between two byte offsets of `src`, when both fall on character
/// boundaries in order.
pub open spec fn spec_slice_text(src: Seq<char>, start: int, end: int) -> Option<Seq<char>> {
    let bytes = encode_utf8(src);
    if start <= end && is_char_boundary(bytes, start) && is_char_boundary(bytes, end) {
        Some(decode_utf8(bytes.subrange(start, end)))
    } else {
        None
    }
}

/// The source text that `node` spans, when its offsets fall on character boundaries.
pub open spec fn spec_text(node: SyntaxNode, src: Seq<char>) -> Option<Seq<char>> {
    spec_slice_text(src, node.start_byte as int, node.end_byte as int)
}

/// The text between two byte offsets of `source`.
pub fn slice_text(source: &str, start: usize, end: usize) -> (r: Option<String>)
    ensures
        match r {
            Some(t) => spec_slice_text(source@, start as int, end as int) == Some(t@),
            None => spec_slice_text(source@, start as int, end as int) is None,
        },
{
    let ghost bytes = encode_utf8(source@);
    assert(source.spec_bytes() == bytes);
    let byte_len = source.as_bytes().len();
    if start > end || end > byte_len {
        proof {
            assert(valid_utf8(bytes));
            if start <= end {
                lemma_boundary_past_end(bytes, end as int);
            }
        }
        return None;
    }
    if !source.is_char_boundary(start) || !source.is_char_boundary(end) {
        return None;
    }
    let (head, _) = source.split_at(end);
    proof {
        assert(valid_utf8(bytes));
        assert(head.spec_bytes() =~= bytes.subrange(0, end as int));
        assert(valid_utf8(bytes.subrange(0, end as int)));
        let prefix = bytes.subrange(0, end as int);
        if start < end {
            assert(prefix[start as int] == bytes[start as int]);
            is_char_boundary_iff_not_is_continuation_byte(bytes, start as int);
            is_char_boundary_iff_not_is_continuation_byte(prefix, start as int);
        } else {
            is_char_boundary_start_end_of_seq(prefix);
        }
        assert(is_char_boundary(head.spec_bytes(), start as int));
    }
    let (_, mid) = head.split_at(start);
    proof {
        assert(mid.spec_bytes() =~= bytes.subrange(start as int, end as int));
        assert(decode_utf8(encode_utf8(mid@)) == mid@);
    }
    Some(mid.to_owned())
}

proof fn lemma_boundary_past_end(bytes: Seq<u8>, index: int)
    requires
        valid_utf8(bytes),
        index > bytes.len(),
    ensures
        !is_char_boundary(bytes, index),
{
    reveal_with_fuel(is_char_boundary, 1);
}

/// The source text that `node` spans.
pub fn text_of(node: &SyntaxNode, source: &str) -> (r: Option<String>)
    ensures
        match r {
            Some(t) => spec_text(*node, source@) == Some(t@),
            None => spec_text(*node, source@) is None,
        },
{
    slice_text(source, node.start_byte, node.end_byte)
}

/// The first child that its parent holds under the field `name`.
pub open spec fn spec_child_by_field(children: Seq<SyntaxNode>, name: Seq<char>) -> Option<SyntaxNode>
    decreases children.len(),
{
    if children.len() == 0 {
        None
    } else {
        match spec_child_by_field(children.drop_last(), name) {
            Some(c) => Some(c),
            None => match children.last().field {
                Some(f) => if f@ == name { Some(children.last()) } else { None },
                None => None,
            },
        }
    }
}

/// Index of the first child held under the field `name`.
pub fn child_by_field(node: &SyntaxNode, name: &str) -> (r: Option<usize>)
    ensures
        match r {
            Some(i) => i < node.children@.len() && spec_child_by_field(node.children@, name@)
                == Some(node.children@[i as int]),
            None => spec_child_by_field(node.children@, name@) is None,
        },
{
    let mut i: usize = 0;
    while i < node.children.len()
        invariant
            0 <= i <= node.children@.len(),
            spec_child_by_field(node.children@.take(i as int), name@) is None,
        decreases node.children@.len() - i,
    {
        proof {
            assert(node.children@.take(i + 1).drop_last() =~= node.children@.take(i as int));
        }
        let matched = match &node.children[i].field {
            Some(f) => crate::text::str_eq(f.as_str(), name),
            None => false,
        };
        if matched {
            proof {
                lemma_child_by_field_prefix(node.children@, name@, i + 1);
            }
            return Some(i);
        }
        i = i + 1;
    }
    assert(node.children@.take(i as int) =~= node.children@);
    None
}

/// Once a prefix finds a child by field, the whole sequence finds the same one.
pub proof fn lemma_child_by_field_prefix(children: Seq<SyntaxNode>, name: Seq<char>, k: int)
    requires
        0 <= k <= children.len(),
        spec_child_by_field(children.take(k), name) is Some,
    ensures
        spec_child_by_field(children, name) == spec_child_by_field(children.take(k), name),
    decreases children.len() - k,
{
    if k < children.len() {
        assert(children.take(k + 1).drop_last() =~= children.take(k));
        lemma_child_by_field_prefix(children, name, k + 1);
    } else {
        assert(children.take(k) =~= children);
    }
}

} // verus!
