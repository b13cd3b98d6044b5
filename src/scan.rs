//! Finding the code blocks of a markdown document with the `markdown` crate's
//! parser, and rewriting the document from them.

use vstd::prelude::*;
use markdown::mdast::Node;
use crate::rewrite::{rewrite_blocks, rewritten, CodeBlock};

verus! {

#[verifier::external_type_specification]
#[verifier::external_body]
pub struct ExNode(markdown::mdast::Node);

/// The syntax tree that `markdown::to_mdast` gives for a text under the
/// default options.
pub uninterp spec fn mdast_of(text: Seq<char>) -> Node;

/// The children that `markdown::mdast::Node::children` hands out for a node;
/// none for a node that has no children field.
pub uninterp spec fn children_of(node: Node) -> Seq<Node>;

/// The code block that a node is, read from its `Code` variant.
pub uninterp spec fn code_of(node: Node) -> Option<CodeBlock>;

/// Relies on `markdown::mdast::Node::children`: the children stored inside
/// the node itself, in order.
pub assume_specification[ markdown::mdast::Node::children ](node: &Node) -> (r: Option<
    &Vec<Node>,
>)
    ensures
        r matches Some(v) ==> v@ == children_of(*node),
        r is None ==> children_of(*node) == Seq::<Node>::empty(),
        r matches Some(v) ==> forall|i: int| 0 <= i < v@.len() ==> decreases_to!(*node => v@[i]),
;

/// Relies on `markdown::to_mdast` with the default options, which never
/// fails on markdown (only MDX, off by default, has syntax errors): the
/// syntax tree of `text`.
#[verifier::external_body]
fn parse_markdown(text: &str) -> (r: Result<Node, String>)
    ensures
        r is Ok,
        r matches Ok(t) ==> t == mdast_of(text@),
{
    markdown::to_mdast(text, &markdown::ParseOptions::default()).map_err(|m| m.to_string())
}

/// Relies on the `markdown::mdast::Node::Code` variant and its fields: the
/// block of a code node that has a position, with its byte offsets.
#[verifier::external_body]
fn code_block_of(node: &Node) -> (r: Option<CodeBlock>)
    ensures
        r == code_of(*node),
{
    if let Node::Code(c) = node {
        if let Some(p) = &c.position {
            return Some(CodeBlock {
                start: p.start.offset,
                end: p.end.offset,
                lang: c.lang.clone(),
                meta: c.meta.clone(),
                value: c.value.clone(),
            });
        }
    }
    None
}

pub open spec fn opt_seq(o: Option<CodeBlock>) -> Seq<CodeBlock> {
    match o {
        Some(b) => seq![b],
        None => Seq::<CodeBlock>::empty(),
    }
}

/// The code blocks of a node and of its descendants, depth first: the node
/// before its children, the children from left to right.
pub open spec fn blocks_in(node: Node) -> Seq<CodeBlock>
    decreases node, children_of(node).len() + 1,
{
    opt_seq(code_of(node)) + blocks_from(node, 0)
}

/// The code blocks under the children of `node` from the `k`-th on.
pub open spec fn blocks_from(node: Node, k: nat) -> Seq<CodeBlock>
    decreases node, children_of(node).len() - k,
{
    if k >= children_of(node).len() {
        Seq::<CodeBlock>::empty()
    } else {
        let c = children_of(node)[k as int];
        if decreases_to!(node => c) {
            blocks_in(c) + blocks_from(node, k + 1)
        } else {
            blocks_from(node, k + 1)
        }
    }
}

/// The document's parse failed.
pub struct ParseError {
    pub message: String,
}

/// Appends the code blocks of `node` and of its descendants, node first,
/// children from left to right.
fn collect_code_blocks(node: &Node, out: &mut Vec<CodeBlock>)
    ensures
        final(out)@ == old(out)@ + blocks_in(*node),
    decreases node,
{
    let ghost start = out@;
    let own = code_block_of(node);
    if let Some(b) = own {
        out.push(b);
    }
    let ghost head = out@;
    assert(head == start + opt_seq(code_of(*node)));
    match node.children() {
        Some(children) => {
            let mut i: usize = 0;
            assert(head + blocks_from(*node, 0) == start + blocks_in(*node));
            while i < children.len()
                invariant
                    i <= children@.len(),
                    children@ == children_of(*node),
                    forall|j: int|
                        0 <= j < children@.len() ==> decreases_to!(*node => children@[j]),
                    out@ + blocks_from(*node, i as nat) == start + blocks_in(*node),
                decreases children@.len() - i,
            {
                let ghost before = out@;
                assert(decreases_to!(*node => children@[i as int]));
                assert(blocks_from(*node, i as nat) == blocks_in(children@[i as int])
                    + blocks_from(*node, (i + 1) as nat));
                collect_code_blocks(&children[i], out);
                assert(before + (blocks_in(children@[i as int]) + blocks_from(
                    *node,
                    (i + 1) as nat,
                )) == out@ + blocks_from(*node, (i + 1) as nat));
                i = i + 1;
            }
            assert(blocks_from(*node, i as nat) == Seq::<CodeBlock>::empty());
            assert(out@ + Seq::<CodeBlock>::empty() == out@);
        },
        None => {
            assert(blocks_from(*node, 0) == Seq::<CodeBlock>::empty());
            assert(head + Seq::<CodeBlock>::empty() == head);
        },
    }
}

/// Aligns every marked code block of the markdown document `text`: the
/// document rewritten from the code blocks of its syntax tree, in depth-first
/// order. Markdown has no syntax errors, so this always succeeds.
pub fn rewrite(text: &str) -> (r: Result<String, ParseError>)
    ensures
        r is Ok,
        r matches Ok(s) ==> s@ == rewritten(text@, blocks_in(mdast_of(text@))),
{
    match parse_markdown(text) {
        Ok(root) => {
            let mut blocks: Vec<CodeBlock> = Vec::new();
            collect_code_blocks(&root, &mut blocks);
            assert(blocks@ == blocks_in(root)) by {
                assert(Seq::<CodeBlock>::empty() + blocks_in(root) == blocks_in(root));
            }
            let s = rewrite_blocks(text, &blocks);
            Ok(s)
        },
        Err(message) => Err(ParseError { message }),
    }
}

} // verus!
