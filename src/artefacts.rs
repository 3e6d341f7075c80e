use crate::command::pairs_view;
use comrak::nodes::{AstNode, NodeValue};
use crate::step::opt_view;
use vstd::prelude::*;

verus! {

/// A node of a Markdown document as far as artefact links go: `Some((url,
/// code))` for a link, whose first child is an inline code span with text
/// `code` or is not (`None`); `None` for any other node.
pub type LinkNode = Option<(String, Option<String>)>;

pub open spec fn node_view(n: LinkNode) -> Option<(Seq<char>, Option<Seq<char>>)> {
    match n {
        Some((url, code)) => Some((url@, opt_view(code))),
        None => None,
    }
}

pub open spec fn nodes_view(v: Seq<LinkNode>) -> Seq<Option<(Seq<char>, Option<Seq<char>>)>> {
    v.map_values(|n: LinkNode| node_view(n))
}

/// What `comrak::parse_document` gives for a text with default options, node
/// by node in document order, as [`LinkNode`]s.
pub uninterp spec fn markdown_nodes_of(md: Seq<char>) -> Seq<Option<(Seq<char>, Option<Seq<char>>)>>;

/// Relies on `comrak::parse_document` (default options) and the pre-order walk
/// of `descendants`: each node told apart as a link (with its URL and its first
/// child's code text) or as anything else.
#[verifier::external_body]
fn markdown_nodes(md: &str) -> (r: Vec<LinkNode>)
    ensures
        nodes_view(r@) == markdown_nodes_of(md@),
{
    let arena = comrak::Arena::new();
    let root = comrak::parse_document(&arena, md, &comrak::Options::default());
    let code = |n: &AstNode| match &n.data.borrow().value {
        NodeValue::Code(c) => Some(c.literal.clone()),
        _ => None,
    };
    root.descendants().map(|n| match &n.data.borrow().value {
        NodeValue::Link(l) => Some((l.url.clone(), n.first_child().and_then(code))),
        _ => None,
    }).collect()
}

/// The (code text, URL) of every link whose first child is inline code, in order.
pub open spec fn code_links(nodes: Seq<Option<(Seq<char>, Option<Seq<char>>)>>) -> Seq<
    (Seq<char>, Seq<char>),
>
    decreases nodes.len(),
{
    if nodes.len() == 0 {
        Seq::empty()
    } else {
        let rest = code_links(nodes.drop_last());
        match nodes.last() {
            Some((url, Some(code))) => rest.push((code, url)),
            _ => rest,
        }
    }
}

/// The artefacts named by a document's nodes: each link written with inline
/// code as its text gives (that text, its URL).
pub fn artefacts_from_nodes(nodes: &Vec<LinkNode>) -> (r: Vec<(String, String)>)
    ensures
        pairs_view(r@) == code_links(nodes_view(nodes@)),
{
    let ghost nv = nodes_view(nodes@);
    let mut r: Vec<(String, String)> = Vec::new();
    let mut i: usize = 0;
    while i < nodes.len()
        invariant
            i <= nodes@.len(),
            nv == nodes_view(nodes@),
            pairs_view(r@) == code_links(nv.take(i as int)),
        decreases nodes@.len() - i,
    {
        assert(nv.take(i as int + 1).drop_last() =~= nv.take(i as int));
        assert(nv.take(i as int + 1).last() == nv[i as int]);
        if let Some((url, Some(code))) = &nodes[i] {
            let ghost before = r@;
            r.push((code.clone(), url.clone()));
            assert(pairs_view(r@) =~= pairs_view(before).push((code@, url@)));
        }
        i += 1;
    }
    assert(nv.take(nodes@.len() as int) =~= nv);
    r
}

/// The artefacts of a check run's summary: (relative path, URL) for each link
/// whose text is inline code, in document order.
pub fn artefacts(summary: &str) -> (r: Vec<(String, String)>)
    ensures
        pairs_view(r@) == code_links(markdown_nodes_of(summary@)),
{
    let nodes = markdown_nodes(summary);
    artefacts_from_nodes(&nodes)
}

} // verus!
