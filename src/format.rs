use vstd::prelude::*;
use crate::node::{Node, NodeView, view_node, view_nodes, lemma_view_nodes};
use crate::text::{collapse_spaces, normalize_text};
use crate::heading::{normalized_heading_attrs, normalize_heading_attrs, opt_attrs_view};

verus! {

pub open spec fn doc_tag() -> Seq<char> {
    seq!['d', 'o', 'c']
}

pub open spec fn text_tag() -> Seq<char> {
    seq!['t', 'e', 'x', 't']
}

pub open spec fn heading_tag() -> Seq<char> {
    seq!['h', 'e', 'a', 'd', 'i', 'n', 'g']
}

pub open spec fn paragraph_tag() -> Seq<char> {
    seq!['p', 'a', 'r', 'a', 'g', 'r', 'a', 'p', 'h']
}

pub open spec fn image_tag() -> Seq<char> {
    seq!['i', 'm', 'a', 'g', 'e']
}

/// Whether a node, its own subtree already processed, is kept: a paragraph
/// always, a heading only with non-empty content, an image only with
/// attributes, any other node always.
pub open spec fn valid_node(n: NodeView) -> bool {
    if n.node_type == paragraph_tag() {
        true
    } else if n.node_type == heading_tag() {
        n.content is Some && n.content->Some_0.len() > 0
    } else if n.node_type == image_tag() {
        n.attrs is Some
    } else {
        true
    }
}

/// What becomes of one node: `None` when it is dropped, else its normalized form.
pub open spec fn process_node(n: NodeView) -> Option<NodeView>
    decreases n, 1nat,
{
    if n.node_type == text_tag() {
        match n.text {
            Some(t) => if collapse_spaces(t).len() == 0 {
                None
            } else {
                Some(NodeView { text: Some(collapse_spaces(t)), ..n })
            },
            None => None,
        }
    } else {
        let attrs = if n.node_type == heading_tag() {
            Some(normalized_heading_attrs(n.attrs))
        } else {
            n.attrs
        };
        let content = match n.content {
            Some(c) => Some(process_list(c)),
            None => None,
        };
        let m = NodeView { attrs: attrs, content: content, ..n };
        if valid_node(m) {
            Some(m)
        } else {
            None
        }
    }
}

/// The survivors of a sibling sequence, normalized, in the order they came in.
pub open spec fn process_list(s: Seq<NodeView>) -> Seq<NodeView>
    decreases s, 0nat,
{
    if s.len() == 0 {
        Seq::empty()
    } else {
        let p = process_list(s.drop_last());
        match process_node(s.last()) {
            Some(m) => p.push(m),
            None => p,
        }
    }
}

/// The whole document after one pass: its content, if any, processed.
pub open spec fn format_view(d: NodeView) -> NodeView {
    NodeView {
        content: match d.content {
            Some(c) => Some(process_list(c)),
            None => None,
        },
        ..d
    }
}

pub open spec fn opt_view(n: Option<Node>) -> Option<NodeView> {
    match n {
        Some(m) => Some(view_node(m)),
        None => None,
    }
}

fn has_tag(t: &String, lit: &str) -> (r: bool)
    ensures
        r == (t@ == lit@),
{
    *t == String::from_str(lit)
}

/// Decides whether a processed node is kept.
pub fn is_valid_node(node: &Node) -> (r: bool)
    ensures
        r == valid_node(view_node(*node)),
{
    proof {
        reveal_strlit("paragraph");
        reveal_strlit("heading");
        reveal_strlit("image");
        assert("paragraph"@ =~= paragraph_tag());
        assert("heading"@ =~= heading_tag());
        assert("image"@ =~= image_tag());
        if node.content is Some {
            lemma_view_nodes(node.content->Some_0@);
        }
    }
    if has_tag(&node.node_type, "paragraph") {
        true
    } else if has_tag(&node.node_type, "heading") {
        match &node.content {
            Some(c) => c.len() > 0,
            None => false,
        }
    } else if has_tag(&node.node_type, "image") {
        node.attrs.is_some()
    } else {
        true
    }
}

/// Normalizes one node and decides whether it is kept; children are
/// processed before the node itself is judged.
pub fn normalize_node(node: Node) -> (r: Option<Node>)
    ensures
        opt_view(r) == process_node(view_node(node)),
    decreases node, 1nat,
{
    proof {
        reveal_strlit("text");
        reveal_strlit("heading");
        assert("text"@ =~= text_tag());
        assert("heading"@ =~= heading_tag());
    }
    let Node { node_type, content, text, attrs, marks } = node;
    if has_tag(&node_type, "text") {
        match text {
            Some(t) => {
                let c = normalize_text(&t);
                if c.as_str().unicode_len() == 0 {
                    None
                } else {
                    Some(Node { node_type, content, text: Some(c), attrs, marks })
                }
            },
            None => None,
        }
    } else {
        let attrs = if has_tag(&node_type, "heading") {
            normalize_heading_attrs(attrs)
        } else {
            attrs
        };
        let content = match content {
            Some(c) => Some(process_content(c)),
            None => None,
        };
        let m = Node { node_type, content, text, attrs, marks };
        if is_valid_node(&m) {
            Some(m)
        } else {
            None
        }
    }
}

/// Processes a sequence of siblings: each is normalized, the dropped ones
/// are left out, and the survivors keep their relative order.
pub fn process_content(nodes: Vec<Node>) -> (r: Vec<Node>)
    ensures
        view_nodes(r@) == process_list(view_nodes(nodes@)),
    decreases nodes, 0nat,
{
    let ghost s = nodes@;
    let mut out: Vec<Node> = Vec::new();
    for node in it: nodes.into_iter()
        invariant
            it.seq() == s,
            s == nodes@,
            view_nodes(out@) == process_list(view_nodes(s.take(it.index() as int))),
    {
        let ghost i = it.index() as int;
        let ghost prev = out@;
        proof {
            assert(node == s[i]);
            assert(s.take(i + 1).drop_last() =~= s.take(i));
            let vs = view_nodes(s.take(i + 1));
            assert(vs == view_nodes(s.take(i)).push(view_node(node)));
            assert(vs.drop_last() =~= view_nodes(s.take(i)));
            assert(vs.last() == view_node(node));
        }
        match normalize_node(node) {
            Some(m) => {
                out.push(m);
                proof {
                    assert(out@.drop_last() =~= prev);
                    assert(view_nodes(out@) == view_nodes(prev).push(view_node(m)));
                }
            },
            None => {},
        }
    }
    proof {
        assert(s.take(s.len() as int) =~= s);
    }
    out
}

/// Why a document could not be formatted.
#[derive(Debug, PartialEq)]
pub enum FormatError {
    /// The input does not decode to a node; carries the decoder's reason.
    ParseError(String),
    /// The root's type is not `doc`.
    ValidationError,
    /// The normalized tree could not be encoded; carries the encoder's reason.
    SerializationError(String),
}

/// Formats a whole document: the root must be a `doc`; its content, if any,
/// is processed and everything else on the root is kept.
pub fn format_document(doc: Node) -> (r: Result<Node, FormatError>)
    ensures
        r is Err <==> doc.node_type@ != doc_tag(),
        r is Err ==> r->Err_0 is ValidationError,
        r is Ok ==> view_node(r->Ok_0) == format_view(view_node(doc)),
{
    proof {
        reveal_strlit("doc");
        assert("doc"@ =~= doc_tag());
    }
    if !has_tag(&doc.node_type, "doc") {
        return Err(FormatError::ValidationError);
    }
    let Node { node_type, content, text, attrs, marks } = doc;
    let content = match content {
        Some(c) => Some(process_content(c)),
        None => None,
    };
    Ok(Node { node_type, content, text, attrs, marks })
}

pub open spec fn version_text() -> Seq<char> {
    seq!['1', '.', '0', '.', '0']
}

/// The library's version, for callers that check compatibility.
pub fn get_version() -> (r: String)
    ensures
        r@ == version_text(),
{
    proof {
        reveal_strlit("1.0.0");
        assert("1.0.0"@ =~= version_text());
    }
    String::from_str("1.0.0")
}

} // verus!
