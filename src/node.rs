use vstd::prelude::*;

verus! {

/// A structured value: the payload of a node's `attrs` and `marks`.
#[derive(Debug, PartialEq)]
pub enum JsonValue {
    Null,
    Bool(bool),
    /// An integer that fits in an `i64`.
    Int(i64),
    /// A non-negative integer; those above `i64::MAX` are not integer-like levels.
    UInt(u64),
    /// Any other number, kept in its decimal text.
    Float(String),
    Str(String),
    Array(Vec<JsonValue>),
    /// A mapping, as its entries in order.
    Object(Vec<(String, JsonValue)>),
}

/// The top level of an attribute value, as the normalizer reads it.
pub enum AttrsView {
    Object(Seq<(Seq<char>, JsonValue)>),
    Other(JsonValue),
}

pub open spec fn entries_view(e: Seq<(String, JsonValue)>) -> Seq<(Seq<char>, JsonValue)> {
    e.map_values(|p: (String, JsonValue)| (p.0@, p.1))
}

pub open spec fn attrs_view(v: JsonValue) -> AttrsView {
    match v {
        JsonValue::Object(e) => AttrsView::Object(entries_view(e@)),
        _ => AttrsView::Other(v),
    }
}

/// One element of the document tree.
#[derive(Debug, PartialEq)]
pub struct Node {
    pub node_type: String,
    pub content: Option<Vec<Node>>,
    pub text: Option<String>,
    pub attrs: Option<JsonValue>,
    pub marks: Option<Vec<JsonValue>>,
}

/// The mathematical picture of a node: strings as character sequences,
/// children as a sequence of pictures.
pub struct NodeView {
    pub node_type: Seq<char>,
    pub content: Option<Seq<NodeView>>,
    pub text: Option<Seq<char>>,
    pub attrs: Option<AttrsView>,
    pub marks: Option<Vec<JsonValue>>,
}

pub open spec fn view_node(n: Node) -> NodeView
    decreases n, 1nat,
{
    NodeView {
        node_type: n.node_type@,
        content: match n.content {
            Some(c) => Some(view_nodes(c@)),
            None => None,
        },
        text: match n.text {
            Some(t) => Some(t@),
            None => None,
        },
        attrs: match n.attrs {
            Some(a) => Some(attrs_view(a)),
            None => None,
        },
        marks: n.marks,
    }
}

pub open spec fn view_nodes(s: Seq<Node>) -> Seq<NodeView>
    decreases s, 0nat,
{
    if s.len() == 0 {
        Seq::empty()
    } else {
        view_nodes(s.drop_last()).push(view_node(s.last()))
    }
}

pub proof fn lemma_view_nodes(s: Seq<Node>)
    ensures
        view_nodes(s).len() == s.len(),
        forall|i: int| 0 <= i < s.len() ==> #[trigger] view_nodes(s)[i] == view_node(s[i]),
    decreases s.len(),
{
    if s.len() > 0 {
        lemma_view_nodes(s.drop_last());
    }
}

} // verus!
