use std::collections::HashMap;
use vstd::prelude::*;

verus! {

/// A node of a document tree: its children and what kind of node it is.
#[derive(Debug)]
pub struct Node {
    pub children: Vec<Node>,
    pub node_type: NodeType,
}

#[derive(Debug)]
pub enum NodeType {
    Text(String),
    Element(ElementData),
    Comment(String),
}

#[derive(Debug)]
pub struct ElementData {
    pub tag_name: String,
    pub attributes: AttrMap,
}

pub type AttrMap = HashMap<String, String>;

/// A text node without children.
pub fn text(data: String) -> (r: Node)
    ensures
        r.children@.len() == 0,
        r.node_type == NodeType::Text(data),
{
    Node { children: Vec::new(), node_type: NodeType::Text(data) }
}

/// An element node with the given tag name, attributes and children.
pub fn elem(name: String, attrs: AttrMap, children: Vec<Node>) -> (r: Node)
    ensures
        r.children == children,
        r.node_type == NodeType::Element(ElementData { tag_name: name, attributes: attrs }),
{
    Node {
        children,
        node_type: NodeType::Element(ElementData { tag_name: name, attributes: attrs }),
    }
}

/// A comment node without children.
pub fn comment(data: String) -> (r: Node)
    ensures
        r.children@.len() == 0,
        r.node_type == NodeType::Comment(data),
{
    Node { children: Vec::new(), node_type: NodeType::Comment(data) }
}

} // verus!
