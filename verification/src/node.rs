use vstd::prelude::*;

verus! {

/// A graph node: its name and optional attributes.
#[derive(Clone, Copy, Debug)]
pub struct Node<A> {
    /// The name of the node, unique within a graph.
    pub name: u64,
    /// Any attributes of the node.
    pub attributes: Option<A>,
}

impl<A> Node<A> {
    /// Creates a node with a name and no attributes.
    pub fn from_name(name: u64) -> (n: Node<A>)
        ensures
            n.name == name,
            n.attributes.is_none(),
    {
        Node { name, attributes: None }
    }

    /// Creates a node with a name and attributes.
    pub fn from_name_and_attributes(name: u64, attributes: A) -> (n: Node<A>)
        ensures
            n.name == name,
            n.attributes == Some(attributes),
    {
        Node { name, attributes: Some(attributes) }
    }
}

} // verus!
