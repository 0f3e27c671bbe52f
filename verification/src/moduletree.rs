//! The data of the nodes of the intermediate representation: the root,
//! operators such as `translate`, and actions such as `circle`.
use vstd::prelude::*;

verus! {

/// A statement that makes a node, with the name it was given.
#[derive(Debug)]
pub struct NodeStatement {
    pub name: Option<String>,
}

/// What a node stands for.
#[derive(Debug)]
pub enum NodeKind {
    Root,
    /// E.g. a circle node or rectangle.
    Action(NodeStatement),
    /// E.g. translate or rotate.
    Operator(NodeStatement),
}

/// The data that a node of the intermediate representation holds.
#[derive(Debug)]
pub struct NodeData {
    pub name: String,
    pub kind: NodeKind,
}

impl NodeData {
    /// The data of the root node, named `root`.
    pub fn root() -> (d: NodeData)
        ensures
            d.name@ == "root"@,
            d.kind is Root,
    {
        NodeData { name: String::from_str("root"), kind: NodeKind::Root }
    }

    /// The data of an operator node named `name`.
    pub fn operator(name: &str) -> (d: NodeData)
        ensures
            d.name@ == name@,
            d.kind matches NodeKind::Operator(s) && s.name matches Some(n) && n@ == name@,
    {
        NodeData {
            name: String::from_str(name),
            kind: NodeKind::Operator(NodeStatement { name: Some(String::from_str(name)) }),
        }
    }

    /// The data of an action node named `name`.
    pub fn action(name: &str) -> (d: NodeData)
        ensures
            d.name@ == name@,
            d.kind matches NodeKind::Action(s) && s.name matches Some(n) && n@ == name@,
    {
        NodeData {
            name: String::from_str(name),
            kind: NodeKind::Action(NodeStatement { name: Some(String::from_str(name)) }),
        }
    }
}

} // verus!
