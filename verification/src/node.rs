use vstd::prelude::*;
use vstd::std_specs::cmp::PartialEqSpecImpl;

verus! {

/// What a node is for. It is fixed when the node is made.
#[derive(Debug, Clone, Copy)]
pub enum NodeType {
    Input,
    Output,
    Hidden,
}

impl PartialEq for NodeType {
    fn eq(&self, other: &Self) -> (same: bool) {
        match self {
            NodeType::Input => {
                match other {
                    NodeType::Input => true,
                    _ => false,
                }
            },
            NodeType::Output => {
                match other {
                    NodeType::Output => true,
                    _ => false,
                }
            },
            NodeType::Hidden => {
                match other {
                    NodeType::Hidden => true,
                    _ => false,
                }
            },
        }
    }
}

impl PartialEqSpecImpl for NodeType {
    open spec fn obeys_eq_spec() -> bool {
        true
    }

    open spec fn eq_spec(&self, other: &Self) -> bool {
        *self == *other
    }
}

/// One node of a genome: its kind and its topological layer.
///
/// Input and output nodes stay on layer 0; a hidden node is on layer 1 or
/// higher.
#[derive(Debug, Clone, Copy)]
pub struct Node {
    pub node_type: NodeType,
    pub level: u32,
}

impl Node {
    /// A node of the given kind on the lowest layer that its kind allows.
    pub fn new(node_type: NodeType) -> (node: Node)
        ensures
            node.node_type == node_type,
            node.level == (if node_type is Hidden {
                1u32
            } else {
                0u32
            }),
    {
        let level: u32 = match node_type {
            NodeType::Hidden => 1,
            _ => 0,
        };
        Node { node_type, level }
    }
}

/// One connection of a genome, from the node at `in_index` to the node at
/// `out_index`. A disabled link is kept for its history and takes no part in
/// evaluation.
#[derive(Debug, Clone, Copy)]
pub struct Link {
    pub inno_number: u32,
    pub in_index: usize,
    pub out_index: usize,
    pub weight: i32,
    pub enabled: bool,
}

impl Link {
    /// An enabled link.
    pub fn new(inno_number: u32, in_index: usize, out_index: usize, weight: i32) -> (link: Link)
        ensures
            link == (Link { inno_number, in_index, out_index, weight, enabled: true }),
    {
        Link { inno_number, in_index, out_index, weight, enabled: true }
    }
}

} // verus!
