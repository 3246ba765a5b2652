//! The serialized graph's references and connections.
use vstd::prelude::*;

verus! {

/// A reference to a specific port on a specific node.
#[derive(Debug, Clone)]
pub struct PortRef {
    pub node: String,
    pub port: String,
}

/// A connection: `from` (an output port) to `to` (an input port).
#[derive(Debug, Clone)]
pub struct Edge {
    pub from: PortRef,
    pub to: PortRef,
}

} // verus!
