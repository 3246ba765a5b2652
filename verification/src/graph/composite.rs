//! Composite modules: a saved sub-graph shown as a single node. This module
//! holds the binding of a module's external ports to its inner nodes.
use vstd::prelude::*;
use crate::graph::port::PortType;

verus! {

/// One externally visible port on a module, bound to an inner node's port.
#[derive(Debug, Clone)]
pub struct BoundaryPort {
    /// External port name shown on the module node.
    pub name: String,
    pub label: String,
    /// Resolved from the inner port's declared type.
    pub port_type: PortType,
    /// Inner node id this boundary maps to.
    pub node: String,
    /// Inner node's port name.
    pub port: String,
}

} // verus!
