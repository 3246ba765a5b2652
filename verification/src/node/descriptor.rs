//! The node descriptor's parts that the library itself builds.
use vstd::prelude::*;
use crate::graph::port::PortType;

verus! {

/// How expensive a node is to run.
#[derive(Debug, Clone, Copy, PartialEq, Eq, Structural)]
pub enum Cost {
    Cheap,
    Medium,
    Heavy,
}

/// One input or output port on a node.
#[derive(Debug, Clone)]
pub struct PortSpec {
    pub name: String,
    pub label: String,
    pub port_type: PortType,
    pub required: bool,
    pub description: String,
}

impl PortSpec {
    /// A port with the given name, label, type and requiredness, and no
    /// description.
    pub fn new(name: &str, label: &str, port_type: PortType, required: bool) -> (p: Self)
        ensures
            p.name@ == name@,
            p.label@ == label@,
            p.port_type == port_type,
            p.required == required,
            p.description@ == Seq::<char>::empty(),
    {
        PortSpec {
            name: name.to_owned(),
            label: label.to_owned(),
            port_type,
            required,
            description: String::new(),
        }
    }
}

} // verus!
