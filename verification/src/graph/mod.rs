//! Typed ports, the serialized graph model, composite-module boundaries and
//! script-node helpers.
pub mod composite;
pub mod model;
pub mod port;
pub mod script_node;
