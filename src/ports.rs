//! Port declarations that node types expose to the editor.

use crate::ids::DataType;
use vstd::prelude::*;

verus! {

/// A named input of a node, with the data type it accepts.
#[derive(Clone, Debug)]
pub struct InputPort {
    pub name: String,
    pub data_type: DataType,
    pub required: bool,
}

impl InputPort {
    /// A required input.
    pub fn new(name: &str, data_type: DataType) -> (r: InputPort)
        ensures
            r.name@ == name@,
            r.data_type == data_type,
            r.required,
    {
        InputPort { name: name.to_owned(), data_type, required: true }
    }

    /// An input that may be left unconnected.
    pub fn optional(name: &str, data_type: DataType) -> (r: InputPort)
        ensures
            r.name@ == name@,
            r.data_type == data_type,
            !r.required,
    {
        InputPort { name: name.to_owned(), data_type, required: false }
    }
}

/// A named output of a node, with the data type it produces.
#[derive(Clone, Debug)]
pub struct OutputPort {
    pub name: String,
    pub data_type: DataType,
}

impl OutputPort {
    pub fn new(name: &str, data_type: DataType) -> (r: OutputPort)
        ensures
            r.name@ == name@,
            r.data_type == data_type,
    {
        OutputPort { name: name.to_owned(), data_type }
    }
}

/// Direction of a port.
#[derive(Clone, Copy, PartialEq, Eq, Debug, Structural)]
pub enum PortType {
    Input,
    Output,
}

/// A port as declared by a node type.
#[derive(Clone, Debug)]
pub struct NodePort {
    pub name: String,
    pub port_type: PortType,
    pub data_type: DataType,
    pub required: bool,
}

} // verus!
