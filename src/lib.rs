//! Dataflow graph engine: node and connection bookkeeping, cycle rejection,
//! topological evaluation order and dirty-set propagation.

mod graph;
mod ids;
mod laws;
mod midi;
mod paths;
mod ports;
mod shader;
mod store;

pub use graph::{topological, GraphError, NodeConnection, NodeGraph};
pub use ids::{is_v4_uuid, ConnectionId, DataType, NodeId};
pub use laws::{
    after_step, after_steps, law_absent_node_is_isolated, law_chain_marking, law_clear_twice,
    law_cleared_stays_clean, law_no_cycles, law_order_complete, law_order_respects_connections,
    DirtyStep,
};
pub use paths::{acyclic, is_path, linked, marked, reaches, spread};
pub use store::{adjacent, graph_edges, graph_nodes, moved, pending, Topology};
pub use shader::{
    glsl_to_wgsl, replaced, converted, wgsl_to_glsl, Shader, ShaderConfig, ShaderError,
    ShaderFormat, ShaderParamType, ShaderProcessor,
};
pub use midi::{MidiError, MidiEventType, MidiInputDevice, MidiOutputDevice};
pub use ports::{InputPort, NodePort, OutputPort, PortType};
