use vstd::prelude::*;
use crate::types::NodeId;

verus! {

/// One entry of a snapshot's type description: the name of a scalar type, or
/// the names that an enumerated field can take, by ordinal.
#[derive(Debug)]
pub enum SnapshotType {
    Str(String),
    Strs(Vec<String>),
}

/// The field layout that a snapshot announces for its flat arrays.
#[derive(Debug)]
pub struct SnapshotMetadata {
    pub edge_fields: Vec<String>,
    pub edge_types: Vec<SnapshotType>,
    pub location_fields: Vec<String>,
    pub node_fields: Vec<String>,
    pub node_types: Vec<SnapshotType>,
    pub sample_fields: Vec<String>,
    pub trace_function_info_fields: Vec<String>,
    pub trace_node_fields: Vec<String>,
}

impl SnapshotMetadata {
    /// How many numbers describe one node.
    pub fn node_field_count(&self) -> (n: usize)
        ensures
            n == self.node_fields@.len(),
    {
        self.node_fields.len()
    }

    /// How many numbers describe one edge.
    pub fn edge_field_count(&self) -> (n: usize)
        ensures
            n == self.edge_fields@.len(),
    {
        self.edge_fields.len()
    }
}

/// The header of a snapshot: its layout and the counts it announces.
#[derive(Debug)]
pub struct Snapshot {
    pub meta: SnapshotMetadata,
    pub node_count: usize,
    pub edge_count: usize,
    pub trace_function_count: usize,
    pub extra_native_bytes: usize,
}

/// A whole snapshot as plain values: header, flat node and edge arrays, and
/// the interned strings.
#[derive(Debug)]
pub struct SnapshotFile {
    pub snapshot: Snapshot,
    pub nodes: Vec<NodeId>,
    pub edges: Vec<NodeId>,
    pub locations: Vec<NodeId>,
    pub strings: Vec<String>,
}

} // verus!
