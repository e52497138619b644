use vstd::prelude::*;
use crate::snapshot::SnapshotType;

pub mod string_table;

pub use string_table::StringTable;

verus! {

/// The layout of a snapshot's flat arrays together with the counts that the
/// snapshot announces, where it announces any.
#[derive(Debug)]
pub struct SnapshotMetadata {
    pub node_fields: Vec<String>,
    pub node_types: Vec<SnapshotType>,
    pub edge_fields: Vec<String>,
    pub edge_types: Vec<SnapshotType>,
    pub node_count: usize,
    pub edge_count: usize,
}

impl SnapshotMetadata {
    /// How many numbers describe one node.
    pub fn node_field_count(&self) -> (n: usize)
        ensures
            n == self.node_fields@.len(),
    {
        self.node_fields.len()
    }

    /// How many numbers describe one edge.
    pub fn edge_field_count(&self) -> (n: usize)
        ensures
            n == self.edge_fields@.len(),
    {
        self.edge_fields.len()
    }
}

/// One node as its tuple in the flat node array describes it.
pub struct DecodedNode {
    pub node_type: u8,
    pub name_idx: u32,
    pub id: u32,
    pub size: u32,
    pub edge_count: u32,
}

/// One edge as its tuple in the flat edge array describes it. The target is
/// still an offset into the flat node array.
pub struct DecodedEdge {
    pub edge_type: u8,
    pub name_or_index: u32,
    pub target_node: u32,
}

/// How many numbers a node tuple needs at least: type, name, id, self size
/// and edge count.
pub const NODE_FIELDS_MIN: usize = 5;

/// How many numbers an edge tuple needs at least: type, name or index, target.
pub const EDGE_FIELDS_MIN: usize = 3;

/// How many kinds of node there are; the kinds are numbered from 0 on.
pub const NODE_KINDS: u64 = 15;

/// How many kinds of edge there are; the kinds are numbered from 0 on.
pub const EDGE_KINDS: u64 = 7;

/// The largest number that a column other than that of the kinds holds.
pub const COLUMN_MAX: u64 = 0xffff_ffff;

/// Whether `data` can be read as a node of a snapshot with `field_count`
/// numbers per node: it is long enough, its kind is one of the kinds of
/// node, and each other number fits its column.
pub open spec fn node_tuple_ok(data: Seq<u64>, field_count: int) -> bool {
    &&& data.len() >= field_count
    &&& data.len() >= NODE_FIELDS_MIN
    &&& data[0] < NODE_KINDS
    &&& data[1] <= COLUMN_MAX
    &&& data[2] <= COLUMN_MAX
    &&& data[3] <= COLUMN_MAX
    &&& data[4] <= COLUMN_MAX
}

/// Whether `data` can be read as an edge of a snapshot with `field_count`
/// numbers per edge: it is long enough, its kind is one of the kinds of
/// edge, and each other number fits its column.
pub open spec fn edge_tuple_ok(data: Seq<u64>, field_count: int) -> bool {
    &&& data.len() >= field_count
    &&& data.len() >= EDGE_FIELDS_MIN
    &&& data[0] < EDGE_KINDS
    &&& data[1] <= COLUMN_MAX
    &&& data[2] <= COLUMN_MAX
}

/// The node that the first five numbers of `data` describe.
pub open spec fn node_of_tuple(data: Seq<u64>) -> DecodedNode {
    DecodedNode {
        node_type: data[0] as u8,
        name_idx: data[1] as u32,
        id: data[2] as u32,
        size: data[3] as u32,
        edge_count: data[4] as u32,
    }
}

/// The edge that the first three numbers of `data` describe.
pub open spec fn edge_of_tuple(data: Seq<u64>) -> DecodedEdge {
    DecodedEdge {
        edge_type: data[0] as u8,
        name_or_index: data[1] as u32,
        target_node: data[2] as u32,
    }
}

/// Reads one node tuple; nothing where the tuple is too short, where its
/// kind is none of the kinds of node, or where a number does not fit its
/// column.
pub fn decode_node(data: &[u64], meta: &SnapshotMetadata) -> (r: Option<DecodedNode>)
    ensures
        r is Some <==> node_tuple_ok(data@, meta.node_fields@.len() as int),
        r is Some ==> r->0 == node_of_tuple(data@),
        r matches Some(d) ==> d.node_type == data@[0] && d.name_idx == data@[1] && d.id == data@[2]
            && d.size == data@[3] && d.edge_count == data@[4],
{
    let field_count = meta.node_field_count();
    if data.len() < field_count || data.len() < NODE_FIELDS_MIN {
        return None;
    }
    if data[0] >= NODE_KINDS || data[1] > COLUMN_MAX || data[2] > COLUMN_MAX || data[3]
        > COLUMN_MAX || data[4] > COLUMN_MAX {
        return None;
    }
    Some(
        DecodedNode {
            node_type: data[0] as u8,
            name_idx: data[1] as u32,
            id: data[2] as u32,
            size: data[3] as u32,
            edge_count: data[4] as u32,
        },
    )
}

/// Reads one edge tuple; nothing where the tuple is too short, where its
/// kind is none of the kinds of edge, or where a number does not fit its
/// column.
pub fn decode_edge(data: &[u64], meta: &SnapshotMetadata) -> (r: Option<DecodedEdge>)
    ensures
        r is Some <==> edge_tuple_ok(data@, meta.edge_fields@.len() as int),
        r is Some ==> r->0 == edge_of_tuple(data@),
        r matches Some(d) ==> d.edge_type == data@[0] && d.name_or_index == data@[1]
            && d.target_node == data@[2],
{
    let field_count = meta.edge_field_count();
    if data.len() < field_count || data.len() < EDGE_FIELDS_MIN {
        return None;
    }
    if data[0] >= EDGE_KINDS || data[1] > COLUMN_MAX || data[2] > COLUMN_MAX {
        return None;
    }
    Some(
        DecodedEdge {
            edge_type: data[0] as u8,
            name_or_index: data[1] as u32,
            target_node: data[2] as u32,
        },
    )
}

} // verus!
