use vstd::prelude::*;
use crate::snapshot::{SnapshotFile, SnapshotType};
use crate::types::{AnalyzerError, NodeId};
use crate::utils::{
    bytes_of, capped, decimal, print_safe, print_safe_spec, push_decimal, push_str_chars, str_eq,
    string_from_chars,
};
use std::borrow::Cow;

verus! {

/// Ordinal of an edge: its position in the edge columns.
pub type EdgeId = NodeId;

/// How many kinds of node a snapshot can hold.
pub const NODE_TYPE_COUNT: u32 = 15;

/// How many kinds of edge a snapshot can hold.
pub const EDGE_TYPE_COUNT: u32 = 7;

/// The kind of a heap node.
#[derive(Debug, Clone, Copy, PartialEq, Eq, Structural)]
pub enum NodeType {
    Hidden,
    Array,
    String,
    Object,
    Code,
    Closure,
    RegExp,
    Number,
    Native,
    Synthetic,
    ConcatString,
    SlicedString,
    Symbol,
    BigInt,
    ObjectShape,
}

impl NodeType {
    /// The ordinal under which a snapshot stores this kind.
    pub open spec fn spec_tag(self) -> NodeId {
        match self {
            NodeType::Hidden => 0,
            NodeType::Array => 1,
            NodeType::String => 2,
            NodeType::Object => 3,
            NodeType::Code => 4,
            NodeType::Closure => 5,
            NodeType::RegExp => 6,
            NodeType::Number => 7,
            NodeType::Native => 8,
            NodeType::Synthetic => 9,
            NodeType::ConcatString => 10,
            NodeType::SlicedString => 11,
            NodeType::Symbol => 12,
            NodeType::BigInt => 13,
            NodeType::ObjectShape => 14,
        }
    }

    /// The ordinal under which a snapshot stores this kind.
    pub fn tag(self) -> (t: NodeId)
        ensures
            t == self.spec_tag(),
            t < NODE_TYPE_COUNT,
    {
        match self {
            NodeType::Hidden => 0,
            NodeType::Array => 1,
            NodeType::String => 2,
            NodeType::Object => 3,
            NodeType::Code => 4,
            NodeType::Closure => 5,
            NodeType::RegExp => 6,
            NodeType::Number => 7,
            NodeType::Native => 8,
            NodeType::Synthetic => 9,
            NodeType::ConcatString => 10,
            NodeType::SlicedString => 11,
            NodeType::Symbol => 12,
            NodeType::BigInt => 13,
            NodeType::ObjectShape => 14,
        }
    }

    /// The kind that a snapshot stores under `value`; none for an ordinal
    /// that no kind has.
    pub fn from_tag(value: NodeId) -> (r: Option<NodeType>)
        ensures
            r is Some <==> value < NODE_TYPE_COUNT,
            r is Some ==> r->0.spec_tag() == value,
    {
        match value {
            0 => Some(NodeType::Hidden),
            1 => Some(NodeType::Array),
            2 => Some(NodeType::String),
            3 => Some(NodeType::Object),
            4 => Some(NodeType::Code),
            5 => Some(NodeType::Closure),
            6 => Some(NodeType::RegExp),
            7 => Some(NodeType::Number),
            8 => Some(NodeType::Native),
            9 => Some(NodeType::Synthetic),
            10 => Some(NodeType::ConcatString),
            11 => Some(NodeType::SlicedString),
            12 => Some(NodeType::Symbol),
            13 => Some(NodeType::BigInt),
            14 => Some(NodeType::ObjectShape),
            _ => None,
        }
    }
}

/// The kind of an edge of the heap graph.
#[derive(Debug, Clone, Copy, PartialEq, Eq, Structural)]
pub enum EdgeType {
    Context,
    Element,
    Property,
    Internal,
    Hidden,
    Shortcut,
    Weak,
}

impl EdgeType {
    /// The ordinal under which a snapshot stores this kind.
    pub open spec fn spec_tag(self) -> NodeId {
        match self {
            EdgeType::Context => 0,
            EdgeType::Element => 1,
            EdgeType::Property => 2,
            EdgeType::Internal => 3,
            EdgeType::Hidden => 4,
            EdgeType::Shortcut => 5,
            EdgeType::Weak => 6,
        }
    }

    /// The name of this kind, as snapshots spell it.
    pub open spec fn spec_name(self) -> Seq<char> {
        match self {
            EdgeType::Context => "context"@,
            EdgeType::Element => "element"@,
            EdgeType::Property => "property"@,
            EdgeType::Internal => "internal"@,
            EdgeType::Hidden => "hidden"@,
            EdgeType::Shortcut => "shortcut"@,
            EdgeType::Weak => "weak"@,
        }
    }

    /// The kind that a snapshot stores under `tag`; a weak edge for an
    /// ordinal that no kind has.
    pub open spec fn of_tag(tag: NodeId) -> EdgeType {
        if tag == 0 {
            EdgeType::Context
        } else if tag == 1 {
            EdgeType::Element
        } else if tag == 2 {
            EdgeType::Property
        } else if tag == 3 {
            EdgeType::Internal
        } else if tag == 4 {
            EdgeType::Hidden
        } else if tag == 5 {
            EdgeType::Shortcut
        } else {
            EdgeType::Weak
        }
    }

    /// The ordinal under which a snapshot stores this kind.
    pub fn tag(self) -> (t: NodeId)
        ensures
            t == self.spec_tag(),
            t < EDGE_TYPE_COUNT,
    {
        match self {
            EdgeType::Context => 0,
            EdgeType::Element => 1,
            EdgeType::Property => 2,
            EdgeType::Internal => 3,
            EdgeType::Hidden => 4,
            EdgeType::Shortcut => 5,
            EdgeType::Weak => 6,
        }
    }

    /// The kind that a snapshot stores under `value`; none for an ordinal
    /// that no kind has.
    pub fn from_tag(value: NodeId) -> (r: Option<EdgeType>)
        ensures
            r is Some <==> value < EDGE_TYPE_COUNT,
            r is Some ==> r->0.spec_tag() == value && r->0 == EdgeType::of_tag(value),
    {
        match value {
            0 => Some(EdgeType::Context),
            1 => Some(EdgeType::Element),
            2 => Some(EdgeType::Property),
            3 => Some(EdgeType::Internal),
            4 => Some(EdgeType::Hidden),
            5 => Some(EdgeType::Shortcut),
            6 => Some(EdgeType::Weak),
            _ => None,
        }
    }

    /// The name of this kind, as snapshots spell it.
    pub fn as_str(&self) -> (r: &'static str)
        ensures
            r@ == self.spec_name(),
    {
        match self {
            EdgeType::Context => "context",
            EdgeType::Element => "element",
            EdgeType::Property => "property",
            EdgeType::Internal => "internal",
            EdgeType::Hidden => "hidden",
            EdgeType::Shortcut => "shortcut",
            EdgeType::Weak => "weak",
        }
    }
}

/// What an edge is labelled with: a name from the string table, or, for an
/// element, its position.
#[derive(Debug)]
pub enum NameOrIndex<'a> {
    Name(&'a str),
    Index(NodeId),
    Unsure(NodeId, &'a str),
}

impl<'a> NameOrIndex<'a> {
    /// The label as text: a name as it is, a position in digits.
    pub open spec fn spec_text(&self) -> Seq<char> {
        match self {
            NameOrIndex::Name(name) => name@,
            NameOrIndex::Index(n) => decimal(*n as nat),
            NameOrIndex::Unsure(n, name) => decimal(*n as nat) + seq!['/'] + name@,
        }
    }

    /// Appends the label as text.
    pub fn push_text(&self, out: &mut Vec<char>)
        ensures
            final(out)@ == old(out)@ + self.spec_text(),
    {
        match self {
            NameOrIndex::Name(name) => push_str_chars(out, name),
            NameOrIndex::Index(n) => push_decimal(out, *n as u64),
            NameOrIndex::Unsure(n, name) => {
                let ghost before = out@;
                push_decimal(out, *n as u64);
                out.push('/');
                push_str_chars(out, name);
                proof {
                    assert(out@ =~= before + self.spec_text());
                }
            },
        }
    }

    /// The label as text: a name as it is, a position in digits.
    pub fn to_text(&self) -> (r: String)
        ensures
            r@ == self.spec_text(),
    {
        let mut out: Vec<char> = Vec::new();
        self.push_text(&mut out);
        proof {
            assert(Seq::<char>::empty() + self.spec_text() =~= self.spec_text());
        }
        string_from_chars(&out)
    }

    /// Whether the label is the name `x`.
    pub fn is_str(&self, x: &str) -> (r: bool)
        ensures
            r == (self matches NameOrIndex::Name(n) && n@ == x@),
    {
        match self {
            NameOrIndex::Name(n) => str_eq(n, x),
            _ => false,
        }
    }
}

/// The position in `fields` of the first entry equal to `name`, where there
/// is one.
pub open spec fn is_first_index(fields: Seq<Seq<char>>, name: Seq<char>, r: Option<usize>) -> bool {
    match r {
        Some(i) => {
            &&& (i as int) < fields.len()
            &&& fields[i as int] == name
            &&& forall|j: int| 0 <= j < i ==> fields[j] != name
        },
        None => forall|j: int| 0 <= j < fields.len() ==> fields[j] != name,
    }
}

/// The views of a list of strings.
pub open spec fn string_views(v: Seq<String>) -> Seq<Seq<char>> {
    Seq::new(v.len(), |i: int| v[i]@)
}

/// The position in `fields` of the first entry equal to `name`.
pub fn find_field(fields: &Vec<String>, name: &str) -> (r: Option<usize>)
    ensures
        is_first_index(string_views(fields@), name@, r),
{
    let mut i: usize = 0;
    while i < fields.len()
        invariant
            i <= fields@.len(),
            forall|j: int| 0 <= j < i ==> string_views(fields@)[j] != name@,
        decreases fields@.len() - i,
    {
        if str_eq(fields[i].as_str(), name) {
            return Some(i);
        }
        i = i + 1;
    }
    None
}

/// Whether a node tuple starts with type, name, id, self size and edge count.
pub open spec fn node_layout_ok(fields: Seq<Seq<char>>) -> bool {
    &&& fields.len() >= 5
    &&& fields[0] == "type"@
    &&& fields[1] == "name"@
    &&& fields[2] == "id"@
    &&& fields[3] == "self_size"@
    &&& fields[4] == "edge_count"@
}

/// Whether an edge tuple is exactly type, name or index, and target.
pub open spec fn edge_layout_ok(fields: Seq<Seq<char>>) -> bool {
    &&& fields.len() == 3
    &&& fields[0] == "type"@
    &&& fields[1] == "name_or_index"@
    &&& fields[2] == "to_node"@
}

/// Whether a node tuple starts with type, name, id, self size and edge count.
pub fn check_node_layout(fields: &Vec<String>) -> (b: bool)
    ensures
        b == node_layout_ok(string_views(fields@)),
{
    fields.len() >= 5 && str_eq(fields[0].as_str(), "type") && str_eq(fields[1].as_str(), "name")
        && str_eq(fields[2].as_str(), "id") && str_eq(fields[3].as_str(), "self_size") && str_eq(
        fields[4].as_str(),
        "edge_count",
    )
}

/// Whether an edge tuple is exactly type, name or index, and target.
pub fn check_edge_layout(fields: &Vec<String>) -> (b: bool)
    ensures
        b == edge_layout_ok(string_views(fields@)),
{
    fields.len() == 3 && str_eq(fields[0].as_str(), "type") && str_eq(
        fields[1].as_str(),
        "name_or_index",
    ) && str_eq(fields[2].as_str(), "to_node")
}

/// Where the fields of a node stand in its tuple.
#[derive(Debug)]
pub struct NodeFields {
    pub stride: usize,
    pub trace_node_id: Option<usize>,
    pub detachedness: Option<usize>,
}

impl NodeFields {
    /// A tuple has at least the five leading fields, and the optional fields
    /// lie within it.
    pub open spec fn wf(&self) -> bool {
        &&& self.stride >= 5
        &&& self.trace_node_id matches Some(i) ==> i < self.stride
        &&& self.detachedness matches Some(i) ==> i < self.stride
    }

    /// The layout that the field names of a snapshot describe: a tuple that
    /// starts with type, name, id, self size and edge count, and may go on.
    /// Any other layout is refused.
    pub fn new(fields: Vec<String>) -> (r: Result<Self, AnalyzerError>)
        ensures
            r is Ok <==> node_layout_ok(string_views(fields@)),
            r matches Err(e) ==> e is InvalidFormat,
            r matches Ok(f) ==> {
                &&& f.wf()
                &&& f.stride == fields@.len()
                &&& is_first_index(string_views(fields@), "trace_node_id"@, f.trace_node_id)
                &&& is_first_index(string_views(fields@), "detachedness"@, f.detachedness)
            },
    {
        if !check_node_layout(&fields) {
            return Err(AnalyzerError::InvalidFormat(malformed_snapshot_message()));
        }
        Ok(
            Self {
                stride: fields.len(),
                trace_node_id: find_field(&fields, "trace_node_id"),
                detachedness: find_field(&fields, "detachedness"),
            },
        )
    }

    /// The edge count of node `i` in a flat node array.
    pub fn edge_count(&self, nodes: &[NodeId], i: NodeId) -> (r: NodeId)
        requires
            i * self.stride + 4 < nodes@.len(),
        ensures
            r == nodes@[i * self.stride + 4],
    {
        let len = nodes.len();
        assert(i * self.stride + 4 < len);
        assert(0 <= i * self.stride) by (nonlinear_arith)
            requires
                0 <= i,
                0 <= self.stride,
        ;
        nodes[i as usize * self.stride() + 4]
    }

    /// Where in the tuple of a node its kind stands.
    pub fn type_field(&self) -> (r: usize)
        ensures
            r == 0,
    {
        0
    }

    /// Where in the tuple of a node its name stands.
    pub fn name_field(&self) -> (r: usize)
        ensures
            r == 1,
    {
        1
    }

    /// Where in the tuple of a node the identity stands that the runtime
    /// gave it.
    pub fn stable_id(&self) -> (r: usize)
        ensures
            r == 2,
    {
        2
    }

    /// Where in the tuple of a node its self size stands.
    pub fn self_size_field(&self) -> (r: usize)
        ensures
            r == 3,
    {
        3
    }

    /// Where in the tuple of a node the number of its edges stands.
    pub fn edge_count_field(&self) -> (r: usize)
        ensures
            r == 4,
    {
        4
    }

    /// Where the detachedness flag stands, in a snapshot that has one.
    pub fn detachedness_field(&self) -> (r: Option<usize>)
        ensures
            r == self.detachedness,
    {
        self.detachedness
    }

    /// How many numbers describe one node.
    pub fn stride(&self) -> (r: usize)
        ensures
            r == self.stride,
    {
        self.stride
    }
}

/// Where the fields of an edge stand in its tuple.
#[derive(Debug)]
pub struct EdgeFields {}

impl EdgeFields {
    /// The layout that the field names of a snapshot describe: type, name
    /// or index, and target. Any other layout is refused.
    pub fn new(fields: Vec<String>) -> (r: Result<Self, AnalyzerError>)
        ensures
            r is Ok <==> edge_layout_ok(string_views(fields@)),
            r matches Err(e) ==> e is InvalidFormat,
    {
        if !check_edge_layout(&fields) {
            return Err(AnalyzerError::InvalidFormat(malformed_snapshot_message()));
        }
        Ok(Self {  })
    }

    /// Where in the tuple of an edge its target stands.
    pub fn to_node_field(&self) -> (r: usize)
        ensures
            r == 2,
    {
        2
    }

    /// How many numbers describe one edge.
    pub fn stride(&self) -> (r: usize)
        ensures
            r == 3,
    {
        3
    }
}

/// The edges of a graph as three columns of equal length.
#[derive(Debug)]
pub struct Edges {
    pub types: Vec<NodeId>,
    pub names: Vec<NodeId>,
    pub to_nodes: Vec<NodeId>,
}

impl Edges {
    /// The three columns have one entry per edge.
    pub open spec fn wf(&self) -> bool {
        &&& self.names@.len() == self.types@.len()
        &&& self.to_nodes@.len() == self.types@.len()
    }

    /// The columns of a flat edge array: one edge per complete tuple of
    /// three, its target divided by `node_stride`.
    pub fn new(snapshot_edges: Vec<NodeId>, edge_count: usize, node_stride: NodeId) -> (r: Self)
        requires
            node_stride > 0,
        ensures
            r.wf(),
            r.types@.len() == snapshot_edges@.len() / 3,
            forall|k: int|
                0 <= k < r.types@.len() ==> {
                    &&& #[trigger] r.types@[k] == snapshot_edges@[3 * k]
                    &&& r.names@[k] == snapshot_edges@[3 * k + 1]
                    &&& r.to_nodes@[k] == snapshot_edges@[3 * k + 2] / node_stride
                },
    {
        let mut ret = Edges {
            types: Vec::with_capacity(edge_count),
            names: Vec::with_capacity(edge_count),
            to_nodes: Vec::with_capacity(edge_count),
        };
        let total = snapshot_edges.len() / 3;
        let mut k: usize = 0;
        while k < total
            invariant
                k <= total,
                total == snapshot_edges@.len() / 3,
                snapshot_edges@.len() <= usize::MAX,
                node_stride > 0,
                ret.wf(),
                ret.types@.len() == k,
                forall|j: int|
                    0 <= j < k ==> {
                        &&& #[trigger] ret.types@[j] == snapshot_edges@[3 * j]
                        &&& ret.names@[j] == snapshot_edges@[3 * j + 1]
                        &&& ret.to_nodes@[j] == snapshot_edges@[3 * j + 2] / node_stride
                    },
            decreases total - k,
        {
            ret.types.push(snapshot_edges[3 * k]);
            ret.names.push(snapshot_edges[3 * k + 1]);
            ret.to_nodes.push(snapshot_edges[3 * k + 2] / node_stride);
            k = k + 1;
        }
        ret
    }

    /// The target of one edge.
    pub fn to1(&self, edge: usize) -> (r: NodeId)
        requires
            edge < self.to_nodes@.len(),
        ensures
            r == self.to_nodes@[edge as int],
    {
        self.to_nodes[edge]
    }

    /// The targets of `len` edges from `start` on.
    pub fn to(&self, start: usize, len: usize) -> (r: &[NodeId])
        requires
            start + len <= self.to_nodes@.len(),
        ensures
            r@ == self.to_nodes@.subrange(start as int, start + len),
    {
        let total = self.to_nodes.len();
        assert(start + len <= total);
        vstd::slice::slice_subrange(self.to_nodes.as_slice(), start, start + len)
    }

    /// How many edges there are.
    pub fn size(&self) -> (r: usize)
        ensures
            r == self.types@.len(),
    {
        self.types.len()
    }

    /// The bytes that the three columns take.
    pub open spec fn spec_mem_size(&self) -> int {
        (self.types@.len() * 4 + self.names@.len() * 4 + self.to_nodes@.len() * 4) as int
    }

    /// The bytes that the three columns take, as far as a counter holds
    /// them.
    pub fn mem_size(&self) -> (r: usize)
        ensures
            r == capped(self.spec_mem_size()),
    {
        broadcast use vstd::layout::layout_of_primitives;

        let each = core::mem::size_of::<NodeId>();
        bytes_of(self.types.len(), each).saturating_add(
            bytes_of(self.names.len(), each),
        ).saturating_add(bytes_of(self.to_nodes.len(), each))
    }
}

/// The bytes that the first `upto` lists of arriving edges take: for each
/// what a list takes by itself, and four for each edge.
pub open spec fn lists_size(lists: Seq<Vec<EdgeId>>, upto: int) -> int
    decreases upto,
{
    if upto <= 0 {
        0
    } else {
        lists_size(lists, upto - 1) + vstd::layout::size_of::<Vec<NodeId>>() + lists[upto - 1]@.len()
            * 4
    }
}

/// A heap graph: the nodes as flat tuples, the edges as columns in the order
/// of their source nodes, and for each node where its out-edges start and
/// which edges arrive at it.
#[derive(Debug)]
pub struct V8HeapGraph {
    pub node_count: usize,
    pub nodes: Vec<NodeId>,
    pub edges: Edges,
    /// For every edge, the node it leaves
    pub edge_sources: Vec<NodeId>,
    pub strings: Vec<String>,
    pub node_types: Vec<String>,
    pub edge_types: Vec<String>,
    pub node_fields: NodeFields,
    pub edge_fields: EdgeFields,
    /// For every node, where in the edge columns its edges start; one more
    /// entry at the end holds the number of edges
    pub node_out_edges: Vec<NodeId>,
    /// For every node, the edges that arrive at it, in ascending order
    pub node_in_edges: Vec<Vec<EdgeId>>,
}

/// A number times a count, plus an offset within the count's width, stays
/// below the product of the two bounds.
pub proof fn lemma_tuple_index(n: int, count: int, width: int, f: int)
    requires
        0 <= n < count,
        0 <= f < width,
    ensures
        0 <= n * width,
        n * width + f < count * width,
        n * width + width <= count * width,
{
    assert(0 <= n * width) by (nonlinear_arith)
        requires
            0 <= n,
            0 < width,
    ;
    assert(n * width + width <= count * width) by (nonlinear_arith)
        requires
            n + 1 <= count,
            0 < width,
    ;
}

impl V8HeapGraph {
    /// How many numbers describe one node.
    pub open spec fn spec_stride(&self) -> int {
        self.node_fields.stride as int
    }

    /// How many nodes the graph has.
    pub open spec fn spec_node_count(&self) -> int {
        self.node_count as int
    }

    /// How many edges the graph has.
    pub open spec fn spec_edge_count(&self) -> int {
        self.edges.types@.len() as int
    }

    /// Field `f` of node `n`.
    pub open spec fn spec_field(&self, n: int, f: int) -> NodeId {
        self.nodes@[n * self.spec_stride() + f]
    }

    /// The type tag of node `n`.
    pub open spec fn spec_node_tag(&self, n: int) -> NodeId {
        self.spec_field(n, 0)
    }

    /// The index of the name of node `n` in the string table.
    pub open spec fn spec_name_index(&self, n: int) -> NodeId {
        self.spec_field(n, 1)
    }

    /// The self size of node `n`.
    pub open spec fn spec_self_size(&self, n: int) -> int {
        self.spec_field(n, 3) as int
    }

    /// How many edges leave node `n`.
    pub open spec fn spec_out_degree(&self, n: int) -> int {
        self.spec_field(n, 4) as int
    }

    /// Where the edges of node `n` start in the edge columns.
    pub open spec fn spec_first_edge(&self, n: int) -> int {
        self.node_out_edges@[n] as int
    }

    /// Whether edge `e` is one of the edges that leave node `n`.
    pub open spec fn owns_edge(&self, n: int, e: int) -> bool {
        self.spec_first_edge(n) <= e < self.spec_first_edge(n + 1)
    }

    /// The node that edge `e` leaves.
    pub open spec fn spec_source(&self, e: int) -> NodeId {
        self.edge_sources@[e]
    }

    /// The node that edge `e` arrives at.
    pub open spec fn spec_target(&self, e: int) -> NodeId {
        self.edges.to_nodes@[e]
    }

    /// The type tag of edge `e`.
    pub open spec fn spec_edge_tag(&self, e: int) -> NodeId {
        self.edges.types@[e]
    }

    /// The name index, or for an element the position, of edge `e`.
    pub open spec fn spec_label(&self, e: int) -> NodeId {
        self.edges.names@[e]
    }

    /// The edges that arrive at node `n`, in ascending order.
    pub open spec fn spec_in_edges(&self, n: int) -> Seq<EdgeId> {
        self.node_in_edges@[n]@
    }

    /// The string under `i` in the string table.
    pub open spec fn spec_string(&self, i: int) -> Seq<char> {
        self.strings@[i]@
    }

    /// The targets of the edges that leave node `n`, in stored order.
    pub open spec fn spec_out_targets(&self, n: int) -> Seq<NodeId> {
        self.edges.to_nodes@.subrange(self.spec_first_edge(n), self.spec_first_edge(n + 1))
    }

    /// The sizes agree, nodes and edges can be numbered, every tag is known,
    /// every name is in the string table, every edge leaves and arrives at a
    /// node of the graph, the edges stand in the order of their sources, and
    /// the in-edges of a node are exactly the edges that arrive at it.
    pub open spec fn wf(&self) -> bool {
        &&& self.node_fields.wf()
        &&& self.node_count < u32::MAX
        &&& self.nodes@.len() == self.node_count * self.spec_stride()
        &&& self.edges.wf()
        &&& self.spec_edge_count() <= u32::MAX
        &&& self.edge_sources@.len() == self.spec_edge_count()
        &&& self.node_out_edges@.len() == self.node_count + 1
        &&& self.node_in_edges@.len() == self.node_count
        &&& self.spec_first_edge(0) == 0
        &&& self.spec_first_edge(self.spec_node_count()) == self.spec_edge_count()
        &&& forall|n: int|
            0 <= n < self.node_count ==> #[trigger] self.spec_first_edge(n + 1)
                == self.spec_first_edge(n) + self.spec_out_degree(n)
        &&& forall|n: int|
            0 <= n < self.node_count ==> {
                &&& #[trigger] self.spec_node_tag(n) < NODE_TYPE_COUNT
                &&& (self.spec_node_tag(n) as int) < self.node_types@.len()
                &&& (self.spec_name_index(n) as int) < self.strings@.len()
            }
        &&& forall|e: int|
            0 <= e < self.spec_edge_count() ==> {
                &&& (#[trigger] self.spec_source(e) as int) < self.node_count
                &&& self.owns_edge(self.spec_source(e) as int, e)
            }
        &&& forall|n: int, e: int|
            0 <= n < self.node_count && #[trigger] self.owns_edge(n, e) ==> self.spec_source(e)
                == n
        &&& forall|e: int|
            0 <= e < self.spec_edge_count() ==> (#[trigger] self.spec_target(e) as int)
                < self.node_count
        &&& forall|e: int|
            0 <= e < self.spec_edge_count() ==> {
                &&& #[trigger] self.spec_edge_tag(e) < EDGE_TYPE_COUNT
                &&& (self.spec_edge_tag(e) as int) < self.edge_types@.len()
                &&& self.spec_edge_tag(e) != 1 ==> (self.spec_label(e) as int)
                    < self.strings@.len()
            }
        &&& forall|n: int, k: int|
            0 <= n < self.node_count && 0 <= k < self.spec_in_edges(n).len() ==> {
                &&& (#[trigger] self.spec_in_edges(n)[k] as int) < self.spec_edge_count()
                &&& self.spec_target(self.spec_in_edges(n)[k] as int) == n
            }
        &&& forall|n: int, j: int, k: int|
            0 <= n < self.node_count && 0 <= j < k < self.spec_in_edges(n).len()
                ==> #[trigger] self.spec_in_edges(n)[j] < #[trigger] self.spec_in_edges(n)[k]
        &&& forall|e: int|
            0 <= e < self.spec_edge_count() ==> self.spec_in_edges(
                #[trigger] self.spec_target(e) as int,
            ).contains(e as u32)
    }

    /// The edges that leave a node lie within the edge columns.
    pub proof fn lemma_edge_range(&self, n: int)
        requires
            self.wf(),
            0 <= n < self.node_count,
        ensures
            0 <= self.spec_first_edge(n) <= self.spec_first_edge(n + 1) <= self.spec_edge_count(),
        decreases self.node_count - n,
    {
        if n + 1 < self.node_count {
            self.lemma_edge_range(n + 1);
        }
    }

    /// The ordinals of all nodes, in ascending order.
    pub fn iter_nodes(&self) -> (r: std::ops::Range<NodeId>)
        requires
            self.wf(),
        ensures
            r.start == 0,
            r.end == self.spec_node_count(),
    {
        (0 as NodeId)..(self.node_count() as NodeId)
    }

    /// The ordinals of all edges, in ascending order.
    pub fn iter_edges(&self) -> (r: std::ops::Range<NodeId>)
        requires
            self.wf(),
        ensures
            r.start == 0,
            r.end == self.spec_edge_count(),
    {
        (0 as NodeId)..(self.edge_count() as NodeId)
    }

    /// The tuple of one node.
    pub fn node_range(&self, node: NodeId) -> (r: &[NodeId])
        requires
            self.wf(),
            node < self.spec_node_count(),
        ensures
            r@.len() == self.spec_stride(),
            forall|f: int| 0 <= f < self.spec_stride() ==> r@[f] == self.spec_field(node as int, f),
    {
        proof {
            lemma_tuple_index(node as int, self.node_count as int, self.spec_stride(), 0);
        }
        let len = self.nodes.len();
        let start = node as usize * self.node_fields.stride();
        vstd::slice::slice_subrange(
            self.nodes.as_slice(),
            start,
            start + self.node_fields.stride(),
        )
    }

    /// Field `f` of one node.
    pub fn field(&self, node: NodeId, f: usize) -> (r: NodeId)
        requires
            self.wf(),
            node < self.spec_node_count(),
            f < self.spec_stride(),
        ensures
            r == self.spec_field(node as int, f as int),
    {
        proof {
            lemma_tuple_index(node as int, self.node_count as int, self.spec_stride(), f as int);
        }
        let len = self.nodes.len();
        self.nodes[node as usize * self.node_fields.stride() + f]
    }

    /// One edge, by its ordinal.
    pub fn edge(&self, nr: EdgeId) -> (r: Edge<'_>)
        requires
            self.wf(),
            nr < self.spec_edge_count(),
        ensures
            r.wf(),
            r.graph == self,
            r.id == nr,
    {
        Edge { from_node: self.edge_sources[nr as usize], id: nr, graph: self }
    }

    /// One node, by its ordinal.
    pub fn node(&self, id: NodeId) -> (r: Node<'_>)
        requires
            self.wf(),
            id < self.spec_node_count(),
        ensures
            r.wf(),
            r.graph == self,
            r.id == id,
    {
        Node { id, graph: self, node_range: self.node_range(id) }
    }

    /// One string of the string table.
    pub fn string(&self, index: NodeId) -> (r: &str)
        requires
            (index as int) < self.strings@.len(),
        ensures
            r@ == self.spec_string(index as int),
    {
        self.strings[index as usize].as_str()
    }

    /// How many nodes the graph has.
    pub fn node_count(&self) -> (r: usize)
        ensures
            r == self.spec_node_count(),
    {
        self.node_count
    }

    /// How many edges the graph has.
    pub fn edge_count(&self) -> (r: usize)
        ensures
            r == self.spec_edge_count(),
    {
        self.edges.size()
    }

    /// How many edges leave a node.
    pub fn edge_count_for(&self, n: NodeId) -> (r: NodeId)
        requires
            self.wf(),
            n < self.spec_node_count(),
        ensures
            r == self.spec_out_degree(n as int),
    {
        self.field(n, self.node_fields.edge_count_field())
    }

    /// Whether edge `e` has the given kind and is named `name`.
    pub open spec fn edge_matches(&self, e: int, edge_type: EdgeType, name: Seq<char>) -> bool {
        &&& self.spec_edge_tag(e) == edge_type.spec_tag()
        &&& edge_type != EdgeType::Element
        &&& self.spec_string(self.spec_label(e) as int) == name
    }

    /// The target of the first of the edges from `from` up to `end` that has
    /// the given kind and name, where there is one.
    pub open spec fn first_match(
        &self,
        from: int,
        end: int,
        edge_type: EdgeType,
        name: Seq<char>,
    ) -> Option<NodeId>
        decreases end - from,
    {
        if from >= end {
            None
        } else if self.edge_matches(from, edge_type, name) {
            Some(self.spec_target(from))
        } else {
            self.first_match(from + 1, end, edge_type, name)
        }
    }

    /// The target of the first edge of node `n` that has the given kind and
    /// name, where there is one.
    pub open spec fn spec_find_edge(&self, n: NodeId, edge_type: EdgeType, name: Seq<char>) -> Option<
        NodeId,
    > {
        self.first_match(
            self.spec_first_edge(n as int),
            self.spec_first_edge(n + 1),
            edge_type,
            name,
        )
    }

    /// The name of node `n`.
    pub open spec fn spec_node_name(&self, n: NodeId) -> Seq<char> {
        self.spec_string(self.spec_name_index(n as int) as int)
    }

    /// The name of the kind of node `n`, as the snapshot spells it.
    pub open spec fn spec_kind_name(&self, n: NodeId) -> Seq<char> {
        self.node_types@[self.spec_node_tag(n as int) as int]@
    }

    /// The name of the kind of edge `e`.
    pub open spec fn spec_edge_kind_name(&self, e: int) -> Seq<char> {
        EdgeType::of_tag(self.spec_edge_tag(e)).spec_name()
    }

    /// What edge `e` is labelled with, as text: the position of an element
    /// in digits, the name of any other edge.
    pub open spec fn spec_label_text(&self, e: int) -> Seq<char> {
        if self.spec_edge_tag(e) == 1 {
            decimal(self.spec_label(e) as nat)
        } else {
            self.spec_string(self.spec_label(e) as int)
        }
    }

    /// The target of the first edge of node `n` that has the given kind and
    /// name, where there is one.
    pub fn find_edge(&self, n: NodeId, edge_type: EdgeType, name: &str) -> (r: Option<NodeId>)
        requires
            self.wf(),
            n < self.spec_node_count(),
        ensures
            r == self.spec_find_edge(n, edge_type, name@),
            r matches Some(t) ==> (t as int) < self.spec_node_count(),
            match r {
                Some(t) => exists|e: int|
                    {
                        &&& self.owns_edge(n as int, e)
                        &&& #[trigger] self.edge_matches(e, edge_type, name@)
                        &&& t == self.spec_target(e)
                        &&& forall|d: int|
                            self.spec_first_edge(n as int) <= d < e ==> !self.edge_matches(
                                d,
                                edge_type,
                                name@,
                            )
                    },
                None => forall|e: int|
                    self.owns_edge(n as int, e) ==> !self.edge_matches(e, edge_type, name@),
            },
    {
        proof {
            self.lemma_edge_range(n as int);
        }
        let start = self.node_out_edges[n as usize];
        let end = self.node_out_edges[n as usize + 1];
        let mut e = start;
        while e < end
            invariant
                self.wf(),
                n < self.spec_node_count(),
                start == self.spec_first_edge(n as int),
                end == self.spec_first_edge(n + 1),
                end <= self.spec_edge_count(),
                start <= e <= end,
                forall|d: int| start <= d < e ==> !self.edge_matches(d, edge_type, name@),
                self.spec_find_edge(n, edge_type, name@) == self.first_match(
                    e as int,
                    end as int,
                    edge_type,
                    name@,
                ),
            decreases end - e,
        {
            let edge = self.edge(e);
            if edge.typ() == edge_type && edge.name_or_index().is_str(name) {
                assert(self.edge_matches(e as int, edge_type, name@));
                return Some(edge.to_node());
            }
            assert(!self.edge_matches(e as int, edge_type, name@));
            e = e + 1;
        }
        None
    }

    /// The edges that leave a node, in stored order.
    pub fn edges_for(&self, n: NodeId) -> (r: Vec<Edge<'_>>)
        requires
            self.wf(),
            n < self.spec_node_count(),
        ensures
            r@.len() == self.spec_out_degree(n as int),
            forall|k: int|
                0 <= k < r@.len() ==> {
                    &&& (#[trigger] r@[k]).wf()
                    &&& r@[k].graph == self
                    &&& r@[k].id == self.spec_first_edge(n as int) + k
                    &&& r@[k].from_node == n
                },
    {
        proof {
            self.lemma_edge_range(n as int);
        }
        let start = self.node_out_edges[n as usize];
        let end = self.node_out_edges[n as usize + 1];
        let mut out: Vec<Edge<'_>> = Vec::new();
        let mut e = start;
        while e < end
            invariant
                self.wf(),
                n < self.spec_node_count(),
                start == self.spec_first_edge(n as int),
                end == self.spec_first_edge(n + 1),
                end <= self.spec_edge_count(),
                start <= e <= end,
                out@.len() == e - start,
                forall|k: int|
                    0 <= k < out@.len() ==> {
                        &&& (#[trigger] out@[k]).wf()
                        &&& out@[k].graph == self
                        &&& out@[k].id == start + k
                        &&& out@[k].from_node == n
                    },
            decreases end - e,
        {
            assert(self.owns_edge(n as int, e as int));
            out.push(self.edge(e));
            e = e + 1;
        }
        out
    }

    /// The self size of a node.
    pub fn self_size_for(&self, n: NodeId) -> (r: usize)
        requires
            self.wf(),
            n < self.spec_node_count(),
        ensures
            r == self.spec_self_size(n as int),
    {
        self.field(n, self.node_fields.self_size_field()) as usize
    }

    /// The self sizes of all nodes, by ordinal.
    pub open spec fn spec_self_sizes(&self) -> Seq<u32> {
        Seq::new(self.node_count as nat, |n: int| self.spec_field(n, 3))
    }

    /// The self sizes of all nodes, by ordinal.
    pub fn self_sizes(&self) -> (r: Vec<u32>)
        requires
            self.wf(),
        ensures
            r@ == self.spec_self_sizes(),
    {
        let mut out: Vec<u32> = Vec::with_capacity(self.node_count);
        let mut n: usize = 0;
        while n < self.node_count
            invariant
                self.wf(),
                n <= self.node_count,
                out@.len() == n,
                forall|k: int| 0 <= k < n ==> out@[k] == self.spec_field(k, 3),
            decreases self.node_count - n,
        {
            out.push(self.field(n as NodeId, 3));
            n = n + 1;
        }
        proof {
            assert(out@ =~= self.spec_self_sizes());
        }
        out
    }

    /// The targets of the edges that leave a node, in stored order.
    pub fn out_edges(&self, node: NodeId) -> (r: &[NodeId])
        requires
            self.wf(),
            node < self.spec_node_count(),
        ensures
            r@ == self.spec_out_targets(node as int),
    {
        proof {
            self.lemma_edge_range(node as int);
        }
        let start = self.node_out_edges[node as usize];
        let end = self.node_out_edges[node as usize + 1];
        self.edges.to(start as usize, (end - start) as usize)
    }

    /// The bytes that the graph takes: its nodes, its edges, and for each
    /// node where its edges start and which edges arrive.
    pub open spec fn spec_mem_size(&self) -> int {
        self.nodes@.len() * 4 + self.edges.spec_mem_size() + self.node_out_edges@.len() * 4
            + lists_size(self.node_in_edges@, self.node_in_edges@.len() as int)
    }

    /// The bytes that the graph takes, as far as a counter holds them.
    pub fn mem_size(&self) -> (r: usize)
        ensures
            r == capped(self.spec_mem_size()),
    {
        broadcast use vstd::layout::layout_of_primitives;

        let each = core::mem::size_of::<NodeId>();
        let list = core::mem::size_of::<Vec<NodeId>>();
        let mut ret: usize = bytes_of(self.nodes.len(), each);
        ret = ret.saturating_add(self.edges.mem_size());
        ret = ret.saturating_add(bytes_of(self.node_out_edges.len(), each));
        let ghost head = self.nodes@.len() * 4 + self.edges.spec_mem_size()
            + self.node_out_edges@.len() * 4;
        let mut k: usize = 0;
        while k < self.node_in_edges.len()
            invariant
                k <= self.node_in_edges@.len(),
                each == 4,
                list == vstd::layout::size_of::<Vec<NodeId>>(),
                head >= 0,
                ret == capped(head + lists_size(self.node_in_edges@, k as int)),
                lists_size(self.node_in_edges@, k as int) >= 0,
            decreases self.node_in_edges@.len() - k,
        {
            ret = ret.saturating_add(list);
            ret = ret.saturating_add(bytes_of(self.node_in_edges[k].len(), each));
            k = k + 1;
        }
        ret
    }

    /// The sources of the edges that arrive at a node, in the order of the
    /// edges.
    pub fn in_edges(&self, node: NodeId) -> (r: Vec<NodeId>)
        requires
            self.wf(),
            node < self.spec_node_count(),
        ensures
            r@.len() == self.spec_in_edges(node as int).len(),
            forall|k: int|
                0 <= k < r@.len() ==> #[trigger] r@[k] == self.spec_source(
                    self.spec_in_edges(node as int)[k] as int,
                ),
    {
        let ids = &self.node_in_edges[node as usize];
        let mut out: Vec<NodeId> = Vec::with_capacity(ids.len());
        let mut k: usize = 0;
        while k < ids.len()
            invariant
                self.wf(),
                node < self.spec_node_count(),
                ids@ == self.spec_in_edges(node as int),
                k <= ids@.len(),
                out@.len() == k,
                forall|j: int|
                    0 <= j < k ==> #[trigger] out@[j] == self.spec_source(ids@[j] as int),
            decreases ids@.len() - k,
        {
            assert((self.spec_in_edges(node as int)[k as int] as int) < self.spec_edge_count());
            out.push(self.edge_sources[ids[k] as usize]);
            k = k + 1;
        }
        out
    }
}

/// One node of a graph, with its tuple at hand.
pub struct Node<'a> {
    pub id: NodeId,
    pub node_range: &'a [NodeId],
    pub graph: &'a V8HeapGraph,
}

impl<'a> Node<'a> {
    /// The node is one of its graph's, and its tuple is the one that the
    /// graph holds for it.
    pub open spec fn wf(&self) -> bool {
        &&& self.graph.wf()
        &&& self.id < self.graph.spec_node_count()
        &&& self.node_range@.len() == self.graph.spec_stride()
        &&& forall|f: int|
            0 <= f < self.graph.spec_stride() ==> self.node_range@[f] == self.graph.spec_field(
                self.id as int,
                f,
            )
    }

    /// The kind of the node.
    pub fn typ(&self) -> (r: NodeType)
        requires
            self.wf(),
        ensures
            r.spec_tag() == self.graph.spec_node_tag(self.id as int),
    {
        assert(self.graph.spec_node_tag(self.id as int) < NODE_TYPE_COUNT);
        NodeType::from_tag(self.node_range[self.graph.node_fields.type_field()]).unwrap()
    }

    /// The name of the node's kind, as the snapshot spells it.
    pub fn typ_str(&self) -> (r: &'a str)
        requires
            self.wf(),
        ensures
            r@ == self.graph.node_types@[self.graph.spec_node_tag(self.id as int) as int]@,
    {
        assert(self.graph.spec_node_tag(self.id as int) < NODE_TYPE_COUNT);
        let typ_id = self.node_range[self.graph.node_fields.type_field()];
        self.graph.node_types[typ_id as usize].as_str()
    }

    /// The name of the node.
    pub fn name(&self) -> (r: &'a str)
        requires
            self.wf(),
        ensures
            r@ == self.graph.spec_string(self.graph.spec_name_index(self.id as int) as int),
    {
        assert(self.graph.spec_node_tag(self.id as int) < NODE_TYPE_COUNT);
        let name_id = self.node_range[self.graph.node_fields.name_field()];
        self.graph.strings[name_id as usize].as_str()
    }

    /// The name of the node, for display: a string node's contents between
    /// quotes, escaped and cut at `max_len`; any other node's name as it is.
    pub fn print_safe_name(&self, max_len: usize) -> (r: Cow<'a, str>)
        requires
            self.wf(),
        ensures
            r@ == if self.graph.spec_node_tag(self.id as int) == NodeType::String.spec_tag() {
                print_safe_spec(
                    self.graph.spec_string(self.graph.spec_name_index(self.id as int) as int),
                    max_len,
                )
            } else {
                self.graph.spec_string(self.graph.spec_name_index(self.id as int) as int)
            },
    {
        match self.typ() {
            NodeType::String => Cow::Owned(print_safe(self.name(), max_len)),
            _ => Cow::Borrowed(self.name()),
        }
    }

    /// The identity that the runtime gave the node.
    pub fn stable_id(&self) -> (r: NodeId)
        requires
            self.wf(),
        ensures
            r == self.graph.spec_field(self.id as int, 2),
    {
        self.node_range[self.graph.node_fields.stable_id()]
    }

    /// The bytes that the node itself takes.
    pub fn self_size(&self) -> (r: usize)
        requires
            self.wf(),
        ensures
            r == self.graph.spec_self_size(self.id as int),
    {
        self.node_range[self.graph.node_fields.self_size_field()] as usize
    }

    /// How many edges leave the node.
    pub fn edge_count(&self) -> (r: usize)
        requires
            self.wf(),
        ensures
            r == self.graph.spec_out_degree(self.id as int),
    {
        self.node_range[self.graph.node_fields.edge_count_field()] as usize
    }

    /// Whether the node is flagged as detached; never in a snapshot without
    /// that flag.
    pub fn detachedness(&self) -> (r: bool)
        requires
            self.wf(),
        ensures
            r == match self.graph.node_fields.detachedness {
                Some(f) => self.graph.spec_field(self.id as int, f as int) == 1,
                None => false,
            },
    {
        match self.graph.node_fields.detachedness_field() {
            Some(f) => self.node_range[f] == 1,
            None => false,
        }
    }
}

/// One edge of a graph, with the node it leaves at hand.
pub struct Edge<'a> {
    pub from_node: NodeId,
    pub id: EdgeId,
    pub graph: &'a V8HeapGraph,
}

impl<'a> Edge<'a> {
    /// The edge is one of its graph's, and leaves the node it says.
    pub open spec fn wf(&self) -> bool {
        &&& self.graph.wf()
        &&& self.id < self.graph.spec_edge_count()
        &&& self.from_node == self.graph.spec_source(self.id as int)
    }

    /// The kind of the edge.
    pub fn typ(&self) -> (r: EdgeType)
        requires
            self.wf(),
        ensures
            r.spec_tag() == self.graph.spec_edge_tag(self.id as int),
            r == EdgeType::of_tag(self.graph.spec_edge_tag(self.id as int)),
    {
        assert(self.graph.spec_edge_tag(self.id as int) < EDGE_TYPE_COUNT);
        EdgeType::from_tag(self.graph.edges.types[self.id as usize]).unwrap()
    }

    /// The name of the edge's kind.
    pub fn typ_str(&self) -> (r: &'static str)
        requires
            self.wf(),
        ensures
            r@ == self.graph.spec_edge_kind_name(self.id as int),
    {
        self.typ().as_str()
    }

    /// The edge's name index, or for an element its position.
    pub fn index(&self) -> (r: NodeId)
        requires
            self.wf(),
        ensures
            r == self.graph.spec_label(self.id as int),
    {
        self.graph.edges.names[self.id as usize]
    }

    /// What the edge is labelled with: an element's position, any other
    /// edge's name.
    pub fn name_or_index(&self) -> (r: NameOrIndex<'a>)
        requires
            self.wf(),
        ensures
            self.graph.spec_edge_tag(self.id as int) == 1 ==> (r matches NameOrIndex::Index(i)
                && i == self.graph.spec_label(self.id as int)),
            self.graph.spec_edge_tag(self.id as int) != 1 ==> (r matches NameOrIndex::Name(s)
                && s@ == self.graph.spec_string(self.graph.spec_label(self.id as int) as int)),
            r.spec_text() == self.graph.spec_label_text(self.id as int),
    {
        assert(self.graph.spec_edge_tag(self.id as int) < EDGE_TYPE_COUNT);
        let ni = self.graph.edges.names[self.id as usize];
        match self.typ() {
            EdgeType::Element => NameOrIndex::Index(ni),
            _ => NameOrIndex::Name(self.graph.strings[ni as usize].as_str()),
        }
    }

    /// The node that the edge arrives at.
    pub fn to_node(&self) -> (r: NodeId)
        requires
            self.wf(),
        ensures
            r == self.graph.spec_target(self.id as int),
            r < self.graph.spec_node_count(),
    {
        assert((self.graph.spec_target(self.id as int) as int) < self.graph.spec_node_count());
        self.graph.edges.to_nodes[self.id as usize]
    }

    /// The node that the edge leaves.
    pub fn from_node(&self) -> (r: NodeId)
        requires
            self.wf(),
        ensures
            r == self.graph.spec_source(self.id as int),
            r < self.graph.spec_node_count(),
    {
        assert((self.graph.spec_source(self.id as int) as int) < self.graph.spec_node_count());
        self.from_node
    }
}

/// Field `f` of node `n` in a flat node array with `stride` numbers per node.
pub open spec fn raw_field(nodes: Seq<NodeId>, stride: int, n: int, f: int) -> NodeId {
    nodes[n * stride + f]
}

/// The sum of the edge counts of the first `n` nodes of a flat node array.
pub open spec fn degree_sum(nodes: Seq<NodeId>, stride: int, n: int) -> int
    decreases n,
{
    if n <= 0 {
        0
    } else {
        degree_sum(nodes, stride, n - 1) + raw_field(nodes, stride, n - 1, 4)
    }
}

/// The number of edges of the first nodes grows with the nodes counted.
pub proof fn lemma_degree_sum_monotonic(nodes: Seq<NodeId>, stride: int, i: int, j: int)
    requires
        0 <= i <= j,
    ensures
        0 <= degree_sum(nodes, stride, i) <= degree_sum(nodes, stride, j),
    decreases j,
{
    if i < j {
        lemma_degree_sum_monotonic(nodes, stride, i, j - 1);
    } else if 0 < i {
        lemma_degree_sum_monotonic(nodes, stride, i - 1, i - 1);
    }
}

/// Whether every node of a flat node array has a known kind that the
/// snapshot names and a name in the string table.
pub open spec fn raw_nodes_ok(
    nodes: Seq<NodeId>,
    stride: int,
    node_count: int,
    kinds: int,
    strings: int,
) -> bool {
    forall|n: int|
        0 <= n < node_count ==> {
            &&& #[trigger] raw_field(nodes, stride, n, 0) < NODE_TYPE_COUNT
            &&& (raw_field(nodes, stride, n, 0) as int) < kinds
            &&& (raw_field(nodes, stride, n, 1) as int) < strings
        }
}

/// Whether every edge has a known kind that the snapshot names, a name in
/// the string table unless it is an element, and a target among the nodes.
pub open spec fn raw_edges_ok(edges: Edges, kinds: int, strings: int, node_count: int) -> bool {
    forall|e: int|
        0 <= e < edges.types@.len() ==> {
            &&& #[trigger] edges.types@[e] < EDGE_TYPE_COUNT
            &&& (edges.types@[e] as int) < kinds
            &&& edges.types@[e] != 1 ==> (edges.names@[e] as int) < strings
            &&& (edges.to_nodes@[e] as int) < node_count
        }
}

/// Whether the names that a snapshot lists first among its types are a list.
pub open spec fn has_kind_list(types: Seq<SnapshotType>) -> bool {
    types.len() > 0 && types[0] is Strs
}

/// How many kinds a snapshot names in the list that stands first among its
/// types.
pub open spec fn kind_count(types: Seq<SnapshotType>) -> int {
    types[0]->Strs_0@.len() as int
}

/// Whether a snapshot can be loaded: its layout is the expected one, its
/// arrays have the sizes that its header announces, the edge counts of its
/// nodes add up to the number of its edges, and every node and edge is
/// valid.
pub open spec fn snapshot_ok(file: SnapshotFile) -> bool {
    let meta = file.snapshot.meta;
    let stride = meta.node_fields@.len() as int;
    let node_count = file.snapshot.node_count as int;
    let edge_count = file.snapshot.edge_count as int;
    &&& node_layout_ok(string_views(meta.node_fields@))
    &&& edge_layout_ok(string_views(meta.edge_fields@))
    &&& stride <= u32::MAX
    &&& has_kind_list(meta.node_types@)
    &&& has_kind_list(meta.edge_types@)
    &&& node_count < u32::MAX
    &&& edge_count <= u32::MAX
    &&& file.nodes@.len() == node_count * stride
    &&& file.edges@.len() == edge_count * 3
    &&& raw_nodes_ok(
        file.nodes@,
        stride,
        node_count,
        kind_count(meta.node_types@),
        file.strings@.len() as int,
    )
    &&& degree_sum(file.nodes@, stride, node_count) == edge_count
    &&& forall|e: int|
        0 <= e < edge_count ==> {
            &&& #[trigger] file.edges@[3 * e] < EDGE_TYPE_COUNT
            &&& (file.edges@[3 * e] as int) < kind_count(meta.edge_types@)
            &&& file.edges@[3 * e] != 1 ==> (file.edges@[3 * e + 1] as int) < file.strings@.len()
            &&& file.edges@[3 * e + 2] as int / stride < node_count
        }
}

/// Where the edges of each node start, from the edge counts of a flat node
/// array; nothing where a node is invalid or the counts do not add up to
/// `edge_count`.
fn scan_nodes(
    nodes: &Vec<NodeId>,
    stride: usize,
    node_count: usize,
    kinds: usize,
    strings: usize,
    edge_count: usize,
) -> (r: Option<Vec<NodeId>>)
    requires
        stride >= 5,
        nodes@.len() == node_count * stride,
        edge_count <= u32::MAX,
    ensures
        r is Some <==> raw_nodes_ok(nodes@, stride as int, node_count as int, kinds as int, strings as int)
            && degree_sum(nodes@, stride as int, node_count as int) == edge_count,
        r matches Some(out) ==> {
            &&& out@.len() == node_count + 1
            &&& forall|n: int|
                0 <= n <= node_count ==> #[trigger] out@[n] == degree_sum(nodes@, stride as int, n)
        },
{
    let mut out: Vec<NodeId> = Vec::new();
    let mut sum: u32 = 0;
    out.push(0);
    let mut n: usize = 0;
    while n < node_count
        invariant
            stride >= 5,
            nodes@.len() == node_count * stride,
            edge_count <= u32::MAX,
            n <= node_count,
            out@.len() == n + 1,
            sum <= edge_count,
            sum == degree_sum(nodes@, stride as int, n as int),
            forall|m: int| 0 <= m <= n ==> #[trigger] out@[m] == degree_sum(nodes@, stride as int, m),
            forall|m: int|
                0 <= m < n ==> {
                    &&& #[trigger] raw_field(nodes@, stride as int, m, 0) < NODE_TYPE_COUNT
                    &&& (raw_field(nodes@, stride as int, m, 0) as int) < kinds
                    &&& (raw_field(nodes@, stride as int, m, 1) as int) < strings
                },
        decreases node_count - n,
    {
        proof {
            lemma_tuple_index(n as int, node_count as int, stride as int, 4);
        }
        let len = nodes.len();
        let base = n * stride;
        let tag = nodes[base];
        let name = nodes[base + 1];
        let degree = nodes[base + 4];
        assert(tag == raw_field(nodes@, stride as int, n as int, 0));
        assert(name == raw_field(nodes@, stride as int, n as int, 1));
        assert(degree == raw_field(nodes@, stride as int, n as int, 4));
        if tag >= NODE_TYPE_COUNT || tag as usize >= kinds || name as usize >= strings {
            return None;
        }
        if degree as usize > edge_count - sum as usize {
            proof {
                lemma_degree_sum_monotonic(
                    nodes@,
                    stride as int,
                    n as int + 1,
                    node_count as int,
                );
            }
            return None;
        }
        sum = sum + degree;
        out.push(sum);
        n = n + 1;
    }
    if sum as usize != edge_count {
        return None;
    }
    Some(out)
}

/// Whether every edge has a known kind that the snapshot names, a name in
/// the string table unless it is an element, and a target among the nodes.
fn scan_edges(edges: &Edges, kinds: usize, strings: usize, node_count: usize) -> (b: bool)
    requires
        edges.wf(),
    ensures
        b == raw_edges_ok(*edges, kinds as int, strings as int, node_count as int),
{
    let mut e: usize = 0;
    while e < edges.types.len()
        invariant
            edges.wf(),
            e <= edges.types@.len(),
            forall|d: int|
                0 <= d < e ==> {
                    &&& #[trigger] edges.types@[d] < EDGE_TYPE_COUNT
                    &&& (edges.types@[d] as int) < kinds
                    &&& edges.types@[d] != 1 ==> (edges.names@[d] as int) < strings
                    &&& (edges.to_nodes@[d] as int) < node_count
                },
        decreases edges.types@.len() - e,
    {
        let tag = edges.types[e];
        if tag >= EDGE_TYPE_COUNT || tag as usize >= kinds || (tag != 1 && edges.names[e] as usize
            >= strings) || edges.to_nodes[e] as usize >= node_count {
            return false;
        }
        e = e + 1;
    }
    true
}

/// For every edge the node it leaves, and for every node the edges that
/// arrive at it, from where each node's edges start and where each edge
/// goes.
fn index_edges(out: &Vec<NodeId>, to_nodes: &Vec<NodeId>, node_count: usize) -> (r: (
    Vec<NodeId>,
    Vec<Vec<EdgeId>>,
))
    requires
        node_count < u32::MAX,
        to_nodes@.len() <= u32::MAX,
        out@.len() == node_count + 1,
        out@[0] == 0,
        out@[node_count as int] == to_nodes@.len(),
        forall|n: int| 0 <= n < node_count ==> #[trigger] out@[n] <= out@[n + 1],
        forall|e: int| 0 <= e < to_nodes@.len() ==> (#[trigger] to_nodes@[e] as int) < node_count,
    ensures
        r.0@.len() == to_nodes@.len(),
        r.1@.len() == node_count,
        forall|e: int|
            0 <= e < to_nodes@.len() ==> {
                &&& (#[trigger] r.0@[e] as int) < node_count
                &&& out@[r.0@[e] as int] <= e < out@[r.0@[e] + 1]
            },
        forall|n: int, k: int|
            0 <= n < node_count && 0 <= k < r.1@[n]@.len() ==> {
                &&& (#[trigger] r.1@[n]@[k] as int) < to_nodes@.len()
                &&& to_nodes@[r.1@[n]@[k] as int] == n
            },
        forall|n: int, j: int, k: int|
            0 <= n < node_count && 0 <= j < k < r.1@[n]@.len() ==> #[trigger] r.1@[n]@[j]
                < #[trigger] r.1@[n]@[k],
        forall|e: int|
            0 <= e < to_nodes@.len() ==> r.1@[#[trigger] to_nodes@[e] as int]@.contains(e as u32),
{
    let total = to_nodes.len();
    let mut sources: Vec<NodeId> = Vec::with_capacity(total);
    let mut arrivals: Vec<Vec<EdgeId>> = Vec::with_capacity(node_count);
    let mut i: usize = 0;
    while i < node_count
        invariant
            i <= node_count,
            arrivals@.len() == i,
            forall|n: int| 0 <= n < i ==> (#[trigger] arrivals@[n])@.len() == 0,
        decreases node_count - i,
    {
        arrivals.push(Vec::new());
        i = i + 1;
    }
    let mut n: usize = 0;
    let mut e: usize = 0;
    while n < node_count
        invariant
            node_count < u32::MAX,
            total == to_nodes@.len(),
            total <= u32::MAX,
            out@.len() == node_count + 1,
            out@[0] == 0,
            out@[node_count as int] == total,
            forall|m: int| 0 <= m < node_count ==> #[trigger] out@[m] <= out@[m + 1],
            forall|d: int| 0 <= d < total ==> (#[trigger] to_nodes@[d] as int) < node_count,
            n <= node_count,
            e == out@[n as int],
            e <= total,
            sources@.len() == e,
            arrivals@.len() == node_count,
            forall|d: int|
                0 <= d < e ==> {
                    &&& (#[trigger] sources@[d] as int) < n
                    &&& out@[sources@[d] as int] <= d < out@[sources@[d] + 1]
                },
            forall|m: int, k: int|
                0 <= m < node_count && 0 <= k < arrivals@[m]@.len() ==> {
                    &&& (#[trigger] arrivals@[m]@[k] as int) < e
                    &&& to_nodes@[arrivals@[m]@[k] as int] == m
                },
            forall|m: int, j: int, k: int|
                0 <= m < node_count && 0 <= j < k < arrivals@[m]@.len()
                    ==> #[trigger] arrivals@[m]@[j] < #[trigger] arrivals@[m]@[k],
            forall|d: int|
                0 <= d < e ==> arrivals@[#[trigger] to_nodes@[d] as int]@.contains(d as u32),
        decreases node_count - n,
    {
        let end = out[n + 1] as usize;
        proof {
            lemma_offsets_bounded(out@, node_count as int, n as int + 1);
        }
        while e < end
            invariant
                node_count < u32::MAX,
                total == to_nodes@.len(),
                total <= u32::MAX,
                out@.len() == node_count + 1,
                forall|d: int| 0 <= d < total ==> (#[trigger] to_nodes@[d] as int) < node_count,
                n < node_count,
                out@[n as int] <= e <= end,
                end == out@[n + 1],
                end <= total,
                sources@.len() == e,
                arrivals@.len() == node_count,
                forall|d: int|
                    0 <= d < e ==> {
                        &&& (#[trigger] sources@[d] as int) < n + 1
                        &&& out@[sources@[d] as int] <= d < out@[sources@[d] + 1]
                    },
                forall|m: int, k: int|
                    0 <= m < node_count && 0 <= k < arrivals@[m]@.len() ==> {
                        &&& (#[trigger] arrivals@[m]@[k] as int) < e
                        &&& to_nodes@[arrivals@[m]@[k] as int] == m
                    },
                forall|m: int, j: int, k: int|
                    0 <= m < node_count && 0 <= j < k < arrivals@[m]@.len()
                        ==> #[trigger] arrivals@[m]@[j] < #[trigger] arrivals@[m]@[k],
                forall|d: int|
                    0 <= d < e ==> arrivals@[#[trigger] to_nodes@[d] as int]@.contains(d as u32),
            decreases end - e,
        {
            let to_node = to_nodes[e] as usize;
            let ghost before = arrivals@;
            sources.push(n as NodeId);
            arrivals[to_node].push(e as EdgeId);
            proof {
                assert(arrivals@[to_node as int]@ == before[to_node as int]@.push(e as u32));
                assert(forall|m: int|
                    0 <= m < node_count && m != to_node ==> arrivals@[m] == before[m]);
                assert forall|d: int| 0 <= d < e + 1 implies arrivals@[#[trigger] to_nodes@[d] as int]@.contains(
                    d as u32,
                ) by {
                    let t = to_nodes@[d] as int;
                    if d == e {
                        assert(arrivals@[t]@[before[t]@.len() as int] == e as u32);
                    } else {
                        assert(before[t]@.contains(d as u32));
                        let k = choose|k: int| 0 <= k < before[t]@.len() && before[t]@[k] == d as u32;
                        assert(arrivals@[t]@[k] == d as u32);
                    }
                }
            }
            e = e + 1;
        }
        n = n + 1;
    }
    (sources, arrivals)
}

/// Offsets that never decrease stay below the last one.
pub proof fn lemma_offsets_bounded(out: Seq<NodeId>, node_count: int, n: int)
    requires
        out.len() == node_count + 1,
        0 <= n <= node_count,
        forall|m: int| 0 <= m < node_count ==> #[trigger] out[m] <= out[m + 1],
    ensures
        out[n] <= out[node_count],
    decreases node_count - n,
{
    if n < node_count {
        lemma_offsets_bounded(out, node_count, n + 1);
    }
}

/// The text of the error for a snapshot that cannot be loaded.
fn malformed_snapshot_message() -> (s: String)
    ensures
        s@ == "malformed heap snapshot"@,
{
    let s = "malformed heap snapshot".to_string();
    proof {
        vstd::string::to_string_from_display_ensures_for_str("malformed heap snapshot", s);
    }
    s
}

/// The kinds that a snapshot names in the list that stands first among its
/// types; nothing where no list stands there.
fn take_kind_list(types: Vec<SnapshotType>) -> (r: Option<Vec<String>>)
    ensures
        r is Some <==> has_kind_list(types@),
        r matches Some(v) ==> v == types@[0]->Strs_0,
{
    let mut types = types;
    if types.len() == 0 {
        return None;
    }
    match types.swap_remove(0) {
        SnapshotType::Strs(v) => Some(v),
        SnapshotType::Str(_) => None,
    }
}

impl V8HeapGraph {
    /// Whether the graph holds what the snapshot holds: its nodes as they
    /// are, its strings and kinds, and each edge with its target turned from
    /// an offset into the flat node array into a node's ordinal.
    pub open spec fn holds(&self, file: SnapshotFile) -> bool {
        &&& self.node_count == file.snapshot.node_count
        &&& self.spec_edge_count() == file.snapshot.edge_count
        &&& self.spec_stride() == file.snapshot.meta.node_fields@.len()
        &&& self.nodes == file.nodes
        &&& self.strings == file.strings
        &&& self.node_types == file.snapshot.meta.node_types@[0]->Strs_0
        &&& self.edge_types == file.snapshot.meta.edge_types@[0]->Strs_0
        &&& is_first_index(
            string_views(file.snapshot.meta.node_fields@),
            "detachedness"@,
            self.node_fields.detachedness,
        )
        &&& is_first_index(
            string_views(file.snapshot.meta.node_fields@),
            "trace_node_id"@,
            self.node_fields.trace_node_id,
        )
        &&& forall|e: int|
            0 <= e < self.spec_edge_count() ==> {
                &&& #[trigger] self.spec_edge_tag(e) == file.edges@[3 * e]
                &&& self.spec_label(e) == file.edges@[3 * e + 1]
                &&& self.spec_target(e) as int == file.edges@[3 * e + 2] as int
                    / self.spec_stride()
            }
    }

    /// The graph of a snapshot. A snapshot with another layout than the
    /// expected one, with arrays of other sizes than its header announces,
    /// with an unknown kind of node or edge, a name outside the string
    /// table, an edge to a node that is not there, or edge counts that do
    /// not add up to the number of edges, is refused.
    pub fn from_snapshot(value: SnapshotFile) -> (r: Result<V8HeapGraph, AnalyzerError>)
        ensures
            r is Ok <==> snapshot_ok(value),
            r matches Err(e) ==> e is InvalidFormat,
            r matches Ok(g) ==> g.wf() && g.holds(value),
    {
        let SnapshotFile { snapshot, nodes, edges: raw_edges, locations: _, strings } = value;
        let node_count = snapshot.node_count;
        let edge_count = snapshot.edge_count;
        let meta = snapshot.meta;
        if !check_node_layout(&meta.node_fields) || !check_edge_layout(&meta.edge_fields) {
            return Err(AnalyzerError::InvalidFormat(malformed_snapshot_message()));
        }
        let stride = meta.node_fields.len();
        if stride > u32::MAX as usize || node_count >= u32::MAX as usize || edge_count
            > u32::MAX as usize {
            return Err(AnalyzerError::InvalidFormat(malformed_snapshot_message()));
        }
        let node_types = match take_kind_list(meta.node_types) {
            Some(v) => v,
            None => {
                return Err(AnalyzerError::InvalidFormat(malformed_snapshot_message()));
            },
        };
        let edge_types = match take_kind_list(meta.edge_types) {
            Some(v) => v,
            None => {
                return Err(AnalyzerError::InvalidFormat(malformed_snapshot_message()));
            },
        };
        if nodes.len() % stride != 0 || nodes.len() / stride != node_count {
            proof {
                lemma_exact_tuples(nodes@.len() as int, stride as int, node_count as int);
            }
            return Err(AnalyzerError::InvalidFormat(malformed_snapshot_message()));
        }
        if raw_edges.len() % 3 != 0 || raw_edges.len() / 3 != edge_count {
            return Err(AnalyzerError::InvalidFormat(malformed_snapshot_message()));
        }
        proof {
            lemma_exact_tuples(nodes@.len() as int, stride as int, node_count as int);
        }
        let node_out_edges = match scan_nodes(
            &nodes,
            stride,
            node_count,
            node_types.len(),
            strings.len(),
            edge_count,
        ) {
            Some(out) => out,
            None => {
                return Err(AnalyzerError::InvalidFormat(malformed_snapshot_message()));
            },
        };
        let ghost raw = raw_edges@;
        let edges = Edges::new(raw_edges, edge_count, stride as NodeId);
        if !scan_edges(&edges, edge_types.len(), strings.len(), node_count) {
            proof {
                if snapshot_ok(value) {
                    assert(edge_types@.len() == kind_count(value.snapshot.meta.edge_types@));
                    assert forall|e: int| 0 <= e < edges.types@.len() implies {
                        &&& #[trigger] edges.types@[e] < EDGE_TYPE_COUNT
                        &&& (edges.types@[e] as int) < edge_types@.len()
                        &&& edges.types@[e] != 1 ==> (edges.names@[e] as int) < strings@.len()
                        &&& (edges.to_nodes@[e] as int) < node_count
                    } by {
                        assert(edges.types@[e] == raw[3 * e]);
                        assert(edges.names@[e] == raw[3 * e + 1]);
                        assert(edges.to_nodes@[e] == raw[3 * e + 2] / (stride as NodeId));
                        assert(value.edges@[3 * e] < EDGE_TYPE_COUNT);
                    }
                    assert(raw_edges_ok(
                        edges,
                        edge_types@.len() as int,
                        strings@.len() as int,
                        node_count as int,
                    ));
                    assert(false);
                }
            }
            return Err(AnalyzerError::InvalidFormat(malformed_snapshot_message()));
        }
        proof {
            assert forall|n: int| 0 <= n < node_count implies #[trigger] node_out_edges@[n]
                <= node_out_edges@[n + 1] by {
                assert(node_out_edges@[n + 1] == degree_sum(nodes@, stride as int, n + 1));
            }
            assert forall|e: int| 0 <= e < edges.to_nodes@.len() implies (
            #[trigger] edges.to_nodes@[e] as int) < node_count by {
                assert(edges.types@[e] < EDGE_TYPE_COUNT);
            }
            assert forall|e: int| 0 <= e < edge_count implies {
                &&& #[trigger] value.edges@[3 * e] < EDGE_TYPE_COUNT
                &&& (value.edges@[3 * e] as int) < kind_count(value.snapshot.meta.edge_types@)
                &&& value.edges@[3 * e] != 1 ==> (value.edges@[3 * e + 1] as int)
                    < value.strings@.len()
                &&& value.edges@[3 * e + 2] as int / (stride as int) < node_count
            } by {
                assert(edges.types@[e] < EDGE_TYPE_COUNT);
            }
        }
        let (edge_sources, node_in_edges) = index_edges(&node_out_edges, &edges.to_nodes, node_count);
        let node_fields = match NodeFields::new(meta.node_fields) {
            Ok(fields) => fields,
            Err(e) => {
                return Err(e);
            },
        };
        let edge_fields = match EdgeFields::new(meta.edge_fields) {
            Ok(fields) => fields,
            Err(e) => {
                return Err(e);
            },
        };
        let graph = V8HeapGraph {
            node_count,
            nodes,
            edges,
            edge_sources,
            strings,
            node_types,
            edge_types,
            node_fields,
            edge_fields,
            node_out_edges,
            node_in_edges,
        };
        proof {
            assert forall|n: int| 0 <= n < graph.node_count implies #[trigger] graph.spec_first_edge(
                n + 1,
            ) == graph.spec_first_edge(n) + graph.spec_out_degree(n) by {
                assert(graph.node_out_edges@[n + 1] == degree_sum(graph.nodes@, stride as int, n + 1));
                assert(graph.node_out_edges@[n] == degree_sum(graph.nodes@, stride as int, n));
            }
            assert forall|n: int| 0 <= n < graph.node_count implies {
                &&& #[trigger] graph.spec_node_tag(n) < NODE_TYPE_COUNT
                &&& (graph.spec_node_tag(n) as int) < graph.node_types@.len()
                &&& (graph.spec_name_index(n) as int) < graph.strings@.len()
            } by {
                assert(raw_field(graph.nodes@, stride as int, n, 0) < NODE_TYPE_COUNT);
            }
            assert forall|n: int, e: int|
                0 <= n < graph.node_count && #[trigger] graph.owns_edge(n, e) implies graph.spec_source(
                e,
            ) == n by {
                lemma_offsets_bounded(graph.node_out_edges@, graph.node_count as int, n + 1);
                let m = graph.spec_source(e) as int;
                assert(graph.owns_edge(m, e));
                if m < n {
                    lemma_offsets_ordered(graph.node_out_edges@, graph.node_count as int, m + 1, n);
                } else if n < m {
                    lemma_offsets_ordered(graph.node_out_edges@, graph.node_count as int, n + 1, m);
                }
            }
            assert forall|e: int| 0 <= e < graph.spec_edge_count() implies {
                &&& #[trigger] graph.spec_edge_tag(e) < EDGE_TYPE_COUNT
                &&& (graph.spec_edge_tag(e) as int) < graph.edge_types@.len()
                &&& graph.spec_edge_tag(e) != 1 ==> (graph.spec_label(e) as int)
                    < graph.strings@.len()
            } by {
                assert(graph.edges.types@[e] < EDGE_TYPE_COUNT);
            }
            assert(graph.wf());
            assert forall|e: int| 0 <= e < graph.spec_edge_count() implies {
                &&& #[trigger] graph.spec_edge_tag(e) == value.edges@[3 * e]
                &&& graph.spec_label(e) == value.edges@[3 * e + 1]
                &&& graph.spec_target(e) as int == value.edges@[3 * e + 2] as int
                    / graph.spec_stride()
            } by {
                assert(graph.edges.types@[e] == raw[3 * e]);
            }
            assert(graph.node_count == value.snapshot.node_count);
            assert(graph.spec_edge_count() == value.snapshot.edge_count);
            assert(graph.spec_stride() == value.snapshot.meta.node_fields@.len());
            assert(graph.nodes == value.nodes);
            assert(graph.strings == value.strings);
            assert(graph.node_types == value.snapshot.meta.node_types@[0]->Strs_0);
            assert(graph.edge_types == value.snapshot.meta.edge_types@[0]->Strs_0);
            assert(is_first_index(
                string_views(value.snapshot.meta.node_fields@),
                "detachedness"@,
                graph.node_fields.detachedness,
            ));
            assert(snapshot_ok(value));
            assert(graph.holds(value));
        }
        Ok(graph)
    }
}

/// A flat array holds exactly `count` tuples of `width` numbers where its
/// length divides evenly and gives `count`.
pub proof fn lemma_exact_tuples(len: int, width: int, count: int)
    requires
        width > 0,
        len >= 0,
        count >= 0,
    ensures
        (len % width == 0 && len / width == count) <==> len == count * width,
{
    if len == count * width {
        assert(len % width == 0 && len / width == count) by (nonlinear_arith)
            requires
                len == count * width,
                width > 0,
        ;
    }
    if len % width == 0 && len / width == count {
        assert(len == count * width) by (nonlinear_arith)
            requires
                len % width == 0,
                len / width == count,
                width > 0,
        ;
    }
}

/// Offsets that never decrease are ordered as their positions are.
pub proof fn lemma_offsets_ordered(out: Seq<NodeId>, node_count: int, i: int, j: int)
    requires
        out.len() == node_count + 1,
        0 <= i <= j <= node_count,
        forall|m: int| 0 <= m < node_count ==> #[trigger] out[m] <= out[m + 1],
    ensures
        out[i] <= out[j],
    decreases j - i,
{
    if i < j {
        lemma_offsets_ordered(out, node_count, i + 1, j);
    }
}

/// Where the edges of the nodes start is told by the nodes.
pub proof fn lemma_same_offsets(a: V8HeapGraph, b: V8HeapGraph, n: int)
    requires
        a.wf(),
        b.wf(),
        a.nodes == b.nodes,
        a.node_count == b.node_count,
        a.spec_stride() == b.spec_stride(),
        0 <= n <= a.node_count,
    ensures
        a.spec_first_edge(n) == b.spec_first_edge(n),
    decreases n,
{
    if n > 0 {
        lemma_same_offsets(a, b, n - 1);
        assert(a.spec_first_edge(n - 1 + 1) == a.spec_first_edge(n - 1) + a.spec_out_degree(n - 1));
        assert(b.spec_first_edge(n - 1 + 1) == b.spec_first_edge(n - 1) + b.spec_out_degree(n - 1));
    }
}

/// Loading a snapshot twice gives the same graph twice: the same nodes,
/// strings and kinds, the same edges in the same order, and for every node
/// the same edges out and in.
pub proof fn lemma_snapshot_determines_graph(a: V8HeapGraph, b: V8HeapGraph, file: SnapshotFile)
    requires
        a.wf(),
        a.holds(file),
        b.wf(),
        b.holds(file),
    ensures
        a.node_count == b.node_count,
        a.nodes == b.nodes,
        a.strings == b.strings,
        a.node_types == b.node_types,
        a.edge_types == b.edge_types,
        a.node_fields == b.node_fields,
        a.edges.types@ == b.edges.types@,
        a.edges.names@ == b.edges.names@,
        a.edges.to_nodes@ == b.edges.to_nodes@,
        a.edge_sources@ == b.edge_sources@,
        a.node_out_edges@ == b.node_out_edges@,
        forall|n: int| 0 <= n < a.node_count ==> a.spec_in_edges(n) == b.spec_in_edges(n),
{
    let count = a.spec_edge_count();
    assert(a.edges.types@ =~= b.edges.types@) by {
        assert forall|e: int| 0 <= e < count implies a.edges.types@[e] == b.edges.types@[e] by {
            assert(a.spec_edge_tag(e) == file.edges@[3 * e]);
            assert(b.spec_edge_tag(e) == file.edges@[3 * e]);
        }
    }
    assert(a.edges.names@ =~= b.edges.names@) by {
        assert forall|e: int| 0 <= e < count implies a.edges.names@[e] == b.edges.names@[e] by {
            assert(a.spec_edge_tag(e) == file.edges@[3 * e]);
            assert(b.spec_edge_tag(e) == file.edges@[3 * e]);
        }
    }
    assert(a.edges.to_nodes@ =~= b.edges.to_nodes@) by {
        assert forall|e: int| 0 <= e < count implies a.edges.to_nodes@[e] == b.edges.to_nodes@[e] by {
            assert(a.spec_edge_tag(e) == file.edges@[3 * e]);
            assert(b.spec_edge_tag(e) == file.edges@[3 * e]);
        }
    }
    assert(a.node_out_edges@ =~= b.node_out_edges@) by {
        assert forall|n: int| 0 <= n <= a.node_count implies a.node_out_edges@[n]
            == b.node_out_edges@[n] by {
            lemma_same_offsets(a, b, n);
        }
    }
    assert(a.edge_sources@ =~= b.edge_sources@) by {
        assert forall|e: int| 0 <= e < count implies a.edge_sources@[e] == b.edge_sources@[e] by {
            let from = a.spec_source(e) as int;
            assert(a.owns_edge(from, e));
            assert(b.owns_edge(from, e));
        }
    }
    assert forall|n: int| 0 <= n < a.node_count implies a.spec_in_edges(n) == b.spec_in_edges(
        n,
    ) by {
        let s = a.spec_in_edges(n);
        let t = b.spec_in_edges(n);
        assert forall|x: u32| s.contains(x) <==> t.contains(x) by {
            if s.contains(x) {
                let k = choose|k: int| 0 <= k < s.len() && s[k] == x;
                assert((a.spec_in_edges(n)[k] as int) < count);
                assert(b.spec_in_edges(b.spec_target(x as int) as int).contains(x));
            }
            if t.contains(x) {
                let k = choose|k: int| 0 <= k < t.len() && t[k] == x;
                assert((b.spec_in_edges(n)[k] as int) < count);
                assert(a.spec_in_edges(a.spec_target(x as int) as int).contains(x));
            }
        }
        assert forall|i: int, j: int| 0 <= i < j < s.len() implies s[i] < s[j] by {
            assert(a.spec_in_edges(n)[i] < a.spec_in_edges(n)[j]);
        }
        assert forall|i: int, j: int| 0 <= i < j < t.len() implies t[i] < t[j] by {
            assert(b.spec_in_edges(n)[i] < b.spec_in_edges(n)[j]);
        }
        crate::seq_lemmas::lemma_ascending_same(s, t);
    }
    assert(a.node_fields == b.node_fields) by {
        let names = string_views(file.snapshot.meta.node_fields@);
        lemma_first_index_unique(names, "detachedness"@, a.node_fields.detachedness, b.node_fields.detachedness);
        lemma_first_index_unique(names, "trace_node_id"@, a.node_fields.trace_node_id, b.node_fields.trace_node_id);
    }
}

/// There is one first place only at which a name stands.
pub proof fn lemma_first_index_unique(
    fields: Seq<Seq<char>>,
    name: Seq<char>,
    a: Option<usize>,
    b: Option<usize>,
)
    requires
        is_first_index(fields, name, a),
        is_first_index(fields, name, b),
    ensures
        a == b,
{
}

} // verus!
