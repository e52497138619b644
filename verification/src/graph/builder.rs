use vstd::prelude::*;
use crate::graph::compact::CompactGraph;
use crate::parser::{
    decode_edge, decode_node, edge_of_tuple, edge_tuple_ok, node_of_tuple, node_tuple_ok,
    SnapshotMetadata, StringTable, EDGE_FIELDS_MIN, EDGE_KINDS, NODE_FIELDS_MIN, NODE_KINDS,
};
use crate::seq_lemmas::{lemma_filter_push, lemma_filter_same};
use crate::types::{AnalyzerError, NodeId};
use std::sync::Arc;

verus! {

/// The sum of the first `i` entries of `counts`.
pub open spec fn prefix_sum(counts: Seq<u32>, i: int) -> int
    decreases i,
{
    if i <= 0 {
        0
    } else {
        prefix_sum(counts, i - 1) + counts[i - 1]
    }
}

/// `x`, but no more than `limit` and no more than a `u32` can hold.
pub open spec fn clamp_edge(x: int, limit: int) -> int {
    let cap = if limit < u32::MAX { limit } else { u32::MAX as int };
    if x < cap {
        x
    } else {
        cap
    }
}

/// The `k`-th tuple of `width` numbers in a flat array.
pub open spec fn tuple_at(flat: Seq<u64>, width: int, k: int) -> Seq<u64> {
    flat.subrange(k * width, k * width + width)
}

/// Whether a node with this type tag counts as a root: the hidden and the
/// synthetic nodes do.
pub open spec fn is_root_tag(node_type: u8) -> bool {
    node_type == 0 || node_type == 9
}

/// The sum of the first counts grows with their number.
pub proof fn lemma_prefix_sum_monotonic(counts: Seq<u32>, i: int, j: int)
    requires
        0 <= i <= j,
    ensures
        0 <= prefix_sum(counts, i) <= prefix_sum(counts, j),
    decreases j,
{
    if i < j {
        lemma_prefix_sum_monotonic(counts, i, j - 1);
    } else if 0 < i {
        lemma_prefix_sum_monotonic(counts, i - 1, i - 1);
    }
}

/// Collects the nodes and edges of a snapshot, tuple by tuple, into the
/// columns of a compact graph.
pub struct GraphBuilder {
    pub metadata: SnapshotMetadata,
    pub string_table: Arc<StringTable>,
    pub node_types: Vec<u8>,
    pub node_names: Vec<u32>,
    pub node_ids: Vec<u32>,
    pub node_sizes: Vec<u32>,
    pub node_edge_counts: Vec<u32>,
    pub edge_types: Vec<u8>,
    pub edge_names: Vec<u32>,
    pub edge_targets: Vec<u32>,
    pub gc_roots: Vec<NodeId>,
}

impl GraphBuilder {
    /// The node columns agree in length, the edge columns agree in length,
    /// and the nodes can still be numbered.
    pub open spec fn wf(&self) -> bool {
        &&& self.node_names@.len() == self.node_types@.len()
        &&& self.node_ids@.len() == self.node_types@.len()
        &&& self.node_sizes@.len() == self.node_types@.len()
        &&& self.node_edge_counts@.len() == self.node_types@.len()
        &&& self.edge_names@.len() == self.edge_types@.len()
        &&& self.edge_targets@.len() == self.edge_types@.len()
        &&& self.node_types@.len() <= u32::MAX
        &&& kinds_known(self.node_types@, NODE_KINDS)
        &&& kinds_known(self.edge_types@, EDGE_KINDS)
        &&& targets_known(self.edge_targets@, self.node_types@.len() as int)
    }

    /// How many numbers describe one node.
    pub open spec fn node_width(&self) -> int {
        self.metadata.node_fields@.len() as int
    }

    /// How many numbers describe one edge.
    pub open spec fn edge_width(&self) -> int {
        self.metadata.edge_fields@.len() as int
    }

    /// Whether `nodes` can be added: a node tuple has its five leading
    /// fields, the nodes can still be numbered afterwards, and each tuple
    /// has a kind that is one of the kinds of node and numbers that fit
    /// their columns.
    pub open spec fn nodes_accepted(&self, nodes: Seq<u64>) -> bool {
        &&& self.node_width() >= NODE_FIELDS_MIN
        &&& self.node_types@.len() + (nodes.len() as int) / self.node_width() <= u32::MAX
        &&& forall|k: int|
            0 <= k < (nodes.len() as int) / self.node_width() ==> node_tuple_ok(
                #[trigger] tuple_at(nodes, self.node_width(), k),
                self.node_width(),
            )
    }

    /// Whether `edges` can be added: an edge tuple has its three leading
    /// fields, a node tuple is wide enough to divide targets by, and each
    /// tuple has a kind that is one of the kinds of edge, numbers that fit
    /// their columns, and for its target one of the nodes added so far.
    pub open spec fn edges_accepted(&self, edges: Seq<u64>) -> bool {
        &&& self.edge_width() >= EDGE_FIELDS_MIN
        &&& self.node_width() >= 1
        &&& forall|k: int|
            0 <= k < (edges.len() as int) / self.edge_width() ==> self.edge_accepted(
                #[trigger] tuple_at(edges, self.edge_width(), k),
            )
    }

    /// Whether one edge tuple can be added.
    pub open spec fn edge_accepted(&self, tuple: Seq<u64>) -> bool {
        &&& edge_tuple_ok(tuple, self.edge_width())
        &&& (tuple[2] as int) / self.node_width() < self.node_types@.len()
    }

    /// A builder without nodes or edges.
    pub fn new(metadata: SnapshotMetadata, string_table: Arc<StringTable>) -> (b: Self)
        ensures
            b.wf(),
            b.metadata == metadata,
            b.string_table == string_table,
            b.node_types@.len() == 0,
            b.edge_types@.len() == 0,
            b.gc_roots@.len() == 0,
    {
        Self {
            metadata,
            string_table,
            node_types: Vec::new(),
            node_names: Vec::new(),
            node_ids: Vec::new(),
            node_sizes: Vec::new(),
            node_edge_counts: Vec::new(),
            edge_types: Vec::new(),
            edge_names: Vec::new(),
            edge_targets: Vec::new(),
            gc_roots: Vec::new(),
        }
    }

    /// Adds the nodes of a flat node array, one per complete tuple; numbers
    /// left over behind the last complete tuple are passed over. Nothing is
    /// added where the layout has fewer than five fields per node, where
    /// the nodes could no longer be numbered, or where a tuple has a kind
    /// that is none of the kinds of node or a number that does not fit its
    /// column.
    pub fn add_nodes(&mut self, nodes: &[u64]) -> (r: Result<(), AnalyzerError>)
        requires
            old(self).wf(),
        ensures
            final(self).wf(),
            final(self).metadata == old(self).metadata,
            final(self).string_table == old(self).string_table,
            final(self).edge_types == old(self).edge_types,
            final(self).edge_names == old(self).edge_names,
            final(self).edge_targets == old(self).edge_targets,
            r is Ok <==> old(self).nodes_accepted(nodes@),
            r is Err ==> r->Err_0 is InvalidFormat && *final(self) == *old(self),
            r is Ok ==> {
                let w = old(self).node_width();
                let base = old(self).node_types@.len() as int;
                let added = nodes@.len() as int / w;
                &&& final(self).node_types@.len() == base + added
                &&& final(self).node_types@.take(base) == old(self).node_types@
                &&& final(self).node_names@.take(base) == old(self).node_names@
                &&& final(self).node_ids@.take(base) == old(self).node_ids@
                &&& final(self).node_sizes@.take(base) == old(self).node_sizes@
                &&& final(self).node_edge_counts@.take(base) == old(self).node_edge_counts@
                &&& forall|k: int|
                    0 <= k < added ==> {
                        let d = node_of_tuple(#[trigger] tuple_at(nodes@, w, k));
                        &&& final(self).node_types@[base + k] == d.node_type
                        &&& final(self).node_names@[base + k] == d.name_idx
                        &&& final(self).node_ids@[base + k] == d.id
                        &&& final(self).node_sizes@[base + k] == d.size
                        &&& final(self).node_edge_counts@[base + k] == d.edge_count
                    }
                &&& final(self).gc_roots@ == old(self).gc_roots@ + Seq::new(
                    added as nat,
                    |k: int| (base + k) as u32,
                ).filter(|id: u32| is_root_tag(final(self).node_types@[id as int]))
            },
    {
        let field_count = self.metadata.node_field_count();
        if field_count < NODE_FIELDS_MIN {
            return Err(AnalyzerError::InvalidFormat(bad_layout_message()));
        }
        let added = nodes.len() / field_count;
        if added > u32::MAX as usize - self.node_types.len() {
            return Err(AnalyzerError::InvalidFormat(bad_layout_message()));
        }
        let ghost base = self.node_types@.len() as int;
        let ghost w = field_count as int;
        let ghost fresh = |k: int| (base + k) as u32;
        // Nothing is added unless every tuple can be read
        let mut c: usize = 0;
        while c < added
            invariant
                c <= added,
                added == nodes@.len() as int / w,
                nodes@.len() <= usize::MAX,
                w == field_count,
                field_count == self.metadata.node_fields@.len(),
                w >= NODE_FIELDS_MIN,
                *self == *old(self),
                self.wf(),
                forall|j: int| 0 <= j < c ==> node_tuple_ok(#[trigger] tuple_at(nodes@, w, j), w),
            decreases added - c,
        {
            proof {
                lemma_tuple_in_bounds(nodes@.len() as int, field_count as int, c as int);
                assert(0 <= c * field_count && c * field_count + field_count <= nodes@.len());
            }
            let start = c * field_count;
            let chunk = vstd::slice::slice_subrange(nodes, start, start + field_count);
            assert(chunk@ == tuple_at(nodes@, w, c as int));
            if decode_node(chunk, &self.metadata).is_none() {
                return Err(AnalyzerError::InvalidFormat(bad_layout_message()));
            }
            c = c + 1;
        }
        let mut k: usize = 0;
        proof {
            assert(Seq::new(0nat, fresh).filter(
                |id: u32| is_root_tag(self.node_types@[id as int]),
            ) =~= Seq::<u32>::empty()) by {
                assert(Seq::new(0nat, fresh) =~= Seq::<u32>::empty());
            }
            assert(self.gc_roots@ + Seq::<u32>::empty() =~= self.gc_roots@);
        }
        while k < added
            invariant
                k <= added,
                added == nodes@.len() as int / w,
                nodes@.len() <= usize::MAX,
                w == field_count,
                field_count == self.metadata.node_fields@.len(),
                w >= NODE_FIELDS_MIN,
                base == old(self).node_types@.len(),
                base + added <= u32::MAX,
                fresh == |k: int| (base + k) as u32,
                forall|j: int| 0 <= j < added ==> node_tuple_ok(#[trigger] tuple_at(nodes@, w, j), w),
                self.wf(),
                self.metadata == old(self).metadata,
                self.string_table == old(self).string_table,
                self.edge_types == old(self).edge_types,
                self.edge_names == old(self).edge_names,
                self.edge_targets == old(self).edge_targets,
                self.node_types@.len() == base + k,
                self.node_types@.take(base) == old(self).node_types@,
                self.node_names@.take(base) == old(self).node_names@,
                self.node_ids@.take(base) == old(self).node_ids@,
                self.node_sizes@.take(base) == old(self).node_sizes@,
                self.node_edge_counts@.take(base) == old(self).node_edge_counts@,
                forall|j: int|
                    0 <= j < k ==> {
                        let d = node_of_tuple(#[trigger] tuple_at(nodes@, w, j));
                        &&& self.node_types@[base + j] == d.node_type
                        &&& self.node_names@[base + j] == d.name_idx
                        &&& self.node_ids@[base + j] == d.id
                        &&& self.node_sizes@[base + j] == d.size
                        &&& self.node_edge_counts@[base + j] == d.edge_count
                    },
                self.gc_roots@ == old(self).gc_roots@ + Seq::new(k as nat, fresh).filter(
                    |id: u32| is_root_tag(node_of_tuple(tuple_at(nodes@, w, id - base)).node_type),
                ),
            decreases added - k,
        {
            proof {
                lemma_tuple_in_bounds(nodes@.len() as int, field_count as int, k as int);
                assert(0 <= k * field_count && k * field_count + field_count <= nodes@.len());
            }
            let start = k * field_count;
            let chunk = vstd::slice::slice_subrange(nodes, start, start + field_count);
            assert(chunk@ == tuple_at(nodes@, w, k as int));
            assert(node_tuple_ok(tuple_at(nodes@, w, k as int), w));
            let node = decode_node(chunk, &self.metadata).unwrap();
            let node_idx = self.node_types.len() as NodeId;
            let ghost prev = *self;
            self.node_types.push(node.node_type);
            self.node_names.push(node.name_idx);
            self.node_ids.push(node.id);
            self.node_sizes.push(node.size);
            self.node_edge_counts.push(node.edge_count);
            proof {
                lemma_kinds_push(prev.node_types@, node.node_type, NODE_KINDS);
            }
            let ghost pred = |id: u32|
                is_root_tag(node_of_tuple(tuple_at(nodes@, w, id - base)).node_type);
            proof {
                assert(self.node_types@.take(base) =~= prev.node_types@.take(base));
                assert(self.node_names@.take(base) =~= prev.node_names@.take(base));
                assert(self.node_ids@.take(base) =~= prev.node_ids@.take(base));
                assert(self.node_sizes@.take(base) =~= prev.node_sizes@.take(base));
                assert(self.node_edge_counts@.take(base) =~= prev.node_edge_counts@.take(base));
                assert(Seq::new((k + 1) as nat, fresh) =~= Seq::new(k as nat, fresh).push(
                    node_idx,
                ));
                lemma_filter_push(Seq::new(k as nat, fresh), node_idx, pred);
                assert(node_idx - base == k);
            }
            if node.node_type == 0 || node.node_type == 9 {
                self.gc_roots.push(node_idx);
                proof {
                    assert(self.gc_roots@ =~= old(self).gc_roots@ + Seq::new(
                        (k + 1) as nat,
                        fresh,
                    ).filter(pred));
                }
            }
            k = k + 1;
        }
        proof {
            let final_pred = |id: u32| is_root_tag(self.node_types@[id as int]);
            let pred = |id: u32|
                is_root_tag(node_of_tuple(tuple_at(nodes@, w, id - base)).node_type);
            let ids = Seq::new(added as nat, fresh);
            lemma_filter_same(ids, pred, final_pred);
        }
        Ok(())
    }

    /// Adds the edges of a flat edge array, one per complete tuple, and turns
    /// each target from an offset into the flat node array into a node's
    /// ordinal. Nothing is added where the layout has fewer than three fields
    /// per edge, or no field per node, or where a tuple has a kind that is
    /// none of the kinds of edge, a number that does not fit its column, or
    /// a target that is none of the nodes added so far.
    pub fn add_edges(&mut self, edges: &[u64]) -> (r: Result<(), AnalyzerError>)
        requires
            old(self).wf(),
        ensures
            final(self).wf(),
            final(self).metadata == old(self).metadata,
            final(self).string_table == old(self).string_table,
            final(self).node_types == old(self).node_types,
            final(self).node_names == old(self).node_names,
            final(self).node_ids == old(self).node_ids,
            final(self).node_sizes == old(self).node_sizes,
            final(self).node_edge_counts == old(self).node_edge_counts,
            final(self).gc_roots == old(self).gc_roots,
            r is Ok <==> old(self).edges_accepted(edges@),
            r is Err ==> r->Err_0 is InvalidFormat && *final(self) == *old(self),
            r is Ok ==> {
                let w = old(self).edge_width();
                let base = old(self).edge_types@.len() as int;
                let added = edges@.len() as int / w;
                &&& final(self).edge_types@.len() == base + added
                &&& final(self).edge_types@.take(base) == old(self).edge_types@
                &&& final(self).edge_names@.take(base) == old(self).edge_names@
                &&& final(self).edge_targets@.take(base) == old(self).edge_targets@
                &&& forall|k: int|
                    0 <= k < added ==> {
                        let d = edge_of_tuple(#[trigger] tuple_at(edges@, w, k));
                        &&& final(self).edge_types@[base + k] == d.edge_type
                        &&& final(self).edge_names@[base + k] == d.name_or_index
                        &&& final(self).edge_targets@[base + k] == d.target_node as int
                            / old(self).node_width()
                    }
            },
    {
        let field_count = self.metadata.edge_field_count();
        let node_width = self.metadata.node_field_count();
        if field_count < EDGE_FIELDS_MIN || node_width < 1 {
            return Err(AnalyzerError::InvalidFormat(bad_layout_message()));
        }
        let added = edges.len() / field_count;
        let ghost base = self.edge_types@.len() as int;
        let ghost w = field_count as int;
        let node_count = self.node_types.len();
        // Nothing is added unless every tuple can be read
        let mut c: usize = 0;
        while c < added
            invariant
                c <= added,
                added == edges@.len() as int / w,
                edges@.len() <= usize::MAX,
                w == field_count,
                field_count == self.metadata.edge_fields@.len(),
                w >= EDGE_FIELDS_MIN,
                node_width >= 1,
                node_width == self.node_width(),
                node_count == self.node_types@.len(),
                *self == *old(self),
                self.wf(),
                forall|j: int| 0 <= j < c ==> self.edge_accepted(#[trigger] tuple_at(edges@, w, j)),
            decreases added - c,
        {
            proof {
                lemma_tuple_in_bounds(edges@.len() as int, field_count as int, c as int);
                assert(0 <= c * field_count && c * field_count + field_count <= edges@.len());
            }
            let start = c * field_count;
            let chunk = vstd::slice::slice_subrange(edges, start, start + field_count);
            assert(chunk@ == tuple_at(edges@, w, c as int));
            match decode_edge(chunk, &self.metadata) {
                None => {
                    return Err(AnalyzerError::InvalidFormat(bad_layout_message()));
                },
                Some(edge) => {
                    if edge.target_node as usize / node_width >= node_count {
                        return Err(AnalyzerError::InvalidFormat(bad_layout_message()));
                    }
                },
            }
            c = c + 1;
        }
        let mut k: usize = 0;
        while k < added
            invariant
                k <= added,
                added == edges@.len() as int / w,
                edges@.len() <= usize::MAX,
                w == field_count,
                field_count == self.metadata.edge_fields@.len(),
                w >= EDGE_FIELDS_MIN,
                node_width >= 1,
                node_width == old(self).node_width(),
                base == old(self).edge_types@.len(),
                forall|j: int|
                    0 <= j < added ==> old(self).edge_accepted(#[trigger] tuple_at(edges@, w, j)),
                self.wf(),
                self.metadata == old(self).metadata,
                self.string_table == old(self).string_table,
                self.node_types == old(self).node_types,
                self.node_names == old(self).node_names,
                self.node_ids == old(self).node_ids,
                self.node_sizes == old(self).node_sizes,
                self.node_edge_counts == old(self).node_edge_counts,
                self.gc_roots == old(self).gc_roots,
                self.edge_types@.len() == base + k,
                self.edge_types@.take(base) == old(self).edge_types@,
                self.edge_names@.take(base) == old(self).edge_names@,
                self.edge_targets@.take(base) == old(self).edge_targets@,
                forall|j: int|
                    0 <= j < k ==> {
                        let d = edge_of_tuple(#[trigger] tuple_at(edges@, w, j));
                        &&& self.edge_types@[base + j] == d.edge_type
                        &&& self.edge_names@[base + j] == d.name_or_index
                        &&& self.edge_targets@[base + j] == d.target_node as int / (
                        node_width as int)
                    },
            decreases added - k,
        {
            proof {
                lemma_tuple_in_bounds(edges@.len() as int, field_count as int, k as int);
                assert(0 <= k * field_count && k * field_count + field_count <= edges@.len());
            }
            let start = k * field_count;
            let chunk = vstd::slice::slice_subrange(edges, start, start + field_count);
            assert(chunk@ == tuple_at(edges@, w, k as int));
            assert(old(self).edge_accepted(tuple_at(edges@, w, k as int)));
            let edge = decode_edge(chunk, &self.metadata).unwrap();
            let ghost prev = *self;
            let target_node_idx: u32 = if node_width > u32::MAX as usize {
                proof {
                    lemma_small_div(edge.target_node as int, node_width as int);
                }
                0
            } else {
                edge.target_node / (node_width as u32)
            };
            self.edge_types.push(edge.edge_type);
            self.edge_names.push(edge.name_or_index);
            self.edge_targets.push(target_node_idx);
            proof {
                lemma_kinds_push(prev.edge_types@, edge.edge_type, EDGE_KINDS);
                assert(targets_known(self.edge_targets@, self.node_types@.len() as int)) by {
                    assert forall|e: int| 0 <= e < self.edge_targets@.len() implies (
                    #[trigger] self.edge_targets@[e] as int) < self.node_types@.len() by {
                        if e < prev.edge_targets@.len() {
                            assert(self.edge_targets@[e] == prev.edge_targets@[e]);
                        }
                    }
                }
                assert(self.edge_types@.take(base) =~= prev.edge_types@.take(base));
                assert(self.edge_names@.take(base) =~= prev.edge_names@.take(base));
                assert(self.edge_targets@.take(base) =~= prev.edge_targets@.take(base));
            }
            k = k + 1;
        }
        Ok(())
    }

    /// Whether the edges added are as many as the nodes added say that they
    /// have, and can be numbered.
    pub open spec fn counts_agree(&self) -> bool {
        &&& prefix_sum(self.node_edge_counts@, self.node_edge_counts@.len() as int)
            == self.edge_types@.len()
        &&& self.edge_types@.len() <= u32::MAX
    }

    /// The graph of everything added so far. Node `i` gets the edges from the
    /// sum of the edge counts before it up to that sum plus its own count.
    /// There is no graph where the edges added are not as many as the nodes
    /// say that they have. In the graph every kind is a known kind and every
    /// target is a node.
    pub fn finalize(self) -> (r: Result<CompactGraph, AnalyzerError>)
        requires
            self.wf(),
        ensures
            r is Ok <==> self.counts_agree(),
            r matches Err(e) ==> e is InvalidFormat,
            r matches Ok(g) ==> {
                &&& g.wf()
                &&& g.node_types == self.node_types
                &&& g.node_names == self.node_names
                &&& g.node_ids == self.node_ids
                &&& g.node_sizes == self.node_sizes
                &&& g.edge_types == self.edge_types
                &&& g.edge_names == self.edge_names
                &&& g.edge_targets == self.edge_targets
                &&& g.string_table == self.string_table
                &&& g.gc_roots == self.gc_roots
                &&& forall|i: int|
                    0 <= i < self.node_edge_counts@.len() ==> {
                        &&& (#[trigger] g.node_edge_ranges@[i]).0 == prefix_sum(
                            self.node_edge_counts@,
                            i,
                        )
                        &&& g.node_edge_ranges@[i].1 == prefix_sum(self.node_edge_counts@, i + 1)
                    }
                &&& kinds_known(g.node_types@, NODE_KINDS)
                &&& kinds_known(g.edge_types@, EDGE_KINDS)
                &&& targets_known(g.edge_targets@, g.spec_node_count())
            },
    {
        let n = self.node_edge_counts.len();
        let mut total: u64 = 0;
        let cap: u32 = if self.edge_types.len() < u32::MAX as usize {
            self.edge_types.len() as u32
        } else {
            u32::MAX
        };
        let mut node_edge_ranges: Vec<(u32, u32)> = Vec::with_capacity(n);
        let mut edge_start: u32 = 0;
        let mut i: usize = 0;
        while i < n
            invariant
                i <= n,
                n == self.node_edge_counts@.len(),
                cap as int == clamp_edge(u32::MAX as int, self.edge_types@.len() as int),
                node_edge_ranges@.len() == i,
                n <= u32::MAX,
                total == prefix_sum(self.node_edge_counts@, i as int),
                total <= i * 0xffff_ffff,
                edge_start as int == clamp_edge(
                    prefix_sum(self.node_edge_counts@, i as int),
                    self.edge_types@.len() as int,
                ),
                forall|j: int|
                    0 <= j < i ==> {
                        &&& (#[trigger] node_edge_ranges@[j]).0 == clamp_edge(
                            prefix_sum(self.node_edge_counts@, j),
                            self.edge_types@.len() as int,
                        )
                        &&& node_edge_ranges@[j].1 == clamp_edge(
                            prefix_sum(self.node_edge_counts@, j + 1),
                            self.edge_types@.len() as int,
                        )
                        &&& node_edge_ranges@[j].0 <= node_edge_ranges@[j].1
                        &&& node_edge_ranges@[j].1 <= self.edge_types@.len()
                    },
            decreases n - i,
        {
            let edge_count = self.node_edge_counts[i];
            proof {
                lemma_prefix_sum_monotonic(self.node_edge_counts@, i as int, i as int);
            }
            let edge_end: u32 = if edge_count >= cap - edge_start {
                cap
            } else {
                edge_start + edge_count
            };
            node_edge_ranges.push((edge_start, edge_end));
            edge_start = edge_end;
            assert(i * 0xffff_ffff + 0xffff_ffff <= 0xffff_ffff * 0xffff_ffff) by (nonlinear_arith)
                requires
                    i < n,
                    n <= 0xffff_ffff,
            ;
            total = total + edge_count as u64;
            i = i + 1;
        }
        if total != self.edge_types.len() as u64 || self.edge_types.len() > u32::MAX as usize {
            return Err(AnalyzerError::InvalidFormat(bad_layout_message()));
        }
        proof {
            assert forall|j: int| 0 <= j < n implies (#[trigger] node_edge_ranges@[j]).0 == prefix_sum(
                self.node_edge_counts@,
                j,
            ) && node_edge_ranges@[j].1 == prefix_sum(self.node_edge_counts@, j + 1) by {
                lemma_prefix_sum_monotonic(self.node_edge_counts@, j, n as int);
                lemma_prefix_sum_monotonic(self.node_edge_counts@, j + 1, n as int);
            }
        }
        Ok(CompactGraph {
            node_types: self.node_types,
            node_names: self.node_names,
            node_ids: self.node_ids,
            node_sizes: self.node_sizes,
            node_edge_ranges,
            edge_types: self.edge_types,
            edge_names: self.edge_names,
            edge_targets: self.edge_targets,
            string_table: self.string_table,
            gc_roots: self.gc_roots,
        })
    }
}

/// Whether each of the kinds is one of the first `count` kinds.
pub open spec fn kinds_known(kinds: Seq<u8>, count: u64) -> bool {
    forall|i: int| 0 <= i < kinds.len() ==> (#[trigger] kinds[i] as int) < count
}

/// Whether each of the targets is one of the first `count` nodes.
pub open spec fn targets_known(targets: Seq<u32>, count: int) -> bool {
    forall|e: int| 0 <= e < targets.len() ==> (#[trigger] targets[e] as int) < count
}

/// Known kinds and one more known kind are known kinds.
pub proof fn lemma_kinds_push(kinds: Seq<u8>, kind: u8, count: u64)
    requires
        kinds_known(kinds, count),
        (kind as int) < count,
    ensures
        kinds_known(kinds.push(kind), count),
{
    assert forall|i: int| 0 <= i < kinds.push(kind).len() implies (#[trigger] kinds.push(kind)[i] as int)
        < count by {
        if i < kinds.len() {
            assert(kinds.push(kind)[i] == kinds[i]);
        }
    }
}

/// The text of the error for a layout that cannot be read.
fn bad_layout_message() -> (s: String)
    ensures
        s@ == "snapshot layout lacks required fields"@,
{
    let s = "snapshot layout lacks required fields".to_string();
    proof {
        vstd::string::to_string_from_display_ensures_for_str("snapshot layout lacks required fields", s);
    }
    s
}

/// The `k`-th complete tuple of a flat array lies within the array.
pub proof fn lemma_tuple_in_bounds(len: int, w: int, k: int)
    requires
        w > 0,
        len >= 0,
        0 <= k < len / w,
    ensures
        0 <= k * w,
        k * w + w <= len,
        k * w + w <= (len / w) * w,
{
    assert(k * w + w == (k + 1) * w) by (nonlinear_arith);
    assert((k + 1) * w <= (len / w) * w) by (nonlinear_arith)
        requires
            k + 1 <= len / w,
            w > 0,
    ;
    assert((len / w) * w <= len) by (nonlinear_arith)
        requires
            w > 0,
            len >= 0,
    ;
    assert(0 <= k * w) by (nonlinear_arith)
        requires
            0 <= k,
            w > 0,
    ;
}

/// A number divided by a larger one is zero.
pub proof fn lemma_small_div(x: int, d: int)
    requires
        0 <= x < d,
    ensures
        x / d == 0,
{
    assert(x / d == 0) by (nonlinear_arith)
        requires
            0 <= x < d,
    ;
}

} // verus!
