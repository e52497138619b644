use vstd::prelude::*;
use crate::analysis::retained_size::RetainedSize;
use crate::graph::compact::{CompactGraph, EdgeView};
use crate::seq_lemmas::lemma_filter_push;
use crate::sorting::{is_sorted, keys_differ, merge, sort_by_key, Keyed};
use crate::types::NodeId;
use crate::utils::{escape_chars, escape_string, joined, push_str_chars, string_from_chars};
use ahash::AHashMap;
use std::collections::hash_map::DefaultHasher;
use std::collections::HashMap;
use std::hash::Hasher;
use vstd::std_specs::hash::DefaultHasherAdditionalSpecFns;

verus! {

/// The type tag of a string node.
pub const STRING_TAG: u8 = 2;

/// The type tag of an object node.
pub const OBJECT_TAG: u8 = 3;

/// The type tag of a hidden edge.
pub const HIDDEN_EDGE_TAG: u8 = 4;

/// How many characters of a string a sample shows at most.
pub const SAMPLE_CHARS: usize = 100;

/// How many edges of an object a sample shows at most.
pub const SAMPLE_EDGES: usize = 5;

/// What is fed to the hasher for a string: its bytes, and a byte that no
/// string holds, so that no string is the beginning of another.
pub open spec fn string_hash_input(s: Seq<char>) -> Seq<Seq<u8>> {
    seq![vstd::utf8::encode_utf8(s), seq![0xffu8]]
}

/// The hash of a string.
pub open spec fn spec_hash_string(s: Seq<char>) -> u64 {
    DefaultHasher::spec_finish(string_hash_input(s))
}

/// The four bytes of a number, the lowest first.
pub open spec fn u32_bytes(x: u32) -> Seq<u8> {
    seq![
        (x % 256) as u8,
        ((x / 256) % 256) as u8,
        ((x / 65536) % 256) as u8,
        (x / 16777216) as u8,
    ]
}

/// What is fed to the hasher for an edge: its kind, its name or index, and
/// the node it leads to.
pub open spec fn edge_hash_input(e: EdgeView) -> Seq<Seq<u8>> {
    seq![seq![e.edge_type], u32_bytes(e.name_or_index), u32_bytes(e.target)]
}

/// What is fed to the hasher for a list of edges, hidden edges left out
/// unless they are asked for.
pub open spec fn edges_hash_input(edges: Seq<EdgeView>, include_hidden: bool) -> Seq<Seq<u8>>
    decreases edges.len(),
{
    if edges.len() == 0 {
        Seq::empty()
    } else {
        edges_hash_input(edges.drop_last(), include_hidden) + if !include_hidden
            && edges.last().edge_type == HIDDEN_EDGE_TAG {
            Seq::empty()
        } else {
            edge_hash_input(edges.last())
        }
    }
}

/// `x` put into a list that is in the order of names, behind the edges with
/// the same name or index.
pub open spec fn insert_by_label(s: Seq<EdgeView>, x: EdgeView) -> Seq<EdgeView>
    decreases s.len(),
{
    if s.len() == 0 {
        seq![x]
    } else if s.last().name_or_index <= x.name_or_index {
        s.push(x)
    } else {
        insert_by_label(s.drop_last(), x).push(s.last())
    }
}

/// The edges in the order of their names or indexes; edges with the same
/// name or index stay in the order in which they stood.
pub open spec fn sort_by_label(s: Seq<EdgeView>) -> Seq<EdgeView>
    decreases s.len(),
{
    if s.len() == 0 {
        Seq::empty()
    } else {
        insert_by_label(sort_by_label(s.drop_last()), s.last())
    }
}

/// What is fed to the hasher for an object: its name, where it has one, and
/// its edges in the order of their names.
pub open spec fn object_hash_input(
    name: Option<Seq<char>>,
    edges: Seq<EdgeView>,
    include_hidden: bool,
) -> Seq<Seq<u8>> {
    (match name {
        Some(n) => string_hash_input(n),
        None => Seq::empty(),
    }) + edges_hash_input(sort_by_label(edges), include_hidden)
}

/// The hash of the shape of a node: of its name and its edges. Two nodes
/// have the same shape only where their edges lead to the same nodes; that
/// the nodes they lead to are alike is not enough.
pub open spec fn spec_hash_object(g: &CompactGraph, node_id: NodeId, include_hidden: bool) -> u64 {
    DefaultHasher::spec_finish(
        object_hash_input(g.spec_node_name(node_id), g.spec_edges(node_id), include_hidden),
    )
}

/// Where `x` comes to stand when it is put into a list in the order of
/// names.
pub proof fn lemma_insert_at(s: Seq<EdgeView>, x: EdgeView, pos: int)
    requires
        0 <= pos <= s.len(),
        forall|i: int| pos <= i < s.len() ==> (#[trigger] s[i]).name_or_index > x.name_or_index,
        pos > 0 ==> s[pos - 1].name_or_index <= x.name_or_index,
    ensures
        insert_by_label(s, x) == s.insert(pos, x),
    decreases s.len(),
{
    if s.len() == 0 {
        assert(s.insert(pos, x) =~= seq![x]);
    } else if s.last().name_or_index <= x.name_or_index {
        assert(pos == s.len()) by {
            if pos < s.len() {
                assert(s[s.len() - 1].name_or_index > x.name_or_index);
            }
        }
        assert(s.insert(pos, x) =~= s.push(x));
    } else {
        assert(pos < s.len());
        lemma_insert_at(s.drop_last(), x, pos);
        assert(s.drop_last().insert(pos, x).push(s.last()) =~= s.insert(pos, x));
    }
}

/// Feeds a string to the hasher.
fn feed_str(hasher: &mut DefaultHasher, s: &str)
    ensures
        final(hasher)@ == old(hasher)@ + string_hash_input(s@),
{
    let ghost before = hasher@;
    hasher.write(s.as_bytes());
    let end: Vec<u8> = vec![0xffu8];
    hasher.write(end.as_slice());
    proof {
        assert(end@ =~= seq![0xffu8]);
        assert(hasher@ =~= before + string_hash_input(s@));
    }
}

/// The hash of a string. The same string has the same hash, in this run
/// and in any other.
pub fn string_hash(s: &str) -> (h: u64)
    ensures
        h == spec_hash_string(s@),
{
    let mut hasher = DefaultHasher::new();
    feed_str(&mut hasher, s);
    proof {
        assert(hasher@ =~= string_hash_input(s@));
    }
    hasher.finish()
}

/// Feeds a number to the hasher, its lowest byte first.
fn feed_u32(hasher: &mut DefaultHasher, x: u32)
    ensures
        final(hasher)@ == old(hasher)@.push(u32_bytes(x)),
{
    let bytes: Vec<u8> = vec![
        (x % 256) as u8,
        ((x / 256) % 256) as u8,
        ((x / 65536) % 256) as u8,
        (x / 16777216) as u8,
    ];
    proof {
        assert(bytes@ =~= u32_bytes(x));
    }
    hasher.write(bytes.as_slice());
}

/// Feeds an edge to the hasher.
fn feed_edge(hasher: &mut DefaultHasher, e: &EdgeView)
    ensures
        final(hasher)@ == old(hasher)@ + edge_hash_input(*e),
{
    let ghost before = hasher@;
    let kind: Vec<u8> = vec![e.edge_type];
    proof {
        assert(kind@ =~= seq![e.edge_type]);
    }
    hasher.write(kind.as_slice());
    feed_u32(hasher, e.name_or_index);
    feed_u32(hasher, e.target);
    proof {
        assert(hasher@ =~= before + edge_hash_input(*e));
    }
}

/// The edges in the order of their names or indexes; edges with the same
/// name or index stay in the order in which they stood.
fn sorted_by_label(edges: &Vec<EdgeView>) -> (r: Vec<EdgeView>)
    ensures
        r@ == sort_by_label(edges@),
{
    let mut out: Vec<EdgeView> = Vec::with_capacity(edges.len());
    let mut i: usize = 0;
    proof {
        assert(edges@.take(0) =~= Seq::<EdgeView>::empty());
    }
    while i < edges.len()
        invariant
            i <= edges@.len(),
            out@ == sort_by_label(edges@.take(i as int)),
            out@.len() == i,
        decreases edges@.len() - i,
    {
        let x = edges[i];
        let mut pos = out.len();
        while pos > 0 && out[pos - 1].name_or_index > x.name_or_index
            invariant
                pos <= out@.len(),
                forall|k: int| pos <= k < out@.len() ==> (#[trigger] out@[k]).name_or_index
                    > x.name_or_index,
            decreases pos,
        {
            pos = pos - 1;
        }
        proof {
            lemma_insert_at(out@, x, pos as int);
            assert(edges@.take(i + 1).drop_last() =~= edges@.take(i as int));
        }
        out.insert(pos, x);
        i = i + 1;
    }
    proof {
        assert(edges@.take(edges@.len() as int) =~= edges@);
    }
    out
}

/// `ahash::RandomState`, which makes the hashers of an `ahash::AHashMap`;
/// it is only named here, as the third parameter of the map.
#[verifier::external_type_specification]
#[verifier::external_body]
pub struct ExRandomState(ahash::RandomState);

/// `ahash::AHashMap`, a hash map; nothing is known of what is inside but
/// through the functions below.
#[verifier::external_type_specification]
#[verifier::external_body]
#[verifier::reject_recursive_types(K)]
#[verifier::reject_recursive_types(V)]
#[verifier::reject_recursive_types(S)]
pub struct ExAHashMap<K, V, S>(AHashMap<K, V, S>);

/// What an `ahash::AHashMap` from hashes to lists of nodes holds: for each
/// hash that it has an entry for, the nodes of that entry in their order.
pub uninterp spec fn buckets_of(m: AHashMap<u64, Vec<NodeId>>) -> Map<u64, Seq<NodeId>>;

/// `AHashMap::new` makes a map without entries.
#[verifier::external_body]
fn buckets_new() -> (fresh: AHashMap<u64, Vec<NodeId>>)
    ensures
        forall|h: u64| !buckets_of(fresh).contains_key(h),
{
    AHashMap::new()
}

/// `AHashMap::remove` takes the entry of a key out of the map and hands out
/// its value, or nothing where the key has no entry; the other entries stay.
#[verifier::external_body]
fn buckets_remove(m: &mut AHashMap<u64, Vec<NodeId>>, hash: u64) -> (r: Option<Vec<NodeId>>)
    ensures
        buckets_of(*final(m)) == buckets_of(*old(m)).remove(hash),
        r is Some <==> buckets_of(*old(m)).contains_key(hash),
        r matches Some(v) ==> v@ == buckets_of(*old(m))[hash],
{
    m.remove(&hash)
}

/// `AHashMap::insert` sets the entry of a key; the other entries stay.
#[verifier::external_body]
fn buckets_insert(m: &mut AHashMap<u64, Vec<NodeId>>, hash: u64, nodes: Vec<NodeId>)
    ensures
        buckets_of(*final(m)) == buckets_of(*old(m)).insert(hash, nodes@),
{
    m.insert(hash, nodes);
}

/// `AHashMap::into_iter` hands out every entry of the map once, in an order
/// that is not told.
#[verifier::external_body]
fn buckets_drain(m: AHashMap<u64, Vec<NodeId>>) -> (r: Vec<(u64, Vec<NodeId>)>)
    ensures
        forall|i: int|
            0 <= i < r@.len() ==> buckets_of(m).contains_key((#[trigger] r@[i]).0) && r@[i].1@
                == buckets_of(m)[r@[i].0],
        forall|i: int, j: int| 0 <= i < j < r@.len() ==> (#[trigger] r@[i]).0 != (#[trigger] r@[j]).0,
        forall|h: u64|
            buckets_of(m).contains_key(h) ==> exists|i: int|
                0 <= i < r@.len() && (#[trigger] r@[i]).0 == h,
{
    m.into_iter().collect()
}

/// A group of nodes with the same contents or the same shape, and what is
/// wasted by holding them more than once.
#[derive(Debug, Clone)]
pub struct DuplicateGroup {
    pub hash: u64,
    pub object_type: String,
    pub count: usize,
    pub size_per_object: u64,
    pub total_wasted: u64,
    pub representative: NodeId,
    pub node_ids: Vec<NodeId>,
    pub sample_value: Option<String>,
    pub owned_retained_size: Option<u64>,
    pub shared_retained_size: Option<u64>,
}

impl Keyed for DuplicateGroup {
    /// Groups that waste more come first; among groups that waste the same,
    /// the lower hash, and then the lower representative.
    open spec fn spec_key(&self) -> (u64, u64, u64) {
        ((u64::MAX - self.total_wasted) as u64, self.hash, self.representative as u64)
    }

    fn key(&self) -> (r: (u64, u64, u64)) {
        (u64::MAX - self.total_wasted, self.hash, self.representative as u64)
    }
}

/// Whether the numbers of a group agree: it has at least two nodes, as many
/// as it says, and wastes the size of all of them but one.
pub open spec fn totals_ok(g: DuplicateGroup) -> bool {
    &&& g.count >= 2
    &&& g.node_ids@.len() == g.count
    &&& g.total_wasted == (g.count - 1) * g.size_per_object
}

/// The escaped contents of a string between quotes, cut with an ellipsis
/// behind the hundredth character.
pub open spec fn quoted_sample(escaped: Seq<char>) -> Seq<char> {
    if escaped.len() > SAMPLE_CHARS {
        seq!['"'] + escaped.take(SAMPLE_CHARS as int) + seq!['.', '.', '.', '"']
    } else {
        seq!['"'] + escaped + seq!['"']
    }
}

/// For each of the edges that has a name and leads to a node that has a
/// name: the name of the edge, a colon, and the name of the node.
pub open spec fn sample_parts(g: &CompactGraph, edges: Seq<EdgeView>) -> Seq<Seq<char>>
    decreases edges.len(),
{
    if edges.len() == 0 {
        Seq::empty()
    } else {
        let e = edges.last();
        let rest = sample_parts(g, edges.drop_last());
        if (e.name_or_index as int) < g.spec_strings().len() && g.spec_node_name(e.target) is Some {
            rest.push(
                g.spec_strings()[e.name_or_index as int] + seq![':', ' '] + g.spec_node_name(
                    e.target,
                )->0,
            )
        } else {
            rest
        }
    }
}

/// The first edges of a node, at most five.
pub open spec fn sample_edges(g: &CompactGraph, node_id: NodeId) -> Seq<EdgeView> {
    if g.spec_edges(node_id).len() > SAMPLE_EDGES {
        g.spec_edges(node_id).take(SAMPLE_EDGES as int)
    } else {
        g.spec_edges(node_id)
    }
}

/// What an object is shown as: the parts of its first edges between braces.
pub open spec fn object_sample(g: &CompactGraph, node_id: NodeId) -> Seq<char> {
    let parts = sample_parts(g, sample_edges(g, node_id));
    if parts.len() == 0 {
        seq!['{', '}']
    } else {
        seq!['{', ' '] + joined(parts) + seq![' ', '}']
    }
}

/// What a node is shown as: a string as its contents, an object as its
/// first edges; nothing for a node of another kind.
pub open spec fn spec_sample(g: &CompactGraph, node_id: NodeId) -> Option<Seq<char>> {
    match g.spec_node_type(node_id) {
        None => None,
        Some(t) => if t == STRING_TAG {
            match g.spec_node_name(node_id) {
                Some(s) => Some(quoted_sample(escape_chars(s))),
                None => None,
            }
        } else if t == OBJECT_TAG {
            Some(object_sample(g, node_id))
        } else {
            None
        },
    }
}

/// The size that a group counts for each of its nodes: the self size of the
/// node, and nothing for a node that the graph does not have.
pub open spec fn spec_total_size(g: &CompactGraph, node_id: NodeId) -> u64 {
    match g.spec_node_size(node_id) {
        Some(s) => s as u64,
        None => 0,
    }
}

/// Finds nodes that take up memory more than once: strings with the same
/// contents, and objects with the same name and the same edges.
pub struct DuplicateAnalyzer {
    pub graph: CompactGraph,
    pub include_hidden_classes: bool,
}

impl DuplicateAnalyzer {
    /// The graph can be walked, and its nodes can be numbered.
    pub open spec fn wf(&self) -> bool {
        self.graph.wf() && self.graph.spec_node_count() <= u32::MAX
    }

    /// The type tag of the nodes that are looked at: of strings, or of
    /// objects.
    pub open spec fn tag_of(strings: bool) -> u8 {
        if strings {
            STRING_TAG
        } else {
            OBJECT_TAG
        }
    }

    /// The hash of a node: of its contents for a string, of its shape for an
    /// object.
    pub open spec fn spec_node_hash(&self, strings: bool, n: NodeId) -> Option<u64> {
        if strings {
            match self.graph.spec_node_name(n) {
                Some(s) => Some(spec_hash_string(s)),
                None => None,
            }
        } else {
            Some(spec_hash_object(&self.graph, n, self.include_hidden_classes))
        }
    }

    /// Whether node `n` is of the kind looked at and has the hash `h`.
    pub open spec fn in_bucket(&self, strings: bool, h: u64, n: NodeId) -> bool {
        &&& (n as int) < self.graph.spec_node_count()
        &&& self.graph.node_types@[n as int] == Self::tag_of(strings)
        &&& self.spec_node_hash(strings, n) == Some(h)
    }

    /// The test for `in_bucket`.
    pub open spec fn bucket_test(&self, strings: bool, h: u64) -> spec_fn(NodeId) -> bool {
        |n: NodeId| self.in_bucket(strings, h, n)
    }

    /// The nodes below `upto` of the kind looked at that have the hash `h`,
    /// in ascending order.
    pub open spec fn members(&self, strings: bool, h: u64, upto: int) -> Seq<NodeId> {
        Seq::new(upto as nat, |i: int| i as NodeId).filter(self.bucket_test(strings, h))
    }

    /// Whether `g` is the group of the nodes of the kind looked at that have
    /// the hash of `g`.
    pub open spec fn is_group(&self, strings: bool, g: DuplicateGroup) -> bool {
        &&& g.node_ids@ == self.members(strings, g.hash, self.graph.spec_node_count())
        &&& totals_ok(g)
        &&& g.representative == g.node_ids@[0]
        &&& g.size_per_object == spec_total_size(&self.graph, g.representative)
        &&& g.object_type@ == if strings {
            "String"@
        } else {
            match self.graph.spec_node_name(g.representative) {
                Some(s) => s,
                None => "Object"@,
            }
        }
        &&& g.sample_value is Some <==> spec_sample(&self.graph, g.representative) is Some
        &&& g.sample_value matches Some(s) ==> s@ == spec_sample(&self.graph, g.representative)->0
        &&& g.owned_retained_size is None
        &&& g.shared_retained_size is None
    }

    /// Whether `groups` holds, in the order of their keys, the groups of
    /// the nodes of one kind: a group for each hash that at least two nodes
    /// have.
    pub open spec fn are_groups(&self, strings: bool, groups: Seq<DuplicateGroup>) -> bool {
        &&& forall|i: int| 0 <= i < groups.len() ==> self.is_group(strings, #[trigger] groups[i])
        &&& is_sorted(groups)
        &&& forall|h: u64|
            #[trigger] self.members(strings, h, self.graph.spec_node_count()).len() >= 2
                ==> exists|i: int| 0 <= i < groups.len() && (#[trigger] groups[i]).hash == h
    }

    /// An analyzer of the graph that follows hidden edges or leaves them
    /// out.
    pub fn new(graph: CompactGraph, include_hidden_classes: bool) -> (r: Self)
        ensures
            r.graph == graph,
            r.include_hidden_classes == include_hidden_classes,
    {
        Self { graph, include_hidden_classes }
    }

    /// The graph that the analyzer was made with.
    pub fn into_graph(self) -> (g: CompactGraph)
        ensures
            g == self.graph,
    {
        self.graph
    }

    /// The hash of a string. The same string has the same hash, in this run
    /// and in any other.
    pub fn hash_string(&self, s: &str) -> (h: u64)
        ensures
            h == spec_hash_string(s@),
    {
        string_hash(s)
    }

    /// The edges of a node, in stored order.
    fn edge_views(&self, node_id: NodeId) -> (r: Vec<EdgeView>)
        requires
            self.graph.wf(),
        ensures
            r@ == self.graph.spec_edges(node_id),
    {
        let (start, end) = if (node_id as usize) < self.graph.node_edge_ranges.len() {
            self.graph.node_edge_ranges[node_id as usize]
        } else {
            (0, 0)
        };
        let mut out: Vec<EdgeView> = Vec::new();
        let mut e = start;
        while e < end
            invariant
                self.graph.wf(),
                start == self.graph.spec_edge_start(node_id),
                end == self.graph.spec_edge_end(node_id),
                start <= e <= end <= self.graph.edge_types@.len(),
                out@.len() == e - start,
                forall|k: int| 0 <= k < out@.len() ==> out@[k] == self.graph.spec_edge(start + k),
            decreases end - e,
        {
            out.push(
                EdgeView {
                    edge_type: self.graph.edge_types[e as usize],
                    name_or_index: self.graph.edge_names[e as usize],
                    target: self.graph.edge_targets[e as usize],
                },
            );
            e = e + 1;
        }
        proof {
            assert(out@ =~= self.graph.spec_edges(node_id));
        }
        out
    }

    /// The hash of the shape of a node: of its name and of its edges in the
    /// order of their names, hidden edges left out unless the analyzer was
    /// told to take them in.
    pub fn hash_object(&self, node_id: NodeId) -> (h: u64)
        requires
            self.graph.wf(),
        ensures
            h == spec_hash_object(&self.graph, node_id, self.include_hidden_classes),
    {
        let mut hasher = DefaultHasher::new();
        // Hash object type
        match self.graph.node_name(node_id) {
            Some(name) => {
                feed_str(&mut hasher, name);
                proof {
                    assert(hasher@ =~= string_hash_input(name@));
                }
            },
            None => {},
        }
        let ghost head = hasher@;
        // Hash properties (edges)
        let edges = self.edge_views(node_id);
        let sorted = sorted_by_label(&edges);
        let mut i: usize = 0;
        proof {
            assert(sorted@.take(0) =~= Seq::<EdgeView>::empty());
            assert(head + Seq::<Seq<u8>>::empty() =~= head);
        }
        while i < sorted.len()
            invariant
                i <= sorted@.len(),
                hasher@ == head + edges_hash_input(
                    sorted@.take(i as int),
                    self.include_hidden_classes,
                ),
            decreases sorted@.len() - i,
        {
            let ghost before = hasher@;
            proof {
                assert(sorted@.take(i + 1).drop_last() =~= sorted@.take(i as int));
            }
            if !self.include_hidden_classes && sorted[i].edge_type == HIDDEN_EDGE_TAG {
                // Skip hidden edges
                proof {
                    assert(edges_hash_input(sorted@.take(i as int), self.include_hidden_classes)
                        + Seq::<Seq<u8>>::empty() =~= edges_hash_input(
                        sorted@.take(i as int),
                        self.include_hidden_classes,
                    ));
                }
            } else {
                feed_edge(&mut hasher, &sorted[i]);
                proof {
                    assert(hasher@ =~= head + (edges_hash_input(
                        sorted@.take(i as int),
                        self.include_hidden_classes,
                    ) + edge_hash_input(sorted@[i as int])));
                }
            }
            i = i + 1;
        }
        proof {
            assert(sorted@.take(sorted@.len() as int) =~= sorted@);
        }
        hasher.finish()
    }

    /// The size that a group counts for each of its nodes: the self size.
    /// What a node holds alone through its edges is not counted.
    pub fn calculate_total_size(&self, node_id: NodeId) -> (r: u64)
        ensures
            r == spec_total_size(&self.graph, node_id),
    {
        match self.graph.node_size(node_id) {
            Some(s) => s as u64,
            None => 0,
        }
    }

    /// What a node is shown as: a string as its contents, an object as its
    /// first edges; nothing for a node of another kind.
    pub fn get_sample_value(&self, node_id: NodeId) -> (r: Option<String>)
        requires
            self.graph.wf(),
        ensures
            r is Some <==> spec_sample(&self.graph, node_id) is Some,
            r matches Some(s) ==> s@ == spec_sample(&self.graph, node_id)->0,
    {
        let node_type = match self.graph.node_type(node_id) {
            Some(t) => t,
            None => {
                return None;
            },
        };
        // For strings, return the string value
        if node_type == STRING_TAG {
            return match self.graph.node_name(node_id) {
                Some(s) => {
                    let escaped = escape_string(s);
                    let mut all: Vec<char> = Vec::new();
                    push_str_chars(&mut all, escaped.as_str());
                    let mut out: Vec<char> = Vec::new();
                    out.push('"');
                    if all.len() > SAMPLE_CHARS {
                        // Truncate at char boundary, not byte boundary
                        let mut k: usize = 0;
                        while k < SAMPLE_CHARS
                            invariant
                                k <= SAMPLE_CHARS,
                                SAMPLE_CHARS < all@.len(),
                                out@ == seq!['"'] + all@.take(k as int),
                            decreases SAMPLE_CHARS - k,
                        {
                            out.push(all[k]);
                            proof {
                                assert(seq!['"'] + all@.take(k + 1) =~= (seq!['"'] + all@.take(
                                    k as int,
                                )).push(all@[k as int]));
                            }
                            k = k + 1;
                        }
                        out.push('.');
                        out.push('.');
                        out.push('.');
                        out.push('"');
                        proof {
                            assert(out@ =~= quoted_sample(all@));
                        }
                    } else {
                        let ghost inner = all@;
                        out.append(&mut all);
                        out.push('"');
                        proof {
                            assert(out@ =~= quoted_sample(inner));
                        }
                    }
                    Some(string_from_chars(&out))
                },
                None => None,
            };
        }
        // For objects, show structure
        if node_type == OBJECT_TAG {
            let edges = self.edge_views(node_id);
            let shown = if edges.len() > SAMPLE_EDGES {
                SAMPLE_EDGES
            } else {
                edges.len()
            };
            let ghost first = sample_edges(&self.graph, node_id);
            proof {
                assert(first =~= edges@.take(shown as int));
            }
            let mut body: Vec<char> = Vec::new();
            let mut parts: usize = 0;
            let mut i: usize = 0;
            proof {
                assert(first.take(0) =~= Seq::<EdgeView>::empty());
            }
            while i < shown
                invariant
                    self.graph.wf(),
                    shown <= edges@.len(),
                    first == edges@.take(shown as int),
                    i <= shown,
                    parts == sample_parts(&self.graph, first.take(i as int)).len(),
                    parts <= i,
                    body@ == joined(sample_parts(&self.graph, first.take(i as int))),
                decreases shown - i,
            {
                let edge = edges[i];
                proof {
                    assert(first.take(i + 1).drop_last() =~= first.take(i as int));
                    assert(first.take(i + 1).last() == edge);
                }
                match self.graph.string_table.get(edge.name_or_index) {
                    Some(name) => {
                        match self.graph.node_name(edge.target) {
                            Some(target_name) => {
                                let ghost before = body@;
                                let ghost so_far = sample_parts(&self.graph, first.take(i as int));
                                if parts > 0 {
                                    body.push(',');
                                    body.push(' ');
                                }
                                push_str_chars(&mut body, name);
                                body.push(':');
                                body.push(' ');
                                push_str_chars(&mut body, target_name);
                                parts = parts + 1;
                                proof {
                                    let part = name@ + seq![':', ' '] + target_name@;
                                    let now = so_far.push(part);
                                    assert(now.drop_last() =~= so_far);
                                    if so_far.len() == 0 {
                                        assert(body@ =~= part);
                                    } else {
                                        assert(body@ =~= before + seq![',', ' '] + part);
                                    }
                                }
                            },
                            None => {},
                        }
                    },
                    None => {},
                }
                i = i + 1;
            }
            proof {
                assert(first.take(shown as int) =~= first);
            }
            let mut out: Vec<char> = Vec::new();
            out.push('{');
            if parts == 0 {
                out.push('}');
                proof {
                    assert(out@ =~= seq!['{', '}']);
                }
            } else {
                out.push(' ');
                let ghost inner = body@;
                out.append(&mut body);
                out.push(' ');
                out.push('}');
                proof {
                    assert(out@ =~= seq!['{', ' '] + inner + seq![' ', '}']);
                }
            }
            return Some(string_from_chars(&out));
        }
        None
    }
}

/// A list of node ordinals that goes up holds no more nodes than the bound
/// that all of them stay below.
pub proof fn lemma_ascending_len(s: Seq<NodeId>, bound: int, k: int)
    requires
        forall|i: int, j: int| 0 <= i < j < s.len() ==> s[i] < s[j],
        forall|i: int| 0 <= i < s.len() ==> (#[trigger] s[i] as int) < bound,
        0 <= k < s.len(),
    ensures
        k <= s[k],
        s.len() <= bound,
    decreases s.len() - k,
{
    if k > 0 {
        lemma_ascending_at(s, k);
    }
    if k + 1 < s.len() {
        lemma_ascending_len(s, bound, k + 1);
    } else {
        lemma_ascending_at(s, k);
    }
}

/// The item at place `k` of a list of ordinals that goes up is at least `k`.
pub proof fn lemma_ascending_at(s: Seq<NodeId>, k: int)
    requires
        forall|i: int, j: int| 0 <= i < j < s.len() ==> s[i] < s[j],
        0 <= k < s.len(),
    ensures
        k <= s[k],
    decreases k,
{
    if k > 0 {
        lemma_ascending_at(s, k - 1);
        assert(s[k - 1] < s[k]);
    }
}

impl DuplicateAnalyzer {
    /// The members of a bucket go up and stay below the bound.
    pub proof fn lemma_members_ascend(&self, strings: bool, h: u64, upto: int)
        requires
            0 <= upto <= u32::MAX,
        ensures
            forall|i: int, j: int|
                0 <= i < j < self.members(strings, h, upto).len() ==> self.members(strings, h, upto)[i]
                    < self.members(strings, h, upto)[j],
            forall|i: int|
                0 <= i < self.members(strings, h, upto).len() ==> (#[trigger] self.members(
                    strings,
                    h,
                    upto,
                )[i] as int) < upto && self.in_bucket(strings, h, self.members(strings, h, upto)[i]),
        decreases upto,
    {
        let ids = Seq::new(upto as nat, |i: int| i as NodeId);
        if upto > 0 {
            self.lemma_members_ascend(strings, h, upto - 1);
            let prev = Seq::new((upto - 1) as nat, |i: int| i as NodeId);
            let x = (upto - 1) as NodeId;
            assert(ids =~= prev.push(x));
            lemma_filter_push(prev, x, self.bucket_test(strings, h));
            let before = self.members(strings, h, upto - 1);
            let now = self.members(strings, h, upto);
            assert(now == if self.in_bucket(strings, h, x) {
                before.push(x)
            } else {
                before
            });
            assert forall|i: int| 0 <= i < now.len() implies (#[trigger] now[i] as int) < upto
                && self.in_bucket(strings, h, now[i]) by {
                if i < before.len() {
                    assert(now[i] == before[i]);
                    assert((before[i] as int) < upto - 1);
                }
            }
            assert forall|i: int, j: int| 0 <= i < j < now.len() implies now[i] < now[j] by {
                if j < before.len() {
                    assert(before[i] < before[j]);
                } else {
                    assert((before[i] as int) < upto - 1);
                }
            }
        } else {
            reveal(Seq::filter);
            assert(ids.filter(self.bucket_test(strings, h)) =~= Seq::<NodeId>::empty());
        }
    }

    /// The nodes of the kind looked at, gathered by their hashes.
    fn collect_buckets(&self, strings: bool) -> (entries: Vec<(u64, Vec<NodeId>)>)
        requires
            self.wf(),
        ensures
            forall|i: int|
                0 <= i < entries@.len() ==> (#[trigger] entries@[i]).1@ == self.members(
                    strings,
                    entries@[i].0,
                    self.graph.spec_node_count(),
                ) && entries@[i].1@.len() > 0,
            forall|i: int, j: int|
                0 <= i < j < entries@.len() ==> (#[trigger] entries@[i]).0 != (#[trigger] entries@[j]).0,
            forall|h: u64|
                #[trigger] self.members(strings, h, self.graph.spec_node_count()).len() > 0
                    ==> exists|i: int| 0 <= i < entries@.len() && (#[trigger] entries@[i]).0 == h,
    {
        let count = self.graph.node_count();
        let tag = if strings {
            STRING_TAG
        } else {
            OBJECT_TAG
        };
        let mut map = buckets_new();
        let mut k: usize = 0;
        proof {
            assert forall|h: u64| self.members(strings, h, 0).len() == 0 by {
                reveal(Seq::filter);
                assert(Seq::new(0nat, |i: int| i as NodeId).filter(self.bucket_test(strings, h))
                    =~= Seq::<NodeId>::empty());
            }
        }
        while k < count
            invariant
                self.wf(),
                count == self.graph.spec_node_count(),
                tag == Self::tag_of(strings),
                k <= count,
                forall|h: u64|
                    buckets_of(map).contains_key(h) <==> #[trigger] self.members(
                        strings,
                        h,
                        k as int,
                    ).len() > 0,
                forall|h: u64|
                    buckets_of(map).contains_key(h) ==> #[trigger] buckets_of(map)[h] == self.members(
                        strings,
                        h,
                        k as int,
                    ),
            decreases count - k,
        {
            let node_id = k as NodeId;
            let ghost ids = Seq::new(k as nat, |i: int| i as NodeId);
            let ghost more = Seq::new((k + 1) as nat, |i: int| i as NodeId);
            let ghost old_map = buckets_of(map);
            proof {
                assert(more =~= ids.push(node_id));
                assert forall|h: u64|
                    #[trigger] self.members(strings, h, k + 1) == if self.in_bucket(
                        strings,
                        h,
                        node_id,
                    ) {
                        self.members(strings, h, k as int).push(node_id)
                    } else {
                        self.members(strings, h, k as int)
                    } by {
                    lemma_filter_push(ids, node_id, self.bucket_test(strings, h));
                }
            }
            let hash = if self.graph.node_types[k] == tag {
                if strings {
                    match self.graph.node_name(node_id) {
                        Some(name) => Some(self.hash_string(name)),
                        None => None,
                    }
                } else {
                    Some(self.hash_object(node_id))
                }
            } else {
                None
            };
            assert(hash == if self.graph.node_types@[k as int] == tag {
                self.spec_node_hash(strings, node_id)
            } else {
                None
            });
            match hash {
                Some(h) => {
                    let mut nodes = match buckets_remove(&mut map, h) {
                        Some(v) => v,
                        None => Vec::new(),
                    };
                    nodes.push(node_id);
                    buckets_insert(&mut map, h, nodes);
                    proof {
                        assert(self.in_bucket(strings, h, node_id));
                        assert forall|h2: u64|
                            buckets_of(map).contains_key(h2) <==> #[trigger] self.members(
                                strings,
                                h2,
                                k + 1,
                            ).len() > 0 by {
                            if h2 != h {
                                assert(!self.in_bucket(strings, h2, node_id));
                                assert(old_map.contains_key(h2) == buckets_of(map).contains_key(h2));
                            }
                        }
                        assert forall|h2: u64|
                            buckets_of(map).contains_key(h2) implies #[trigger] buckets_of(map)[h2]
                            == self.members(strings, h2, k + 1) by {
                            if h2 != h {
                                assert(!self.in_bucket(strings, h2, node_id));
                                assert(old_map.contains_key(h2));
                            } else {
                                if !old_map.contains_key(h) {
                                    assert(self.members(strings, h, k as int).len() == 0);
                                    assert(self.members(strings, h, k as int) =~= Seq::<
                                        NodeId,
                                    >::empty());
                                }
                            }
                        }
                    }
                },
                None => {
                    proof {
                        assert forall|h2: u64| !self.in_bucket(strings, h2, node_id) by {}
                    }
                },
            }
            k = k + 1;
        }
        let ghost full = buckets_of(map);
        let entries = buckets_drain(map);
        proof {
            assert forall|i: int| 0 <= i < entries@.len() implies (#[trigger] entries@[i]).1@
                == self.members(strings, entries@[i].0, self.graph.spec_node_count())
                && entries@[i].1@.len() > 0 by {
                assert(full.contains_key(entries@[i].0));
            }
            assert forall|h: u64|
                #[trigger] self.members(strings, h, self.graph.spec_node_count()).len()
                    > 0 implies exists|i: int|
                0 <= i < entries@.len() && (#[trigger] entries@[i]).0 == h by {
                assert(full.contains_key(h));
            }
        }
        entries
    }

    /// A group for each bucket that holds more than one node.
    fn create_groups(&self, entries: Vec<(u64, Vec<NodeId>)>, strings: bool) -> (groups: Vec<
        DuplicateGroup,
    >)
        requires
            self.wf(),
            forall|i: int|
                0 <= i < entries@.len() ==> (#[trigger] entries@[i]).1@ == self.members(
                    strings,
                    entries@[i].0,
                    self.graph.spec_node_count(),
                ),
            forall|i: int, j: int|
                0 <= i < j < entries@.len() ==> (#[trigger] entries@[i]).0 != (#[trigger] entries@[j]).0,
        ensures
            forall|i: int| 0 <= i < groups@.len() ==> self.is_group(strings, #[trigger] groups@[i]),
            forall|i: int, j: int|
                0 <= i < j < groups@.len() ==> (#[trigger] groups@[i]).hash != (#[trigger] groups@[j]).hash,
            forall|k: int|
                0 <= k < entries@.len() && (#[trigger] entries@[k]).1@.len() >= 2 ==> exists|i: int|
                    0 <= i < groups@.len() && (#[trigger] groups@[i]).hash == entries@[k].0,
    {
        let mut entries = entries;
        let ghost all = entries@;
        let mut groups: Vec<DuplicateGroup> = Vec::new();
        while entries.len() > 0
            invariant
                self.wf(),
                entries@.len() <= all.len(),
                entries@ == all.take(entries@.len() as int),
                forall|i: int|
                    0 <= i < all.len() ==> (#[trigger] all[i]).1@ == self.members(
                        strings,
                        all[i].0,
                        self.graph.spec_node_count(),
                    ),
                forall|i: int, j: int|
                    0 <= i < j < all.len() ==> (#[trigger] all[i]).0 != (#[trigger] all[j]).0,
                forall|i: int| 0 <= i < groups@.len() ==> self.is_group(strings, #[trigger] groups@[i]),
                forall|i: int|
                    0 <= i < groups@.len() ==> exists|k: int|
                        entries@.len() <= k < all.len() && (#[trigger] all[k]).0 == (
                        #[trigger] groups@[i]).hash,
                forall|i: int, j: int|
                    0 <= i < j < groups@.len() ==> (#[trigger] groups@[i]).hash != (
                    #[trigger] groups@[j]).hash,
                forall|k: int|
                    entries@.len() <= k < all.len() && (#[trigger] all[k]).1@.len() >= 2
                        ==> exists|i: int|
                        0 <= i < groups@.len() && (#[trigger] groups@[i]).hash == all[k].0,
            decreases entries@.len(),
        {
            let ghost at = entries@.len() - 1;
            let ghost old_groups = groups@;
            let (hash, node_ids) = entries.pop().unwrap();
            proof {
                assert(entries@ =~= all.take(entries@.len() as int));
                assert(all[at].0 == hash && all[at].1 == node_ids);
            }
            if node_ids.len() > 1 {
                let representative = node_ids[0];
                let size = self.calculate_total_size(representative);
                let count = node_ids.len();
                proof {
                    self.lemma_members_ascend(strings, hash, self.graph.spec_node_count());
                    lemma_ascending_len(node_ids@, self.graph.spec_node_count(), 0);
                    assert((count - 1) * size <= u64::MAX) by (nonlinear_arith)
                        requires
                            0 <= count - 1 <= 0xffff_ffff,
                            0 <= size <= 0xffff_ffff,
                    ;
                }
                let total_wasted = (count - 1) as u64 * size;
                // For strings, use "String" as the type name, not the actual string value
                let object_type = if strings {
                    "String".to_string()
                } else {
                    match self.graph.node_name(representative) {
                        Some(s) => s.to_string(),
                        None => "Object".to_string(),
                    }
                };
                let sample_value = self.get_sample_value(representative);
                groups.push(
                    DuplicateGroup {
                        hash,
                        object_type,
                        count,
                        size_per_object: size,
                        total_wasted,
                        representative,
                        node_ids,
                        sample_value,
                        owned_retained_size: None,
                        shared_retained_size: None,
                    },
                );
                proof {
                    let g = groups@[old_groups.len() as int];
                    assert(self.is_group(strings, g));
                    assert forall|i: int| 0 <= i < groups@.len() implies exists|k: int|
                        entries@.len() <= k < all.len() && (#[trigger] all[k]).0 == (
                        #[trigger] groups@[i]).hash by {
                        if i < old_groups.len() {
                            assert(groups@[i] == old_groups[i]);
                            let k = choose|k: int|
                                at + 1 <= k < all.len() && (#[trigger] all[k]).0 == old_groups[i].hash;
                            assert(all[k].0 == groups@[i].hash);
                        } else {
                            assert(all[at].0 == groups@[i].hash);
                        }
                    }
                    assert forall|i: int, j: int| 0 <= i < j < groups@.len() implies (
                    #[trigger] groups@[i]).hash != (#[trigger] groups@[j]).hash by {
                        if j == old_groups.len() {
                            assert(groups@[i] == old_groups[i]);
                            let k = choose|k: int|
                                at + 1 <= k < all.len() && (#[trigger] all[k]).0 == old_groups[i].hash;
                            assert(all[at].0 != all[k].0);
                        } else {
                            assert(groups@[i] == old_groups[i] && groups@[j] == old_groups[j]);
                        }
                    }
                    assert forall|k: int|
                        entries@.len() <= k < all.len() && (#[trigger] all[k]).1@.len()
                            >= 2 implies exists|i: int|
                        0 <= i < groups@.len() && (#[trigger] groups@[i]).hash == all[k].0 by {
                        if k == at {
                            assert(groups@[old_groups.len() as int].hash == all[k].0);
                        } else {
                            let i = choose|i: int|
                                0 <= i < old_groups.len() && (#[trigger] old_groups[i]).hash == all[k].0;
                            assert(groups@[i].hash == all[k].0);
                        }
                    }
                }
            } else {
                proof {
                    assert forall|i: int| 0 <= i < groups@.len() implies exists|k: int|
                        entries@.len() <= k < all.len() && (#[trigger] all[k]).0 == (
                        #[trigger] groups@[i]).hash by {
                        let k = choose|k: int|
                            at + 1 <= k < all.len() && (#[trigger] all[k]).0 == groups@[i].hash;
                        assert(all[k].0 == groups@[i].hash);
                    }
                }
            }
        }
        groups
    }

    /// The groups of the nodes of one kind, those that waste most first.
    fn find_duplicates_by_type(&self, strings: bool) -> (groups: Vec<DuplicateGroup>)
        requires
            self.wf(),
        ensures
            self.are_groups(strings, groups@),
    {
        let entries = self.collect_buckets(strings);
        let found = self.create_groups(entries, strings);
        proof {
            assert(keys_differ(found@)) by {
                assert forall|i: int, j: int| 0 <= i < j < found@.len() implies #[trigger] found@[i].spec_key()
                    != #[trigger] found@[j].spec_key() by {
                    assert(found@[i].hash != found@[j].hash);
                }
            }
        }
        let groups = sort_by_key(found);
        proof {
            assert forall|i: int| 0 <= i < groups@.len() implies self.is_group(
                strings,
                #[trigger] groups@[i],
            ) by {
                assert(groups@.contains(groups@[i]));
                let k = choose|k: int| 0 <= k < found@.len() && found@[k] == groups@[i];
                assert(self.is_group(strings, found@[k]));
            }
            assert forall|h: u64|
                #[trigger] self.members(strings, h, self.graph.spec_node_count()).len()
                    >= 2 implies exists|i: int|
                0 <= i < groups@.len() && (#[trigger] groups@[i]).hash == h by {
                let k = choose|k: int| 0 <= k < entries@.len() && (#[trigger] entries@[k]).0 == h;
                let i = choose|i: int| 0 <= i < found@.len() && (#[trigger] found@[i]).hash == entries@[k].0;
                assert(found@.contains(found@[i]));
                let j = choose|j: int| 0 <= j < groups@.len() && groups@[j] == found@[i];
                assert(groups@[j].hash == h);
            }
        }
        groups
    }

    /// The groups of strings with the same contents, those that waste most
    /// first.
    pub fn find_duplicate_strings(&self) -> (groups: Vec<DuplicateGroup>)
        requires
            self.wf(),
        ensures
            self.are_groups(true, groups@),
    {
        self.find_duplicates_by_type(true)
    }

    /// The groups of objects with the same name and the same edges, those
    /// that waste most first.
    pub fn find_duplicate_objects(&self) -> (groups: Vec<DuplicateGroup>)
        requires
            self.wf(),
        ensures
            self.are_groups(false, groups@),
    {
        self.find_duplicates_by_type(false)
    }

    /// Whether `groups` holds, in the order of their keys, the groups of
    /// strings and the groups of objects: a group for each hash that at
    /// least two nodes of a kind have.
    pub open spec fn are_all_groups(&self, groups: Seq<DuplicateGroup>) -> bool {
        &&& is_sorted(groups)
        &&& forall|i: int|
            0 <= i < groups.len() ==> self.is_group(true, #[trigger] groups[i]) || self.is_group(
                false,
                groups[i],
            )
        &&& forall|h: u64|
            #[trigger] self.members(true, h, self.graph.spec_node_count()).len() >= 2
                ==> exists|i: int|
                0 <= i < groups.len() && (#[trigger] groups[i]).hash == h && self.is_group(
                    true,
                    groups[i],
                )
        &&& forall|h: u64|
            #[trigger] self.members(false, h, self.graph.spec_node_count()).len() >= 2
                ==> exists|i: int|
                0 <= i < groups.len() && (#[trigger] groups[i]).hash == h && self.is_group(
                    false,
                    groups[i],
                )
    }

    /// The groups of strings and the groups of objects in one list, those
    /// that waste most first; among groups that waste the same, the lower
    /// hash first, and then the lower representative.
    pub fn find_duplicates(&self) -> (all_groups: Vec<DuplicateGroup>)
        requires
            self.wf(),
        ensures
            self.are_all_groups(all_groups@),
    {
        let strings = self.find_duplicate_strings();
        let objects = self.find_duplicate_objects();
        proof {
            assert(crate::sorting::keys_apart(strings@, objects@)) by {
                assert forall|i: int, j: int|
                    0 <= i < strings@.len() && 0 <= j < objects@.len() implies #[trigger] strings@[i].spec_key()
                    != #[trigger] objects@[j].spec_key() by {
                    let a = strings@[i];
                    let b = objects@[j];
                    assert(self.is_group(true, a));
                    assert(self.is_group(false, b));
                    self.lemma_members_ascend(true, a.hash, self.graph.spec_node_count());
                    self.lemma_members_ascend(false, b.hash, self.graph.spec_node_count());
                    assert(self.in_bucket(true, a.hash, a.node_ids@[0]));
                    assert(self.in_bucket(false, b.hash, b.node_ids@[0]));
                }
            }
        }
        let all_groups = merge(strings, objects);
        proof {
            assert forall|i: int| 0 <= i < all_groups@.len() implies self.is_group(
                true,
                #[trigger] all_groups@[i],
            ) || self.is_group(false, all_groups@[i]) by {
                let x = all_groups@[i];
                assert(all_groups@.contains(x));
                if strings@.contains(x) {
                    let k = choose|k: int| 0 <= k < strings@.len() && strings@[k] == x;
                    assert(self.is_group(true, strings@[k]));
                } else {
                    let k = choose|k: int| 0 <= k < objects@.len() && objects@[k] == x;
                    assert(self.is_group(false, objects@[k]));
                }
            }
            assert forall|h: u64|
                #[trigger] self.members(true, h, self.graph.spec_node_count()).len()
                    >= 2 implies exists|i: int|
                0 <= i < all_groups@.len() && (#[trigger] all_groups@[i]).hash == h && self.is_group(
                    true,
                    all_groups@[i],
                ) by {
                let k = choose|k: int| 0 <= k < strings@.len() && (#[trigger] strings@[k]).hash == h;
                assert(strings@.contains(strings@[k]));
                let j = choose|j: int| 0 <= j < all_groups@.len() && all_groups@[j] == strings@[k];
                assert(all_groups@[j].hash == h);
            }
            assert forall|h: u64|
                #[trigger] self.members(false, h, self.graph.spec_node_count()).len()
                    >= 2 implies exists|i: int|
                0 <= i < all_groups@.len() && (#[trigger] all_groups@[i]).hash == h && self.is_group(
                    false,
                    all_groups@[i],
                ) by {
                let k = choose|k: int| 0 <= k < objects@.len() && (#[trigger] objects@[k]).hash == h;
                assert(objects@.contains(objects@[k]));
                let j = choose|j: int| 0 <= j < all_groups@.len() && all_groups@[j] == objects@[k];
                assert(all_groups@[j].hash == h);
            }
        }
        all_groups
    }
}

/// `g` with the retained sizes that `sizes` holds for its representative,
/// or as it is where `sizes` holds none.
pub open spec fn enriched(g: DuplicateGroup, sizes: Map<NodeId, RetainedSize>) -> DuplicateGroup {
    if sizes.contains_key(g.representative) {
        DuplicateGroup {
            owned_retained_size: Some(sizes[g.representative].owned),
            shared_retained_size: Some(sizes[g.representative].shared),
            ..g
        }
    } else {
        g
    }
}

impl DuplicateAnalyzer {
    /// Enriches duplicate groups with retained size information
    pub fn enrich_with_retained_sizes(
        groups: &mut Vec<DuplicateGroup>,
        retained_sizes: &HashMap<NodeId, RetainedSize>,
    )
        ensures
            final(groups)@.len() == old(groups)@.len(),
            forall|i: int|
                0 <= i < old(groups)@.len() ==> #[trigger] final(groups)@[i] == enriched(
                    old(groups)@[i],
                    retained_sizes@,
                ),
    {
        broadcast use vstd::std_specs::hash::group_hash_axioms;

        let ghost all = groups@;
        let mut i: usize = 0;
        while i < groups.len()
            invariant
                groups@.len() == all.len(),
                i <= all.len(),
                forall|k: int| 0 <= k < i ==> #[trigger] groups@[k] == enriched(all[k], retained_sizes@),
                forall|k: int| i <= k < all.len() ==> #[trigger] groups@[k] == all[k],
            decreases all.len() - i,
        {
            match retained_sizes.get(&groups[i].representative) {
                Some(size) => {
                    groups[i].owned_retained_size = Some(size.owned);
                    groups[i].shared_retained_size = Some(size.shared);
                },
                None => {},
            }
            i = i + 1;
        }
    }
}

/// Whether two groups are alike in all that they hold, their texts taken by
/// their characters.
pub open spec fn same_group(a: DuplicateGroup, b: DuplicateGroup) -> bool {
    &&& a.hash == b.hash
    &&& a.object_type@ == b.object_type@
    &&& a.count == b.count
    &&& a.size_per_object == b.size_per_object
    &&& a.total_wasted == b.total_wasted
    &&& a.representative == b.representative
    &&& a.node_ids@ == b.node_ids@
    &&& a.sample_value is Some <==> b.sample_value is Some
    &&& a.sample_value is Some ==> a.sample_value->0@ == b.sample_value->0@
    &&& a.owned_retained_size == b.owned_retained_size
    &&& a.shared_retained_size == b.shared_retained_size
}

impl DuplicateAnalyzer {
    /// A group of a kind is told by its hash.
    pub proof fn lemma_group_by_hash(&self, strings: bool, a: DuplicateGroup, b: DuplicateGroup)
        requires
            self.is_group(strings, a),
            self.is_group(strings, b),
            a.hash == b.hash,
        ensures
            same_group(a, b),
            a.spec_key() == b.spec_key(),
    {
    }

    /// The representative of a group is a node of the kind of the group.
    pub proof fn lemma_kind_of_group(&self, strings: bool, g: DuplicateGroup)
        requires
            self.wf(),
            self.is_group(strings, g),
        ensures
            (g.representative as int) < self.graph.spec_node_count(),
            self.graph.node_types@[g.representative as int] == Self::tag_of(strings),
            self.members(strings, g.hash, self.graph.spec_node_count()).len() >= 2,
    {
        self.lemma_members_ascend(strings, g.hash, self.graph.spec_node_count());
        assert(self.in_bucket(strings, g.hash, g.node_ids@[0]));
    }

    /// What is searched twice is found twice in the same order: two lists of
    /// all groups of the same graph hold the same groups at the same places.
    pub proof fn lemma_duplicates_determined(
        &self,
        a: Seq<DuplicateGroup>,
        b: Seq<DuplicateGroup>,
    )
        requires
            self.wf(),
            self.are_all_groups(a),
            self.are_all_groups(b),
        ensures
            a.len() == b.len(),
            forall|i: int| 0 <= i < a.len() ==> same_group(#[trigger] a[i], b[i]),
    {
        assert forall|k: (u64, u64, u64)|
            crate::sorting::has_key(a, k) <==> crate::sorting::has_key(b, k) by {
            if crate::sorting::has_key(a, k) {
                self.lemma_key_shared(a, b, k);
            }
            if crate::sorting::has_key(b, k) {
                self.lemma_key_shared(b, a, k);
            }
        }
        crate::sorting::lemma_sorted_keys_agree(a, b);
        assert forall|i: int| 0 <= i < a.len() implies same_group(#[trigger] a[i], b[i]) by {
            assert(a[i].spec_key() == b[i].spec_key());
            let ka = self.is_group(true, a[i]);
            let kb = self.is_group(true, b[i]);
            if self.is_group(true, a[i]) {
                self.lemma_kind_of_group(true, a[i]);
                if !self.is_group(true, b[i]) {
                    self.lemma_kind_of_group(false, b[i]);
                }
                self.lemma_group_by_hash(true, a[i], b[i]);
            } else {
                self.lemma_kind_of_group(false, a[i]);
                if !self.is_group(false, b[i]) {
                    self.lemma_kind_of_group(true, b[i]);
                }
                self.lemma_group_by_hash(false, a[i], b[i]);
            }
        }
    }

    /// A key of one list of all groups is a key of every other.
    proof fn lemma_key_shared(
        &self,
        a: Seq<DuplicateGroup>,
        b: Seq<DuplicateGroup>,
        k: (u64, u64, u64),
    )
        requires
            self.wf(),
            self.are_all_groups(a),
            self.are_all_groups(b),
            crate::sorting::has_key(a, k),
        ensures
            crate::sorting::has_key(b, k),
    {
        let i = crate::sorting::lemma_item_of_key(a, k);
        let g = a[i];
        if self.is_group(true, g) {
            self.lemma_kind_of_group(true, g);
            let j = choose|j: int|
                0 <= j < b.len() && (#[trigger] b[j]).hash == g.hash && self.is_group(true, b[j]);
            self.lemma_group_by_hash(true, g, b[j]);
            crate::sorting::lemma_key_of_item(b, j);
        } else {
            self.lemma_kind_of_group(false, g);
            let j = choose|j: int|
                0 <= j < b.len() && (#[trigger] b[j]).hash == g.hash && self.is_group(false, b[j]);
            self.lemma_group_by_hash(false, g, b[j]);
            crate::sorting::lemma_key_of_item(b, j);
        }
    }
}

} // verus!
