use vstd::prelude::*;
use crate::analysis::duplicates::lemma_ascending_len;
use crate::graph::CompactGraph;
use crate::seq_lemmas::lemma_filter_push;
use crate::sorting::{is_sorted, keys_differ, sort_by_key, Keyed};
use crate::types::NodeId;
use ahash::AHashMap;

verus! {

/// The type tag of the nodes that are taken for hidden classes unless the
/// analyzer is told another.
pub const HIDDEN_CLASS_TAG: u8 = 4;

/// Groups the hidden classes of a graph by the name of the objects that they
/// describe.
pub struct HiddenClassAnalyzer {
    pub graph: CompactGraph,
    pub hidden_class_tag: u8,
}

/// The hidden classes of one kind of object, and the memory that they take.
#[derive(Debug, Clone)]
pub struct HiddenClassGroup {
    pub object_type: String,
    pub hidden_class_count: usize,
    pub total_hidden_class_memory: u64,
    pub hidden_classes: Vec<NodeId>,
}

impl Keyed for HiddenClassGroup {
    /// Groups that take more memory come first; among groups that take the
    /// same, the one whose first hidden class has the lower ordinal.
    open spec fn spec_key(&self) -> (u64, u64, u64) {
        (
            (u64::MAX - self.total_hidden_class_memory) as u64,
            if self.hidden_classes@.len() > 0 {
                self.hidden_classes@[0] as u64
            } else {
                0
            },
            0,
        )
    }

    fn key(&self) -> (r: (u64, u64, u64)) {
        (
            u64::MAX - self.total_hidden_class_memory,
            if self.hidden_classes.len() > 0 {
                self.hidden_classes[0] as u64
            } else {
                0
            },
            0,
        )
    }
}

/// The self sizes of the nodes of a list, added up; a node that the graph
/// does not have counts for nothing.
pub open spec fn sizes_sum(g: &CompactGraph, ids: Seq<NodeId>) -> int
    decreases ids.len(),
{
    if ids.len() == 0 {
        0
    } else {
        sizes_sum(g, ids.drop_last()) + match g.spec_node_size(ids.last()) {
            Some(s) => s as int,
            None => 0,
        }
    }
}

/// The sizes of some nodes together are no more than the largest size for
/// each.
pub proof fn lemma_sizes_sum_bound(g: &CompactGraph, ids: Seq<NodeId>)
    ensures
        0 <= sizes_sum(g, ids) <= ids.len() * 0xffff_ffff,
    decreases ids.len(),
{
    if ids.len() > 0 {
        lemma_sizes_sum_bound(g, ids.drop_last());
        assert((ids.len() - 1) * 0xffff_ffff + 0xffff_ffff == ids.len() * 0xffff_ffff)
            by (nonlinear_arith);
    }
}

/// What an `ahash::AHashMap` from names to lists of nodes holds: for each
/// name that it has an entry for, the nodes of that entry in their order.
pub uninterp spec fn classes_of(m: AHashMap<String, Vec<NodeId>>) -> Map<Seq<char>, Seq<NodeId>>;

/// `AHashMap::new` makes a map without entries.
#[verifier::external_body]
fn classes_new() -> (fresh: AHashMap<String, Vec<NodeId>>)
    ensures
        forall|name: Seq<char>| !classes_of(fresh).contains_key(name),
{
    AHashMap::new()
}

/// `AHashMap::remove` takes the entry of a key out of the map and hands out
/// its value, or nothing where the key has no entry; the other entries stay.
#[verifier::external_body]
fn classes_remove(m: &mut AHashMap<String, Vec<NodeId>>, name: &str) -> (r: Option<Vec<NodeId>>)
    ensures
        classes_of(*final(m)) == classes_of(*old(m)).remove(name@),
        r is Some <==> classes_of(*old(m)).contains_key(name@),
        r matches Some(v) ==> v@ == classes_of(*old(m))[name@],
{
    m.remove(name)
}

/// `AHashMap::insert` sets the entry of a key; the other entries stay.
#[verifier::external_body]
fn classes_insert(m: &mut AHashMap<String, Vec<NodeId>>, name: String, nodes: Vec<NodeId>)
    ensures
        classes_of(*final(m)) == classes_of(*old(m)).insert(name@, nodes@),
{
    m.insert(name, nodes);
}

/// `AHashMap::into_iter` hands out every entry of the map once, in an order
/// that is not told.
#[verifier::external_body]
fn classes_drain(m: AHashMap<String, Vec<NodeId>>) -> (r: Vec<(String, Vec<NodeId>)>)
    ensures
        forall|i: int|
            0 <= i < r@.len() ==> classes_of(m).contains_key((#[trigger] r@[i]).0@) && r@[i].1@
                == classes_of(m)[r@[i].0@],
        forall|i: int, j: int| 0 <= i < j < r@.len() ==> (#[trigger] r@[i]).0@ != (#[trigger] r@[j]).0@,
        forall|name: Seq<char>|
            classes_of(m).contains_key(name) ==> exists|i: int|
                0 <= i < r@.len() && (#[trigger] r@[i]).0@ == name,
{
    m.into_iter().collect()
}

impl HiddenClassAnalyzer {
    /// The graph can be walked, and its nodes can be numbered.
    pub open spec fn wf(&self) -> bool {
        self.graph.wf() && self.graph.spec_node_count() <= u32::MAX
    }

    /// Whether node `n` is a hidden class of the objects named `name`.
    pub open spec fn in_class(&self, name: Seq<char>, n: NodeId) -> bool {
        &&& (n as int) < self.graph.spec_node_count()
        &&& self.graph.node_types@[n as int] == self.hidden_class_tag
        &&& self.graph.spec_node_name(n) == Some(name)
    }

    /// The test for `in_class`.
    pub open spec fn class_test(&self, name: Seq<char>) -> spec_fn(NodeId) -> bool {
        |n: NodeId| self.in_class(name, n)
    }

    /// The hidden classes below `upto` of the objects named `name`, in
    /// ascending order.
    pub open spec fn members(&self, name: Seq<char>, upto: int) -> Seq<NodeId> {
        Seq::new(upto as nat, |i: int| i as NodeId).filter(self.class_test(name))
    }

    /// Whether `g` is the group of the hidden classes of the objects that it
    /// names.
    pub open spec fn is_group(&self, g: HiddenClassGroup) -> bool {
        &&& g.hidden_classes@ == self.members(g.object_type@, self.graph.spec_node_count())
        &&& g.hidden_classes@.len() > 0
        &&& g.hidden_class_count == g.hidden_classes@.len()
        &&& g.total_hidden_class_memory == sizes_sum(&self.graph, g.hidden_classes@)
    }

    /// Whether `groups` holds a group for each name that a hidden class has,
    /// those that take most memory first.
    pub open spec fn are_groups(&self, groups: Seq<HiddenClassGroup>) -> bool {
        &&& forall|i: int| 0 <= i < groups.len() ==> self.is_group(#[trigger] groups[i])
        &&& is_sorted(groups)
        &&& forall|name: Seq<char>|
            #[trigger] self.members(name, self.graph.spec_node_count()).len() > 0 ==> exists|i: int|
                0 <= i < groups.len() && (#[trigger] groups[i]).object_type@ == name
    }

    /// An analyzer that takes the nodes of kind code for hidden classes.
    pub fn new(graph: CompactGraph) -> (r: Self)
        ensures
            r.graph == graph,
            r.hidden_class_tag == HIDDEN_CLASS_TAG,
    {
        Self { graph, hidden_class_tag: HIDDEN_CLASS_TAG }
    }

    /// An analyzer that takes the nodes with the given type tag for hidden
    /// classes.
    pub fn with_tag(graph: CompactGraph, hidden_class_tag: u8) -> (r: Self)
        ensures
            r.graph == graph,
            r.hidden_class_tag == hidden_class_tag,
    {
        Self { graph, hidden_class_tag }
    }

    /// The graph that the analyzer was made with.
    pub fn into_graph(self) -> (g: CompactGraph)
        ensures
            g == self.graph,
    {
        self.graph
    }

    /// The name of the objects that a hidden class describes: the name of the
    /// hidden class itself.
    pub fn find_object_type_for_hidden_class(&self, hidden_class_id: NodeId) -> (r: Option<String>)
        ensures
            r is Some <==> self.graph.spec_node_name(hidden_class_id) is Some,
            r matches Some(s) ==> s@ == self.graph.spec_node_name(hidden_class_id)->0,
    {
        match self.graph.node_name(hidden_class_id) {
            Some(s) => Some(s.to_string()),
            None => None,
        }
    }

    /// The members of a class go up and stay below the bound.
    pub proof fn lemma_members_ascend(&self, name: Seq<char>, upto: int)
        requires
            0 <= upto <= u32::MAX,
        ensures
            forall|i: int, j: int|
                0 <= i < j < self.members(name, upto).len() ==> self.members(name, upto)[i]
                    < self.members(name, upto)[j],
            forall|i: int|
                0 <= i < self.members(name, upto).len() ==> (#[trigger] self.members(name, upto)[i] as int)
                    < upto && self.in_class(name, self.members(name, upto)[i]),
        decreases upto,
    {
        let ids = Seq::new(upto as nat, |i: int| i as NodeId);
        if upto > 0 {
            self.lemma_members_ascend(name, upto - 1);
            let prev = Seq::new((upto - 1) as nat, |i: int| i as NodeId);
            let x = (upto - 1) as NodeId;
            assert(ids =~= prev.push(x));
            lemma_filter_push(prev, x, self.class_test(name));
            let before = self.members(name, upto - 1);
            let now = self.members(name, upto);
            assert(now == if self.in_class(name, x) {
                before.push(x)
            } else {
                before
            });
            assert forall|i: int| 0 <= i < now.len() implies (#[trigger] now[i] as int) < upto
                && self.in_class(name, now[i]) by {
                if i < before.len() {
                    assert(now[i] == before[i]);
                    assert((before[i] as int) < upto - 1);
                }
            }
            assert forall|i: int, j: int| 0 <= i < j < now.len() implies now[i] < now[j] by {
                if j < before.len() {
                    assert(before[i] < before[j]);
                } else {
                    assert((before[i] as int) < upto - 1);
                }
            }
        } else {
            reveal(Seq::filter);
            assert(ids.filter(self.class_test(name)) =~= Seq::<NodeId>::empty());
        }
    }

    /// The self sizes of the nodes of a list, added up.
    fn total_memory(&self, ids: &Vec<NodeId>) -> (r: u64)
        requires
            ids@.len() <= u32::MAX,
        ensures
            r == sizes_sum(&self.graph, ids@),
    {
        let mut total: u64 = 0;
        let mut i: usize = 0;
        proof {
            assert(ids@.take(0) =~= Seq::<NodeId>::empty());
        }
        while i < ids.len()
            invariant
                ids@.len() <= u32::MAX,
                i <= ids@.len(),
                total == sizes_sum(&self.graph, ids@.take(i as int)),
            decreases ids@.len() - i,
        {
            proof {
                assert(ids@.take(i + 1).drop_last() =~= ids@.take(i as int));
                lemma_sizes_sum_bound(&self.graph, ids@.take(i + 1));
                assert((i + 1) * 0xffff_ffff <= u64::MAX) by (nonlinear_arith)
                    requires
                        i + 1 <= 0xffff_ffff,
                ;
            }
            let size = match self.graph.node_size(ids[i]) {
                Some(s) => s as u64,
                None => 0,
            };
            total = total + size;
            i = i + 1;
        }
        proof {
            assert(ids@.take(ids@.len() as int) =~= ids@);
        }
        total
    }

    /// The hidden classes of the graph, gathered by the name of the objects
    /// that they describe.
    fn collect_classes(&self) -> (entries: Vec<(String, Vec<NodeId>)>)
        requires
            self.wf(),
        ensures
            forall|i: int|
                0 <= i < entries@.len() ==> (#[trigger] entries@[i]).1@ == self.members(
                    entries@[i].0@,
                    self.graph.spec_node_count(),
                ) && entries@[i].1@.len() > 0,
            forall|i: int, j: int|
                0 <= i < j < entries@.len() ==> (#[trigger] entries@[i]).0@ != (#[trigger] entries@[j]).0@,
            forall|name: Seq<char>|
                #[trigger] self.members(name, self.graph.spec_node_count()).len() > 0
                    ==> exists|i: int| 0 <= i < entries@.len() && (#[trigger] entries@[i]).0@ == name,
    {
        let count = self.graph.node_count();
        // Map from object type to hidden classes
        let mut map = classes_new();
        let mut k: usize = 0;
        proof {
            assert forall|name: Seq<char>| self.members(name, 0).len() == 0 by {
                reveal(Seq::filter);
                assert(Seq::new(0nat, |i: int| i as NodeId).filter(self.class_test(name))
                    =~= Seq::<NodeId>::empty());
            }
        }
        while k < count
            invariant
                self.wf(),
                count == self.graph.spec_node_count(),
                k <= count,
                forall|name: Seq<char>|
                    classes_of(map).contains_key(name) <==> #[trigger] self.members(name, k as int).len()
                        > 0,
                forall|name: Seq<char>|
                    classes_of(map).contains_key(name) ==> #[trigger] classes_of(map)[name]
                        == self.members(name, k as int),
            decreases count - k,
        {
            let node_id = k as NodeId;
            let ghost ids = Seq::new(k as nat, |i: int| i as NodeId);
            let ghost more = Seq::new((k + 1) as nat, |i: int| i as NodeId);
            let ghost old_map = classes_of(map);
            proof {
                assert(more =~= ids.push(node_id));
                assert forall|name: Seq<char>|
                    #[trigger] self.members(name, k + 1) == if self.in_class(name, node_id) {
                        self.members(name, k as int).push(node_id)
                    } else {
                        self.members(name, k as int)
                    } by {
                    lemma_filter_push(ids, node_id, self.class_test(name));
                }
            }
            let found = if self.graph.node_types[k] == self.hidden_class_tag {
                // This is a hidden class, find what objects use it
                self.find_object_type_for_hidden_class(node_id)
            } else {
                None
            };
            match found {
                Some(class_name) => {
                    let ghost name = class_name@;
                    let mut nodes = match classes_remove(&mut map, class_name.as_str()) {
                        Some(v) => v,
                        None => Vec::new(),
                    };
                    nodes.push(node_id);
                    classes_insert(&mut map, class_name, nodes);
                    proof {
                        assert(self.in_class(name, node_id));
                        assert forall|other: Seq<char>|
                            classes_of(map).contains_key(other) <==> #[trigger] self.members(
                                other,
                                k + 1,
                            ).len() > 0 by {
                            if other != name {
                                assert(!self.in_class(other, node_id));
                                assert(old_map.contains_key(other) == classes_of(map).contains_key(
                                    other,
                                ));
                            }
                        }
                        assert forall|other: Seq<char>|
                            classes_of(map).contains_key(other) implies #[trigger] classes_of(
                            map,
                        )[other] == self.members(other, k + 1) by {
                            if other != name {
                                assert(!self.in_class(other, node_id));
                                assert(old_map.contains_key(other));
                            } else {
                                if !old_map.contains_key(name) {
                                    assert(self.members(name, k as int).len() == 0);
                                    assert(self.members(name, k as int) =~= Seq::<NodeId>::empty());
                                }
                            }
                        }
                    }
                },
                None => {
                    proof {
                        assert forall|other: Seq<char>| !self.in_class(other, node_id) by {}
                    }
                },
            }
            k = k + 1;
        }
        let ghost full = classes_of(map);
        let entries = classes_drain(map);
        proof {
            assert forall|i: int| 0 <= i < entries@.len() implies (#[trigger] entries@[i]).1@
                == self.members(entries@[i].0@, self.graph.spec_node_count()) && entries@[i].1@.len()
                > 0 by {
                assert(full.contains_key(entries@[i].0@));
            }
            assert forall|name: Seq<char>|
                #[trigger] self.members(name, self.graph.spec_node_count()).len()
                    > 0 implies exists|i: int|
                0 <= i < entries@.len() && (#[trigger] entries@[i]).0@ == name by {
                assert(full.contains_key(name));
            }
        }
        entries
    }

    /// A group for each name with its hidden classes.
    fn make_groups(&self, entries: Vec<(String, Vec<NodeId>)>) -> (found: Vec<HiddenClassGroup>)
        requires
            self.wf(),
            forall|i: int|
                0 <= i < entries@.len() ==> (#[trigger] entries@[i]).1@ == self.members(
                    entries@[i].0@,
                    self.graph.spec_node_count(),
                ) && entries@[i].1@.len() > 0,
            forall|i: int, j: int|
                0 <= i < j < entries@.len() ==> (#[trigger] entries@[i]).0@ != (#[trigger] entries@[j]).0@,
        ensures
            found@.len() == entries@.len(),
            forall|i: int|
                0 <= i < found@.len() ==> self.is_group(#[trigger] found@[i]) && found@[i].object_type
                    == entries@[entries@.len() - 1 - i].0,
    {
        let mut rest = entries;
        let ghost all = entries@;
        // Create groups
        let mut found: Vec<HiddenClassGroup> = Vec::new();
        while rest.len() > 0
            invariant
                self.wf(),
                rest@.len() <= all.len(),
                all == entries@,
                rest@ == all.take(rest@.len() as int),
                forall|i: int|
                    0 <= i < all.len() ==> (#[trigger] all[i]).1@ == self.members(
                        all[i].0@,
                        self.graph.spec_node_count(),
                    ) && all[i].1@.len() > 0,
                found@.len() == all.len() - rest@.len(),
                forall|i: int|
                    0 <= i < found@.len() ==> (#[trigger] found@[i]).object_type == all[all.len() - 1
                        - i].0 && self.is_group(found@[i]),
            decreases rest@.len(),
        {
            let ghost at = rest@.len() - 1;
            let (object_type, hidden_classes) = rest.pop().unwrap();
            proof {
                assert(rest@ =~= all.take(rest@.len() as int));
                assert(all[at].0 == object_type && all[at].1 == hidden_classes);
                self.lemma_members_ascend(object_type@, self.graph.spec_node_count());
                lemma_ascending_len(hidden_classes@, self.graph.spec_node_count(), 0);
            }
            let total_memory = self.total_memory(&hidden_classes);
            found.push(
                HiddenClassGroup {
                    object_type,
                    hidden_class_count: hidden_classes.len(),
                    total_hidden_class_memory: total_memory,
                    hidden_classes,
                },
            );
        }
        found
    }

    /// The hidden classes of the graph, grouped by the name of the objects
    /// that they describe: for each name how many there are and the memory
    /// that they take. The groups that take most come first.
    pub fn analyze(&self) -> (groups: Vec<HiddenClassGroup>)
        requires
            self.wf(),
        ensures
            self.are_groups(groups@),
    {
        let entries = self.collect_classes();
        let ghost all = entries@;
        let found = self.make_groups(entries);
        proof {
            assert(keys_differ(found@)) by {
                assert forall|i: int, j: int| 0 <= i < j < found@.len() implies #[trigger] found@[i].spec_key()
                    != #[trigger] found@[j].spec_key() by {
                    let a = found@[i];
                    let b = found@[j];
                    assert(self.is_group(a) && self.is_group(b));
                    self.lemma_members_ascend(a.object_type@, self.graph.spec_node_count());
                    self.lemma_members_ascend(b.object_type@, self.graph.spec_node_count());
                    assert(self.in_class(a.object_type@, a.hidden_classes@[0]));
                    assert(self.in_class(b.object_type@, b.hidden_classes@[0]));
                }
            }
        }
        // Sort by total memory
        let groups = sort_by_key(found);
        proof {
            assert forall|i: int| 0 <= i < groups@.len() implies self.is_group(
                #[trigger] groups@[i],
            ) by {
                assert(groups@.contains(groups@[i]));
                let k = choose|k: int| 0 <= k < found@.len() && found@[k] == groups@[i];
                assert(self.is_group(found@[k]));
            }
            assert forall|name: Seq<char>|
                #[trigger] self.members(name, self.graph.spec_node_count()).len()
                    > 0 implies exists|i: int|
                0 <= i < groups@.len() && (#[trigger] groups@[i]).object_type@ == name by {
                                let k = choose|k: int| 0 <= k < all.len() && (#[trigger] all[k]).0@ == name;
                let i = all.len() - 1 - k;
                assert(found@[i].object_type == all[k].0);
                assert(found@.contains(found@[i]));
                let j = choose|j: int| 0 <= j < groups@.len() && groups@[j] == found@[i];
                assert(groups@[j].object_type@ == name);
            }
        }
        groups
    }
}

} // verus!
