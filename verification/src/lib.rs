use vstd::prelude::*;

pub mod analysis;
pub mod graph;
pub mod parser;
pub mod paths;
pub mod report;
pub mod seq_lemmas;
pub mod snapshot;
pub mod sorting;
pub mod types;
pub mod utils;

use analysis::duplicates::{DuplicateAnalyzer, DuplicateGroup};
use analysis::hidden_classes::{HiddenClassAnalyzer, HiddenClassGroup};
use graph::CompactGraph;
use paths::finder::{is_retention_path, root_reachable};
use paths::{RetentionPath, RetentionPathFinder};
use seq_lemmas::lemma_filter_push;
use sorting::turned;
use std::collections::HashMap;
use types::{AnalyzerError, NodeId};

pub use analysis::duplicates::DuplicateGroup as PublicDuplicateGroup;
pub use analysis::hidden_classes::HiddenClassGroup as PublicHiddenClassGroup;
pub use paths::RetentionPath as PublicRetentionPath;

verus! {

/// For how many of the groups that waste most a way from a root is looked
/// for.
pub const TOP_GROUPS: usize = 10;

/// How many ways from a root are looked for per group.
pub const PATHS_PER_GROUP: usize = 3;

/// What the analysis of a graph finds: the groups of duplicates, the groups
/// of hidden classes, and for the representatives of the groups that waste
/// most the ways on which they are held.
pub struct AnalysisResults {
    pub duplicate_groups: Vec<DuplicateGroup>,
    pub hidden_class_groups: Vec<HiddenClassGroup>,
    pub retention_paths: HashMap<NodeId, Vec<RetentionPath>>,
}

/// Whether `a` is shorter than `b` and stands in `b` as it is, from some
/// place on.
pub open spec fn is_window(a: Seq<NodeId>, b: Seq<NodeId>) -> bool {
    a.len() < b.len() && exists|k: int|
        0 <= k <= b.len() - a.len() && #[trigger] b.subrange(k, k + a.len()) == a
}

/// Whether the nodes of `p` stand as a part in the nodes of one of `all`.
pub open spec fn is_subsumed(p: RetentionPath, all: Seq<RetentionPath>) -> bool {
    exists|j: int| 0 <= j < all.len() && is_window(p.nodes@, (#[trigger] all[j]).nodes@)
}

/// The test that a path passes that is a part of none of `all`.
pub open spec fn stands_alone(all: Seq<RetentionPath>) -> spec_fn(RetentionPath) -> bool {
    |p: RetentionPath| !is_subsumed(p, all)
}

/// Check if path_a is a part of path_b: shorter, and with all its nodes in
/// path_b one after another
pub fn is_subset(path_a: &[NodeId], path_b: &[NodeId]) -> (r: bool)
    ensures
        r == is_window(path_a@, path_b@),
{
    if path_a.len() >= path_b.len() {
        return false;
    }
    if path_a.len() == 0 {
        proof {
            assert(path_b@.subrange(0int, 0int + path_a@.len()) =~= path_a@);
        }
        return true;
    }
    let last = path_b.len() - path_a.len();
    let mut k: usize = 0;
    while k <= last
        invariant
            0 < path_a@.len() < path_b@.len(),
            path_b@.len() <= usize::MAX,
            last == path_b@.len() - path_a@.len(),
            k <= last + 1,
            forall|d: int| 0 <= d < k ==> #[trigger] path_b@.subrange(d, d + path_a@.len()) != path_a@,
        decreases last + 1 - k,
    {
        let mut i: usize = 0;
        let mut same = true;
        while i < path_a.len() && same
            invariant
                path_a@.len() < path_b@.len(),
                path_b@.len() <= usize::MAX,
                k + path_a@.len() <= path_b@.len(),
                i <= path_a@.len(),
                same ==> forall|d: int| 0 <= d < i ==> path_b@[k + d] == path_a@[d],
                !same ==> path_b@.subrange(k as int, k + path_a@.len()) != path_a@,
            decreases path_a@.len() - i + if same { 1int } else { 0int },
        {
            if path_b[k + i] != path_a[i] {
                same = false;
                proof {
                    assert(path_b@.subrange(k as int, k + path_a@.len())[i as int] != path_a@[i as int]);
                }
            } else {
                i = i + 1;
            }
        }
        if same {
            proof {
                assert(path_b@.subrange(k as int, k + path_a@.len()) =~= path_a@);
            }
            return true;
        }
        k = k + 1;
    }
    false
}

/// Removes paths that are entirely contained within other paths
pub fn filter_subset_paths(paths: &mut Vec<RetentionPath>)
    ensures
        final(paths)@ == old(paths)@.filter(stands_alone(old(paths)@)),
{
    let ghost all = paths@;
    let n = paths.len();
    let mut keep: Vec<bool> = Vec::with_capacity(n);
    let mut i: usize = 0;
    while i < n
        invariant
            paths@ == all,
            n == all.len(),
            i <= n,
            keep@.len() == i,
            forall|k: int| 0 <= k < i ==> #[trigger] keep@[k] == !is_subsumed(all[k], all),
        decreases n - i,
    {
        let mut j: usize = 0;
        let mut inside = false;
        while j < n && !inside
            invariant
                paths@ == all,
                n == all.len(),
                i < n,
                j <= n,
                !inside ==> forall|d: int|
                    0 <= d < j ==> !is_window(all[i as int].nodes@, (#[trigger] all[d]).nodes@),
                inside ==> is_subsumed(all[i as int], all),
            decreases n - j + if inside { 0int } else { 1int },
        {
            if is_subset(paths[i].nodes.as_slice(), paths[j].nodes.as_slice()) {
                inside = true;
                proof {
                    assert(is_window(all[i as int].nodes@, all[j as int].nodes@));
                }
            } else {
                j = j + 1;
            }
        }
        keep.push(!inside);
        i = i + 1;
    }
    let mut taken: Vec<RetentionPath> = Vec::new();
    std::mem::swap(paths, &mut taken);
    let mut rest = turned(taken);
    let mut at: usize = 0;
    proof {
        assert(all.take(0) =~= Seq::<RetentionPath>::empty());
        reveal(Seq::filter);
    }
    while rest.len() > 0
        invariant
            n == all.len(),
            keep@.len() == n,
            forall|k: int| 0 <= k < n ==> #[trigger] keep@[k] == !is_subsumed(all[k], all),
            at + rest@.len() == n,
            forall|k: int| 0 <= k < rest@.len() ==> rest@[k] == all[n - 1 - k],
            paths@ == all.take(at as int).filter(stands_alone(all)),
        decreases rest@.len(),
    {
        let p = rest.pop().unwrap();
        proof {
            assert(p == all[at as int]);
            assert(all.take(at + 1) =~= all.take(at as int).push(p));
            lemma_filter_push(all.take(at as int), p, stands_alone(all));
        }
        if keep[at] {
            paths.push(p);
        }
        at = at + 1;
    }
    proof {
        assert(all.take(n as int) =~= all);
    }
}

/// Whether none of the paths is a part of another.
pub open spec fn none_in_another(paths: Seq<RetentionPath>) -> bool {
    forall|a: int, b: int|
        0 <= a < paths.len() && 0 <= b < paths.len() ==> !is_window(
            (#[trigger] paths[a]).nodes@,
            (#[trigger] paths[b]).nodes@,
        )
}

/// Whether `found` holds the retention paths for the first `top_n` of the
/// groups: an entry exactly for each of their representatives that a walk
/// from a root leads to, unless no path is asked for; in each entry at
/// least one path and at most `max_paths`, each a walk from a root to that
/// node, none of them a part of another.
pub open spec fn are_paths_for_groups(
    graph: &CompactGraph,
    groups: Seq<DuplicateGroup>,
    top_n: usize,
    max_paths: usize,
    found: Map<NodeId, Vec<RetentionPath>>,
) -> bool {
    &&& forall|node: NodeId|
        #[trigger] found.contains_key(node) <==> root_reachable(graph, node) && max_paths > 0
            && exists|i: int|
            0 <= i < groups.len() && i < top_n && (#[trigger] groups[i]).representative == node
    &&& forall|node: NodeId, k: int|
        found.contains_key(node) && 0 <= k < found[node]@.len() ==> is_retention_path(
            graph,
            #[trigger] found[node]@[k],
            node,
        )
    &&& forall|node: NodeId|
        #[trigger] found.contains_key(node) ==> 1 <= found[node]@.len() <= max_paths
            && none_in_another(found[node]@)
}

/// Finds retention paths for the top N duplicate groups: for the
/// representative of each of them that can be reached from a root, ways from
/// a root to it, none of them a part of another.
pub fn find_retention_paths_for_groups(
    graph: &CompactGraph,
    duplicate_groups: &[DuplicateGroup],
    top_n: usize,
    max_paths_per_group: usize,
) -> (retention_paths: HashMap<NodeId, Vec<RetentionPath>>)
    requires
        graph.wf(),
    ensures
        forall|node: NodeId|
            #[trigger] retention_paths@.contains_key(node) <==> root_reachable(graph, node)
                && max_paths_per_group > 0 && exists|i: int|
                0 <= i < duplicate_groups@.len() && i < top_n && (
                #[trigger] duplicate_groups@[i]).representative == node,
        forall|node: NodeId, k: int|
            retention_paths@.contains_key(node) && 0 <= k < retention_paths@[node]@.len()
                ==> is_retention_path(graph, #[trigger] retention_paths@[node]@[k], node),
        forall|node: NodeId|
            #[trigger] retention_paths@.contains_key(node) ==> 1 <= retention_paths@[node]@.len()
                <= max_paths_per_group && none_in_another(retention_paths@[node]@),
        are_paths_for_groups(
            graph,
            duplicate_groups@,
            top_n,
            max_paths_per_group,
            retention_paths@,
        ),
{
    broadcast use vstd::std_specs::hash::group_hash_axioms;

    let path_finder = RetentionPathFinder::new(graph);
    let mut retention_paths: HashMap<NodeId, Vec<RetentionPath>> = HashMap::new();
    let limit = if top_n < duplicate_groups.len() {
        top_n
    } else {
        duplicate_groups.len()
    };
    let mut i: usize = 0;
    while i < limit
        invariant
            graph.wf(),
            path_finder.graph == graph,
            limit <= duplicate_groups@.len(),
            limit <= top_n,
            i <= limit,
            forall|node: NodeId|
                #[trigger] retention_paths@.contains_key(node) <==> root_reachable(graph, node)
                    && max_paths_per_group > 0 && exists|d: int|
                    0 <= d < i && (#[trigger] duplicate_groups@[d]).representative == node,
            forall|node: NodeId, k: int|
                retention_paths@.contains_key(node) && 0 <= k < retention_paths@[node]@.len()
                    ==> is_retention_path(graph, #[trigger] retention_paths@[node]@[k], node),
            forall|node: NodeId|
                #[trigger] retention_paths@.contains_key(node) ==> 1
                    <= retention_paths@[node]@.len() <= max_paths_per_group && none_in_another(
                    retention_paths@[node]@,
                ),
        decreases limit - i,
    {
        let representative = duplicate_groups[i].representative;
        let mut paths = path_finder.find_paths(representative, max_paths_per_group);
        let ghost before = retention_paths@;
        if paths.len() > 0 {
            let ghost found = paths@;
            filter_subset_paths(&mut paths);
            proof {
                found.lemma_filter_len(stands_alone(found));
                assert forall|k: int| 0 <= k < paths@.len() implies is_retention_path(
                    graph,
                    #[trigger] paths@[k],
                    representative,
                ) by {
                    found.lemma_filter_contains_rev(stands_alone(found), paths@[k]);
                    let d = choose|d: int| 0 <= d < found.len() && found[d] == paths@[k];
                    assert(is_retention_path(graph, found[d], representative));
                }
                lemma_filtered_alone(found);
                lemma_shortest_stands(found);
            }
            retention_paths.insert(representative, paths);
        }
        proof {
            assert forall|node: NodeId|
                #[trigger] retention_paths@.contains_key(node) <==> root_reachable(graph, node)
                    && max_paths_per_group > 0 && exists|d: int|
                    0 <= d < i + 1 && (#[trigger] duplicate_groups@[d]).representative == node by {
                if node == representative {
                    assert(duplicate_groups@[i as int].representative == node);
                } else {
                    assert(retention_paths@.contains_key(node) == before.contains_key(node));
                    if exists|d: int|
                        0 <= d < i + 1 && (#[trigger] duplicate_groups@[d]).representative == node {
                        let d = choose|d: int|
                            0 <= d < i + 1 && (#[trigger] duplicate_groups@[d]).representative
                                == node;
                        assert(d < i);
                    }
                }
            }
        }
        i = i + 1;
    }
    retention_paths
}

/// Of the paths that are a part of none of a list, none is a part of
/// another.
pub proof fn lemma_filtered_alone(found: Seq<RetentionPath>)
    ensures
        none_in_another(found.filter(stands_alone(found))),
{
    let kept = found.filter(stands_alone(found));
    assert forall|a: int, b: int| 0 <= a < kept.len() && 0 <= b < kept.len() implies !is_window(
        (#[trigger] kept[a]).nodes@,
        (#[trigger] kept[b]).nodes@,
    ) by {
        found.lemma_filter_pred(stands_alone(found), a);
        found.lemma_filter_contains_rev(stands_alone(found), kept[b]);
        let d = choose|d: int| 0 <= d < found.len() && found[d] == kept[b];
        if is_window(kept[a].nodes@, kept[b].nodes@) {
            assert(is_window(kept[a].nodes@, found[d].nodes@));
            assert(is_subsumed(kept[a], found));
        }
    }
}

/// A path that none of a list is longer than is a part of none of them: so
/// of a list that holds a path, one is kept.
pub proof fn lemma_shortest_stands(found: Seq<RetentionPath>)
    requires
        found.len() > 0,
    ensures
        found.filter(stands_alone(found)).len() >= 1,
{
    let longest = longest_of(found, found.len() as int);
    lemma_longest_of(found, found.len() as int);
    assert(!is_subsumed(found[longest], found));
    found.lemma_filter_contains(stands_alone(found), longest);
    let kept = found.filter(stands_alone(found));
    assert(kept.contains(found[longest]));
}

/// The place among the first `upto` paths of one that none of them is
/// longer than.
pub open spec fn longest_of(found: Seq<RetentionPath>, upto: int) -> int
    decreases upto,
{
    if upto <= 1 {
        0
    } else {
        let before = longest_of(found, upto - 1);
        if found[upto - 1].nodes@.len() > found[before].nodes@.len() {
            upto - 1
        } else {
            before
        }
    }
}

/// None of the first `upto` paths is longer than the longest of them.
pub proof fn lemma_longest_of(found: Seq<RetentionPath>, upto: int)
    requires
        1 <= upto <= found.len(),
    ensures
        0 <= longest_of(found, upto) < upto,
        forall|j: int|
            0 <= j < upto ==> (#[trigger] found[j]).nodes@.len() <= found[longest_of(
                found,
                upto,
            )].nodes@.len(),
    decreases upto,
{
    if upto > 1 {
        lemma_longest_of(found, upto - 1);
    }
}

/// Analyzes a CompactGraph for duplicates, hidden classes, and retention
/// paths. A graph whose columns do not agree, or with more nodes than can be
/// numbered, is refused.
pub fn analyze_graph(graph: CompactGraph, include_hidden_classes: bool) -> (r: Result<
    AnalysisResults,
    AnalyzerError,
>)
    ensures
        r is Ok <==> graph.wf() && graph.spec_node_count() <= u32::MAX,
        r matches Err(e) ==> e is InvalidFormat,
        r matches Ok(found) ==> {
            let dups = DuplicateAnalyzer { graph, include_hidden_classes };
            let classes = HiddenClassAnalyzer {
                graph,
                hidden_class_tag: analysis::hidden_classes::HIDDEN_CLASS_TAG,
            };
            &&& dups.are_all_groups(found.duplicate_groups@)
            &&& classes.are_groups(found.hidden_class_groups@)
            &&& are_paths_for_groups(
                &graph,
                found.duplicate_groups@,
                TOP_GROUPS,
                PATHS_PER_GROUP,
                found.retention_paths@,
            )
        },
{
    if !graph.is_well_formed() || graph.node_count() > u32::MAX as usize {
        return Err(AnalyzerError::InvalidFormat(bad_graph_message()));
    }
    // Analyze duplicates
    let analyzer = DuplicateAnalyzer::new(graph, include_hidden_classes);
    let duplicate_groups = analyzer.find_duplicates();
    let graph = analyzer.into_graph();
    // Analyze hidden classes
    let hc_analyzer = HiddenClassAnalyzer::new(graph);
    let hidden_class_groups = hc_analyzer.analyze();
    let graph = hc_analyzer.into_graph();
    // Find retention paths for top duplicates
    let retention_paths = find_retention_paths_for_groups(
        &graph,
        duplicate_groups.as_slice(),
        TOP_GROUPS,
        PATHS_PER_GROUP,
    );
    Ok(AnalysisResults { duplicate_groups, hidden_class_groups, retention_paths })
}

/// The text of the error for a graph that cannot be analyzed.
fn bad_graph_message() -> (s: String)
    ensures
        s@ == "graph columns do not agree"@,
{
    let s = "graph columns do not agree".to_string();
    proof {
        vstd::string::to_string_from_display_ensures_for_str("graph columns do not agree", s);
    }
    s
}

} // verus!
