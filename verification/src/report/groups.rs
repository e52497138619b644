use vstd::prelude::*;
use std::collections::HashMap;
use crate::analysis::duplicates::{spec_hash_string, string_hash};
use crate::analysis::dominator_tree::DominatorTree;
use crate::graph::v8_heap_graph::V8HeapGraph;
use crate::report::explorer::{
    build_ui_tree, is_kept, mirrors, shows_child, UiTreeId, UiTreeNode,
};
use crate::sorting::key_lt;
use crate::types::NodeId;
use crate::sorting::{is_sorted, keys_differ, sort_by_key, turned, Keyed};
use crate::utils::{capped, decimal, push_decimal, push_str_chars, str_eq, string_from_chars};

verus! {

broadcast use vstd::std_specs::hash::group_hash_axioms;

/// The first place from `j` on at which a node has this label, or the
/// length of the list where none has.
pub open spec fn first_from(cs: Seq<UiTreeNode>, label: Seq<char>, j: int) -> int
    decreases cs.len() - j,
{
    if j < 0 || j >= cs.len() {
        cs.len() as int
    } else if cs[j].label@ == label {
        j
    } else {
        first_from(cs, label, j + 1)
    }
}

/// The first place at which a node has the label of the node at place `i`.
pub open spec fn first_like(cs: Seq<UiTreeNode>, i: int) -> int {
    first_from(cs, cs[i].label@, 0)
}

/// Whether no node before place `r` has the label of the node at place `r`.
pub open spec fn is_first(cs: Seq<UiTreeNode>, r: int) -> bool {
    0 <= r < cs.len() && first_like(cs, r) == r
}

/// Whether two of the nodes have the same label.
pub open spec fn has_twins(cs: Seq<UiTreeNode>) -> bool {
    exists|i: int| 0 <= i < cs.len() && #[trigger] first_like(cs, i) != i
}

/// The first place with a label lies at or behind the start, holds the
/// label, and no place between does.
pub proof fn lemma_first_from(cs: Seq<UiTreeNode>, label: Seq<char>, j: int)
    requires
        0 <= j <= cs.len(),
    ensures
        j <= first_from(cs, label, j) <= cs.len(),
        first_from(cs, label, j) < cs.len() ==> cs[first_from(cs, label, j)].label@ == label,
        forall|k: int| j <= k < first_from(cs, label, j) ==> (#[trigger] cs[k]).label@ != label,
    decreases cs.len() - j,
{
    if j < cs.len() && cs[j].label@ != label {
        lemma_first_from(cs, label, j + 1);
    }
}

/// A place that holds the label, behind places that do not, is the first.
pub proof fn lemma_first_is(cs: Seq<UiTreeNode>, label: Seq<char>, j: int, r: int)
    requires
        0 <= j <= r < cs.len(),
        cs[r].label@ == label,
        forall|k: int| j <= k < r ==> (#[trigger] cs[k]).label@ != label,
    ensures
        first_from(cs, label, j) == r,
    decreases r - j,
{
    if j < r {
        assert(cs[j].label@ != label);
        lemma_first_is(cs, label, j + 1, r);
    }
}

/// The first place with the label of a node is at or before the node, has
/// its label, and is the first for itself too.
pub proof fn lemma_first_like(cs: Seq<UiTreeNode>, i: int)
    requires
        0 <= i < cs.len(),
    ensures
        0 <= first_like(cs, i) <= i,
        cs[first_like(cs, i)].label@ == cs[i].label@,
        is_first(cs, first_like(cs, i)),
        forall|k: int| 0 <= k < first_like(cs, i) ==> (#[trigger] cs[k]).label@ != cs[i].label@,
{
    let label = cs[i].label@;
    lemma_first_from(cs, label, 0);
    let r = first_from(cs, label, 0);
    if r > i {
        assert(cs[i].label@ != label);
    }
    lemma_first_is(cs, cs[r].label@, 0, r);
}

/// For each node the first place at which a node has its label.
pub fn first_like_slots(children: &Vec<UiTreeNode>) -> (slots: Vec<usize>)
    ensures
        slots@.len() == children@.len(),
        forall|i: int| 0 <= i < slots@.len() ==> #[trigger] slots@[i] == first_like(children@, i),
{
    let ghost cs = children@;
    let n = children.len();
    let mut slots: Vec<usize> = Vec::new();
    // The first places found so far, under the hashes of their labels
    let mut found: HashMap<u64, Vec<usize>> = HashMap::new();
    let mut i: usize = 0;
    while i < n
        invariant
            cs == children@,
            n == cs.len(),
            i <= n,
            slots@.len() == i,
            forall|j: int| 0 <= j < i ==> #[trigger] slots@[j] == first_like(cs, j),
            forall|h: u64, k: int|
                found@.contains_key(h) && 0 <= k < found@[h]@.len() ==> {
                    let r = #[trigger] found@[h]@[k];
                    r < i && is_first(cs, r as int) && spec_hash_string(cs[r as int].label@) == h
                },
            forall|r: int|
                0 <= r < i && #[trigger] is_first(cs, r) ==> found@.contains_key(
                    spec_hash_string(cs[r].label@),
                ) && found@[spec_hash_string(cs[r].label@)]@.contains(r as usize),
        decreases n - i,
    {
        let label = children[i].label.as_str();
        let h = string_hash(label);
        let mut bucket = match found.remove(&h) {
            Some(b) => b,
            None => Vec::new(),
        };
        let ghost others = found@;
        let ghost listed = bucket@;
        proof {
            assert forall|r: int| 0 <= r < i && #[trigger] is_first(cs, r) && spec_hash_string(
                cs[r].label@,
            ) == h implies listed.contains(r as usize) by {}
        }
        let mut hit: Option<usize> = None;
        let mut k: usize = 0;
        while k < bucket.len() && hit.is_none()
            invariant
                cs == children@,
                i < cs.len(),
                label@ == cs[i as int].label@,
                k <= bucket@.len(),
                bucket@ == listed,
                forall|m: int| 0 <= m < listed.len() ==> (#[trigger] listed[m]) < i,
                hit is None ==> forall|m: int|
                    0 <= m < k ==> cs[(#[trigger] listed[m]) as int].label@ != label@,
                hit matches Some(r) ==> listed.contains(r) && cs[r as int].label@ == label@,
            decreases bucket@.len() - k + if hit is None { 1int } else { 0int },
        {
            let r = bucket[k];
            if str_eq(children[r].label.as_str(), label) {
                hit = Some(r);
            } else {
                k = k + 1;
            }
        }
        proof {
            lemma_first_like(cs, i as int);
        }
        match hit {
            Some(r) => {
                proof {
                    // A first place with this label is the first place for the node
                    let m = choose|m: int| 0 <= m < listed.len() && listed[m] == r;
                    assert(is_first(cs, r as int));
                    lemma_first_like(cs, r as int);
                    lemma_first_from(cs, label@, 0);
                    assert(first_like(cs, i as int) == first_like(cs, r as int));
                }
                slots.push(r);
            },
            None => {
                proof {
                    // No first place has this label, so no node before has it
                    let f = first_like(cs, i as int);
                    if f < i {
                        assert(is_first(cs, f));
                        assert(listed.contains(f as usize));
                        let m = choose|m: int| 0 <= m < listed.len() && listed[m] == f as usize;
                        assert(cs[listed[m] as int].label@ != label@);
                    }
                }
                slots.push(i);
                bucket.push(i);
            },
        }
        let ghost grown = bucket@;
        found.insert(h, bucket);
        proof {
            assert forall|h2: u64, k2: int|
                found@.contains_key(h2) && 0 <= k2 < found@[h2]@.len() implies {
                let r = #[trigger] found@[h2]@[k2];
                r < i + 1 && is_first(cs, r as int) && spec_hash_string(cs[r as int].label@) == h2
            } by {
                if h2 == h {
                    if k2 < listed.len() {
                        assert(grown[k2] == listed[k2]);
                    }
                } else {
                    assert(others.contains_key(h2));
                    assert(found@[h2] == others[h2]);
                }
            }
            assert forall|r: int| 0 <= r < i + 1 && #[trigger] is_first(cs, r) implies found@.contains_key(
                spec_hash_string(cs[r].label@),
            ) && found@[spec_hash_string(cs[r].label@)]@.contains(r as usize) by {
                let h2 = spec_hash_string(cs[r].label@);
                if r < i {
                    if h2 == h {
                        assert(listed.contains(r as usize));
                        let m = choose|m: int| 0 <= m < listed.len() && listed[m] == r as usize;
                        assert(grown[m] == r as usize);
                    } else {
                        assert(others.contains_key(h2));
                    }
                } else {
                    assert(hit is None);
                    assert(grown[grown.len() - 1] == i);
                }
            }
        }
        i = i + 1;
    }
    slots
}

/// The nodes among the first `upto` that have this label, in their order.
pub open spec fn alike(cs: Seq<UiTreeNode>, label: Seq<char>, upto: int) -> Seq<UiTreeNode>
    decreases upto,
{
    if upto <= 0 {
        Seq::empty()
    } else {
        let rest = alike(cs, label, upto - 1);
        if cs[upto - 1].label@ == label {
            rest.push(cs[upto - 1])
        } else {
            rest
        }
    }
}

/// What the nodes retain together.
pub open spec fn retained_sum(nodes: Seq<UiTreeNode>) -> int
    decreases nodes.len(),
{
    if nodes.len() == 0 {
        0
    } else {
        retained_sum(nodes.drop_last()) + nodes.last().retained_size
    }
}

/// The label of a group: how many nodes it holds, and their label.
pub open spec fn group_label(count: nat, label: Seq<char>) -> Seq<char> {
    "<Group> "@ + decimal(count) + " instances of "@ + label
}

/// The number in an id.
pub open spec fn number_of(id: UiTreeId) -> usize {
    match id {
        UiTreeId::Heap(n) => n as usize,
        UiTreeId::Group(g) => g,
    }
}

/// Whether `node` stands for the nodes that have the label of the node at
/// place `r`: it is that node where no other has its label, and else a
/// group of them all, in their order, which has the number of the first for
/// its own and retains what they retain together.
pub open spec fn stands_for(node: UiTreeNode, cs: Seq<UiTreeNode>, r: int) -> bool {
    let members = alike(cs, cs[r].label@, cs.len() as int);
    if members.len() == 1 {
        node == cs[r]
    } else {
        &&& node.id == UiTreeId::Group(number_of(cs[r].id))
        &&& node.label@ == group_label(members.len(), cs[r].label@)
        &&& node.retained_size == capped(retained_sum(members))
        &&& node.children@ == members
    }
}

/// Whether `node` stands for the nodes of one label.
pub open spec fn is_part(node: UiTreeNode, cs: Seq<UiTreeNode>) -> bool {
    exists|r: int| #[trigger] is_first(cs, r) && stands_for(node, cs, r)
}

/// Whether `mid` is the list `cs` with the nodes of one label gathered in a
/// group: the list itself where no two nodes have the same label; else for
/// each label the node or the group that stands for it, and nothing else,
/// those that retain more first.
pub open spec fn level(mid: Seq<UiTreeNode>, cs: Seq<UiTreeNode>) -> bool {
    if has_twins(cs) {
        &&& is_sorted(mid)
        &&& forall|r: int| #[trigger]
            is_first(cs, r) ==> exists|k: int|
                0 <= k < mid.len() && stands_for(#[trigger] mid[k], cs, r)
        &&& forall|k: int| 0 <= k < mid.len() ==> is_part(#[trigger] mid[k], cs)
    } else {
        mid == cs
    }
}

/// The nodes that have a label start with the first node that has it.
pub proof fn lemma_alike_head(cs: Seq<UiTreeNode>, r: int, upto: int)
    requires
        is_first(cs, r),
        0 <= upto <= cs.len(),
    ensures
        upto <= r ==> alike(cs, cs[r].label@, upto).len() == 0,
        upto > r ==> alike(cs, cs[r].label@, upto).len() >= 1 && alike(cs, cs[r].label@, upto)[0]
            == cs[r],
    decreases upto,
{
    if upto > 0 {
        lemma_alike_head(cs, r, upto - 1);
        lemma_first_like(cs, r);
        if upto - 1 < r {
            assert(cs[upto - 1].label@ != cs[r].label@);
        }
    }
}

/// Each of the nodes that have a label is one of the nodes, and has the
/// label.
pub proof fn lemma_alike_from(cs: Seq<UiTreeNode>, label: Seq<char>, upto: int, m: int)
    requires
        0 <= upto <= cs.len(),
        0 <= m < alike(cs, label, upto).len(),
    ensures
        exists|j: int| 0 <= j < upto && #[trigger] cs[j] == alike(cs, label, upto)[m] && cs[j].label@ == label,
    decreases upto,
{
    if upto > 0 {
        let rest = alike(cs, label, upto - 1);
        if m < rest.len() {
            lemma_alike_from(cs, label, upto - 1, m);
        } else {
            assert(cs[upto - 1] == alike(cs, label, upto)[m]);
        }
    }
}

/// Nodes with the same label have the same first place.
pub proof fn lemma_same_first(cs: Seq<UiTreeNode>, i: int, r: int)
    requires
        0 <= i < cs.len(),
        is_first(cs, r),
        cs[i].label@ == cs[r].label@,
    ensures
        first_like(cs, i) == r,
{
}

/// What the nodes of a list retain together, as far as a counter holds it.
fn retained_by(nodes: &Vec<UiTreeNode>) -> (r: usize)
    ensures
        r == capped(retained_sum(nodes@)),
{
    let mut total: usize = 0;
    let mut k: usize = 0;
    let ghost mut sum: int = 0;
    proof {
        assert(nodes@.take(0) =~= Seq::empty());
    }
    while k < nodes.len()
        invariant
            k <= nodes@.len(),
            sum == retained_sum(nodes@.take(k as int)),
            sum >= 0,
            total == capped(sum),
        decreases nodes@.len() - k,
    {
        total = total.saturating_add(nodes[k].retained_size);
        proof {
            assert(nodes@.take(k + 1).drop_last() =~= nodes@.take(k as int));
            sum = sum + nodes@[k as int].retained_size;
        }
        k = k + 1;
    }
    proof {
        assert(nodes@.take(k as int) =~= nodes@);
    }
    total
}

/// Whether `node` was made for the first place `q`: it stands for the nodes
/// with the label found there, and is ordered by the number found there.
pub open spec fn made_for(node: UiTreeNode, cs: Seq<UiTreeNode>, q: int) -> bool {
    is_first(cs, q) && stands_for(node, cs, q) && node.spec_key().2 == number_of(cs[q].id)
}

/// Whether the nodes are heap nodes, each another.
pub open spec fn are_apart(cs: Seq<UiTreeNode>) -> bool {
    &&& forall|i: int| 0 <= i < cs.len() ==> (#[trigger] cs[i]).id is Heap
    &&& forall|i: int, j: int|
        0 <= i < j < cs.len() ==> (#[trigger] cs[i]).id != (#[trigger] cs[j]).id
}

/// The nodes with the nodes of one label gathered in a group, where two
/// nodes have the same label.
pub fn group_children(children: Vec<UiTreeNode>) -> (mid: Vec<UiTreeNode>)
    requires
        are_apart(children@),
    ensures
        level(mid@, children@),
{
    let ghost cs = children@;
    let slots = first_like_slots(&children);
    let n = children.len();
    let mut twins = false;
    let mut i: usize = 0;
    while i < n
        invariant
            i <= n,
            n == cs.len(),
            slots@.len() == n,
            forall|j: int| 0 <= j < n ==> #[trigger] slots@[j] == first_like(cs, j),
            twins <==> exists|j: int| 0 <= j < i && #[trigger] first_like(cs, j) != j,
        decreases n - i,
    {
        if slots[i] != i {
            twins = true;
        }
        i = i + 1;
    }
    if !twins {
        return children;
    }
    // For each first place the nodes that have its label
    let mut parts: Vec<Vec<UiTreeNode>> = Vec::new();
    let mut r: usize = 0;
    while r < n
        invariant
            r <= n,
            parts@.len() == r,
            forall|k: int| 0 <= k < r ==> (#[trigger] parts@[k])@.len() == 0,
        decreases n - r,
    {
        parts.push(Vec::new());
        r = r + 1;
    }
    let mut rest = turned(children);
    let mut i: usize = 0;
    while i < n
        invariant
            i <= n,
            n == cs.len(),
            slots@.len() == n,
            forall|j: int| 0 <= j < n ==> #[trigger] slots@[j] == first_like(cs, j),
            rest@.len() == n - i,
            forall|k: int| 0 <= k < rest@.len() ==> #[trigger] rest@[k] == cs[n - 1 - k],
            parts@.len() == n,
            forall|r: int|
                0 <= r < n ==> (#[trigger] parts@[r])@ == if is_first(cs, r) {
                    alike(cs, cs[r].label@, i as int)
                } else {
                    Seq::empty()
                },
        decreases n - i,
    {
        let node = rest.pop().unwrap();
        let slot = slots[i];
        let ghost before = parts@;
        proof {
            lemma_first_like(cs, i as int);
            assert(node == cs[i as int]);
        }
        parts[slot].push(node);
        proof {
            assert forall|r: int| 0 <= r < n implies (#[trigger] parts@[r])@ == if is_first(cs, r) {
                alike(cs, cs[r].label@, i + 1)
            } else {
                Seq::empty()
            } by {
                if r == slot {
                    assert(parts@[r]@ == before[r]@.push(node));
                } else {
                    assert(parts@[r] == before[r]);
                    if is_first(cs, r) && cs[i as int].label@ == cs[r].label@ {
                        lemma_same_first(cs, i as int, r);
                    }
                }
            }
        }
        i = i + 1;
    }
    let mut mid: Vec<UiTreeNode> = Vec::new();
    let ghost all = parts@;
    let ghost mut origin: Seq<int> = Seq::empty();
    let mut stack = turned(parts);
    let mut r: usize = 0;
    while r < n
        invariant
            r <= n,
            n == cs.len(),
            are_apart(cs),
            all.len() == n,
            forall|q: int|
                0 <= q < n ==> (#[trigger] all[q])@ == if is_first(cs, q) {
                    alike(cs, cs[q].label@, n as int)
                } else {
                    Seq::empty()
                },
            stack@.len() == n - r,
            forall|k: int| 0 <= k < stack@.len() ==> #[trigger] stack@[k] == all[n - 1 - k],
            origin.len() == mid@.len(),
            forall|k: int| 0 <= k < origin.len() ==> 0 <= #[trigger] origin[k] < r,
            forall|k: int, l: int| 0 <= k < l < origin.len() ==> origin[k] < origin[l],
            forall|k: int| 0 <= k < mid@.len() ==> made_for(#[trigger] mid@[k], cs, origin[k]),
            forall|q: int|
                0 <= q < r && #[trigger] is_first(cs, q) ==> exists|k: int|
                    0 <= k < origin.len() && #[trigger] origin[k] == q,
        decreases n - r,
    {
        let mut part = stack.pop().unwrap();
        let ghost members = part@;
        let ghost before = mid@;
        let ghost origin_before = origin;
        proof {
            assert(part == all[r as int]);
            if is_first(cs, r as int) {
                lemma_alike_head(cs, r as int, n as int);
            }
        }
        if part.len() == 1 {
            let node = part.pop().unwrap();
            mid.push(node);
            proof {
                origin = origin.push(r as int);
                assert(node == cs[r as int]);
                assert(made_for(node, cs, r as int));
            }
        } else if part.len() >= 2 {
            let count = part.len();
            let mut text: Vec<char> = Vec::new();
            push_str_chars(&mut text, "<Group> ");
            push_decimal(&mut text, count as u64);
            push_str_chars(&mut text, " instances of ");
            push_str_chars(&mut text, part[0].label.as_str());
            proof {
                assert(text@ =~= group_label(count as nat, cs[r as int].label@));
            }
            let label = string_from_chars(&text);
            let retained_size = retained_by(&part);
            let number = match part[0].id {
                UiTreeId::Heap(x) => x as usize,
                UiTreeId::Group(g) => g,
            };
            let node = UiTreeNode {
                id: UiTreeId::Group(number),
                label,
                retained_size,
                children: part,
            };
            proof {
                origin = origin.push(r as int);
                assert(made_for(node, cs, r as int));
            }
            mid.push(node);
        }
        proof {
            assert forall|k: int| 0 <= k < mid@.len() implies made_for(
                #[trigger] mid@[k],
                cs,
                origin[k],
            ) by {
                if k < before.len() {
                    assert(mid@[k] == before[k]);
                    assert(origin[k] == origin_before[k]);
                }
            }
            assert forall|q: int| 0 <= q < r + 1 && #[trigger] is_first(cs, q) implies exists|
                k: int,
            |
                0 <= k < origin.len() && #[trigger] origin[k] == q by {
                if q < r {
                    let k = choose|k: int|
                        0 <= k < origin_before.len() && #[trigger] origin_before[k] == q;
                    assert(origin[k] == q);
                } else {
                    assert(origin[origin.len() - 1] == q);
                }
            }
        }
        r = r + 1;
    }
    proof {
        assert(keys_differ(mid@)) by {
            assert forall|k: int, l: int| 0 <= k < l < mid@.len() implies #[trigger] mid@[k].spec_key()
                != #[trigger] mid@[l].spec_key() by {
                assert(origin[k] < origin[l]);
                assert(made_for(mid@[k], cs, origin[k]));
                assert(made_for(mid@[l], cs, origin[l]));
                assert(cs[origin[k]].id != cs[origin[l]].id);
                assert(cs[origin[k]].id is Heap && cs[origin[l]].id is Heap);
            }
        }
    }
    let ghost made = mid@;
    let sorted = sort_by_key(mid);
    proof {
        assert forall|q: int| #[trigger] is_first(cs, q) implies exists|k: int|
            0 <= k < sorted@.len() && stands_for(#[trigger] sorted@[k], cs, q) by {
            let l = choose|l: int| 0 <= l < origin.len() && #[trigger] origin[l] == q;
            assert(made_for(made[l], cs, q));
            assert(made.contains(made[l]));
            assert(sorted@.contains(made[l]));
            let k = choose|k: int| 0 <= k < sorted@.len() && sorted@[k] == made[l];
            assert(stands_for(sorted@[k], cs, q));
        }
        assert forall|k: int| 0 <= k < sorted@.len() implies is_part(#[trigger] sorted@[k], cs) by {
            assert(sorted@.contains(sorted@[k]));
            assert(made.contains(sorted@[k]));
            let l = choose|l: int| 0 <= l < made.len() && made[l] == sorted@[k];
            assert(made_for(made[l], cs, origin[l]));
        }
    }
    sorted
}

/// Whether below every node of the tree stand heap nodes only, each
/// another.
pub open spec fn plain(node: UiTreeNode) -> bool
    decreases node,
{
    &&& are_apart(node.children@)
    &&& forall|i: int| 0 <= i < node.children@.len() ==> plain(#[trigger] node.children@[i])
}

/// Whether `mid` is what stands below `old` once the nodes of one label are
/// gathered: below a heap node a group for each label that several of its
/// children have; below a group what stood there.
pub open spec fn middle(mid: Seq<UiTreeNode>, old: UiTreeNode) -> bool {
    if old.id is Heap {
        level(mid, old.children@)
    } else {
        mid == old.children@
    }
}

/// Whether `new` is the tree `old` with the nodes of one label gathered in
/// a group, below every heap node: it is the node that `old` is, and below
/// it stand the nodes and groups made of the children of `old`, with the
/// same done below each of them.
pub open spec fn regrouped(new: UiTreeNode, old: UiTreeNode) -> bool
    decreases new,
{
    &&& new.id == old.id
    &&& new.label@ == old.label@
    &&& new.retained_size == old.retained_size
    &&& exists|mid: Seq<UiTreeNode>| #[trigger]
        middle(mid, old) && new.children@.len() == mid.len() && forall|k: int|
            0 <= k < mid.len() ==> regrouped(#[trigger] new.children@[k], mid[k])
}

/// Whether each of the nodes is a child of `parent`.
pub open spec fn are_children(nodes: Seq<UiTreeNode>, parent: UiTreeNode) -> bool {
    forall|j: int|
        0 <= j < nodes.len() ==> exists|i: int|
            0 <= i < parent.children@.len() && #[trigger] parent.children@[i] == #[trigger] nodes[j]
}

/// The trees below some of the children of a node, each with the nodes of
/// one label gathered in a group.
fn regroup_all(nodes: Vec<UiTreeNode>, Ghost(parent): Ghost<UiTreeNode>) -> (r: Vec<UiTreeNode>)
    requires
        plain(parent),
        are_children(nodes@, parent),
    ensures
        r@.len() == nodes@.len(),
        forall|j: int| 0 <= j < r@.len() ==> regrouped(#[trigger] r@[j], nodes@[j]),
    decreases parent, 0nat,
{
    let ghost all = nodes@;
    let n = nodes.len();
    let mut rest = turned(nodes);
    let mut out: Vec<UiTreeNode> = Vec::new();
    let mut k: usize = 0;
    while k < n
        invariant
            plain(parent),
            are_children(all, parent),
            n == all.len(),
            k <= n,
            rest@.len() == n - k,
            forall|j: int| 0 <= j < rest@.len() ==> #[trigger] rest@[j] == all[n - 1 - j],
            out@.len() == k,
            forall|j: int| 0 <= j < k ==> regrouped(#[trigger] out@[j], all[j]),
        decreases n - k,
    {
        let node = rest.pop().unwrap();
        let ghost before = out@;
        proof {
            assert(node == all[k as int]);
            let i = choose|i: int|
                0 <= i < parent.children@.len() && #[trigger] parent.children@[i] == all[k as int];
            assert(plain(parent.children@[i]));
            assert(decreases_to!(parent => parent.children));
            assert(decreases_to!(parent.children => parent.children@));
            assert(decreases_to!(parent.children@ => parent.children@[i]));
        }
        let done = regroup(node);
        out.push(done);
        proof {
            assert forall|j: int| 0 <= j < k + 1 implies regrouped(#[trigger] out@[j], all[j]) by {
                if j < k {
                    assert(out@[j] == before[j]);
                }
            }
        }
        k = k + 1;
    }
    out
}

/// The tree with the nodes of one label gathered in a group, below every
/// heap node.
fn regroup(tree: UiTreeNode) -> (r: UiTreeNode)
    requires
        plain(tree),
    ensures
        regrouped(r, tree),
    decreases tree, 1nat,
{
    let ghost old_tree = tree;
    let UiTreeNode { id, label, retained_size, children } = tree;
    let ghost cs = children@;
    let mid = match id {
        UiTreeId::Heap(_) => group_children(children),
        UiTreeId::Group(_) => children,
    };
    let ghost mids = mid@;
    proof {
        assert(middle(mids, old_tree));
    }
    let n = mid.len();
    let mut rest = turned(mid);
    let mut out: Vec<UiTreeNode> = Vec::new();
    let mut k: usize = 0;
    while k < n
        invariant
            old_tree == tree,
            plain(old_tree),
            cs == old_tree.children@,
            middle(mids, old_tree),
            n == mids.len(),
            k <= n,
            rest@.len() == n - k,
            forall|j: int| 0 <= j < rest@.len() ==> #[trigger] rest@[j] == mids[n - 1 - j],
            out@.len() == k,
            forall|j: int| 0 <= j < k ==> regrouped(#[trigger] out@[j], mids[j]),
        decreases n - k,
    {
        let node = rest.pop().unwrap();
        let ghost before = out@;
        proof {
            assert(node == mids[k as int]);
        }
        let done = match node.id {
            UiTreeId::Heap(_) => {
                proof {
                    lemma_heap_part(mids, old_tree, k as int);
                }
                let mut one: Vec<UiTreeNode> = Vec::new();
                one.push(node);
                let mut made = regroup_all(one, Ghost(old_tree));
                made.pop().unwrap()
            },
            UiTreeId::Group(_) => {
                proof {
                    lemma_group_part(mids, old_tree, k as int);
                }
                let UiTreeNode { id: group_id, label: group_label, retained_size: group_size, children: members } = node;
                let made = regroup_all(members, Ghost(old_tree));
                let group = UiTreeNode {
                    id: group_id,
                    label: group_label,
                    retained_size: group_size,
                    children: made,
                };
                proof {
                    assert(middle(mids[k as int].children@, mids[k as int]));
                }
                group
            },
        };
        out.push(done);
        proof {
            assert forall|j: int| 0 <= j < k + 1 implies regrouped(#[trigger] out@[j], mids[j]) by {
                if j < k {
                    assert(out@[j] == before[j]);
                }
            }
        }
        k = k + 1;
    }
    UiTreeNode { id, label, retained_size, children: out }
}

/// A heap node that stands below a node after the gathering is a child of
/// that node.
proof fn lemma_heap_part(mids: Seq<UiTreeNode>, old: UiTreeNode, k: int)
    requires
        plain(old),
        middle(mids, old),
        0 <= k < mids.len(),
        mids[k].id is Heap,
    ensures
        are_children(seq![mids[k]], old),
{
    let cs = old.children@;
    if old.id is Heap && has_twins(cs) {
        assert(is_part(mids[k], cs));
        let r = choose|r: int| #[trigger] is_first(cs, r) && stands_for(mids[k], cs, r);
        assert(cs[r] == seq![mids[k]][0]);
    } else {
        assert(cs[k] == seq![mids[k]][0]);
    }
}

/// Below a group that stands below a node after the gathering stand
/// children of that node.
proof fn lemma_group_part(mids: Seq<UiTreeNode>, old: UiTreeNode, k: int)
    requires
        plain(old),
        middle(mids, old),
        0 <= k < mids.len(),
        mids[k].id is Group,
    ensures
        are_children(mids[k].children@, old),
{
    let cs = old.children@;
    if old.id is Heap && has_twins(cs) {
        assert(is_part(mids[k], cs));
        let r = choose|r: int| #[trigger] is_first(cs, r) && stands_for(mids[k], cs, r);
        let members = alike(cs, cs[r].label@, cs.len() as int);
        assert(cs[r].id is Heap);
        assert(mids[k].children@ == members);
        assert forall|j: int| 0 <= j < members.len() implies exists|i: int|
            0 <= i < cs.len() && #[trigger] cs[i] == #[trigger] members[j] by {
            lemma_alike_from(cs, cs[r].label@, cs.len() as int, j);
        }
    } else {
        assert(cs[k].id is Heap);
    }
}

/// The tree view of a node of the dominator tree has heap nodes only, and
/// below each of its nodes no node twice: so the nodes of one label can be
/// gathered in it.
pub proof fn lemma_built_is_plain(
    ui: UiTreeNode,
    tree: &DominatorTree,
    g: &V8HeapGraph,
    n: NodeId,
    fuel: nat,
)
    requires
        mirrors(ui, tree, g, n, fuel),
    ensures
        plain(ui),
    decreases fuel,
{
    let cs = ui.children@;
    if fuel > 0 {
        assert forall|i: int| 0 <= i < cs.len() implies (#[trigger] cs[i]).id is Heap && plain(
            cs[i],
        ) by {
            assert(shows_child(cs[i], tree, g, n, fuel));
            let c = choose|c: NodeId| #[trigger]
                is_kept(tree, g, n, c) && mirrors(cs[i], tree, g, c, (fuel - 1) as nat);
            lemma_built_is_plain(cs[i], tree, g, c, (fuel - 1) as nat);
        }
        assert forall|i: int, j: int| 0 <= i < j < cs.len() implies (#[trigger] cs[i]).id != (
        #[trigger] cs[j]).id by {
            assert(shows_child(cs[i], tree, g, n, fuel));
            assert(shows_child(cs[j], tree, g, n, fuel));
            let a = choose|c: NodeId| #[trigger]
                is_kept(tree, g, n, c) && mirrors(cs[i], tree, g, c, (fuel - 1) as nat);
            let b = choose|c: NodeId| #[trigger]
                is_kept(tree, g, n, c) && mirrors(cs[j], tree, g, c, (fuel - 1) as nat);
            assert(key_lt(cs[i].spec_key(), cs[j].spec_key()));
        }
    }
}

/// Find and insert groups into this tree
///
/// We group nodes if they occur at the same level in the dominator tree and have the same minimal rendering (label)
pub fn find_groups_in_ui_tree(tree: UiTreeNode) -> (r: UiTreeNode)
    requires
        plain(tree),
    ensures
        regrouped(r, tree),
{
    regroup(tree)
}

/// Whether `ui` shows node `n` and all that the dominator tree has below
/// it.
pub open spec fn shows_node(ui: UiTreeNode, tree: &DominatorTree, g: &V8HeapGraph, n: NodeId) -> bool {
    mirrors(ui, tree, g, n, tree.spec_len() as nat)
}

/// The tree that the explorer shows: the tree view of a node of the
/// dominator tree, with the nodes of one label gathered in a group below
/// every heap node.
pub fn build_explorer_tree(node_id: NodeId, tree: &DominatorTree, graph: &V8HeapGraph) -> (r:
    UiTreeNode)
    requires
        graph.wf(),
        tree.is_tree_of(graph.spec_self_sizes(), tree.spec_idom()),
        node_id < graph.spec_node_count(),
    ensures
        exists|ui: UiTreeNode| #[trigger] shows_node(ui, tree, graph, node_id) && regrouped(r, ui),
{
    let ui = build_ui_tree(node_id, tree, graph);
    proof {
        lemma_built_is_plain(ui, tree, graph, node_id, tree.spec_len() as nat);
        assert(shows_node(ui, tree, graph, node_id));
    }
    find_groups_in_ui_tree(ui)
}

} // verus!
