use vstd::prelude::*;
use crate::report::explorer::{
    child_rows, flat_rows, nearest_above, Shown, UiTreeId, UiTreeNode,
};

verus! {

/// The ids of a node and of all that stands below it.
pub open spec fn ids_of(node: UiTreeNode) -> Set<UiTreeId>
    decreases node, 0nat,
{
    child_ids(node.children@, node.children@.len()).insert(node.id)
}

/// The ids of the first `upto` of the children of a node and of all that
/// stands below them.
pub open spec fn child_ids(children: Seq<UiTreeNode>, upto: nat) -> Set<UiTreeId>
    decreases children, upto,
{
    if upto == 0 || upto > children.len() {
        Set::empty()
    } else {
        child_ids(children, (upto - 1) as nat).union(ids_of(children[upto - 1]))
    }
}

/// Whether no id stands twice in the tree.
pub open spec fn is_distinct(node: UiTreeNode) -> bool
    decreases node, 0nat,
{
    !child_ids(node.children@, node.children@.len()).contains(node.id) && are_distinct(
        node.children@,
        node.children@.len(),
    )
}

/// Whether no id stands twice in or below the first `upto` of the children
/// of a node.
pub open spec fn are_distinct(children: Seq<UiTreeNode>, upto: nat) -> bool
    decreases children, upto,
{
    if upto == 0 || upto > children.len() {
        true
    } else {
        &&& are_distinct(children, (upto - 1) as nat)
        &&& is_distinct(children[upto - 1])
        &&& child_ids(children, (upto - 1) as nat).disjoint(ids_of(children[upto - 1]))
    }
}

/// Whether two sets of open nodes differ in `x` at most.
pub open spec fn agree_but(a: Set<UiTreeId>, b: Set<UiTreeId>, x: UiTreeId) -> bool {
    forall|id: UiTreeId| id != x ==> (a.contains(id) <==> b.contains(id))
}

/// The rows of a tree do not change with a node that the tree does not
/// have.
pub proof fn lemma_rows_unaffected(
    node: UiTreeNode,
    a: Set<UiTreeId>,
    b: Set<UiTreeId>,
    x: UiTreeId,
    depth: nat,
)
    requires
        agree_but(a, b, x),
        !ids_of(node).contains(x),
    ensures
        flat_rows(node, a, depth) == flat_rows(node, b, depth),
    decreases node, 0nat,
{
    assert(node.id != x);
    lemma_child_rows_unaffected(node.children@, a, b, x, depth + 1, node.children@.len());
}

/// The rows of the children of a node do not change with a node that is
/// none of them and stands below none of them.
pub proof fn lemma_child_rows_unaffected(
    children: Seq<UiTreeNode>,
    a: Set<UiTreeId>,
    b: Set<UiTreeId>,
    x: UiTreeId,
    depth: nat,
    upto: nat,
)
    requires
        agree_but(a, b, x),
        !child_ids(children, upto).contains(x),
    ensures
        child_rows(children, a, depth, upto) == child_rows(children, b, depth, upto),
    decreases children, upto,
{
    if upto > 0 && upto <= children.len() {
        lemma_child_rows_unaffected(children, a, b, x, depth, (upto - 1) as nat);
        lemma_rows_unaffected(children[upto - 1], a, b, x, depth);
    }
}

/// Every row of a tree shows a node of the tree.
pub proof fn lemma_row_ids(node: UiTreeNode, a: Set<UiTreeId>, depth: nat, k: int)
    requires
        0 <= k < flat_rows(node, a, depth).len(),
    ensures
        ids_of(node).contains(flat_rows(node, a, depth)[k].0.id),
    decreases node, 0nat,
{
    if k > 0 {
        lemma_child_row_ids(node.children@, a, depth + 1, node.children@.len(), k - 1);
    }
}

/// Every row of the children of a node shows one of them or a node below
/// one of them.
pub proof fn lemma_child_row_ids(
    children: Seq<UiTreeNode>,
    a: Set<UiTreeId>,
    depth: nat,
    upto: nat,
    k: int,
)
    requires
        0 <= k < child_rows(children, a, depth, upto).len(),
    ensures
        child_ids(children, upto).contains(child_rows(children, a, depth, upto)[k].0.id),
    decreases children, upto,
{
    if upto > 0 && upto <= children.len() {
        let before = child_rows(children, a, depth, (upto - 1) as nat);
        if k < before.len() {
            lemma_child_row_ids(children, a, depth, (upto - 1) as nat, k);
        } else {
            lemma_row_ids(children[upto - 1], a, depth, k - before.len());
        }
    }
}

/// Where no id stands twice in a tree, the rows up to the row of a node
/// stay as they are when that node is opened or shut.
pub proof fn lemma_rows_before_stay(
    node: UiTreeNode,
    a: Set<UiTreeId>,
    b: Set<UiTreeId>,
    x: UiTreeId,
    depth: nat,
    k: int,
)
    requires
        is_distinct(node),
        agree_but(a, b, x),
        0 <= k < flat_rows(node, a, depth).len(),
        flat_rows(node, a, depth)[k].0.id == x,
    ensures
        k < flat_rows(node, b, depth).len(),
        forall|j: int|
            0 <= j <= k ==> #[trigger] flat_rows(node, b, depth)[j] == flat_rows(node, a, depth)[j],
    decreases node, 0nat,
{
    if k > 0 {
        let n = node.children@.len();
        lemma_child_row_ids(node.children@, a, depth + 1, n, k - 1);
        assert(node.id != x);
        lemma_child_rows_before_stay(node.children@, a, b, x, depth + 1, n, k - 1);
        let rows_a = child_rows(node.children@, a, depth + 1, n);
        let rows_b = child_rows(node.children@, b, depth + 1, n);
        assert forall|j: int| 0 <= j <= k implies #[trigger] flat_rows(node, b, depth)[j]
            == flat_rows(node, a, depth)[j] by {
            if j > 0 {
                assert(rows_b[j - 1] == rows_a[j - 1]);
            }
        }
    }
}

/// Where no id stands twice in or below the children of a node, their rows
/// up to the row of a node stay as they are when that node is opened or
/// shut.
pub proof fn lemma_child_rows_before_stay(
    children: Seq<UiTreeNode>,
    a: Set<UiTreeId>,
    b: Set<UiTreeId>,
    x: UiTreeId,
    depth: nat,
    upto: nat,
    k: int,
)
    requires
        are_distinct(children, upto),
        agree_but(a, b, x),
        0 <= k < child_rows(children, a, depth, upto).len(),
        child_rows(children, a, depth, upto)[k].0.id == x,
    ensures
        k < child_rows(children, b, depth, upto).len(),
        forall|j: int|
            0 <= j <= k ==> #[trigger] child_rows(children, b, depth, upto)[j] == child_rows(
                children,
                a,
                depth,
                upto,
            )[j],
    decreases children, upto,
{
    if upto > 0 && upto <= children.len() {
        let before_a = child_rows(children, a, depth, (upto - 1) as nat);
        let before_b = child_rows(children, b, depth, (upto - 1) as nat);
        let last = children[upto - 1];
        if k < before_a.len() {
            lemma_child_rows_before_stay(children, a, b, x, depth, (upto - 1) as nat, k);
            assert forall|j: int| 0 <= j <= k implies #[trigger] child_rows(
                children,
                b,
                depth,
                upto,
            )[j] == child_rows(children, a, depth, upto)[j] by {
                assert(before_b[j] == before_a[j]);
            }
        } else {
            let at = k - before_a.len();
            lemma_row_ids(last, a, depth, at);
            lemma_child_rows_unaffected(children, a, b, x, depth, (upto - 1) as nat);
            lemma_rows_before_stay(last, a, b, x, depth, at);
            assert forall|j: int| 0 <= j <= k implies #[trigger] child_rows(
                children,
                b,
                depth,
                upto,
            )[j] == child_rows(children, a, depth, upto)[j] by {
                if j >= before_a.len() {
                    assert(flat_rows(last, b, depth)[j - before_a.len()] == flat_rows(
                        last,
                        a,
                        depth,
                    )[j - before_a.len()]);
                }
            }
        }
    }
}

/// In a tree in which no id stands twice the selection stays on its node
/// when the node is opened or shut, and the rows before it stay as they
/// are.
pub proof fn lemma_selection_stays(s: Shown)
    requires
        s.wf(),
        is_distinct(s.root),
    ensures
        s.toggled().selected == s.selected,
        s.opened().selected == s.selected,
        s.toggled().wf() && s.opened().wf(),
        forall|j: int| 0 <= j <= s.selected ==> #[trigger] s.toggled().rows[j] == s.rows[j],
        forall|j: int| 0 <= j <= s.selected ==> #[trigger] s.opened().rows[j] == s.rows[j],
{
    let x = s.selected_node().id;
    let with = s.expanded.insert(x);
    let without = s.expanded.remove(x);
    lemma_rows_before_stay(s.root, s.expanded, with, x, 0, s.selected);
    lemma_rows_before_stay(s.root, s.expanded, without, x, 0, s.selected);
}

/// The nearest row above that stands less deep is a row above.
pub proof fn lemma_nearest_above(rows: Seq<(UiTreeNode, nat)>, k: int, depth: nat)
    requires
        0 <= k <= rows.len(),
    ensures
        nearest_above(rows, k, depth) matches Some(i) ==> 0 <= i < k && rows[i].1 < depth,
    decreases k,
{
    if k > 0 && rows[k - 1].1 >= depth {
        lemma_nearest_above(rows, k - 1, depth);
    }
}

/// In a tree in which no id stands twice, shutting leaves the selection on
/// its node where the node stood open, and else moves it to the row of the
/// parent where that stood open; the rows up to the selected row stay as
/// they are.
pub proof fn lemma_shut_selects(s: Shown)
    requires
        s.wf(),
        is_distinct(s.root),
    ensures
        s.shut().wf(),
        s.shut().selected <= s.selected,
        forall|j: int| 0 <= j <= s.shut().selected ==> #[trigger] s.shut().rows[j] == s.rows[j],
        s.expanded.contains(s.selected_node().id) ==> s.shut().selected == s.selected,
        !s.expanded.contains(s.selected_node().id) ==> (match nearest_above(
            s.rows,
            s.selected,
            s.rows[s.selected].1,
        ) {
            Some(i) => s.shut().selected == if s.expanded.contains(s.rows[i].0.id) {
                i
            } else {
                s.selected
            },
            None => s.shut() == s,
        }),
{
    let x = s.selected_node().id;
    if s.expanded.contains(x) {
        lemma_rows_before_stay(s.root, s.expanded, s.expanded.remove(x), x, 0, s.selected);
    } else {
        lemma_nearest_above(s.rows, s.selected, s.rows[s.selected].1);
        match nearest_above(s.rows, s.selected, s.rows[s.selected].1) {
            Some(i) => {
                let parent = s.rows[i].0.id;
                if s.expanded.contains(parent) {
                    lemma_rows_before_stay(
                        s.root,
                        s.expanded,
                        s.expanded.remove(parent),
                        parent,
                        0,
                        i,
                    );
                }
            },
            None => {},
        }
    }
}

} // verus!
