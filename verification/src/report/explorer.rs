use vstd::prelude::*;
use std::collections::HashSet;
use crate::analysis::all_paths::RootPaths;
use crate::analysis::dominator_tree::DominatorTree;
use crate::graph::v8_heap_graph::V8HeapGraph;
use crate::report::{
    detailed_node_repr, detailed_repr, format_retention_paths, is_passed_over, minimal_node_repr,
    minimal_repr, path_steps, REPR_DEPTH,
};
use crate::sorting::{is_sorted, keys_differ, sort_by_key, Keyed};
use crate::types::NodeId;
use crate::utils::{capped, format_bytes, format_bytes_spec, push_str_chars, string_from_chars};

verus! {

broadcast use vstd::std_specs::hash::group_hash_axioms;

/// What a row of the tree view stands for.
#[derive(PartialEq, Eq, Structural, Hash, Clone, Copy, Debug)]
pub enum UiTreeId {
    /// This is an artificial group node
    Group(usize),
    /// This is a heap node
    Heap(NodeId),
}

impl Default for UiTreeId {
    fn default() -> (r: Self)
        ensures
            r == UiTreeId::Group(usize::MAX),
    {
        UiTreeId::Group(usize::MAX)
    }
}

/// A node of the tree view: a heap node or a group of heap nodes, with what
/// it retains and what stands below it.
#[derive(Debug)]
pub struct UiTreeNode {
    pub id: UiTreeId,
    pub label: String,
    pub retained_size: usize,
    pub children: Vec<UiTreeNode>,
}

/// A row of the tree view: a node and how deep it stands.
pub struct FlatUiTreeNode<'a> {
    pub node: &'a UiTreeNode,
    pub depth: usize,
}

impl<'a> FlatUiTreeNode<'a> {
    /// The node and its depth.
    pub open spec fn row(&self) -> (UiTreeNode, nat) {
        (*self.node, self.depth as nat)
    }
}

/// The rows of a list.
pub open spec fn rows_of(list: Seq<FlatUiTreeNode<'_>>) -> Seq<(UiTreeNode, nat)> {
    Seq::new(list.len(), |i: int| list[i].row())
}

/// The nodes that stand open in the tree view.
pub struct ExpandedSet {
    heap: HashSet<NodeId>,
    groups: HashSet<usize>,
}

impl ExpandedSet {
    /// The ids in the set.
    pub closed spec fn view(&self) -> Set<UiTreeId> {
        Set::new(
            |id: UiTreeId|
                match id {
                    UiTreeId::Heap(n) => self.heap@.contains(n),
                    UiTreeId::Group(g) => self.groups@.contains(g),
                },
        )
    }

    /// The set without an id.
    pub fn new() -> (r: Self)
        ensures
            r@ == Set::<UiTreeId>::empty(),
    {
        let r = ExpandedSet { heap: HashSet::new(), groups: HashSet::new() };
        proof {
            assert(r@ =~= Set::<UiTreeId>::empty());
        }
        r
    }

    /// Whether the set holds `id`.
    pub fn contains(&self, id: &UiTreeId) -> (r: bool)
        ensures
            r == self@.contains(*id),
    {
        match id {
            UiTreeId::Heap(n) => self.heap.contains(n),
            UiTreeId::Group(g) => self.groups.contains(g),
        }
    }

    /// Adds `id` to the set.
    pub fn insert(&mut self, id: UiTreeId)
        ensures
            final(self)@ == old(self)@.insert(id),
    {
        match id {
            UiTreeId::Heap(n) => {
                self.heap.insert(n);
            },
            UiTreeId::Group(g) => {
                self.groups.insert(g);
            },
        }
        proof {
            assert(self@ =~= old(self)@.insert(id));
        }
    }

    /// Takes `id` out of the set.
    pub fn remove(&mut self, id: &UiTreeId)
        ensures
            final(self)@ == old(self)@.remove(*id),
    {
        match id {
            UiTreeId::Heap(n) => {
                self.heap.remove(n);
            },
            UiTreeId::Group(g) => {
                self.groups.remove(g);
            },
        }
        proof {
            assert(self@ =~= old(self)@.remove(*id));
        }
    }
}

/// The rows that show a node: the node itself and, where it stands open,
/// the rows of its children one level deeper, in their order.
pub open spec fn flat_rows(node: UiTreeNode, expanded: Set<UiTreeId>, depth: nat) -> Seq<
    (UiTreeNode, nat),
>
    decreases node, 0nat,
{
    seq![(node, depth)] + if expanded.contains(node.id) && depth < usize::MAX {
        child_rows(node.children@, expanded, depth + 1, node.children@.len())
    } else {
        Seq::empty()
    }
}

/// The rows that show the first `upto` of the children of a node.
pub open spec fn child_rows(
    children: Seq<UiTreeNode>,
    expanded: Set<UiTreeId>,
    depth: nat,
    upto: nat,
) -> Seq<(UiTreeNode, nat)>
    decreases children, upto,
{
    if upto == 0 || upto > children.len() {
        Seq::empty()
    } else {
        child_rows(children, expanded, depth, (upto - 1) as nat) + flat_rows(
            children[upto - 1],
            expanded,
            depth,
        )
    }
}

/// Appends the rows that show a node.
fn flatten_recursive<'a>(
    node: &'a UiTreeNode,
    expanded: &ExpandedSet,
    result: &mut Vec<FlatUiTreeNode<'a>>,
    depth: usize,
)
    ensures
        rows_of(final(result)@) == rows_of(old(result)@) + flat_rows(
            *node,
            expanded@,
            depth as nat,
        ),
    decreases node,
{
    let ghost before = rows_of(result@);
    result.push(FlatUiTreeNode { node, depth });
    proof {
        assert(rows_of(result@) =~= before + seq![(*node, depth as nat)]);
    }
    if expanded.contains(&node.id) && depth < usize::MAX {
        let ghost head = rows_of(result@);
        let mut i: usize = 0;
        proof {
            assert(head + child_rows(node.children@, expanded@, (depth + 1) as nat, 0) =~= head);
        }
        while i < node.children.len()
            invariant
                i <= node.children@.len(),
                depth < usize::MAX,
                rows_of(result@) == head + child_rows(
                    node.children@,
                    expanded@,
                    (depth + 1) as nat,
                    i as nat,
                ),
            decreases node.children@.len() - i,
        {
            let ghost at = rows_of(result@);
            flatten_recursive(&node.children[i], expanded, result, depth + 1);
            proof {
                assert(rows_of(result@) =~= head + child_rows(
                    node.children@,
                    expanded@,
                    (depth + 1) as nat,
                    (i + 1) as nat,
                ));
            }
            i = i + 1;
        }
        proof {
            assert(rows_of(result@) =~= before + flat_rows(*node, expanded@, depth as nat));
        }
    } else {
        proof {
            assert(rows_of(result@) =~= before + flat_rows(*node, expanded@, depth as nat));
        }
    }
}

/// Flattens the tree out to a list of renderable records, based on the expanded nodes.
pub fn flatten_tree<'a>(node: &'a UiTreeNode, expanded: &ExpandedSet) -> (r: Vec<FlatUiTreeNode<'a>>)
    ensures
        rows_of(r@) == flat_rows(*node, expanded@, 0),
{
    let mut result: Vec<FlatUiTreeNode<'a>> = Vec::new();
    proof {
        assert(rows_of(result@) =~= Seq::empty());
    }
    flatten_recursive(node, expanded, &mut result, 0);
    proof {
        assert(rows_of(result@) =~= flat_rows(*node, expanded@, 0));
    }
    result
}

/// Which pane takes the keys.
#[derive(PartialEq, Eq, Structural, Hash, Clone, Copy, Debug)]
pub enum Focus {
    Tree,
    Inspector,
}

/// A key that was pressed.
#[derive(PartialEq, Eq, Structural, Hash, Clone, Copy, Debug)]
pub enum Key {
    Char(char),
    Down,
    Up,
    PageDown,
    PageUp,
    Right,
    Left,
    Enter,
    Tab,
    BackTab,
    Other,
}

/// What the shell does after a key.
#[derive(PartialEq, Eq, Structural, Hash, Clone, Copy, Debug)]
pub enum AppAction {
    Quit,
    Continue,
}

/// What the explorer shows: the tree and which of its nodes stand open, the
/// rows that follow from both, the selected row, how far both panes are
/// scrolled, and which pane takes the keys.
pub struct Shown {
    pub selected: int,
    pub tree_scroll_offset: int,
    pub inspector_scroll_offset: int,
    pub height: int,
    pub expanded: Set<UiTreeId>,
    pub rows: Seq<(UiTreeNode, nat)>,
    pub root: UiTreeNode,
    pub info_open: bool,
    pub focus: Focus,
}

/// The nearest row above row `k` that stands less deep than `depth`: the
/// row of the parent, where `depth` is that of row `k`.
pub open spec fn nearest_above(rows: Seq<(UiTreeNode, nat)>, k: int, depth: nat) -> Option<int>
    decreases k,
{
    if k <= 0 {
        None
    } else if rows[k - 1].1 < depth {
        Some(k - 1)
    } else {
        nearest_above(rows, k - 1, depth)
    }
}

/// The smaller of two numbers.
pub open spec fn least(a: int, b: int) -> int {
    if a <= b {
        a
    } else {
        b
    }
}

impl Shown {
    /// The rows follow from the tree and the open nodes, and one of them is
    /// selected.
    pub open spec fn wf(self) -> bool {
        &&& self.rows == flat_rows(self.root, self.expanded, 0)
        &&& 0 <= self.selected < self.rows.len()
        &&& 0 <= self.tree_scroll_offset <= self.selected
        &&& 0 <= self.height
        &&& 0 <= self.inspector_scroll_offset <= u16::MAX
    }

    /// Row `k` selected: the tree pane scrolls as little as brings the row
    /// into its `height` rows, and the inspector starts at its top where
    /// the selection changed.
    pub open spec fn select(self, k: int) -> Shown {
        let down = if k >= self.tree_scroll_offset + self.height {
            k - self.height + 1
        } else {
            self.tree_scroll_offset
        };
        Shown {
            selected: k,
            tree_scroll_offset: if k < down {
                k
            } else {
                down
            },
            inspector_scroll_offset: if k != self.selected {
                0
            } else {
                self.inspector_scroll_offset
            },
            ..self
        }
    }

    /// The selection moved by `delta` rows, as far as there are rows.
    pub open spec fn moved(self, delta: int) -> Shown {
        if delta > 0 {
            self.select(least(self.selected + delta, self.rows.len() - 1))
        } else if self.selected + delta < 0 {
            self.select(0)
        } else {
            self.select(self.selected + delta)
        }
    }

    /// Other nodes standing open: the rows follow, and a selection that the
    /// rows no longer have moves to the last row.
    pub open spec fn relisted(self, expanded: Set<UiTreeId>) -> Shown {
        let rows = flat_rows(self.root, expanded, 0);
        let next = Shown { expanded, rows, ..self };
        if self.selected >= rows.len() {
            next.select(rows.len() - 1)
        } else {
            next
        }
    }

    /// The selected node.
    pub open spec fn selected_node(self) -> UiTreeNode {
        self.rows[self.selected].0
    }

    /// The selected node opened where it was shut and shut where it was
    /// open, if it has children.
    pub open spec fn toggled(self) -> Shown {
        let node = self.selected_node();
        if node.children@.len() > 0 {
            if self.expanded.contains(node.id) {
                self.relisted(self.expanded.remove(node.id))
            } else {
                self.relisted(self.expanded.insert(node.id))
            }
        } else {
            self
        }
    }

    /// The selected node opened, if it has children and was shut.
    pub open spec fn opened(self) -> Shown {
        let node = self.selected_node();
        if node.children@.len() > 0 && !self.expanded.contains(node.id) {
            self.relisted(self.expanded.insert(node.id))
        } else {
            self
        }
    }

    /// The selected node shut where it stood open; else its parent shut and
    /// selected.
    pub open spec fn shut(self) -> Shown {
        let node = self.selected_node();
        let depth = self.rows[self.selected].1;
        if self.expanded.contains(node.id) {
            self.relisted(self.expanded.remove(node.id))
        } else {
            match nearest_above(self.rows, self.selected, depth) {
                Some(i) => {
                    let parent = self.rows[i].0.id;
                    if self.expanded.contains(parent) {
                        let next = self.relisted(self.expanded.remove(parent));
                        next.select(least(i, next.rows.len() - 1))
                    } else {
                        self
                    }
                },
                None => self,
            }
        }
    }

    /// The inspector scrolled by `delta` lines, within what its counter
    /// holds.
    pub open spec fn scrolled(self, delta: int) -> Shown {
        let to = self.inspector_scroll_offset + delta;
        Shown {
            inspector_scroll_offset: if to < 0 {
                0
            } else if to > u16::MAX {
                u16::MAX as int
            } else {
                to
            },
            ..self
        }
    }

    /// A page of the tree pane, as far as a step can hold it.
    pub open spec fn page(self) -> int {
        least(self.height, isize::MAX as int)
    }

    /// A page of the inspector, as far as its counter can hold it.
    pub open spec fn inspector_page(self) -> int {
        least(self.height, u16::MAX as int)
    }

    /// What a key does in the tree pane.
    pub open spec fn tree_key(self, key: Key) -> Shown {
        match key {
            Key::Char('g') => self.moved(isize::MIN as int),
            Key::Down | Key::Char('j') => self.moved(1),
            Key::PageDown | Key::Char('J') => self.moved(self.page()),
            Key::Up | Key::Char('k') => self.moved(-1),
            Key::PageUp | Key::Char('K') => self.moved(-self.page()),
            Key::Right | Key::Char('l') => self.opened(),
            Key::Enter | Key::Char(' ') => self.toggled(),
            Key::Left | Key::Char('h') => self.shut(),
            _ => self,
        }
    }

    /// What a key does in the inspector.
    pub open spec fn inspector_key(self, key: Key) -> Shown {
        match key {
            Key::Char('g') => Shown { inspector_scroll_offset: 0, ..self },
            Key::Down | Key::Char('j') => self.scrolled(1),
            Key::PageDown | Key::Char('J') => self.scrolled(self.inspector_page()),
            Key::Up | Key::Char('k') => self.scrolled(-1),
            Key::PageUp | Key::Char('K') => self.scrolled(-self.inspector_page()),
            _ => self,
        }
    }

    /// What a key does whichever pane has the focus: `i` opens and shuts
    /// the inspector, which gives the focus back when it is shut; the
    /// tabulator moves the focus to the inspector where it is open, and
    /// back.
    pub open spec fn shell_key(self, key: Key) -> Shown {
        match key {
            Key::Char('i') => Shown {
                info_open: !self.info_open,
                focus: if self.info_open && self.focus == Focus::Inspector {
                    Focus::Tree
                } else {
                    self.focus
                },
                ..self
            },
            Key::Tab | Key::BackTab => Shown {
                focus: if self.focus == Focus::Tree && self.info_open {
                    Focus::Inspector
                } else if self.focus == Focus::Inspector {
                    Focus::Tree
                } else {
                    self.focus
                },
                ..self
            },
            _ => self,
        }
    }

    /// What a key does: first in the pane that has the focus, then in the
    /// shell.
    pub open spec fn after_key(self, key: Key) -> Shown {
        let in_pane = match self.focus {
            Focus::Tree => self.tree_key(key),
            Focus::Inspector => self.inspector_key(key),
        };
        in_pane.shell_key(key)
    }
}

/// The state of the explorer.
pub struct ExplorerState<'a> {
    pub selected: usize,
    pub tree_scroll_offset: usize,
    pub inspector_scroll_offset: u16,
    pub height: usize,
    pub expanded: ExpandedSet,
    pub flat_list: Vec<FlatUiTreeNode<'a>>,
    pub root: &'a UiTreeNode,
    pub info_open: bool,
    pub focus: Focus,
}

impl<'a> ExplorerState<'a> {
    /// What the state shows.
    pub open spec fn view(&self) -> Shown {
        Shown {
            selected: self.selected as int,
            tree_scroll_offset: self.tree_scroll_offset as int,
            inspector_scroll_offset: self.inspector_scroll_offset as int,
            height: self.height as int,
            expanded: self.expanded@,
            rows: rows_of(self.flat_list@),
            root: *self.root,
            info_open: self.info_open,
            focus: self.focus,
        }
    }

    /// The rows follow from the tree and the open nodes, and one of them is
    /// selected.
    pub open spec fn wf(&self) -> bool {
        self@.wf()
    }

    /// The explorer as it starts: the first heap node open, the root
    /// selected, nothing scrolled, the inspector shut.
    pub fn new(root: &'a UiTreeNode) -> (r: Self)
        ensures
            r.wf(),
            r@ == (Shown {
                selected: 0,
                tree_scroll_offset: 0,
                inspector_scroll_offset: 0,
                height: 0,
                expanded: set![UiTreeId::Heap(0)],
                rows: flat_rows(*root, set![UiTreeId::Heap(0)], 0),
                root: *root,
                info_open: false,
                focus: Focus::Tree,
            }),
    {
        let mut expanded = ExpandedSet::new();
        expanded.insert(UiTreeId::Heap(0));  // Root starts expanded
        proof {
            assert(expanded@ =~= set![UiTreeId::Heap(0)]);
        }
        let flat_list = flatten_tree(root, &expanded);
        ExplorerState {
            selected: 0,
            tree_scroll_offset: 0,
            inspector_scroll_offset: 0,
            height: 0,
            expanded,
            flat_list,
            root,
            info_open: false,
            focus: Focus::Tree,
        }
    }

    /// Selects row `selected`, whatever number it is: the tree pane scrolls
    /// as little as brings the row into it, and the inspector starts at its
    /// top where the selection changed. Where the rows are those of the
    /// tree and the number is that of a row, the state is as it should be
    /// afterwards.
    pub fn set_selection(&mut self, selected: usize)
        ensures
            final(self)@ == old(self)@.select(selected as int),
            old(self)@.rows == flat_rows(*old(self).root, old(self).expanded@, 0) && selected
                < old(self).flat_list@.len() ==> final(self).wf(),
    {
        if selected != self.selected {
            self.inspector_scroll_offset = 0;
        }
        self.selected = selected;
        if self.selected >= self.tree_scroll_offset && self.selected - self.tree_scroll_offset
            >= self.height {
            if self.height == 0 {
                self.tree_scroll_offset = self.selected;
            } else {
                self.tree_scroll_offset = self.selected - self.height + 1;
            }
        }
        if self.selected < self.tree_scroll_offset {
            self.tree_scroll_offset = self.selected;
        }
    }

    /// The selected node.
    pub fn selected_node(&self) -> (r: &'a UiTreeNode)
        requires
            self.wf(),
        ensures
            *r == self@.selected_node(),
    {
        self.flat_list[self.selected].node
    }

    /// Moves the selection by `delta` rows, as far as there are rows.
    pub fn move_selection(&mut self, delta: isize)
        requires
            old(self).wf(),
        ensures
            final(self).wf(),
            final(self)@ == old(self)@.moved(delta as int),
    {
        let last = self.flat_list.len() - 1;
        if delta > 0 {
            let by = delta as usize;
            let to = if by > last - self.selected {
                last
            } else {
                self.selected + by
            };
            self.set_selection(to);
        } else {
            let by = if delta == isize::MIN {
                isize::MAX as usize + 1
            } else {
                (-delta) as usize
            };
            let to = if by > self.selected {
                0
            } else {
                self.selected - by
            };
            self.set_selection(to);
        }
    }

    /// Opens the selected node where it is shut and shuts it where it is
    /// open, if it has children.
    pub fn toggle_selected(&mut self)
        requires
            old(self).wf(),
        ensures
            final(self).wf(),
            final(self)@ == old(self)@.toggled(),
    {
        let node_id = self.selected_id();
        if !self.selected_node().children.is_empty() {
            if self.expanded.contains(&node_id) {
                self.expanded.remove(&node_id);
            } else {
                self.expanded.insert(node_id);
            }
            self.update_flat_list();
        }
    }

    /// Opens the selected node, if it has children and is shut.
    pub fn expand_selected(&mut self)
        requires
            old(self).wf(),
        ensures
            final(self).wf(),
            final(self)@ == old(self)@.opened(),
    {
        let node_id = self.selected_id();
        if !self.selected_node().children.is_empty() && !self.expanded.contains(&node_id) {
            self.expanded.insert(node_id);
            self.update_flat_list();
        }
    }

    /// Shuts the selected node where it stands open; else shuts its parent
    /// and selects it.
    pub fn collapse_selected(&mut self)
        requires
            old(self).wf(),
        ensures
            final(self).wf(),
            final(self)@ == old(self)@.shut(),
    {
        let node_id = self.selected_id();
        if self.expanded.contains(&node_id) {
            self.expanded.remove(&node_id);
            self.update_flat_list();
        } else {
            // Find parent and collapse it
            let current_depth = self.flat_list[self.selected].depth;
            let mut i = self.selected;
            while i > 0
                invariant
                    self.wf(),
                    *self == *old(self),
                    i <= self.selected,
                    node_id == self@.selected_node().id,
                    !self.expanded@.contains(node_id),
                    current_depth == self@.rows[self@.selected].1,
                    nearest_above(self@.rows, self@.selected, current_depth as nat)
                        == nearest_above(self@.rows, i as int, current_depth as nat),
                decreases i,
            {
                i = i - 1;
                if self.flat_list[i].depth < current_depth {
                    let parent_id = self.flat_list[i].node.id;
                    if self.expanded.contains(&parent_id) {
                        self.expanded.remove(&parent_id);
                        self.update_flat_list();
                        let last = self.flat_list.len() - 1;
                        let to = if i < last {
                            i
                        } else {
                            last
                        };
                        self.set_selection(to);
                    }
                    return ;
                }
            }
        }
    }

    /// The id of the selected node.
    pub fn selected_id(&self) -> (r: UiTreeId)
        requires
            self.wf(),
        ensures
            r == self@.selected_node().id,
    {
        self.selected_node().id
    }

    /// Makes the rows follow the open nodes again, and moves a selection
    /// that the rows no longer have to the last row.
    pub fn update_flat_list(&mut self)
        requires
            old(self).tree_scroll_offset <= old(self).selected,
        ensures
            final(self).wf(),
            final(self)@ == old(self)@.relisted(old(self).expanded@),
    {
        self.flat_list = flatten_tree(self.root, &self.expanded);
        if self.selected >= self.flat_list.len() {
            let last = self.flat_list.len() - 1;
            let ghost at = self@;
            proof {
                assert(at.rows == flat_rows(*self.root, self.expanded@, 0));
            }
            self.set_selection(last);
        }
    }

    /// Takes a key: first in the pane that has the focus, then in the
    /// shell, which ends on `q`.
    pub fn handle_key(&mut self, key: Key) -> (r: AppAction)
        requires
            old(self).wf(),
        ensures
            final(self).wf(),
            final(self)@ == old(self)@.after_key(key),
            r == if key == Key::Char('q') {
                AppAction::Quit
            } else {
                AppAction::Continue
            },
    {
        let page: isize = if self.height > isize::MAX as usize {
            isize::MAX
        } else {
            self.height as isize
        };
        let lines: u16 = if self.height > u16::MAX as usize {
            u16::MAX
        } else {
            self.height as u16
        };
        match self.focus {
            Focus::Tree => {
                match key {
                    Key::Char('g') => self.move_selection(isize::MIN),
                    Key::Down | Key::Char('j') => self.move_selection(1),
                    Key::PageDown | Key::Char('J') => self.move_selection(page),
                    Key::Up | Key::Char('k') => self.move_selection(-1),
                    Key::PageUp | Key::Char('K') => self.move_selection(-page),
                    Key::Right | Key::Char('l') => self.expand_selected(),
                    Key::Enter | Key::Char(' ') => self.toggle_selected(),
                    Key::Left | Key::Char('h') => self.collapse_selected(),
                    _ => {},
                }
            },
            Focus::Inspector => {
                match key {
                    Key::Char('g') => {
                        self.inspector_scroll_offset = 0;
                    },
                    Key::Down | Key::Char('j') => {
                        self.inspector_scroll_offset = self.inspector_scroll_offset.saturating_add(
                            1,
                        );
                    },
                    Key::PageDown | Key::Char('J') => {
                        self.inspector_scroll_offset = self.inspector_scroll_offset.saturating_add(
                            lines,
                        );
                    },
                    Key::Up | Key::Char('k') => {
                        self.inspector_scroll_offset = self.inspector_scroll_offset.saturating_sub(
                            1,
                        );
                    },
                    Key::PageUp | Key::Char('K') => {
                        self.inspector_scroll_offset = self.inspector_scroll_offset.saturating_sub(
                            lines,
                        );
                    },
                    _ => {},
                }
            },
        }
        match key {
            Key::Char('q') => {
                return AppAction::Quit;
            },
            Key::Char('i') => {
                self.info_open = !self.info_open;
                if !self.info_open && self.focus == Focus::Inspector {
                    self.focus = Focus::Tree;
                }
            },
            Key::Tab | Key::BackTab => {
                self.focus = match self.focus {
                    Focus::Tree => if self.info_open {
                        Focus::Inspector
                    } else {
                        Focus::Tree
                    },
                    Focus::Inspector => Focus::Tree,
                };
            },
            _ => {},
        }
        AppAction::Continue
    }
}

impl UiTreeId {
    /// The number by which ids are ordered among nodes that retain the
    /// same: heap nodes first.
    pub open spec fn spec_rank(self) -> (u64, u64) {
        match self {
            UiTreeId::Heap(n) => (0, n as u64),
            UiTreeId::Group(g) => (1, g as u64),
        }
    }

    /// The number by which ids are ordered among nodes that retain the
    /// same: heap nodes first.
    pub fn rank(self) -> (r: (u64, u64))
        ensures
            r == self.spec_rank(),
    {
        match self {
            UiTreeId::Heap(n) => (0, n as u64),
            UiTreeId::Group(g) => (1, g as u64),
        }
    }
}

impl Keyed for UiTreeNode {
    /// Nodes that retain more come first; among nodes that retain the same,
    /// heap nodes before groups, and then the lower number.
    open spec fn spec_key(&self) -> (u64, u64, u64) {
        (
            (u64::MAX - self.retained_size as u64) as u64,
            self.id.spec_rank().0,
            self.id.spec_rank().1,
        )
    }

    fn key(&self) -> (r: (u64, u64, u64)) {
        let rank = self.id.rank();
        (u64::MAX - self.retained_size as u64, rank.0, rank.1)
    }
}

/// Whether node `c` stands below node `n` in the tree view: it is a child
/// of `n` in the dominator tree, and of a kind that is shown.
pub open spec fn is_kept(tree: &DominatorTree, g: &V8HeapGraph, n: NodeId, c: NodeId) -> bool {
    tree.spec_children(n).contains(c) && !hidden_tag(g.spec_node_tag(c as int))
}

/// Whether nodes of the kind with this number are left out of the tree
/// view: hidden nodes, arrays, code, shapes, and strings made of others.
pub open spec fn hidden_tag(tag: NodeId) -> bool {
    tag == 0 || tag == 1 || tag == 4 || tag == 10 || tag == 11 || tag == 14
}

/// Whether `child` shows node `c`, a shown child of node `n`, `fuel` levels
/// deep.
pub open spec fn built_for(
    child: UiTreeNode,
    tree: &DominatorTree,
    g: &V8HeapGraph,
    n: NodeId,
    c: NodeId,
    fuel: nat,
) -> bool {
    is_kept(tree, g, n, c) && mirrors(child, tree, g, c, fuel)
}

/// Whether `child` shows one of the shown children of node `n`, one level
/// less deep than `fuel`.
pub open spec fn shows_child(
    child: UiTreeNode,
    tree: &DominatorTree,
    g: &V8HeapGraph,
    n: NodeId,
    fuel: nat,
) -> bool
    decreases fuel, 0nat,
{
    fuel > 0 && exists|c: NodeId| #[trigger]
        is_kept(tree, g, n, c) && mirrors(child, tree, g, c, (fuel - 1) as nat)
}

/// Whether `ui` shows node `n` and what the dominator tree has below it,
/// `fuel` levels deep: it has the id, the short text and the retained size
/// of `n`, and below it each shown child of `n` once, those that retain
/// more first.
pub open spec fn mirrors(ui: UiTreeNode, tree: &DominatorTree, g: &V8HeapGraph, n: NodeId, fuel: nat) -> bool
    decreases fuel, 1nat,
{
    &&& ui.id == UiTreeId::Heap(n)
    &&& ui.label@ == minimal_repr(g, n, REPR_DEPTH as nat)
    &&& ui.retained_size == capped(tree.spec_retained(n))
    &&& is_sorted(ui.children@)
    &&& if fuel == 0 {
        ui.children@.len() == 0
    } else {
        &&& forall|i: int|
            0 <= i < ui.children@.len() ==> shows_child(
                #[trigger] ui.children@[i],
                tree,
                g,
                n,
                fuel,
            )
        &&& forall|c: NodeId| #[trigger]
            is_kept(tree, g, n, c) ==> exists|i: int|
                0 <= i < ui.children@.len() && (#[trigger] ui.children@[i]).id == UiTreeId::Heap(c)
    }
}

/// The tree view of a node, `fuel` levels deep.
fn build_ui_tree_rec(node_id: NodeId, tree: &DominatorTree, graph: &V8HeapGraph, fuel: usize) -> (r:
    UiTreeNode)
    requires
        graph.wf(),
        tree.is_tree_of(graph.spec_self_sizes(), tree.spec_idom()),
        node_id < graph.spec_node_count(),
    ensures
        mirrors(r, tree, graph, node_id, fuel as nat),
    decreases fuel,
{
    let retained_size = tree.retained_size(node_id);
    let label = minimal_node_repr(node_id, graph);
    let mut children: Vec<UiTreeNode> = Vec::new();
    if fuel > 0 {
        let ghost rest: nat = (fuel - 1) as nat;
        let child_ids = tree.children(node_id);
        let ghost mut origin: Seq<int> = Seq::empty();
        let mut i: usize = 0;
        while i < child_ids.len()
            invariant
                graph.wf(),
                tree.is_tree_of(graph.spec_self_sizes(), tree.spec_idom()),
                node_id < graph.spec_node_count(),
                fuel > 0,
                rest == fuel - 1,
                child_ids@ == tree.spec_children(node_id),
                i <= child_ids@.len(),
                origin.len() == children@.len(),
                forall|k: int| 0 <= k < origin.len() ==> 0 <= #[trigger] origin[k] < i,
                forall|k: int, l: int| 0 <= k < l < origin.len() ==> origin[k] < origin[l],
                forall|k: int|
                    0 <= k < children@.len() ==> built_for(
                        #[trigger] children@[k],
                        tree,
                        graph,
                        node_id,
                        child_ids@[origin[k]],
                        rest,
                    ),
                forall|j: int|
                    0 <= j < i && !hidden_tag(graph.spec_node_tag(child_ids@[j] as int))
                        ==> exists|k: int|
                        0 <= k < children@.len() && #[trigger] origin[k] == j,
            decreases child_ids@.len() - i,
        {
            let child = child_ids[i];
            proof {
                assert(tree.spec_children(node_id).contains(child));
                tree.lemma_child_in_range(graph.spec_self_sizes(), node_id, child);
            }
            if !is_passed_over(graph.node(child).typ()) {
                let built = build_ui_tree_rec(child, tree, graph, fuel - 1);
                let ghost before = children@;
                let ghost origin_before = origin;
                children.push(built);
                proof {
                    origin = origin.push(i as int);
                    assert(is_kept(tree, graph, node_id, child));
                    assert forall|k: int| 0 <= k < children@.len() implies built_for(
                        #[trigger] children@[k],
                        tree,
                        graph,
                        node_id,
                        child_ids@[origin[k]],
                        rest,
                    ) by {
                        if k < before.len() {
                            assert(children@[k] == before[k]);
                            assert(origin[k] == origin_before[k]);
                        } else {
                            assert(children@[k] == built);
                            assert(origin[k] == i);
                        }
                    }
                    assert forall|j: int|
                        0 <= j < i + 1 && !hidden_tag(
                            graph.spec_node_tag(child_ids@[j] as int),
                        ) implies exists|k: int|
                        0 <= k < children@.len() && #[trigger] origin[k] == j by {
                        if j < i {
                            let k = choose|k: int|
                                0 <= k < before.len() && #[trigger] origin_before[k] == j;
                            assert(origin[k] == j);
                        } else {
                            assert(origin[before.len() as int] == j);
                        }
                    }
                }
            }
            i = i + 1;
        }
        proof {
            lemma_origin_keys(tree, graph, node_id, children@, origin, rest);
        }
        let ghost built = children@;
        children = sort_by_key(children);
        proof {
            assert forall|k: int| 0 <= k < children@.len() implies shows_child(
                #[trigger] children@[k],
                tree,
                graph,
                node_id,
                fuel as nat,
            ) by {
                assert(children@.contains(children@[k]));
                assert(built.contains(children@[k]));
                let l = choose|l: int| 0 <= l < built.len() && built[l] == children@[k];
                let c = child_ids@[origin[l]];
                assert(mirrors(built[l], tree, graph, c, rest));
                assert(is_kept(tree, graph, node_id, c));
                assert(rest == (fuel as nat - 1) as nat);
                assert(mirrors(children@[k], tree, graph, c, (fuel as nat - 1) as nat));
            }
            assert forall|c: NodeId| #[trigger] is_kept(tree, graph, node_id, c) implies exists|
                k: int,
            |
                0 <= k < children@.len() && (#[trigger] children@[k]).id == UiTreeId::Heap(c) by {
                let j = choose|j: int| 0 <= j < child_ids@.len() && child_ids@[j] == c;
                let l = choose|l: int| 0 <= l < built.len() && #[trigger] origin[l] == j;
                assert(mirrors(built[l], tree, graph, child_ids@[origin[l]], rest));
                assert(built.contains(built[l]));
                assert(children@.contains(built[l]));
                let k = choose|k: int| 0 <= k < children@.len() && children@[k] == built[l];
                assert(children@[k].id == UiTreeId::Heap(c));
            }
        }
    }
    let ghost sorted = children@;
    let r = UiTreeNode { id: UiTreeId::Heap(node_id), label, retained_size, children };
    proof {
        assert(r.children@ == sorted);
        if fuel > 0 {
            assert(forall|i: int|
                0 <= i < r.children@.len() ==> shows_child(
                    #[trigger] r.children@[i],
                    tree,
                    graph,
                    node_id,
                    fuel as nat,
                ));
            assert(forall|c: NodeId| #[trigger]
                is_kept(tree, graph, node_id, c) ==> exists|i: int|
                    0 <= i < r.children@.len() && (#[trigger] r.children@[i]).id
                        == UiTreeId::Heap(c));
        }
    }
    r
}

/// Nodes built for different children have different keys.
proof fn lemma_origin_keys(
    tree: &DominatorTree,
    g: &V8HeapGraph,
    n: NodeId,
    built: Seq<UiTreeNode>,
    origin: Seq<int>,
    fuel: nat,
)
    requires
        tree.is_tree_of(g.spec_self_sizes(), tree.spec_idom()),
        (n as int) < tree.spec_len(),
        origin.len() == built.len(),
        forall|k: int| 0 <= k < origin.len() ==> 0 <= #[trigger] origin[k] < tree.spec_children(n).len(),
        forall|k: int, l: int| 0 <= k < l < origin.len() ==> origin[k] < origin[l],
        forall|k: int|
            0 <= k < built.len() ==> #[trigger] mirrors(
                built[k],
                tree,
                g,
                tree.spec_children(n)[origin[k]],
                fuel,
            ),
    ensures
        keys_differ(built),
{
    assert forall|k: int, l: int| 0 <= k < l < built.len() implies #[trigger] built[k].spec_key()
        != #[trigger] built[l].spec_key() by {
        assert(mirrors(built[k], tree, g, tree.spec_children(n)[origin[k]], fuel));
        assert(mirrors(built[l], tree, g, tree.spec_children(n)[origin[l]], fuel));
        assert(tree.spec_children(n)[origin[k]] < tree.spec_children(n)[origin[l]]);
    }
}

/// Build a UI tree from the given graph and node
pub fn build_ui_tree(node_id: NodeId, tree: &DominatorTree, graph: &V8HeapGraph) -> (r: UiTreeNode)
    requires
        graph.wf(),
        tree.is_tree_of(graph.spec_self_sizes(), tree.spec_idom()),
        node_id < graph.spec_node_count(),
    ensures
        mirrors(r, tree, graph, node_id, tree.spec_len() as nat),
{
    build_ui_tree_rec(node_id, tree, graph, tree.len())
}

/// How many rows the frame of the explorer takes from the tree pane.
pub const FRAME_ROWS: u16 = 5;

/// How wide the column of the retained sizes is.
pub const SIZE_WIDTH: usize = 7;

/// `n` blanks.
pub open spec fn blanks(n: int) -> Seq<char> {
    if n > 0 {
        Seq::new(n as nat, |k: int| ' ')
    } else {
        Seq::empty()
    }
}

/// Appends `n` blanks.
pub fn push_blanks(out: &mut Vec<char>, n: usize)
    ensures
        final(out)@ == old(out)@ + blanks(n as int),
{
    let ghost before = out@;
    let mut k: usize = 0;
    proof {
        assert(before + blanks(0) =~= before);
    }
    while k < n
        invariant
            k <= n,
            out@ == before + blanks(k as int),
        decreases n - k,
    {
        out.push(' ');
        k = k + 1;
        proof {
            assert(out@ =~= before + blanks(k as int));
        }
    }
}

/// The mark in front of a row: nothing for a node without children, and
/// else whether the node stands open.
pub open spec fn marker(node: UiTreeNode, expanded: Set<UiTreeId>) -> Seq<char> {
    if node.children@.len() == 0 {
        seq![' ', ' ']
    } else if expanded.contains(node.id) {
        seq!['\u{25bc}', ' ']
    } else {
        seq!['\u{25b6}', ' ']
    }
}

/// The retained size of a row as its column shows it: at the right of the
/// column, with two blanks behind it.
pub open spec fn size_column(size: usize) -> Seq<char> {
    let text = format_bytes_spec(size as int);
    blanks(SIZE_WIDTH - text.len()) + text + seq![' ', ' ']
}

impl<'a> FlatUiTreeNode<'a> {
    /// What stands in front of the size in the row: two blanks for each
    /// level, and the mark.
    pub fn lead(&self, expanded: &ExpandedSet) -> (r: String)
        ensures
            r@ == blanks(2 * self.depth) + marker(*self.node, expanded@),
    {
        let mut out: Vec<char> = Vec::new();
        let mut k: usize = 0;
        proof {
            assert(out@ =~= blanks(0));
        }
        while k < self.depth
            invariant
                k <= self.depth,
                out@ == blanks(2 * k),
            decreases self.depth - k,
        {
            out.push(' ');
            out.push(' ');
            k = k + 1;
            proof {
                assert(out@ =~= blanks(2 * k));
            }
        }
        if self.node.children.is_empty() {
            out.push(' ');
        } else if expanded.contains(&self.node.id) {
            out.push('\u{25bc}');
        } else {
            out.push('\u{25b6}');
        }
        out.push(' ');
        proof {
            assert(out@ =~= blanks(2 * self.depth) + marker(*self.node, expanded@));
        }
        string_from_chars(&out)
    }

    /// The retained size of the row as its column shows it.
    pub fn size_text(&self) -> (r: String)
        ensures
            r@ == size_column(self.node.retained_size),
    {
        let text = format_bytes(self.node.retained_size);
        let mut chars: Vec<char> = Vec::new();
        push_str_chars(&mut chars, text.as_str());
        let mut out: Vec<char> = Vec::new();
        if chars.len() < SIZE_WIDTH {
            push_blanks(&mut out, SIZE_WIDTH - chars.len());
        } else {
            proof {
                assert(out@ =~= blanks(SIZE_WIDTH - chars@.len()));
            }
        }
        out.append(&mut chars);
        out.push(' ');
        out.push(' ');
        proof {
            assert(out@ =~= size_column(self.node.retained_size));
        }
        string_from_chars(&out)
    }
}

/// What the inspector says of a node: of a group its label; of a heap node
/// the node at length and the way from the root to it.
pub open spec fn inspector_lines(node: UiTreeNode, paths: &RootPaths, g: &V8HeapGraph) -> Seq<char> {
    match node.id {
        UiTreeId::Group(_) => node.label@,
        UiTreeId::Heap(n) => detailed_repr(g, n) + "\n\nPath(s):\n"@ + if paths.reached(n) {
            path_steps(g, paths.spec_path(g, n), paths.spec_path(g, n).len()) + "\n"@
        } else {
            Seq::empty()
        },
    }
}

/// What the inspector says of a node.
pub fn inspector_text(ui_tree_node: &UiTreeNode, root_paths: &RootPaths, graph: &V8HeapGraph) -> (r:
    String)
    requires
        root_paths.wf(graph),
        ui_tree_node.id matches UiTreeId::Heap(n) ==> (n as int) < graph.spec_node_count(),
    ensures
        r@ == inspector_lines(*ui_tree_node, root_paths, graph),
{
    proof {
        root_paths.lemma_graph_wf(graph);
    }
    let mut out: Vec<char> = Vec::new();
    match ui_tree_node.id {
        UiTreeId::Group(_) => {
            push_str_chars(&mut out, ui_tree_node.label.as_str());
            proof {
                assert(out@ =~= inspector_lines(*ui_tree_node, root_paths, graph));
            }
        },
        UiTreeId::Heap(node_id) => {
            let s = detailed_node_repr(node_id, graph);
            push_str_chars(&mut out, s.as_str());
            push_str_chars(&mut out, "\n\nPath(s):\n");
            format_retention_paths(&mut out, node_id, root_paths, graph);
            proof {
                assert(out@ =~= inspector_lines(*ui_tree_node, root_paths, graph));
            }
        },
    }
    string_from_chars(&out)
}

impl<'a> ExplorerState<'a> {
    /// Takes the height of the tree pane from that of the terminal.
    pub fn set_height(&mut self, frame_height: u16)
        requires
            old(self).wf(),
        ensures
            final(self).wf(),
            final(self)@ == (Shown {
                height: if frame_height >= FRAME_ROWS {
                    frame_height - FRAME_ROWS
                } else {
                    0
                },
                ..old(self)@
            }),
    {
        self.height = if frame_height >= FRAME_ROWS {
            (frame_height - FRAME_ROWS) as usize
        } else {
            0
        };
    }

    /// The rows that the tree pane shows: from the row that it is scrolled
    /// to, as many as it has room for and as there are.
    pub fn visible_rows(&self) -> (r: (usize, usize))
        requires
            self.wf(),
        ensures
            r.0 == self.tree_scroll_offset,
            r.1 == least(self.tree_scroll_offset + self.height, self.flat_list@.len() as int),
            r.0 <= self.selected < self.flat_list@.len(),
            r.0 <= r.1 <= self.flat_list@.len(),
    {
        let len = self.flat_list.len();
        let end = if self.height > len - self.tree_scroll_offset {
            len
        } else {
            self.tree_scroll_offset + self.height
        };
        (self.tree_scroll_offset, end)
    }
}

} // verus!
