use vstd::prelude::*;
use crate::analysis::duplicates::DuplicateGroup;
use crate::analysis::hidden_classes::HiddenClassGroup;
use crate::graph::CompactGraph;
use crate::paths::RetentionPath;
use crate::types::NodeId;
use crate::utils::{decimal, push_decimal, push_str_chars, string_from_chars};
use std::collections::HashMap;

verus! {

/// What a report is written from: the graph and what the analysis found in
/// it.
pub struct ReportGenerator<'a> {
    pub graph: &'a CompactGraph,
    pub duplicate_groups: Vec<DuplicateGroup>,
    pub hidden_class_groups: Vec<HiddenClassGroup>,
    pub retention_paths: HashMap<NodeId, Vec<RetentionPath>>,
}

/// The sum of two numbers, or the largest number where the sum is larger.
pub open spec fn capped_sum(a: u64, b: u64) -> u64 {
    if a + b > u64::MAX {
        u64::MAX
    } else {
        (a + b) as u64
    }
}

/// What the first `upto` groups waste together, capped at the largest
/// number.
pub open spec fn wasted_sum(groups: Seq<DuplicateGroup>, upto: int) -> u64
    decreases upto,
{
    if upto <= 0 {
        0
    } else {
        capped_sum(wasted_sum(groups, upto - 1), groups[upto - 1].total_wasted)
    }
}

/// `i` times two blanks.
pub open spec fn indent(i: int) -> Seq<char> {
    Seq::new((2 * i) as nat, |k: int| ' ')
}

/// The lines for the node at place `i` of a path: its name, and below it
/// the name of the edge that leaves it, where one does.
pub open spec fn step_text(g: &CompactGraph, path: RetentionPath, i: int) -> Seq<char> {
    let name = match g.spec_node_name(path.nodes@[i]) {
        Some(s) => s,
        None => "unknown"@,
    };
    "     "@ + indent(i) + " "@ + name + "\n"@ + if i < path.edge_names@.len() {
        "     "@ + indent(i) + "   ."@ + path.edge_names@[i]@ + "\n"@
    } else {
        Seq::empty()
    }
}

/// The lines for the first `upto` nodes of a path.
pub open spec fn path_text(g: &CompactGraph, path: RetentionPath, upto: int) -> Seq<char>
    decreases upto,
{
    if upto <= 0 {
        Seq::empty()
    } else {
        path_text(g, path, upto - 1) + step_text(g, path, upto - 1)
    }
}

/// The lines for the group at place `i`, with the first way found to its
/// representative.
pub open spec fn group_text(
    g: &CompactGraph,
    group: DuplicateGroup,
    found: Map<NodeId, Vec<RetentionPath>>,
    i: int,
) -> Seq<char> {
    decimal((i + 1) as nat) + ". "@ + group.object_type@ + "\n"@ + "   Count: "@ + decimal(
        group.count as nat,
    ) + " duplicates\n"@ + "   Size: "@ + decimal(group.size_per_object as nat) + " bytes each\n"@
        + "   Total Wasted: "@ + decimal(group.total_wasted as nat) + " bytes\n"@ + if found.contains_key(
        group.representative,
    ) && found[group.representative]@.len() > 0 {
        "   Retention Path:\n"@ + path_text(
            g,
            found[group.representative]@[0],
            found[group.representative]@[0].nodes@.len() as int,
        )
    } else {
        Seq::empty()
    } + "\n"@
}

/// The lines for the first `upto` groups.
pub open spec fn groups_text(
    g: &CompactGraph,
    groups: Seq<DuplicateGroup>,
    found: Map<NodeId, Vec<RetentionPath>>,
    upto: int,
) -> Seq<char>
    decreases upto,
{
    if upto <= 0 {
        Seq::empty()
    } else {
        groups_text(g, groups, found, upto - 1) + group_text(g, groups[upto - 1], found, upto - 1)
    }
}

/// The lines for the group of hidden classes at place `i`.
pub open spec fn class_text(group: HiddenClassGroup, i: int) -> Seq<char> {
    decimal((i + 1) as nat) + ". "@ + group.object_type@ + "\n"@ + "   Hidden Classes: "@ + decimal(
        group.hidden_class_count as nat,
    ) + "\n"@ + "   Total Memory: "@ + decimal(group.total_hidden_class_memory as nat) + " bytes\n"@
        + "\n"@
}

/// The lines for the first `upto` groups of hidden classes.
pub open spec fn classes_text(groups: Seq<HiddenClassGroup>, upto: int) -> Seq<char>
    decreases upto,
{
    if upto <= 0 {
        Seq::empty()
    } else {
        classes_text(groups, upto - 1) + class_text(groups[upto - 1], upto - 1)
    }
}

/// The head of the report: its title and the summary.
pub open spec fn summary_text(objects: nat, groups: nat, wasted: nat) -> Seq<char> {
    "V8 Heap Snapshot Analysis\n"@ + "==========================\n"@ + "\n"@ + "Summary:\n"@
        + "- Total Objects: "@ + decimal(objects) + "\n"@ + "- Duplicate Groups Found: "@ + decimal(
        groups,
    ) + "\n"@ + "- Total Wasted Memory: "@ + decimal(wasted) + " bytes\n"@ + "\n"@
}

/// The smaller of a number and the length of a list.
pub open spec fn shown(top_n: usize, len: nat) -> int {
    if top_n < len {
        top_n as int
    } else {
        len as int
    }
}

impl<'a> ReportGenerator<'a> {
    /// The report as text: the summary, the groups of duplicates that waste
    /// most, and the kinds of object whose hidden classes take most memory;
    /// of each list the first `top_n`.
    pub open spec fn spec_text_report(&self, top_n: usize) -> Seq<char> {
        summary_text(
            self.graph.spec_node_count() as nat,
            self.duplicate_groups@.len(),
            wasted_sum(self.duplicate_groups@, self.duplicate_groups@.len() as int) as nat,
        ) + "Top "@ + decimal(top_n as nat) + " Duplicate Groups (by memory impact):\n"@
            + "-------------------------------------------\n"@ + "\n"@ + groups_text(
            self.graph,
            self.duplicate_groups@,
            self.retention_paths@,
            shown(top_n, self.duplicate_groups@.len()),
        ) + "Top "@ + decimal(top_n as nat) + " Object Types by Hidden Class Memory:\n"@
            + "--------------------------------------------\n"@ + "\n"@ + classes_text(
            self.hidden_class_groups@,
            shown(top_n, self.hidden_class_groups@.len()),
        )
    }

    /// A generator of reports on what the analysis of the graph found.
    pub fn new(
        graph: &'a CompactGraph,
        duplicate_groups: Vec<DuplicateGroup>,
        hidden_class_groups: Vec<HiddenClassGroup>,
        retention_paths: HashMap<NodeId, Vec<RetentionPath>>,
    ) -> (r: Self)
        ensures
            r.graph == graph,
            r.duplicate_groups == duplicate_groups,
            r.hidden_class_groups == hidden_class_groups,
            r.retention_paths == retention_paths,
    {
        Self { graph, duplicate_groups, hidden_class_groups, retention_paths }
    }

    /// What all groups waste together, capped at the largest number.
    pub fn total_wasted(&self) -> (r: u64)
        ensures
            r == wasted_sum(self.duplicate_groups@, self.duplicate_groups@.len() as int),
    {
        let mut total: u64 = 0;
        let mut i: usize = 0;
        while i < self.duplicate_groups.len()
            invariant
                i <= self.duplicate_groups@.len(),
                total == wasted_sum(self.duplicate_groups@, i as int),
            decreases self.duplicate_groups@.len() - i,
        {
            let w = self.duplicate_groups[i].total_wasted;
            total = if w > u64::MAX - total {
                u64::MAX
            } else {
                total + w
            };
            i = i + 1;
        }
        total
    }

    /// Appends the lines of a path.
    fn format_path(&self, out: &mut Vec<char>, path: &RetentionPath)
        ensures
            final(out)@ == old(out)@ + path_text(self.graph, *path, path.nodes@.len() as int),
    {
        let ghost before = out@;
        let mut i: usize = 0;
        proof {
            assert(before + path_text(self.graph, *path, 0) =~= before);
        }
        while i < path.nodes.len()
            invariant
                i <= path.nodes@.len(),
                out@ == before + path_text(self.graph, *path, i as int),
            decreases path.nodes@.len() - i,
        {
            let ghost at = out@;
            push_str_chars(out, "     ");
            push_indent(out, i);
            push_str_chars(out, " ");
            match self.graph.node_name(path.nodes[i]) {
                Some(name) => push_str_chars(out, name),
                None => push_str_chars(out, "unknown"),
            }
            push_str_chars(out, "\n");
            if i < path.edge_names.len() {
                push_str_chars(out, "     ");
                push_indent(out, i);
                push_str_chars(out, "   .");
                push_str_chars(out, path.edge_names[i].as_str());
                push_str_chars(out, "\n");
            }
            proof {
                assert(out@ =~= at + step_text(self.graph, *path, i as int));
                assert(out@ =~= before + path_text(self.graph, *path, i + 1));
            }
            i = i + 1;
        }
    }

    /// Appends the lines of the group at place `i`.
    fn format_group(&self, out: &mut Vec<char>, i: usize)
        requires
            i < self.duplicate_groups@.len(),
        ensures
            final(out)@ == old(out)@ + group_text(
                self.graph,
                self.duplicate_groups@[i as int],
                self.retention_paths@,
                i as int,
            ),
    {
        broadcast use vstd::std_specs::hash::group_hash_axioms;

        let ghost before = out@;
        let count = self.duplicate_groups.len();
        let group = &self.duplicate_groups[i];
        push_decimal(out, (i + 1) as u64);
        push_str_chars(out, ". ");
        push_str_chars(out, group.object_type.as_str());
        push_str_chars(out, "\n");
        push_str_chars(out, "   Count: ");
        push_decimal(out, group.count as u64);
        push_str_chars(out, " duplicates\n");
        push_str_chars(out, "   Size: ");
        push_decimal(out, group.size_per_object);
        push_str_chars(out, " bytes each\n");
        push_str_chars(out, "   Total Wasted: ");
        push_decimal(out, group.total_wasted);
        push_str_chars(out, " bytes\n");
        let ghost head = out@;
        match self.retention_paths.get(&group.representative) {
            Some(paths) => {
                if paths.len() > 0 {
                    push_str_chars(out, "   Retention Path:\n");
                    self.format_path(out, &paths[0]);
                }
            },
            None => {},
        }
        let ghost body = out@;
        push_str_chars(out, "\n");
        proof {
            assert(out@ =~= before + group_text(
                self.graph,
                self.duplicate_groups@[i as int],
                self.retention_paths@,
                i as int,
            ));
        }
    }

    /// Appends the lines of the object type at place `k`.
    fn format_class(&self, out: &mut Vec<char>, k: usize)
        requires
            k < self.hidden_class_groups@.len(),
        ensures
            final(out)@ == old(out)@ + class_text(self.hidden_class_groups@[k as int], k as int),
    {
        let ghost before = out@;
        let len = self.hidden_class_groups.len();
        let group = &self.hidden_class_groups[k];
        push_decimal(out, (k + 1) as u64);
        push_str_chars(out, ". ");
        push_str_chars(out, group.object_type.as_str());
        push_str_chars(out, "\n");
        push_str_chars(out, "   Hidden Classes: ");
        push_decimal(out, group.hidden_class_count as u64);
        push_str_chars(out, "\n");
        push_str_chars(out, "   Total Memory: ");
        push_decimal(out, group.total_hidden_class_memory);
        push_str_chars(out, " bytes\n");
        push_str_chars(out, "\n");
        proof {
            assert(out@ =~= before + class_text(self.hidden_class_groups@[k as int], k as int));
        }
    }

    /// Appends the summary.
    fn format_summary(&self, out: &mut Vec<char>)
        ensures
            final(out)@ == old(out)@ + summary_text(
                self.graph.spec_node_count() as nat,
                self.duplicate_groups@.len(),
                wasted_sum(self.duplicate_groups@, self.duplicate_groups@.len() as int) as nat,
            ),
    {
        let ghost before = out@;
        let total_objects = self.graph.node_count();
        let total_wasted = self.total_wasted();
        push_str_chars(out, "V8 Heap Snapshot Analysis\n");
        push_str_chars(out, "==========================\n");
        push_str_chars(out, "\n");
        // Summary
        push_str_chars(out, "Summary:\n");
        push_str_chars(out, "- Total Objects: ");
        push_decimal(out, total_objects as u64);
        push_str_chars(out, "\n");
        push_str_chars(out, "- Duplicate Groups Found: ");
        push_decimal(out, self.duplicate_groups.len() as u64);
        push_str_chars(out, "\n");
        push_str_chars(out, "- Total Wasted Memory: ");
        push_decimal(out, total_wasted);
        push_str_chars(out, " bytes\n");
        push_str_chars(out, "\n");
        proof {
            assert(out@ =~= before + summary_text(
                total_objects as nat,
                self.duplicate_groups@.len(),
                total_wasted as nat,
            ));
        }
    }

    /// The report as text.
    pub fn generate_text_report(&self, top_n: usize) -> (r: String)
        ensures
            r@ == self.spec_text_report(top_n),
    {
        let mut out: Vec<char> = Vec::new();
        self.format_summary(&mut out);
        let ghost summary = out@;
        // Top N duplicate groups
        push_str_chars(&mut out, "Top ");
        push_decimal(&mut out, top_n as u64);
        push_str_chars(&mut out, " Duplicate Groups (by memory impact):\n");
        push_str_chars(&mut out, "-------------------------------------------\n");
        push_str_chars(&mut out, "\n");
        let ghost head = out@;
        let groups = if top_n < self.duplicate_groups.len() {
            top_n
        } else {
            self.duplicate_groups.len()
        };
        let mut i: usize = 0;
        proof {
            assert(head + groups_text(self.graph, self.duplicate_groups@, self.retention_paths@, 0)
                =~= head);
        }
        while i < groups
            invariant
                i <= groups <= self.duplicate_groups@.len(),
                out@ == head + groups_text(
                    self.graph,
                    self.duplicate_groups@,
                    self.retention_paths@,
                    i as int,
                ),
            decreases groups - i,
        {
            let ghost at = out@;
            self.format_group(&mut out, i);
            proof {
                assert(out@ =~= head + groups_text(
                    self.graph,
                    self.duplicate_groups@,
                    self.retention_paths@,
                    i + 1,
                ));
            }
            i = i + 1;
        }
        // Top N hidden class groups
        push_str_chars(&mut out, "Top ");
        push_decimal(&mut out, top_n as u64);
        push_str_chars(&mut out, " Object Types by Hidden Class Memory:\n");
        push_str_chars(&mut out, "--------------------------------------------\n");
        push_str_chars(&mut out, "\n");
        let ghost middle = out@;
        let classes = if top_n < self.hidden_class_groups.len() {
            top_n
        } else {
            self.hidden_class_groups.len()
        };
        let mut k: usize = 0;
        proof {
            assert(middle + classes_text(self.hidden_class_groups@, 0) =~= middle);
        }
        while k < classes
            invariant
                k <= classes <= self.hidden_class_groups@.len(),
                out@ == middle + classes_text(self.hidden_class_groups@, k as int),
            decreases classes - k,
        {
            self.format_class(&mut out, k);
            proof {
                assert(out@ =~= middle + classes_text(self.hidden_class_groups@, k + 1));
            }
            k = k + 1;
        }
        proof {
            assert(summary =~= summary_text(
                self.graph.spec_node_count() as nat,
                self.duplicate_groups@.len(),
                wasted_sum(self.duplicate_groups@, self.duplicate_groups@.len() as int) as nat,
            ));
            assert(out@ =~= self.spec_text_report(top_n));
        }
        string_from_chars(&out)
    }
}

/// Appends `i` times two blanks.
fn push_indent(out: &mut Vec<char>, i: usize)
    ensures
        final(out)@ == old(out)@ + indent(i as int),
{
    let ghost before = out@;
    let mut k: usize = 0;
    proof {
        assert(before + indent(0) =~= before);
    }
    while k < i
        invariant
            k <= i,
            out@ == before + indent(k as int),
        decreases i - k,
    {
        out.push(' ');
        out.push(' ');
        proof {
            assert(out@ =~= before + indent(k + 1));
        }
        k = k + 1;
    }
}

} // verus!
