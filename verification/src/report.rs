//! The call tree as plain text.

use vstd::prelude::*;

use crate::cutoff::Cutoff;
use crate::paths::{copy_path, PathSet};
use crate::profile::Library;
use crate::rows::{row_views, tree_rows, RowView, VisibleRow};
use crate::screen::{indented, row_text};
use crate::tree::{
    forest, format_frame, frame_text, lemma_node_view, CallTree, NodeView, TreeNode,
};

verus! {

/// Whether the node at a path and those on the way to it all reach the share at
/// which nodes are expanded, and have children.
pub open spec fn worth_expanding(nodes: Seq<NodeView>, p: Seq<usize>, expand: Cutoff) -> bool
    decreases p.len(),
{
    &&& p.len() > 0
    &&& p[0] < nodes.len()
    &&& !expand.hides(nodes[p[0] as int].total)
    &&& nodes[p[0] as int].children.len() > 0
    &&& p.len() == 1 || worth_expanding(
        nodes[p[0] as int].children,
        p.drop_first(),
        expand,
    )
}

/// The paths that are expanded in a report: all roots, and what is worth
/// expanding, down to the greatest depth if one is given.
pub open spec fn report_expanded(nodes: Seq<NodeView>, expand: Cutoff, max_depth: nat) -> Set<
    Seq<usize>,
> {
    Set::new(
        |p: Seq<usize>|
            {
                ||| p.len() == 1 && p[0] < nodes.len()
                ||| worth_expanding(nodes, p, expand) && (max_depth == 0 || p.len() <= max_depth)
            },
    )
}

/// Whether marking below `prefix` puts a path into the set.
spec fn is_marked(
    nodes: Seq<NodeView>,
    prefix: Seq<usize>,
    expand: Cutoff,
    max_depth: nat,
    p: Seq<usize>,
) -> bool {
    &&& prefix.is_prefix_of(p)
    &&& worth_expanding(nodes, p.skip(prefix.len() as int), expand)
    &&& max_depth == 0 || p.len() <= max_depth
}

fn mark(
    children: &Vec<TreeNode>,
    prefix: &[usize],
    expand: &Cutoff,
    max_depth: usize,
    expanded: &mut PathSet,
)
    ensures
        forall|p: Seq<usize>| #[trigger]
            final(expanded)@.contains(p) <==> old(expanded)@.contains(p) || is_marked(
                forest(children@),
                prefix@,
                *expand,
                max_depth as nat,
                p,
            ),
    decreases children,
{
    let ghost nodes = forest(children@);
    if max_depth > 0 && prefix.len() >= max_depth {
        return ;
    }
    let mut i: usize = 0;
    while i < children.len()
        invariant
            i <= children@.len(),
            nodes == forest(children@),
            max_depth == 0 || prefix@.len() < max_depth,
            forall|p: Seq<usize>| #[trigger]
                expanded@.contains(p) <==> old(expanded)@.contains(p) || (is_marked(
                    nodes,
                    prefix@,
                    *expand,
                    max_depth as nat,
                    p,
                ) && p[prefix@.len() as int] < i),
        decreases children@.len() - i,
    {
        let node = &children[i];
        proof {
            lemma_node_view(*node);
        }
        let ghost before = expanded@;
        let mut path = copy_path(prefix);
        path.push(i);
        assert(path@ =~= prefix@.push(i));
        if !expand.is_below(node.total) && node.children.len() > 0 {
            expanded.insert(copy_path(path.as_slice()));
            mark(&node.children, path.as_slice(), expand, max_depth, expanded);
        }
        proof {
            assert forall|p: Seq<usize>| #[trigger]
                expanded@.contains(p) <==> old(expanded)@.contains(p) || (is_marked(
                    nodes,
                    prefix@,
                    *expand,
                    max_depth as nat,
                    p,
                ) && p[prefix@.len() as int] < i + 1) by {
                let had = before.contains(p);
                lemma_marked_step(nodes, prefix@, *expand, max_depth as nat, i, p);
            }
        }
        i = i + 1;
    }
    proof {
        assert forall|p: Seq<usize>| #[trigger]
            expanded@.contains(p) <==> old(expanded)@.contains(p) || is_marked(
                nodes,
                prefix@,
                *expand,
                max_depth as nat,
                p,
            ) by {
            if is_marked(nodes, prefix@, *expand, max_depth as nat, p) {
                assert(p.skip(prefix@.len() as int)[0] == p[prefix@.len() as int]);
            }
        }
    }
}

/// What is marked through the `i`th child.
proof fn lemma_marked_step(
    nodes: Seq<NodeView>,
    prefix: Seq<usize>,
    expand: Cutoff,
    max_depth: nat,
    i: usize,
    p: Seq<usize>,
)
    requires
        i < nodes.len(),
        max_depth == 0 || prefix.len() < max_depth,
    ensures
        is_marked(nodes, prefix, expand, max_depth, p) && p[prefix.len() as int] == i <==> {
            &&& !expand.hides(nodes[i as int].total)
            &&& nodes[i as int].children.len() > 0
            &&& p == prefix.push(i) || is_marked(
                nodes[i as int].children,
                prefix.push(i),
                expand,
                max_depth,
                p,
            )
        },
{
    let n = prefix.len() as int;
    let path = prefix.push(i);
    let q = p.skip(n);
    if is_marked(nodes, prefix, expand, max_depth, p) && p[n] == i {
        assert(q[0] == i);
        assert forall|t: int| 0 <= t < path.len() implies path[t] == p[t] by {
            if t < n {
                assert(prefix[t] == p.subrange(0, n)[t]);
            }
        }
        assert(path =~= p.subrange(0, path.len() as int));
        assert(q.drop_first() =~= p.skip(path.len() as int));
        if q.len() == 1 {
            assert(p =~= path);
        }
    }
    if path.is_prefix_of(p) {
        assert forall|t: int| 0 <= t < path.len() implies path[t] == p[t] by {
            assert(path[t] == p.subrange(0, path.len() as int)[t]);
        }
        assert(prefix =~= p.subrange(0, n));
        assert(p[n] == i);
        assert(q[0] == i);
        assert(q.drop_first() =~= p.skip(path.len() as int));
    }
    if p == path {
        assert(path =~= path.subrange(0, path.len() as int));
        assert(q.len() == 1);
    }
}

/// One line of a report.
#[derive(Debug)]
pub struct ReportLine {
    pub total: u64,
    pub self_count: u64,
    /// The indented marker and name.
    pub text: String,
}

/// What a [`ReportLine`] stands for.
pub struct LineView {
    pub total: nat,
    pub self_count: nat,
    pub text: Seq<char>,
}

impl View for ReportLine {
    type V = LineView;

    open spec fn view(&self) -> LineView {
        LineView {
            total: self.total as nat,
            self_count: self.self_count as nat,
            text: self.text@,
        }
    }
}

/// The mark of a row in a report.
pub open spec fn report_marker(has_children: bool, expanded: bool) -> char {
    if !has_children {
        ' '
    } else if expanded {
        '-'
    } else {
        '+'
    }
}

/// The line of a row.
pub open spec fn line_of(row: RowView, libs: Seq<Library>) -> LineView {
    LineView {
        total: row.total,
        self_count: row.self_count,
        text: row_text(
            row.depth,
            report_marker(row.has_children, row.expanded),
            frame_text(row.frame, libs),
        ),
    }
}

/// The lines of rows, leaving out those beyond the greatest depth if one is
/// given.
pub open spec fn lines_of(rows: Seq<RowView>, libs: Seq<Library>, max_depth: nat) -> Seq<LineView>
    decreases rows.len(),
{
    if rows.len() == 0 {
        Seq::empty()
    } else {
        let front = lines_of(rows.drop_last(), libs, max_depth);
        if max_depth > 0 && rows.last().depth >= max_depth {
            front
        } else {
            front.push(line_of(rows.last(), libs))
        }
    }
}

/// The lines of a list, each by its view.
pub open spec fn line_views(lines: Seq<ReportLine>) -> Seq<LineView> {
    Seq::new(lines.len(), |i: int| lines[i]@)
}

impl CallTree {
    /// The tree as lines of text: all roots and every node above the `expand`
    /// share are expanded, nodes below the cutoff are hidden, and nothing at
    /// `max_depth` or beyond is listed unless that is zero.
    pub fn report(
        &self,
        libs: &[Library],
        expand: &Cutoff,
        cutoff: &Cutoff,
        max_depth: usize,
    ) -> (r: Vec<ReportLine>)
        ensures
            line_views(r@) == lines_of(
                tree_rows(self@, report_expanded(self@, *expand, max_depth as nat), *cutoff),
                libs@,
                max_depth as nat,
            ),
    {
        let expanded = self.report_paths(expand, max_depth);
        let rows = self.flatten(&expanded, cutoff);
        let ghost views = row_views(rows@);
        let mut lines: Vec<ReportLine> = Vec::new();
        let mut i: usize = 0;
        assert(views.take(0) =~= Seq::empty());
        assert(line_views(lines@) =~= Seq::empty());
        while i < rows.len()
            invariant
                i <= rows@.len(),
                views == row_views(rows@),
                line_views(lines@) == lines_of(views.take(i as int), libs@, max_depth as nat),
            decreases rows@.len() - i,
        {
            let row = &rows[i];
            let ghost before = line_views(lines@);
            proof {
                assert(views.take(i + 1).drop_last() =~= views.take(i as int));
                assert(views.take(i + 1).last() == row@);
            }
            if !(max_depth > 0 && row.depth >= max_depth) {
                lines.push(report_line(row, libs));
                assert(line_views(lines@) =~= before.push(line_of(row@, libs@)));
            }
            i = i + 1;
        }
        assert(views.take(i as int) =~= views);
        lines
    }

    fn report_paths(&self, expand: &Cutoff, max_depth: usize) -> (r: PathSet)
        ensures
            r@ == report_expanded(self@, *expand, max_depth as nat),
    {
        let mut expanded = PathSet::new();
        let prefix: Vec<usize> = Vec::new();
        mark(&self.roots, prefix.as_slice(), expand, max_depth, &mut expanded);
        let ghost marked = expanded@;
        let mut i: usize = 0;
        while i < self.roots.len()
            invariant
                i <= self.roots@.len(),
                forall|p: Seq<usize>| #[trigger]
                    expanded@.contains(p) <==> marked.contains(p) || (p.len() == 1 && p[0] < i),
            decreases self.roots@.len() - i,
        {
            let ghost before = expanded@;
            let mut path: Vec<usize> = Vec::new();
            path.push(i);
            assert(path@ =~= seq![i]);
            expanded.insert(path);
            proof {
                assert forall|p: Seq<usize>| #[trigger]
                    expanded@.contains(p) <==> marked.contains(p) || (p.len() == 1 && p[0] < i
                        + 1) by {
                    let had = before.contains(p);
                    if p.len() == 1 && p[0] == i {
                        assert(p =~= seq![i]);
                    }
                    if p == seq![i] {
                        assert(p.len() == 1 && p[0] == i);
                    }
                }
            }
            i = i + 1;
        }
        proof {
            assert forall|p: Seq<usize>| #[trigger]
                expanded@.contains(p) <==> report_expanded(
                    self@,
                    *expand,
                    max_depth as nat,
                ).contains(p) by {
                assert(prefix@ =~= p.subrange(0, 0));
                assert(p.skip(0) =~= p);
                assert(marked.contains(p) <==> is_marked(
                    self@,
                    prefix@,
                    *expand,
                    max_depth as nat,
                    p,
                ));
            }
            assert(expanded@ =~= report_expanded(self@, *expand, max_depth as nat));
        }
        expanded
    }
}

fn report_line(row: &VisibleRow, libs: &[Library]) -> (r: ReportLine)
    ensures
        r@ == line_of(row@, libs@),
{
    let marker: char = if !row.has_children {
        ' '
    } else if row.expanded {
        '-'
    } else {
        '+'
    };
    let name = format_frame(&row.frame, libs);
    let text = indented(row.depth, marker, name.as_str());
    ReportLine { total: row.total, self_count: row.self_count, text }
}

} // verus!
