//! What a report lists.

use vstd::prelude::*;

use crate::cutoff::Cutoff;
use crate::listing::lemma_take_first;
use crate::profile::Library;
use crate::report::{line_of, lines_of, report_expanded, worth_expanding};
use crate::rows::RowView;
use crate::tree::{frame_text, node_at, NodeView};

verus! {

/// Whether a node that is worth expanding stands at every step of a path.
pub open spec fn heavy_all_the_way(nodes: Seq<NodeView>, p: Seq<usize>, expand: Cutoff) -> bool {
    forall|k: int|
        1 <= k <= p.len() ==> {
            &&& node_at(nodes, #[trigger] p.take(k)) is Some
            &&& !expand.hides(node_at(nodes, p.take(k))->0.total)
            &&& node_at(nodes, p.take(k))->0.children.len() > 0
        }
}

proof fn lemma_worth_expanding(nodes: Seq<NodeView>, p: Seq<usize>, expand: Cutoff)
    requires
        p.len() > 0,
    ensures
        worth_expanding(nodes, p, expand) <==> heavy_all_the_way(nodes, p, expand),
    decreases p.len(),
{
    assert(p.take(1) =~= seq![p[0]]);
    if p[0] < nodes.len() {
        let n = nodes[p[0] as int];
        let rest = p.drop_first();
        assert(node_at(nodes, p.take(1)) == Some(n));
        if p.len() > 1 {
            lemma_worth_expanding(n.children, rest, expand);
            assert forall|k: int| 2 <= k <= p.len() implies node_at(nodes, #[trigger] p.take(k))
                == node_at(n.children, rest.take(k - 1)) by {
                lemma_take_first(p, k);
            }
            if heavy_all_the_way(nodes, p, expand) {
                assert forall|k: int| 1 <= k <= rest.len() implies {
                    &&& node_at(n.children, #[trigger] rest.take(k)) is Some
                    &&& !expand.hides(node_at(n.children, rest.take(k))->0.total)
                    &&& node_at(n.children, rest.take(k))->0.children.len() > 0
                } by {
                    assert(node_at(nodes, p.take(k + 1)) == node_at(n.children, rest.take(k)));
                }
            }
            if worth_expanding(nodes, p, expand) {
                assert forall|k: int| 1 <= k <= p.len() implies {
                    &&& node_at(nodes, #[trigger] p.take(k)) is Some
                    &&& !expand.hides(node_at(nodes, p.take(k))->0.total)
                    &&& node_at(nodes, p.take(k))->0.children.len() > 0
                } by {
                    if k > 1 {
                        assert(node_at(n.children, rest.take(k - 1)) is Some);
                    }
                }
            }
        }
        if p.len() == 1 && worth_expanding(nodes, p, expand) {
            assert forall|k: int| 1 <= k <= p.len() implies {
                &&& node_at(nodes, #[trigger] p.take(k)) is Some
                &&& !expand.hides(node_at(nodes, p.take(k))->0.total)
                &&& node_at(nodes, p.take(k))->0.children.len() > 0
            } by {
                assert(k == 1);
            }
        }
    } else {
        assert(node_at(nodes, p.take(1)) is None);
    }
}

/// A report expands all roots, and each node that has the share for it and
/// children, where every node on the way to it does too, down to the greatest
/// depth where one is given; and nothing else.
pub proof fn law_what_a_report_expands(
    nodes: Seq<NodeView>,
    expand: Cutoff,
    max_depth: nat,
    p: Seq<usize>,
)
    ensures
        report_expanded(nodes, expand, max_depth).contains(p) <==> {
            &&& p.len() > 0
            &&& {
                ||| p.len() == 1 && p[0] < nodes.len()
                ||| heavy_all_the_way(nodes, p, expand) && (max_depth == 0 || p.len() <= max_depth)
            }
        },
{
    if p.len() > 0 {
        lemma_worth_expanding(nodes, p, expand);
    }
}

/// A report lists row after row.
pub proof fn law_a_report_lists_row_after_row(
    a: Seq<RowView>,
    b: Seq<RowView>,
    libs: Seq<Library>,
    max_depth: nat,
)
    ensures
        lines_of(a + b, libs, max_depth) == lines_of(a, libs, max_depth) + lines_of(
            b,
            libs,
            max_depth,
        ),
    decreases b.len(),
{
    if b.len() > 0 {
        assert((a + b).drop_last() =~= a + b.drop_last());
        assert((a + b).last() == b.last());
        law_a_report_lists_row_after_row(a, b.drop_last(), libs, max_depth);
    } else {
        assert(a + b =~= a);
    }
    assert(lines_of(a + b, libs, max_depth) =~= lines_of(a, libs, max_depth) + lines_of(
        b,
        libs,
        max_depth,
    ));
}

/// A row has one line with its counts and, indented by its depth behind its
/// marker, its frame's text; none where it lies at the greatest depth or beyond.
pub proof fn law_line_of_a_row(row: RowView, libs: Seq<Library>, max_depth: nat)
    ensures
        0 < max_depth <= row.depth ==> lines_of(seq![row], libs, max_depth).len() == 0,
        max_depth == 0 || row.depth < max_depth ==> {
            let lines = lines_of(seq![row], libs, max_depth);
            &&& lines.len() == 1
            &&& lines[0].total == row.total
            &&& lines[0].self_count == row.self_count
            &&& lines[0].text.take(2 * row.depth as int) == Seq::new(
                2 * row.depth,
                |i: int| ' ',
            )
            &&& lines[0].text[2 * row.depth as int] == if !row.has_children {
                ' '
            } else if row.expanded {
                '-'
            } else {
                '+'
            }
            &&& lines[0].text[2 * row.depth as int + 1] == ' '
            &&& lines[0].text.skip(2 * row.depth as int + 2) == frame_text(row.frame, libs)
        },
{
    let one = seq![row];
    reveal_with_fuel(lines_of, 2);
    assert(one.drop_last() =~= Seq::<RowView>::empty());
    assert(one.last() == row);
    let text = line_of(row, libs).text;
    assert(text.take(2 * row.depth as int) =~= Seq::new(2 * row.depth, |i: int| ' '));
    assert(text.skip(2 * row.depth as int + 2) =~= frame_text(row.frame, libs));
}

} // verus!
