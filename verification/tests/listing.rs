use samply_report::cutoff::Cutoff;
use samply_report::paths::PathSet;
use samply_report::profile::Library;
use samply_report::rows::VisibleRow;
use samply_report::tree::{CallTree, FrameKey, TreeNode};

fn node(name: &str, self_count: u64, children: Vec<TreeNode>) -> TreeNode {
    let below: u64 = children.iter().map(|c| c.total).sum();
    TreeNode {
        frame: FrameKey { lib_index: Some(0), name: name.to_string() },
        total: self_count + below,
        self_count,
        children,
    }
}

/// ```text
/// main 100
///   parse 60
///     lex 50
///       read 10
///     eval 8
///   eval 30
///     lex 20
/// idle 3
/// ```
fn tree() -> CallTree {
    let parse = node(
        "parse",
        2,
        vec![
            node("lex", 40, vec![node("read", 10, vec![])]),
            node("eval", 8, vec![]),
        ],
    );
    let eval = node("eval", 10, vec![node("lex", 20, vec![])]);
    CallTree {
        roots: vec![node("main", 10, vec![parse, eval]), node("idle", 3, vec![])],
        total_samples: 103,
    }
}

fn open(paths: &[&[usize]]) -> PathSet {
    let mut set = PathSet::new();
    for p in paths {
        set.insert(p.to_vec());
    }
    set
}

fn shape(rows: &[VisibleRow]) -> Vec<(usize, &str, bool, bool)> {
    rows.iter()
        .map(|r| (r.depth, r.frame.name.as_str(), r.has_children, r.expanded))
        .collect()
}

fn all_rows() -> Cutoff {
    Cutoff::AtLeast(0)
}

#[test]
fn only_open_nodes_show_their_children() {
    let t = tree();
    let rows = t.flatten(&open(&[]), &all_rows());
    assert_eq!(shape(&rows), [(0, "main", true, false), (0, "idle", false, false)]);
    let rows = t.flatten(&open(&[&[0], &[0, 0]]), &all_rows());
    assert_eq!(
        shape(&rows),
        [
            (0, "main", true, true),
            (1, "parse", true, true),
            (2, "lex", true, false),
            (2, "eval", false, false),
            (1, "eval", true, false),
            (0, "idle", false, false),
        ]
    );
    assert_eq!(rows[2].path, [0, 0, 0]);
    assert_eq!(rows[2].total, 50);
    assert_eq!(rows[2].self_count, 40);
}

#[test]
fn an_open_node_under_a_closed_one_does_not_show() {
    let rows = tree().flatten(&open(&[&[0, 0]]), &all_rows());
    assert_eq!(shape(&rows), [(0, "main", true, false), (0, "idle", false, false)]);
}

#[test]
fn rows_come_in_tree_order() {
    let everything = open(&[&[0], &[0, 0], &[0, 0, 0], &[0, 1]]);
    let rows = tree().flatten(&everything, &all_rows());
    assert_eq!(rows.len(), 8);
    for pair in rows.windows(2) {
        assert!(pair[0].path < pair[1].path);
    }
    for r in &rows {
        assert_eq!(r.depth, r.path.len() - 1);
    }
}

#[test]
fn what_falls_below_the_cutoff_is_hidden() {
    let everything = open(&[&[0], &[0, 0], &[0, 0, 0], &[0, 1]]);
    let t = tree();
    let rows = t.flatten(&everything, &Cutoff::AtLeast(20));
    assert_eq!(
        shape(&rows),
        [
            (0, "main", true, true),
            (1, "parse", true, true),
            (2, "lex", false, true),
            (1, "eval", true, true),
            (2, "lex", false, false),
        ]
    );
    assert!(t.flatten(&everything, &Cutoff::Unreachable).is_empty());
    // Nothing falls below what is not a number, and nothing reaches it.
    let rows = t.flatten(&everything, &Cutoff::NotANumber);
    assert_eq!(shape(&rows), [(0, "main", false, true), (0, "idle", false, false)]);
}

#[test]
fn a_subtree_is_re_rooted_at_depth_zero() {
    let t = tree();
    let rows = t.flatten_rooted(&vec![0, 0], &open(&[&[0], &[0, 0]]), &all_rows());
    assert_eq!(
        shape(&rows),
        [
            (0, "parse", true, true),
            (1, "lex", true, false),
            (1, "eval", false, false),
        ]
    );
    assert_eq!(rows[1].path, [0, 0, 0]);
    // Its root shows whatever its weight.
    let rows = t.flatten_rooted(&vec![1], &open(&[]), &Cutoff::AtLeast(50));
    assert_eq!(shape(&rows), [(0, "idle", false, false)]);
    assert!(t.flatten_rooted(&vec![5], &open(&[]), &all_rows()).is_empty());
    assert!(t.flatten_rooted(&vec![], &open(&[]), &all_rows()).is_empty());
}

#[test]
fn only_topmost_matches_become_roots() {
    let t = tree();
    let is_lex = |f: &FrameKey| f.name == "lex";
    let rows = t.flatten_filtered(&open(&[&[0, 0, 0]]), None, &all_rows(), is_lex);
    assert_eq!(
        shape(&rows),
        [
            (0, "lex", true, true),
            (1, "read", false, false),
            (0, "lex", false, false),
        ]
    );
    assert_eq!(rows[2].path, [0, 1, 0]);
    let rows = t.flatten_filtered(&open(&[]), None, &all_rows(), |f: &FrameKey| {
        f.name == "parse" || f.name == "lex"
    });
    let paths: Vec<&[usize]> = rows.iter().map(|r| r.path.as_slice()).collect();
    assert_eq!(paths, [&[0, 0][..], &[0, 1, 0][..]]);
}

#[test]
fn matches_below_the_cutoff_are_not_searched_for() {
    let t = tree();
    let is_eval = |f: &FrameKey| f.name == "eval";
    let rows = t.flatten_filtered(&open(&[]), None, &Cutoff::AtLeast(9), is_eval);
    let paths: Vec<&[usize]> = rows.iter().map(|r| r.path.as_slice()).collect();
    assert_eq!(paths, [&[0, 1][..]]);
}

#[test]
fn a_filter_can_be_kept_within_a_subtree() {
    let t = tree();
    let is_lex = |f: &FrameKey| f.name == "lex";
    let within = vec![0, 1];
    let rows = t.flatten_filtered(&open(&[]), Some(&within), &all_rows(), is_lex);
    assert_eq!(rows.len(), 1);
    assert_eq!(rows[0].path, [0, 1, 0]);
    let within = vec![0, 0, 0];
    let rows = t.flatten_filtered(&open(&[]), Some(&within), &Cutoff::AtLeast(99), is_lex);
    assert_eq!(rows.len(), 1);
    assert_eq!(rows[0].path, [0, 0, 0]);
    let nowhere = vec![4];
    assert!(t
        .flatten_filtered(&open(&[]), Some(&nowhere), &all_rows(), is_lex)
        .is_empty());
}

#[test]
fn a_cutoff_is_found_for_a_percentage() {
    let pct = |part: u64, whole: u64| {
        if whole == 0 {
            0.0
        } else {
            (part as f64) * 100.0 / (whole as f64)
        }
    };
    let least = |whole: u64, percent: f64| Cutoff::find(|t| !(pct(t, whole) < percent));
    assert_eq!(least(200, 10.0), Cutoff::AtLeast(20));
    assert_eq!(least(200, 10.1), Cutoff::AtLeast(21));
    assert_eq!(least(200, 0.0), Cutoff::AtLeast(0));
    assert_eq!(least(200, -3.0), Cutoff::AtLeast(0));
    assert_eq!(least(0, 0.5), Cutoff::Unreachable);
    assert_eq!(least(3, f64::INFINITY), Cutoff::Unreachable);
    assert_eq!(Cutoff::find(|t| t == u64::MAX), Cutoff::AtLeast(u64::MAX));
    let c = least(1000, 33.3);
    for t in 0..=1000 {
        assert_eq!(c.is_reached(t), pct(t, 1000) >= 33.3);
        assert_eq!(c.is_below(t), pct(t, 1000) < 33.3);
    }
}

#[test]
fn path_sets_hold_what_was_put_in() {
    let mut set = open(&[&[0], &[0, 1], &[0, 1, 2], &[1]]);
    set.insert(vec![1]);
    assert!(set.contains(&[1]));
    set.remove(&[1]);
    assert!(!set.contains(&[1]));
    set.clear_below(&[0]);
    assert!(set.contains(&[0]));
    assert!(!set.contains(&[0, 1]));
    assert!(!set.contains(&[0, 1, 2]));
    assert!(!set.contains(&[]));
}

fn libs() -> Vec<Library> {
    vec![Library {
        name: "app".to_string(),
        path: None,
        debug_name: None,
        debug_path: None,
        breakpad_id: None,
        code_id: None,
        arch: None,
    }]
}

#[test]
fn a_report_expands_what_has_its_share() {
    let lines = tree().report(&libs(), &Cutoff::AtLeast(40), &all_rows(), 0);
    let texts: Vec<&str> = lines.iter().map(|l| l.text.as_str()).collect();
    assert_eq!(
        texts,
        [
            "- main  [app]",
            "  - parse  [app]",
            "    - lex  [app]",
            "        read  [app]",
            "      eval  [app]",
            "  + eval  [app]",
            "  idle  [app]",
        ]
    );
    assert_eq!((lines[1].total, lines[1].self_count), (60, 2));
}

#[test]
fn a_report_stops_at_the_greatest_depth() {
    let lines = tree().report(&libs(), &Cutoff::AtLeast(0), &all_rows(), 2);
    let texts: Vec<&str> = lines.iter().map(|l| l.text.as_str()).collect();
    assert_eq!(
        texts,
        ["- main  [app]", "  - parse  [app]", "  - eval  [app]", "  idle  [app]"]
    );
    let lines = tree().report(&libs(), &Cutoff::AtLeast(0), &all_rows(), 1);
    assert_eq!(lines.len(), 2);
}

#[test]
fn a_report_hides_what_falls_below_the_threshold() {
    let lines = tree().report(&libs(), &Cutoff::Unreachable, &Cutoff::AtLeast(30), 0);
    let texts: Vec<&str> = lines.iter().map(|l| l.text.as_str()).collect();
    // Roots are expanded whatever the share.
    assert_eq!(texts, ["- main  [app]", "  + parse  [app]", "    eval  [app]"]);
}
