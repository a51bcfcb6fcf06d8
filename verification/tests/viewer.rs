use samply_report::cutoff::Cutoff;
use samply_report::profile::{Library, Meta, Profile};
use samply_report::rows::VisibleRow;
use samply_report::screen::{fit_symbol, indented};
use samply_report::tree::{CallTree, FrameKey, TreeNode};
use samply_report::ui::{App, Key, AUTO_EXPAND_PERCENT};

fn node(name: &str, self_count: u64, children: Vec<TreeNode>) -> TreeNode {
    let below: u64 = children.iter().map(|c| c.total).sum();
    TreeNode {
        frame: FrameKey { lib_index: Some(0), name: name.to_string() },
        total: self_count + below,
        self_count,
        children,
    }
}

/// ```text
/// main 96
///   parse 60
///     lex 50
///     eval 8
///   eval 30
///     lex 20
/// idle 4
/// ```
fn tree() -> CallTree {
    let parse = node("parse", 2, vec![node("lex", 50, vec![]), node("eval", 8, vec![])]);
    let eval = node("eval", 10, vec![node("lex", 20, vec![])]);
    CallTree {
        roots: vec![node("main", 6, vec![parse, eval]), node("idle", 4, vec![])],
        total_samples: 100,
    }
}

fn profile() -> Profile {
    Profile {
        meta: Meta {
            product: None,
            oscpu: None,
            interval: None,
            preprocessed_profile_version: None,
            version: None,
            symbolicated: None,
            sample_units: None,
            start_time: None,
        },
        libs: vec![Library {
            name: "App".to_string(),
            path: None,
            debug_name: None,
            debug_path: None,
            breakpad_id: None,
            code_id: None,
            arch: None,
        }],
        threads: vec![],
    }
}

fn app_with(auto_expand: Cutoff, cutoff: Cutoff) -> App {
    App::new(
        &profile(),
        "p.json".to_string(),
        3,
        "worker".to_string(),
        tree(),
        auto_expand,
        cutoff,
    )
}

/// All collapsed, nothing hidden.
fn app() -> App {
    app_with(Cutoff::Unreachable, Cutoff::AtLeast(0))
}

fn names(app: &App) -> Vec<String> {
    app.visible_rows()
        .iter()
        .map(|r| format!("{}{}", " ".repeat(r.depth), r.frame.name))
        .collect()
}

fn paths(rows: &[VisibleRow]) -> Vec<Vec<usize>> {
    rows.iter().map(|r| r.path.clone()).collect()
}

fn press(app: &mut App, keys: &[Key]) {
    for k in keys {
        assert!(!app.press(*k, false));
    }
}

fn type_filter(app: &mut App, text: &str) {
    press(app, &[Key::Char('/')]);
    for c in text.chars() {
        press(app, &[Key::Char(c)]);
    }
    press(app, &[Key::Enter]);
}

#[test]
fn heavy_roots_start_expanded() {
    assert_eq!(AUTO_EXPAND_PERCENT, 5);
    let a = app_with(Cutoff::AtLeast(5), Cutoff::AtLeast(0));
    assert_eq!(names(&a), ["main", " parse", " eval", "idle"]);
    let a = app_with(Cutoff::AtLeast(4), Cutoff::AtLeast(5));
    assert!(a.expanded.contains(&[0]));
    assert!(!a.expanded.contains(&[1]));
    assert_eq!(a.cursor, 0);
    assert_eq!(a.thread_name, "worker");
    assert_eq!(a.libs[0].name, "App");
    assert!(a.filter.is_empty() && a.status.is_empty() && a.focus_root.is_none());
}

#[test]
fn expanding_shows_one_level() {
    let mut a = app();
    a.expanded.insert(vec![0, 0]);
    press(&mut a, &[Key::Char('e')]);
    assert_eq!(names(&a), ["main", " parse", " eval", "idle"]);
    assert_eq!(a.cursor, 0);
    assert!(!a.expanded.contains(&[0, 0]));
    press(&mut a, &[Key::End, Key::Char('e')]);
    assert!(!a.expanded.contains(&[1]));
}

#[test]
fn collapsing_folds_the_row_and_all_below() {
    let mut a = app();
    press(&mut a, &[Key::Char('e'), Key::Down, Key::Char('e')]);
    assert_eq!(names(&a), ["main", " parse", "  lex", "  eval", " eval", "idle"]);
    press(&mut a, &[Key::Home, Key::Char('c')]);
    assert_eq!(names(&a), ["main", "idle"]);
    assert!(!a.expanded.contains(&[0, 0]));
    assert_eq!(a.cursor, 0);
    // A collapsed root stays as it is.
    press(&mut a, &[Key::Char('c')]);
    assert_eq!(names(&a), ["main", "idle"]);
}

#[test]
fn collapsing_a_collapsed_row_moves_to_its_parent() {
    let mut a = app();
    press(&mut a, &[Key::Char('e'), Key::Down, Key::Char('e'), Key::Down, Key::Down]);
    assert_eq!(a.cursor, 3);
    press(&mut a, &[Key::Char('c')]);
    assert_eq!(names(&a), ["main", " parse", " eval", "idle"]);
    assert_eq!(a.cursor, 1);
}

#[test]
fn collapsing_undoes_expanding() {
    let mut a = app();
    press(&mut a, &[Key::Char('e'), Key::Down]);
    let before = paths(&a.visible_rows());
    press(&mut a, &[Key::Char('e'), Key::Char('c')]);
    assert_eq!(paths(&a.visible_rows()), before);
    assert_eq!(a.cursor, 1);
}

#[test]
fn focusing_re_roots_the_view() {
    let mut a = app();
    press(&mut a, &[Key::Char('e'), Key::Down, Key::Char('l'), Key::Char('F')]);
    assert_eq!(names(&a), ["parse", " lex", " eval"]);
    assert_eq!(a.focus_root, Some(vec![0, 0]));
    assert_eq!((a.cursor, a.symbol_scroll), (0, 0));
    assert_eq!(a.status, "focused on parse  [App]");
    assert_eq!(a.tree_title(), "Call tree (focused: parse  [App])");
    press(&mut a, &[Key::Down, Key::Char('u')]);
    assert_eq!(names(&a), ["main", " parse", "  lex", "  eval", " eval", "idle"]);
    assert_eq!(a.cursor, 0);
    assert_eq!(a.status, "cleared focus");
    // Without a focus, clearing it does nothing.
    press(&mut a, &[Key::Down, Key::Char('u')]);
    assert_eq!(a.cursor, 1);
}

#[test]
fn a_filter_matches_whatever_the_case() {
    let mut a = app();
    type_filter(&mut a, "LEX  [ap");
    assert_eq!(a.filter, "LEX  [ap");
    assert_eq!(paths(&a.visible_rows()), [vec![0, 0, 0], vec![0, 1, 0]]);
    assert_eq!(a.tree_title(), "Call tree (filter: LEX  [ap)");
    type_filter(&mut a, "ÉVAL");
    assert!(a.visible_rows().is_empty());
    type_filter(&mut a, "eval");
    assert_eq!(paths(&a.visible_rows()), [vec![0, 0, 1], vec![0, 1]]);
    // Matches are at depth zero and have no visible parent.
    press(&mut a, &[Key::Char('c')]);
    assert_eq!(a.visible_rows().len(), 2);
}

#[test]
fn a_filter_can_be_combined_with_a_focus() {
    let mut a = app();
    press(&mut a, &[Key::Char('e'), Key::Down, Key::Down, Key::Char('F')]);
    type_filter(&mut a, "lex");
    assert_eq!(paths(&a.visible_rows()), [vec![0, 1, 0]]);
    assert_eq!(a.tree_title(), "Call tree (focused: eval  [App], filter: lex)");
    press(&mut a, &[Key::Esc]);
    assert_eq!(a.visible_rows().len(), 5);
    assert!(a.filter.is_empty() && a.focus_root.is_none());
    assert!(a.press(Key::Esc, false));
}

#[test]
fn the_prompt_takes_keys_as_text() {
    let mut a = app();
    press(&mut a, &[Key::Char('/'), Key::Char('q'), Key::Char('j'), Key::Backspace]);
    assert_eq!(a.filter, "q");
    assert_eq!(a.status_line(), "Filter: q_  (Enter apply, Esc cancel)");
    assert!(!a.press(Key::Char('c'), true));
    assert_eq!(a.filter, "q");
    press(&mut a, &[Key::Backspace, Key::Backspace, Key::Up, Key::Other]);
    assert_eq!(a.filter, "");
    press(&mut a, &[Key::Char('x'), Key::Esc]);
    assert!(!a.filtering && a.filter.is_empty());
    // Opening the prompt again starts anew.
    type_filter(&mut a, "abc");
    press(&mut a, &[Key::Char('/')]);
    assert_eq!(a.filter, "");
}

#[test]
fn dropping_a_filter_keeps_the_view() {
    let mut a = app();
    press(&mut a, &[Key::Char('e')]);
    let before = paths(&a.visible_rows());
    press(&mut a, &[Key::Char('/'), Key::Char('z')]);
    assert!(a.visible_rows().is_empty());
    press(&mut a, &[Key::Esc]);
    assert_eq!(paths(&a.visible_rows()), before);
}

#[test]
fn keys_that_quit() {
    assert!(app().press(Key::Char('q'), false));
    assert!(app().press(Key::Char('c'), true));
    assert!(app().press(Key::Esc, false));
    assert!(!app().press(Key::Char('x'), false));
    assert!(!app().press(Key::Other, true));
}

#[test]
fn the_cursor_stays_on_the_rows() {
    let mut a = app();
    press(&mut a, &[Key::Char('e')]);
    press(&mut a, &[Key::Up]);
    assert_eq!(a.cursor, 0);
    press(&mut a, &[Key::Char('j')]);
    assert_eq!(a.cursor, 1);
    press(&mut a, &[Key::PageDown]);
    assert_eq!(a.cursor, 3);
    press(&mut a, &[Key::Down]);
    assert_eq!(a.cursor, 3);
    press(&mut a, &[Key::Char('k')]);
    assert_eq!(a.cursor, 2);
    press(&mut a, &[Key::PageUp]);
    assert_eq!(a.cursor, 0);
    press(&mut a, &[Key::End]);
    assert_eq!(a.cursor, 3);
    press(&mut a, &[Key::Home]);
    assert_eq!(a.cursor, 0);
}

#[test]
fn refreshing_brings_the_cursor_back() {
    let mut a = app();
    a.cursor = 40;
    assert_eq!(a.refresh().len(), 2);
    assert_eq!(a.cursor, 1);
    let mut a = app_with(Cutoff::Unreachable, Cutoff::Unreachable);
    a.cursor = 40;
    assert!(a.refresh().is_empty());
    assert_eq!(a.cursor, 40);
    // Keys do nothing where there is no row.
    press(&mut a, &[Key::Down, Key::End, Key::Char('e'), Key::Char('c'), Key::Char('F')]);
    assert_eq!(a.cursor, 40);
}

#[test]
fn scrolling_goes_by_eight() {
    let mut a = app();
    press(&mut a, &[Key::Right, Key::Char('l'), Key::Left]);
    assert_eq!(a.symbol_scroll, 8);
    press(&mut a, &[Key::Char('h'), Key::Char('h')]);
    assert_eq!(a.symbol_scroll, 0);
    a.symbol_scroll = usize::MAX - 3;
    press(&mut a, &[Key::Right]);
    assert_eq!(a.symbol_scroll, usize::MAX);
    press(&mut a, &[Key::Down]);
    assert_eq!(a.symbol_scroll, 0);
}

#[test]
fn symbols_are_fitted_to_their_column() {
    assert_eq!(fit_symbol(1, '▶', "abc", 0, 10), "  ▶ abc");
    assert_eq!(fit_symbol(1, '▶', "abc", 0, 7), "  ▶ abc");
    assert_eq!(fit_symbol(1, '▶', "abc", 0, 6), "  ▶ a…");
    assert_eq!(fit_symbol(1, '▶', "abc", 4, 6), "abc");
    assert_eq!(fit_symbol(1, '▶', "abc", 99, 6), "c");
    assert_eq!(fit_symbol(1, '▶', "abc", 0, 1), "…");
    assert_eq!(fit_symbol(1, '▶', "abc", 6, 1), "c");
    assert_eq!(fit_symbol(1, '▶', "abc", 0, 0), "");
    assert_eq!(fit_symbol(0, ' ', "", 0, 5), "  ");
    assert_eq!(indented(2, '+', "é"), "    + é");
}

#[test]
fn rows_are_drawn_with_marker_and_scroll() {
    let mut a = app();
    press(&mut a, &[Key::Char('e'), Key::Down]);
    let rows = a.refresh();
    assert_eq!(a.row_symbol(&rows[0], 100), "▼ main  [App]");
    assert_eq!(a.row_symbol(&rows[1], 100), "  ▶ parse  [App]");
    assert_eq!(a.row_symbol(&rows[3], 100), "  idle  [App]");
    assert_eq!(a.row_symbol(&rows[1], 0), "  ▶ par…");
    assert_eq!(a.row_symbol(&rows[1], 46), "  ▶ par…");
    assert_eq!(a.row_symbol(&rows[1], 47), "  ▶ par…");
    assert_eq!(a.row_symbol(&rows[1], 48), "  ▶ pars…");
    press(&mut a, &[Key::Right]);
    assert_eq!(a.row_symbol(&rows[1], 47), "e  [App]");
}

#[test]
fn lines_around_the_tree() {
    let mut a = app();
    assert_eq!(a.title(), " samply-report  p.json  thread[3]: worker  samples: 100 ");
    assert_eq!(a.tree_title(), "Call tree");
    a.focus_root = Some(vec![7]);
    assert_eq!(a.tree_title(), "Call tree (focused: ?)");
    a.status = "ready".to_string();
    assert_eq!(
        a.status_line(),
        "ready | j/k move  e/c expand/collapse  Shift+F focus  u unfocus  h/l scroll  / filter  q quit"
    );
}
