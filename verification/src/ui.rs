//! The state of the interactive viewer and what each key does to it.

use vstd::prelude::*;
use vstd::string::*;

use crate::cutoff::Cutoff;
use crate::paths::{copy_path, is_below, same_path, PathSet};
use crate::profile::{Library, Profile};
use crate::rows::{
    decides, filtered_rows, rooted_rows, row_views, tree_rows, RowView, VisibleRow,
};
use crate::text::{contains_text, lowercase, lowercased, occurs};
use crate::tree::{
    format_frame, frame_text, lemma_node_view, CallTree, FrameKey, FrameView, NodePath, NodeView,
};

verus! {

/// Roots with at least this percentage of the samples start expanded.
pub const AUTO_EXPAND_PERCENT: u32 = 5;

/// The viewer.
#[derive(Debug)]
pub struct App {
    pub profile_path: String,
    pub thread_name: String,
    pub thread_index: usize,
    pub tree: CallTree,
    pub libs: Vec<Library>,
    pub expanded: PathSet,
    pub cursor: usize,
    pub filter: String,
    pub filtering: bool,
    pub status: String,
    /// Horizontal scroll offset (in characters) for the Symbol column.
    pub symbol_scroll: usize,
    /// When set, the view is re-rooted on this node.
    pub focus_root: Option<NodePath>,
    /// Nodes whose share of the samples is below this are hidden.
    pub cutoff: Cutoff,
}

/// What is being viewed; no key changes it.
pub struct Subject {
    pub nodes: Seq<NodeView>,
    pub libs: Seq<Library>,
    pub cutoff: Cutoff,
}

/// What keys change.
#[verifier::ext_equal]
pub struct ViewState {
    pub expanded: Set<Seq<usize>>,
    pub cursor: nat,
    pub filter: Seq<char>,
    pub filtering: bool,
    pub status: Seq<char>,
    pub symbol_scroll: nat,
    pub focus: Option<Seq<usize>>,
}

/// A key.
#[derive(Debug, Clone, Copy, PartialEq, Eq)]
pub enum Key {
    Char(char),
    Esc,
    Enter,
    Backspace,
    Up,
    Down,
    Left,
    Right,
    PageUp,
    PageDown,
    Home,
    End,
    Other,
}

/// Whether a frame passes the filter: its text holds the filter's, whatever
/// the case.
pub open spec fn passes(filter: Seq<char>, libs: Seq<Library>, frame: FrameView) -> bool {
    occurs(lowercased(filter), lowercased(frame_text(frame, libs)))
}

/// The rows shown: the whole tree or the focused subtree, or with a filter the
/// topmost frames in it that pass.
pub open spec fn shown_rows(sub: Subject, st: ViewState) -> Seq<RowView> {
    if st.filter.len() == 0 {
        match st.focus {
            Some(root) => rooted_rows(sub.nodes, root, st.expanded, sub.cutoff),
            None => tree_rows(sub.nodes, st.expanded, sub.cutoff),
        }
    } else {
        filtered_rows(
            sub.nodes,
            st.expanded,
            st.focus,
            sub.cutoff,
            |f: FrameView| passes(st.filter, sub.libs, f),
        )
    }
}

/// Expanded paths without those below a path.
pub open spec fn cleared(expanded: Set<Seq<usize>>, path: Seq<usize>) -> Set<Seq<usize>> {
    expanded.filter(|p: Seq<usize>| !is_below(p, path))
}

/// Expanded paths without a path and those below it.
pub open spec fn folded(expanded: Set<Seq<usize>>, path: Seq<usize>) -> Set<Seq<usize>> {
    cleared(expanded.remove(path), path)
}

/// Focusing on the current row: the view is re-rooted there and shows the
/// node's immediate children.
pub open spec fn after_focus(sub: Subject, st: ViewState) -> ViewState {
    let rows = shown_rows(sub, st);
    if st.cursor >= rows.len() {
        st
    } else {
        let row = rows[st.cursor as int];
        ViewState {
            focus: Some(row.path),
            expanded: if row.has_children {
                cleared(st.expanded, row.path).insert(row.path)
            } else {
                cleared(st.expanded, row.path)
            },
            cursor: 0,
            symbol_scroll: 0,
            status: "focused on "@ + frame_text(row.frame, sub.libs),
            ..st
        }
    }
}

/// Clearing the focus, if there is one.
pub open spec fn after_unfocus(st: ViewState) -> ViewState {
    if st.focus is None {
        st
    } else {
        ViewState { focus: None, cursor: 0, symbol_scroll: 0, status: "cleared focus"@, ..st }
    }
}

/// Expanding the current row by one level.
pub open spec fn after_expand(sub: Subject, st: ViewState) -> ViewState {
    let rows = shown_rows(sub, st);
    if st.cursor >= rows.len() || !rows[st.cursor as int].has_children {
        st
    } else {
        let path = rows[st.cursor as int].path;
        ViewState { expanded: cleared(st.expanded, path).insert(path), ..st }
    }
}

/// Whether `i` is the first row for a path.
pub open spec fn is_first_row(rows: Seq<RowView>, path: Seq<usize>, i: int) -> bool {
    &&& 0 <= i < rows.len()
    &&& rows[i].path == path
    &&& forall|j: int| 0 <= j < i ==> (#[trigger] rows[j]).path != path
}

/// Collapsing the current row, or its parent if it is collapsed already; then
/// the cursor moves up to the parent.
pub open spec fn after_collapse(sub: Subject, st: ViewState) -> ViewState {
    let rows = shown_rows(sub, st);
    if st.cursor >= rows.len() {
        st
    } else {
        let row = rows[st.cursor as int];
        if row.expanded {
            ViewState { expanded: folded(st.expanded, row.path), ..st }
        } else if row.depth == 0 || row.path.len() <= 1 {
            st
        } else {
            let parent = row.path.drop_last();
            let next = ViewState { expanded: folded(st.expanded, parent), ..st };
            let after = shown_rows(sub, next);
            if exists|i: int| is_first_row(after, parent, i) {
                ViewState {
                    cursor: (choose|i: int| is_first_row(after, parent, i)) as nat,
                    ..next
                }
            } else {
                next
            }
        }
    }
}

impl App {
    /// What the viewer shows.
    pub open spec fn subject(self) -> Subject {
        Subject { nodes: self.tree@, libs: self.libs@, cutoff: self.cutoff }
    }

    /// How the viewer shows it.
    pub open spec fn state(self) -> ViewState {
        ViewState {
            expanded: self.expanded@,
            cursor: self.cursor as nat,
            filter: self.filter@,
            filtering: self.filtering,
            status: self.status@,
            symbol_scroll: self.symbol_scroll as nat,
            focus: match self.focus_root {
                Some(p) => Some(p@),
                None => None,
            },
        }
    }

    /// Whether the viewer shows the same profile, thread, and tree.
    pub open spec fn same_subject(self, other: App) -> bool {
        &&& self.profile_path == other.profile_path
        &&& self.thread_name == other.thread_name
        &&& self.thread_index == other.thread_index
        &&& self.tree == other.tree
        &&& self.libs == other.libs
        &&& self.cutoff == other.cutoff
    }

    /// The rows that are shown.
    pub fn visible_rows(&self) -> (r: Vec<VisibleRow>)
        ensures
            row_views(r@) == shown_rows(self.subject(), self.state()),
    {
        let focus = self.focus_root.as_ref();
        if self.filter.as_str().is_empty() {
            return match focus {
                Some(root) => self.tree.flatten_rooted(root, &self.expanded, &self.cutoff),
                None => self.tree.flatten(&self.expanded, &self.cutoff),
            };
        }
        let filter = lowercase(self.filter.as_str());
        let libs = self.libs.as_slice();
        let ghost says = |f: FrameView| passes(self.filter@, self.libs@, f);
        let is_match = |frame: &FrameKey| -> (b: bool)
            ensures
                b == passes(self.filter@, self.libs@, frame@),
            {
                let text = lowercase(format_frame(frame, libs).as_str());
                contains_text(text.as_str(), filter.as_str())
            };
        let rows = self.tree.flatten_filtered(&self.expanded, focus, &self.cutoff, is_match);
        assert(decides(is_match, says));
        rows
    }
}

/// The first row for a path.
fn row_index(rows: &Vec<VisibleRow>, path: &NodePath) -> (r: Option<usize>)
    ensures
        match r {
            Some(i) => {
                &&& is_first_row(row_views(rows@), path@, i as int)
                &&& i == choose|c: int| is_first_row(row_views(rows@), path@, c)
            },
            None => !exists|c: int| is_first_row(row_views(rows@), path@, c),
        },
{
    let ghost views = row_views(rows@);
    let mut i: usize = 0;
    while i < rows.len()
        invariant
            i <= rows@.len(),
            views == row_views(rows@),
            forall|j: int| 0 <= j < i ==> (#[trigger] views[j]).path != path@,
        decreases rows@.len() - i,
    {
        assert(views[i as int] == rows@[i as int]@);
        if same_path(rows[i].path.as_slice(), path.as_slice()) {
            proof {
                assert(is_first_row(views, path@, i as int));
                let c = choose|c: int| is_first_row(views, path@, c);
                if c < i {
                    assert(views[c].path != path@);
                } else if i < c {
                    assert(views[i as int].path != path@);
                }
            }
            return Some(i);
        }
        i = i + 1;
    }
    None
}

impl App {
    /// Re-roots the view on the current row.
    pub fn focus_current(&mut self)
        ensures
            final(self).same_subject(*old(self)),
            final(self).state() == after_focus(old(self).subject(), old(self).state()),
    {
        let rows = self.visible_rows();
        if self.cursor >= rows.len() {
            return ;
        }
        let row = &rows[self.cursor];
        assert(row_views(rows@)[self.cursor as int] == row@);
        let mut status = "focused on ".to_owned();
        status.append(format_frame(&row.frame, self.libs.as_slice()).as_str());
        self.focus_root = Some(copy_path(row.path.as_slice()));
        self.expanded.clear_below(row.path.as_slice());
        if row.has_children {
            self.expanded.insert(copy_path(row.path.as_slice()));
        }
        self.cursor = 0;
        self.symbol_scroll = 0;
        self.status = status;
    }

    /// Shows the whole tree again.
    pub fn clear_focus(&mut self)
        ensures
            final(self).same_subject(*old(self)),
            final(self).state() == after_unfocus(old(self).state()),
    {
        if self.focus_root.is_none() {
            return ;
        }
        self.focus_root = None;
        self.cursor = 0;
        self.symbol_scroll = 0;
        self.status = "cleared focus".to_owned();
    }

    /// Expands the current row by one level: its immediate children show, all
    /// collapsed.
    pub fn expand_node(&mut self)
        ensures
            final(self).same_subject(*old(self)),
            final(self).state() == after_expand(old(self).subject(), old(self).state()),
    {
        let rows = self.visible_rows();
        if self.cursor >= rows.len() {
            return ;
        }
        let row = &rows[self.cursor];
        assert(row_views(rows@)[self.cursor as int] == row@);
        if !row.has_children {
            return ;
        }
        self.clear_descendants(&row.path);
        self.expanded.insert(copy_path(row.path.as_slice()));
    }

    /// Collapses the current row, or its parent if it is collapsed already.
    pub fn collapse_node(&mut self)
        ensures
            final(self).same_subject(*old(self)),
            final(self).state() == after_collapse(old(self).subject(), old(self).state()),
    {
        let rows = self.visible_rows();
        if self.cursor >= rows.len() {
            return ;
        }
        let row = &rows[self.cursor];
        assert(row_views(rows@)[self.cursor as int] == row@);
        if row.expanded {
            self.collapse_path(&row.path);
            return ;
        }
        if row.depth == 0 || row.path.len() <= 1 {
            return ;
        }
        let mut parent = copy_path(row.path.as_slice());
        parent.pop();
        assert(parent@ =~= row.path@.drop_last());
        self.collapse_path(&parent);
        let after = self.visible_rows();
        if let Some(i) = row_index(&after, &parent) {
            self.cursor = i;
        }
    }

    /// Removes `path` and every expanded descendant of it.
    fn collapse_path(&mut self, path: &NodePath)
        ensures
            final(self).same_subject(*old(self)),
            final(self).state() == (ViewState {
                expanded: folded(old(self).expanded@, path@),
                ..old(self).state()
            }),
    {
        self.expanded.remove(path.as_slice());
        self.clear_descendants(path);
    }

    /// Removes every expanded descendant of `path`.
    fn clear_descendants(&mut self, path: &NodePath)
        ensures
            final(self).same_subject(*old(self)),
            final(self).state() == (ViewState {
                expanded: cleared(old(self).expanded@, path@),
                ..old(self).state()
            }),
    {
        self.expanded.clear_below(path.as_slice());
    }
}

/// Moving the cursor down by some rows, as far as there are any.
pub open spec fn after_down(sub: Subject, st: ViewState, by: nat) -> ViewState {
    let len = shown_rows(sub, st).len();
    if len == 0 {
        st
    } else {
        ViewState {
            cursor: if st.cursor + by < len {
                st.cursor + by
            } else {
                (len - 1) as nat
            },
            symbol_scroll: 0,
            ..st
        }
    }
}

/// Moving the cursor up by some rows, as far as there are any.
pub open spec fn after_up(st: ViewState, by: nat) -> ViewState {
    ViewState {
        cursor: if st.cursor < by {
            0
        } else {
            (st.cursor - by) as nat
        },
        symbol_scroll: 0,
        ..st
    }
}

/// Moving the cursor to the last row, if there is one.
pub open spec fn after_end(sub: Subject, st: ViewState) -> ViewState {
    let len = shown_rows(sub, st).len();
    if len == 0 {
        st
    } else {
        ViewState { cursor: (len - 1) as nat, symbol_scroll: 0, ..st }
    }
}

/// Scrolling the symbols by eight characters.
pub open spec fn after_scroll(st: ViewState, right: bool) -> ViewState {
    ViewState {
        symbol_scroll: if right {
            if st.symbol_scroll + 8 > usize::MAX {
                usize::MAX as nat
            } else {
                st.symbol_scroll + 8
            }
        } else if st.symbol_scroll < 8 {
            0
        } else {
            (st.symbol_scroll - 8) as nat
        },
        ..st
    }
}

/// What a key does while the filter is being typed.
pub open spec fn typed(st: ViewState, key: Key, control: bool) -> ViewState {
    match key {
        Key::Esc => ViewState {
            filtering: false,
            filter: Seq::empty(),
            cursor: 0,
            symbol_scroll: 0,
            ..st
        },
        Key::Enter => ViewState { filtering: false, cursor: 0, symbol_scroll: 0, ..st },
        Key::Backspace => ViewState {
            filter: if st.filter.len() == 0 {
                st.filter
            } else {
                st.filter.drop_last()
            },
            ..st
        },
        Key::Char(c) => if control {
            st
        } else {
            ViewState { filter: st.filter.push(c), ..st }
        },
        _ => st,
    }
}

/// What a key does, and whether it ends the viewer.
pub open spec fn pressed(sub: Subject, st: ViewState, key: Key, control: bool) -> (ViewState, bool) {
    if st.filtering {
        (typed(st, key, control), false)
    } else if key == Key::Char('q') || (key == Key::Char('c') && control) {
        (st, true)
    } else if key == Key::Esc {
        if st.focus is None && st.filter.len() == 0 {
            (st, true)
        } else {
            (after_unfocus(ViewState { filter: Seq::empty(), ..st }), false)
        }
    } else if key == Key::Char('j') || key == Key::Down {
        (after_down(sub, st, 1), false)
    } else if key == Key::Char('k') || key == Key::Up {
        (after_up(st, 1), false)
    } else if key == Key::PageDown {
        (after_down(sub, st, 20), false)
    } else if key == Key::PageUp {
        (after_up(st, 20), false)
    } else if key == Key::Home {
        (ViewState { cursor: 0, symbol_scroll: 0, ..st }, false)
    } else if key == Key::End {
        (after_end(sub, st), false)
    } else if key == Key::Char('h') || key == Key::Left {
        (after_scroll(st, false), false)
    } else if key == Key::Char('l') || key == Key::Right {
        (after_scroll(st, true), false)
    } else if key == Key::Char('e') {
        (after_expand(sub, st), false)
    } else if key == Key::Char('c') {
        (after_collapse(sub, st), false)
    } else if key == Key::Char('F') {
        (after_focus(sub, st), false)
    } else if key == Key::Char('u') {
        (after_unfocus(st), false)
    } else if key == Key::Char('/') {
        (ViewState { filtering: true, filter: Seq::empty(), ..st }, false)
    } else {
        (st, false)
    }
}

/// The cursor brought back onto the rows, where there are any.
pub open spec fn settled(sub: Subject, st: ViewState) -> ViewState {
    let len = shown_rows(sub, st).len();
    if st.cursor >= len && len > 0 {
        ViewState { cursor: (len - 1) as nat, ..st }
    } else {
        st
    }
}

/// The roots that start expanded: those with a large enough share that are not
/// hidden.
pub open spec fn initially_expanded(nodes: Seq<NodeView>, auto_expand: Cutoff, cutoff: Cutoff) -> Set<
    Seq<usize>,
> {
    Set::new(
        |p: Seq<usize>|
            {
                &&& p.len() == 1
                &&& p[0] < nodes.len()
                &&& auto_expand.admits(nodes[p[0] as int].total)
                &&& !cutoff.hides(nodes[p[0] as int].total)
            },
    )
}

impl App {
    /// A viewer of a thread's tree. `auto_expand` tells which roots have the
    /// share with which they start expanded.
    pub fn new(
        profile: &Profile,
        profile_path: String,
        thread_index: usize,
        thread_name: String,
        tree: CallTree,
        auto_expand: Cutoff,
        cutoff: Cutoff,
    ) -> (r: App)
        ensures
            r.profile_path == profile_path,
            r.thread_name == thread_name,
            r.thread_index == thread_index,
            r.tree == tree,
            r.libs@ == profile.libs@,
            r.cutoff == cutoff,
            r.state() == (ViewState {
                expanded: initially_expanded(tree@, auto_expand, cutoff),
                cursor: 0,
                filter: Seq::empty(),
                filtering: false,
                status: Seq::empty(),
                symbol_scroll: 0,
                focus: None,
            }),
    {
        let mut expanded = PathSet::new();
        let ghost goal = initially_expanded(tree@, auto_expand, cutoff);
        let mut i: usize = 0;
        while i < tree.roots.len()
            invariant
                i <= tree.roots@.len(),
                goal == initially_expanded(tree@, auto_expand, cutoff),
                forall|p: Seq<usize>| #[trigger]
                    expanded@.contains(p) <==> goal.contains(p) && p[0] < i,
            decreases tree.roots@.len() - i,
        {
            proof {
                lemma_node_view(tree.roots@[i as int]);
            }
            let total: u64 = tree.roots[i].total;
            let ghost before = expanded@;
            let wanted: bool = auto_expand.is_reached(total) && !cutoff.is_below(total);
            if wanted {
                let mut path: Vec<usize> = Vec::new();
                path.push(i);
                assert(path@ =~= seq![i]);
                expanded.insert(path);
            }
            proof {
                assert forall|p: Seq<usize>| #[trigger] expanded@.contains(p) <==> goal.contains(p)
                    && p[0] < i + 1 by {
                    assert(before.contains(p) <==> goal.contains(p) && p[0] < i);
                    if p.len() == 1 && p[0] == i {
                        assert(p =~= seq![i]);
                    }
                    if p == seq![i] {
                        assert(p.len() == 1 && p[0] == i);
                    }
                }
            }
            i = i + 1;
        }
        let libs = profile.libs.clone();
        assert(libs@ =~= profile.libs@);
        assert(expanded@ =~= goal);
        App {
            profile_path,
            thread_name,
            thread_index,
            tree,
            libs,
            expanded,
            cursor: 0,
            filter: String::new(),
            filtering: false,
            status: String::new(),
            symbol_scroll: 0,
            focus_root: None,
            cutoff,
        }
    }

    /// The rows to draw, with the cursor brought back onto them.
    pub fn refresh(&mut self) -> (r: Vec<VisibleRow>)
        ensures
            final(self).same_subject(*old(self)),
            final(self).state() == settled(old(self).subject(), old(self).state()),
            row_views(r@) == shown_rows(old(self).subject(), old(self).state()),
    {
        let rows = self.visible_rows();
        if self.cursor >= rows.len() && rows.len() > 0 {
            self.cursor = rows.len() - 1;
        }
        rows
    }

    fn move_down(&mut self, by: usize)
        ensures
            final(self).same_subject(*old(self)),
            final(self).state() == after_down(old(self).subject(), old(self).state(), by as nat),
    {
        let len: usize = self.visible_rows().len();
        if len > 0 {
            self.cursor = if self.cursor < len && by < len - self.cursor {
                self.cursor + by
            } else {
                len - 1
            };
            self.symbol_scroll = 0;
        }
    }

    fn move_up(&mut self, by: usize)
        ensures
            final(self).same_subject(*old(self)),
            final(self).state() == after_up(old(self).state(), by as nat),
    {
        self.cursor = if self.cursor < by {
            0
        } else {
            self.cursor - by
        };
        self.symbol_scroll = 0;
    }

    fn type_key(&mut self, key: Key, control: bool)
        ensures
            final(self).same_subject(*old(self)),
            final(self).state() == typed(old(self).state(), key, control),
    {
        match key {
            Key::Esc => {
                self.filtering = false;
                self.filter = String::new();
                self.cursor = 0;
                self.symbol_scroll = 0;
            },
            Key::Enter => {
                self.filtering = false;
                self.cursor = 0;
                self.symbol_scroll = 0;
            },
            Key::Backspace => {
                self.filter.pop();
            },
            Key::Char(c) => {
                if !control {
                    self.filter.push(c);
                }
            },
            _ => {},
        }
    }

    /// Does what a key asks for; tells whether the viewer ends.
    pub fn press(&mut self, key: Key, control: bool) -> (quit: bool)
        ensures
            final(self).same_subject(*old(self)),
            final(self).state() == pressed(
                old(self).subject(),
                old(self).state(),
                key,
                control,
            ).0,
            quit == pressed(old(self).subject(), old(self).state(), key, control).1,
    {
        if self.filtering {
            self.type_key(key, control);
            return false;
        }
        match key {
            Key::Esc => {
                if self.focus_root.is_none() && self.filter.as_str().is_empty() {
                    return true;
                }
                self.filter = String::new();
                self.clear_focus();
            },
            Key::Down => self.move_down(1),
            Key::Up => self.move_up(1),
            Key::PageDown => self.move_down(20),
            Key::PageUp => self.move_up(20),
            Key::Home => {
                self.cursor = 0;
                self.symbol_scroll = 0;
            },
            Key::End => {
                let len: usize = self.visible_rows().len();
                if len > 0 {
                    self.cursor = len - 1;
                    self.symbol_scroll = 0;
                }
            },
            Key::Left => self.scroll_left(),
            Key::Right => self.scroll_right(),
            Key::Char(c) => {
                if c == 'q' || (c == 'c' && control) {
                    return true;
                } else if c == 'j' {
                    self.move_down(1);
                } else if c == 'k' {
                    self.move_up(1);
                } else if c == 'h' {
                    self.scroll_left();
                } else if c == 'l' {
                    self.scroll_right();
                } else if c == 'e' {
                    self.expand_node();
                } else if c == 'c' {
                    self.collapse_node();
                } else if c == 'F' {
                    self.focus_current();
                } else if c == 'u' {
                    self.clear_focus();
                } else if c == '/' {
                    self.filtering = true;
                    self.filter = String::new();
                }
            },
            _ => {},
        }
        false
    }

    fn scroll_left(&mut self)
        ensures
            final(self).same_subject(*old(self)),
            final(self).state() == after_scroll(old(self).state(), false),
    {
        self.symbol_scroll = if self.symbol_scroll < 8 {
            0
        } else {
            self.symbol_scroll - 8
        };
    }

    fn scroll_right(&mut self)
        ensures
            final(self).same_subject(*old(self)),
            final(self).state() == after_scroll(old(self).state(), true),
    {
        self.symbol_scroll = if self.symbol_scroll > usize::MAX - 8 {
            usize::MAX
        } else {
            self.symbol_scroll + 8
        };
    }
}

} // verus!
