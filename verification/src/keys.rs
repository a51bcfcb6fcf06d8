//! What the viewer promises of single keys.

use vstd::prelude::*;

use crate::cutoff::Cutoff;
use crate::tree::{frame_text, NodeView};
use crate::ui::{
    after_collapse, after_expand, after_focus, after_scroll, after_unfocus, initially_expanded,
    pressed, settled, shown_rows, App, Key, Subject, ViewState,
};

verus! {

/// Once it has settled, the cursor is on a row wherever there is one, and the
/// same rows are shown.
pub proof fn law_settled_cursor_is_on_a_row(sub: Subject, st: ViewState)
    ensures
        shown_rows(sub, settled(sub, st)) == shown_rows(sub, st),
        shown_rows(sub, st).len() > 0 ==> settled(sub, st).cursor < shown_rows(sub, st).len(),
        st.cursor < shown_rows(sub, st).len() || shown_rows(sub, st).len() == 0 ==> settled(sub, st)
            == st,
        settled(sub, st) == (ViewState { cursor: settled(sub, st).cursor, ..st }),
        0 < shown_rows(sub, st).len() <= st.cursor ==> settled(sub, st).cursor + 1 == shown_rows(
            sub,
            st,
        ).len(),
{
}

/// Outside the filter prompt, Escape leaves the focus and the filter; pressed
/// again it ends the viewer, and it does so at once where neither was set.
pub proof fn law_escape_clears_and_then_quits(sub: Subject, st: ViewState)
    requires
        !st.filtering,
    ensures
        ({
            let (next, quit) = pressed(sub, st, Key::Esc, false);
            &&& quit <==> st.focus is None && st.filter.len() == 0
            &&& next.focus is None && next.filter.len() == 0
            &&& pressed(sub, next, Key::Esc, false).1
        }),
{
}

/// In the filter prompt no key ends the viewer, and Backspace takes back what
/// was typed.
pub proof fn law_backspace_takes_back_a_character(sub: Subject, st: ViewState, c: char)
    requires
        st.filtering,
    ensures
        forall|key: Key, control: bool| !(#[trigger] pressed(sub, st, key, control)).1,
        ({
            let (next, _) = pressed(sub, st, Key::Char(c), false);
            pressed(sub, next, Key::Backspace, false).0 == st
        }),
{
    assert(st.filter.push(c).drop_last() =~= st.filter);
}

/// Scrolling right and back left shows what was shown, up to the greatest scroll
/// offset.
pub proof fn law_scrolling_back(st: ViewState)
    requires
        st.symbol_scroll + 8 <= usize::MAX,
    ensures
        after_scroll(after_scroll(st, true), false) == st,
{
}

/// Typing a filter and dropping it leaves what was expanded and focused.
pub proof fn law_dropping_the_filter_keeps_the_view(sub: Subject, st: ViewState)
    requires
        st.filtering,
    ensures
        ({
            let (next, _) = pressed(sub, st, Key::Esc, false);
            &&& next.expanded == st.expanded
            &&& next.focus == st.focus
            &&& next.filter.len() == 0
            &&& !next.filtering
        }),
{
}

/// Once a key has moved the cursor of a settled viewer, it is still on a row.
pub proof fn law_moving_stays_on_rows(app: App, key: Key)
    requires
        !app.filtering,
        app.cursor < shown_rows(app.subject(), app.state()).len(),
        key == Key::Up || key == Key::Down || key == Key::PageUp || key == Key::PageDown || key
            == Key::Home || key == Key::End,
    ensures
        ({
            let (next, quit) = pressed(app.subject(), app.state(), key, false);
            &&& !quit
            &&& shown_rows(app.subject(), next) == shown_rows(app.subject(), app.state())
            &&& next.cursor < shown_rows(app.subject(), next).len()
        }),
{
}

/// Keys that move the cursor change it, bring the symbols back to their beginning,
/// and change nothing else: by one row, by twenty, to the first, or to the last,
/// and never beyond the first or the last. Where there is no row, those that go
/// down do nothing.
pub proof fn law_moving_keys_move_the_cursor(sub: Subject, st: ViewState, control: bool)
    requires
        !st.filtering,
    ensures
        ({
            let len = shown_rows(sub, st).len();
            let down = pressed(sub, st, Key::Down, control);
            let page_down = pressed(sub, st, Key::PageDown, control);
            let up = pressed(sub, st, Key::Up, control);
            let page_up = pressed(sub, st, Key::PageUp, control);
            let home = pressed(sub, st, Key::Home, control);
            let end = pressed(sub, st, Key::End, control);
            &&& !down.1 && !page_down.1 && !up.1 && !page_up.1 && !home.1 && !end.1
            &&& len == 0 ==> down.0 == st && page_down.0 == st && end.0 == st
            &&& len > 0 ==> down.0 == (ViewState { cursor: down.0.cursor, symbol_scroll: 0, ..st })
            &&& len > 0 ==> page_down.0 == (ViewState {
                cursor: page_down.0.cursor,
                symbol_scroll: 0,
                ..st
            })
            &&& up.0 == (ViewState { cursor: up.0.cursor, symbol_scroll: 0, ..st })
            &&& page_up.0 == (ViewState { cursor: page_up.0.cursor, symbol_scroll: 0, ..st })
            &&& home.0 == (ViewState { cursor: 0, symbol_scroll: 0, ..st })
            &&& len > 0 ==> end.0 == (ViewState {
                cursor: (len - 1) as nat,
                symbol_scroll: 0,
                ..st
            })
            &&& st.cursor + 1 < len ==> down.0.cursor == st.cursor + 1
            &&& 0 < len <= st.cursor + 1 ==> down.0.cursor + 1 == len
            &&& st.cursor + 20 < len ==> page_down.0.cursor == st.cursor + 20
            &&& 0 < len <= st.cursor + 20 ==> page_down.0.cursor + 1 == len
            &&& st.cursor >= 1 ==> up.0.cursor + 1 == st.cursor
            &&& st.cursor == 0 ==> up.0.cursor == 0
            &&& st.cursor >= 20 ==> page_up.0.cursor + 20 == st.cursor
            &&& st.cursor < 20 ==> page_up.0.cursor == 0
        }),
{
}

/// Going down and up again leads back, wherever there is a row to go to.
pub proof fn law_up_undoes_down(sub: Subject, st: ViewState)
    requires
        !st.filtering,
        st.cursor + 1 < shown_rows(sub, st).len(),
        st.symbol_scroll == 0,
    ensures
        pressed(sub, pressed(sub, st, Key::Down, false).0, Key::Up, false).0 == st,
        st.cursor + 20 < shown_rows(sub, st).len() ==> pressed(
            sub,
            pressed(sub, st, Key::PageDown, false).0,
            Key::PageUp,
            false,
        ).0 == st,
{
}

/// Outside the filter prompt, letters stand for the arrow keys.
pub proof fn law_letters_stand_for_arrows(sub: Subject, st: ViewState, control: bool)
    requires
        !st.filtering,
    ensures
        pressed(sub, st, Key::Char('j'), control) == pressed(sub, st, Key::Down, control),
        pressed(sub, st, Key::Char('k'), control) == pressed(sub, st, Key::Up, control),
        pressed(sub, st, Key::Char('h'), control) == pressed(sub, st, Key::Left, control),
        pressed(sub, st, Key::Char('l'), control) == pressed(sub, st, Key::Right, control),
{
}

/// The viewer ends with `q`, with control and `c`, and with Escape where neither
/// a focus nor a filter is set; with nothing else.
pub proof fn law_what_ends_the_viewer(sub: Subject, st: ViewState, key: Key, control: bool)
    ensures
        pressed(sub, st, key, control).1 <==> {
            &&& !st.filtering
            &&& {
                ||| key == Key::Char('q')
                ||| key == Key::Char('c') && control
                ||| key == Key::Esc && st.focus is None && st.filter.len() == 0
            }
        },
{
}

/// Outside the filter prompt, the letters do what they stand for, and a key that
/// stands for nothing does nothing.
pub proof fn law_what_letters_do(sub: Subject, st: ViewState, key: Key, control: bool)
    requires
        !st.filtering,
    ensures
        pressed(sub, st, Key::Char('e'), control).0 == after_expand(sub, st),
        !control ==> pressed(sub, st, Key::Char('c'), control).0 == after_collapse(sub, st),
        pressed(sub, st, Key::Char('F'), control).0 == after_focus(sub, st),
        pressed(sub, st, Key::Char('u'), control).0 == after_unfocus(st),
        pressed(sub, st, Key::Left, control).0 == after_scroll(st, false),
        pressed(sub, st, Key::Right, control).0 == after_scroll(st, true),
        pressed(sub, st, Key::Char('q'), control).0 == st,
        st.focus is None ==> pressed(sub, st, Key::Esc, control).0 == (ViewState {
            filter: Seq::empty(),
            ..st
        }),
        st.focus is Some ==> pressed(sub, st, Key::Esc, control).0 == (ViewState {
            filter: Seq::empty(),
            focus: None,
            cursor: 0,
            symbol_scroll: 0,
            status: "cleared focus"@,
            ..st
        }),
        pressed(sub, st, Key::Char('/'), control).0 == (ViewState {
            filtering: true,
            filter: Seq::empty(),
            ..st
        }),
        key == Key::Enter || key == Key::Backspace || key == Key::Other || (key matches Key::Char(c)
            && !seq!['q', 'j', 'k', 'h', 'l', 'e', 'c', 'F', 'u', '/'].contains(c)) ==> pressed(
            sub,
            st,
            key,
            control,
        ) == (st, false),
{
    let known = seq!['q', 'j', 'k', 'h', 'l', 'e', 'c', 'F', 'u', '/'];
    if let Key::Char(c) = key {
        assert forall|i: int| 0 <= i < known.len() implies known.contains(#[trigger] known[i]) by {}
        assert(known[0] == 'q' && known[1] == 'j' && known[2] == 'k' && known[3] == 'h' && known[4]
            == 'l' && known[5] == 'e' && known[6] == 'c' && known[7] == 'F' && known[8] == 'u'
            && known[9] == '/');
    }
}

/// In the filter prompt a character is added to the filter, unless control is
/// held; Enter keeps the filter and Escape drops it, both with the cursor on the
/// first row; Backspace does nothing to an empty filter; other keys do nothing.
pub proof fn law_what_the_prompt_does(
    sub: Subject,
    st: ViewState,
    c: char,
    key: Key,
    control: bool,
)
    requires
        st.filtering,
    ensures
        pressed(sub, st, Key::Char(c), false).0 == (ViewState { filter: st.filter + seq![c], ..st }),
        pressed(sub, st, Key::Char(c), true).0 == st,
        pressed(sub, st, Key::Enter, control).0 == (ViewState {
            filtering: false,
            cursor: 0,
            symbol_scroll: 0,
            ..st
        }),
        pressed(sub, st, Key::Esc, control).0 == (ViewState {
            filtering: false,
            filter: Seq::empty(),
            cursor: 0,
            symbol_scroll: 0,
            ..st
        }),
        st.filter.len() == 0 ==> pressed(sub, st, Key::Backspace, control).0 == st,
        key != Key::Enter && key != Key::Esc && key != Key::Backspace && !(key is Char)
            ==> pressed(sub, st, key, control).0 == st,
{
    assert(st.filter.push(c) =~= st.filter + seq![c]);
}

/// Symbols are scrolled by eight characters, and not beyond their beginning or the
/// greatest offset; nothing else changes.
pub proof fn law_scrolling_goes_by_eight(st: ViewState)
    requires
        st.symbol_scroll <= usize::MAX,
    ensures
        after_scroll(st, true) == (ViewState {
            symbol_scroll: after_scroll(st, true).symbol_scroll,
            ..st
        }),
        after_scroll(st, false) == (ViewState {
            symbol_scroll: after_scroll(st, false).symbol_scroll,
            ..st
        }),
        st.symbol_scroll + 8 <= usize::MAX ==> after_scroll(st, true).symbol_scroll
            == st.symbol_scroll + 8,
        st.symbol_scroll + 8 > usize::MAX ==> after_scroll(st, true).symbol_scroll == usize::MAX,
        st.symbol_scroll >= 8 ==> after_scroll(st, false).symbol_scroll + 8 == st.symbol_scroll,
        st.symbol_scroll < 8 ==> after_scroll(st, false).symbol_scroll == 0,
{
}

/// Whether a path leads to a node or below it.
pub open spec fn at_or_below(p: Seq<usize>, node: Seq<usize>) -> bool {
    node.len() <= p.len() && p.take(node.len() as int) == node
}

proof fn lemma_prefix(p: Seq<usize>, node: Seq<usize>)
    ensures
        at_or_below(p, node) <==> node.is_prefix_of(p),
        p == node ==> at_or_below(p, node),
{
    if node.len() <= p.len() {
        assert(p.take(node.len() as int) =~= p.subrange(0, node.len() as int));
    }
    if p == node {
        assert(p.take(node.len() as int) =~= node);
    }
}

/// Expanding a row changes what is expanded, and nothing else: the row is
/// expanded, nothing below it is, and all that is elsewhere stays.
pub proof fn law_expanding_touches_the_row_only(sub: Subject, st: ViewState, p: Seq<usize>)
    requires
        st.cursor < shown_rows(sub, st).len(),
    ensures
        ({
            let row = shown_rows(sub, st)[st.cursor as int];
            let next = after_expand(sub, st);
            &&& next == (ViewState { expanded: next.expanded, ..st })
            &&& !row.has_children ==> next == st
            &&& row.has_children && p == row.path ==> next.expanded.contains(p)
            &&& row.has_children && p != row.path && at_or_below(p, row.path)
                ==> !next.expanded.contains(p)
            &&& !at_or_below(p, row.path) ==> (next.expanded.contains(p) <==> st.expanded.contains(
                p,
            ))
        }),
{
    lemma_prefix(p, shown_rows(sub, st)[st.cursor as int].path);
    let path = shown_rows(sub, st)[st.cursor as int].path;
    if p.len() == path.len() && at_or_below(p, path) {
        assert(p.take(path.len() as int) =~= p);
    }
}

/// Collapsing changes what is expanded, and nothing else but the cursor: nothing
/// at the row or below it stays expanded, or, where the row is collapsed already
/// and not at depth zero, at its parent or below that; all that is elsewhere
/// stays.
pub proof fn law_collapsing_touches_the_row_only(sub: Subject, st: ViewState, p: Seq<usize>)
    requires
        st.cursor < shown_rows(sub, st).len(),
    ensures
        ({
            let row = shown_rows(sub, st)[st.cursor as int];
            let next = after_collapse(sub, st);
            let target = if row.expanded {
                row.path
            } else {
                row.path.drop_last()
            };
            &&& next == (ViewState { expanded: next.expanded, cursor: next.cursor, ..st })
            &&& row.expanded ==> next.cursor == st.cursor
            &&& !row.expanded && (row.depth == 0 || row.path.len() <= 1) ==> next == st
            &&& row.expanded || (row.depth > 0 && row.path.len() > 1) ==> if at_or_below(
                p,
                target,
            ) {
                !next.expanded.contains(p)
            } else {
                next.expanded.contains(p) <==> st.expanded.contains(p)
            }
        }),
{
    let row = shown_rows(sub, st)[st.cursor as int];
    let target = if row.expanded {
        row.path
    } else {
        row.path.drop_last()
    };
    lemma_prefix(p, target);
    if p.len() == target.len() && at_or_below(p, target) {
        assert(p.take(target.len() as int) =~= p);
    }
}

/// Focusing roots the view at the row's node and brings the cursor and the symbols
/// back to the beginning. Of what lies at the node or below it, the node alone is
/// then expanded, if it has children to show; what is elsewhere, and the filter,
/// stays.
pub proof fn law_focusing_opens_the_node_only(sub: Subject, st: ViewState, p: Seq<usize>)
    requires
        st.cursor < shown_rows(sub, st).len(),
    ensures
        ({
            let row = shown_rows(sub, st)[st.cursor as int];
            let next = after_focus(sub, st);
            &&& next.focus == Some(row.path)
            &&& next.cursor == 0 && next.symbol_scroll == 0
            &&& next.filter == st.filter && next.filtering == st.filtering
            &&& next.status == "focused on "@ + frame_text(row.frame, sub.libs)
            &&& row.has_children ==> next.expanded.contains(row.path)
            &&& p != row.path && at_or_below(p, row.path) ==> !next.expanded.contains(p)
            &&& !at_or_below(p, row.path) || (p == row.path && !row.has_children) ==> (
            next.expanded.contains(p) <==> st.expanded.contains(p))
        }),
{
    let path = shown_rows(sub, st)[st.cursor as int].path;
    lemma_prefix(p, path);
    if p.len() == path.len() && at_or_below(p, path) {
        assert(p.take(path.len() as int) =~= p);
    }
}

/// Where the cursor is on no row, expanding, collapsing, and focusing do nothing.
/// Clearing the focus leaves what is expanded and the filter, and does nothing
/// without a focus.
pub proof fn law_nothing_is_done_off_the_rows(sub: Subject, st: ViewState)
    ensures
        st.cursor >= shown_rows(sub, st).len() ==> after_expand(sub, st) == st && after_collapse(
            sub,
            st,
        ) == st && after_focus(sub, st) == st,
        st.focus is None ==> after_unfocus(st) == st,
        st.focus is Some ==> after_unfocus(st) == (ViewState {
            focus: None,
            cursor: 0,
            symbol_scroll: 0,
            status: "cleared focus"@,
            ..st
        }),
{
}

/// A viewer starts with those roots expanded that reach the share for it and do
/// not fall below the cutoff, and with nothing else.
pub proof fn law_what_starts_expanded(
    nodes: Seq<NodeView>,
    auto_expand: Cutoff,
    cutoff: Cutoff,
    p: Seq<usize>,
    i: usize,
)
    ensures
        i < nodes.len() ==> (initially_expanded(nodes, auto_expand, cutoff).contains(seq![i])
            <==> auto_expand.admits(nodes[i as int].total) && !cutoff.hides(
            nodes[i as int].total,
        )),
        initially_expanded(nodes, auto_expand, cutoff).contains(p) ==> p.len() == 1 && p[0]
            < nodes.len(),
{
}

/// A cutoff tells smaller counts from larger ones: what it hides it does not admit,
/// with a count it hides all smaller ones, and a cutoff at a count admits that
/// count and hides the one before.
pub proof fn law_cutoffs_tell_counts_apart(cutoff: Cutoff, a: nat, b: nat, m: u64)
    ensures
        !(cutoff.hides(a) && cutoff.admits(a)),
        cutoff.hides(b) && a <= b ==> cutoff.hides(a),
        cutoff.admits(a) && a <= b ==> cutoff.admits(b),
        cutoff != Cutoff::NotANumber ==> cutoff.hides(a) || cutoff.admits(a),
        Cutoff::AtLeast(m).admits(m as nat),
        m > 0 ==> Cutoff::AtLeast(m).hides((m - 1) as nat),
        Cutoff::Unreachable.hides(a),
        !Cutoff::NotANumber.hides(a) && !Cutoff::NotANumber.admits(a),
{
}

} // verus!
