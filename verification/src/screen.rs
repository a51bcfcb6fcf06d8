//! The texts on the viewer's screen.

use vstd::prelude::*;
use vstd::string::*;

use crate::rows::VisibleRow;
use crate::text::{chars_of, decimal, push_chars, push_decimal};
use crate::tree::{format_frame, frame_text, lemma_node_view, node_at};
use crate::ui::App;

verus! {

/// `n` spaces.
pub open spec fn spaces(n: nat) -> Seq<char> {
    Seq::new(n, |i: int| ' ')
}

/// A row's text before it is cut: indented by two for each level, the marker,
/// and the name.
pub open spec fn row_text(depth: nat, marker: char, name: Seq<char>) -> Seq<char> {
    spaces(2 * depth) + seq![marker, ' '] + name
}

/// A text as far as it fits: from `scroll` on, but never without its last
/// character, and cut with an ellipsis where it is wider than `width`.
pub open spec fn fitted(full: Seq<char>, scroll: nat, width: nat) -> Seq<char> {
    let start = if scroll < full.len() {
        scroll as int
    } else {
        full.len() - 1
    };
    let visible = full.skip(start);
    if width == 0 {
        Seq::empty()
    } else if visible.len() <= width {
        visible
    } else {
        visible.take(width - 1).push('…')
    }
}

/// A fitted text is never wider than asked for, and shows something wherever
/// there is room and text.
pub proof fn law_fitted_text_fits(full: Seq<char>, scroll: nat, width: nat)
    requires
        full.len() > 0,
    ensures
        fitted(full, scroll, width).len() <= width,
        width > 0 ==> fitted(full, scroll, width).len() > 0,
{
}

/// A row's text before it is cut.
fn row_chars(depth: usize, marker: char, name: &str) -> (r: Vec<char>)
    ensures
        r@ == row_text(depth as nat, marker, name@),
{
    let mut full: Vec<char> = Vec::new();
    let mut level: usize = 0;
    assert(full@ =~= spaces(0));
    while level < depth
        invariant
            level <= depth,
            full@ == spaces(2 * level as nat),
        decreases depth - level,
    {
        full.push(' ');
        full.push(' ');
        level = level + 1;
        assert(full@ =~= spaces(2 * level as nat));
    }
    full.push(marker);
    full.push(' ');
    let mut name_chars = chars_of(name);
    full.append(&mut name_chars);
    assert(full@ =~= row_text(depth as nat, marker, name@));
    full
}

/// A row's text, whole.
pub fn indented(depth: usize, marker: char, name: &str) -> (r: String)
    ensures
        r@ == row_text(depth as nat, marker, name@),
{
    let full = row_chars(depth, marker, name);
    let mut out = String::new();
    push_chars(&mut out, full.as_slice());
    assert(out@ =~= full@);
    out
}

/// Renders the indented marker and name, honoring horizontal scroll and
/// fitting to `width`.
pub fn fit_symbol(depth: usize, marker: char, name: &str, scroll: usize, width: usize) -> (r: String)
    ensures
        r@ == fitted(row_text(depth as nat, marker, name@), scroll as nat, width as nat),
{
    if width == 0 {
        return String::new();
    }
    let full = row_chars(depth, marker, name);
    let start: usize = if scroll < full.len() {
        scroll
    } else {
        full.len() - 1
    };
    let mut out = String::new();
    let room: usize = full.len() - start;
    if room <= width {
        push_chars(&mut out, vstd::slice::slice_subrange(full.as_slice(), start, full.len()));
        assert(out@ =~= fitted(full@, scroll as nat, width as nat));
        return out;
    }
    push_chars(
        &mut out,
        vstd::slice::slice_subrange(full.as_slice(), start, start + (width - 1)),
    );
    out.push('…');
    assert(out@ =~= fitted(full@, scroll as nat, width as nat));
    out
}

/// The mark of a row in the viewer: whether it has children to show, and
/// whether it shows them.
pub open spec fn row_marker(has_children: bool, expanded: bool) -> char {
    if !has_children {
        ' '
    } else if expanded {
        '▼'
    } else {
        '▶'
    }
}

/// The width left for the Symbol column of a table of the given width: what the
/// fixed columns, their gaps, the borders, and the cursor leave, and at least
/// eight characters.
pub open spec fn symbol_room(table_width: u16) -> nat {
    if table_width < 47 {
        8
    } else {
        (table_width - 39) as nat
    }
}

fn symbol_width(table_width: u16) -> (r: usize)
    ensures
        r == symbol_room(table_width),
{
    if table_width < 47 {
        8
    } else {
        (table_width - 39) as usize
    }
}

impl App {
    /// The text of a row's Symbol column in a table of the given width.
    pub fn row_symbol(&self, row: &VisibleRow, table_width: u16) -> (r: String)
        ensures
            r@ == fitted(
                row_text(
                    row.depth as nat,
                    row_marker(row.has_children, row.expanded),
                    frame_text(row.frame@, self.libs@),
                ),
                self.symbol_scroll as nat,
                symbol_room(table_width),
            ),
    {
        let marker: char = if !row.has_children {
            ' '
        } else if row.expanded {
            '▼'
        } else {
            '▶'
        };
        let name = format_frame(&row.frame, self.libs.as_slice());
        fit_symbol(
            row.depth,
            marker,
            name.as_str(),
            self.symbol_scroll,
            symbol_width(table_width),
        )
    }

    /// The top line.
    pub fn title(&self) -> (r: String)
        ensures
            r@ == " samply-report  "@ + self.profile_path@ + "  thread["@ + decimal(
                self.thread_index as nat,
            ) + "]: "@ + self.thread_name@ + "  samples: "@ + decimal(
                self.tree.total_samples as nat,
            ) + " "@,
    {
        let mut out = " samply-report  ".to_owned();
        out.append(self.profile_path.as_str());
        out.append("  thread[");
        push_decimal(&mut out, self.thread_index as u64);
        out.append("]: ");
        out.append(self.thread_name.as_str());
        out.append("  samples: ");
        push_decimal(&mut out, self.tree.total_samples);
        out.append(" ");
        out
    }

    /// The text of the focused node, or `?` where the focus leads nowhere.
    pub open spec fn focus_text(self) -> Seq<char> {
        match self.focus_root {
            Some(p) => match node_at(self.tree@, p@) {
                Some(n) => frame_text(n.frame, self.libs@),
                None => "?"@,
            },
            None => "?"@,
        }
    }

    /// The title over the tree: what it is focused on and filtered by.
    pub fn tree_title(&self) -> (r: String)
        ensures
            r@ == (match (self.focus_root is Some, self.filter@.len() == 0) {
                (true, true) => "Call tree (focused: "@ + self.focus_text() + ")"@,
                (true, false) => "Call tree (focused: "@ + self.focus_text() + ", filter: "@
                    + self.filter@ + ")"@,
                (false, false) => "Call tree (filter: "@ + self.filter@ + ")"@,
                (false, true) => "Call tree"@,
            }),
    {
        let plain: bool = self.filter.as_str().is_empty();
        match &self.focus_root {
            Some(path) => {
                let mut out = "Call tree (focused: ".to_owned();
                match self.tree.get(path.as_slice()) {
                    Some(n) => {
                        proof {
                            lemma_node_view(*n);
                        }
                        out.append(format_frame(&n.frame, self.libs.as_slice()).as_str());
                    },
                    None => {
                        out.append("?");
                    },
                }
                if !plain {
                    out.append(", filter: ");
                    out.append(self.filter.as_str());
                }
                out.append(")");
                out
            },
            None => {
                if plain {
                    "Call tree".to_owned()
                } else {
                    let mut out = "Call tree (filter: ".to_owned();
                    out.append(self.filter.as_str());
                    out.append(")");
                    out
                }
            },
        }
    }

    /// The bottom line: the filter while it is being typed, else the status and
    /// the keys.
    pub fn status_line(&self) -> (r: String)
        ensures
            r@ == if self.filtering {
                "Filter: "@ + self.filter@ + "_  (Enter apply, Esc cancel)"@
            } else {
                self.status@
                    + " | j/k move  e/c expand/collapse  Shift+F focus  u unfocus  h/l scroll  / filter  q quit"@
            },
    {
        if self.filtering {
            let mut out = "Filter: ".to_owned();
            out.append(self.filter.as_str());
            out.append("_  (Enter apply, Esc cancel)");
            out
        } else {
            let mut out = self.status.clone();
            out.append(
                " | j/k move  e/c expand/collapse  Shift+F focus  u unfocus  h/l scroll  / filter  q quit",
            );
            out
        }
    }
}

} // verus!
