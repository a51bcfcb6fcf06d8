//! What the texts that are shown promise.

use vstd::prelude::*;
use vstd::string::*;

use crate::document::{packing, Packing};
use crate::error::{SampleError, SelectError, TableError};
use crate::profile::Library;
use crate::report::report_marker;
use crate::screen::{fitted, row_marker, row_text, symbol_room};
use crate::symbolicate::{address_label, bared};
use crate::text::{decimal, digit_char, lowercased, numeral, occurs, signed_decimal, stands_at};
use crate::tree::{frame_text, lib_text, node_at, FrameView};
use crate::ui::{passes, App};

verus! {

/// A text occurs in another if and only if that is made of something, the text,
/// and something more.
pub proof fn law_occurring_is_standing_anywhere(needle: Seq<char>, text: Seq<char>)
    ensures
        occurs(needle, text) <==> exists|before: Seq<char>, after: Seq<char>|
            text == #[trigger] (before + needle + after),
{
    if occurs(needle, text) {
        let at = choose|at: int| #[trigger] stands_at(needle, text, at);
        let before = text.take(at);
        let after = text.skip(at + needle.len());
        assert(text =~= before + text.subrange(at, at + needle.len()) + after);
        assert(text == before + needle + after);
    }
    if exists|before: Seq<char>, after: Seq<char>| text == #[trigger] (before + needle + after) {
        let (before, after) = choose|before: Seq<char>, after: Seq<char>|
            text == #[trigger] (before + needle + after);
        let at = before.len() as int;
        assert(text.subrange(at, at + needle.len()) =~= needle);
        assert(stands_at(needle, text, at));
    }
}

/// A frame passes a filter if and only if the filter, in lower case, stands
/// anywhere in the frame's text in lower case: at its beginning, in its midst,
/// or at its end.
pub proof fn law_filter_matches_anywhere(filter: Seq<char>, libs: Seq<Library>, frame: FrameView)
    ensures
        passes(filter, libs, frame) <==> exists|before: Seq<char>, after: Seq<char>|
            lowercased(frame_text(frame, libs)) == #[trigger] (before + lowercased(filter)
                + after),
        forall|at: int|
            0 <= at <= lowercased(frame_text(frame, libs)).len() - lowercased(filter).len()
                && #[trigger] lowercased(frame_text(frame, libs)).subrange(
                at,
                at + lowercased(filter).len(),
            ) == lowercased(filter) ==> passes(filter, libs, frame),
{
    let text = lowercased(frame_text(frame, libs));
    let needle = lowercased(filter);
    law_occurring_is_standing_anywhere(needle, text);
    assert forall|at: int|
        0 <= at <= text.len() - needle.len() && #[trigger] text.subrange(at, at + needle.len())
            == needle implies occurs(needle, text) by {
        assert(stands_at(needle, text, at));
    }
}

/// A frame is told by its name, two spaces, and in brackets its library's name,
/// or question marks where the library is not known.
pub proof fn law_text_of_a_frame(frame: FrameView, libs: Seq<Library>)
    ensures
        ({
            let text = frame_text(frame, libs);
            let lib = if frame.lib_index is Some && frame.lib_index->0 < libs.len() {
                libs[frame.lib_index->0 as int].name@
            } else {
                seq!['?', '?', '?']
            };
            let n = frame.name.len() as int;
            &&& text.len() == n + lib.len() + 4
            &&& text.take(n) == frame.name
            &&& text[n] == ' ' && text[n + 1] == ' ' && text[n + 2] == '['
            &&& text.subrange(n + 3, n + 3 + lib.len()) == lib
            &&& text.last() == ']'
            &&& lib_text(frame.lib_index, libs) == lib
        }),
{
    reveal_strlit("???");
    reveal_strlit("  [");
    reveal_strlit("]");
    let text = frame_text(frame, libs);
    let lib = lib_text(frame.lib_index, libs);
    let n = frame.name.len() as int;
    assert("???"@ =~= seq!['?', '?', '?']);
    assert(text.take(n) =~= frame.name);
    assert(text.subrange(n + 3, n + 3 + lib.len()) =~= lib);
}

/// A further digit stands at the end of a numeral, and a single one alone.
pub proof fn law_numerals_are_positional(n: nat, d: nat, base: nat)
    requires
        2 <= base <= 16,
        d < base,
    ensures
        numeral(d, base).len() == 1,
        n > 0 ==> numeral(n * base + d, base) == numeral(n, base) + numeral(d, base),
        d < 10 ==> numeral(d, base)[0] as int == '0' as int + d,
        d >= 10 ==> numeral(d, base)[0] as int == 'a' as int + (d - 10),
{
    if n > 0 {
        let m = n * base + d;
        assert(m >= base) by (nonlinear_arith)
            requires
                m == n * base + d,
                n > 0,
        ;
        assert(m / base == n && m % base == d) by {
            vstd::arithmetic::div_mod::lemma_fundamental_div_mod_converse(
                m as int,
                base as int,
                n as int,
                d as int,
            );
        }
        assert(numeral(m, base) =~= numeral(n, base).push(digit_char(d)));
        assert(numeral(n, base) + numeral(d, base) =~= numeral(n, base).push(digit_char(d)));
    }
}

/// What the last digit of a numeral leaves.
proof fn lemma_numeral_parts(n: nat, base: nat)
    requires
        2 <= base <= 16,
    ensures
        numeral(n, base).len() > 0,
        n < base <==> numeral(n, base).len() == 1,
        n >= base ==> n / base > 0 && numeral(n, base).drop_last() == numeral(n / base, base)
            && numeral(n, base).last() == digit_char(n % base) && n % base < base && n == (n / base)
            * base + n % base,
    decreases n,
{
    if n >= base {
        vstd::arithmetic::div_mod::lemma_div_decreases(n as int, base as int);
        vstd::arithmetic::div_mod::lemma_fundamental_div_mod(n as int, base as int);
        vstd::arithmetic::div_mod::lemma_mod_bound(n as int, base as int);
        vstd::arithmetic::div_mod::lemma_div_non_zero(n as int, base as int);
        vstd::arithmetic::mul::lemma_mul_is_commutative(base as int, (n / base) as int);
        lemma_numeral_parts(n / base, base);
        assert(numeral(n, base).drop_last() =~= numeral(n / base, base));
    }
}

proof fn lemma_digits_differ(a: nat, b: nat)
    requires
        a < 16,
        b < 16,
        digit_char(a) == digit_char(b),
    ensures
        a == b,
{
    assert(digit_char(a) as int == if a < 10 {
        48 + a
    } else {
        87 + a
    });
    assert(digit_char(b) as int == if b < 10 {
        48 + b
    } else {
        87 + b
    });
}

/// Different numbers have different numerals.
pub proof fn law_numerals_differ(a: nat, b: nat, base: nat)
    requires
        2 <= base <= 16,
        numeral(a, base) == numeral(b, base),
    ensures
        a == b,
    decreases a,
{
    lemma_numeral_parts(a, base);
    lemma_numeral_parts(b, base);
    if a >= base {
        vstd::arithmetic::div_mod::lemma_div_decreases(a as int, base as int);
        law_numerals_differ(a / base, b / base, base);
        lemma_digits_differ(a % base, b % base);
    } else {
        assert(numeral(a, base)[0] == digit_char(a) && numeral(b, base)[0] == digit_char(b));
        lemma_digits_differ(a, b);
    }
}

/// An address is told as `0x` and its hexadecimal numeral, a negative number with
/// a sign; different addresses and different numbers are told differently.
pub proof fn law_labels_differ(a: u64, b: u64, i: i32)
    ensures
        address_label(a)[0] == '0' && address_label(a)[1] == 'x',
        address_label(a).skip(2) == numeral(a as nat, 16),
        address_label(a) == address_label(b) ==> a == b,
        decimal(a as nat) == numeral(a as nat, 10),
        decimal(a as nat) == decimal(b as nat) ==> a == b,
        i >= 0 ==> signed_decimal(i as int) == numeral(i as nat, 10),
        i < 0 ==> signed_decimal(i as int) == seq!['-'] + numeral((-i) as nat, 10),
{
    reveal_strlit("0x");
    assert(address_label(a).skip(2) =~= numeral(a as nat, 16));
    assert(address_label(b).skip(2) =~= numeral(b as nat, 16));
    if address_label(a) == address_label(b) {
        law_numerals_differ(a as nat, b as nat, 16);
    }
    if decimal(a as nat) == decimal(b as nat) {
        law_numerals_differ(a as nat, b as nat, 10);
    }
}

/// One leading underscore is taken away, and nothing else.
pub proof fn law_one_underscore_is_taken_away(text: Seq<char>)
    ensures
        bared(seq!['_'] + text) == text,
        text.len() == 0 || text[0] != '_' ==> bared(text) == text,
{
    assert((seq!['_'] + text).skip(1) =~= text);
}

/// What is shown of a text starts at the scroll offset, wherever that is within
/// the text: each character shown, but for the ellipsis, is the one that stands
/// as far behind the offset.
pub proof fn law_shown_text_starts_at_the_scroll_offset(
    full: Seq<char>,
    scroll: nat,
    width: nat,
    k: int,
)
    requires
        scroll < full.len(),
        width > 0,
    ensures
        0 <= k < width - 1 && k < full.len() - scroll ==> fitted(full, scroll, width)[k]
            == full[scroll + k],
        full.len() - scroll <= width ==> fitted(full, scroll, width) == full.skip(scroll as int),
        full.len() - scroll > width ==> {
            &&& fitted(full, scroll, width).len() == width
            &&& fitted(full, scroll, width).last() == '…'
        },
{
}

/// Beyond the end of a text its last character stays in view.
pub proof fn law_scrolling_stops_at_the_last_character(full: Seq<char>, scroll: nat, width: nat)
    requires
        scroll >= full.len() > 0,
        width > 0,
    ensures
        fitted(full, scroll, width) == seq![full.last()],
        fitted(full, scroll, 0) == Seq::<char>::empty(),
{
    assert(full.skip(full.len() - 1) =~= seq![full.last()]);
}

/// A row is indented by two spaces for each level; then come the marker, a space,
/// and the name.
pub proof fn law_rows_are_indented_by_depth(depth: nat, marker: char, name: Seq<char>, k: int)
    ensures
        row_text(depth, marker, name).len() == 2 * depth + 2 + name.len(),
        0 <= k < 2 * depth ==> row_text(depth, marker, name)[k] == ' ',
        row_text(depth, marker, name)[2 * depth as int] == marker,
        row_text(depth, marker, name)[2 * depth as int + 1] == ' ',
        row_text(depth, marker, name).skip(2 * depth as int + 2) == name,
{
    assert(row_text(depth, marker, name).skip(2 * depth as int + 2) =~= name);
}

/// The markers tell apart rows without children, expanded rows, and collapsed
/// rows, and a row without children looks the same expanded or not.
pub proof fn law_markers_tell_rows_apart(expanded: bool)
    ensures
        row_marker(false, expanded) == ' ',
        row_marker(true, true) == '▼',
        row_marker(true, false) == '▶',
        report_marker(false, expanded) == ' ',
        report_marker(true, true) == '-',
        report_marker(true, false) == '+',
{
}

/// The symbols have what three columns of ten, their gaps, the borders, and the
/// cursor leave of the table, but never less than eight characters.
pub proof fn law_symbols_have_the_rest_of_the_table(width: u16)
    ensures
        symbol_room(width) >= 8,
        symbol_room(width) > 8 ==> symbol_room(width) + 3 * 10 + 3 + 2 + 4 == width,
        width >= 47 ==> symbol_room(width) + 39 == width,
{
}

/// A file is taken for gzip if and only if it begins with the two bytes that gzip
/// streams begin with.
pub proof fn law_gzip_is_told_by_its_first_bytes(rest: Seq<u8>, bytes: Seq<u8>)
    ensures
        packing(seq![0x1fu8, 0x8bu8] + rest) == Packing::Gzip,
        packing(bytes) == Packing::Gzip ==> bytes == seq![0x1fu8, 0x8bu8] + bytes.skip(2),
{
    if packing(bytes) == Packing::Gzip {
        assert(bytes =~= seq![0x1fu8, 0x8bu8] + bytes.skip(2));
    }
}

/// What is focused on is told as its row is, and by a question mark where there is
/// no such node.
pub proof fn law_focus_is_told_as_its_frame(app: App)
    requires
        app.focus_root is Some,
    ensures
        node_at(app.tree@, app.focus_root->0@) is Some ==> app.focus_text() == frame_text(
            node_at(app.tree@, app.focus_root->0@)->0.frame,
            app.libs@,
        ),
        node_at(app.tree@, app.focus_root->0@) is None ==> app.focus_text() == "?"@,
{
}

/// An index out of range is told with the table it was looked up in, and a sample
/// that does not resolve with its own index and its stack's.
pub proof fn law_errors_tell_the_index(i: usize, e: SampleError)
    ensures
        TableError::Stack(i).text() == "stack"@ + " index "@ + decimal(i as nat)
            + " out of range"@,
        TableError::Frame(i).text() == "frame"@ + " index "@ + decimal(i as nat)
            + " out of range"@,
        TableError::Func(i).text() == "func"@ + " index "@ + decimal(i as nat) + " out of range"@,
        TableError::Resource(i).text() == "resource"@ + " index "@ + decimal(i as nat)
            + " out of range"@,
        SelectError::OutOfRange(i).text() == "thread"@ + " index "@ + decimal(i as nat)
            + " out of range"@,
        e.text() == "failed to resolve sample "@ + decimal(e.sample as nat) + " stack "@
            + signed_decimal(e.stack as int),
{
}

} // verus!
