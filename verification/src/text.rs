//! Building text: numerals, concatenation, and the few operations of the
//! standard library on strings that the rest of the crate rests on.

use vstd::prelude::*;
use vstd::string::*;

verus! {

/// Appending a character (`String::push`) adds it at the end.
pub assume_specification[ String::push ](s: &mut String, ch: char)
    ensures
        final(s)@ == old(s)@.push(ch),
;

/// The character that stands for the digit `d`, in lower case beyond nine.
pub open spec fn digit_char(d: nat) -> char {
    if d < 10 {
        (48 + d) as char
    } else {
        (87 + d) as char
    }
}

/// The positional numeral of `n`, without leading zeros.
pub open spec fn numeral(n: nat, base: nat) -> Seq<char>
    decreases n,
{
    if n < base || base < 2 {
        seq![digit_char(n)]
    } else {
        proof {
            vstd::arithmetic::div_mod::lemma_div_decreases(n as int, base as int);
        }
        numeral(n / base, base).push(digit_char(n % base))
    }
}

/// The decimal numeral of `n`.
pub open spec fn decimal(n: nat) -> Seq<char> {
    numeral(n, 10)
}

/// The decimal numeral of `i`, with a minus sign in front of a negative one.
pub open spec fn signed_decimal(i: int) -> Seq<char> {
    if i < 0 {
        seq!['-'] + decimal((-i) as nat)
    } else {
        decimal(i as nat)
    }
}

fn digit(d: u64) -> (c: char)
    requires
        d < 16,
    ensures
        c == digit_char(d as nat),
{
    let d: u8 = d as u8;
    if d < 10 {
        (48 + d) as char
    } else {
        (87 + d) as char
    }
}

/// Appends the numeral of `n` in the given base.
pub fn push_numeral(out: &mut String, n: u64, base: u64)
    requires
        2 <= base <= 16,
    ensures
        final(out)@ == old(out)@ + numeral(n as nat, base as nat),
    decreases n,
{
    if n < base {
        out.push(digit(n));
    } else {
        proof {
            vstd::arithmetic::div_mod::lemma_div_decreases(n as int, base as int);
            vstd::arithmetic::div_mod::lemma_mod_bound(n as int, base as int);
        }
        push_numeral(out, n / base, base);
        out.push(digit(n % base));
    }
    assert(out@ =~= old(out)@ + numeral(n as nat, base as nat));
}

/// Appends the decimal numeral of `n`.
pub fn push_decimal(out: &mut String, n: u64)
    ensures
        final(out)@ == old(out)@ + decimal(n as nat),
{
    push_numeral(out, n, 10);
}

/// Appends the decimal numeral of `i`.
pub fn push_signed(out: &mut String, i: i32)
    ensures
        final(out)@ == old(out)@ + signed_decimal(i as int),
{
    if i < 0 {
        out.push('-');
        push_numeral(out, (-(i as i64)) as u64, 10);
        assert(out@ =~= old(out)@ + signed_decimal(i as int));
    } else {
        push_numeral(out, i as u64, 10);
    }
}

/// Lexicographic order by code point.
pub open spec fn text_le(a: Seq<char>, b: Seq<char>) -> bool
    decreases a.len(),
{
    if a.len() == 0 {
        true
    } else if b.len() == 0 {
        false
    } else if a[0] == b[0] {
        text_le(a.drop_first(), b.drop_first())
    } else {
        (a[0] as int) < (b[0] as int)
    }
}

/// Of two texts one comes first.
pub proof fn lemma_text_le_total(a: Seq<char>, b: Seq<char>)
    ensures
        text_le(a, b) || text_le(b, a),
    decreases a.len(),
{
    if a.len() > 0 && b.len() > 0 && a[0] == b[0] {
        lemma_text_le_total(a.drop_first(), b.drop_first());
    }
}

/// The order of texts is transitive.
pub proof fn lemma_text_le_transitive(a: Seq<char>, b: Seq<char>, c: Seq<char>)
    requires
        text_le(a, b),
        text_le(b, c),
    ensures
        text_le(a, c),
    decreases a.len(),
{
    if a.len() > 0 && b.len() > 0 && c.len() > 0 && a[0] == b[0] && b[0] == c[0] {
        lemma_text_le_transitive(a.drop_first(), b.drop_first(), c.drop_first());
    }
}

/// `str`'s `<=`, which orders text lexicographically by byte and so by code
/// point.
#[verifier::external_body]
pub(crate) fn text_not_after(a: &str, b: &str) -> (r: bool)
    ensures
        r == text_le(a@, b@),
{
    a <= b
}

/// The characters of a text.
pub fn chars_of(s: &str) -> (r: Vec<char>)
    ensures
        r@ == s@,
{
    let mut out: Vec<char> = Vec::new();
    for c in it: s.chars()
        invariant
            out@ == s@.take(it.index() as int),
            it.seq() == s@,
    {
        out.push(c);
        assert(out@ =~= s@.take(it.index() as int + 1));
    }
    assert(out@ =~= s@);
    out
}

/// Appends characters.
pub fn push_chars(out: &mut String, chars: &[char])
    ensures
        final(out)@ == old(out)@ + chars@,
{
    let mut i: usize = 0;
    assert(out@ =~= out@ + chars@.take(0));
    while i < chars.len()
        invariant
            i <= chars@.len(),
            out@ == old(out)@ + chars@.take(i as int),
        decreases chars@.len() - i,
    {
        out.push(chars[i]);
        i = i + 1;
        assert(out@ =~= old(out)@ + chars@.take(i as int));
    }
    assert(chars@.take(i as int) =~= chars@);
}

/// Whether `needle` stands at `at` in `text`.
pub open spec fn stands_at(needle: Seq<char>, text: Seq<char>, at: int) -> bool {
    0 <= at && at + needle.len() <= text.len() && text.subrange(at, at + needle.len()) == needle
}

/// Whether `needle` occurs in `text`.
pub open spec fn occurs(needle: Seq<char>, text: Seq<char>) -> bool {
    exists|at: int| #[trigger] stands_at(needle, text, at)
}

/// Whether `needle` occurs in `text`.
pub fn contains_text(text: &str, needle: &str) -> (r: bool)
    ensures
        r == occurs(needle@, text@),
{
    let hay = chars_of(text);
    let pin = chars_of(needle);
    if pin.len() > hay.len() {
        return false;
    }
    let last: usize = hay.len() - pin.len();
    let mut at: usize = 0;
    loop
        invariant
            hay@ == text@,
            pin@ == needle@,
            last == hay@.len() - pin@.len(),
            hay@.len() <= usize::MAX,
            at <= last,
            forall|k: int| 0 <= k < at ==> !#[trigger] stands_at(needle@, text@, k),
        decreases last - at,
    {
        let mut i: usize = 0;
        while i < pin.len() && hay[at + i] == pin[i]
            invariant
                i <= pin@.len(),
                at + pin@.len() <= hay@.len() <= usize::MAX,
                forall|k: int| 0 <= k < i ==> hay@[at + k] == pin@[k],
            decreases pin@.len() - i,
        {
            i = i + 1;
        }
        if i == pin.len() {
            assert(text@.subrange(at as int, at + needle@.len()) =~= needle@);
            assert(stands_at(needle@, text@, at as int));
            return true;
        }
        assert(text@.subrange(at as int, at + needle@.len())[i as int] != needle@[i as int]);
        if at == last {
            return false;
        }
        at = at + 1;
    }
}

/// A text in lower case, as `str::to_lowercase` gives it.
pub uninterp spec fn lowercased(s: Seq<char>) -> Seq<char>;

/// `str::to_lowercase`, whose result is named and not described further.
#[verifier::external_body]
pub(crate) fn lowercase(s: &str) -> (r: String)
    ensures
        r@ == lowercased(s@),
{
    s.to_lowercase()
}

/// Taking the last character off (`String::pop`) gives it back, or nothing
/// where the text is empty.
pub assume_specification[ String::pop ](s: &mut String) -> (r: Option<char>)
    ensures
        old(s)@.len() == 0 ==> r is None && final(s)@ == old(s)@,
        old(s)@.len() > 0 ==> r == Some(old(s)@.last()) && final(s)@ == old(s)@.drop_last(),
;

} // verus!
