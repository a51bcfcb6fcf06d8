//! Names for addresses: what a symbol lookup gave, and what is shown without
//! one.

use std::collections::HashMap;
use vstd::prelude::*;
use vstd::string::*;

use crate::profile::Library;
use crate::text::{chars_of, numeral, push_numeral};
use crate::tree::{lib_text, AddressFrame};

verus! {

/// What an address was resolved to.
#[derive(Debug, PartialEq, Eq)]
pub struct ResolvedSymbol {
    pub name: String,
    pub lib_name: String,
}

/// What a [`ResolvedSymbol`] stands for.
pub struct SymbolView {
    pub name: Seq<char>,
    pub lib_name: Seq<char>,
}

impl View for ResolvedSymbol {
    type V = SymbolView;

    open spec fn view(&self) -> SymbolView {
        SymbolView { name: self.name@, lib_name: self.lib_name@ }
    }
}

impl Clone for ResolvedSymbol {
    fn clone(&self) -> (r: Self)
        ensures
            r == *self,
    {
        ResolvedSymbol { name: self.name.clone(), lib_name: self.lib_name.clone() }
    }
}

/// A number of its own for each frame.
pub open spec fn frame_code(frame: AddressFrame) -> u128 {
    match frame.lib_index {
        None => frame.address as u128,
        Some(i) => ((i + 1) * 0x1_0000_0000_0000_0000 + frame.address) as u128,
    }
}

/// The number under which a frame is kept in a map.
pub fn code_of(frame: AddressFrame) -> (r: u128)
    ensures
        r == frame_code(frame),
{
    match frame.lib_index {
        None => frame.address as u128,
        Some(i) => (i as u128 + 1) * 0x1_0000_0000_0000_0000 + frame.address as u128,
    }
}

/// No two frames share a number.
pub proof fn lemma_frame_code(a: AddressFrame, b: AddressFrame)
    requires
        frame_code(a) == frame_code(b),
    ensures
        a == b,
{
}

/// Resolved symbols by frame.
pub struct SymbolTable {
    entries: HashMap<u128, ResolvedSymbol>,
}

impl View for SymbolTable {
    type V = Map<AddressFrame, SymbolView>;

    closed spec fn view(&self) -> Map<AddressFrame, SymbolView> {
        Map::new(
            |f: AddressFrame| self.entries@.contains_key(frame_code(f)),
            |f: AddressFrame| self.entries@[frame_code(f)]@,
        )
    }
}

impl SymbolTable {
    /// A table without entries.
    pub fn new() -> (r: Self)
        ensures
            r@ == Map::<AddressFrame, SymbolView>::empty(),
    {
        let r = SymbolTable { entries: HashMap::new() };
        assert(r@ =~= Map::empty());
        r
    }

    /// Sets the symbol of a frame.
    pub fn insert(&mut self, frame: AddressFrame, symbol: ResolvedSymbol)
        ensures
            final(self)@ == old(self)@.insert(frame, symbol@),
    {
        broadcast use vstd::std_specs::hash::group_hash_axioms;

        self.entries.insert(code_of(frame), symbol);
        proof {
            assert forall|f: AddressFrame| frame_code(f) == frame_code(frame) implies f
                == frame by {
                lemma_frame_code(f, frame);
            }
            assert(self@ =~= old(self)@.insert(frame, symbol@));
        }
    }

    /// The symbol of a frame.
    pub fn get(&self, frame: &AddressFrame) -> (r: Option<&ResolvedSymbol>)
        ensures
            match r {
                Some(s) => self@.contains_key(*frame) && self@[*frame] == s@,
                None => !self@.contains_key(*frame),
            },
    {
        broadcast use vstd::std_specs::hash::group_hash_axioms;

        self.entries.get(&code_of(*frame))
    }
}

/// The label of an address: hexadecimal, after `0x`.
pub open spec fn address_label(address: u64) -> Seq<char> {
    "0x"@ + numeral(address as nat, 16)
}

/// What is shown for a frame that no symbol is known for.
pub fn fallback_label(_libs: &[Library], frame: AddressFrame) -> (r: String)
    ensures
        r@ == address_label(frame.address),
{
    let mut out = "0x".to_owned();
    push_numeral(&mut out, frame.address, 16);
    out
}

/// The symbol of a frame that a lookup gave nothing for.
pub open spec fn fallback_view(libs: Seq<Library>, frame: AddressFrame) -> SymbolView {
    SymbolView {
        name: address_label(frame.address),
        lib_name: lib_text(frame.lib_index, libs),
    }
}

/// The symbol of a frame that a lookup gave nothing for.
pub fn fallback_symbol(libs: &[Library], frame: AddressFrame) -> (r: ResolvedSymbol)
    ensures
        r@ == fallback_view(libs@, frame),
{
    let lib_name = match frame.lib_index {
        Some(i) => {
            let at: usize = i as usize;
            if at < libs.len() {
                libs[at].name.clone()
            } else {
                "???".to_owned()
            }
        },
        None => "???".to_owned(),
    };
    ResolvedSymbol { name: fallback_label(libs, frame), lib_name }
}

/// How a symbol name reads after demangling; a name that is not mangled is kept,
/// but for a suffix that link-time optimisation added.
pub uninterp spec fn demangled(name: Seq<char>) -> Seq<char>;

/// Writes out `rustc_demangle::demangle` of the name. The text depends on the
/// name alone.
#[verifier::external_body]
fn demangle(name: &str) -> (r: String)
    ensures
        r@ == demangled(name@),
{
    rustc_demangle::demangle(name).to_string()
}

/// A text without the underscore that it may begin with.
pub open spec fn bared(text: Seq<char>) -> Seq<char> {
    if text.len() > 0 && text[0] == '_' {
        text.skip(1)
    } else {
        text
    }
}

/// Takes away one leading underscore, if there is one.
pub fn bare(text: String) -> (r: String)
    ensures
        r@ == bared(text@),
{
    let chars = chars_of(text.as_str());
    if chars.len() == 0 || chars[0] != '_' {
        return text;
    }
    let mut out = String::new();
    let mut i: usize = 1;
    while i < chars.len()
        invariant
            1 <= i <= chars@.len(),
            out@ == chars@.subrange(1, i as int),
        decreases chars@.len() - i,
    {
        out.push(chars[i]);
        i = i + 1;
        assert(out@ =~= chars@.subrange(1, i as int));
    }
    assert(out@ =~= bared(text@));
    out
}

/// The name that is shown for a symbol: demangled, and without the underscore
/// that some platforms put in front.
pub fn prettify_symbol(name: &str) -> (r: String)
    ensures
        r@ == bared(demangled(name@)),
{
    bare(demangle(name))
}

} // verus!
