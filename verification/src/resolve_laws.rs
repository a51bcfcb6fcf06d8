//! What a symbolication makes of its answers.

use vstd::prelude::*;

use crate::profile::Library;
use crate::resolve::{
    answered, law_every_frame_gets_its_symbol, lookup_address, started, usable,
};
use crate::samples::strictly_sorted;
use crate::symbolicate::{address_label, bared, demangled};
use crate::tree::AddressFrame;

verus! {

/// A frame is looked up at its own address, wherever that is a relative address
/// of 32 bits; of a longer one only what it exceeds a multiple of that range by
/// counts.
pub proof fn law_frames_are_looked_up_at_their_address(f: AddressFrame, g: AddressFrame)
    ensures
        f.address <= 0xffff_ffff ==> lookup_address(f) == f.address,
        g.address == f.address + 0x1_0000_0000 ==> lookup_address(g) == lookup_address(f),
        f.address <= 0xffff_ffff && g.address <= 0xffff_ffff && f.address != g.address
            ==> lookup_address(f) != lookup_address(g),
        exists|k: int| f.address == lookup_address(f) + #[trigger] (k * 0x1_0000_0000),
{
    let k = (f.address / 0x1_0000_0000) as int;
    assert(f.address == lookup_address(f) + k * 0x1_0000_0000);
}

/// A frame is looked up if and only if its library is known, by a path.
pub proof fn law_which_frames_are_looked_up(libs: Seq<Library>, f: AddressFrame)
    ensures
        f.lib_index is None ==> !usable(libs, f),
        f.lib_index is Some && f.lib_index->0 >= libs.len() ==> !usable(libs, f),
        f.lib_index is Some && f.lib_index->0 < libs.len() ==> (usable(libs, f)
            <==> libs[f.lib_index->0 as int].path is Some),
{
}

/// Once all is answered, a frame of a library that could be opened has the name
/// that was found at its address, demangled and bared, and the library's name.
/// Every other frame has its address for a name.
pub proof fn law_answers_name_the_frames(
    libs: Seq<Library>,
    frames: Seq<AddressFrame>,
    loads: spec_fn(int) -> bool,
    names: spec_fn(int, u32) -> Option<Seq<char>>,
    f: AddressFrame,
)
    requires
        strictly_sorted(frames),
    ensures
        ({
            let table = answered(started(libs, frames), loads, names).table;
            let lib = f.lib_index->0 as int;
            let known = f.lib_index is Some && lib < libs.len();
            let low = (f.address % 0x1_0000_0000) as u32;
            let found = known && libs[lib].path is Some && loads(lib) && names(lib, low) is Some;
            &&& table.contains_key(f) <==> frames.contains(f)
            &&& frames.contains(f) && found ==> table[f].name == bared(
                demangled(names(lib, low)->0),
            )
            &&& frames.contains(f) && !found ==> table[f].name == address_label(f.address)
            &&& frames.contains(f) && known ==> table[f].lib_name == libs[lib].name@
            &&& frames.contains(f) && !known ==> table[f].lib_name == "???"@
        }),
{
    law_every_frame_gets_its_symbol(libs, frames, loads, names);
}

} // verus!
