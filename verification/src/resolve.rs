//! The course of a symbolication: which library is opened next, which address
//! is looked up in it, and what becomes of the replies.

use vstd::prelude::*;
use vstd::string::*;

use crate::profile::Library;
use crate::samples::{frame_le, sort_unique, strictly_sorted, unique_frames};
use crate::symbolicate::{
    bared, demangled, fallback_symbol, fallback_view, prettify_symbol, ResolvedSymbol, SymbolTable,
    SymbolView,
};
use crate::tree::AddressFrame;

verus! {

/// What a symbolication needs to go on.
#[derive(Debug, PartialEq, Eq)]
pub enum Request {
    /// Open the symbols of the binary at a path, for one architecture of it
    /// where one is named.
    Load { library: usize, path: String, arch: Option<String> },
    /// Look up a relative address in the library that was opened last.
    Lookup { library: usize, address: u32 },
    /// Nothing: the table is complete.
    Done,
}

/// Frames whose library is known by path can be looked up.
pub open spec fn usable(libs: Seq<Library>, frame: AddressFrame) -> bool {
    match frame.lib_index {
        Some(i) => i < libs.len() && libs[i as int].path is Some,
        None => false,
    }
}

/// The relative address that is looked up for a frame.
pub open spec fn lookup_address(frame: AddressFrame) -> u32 {
    (frame.address % 0x1_0000_0000) as u32
}

/// Where a symbolication stands: the frames before `at` are in the table, and
/// the library of the frame there is open or not.
#[verifier::ext_equal]
pub struct Progress {
    pub libs: Seq<Library>,
    pub frames: Seq<AddressFrame>,
    pub at: nat,
    pub open: bool,
    pub table: Map<AddressFrame, SymbolView>,
}

/// The first position from `from` on whose frame can be looked up.
pub open spec fn next_stop(libs: Seq<Library>, frames: Seq<AddressFrame>, from: nat) -> nat
    decreases frames.len() - from,
{
    if from >= frames.len() || usable(libs, frames[from as int]) {
        from
    } else {
        next_stop(libs, frames, from + 1)
    }
}

/// The first position from `from` on whose frame is not of the library.
pub open spec fn group_end(frames: Seq<AddressFrame>, lib: Option<u32>, from: nat) -> nat
    decreases frames.len() - from,
{
    if from >= frames.len() || frames[from as int].lib_index != lib {
        from
    } else {
        group_end(frames, lib, from + 1)
    }
}

/// A table with what is shown without a symbol, for the frames from `from` up
/// to `to`.
pub open spec fn fall_back(
    table: Map<AddressFrame, SymbolView>,
    libs: Seq<Library>,
    frames: Seq<AddressFrame>,
    from: nat,
    to: nat,
) -> Map<AddressFrame, SymbolView>
    decreases to - from,
{
    if from >= to {
        table
    } else {
        fall_back(table, libs, frames, from, (to - 1) as nat).insert(
            frames[to - 1],
            fallback_view(libs, frames[to - 1]),
        )
    }
}

impl Progress {
    /// The frame that the next request is about.
    pub open spec fn frame(self) -> AddressFrame {
        self.frames[self.at as int]
    }

    /// The index of the library that the next request is about.
    pub open spec fn library(self) -> int {
        self.frame().lib_index->0 as int
    }

    /// A bound on the requests that are still to come.
    pub open spec fn remaining(self) -> int {
        2 * (self.frames.len() - self.at) + if self.open {
            0int
        } else {
            1int
        }
    }

    /// Whether every frame is in the table.
    pub open spec fn finished(self) -> bool {
        self.at >= self.frames.len()
    }

    /// Without symbols up to the next frame from `from` on that can be looked
    /// up.
    pub open spec fn without_symbols(self, from: nat) -> Progress {
        let stop = next_stop(self.libs, self.frames, from);
        Progress {
            at: stop,
            open: false,
            table: fall_back(self.table, self.libs, self.frames, self.at, stop),
            ..self
        }
    }

    /// After the library was opened or could not be.
    pub open spec fn after_load(self, loaded: bool) -> Progress {
        if loaded {
            Progress { open: true, ..self }
        } else {
            self.without_symbols(group_end(self.frames, self.frame().lib_index, self.at))
        }
    }

    /// The symbol of the current frame, given the name that was found.
    pub open spec fn symbol(self, name: Option<Seq<char>>) -> SymbolView {
        match name {
            Some(n) => SymbolView {
                name: bared(demangled(n)),
                lib_name: self.libs[self.library()].name@,
            },
            None => fallback_view(self.libs, self.frame()),
        }
    }

    /// After a lookup. The next frame of the same library is looked up without
    /// opening it again.
    pub open spec fn after_lookup(self, name: Option<Seq<char>>) -> Progress {
        let here = Progress {
            at: self.at + 1,
            table: self.table.insert(self.frame(), self.symbol(name)),
            ..self
        };
        if !here.finished() && here.frame().lib_index == self.frame().lib_index {
            here
        } else {
            here.without_symbols(here.at)
        }
    }

    /// What holds at every step: the frames are in order without repetition;
    /// the table has those before `at`; the frame there can be looked up, and
    /// is the first of its library if that is not open.
    pub open spec fn valid(self) -> bool {
        &&& strictly_sorted(self.frames)
        &&& self.at <= self.frames.len()
        &&& self.open ==> !self.finished()
        &&& !self.finished() ==> usable(self.libs, self.frame())
        &&& !self.open && 0 < self.at && !self.finished() ==> self.frames[self.at - 1].lib_index
            != self.frame().lib_index
        &&& forall|f: AddressFrame|
            #![trigger self.table.contains_key(f)]
            self.table.contains_key(f) <==> self.frames.take(self.at as int).contains(f)
    }
}

/// Before the first request.
pub open spec fn started(libs: Seq<Library>, frames: Seq<AddressFrame>) -> Progress {
    Progress { libs, frames, at: 0, open: false, table: Map::empty() }.without_symbols(0)
}

proof fn lemma_next_stop(libs: Seq<Library>, frames: Seq<AddressFrame>, from: nat)
    requires
        from <= frames.len(),
    ensures
        from <= next_stop(libs, frames, from) <= frames.len(),
        next_stop(libs, frames, from) < frames.len() ==> usable(
            libs,
            frames[next_stop(libs, frames, from) as int],
        ),
        forall|k: int|
            from <= k < next_stop(libs, frames, from) ==> !usable(libs, #[trigger] frames[k]),
    decreases frames.len() - from,
{
    if from < frames.len() && !usable(libs, frames[from as int]) {
        lemma_next_stop(libs, frames, from + 1);
    }
}

proof fn lemma_group_end(frames: Seq<AddressFrame>, lib: Option<u32>, from: nat)
    requires
        from <= frames.len(),
    ensures
        from <= group_end(frames, lib, from) <= frames.len(),
        group_end(frames, lib, from) < frames.len() ==> frames[group_end(
            frames,
            lib,
            from,
        ) as int].lib_index != lib,
        forall|k: int|
            from <= k < group_end(frames, lib, from) ==> (#[trigger] frames[k]).lib_index == lib,
    decreases frames.len() - from,
{
    if from < frames.len() && frames[from as int].lib_index == lib {
        lemma_group_end(frames, lib, from + 1);
    }
}

proof fn lemma_fall_back(
    table: Map<AddressFrame, SymbolView>,
    libs: Seq<Library>,
    frames: Seq<AddressFrame>,
    from: nat,
    to: nat,
)
    requires
        from <= to <= frames.len(),
        strictly_sorted(frames),
        forall|f: AddressFrame|
            #![trigger table.contains_key(f)]
            table.contains_key(f) <==> frames.take(from as int).contains(f),
    ensures
        forall|f: AddressFrame|
            #![trigger fall_back(table, libs, frames, from, to).contains_key(f)]
            fall_back(table, libs, frames, from, to).contains_key(f) <==> frames.take(
                to as int,
            ).contains(f),
        forall|k: int|
            from <= k < to ==> fall_back(table, libs, frames, from, to)[#[trigger] frames[k]]
                == fallback_view(libs, frames[k]),
        forall|k: int|
            0 <= k < from ==> fall_back(table, libs, frames, from, to)[#[trigger] frames[k]]
                == table[frames[k]],
    decreases to - from,
{
    if from < to {
        let before = (to - 1) as nat;
        lemma_fall_back(table, libs, frames, from, before);
        lemma_one_more(
            fall_back(table, libs, frames, from, before),
            frames,
            before as int,
            fallback_view(libs, frames[to - 1]),
        );
    }
}

/// A table of the first frames that gets the next one.
proof fn lemma_one_more(
    table: Map<AddressFrame, SymbolView>,
    frames: Seq<AddressFrame>,
    at: int,
    symbol: SymbolView,
)
    requires
        0 <= at < frames.len(),
        strictly_sorted(frames),
        forall|f: AddressFrame|
            #![trigger table.contains_key(f)]
            table.contains_key(f) <==> frames.take(at).contains(f),
    ensures
        forall|f: AddressFrame|
            #![trigger table.insert(frames[at], symbol).contains_key(f)]
            table.insert(frames[at], symbol).contains_key(f) <==> frames.take(
                at + 1,
            ).contains(f),
        forall|k: int|
            0 <= k < at ==> table.insert(frames[at], symbol)[#[trigger] frames[k]]
                == table[frames[k]],
{
    let after = table.insert(frames[at], symbol);
    assert forall|f: AddressFrame| #![trigger after.contains_key(f)]
        after.contains_key(f) <==> frames.take(at + 1).contains(f) by {
        if frames.take(at).contains(f) {
            let fewer = frames.take(at);
            let k = choose|k: int| 0 <= k < fewer.len() && fewer[k] == f;
            assert(frames.take(at + 1)[k] == f);
        }
        assert(frames.take(at + 1)[at] == frames[at]);
        if frames.take(at + 1).contains(f) && f != frames[at] {
            let more = frames.take(at + 1);
            let k = choose|k: int| 0 <= k < more.len() && more[k] == f;
            assert(frames.take(at)[k] == f);
        }
        assert(table.contains_key(f) <==> frames.take(at).contains(f));
    }
}

/// Going on without symbols keeps a symbolication valid.
proof fn lemma_without_symbols(p: Progress, from: nat)
    requires
        strictly_sorted(p.frames),
        p.at <= from <= p.frames.len(),
        0 < from < p.frames.len() && usable(p.libs, p.frames[from as int]) ==> p.frames[from
            - 1].lib_index != p.frames[from as int].lib_index,
        forall|f: AddressFrame|
            #![trigger p.table.contains_key(f)]
            p.table.contains_key(f) <==> p.frames.take(p.at as int).contains(f),
    ensures
        p.without_symbols(from).valid(),
        from <= p.without_symbols(from).at <= p.frames.len(),
        forall|k: int|
            0 <= k < p.at ==> p.without_symbols(from).table[#[trigger] p.frames[k]]
                == p.table[p.frames[k]],
        forall|k: int|
            p.at <= k < p.without_symbols(from).at
                ==> p.without_symbols(from).table[#[trigger] p.frames[k]] == fallback_view(
                p.libs,
                p.frames[k],
            ),
        forall|k: int|
            from <= k < p.without_symbols(from).at ==> !usable(p.libs, #[trigger] p.frames[k]),
{
    let stop = next_stop(p.libs, p.frames, from);
    lemma_next_stop(p.libs, p.frames, from);
    lemma_fall_back(p.table, p.libs, p.frames, p.at, stop);
    if from < stop < p.frames.len() {
        assert(!usable(p.libs, p.frames[stop - 1]));
    }
}

/// A reply to a request to open a library keeps a symbolication valid and
/// brings it forward.
pub proof fn law_load_goes_on(p: Progress, loaded: bool)
    requires
        p.valid(),
        !p.finished(),
        !p.open,
    ensures
        p.after_load(loaded).valid(),
        if loaded {
            p.after_load(loaded).open && p.after_load(loaded).at == p.at
        } else {
            p.at < p.after_load(loaded).at
        },
{
    if !loaded {
        lemma_group_end(p.frames, p.frame().lib_index, p.at);
        let end = group_end(p.frames, p.frame().lib_index, p.at);
        assert(p.frames[end - 1].lib_index == p.frame().lib_index);
        lemma_without_symbols(p, end);
    }
}

/// A reply to a lookup keeps a symbolication valid and brings it forward.
pub proof fn law_lookup_goes_on(p: Progress, name: Option<Seq<char>>)
    requires
        p.valid(),
        p.open,
    ensures
        p.after_lookup(name).valid(),
        p.at < p.after_lookup(name).at,
{
    lemma_one_more(p.table, p.frames, p.at as int, p.symbol(name));
    let here = Progress {
        at: p.at + 1,
        table: p.table.insert(p.frame(), p.symbol(name)),
        ..p
    };
    if !(!here.finished() && here.frame().lib_index == p.frame().lib_index) {
        assert(here.frames[here.at - 1] == p.frame());
        lemma_without_symbols(here, here.at);
    }
}

/// A symbolication starts out valid.
pub proof fn law_start_is_valid(libs: Seq<Library>, frames: Seq<AddressFrame>)
    requires
        strictly_sorted(frames),
    ensures
        started(libs, frames).valid(),
{
    lemma_without_symbols(Progress { libs, frames, at: 0, open: false, table: Map::empty() }, 0);
}

/// Two requests to open a library, at different frames of one symbolication,
/// are about different libraries: none is opened twice.
pub proof fn law_no_library_is_opened_twice(p: Progress, q: Progress)
    requires
        p.valid(),
        q.valid(),
        p.frames == q.frames,
        p.at < q.at,
        !q.finished(),
        !p.open,
        !q.open,
    ensures
        p.frame().lib_index != q.frame().lib_index,
{
    let fs = p.frames;
    assert(frame_le(fs[q.at - 1], fs[q.at as int]));
    assert(p.at == q.at - 1 || frame_le(fs[p.at as int], fs[q.at - 1]));
}

/// The symbol of a frame, where `loads` tells which libraries can be opened and
/// `names` what lookups in them give.
pub open spec fn symbol_for(
    libs: Seq<Library>,
    frame: AddressFrame,
    loads: spec_fn(int) -> bool,
    names: spec_fn(int, u32) -> Option<Seq<char>>,
) -> SymbolView {
    if usable(libs, frame) && loads(frame.lib_index->0 as int) {
        match names(frame.lib_index->0 as int, lookup_address(frame)) {
            Some(n) => SymbolView {
                name: bared(demangled(n)),
                lib_name: libs[frame.lib_index->0 as int].name@,
            },
            None => fallback_view(libs, frame),
        }
    } else {
        fallback_view(libs, frame)
    }
}

/// Where a symbolication ends whose requests are answered by `loads` and
/// `names`.
pub open spec fn answered(
    p: Progress,
    loads: spec_fn(int) -> bool,
    names: spec_fn(int, u32) -> Option<Seq<char>>,
) -> Progress
    decreases p.remaining(),
{
    if !p.valid() || p.finished() {
        p
    } else if p.open {
        proof {
            law_lookup_goes_on(p, names(p.library(), lookup_address(p.frame())));
        }
        answered(p.after_lookup(names(p.library(), lookup_address(p.frame()))), loads, names)
    } else {
        proof {
            law_load_goes_on(p, loads(p.library()));
        }
        answered(p.after_load(loads(p.library())), loads, names)
    }
}

/// Whether all that is in the table came from these answers.
spec fn agrees(
    p: Progress,
    loads: spec_fn(int) -> bool,
    names: spec_fn(int, u32) -> Option<Seq<char>>,
) -> bool {
    &&& forall|k: int|
        0 <= k < p.at ==> p.table[#[trigger] p.frames[k]] == symbol_for(
            p.libs,
            p.frames[k],
            loads,
            names,
        )
    &&& p.open ==> loads(p.library())
}

proof fn lemma_answered(
    p: Progress,
    loads: spec_fn(int) -> bool,
    names: spec_fn(int, u32) -> Option<Seq<char>>,
)
    requires
        p.valid(),
        agrees(p, loads, names),
    ensures
        answered(p, loads, names).valid(),
        answered(p, loads, names).finished(),
        answered(p, loads, names).frames == p.frames,
        answered(p, loads, names).libs == p.libs,
        agrees(answered(p, loads, names), loads, names),
    decreases p.remaining(),
{
    if !p.finished() {
        if p.open {
            let name = names(p.library(), lookup_address(p.frame()));
            law_lookup_goes_on(p, name);
            lemma_one_more(p.table, p.frames, p.at as int, p.symbol(name));
            let here = Progress {
                at: p.at + 1,
                table: p.table.insert(p.frame(), p.symbol(name)),
                ..p
            };
            if !(!here.finished() && here.frame().lib_index == p.frame().lib_index) {
                assert(here.frames[here.at - 1] == p.frame());
                lemma_without_symbols(here, here.at);
            }
            assert(agrees(p.after_lookup(name), loads, names));
            lemma_answered(p.after_lookup(name), loads, names);
        } else {
            let loaded = loads(p.library());
            law_load_goes_on(p, loaded);
            if !loaded {
                lemma_group_end(p.frames, p.frame().lib_index, p.at);
                let end = group_end(p.frames, p.frame().lib_index, p.at);
                assert(p.frames[end - 1].lib_index == p.frame().lib_index);
                lemma_without_symbols(p, end);
            }
            assert(agrees(p.after_load(loaded), loads, names));
            lemma_answered(p.after_load(loaded), loads, names);
        }
    }
}

/// When all requests are answered, the table has each frame, and no other, with
/// the symbol that the answers give it.
pub proof fn law_every_frame_gets_its_symbol(
    libs: Seq<Library>,
    frames: Seq<AddressFrame>,
    loads: spec_fn(int) -> bool,
    names: spec_fn(int, u32) -> Option<Seq<char>>,
)
    requires
        strictly_sorted(frames),
    ensures
        answered(started(libs, frames), loads, names).finished(),
        answered(started(libs, frames), loads, names).table == Map::new(
            |f: AddressFrame| frames.contains(f),
            |f: AddressFrame| symbol_for(libs, f, loads, names),
        ),
{
    let p = started(libs, frames);
    law_start_is_valid(libs, frames);
    lemma_without_symbols(Progress { libs, frames, at: 0, open: false, table: Map::empty() }, 0);
    assert(agrees(p, loads, names));
    lemma_answered(p, loads, names);
    let end = answered(p, loads, names);
    assert(end.frames.take(end.at as int) =~= frames);
    assert forall|f: AddressFrame| frames.contains(f) implies end.table[f] == symbol_for(
        libs,
        f,
        loads,
        names,
    ) by {
        let k = choose|k: int| 0 <= k < frames.len() && frames[k] == f;
        assert(end.table[end.frames[k]] == symbol_for(libs, f, loads, names));
    }
    assert(end.table =~= Map::new(
        |f: AddressFrame| frames.contains(f),
        |f: AddressFrame| symbol_for(libs, f, loads, names),
    ));
}

/// A symbolication under way.
pub struct Symbolication<'a> {
    libs: &'a [Library],
    frames: Vec<AddressFrame>,
    at: usize,
    open: bool,
    table: SymbolTable,
}

impl<'a> View for Symbolication<'a> {
    type V = Progress;

    closed spec fn view(&self) -> Progress {
        Progress {
            libs: self.libs@,
            frames: self.frames@,
            at: self.at as nat,
            open: self.open,
            table: self.table@,
        }
    }
}

fn copy_text(s: &Option<String>) -> (r: Option<String>)
    ensures
        r == *s,
{
    match s {
        Some(t) => Some(t.clone()),
        None => None,
    }
}

fn is_usable(libs: &[Library], frame: AddressFrame) -> (r: bool)
    ensures
        r == usable(libs@, frame),
{
    match frame.lib_index {
        Some(i) => {
            let at: usize = i as usize;
            at < libs.len() && libs[at].path.is_some()
        },
        None => false,
    }
}

impl<'a> Symbolication<'a> {
    /// Begins to resolve frames with the binaries of `libs`.
    pub fn new(libs: &'a [Library], frames: Vec<AddressFrame>) -> (r: Self)
        ensures
            r@.valid(),
            unique_frames(r@.frames, frames@),
            r@ == started(libs@, r@.frames),
    {
        let unique = sort_unique(frames);
        let mut r = Symbolication {
            libs,
            frames: unique,
            at: 0,
            open: false,
            table: SymbolTable::new(),
        };
        proof {
            law_start_is_valid(libs@, r.frames@);
        }
        r.skip();
        r
    }

    /// Puts the current frame into the table without a symbol.
    fn give_up(&mut self)
        requires
            !old(self)@.finished(),
        ensures
            final(self)@ == (Progress {
                at: old(self)@.at + 1,
                table: old(self)@.table.insert(
                    old(self)@.frame(),
                    fallback_view(old(self)@.libs, old(self)@.frame()),
                ),
                ..old(self)@
            }),
    {
        let frame: AddressFrame = self.frames[self.at];
        self.table.insert(frame, fallback_symbol(self.libs, frame));
        assert(self.at < self.frames.len());
        self.at = self.at + 1;
    }

    /// Goes on to the next frame that can be looked up.
    fn skip(&mut self)
        requires
            old(self)@.at <= old(self)@.frames.len(),
        ensures
            final(self)@ == old(self)@.without_symbols(old(self)@.at),
    {
        let ghost start = self@;
        self.open = false;
        while self.at < self.frames.len() && !is_usable(self.libs, self.frames[self.at])
            invariant
                start.at <= self@.at <= start.frames.len(),
                self@.libs == start.libs,
                self@.frames == start.frames,
                !self@.open,
                self@.table == fall_back(
                    start.table,
                    start.libs,
                    start.frames,
                    start.at,
                    self@.at,
                ),
                next_stop(start.libs, start.frames, start.at) == next_stop(
                    start.libs,
                    start.frames,
                    self@.at,
                ),
            decreases self.frames@.len() - self.at,
        {
            self.give_up();
        }
    }

    /// What is needed next.
    pub fn request(&self) -> (r: Request)
        requires
            self@.valid(),
        ensures
            match r {
                Request::Done => self@.finished(),
                Request::Load { library, path, arch } => {
                    &&& !self@.finished() && !self@.open
                    &&& library == self@.library()
                    &&& self@.libs[library as int].path == Some(path)
                    &&& self@.libs[library as int].arch == arch
                },
                Request::Lookup { library, address } => {
                    &&& !self@.finished() && self@.open
                    &&& library == self@.library()
                    &&& address == lookup_address(self@.frame())
                },
            },
    {
        if self.at >= self.frames.len() {
            return Request::Done;
        }
        let frame: AddressFrame = self.frames[self.at];
        match frame.lib_index {
            Some(i) => {
                let library: usize = i as usize;
                if self.open {
                    let whole: u64 = frame.address;
                    let address: u32 = (whole % 0x1_0000_0000) as u32;
                    return Request::Lookup { library, address };
                }
                match &self.libs[library].path {
                    Some(path) => Request::Load {
                        library,
                        path: path.clone(),
                        arch: copy_text(&self.libs[library].arch),
                    },
                    None => Request::Done,
                }
            },
            None => Request::Done,
        }
    }

    /// Answers a request to open a library.
    pub fn loaded(&mut self, loaded: bool)
        requires
            old(self)@.valid(),
            !old(self)@.finished(),
            !old(self)@.open,
        ensures
            final(self)@ == old(self)@.after_load(loaded),
            final(self)@.valid(),
    {
        let ghost start = self@;
        proof {
            law_load_goes_on(start, loaded);
        }
        if loaded {
            self.open = true;
            return ;
        }
        let lib: Option<u32> = self.frames[self.at].lib_index;
        while self.at < self.frames.len() && self.frames[self.at].lib_index == lib
            invariant
                start.at <= self@.at <= start.frames.len(),
                self@.libs == start.libs,
                self@.frames == start.frames,
                self@.table == fall_back(
                    start.table,
                    start.libs,
                    start.frames,
                    start.at,
                    self@.at,
                ),
                group_end(start.frames, lib, start.at) == group_end(start.frames, lib, self@.at),
            decreases self.frames@.len() - self.at,
        {
            self.give_up();
        }
        let ghost end = self@.at;
        self.skip();
        proof {
            lemma_next_stop(start.libs, start.frames, end);
            lemma_fall_back_twice(start.table, start.libs, start.frames, start.at, end, self@.at);
        }
    }

    /// Answers a lookup with the name that was found, if any was.
    pub fn looked_up(&mut self, name: Option<&str>)
        requires
            old(self)@.valid(),
            old(self)@.open,
        ensures
            final(self)@ == old(self)@.after_lookup(
                match name {
                    Some(n) => Some(n@),
                    None => None,
                },
            ),
            final(self)@.valid(),
    {
        let ghost start = self@;
        let ghost given: Option<Seq<char>> = match name {
            Some(n) => Some(n@),
            None => None,
        };
        proof {
            law_lookup_goes_on(start, given);
        }
        let frame: AddressFrame = self.frames[self.at];
        let symbol = match (name, frame.lib_index) {
            (Some(n), Some(i)) => ResolvedSymbol {
                name: prettify_symbol(n),
                lib_name: self.libs[i as usize].name.clone(),
            },
            _ => fallback_symbol(self.libs, frame),
        };
        self.table.insert(frame, symbol);
        assert(self.at < self.frames.len());
        self.at = self.at + 1;
        if self.at < self.frames.len() && self.frames[self.at].lib_index == frame.lib_index {
            return ;
        }
        self.skip();
    }

    /// The symbols found so far: all of them, once nothing is requested any
    /// more.
    pub fn into_table(self) -> (r: SymbolTable)
        ensures
            r@ == self@.table,
    {
        self.table
    }
}

proof fn lemma_fall_back_twice(
    table: Map<AddressFrame, SymbolView>,
    libs: Seq<Library>,
    frames: Seq<AddressFrame>,
    a: nat,
    b: nat,
    c: nat,
)
    requires
        a <= b <= c,
    ensures
        fall_back(fall_back(table, libs, frames, a, b), libs, frames, b, c) == fall_back(
            table,
            libs,
            frames,
            a,
            c,
        ),
    decreases c - b,
{
    if b < c {
        lemma_fall_back_twice(table, libs, frames, a, b, (c - 1) as nat);
    }
}

} // verus!
