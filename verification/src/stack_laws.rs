//! What the tables of a thread say of frames and stacks.

use vstd::prelude::*;

use crate::chain::law_stack_ends_within_table;
use crate::error::TableError;
use crate::profile::{is_default_thread, Thread};
use crate::tree::AddressFrame;

verus! {

/// The place that a 32-bit index stands for: itself, or counted back from the
/// end of the address space where it is negative.
pub open spec fn place(i: i32) -> int {
    if i < 0 {
        usize::MAX + 1 + i
    } else {
        i as int
    }
}

/// The library of a frame is that of its function alone: two frames of one
/// function are in one library.
pub proof fn law_library_is_that_of_the_function(
    t: Thread,
    a: usize,
    b: usize,
    x: AddressFrame,
    y: AddressFrame,
)
    requires
        t.frame_outcome(a) == Some(Ok::<AddressFrame, TableError>(x)),
        t.frame_outcome(b) == Some(Ok::<AddressFrame, TableError>(y)),
        t.frame_table.func@[a as int] == t.frame_table.func@[b as int],
    ensures
        x.lib_index == y.lib_index,
{
}

/// A frame resolves to the library that its function's resource names, and to
/// its address, a negative one taken as zero. It does so if and only if every
/// table has the entry asked for.
pub proof fn law_frame_follows_the_tables(t: Thread, i: usize, f: AddressFrame)
    ensures
        t.frame_outcome(i) == Some(Ok::<AddressFrame, TableError>(f)) <==> {
            let func = place(t.frame_table.func@[i as int]);
            let resource = t.func_table.resource@[func];
            let lib = t.resource_table.lib@[resource as int];
            let address = t.frame_table.address@[i as int];
            &&& i < t.frame_table.length
            &&& i < t.frame_table.func@.len()
            &&& i < t.frame_table.address@.len()
            &&& func < t.func_table.length
            &&& func < t.func_table.resource@.len()
            &&& resource < 0 ==> f.lib_index is None
            &&& resource >= 0 ==> {
                &&& resource < t.resource_table.length
                &&& resource < t.resource_table.lib@.len()
                &&& lib is None <==> f.lib_index is None
                &&& lib is Some && lib->0 >= 0 ==> f.lib_index->0 == lib->0
                &&& lib is Some && lib->0 < 0 ==> f.lib_index->0 == lib->0 + 0x1_0000_0000
            }
            &&& address < 0 ==> f.address == 0
            &&& address >= 0 ==> f.address == address
        },
{
}

/// An index that a frame leads to and that lies beyond its table is told: the
/// frame's own, else its function's, else its resource's.
pub proof fn law_frame_errors_tell_the_index(t: Thread, i: usize, e: TableError)
    ensures
        t.frame_outcome(i) == Some(Err::<AddressFrame, TableError>(e)) <==> {
            let func = place(t.frame_table.func@[i as int]);
            let resource = t.func_table.resource@[func];
            match e {
                TableError::Frame(k) => k == i && i >= t.frame_table.length,
                TableError::Func(k) => {
                    &&& i < t.frame_table.length
                    &&& i < t.frame_table.func@.len()
                    &&& k == func
                    &&& func >= t.func_table.length
                },
                TableError::Resource(k) => {
                    &&& i < t.frame_table.length
                    &&& i < t.frame_table.func@.len()
                    &&& func < t.func_table.length
                    &&& func < t.func_table.resource@.len()
                    &&& k == resource
                    &&& resource >= t.resource_table.length
                },
                TableError::Stack(_) => false,
            }
        },
{
}

/// Tables that hold the entries they claim, with every index in range.
pub open spec fn sound(t: Thread) -> bool {
    &&& t.frame_table.func@.len() == t.frame_table.length
    &&& t.frame_table.address@.len() == t.frame_table.length
    &&& t.func_table.resource@.len() == t.func_table.length
    &&& t.resource_table.lib@.len() == t.resource_table.length
    &&& t.stack_table.frame@.len() == t.stack_table.length
    &&& t.stack_table.prefix@.len() == t.stack_table.length
    &&& forall|i: int|
        0 <= i < t.frame_table.length ==> 0 <= #[trigger] t.frame_table.func@[i]
            < t.func_table.length
    &&& forall|i: int|
        0 <= i < t.func_table.length ==> #[trigger] t.func_table.resource@[i]
            < t.resource_table.length
    &&& forall|i: int|
        0 <= i < t.stack_table.length ==> 0 <= #[trigger] t.stack_table.frame@[i]
            < t.frame_table.length
    &&& forall|i: int|
        #![trigger t.stack_table.prefix@[i]]
        0 <= i < t.stack_table.length && t.stack_table.prefix@[i] is Some ==> 0
            <= t.stack_table.prefix@[i]->0 < i
}

/// In sound tables every frame resolves.
pub proof fn law_frames_of_sound_tables_resolve(t: Thread, i: usize)
    requires
        sound(t),
        i < t.frame_table.length,
    ensures
        t.frame_outcome(i) matches Some(Ok(_)),
{
    let func = t.frame_table.func@[i as int];
    assert(0 <= func < t.func_table.length);
    assert(t.func_table.resource@[func as int] < t.resource_table.length);
}

/// A stack resolves to its own frame at the leaf, upon what the stack below it
/// resolves to, or upon nothing where it lies on no other.
pub proof fn law_stack_is_its_frame_upon_the_stack_below(
    t: Thread,
    s: i32,
    path: Seq<AddressFrame>,
)
    ensures
        t.stack_outcome(s) == Some(Ok::<Seq<AddressFrame>, TableError>(path)) <==> {
            let at = place(s);
            let frame = place(t.stack_table.frame@[at]);
            &&& path.len() > 0
            &&& at < t.stack_table.length
            &&& at < t.stack_table.frame@.len()
            &&& at < t.stack_table.prefix@.len()
            &&& t.frame_outcome(frame as usize) == Some(
                Ok::<AddressFrame, TableError>(path.last()),
            )
            &&& match t.stack_table.prefix@[at] {
                None => path.len() == 1,
                Some(below) => t.stack_outcome(below) == Some(
                    Ok::<Seq<AddressFrame>, TableError>(path.drop_last()),
                ),
            }
        },
{
    let at = place(s);
    let len = t.stack_table.length as nat;
    let frame = place(t.stack_table.frame@[at]);
    let right = {
        &&& path.len() > 0
        &&& at < t.stack_table.length
        &&& at < t.stack_table.frame@.len()
        &&& at < t.stack_table.prefix@.len()
        &&& t.frame_outcome(frame as usize) == Some(Ok::<AddressFrame, TableError>(path.last()))
        &&& match t.stack_table.prefix@[at] {
            None => path.len() == 1,
            Some(below) => t.stack_outcome(below) == Some(
                Ok::<Seq<AddressFrame>, TableError>(path.drop_last()),
            ),
        }
    };
    if t.stack_outcome(s) == Some(Ok::<Seq<AddressFrame>, TableError>(path)) {
        let rest = t.walk(t.stack_table.prefix@[at], len);
        assert(rest matches Some(Ok(_)));
        let below = rest->0->Ok_0;
        assert(path.drop_last() =~= below);
        match t.stack_table.prefix@[at] {
            Some(b) => {
                law_stack_ends_within_table(t, b, len);
            },
            None => {},
        }
    }
    if right {
        assert(path =~= path.drop_last().push(path.last()));
        match t.stack_table.prefix@[at] {
            Some(b) => {
                assert(t.walk(Some(s), len + 2) == Some(
                    Ok::<Seq<AddressFrame>, TableError>(path),
                ));
                law_stack_ends_within_table(t, s, len + 2);
            },
            None => {
                assert(path.drop_last() =~= Seq::empty());
                assert(t.walk(None, len) == Some(
                    Ok::<Seq<AddressFrame>, TableError>(Seq::empty()),
                ));
            },
        }
    }
}

/// A stack fails as its index does where that lies beyond the table, else as
/// its own frame does, else as the stack below it does.
pub proof fn law_stack_errors_tell_the_first_index(t: Thread, s: i32, e: TableError)
    ensures
        t.stack_outcome(s) == Some(Err::<Seq<AddressFrame>, TableError>(e)) <==> {
            let at = place(s);
            let frame = t.frame_outcome(place(t.stack_table.frame@[at]) as usize);
            if at >= t.stack_table.length {
                e == TableError::Stack(at as usize)
            } else {
                &&& at < t.stack_table.frame@.len()
                &&& {
                    ||| frame == Some(Err::<AddressFrame, TableError>(e))
                    ||| {
                        &&& frame matches Some(Ok(_))
                        &&& at < t.stack_table.prefix@.len()
                        &&& t.stack_table.prefix@[at] is Some
                        &&& t.stack_outcome(t.stack_table.prefix@[at]->0) == Some(
                            Err::<Seq<AddressFrame>, TableError>(e),
                        )
                    }
                }
            }
        },
{
    let at = place(s);
    let len = t.stack_table.length as nat;
    if at < t.stack_table.length && at < t.stack_table.prefix@.len() {
        match t.stack_table.prefix@[at] {
            Some(b) => {
                if t.walk(Some(b), len) is Some {
                    law_stack_ends_within_table(t, b, len);
                }
                if t.stack_outcome(b) is Some && t.walk(Some(s), len + 2) is Some {
                    law_stack_ends_within_table(t, s, len + 2);
                }
            },
            None => {},
        }
    }
}

/// In sound tables every stack resolves.
pub proof fn law_stacks_of_sound_tables_resolve(t: Thread, s: i32)
    requires
        sound(t),
        0 <= s < t.stack_table.length,
    ensures
        t.stack_outcome(s) matches Some(Ok(_)),
    decreases s,
{
    let frame = t.stack_table.frame@[s as int];
    assert(0 <= frame < t.frame_table.length);
    law_frames_of_sound_tables_resolve(t, frame as usize);
    let f = t.frame_outcome(frame as usize)->0->Ok_0;
    match t.stack_table.prefix@[s as int] {
        Some(below) => {
            law_stacks_of_sound_tables_resolve(t, below);
            let rest = t.stack_outcome(below)->0->Ok_0;
            assert(rest.push(f).drop_last() =~= rest);
            law_stack_is_its_frame_upon_the_stack_below(t, s, rest.push(f));
        },
        None => {
            law_stack_is_its_frame_upon_the_stack_below(t, s, seq![f]);
        },
    }
}

/// There is one default thread, wherever there is a thread: with a main thread
/// it is the first of those; else none has more samples, and none after it as
/// many.
pub proof fn law_default_thread(threads: Seq<Thread>, i: int, k: int)
    requires
        is_default_thread(threads, i),
        0 <= k < threads.len(),
    ensures
        0 <= i < threads.len(),
        threads[k].is_main_thread ==> threads[i].is_main_thread && i <= k,
        !threads[i].is_main_thread ==> {
            &&& !threads[k].is_main_thread
            &&& threads[k].samples.length <= threads[i].samples.length
            &&& k > i ==> threads[k].samples.length < threads[i].samples.length
        },
        is_default_thread(threads, k) ==> k == i,
{
    if is_default_thread(threads, k) && k != i {
        if threads[i].is_main_thread {
            assert(exists|m: int| 0 <= m < threads.len() && (#[trigger] threads[m]).is_main_thread);
        }
    }
}

} // verus!
