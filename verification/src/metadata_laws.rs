//! What the metadata of a profile lists.

use vstd::prelude::*;
use vstd::string::*;

use crate::metadata::{
    all_lib_lines, joined, label_of, lib_lines, meta_lines, profile_lines, thread_line,
    thread_lines, unit_parts,
};
use crate::profile::{Library, Meta, Profile, SampleUnits, Thread};
use crate::text::decimal;

verus! {

/// The metadata comes first, then the number of threads and a line for each in
/// their order, then the number of libraries and what is told of each.
pub proof fn law_metadata_lists_all_threads_and_libraries(p: Profile, i: int)
    ensures
        ({
            let lines = profile_lines(p);
            let m = meta_lines(p.meta).len() as int;
            let t = p.threads@.len() as int;
            &&& lines.take(m) == meta_lines(p.meta)
            &&& lines[m] == "  threads: "@ + decimal(p.threads@.len())
            &&& 0 <= i < t ==> lines[m + 1 + i] == thread_line(i as nat, p.threads@[i])
            &&& lines[m + 1 + t] == "  libs: "@ + decimal(p.libs@.len())
            &&& lines.skip(m + 2 + t) == all_lib_lines(p.libs@, p.libs@.len())
        }),
{
    let lines = profile_lines(p);
    let m = meta_lines(p.meta).len() as int;
    let t = p.threads@.len() as int;
    assert(thread_lines(p.threads@, p.threads@.len()).len() == t);
    assert(lines.take(m) =~= meta_lines(p.meta));
    assert(lines.skip(m + 2 + t) =~= all_lib_lines(p.libs@, p.libs@.len()));
}

/// Libraries are told one after another, each with its index.
pub proof fn law_libraries_are_told_one_after_another(libs: Seq<Library>, n: nat)
    requires
        n < libs.len(),
    ensures
        all_lib_lines(libs, 0) == Seq::<Seq<char>>::empty(),
        all_lib_lines(libs, n + 1) == all_lib_lines(libs, n) + lib_lines(n, libs[n as int]),
{
}

/// A thread is told by its index, a mark if it is a main thread, its name if it
/// has one, and the number of its samples.
pub proof fn law_line_of_a_thread(i: nat, t: Thread)
    ensures
        t.is_main_thread && t.name is Some ==> thread_line(i, t) == "    ["@ + decimal(i) + "]"@
            + " [main]"@ + " "@ + t.name->0@ + "  samples="@ + decimal(t.samples.length as nat),
        t.is_main_thread && t.name is None ==> thread_line(i, t) == "    ["@ + decimal(i) + "]"@
            + " [main]"@ + " "@ + "(unnamed)"@ + "  samples="@ + decimal(t.samples.length as nat),
        !t.is_main_thread && t.name is Some ==> thread_line(i, t) == "    ["@ + decimal(i) + "] "@
            + t.name->0@ + "  samples="@ + decimal(t.samples.length as nat),
        !t.is_main_thread && t.name is None ==> thread_line(i, t) == "    ["@ + decimal(i) + "] "@
            + "(unnamed)"@ + "  samples="@ + decimal(t.samples.length as nat),
        t.name is Some ==> label_of(t, i) == t.name->0@,
        t.name is None ==> label_of(t, i) == "thread "@ + decimal(i),
{
    reveal_strlit("");
    reveal_strlit(" ");
    reveal_strlit("]");
    reveal_strlit("] ");
    let head = "    ["@ + decimal(i);
    assert(head + "]"@ + ""@ + " "@ =~= head + "] "@);
}

/// A library is told by its index, its name, its architecture, and its path, with
/// a line of its own for its id where it has one.
pub proof fn law_lines_of_a_library(i: nat, lib: Library)
    ensures
        lib_lines(i, lib).len() == if lib.breakpad_id is Some {
            2int
        } else {
            1int
        },
        lib_lines(i, lib)[0] == "    ["@ + decimal(i) + "] "@ + lib.name@ + " ("@ + (
        if lib.arch is Some {
            lib.arch->0@
        } else {
            "?"@
        }) + ")  "@ + (if lib.path is Some {
            lib.path->0@
        } else {
            "(no path)"@
        }),
        lib.breakpad_id is Some ==> lib_lines(i, lib)[1] == "         breakpadId: "@
            + lib.breakpad_id->0@,
{
}

/// A line where there is something to tell, else none.
pub open spec fn known(line: Option<Seq<char>>) -> Seq<Seq<char>> {
    if line is Some {
        seq![line->0]
    } else {
        Seq::empty()
    }
}

/// The metadata proper tells the product, and each of the other things that are
/// known, in their order.
pub proof fn law_lines_of_the_metadata(meta: Meta)
    ensures
        ({
            let product = if meta.product is Some {
                meta.product->0@
            } else {
                "(unknown product)"@
            };
            let unit = if meta.sample_units is Some && meta.sample_units->0.time is Some {
                meta.sample_units->0.time->0@
            } else {
                "ms"@
            };
            let units = meta.sample_units is Some && (meta.sample_units->0.time is Some
                || meta.sample_units->0.thread_cpu_delta is Some
                || meta.sample_units->0.event_delay is Some);
            meta_lines(meta) == seq!["Profile: "@ + product] + known(
                if meta.oscpu is Some {
                    Some("  OS: "@ + meta.oscpu->0@)
                } else {
                    None
                },
            ) + known(
                if meta.interval is Some {
                    Some("  interval: "@ + meta.interval->0@ + " "@ + unit)
                } else {
                    None
                },
            ) + known(
                if meta.preprocessed_profile_version is Some {
                    Some(
                        "  preprocessedProfileVersion: "@ + decimal(
                            meta.preprocessed_profile_version->0 as nat,
                        ),
                    )
                } else {
                    None
                },
            ) + known(
                if meta.version is Some {
                    Some("  version: "@ + decimal(meta.version->0 as nat))
                } else {
                    None
                },
            ) + known(
                if meta.symbolicated is Some {
                    Some("  symbolicated: "@ + if meta.symbolicated->0 {
                        "true"@
                    } else {
                        "false"@
                    })
                } else {
                    None
                },
            ) + known(
                if units {
                    Some("  sampleUnits: "@ + joined(unit_parts(meta.sample_units->0)))
                } else {
                    None
                },
            ) + known(
                if meta.start_time is Some {
                    Some("  startTime: "@ + meta.start_time->0@)
                } else {
                    None
                },
            )
        }),
{
    if meta.sample_units is Some {
        let u = meta.sample_units->0;
        assert(unit_parts(u).len() > 0 <==> (u.time is Some || u.thread_cpu_delta is Some
            || u.event_delay is Some));
    }
}

/// The units that are known are told in their order, with commas between them.
pub proof fn law_units_are_joined(units: SampleUnits, a: Seq<Seq<char>>, x: Seq<char>)
    ensures
        unit_parts(units) == known(
            if units.time is Some {
                Some("time="@ + units.time->0@)
            } else {
                None
            },
        ) + known(
            if units.thread_cpu_delta is Some {
                Some("threadCPUDelta="@ + units.thread_cpu_delta->0@)
            } else {
                None
            },
        ) + known(
            if units.event_delay is Some {
                Some("eventDelay="@ + units.event_delay->0@)
            } else {
                None
            },
        ),
        joined(Seq::empty()) == Seq::<char>::empty(),
        joined(seq![x]) == x,
        a.len() > 0 ==> joined(a + seq![x]) == joined(a) + ", "@ + x,
{
    assert((a + seq![x]).drop_last() =~= a);
    assert((a + seq![x]).last() == x);
    assert(seq![x][0] == x);
}

} // verus!
