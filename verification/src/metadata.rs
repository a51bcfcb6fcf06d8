//! What a profile says of itself, as lines of text.

use vstd::prelude::*;
use vstd::string::*;

use crate::profile::{Library, Meta, Profile, SampleUnits, Thread};
use crate::text::{decimal, push_decimal};

verus! {

/// The lines of a list, each by its text.
pub open spec fn texts(lines: Seq<String>) -> Seq<Seq<char>> {
    Seq::new(lines.len(), |i: int| lines[i]@)
}

/// A text, or another where there is none.
pub open spec fn text_or(s: Option<String>, other: Seq<char>) -> Seq<char> {
    match s {
        Some(t) => t@,
        None => other,
    }
}

/// A label with a text after it, where there is one.
pub open spec fn labelled(label: Seq<char>, s: Option<String>) -> Seq<Seq<char>> {
    match s {
        Some(t) => seq![label + t@],
        None => Seq::empty(),
    }
}

/// A label with a number after it, where there is one.
pub open spec fn numbered(label: Seq<char>, n: Option<u32>) -> Seq<Seq<char>> {
    match n {
        Some(v) => seq![label + decimal(v as nat)],
        None => Seq::empty(),
    }
}

/// Texts with commas between them.
pub open spec fn joined(parts: Seq<Seq<char>>) -> Seq<char>
    decreases parts.len(),
{
    if parts.len() == 0 {
        Seq::empty()
    } else if parts.len() == 1 {
        parts[0]
    } else {
        joined(parts.drop_last()) + ", "@ + parts.last()
    }
}

/// The units that are known.
pub open spec fn unit_parts(units: SampleUnits) -> Seq<Seq<char>> {
    labelled("time="@, units.time) + labelled("threadCPUDelta="@, units.thread_cpu_delta)
        + labelled("eventDelay="@, units.event_delay)
}

/// The line of the sample units, where any is known.
pub open spec fn units_line(units: Option<SampleUnits>) -> Seq<Seq<char>> {
    match units {
        Some(u) => if unit_parts(u).len() == 0 {
            Seq::empty()
        } else {
            seq!["  sampleUnits: "@ + joined(unit_parts(u))]
        },
        None => Seq::empty(),
    }
}

/// The unit of the sampling interval, milliseconds if none is given.
pub open spec fn interval_unit(units: Option<SampleUnits>) -> Seq<char> {
    match units {
        Some(u) => text_or(u.time, "ms"@),
        None => "ms"@,
    }
}

/// The line of the sampling interval, where it is known.
pub open spec fn interval_line(meta: Meta) -> Seq<Seq<char>> {
    match meta.interval {
        Some(t) => seq!["  interval: "@ + t@ + " "@ + interval_unit(meta.sample_units)],
        None => Seq::empty(),
    }
}

/// The line that tells whether the profile is symbolicated, where that is
/// known.
pub open spec fn symbolicated_line(s: Option<bool>) -> Seq<Seq<char>> {
    match s {
        Some(b) => seq!["  symbolicated: "@ + if b {
            "true"@
        } else {
            "false"@
        }],
        None => Seq::empty(),
    }
}

/// The lines of the metadata proper.
pub open spec fn meta_lines(meta: Meta) -> Seq<Seq<char>> {
    seq!["Profile: "@ + text_or(meta.product, "(unknown product)"@)] + labelled(
        "  OS: "@,
        meta.oscpu,
    ) + interval_line(meta) + numbered(
        "  preprocessedProfileVersion: "@,
        meta.preprocessed_profile_version,
    ) + numbered("  version: "@, meta.version) + symbolicated_line(meta.symbolicated) + units_line(
        meta.sample_units,
    ) + labelled("  startTime: "@, meta.start_time)
}

/// The line of a thread.
pub open spec fn thread_line(i: nat, t: Thread) -> Seq<char> {
    "    ["@ + decimal(i) + "]"@ + if t.is_main_thread {
        " [main]"@
    } else {
        ""@
    } + " "@ + text_or(t.name, "(unnamed)"@) + "  samples="@ + decimal(t.samples.length as nat)
}

/// The lines of the first `n` threads.
pub open spec fn thread_lines(threads: Seq<Thread>, n: nat) -> Seq<Seq<char>> {
    Seq::new(n, |i: int| thread_line(i as nat, threads[i]))
}

/// The lines of a library.
pub open spec fn lib_lines(i: nat, lib: Library) -> Seq<Seq<char>> {
    seq![
        "    ["@ + decimal(i) + "] "@ + lib.name@ + " ("@ + text_or(lib.arch, "?"@) + ")  "@
            + text_or(lib.path, "(no path)"@),
    ] + labelled("         breakpadId: "@, lib.breakpad_id)
}

/// The lines of the first `n` libraries.
pub open spec fn all_lib_lines(libs: Seq<Library>, n: nat) -> Seq<Seq<char>>
    decreases n,
{
    if n == 0 {
        Seq::empty()
    } else {
        all_lib_lines(libs, (n - 1) as nat) + lib_lines((n - 1) as nat, libs[n - 1])
    }
}

/// All that is shown of a profile.
pub open spec fn profile_lines(p: Profile) -> Seq<Seq<char>> {
    meta_lines(p.meta) + seq!["  threads: "@ + decimal(p.threads@.len())] + thread_lines(
        p.threads@,
        p.threads@.len(),
    ) + seq!["  libs: "@ + decimal(p.libs@.len())] + all_lib_lines(p.libs@, p.libs@.len())
}

fn push_line(lines: &mut Vec<String>, line: String)
    ensures
        texts(final(lines)@) == texts(old(lines)@) + seq![line@],
{
    lines.push(line);
    assert(texts(lines@) =~= texts(old(lines)@) + seq![line@]);
}

fn push_labelled(lines: &mut Vec<String>, label: &str, s: &Option<String>)
    ensures
        texts(final(lines)@) == texts(old(lines)@) + labelled(label@, *s),
{
    match s {
        Some(t) => {
            let mut line = label.to_owned();
            line.append(t.as_str());
            push_line(lines, line);
        },
        None => {
            assert(texts(lines@) =~= texts(lines@) + Seq::<Seq<char>>::empty());
        },
    }
}

fn push_numbered(lines: &mut Vec<String>, label: &str, n: &Option<u32>)
    ensures
        texts(final(lines)@) == texts(old(lines)@) + numbered(label@, *n),
{
    match *n {
        Some(v) => {
            let mut line = label.to_owned();
            push_decimal(&mut line, v as u64);
            push_line(lines, line);
        },
        None => {
            assert(texts(lines@) =~= texts(lines@) + Seq::<Seq<char>>::empty());
        },
    }
}

fn push_text_or(line: &mut String, s: &Option<String>, other: &str)
    ensures
        final(line)@ == old(line)@ + text_or(*s, other@),
{
    match s {
        Some(t) => line.append(t.as_str()),
        None => line.append(other),
    }
}

fn join(parts: &Vec<String>) -> (r: String)
    ensures
        r@ == joined(texts(parts@)),
{
    let mut out = String::new();
    let ghost all = texts(parts@);
    let mut i: usize = 0;
    while i < parts.len()
        invariant
            i <= parts@.len(),
            all == texts(parts@),
            out@ == joined(all.take(i as int)),
        decreases parts@.len() - i,
    {
        proof {
            assert(all.take(i + 1).drop_last() =~= all.take(i as int));
            assert(all.take(i + 1).last() == parts@[i as int]@);
        }
        if i > 0 {
            out.append(", ");
        }
        out.append(parts[i].as_str());
        assert(out@ =~= joined(all.take(i + 1)));
        i = i + 1;
    }
    assert(all.take(i as int) =~= all);
    out
}

fn push_units(lines: &mut Vec<String>, units: &Option<SampleUnits>)
    ensures
        texts(final(lines)@) == texts(old(lines)@) + units_line(*units),
{
    if let Some(u) = units {
        let mut parts: Vec<String> = Vec::new();
        assert(texts(parts@) =~= Seq::empty());
        push_labelled(&mut parts, "time=", &u.time);
        push_labelled(&mut parts, "threadCPUDelta=", &u.thread_cpu_delta);
        push_labelled(&mut parts, "eventDelay=", &u.event_delay);
        assert(texts(parts@) =~= unit_parts(*u));
        assert(texts(parts@).len() == parts@.len());
        if parts.len() > 0 {
            let mut line = "  sampleUnits: ".to_owned();
            line.append(join(&parts).as_str());
            push_line(lines, line);
            return ;
        }
    }
    assert(texts(lines@) =~= texts(lines@) + Seq::<Seq<char>>::empty());
}

fn push_interval(lines: &mut Vec<String>, meta: &Meta)
    ensures
        texts(final(lines)@) == texts(old(lines)@) + interval_line(*meta),
{
    match &meta.interval {
        Some(t) => {
            let mut line = "  interval: ".to_owned();
            line.append(t.as_str());
            line.append(" ");
            match &meta.sample_units {
                Some(u) => push_text_or(&mut line, &u.time, "ms"),
                None => line.append("ms"),
            }
            push_line(lines, line);
        },
        None => {
            assert(texts(lines@) =~= texts(lines@) + Seq::<Seq<char>>::empty());
        },
    }
}

fn push_meta(lines: &mut Vec<String>, meta: &Meta)
    ensures
        texts(final(lines)@) == texts(old(lines)@) + meta_lines(*meta),
{
    let ghost start = texts(lines@);
    let mut first = "Profile: ".to_owned();
    push_text_or(&mut first, &meta.product, "(unknown product)");
    push_line(lines, first);
    push_labelled(lines, "  OS: ", &meta.oscpu);
    push_interval(lines, meta);
    push_numbered(
        lines,
        "  preprocessedProfileVersion: ",
        &meta.preprocessed_profile_version,
    );
    push_numbered(lines, "  version: ", &meta.version);
    match meta.symbolicated {
        Some(b) => {
            let mut line = "  symbolicated: ".to_owned();
            if b {
                line.append("true");
            } else {
                line.append("false");
            }
            push_line(lines, line);
        },
        None => {
            assert(texts(lines@) =~= texts(lines@) + Seq::<Seq<char>>::empty());
        },
    }
    push_units(lines, &meta.sample_units);
    push_labelled(lines, "  startTime: ", &meta.start_time);
    assert(texts(lines@) =~= start + meta_lines(*meta));
}

fn thread_text(i: usize, t: &Thread) -> (r: String)
    ensures
        r@ == thread_line(i as nat, *t),
{
    let mut line = "    [".to_owned();
    push_decimal(&mut line, i as u64);
    line.append("]");
    if t.is_main_thread {
        line.append(" [main]");
    } else {
        line.append("");
    }
    line.append(" ");
    push_text_or(&mut line, &t.name, "(unnamed)");
    line.append("  samples=");
    push_decimal(&mut line, t.samples.length as u64);
    line
}

/// The name that a thread goes by: its own, or one made of its index.
pub open spec fn label_of(t: Thread, index: nat) -> Seq<char> {
    text_or(t.name, "thread "@ + decimal(index))
}

/// The name that a thread goes by.
pub fn thread_label(t: &Thread, index: usize) -> (r: String)
    ensures
        r@ == label_of(*t, index as nat),
{
    match &t.name {
        Some(name) => name.clone(),
        None => {
            let mut out = "thread ".to_owned();
            push_decimal(&mut out, index as u64);
            out
        },
    }
}

fn push_lib(lines: &mut Vec<String>, i: usize, lib: &Library)
    ensures
        texts(final(lines)@) == texts(old(lines)@) + lib_lines(i as nat, *lib),
{
    let ghost start = texts(lines@);
    let mut line = "    [".to_owned();
    push_decimal(&mut line, i as u64);
    line.append("] ");
    line.append(lib.name.as_str());
    line.append(" (");
    push_text_or(&mut line, &lib.arch, "?");
    line.append(")  ");
    push_text_or(&mut line, &lib.path, "(no path)");
    push_line(lines, line);
    push_labelled(lines, "         breakpadId: ", &lib.breakpad_id);
    assert(texts(lines@) =~= start + lib_lines(i as nat, *lib));
}

/// The lines that show a profile's metadata, threads, and libraries.
pub fn metadata_lines(profile: &Profile) -> (r: Vec<String>)
    ensures
        texts(r@) == profile_lines(*profile),
{
    let mut lines: Vec<String> = Vec::new();
    assert(texts(lines@) =~= Seq::empty());
    push_meta(&mut lines, &profile.meta);
    let mut count = "  threads: ".to_owned();
    push_decimal(&mut count, profile.threads.len() as u64);
    push_line(&mut lines, count);
    let ghost head = texts(lines@);
    let mut i: usize = 0;
    assert(head =~= head + thread_lines(profile.threads@, 0));
    while i < profile.threads.len()
        invariant
            i <= profile.threads@.len(),
            texts(lines@) == head + thread_lines(profile.threads@, i as nat),
        decreases profile.threads@.len() - i,
    {
        push_line(&mut lines, thread_text(i, &profile.threads[i]));
        i = i + 1;
        assert(texts(lines@) =~= head + thread_lines(profile.threads@, i as nat));
    }
    let mut count = "  libs: ".to_owned();
    push_decimal(&mut count, profile.libs.len() as u64);
    push_line(&mut lines, count);
    let ghost head2 = texts(lines@);
    let mut i: usize = 0;
    assert(head2 =~= head2 + all_lib_lines(profile.libs@, 0));
    while i < profile.libs.len()
        invariant
            i <= profile.libs@.len(),
            texts(lines@) == head2 + all_lib_lines(profile.libs@, i as nat),
        decreases profile.libs@.len() - i,
    {
        push_lib(&mut lines, i, &profile.libs[i]);
        i = i + 1;
        assert(texts(lines@) =~= head2 + all_lib_lines(profile.libs@, i as nat));
    }
    assert(texts(lines@) =~= profile_lines(*profile));
    lines
}

} // verus!
