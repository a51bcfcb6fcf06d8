use samply_report::document::{packing_of, read_document, unpacked, DocumentError, Packing};
use samply_report::error::SelectError;
use samply_report::metadata::{metadata_lines, thread_label};
use samply_report::profile::{
    select_thread, FrameTable, FuncTable, Library, Meta, Profile, ResourceTable, SampleUnits,
    Samples, StackTable, Thread,
};
use samply_report::text::{contains_text, push_decimal, push_signed};

fn thread(name: Option<&str>, is_main_thread: bool, samples: usize) -> Thread {
    Thread {
        name: name.map(|n| n.to_string()),
        is_main_thread,
        pid: None,
        tid: None,
        string_array: vec![],
        stack_table: StackTable { length: 0, prefix: vec![], frame: vec![] },
        frame_table: FrameTable { length: 0, address: vec![], func: vec![] },
        func_table: FuncTable { length: 0, name: vec![], resource: vec![] },
        resource_table: ResourceTable { length: 0, lib: vec![], name: vec![] },
        samples: Samples { length: samples, stack: vec![], weight: None },
    }
}

fn profile(threads: Vec<Thread>) -> Profile {
    Profile {
        meta: Meta {
            product: None,
            oscpu: None,
            interval: None,
            preprocessed_profile_version: None,
            version: None,
            symbolicated: None,
            sample_units: None,
            start_time: None,
        },
        libs: vec![],
        threads,
    }
}

fn some(s: &str) -> Option<String> {
    Some(s.to_string())
}

fn selected(p: &Profile, thread: Option<usize>) -> Result<usize, SelectError> {
    select_thread(p, thread).map(|(i, t)| {
        assert_eq!(t.samples.length, p.threads[i].samples.length);
        i
    })
}

#[test]
fn a_thread_is_picked_by_index() {
    let p = profile(vec![thread(None, true, 1), thread(None, false, 2)]);
    assert_eq!(selected(&p, Some(1)), Ok(1));
    let e = selected(&p, Some(2)).unwrap_err();
    assert_eq!(e, SelectError::OutOfRange(2));
    assert_eq!(e.message(), "thread index 2 out of range");
}

#[test]
fn the_first_main_thread_is_the_default() {
    let p = profile(vec![
        thread(None, false, 90),
        thread(None, true, 1),
        thread(None, true, 5),
    ]);
    assert_eq!(selected(&p, None), Ok(1));
}

#[test]
fn the_heaviest_thread_is_the_default_without_a_main_one() {
    let p = profile(vec![
        thread(None, false, 3),
        thread(None, false, 9),
        thread(None, false, 4),
    ]);
    assert_eq!(selected(&p, None), Ok(1));
    // Of equally heavy ones the last.
    let p = profile(vec![
        thread(None, false, 9),
        thread(None, false, 9),
        thread(None, false, 4),
    ]);
    assert_eq!(selected(&p, None), Ok(1));
}

#[test]
fn without_threads_none_is_picked() {
    let p = profile(vec![]);
    assert_eq!(selected(&p, None), Err(SelectError::NoThreads));
    assert_eq!(selected(&p, Some(0)), Err(SelectError::NoThreads));
    assert_eq!(SelectError::NoThreads.message(), "profile has no threads");
}

#[test]
fn metadata_of_a_bare_profile() {
    assert_eq!(
        metadata_lines(&profile(vec![])),
        ["Profile: (unknown product)", "  threads: 0", "  libs: 0"]
    );
}

#[test]
fn metadata_of_a_full_profile() {
    let mut p = profile(vec![thread(some("main").as_deref(), true, 12), thread(None, false, 0)]);
    p.meta = Meta {
        product: some("demo"),
        oscpu: some("Linux"),
        interval: some("0.5"),
        preprocessed_profile_version: Some(46),
        version: Some(24),
        symbolicated: Some(false),
        sample_units: Some(SampleUnits {
            time: some("us"),
            thread_cpu_delta: None,
            event_delay: some("ms"),
        }),
        start_time: some("1700000000000"),
    };
    p.libs = vec![
        Library {
            name: "demo".to_string(),
            path: some("/bin/demo"),
            debug_name: None,
            debug_path: None,
            breakpad_id: some("ABC0"),
            code_id: None,
            arch: some("arm64"),
        },
        Library {
            name: "vdso".to_string(),
            path: None,
            debug_name: None,
            debug_path: None,
            breakpad_id: None,
            code_id: None,
            arch: None,
        },
    ];
    assert_eq!(
        metadata_lines(&p),
        [
            "Profile: demo",
            "  OS: Linux",
            "  interval: 0.5 us",
            "  preprocessedProfileVersion: 46",
            "  version: 24",
            "  symbolicated: false",
            "  sampleUnits: time=us, eventDelay=ms",
            "  startTime: 1700000000000",
            "  threads: 2",
            "    [0] [main] main  samples=12",
            "    [1] (unnamed)  samples=0",
            "  libs: 2",
            "    [0] demo (arm64)  /bin/demo",
            "         breakpadId: ABC0",
            "    [1] vdso (?)  (no path)",
        ]
    );
}

#[test]
fn threads_go_by_name_or_index() {
    assert_eq!(thread_label(&thread(Some("io"), false, 0), 4), "io");
    assert_eq!(thread_label(&thread(None, false, 0), 14), "thread 14");
}

#[test]
fn metadata_units() {
    let mut p = profile(vec![]);
    p.meta.interval = some("1");
    p.meta.symbolicated = Some(true);
    p.meta.sample_units = Some(SampleUnits {
        time: None,
        thread_cpu_delta: None,
        event_delay: None,
    });
    let lines = metadata_lines(&p);
    assert_eq!(lines[1], "  interval: 1 ms");
    assert_eq!(lines[2], "  symbolicated: true");
    assert_eq!(lines[3], "  threads: 0");
    p.meta.sample_units = Some(SampleUnits {
        time: some("ms"),
        thread_cpu_delta: some("ns"),
        event_delay: some("ms"),
    });
    assert_eq!(
        metadata_lines(&p)[3],
        "  sampleUnits: time=ms, threadCPUDelta=ns, eventDelay=ms"
    );
}

fn gzipped(text: &[u8]) -> Vec<u8> {
    let mut e = flate2::write::GzEncoder::new(Vec::new(), flate2::Compression::default());
    std::io::Write::write_all(&mut e, text).unwrap();
    e.finish().unwrap()
}

#[test]
fn plain_json_is_taken_as_it_is() {
    let d = read_document(b"{}".to_vec()).unwrap();
    assert_eq!(d.json, b"{}");
    assert_eq!(d.packing, Packing::Plain);
    assert_eq!(d.packing.parse_failure_message(), "failed to parse profile JSON");
    assert_eq!(packing_of(&vec![0x1f]), Packing::Plain);
    assert_eq!(packing_of(&vec![0x1f, 0x8c]), Packing::Plain);
    assert_eq!(packing_of(&vec![0x1f, 0x8b]), Packing::Gzip);
}

#[test]
fn gzip_is_decompressed() {
    let d = read_document(gzipped(b"{\"meta\":1}")).unwrap();
    assert_eq!(d.json, b"{\"meta\":1}");
    assert_eq!(d.packing, Packing::Gzip);
    assert_eq!(
        d.packing.parse_failure_message(),
        "failed to parse gzip-compressed profile JSON"
    );
    // Only the first member counts.
    let mut two = gzipped(b"one");
    two.extend(gzipped(b"two"));
    assert_eq!(read_document(two).unwrap().json, b"one");
}

#[test]
fn an_empty_file_is_an_error() {
    let e = read_document(vec![]).unwrap_err();
    assert!(matches!(e, DocumentError::Empty));
    assert_eq!(e.message(), "profile file is empty");
}

#[test]
fn a_broken_gzip_stream_is_an_error() {
    let mut bytes = gzipped(b"some text that is cut off");
    bytes.truncate(20);
    let e = read_document(bytes).unwrap_err();
    assert!(matches!(e, DocumentError::Corrupt(_)));
    assert_eq!(e.message(), "failed to parse gzip-compressed profile JSON");
    assert!(unpacked(Ok(vec![1])).unwrap().json == [1]);
}

#[test]
fn numerals() {
    let mut s = "n=".to_string();
    push_decimal(&mut s, 0);
    push_decimal(&mut s, u64::MAX);
    assert_eq!(s, "n=018446744073709551615");
    let mut s = String::new();
    push_signed(&mut s, -10);
    push_signed(&mut s, 10);
    assert_eq!(s, "-1010");
}

#[test]
fn substrings() {
    assert!(contains_text("abcd", "bc"));
    assert!(contains_text("abcd", ""));
    assert!(contains_text("", ""));
    assert!(contains_text("aab", "ab"));
    assert!(!contains_text("abcd", "bd"));
    assert!(!contains_text("a", "ab"));
    assert!(contains_text("größe", "öß"));
}
