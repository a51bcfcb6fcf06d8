use samply_report::profile::Library;
use samply_report::resolve::{Request, Symbolication};
use samply_report::symbolicate::{
    bare, fallback_label, fallback_symbol, prettify_symbol, ResolvedSymbol, SymbolTable,
};
use samply_report::tree::AddressFrame;

fn library(name: &str, path: Option<&str>, arch: Option<&str>) -> Library {
    Library {
        name: name.to_string(),
        path: path.map(|p| p.to_string()),
        debug_name: None,
        debug_path: None,
        breakpad_id: None,
        code_id: None,
        arch: arch.map(|a| a.to_string()),
    }
}

fn libs() -> Vec<Library> {
    vec![
        library("app", Some("/bin/app"), Some("x86_64")),
        library("vdso", None, None),
        library("libc", Some("/lib/libc.so"), None),
    ]
}

fn frame(lib_index: Option<u32>, address: u64) -> AddressFrame {
    AddressFrame { lib_index, address }
}

fn symbol(name: &str, lib_name: &str) -> ResolvedSymbol {
    ResolvedSymbol { name: name.to_string(), lib_name: lib_name.to_string() }
}

#[test]
fn hexadecimal_label() {
    assert_eq!(fallback_label(&[], frame(None, 0)), "0x0");
    assert_eq!(fallback_label(&[], frame(Some(1), 0xdead_beef)), "0xdeadbeef");
    assert_eq!(fallback_label(&[], frame(None, u64::MAX)), "0xffffffffffffffff");
}

#[test]
fn fallbacks_name_the_library_if_it_is_known() {
    let libs = libs();
    assert_eq!(fallback_symbol(&libs, frame(Some(1), 16)), symbol("0x10", "vdso"));
    assert_eq!(fallback_symbol(&libs, frame(Some(3), 16)), symbol("0x10", "???"));
    assert_eq!(fallback_symbol(&libs, frame(None, 16)), symbol("0x10", "???"));
}

#[test]
fn names_are_demangled_and_bared() {
    assert_eq!(prettify_symbol("_ZN3foo3barE"), "foo::bar");
    assert_eq!(prettify_symbol("_main"), "main");
    assert_eq!(prettify_symbol("__libc_start"), "_libc_start");
    assert_eq!(prettify_symbol("read"), "read");
    assert_eq!(prettify_symbol("_"), "");
    assert_eq!(prettify_symbol(""), "");
    assert_eq!(bare("_é_".to_string()), "é_");
    assert_eq!(bare("é".to_string()), "é");
}

#[test]
fn a_table_keeps_the_last_symbol_of_each_frame() {
    let mut t = SymbolTable::new();
    t.insert(frame(None, 1), symbol("a", "x"));
    t.insert(frame(Some(0), 1), symbol("b", "x"));
    t.insert(frame(None, 1), symbol("c", "x"));
    assert_eq!(t.get(&frame(None, 1)), Some(&symbol("c", "x")));
    assert_eq!(t.get(&frame(Some(0), 1)), Some(&symbol("b", "x")));
    assert_eq!(t.get(&frame(Some(1), 1)), None);
    assert_eq!(t.get(&frame(None, 2)), None);
}

#[test]
fn nothing_is_requested_for_no_frames() {
    let libs = libs();
    let s = Symbolication::new(&libs, vec![]);
    assert_eq!(s.request(), Request::Done);
}

#[test]
fn frames_without_a_binary_need_no_request() {
    let libs = libs();
    let s = Symbolication::new(
        &libs,
        vec![frame(Some(9), 7), frame(Some(1), 5), frame(None, 1), frame(None, 1)],
    );
    assert_eq!(s.request(), Request::Done);
    let t = s.into_table();
    assert_eq!(t.get(&frame(None, 1)), Some(&symbol("0x1", "???")));
    assert_eq!(t.get(&frame(Some(1), 5)), Some(&symbol("0x5", "vdso")));
    assert_eq!(t.get(&frame(Some(9), 7)), Some(&symbol("0x7", "???")));
    assert_eq!(t.get(&frame(Some(9), 5)), None);
}

#[test]
fn each_frame_gets_its_symbol() {
    let libs = libs();
    let mut s = Symbolication::new(
        &libs,
        vec![
            frame(Some(2), 64),
            frame(Some(0), 0x1_0000_0010),
            frame(Some(1), 5),
            frame(Some(0), 0x20),
            frame(Some(0), 0x20),
            frame(None, 3),
        ],
    );
    assert_eq!(
        s.request(),
        Request::Load {
            library: 0,
            path: "/bin/app".to_string(),
            arch: Some("x86_64".to_string()),
        }
    );
    s.loaded(true);
    assert_eq!(s.request(), Request::Lookup { library: 0, address: 0x20 });
    s.looked_up(Some("_ZN3foo3barE"));
    // Relative addresses are cut to their low half.
    assert_eq!(s.request(), Request::Lookup { library: 0, address: 0x10 });
    s.looked_up(None);
    assert_eq!(
        s.request(),
        Request::Load { library: 2, path: "/lib/libc.so".to_string(), arch: None }
    );
    s.loaded(true);
    assert_eq!(s.request(), Request::Lookup { library: 2, address: 64 });
    s.looked_up(Some("_read"));
    assert_eq!(s.request(), Request::Done);
    let t = s.into_table();
    assert_eq!(t.get(&frame(Some(0), 0x20)), Some(&symbol("foo::bar", "app")));
    assert_eq!(
        t.get(&frame(Some(0), 0x1_0000_0010)),
        Some(&symbol("0x100000010", "app"))
    );
    assert_eq!(t.get(&frame(Some(2), 64)), Some(&symbol("read", "libc")));
    assert_eq!(t.get(&frame(Some(1), 5)), Some(&symbol("0x5", "vdso")));
    assert_eq!(t.get(&frame(None, 3)), Some(&symbol("0x3", "???")));
}

#[test]
fn a_binary_that_cannot_be_opened_is_given_up_once() {
    let libs = libs();
    let mut s = Symbolication::new(
        &libs,
        vec![frame(Some(0), 1), frame(Some(0), 2), frame(Some(2), 3)],
    );
    s.loaded(false);
    assert_eq!(
        s.request(),
        Request::Load { library: 2, path: "/lib/libc.so".to_string(), arch: None }
    );
    s.loaded(false);
    assert_eq!(s.request(), Request::Done);
    let t = s.into_table();
    assert_eq!(t.get(&frame(Some(0), 1)), Some(&symbol("0x1", "app")));
    assert_eq!(t.get(&frame(Some(0), 2)), Some(&symbol("0x2", "app")));
    assert_eq!(t.get(&frame(Some(2), 3)), Some(&symbol("0x3", "libc")));
}
