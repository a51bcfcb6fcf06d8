use samply_report::error::{SampleError, TableError};
use samply_report::profile::{
    FrameTable, FuncTable, Library, ResourceTable, Samples, StackTable, Thread,
};
use samply_report::samples::frame_key_for;
use samply_report::symbolicate::{ResolvedSymbol, SymbolTable};
use samply_report::tree::{format_frame, AddressFrame, CallTree, FrameKey, TreeNode};

fn library(name: &str) -> Library {
    Library {
        name: name.to_string(),
        path: None,
        debug_name: None,
        debug_path: None,
        breakpad_id: None,
        code_id: None,
        arch: None,
    }
}

/// `main` calls itself and `work`, which calls `read` of another library; a
/// last frame belongs to no library.
fn thread() -> Thread {
    Thread {
        name: Some("worker".to_string()),
        is_main_thread: false,
        pid: None,
        tid: None,
        string_array: vec![],
        stack_table: StackTable {
            length: 5,
            prefix: vec![None, Some(0), Some(1), Some(0), None],
            frame: vec![0, 1, 2, 0, 3],
        },
        frame_table: FrameTable {
            length: 4,
            address: vec![0x10, 0x20, 0x30, -5],
            func: vec![0, 1, 2, 3],
        },
        func_table: FuncTable {
            length: 4,
            name: vec![0, 0, 0, 0],
            resource: vec![0, 0, 1, -1],
        },
        resource_table: ResourceTable {
            length: 2,
            lib: vec![Some(0), Some(1)],
            name: vec![0, 0],
        },
        samples: Samples {
            length: 6,
            stack: vec![Some(1), Some(2), Some(2), Some(3), Some(4), None],
            weight: Some(vec![1, 2, 3, 4, 5]),
        },
    }
}

fn frame(lib_index: Option<u32>, address: u64) -> AddressFrame {
    AddressFrame { lib_index, address }
}

fn summary(node: &TreeNode) -> (Option<u32>, &str, u64, u64, usize) {
    (
        node.frame.lib_index,
        node.frame.name.as_str(),
        node.total,
        node.self_count,
        node.children.len(),
    )
}

#[test]
fn stacks_resolve_from_root_to_leaf() {
    let t = thread();
    assert_eq!(
        t.try_address_stack(2),
        Some(Ok(vec![
            frame(Some(0), 0x10),
            frame(Some(0), 0x20),
            frame(Some(1), 0x30),
        ]))
    );
    assert_eq!(t.address_stack(4), Ok(vec![frame(None, 0)]));
}

#[test]
fn a_frame_resolves_to_its_library_and_address() {
    let mut t = thread();
    assert_eq!(t.address_frame(2), Ok(frame(Some(1), 0x30)));
    assert_eq!(t.try_address_frame(3), Some(Ok(frame(None, 0))));
    t.resource_table.lib[1] = None;
    assert_eq!(t.address_frame(2), Ok(frame(None, 0x30)));
    t.resource_table.lib[1] = Some(-1);
    assert_eq!(t.address_frame(2), Ok(frame(Some(u32::MAX), 0x30)));
}

#[test]
fn indices_out_of_range_are_errors() {
    let mut t = thread();
    assert_eq!(t.address_stack(5), Err(TableError::Stack(5)));
    assert_eq!(t.address_stack(-1), Err(TableError::Stack(usize::MAX)));
    assert_eq!(t.address_frame(4), Err(TableError::Frame(4)));
    t.frame_table.func[0] = 9;
    assert_eq!(t.address_frame(0), Err(TableError::Func(9)));
    assert_eq!(t.address_stack(2), Err(TableError::Func(9)));
    t.frame_table.func[0] = 0;
    t.func_table.resource[0] = 2;
    assert_eq!(t.address_frame(0), Err(TableError::Resource(2)));
}

#[test]
fn errors_are_told_in_words() {
    assert_eq!(TableError::Stack(5).message(), "stack index 5 out of range");
    assert_eq!(TableError::Frame(0).message(), "frame index 0 out of range");
    assert_eq!(TableError::Func(12).message(), "func index 12 out of range");
    assert_eq!(
        TableError::Resource(307).message(),
        "resource index 307 out of range"
    );
    let e = SampleError { sample: 10, stack: -7, cause: TableError::Stack(1) };
    assert_eq!(e.message(), "failed to resolve sample 10 stack -7");
    let e = SampleError { sample: 0, stack: i32::MIN, cause: TableError::Stack(1) };
    assert_eq!(e.message(), "failed to resolve sample 0 stack -2147483648");
}

#[test]
fn short_tables_and_endless_stacks_have_no_outcome() {
    let mut t = thread();
    t.stack_table.prefix[0] = Some(1);
    assert_eq!(t.try_address_stack(1), None);
    let mut t = thread();
    t.stack_table.length = 9;
    assert_eq!(t.try_address_stack(7), None);
    let mut t = thread();
    t.frame_table.address.truncate(3);
    assert_eq!(t.try_address_frame(3), None);
    assert!(CallTree::try_collect_addresses(&t).is_none());
    assert!(CallTree::try_from_thread(&t, &SymbolTable::new(), &[]).is_none());
}

#[test]
fn the_deepest_possible_stack_still_ends() {
    let mut t = thread();
    t.stack_table.prefix = vec![None, Some(0), Some(1), Some(2), Some(3)];
    let path = t.address_stack(4).unwrap();
    assert_eq!(path.len(), 5);
    assert_eq!(path[0], frame(Some(0), 0x10));
    assert_eq!(path[4], frame(None, 0));
}

#[test]
fn collected_frames_are_unique_and_in_order() {
    let mut t = thread();
    let frames = vec![
        frame(None, 0),
        frame(Some(0), 0x10),
        frame(Some(0), 0x20),
        frame(Some(1), 0x30),
    ];
    assert_eq!(CallTree::collect_addresses(&t), Ok(frames.clone()));
    // A sample without weight still has its frames collected.
    t.samples.weight = Some(vec![0, 0, 0, 0, 0]);
    assert_eq!(CallTree::try_collect_addresses(&t), Some(Ok(frames)));
    t.samples.stack[5] = Some(8);
    assert_eq!(CallTree::collect_addresses(&t), Err(TableError::Stack(8)));
}

#[test]
fn the_tree_counts_samples_by_call_path() {
    let t = thread();
    let tree = CallTree::from_thread(&t, &SymbolTable::new(), &[]).unwrap();
    assert_eq!(tree.total_samples, 15);
    assert_eq!(tree.roots.len(), 2);
    assert_eq!(summary(&tree.roots[0]), (Some(0), "0x10", 10, 4, 1));
    assert_eq!(summary(&tree.roots[1]), (None, "0x0", 5, 5, 0));
    let work = &tree.roots[0].children[0];
    assert_eq!(summary(work), (Some(0), "0x20", 6, 1, 1));
    assert_eq!(summary(&work.children[0]), (Some(1), "0x30", 5, 5, 0));
}

#[test]
fn frames_of_one_name_and_library_are_one_node() {
    let t = thread();
    let mut symbols = SymbolTable::new();
    for address in [0x10, 0x20] {
        symbols.insert(
            frame(Some(0), address),
            ResolvedSymbol { name: "run".to_string(), lib_name: "app".to_string() },
        );
    }
    symbols.insert(
        frame(Some(1), 0x30),
        ResolvedSymbol { name: "run".to_string(), lib_name: "libc".to_string() },
    );
    let tree = CallTree::try_from_thread(&t, &symbols, &[]).unwrap().unwrap();
    // `run` calling `run` is one frame, but `run` of another library is not.
    assert_eq!(summary(&tree.roots[0]), (Some(0), "run", 10, 5, 1));
    assert_eq!(summary(&tree.roots[0].children[0]), (Some(1), "run", 5, 5, 0));
}

#[test]
fn samples_count_once_where_no_weight_is_given() {
    let mut t = thread();
    t.samples.weight = None;
    let tree = CallTree::from_thread(&t, &SymbolTable::new(), &[]).unwrap();
    assert_eq!(tree.total_samples, 5);
    assert_eq!(summary(&tree.roots[0]), (Some(0), "0x10", 4, 1, 1));
    t.samples.weight = Some(vec![0, 7]);
    let tree = CallTree::from_thread(&t, &SymbolTable::new(), &[]).unwrap();
    assert_eq!(tree.total_samples, 10);
}

#[test]
fn heavier_siblings_come_first_and_equal_ones_by_name() {
    let mut t = thread();
    t.samples.stack = vec![Some(4), Some(0), Some(4), Some(0)];
    t.samples.length = 4;
    t.samples.weight = None;
    let tree = CallTree::from_thread(&t, &SymbolTable::new(), &[]).unwrap();
    let names: Vec<&str> = tree.roots.iter().map(|n| n.frame.name.as_str()).collect();
    assert_eq!(names, ["0x0", "0x10"]);
    t.samples.weight = Some(vec![1, 2, 1, 2]);
    let tree = CallTree::from_thread(&t, &SymbolTable::new(), &[]).unwrap();
    let names: Vec<&str> = tree.roots.iter().map(|n| n.frame.name.as_str()).collect();
    assert_eq!(names, ["0x10", "0x0"]);
}

#[test]
fn the_order_of_samples_does_not_matter() {
    let t = thread();
    let mut u = thread();
    u.samples.stack = vec![None, Some(4), Some(3), Some(2), Some(2), Some(1)];
    u.samples.weight = Some(vec![9, 5, 4, 3, 2, 1]);
    let a = CallTree::from_thread(&t, &SymbolTable::new(), &[]).unwrap();
    let b = CallTree::from_thread(&u, &SymbolTable::new(), &[]).unwrap();
    assert_eq!(format!("{a:?}"), format!("{b:?}"));
}

#[test]
fn a_callee_counts_no_more_than_its_caller() {
    let t = thread();
    let tree = CallTree::from_thread(&t, &SymbolTable::new(), &[]).unwrap();
    let mut open: Vec<&TreeNode> = tree.roots.iter().collect();
    let mut sum = 0;
    while let Some(node) = open.pop() {
        sum += node.self_count;
        let below: u64 = node.children.iter().map(|c| c.total).sum();
        assert_eq!(node.total, node.self_count + below);
        for c in &node.children {
            assert!(c.total <= node.total);
            assert!(c.frame != node.frame);
            open.push(c);
        }
    }
    assert_eq!(sum, tree.total_samples);
}

#[test]
fn a_sample_that_does_not_resolve_is_named() {
    let mut t = thread();
    t.samples.stack[3] = Some(77);
    let e = CallTree::from_thread(&t, &SymbolTable::new(), &[]).unwrap_err();
    assert_eq!(e, SampleError { sample: 3, stack: 77, cause: TableError::Stack(77) });
    // Without weight its stack is not looked at.
    t.samples.weight = Some(vec![1, 2, 3, 0, 5]);
    assert!(CallTree::from_thread(&t, &SymbolTable::new(), &[]).is_ok());
}

#[test]
fn weights_that_cannot_be_counted_have_no_outcome() {
    let mut t = thread();
    t.samples.weight = Some(vec![u64::MAX, 1]);
    assert!(CallTree::try_from_thread(&t, &SymbolTable::new(), &[]).is_none());
    t.samples.weight = Some(vec![u64::MAX, 0, 0, 0, 0]);
    let tree = CallTree::try_from_thread(&t, &SymbolTable::new(), &[]).unwrap().unwrap();
    assert_eq!(tree.total_samples, u64::MAX);
}

#[test]
fn collected_frames_are_all_that_symbols_are_needed_for() {
    let t = thread();
    let frames = CallTree::collect_addresses(&t).unwrap();
    let mut symbols = SymbolTable::new();
    for (i, f) in frames.iter().enumerate() {
        symbols.insert(
            *f,
            ResolvedSymbol { name: format!("f{i}"), lib_name: String::new() },
        );
    }
    let tree = CallTree::from_thread(&t, &symbols, &[]).unwrap();
    assert_eq!(tree.roots[0].frame.name, "f1");
    assert_eq!(tree.roots[1].frame.name, "f0");
    assert_eq!(tree.roots[0].children[0].frame.name, "f2");
    assert_eq!(tree.roots[0].children[0].children[0].frame.name, "f3");
}

#[test]
fn nodes_are_found_by_path() {
    let t = thread();
    let tree = CallTree::from_thread(&t, &SymbolTable::new(), &[]).unwrap();
    assert_eq!(tree.get(&[0, 0, 0]).unwrap().frame.name, "0x30");
    assert_eq!(tree.get(&[1]).unwrap().frame.name, "0x0");
    assert!(tree.get(&[]).is_none());
    assert!(tree.get(&[2]).is_none());
    assert!(tree.get(&[0, 1]).is_none());
    assert!(tree.get(&[0, 0, 0, 0]).is_none());
}

#[test]
fn a_frame_is_shown_with_its_library() {
    let libs = [library("app"), library("libc.so")];
    let key = |lib_index| FrameKey { lib_index, name: "read".to_string() };
    assert_eq!(format_frame(&key(Some(1)), &libs), "read  [libc.so]");
    assert_eq!(format_frame(&key(Some(2)), &libs), "read  [???]");
    assert_eq!(format_frame(&key(None), &libs), "read  [???]");
}

#[test]
fn a_key_is_the_symbol_or_the_address() {
    let mut symbols = SymbolTable::new();
    symbols.insert(
        frame(Some(0), 255),
        ResolvedSymbol { name: "main".to_string(), lib_name: "app".to_string() },
    );
    let named = frame_key_for(frame(Some(0), 255), &symbols, &[]);
    assert_eq!(named, FrameKey { lib_index: Some(0), name: "main".to_string() });
    assert!(named.same(&named.clone()));
    let bare = frame_key_for(frame(None, 255), &symbols, &[]);
    assert_eq!(bare, FrameKey { lib_index: None, name: "0xff".to_string() });
    assert!(!bare.same(&named));
}
