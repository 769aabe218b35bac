use twins::elf::ElfMeta;
use twins::errors::AnalyzeError;
use twins::resolver::{Action, Analysis, DependencyAnalyzer, Event, FileOutcome};
use twins::tree::{tree_children, tree_get, tree_height, tree_root_id};
use twins::BinaryFile;

fn meta(interp: Option<&str>, libs: &[&str], is_exec: bool) -> ElfMeta {
    ElfMeta {
        is_64: true,
        is_executable: is_exec,
        interpreter: interp.map(|s| s.to_string()),
        libraries: libs.iter().map(|s| s.to_string()).collect(),
    }
}

fn binary_event(m: ElfMeta) -> Event {
    Event::File { outcome: FileOutcome::Binary { meta: m } }
}

fn probe_paths(a: Action) -> Vec<String> {
    match a {
        Action::ProbeDirs { paths } => paths,
        _ => panic!("expected a probe request"),
    }
}

fn read_path(a: Action) -> String {
    match a {
        Action::ReadFile { path } => path,
        _ => panic!("expected a read request"),
    }
}

/// Walks the tree depth-first and flattens each node to (name, real_path).
fn flatten(tree: &id_tree::Tree<BinaryFile>) -> Vec<(String, Option<String>)> {
    let mut out = Vec::new();
    let root_id = match tree_root_id(tree) {
        Some(id) => id,
        None => return out,
    };
    let mut stack = vec![root_id];
    while let Some(id) = stack.pop() {
        let data = tree_get(tree, &id).unwrap();
        out.push((data.name.clone(), data.real_path.clone()));
        let mut kids = tree_children(tree, &id).unwrap();
        kids.reverse();
        stack.extend(kids);
    }
    out
}

/// Runs the fizz scenario: root `fizz` declares the interpreter and one
/// dependency `libc.so.6`, which resolves and itself declares the
/// interpreter's file name.
fn run_fizz() -> Analysis {
    let analyzer = DependencyAnalyzer::new();
    let (mut st, a0) = analyzer.start("fizz".to_string());
    assert_eq!(read_path(a0), "fizz");
    let a1 = st
        .step(binary_event(meta(
            Some("/lib64/ld-linux-x86-64.so.2"),
            &["libc.so.6"],
            true,
        )))
        .unwrap();
    let paths = probe_paths(a1);
    assert_eq!(
        paths,
        vec![
            "/lib64/libc.so.6",
            "/lib/libc.so.6",
            "/lib/x86_64-linux-gnu/libc.so.6",
            "/usr/lib64/libc.so.6",
            "/usr/lib/libc.so.6",
            "/usr/lib/x86_64-linux-gnu/libc.so.6",
        ]
    );
    let a2 = st
        .step(Event::Probed { found: vec![false, false, true, false, false, false] })
        .unwrap();
    assert_eq!(read_path(a2), "/lib/x86_64-linux-gnu/libc.so.6");
    let a3 = st
        .step(binary_event(meta(None, &["ld-linux-x86-64.so.2"], false)))
        .unwrap();
    let paths = probe_paths(a3);
    assert_eq!(paths[0], "/lib64/ld-linux-x86-64.so.2");
    // The declared name matches the interpreter's file name: it is recorded
    // but not expanded, so the walk ends here instead of recursing.
    let a4 = st
        .step(Event::Probed { found: vec![true, false, false, false, false, false] })
        .unwrap();
    assert!(matches!(a4, Action::Done));
    assert!(st.is_finished());
    st
}

#[test]
fn fizz_tree_shape_and_interpreter() {
    let st = run_fizz();
    let tree = st.into_tree();
    let root_id = tree_root_id(&tree).unwrap();
    let root = tree_get(&tree, &root_id).unwrap();
    assert_eq!(root.name, "fizz");
    assert!(root.is_root);
    assert!(root.is_executable);
    assert_eq!(root.real_path, None);
    assert_eq!(root.interpreter, Some("/lib64/ld-linux-x86-64.so.2".to_string()));

    let kids = tree_children(&tree, &root_id).unwrap();
    assert_eq!(kids.len(), 1);
    let libc = tree_get(&tree, &kids[0]).unwrap();
    assert_eq!(libc.name, "libc.so.6");
    assert_eq!(libc.real_path, Some("/lib/x86_64-linux-gnu/libc.so.6".to_string()));
    assert!(!libc.is_root);
    assert_eq!(libc.interpreter, None);

    let grand = tree_children(&tree, &kids[0]).unwrap();
    assert_eq!(grand.len(), 1);
    let ld = tree_get(&tree, &grand[0]).unwrap();
    assert_eq!(ld.name, "ld-linux-x86-64.so.2");
    assert_eq!(ld.real_path, Some("/lib64/ld-linux-x86-64.so.2".to_string()));
    assert_eq!(tree_children(&tree, &grand[0]).unwrap().len(), 0);

    // Root counts as depth 1, so the three-node chain has height 3; both the
    // verified accessor and the underlying tree agree.
    assert_eq!(tree_height(&tree), 3);
    assert_eq!(tree.height(), 3);
}

#[test]
fn server_children_order_and_resolution() {
    let analyzer = DependencyAnalyzer::new();
    let (mut st, a0) = analyzer.start("server".to_string());
    assert_eq!(read_path(a0), "server");
    let a1 = st
        .step(binary_event(meta(
            Some("/lib64/ld-linux-x86-64.so.2"),
            &["libcraft.so", "libpthread.so.0", "libdl.so.2", "libc.so.6"],
            true,
        )))
        .unwrap();
    // libcraft.so is nowhere on the search path: recorded unresolved, no read.
    let paths = probe_paths(a1);
    assert_eq!(paths[0], "/lib64/libcraft.so");
    let mut action = st
        .step(Event::Probed { found: vec![false, false, false, false, false, false] })
        .unwrap();
    // The other three resolve under /lib/x86_64-linux-gnu and declare
    // nothing further.
    for expected in ["libpthread.so.0", "libdl.so.2", "libc.so.6"] {
        let paths = probe_paths(action);
        assert_eq!(paths[2], format!("/lib/x86_64-linux-gnu/{}", expected));
        let a = st
            .step(Event::Probed { found: vec![false, false, true, false, false, false] })
            .unwrap();
        assert_eq!(read_path(a), format!("/lib/x86_64-linux-gnu/{}", expected));
        action = st.step(binary_event(meta(None, &[], false))).unwrap();
    }
    assert!(matches!(action, Action::Done));

    let tree = st.into_tree();
    let root_id = tree_root_id(&tree).unwrap();
    let root = tree_get(&tree, &root_id).unwrap();
    assert_eq!(root.name, "server");
    assert_eq!(root.interpreter, Some("/lib64/ld-linux-x86-64.so.2".to_string()));
    let kids = tree_children(&tree, &root_id).unwrap();
    assert_eq!(kids.len(), 4);

    let craft = tree_get(&tree, &kids[0]).unwrap();
    assert_eq!(craft.name, "libcraft.so");
    assert_eq!(craft.real_path, None);
    assert_eq!(tree_children(&tree, &kids[0]).unwrap().len(), 0);

    let pthread = tree_get(&tree, &kids[1]).unwrap();
    assert_eq!(pthread.name, "libpthread.so.0");
    assert_eq!(pthread.real_path, Some("/lib/x86_64-linux-gnu/libpthread.so.0".to_string()));

    let dl = tree_get(&tree, &kids[2]).unwrap();
    assert_eq!(dl.name, "libdl.so.2");
    assert_eq!(dl.real_path, Some("/lib/x86_64-linux-gnu/libdl.so.2".to_string()));

    let libc = tree_get(&tree, &kids[3]).unwrap();
    assert_eq!(libc.name, "libc.so.6");
    assert_eq!(libc.real_path, Some("/lib/x86_64-linux-gnu/libc.so.6".to_string()));
}

#[test]
fn children_follow_declaration_order() {
    let analyzer = DependencyAnalyzer::new();
    let (mut st, _) = analyzer.start("root".to_string());
    let mut action = st
        .step(binary_event(meta(Some("/lib64/ld-x.so"), &["a", "b", "c"], false)))
        .unwrap();
    for _ in 0..3 {
        assert!(matches!(action, Action::ProbeDirs { .. }));
        action = st
            .step(Event::Probed { found: vec![false, false, false, false, false, false] })
            .unwrap();
    }
    assert!(matches!(action, Action::Done));
    let tree = st.into_tree();
    let root_id = tree_root_id(&tree).unwrap();
    let names: Vec<String> = tree_children(&tree, &root_id)
        .unwrap()
        .iter()
        .map(|id| tree_get(&tree, id).unwrap().name)
        .collect();
    assert_eq!(names, vec!["a", "b", "c"]);
}

#[test]
fn root_without_dependencies_is_sole_node() {
    let analyzer = DependencyAnalyzer::new();
    let (mut st, _) = analyzer.start("lonely".to_string());
    assert!(!st.is_finished());
    let a = st.step(binary_event(meta(None, &[], true))).unwrap();
    assert!(matches!(a, Action::Done));
    assert!(st.is_finished());
    let tree = st.into_tree();
    assert_eq!(tree_height(&tree), 1);
    let root_id = tree_root_id(&tree).unwrap();
    assert_eq!(tree_children(&tree, &root_id).unwrap().len(), 0);
    let root = tree_get(&tree, &root_id).unwrap();
    assert_eq!(root.name, "lonely");
    assert_eq!(root.interpreter, None);
}

#[test]
fn unreadable_root_is_io_error() {
    let analyzer = DependencyAnalyzer::new();
    let (mut st, _) = analyzer.start("gone".to_string());
    let r = st.step(Event::File { outcome: FileOutcome::Unreadable });
    assert!(matches!(r, Err(AnalyzeError::IoError)));
}

#[test]
fn malformed_root_is_parse_error() {
    let analyzer = DependencyAnalyzer::new();
    let (mut st, _) = analyzer.start("junk".to_string());
    let r = st.step(Event::File { outcome: FileOutcome::Malformed });
    assert!(matches!(r, Err(AnalyzeError::ParseError)));
}

#[test]
fn unreadable_dependency_aborts_walk() {
    let analyzer = DependencyAnalyzer::new();
    let (mut st, _) = analyzer.start("root".to_string());
    st.step(binary_event(meta(Some("/lib64/ld-x.so"), &["libz.so"], false))).unwrap();
    let a = st
        .step(Event::Probed { found: vec![true, false, false, false, false, false] })
        .unwrap();
    assert_eq!(read_path(a), "/lib64/libz.so");
    let r = st.step(Event::File { outcome: FileOutcome::Unreadable });
    assert!(matches!(r, Err(AnalyzeError::IoError)));
}

#[test]
fn malformed_dependency_aborts_walk() {
    let analyzer = DependencyAnalyzer::new();
    let (mut st, _) = analyzer.start("root".to_string());
    st.step(binary_event(meta(Some("/lib64/ld-x.so"), &["libz.so"], false))).unwrap();
    st.step(Event::Probed { found: vec![true, false, false, false, false, false] }).unwrap();
    let r = st.step(Event::File { outcome: FileOutcome::Malformed });
    assert!(matches!(r, Err(AnalyzeError::ParseError)));
}

#[test]
fn same_answers_same_tree() {
    let first = flatten(&run_fizz().into_tree());
    let second = flatten(&run_fizz().into_tree());
    assert_eq!(first, second);
    assert_eq!(first.len(), 3);
}

#[test]
fn root_without_interpreter_expands_all() {
    // With no interpreter declared, no declared name is guarded: a resolved
    // dependency of a dependency is still read.
    let analyzer = DependencyAnalyzer::new();
    let (mut st, _) = analyzer.start("plain".to_string());
    st.step(binary_event(meta(None, &["liba.so"], false))).unwrap();
    let a = st
        .step(Event::Probed { found: vec![true, false, false, false, false, false] })
        .unwrap();
    assert_eq!(read_path(a), "/lib64/liba.so");
    let a = st.step(binary_event(meta(None, &["libb.so"], false))).unwrap();
    assert!(matches!(a, Action::ProbeDirs { .. }));
    let a = st
        .step(Event::Probed { found: vec![false, true, false, false, false, false] })
        .unwrap();
    assert_eq!(read_path(a), "/lib/libb.so");
    let a = st.step(binary_event(meta(None, &[], false))).unwrap();
    assert!(matches!(a, Action::Done));
    let tree = st.into_tree();
    assert_eq!(tree_height(&tree), 3);
}
