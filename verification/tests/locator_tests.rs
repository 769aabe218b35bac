use twins::resolver::DependencyAnalyzer;

#[test]
fn find_library_takes_first_hit() {
    let analyzer = DependencyAnalyzer::new();
    let name = "libfoo.so".to_string();
    let bf = analyzer.find_library(&name, &vec![false, true, false, true, false, false]);
    assert_eq!(bf.name, "libfoo.so");
    assert_eq!(bf.real_path, Some("/lib/libfoo.so".to_string()));
    assert!(!bf.is_root);
    assert!(!bf.is_executable);
    assert_eq!(bf.interpreter, None);
}

#[test]
fn find_library_prefers_earlier_directory() {
    let analyzer = DependencyAnalyzer::new();
    let name = "libc.so.6".to_string();
    let bf = analyzer.find_library(&name, &vec![true, true, true, true, true, true]);
    assert_eq!(bf.real_path, Some("/lib64/libc.so.6".to_string()));
}

#[test]
fn find_library_reports_unresolved() {
    let analyzer = DependencyAnalyzer::new();
    let name = "libmissing.so".to_string();
    let bf = analyzer.find_library(&name, &vec![false, false, false, false, false, false]);
    assert_eq!(bf.name, "libmissing.so");
    assert_eq!(bf.real_path, None);
}

#[test]
fn find_library_last_directory_hit() {
    let analyzer = DependencyAnalyzer::new();
    let name = "libedge.so".to_string();
    let bf = analyzer.find_library(&name, &vec![false, false, false, false, false, true]);
    assert_eq!(bf.real_path, Some("/usr/lib/x86_64-linux-gnu/libedge.so".to_string()));
}
