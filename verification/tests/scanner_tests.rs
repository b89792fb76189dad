use exe_cache::entry::ExecutableEntry;
use exe_cache::scanner::{default_root_directories, has_exe_extension, scan, FsNode};

fn file(name: &str, path: &str) -> FsNode {
    FsNode::File {
        name: name.to_string(),
        path: path.to_string(),
    }
}

fn dir(entries: Vec<FsNode>) -> FsNode {
    FsNode::Dir {
        accessible: true,
        entries,
    }
}

fn locked_dir() -> FsNode {
    FsNode::Dir {
        accessible: false,
        entries: vec![],
    }
}

fn pairs(entries: &[ExecutableEntry]) -> Vec<(String, String)> {
    entries
        .iter()
        .map(|e| (e.name.clone(), e.path.clone()))
        .collect()
}

#[test]
fn extension_must_be_exactly_exe() {
    assert!(has_exe_extension("tool.exe"));
    assert!(has_exe_extension("a.b.exe"));
    assert!(!has_exe_extension("tool.EXE"));
    assert!(!has_exe_extension("tool.Exe"));
    assert!(!has_exe_extension("tool.txt"));
    assert!(!has_exe_extension("exe"));
    assert!(!has_exe_extension(".exe"));
    assert!(!has_exe_extension("tool.exe.bak"));
    assert!(!has_exe_extension("tool."));
    assert!(!has_exe_extension(""));
}

#[test]
fn scan_keeps_exe_at_any_depth_and_skips_other_files() {
    let roots = vec![dir(vec![
        dir(vec![file("tool.exe", "C:\\a\\sub\\tool.exe")]),
        file("readme.txt", "C:\\a\\readme.txt"),
    ])];
    let found = scan(&roots);
    assert_eq!(
        pairs(&found),
        vec![("tool.exe".to_string(), "C:\\a\\sub\\tool.exe".to_string())]
    );
}

#[test]
fn scan_tolerates_inaccessible_subdirectory() {
    let roots = vec![dir(vec![
        locked_dir(),
        file("keep.exe", "C:\\r\\keep.exe"),
        dir(vec![file("deep.exe", "C:\\r\\d\\deep.exe")]),
    ])];
    let found = scan(&roots);
    assert_eq!(
        pairs(&found),
        vec![
            ("keep.exe".to_string(), "C:\\r\\keep.exe".to_string()),
            ("deep.exe".to_string(), "C:\\r\\d\\deep.exe".to_string()),
        ]
    );
}

#[test]
fn scan_keeps_discovery_order_and_duplicates() {
    let roots = vec![
        dir(vec![
            file("b.exe", "C:\\one\\b.exe"),
            file("a.exe", "C:\\one\\a.exe"),
        ]),
        dir(vec![file("a.exe", "C:\\two\\a.exe")]),
    ];
    let found = scan(&roots);
    assert_eq!(
        pairs(&found),
        vec![
            ("b.exe".to_string(), "C:\\one\\b.exe".to_string()),
            ("a.exe".to_string(), "C:\\one\\a.exe".to_string()),
            ("a.exe".to_string(), "C:\\two\\a.exe".to_string()),
        ]
    );
}

#[test]
fn scan_of_nothing_is_empty() {
    let roots: Vec<FsNode> = vec![];
    assert!(scan(&roots).is_empty());
    let empty_dir = vec![dir(vec![])];
    assert!(scan(&empty_dir).is_empty());
}

#[test]
fn scan_of_fully_inaccessible_root_is_empty() {
    let roots = vec![locked_dir()];
    assert!(scan(&roots).is_empty());
}

#[test]
fn default_roots_are_the_two_program_directories() {
    let roots = default_root_directories();
    assert_eq!(
        roots,
        vec![
            "C:\\Program Files".to_string(),
            "C:\\Program Files (x86)".to_string()
        ]
    );
}
