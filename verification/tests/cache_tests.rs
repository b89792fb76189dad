use exe_cache::cache::{
    build_cache_lines, format_entry, is_stale, parse_line, render_lines, search_lines, FileAge,
    FRESHNESS_WINDOW_SECS,
};
use exe_cache::config::Config;
use exe_cache::entry::ExecutableEntry;
use exe_cache::scanner::FsNode;

fn entry(name: &str, path: &str) -> ExecutableEntry {
    ExecutableEntry {
        name: name.to_string(),
        path: path.to_string(),
    }
}

fn pairs(entries: &[ExecutableEntry]) -> Vec<(String, String)> {
    entries
        .iter()
        .map(|e| (e.name.clone(), e.path.clone()))
        .collect()
}

#[test]
fn freshness_window_is_24_hours() {
    assert_eq!(FRESHNESS_WINDOW_SECS, 86_400);
}

#[test]
fn missing_cache_file_is_stale() {
    assert!(is_stale(None));
}

#[test]
fn young_cache_file_is_fresh() {
    assert!(!is_stale(Some(FileAge { secs: 0, nanos: 0 })));
    assert!(!is_stale(Some(FileAge {
        secs: 3600,
        nanos: 999_999_999
    })));
    assert!(!is_stale(Some(FileAge {
        secs: FRESHNESS_WINDOW_SECS,
        nanos: 0
    })));
}

#[test]
fn old_cache_file_is_stale() {
    assert!(is_stale(Some(FileAge {
        secs: FRESHNESS_WINDOW_SECS,
        nanos: 1
    })));
    assert!(is_stale(Some(FileAge {
        secs: FRESHNESS_WINDOW_SECS + 1,
        nanos: 0
    })));
    assert!(is_stale(Some(FileAge {
        secs: u64::MAX,
        nanos: 0
    })));
}

#[test]
fn format_writes_the_fixed_line_form() {
    let line = format_entry(&entry("Foo.exe", "C:\\Program Files\\Foo.exe"));
    assert_eq!(line, "Name: Foo.exe, Pfad: C:\\Program Files\\Foo.exe");
}

#[test]
fn parse_splits_on_the_path_delimiter() {
    let e = parse_line("Name: Foo.exe, Pfad: C:\\Program Files\\Foo.exe");
    assert_eq!(e.name, "Foo.exe");
    assert_eq!(e.path, "C:\\Program Files\\Foo.exe");
}

#[test]
fn parse_without_delimiter_yields_empty_path() {
    let e = parse_line("just some text");
    assert_eq!(e.name, "just some text");
    assert_eq!(e.path, "");
}

#[test]
fn parse_trims_surrounding_whitespace() {
    let e = parse_line("  Name: X.exe, Pfad:  C:\\X.exe  ");
    assert_eq!(e.name, "X.exe");
    assert_eq!(e.path, "C:\\X.exe");
}

#[test]
fn parse_takes_the_path_up_to_a_second_delimiter() {
    let e = parse_line("Name: a.exe, Pfad: b, Pfad: c");
    assert_eq!(e.name, "a.exe");
    assert_eq!(e.path, "b");
}

#[test]
fn search_finds_a_literal_substring() {
    let lines = vec![
        "Name: Foo.exe, Pfad: C:\\Program Files\\Foo.exe".to_string(),
        "Name: Bar.exe, Pfad: C:\\Program Files (x86)\\Bar\\Bar.exe".to_string(),
    ];
    let found = search_lines(&lines, "Bar");
    assert_eq!(found.len(), 1);
    assert_eq!(found[0].name, "Bar.exe");
    assert_eq!(found[0].path, "C:\\Program Files (x86)\\Bar\\Bar.exe");
}

#[test]
fn search_is_case_sensitive() {
    let lines = vec!["Name: Bar.exe, Pfad: C:\\Bar.exe".to_string()];
    assert!(search_lines(&lines, "bar").is_empty());
    assert_eq!(search_lines(&lines, "Bar").len(), 1);
}

#[test]
fn search_without_match_is_empty_not_an_error() {
    let lines = vec![
        "Name: Foo.exe, Pfad: C:\\Foo.exe".to_string(),
        "Name: Bar.exe, Pfad: C:\\Bar.exe".to_string(),
    ];
    assert!(search_lines(&lines, "Quux").is_empty());
    let no_lines: Vec<String> = vec![];
    assert!(search_lines(&no_lines, "").is_empty());
}

#[test]
fn rendering_then_searching_everything_round_trips() {
    let entries = vec![
        entry("Foo.exe", "C:\\Program Files\\Foo.exe"),
        entry("Bar.exe", "C:\\Program Files (x86)\\Bar\\Bar.exe"),
        entry("Foo.exe", "C:\\elsewhere\\Foo.exe"),
    ];
    let lines = render_lines(&entries);
    assert_eq!(lines.len(), 3);
    let back = search_lines(&lines, "");
    assert_eq!(pairs(&back), pairs(&entries));
}

#[test]
fn refresh_serialization_round_trips_through_search() {
    let roots = vec![FsNode::Dir {
        accessible: true,
        entries: vec![
            FsNode::File {
                name: "Foo.exe".to_string(),
                path: "C:\\Program Files\\Foo.exe".to_string(),
            },
            FsNode::File {
                name: "notes.txt".to_string(),
                path: "C:\\Program Files\\notes.txt".to_string(),
            },
            FsNode::File {
                name: "Bar.exe".to_string(),
                path: "C:\\Program Files\\Bar\\Bar.exe".to_string(),
            },
        ],
    }];
    let lines = build_cache_lines(&roots);
    assert_eq!(
        lines,
        vec![
            "Name: Foo.exe, Pfad: C:\\Program Files\\Foo.exe".to_string(),
            "Name: Bar.exe, Pfad: C:\\Program Files\\Bar\\Bar.exe".to_string(),
        ]
    );
    let back = search_lines(&lines, "");
    assert_eq!(
        pairs(&back),
        vec![
            (
                "Foo.exe".to_string(),
                "C:\\Program Files\\Foo.exe".to_string()
            ),
            (
                "Bar.exe".to_string(),
                "C:\\Program Files\\Bar\\Bar.exe".to_string()
            ),
        ]
    );
}

#[test]
fn config_keeps_its_path() {
    let c = Config::new("C:\\settings.json".to_string());
    assert_eq!(c.app_specific_configuration_path, "C:\\settings.json");
}
