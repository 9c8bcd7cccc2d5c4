//! End-to-end checks of the orphan analysis on in-memory source trees.

use mod_orphans::analyze::{find_mod_paths, find_orphans, find_rs_paths, AnalysisError};
use mod_orphans::report::orphan_report;
use mod_orphans::tree::{SourceFile, SourceTree};

fn file(path: &str, text: &str) -> SourceFile {
    SourceFile {
        path: path.to_string(),
        text: text.to_string(),
    }
}

fn orphans_of(tree: &SourceTree) -> Vec<String> {
    find_orphans(tree).expect("analysis should succeed")
}

#[test]
fn mod_present_no_orphans() {
    let tree = SourceTree {
        files: vec![file("src/main.rs", "mod foo;\nfn main() {}\n"), file("src/foo.rs", "")],
    };
    assert_eq!(orphans_of(&tree), Vec::<String>::new());
}

#[test]
fn missing_candidate_resolution_error() {
    let tree = SourceTree {
        files: vec![file("src/main.rs", "mod foo;\nfn main() {}\n")],
    };
    match find_orphans(&tree) {
        Err(AnalysisError::Resolution { path }) => assert_eq!(path, "src/foo.rs"),
        other => panic!("expected a resolution error, got {:?}", other),
    }
}

#[test]
fn stray_file_is_orphan() {
    let tree = SourceTree {
        files: vec![file("src/main.rs", "fn main() {}\n"), file("src/unused.rs", "")],
    };
    assert_eq!(orphans_of(&tree), vec!["src/unused.rs".to_string()]);
}

#[test]
fn nested_modules_no_orphans() {
    let tree = SourceTree {
        files: vec![
            file("src/main.rs", "mod foo;\nfn main() {}\n"),
            file("src/foo.rs", "mod bar;\n"),
            file("src/foo/bar.rs", ""),
        ],
    };
    assert_eq!(orphans_of(&tree), Vec::<String>::new());
}

#[test]
fn nested_stray_is_orphan() {
    let tree = SourceTree {
        files: vec![
            file("src/main.rs", "mod foo;\nfn main() {}\n"),
            file("src/foo.rs", "mod bar;\n"),
            file("src/foo/bar.rs", ""),
            file("src/foo/baz.rs", ""),
        ],
    };
    assert_eq!(orphans_of(&tree), vec!["src/foo/baz.rs".to_string()]);
}

#[test]
fn entry_points_never_orphans() {
    let tree = SourceTree {
        files: vec![file("src/main.rs", "fn main() {}\n"), file("src/lib.rs", "")],
    };
    assert_eq!(orphans_of(&tree), Vec::<String>::new());
}

#[test]
fn inline_body_no_resolution_attempt() {
    // `mod foo { ... }` lives in the declaring file: no candidate file is
    // required, so its absence is no error.
    let tree = SourceTree {
        files: vec![file("src/main.rs", "mod foo { fn f() {} }\nfn main() {}\n")],
    };
    assert_eq!(orphans_of(&tree), Vec::<String>::new());
}

#[test]
fn inline_body_adds_nothing_to_reachable_set() {
    // A file shadowing an inline-bodied declaration is not reached by it.
    let tree = SourceTree {
        files: vec![
            file("src/main.rs", "mod foo { fn f() {} }\nfn main() {}\n"),
            file("src/foo.rs", ""),
        ],
    };
    assert_eq!(orphans_of(&tree), vec!["src/foo.rs".to_string()]);
}

#[test]
fn parse_error_aborts() {
    let tree = SourceTree {
        files: vec![file("src/main.rs", "mod (")],
    };
    match find_orphans(&tree) {
        Err(AnalysisError::Parse { path }) => assert_eq!(path, "src/main.rs"),
        other => panic!("expected a parse error, got {:?}", other),
    }
}

#[test]
fn no_entry_point_error() {
    let tree = SourceTree {
        files: vec![file("src/stray.rs", "")],
    };
    assert!(matches!(find_orphans(&tree), Err(AnalysisError::NoEntryPoint)));
}

#[test]
fn missing_root_io_error() {
    let tree = SourceTree { files: vec![] };
    let mut reach: Vec<String> = Vec::new();
    match find_mod_paths(&mut reach, &tree, &"src/main.rs".to_string(), true) {
        Err(AnalysisError::Io { path }) => assert_eq!(path, "src/main.rs"),
        other => panic!("expected an io error, got {:?}", other),
    }
}

#[test]
fn lib_entry_point_works() {
    let tree = SourceTree {
        files: vec![
            file("src/lib.rs", "mod util;\n"),
            file("src/util.rs", ""),
            file("src/dangly.rs", ""),
        ],
    };
    assert_eq!(orphans_of(&tree), vec!["src/dangly.rs".to_string()]);
}

#[test]
fn analysis_is_idempotent() {
    let tree = SourceTree {
        files: vec![
            file("src/main.rs", "mod foo;\nfn main() {}\n"),
            file("src/foo.rs", ""),
            file("src/unused.rs", ""),
            file("src/also_unused.rs", ""),
        ],
    };
    assert_eq!(orphans_of(&tree), orphans_of(&tree));
}

#[test]
fn orphans_are_sorted() {
    let tree = SourceTree {
        files: vec![
            file("src/zed.rs", ""),
            file("src/main.rs", "fn main() {}\n"),
            file("src/abc.rs", ""),
        ],
    };
    assert_eq!(orphans_of(&tree), vec!["src/abc.rs".to_string(), "src/zed.rs".to_string()]);
}

#[test]
fn non_source_entries_filtered_and_sorted() {
    let mut paths: Vec<String> = Vec::new();
    let candidates = vec![
        "src/b.rs".to_string(),
        "src/readme.txt".to_string(),
        "src/a.rs".to_string(),
        "src/b.rs".to_string(),
    ];
    find_rs_paths(&mut paths, &candidates);
    assert_eq!(paths, vec!["src/a.rs".to_string(), "src/b.rs".to_string()]);
}

#[test]
fn report_lists_one_path_per_line() {
    let orphans = vec!["src/a.rs".to_string(), "src/b.rs".to_string()];
    assert_eq!(orphan_report(&orphans), Some("src/a.rs\nsrc/b.rs\n".to_string()));
    assert_eq!(orphan_report(&Vec::new()), None);
}

#[test]
fn all_fs_cases() {
    let cases: Vec<(&str, SourceTree)> = vec![
        (
            "ok-empty-main",
            SourceTree { files: vec![file("src/main.rs", "fn main() {}\n")] },
        ),
        (
            "ok-one-mod",
            SourceTree {
                files: vec![file("src/main.rs", "mod foo;\nfn main() {}\n"), file("src/foo.rs", "")],
            },
        ),
        (
            "ok-nested",
            SourceTree {
                files: vec![
                    file("src/main.rs", "mod foo;\nfn main() {}\n"),
                    file("src/foo.rs", "mod bar;\n"),
                    file("src/foo/bar.rs", ""),
                ],
            },
        ),
        (
            "err-dangly-top",
            SourceTree {
                files: vec![file("src/main.rs", "fn main() {}\n"), file("src/dangly.rs", "")],
            },
        ),
        (
            "err-dangly-nested",
            SourceTree {
                files: vec![
                    file("src/main.rs", "mod foo;\nfn main() {}\n"),
                    file("src/foo.rs", ""),
                    file("src/foo/dangly.rs", ""),
                ],
            },
        ),
    ];
    let mut failures: Vec<String> = Vec::new();
    for (name, tree) in cases {
        let orphans = match find_orphans(&tree) {
            Ok(orphans) => orphans,
            Err(err) => {
                failures.push(format!("test crate {:?}: {:?}\n", name, err));
                continue;
            },
        };
        if name.starts_with("ok-") {
            if !orphans.is_empty() {
                failures.push(format!("test crate {:?}: unexpected {:?}\n", name, orphans));
            }
        } else if name.starts_with("err-") {
            if orphans.is_empty() {
                failures.push(format!("test crate {:?}: false negative\n", name));
            } else if !orphans.iter().all(|p| p.contains("dangly")) {
                failures.push(format!("test crate {:?}: unexpected {:?}\n", name, orphans));
            }
        }
    }
    assert!(failures.is_empty(), "Failures:\n\n{}", failures.concat());
}
