use std::path::Path;

use js2ts_migrator::error::MigrateError;
use js2ts_migrator::paths::{file_name_of, file_stem_of, path_components, push_name_exec, Component};
use js2ts_migrator::processor::{
    check_input_kind, collision_warning, is_js, recursive_output_dir, tally_results, InputKind,
    OutputRegistry, RunTally,
};

#[test]
fn entries_are_picked_by_extension() {
    assert!(is_js("dir/a.js"));
    assert!(is_js("dir/b.JSX"));
    assert!(!is_js("dir/c.ts"));
    assert!(!is_js("dir/README"));
}

#[test]
fn input_kinds() {
    assert_eq!(check_input_kind(true, false), Ok(InputKind::SingleFile));
    assert_eq!(check_input_kind(false, true), Ok(InputKind::Directory));
    assert_eq!(check_input_kind(false, false), Err(MigrateError::NotFileOrDirectory));
    assert_eq!(MigrateError::NotFileOrDirectory.message(), "input must be a file or directory");
}

#[test]
fn tally_and_outcome() {
    let mut t = RunTally::new();
    assert_eq!(t.summary_line(), "summary: 0 succeeded, 0 failed");
    assert_eq!(t.outcome(), Ok(()));
    t.record(true);
    t.record(true);
    t.record(false);
    assert_eq!(t.success_count, 2);
    assert_eq!(t.failure_count, 1);
    assert_eq!(t.summary_line(), "summary: 2 succeeded, 1 failed");
    assert_eq!(t.outcome(), Err(MigrateError::FilesFailed(1)));
    assert_eq!(MigrateError::FilesFailed(1).message(), "1 file(s) failed to process");
    assert_eq!(MigrateError::FilesFailed(1234).message(), "1234 file(s) failed to process");
}

#[test]
fn registry_reports_collisions() {
    let mut r = OutputRegistry::new();
    assert!(r.insert("out/a.ts".to_string()));
    assert!(r.insert("out/b.ts".to_string()));
    assert!(!r.insert("out/a.ts".to_string()));
    let mut r = OutputRegistry::new();
    assert_eq!(r.note_output("src/a.js", "out"), None);
    assert_eq!(r.note_output("src/b.jsx", "out"), None);
    assert_eq!(
        r.note_output("src/a.mjs", "out"),
        Some("warn: output collision in non-recursive mode: out/a.ts".to_string())
    );
    assert_eq!(r.note_output("src/..", "out"), None);
    assert_eq!(collision_warning("x"), "warn: output collision in non-recursive mode: x");
}

#[test]
fn recursive_outputs_mirror_the_input_tree() {
    assert_eq!(recursive_output_dir("out", "src", "src/a.js"), "out");
    assert_eq!(recursive_output_dir("out", "src", "src/lib/util/a.js"), "out/lib/util");
    assert_eq!(recursive_output_dir("out/", "./src", "./src/lib/a.js"), "out/lib");
    assert_eq!(recursive_output_dir("", "src", "src/lib/a.js"), "lib");
    assert_eq!(recursive_output_dir("out", "/abs/src", "/abs/src/x/y.js"), "out/x");
    // an entry outside the input keeps its own directory
    assert_eq!(recursive_output_dir("out", "src", "other/z.js"), "out/other");
    assert_eq!(recursive_output_dir("out", "src", "/elsewhere/z.js"), "/elsewhere");
}

#[test]
fn recursive_outputs_agree_with_std_paths() {
    for (out, input, path) in [("o", "s", "s/a/b.js"), ("o/", "s/", "s//a/./b.js"), ("o", "./s", "./s/c.js")] {
        let rel = Path::new(path).strip_prefix(input).unwrap();
        let expected = Path::new(out).join(rel.parent().unwrap());
        let got = recursive_output_dir(out, input, path);
        assert_eq!(
            Path::new(&got).components().collect::<Vec<_>>(),
            expected.components().collect::<Vec<_>>()
        );
    }
}

#[test]
fn path_model_matches_std() {
    for p in ["", "/", ".", "..", "a", "a/", "/a/b", "./a/../b", "a/./b", "a//b/", ".a", "a.b.c", "./", "x/.."] {
        let ours: Vec<String> = path_components(p)
            .iter()
            .map(|c| match c {
                Component::Root => "/".to_string(),
                Component::Current => ".".to_string(),
                Component::Parent => "..".to_string(),
                Component::Normal(n) => n.clone(),
            })
            .collect();
        let std: Vec<String> =
            Path::new(p).components().map(|c| c.as_os_str().to_str().unwrap().to_string()).collect();
        assert_eq!(ours, std, "{:?}", p);
        assert_eq!(file_name_of(p).as_deref(), Path::new(p).file_name().map(|s| s.to_str().unwrap()), "{:?}", p);
        assert_eq!(file_stem_of(p).as_deref(), Path::new(p).file_stem().map(|s| s.to_str().unwrap()), "{:?}", p);
    }
    assert_eq!(push_name_exec("a", "b"), "a/b");
    assert_eq!(push_name_exec("a/", "b"), "a/b");
    assert_eq!(push_name_exec("", "b"), "b");
}

#[test]
fn run_outcomes_are_tallied() {
    let t = tally_results(&vec![true, false, true, true, false]);
    assert_eq!(t.success_count, 3);
    assert_eq!(t.failure_count, 2);
    assert_eq!(t.summary_line(), "summary: 3 succeeded, 2 failed");
    assert_eq!(t.outcome(), Err(MigrateError::FilesFailed(2)));
    let t = tally_results(&vec![true, true]);
    assert_eq!(t.outcome(), Ok(()));
    let t = tally_results(&Vec::new());
    assert_eq!(t.summary_line(), "summary: 0 succeeded, 0 failed");
}
