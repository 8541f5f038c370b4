use std::path::{Path, PathBuf};

use js2ts_migrator::error::MigrateError;
use js2ts_migrator::file_processor::{
    check_supported_input, count_lines, failure_line, is_supported_js, output_path_for,
    set_dry_run, ProcessingStats, Settings,
};

fn text(p: &Path) -> &str {
    p.to_str().expect("utf-8 path")
}

#[test]
fn output_path_uses_ts_extension() {
    let input = PathBuf::from("example.mjs");
    let output_dir = PathBuf::from("out");
    let out = output_path_for(text(&input), text(&output_dir)).expect("path");
    assert!(Path::new(&out).ends_with("example.ts"));
}

#[test]
fn supports_multiple_extensions() {
    let cases = ["a.js", "b.jsx", "c.mjs", "d.cjs"];
    for case in cases {
        assert!(is_supported_js(text(Path::new(case))));
    }
    assert!(!is_supported_js(text(Path::new("e.ts"))));
}

#[test]
fn extension_check_ignores_ascii_case() {
    assert!(is_supported_js("LIB.JS"));
    assert!(is_supported_js("dir/App.JsX"));
    assert!(is_supported_js("x.Mjs"));
    assert!(is_supported_js("/abs/path/y.CJS"));
}

#[test]
fn extension_check_rejects_other_names() {
    assert!(!is_supported_js(""));
    assert!(!is_supported_js("js"));
    assert!(!is_supported_js(".js"));
    assert!(!is_supported_js("a.json"));
    assert!(!is_supported_js("a.js.bak"));
    assert!(!is_supported_js("a.j"));
    assert!(!is_supported_js("a.jsxx"));
    assert!(!is_supported_js("a.js/.."));
}

#[test]
fn extension_check_reads_the_last_component() {
    assert!(is_supported_js("dir.ts/a.js"));
    assert!(is_supported_js("a.js/."));
    assert!(is_supported_js("a.js//"));
    assert!(is_supported_js("dir.js/"));
    assert!(is_supported_js("./a.b.js"));
}

#[test]
fn output_path_joins_directory_and_stem() {
    assert_eq!(output_path_for("src/app.js", "out").unwrap(), "out/app.ts");
    assert_eq!(output_path_for("src/app.js", "out/").unwrap(), "out/app.ts");
    assert_eq!(output_path_for("src/app.js", "").unwrap(), "app.ts");
    assert_eq!(output_path_for("src/app.min.js", "/tmp").unwrap(), "/tmp/app.min.ts");
    assert_eq!(output_path_for("src/.hidden", "o").unwrap(), "o/.hidden.ts");
    assert_eq!(output_path_for("noext", "o").unwrap(), "o/noext.ts");
    assert_eq!(output_path_for("trailing.", "o").unwrap(), "o/trailing.ts");
}

#[test]
fn output_path_matches_std_paths() {
    for (input, dir) in [("a/b/c.jsx", "x/y"), ("c.cjs", "/"), ("./d.mjs", "."), ("e.js/", "z")] {
        let expected = Path::new(dir)
            .join(format!("{}.ts", Path::new(input).file_stem().unwrap().to_str().unwrap()));
        assert_eq!(Path::new(&output_path_for(input, dir).unwrap()), expected.as_path());
    }
}

#[test]
fn output_path_needs_a_file_name() {
    assert_eq!(output_path_for("", "out"), Err(MigrateError::InvalidFileName));
    assert_eq!(output_path_for("/", "out"), Err(MigrateError::InvalidFileName));
    assert_eq!(output_path_for("..", "out"), Err(MigrateError::InvalidFileName));
    assert_eq!(output_path_for("a/..", "out"), Err(MigrateError::InvalidFileName));
    assert_eq!(output_path_for(".", "out"), Err(MigrateError::InvalidFileName));
    assert_eq!(MigrateError::InvalidFileName.message(), "invalid file name");
}

#[test]
fn output_is_never_a_js_input() {
    for input in ["a.js", "b.JSX", "c.d.mjs", ".e", "f"] {
        let out = output_path_for(input, "out").unwrap();
        assert!(!is_supported_js(&out));
    }
}

#[test]
fn counts_lines_like_str_lines() {
    for s in ["", "a", "a\n", "a\nb", "a\nb\n", "\n", "\n\n", "a\r\nb\r\n", "x\n\ny"] {
        assert_eq!(count_lines(s), s.lines().count(), "{:?}", s);
    }
    assert_eq!(count_lines("let a = 1;\nlet b = 2;\n"), 2);
}

#[test]
fn unsupported_input_is_refused() {
    assert_eq!(check_supported_input("a.ts"), Err(MigrateError::UnsupportedExtension));
    assert_eq!(check_supported_input("a.js"), Ok(()));
    assert_eq!(
        MigrateError::UnsupportedExtension.message(),
        "input file must have .js, .jsx, .mjs, or .cjs extension"
    );
}

#[test]
fn dry_run_writes_nothing() {
    let mut settings = Settings::new();
    assert!(!settings.dry_run);
    let written = ProcessingStats::for_run(&settings, "in.js".to_string(), "out/in.ts".to_string(), 3, 2);
    assert!(written.wrote_file);
    set_dry_run(&mut settings, true);
    assert!(settings.dry_run);
    let preview = ProcessingStats::for_run(&settings, "in.js".to_string(), "out/in.ts".to_string(), 3, 2);
    assert!(!preview.wrote_file);
    set_dry_run(&mut settings, false);
    assert!(!settings.dry_run);
}

#[test]
fn status_lines() {
    let mut settings = Settings::new();
    let stats = ProcessingStats::for_run(&settings, "src/a.js".to_string(), "out/a.ts".to_string(), 12, 3);
    assert_eq!(stats.status_line(), "ok: src/a.js -> out/a.ts (written), vars: 3, lines: 12");
    set_dry_run(&mut settings, true);
    let stats = ProcessingStats::for_run(&settings, "b.js".to_string(), "b.ts".to_string(), 0, 105);
    assert_eq!(stats.status_line(), "ok: b.js -> b.ts (dry-run), vars: 105, lines: 0");
    assert_eq!(failure_line("c.js", "parse c.js"), "fail: c.js (parse c.js)");
}
