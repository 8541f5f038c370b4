use js2ts_migrator::error::MigrateError;
use js2ts_migrator::server::{
    build_response, check_upload, decode_upload, field_step, is_upload_field, output_name_for, FieldStep,
};

#[test]
fn upload_field_is_named_file() {
    assert!(is_upload_field(Some("file")));
    assert!(!is_upload_field(Some("files")));
    assert!(!is_upload_field(Some("")));
    assert!(!is_upload_field(None));
}

#[test]
fn output_names() {
    assert_eq!(output_name_for("app.js"), "app.ts");
    assert_eq!(output_name_for("app.min.jsx"), "app.min.ts");
    assert_eq!(output_name_for("README"), "README.ts");
    assert_eq!(output_name_for(".hidden"), ".ts");
    assert_eq!(output_name_for("dir.v2/x"), "dir.ts");
    assert_eq!(output_name_for(""), ".ts");
}

#[test]
fn incomplete_uploads() {
    assert_eq!(check_upload(None, Some(vec![1])).unwrap_err(), MigrateError::MissingFileName);
    assert_eq!(check_upload(None, None).unwrap_err(), MigrateError::MissingFileName);
    assert_eq!(check_upload(Some("a.js".to_string()), None).unwrap_err(), MigrateError::MissingFileData);
    assert_eq!(check_upload(Some("a.js".to_string()), Some(vec![65])).unwrap(), ("a.js".to_string(), vec![65]));
    assert_eq!(MigrateError::MissingFileName.message(), "missing file name");
    assert_eq!(MigrateError::MissingFileData.message(), "missing file data");
}

#[test]
fn upload_text_must_be_utf8() {
    assert_eq!(decode_upload(b"let a = 1;".to_vec()).unwrap(), "let a = 1;");
    assert_eq!(decode_upload(vec![0xe9, 0x9d, 0x92]).unwrap(), "\u{9752}");
    assert_eq!(decode_upload(vec![0xff, 0x41]).unwrap_err(), MigrateError::InvalidUtf8);
    assert_eq!(MigrateError::InvalidUtf8.message(), "file must be valid UTF-8");
}

#[test]
fn responses() {
    let r = build_response("x.mjs", "a\nb\n", "let a: number = 1;\n".to_string(), 4);
    assert_eq!(r.content, "let a: number = 1;\n");
    assert_eq!(r.var_count, 4);
    assert_eq!(r.line_count, 2);
    assert_eq!(r.output_name, "x.ts");
}

#[test]
fn field_scan_takes_the_file_field() {
    assert_eq!(field_step(Some("file")), FieldStep::TakeAndStop);
    assert_eq!(field_step(Some("name")), FieldStep::Skip);
    assert_eq!(field_step(None), FieldStep::Skip);
}
