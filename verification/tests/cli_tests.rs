use js2ts_migrator::cli::{Cli, Command};
use js2ts_migrator::error::MigrateError;

fn cli(input: Option<&str>, output: Option<&str>, serve: bool) -> Cli {
    Cli {
        input: input.map(str::to_string),
        output: output.map(str::to_string),
        recursive: true,
        dry_run: true,
        serve,
        port: 8222,
    }
}

#[test]
fn serve_wins() {
    match cli(None, None, true).command() {
        Ok(Command::Serve { port }) => assert_eq!(port, 8222),
        _ => panic!("expected serve"),
    }
}

#[test]
fn migration_needs_both_paths() {
    assert!(matches!(cli(None, Some("o"), false).command(), Err(MigrateError::MissingInput)));
    assert!(matches!(cli(Some("i"), None, false).command(), Err(MigrateError::MissingOutput)));
    match cli(Some("i.js"), Some("o"), false).command() {
        Ok(Command::Migrate { input, output, recursive, dry_run }) => {
            assert_eq!(input, "i.js");
            assert_eq!(output, "o");
            assert!(recursive);
            assert!(dry_run);
        }
        _ => panic!("expected a migration"),
    }
}
