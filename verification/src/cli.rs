//! The command line of the migrator, and what it asks for.
use vstd::prelude::*;

use crate::error::MigrateError;

verus! {

/// The command-line arguments.
pub struct Cli {
    /// Input .js file or directory.
    pub input: Option<String>,
    /// Output directory for generated .ts files.
    pub output: Option<String>,
    /// Recurse into subdirectories when input is a directory.
    pub recursive: bool,
    /// Preview without writing output files.
    pub dry_run: bool,
    /// Start the web UI + API server.
    pub serve: bool,
    /// Port for the web UI + API server.
    pub port: u16,
}

/// What the command line asks for.
pub enum Command {
    /// Serve the web UI and the upload endpoint on a port.
    Serve { port: u16 },
    /// Migrate a file or a directory into an output directory.
    Migrate { input: String, output: String, recursive: bool, dry_run: bool },
}

impl Cli {
    /// What these arguments ask for: serving when `serve` is set; otherwise a
    /// migration, which needs both an input and an output directory.
    pub fn command(self) -> (r: Result<Command, MigrateError>)
        ensures
            self.serve ==> (r matches Ok(Command::Serve { port }) && port == self.port),
            !self.serve && self.input is None ==> r == Err::<Command, MigrateError>(
                MigrateError::MissingInput,
            ),
            !self.serve && self.input is Some && self.output is None ==> r == Err::<
                Command,
                MigrateError,
            >(MigrateError::MissingOutput),
            !self.serve && self.input is Some && self.output is Some ==> (r matches Ok(
                Command::Migrate { input, output, recursive, dry_run },
            ) && input@ == self.input->0@ && output@ == self.output->0@ && recursive
                == self.recursive && dry_run == self.dry_run),
    {
        if self.serve {
            return Ok(Command::Serve { port: self.port });
        }
        match self.input {
            None => Err(MigrateError::MissingInput),
            Some(input) => match self.output {
                None => Err(MigrateError::MissingOutput),
                Some(output) => Ok(
                    Command::Migrate {
                        input,
                        output,
                        recursive: self.recursive,
                        dry_run: self.dry_run,
                    },
                ),
            },
        }
    }
}

} // verus!
