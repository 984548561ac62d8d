//! Where results and log records go, and how verbose logging is.
use vstd::prelude::*;
use std::path::PathBuf;

verus! {

/// `std::path::PathBuf`, carried through unchanged.
#[verifier::external_type_specification]
#[verifier::external_body]
pub struct ExPathBuf(PathBuf);

/// Log verbosity, from silent to most verbose.
#[derive(Debug, Clone, Copy, PartialEq, Eq, Structural)]
pub enum LogLevel {
    Off,
    Error,
    Warn,
    Info,
    Debug,
    Trace,
}

/// Where output goes.
pub enum OutputDestination {
    Console,
    File(PathBuf),
}

/// The console when no file is given, otherwise that file.
pub fn define_output_destination(output_file: Option<PathBuf>) -> (r: OutputDestination)
    ensures
        match output_file {
            Some(path) => r == OutputDestination::File(path),
            None => r == OutputDestination::Console,
        },
{
    match output_file {
        Some(path) => OutputDestination::File(path),
        None => OutputDestination::Console,
    }
}

/// Logging settings: the level, and the file records go to (the console
/// when there is none).
pub struct LogSettings {
    pub level: LogLevel,
    pub output_file: Option<PathBuf>,
}

impl Default for LogSettings {
    /// Warnings and errors, to the console.
    fn default() -> (r: Self)
        ensures
            r.level == LogLevel::Warn,
            r.output_file is None,
    {
        LogSettings { level: LogLevel::Warn, output_file: None }
    }
}

impl LogSettings {
    /// The same settings with `level`.
    pub fn with_level(self, level: LogLevel) -> (r: Self)
        ensures
            r.level == level,
            r.output_file == self.output_file,
    {
        Self { level, output_file: self.output_file }
    }

    /// The same settings with `output_file`.
    pub fn with_output_file(self, output_file: Option<PathBuf>) -> (r: Self)
        ensures
            r.level == self.level,
            r.output_file == output_file,
    {
        Self { level: self.level, output_file }
    }

}

} // verus!
