//! Command-line options of the scanner, as plain values.
use vstd::prelude::*;

verus! {

/// Declares `std::path::PathBuf` to Verus, as an opaque type.
#[verifier::external_type_specification]
#[verifier::external_body]
pub struct ExPathBuf(std::path::PathBuf);

pub struct DashboardArgs {
    pub show: bool,
}

#[derive(Clone, Copy, Debug, PartialEq, Eq, Structural)]
pub enum SourceType {
    Git,
    Archive,
    Local,
}

#[derive(Clone, Copy, Debug, PartialEq, Eq, Structural)]
pub enum Lang {
    Rust,
    Python,
    Java,
    C,
}

pub enum ReportArgs {
    List,
    Show { id: i64 },
    Export { id: i64, format: ExportFormat, output: std::path::PathBuf },
    Diff { id1: i64, id2: i64 },
}

#[derive(Clone, Copy, Debug, PartialEq, Eq, Structural)]
pub enum ExportFormat {
    Pdf,
    Html,
    Json,
}

} // verus!
