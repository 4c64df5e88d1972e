//! The failures a scan can end with.

use crate::text::{decimal, render_number};
use vstd::prelude::*;
use vstd::string::StringExecFns;

verus! {

/// A failure that ends a phase. Failed lookups and timed-out probes are not
/// errors: they count as "no result".
#[derive(Debug, PartialEq, Eq)]
pub enum ScanError {
    /// The command line named no target, several targets, or an invalid one.
    Usage(String),
    /// A file could not be read, created or written.
    Io(String),
    /// The data record at `index` (counted from zero, after the header) has
    /// `fields` fields, which is not what the table's header has.
    Validation { index: usize, fields: usize },
    /// The data record at `index` could not be read back.
    Parse { index: usize, detail: String },
}

/// The line of a table on which the data record at `index` stands: the header
/// is on line 1.
pub open spec fn line_of(index: usize) -> nat {
    (index + 2) as nat
}

impl ScanError {
    /// The text of the failure, as it is reported.
    pub open spec fn text(&self) -> Seq<char> {
        match self {
            ScanError::Usage(m) => m@,
            ScanError::Io(m) => m@,
            ScanError::Validation { index, fields } => "CSV validation error: record "@ + decimal(
                line_of(*index),
            ) + " has "@ + decimal(*fields as nat) + " fields"@,
            ScanError::Parse { index, detail } => "CSV parsing error at record "@ + decimal(
                line_of(*index),
            ) + ": "@ + detail@,
        }
    }

    /// Renders the failure for the report.
    pub fn message(&self) -> (m: String)
        ensures
            m@ == self.text(),
    {
        match self {
            ScanError::Usage(m) => m.clone(),
            ScanError::Io(m) => m.clone(),
            ScanError::Validation { index, fields } => {
                let mut m = String::from_str("CSV validation error: record ");
                m.append(render_number(*index as u128 + 2).as_str());
                m.append(" has ");
                m.append(render_number(*fields as u128).as_str());
                m.append(" fields");
                m
            },
            ScanError::Parse { index, detail } => {
                let mut m = String::from_str("CSV parsing error at record ");
                m.append(render_number(*index as u128 + 2).as_str());
                m.append(": ");
                m.append(detail.as_str());
                m
            },
        }
    }
}

} // verus!
