//! Typed errors for pivot-table runs: configuration mistakes are told apart
//! from failures to parse a value field, and the latter carry the line number
//! and the offending text.

use vstd::prelude::*;
use vstd::string::StringExecFns;

verus! {

/// Every recoverable failure the engine reports. I/O and CSV-format errors
/// arise outside the engine and are wrapped by the caller.
#[derive(Debug)]
pub enum CsvCliError {
    /// The run was configured in a way that can never produce output
    /// (conflicting sort flags, or a pivot that saw no records).
    InvalidConfiguration(String),
    /// A field that should have been aggregated could not be read as the
    /// configured domain; carries the 0-indexed record number and the text.
    ParsingError { line_num: usize, str_to_parse: String, err: String },
    /// A record did not hold a field at a configured index.
    InvalidField,
}

pub type CsvCliResult<T> = Result<T, CsvCliError>;

impl CsvCliError {
    /// The description each error renders to: the configuration explanation,
    /// the offending text with its domain message, or the fixed
    /// missing-field sentence.
    pub open spec fn message_view(&self) -> Seq<char> {
        match self {
            CsvCliError::InvalidConfiguration(msg) => "Could not properly configure the aggregator: "@
                + msg@,
            CsvCliError::ParsingError { line_num: _, str_to_parse, err } => "Could not parse `"@
                + str_to_parse@ + "`: "@ + err@,
            CsvCliError::InvalidField => "Invalid field error: You tried to access a field that does not exist."@,
        }
    }

    /// A human-readable description of the error.
    pub fn to_message(&self) -> (r: String)
        ensures
            r@ == self.message_view(),
    {
        match self {
            CsvCliError::InvalidConfiguration(msg) => {
                let mut s = String::new();
                s.append("Could not properly configure the aggregator: ");
                s.append(msg.as_str());
                proof {
                    assert(s@ =~= "Could not properly configure the aggregator: "@ + msg@);
                }
                s
            },
            CsvCliError::ParsingError { line_num: _, str_to_parse, err } => {
                let mut s = String::new();
                s.append("Could not parse `");
                s.append(str_to_parse.as_str());
                s.append("`: ");
                s.append(err.as_str());
                proof {
                    assert(s@ =~= "Could not parse `"@ + str_to_parse@ + "`: "@ + err@);
                }
                s
            },
            CsvCliError::InvalidField => {
                let mut s = String::new();
                s.append("Invalid field error: You tried to access a field that does not exist.");
                proof {
                    assert(s@
                        =~= "Invalid field error: You tried to access a field that does not exist."@);
                }
                s
            },
        }
    }
}

} // verus!
