//! Parser for plain-text secret-scan reports.
//!
//! A report is a sequence of eleven-line record blocks, one block per
//! finding.  Every line has the form `Label: value`; the eleven labels
//! must appear in a fixed order, the value after a label may be empty.
//! The grammar is stated as specification functions in [`grammar`], the
//! executable parsers in [`parser`] are proved to follow it exactly, and
//! [`laws`] proves the general properties of the grammar itself.

pub mod finding;
pub mod grammar;
pub mod laws;
pub mod parser;

pub use finding::{Decimal, DecimalView, Expected, Field, Finding, FindingView, ParseError};
pub use parser::{parse_finding, parse_findings};
