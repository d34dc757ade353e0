//! The record produced for one finding, and the error value returned
//! when a record block is malformed.

use vstd::prelude::*;

verus! {

/// The eleven fields of a record, in the order in which their labeled
/// lines must appear inside a record block.
#[derive(Clone, Copy, Debug)]
pub enum Field {
    SecretToken,
    Secret,
    RuleId,
    Entropy,
    File,
    Line,
    Commit,
    Author,
    Email,
    Date,
    Fingerprint,
}

/// A decimal numeral, as recognized for the `Entropy: ` field: an
/// optional leading minus sign, one or more integer digits, and an
/// optional fractional part.  An empty `frac_digits` means the numeral
/// had no fractional part.  Keeping the digits themselves, rather than
/// a binary floating-point value, lets the conversion be exact and
/// infallible by construction; a caller that wants a machine float can
/// render the digits and convert outside the library.
#[derive(Clone, Debug)]
pub struct Decimal {
    pub negative: bool,
    pub int_digits: String,
    pub frac_digits: String,
}

/// The mathematical value of a [`Decimal`].
pub struct DecimalView {
    pub negative: bool,
    pub int_digits: Seq<char>,
    pub frac_digits: Seq<char>,
}

impl View for Decimal {
    type V = DecimalView;

    open spec fn view(&self) -> DecimalView {
        DecimalView {
            negative: self.negative,
            int_digits: self.int_digits@,
            frac_digits: self.frac_digits@,
        }
    }
}

/// One parsed record.  Every field is independently optional: the label
/// must be present in the block, the value after it may be absent.  A
/// value that is empty after trimming is represented as `None`, never as
/// an empty string.
#[derive(Debug)]
pub struct Finding {
    pub secret_token: Option<String>,
    pub secret: Option<String>,
    pub rule_id: Option<String>,
    pub entropy: Option<Decimal>,
    pub file: Option<String>,
    pub line: Option<u32>,
    pub commit: Option<String>,
    pub author: Option<String>,
    pub email: Option<String>,
    pub date: Option<String>,
    pub fingerprint: Option<String>,
}

/// The mathematical value of a [`Finding`]: each text field as a
/// sequence of characters.
pub struct FindingView {
    pub secret_token: Option<Seq<char>>,
    pub secret: Option<Seq<char>>,
    pub rule_id: Option<Seq<char>>,
    pub entropy: Option<DecimalView>,
    pub file: Option<Seq<char>>,
    pub line: Option<u32>,
    pub commit: Option<Seq<char>>,
    pub author: Option<Seq<char>>,
    pub email: Option<Seq<char>>,
    pub date: Option<Seq<char>>,
    pub fingerprint: Option<Seq<char>>,
}

/// The view of an optional owned string.
pub open spec fn view_opt(o: Option<String>) -> Option<Seq<char>> {
    match o {
        Some(s) => Some(s@),
        None => None,
    }
}

/// The view of an optional decimal.
pub open spec fn view_opt_decimal(o: Option<Decimal>) -> Option<DecimalView> {
    match o {
        Some(d) => Some(d@),
        None => None,
    }
}

impl View for Finding {
    type V = FindingView;

    open spec fn view(&self) -> FindingView {
        FindingView {
            secret_token: view_opt(self.secret_token),
            secret: view_opt(self.secret),
            rule_id: view_opt(self.rule_id),
            entropy: view_opt_decimal(self.entropy),
            file: view_opt(self.file),
            line: self.line,
            commit: view_opt(self.commit),
            author: view_opt(self.author),
            email: view_opt(self.email),
            date: view_opt(self.date),
            fingerprint: view_opt(self.fingerprint),
        }
    }
}

/// What the parser expected at the position where it failed: the label
/// of a given field, or a line break.
#[derive(Clone, Copy, Debug)]
pub enum Expected {
    Label(Field),
    LineBreak,
}

/// A parse failure: the character offset at which the record block
/// stopped matching, and the construct expected there.
#[derive(Clone, Copy, Debug)]
pub struct ParseError {
    pub offset: usize,
    pub expected: Expected,
}

} // verus!
