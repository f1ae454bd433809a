//! The value parser: turns one raw field string into a typed value of the
//! active domain (text, fixed-point decimal, or date-time), recognising the
//! empty-value vocabulary, with scientific-notation fallback for decimals
//! and a caller-supplied format for dates. The date format is explicit
//! configuration threaded through `ParsingHelper`; there is no global state.

use crate::dates::{date_value_of, CustomDateObject};
use crate::decimal::{dec_parse_of, DecimalWrapper};
use crate::errors::CsvCliError;
use crate::strutil::is_empty_val;
use crate::strutil::is_empty_value;
use vstd::prelude::*;
use vstd::string::StringExecFns;

verus! {

/// A typed field value. The bare-`None` form of a variant doubles as the
/// domain tag a `ParsingHelper` is configured with.
pub enum ParsingType {
    /// Text data: always parses.
    Text(Option<String>),
    /// Fixed-point decimal data, exact where floats would round.
    Numeric(Option<DecimalWrapper>),
    /// Date-time data, parsed with the configured format.
    DateTypes(Option<CustomDateObject>),
}

/// The configuration of the value parser: the active domain, whether the
/// empty-value vocabulary is parsed like any other text or skipped, and the
/// date format.
pub struct ParsingHelper {
    pub values_type: ParsingType,
    pub parse_empty: bool,
    pub date_format: String,
}

/// The default input date format.
pub fn default_date_format() -> (r: String)
    ensures
        r@ == "%Y-%m-%d %H:%M:%S"@,
{
    let mut s = String::new();
    s.append("%Y-%m-%d %H:%M:%S");
    s
}

impl Default for ParsingHelper {
    /// Text parsing, empties parsed, ISO-like date format.
    fn default() -> (r: ParsingHelper)
        ensures
            r.values_type is Text,
            r.parse_empty,
            r.date_format@ == "%Y-%m-%d %H:%M:%S"@,
    {
        ParsingHelper {
            values_type: ParsingType::Text(None),
            parse_empty: true,
            date_format: default_date_format(),
        }
    }
}

impl ParsingHelper {
    /// A parser for the given domain, with empties parsed and the default
    /// date format.
    pub fn from_parsing_type(t: ParsingType) -> (r: ParsingHelper)
        ensures
            r.values_type == t,
            r.parse_empty,
            r.date_format@ == "%Y-%m-%d %H:%M:%S"@,
    {
        ParsingHelper { values_type: t, parse_empty: true, date_format: default_date_format() }
    }

    /// Chooses whether values in the empty-value vocabulary are parsed like
    /// any other field or dropped.
    pub fn parse_empty_vals(self, parse_empty: bool) -> (r: ParsingHelper)
        ensures
            r.values_type == self.values_type,
            r.parse_empty == parse_empty,
            r.date_format == self.date_format,
    {
        ParsingHelper { parse_empty, ..self }
    }
}

/// Sets the input date format on a parser.
pub fn set_date_format(helper: &mut ParsingHelper, fmt: String)
    ensures
        final(helper).date_format == fmt,
        final(helper).values_type == old(helper).values_type,
        final(helper).parse_empty == old(helper).parse_empty,
{
    helper.date_format = fmt;
}

/// A domain value: well-formedness states what every value of the domain
/// satisfies (a decimal within range, a date within chrono's years), and
/// `dup` hands out an equal copy.
pub trait FieldValue: View + Sized {
    spec fn wf(&self) -> bool;

    fn dup(&self) -> (r: Self)
        ensures
            r == *self,
    ;
}

impl FieldValue for String {
    open spec fn wf(&self) -> bool {
        true
    }

    fn dup(&self) -> (r: String) {
        self.clone()
    }
}

impl FieldValue for DecimalWrapper {
    open spec fn wf(&self) -> bool {
        crate::decimal::dec_inv(*self)
    }

    fn dup(&self) -> (r: DecimalWrapper) {
        *self
    }
}

impl FieldValue for CustomDateObject {
    open spec fn wf(&self) -> bool {
        crate::dates::date_inv(*self)
    }

    fn dup(&self) -> (r: CustomDateObject) {
        *self
    }
}

/// A domain whose values are read from raw fields. `parse_viewed` fixes,
/// per domain, which strings parse and to what value.
pub trait FieldParse: FieldValue {
    spec fn parse_viewed(s: Seq<char>, fmt: Seq<char>) -> Option<Self::V>;

    fn parse_field(s: &str, helper: &ParsingHelper) -> (r: Option<Self>)
        ensures
            match r {
                Some(v) => v.wf() && Self::parse_viewed(s@, helper.date_format@) == Some(v@),
                None => Self::parse_viewed(s@, helper.date_format@) is None,
            },
    ;
}

impl FieldParse for String {
    /// Text always parses, to itself.
    open spec fn parse_viewed(s: Seq<char>, fmt: Seq<char>) -> Option<Seq<char>> {
        Some(s)
    }

    fn parse_field(s: &str, helper: &ParsingHelper) -> (r: Option<String>) {
        Some(String::from_str(s))
    }
}

impl FieldParse for DecimalWrapper {
    /// Decimals parse plainly, with scientific notation as fallback.
    open spec fn parse_viewed(s: Seq<char>, fmt: Seq<char>) -> Option<DecimalWrapper> {
        match dec_parse_of(s) {
            Some((m, sc)) => Some(DecimalWrapper { mant: m as i128, scale: sc as u32 }),
            None => None,
        }
    }

    fn parse_field(s: &str, helper: &ParsingHelper) -> (r: Option<DecimalWrapper>) {
        DecimalWrapper::parse(s)
    }
}

impl FieldParse for CustomDateObject {
    /// Dates parse with the configured format; a bare date is taken at
    /// midnight.
    open spec fn parse_viewed(s: Seq<char>, fmt: Seq<char>) -> Option<CustomDateObject> {
        match date_value_of(s, fmt) {
            Some(ts) => Some(CustomDateObject { ts: ts as i64 }),
            None => None,
        }
    }

    fn parse_field(s: &str, helper: &ParsingHelper) -> (r: Option<CustomDateObject>) {
        CustomDateObject::parse(s, helper.date_format.as_str())
    }
}

impl ParsingHelper {
    /// Parses one raw field into a typed value of the active domain.
    ///
    /// A raw value in the empty-value vocabulary is `Ok(None)` when empty
    /// parsing is off. Text always parses; a decimal or date field that
    /// cannot be read is a `ParsingError` carrying the line number and the
    /// offending text.
    pub fn parse_value(&self, raw: &str, line_num: usize) -> (r: Result<
        Option<ParsingType>,
        CsvCliError,
    >)
        ensures
            (!self.parse_empty && is_empty_value(raw@)) ==> r matches Ok(None),
            (self.parse_empty || !is_empty_value(raw@)) ==> match self.values_type {
                ParsingType::Text(_) => r matches Ok(Some(ParsingType::Text(Some(t)))) && t@
                    == raw@,
                ParsingType::Numeric(_) => {
                    match dec_parse_of(raw@) {
                        Some((m, sc)) => r matches Ok(Some(ParsingType::Numeric(Some(d))))
                            && d.mant == m && d.scale == sc && d.wf(),
                        None => r matches Err(CsvCliError::ParsingError {
                            line_num: l,
                            str_to_parse: s,
                            err: e,
                        }) && l == line_num && s@ == raw@ && e@
                            == "Failed to parse as numeric"@,
                    }
                },
                ParsingType::DateTypes(_) => {
                    match date_value_of(raw@, self.date_format@) {
                        Some(ts) => r matches Ok(Some(ParsingType::DateTypes(Some(d)))) && d.ts
                            == ts && d.wf(),
                        None => r matches Err(CsvCliError::ParsingError {
                            line_num: l,
                            str_to_parse: s,
                            err: e,
                        }) && l == line_num && s@ == raw@ && e@ == "Could not parse as date with "@
                            + self.date_format@ + " format"@,
                    }
                },
            },
    {
        if !self.parse_empty && is_empty_val(raw) {
            return Ok(None);
        }
        match &self.values_type {
            ParsingType::Text(_) => Ok(Some(ParsingType::Text(Some(String::from_str(raw))))),
            ParsingType::Numeric(_) => match DecimalWrapper::parse(raw) {
                Some(d) => Ok(Some(ParsingType::Numeric(Some(d)))),
                None => Err(
                    CsvCliError::ParsingError {
                        line_num,
                        str_to_parse: String::from_str(raw),
                        err: numeric_err_message(),
                    },
                ),
            },
            ParsingType::DateTypes(_) => match CustomDateObject::parse(
                raw,
                self.date_format.as_str(),
            ) {
                Some(d) => Ok(Some(ParsingType::DateTypes(Some(d)))),
                None => Err(
                    CsvCliError::ParsingError {
                        line_num,
                        str_to_parse: String::from_str(raw),
                        err: date_err_message(self.date_format.as_str()),
                    },
                ),
            },
        }
    }
}

/// The message for a value that would not read as a decimal.
pub fn numeric_err_message() -> (r: String)
    ensures
        r@ == "Failed to parse as numeric"@,
{
    let mut s = String::new();
    s.append("Failed to parse as numeric");
    proof {
        assert(s@ =~= "Failed to parse as numeric"@);
    }
    s
}

/// The message for a value that would not read as a date with the
/// configured format.
pub fn date_err_message(fmt: &str) -> (r: String)
    ensures
        r@ == "Could not parse as date with "@ + fmt@ + " format"@,
{
    let mut s = String::new();
    s.append("Could not parse as date with ");
    s.append(fmt);
    s.append(" format");
    proof {
        assert(s@ =~= "Could not parse as date with "@ + fmt@ + " format"@);
    }
    s
}

} // verus!
