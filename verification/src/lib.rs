//! Reader and printer for a small Lisp-family textual notation.
//!
//! The reader ([`reader::read_str`]) parses the single leading form of an
//! input line into a [`types::MalType`] tree; the printer
//! ([`printer::pr_str`]) renders such a tree back to text, readably or for
//! display. Both carry exact contracts over a ghost model — the spec-level
//! parser [`reader::parse_form_at`] and renderer [`printer::rendered`] on
//! ghost [`types::Form`] values — and [`laws`] proves the round-trip law
//! that ties them together: reading the readable print of a value yields
//! the value back.

pub mod laws;
pub mod printer;
pub mod reader;
pub mod types;

use vstd::prelude::*;

use crate::reader::ParseOut;
use crate::reader::ReaderError;
use crate::types::MalType;

verus! {

/// Reads one line of input into a tree value.
pub fn read(s: String) -> (r: Result<MalType, ReaderError>)
    ensures
        (match r {
            Ok(v) => reader::parse_form_at(s@, reader::skip_blank(s@, 0)) matches ParseOut::Parsed(f, e)
                && v@ == f,
            Err(_) => !(reader::parse_form_at(s@, reader::skip_blank(s@, 0)) is Parsed),
        }),
{
    reader::read_str(s)
}

/// The evaluator seam: currently the identity function.
pub fn eval(input: MalType) -> (r: MalType)
    ensures
        r == input,
{
    input
}

/// Renders a tree value readably.
pub fn print(input: MalType) -> (r: String)
    ensures
        r@ == printer::rendered(input@, true),
{
    printer::pr_str(&input, true)
}

/// One read-eval-print step over a line of input.
pub fn rep(s: String) -> (r: Result<String, ReaderError>)
    ensures
        (match r {
            Ok(out) => reader::parse_form_at(s@, reader::skip_blank(s@, 0)) matches ParseOut::Parsed(f, e)
                && out@ == printer::rendered(f, true),
            Err(_) => !(reader::parse_form_at(s@, reader::skip_blank(s@, 0)) is Parsed),
        }),
{
    match read(s) {
        Ok(v) => Ok(print(eval(v))),
        Err(e) => Err(e),
    }
}

} // verus!
