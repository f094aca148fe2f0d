//! The reader: a recursive-descent parser from text to one tree value.
//!
//! The grammar is stated once, as the ghost function [`parse_form_at`] and
//! its helpers, and the executable parser is proved to return exactly what
//! that function says for every input.
//!
//! Two failure flavours mirror the committed-choice behaviour of the
//! grammar: [`ParseOut::NoMatch`] is a local mismatch, after which an
//! enclosing alternative may still try the atom rules, while
//! [`ParseOut::Malformed`] is a hard failure (an opening delimiter or a
//! string quote was consumed and its body cannot be completed) that aborts
//! the whole parse.

use vstd::prelude::*;
use vstd::string::StrSliceExecFns;
use vstd::string::StringExecFns;

use crate::types::Form;
use crate::types::MalType;

verus! {

/// Blank characters trimmed before the single top-level form.
pub open spec fn is_blank(c: char) -> bool {
    c == ' ' || c == '\t' || c == '\n' || c == '\r'
}

/// Form separators inside composites: blanks and the comma.
pub open spec fn is_sep(c: char) -> bool {
    is_blank(c) || c == ','
}

/// Decimal digit characters.
pub open spec fn is_digit(c: char) -> bool {
    48 <= c as u32 <= 57
}

/// Numeric value of a decimal digit character.
pub open spec fn digit_val(c: char) -> int {
    c as u32 - 48
}

/// Characters that may stand in a symbol name: everything but separators,
/// the four composite delimiters, braces and the backslash.
pub open spec fn is_symbol_char(c: char) -> bool {
    &&& !is_sep(c)
    &&& c != '('
    &&& c != ')'
    &&& c != '['
    &&& c != ']'
    &&& c != '{'
    &&& c != '}'
    &&& c != '\\'
}

/// Index of the first non-blank character at or after `i`.
pub open spec fn skip_blank(s: Seq<char>, i: int) -> int
    decreases s.len() - i,
{
    if 0 <= i < s.len() && is_blank(s[i]) {
        skip_blank(s, i + 1)
    } else {
        i
    }
}

/// End of the run of symbol characters starting at `i`.
pub open spec fn sym_end(s: Seq<char>, i: int) -> int
    decreases s.len() - i,
{
    if 0 <= i < s.len() && is_symbol_char(s[i]) {
        sym_end(s, i + 1)
    } else {
        i
    }
}

/// End of the run of decimal digits starting at `i`.
pub open spec fn digits_end(s: Seq<char>, i: int) -> int
    decreases s.len() - i,
{
    if 0 <= i < s.len() && is_digit(s[i]) {
        digits_end(s, i + 1)
    } else {
        i
    }
}

/// Value of the digit run `s[j..e)` read as a decimal number.
pub open spec fn dec_val(s: Seq<char>, j: int, e: int) -> int
    decreases e - j,
{
    if j >= e {
        0
    } else {
        dec_val(s, j, e - 1) * 10 + digit_val(s[e - 1])
    }
}

/// Whether the text `w` stands in `s` at position `i`.
pub open spec fn text_at(s: Seq<char>, i: int, w: Seq<char>) -> bool {
    0 <= i && i + w.len() <= s.len() && s.subrange(i, i + w.len()) == w
}

/// The integer literal at `i`: an optional `-` followed by at least one
/// digit, whose value fits a 64-bit signed integer. A run whose value does
/// not fit matches no integer (the symbol rule takes it instead).
pub open spec fn int_run(s: Seq<char>, i: int) -> Option<(int, int)> {
    let neg = 0 <= i < s.len() && s[i] == '-';
    let j = if neg {
        i + 1
    } else {
        i
    };
    let e = digits_end(s, j);
    if e == j {
        None
    } else {
        let m = dec_val(s, j, e);
        let v = if neg {
            -m
        } else {
            m
        };
        if i64::MIN <= v <= i64::MAX {
            Some((v, e))
        } else {
            None
        }
    }
}

/// The decoded payload of a string literal whose opening quote stands just
/// before `i`, together with the index after the closing quote. `None` is
/// an unterminated literal or an unknown escape, both hard failures.
pub open spec fn string_body(s: Seq<char>, i: int) -> Option<(Seq<char>, int)>
    decreases s.len() - i,
{
    if i < 0 || i >= s.len() {
        None
    } else if s[i] == '"' {
        Some((Seq::empty(), i + 1))
    } else if s[i] == '\\' {
        if i + 1 < s.len() && (s[i + 1] == 'n' || s[i + 1] == '"' || s[i + 1] == '\\') {
            let c = if s[i + 1] == 'n' {
                '\n'
            } else {
                s[i + 1]
            };
            match string_body(s, i + 2) {
                Some((t, e)) => Some((seq![c] + t, e)),
                None => None,
            }
        } else {
            None
        }
    } else {
        match string_body(s, i + 1) {
            Some((t, e)) => Some((seq![s[i]] + t, e)),
            None => None,
        }
    }
}

/// Outcome of parsing one form.
pub enum ParseOut {
    /// A form and the index just after its last character.
    Parsed(Form, int),
    /// No grammar rule matches here; an enclosing alternative may go on.
    NoMatch,
    /// A committed rule cannot be completed; the whole parse fails.
    Malformed,
}

/// The atom at `i`, by alternative order: the three literal words first
/// (matched as prefixes), then integer, string, keyword, symbol.
pub open spec fn parse_atom_at(s: Seq<char>, i: int) -> ParseOut {
    if text_at(s, i, seq!['n', 'i', 'l']) {
        ParseOut::Parsed(Form::Nil, i + 3)
    } else if text_at(s, i, seq!['t', 'r', 'u', 'e']) {
        ParseOut::Parsed(Form::Bool(true), i + 4)
    } else if text_at(s, i, seq!['f', 'a', 'l', 's', 'e']) {
        ParseOut::Parsed(Form::Bool(false), i + 5)
    } else {
        match int_run(s, i) {
            Some((v, e)) => ParseOut::Parsed(Form::Int(v), e),
            None => {
                if 0 <= i < s.len() && s[i] == '"' {
                    match string_body(s, i + 1) {
                        Some((t, e)) => ParseOut::Parsed(Form::Str(t), e),
                        None => ParseOut::Malformed,
                    }
                } else if 0 <= i < s.len() && s[i] == ':' && sym_end(s, i + 1) > i + 1 {
                    ParseOut::Parsed(Form::Keyword(s.subrange(i + 1, sym_end(s, i + 1))), sym_end(s, i + 1))
                } else if 0 <= i < s.len() && sym_end(s, i) > i {
                    ParseOut::Parsed(Form::Symbol(s.subrange(i, sym_end(s, i))), sym_end(s, i))
                } else {
                    ParseOut::NoMatch
                }
            },
        }
    }
}

/// The form at `i`.
///
/// A quote-family sigil wraps the following form in a two-element list; if
/// the following form merely fails to match, the sigil character itself is
/// still a candidate symbol, so the atom rules are tried from `i`.
pub open spec fn parse_form_at(s: Seq<char>, i: int) -> ParseOut
    decreases s.len() - i, 1int,
{
    if i < 0 || i >= s.len() {
        ParseOut::NoMatch
    } else if s[i] == '(' {
        match parse_body_at(s, i + 1, ')') {
            Some((xs, e)) => ParseOut::Parsed(Form::List(xs), e),
            None => ParseOut::Malformed,
        }
    } else if s[i] == '[' {
        match parse_body_at(s, i + 1, ']') {
            Some((xs, e)) => ParseOut::Parsed(Form::Vector(xs), e),
            None => ParseOut::Malformed,
        }
    } else if s[i] == '\'' {
        match parse_form_at(s, i + 1) {
            ParseOut::Parsed(f, e) => ParseOut::Parsed(
                Form::List(seq![Form::Symbol(seq!['q', 'u', 'o', 't', 'e']), f]),
                e,
            ),
            ParseOut::NoMatch => parse_atom_at(s, i),
            ParseOut::Malformed => ParseOut::Malformed,
        }
    } else if s[i] == '`' {
        match parse_form_at(s, i + 1) {
            ParseOut::Parsed(f, e) => ParseOut::Parsed(
                Form::List(seq![Form::Symbol(seq!['q', 'u', 'a', 's', 'i', 'q', 'u', 'o', 't', 'e']), f]),
                e,
            ),
            ParseOut::NoMatch => parse_atom_at(s, i),
            ParseOut::Malformed => ParseOut::Malformed,
        }
    } else if s[i] == '~' {
        if i + 1 < s.len() && s[i + 1] == '@' {
            match parse_form_at(s, i + 2) {
                ParseOut::Parsed(f, e) => ParseOut::Parsed(
                    Form::List(
                        seq![
                            Form::Symbol(
                                seq!['s', 'p', 'l', 'i', 'c', 'e', '-', 'u', 'n', 'q', 'u', 'o', 't', 'e'],
                            ),
                            f,
                        ],
                    ),
                    e,
                ),
                ParseOut::NoMatch => parse_unquote_at(s, i),
                ParseOut::Malformed => ParseOut::Malformed,
            }
        } else {
            parse_unquote_at(s, i)
        }
    } else {
        parse_atom_at(s, i)
    }
}

/// The plain-unquote alternative at a `~` that is not (or not successfully)
/// a splicing unquote.
pub open spec fn parse_unquote_at(s: Seq<char>, i: int) -> ParseOut
    decreases s.len() - i, 0int,
{
    if i < 0 || i >= s.len() {
        ParseOut::NoMatch
    } else {
            match parse_form_at(s, i + 1) {
            ParseOut::Parsed(f, e) => ParseOut::Parsed(
                Form::List(seq![Form::Symbol(seq!['u', 'n', 'q', 'u', 'o', 't', 'e']), f]),
                e,
            ),
            ParseOut::NoMatch => parse_atom_at(s, i),
            ParseOut::Malformed => ParseOut::Malformed,
        }
    }
}

/// The children of a composite, read from `i` up to the closing delimiter
/// `close`. Separators are free between children; a missing closer or a
/// failing child is a hard failure of the whole composite.
pub open spec fn parse_body_at(s: Seq<char>, i: int, close: char) -> Option<(Seq<Form>, int)>
    decreases s.len() - i, 2int,
{
    if i < 0 || i >= s.len() {
        None
    } else if is_sep(s[i]) {
        parse_body_at(s, i + 1, close)
    } else if s[i] == close {
        Some((Seq::empty(), i + 1))
    } else {
        match parse_form_at(s, i) {
            ParseOut::Parsed(f, e) => {
                // a parsed form always consumes at least one character
                // (`lemma_parse_consumes`); the guard only serves termination
                let k = if i < e <= s.len() {
                    e
                } else {
                    i + 1
                };
                match parse_body_at(s, k, close) {
                    Some((xs, e2)) => Some((seq![f] + xs, e2)),
                    None => None,
                }
            },
            ParseOut::NoMatch => None,
            ParseOut::Malformed => None,
        }
    }
}

/// Bounds of a symbol run.
pub proof fn lemma_sym_end_bounds(s: Seq<char>, i: int)
    requires
        0 <= i <= s.len(),
    ensures
        i <= sym_end(s, i) <= s.len(),
    decreases s.len() - i,
{
    if i < s.len() && is_symbol_char(s[i]) {
        lemma_sym_end_bounds(s, i + 1);
    }
}

/// Bounds of a digit run.
pub proof fn lemma_digits_end_bounds(s: Seq<char>, i: int)
    requires
        0 <= i <= s.len(),
    ensures
        i <= digits_end(s, i) <= s.len(),
    decreases s.len() - i,
{
    if i < s.len() && is_digit(s[i]) {
        lemma_digits_end_bounds(s, i + 1);
    }
}

/// A parsed string body ends after its opening position and inside the text.
pub proof fn lemma_string_body_consumes(s: Seq<char>, i: int)
    requires
        0 <= i <= s.len(),
    ensures
        string_body(s, i) matches Some((t, e)) ==> i < e <= s.len(),
    decreases s.len() - i,
{
    if i < s.len() && s[i] != '"' {
        if s[i] == '\\' {
            if i + 2 <= s.len() {
                lemma_string_body_consumes(s, i + 2);
            }
        } else {
            lemma_string_body_consumes(s, i + 1);
        }
    }
}

/// A parsed atom ends after its starting position and inside the text.
pub proof fn lemma_atom_consumes(s: Seq<char>, i: int)
    requires
        0 <= i <= s.len(),
    ensures
        parse_atom_at(s, i) matches ParseOut::Parsed(f, e) ==> i < e <= s.len(),
{
    if i < s.len() {
        lemma_sym_end_bounds(s, i);
        lemma_sym_end_bounds(s, i + 1);
        lemma_digits_end_bounds(s, i);
        lemma_digits_end_bounds(s, i + 1);
        lemma_string_body_consumes(s, i + 1);
    }
}

/// A parsed form ends after its starting position and inside the text.
pub proof fn lemma_parse_consumes(s: Seq<char>, i: int)
    ensures
        parse_form_at(s, i) matches ParseOut::Parsed(f, e) ==> i < e <= s.len(),
    decreases s.len() - i, 1int,
{
    if 0 <= i < s.len() {
        lemma_atom_consumes(s, i);
        if s[i] == '(' {
            lemma_body_consumes(s, i + 1, ')');
        } else if s[i] == '[' {
            lemma_body_consumes(s, i + 1, ']');
        } else if s[i] == '\'' || s[i] == '`' {
            lemma_parse_consumes(s, i + 1);
        } else if s[i] == '~' {
            if i + 1 < s.len() && s[i + 1] == '@' {
                lemma_parse_consumes(s, i + 2);
            }
            lemma_unquote_consumes(s, i);
        }
    }
}

/// The unquote alternative consumes at least the sigil.
pub proof fn lemma_unquote_consumes(s: Seq<char>, i: int)
    requires
        0 <= i <= s.len(),
    ensures
        parse_unquote_at(s, i) matches ParseOut::Parsed(f, e) ==> i < e <= s.len(),
    decreases s.len() - i, 0int,
{
    if i < s.len() {
        lemma_parse_consumes(s, i + 1);
        lemma_atom_consumes(s, i);
    }
}

/// A parsed composite body ends after its starting position.
pub proof fn lemma_body_consumes(s: Seq<char>, i: int, close: char)
    ensures
        parse_body_at(s, i, close) matches Some((xs, e)) ==> i < e <= s.len(),
    decreases s.len() - i, 2int,
{
    if 0 <= i < s.len() {
        if is_sep(s[i]) {
            lemma_body_consumes(s, i + 1, close);
        } else if s[i] != close {
            lemma_parse_consumes(s, i);
            match parse_form_at(s, i) {
                ParseOut::Parsed(f, e) => {
                    let k = if i < e <= s.len() {
                        e
                    } else {
                        i + 1
                    };
                    lemma_body_consumes(s, k, close);
                },
                _ => {},
            }
        }
    }
}

/// Failure indicator of the reader: parsing is all-or-nothing, and the
/// caller cannot distinguish failure causes programmatically.
#[derive(Debug)]
pub struct ReaderError {}

/// Outcome of the executable parser, mirroring [`ParseOut`].
enum ParseResult {
    Parsed(MalType, usize),
    NoMatch,
    Malformed,
}

/// The deep views of a sequence of tree values.
pub open spec fn views_of(xs: Seq<MalType>) -> Seq<Form> {
    Seq::new(xs.len(), |k: int| xs[k]@)
}

/// Prepends already-parsed children to the outcome of parsing the rest of
/// a composite body.
pub open spec fn with_children(pre: Seq<Form>, o: Option<(Seq<Form>, int)>) -> Option<
    (Seq<Form>, int),
> {
    match o {
        Some((xs, e)) => Some((pre + xs, e)),
        None => None,
    }
}

fn sep_char(c: char) -> (b: bool)
    ensures
        b == is_sep(c),
{
    c == ' ' || c == '\t' || c == '\n' || c == '\r' || c == ','
}

fn blank_char(c: char) -> (b: bool)
    ensures
        b == is_blank(c),
{
    c == ' ' || c == '\t' || c == '\n' || c == '\r'
}

fn symbol_char(c: char) -> (b: bool)
    ensures
        b == is_symbol_char(c),
{
    !(sep_char(c) || c == '(' || c == ')' || c == '[' || c == ']' || c == '{' || c == '}' || c
        == '\\')
}

fn digit_char_at(c: char) -> (b: bool)
    ensures
        b == is_digit(c),
{
    let u = c as u32;
    48 <= u && u <= 57
}

/// Whether the text `w` stands in `s` at character position `i`.
fn matches_at(s: &str, n: usize, i: usize, w: &str, wn: usize) -> (b: bool)
    requires
        n as int == s@.len(),
        wn as int == w@.len(),
    ensures
        b == text_at(s@, i as int, w@),
{
    if i > n || wn > n - i {
        return false;
    }
    let mut k: usize = 0;
    loop
        invariant
            n as int == s@.len(),
            wn as int == w@.len(),
            k <= wn,
            i + wn <= n,
            forall|m: int| 0 <= m < k ==> s@[i + m] == w@[m],
        decreases wn - k,
    {
        if k >= wn {
            proof {
                assert(s@.subrange(i as int, i + wn) =~= w@);
            }
            return true;
        }
        let cs = s.get_char(i + k);
        let cw = w.get_char(k);
        if cs != cw {
            proof {
                assert(!text_at(s@, i as int, w@)) by {
                    if text_at(s@, i as int, w@) {
                        assert(s@.subrange(i as int, i + w@.len())[k as int] == w@[k as int]);
                    }
                }
            }
            return false;
        }
        k = k + 1;
    }
}

/// End of the symbol-character run starting at `i`.
fn scan_sym(s: &str, n: usize, i: usize) -> (e: usize)
    requires
        n as int == s@.len(),
        i <= n,
    ensures
        e as int == sym_end(s@, i as int),
        i <= e <= n,
{
    let mut k: usize = i;
    loop
        invariant
            n as int == s@.len(),
            i <= k <= n,
            sym_end(s@, i as int) == sym_end(s@, k as int),
        decreases n - k,
    {
        if k >= n {
            return k;
        }
        let c = s.get_char(k);
        if !symbol_char(c) {
            return k;
        }
        k = k + 1;
    }
}

/// End of the digit run starting at `i`; every character before it is a
/// digit.
fn scan_digits(s: &str, n: usize, i: usize) -> (e: usize)
    requires
        n as int == s@.len(),
        i <= n,
    ensures
        e as int == digits_end(s@, i as int),
        i <= e <= n,
        forall|m: int| i <= m < e ==> is_digit(s@[m]),
{
    let mut k: usize = i;
    loop
        invariant
            n as int == s@.len(),
            i <= k <= n,
            digits_end(s@, i as int) == digits_end(s@, k as int),
            forall|m: int| i <= m < k ==> is_digit(s@[m]),
        decreases n - k,
    {
        if k >= n {
            return k;
        }
        let c = s.get_char(k);
        if !digit_char_at(c) {
            return k;
        }
        k = k + 1;
    }
}

/// The integer literal at `i`, if any: its value and its end position.
///
/// The digit run is accumulated with a saturating floor well below the
/// 64-bit range, so that a run whose value does not fit is recognized as
/// out of range without unbounded arithmetic.
fn parse_int(s: &str, n: usize, i: usize) -> (r: Option<(i64, usize)>)
    requires
        n as int == s@.len(),
    ensures
        (match r {
            Some((v, e)) => int_run(s@, i as int) == Some((v as int, e as int)) && i < e <= n,
            None => int_run(s@, i as int) is None,
        }),
{
    if i >= n {
        return None;
    }
    let neg = s.get_char(i) == '-';
    let j0: usize = if neg {
        i + 1
    } else {
        i
    };
    let e = scan_digits(s, n, j0);
    if e == j0 {
        return None;
    }
    let sat: i128 = -1000000000000000000000;
    let mut acc: i128 = 0;
    let mut j: usize = j0;
    while j < e
        invariant
            n as int == s@.len(),
            j0 <= j <= e <= n,
            e as int == digits_end(s@, j0 as int),
            forall|m: int| j0 <= m < e ==> is_digit(s@[m]),
            sat == -1000000000000000000000int,
            sat <= acc <= 0,
            0 <= dec_val(s@, j0 as int, j as int),
            acc > sat ==> acc as int == -dec_val(s@, j0 as int, j as int),
            acc == sat ==> -dec_val(s@, j0 as int, j as int) <= sat as int,
        decreases e - j,
    {
        let ghost dv = dec_val(s@, j0 as int, j as int);
        let c = s.get_char(j);
        let u = c as u32;
        let d: i128 = (u - 48) as i128;
        proof {
            assert(is_digit(s@[j as int]));
            assert(d == digit_val(s@[j as int]));
            assert(dec_val(s@, j0 as int, j as int + 1) == dv * 10 + digit_val(s@[j as int]));
        }
        let acc10 = acc * 10;
        let a2 = acc10 - d;
        if a2 < sat {
            acc = sat;
        } else {
            acc = a2;
        }
        j = j + 1;
    }
    let min64: i128 = i64::MIN as i128;
    let max64: i128 = i64::MAX as i128;
    if neg {
        if acc < min64 {
            return None;
        }
        Some((acc as i64, e))
    } else {
        if acc < -max64 {
            return None;
        }
        Some(((0 - acc) as i64, e))
    }
}

/// The string body from `i` (just after the opening quote): the decoded
/// payload and the position after the closing quote.
fn parse_string(s: &str, n: usize, i: usize) -> (r: Option<(String, usize)>)
    requires
        n as int == s@.len(),
    ensures
        (match r {
            Some((t, e)) => string_body(s@, i as int) == Some((t@, e as int)) && e <= n,
            None => string_body(s@, i as int) is None,
        }),
{
    let mut out = String::new();
    let mut j: usize = i;
    loop
        invariant
            n as int == s@.len(),
            i <= j,
            (match string_body(s@, j as int) {
                Some((t, e)) => string_body(s@, i as int) == Some((out@ + t, e)),
                None => string_body(s@, i as int) is None,
            }),
        decreases n - j,
    {
        if j >= n {
            return None;
        }
        let c = s.get_char(j);
        if c == '"' {
            proof {
                assert(out@ + Seq::<char>::empty() =~= out@);
            }
            return Some((out, j + 1));
        }
        if c == '\\' {
            if j + 1 >= n {
                return None;
            }
            let c2 = s.get_char(j + 1);
            proof {
                reveal_strlit("\n");
                reveal_strlit("\"");
                reveal_strlit("\\");
            }
            let ghost prev = out@;
            if c2 == 'n' {
                out.append("\n");
            } else if c2 == '"' {
                out.append("\"");
            } else if c2 == '\\' {
                out.append("\\");
            } else {
                return None;
            }
            proof {
                let dc: char = if s@[j as int + 1] == 'n' {
                    '\n'
                } else {
                    s@[j as int + 1]
                };
                assert(out@ =~= prev + seq![dc]);
                match string_body(s@, j as int + 2) {
                    Some((t, e)) => {
                        assert(prev + (seq![dc] + t) =~= out@ + t);
                    },
                    None => {},
                }
            }
            j = j + 2;
        } else {
            let piece = s.substring_char(j, j + 1);
            let ghost prev = out@;
            out.append(piece);
            proof {
                assert(piece@ =~= seq![s@[j as int]]);
                assert(out@ =~= prev + seq![s@[j as int]]);
                match string_body(s@, j as int + 1) {
                    Some((t, e)) => {
                        assert(prev + (seq![s@[j as int]] + t) =~= out@ + t);
                    },
                    None => {},
                }
            }
            j = j + 1;
        }
    }
}

/// The atom at `i`, by the grammar's alternative order.
fn parse_atom(s: &str, n: usize, i: usize) -> (r: ParseResult)
    requires
        n as int == s@.len(),
    ensures
        (match r {
            ParseResult::Parsed(v, e) => parse_atom_at(s@, i as int) == ParseOut::Parsed(v@, e as int) && e <= n,
            ParseResult::NoMatch => parse_atom_at(s@, i as int) == ParseOut::NoMatch,
            ParseResult::Malformed => parse_atom_at(s@, i as int) == ParseOut::Malformed,
        }),
{
    proof {
        reveal_strlit("nil");
        reveal_strlit("true");
        reveal_strlit("false");
        assert("nil"@ =~= seq!['n', 'i', 'l']);
        assert("true"@ =~= seq!['t', 'r', 'u', 'e']);
        assert("false"@ =~= seq!['f', 'a', 'l', 's', 'e']);
    }
    if matches_at(s, n, i, "nil", 3) {
        return ParseResult::Parsed(MalType::Nil, i + 3);
    }
    if matches_at(s, n, i, "true", 4) {
        return ParseResult::Parsed(MalType::Bool(true), i + 4);
    }
    if matches_at(s, n, i, "false", 5) {
        return ParseResult::Parsed(MalType::Bool(false), i + 5);
    }
    match parse_int(s, n, i) {
        Some((v, e)) => {
            return ParseResult::Parsed(MalType::Int(v), e);
        },
        None => {},
    }
    if i >= n {
        return ParseResult::NoMatch;
    }
    let c = s.get_char(i);
    if c == '"' {
        match parse_string(s, n, i + 1) {
            Some((t, e)) => {
                return ParseResult::Parsed(MalType::Str(t), e);
            },
            None => {
                return ParseResult::Malformed;
            },
        }
    }
    if c == ':' {
        let e = scan_sym(s, n, i + 1);
        if e > i + 1 {
            let name = s.substring_char(i + 1, e).to_owned();
            return ParseResult::Parsed(MalType::Keyword(name), e);
        }
    }
    let e = scan_sym(s, n, i);
    if e > i {
        let name = s.substring_char(i, e).to_owned();
        return ParseResult::Parsed(MalType::Symbol(name), e);
    }
    ParseResult::NoMatch
}

/// A two-element list `(sym inner)`, the result of desugaring a reader
/// macro.
fn two_list(sym: MalType, inner: MalType) -> (r: MalType)
    ensures
        r@ == Form::List(seq![sym@, inner@]),
{
    let ghost gs = sym@;
    let ghost gi = inner@;
    let mut v: Vec<MalType> = Vec::new();
    v.push(sym);
    v.push(inner);
    let r = MalType::List(v);
    proof {
        assert(r@->List_0 =~= seq![gs, gi]);
    }
    r
}

/// The form at character position `i` of `s`, as [`parse_form_at`] says.
fn parse_form(s: &str, n: usize, i: usize) -> (r: ParseResult)
    requires
        n as int == s@.len(),
    ensures
        (match r {
            ParseResult::Parsed(v, e) => parse_form_at(s@, i as int) == ParseOut::Parsed(v@, e as int) && e <= n,
            ParseResult::NoMatch => parse_form_at(s@, i as int) == ParseOut::NoMatch,
            ParseResult::Malformed => parse_form_at(s@, i as int) == ParseOut::Malformed,
        }),
    decreases n - i, 1int,
{
    if i >= n {
        return ParseResult::NoMatch;
    }
    let c = s.get_char(i);
    if c == '(' {
        match parse_seq(s, n, i + 1, ')') {
            Some((xs, e)) => {
                let r = MalType::List(xs);
                proof {
                    assert(r@->List_0 =~= views_of(r->List_0@));
                }
                ParseResult::Parsed(r, e)
            },
            None => ParseResult::Malformed,
        }
    } else if c == '[' {
        match parse_seq(s, n, i + 1, ']') {
            Some((xs, e)) => {
                let r = MalType::Vector(xs);
                proof {
                    assert(r@->Vector_0 =~= views_of(r->Vector_0@));
                }
                ParseResult::Parsed(r, e)
            },
            None => ParseResult::Malformed,
        }
    } else if c == '\'' {
        match parse_form(s, n, i + 1) {
            ParseResult::Parsed(f, e) => {
                proof {
                    reveal_strlit("quote");
                    assert("quote"@ =~= seq!['q', 'u', 'o', 't', 'e']);
                }
                let w = two_list(MalType::Symbol("quote".to_owned()), f);
                ParseResult::Parsed(w, e)
            },
            ParseResult::NoMatch => parse_atom(s, n, i),
            ParseResult::Malformed => ParseResult::Malformed,
        }
    } else if c == '`' {
        match parse_form(s, n, i + 1) {
            ParseResult::Parsed(f, e) => {
                proof {
                    reveal_strlit("quasiquote");
                    assert("quasiquote"@ =~= seq!['q', 'u', 'a', 's', 'i', 'q', 'u', 'o', 't', 'e']);
                }
                let w = two_list(MalType::Symbol("quasiquote".to_owned()), f);
                ParseResult::Parsed(w, e)
            },
            ParseResult::NoMatch => parse_atom(s, n, i),
            ParseResult::Malformed => ParseResult::Malformed,
        }
    } else if c == '~' {
        let splicing = i + 1 < n && s.get_char(i + 1) == '@';
        if splicing {
            match parse_form(s, n, i + 2) {
                ParseResult::Parsed(f, e) => {
                    proof {
                        reveal_strlit("splice-unquote");
                        assert("splice-unquote"@ =~= seq![
                            's', 'p', 'l', 'i', 'c', 'e', '-', 'u', 'n', 'q', 'u', 'o', 't', 'e',
                        ]);
                    }
                    let w = two_list(MalType::Symbol("splice-unquote".to_owned()), f);
                    ParseResult::Parsed(w, e)
                },
                ParseResult::NoMatch => parse_unquote(s, n, i),
                ParseResult::Malformed => ParseResult::Malformed,
            }
        } else {
            parse_unquote(s, n, i)
        }
    } else {
        parse_atom(s, n, i)
    }
}

/// The plain-unquote alternative at a `~`.
fn parse_unquote(s: &str, n: usize, i: usize) -> (r: ParseResult)
    requires
        n as int == s@.len(),
        i < n,
    ensures
        (match r {
            ParseResult::Parsed(v, e) => parse_unquote_at(s@, i as int) == ParseOut::Parsed(v@, e as int) && e <= n,
            ParseResult::NoMatch => parse_unquote_at(s@, i as int) == ParseOut::NoMatch,
            ParseResult::Malformed => parse_unquote_at(s@, i as int) == ParseOut::Malformed,
        }),
    decreases n - i, 0int,
{
    match parse_form(s, n, i + 1) {
        ParseResult::Parsed(f, e) => {
            proof {
                reveal_strlit("unquote");
                assert("unquote"@ =~= seq!['u', 'n', 'q', 'u', 'o', 't', 'e']);
            }
            let w = two_list(MalType::Symbol("unquote".to_owned()), f);
            ParseResult::Parsed(w, e)
        },
        ParseResult::NoMatch => parse_atom(s, n, i),
        ParseResult::Malformed => ParseResult::Malformed,
    }
}

/// The children of a composite from `i` up to `close`, as
/// [`parse_body_at`] says: the parsed children and the position after the
/// closing delimiter, or `None` on a hard failure.
fn parse_seq(s: &str, n: usize, i: usize, close: char) -> (r: Option<(Vec<MalType>, usize)>)
    requires
        n as int == s@.len(),
    ensures
        (match r {
            Some((xs, e)) => parse_body_at(s@, i as int, close) == Some((views_of(xs@), e as int))
                && e <= n,
            None => parse_body_at(s@, i as int, close) is None,
        }),
    decreases n - i, 2int,
{
    let mut elems: Vec<MalType> = Vec::new();
    let mut j: usize = i;
    proof {
        assert(views_of(elems@) =~= Seq::<Form>::empty());
        assert(parse_body_at(s@, i as int, close) == with_children(
            views_of(elems@),
            parse_body_at(s@, j as int, close),
        ));
    }
    loop
        invariant
            n as int == s@.len(),
            i <= j,
            parse_body_at(s@, i as int, close) == with_children(
                views_of(elems@),
                parse_body_at(s@, j as int, close),
            ),
        decreases n - j,
    {
        if j >= n {
            return None;
        }
        let c = s.get_char(j);
        if sep_char(c) {
            j = j + 1;
            continue;
        }
        if c == close {
            proof {
                assert(views_of(elems@) + Seq::<Form>::empty() =~= views_of(elems@));
            }
            return Some((elems, j + 1));
        }
        match parse_form(s, n, j) {
            ParseResult::Parsed(v, e) => {
                proof {
                    lemma_parse_consumes(s@, j as int);
                }
                let ghost prev = views_of(elems@);
                let ghost gv = v@;
                elems.push(v);
                proof {
                    assert(views_of(elems@) =~= prev.push(gv));
                    match parse_body_at(s@, e as int, close) {
                        Some((xs, e2)) => {
                            assert(prev + (seq![gv] + xs) =~= prev.push(gv) + xs);
                        },
                        None => {},
                    }
                }
                j = e;
            },
            ParseResult::NoMatch => {
                return None;
            },
            ParseResult::Malformed => {
                return None;
            },
        }
    }
}

/// Position of the first non-blank character of `s`.
fn skip_blanks(s: &str, n: usize) -> (r: usize)
    requires
        n as int == s@.len(),
    ensures
        r as int == skip_blank(s@, 0),
        r <= n,
{
    let mut k: usize = 0;
    loop
        invariant
            n as int == s@.len(),
            k <= n,
            skip_blank(s@, 0) == skip_blank(s@, k as int),
        decreases n - k,
    {
        if k >= n {
            return k;
        }
        let c = s.get_char(k);
        if !blank_char(c) {
            return k;
        }
        k = k + 1;
    }
}

/// Parses the single leading form of `s`, after leading blanks; content
/// after that form is ignored.
///
/// Returns `Ok` exactly when the ghost parser finds a form there, and that
/// form is the view of the returned value; otherwise (no form present,
/// unbalanced delimiter, unterminated string, stray closing delimiter) it
/// returns `Err` with no partial result.
pub fn read_str(s: String) -> (r: Result<MalType, ReaderError>)
    ensures
        (match r {
            Ok(v) => parse_form_at(s@, skip_blank(s@, 0)) matches ParseOut::Parsed(f, e) && v@
                == f,
            Err(_) => !(parse_form_at(s@, skip_blank(s@, 0)) is Parsed),
        }),
{
    let n = s.as_str().unicode_len();
    let j = skip_blanks(s.as_str(), n);
    match parse_form(s.as_str(), n, j) {
        ParseResult::Parsed(v, _e) => Ok(v),
        ParseResult::NoMatch => Err(ReaderError {  }),
        ParseResult::Malformed => Err(ReaderError {  }),
    }
}

} // verus!
