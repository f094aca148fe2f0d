//! The laws tying the reader and the printer together.
//!
//! The central one is the round-trip law: reading the readable print of a
//! value yields that value back ([`lemma_read_print_round_trip`]). It holds
//! for every value whose symbol and keyword payloads actually survive the
//! concrete syntax ([`reads_back`]); a symbol named `nil`, one that looks
//! like a number, or one starting with a reader-macro sigil prints as text
//! that denotes something else, and such values are excluded.

use vstd::prelude::*;

use crate::printer::dec_digits;
use crate::printer::digit_char;
use crate::printer::escaped;
use crate::printer::escaped_char;
use crate::printer::escaped_from;
use crate::printer::rendered;
use crate::printer::rendered_tail;
use crate::reader::digits_end;
use crate::reader::dec_val;
use crate::reader::int_run;
use crate::reader::is_digit;
use crate::reader::is_sep;
use crate::reader::is_symbol_char;
use crate::reader::parse_atom_at;
use crate::reader::parse_body_at;
use crate::reader::parse_form_at;
use crate::reader::skip_blank;
use crate::reader::string_body;
use crate::reader::sym_end;
use crate::reader::text_at;
use crate::reader::ParseOut;
use crate::types::Form;

verus! {

/// Characters that may legitimately follow a printed form inside a
/// composite: a separator or a closing delimiter.
pub open spec fn boundary_char(c: char) -> bool {
    is_sep(c) || c == ')' || c == ']'
}

/// Whether `w` is a prefix of `s`.
pub open spec fn has_prefix(s: Seq<char>, w: Seq<char>) -> bool {
    w.len() <= s.len() && s.subrange(0, w.len() as int) == w
}

/// A symbol payload that the reader parses back as the same symbol: made of
/// symbol characters, not starting like a keyword, string, number or
/// reader-macro sigil, and not shadowed by the `nil`/`true`/`false`
/// literals (which match as prefixes).
pub open spec fn symbol_reads_back(s: Seq<char>) -> bool {
    &&& s.len() > 0
    &&& forall|k: int| 0 <= k < s.len() ==> is_symbol_char(#[trigger] s[k])
    &&& s[0] != ':'
    &&& s[0] != '"'
    &&& s[0] != '\''
    &&& s[0] != '`'
    &&& s[0] != '~'
    &&& !is_digit(s[0])
    &&& !(s[0] == '-' && s.len() > 1 && is_digit(s[1]))
    &&& !has_prefix(s, seq!['n', 'i', 'l'])
    &&& !has_prefix(s, seq!['t', 'r', 'u', 'e'])
    &&& !has_prefix(s, seq!['f', 'a', 'l', 's', 'e'])
}

/// A keyword payload that parses back: nonempty and made of symbol
/// characters (the leading `:` shields it from every other rule).
pub open spec fn keyword_reads_back(s: Seq<char>) -> bool {
    s.len() > 0 && forall|k: int| 0 <= k < s.len() ==> is_symbol_char(#[trigger] s[k])
}

/// Values whose readable print parses back to the value itself.
///
/// String payloads are unrestricted: the readable escaping covers every
/// character. Integers must carry 64-bit values (views of tree values
/// always do).
pub open spec fn reads_back(v: Form) -> bool
    decreases v, 0int,
{
    match v {
        Form::Nil => true,
        Form::Bool(_) => true,
        Form::Int(n) => i64::MIN <= n <= i64::MAX,
        Form::Str(_) => true,
        Form::Symbol(s) => symbol_reads_back(s),
        Form::Keyword(s) => keyword_reads_back(s),
        Form::List(xs) => children_read_back(xs, 0),
        Form::Vector(xs) => children_read_back(xs, 0),
    }
}

/// All children from index `k` on read back.
pub open spec fn children_read_back(xs: Seq<Form>, k: int) -> bool
    decreases xs, xs.len() - k + 1,
{
    if k < 0 || k >= xs.len() {
        true
    } else {
        reads_back(xs[k]) && children_read_back(xs, k + 1)
    }
}

/// Decimal digit text is made of digits.
proof fn lemma_dec_digits_all(n: nat)
    ensures
        dec_digits(n).len() >= 1,
        forall|k: int| 0 <= k < dec_digits(n).len() ==> is_digit(#[trigger] dec_digits(n)[k]),
    decreases n,
{
    if n >= 10 {
        lemma_dec_digits_all(n / 10);
    }
}

/// Reading the decimal digits of `n` back as a number gives `n`.
proof fn lemma_dec_digits_val(s: Seq<char>, j: int, n: nat)
    requires
        0 <= j,
        j + dec_digits(n).len() <= s.len(),
        s.subrange(j, j + dec_digits(n).len() as int) == dec_digits(n),
    ensures
        dec_val(s, j, j + dec_digits(n).len() as int) == n,
    decreases n,
{
    let w = dec_digits(n);
    let l = w.len() as int;
    assert(s.subrange(j, j + l)[l - 1] == w[l - 1]);
    if n < 10 {
        assert(dec_val(s, j, j + 1) == dec_val(s, j, j) * 10 + crate::reader::digit_val(s[j]));
        assert(s[j] == digit_char(n as int));
    } else {
        let w0 = dec_digits(n / 10);
        let l0 = w0.len() as int;
        assert(s.subrange(j, j + l0) =~= w0) by {
            assert forall|k: int| 0 <= k < l0 implies s.subrange(j, j + l0)[k] == w0[k] by {
                assert(s.subrange(j, j + l)[k] == w[k]);
            }
        }
        lemma_dec_digits_val(s, j, n / 10);
        assert(s[j + l - 1] == digit_char((n % 10) as int));
        assert(dec_val(s, j, j + l) == dec_val(s, j, j + l - 1) * 10 + crate::reader::digit_val(
            s[j + l - 1],
        ));
        assert((n / 10) * 10 + n % 10 == n) by {
            vstd::arithmetic::div_mod::lemma_fundamental_div_mod(n as int, 10);
        }
    }
}

/// A run of digits followed by a non-digit (or the end) is exactly what
/// `digits_end` spans.
proof fn lemma_digits_run_end(s: Seq<char>, j: int, e: int)
    requires
        0 <= j <= e <= s.len(),
        forall|m: int| j <= m < e ==> is_digit(#[trigger] s[m]),
        e == s.len() || !is_digit(s[e]),
    ensures
        digits_end(s, j) == e,
    decreases e - j,
{
    if j < e {
        lemma_digits_run_end(s, j + 1, e);
    }
}

/// A run of symbol characters followed by a non-symbol character (or the
/// end) is exactly what `sym_end` spans.
proof fn lemma_sym_run_end(s: Seq<char>, j: int, e: int)
    requires
        0 <= j <= e <= s.len(),
        forall|m: int| j <= m < e ==> is_symbol_char(#[trigger] s[m]),
        e == s.len() || !is_symbol_char(s[e]),
    ensures
        sym_end(s, j) == e,
    decreases e - j,
{
    if j < e {
        lemma_sym_run_end(s, j + 1, e);
    }
}

/// A printed form is nonempty and starts with neither a separator nor a
/// closing delimiter.
proof fn lemma_rendered_head(v: Form)
    requires
        reads_back(v),
    ensures
        rendered(v, true).len() > 0,
        !is_sep(rendered(v, true)[0]),
        rendered(v, true)[0] != ')',
        rendered(v, true)[0] != ']',
{
    match v {
        Form::Int(n) => {
            if n >= 0 {
                lemma_dec_digits_all(n as nat);
                assert(is_digit(rendered(v, true)[0]));
            } else {
                lemma_dec_digits_all((-n) as nat);
            }
        },
        _ => {},
    }
}

/// `text_at` cannot hold where the first characters differ.
proof fn lemma_head_mismatch(s: Seq<char>, i: int, w: Seq<char>)
    requires
        0 <= i < s.len(),
        w.len() > 0,
        s[i] != w[0],
    ensures
        !text_at(s, i, w),
{
    if text_at(s, i, w) {
        assert(s.subrange(i, i + w.len() as int)[0] == w[0]);
    }
}

/// A printed symbol payload, followed by a boundary, matches none of the
/// literal words the grammar tries first.
proof fn lemma_sym_no_literal(s: Seq<char>, i: int, p: Seq<char>, w: Seq<char>)
    requires
        0 <= i,
        i + p.len() <= s.len(),
        p.len() > 0,
        s.subrange(i, i + p.len() as int) == p,
        i + p.len() == s.len() || boundary_char(s[i + p.len()]),
        !has_prefix(p, w),
        w.len() > 0,
        forall|k: int| 0 <= k < w.len() ==> is_symbol_char(#[trigger] w[k]),
    ensures
        !text_at(s, i, w),
{
    if text_at(s, i, w) {
        if w.len() <= p.len() {
            assert(p.subrange(0, w.len() as int) =~= w) by {
                assert forall|k: int| 0 <= k < w.len() implies p.subrange(0, w.len() as int)[k]
                    == w[k] by {
                    assert(s.subrange(i, i + p.len() as int)[k] == p[k]);
                    assert(s.subrange(i, i + w.len() as int)[k] == w[k]);
                }
            }
        } else {
            let b = p.len() as int;
            assert(s.subrange(i, i + w.len() as int)[b] == w[b]);
            assert(is_symbol_char(s[i + b]));
        }
    }
}

/// Parsing the escaped print of a payload suffix recovers that suffix.
proof fn lemma_escape_parse(s: Seq<char>, i: int, p: Seq<char>, k: int)
    requires
        0 <= k <= p.len(),
        0 <= i,
        i + escaped_from(p, k).len() + 1 <= s.len(),
        s.subrange(i, i + escaped_from(p, k).len() + 1) == escaped_from(p, k) + seq!['"'],
    ensures
        string_body(s, i) == Some((p.subrange(k, p.len() as int), i + escaped_from(p, k).len() + 1)),
    decreases p.len() - k,
{
    let w = escaped_from(p, k);
    let l = w.len() as int;
    if k == p.len() {
        assert(s.subrange(i, i + 1)[0] == (w + seq!['"'])[0]);
        assert(s[i] == '"');
        assert(p.subrange(k, p.len() as int) =~= Seq::<char>::empty());
    } else {
        let c = p[k];
        let ec = escaped_char(c);
        let le = ec.len() as int;
        let w1 = escaped_from(p, k + 1);
        assert(w == ec + w1);
        assert(s.subrange(i, i + l + 1)[0] == (w + seq!['"'])[0]);
        assert(s[i] == ec[0]);
        if le >= 2 {
            assert(s.subrange(i, i + l + 1)[1] == (w + seq!['"'])[1]);
            assert(s[i + 1] == ec[1]);
        }
        assert(s.subrange(i + le, i + le + w1.len() + 1) =~= w1 + seq!['"']) by {
            assert forall|m: int| 0 <= m < w1.len() + 1 implies s.subrange(
                i + le,
                i + le + w1.len() + 1,
            )[m] == (w1 + seq!['"'])[m] by {
                assert(s[i + le + m] == (w + seq!['"'])[le + m]);
            }
        }
        lemma_escape_parse(s, i + le, p, k + 1);
        let t1 = p.subrange(k + 1, p.len() as int);
        if c == '\\' || c == '\n' || c == '"' {
            assert(s[i] == '\\');
            assert(s[i + 1] == ec[1]);
            assert(seq![c] + t1 =~= p.subrange(k, p.len() as int));
        } else {
            assert(s[i] == c);
            assert(seq![c] + t1 =~= p.subrange(k, p.len() as int));
        }
    }
}

/// One character of an embedded text, read off the enclosing text.
proof fn lemma_embed_char(s: Seq<char>, i: int, t: Seq<char>, m: int)
    requires
        0 <= i,
        i + t.len() <= s.len(),
        s.subrange(i, i + t.len() as int) == t,
        0 <= m < t.len(),
    ensures
        s[i + m] == t[m],
{
    assert(s.subrange(i, i + t.len() as int)[m] == t[m]);
}

/// A sub-stretch of an embedded text, read off the enclosing text.
proof fn lemma_embed_sub(s: Seq<char>, i: int, t: Seq<char>, a: int, b: int)
    requires
        0 <= i,
        i + t.len() <= s.len(),
        s.subrange(i, i + t.len() as int) == t,
        0 <= a <= b <= t.len(),
    ensures
        s.subrange(i + a, i + b) == t.subrange(a, b),
{
    assert(s.subrange(i + a, i + b) =~= t.subrange(a, b)) by {
        assert forall|m: int| 0 <= m < b - a implies s.subrange(i + a, i + b)[m] == t.subrange(
            a,
            b,
        )[m] by {
            assert(s.subrange(i, i + t.len() as int)[a + m] == t[a + m]);
        }
    }
}

/// A boundary character is neither a digit nor a symbol character.
proof fn lemma_boundary(c: char)
    requires
        boundary_char(c),
    ensures
        !is_digit(c),
        !is_symbol_char(c),
{
}

/// Parsing the printed text of an atom, at its position in a larger text,
/// yields the atom.
proof fn lemma_print_parse_atom(s: Seq<char>, i: int, v: Form)
    requires
        reads_back(v),
        !(v is List),
        !(v is Vector),
        0 <= i,
        i + rendered(v, true).len() <= s.len(),
        s.subrange(i, i + rendered(v, true).len() as int) == rendered(v, true),
        i + rendered(v, true).len() == s.len() || boundary_char(s[i + rendered(v, true).len()]),
    ensures
        parse_atom_at(s, i) == ParseOut::Parsed(v, i + rendered(v, true).len()),
{
    let t = rendered(v, true);
    let l = t.len() as int;
    lemma_rendered_head(v);
    lemma_embed_char(s, i, t, 0);
    match v {
        Form::Nil => {
        },
        Form::Bool(b) => {
            if b {
                lemma_head_mismatch(s, i, seq!['n', 'i', 'l']);
            } else {
                lemma_head_mismatch(s, i, seq!['n', 'i', 'l']);
                lemma_head_mismatch(s, i, seq!['t', 'r', 'u', 'e']);
            }
        },
        Form::Int(n) => {
            if i + l < s.len() {
                lemma_boundary(s[i + l]);
            }
            if n >= 0 {
                lemma_dec_digits_all(n as nat);
                assert(t == dec_digits(n as nat));
                assert(is_digit(t[0]));
            } else {
                assert(t == seq!['-'] + dec_digits((-n) as nat));
                assert(t[0] == '-');
            }
            lemma_head_mismatch(s, i, seq!['n', 'i', 'l']);
            lemma_head_mismatch(s, i, seq!['t', 'r', 'u', 'e']);
            lemma_head_mismatch(s, i, seq!['f', 'a', 'l', 's', 'e']);
            if n < 0 {
                let w = dec_digits((-n) as nat);
                lemma_dec_digits_all((-n) as nat);
                assert(t == seq!['-'] + w);
                assert forall|m: int| i + 1 <= m < i + l implies is_digit(#[trigger] s[m]) by {
                    lemma_embed_char(s, i, t, m - i);
                    assert(t[m - i] == w[m - i - 1]);
                }
                lemma_digits_run_end(s, i + 1, i + l);
                lemma_embed_sub(s, i, t, 1, l);
                assert(t.subrange(1, l) =~= w);
                lemma_dec_digits_val(s, i + 1, (-n) as nat);
                assert(int_run(s, i) == Some((n, i + l)));
            } else {
                let w = dec_digits(n as nat);
                lemma_dec_digits_all(n as nat);
                assert(t == w);
                assert forall|m: int| i <= m < i + l implies is_digit(#[trigger] s[m]) by {
                    lemma_embed_char(s, i, t, m - i);
                }
                assert(is_digit(s[i]));
                assert(s[i] != '-');
                lemma_digits_run_end(s, i, i + l);
                lemma_dec_digits_val(s, i, n as nat);
                assert(int_run(s, i) == Some((n, i + l)));
            }
        },
        Form::Str(p) => {
            lemma_head_mismatch(s, i, seq!['n', 'i', 'l']);
            lemma_head_mismatch(s, i, seq!['t', 'r', 'u', 'e']);
            lemma_head_mismatch(s, i, seq!['f', 'a', 'l', 's', 'e']);
            let w = escaped(p);
            assert(t == seq!['"'] + w + seq!['"']);
            assert(s[i] == '"');
            assert(int_run(s, i) is None);
            lemma_embed_sub(s, i, t, 1, l);
            assert(t.subrange(1, l) =~= w + seq!['"']);
            lemma_escape_parse(s, i + 1, p, 0);
            assert(p.subrange(0, p.len() as int) =~= p);
            assert(string_body(s, i + 1) == Some((p, i + l)));
        },
        Form::Symbol(p) => {
            assert(t == p);
            let wn: Seq<char> = seq!['n', 'i', 'l'];
            assert forall|k: int| 0 <= k < wn.len() implies is_symbol_char(#[trigger] wn[k]) by {
                if k == 0 {
                    assert(wn[k] == 'n');
                } else if k == 1 {
                    assert(wn[k] == 'i');
                } else {
                    assert(wn[k] == 'l');
                }
            }
            lemma_sym_no_literal(s, i, p, wn);
            let wt: Seq<char> = seq!['t', 'r', 'u', 'e'];
            assert forall|k: int| 0 <= k < wt.len() implies is_symbol_char(#[trigger] wt[k]) by {
                if k == 0 {
                    assert(wt[k] == 't');
                } else if k == 1 {
                    assert(wt[k] == 'r');
                } else if k == 2 {
                    assert(wt[k] == 'u');
                } else {
                    assert(wt[k] == 'e');
                }
            }
            lemma_sym_no_literal(s, i, p, wt);
            let wf: Seq<char> = seq!['f', 'a', 'l', 's', 'e'];
            assert forall|k: int| 0 <= k < wf.len() implies is_symbol_char(#[trigger] wf[k]) by {
                if k == 0 {
                    assert(wf[k] == 'f');
                } else if k == 1 {
                    assert(wf[k] == 'a');
                } else if k == 2 {
                    assert(wf[k] == 'l');
                } else if k == 3 {
                    assert(wf[k] == 's');
                } else {
                    assert(wf[k] == 'e');
                }
            }
            lemma_sym_no_literal(s, i, p, wf);
            if i + l < s.len() {
                lemma_boundary(s[i + l]);
            }
            // no integer matches here
            if s[i] == '-' {
                if p.len() > 1 {
                    lemma_embed_char(s, i, t, 1);
                    assert(!is_digit(s[i + 1]));
                    assert(digits_end(s, i + 1) == i + 1);
                } else {
                    assert(digits_end(s, i + 1) == i + 1);
                }
            } else {
                assert(!is_digit(s[i]));
                assert(digits_end(s, i) == i);
            }
            assert(int_run(s, i) is None);
            assert forall|m: int| i <= m < i + l implies is_symbol_char(#[trigger] s[m]) by {
                lemma_embed_char(s, i, t, m - i);
            }
            lemma_sym_run_end(s, i, i + l);
            assert(parse_atom_at(s, i) == ParseOut::Parsed(
                Form::Symbol(s.subrange(i, i + l)),
                i + l,
            ));
        },
        Form::Keyword(p) => {
            assert(t == seq![':'] + p);
            assert(s[i] == ':');
            lemma_head_mismatch(s, i, seq!['n', 'i', 'l']);
            lemma_head_mismatch(s, i, seq!['t', 'r', 'u', 'e']);
            lemma_head_mismatch(s, i, seq!['f', 'a', 'l', 's', 'e']);
            assert(!is_digit(s[i]));
            assert(digits_end(s, i) == i);
            assert(int_run(s, i) is None);
            if i + l < s.len() {
                lemma_boundary(s[i + l]);
            }
            assert forall|m: int| i + 1 <= m < i + l implies is_symbol_char(#[trigger] s[m]) by {
                lemma_embed_char(s, i, t, m - i);
                assert(t[m - i] == p[m - i - 1]);
            }
            lemma_sym_run_end(s, i + 1, i + l);
            lemma_embed_sub(s, i, t, 1, l);
            assert(t.subrange(1, l) =~= p);
            assert(parse_atom_at(s, i) == ParseOut::Parsed(
                Form::Keyword(s.subrange(i + 1, i + l)),
                i + l,
            ));
        },
        _ => {},
    }
}

/// Parsing the printed text of a value, at its position in a larger text
/// and followed by a boundary, yields the value.
proof fn lemma_print_parse(s: Seq<char>, i: int, v: Form)
    requires
        reads_back(v),
        0 <= i,
        i + rendered(v, true).len() <= s.len(),
        s.subrange(i, i + rendered(v, true).len() as int) == rendered(v, true),
        i + rendered(v, true).len() == s.len() || boundary_char(s[i + rendered(v, true).len()]),
    ensures
        parse_form_at(s, i) == ParseOut::Parsed(v, i + rendered(v, true).len()),
    decreases v, 0int,
{
    let t = rendered(v, true);
    let l = t.len() as int;
    lemma_rendered_head(v);
    lemma_embed_char(s, i, t, 0);
    match v {
        Form::List(xs) => {
            assert(s[i] == '(');
            if xs.len() == 0 {
                assert(t == seq!['(', ')']);
                lemma_embed_char(s, i, t, 1);
                assert(s[i + 1] == ')');
                assert(parse_body_at(s, i + 1, ')') == Some((Seq::<Form>::empty(), i + 2)));
                assert(xs =~= Seq::<Form>::empty());
            } else {
                let r0 = rendered(xs[0], true);
                let tl = rendered_tail(xs, 1);
                assert(t == seq!['('] + r0 + tl + seq![')']);
                lemma_embed_sub(s, i, t, 1, l);
                assert(t.subrange(1, l) =~= r0 + tl + seq![')']);
                lemma_print_parse_children(s, i + 1, xs, 0, ')');
                assert(xs.subrange(0, xs.len() as int) =~= xs);
            }
        },
        Form::Vector(xs) => {
            assert(s[i] == '[');
            if xs.len() == 0 {
                assert(t == seq!['[', ']']);
                lemma_embed_char(s, i, t, 1);
                assert(s[i + 1] == ']');
                assert(parse_body_at(s, i + 1, ']') == Some((Seq::<Form>::empty(), i + 2)));
                assert(xs =~= Seq::<Form>::empty());
            } else {
                let r0 = rendered(xs[0], true);
                let tl = rendered_tail(xs, 1);
                assert(t == seq!['['] + r0 + tl + seq![']']);
                lemma_embed_sub(s, i, t, 1, l);
                assert(t.subrange(1, l) =~= r0 + tl + seq![']']);
                lemma_print_parse_children(s, i + 1, xs, 0, ']');
                assert(xs.subrange(0, xs.len() as int) =~= xs);
            }
        },
        Form::Symbol(p) => {
            assert(s[i] != '(' && s[i] != '[' && s[i] != '\'' && s[i] != '`' && s[i] != '~');
            lemma_print_parse_atom(s, i, v);
        },
        _ => {
            lemma_print_parse_atom(s, i, v);
        },
    }
}

/// Parsing a printed child sequence (each child but the first preceded by
/// one space) followed by the closing delimiter yields those children.
proof fn lemma_print_parse_children(s: Seq<char>, j: int, xs: Seq<Form>, k: int, close: char)
    requires
        0 <= k < xs.len(),
        children_read_back(xs, k),
        close == ')' || close == ']',
        0 <= j,
        j + rendered(xs[k], true).len() + rendered_tail(xs, k + 1).len() + 1 <= s.len(),
        s.subrange(
            j,
            j + rendered(xs[k], true).len() + rendered_tail(xs, k + 1).len() + 1,
        ) == rendered(xs[k], true) + rendered_tail(xs, k + 1) + seq![close],
    ensures
        parse_body_at(s, j, close) == Some(
            (
                xs.subrange(k, xs.len() as int),
                j + rendered(xs[k], true).len() + rendered_tail(xs, k + 1).len() + 1,
            ),
        ),
    decreases xs, xs.len() - k + 1,
{
    let r0 = rendered(xs[k], true);
    let tl = rendered_tail(xs, k + 1);
    let big = r0 + tl + seq![close];
    let total = big.len() as int;
    assert(reads_back(xs[k]));
    lemma_rendered_head(xs[k]);
    let e = j + r0.len() as int;
    lemma_embed_sub(s, j, big, 0, r0.len() as int);
    assert(big.subrange(0, r0.len() as int) =~= r0);
    lemma_embed_char(s, j, big, 0);
    assert(s[j] == r0[0]);
    lemma_embed_char(s, j, big, r0.len() as int);
    if k + 1 < xs.len() {
        let r1 = rendered(xs[k + 1], true);
        let t2 = rendered_tail(xs, k + 2);
        assert(tl == seq![' '] + r1 + t2);
        assert(big[r0.len() as int] == ' ');
        assert(s[e] == ' ');
        lemma_print_parse(s, j, xs[k]);
        lemma_embed_sub(s, j, big, r0.len() as int + 1, total);
        assert(big.subrange(r0.len() as int + 1, total) =~= r1 + t2 + seq![close]);
        lemma_print_parse_children(s, e + 1, xs, k + 1, close);
        assert(parse_body_at(s, e, close) == parse_body_at(s, e + 1, close));
        assert(seq![xs[k]] + xs.subrange(k + 1, xs.len() as int) =~= xs.subrange(
            k,
            xs.len() as int,
        ));
    } else {
        assert(tl =~= Seq::<char>::empty());
        assert(big[r0.len() as int] == close);
        assert(s[e] == close);
        lemma_print_parse(s, j, xs[k]);
        assert(parse_body_at(s, e, close) == Some((Seq::<Form>::empty(), e + 1)));
        assert(seq![xs[k]] + Seq::<Form>::empty() =~= xs.subrange(k, xs.len() as int));
    }
}

/// The round-trip law: for every value that reads back, parsing the
/// readable print from the start yields exactly the value, consuming the
/// whole text. Together with the contracts of the executable reader and
/// printer this says `read(print(v, true)) == Ok(v)`.
pub proof fn lemma_read_print_round_trip(v: Form)
    requires
        reads_back(v),
    ensures
        skip_blank(rendered(v, true), 0) == 0,
        parse_form_at(rendered(v, true), 0) == ParseOut::Parsed(v, rendered(v, true).len() as int),
{
    let t = rendered(v, true);
    lemma_rendered_head(v);
    assert(t.subrange(0, t.len() as int) =~= t);
    lemma_print_parse(t, 0, v);
}

/// Printing is pure: the text is a function of the value and the mode
/// alone, so printing the same value twice in the same mode yields
/// identical strings.
pub proof fn lemma_print_deterministic(v: Form, readable: bool, r1: Seq<char>, r2: Seq<char>)
    requires
        r1 == rendered(v, readable),
        r2 == rendered(v, readable),
    ensures
        r1 == r2,
{
}

} // verus!
