//! The printer: renders one tree value to text, with a readable/unreadable
//! mode switch.
//!
//! The ghost function [`rendered`] states the exact output for every `Form`;
//! [`pr_str`] is the executable renderer, proved to return exactly that text.

use vstd::prelude::*;
use vstd::string::StrSliceExecFns;
use vstd::string::StringExecFns;

use crate::types::Form;
use crate::types::MalType;

verus! {

broadcast use vstd::std_specs::vec::axiom_vec_decreases_to_view, vstd::seq::axiom_seq_index_decreases;

/// The decimal digit character for `d` (`0 <= d <= 9`).
pub open spec fn digit_char(d: int) -> char {
    if d == 0 {
        '0'
    } else if d == 1 {
        '1'
    } else if d == 2 {
        '2'
    } else if d == 3 {
        '3'
    } else if d == 4 {
        '4'
    } else if d == 5 {
        '5'
    } else if d == 6 {
        '6'
    } else if d == 7 {
        '7'
    } else if d == 8 {
        '8'
    } else {
        '9'
    }
}

/// Decimal digits of a non-negative integer, most significant first,
/// without leading zeros (`0` renders as `"0"`).
pub open spec fn dec_digits(n: nat) -> Seq<char>
    decreases n,
{
    if n < 10 {
        seq![digit_char(n as int)]
    } else {
        dec_digits(n / 10) + seq![digit_char((n % 10) as int)]
    }
}

/// Decimal rendering of an integer: leading `-` for negatives, no leading
/// zeros, no grouping.
pub open spec fn int_chars(n: int) -> Seq<char> {
    if n < 0 {
        seq!['-'] + dec_digits((-n) as nat)
    } else {
        dec_digits(n as nat)
    }
}

/// The readable rendering of one string-payload character: backslash,
/// newline and double quote get a two-character escape, everything else
/// stands verbatim.
pub open spec fn escaped_char(c: char) -> Seq<char> {
    if c == '\\' {
        seq!['\\', '\\']
    } else if c == '\n' {
        seq!['\\', 'n']
    } else if c == '"' {
        seq!['\\', '"']
    } else {
        seq![c]
    }
}

/// Readable escaping of the payload suffix starting at index `k`.
pub open spec fn escaped_from(s: Seq<char>, k: int) -> Seq<char>
    decreases s.len() - k,
{
    if k < 0 || k >= s.len() {
        Seq::empty()
    } else {
        escaped_char(s[k]) + escaped_from(s, k + 1)
    }
}

/// Readable escaping of a whole string payload.
pub open spec fn escaped(s: Seq<char>) -> Seq<char> {
    escaped_from(s, 0)
}

/// Rendering of the children `xs[k..]`, each preceded by a single space;
/// every child is rendered in readable mode regardless of the outer mode.
pub open spec fn rendered_tail(xs: Seq<Form>, k: int) -> Seq<char>
    decreases xs, xs.len() - k,
{
    if k < 0 || k >= xs.len() {
        Seq::empty()
    } else {
        seq![' '] + rendered(xs[k], true) + rendered_tail(xs, k + 1)
    }
}

/// The text the printer produces for `v`.
///
/// In unreadable mode a string payload is inserted verbatim between the
/// quotes; in readable mode it is escaped so that the output re-parses.
/// Children of composites always render in readable mode and are joined by
/// a single space.
pub open spec fn rendered(v: Form, readable: bool) -> Seq<char>
    decreases v, 0int,
{
    match v {
        Form::Nil => seq!['n', 'i', 'l'],
        Form::Bool(b) => if b {
            seq!['t', 'r', 'u', 'e']
        } else {
            seq!['f', 'a', 'l', 's', 'e']
        },
        Form::Int(n) => int_chars(n),
        Form::Str(s) => if readable {
            seq!['"'] + escaped(s) + seq!['"']
        } else {
            seq!['"'] + s + seq!['"']
        },
        Form::Symbol(s) => s,
        Form::Keyword(s) => seq![':'] + s,
        Form::List(xs) => if xs.len() == 0 {
            seq!['(', ')']
        } else {
            seq!['('] + rendered(xs[0], true) + rendered_tail(xs, 1) + seq![')']
        },
        Form::Vector(xs) => if xs.len() == 0 {
            seq!['[', ']']
        } else {
            seq!['['] + rendered(xs[0], true) + rendered_tail(xs, 1) + seq![']']
        },
    }
}

/// A one-character string holding the decimal digit `d`.
fn digit_string(d: u64) -> (r: String)
    requires
        d < 10,
    ensures
        r@ == seq![digit_char(d as int)],
{
    proof {
        reveal_strlit("0");
        reveal_strlit("1");
        reveal_strlit("2");
        reveal_strlit("3");
        reveal_strlit("4");
        reveal_strlit("5");
        reveal_strlit("6");
        reveal_strlit("7");
        reveal_strlit("8");
        reveal_strlit("9");
    }
    let r = if d == 0 {
        "0".to_owned()
    } else if d == 1 {
        "1".to_owned()
    } else if d == 2 {
        "2".to_owned()
    } else if d == 3 {
        "3".to_owned()
    } else if d == 4 {
        "4".to_owned()
    } else if d == 5 {
        "5".to_owned()
    } else if d == 6 {
        "6".to_owned()
    } else if d == 7 {
        "7".to_owned()
    } else if d == 8 {
        "8".to_owned()
    } else {
        "9".to_owned()
    };
    proof {
        assert(r@ =~= seq![digit_char(d as int)]);
    }
    r
}

/// Decimal digits of `m`, most significant first.
fn pr_digits(m: u64) -> (r: String)
    ensures
        r@ == dec_digits(m as nat),
    decreases m,
{
    if m < 10 {
        digit_string(m)
    } else {
        let mut s = pr_digits(m / 10);
        let d = digit_string(m % 10);
        s.append(d.as_str());
        s
    }
}

/// Decimal rendering of a signed integer.
fn pr_int(n: i64) -> (r: String)
    ensures
        r@ == int_chars(n as int),
{
    proof {
        reveal_strlit("-");
    }
    if n < 0 {
        let m: u64 = (-(n as i128)) as u64;
        let mut out = "-".to_owned();
        let d = pr_digits(m);
        out.append(d.as_str());
        proof {
            assert(m as nat == (-(n as int)) as nat);
            assert(out@ =~= int_chars(n as int));
        }
        out
    } else {
        pr_digits(n as u64)
    }
}

/// Readable rendering of a string payload: wrapped in quotes, with
/// backslash, newline and quote escaped.
fn pr_string_readably(input: &String) -> (r: String)
    ensures
        r@ == seq!['"'] + escaped(input@) + seq!['"'],
{
    proof {
        reveal_strlit("\"");
        reveal_strlit("\\\\");
        reveal_strlit("\\n");
        reveal_strlit("\\\"");
    }
    let n = input.as_str().unicode_len();
    let mut out = "\"".to_owned();
    let mut k: usize = 0;
    proof {
        assert(out@ + escaped_from(input@, 0) =~= seq!['"'] + escaped(input@));
    }
    while k < n
        invariant
            n == input@.len(),
            k <= n,
            out@ + escaped_from(input@, k as int) == seq!['"'] + escaped(input@),
        decreases n - k,
    {
        proof {
            reveal_strlit("\\\\");
            reveal_strlit("\\n");
            reveal_strlit("\\\"");
        }
        let ghost prev = out@;
        let c = input.as_str().get_char(k);
        if c == '\\' {
            out.append("\\\\");
        } else if c == '\n' {
            out.append("\\n");
        } else if c == '"' {
            out.append("\\\"");
        } else {
            let piece = input.as_str().substring_char(k, k + 1);
            out.append(piece);
            proof {
                assert(piece@ =~= seq![input@[k as int]]);
            }
        }
        proof {
            assert(out@ =~= prev + escaped_char(input@[k as int]));
            assert(out@ + escaped_from(input@, k + 1) =~= prev + escaped_from(input@, k as int));
        }
        k = k + 1;
    }
    out.append("\"");
    proof {
        assert(out@ =~= seq!['"'] + escaped(input@) + seq!['"']);
    }
    out
}

/// Unreadable (display) rendering of a string payload: wrapped in quotes,
/// payload inserted verbatim.
fn pr_string_unreadably(input: &String) -> (r: String)
    ensures
        r@ == seq!['"'] + input@ + seq!['"'],
{
    proof {
        reveal_strlit("\"");
    }
    let mut out = "\"".to_owned();
    out.append(input.as_str());
    out.append("\"");
    proof {
        assert(out@ =~= seq!['"'] + input@ + seq!['"']);
    }
    out
}

/// Keyword rendering: the stored payload with its `:` sigil re-added.
fn pr_keyword(input: &String) -> (r: String)
    ensures
        r@ == seq![':'] + input@,
{
    proof {
        reveal_strlit(":");
    }
    let mut out = ":".to_owned();
    out.append(input.as_str());
    proof {
        assert(out@ =~= seq![':'] + input@);
    }
    out
}

/// Renders one value to text.
///
/// Returns exactly the text [`rendered`] gives for the value's view: this
/// is the printer's full contract, and it is total over every tree value.
pub fn pr_str(input: &MalType, print_readably: bool) -> (r: String)
    ensures
        r@ == rendered(input@, print_readably),
    decreases *input, 1int,
{
    match input {
        MalType::Nil => {
            proof {
                reveal_strlit("nil");
            }
            let r = "nil".to_owned();
            proof {
                assert(r@ =~= seq!['n', 'i', 'l']);
            }
            r
        },
        MalType::Bool(b) => {
            proof {
                reveal_strlit("true");
                reveal_strlit("false");
            }
            let r = if *b {
                "true".to_owned()
            } else {
                "false".to_owned()
            };
            proof {
                assert(r@ =~= rendered(input@, print_readably));
            }
            r
        },
        MalType::Int(n) => pr_int(*n),
        MalType::Symbol(s) => s.clone(),
        MalType::Keyword(s) => pr_keyword(s),
        MalType::Str(s) => if print_readably {
            pr_string_readably(s)
        } else {
            pr_string_unreadably(s)
        },
        MalType::List(list) => pr_list(list),
        MalType::Vector(vec) => pr_vector(vec),
    }
}

/// List rendering: children in readable mode, joined by one space, in `( )`.
fn pr_list(list: &Vec<MalType>) -> (r: String)
    ensures
        r@ == rendered(MalType::List(*list)@, true),
    decreases *list, 0int,
{
    proof {
        reveal_strlit("(");
        reveal_strlit(")");
        reveal_strlit(" ");
    }
    let ghost vs = MalType::List(*list)@->List_0;
    let mut out = "(".to_owned();
    if list.len() > 0 {
        let first = pr_str(&list[0], true);
        out.append(first.as_str());
        let mut k: usize = 1;
        proof {
            assert(out@ + rendered_tail(vs, 1) + seq![')'] =~= rendered(MalType::List(*list)@, true));
        }
        while k < list.len()
            invariant
                1 <= k <= list.len(),
                vs == MalType::List(*list)@->List_0,
                vs.len() == list.len(),
                out@ + rendered_tail(vs, k as int) + seq![')'] == rendered(MalType::List(*list)@, true),
            decreases list.len() - k,
        {
            proof {
                reveal_strlit(" ");
            }
            let ghost prev = out@;
            out.append(" ");
            let piece = pr_str(&list[k], true);
            out.append(piece.as_str());
            proof {
                assert(vs[k as int] == list@[k as int]@);
                assert(out@ =~= prev + seq![' '] + rendered(vs[k as int], true));
                assert(out@ + rendered_tail(vs, k + 1) =~= prev + rendered_tail(vs, k as int));
                assert(out@ + rendered_tail(vs, k + 1) + seq![')'] =~= prev + rendered_tail(vs, k as int) + seq![')']);
            }
            k = k + 1;
        }
    }
    out.append(")");
    proof {
        assert(out@ =~= rendered(MalType::List(*list)@, true));
    }
    out
}

/// Vector rendering: identical to lists with `[ ]` delimiters.
fn pr_vector(list: &Vec<MalType>) -> (r: String)
    ensures
        r@ == rendered(MalType::Vector(*list)@, true),
    decreases *list, 0int,
{
    proof {
        reveal_strlit("[");
        reveal_strlit("]");
        reveal_strlit(" ");
    }
    let ghost vs = MalType::Vector(*list)@->Vector_0;
    let mut out = "[".to_owned();
    if list.len() > 0 {
        let first = pr_str(&list[0], true);
        out.append(first.as_str());
        let mut k: usize = 1;
        proof {
            assert(out@ + rendered_tail(vs, 1) + seq![']'] =~= rendered(MalType::Vector(*list)@, true));
        }
        while k < list.len()
            invariant
                1 <= k <= list.len(),
                vs == MalType::Vector(*list)@->Vector_0,
                vs.len() == list.len(),
                out@ + rendered_tail(vs, k as int) + seq![']'] == rendered(MalType::Vector(*list)@, true),
            decreases list.len() - k,
        {
            proof {
                reveal_strlit(" ");
            }
            let ghost prev = out@;
            out.append(" ");
            let piece = pr_str(&list[k], true);
            out.append(piece.as_str());
            proof {
                assert(vs[k as int] == list@[k as int]@);
                assert(out@ =~= prev + seq![' '] + rendered(vs[k as int], true));
                assert(out@ + rendered_tail(vs, k + 1) =~= prev + rendered_tail(vs, k as int));
                assert(out@ + rendered_tail(vs, k + 1) + seq![']'] =~= prev + rendered_tail(vs, k as int) + seq![']']);
            }
            k = k + 1;
        }
    }
    out.append("]");
    proof {
        assert(out@ =~= rendered(MalType::Vector(*list)@, true));
    }
    out
}

} // verus!
