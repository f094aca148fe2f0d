use mal::printer::pr_str;
use mal::reader::read_str;
use mal::types::MalType;

fn read(s: &str) -> MalType {
    read_str(s.to_string()).unwrap()
}

#[test]
fn separators_are_interchangeable() {
    let expected = MalType::List(vec![MalType::Int(1), MalType::Int(2), MalType::Int(3)]);
    assert_eq!(read("(1,2,3)"), expected);
    assert_eq!(read("(1 2 3)"), expected);
    assert_eq!(read("( 1   2   3 )"), expected);
}

#[test]
fn adjacent_empty_composites() {
    let expected = MalType::List(vec![MalType::List(vec![]), MalType::List(vec![])]);
    assert_eq!(read("(()())"), expected);
}

#[test]
fn quote_desugars_to_list() {
    let expected = MalType::List(vec![
        MalType::Symbol("quote".to_string()),
        MalType::List(vec![MalType::Int(1), MalType::Int(2)]),
    ]);
    assert_eq!(read("'(1 2)"), expected);
}

#[test]
fn splice_unquote_wins_over_unquote() {
    let expected = MalType::List(vec![
        MalType::Symbol("splice-unquote".to_string()),
        MalType::Symbol("x".to_string()),
    ]);
    assert_eq!(read("~@x"), expected);
}

#[test]
fn unquote_and_quasiquote_desugar() {
    assert_eq!(
        read("~x"),
        MalType::List(vec![
            MalType::Symbol("unquote".to_string()),
            MalType::Symbol("x".to_string()),
        ])
    );
    assert_eq!(
        read("`x"),
        MalType::List(vec![
            MalType::Symbol("quasiquote".to_string()),
            MalType::Symbol("x".to_string()),
        ])
    );
}

#[test]
fn keyword_vs_symbol() {
    assert_eq!(read(":foo"), MalType::Keyword("foo".to_string()));
    assert_eq!(pr_str(&MalType::Keyword("foo".to_string()), true), ":foo");
    assert_eq!(read("foo"), MalType::Symbol("foo".to_string()));
}

#[test]
fn string_escapes_decode_and_reencode() {
    let v = read("\"a\\nb\\\"c\\\\d\"");
    assert_eq!(v, MalType::Str("a\nb\"c\\d".to_string()));
    assert_eq!(pr_str(&v, true), "\"a\\nb\\\"c\\\\d\"");
}

#[test]
fn unreadable_string_is_verbatim() {
    let v = MalType::Str("a\nb\"c\\d".to_string());
    assert_eq!(pr_str(&v, false), "\"a\nb\"c\\d\"");
}

#[test]
fn failure_cases_return_no_partial_result() {
    assert!(read_str("(1 2".to_string()).is_err());
    assert!(read_str("\"abc".to_string()).is_err());
    assert!(read_str("".to_string()).is_err());
    assert!(read_str("   ".to_string()).is_err());
    assert!(read_str(")".to_string()).is_err());
    assert!(read_str("(]".to_string()).is_err());
    assert!(read_str("\"bad \\x escape\"".to_string()).is_err());
    assert!(read_str("'(".to_string()).is_err());
}

#[test]
fn negative_integers() {
    assert_eq!(read("-123"), MalType::Int(-123));
    assert_eq!(pr_str(&MalType::Int(-123), true), "-123");
    assert_eq!(pr_str(&MalType::Int(-123), false), "-123");
}

#[test]
fn integer_bounds_round_trip() {
    assert_eq!(read("9223372036854775807"), MalType::Int(i64::MAX));
    assert_eq!(read("-9223372036854775808"), MalType::Int(i64::MIN));
    assert_eq!(pr_str(&MalType::Int(i64::MIN), true), "-9223372036854775808");
    // a run of digits whose value does not fit is a symbol, not an integer
    assert_eq!(
        read("9223372036854775808"),
        MalType::Symbol("9223372036854775808".to_string())
    );
}

#[test]
fn literal_words() {
    assert_eq!(read("nil"), MalType::Nil);
    assert_eq!(read("true"), MalType::Bool(true));
    assert_eq!(read("false"), MalType::Bool(false));
    assert_eq!(pr_str(&MalType::Nil, true), "nil");
    assert_eq!(pr_str(&MalType::Bool(true), false), "true");
    assert_eq!(pr_str(&MalType::Bool(false), true), "false");
}

#[test]
fn literal_words_match_as_prefixes() {
    // the literal rules commit on a prefix; the rest is trailing content
    assert_eq!(read("nilx"), MalType::Nil);
    assert_eq!(read("truex"), MalType::Bool(true));
    // but a word that only shares a shorter prefix is a symbol
    assert_eq!(read("truthy"), MalType::Symbol("truthy".to_string()));
}

#[test]
fn trailing_content_is_ignored() {
    assert_eq!(read("1 2"), MalType::Int(1));
    assert_eq!(read("  (1) (2)"), MalType::List(vec![MalType::Int(1)]));
}

#[test]
fn round_trip_nested_value() {
    let v = MalType::List(vec![
        MalType::Int(1),
        MalType::Vector(vec![
            MalType::Symbol("+".to_string()),
            MalType::Keyword("k".to_string()),
            MalType::Nil,
        ]),
        MalType::Str("a\nb".to_string()),
        MalType::Bool(false),
        MalType::List(vec![]),
    ]);
    let printed = pr_str(&v, true);
    assert_eq!(printed, "(1 [+ :k nil] \"a\\nb\" false ())");
    assert_eq!(read_str(printed).unwrap(), v);
}

#[test]
fn round_trip_negative_int_in_vector() {
    let v = MalType::Vector(vec![MalType::Int(-42), MalType::Int(0)]);
    let printed = pr_str(&v, true);
    assert_eq!(printed, "[-42 0]");
    assert_eq!(read_str(printed).unwrap(), v);
}

#[test]
fn printing_twice_gives_identical_strings() {
    let v = MalType::List(vec![
        MalType::Str("x\\y".to_string()),
        MalType::Symbol("s".to_string()),
    ]);
    assert_eq!(pr_str(&v, false), pr_str(&v, false));
    assert_eq!(pr_str(&v, true), pr_str(&v, true));
}

#[test]
fn children_always_print_readably() {
    // a string inside a composite is escaped even in unreadable mode
    let v = MalType::List(vec![MalType::Str("a\"b".to_string())]);
    assert_eq!(pr_str(&v, false), "(\"a\\\"b\")");
}

#[test]
fn quote_sigil_alone_is_a_symbol() {
    // with nothing parseable after it, the sigil itself is symbol text
    assert_eq!(read("'"), MalType::Symbol("'".to_string()));
    assert_eq!(read("~"), MalType::Symbol("~".to_string()));
}

#[test]
fn minus_alone_is_a_symbol() {
    assert_eq!(read("-"), MalType::Symbol("-".to_string()));
    assert_eq!(read("-abc"), MalType::Symbol("-abc".to_string()));
}

#[test]
fn keyword_of_digits_stays_a_keyword() {
    assert_eq!(read(":123"), MalType::Keyword("123".to_string()));
}

#[test]
fn empty_string_literal() {
    assert_eq!(read("\"\""), MalType::Str("".to_string()));
    assert_eq!(pr_str(&MalType::Str("".to_string()), true), "\"\"");
}

#[test]
fn rep_reads_evaluates_and_prints() {
    assert_eq!(mal::rep("( 1,2 )".to_string()).unwrap(), "(1 2)");
    assert!(mal::rep("(".to_string()).is_err());
    assert_eq!(mal::eval(MalType::Int(7)), MalType::Int(7));
    assert_eq!(mal::print(MalType::Keyword("k".to_string())), ":k");
    assert_eq!(mal::read("[nil]".to_string()).unwrap(), MalType::Vector(vec![MalType::Nil]));
}

#[test]
fn plus_is_not_a_sign() {
    // the grammar admits only `-` before an integer; `+123` is a symbol
    assert_eq!(read("+123"), MalType::Symbol("+123".to_string()));
}

#[test]
fn leading_comma_is_not_trimmed() {
    // commas separate forms inside composites only; at the top level the
    // input is trimmed of whitespace alone
    assert!(read_str(",1".to_string()).is_err());
    assert_eq!(read(" \t\n 1"), MalType::Int(1));
}

#[test]
fn deep_nesting() {
    let mut expected = MalType::Int(1);
    for _ in 0..6 {
        expected = MalType::List(vec![expected]);
    }
    assert_eq!(read("((((((1))))))"), expected);
    assert_eq!(pr_str(&expected, true), "((((((1))))))");
}

#[test]
fn leading_zeros_parse() {
    assert_eq!(read("007"), MalType::Int(7));
    assert_eq!(read("-007"), MalType::Int(-7));
    assert_eq!(pr_str(&MalType::Int(7), true), "7");
    assert_eq!(read("0"), MalType::Int(0));
    assert_eq!(pr_str(&MalType::Int(0), false), "0");
}
