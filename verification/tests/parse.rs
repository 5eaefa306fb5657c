use evilscheme::{Atom, AtomParseError, Location, ParserState};

/// An atom with its numbers read as `f64`, to compare against expected values.
#[derive(Debug, PartialEq)]
enum Value {
    Nil,
    List(Vec<Value>),
    Symbol(String),
    Str(String),
    Number(f64),
    Bool(bool),
    Quote(Box<Value>),
}

fn value(a: &Atom) -> Value {
    match a {
        Atom::Nil => Value::Nil,
        Atom::List(items) => Value::List(items.iter().map(value).collect()),
        Atom::Symbol(s) => Value::Symbol(s.clone()),
        Atom::String(s) => Value::Str(s.clone()),
        Atom::Number(n) => Value::Number(n.parse::<f64>().expect("a parsed numeral is a float")),
        Atom::Bool(b) => Value::Bool(*b),
        Atom::Quote(q) => Value::Quote(Box::new(value(q))),
        other => panic!("not a parsed atom: {:?}", other),
    }
}

fn parse_value(src: &str) -> Result<Value, AtomParseError> {
    Atom::parse(src).map(|a| value(&a))
}

#[test]
fn parse_string() {
    assert_eq!(Atom::parse("\"hello world\""), Ok(Atom::String("hello world".into())));
    assert_eq!(
        Atom::parse("\"\\\"☺\\r\\n\\t\""),
        Ok(Atom::String("\"☺\r\n\t".into()))
    );
}

#[test]
fn parse_symbol() {
    assert_eq!(Atom::parse("my-symbol"), Ok(Atom::Symbol("my-symbol".into())));
    assert_eq!(
        Atom::parse("_starts-underscore"),
        Ok(Atom::Symbol("_starts-underscore".into()))
    );
}

#[test]
fn parse_number() {
    assert_eq!(parse_value("1234"), Ok(Value::Number(1234.0)));
    assert_eq!(parse_value("12.34"), Ok(Value::Number(12.34)));
    assert_eq!(parse_value("-1234"), Ok(Value::Number(-1234.0)));
    assert_eq!(parse_value("1e6"), Ok(Value::Number(1e6)));
}

#[test]
fn parse_list() {
    assert_eq!(Atom::parse("()"), Ok(Atom::List(vec![])));
    assert_eq!(
        parse_value("(symbol 1234 () \"string\")"),
        Ok(Value::List(vec![
            Value::Symbol("symbol".into()),
            Value::Number(1234.0),
            Value::List(vec![]),
            Value::Str("string".into()),
        ]))
    );
}

#[test]
fn parse_with_comments() {
    const TEST_SOURCE: &str = r#"
;; this is a test script! woohoo!
(print "message")

(if my-var
    ; comment inside a list
    (print "my-var is true")
    (print "my-var is false"))
"#;

    assert_eq!(
        Atom::parse(TEST_SOURCE),
        Ok(Atom::List(vec![
            Atom::List(vec![
                Atom::Symbol("print".into()),
                Atom::String("message".into()),
            ]),
            Atom::List(vec![
                Atom::Symbol("if".into()),
                Atom::Symbol("my-var".into()),
                Atom::List(vec![
                    Atom::Symbol("print".into()),
                    Atom::String("my-var is true".into()),
                ]),
                Atom::List(vec![
                    Atom::Symbol("print".into()),
                    Atom::String("my-var is false".into()),
                ]),
            ]),
        ])),
    );
}

#[test]
fn parse_errors_carry_locations() {
    assert_eq!(Atom::parse("(a b"), Err(AtomParseError::EarlyEOF(Location { line: 1, column: 1 })));
    assert_eq!(
        Atom::parse("\n  \"ab\\q\""),
        Err(AtomParseError::InvalidEscape('q', Location { line: 2, column: 8 }))
    );
    assert_eq!(Atom::parse("#x"), Err(AtomParseError::UnexpectedChar('x', Location { line: 1, column: 3 })));
    assert_eq!(Atom::parse("1.2.3"), Err(AtomParseError::InvalidNumber(Location { line: 1, column: 1 })));
    assert_eq!(Atom::parse("-"), Err(AtomParseError::EarlyEOF(Location { line: 1, column: 2 })));
    assert_eq!(Atom::parse("\"abc"), Err(AtomParseError::EarlyEOF(Location { line: 1, column: 1 })));
}

#[test]
fn locations_move_by_lines_and_columns() {
    let mut l = Location::default();
    assert_eq!(l, Location { line: 1, column: 1 });
    l.next_column();
    l.next_column();
    assert_eq!(l, Location { line: 1, column: 3 });
    l.next_line();
    assert_eq!(l, Location { line: 2, column: 1 });
}

#[test]
fn parser_state_reads_and_skips() {
    let mut st = ParserState::new("  ; note\n\tab c");
    assert_eq!(st.peek(), Some(' '));
    assert_eq!(st.location(), Location { line: 1, column: 1 });
    st.skip_whitespace();
    assert_eq!(st.peek(), Some('a'));
    assert_eq!(st.location(), Location { line: 2, column: 2 });
    st.skip_whitespace();
    assert_eq!(st.location(), Location { line: 2, column: 2 });
    assert_eq!(st.next(), Some('a'));
    assert_eq!(st.next(), Some('b'));
    st.skip_whitespace();
    assert_eq!(st.next(), Some('c'));
    assert_eq!(st.location(), Location { line: 2, column: 6 });
    assert_eq!(st.next(), None);
    assert_eq!(st.peek(), None);
}

#[test]
fn stray_closing_parenthesis_is_reported() {
    assert_eq!(Atom::try_parse(")"), None);
    assert_eq!(Atom::try_parse("(a) )"), None);
    assert_eq!(Atom::try_parse("(a)"), Some(Ok(Atom::List(vec![Atom::Symbol("a".into())]))));
    assert_eq!(Atom::try_parse("(a"), Some(Err(AtomParseError::EarlyEOF(Location { line: 1, column: 1 }))));
}

#[test]
fn numbers_are_read_as_rust_reads_floats() {
    let samples = [
        "0", "7", "12.5", "1.", "1.e5", "1e", "1e+", "1e+3", "1E-3", "1.2.3", "1e2e3", "1-2", "1+", "0.000",
        "123456789012345678901234567890", "1.5e-300", "9e999", "1..2", "1.5E+", "2-", "3e-0",
    ];
    for s in samples {
        let read = Atom::parse(s);
        let expected = s.parse::<f64>();
        match (&read, &expected) {
            (Ok(Atom::Number(t)), Ok(x)) => {
                assert_eq!(t, s);
                assert_eq!(t.parse::<f64>().unwrap(), *x);
            }
            (Err(AtomParseError::InvalidNumber(l)), Err(_)) => assert_eq!(*l, Location { line: 1, column: 1 }),
            _ => panic!("{:?} read as {:?}, but Rust reads it as {:?}", s, read, expected),
        }
        let negated = format!("-{}", s);
        match Atom::parse(&negated) {
            Ok(Atom::Number(t)) => {
                assert_eq!(t, negated);
                assert_eq!(t.parse::<f64>().unwrap(), -expected.clone().unwrap());
            }
            Err(AtomParseError::InvalidNumber(l)) => {
                assert!(expected.is_err());
                assert_eq!(l, Location { line: 1, column: 2 });
            }
            other => panic!("{:?} read as {:?}", negated, other),
        }
    }
}

#[test]
fn symbols_stop_at_exactly_the_whitespace_rust_knows() {
    for code in 0u32..0x3100 {
        let Some(c) = char::from_u32(code) else { continue };
        if c == '(' || c == ')' {
            continue;
        }
        let src = format!("a{}b", c);
        let read = Atom::parse(&src).unwrap();
        if c.is_whitespace() {
            assert_eq!(read, Atom::List(vec![Atom::Symbol("a".into()), Atom::Symbol("b".into())]), "{:?}", c);
        } else {
            assert_eq!(read, Atom::Symbol(src.clone()), "{:?}", c);
        }
    }
}

#[test]
fn read_atoms_hold_no_closures_and_only_numerals() {
    fn check(a: &Atom) {
        match a {
            Atom::List(items) => items.iter().for_each(check),
            Atom::Quote(q) => check(q),
            Atom::Number(t) => assert!(t.parse::<f64>().is_ok(), "{}", t),
            Atom::Function(..) | Atom::HostFunction(_) => panic!("a closure came out of the reader"),
            _ => {}
        }
    }
    let read = Atom::parse("(lambda (x) (- x 1.5e3)) '(-2 - -a #t) \"s\" -7").unwrap();
    check(&read);
    assert_eq!(
        parse_value("(- -2 -a)"),
        Ok(Value::List(vec![Value::Symbol("-".into()), Value::Number(-2.0), Value::Symbol("-a".into())]))
    );
}

#[test]
fn shown_atoms_read_back() {
    let atom = Atom::List(vec![
        Atom::Symbol("define".into()),
        Atom::List(vec![Atom::Symbol("f".into()), Atom::Symbol("x_1".into())]),
        Atom::Quote(Box::new(Atom::List(vec![
            Atom::Number("1.5e3".into()),
            Atom::Number("-2".into()),
            Atom::Bool(true),
            Atom::List(vec![]),
        ]))),
        Atom::Bool(false),
    ]);
    assert_eq!(atom.to_string(), "(define (f x_1) '(1.5e3 -2 #t ()) #f)");
    assert_eq!(Atom::parse(&atom.to_string()), Ok(atom));
    assert_eq!(Atom::parse(&Atom::Symbol("abc".into()).to_string()), Ok(Atom::Symbol("abc".into())));
}

#[test]
fn blank_text_around_changes_nothing() {
    for s in ["(a (b 1) \"c\")", "x", "12.5", "(a) (b)", "'x"] {
        let around = format!(";; note\n  \t\n; more\n{} ; trailing comment", s);
        assert_eq!(Atom::parse(&around), Atom::parse(s), "{:?}", around);
    }
}

#[test]
fn escaped_strings_read_back() {
    for s in ["", "plain", "say \"hi\"", "back\\slash", "\\\"", "line\nbreak ☺"] {
        let escaped: String = s.chars().flat_map(|c| match c {
            '\\' | '"' => vec!['\\', c],
            _ => vec![c],
        }).collect();
        let text = format!("\"{}\"", escaped);
        assert_eq!(Atom::parse(&text), Ok(Atom::String(s.to_string())), "{:?}", text);
        assert_eq!(Atom::try_parse(&text), Some(Ok(Atom::String(s.to_string()))));
    }
}
