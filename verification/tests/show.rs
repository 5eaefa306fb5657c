use evilscheme::{Atom, AtomParseError, EvalError, Location};

fn n(s: &str) -> Atom {
    Atom::Number(s.to_string())
}

#[test]
fn atoms_show_as_text() {
    assert_eq!(Atom::Nil.to_string(), "()");
    assert_eq!(Atom::List(vec![]).to_string(), "()");
    assert_eq!(
        Atom::List(vec![
            Atom::Symbol("a".into()),
            n("16"),
            Atom::String("two words".into()),
            Atom::List(vec![Atom::Bool(true), Atom::Bool(false)]),
        ])
        .to_string(),
        "(a 16 two words (#t #f))"
    );
    assert_eq!(Atom::Quote(Box::new(Atom::Symbol("x".into()))).to_string(), "'x");
    assert_eq!(Atom::HostFunction(12).to_string(), "[native #12]");
    assert_eq!(
        Atom::Function(
            vec!["a".into(), "b".into()],
            Box::new(Atom::List(vec![Atom::Symbol("*".into()), Atom::Symbol("a".into()), Atom::Symbol("b".into())]))
        )
        .to_string(),
        "(lambda (a b) (* a b))"
    );
    assert_eq!(Atom::Function(vec![], Box::new(n("1"))).to_string(), "(lambda () 1)");
}

#[test]
fn parsed_text_shows_again() {
    let a = Atom::parse("(define (f x) (if x 'yes \"no\"))").unwrap();
    assert_eq!(a.to_string(), "(define (f x) (if x 'yes no))");
}

#[test]
fn eval_error_messages() {
    assert_eq!(EvalError::UnboundVariable("x".into()).to_string(), "undefined symbol x");
    assert_eq!(EvalError::OutOfBounds(3).to_string(), "out of bounds list access at index 3");
    assert_eq!(EvalError::TypeMismatch("+ only takes number").to_string(), "+ only takes number");
    assert_eq!(EvalError::SyntaxError("let requires bindings and body").to_string(), "let requires bindings and body");
    assert_eq!(EvalError::TooDeep(7).to_string(), "too many nested expressions (64)");
    assert_eq!(
        EvalError::ArityMismatch { expected: 2, got: 10 }.to_string(),
        "function arity mismatch, expected 2, got 10"
    );
}

#[test]
fn parse_error_messages() {
    let at = |line, column| Location { line, column };
    assert_eq!(AtomParseError::EarlyEOF(at(1, 12)).to_string(), "Unexpected end-of-file (line 1, column 12)");
    assert_eq!(
        AtomParseError::UnexpectedChar('x', at(1, 3)).to_string(),
        "Unexpected character ''x'' (line 1, column 3)"
    );
    assert_eq!(
        AtomParseError::ExpectedChar('\n', at(2, 1)).to_string(),
        "Expected character ''\\n'' (line 2, column 1)"
    );
    assert_eq!(
        AtomParseError::InvalidEscape('q', at(2, 8)).to_string(),
        "Invalid string escape '\\'q'' (line 2, column 8)"
    );
    assert_eq!(
        AtomParseError::InvalidNumber(at(10, 4)).to_string(),
        "invalid float literal (line 10, column 4)"
    );
}

#[test]
fn parse_error_message_of_a_read() {
    let e = Atom::parse("\n  \"ab\\q\"").unwrap_err();
    assert_eq!(e.to_string(), "Invalid string escape '\\'q'' (line 2, column 8)");
}
