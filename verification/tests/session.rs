use evilscheme::{respond, Atom, AtomParseError, EvalError, Evaluator, Location, Reply};

/// A host whose functions all fail.
struct NoFunctions;

impl NoFunctions {
    fn call(&self, index: usize, _args: &[Atom]) -> Result<Atom, EvalError> {
        Err(EvalError::UnboundVariable(format!("builtin {}", index)))
    }
}

#[test]
fn a_session_answers_line_by_line() {
    let mut e = Evaluator::new_empty();
    assert_eq!(respond(&mut e, &|i: usize, a: &[Atom]| NoFunctions.call(i, a), "\n"), Some(Reply::Quiet));
    assert_eq!(respond(&mut e, &|i: usize, a: &[Atom]| NoFunctions.call(i, a), "(define x 2)\n"), Some(Reply::Quiet));
    assert_eq!(respond(&mut e, &|i: usize, a: &[Atom]| NoFunctions.call(i, a), "x\n"), Some(Reply::Value(Atom::Number("2".into()))));
    assert_eq!(
        respond(&mut e, &|i: usize, a: &[Atom]| NoFunctions.call(i, a), "y\n"),
        Some(Reply::EvalError(EvalError::UnboundVariable("y".into())))
    );
    assert_eq!(
        respond(&mut e, &|i: usize, a: &[Atom]| NoFunctions.call(i, a), "(+ 1 2)\n"),
        Some(Reply::EvalError(EvalError::UnboundVariable("builtin 0".into())))
    );
    assert_eq!(
        respond(&mut e, &|i: usize, a: &[Atom]| NoFunctions.call(i, a), "(x\n"),
        Some(Reply::ParseError(AtomParseError::EarlyEOF(Location { line: 1, column: 1 })))
    );
    assert_eq!(respond(&mut e, &|i: usize, a: &[Atom]| NoFunctions.call(i, a), ")\n"), None);
    assert_eq!(respond(&mut e, &|i: usize, a: &[Atom]| NoFunctions.call(i, a), "x\n"), Some(Reply::Value(Atom::Number("2".into()))));
    assert_eq!(respond(&mut e, &|i: usize, a: &[Atom]| NoFunctions.call(i, a), ""), Some(Reply::End));
}
