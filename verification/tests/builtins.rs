use evilscheme::{check_arity, check_builtin, Atom, Checked, EvalError};

fn n(s: &str) -> Atom {
    Atom::Number(s.to_string())
}

fn numerals(xs: &[&str]) -> Checked {
    Checked::Numbers(xs.iter().map(|x| x.to_string()).collect())
}

#[test]
fn sums_and_products_take_any_numbers() {
    assert_eq!(check_builtin(0, &[]), numerals(&[]));
    assert_eq!(check_builtin(1, &[n("2"), n("-3.5")]), numerals(&["2", "-3.5"]));
    assert_eq!(
        check_builtin(0, &[n("1"), Atom::Nil]),
        Checked::Fails(EvalError::TypeMismatch("+ only takes number"))
    );
    assert_eq!(
        check_builtin(1, &[Atom::Bool(true)]),
        Checked::Fails(EvalError::TypeMismatch("* only takes number"))
    );
}

#[test]
fn differences_and_quotients_need_one_number() {
    assert_eq!(check_builtin(2, &[]), Checked::Fails(EvalError::ArityMismatch { expected: 1, got: 0 }));
    assert_eq!(check_builtin(3, &[]), Checked::Fails(EvalError::ArityMismatch { expected: 1, got: 0 }));
    assert_eq!(check_builtin(2, &[n("4")]), numerals(&["4"]));
    assert_eq!(
        check_builtin(3, &[n("4"), Atom::Symbol("x".into())]),
        Checked::Fails(EvalError::TypeMismatch("/ only takes number"))
    );
}

#[test]
fn comparisons_need_two() {
    assert_eq!(check_builtin(4, &[n("1")]), Checked::Fails(EvalError::ArityMismatch { expected: 2, got: 1 }));
    assert_eq!(check_builtin(4, &[n("1"), Atom::Nil]), Checked::Compare);
    assert_eq!(check_builtin(5, &[]), Checked::Fails(EvalError::ArityMismatch { expected: 2, got: 0 }));
    assert_eq!(
        check_builtin(5, &[n("1"), Atom::Nil]),
        Checked::Fails(EvalError::TypeMismatch("= only takes number, try equal?"))
    );
    assert_eq!(check_builtin(6, &[n("1"), n("2"), n("3")]), numerals(&["1", "2", "3"]));
    assert_eq!(
        check_builtin(9, &[Atom::Nil, n("2")]),
        Checked::Fails(EvalError::TypeMismatch(">= only takes number"))
    );
}

#[test]
fn one_argument_functions() {
    assert_eq!(check_builtin(10, &[n("1.5")]), numerals(&["1.5"]));
    assert_eq!(
        check_builtin(14, &[n("1"), n("2")]),
        Checked::Fails(EvalError::ArityMismatch { expected: 1, got: 0 })
    );
    assert_eq!(
        check_builtin(12, &[Atom::Nil]),
        Checked::Fails(EvalError::TypeMismatch("truncate only takes number"))
    );
    assert_eq!(check_builtin(15, &[n("1")]), Checked::Gives(Atom::Bool(true)));
    assert_eq!(check_builtin(15, &[Atom::Nil]), Checked::Gives(Atom::Bool(false)));
    assert_eq!(check_builtin(15, &[]), Checked::Fails(EvalError::ArityMismatch { expected: 1, got: 0 }));
    assert_eq!(check_builtin(16, &[n("3")]), numerals(&["3"]));
    assert_eq!(check_builtin(16, &[Atom::String("3".into())]), Checked::Gives(Atom::Bool(false)));
}

#[test]
fn host_function_arity() {
    assert_eq!(check_arity(&[], 0), Ok(()));
    assert_eq!(check_arity(&[n("1")], 1), Ok(()));
    assert_eq!(check_arity(&[n("1"), n("2")], 1), Err(EvalError::ArityMismatch { expected: 1, got: 2 }));
    assert_eq!(check_arity(&[], 1), Err(EvalError::ArityMismatch { expected: 1, got: 0 }));
}
