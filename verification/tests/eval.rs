use evilscheme::{check_builtin, Atom, Checked, EvalError, Evaluator};

/// An atom with its numbers read as `f64`, to compare against expected values.
#[derive(Debug, PartialEq)]
enum Value {
    Nil,
    List(Vec<Value>),
    Symbol(String),
    Str(String),
    Number(f64),
    Bool(bool),
    Quote(Box<Value>),
    Function(Vec<String>, Box<Value>),
    Host(usize),
}

fn value(a: &Atom) -> Value {
    match a {
        Atom::Nil => Value::Nil,
        Atom::List(items) => Value::List(items.iter().map(value).collect()),
        Atom::Symbol(s) => Value::Symbol(s.clone()),
        Atom::String(s) => Value::Str(s.clone()),
        Atom::Number(n) => Value::Number(n.parse::<f64>().expect("a numeral")),
        Atom::Bool(b) => Value::Bool(*b),
        Atom::Quote(q) => Value::Quote(Box::new(value(q))),
        Atom::Function(params, body) => Value::Function(params.clone(), Box::new(value(body))),
        Atom::HostFunction(i) => Value::Host(*i),
    }
}

fn num(x: f64) -> Value {
    Value::Number(x)
}

fn sym(s: &str) -> Value {
    Value::Symbol(s.to_string())
}

fn number(x: f64) -> Atom {
    Atom::Number(format!("{}", x))
}

/// The built-ins with `f64` arithmetic, and one more host function, `twice`, at index 17,
/// which records nothing and doubles its only argument.
struct TestHost;

impl TestHost {
    fn call(&self, index: usize, args: &[Atom]) -> Result<Atom, EvalError> {
        if index == 17 {
            return match args {
                [Atom::Number(n)] => Ok(number(2.0 * n.parse::<f64>().unwrap())),
                _ => Err(EvalError::TypeMismatch("twice only takes one number")),
            };
        }
        if index > 17 {
            return Err(EvalError::UnboundVariable(format!("builtin {}", index)));
        }
        match check_builtin(index, args) {
            Checked::Fails(e) => Err(e),
            Checked::Gives(a) => Ok(a),
            Checked::Compare => Ok(Atom::Bool(args[1..].iter().all(|a| value(a) == value(&args[0])))),
            Checked::Numbers(ns) => {
                let xs: Vec<f64> = ns.iter().map(|n| n.parse::<f64>().unwrap()).collect();
                let first = xs[0..].first().copied().unwrap_or(0.0);
                Ok(match index {
                    0 => number(xs.iter().fold(0.0, |a, b| a + b)),
                    1 => number(xs.iter().fold(1.0, |a, b| a * b)),
                    2 if xs.len() == 1 => number(-first),
                    2 => number(xs[1..].iter().fold(first, |a, b| a - b)),
                    3 if xs.len() == 1 => number(1.0 / first),
                    3 => number(xs[1..].iter().fold(first, |a, b| a / b)),
                    5 => Atom::Bool(xs[1..].iter().all(|x| first == *x)),
                    6 => Atom::Bool(xs[1..].iter().all(|x| first < *x)),
                    7 => Atom::Bool(xs[1..].iter().all(|x| first > *x)),
                    8 => Atom::Bool(xs[1..].iter().all(|x| first <= *x)),
                    9 => Atom::Bool(xs[1..].iter().all(|x| first >= *x)),
                    10 => number(first.floor()),
                    11 => number(first.ceil()),
                    12 => number(first.trunc()),
                    13 => number(first.round_ties_even()),
                    14 => number(first.sqrt()),
                    _ => Atom::Bool(first.fract() == 0.0),
                })
            }
        }
    }
}

fn evaluator() -> Evaluator {
    let mut e = Evaluator::new_empty();
    assert_eq!(e.bind_host_func("twice".to_string()), 17);
    e
}

fn run_in(e: &mut Evaluator, src: &str) -> Result<Value, EvalError> {
    let atom = Atom::parse(src).expect("the source parses");
    e.eval(&atom, &|i: usize, a: &[Atom]| TestHost.call(i, a)).map(|a| value(&a))
}

fn run(src: &str) -> Result<Value, EvalError> {
    run_in(&mut evaluator(), src)
}

#[test]
fn lambda() {
    const TEST_SRC: &str = "(define square (lambda (a) (* a a))) (square 4)";
    let atom = Atom::parse(TEST_SRC).unwrap();
    let mut evaluator = Evaluator::new_empty();
    assert_eq!(
        evaluator.eval(&atom, &|i: usize, a: &[Atom]| TestHost.call(i, a)).map(|a| value(&a)),
        Ok(Value::List(vec![Value::Nil, Value::Number(16.0)]))
    );
}

#[test]
fn self_evaluating_and_quoted_atoms() {
    assert_eq!(run("12.5"), Ok(num(12.5)));
    assert_eq!(run("\"text\""), Ok(Value::Str("text".into())));
    assert_eq!(run("#f"), Ok(Value::Bool(false)));
    assert_eq!(run("()"), Ok(Value::Nil));
    assert_eq!(run("'(a b)"), Ok(Value::List(vec![sym("a"), sym("b")])));
    assert_eq!(run("'x"), Ok(sym("x")));
    assert_eq!(run("''x"), Ok(Value::Quote(Box::new(sym("x")))));
}

#[test]
fn builtins_are_bound_in_order() {
    let mut e = Evaluator::new_empty();
    assert_eq!(e.host_function_count(), 17);
    assert_eq!(e.scope_count(), 1);
    assert_eq!(run_in(&mut e, "+"), Ok(Value::Host(0)));
    assert_eq!(run_in(&mut e, "integer?"), Ok(Value::Host(16)));
    assert_eq!(e.bind_host_func("mine".to_string()), 17);
    assert_eq!(e.bind_host_func("other".to_string()), 18);
    assert_eq!(run_in(&mut e, "other"), Ok(Value::Host(18)));
}

#[test]
fn top_bindings_are_visible_and_builtins_win() {
    let mut e = Evaluator::new(vec![
        ("x".to_string(), number(3.0)),
        ("+".to_string(), Atom::Bool(true)),
        ("x".to_string(), number(4.0)),
    ]);
    assert_eq!(run_in(&mut e, "x"), Ok(num(4.0)));
    assert_eq!(run_in(&mut e, "+"), Ok(Value::Host(0)));
}

#[test]
fn define_then_read() {
    let mut e = evaluator();
    assert_eq!(run_in(&mut e, "(define x (+ 1 2))"), Ok(Value::Nil));
    assert_eq!(run_in(&mut e, "x"), Ok(num(3.0)));
    assert_eq!(run_in(&mut e, "(define (add a b) (+ a b))"), Ok(Value::Nil));
    assert_eq!(run_in(&mut e, "(add 2 5)"), Ok(num(7.0)));
    assert_eq!(
        run_in(&mut e, "add"),
        Ok(Value::Function(
            vec!["a".into(), "b".into()],
            Box::new(Value::List(vec![sym("+"), sym("a"), sym("b")]))
        ))
    );
}

#[test]
fn set_then_read() {
    let mut e = evaluator();
    run_in(&mut e, "(define x 1)").unwrap();
    assert_eq!(run_in(&mut e, "(set! x (* 6 7))"), Ok(Value::Nil));
    assert_eq!(run_in(&mut e, "x"), Ok(num(42.0)));
    assert_eq!(run_in(&mut e, "(set! y 1)"), Err(EvalError::UnboundVariable("y".into())));
    assert_eq!(run_in(&mut e, "y"), Err(EvalError::UnboundVariable("y".into())));
}

#[test]
fn set_reaches_outer_scopes() {
    assert_eq!(
        run("(define x 1) (let ((y 2)) (set! x y)) x"),
        Ok(Value::List(vec![Value::Nil, Value::Nil, num(2.0)]))
    );
}

#[test]
fn closures_take_the_last_value_of_their_body() {
    assert_eq!(run("((lambda (a) (twice a) (+ a 1)) 5)"), Ok(num(6.0)));
    assert_eq!(run("((lambda () '(1 2 3)))"), Ok(num(3.0)));
    assert_eq!(run("((lambda () '()))"), Ok(Value::Nil));
    assert_eq!(run("(twice 21)"), Ok(num(42.0)));
}

#[test]
fn let_and_let_star() {
    assert_eq!(run("(let ((a 1) (b 2)) (+ a b))"), Ok(num(3.0)));
    assert_eq!(run("(let* ((a 1) (b (+ a 1))) (* a b))"), Ok(num(2.0)));
    assert_eq!(run("(define a 10) (let ((a 1) (b a)) b)"), Ok(Value::List(vec![Value::Nil, num(10.0)])));
    assert_eq!(run("(let (x) 1)"), Err(EvalError::TypeMismatch("let bindings must be (symbol any)")));
    assert_eq!(run("(let x 1)"), Err(EvalError::TypeMismatch("let bindings must be (symbol any)")));
    assert_eq!(run("(let ())"), Err(EvalError::SyntaxError("let requires bindings and body")));
    assert_eq!(run("(let* ((1 2)) 1)"), Err(EvalError::TypeMismatch("let* bindings must be (symbol any)")));
    assert_eq!(run("(let* ())"), Err(EvalError::SyntaxError("let* requires bindings and body")));
}

#[test]
fn scopes_after_let() {
    let mut e = evaluator();
    assert_eq!(run_in(&mut e, "(let ((a 1)) a)"), Ok(num(1.0)));
    assert_eq!(e.scope_count(), 1);
    assert_eq!(run_in(&mut e, "a"), Err(EvalError::UnboundVariable("a".into())));
    // every way out of a failing `let`, `let*` or closure call keeps the scopes
    assert_eq!(run_in(&mut e, "(let ((a nope)) a)"), Err(EvalError::UnboundVariable("nope".into())));
    assert_eq!(e.scope_count(), 1);
    assert!(run_in(&mut e, "(let* ((a 1) 2) a)").is_err());
    assert_eq!(e.scope_count(), 1);
    assert_eq!(run_in(&mut e, "(let* ((a nope)) a)"), Err(EvalError::UnboundVariable("nope".into())));
    assert_eq!(e.scope_count(), 1);
    assert_eq!(run_in(&mut e, "((lambda (x) x) nope)"), Err(EvalError::UnboundVariable("nope".into())));
    assert_eq!(e.scope_count(), 1);
    assert_eq!(run_in(&mut e, "(let ((a 1)) (let* ((b 2)) ((lambda (c) c) nope)))"), Err(EvalError::UnboundVariable("nope".into())));
    assert_eq!(e.scope_count(), 1);
    // the built-ins are still there
    assert_eq!(run_in(&mut e, "(+ 1 2)"), Ok(num(3.0)));
}

#[test]
fn conditionals() {
    assert_eq!(run("(if #t 1 2)"), Ok(num(1.0)));
    assert_eq!(run("(if #f 1 2)"), Ok(num(2.0)));
    assert_eq!(run("(if () 1 2)"), Ok(num(1.0)));
    assert_eq!(run("(if #f 1)"), Ok(Value::Nil));
    assert_eq!(run("(if #t)"), Err(EvalError::SyntaxError("if requires condition and true-body")));
    assert_eq!(run("(cond ((< 2 1) 1) (else 3) ((< 1 2) 2))"), Ok(num(2.0)));
    assert_eq!(run("(cond ((< 2 1) 1) (else 3))"), Ok(num(3.0)));
    assert_eq!(run("(cond (#f 1))"), Ok(Value::Nil));
    assert_eq!(run("(cond)"), Err(EvalError::SyntaxError("cond requires at least one condition branch")));
    assert_eq!(
        run("(cond (1 2))"),
        Err(EvalError::SyntaxError("cond branch condition must be bool"))
    );
    assert_eq!(
        run("(cond 1)"),
        Err(EvalError::SyntaxError("cond branches must be a list with a condition and value expression"))
    );
    assert_eq!(run("(and)"), Ok(Value::Bool(true)));
    assert_eq!(run("(and 1 #f nope)"), Ok(Value::Bool(false)));
    assert_eq!(run("(and 1 2)"), Ok(num(2.0)));
    assert_eq!(run("(or)"), Ok(Value::Bool(false)));
    assert_eq!(run("(or #f 3 nope)"), Ok(num(3.0)));
    assert_eq!(run("(or #f #f)"), Ok(Value::Bool(false)));
}

#[test]
fn definition_errors() {
    assert_eq!(run("(set! x)"), Err(EvalError::SyntaxError("set! requires binding and value")));
    assert_eq!(run("(set! 1 2)"), Err(EvalError::SyntaxError("set! requires binding and value")));
    assert_eq!(run("(define x)"), Err(EvalError::SyntaxError("define requires binding and value")));
    assert_eq!(run("(define () 1)"), Err(EvalError::SyntaxError("define binding must be symbol")));
    assert_eq!(run("(define (f 1) 1)"), Err(EvalError::SyntaxError("function define arguments must be symbol")));
    assert_eq!(
        run("(define 1 2)"),
        Err(EvalError::SyntaxError("define binding must be symbol or (symbol...)"))
    );
    assert_eq!(run("(lambda (a))"), Err(EvalError::SyntaxError("lambda requires arguments and body")));
    assert_eq!(run("(lambda a 1)"), Err(EvalError::TypeMismatch("lambda arguments must be (symbol...)")));
    assert_eq!(run("(lambda (1) 1)"), Err(EvalError::TypeMismatch("lambda arguments must be (symbol...)")));
}

#[test]
fn call_errors() {
    assert_eq!(run("((lambda (a) a))"), Err(EvalError::ArityMismatch { expected: 1, got: 0 }));
    assert_eq!(run("(nope 1)"), Err(EvalError::UnboundVariable("nope".into())));
    assert_eq!(run("(+ 1 \"a\")"), Err(EvalError::TypeMismatch("+ only takes number")));
    let list = Atom::List(vec![Atom::HostFunction(40), number(1.0)]);
    assert_eq!(evaluator().eval(&list, &|i: usize, a: &[Atom]| TestHost.call(i, a)), Err(EvalError::UnboundVariable("builtin 40".into())));
}

#[test]
fn nesting_too_deep() {
    let mut src = String::new();
    for _ in 0..70 {
        src.push('(');
    }
    src.push('1');
    for _ in 0..70 {
        src.push(')');
    }
    assert_eq!(run(&src), Err(EvalError::TooDeep(64)));
    assert_eq!(run("(1 (2))"), Ok(Value::List(vec![num(1.0), Value::List(vec![num(2.0)])])));
    // a list whose head evaluates to a list is evaluated again with that list in front
    assert_eq!(run("((1))"), Err(EvalError::TooDeep(64)));
}

#[test]
fn sequences_give_all_their_values() {
    assert_eq!(run("(1 2 3)"), Ok(Value::List(vec![num(1.0), num(2.0), num(3.0)])));
    assert_eq!(run("(1 (+ 1 1))"), Ok(Value::List(vec![num(1.0), num(2.0)])));
}

#[test]
fn bind_in_current_scope_then_read() {
    let mut e = evaluator();
    e.set_in_current_scope("z".to_string(), number(5.0));
    assert_eq!(run_in(&mut e, "z"), Ok(num(5.0)));
    e.set_in_current_scope("z".to_string(), Atom::String("again".into()));
    assert_eq!(run_in(&mut e, "z"), Ok(Value::Str("again".into())));
    assert_eq!(e.scope_count(), 1);
}

#[test]
fn builtin_arguments_are_checked_before_the_host_is_called() {
    let host = |_: usize, _: &[Atom]| -> Result<Atom, EvalError> { panic!("the host is not called") };
    let mut e = Evaluator::new_empty();
    let eval = |e: &mut Evaluator, src: &str| e.eval(&Atom::parse(src).unwrap(), &host).map(|a| value(&a));
    assert_eq!(eval(&mut e, "(+ 1 \"a\")"), Err(EvalError::TypeMismatch("+ only takes number")));
    assert_eq!(eval(&mut e, "(-)"), Err(EvalError::ArityMismatch { expected: 1, got: 0 }));
    assert_eq!(eval(&mut e, "(number? 'a)"), Ok(Value::Bool(false)));
    assert_eq!(eval(&mut e, "(integer? \"1\")"), Ok(Value::Bool(false)));
    assert_eq!(eval(&mut e, "(equal? 1)"), Err(EvalError::ArityMismatch { expected: 2, got: 1 }));
}

#[test]
fn a_closure_calling_itself_is_cut_off() {
    let mut e = evaluator();
    assert_eq!(run_in(&mut e, "(define (f) (f))"), Ok(Value::Nil));
    assert_eq!(run_in(&mut e, "(f)"), Err(EvalError::TooDeep(64)));
    assert_eq!(e.scope_count(), 1);
}
