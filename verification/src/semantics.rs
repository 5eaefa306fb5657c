use vstd::prelude::*;

use crate::atom::Datum;
use crate::scope::Bindings;
use crate::builtins::check_builtin_spec;
use crate::eval::builtin_names;
use crate::text::decimal;

verus! {

/// How deeply evaluations may nest before evaluation gives up.
pub const MAX_DEPTH: usize = 64;

/// The mathematical model of an evaluation error.
pub enum Fault {
    UnboundVariable(Seq<char>),
    OutOfBounds(usize),
    TypeMismatch(Seq<char>),
    SyntaxError(Seq<char>),
    TooDeep(usize),
    ArityMismatch { expected: usize, got: usize },
}

/// The scopes of an evaluator, innermost last.
pub type Scopes = Seq<Bindings>;

/// One call of a host function: which function, with which arguments, and what it returned.
pub struct HostCall {
    pub index: usize,
    pub args: Seq<Datum>,
    pub result: Result<Datum, Fault>,
}

/// The calls that an evaluation makes to host functions, in order.
pub type Trace = Seq<HostCall>;

/// Where an evaluation ends: the scopes it leaves, its result, and the host calls that
/// remain of the trace it was given.
pub struct Outcome {
    pub scopes: Scopes,
    pub result: Result<Datum, Fault>,
    pub rest: Trace,
}

pub open spec fn ok(sc: Scopes, v: Datum, t: Trace) -> Option<Outcome> {
    Some(Outcome { scopes: sc, result: Ok(v), rest: t })
}

pub open spec fn fail(sc: Scopes, e: Fault, t: Trace) -> Option<Outcome> {
    Some(Outcome { scopes: sc, result: Err(e), rest: t })
}

/// The value of `name` in the innermost scope that binds it.
pub open spec fn lookup(sc: Scopes, name: Seq<char>) -> Option<Datum>
    decreases sc.len(),
{
    if sc.len() == 0 {
        None
    } else if sc.last().dom().contains(name) {
        Some(sc.last()[name])
    } else {
        lookup(sc.drop_last(), name)
    }
}

/// Rebinds `name` in the innermost scope that binds it; `None` when no scope does.
pub open spec fn assign(sc: Scopes, name: Seq<char>, v: Datum) -> Option<Scopes>
    decreases sc.len(),
{
    if sc.len() == 0 {
        None
    } else if sc.last().dom().contains(name) {
        Some(sc.drop_last().push(sc.last().insert(name, v)))
    } else {
        match assign(sc.drop_last(), name, v) {
            Some(inner) => Some(inner.push(sc.last())),
            None => None,
        }
    }
}

/// Binds `name` to `v` in the innermost scope.
pub open spec fn define(sc: Scopes, name: Seq<char>, v: Datum) -> Scopes {
    sc.drop_last().push(sc.last().insert(name, v))
}

/// Binds the pairs of `vals`, in order, in the innermost scope.
pub open spec fn define_all(sc: Scopes, vals: Seq<(Seq<char>, Datum)>) -> Scopes
    decreases vals.len(),
{
    if vals.len() == 0 {
        sc
    } else {
        let rest = define_all(sc, vals.drop_last());
        define(rest, vals.last().0, vals.last().1)
    }
}

pub open spec fn push_scope(sc: Scopes) -> Scopes {
    sc.push(Map::empty())
}

/// Drops the innermost scope; nothing happens when there is none.
pub open spec fn pop_scope(sc: Scopes) -> Scopes {
    if sc.len() == 0 {
        sc
    } else {
        sc.drop_last()
    }
}

pub open spec fn is_symbol(d: Datum) -> bool {
    d is Symbol
}

pub open spec fn all_symbols(s: Seq<Datum>) -> bool {
    forall|i: int| 0 <= i < s.len() ==> is_symbol(#[trigger] s[i])
}

pub open spec fn symbol_names(s: Seq<Datum>) -> Seq<Seq<char>> {
    s.map_values(|d: Datum| d->Symbol_0)
}

/// A closure with the given parameters whose body is `body`: the single expression, or the
/// list of them when there are several.
pub open spec fn closure(params: Seq<Seq<char>>, body: Seq<Datum>) -> Datum {
    Datum::Function(
        params,
        Box::new(
            if body.len() == 1 {
                body[0]
            } else {
                Datum::List(body)
            },
        ),
    )
}

/// What a closure call returns for the value `r` of its body: an empty list gives `()`,
/// another list its last element.
pub open spec fn call_result(r: Result<Datum, Fault>) -> Result<Datum, Fault> {
    match r {
        Ok(Datum::List(l)) => if l.len() == 0 {
            Ok(Datum::Nil)
        } else {
            Ok(l.last())
        },
        other => other,
    }
}

/// The outcome `o` with its innermost scope dropped.
pub open spec fn popped(o: Option<Outcome>) -> Option<Outcome> {
    match o {
        Some(out) => Some(Outcome { scopes: pop_scope(out.scopes), ..out }),
        None => None,
    }
}

/// Evaluating `a` at nesting depth `d` in the scopes `sc`, when the host functions, of which
/// there are `hc`, answer as `t` records. `None` when `t` does not record the calls made.
pub open spec fn sem_eval(hc: nat, sc: Scopes, a: Datum, d: nat, t: Trace) -> Option<Outcome>
    decreases MAX_DEPTH - d, 3int, 0int,
{
    if d >= MAX_DEPTH {
        fail(sc, Fault::TooDeep(d as usize), t)
    } else {
        match a {
            Datum::List(l) => if l.len() == 0 {
                ok(sc, Datum::Nil, t)
            } else {
                sem_list(hc, sc, l, d, t)
            },
            Datum::Symbol(name) => match lookup(sc, name) {
                Some(v) => ok(sc, v, t),
                None => fail(sc, Fault::UnboundVariable(name), t),
            },
            Datum::Quote(x) => ok(sc, *x, t),
            _ => ok(sc, a, t),
        }
    }
}

/// A non-empty list: a special form, a call, or a sequence, according to its head.
pub open spec fn sem_list(hc: nat, sc: Scopes, l: Seq<Datum>, d: nat, t: Trace) -> Option<Outcome>
    decreases MAX_DEPTH - d, 2int, 0int,
{
    if d >= MAX_DEPTH || l.len() == 0 {
        None
    } else {
        let head = l[0];
        if head == Datum::Symbol("set!"@) {
            sem_set(hc, sc, l, d, t)
        } else if head == Datum::Symbol("define"@) {
            sem_define(hc, sc, l, d, t)
        } else if head == Datum::Symbol("lambda"@) {
            sem_lambda(sc, l, t)
        } else if head == Datum::Symbol("let"@) {
            sem_let(hc, sc, l, d, t)
        } else if head == Datum::Symbol("let*"@) {
            sem_let_star(hc, sc, l, d, t)
        } else if head == Datum::Symbol("if"@) {
            sem_if(hc, sc, l, d, t)
        } else if head == Datum::Symbol("cond"@) {
            if l.len() < 2 {
                fail(sc, Fault::SyntaxError("cond requires at least one condition branch"@), t)
            } else {
                sem_cond(hc, sc, l, 1, Datum::Nil, d, t)
            }
        } else if head == Datum::Symbol("and"@) {
            sem_and(hc, sc, l, 1, Datum::Bool(true), d, t)
        } else if head == Datum::Symbol("or"@) {
            sem_or(hc, sc, l, 1, Datum::Bool(false), d, t)
        } else {
            match head {
                Datum::Function(params, body) => if l.len() - 1 != params.len() {
                    fail(
                        sc,
                        Fault::ArityMismatch {
                            expected: params.len() as usize,
                            got: (l.len() - 1) as usize,
                        },
                        t,
                    )
                } else {
                    sem_call_args(hc, push_scope(sc), params, *body, l, 1, d, t)
                },
                Datum::HostFunction(index) => sem_host_args(hc, sc, index, l, 1, Seq::empty(), d, t),
                Datum::List(_) => sem_head(hc, sc, l, d, t),
                Datum::Symbol(_) => sem_head(hc, sc, l, d, t),
                _ => sem_seq(hc, sc, l, 0, Seq::empty(), d, t),
            }
        }
    }
}

/// `(set! name expr)`: rebinds `name` where it is bound.
pub open spec fn sem_set(hc: nat, sc: Scopes, l: Seq<Datum>, d: nat, t: Trace) -> Option<Outcome>
    decreases MAX_DEPTH - d, 1int, 0int,
{
    if d >= MAX_DEPTH {
        None
    } else if l.len() < 3 {
        fail(sc, Fault::SyntaxError("set! requires binding and value"@), t)
    } else {
        match l[1] {
            Datum::Symbol(name) => match sem_eval(hc, sc, l[2], d + 1, t) {
                Some(out) => match out.result {
                    Ok(v) => match assign(out.scopes, name, v) {
                        Some(sc2) => ok(sc2, Datum::Nil, out.rest),
                        None => fail(out.scopes, Fault::UnboundVariable(name), out.rest),
                    },
                    Err(_) => Some(out),
                },
                None => None,
            },
            _ => fail(sc, Fault::SyntaxError("set! requires binding and value"@), t),
        }
    }
}

/// `(define name expr)` or `(define (name params...) body...)`: binds in the innermost scope.
pub open spec fn sem_define(hc: nat, sc: Scopes, l: Seq<Datum>, d: nat, t: Trace) -> Option<Outcome>
    decreases MAX_DEPTH - d, 1int, 0int,
{
    if d >= MAX_DEPTH {
        None
    } else if l.len() < 3 {
        fail(sc, Fault::SyntaxError("define requires binding and value"@), t)
    } else {
        match l[1] {
            Datum::Symbol(name) => match sem_eval(hc, sc, l[2], d + 1, t) {
                Some(out) => match out.result {
                    Ok(v) => ok(define(out.scopes, name, v), Datum::Nil, out.rest),
                    Err(_) => Some(out),
                },
                None => None,
            },
            Datum::List(sig) => if sig.len() == 0 || !is_symbol(sig[0]) {
                fail(sc, Fault::SyntaxError("define binding must be symbol"@), t)
            } else if !all_symbols(sig.skip(1)) {
                fail(sc, Fault::SyntaxError("function define arguments must be symbol"@), t)
            } else {
                ok(
                    define(sc, sig[0]->Symbol_0, closure(symbol_names(sig.skip(1)), l.skip(2))),
                    Datum::Nil,
                    t,
                )
            },
            _ => fail(sc, Fault::SyntaxError("define binding must be symbol or (symbol...)"@), t),
        }
    }
}

/// `(lambda (params...) body...)`: a closure.
pub open spec fn sem_lambda(sc: Scopes, l: Seq<Datum>, t: Trace) -> Option<Outcome> {
    if l.len() < 3 {
        fail(sc, Fault::SyntaxError("lambda requires arguments and body"@), t)
    } else {
        match l[1] {
            Datum::List(params) => if all_symbols(params) {
                ok(sc, closure(symbol_names(params), l.skip(2)), t)
            } else {
                fail(sc, Fault::TypeMismatch("lambda arguments must be (symbol...)"@), t)
            },
            _ => fail(sc, Fault::TypeMismatch("lambda arguments must be (symbol...)"@), t),
        }
    }
}

/// A `let` binding must be a list of at least a symbol and an expression.
pub open spec fn is_binding(b: Datum) -> bool {
    b is List && b->List_0.len() >= 2 && is_symbol(b->List_0[0])
}

/// `(let ((name expr)...) body)`: evaluates the expressions in the current scopes, then the
/// body in a new scope that binds them.
pub open spec fn sem_let(hc: nat, sc: Scopes, l: Seq<Datum>, d: nat, t: Trace) -> Option<Outcome>
    decreases MAX_DEPTH - d, 1int, 0int,
{
    if d >= MAX_DEPTH {
        None
    } else if l.len() < 3 {
        fail(sc, Fault::SyntaxError("let requires bindings and body"@), t)
    } else {
        match l[1] {
            Datum::List(bs) => sem_let_bindings(hc, sc, bs, 0, Seq::empty(), l[2], d, t),
            _ => fail(sc, Fault::TypeMismatch("let bindings must be (symbol any)"@), t),
        }
    }
}

/// The bindings `bs` of a `let` from the `i`-th, with the values `vals` computed so far.
/// No scope is added before the body, so a failing value leaves the scopes as they are.
pub open spec fn sem_let_bindings(
    hc: nat,
    sc: Scopes,
    bs: Seq<Datum>,
    i: int,
    vals: Seq<(Seq<char>, Datum)>,
    body: Datum,
    d: nat,
    t: Trace,
) -> Option<Outcome>
    decreases MAX_DEPTH - d, 0int, bs.len() - i,
{
    if d >= MAX_DEPTH || i < 0 {
        None
    } else if i >= bs.len() {
        popped(sem_eval(hc, define_all(push_scope(sc), vals), body, d + 1, t))
    } else if !is_binding(bs[i]) {
        fail(sc, Fault::TypeMismatch("let bindings must be (symbol any)"@), t)
    } else {
        let pair = bs[i]->List_0;
        match sem_eval(hc, sc, pair[1], d + 1, t) {
            Some(out) => match out.result {
                Ok(v) => sem_let_bindings(
                    hc,
                    out.scopes,
                    bs,
                    i + 1,
                    vals.push((pair[0]->Symbol_0, v)),
                    body,
                    d,
                    out.rest,
                ),
                Err(e) => fail(out.scopes, e, out.rest),
            },
            None => None,
        }
    }
}

/// `(let* ((name expr)...) body)`: binds one by one in a new scope, each expression seeing
/// the bindings before it.
pub open spec fn sem_let_star(hc: nat, sc: Scopes, l: Seq<Datum>, d: nat, t: Trace) -> Option<Outcome>
    decreases MAX_DEPTH - d, 1int, 0int,
{
    if d >= MAX_DEPTH {
        None
    } else if l.len() < 3 {
        fail(sc, Fault::SyntaxError("let* requires bindings and body"@), t)
    } else {
        match l[1] {
            Datum::List(bs) => sem_let_star_bindings(hc, push_scope(sc), bs, 0, l[2], d, t),
            _ => fail(sc, Fault::TypeMismatch("let* bindings must be (symbol any)"@), t),
        }
    }
}

/// The bindings `bs` of a `let*` from the `i`-th, in the new innermost scope, which is
/// dropped on every way out.
pub open spec fn sem_let_star_bindings(
    hc: nat,
    sc: Scopes,
    bs: Seq<Datum>,
    i: int,
    body: Datum,
    d: nat,
    t: Trace,
) -> Option<Outcome>
    decreases MAX_DEPTH - d, 0int, bs.len() - i,
{
    if d >= MAX_DEPTH || i < 0 {
        None
    } else if i >= bs.len() {
        popped(sem_eval(hc, sc, body, d + 1, t))
    } else if !is_binding(bs[i]) {
        fail(pop_scope(sc), Fault::TypeMismatch("let* bindings must be (symbol any)"@), t)
    } else {
        let pair = bs[i]->List_0;
        match sem_eval(hc, sc, pair[1], d + 1, t) {
            Some(out) => match out.result {
                Ok(v) => sem_let_star_bindings(
                    hc,
                    define(out.scopes, pair[0]->Symbol_0, v),
                    bs,
                    i + 1,
                    body,
                    d,
                    out.rest,
                ),
                Err(e) => fail(pop_scope(out.scopes), e, out.rest),
            },
            None => None,
        }
    }
}

/// `(if cond then else?)`: anything but `#f` counts as true.
pub open spec fn sem_if(hc: nat, sc: Scopes, l: Seq<Datum>, d: nat, t: Trace) -> Option<Outcome>
    decreases MAX_DEPTH - d, 1int, 0int,
{
    if d >= MAX_DEPTH {
        None
    } else if l.len() < 3 || l.len() > 4 {
        fail(sc, Fault::SyntaxError("if requires condition and true-body"@), t)
    } else {
        match sem_eval(hc, sc, l[1], d + 1, t) {
            Some(out) => match out.result {
                Ok(c) => if c != Datum::Bool(false) {
                    sem_eval(hc, out.scopes, l[2], d + 1, out.rest)
                } else if l.len() == 4 {
                    sem_eval(hc, out.scopes, l[3], d + 1, out.rest)
                } else {
                    ok(out.scopes, Datum::Nil, out.rest)
                },
                Err(_) => Some(out),
            },
            None => None,
        }
    }
}

/// The branches of a `cond` from the `i`-th. An `else` branch is remembered and evaluated
/// only when no condition holds; a condition must give a boolean.
pub open spec fn sem_cond(
    hc: nat,
    sc: Scopes,
    l: Seq<Datum>,
    i: int,
    otherwise: Datum,
    d: nat,
    t: Trace,
) -> Option<Outcome>
    decreases MAX_DEPTH - d, 0int, l.len() - i,
{
    if d >= MAX_DEPTH || i < 0 {
        None
    } else if i >= l.len() {
        sem_eval(hc, sc, otherwise, d + 1, t)
    } else if !(l[i] is List && l[i]->List_0.len() == 2) {
        fail(
            sc,
            Fault::SyntaxError("cond branches must be a list with a condition and value expression"@),
            t,
        )
    } else {
        let branch = l[i]->List_0;
        if branch[0] == Datum::Symbol("else"@) {
            sem_cond(hc, sc, l, i + 1, branch[1], d, t)
        } else {
            match sem_eval(hc, sc, branch[0], d + 1, t) {
                Some(out) => match out.result {
                    Ok(Datum::Bool(true)) => sem_eval(hc, out.scopes, branch[1], d + 1, out.rest),
                    Ok(Datum::Bool(false)) => sem_cond(hc, out.scopes, l, i + 1, otherwise, d, out.rest),
                    Ok(_) => fail(out.scopes, Fault::SyntaxError("cond branch condition must be bool"@), out.rest),
                    Err(_) => Some(out),
                },
                None => None,
            }
        }
    }
}

/// The operands of an `and` from the `i`-th; `value` is the last value so far. Stops at `#f`.
pub open spec fn sem_and(
    hc: nat,
    sc: Scopes,
    l: Seq<Datum>,
    i: int,
    value: Datum,
    d: nat,
    t: Trace,
) -> Option<Outcome>
    decreases MAX_DEPTH - d, 0int, l.len() - i,
{
    if d >= MAX_DEPTH || i < 0 {
        None
    } else if i >= l.len() {
        ok(sc, value, t)
    } else {
        match sem_eval(hc, sc, l[i], d + 1, t) {
            Some(out) => match out.result {
                Ok(v) => if v == Datum::Bool(false) {
                    ok(out.scopes, v, out.rest)
                } else {
                    sem_and(hc, out.scopes, l, i + 1, v, d, out.rest)
                },
                Err(_) => Some(out),
            },
            None => None,
        }
    }
}

/// The operands of an `or` from the `i`-th; `value` is the last value so far. Stops at the
/// first value that is not `#f`.
pub open spec fn sem_or(
    hc: nat,
    sc: Scopes,
    l: Seq<Datum>,
    i: int,
    value: Datum,
    d: nat,
    t: Trace,
) -> Option<Outcome>
    decreases MAX_DEPTH - d, 0int, l.len() - i,
{
    if d >= MAX_DEPTH || i < 0 {
        None
    } else if i >= l.len() {
        ok(sc, value, t)
    } else {
        match sem_eval(hc, sc, l[i], d + 1, t) {
            Some(out) => match out.result {
                Ok(v) => if v != Datum::Bool(false) {
                    ok(out.scopes, v, out.rest)
                } else {
                    sem_or(hc, out.scopes, l, i + 1, v, d, out.rest)
                },
                Err(_) => Some(out),
            },
            None => None,
        }
    }
}

/// The arguments of a closure call from the `i`-th, each evaluated in the callee's new scope
/// and bound there to its parameter; then the body. The new scope is dropped on every way
/// out, a failing argument too.
pub open spec fn sem_call_args(
    hc: nat,
    sc: Scopes,
    params: Seq<Seq<char>>,
    body: Datum,
    l: Seq<Datum>,
    i: int,
    d: nat,
    t: Trace,
) -> Option<Outcome>
    decreases MAX_DEPTH - d, 0int, l.len() - i,
{
    if d >= MAX_DEPTH || i < 1 {
        None
    } else if i >= l.len() {
        match sem_eval(hc, sc, body, d + 1, t) {
            Some(out) => Some(
                Outcome {
                    scopes: pop_scope(out.scopes),
                    result: call_result(out.result),
                    rest: out.rest,
                },
            ),
            None => None,
        }
    } else {
        match sem_eval(hc, sc, l[i], d + 1, t) {
            Some(out) => match out.result {
                Ok(v) => sem_call_args(
                    hc,
                    define(out.scopes, params[i - 1], v),
                    params,
                    body,
                    l,
                    i + 1,
                    d,
                    out.rest,
                ),
                Err(e) => fail(pop_scope(out.scopes), e, out.rest),
            },
            None => None,
        }
    }
}

/// What calling host function `index` with `args` gives: an error when there is no such
/// host function; for a built-in (see [`builtin_names`]) whose arguments decide the result,
/// that result, the host not being called; otherwise the answer recorded in `t` when `t`
/// records that call next.
pub open spec fn sem_host_call(hc: nat, sc: Scopes, index: usize, args: Seq<Datum>, t: Trace) -> Option<Outcome> {
    let checked = check_builtin_spec(index as nat, args);
    if index >= hc {
        fail(sc, Fault::UnboundVariable("builtin "@ + decimal(index as nat)), t)
    } else if index < builtin_names().len() && checked is Fails {
        fail(sc, checked->Fails_0, t)
    } else if index < builtin_names().len() && checked is Gives {
        ok(sc, checked->Gives_0, t)
    } else if t.len() > 0 && t[0].index == index && t[0].args == args {
        Some(Outcome { scopes: sc, result: t[0].result, rest: t.skip(1) })
    } else {
        None
    }
}

/// The arguments of a host function call from the `i`-th, with the values `args` so far.
pub open spec fn sem_host_args(
    hc: nat,
    sc: Scopes,
    index: usize,
    l: Seq<Datum>,
    i: int,
    args: Seq<Datum>,
    d: nat,
    t: Trace,
) -> Option<Outcome>
    decreases MAX_DEPTH - d, 0int, l.len() - i,
{
    if d >= MAX_DEPTH || i < 0 {
        None
    } else if i >= l.len() {
        sem_host_call(hc, sc, index, args, t)
    } else {
        match sem_eval(hc, sc, l[i], d + 1, t) {
            Some(out) => match out.result {
                Ok(v) => sem_host_args(hc, out.scopes, index, l, i + 1, args.push(v), d, out.rest),
                Err(_) => Some(out),
            },
            None => None,
        }
    }
}

/// A list whose head is a symbol or a list: the head is evaluated and the list evaluated
/// again with the head's value in its place.
pub open spec fn sem_head(hc: nat, sc: Scopes, l: Seq<Datum>, d: nat, t: Trace) -> Option<Outcome>
    decreases MAX_DEPTH - d, 1int, 0int,
{
    if d >= MAX_DEPTH || l.len() == 0 {
        None
    } else {
        match sem_eval(hc, sc, l[0], d + 1, t) {
            Some(out) => match out.result {
                Ok(f) => sem_eval(
                    hc,
                    out.scopes,
                    Datum::List(seq![f] + l.skip(1)),
                    d + 1,
                    out.rest,
                ),
                Err(_) => Some(out),
            },
            None => None,
        }
    }
}

/// Any other list: its elements from the `i`-th in order, with the values `vals` so far;
/// the list of all their values.
pub open spec fn sem_seq(
    hc: nat,
    sc: Scopes,
    l: Seq<Datum>,
    i: int,
    vals: Seq<Datum>,
    d: nat,
    t: Trace,
) -> Option<Outcome>
    decreases MAX_DEPTH - d, 0int, l.len() - i,
{
    if d >= MAX_DEPTH || i < 0 {
        None
    } else if i >= l.len() {
        ok(sc, Datum::List(vals), t)
    } else {
        match sem_eval(hc, sc, l[i], d + 1, t) {
            Some(out) => match out.result {
                Ok(v) => sem_seq(hc, out.scopes, l, i + 1, vals.push(v), d, out.rest),
                Err(_) => Some(out),
            },
            None => None,
        }
    }
}

} // verus!
