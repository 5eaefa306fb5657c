use vstd::prelude::*;

use crate::atom::Datum;
use crate::builtins::{CheckedModel, check_builtin_spec, type_message};
use crate::eval::builtin_names;
use crate::eval::{Evaluator, evaluates};
use crate::laws::is_self_evaluating;
use crate::scope::Bindings;
use crate::semantics::{
    Fault, MAX_DEPTH, Outcome, Scopes, Trace, define, lookup, ok, push_scope, sem_call_args,
    sem_eval, sem_let_star, sem_let_star_bindings, sem_list,
};

verus! {

/// No name occurs twice in `ps`.
pub open spec fn distinct_names(ps: Seq<Seq<char>>) -> bool {
    forall|i: int, j: int| 0 <= i < j < ps.len() ==> ps[i] != ps[j]
}

/// The first `m` names of `ps` bound to the first `m` values of `vs`, in order.
pub open spec fn bind_pairs(ps: Seq<Seq<char>>, vs: Seq<Datum>, m: int) -> Bindings
    decreases m,
{
    if m <= 0 {
        Map::empty()
    } else {
        bind_pairs(ps, vs, m - 1).insert(ps[m - 1], vs[m - 1])
    }
}

/// With distinct names, the `k`-th name reads as the `k`-th value once it is bound.
proof fn lemma_bind_pairs(ps: Seq<Seq<char>>, vs: Seq<Datum>, m: int, k: int)
    requires
        distinct_names(ps),
        0 <= k < m <= ps.len(),
    ensures
        bind_pairs(ps, vs, m).dom().contains(ps[k]),
        bind_pairs(ps, vs, m)[ps[k]] == vs[k],
    decreases m,
{
    if k < m - 1 {
        lemma_bind_pairs(ps, vs, m - 1, k);
        assert(ps[k] != ps[m - 1]);
    }
}

/// Binding in the innermost scope `m` of `sc.push(m)`.
proof fn lemma_define_top(sc: Scopes, m: Bindings, name: Seq<char>, v: Datum)
    ensures
        define(sc.push(m), name, v) == sc.push(m.insert(name, v)),
{
    assert(sc.push(m).drop_last() =~= sc);
    assert(define(sc.push(m), name, v) =~= sc.push(m.insert(name, v)));
}

/// `(f a_1 ... a_n)` with `f` the closure `params` → `body` and the arguments `args`.
pub open spec fn call_form(params: Seq<Seq<char>>, body: Datum, args: Seq<Datum>) -> Datum {
    Datum::List(seq![Datum::Function(params, Box::new(body))] + args)
}

proof fn lemma_call_args_bind(
    hc: nat,
    sc: Scopes,
    ps: Seq<Seq<char>>,
    args: Seq<Datum>,
    k: int,
    d: nat,
    t: Trace,
    i: int,
)
    requires
        distinct_names(ps),
        ps.len() == args.len(),
        forall|j: int| 0 <= j < args.len() ==> is_self_evaluating(#[trigger] args[j]),
        0 <= k < ps.len(),
        d + 1 < MAX_DEPTH,
        1 <= i <= args.len() + 1,
    ensures
        sem_call_args(
            hc,
            sc.push(bind_pairs(ps, args, i - 1)),
            ps,
            Datum::Symbol(ps[k]),
            seq![Datum::Function(ps, Box::new(Datum::Symbol(ps[k])))] + args,
            i,
            d,
            t,
        ) == Some(Outcome { scopes: sc, result: Ok::<Datum, Fault>(args[k]), rest: t }),
    decreases args.len() + 1 - i,
{
    let l = seq![Datum::Function(ps, Box::new(Datum::Symbol(ps[k])))] + args;
    let s = sc.push(bind_pairs(ps, args, i - 1));
    if i <= args.len() {
        let v = args[i - 1];
        assert(l[i] == v);
        assert(sem_eval(hc, s, v, d + 1, t) == ok(s, v, t));
        lemma_define_top(sc, bind_pairs(ps, args, i - 1), ps[i - 1], v);
        lemma_call_args_bind(hc, sc, ps, args, k, d, t, i + 1);
    } else {
        lemma_bind_pairs(ps, args, args.len() as int, k);
        assert(lookup(s, ps[k]) == Some(args[k]));
        assert(sem_eval(hc, s, Datum::Symbol(ps[k]), d + 1, t) == ok(s, args[k], t));
        assert(s.drop_last() =~= sc);
    }
}

/// A closure call binds the `k`-th parameter to the value of the `k`-th argument: calling
/// the closure with distinct parameters `ps` whose body reads `ps[k]`, on arguments that
/// evaluate to themselves, gives the `k`-th argument, leaves the scopes as they were and
/// calls no host function. So `((lambda (a b) a) 1 2)` gives `1` and `((lambda (a b) b) 1
/// 2)` gives `2`.
pub proof fn law_call_binds_parameters_in_order(
    hc: nat,
    sc: Scopes,
    ps: Seq<Seq<char>>,
    args: Seq<Datum>,
    k: int,
    d: nat,
    t: Trace,
)
    requires
        distinct_names(ps),
        ps.len() == args.len(),
        forall|j: int| 0 <= j < args.len() ==> is_self_evaluating(#[trigger] args[j]),
        0 <= k < ps.len(),
        d + 1 < MAX_DEPTH,
    ensures
        sem_eval(hc, sc, call_form(ps, Datum::Symbol(ps[k]), args), d, t) == Some(
            Outcome { scopes: sc, result: Ok::<Datum, Fault>(args[k]), rest: t },
        ),
        forall|after: Scopes, r: Result<Datum, Fault>|
            #[trigger] evaluates(hc, sc, call_form(ps, Datum::Symbol(ps[k]), args), after, r) ==> after == sc
                && r == Ok::<Datum, Fault>(args[k]),
{
    let l = seq![Datum::Function(ps, Box::new(Datum::Symbol(ps[k])))] + args;
    assert(bind_pairs(ps, args, 0) == Map::<Seq<char>, Datum>::empty());
    assert(push_scope(sc) == sc.push(bind_pairs(ps, args, 0)));
    assert(l[0] == Datum::Function(ps, Box::new(Datum::Symbol(ps[k]))));
    assert(l.len() - 1 == ps.len());
    assert(sem_list(hc, sc, l, d, t) == sem_call_args(hc, push_scope(sc), ps, Datum::Symbol(ps[k]), l, 1, d, t));
    lemma_call_args_bind(hc, sc, ps, args, k, d, t, 1);
    assert forall|after: Scopes, r: Result<Datum, Fault>|
        #[trigger] evaluates(hc, sc, call_form(ps, Datum::Symbol(ps[k]), args), after, r) implies after == sc
            && r == Ok::<Datum, Fault>(args[k]) by {
        let t2 = choose|t2: Trace|
            #[trigger] sem_eval(hc, sc, call_form(ps, Datum::Symbol(ps[k]), args), 0, t2) == Some(
                Outcome { scopes: after, result: r, rest: Seq::empty() },
            );
        assert(sem_list(hc, sc, l, 0, t2) == sem_call_args(hc, push_scope(sc), ps, Datum::Symbol(ps[k]), l, 1, 0, t2));
        lemma_call_args_bind(hc, sc, ps, args, k, 0, t2, 1);
    }
}

/// The bindings `((n_1 v_1) ... (n_m v_m))` of a `let` or `let*`.
pub open spec fn binding_list(ns: Seq<Seq<char>>, vs: Seq<Datum>) -> Seq<Datum> {
    Seq::new(ns.len(), |j: int| Datum::List(seq![Datum::Symbol(ns[j]), vs[j]]))
}

/// `(let* ((n_1 v_1) ... (n_m v_m)) body)`.
pub open spec fn let_star_form(ns: Seq<Seq<char>>, vs: Seq<Datum>, body: Datum) -> Datum {
    Datum::List(seq![Datum::Symbol("let*"@), Datum::List(binding_list(ns, vs)), body])
}

proof fn lemma_let_star_bind(
    hc: nat,
    sc: Scopes,
    ns: Seq<Seq<char>>,
    vs: Seq<Datum>,
    k: int,
    d: nat,
    t: Trace,
    i: int,
)
    requires
        distinct_names(ns),
        ns.len() == vs.len(),
        forall|j: int| 0 <= j < vs.len() ==> is_self_evaluating(#[trigger] vs[j]),
        0 <= k < ns.len(),
        d + 1 < MAX_DEPTH,
        0 <= i <= vs.len(),
    ensures
        sem_let_star_bindings(
            hc,
            sc.push(bind_pairs(ns, vs, i)),
            binding_list(ns, vs),
            i,
            Datum::Symbol(ns[k]),
            d,
            t,
        ) == Some(Outcome { scopes: sc, result: Ok::<Datum, Fault>(vs[k]), rest: t }),
    decreases vs.len() - i,
{
    let bs = binding_list(ns, vs);
    let s = sc.push(bind_pairs(ns, vs, i));
    if i < vs.len() {
        let v = vs[i];
        let pair = seq![Datum::Symbol(ns[i]), v];
        assert(bs[i] == Datum::List(pair));
        assert(pair[1] == v);
        assert(sem_eval(hc, s, v, d + 1, t) == ok(s, v, t));
        lemma_define_top(sc, bind_pairs(ns, vs, i), ns[i], v);
        lemma_let_star_bind(hc, sc, ns, vs, k, d, t, i + 1);
    } else {
        lemma_bind_pairs(ns, vs, vs.len() as int, k);
        assert(lookup(s, ns[k]) == Some(vs[k]));
        assert(sem_eval(hc, s, Datum::Symbol(ns[k]), d + 1, t) == ok(s, vs[k], t));
        assert(s.drop_last() =~= sc);
    }
}

proof fn lemma_let_star_dispatch(hc: nat, sc: Scopes, l: Seq<Datum>, d: nat, t: Trace)
    requires
        l.len() == 3,
        l[0] == Datum::Symbol("let*"@),
        d < MAX_DEPTH,
    ensures
        sem_list(hc, sc, l, d, t) == sem_let_star(hc, sc, l, d, t),
{
    reveal_strlit("let*");
    reveal_strlit("set!");
    reveal_strlit("define");
    reveal_strlit("lambda");
    reveal_strlit("let");
    assert("let*"@ != "set!"@) by {
        assert("let*"@[3] != "set!"@[3]);
    }
    assert("let*"@ != "define"@) by {
        assert("let*"@.len() != "define"@.len());
    }
    assert("let*"@ != "lambda"@) by {
        assert("let*"@.len() != "lambda"@.len());
    }
    assert("let*"@ != "let"@) by {
        assert("let*"@.len() != "let"@.len());
    }
}

/// `let*` binds in a new innermost scope, which it drops afterwards: with distinct names
/// bound to values that evaluate to themselves, a body that reads the `k`-th name gives the
/// `k`-th value, and the scopes afterwards are those before, so every name, one that the
/// `let*` bound among them, reads afterwards as it did before. No host function is called.
pub proof fn law_let_star_binds_in_a_dropped_scope(
    hc: nat,
    sc: Scopes,
    ns: Seq<Seq<char>>,
    vs: Seq<Datum>,
    k: int,
    d: nat,
    t: Trace,
)
    requires
        distinct_names(ns),
        ns.len() == vs.len(),
        forall|j: int| 0 <= j < vs.len() ==> is_self_evaluating(#[trigger] vs[j]),
        0 <= k < ns.len(),
        d + 1 < MAX_DEPTH,
    ensures
        sem_eval(hc, sc, let_star_form(ns, vs, Datum::Symbol(ns[k])), d, t) == Some(
            Outcome { scopes: sc, result: Ok::<Datum, Fault>(vs[k]), rest: t },
        ),
        forall|after: Scopes, r: Result<Datum, Fault>|
            #[trigger] evaluates(hc, sc, let_star_form(ns, vs, Datum::Symbol(ns[k])), after, r) ==> after == sc
                && r == Ok::<Datum, Fault>(vs[k]),
{
    let l = seq![Datum::Symbol("let*"@), Datum::List(binding_list(ns, vs)), Datum::Symbol(ns[k])];
    assert(bind_pairs(ns, vs, 0) == Map::<Seq<char>, Datum>::empty());
    assert(push_scope(sc) == sc.push(bind_pairs(ns, vs, 0)));
    lemma_let_star_dispatch(hc, sc, l, d, t);
    lemma_let_star_bind(hc, sc, ns, vs, k, d, t, 0);
    assert forall|after: Scopes, r: Result<Datum, Fault>|
        #[trigger] evaluates(hc, sc, let_star_form(ns, vs, Datum::Symbol(ns[k])), after, r) implies after == sc
            && r == Ok::<Datum, Fault>(vs[k]) by {
        let t2 = choose|t2: Trace|
            #[trigger] sem_eval(hc, sc, let_star_form(ns, vs, Datum::Symbol(ns[k])), 0, t2) == Some(
                Outcome { scopes: after, result: r, rest: Seq::empty() },
            );
        lemma_let_star_dispatch(hc, sc, l, 0, t2);
        lemma_let_star_bind(hc, sc, ns, vs, k, 0, t2, 0);
    }
}

/// `(cond (#f x_1) ... (#f x_m) (#t e) more...)`.
pub open spec fn cond_form(xs: Seq<Datum>, e: Datum, more: Seq<Datum>) -> Datum {
    Datum::List(
        seq![Datum::Symbol("cond"@)] + Seq::new(
            xs.len(),
            |j: int| Datum::List(seq![Datum::Bool(false), xs[j]]),
        ) + seq![Datum::List(seq![Datum::Bool(true), e])] + more,
    )
}

proof fn lemma_cond_branches(
    hc: nat,
    sc: Scopes,
    xs: Seq<Datum>,
    e: Datum,
    more: Seq<Datum>,
    d: nat,
    t: Trace,
    i: int,
)
    requires
        d + 1 < MAX_DEPTH,
        1 <= i <= xs.len() + 1,
    ensures
        crate::semantics::sem_cond(hc, sc, cond_form(xs, e, more)->List_0, i, Datum::Nil, d, t)
            == sem_eval(hc, sc, e, d + 1, t),
    decreases xs.len() + 1 - i,
{
    let l = cond_form(xs, e, more)->List_0;
    if i <= xs.len() {
        assert(l[i] == Datum::List(seq![Datum::Bool(false), xs[i - 1]]));
        assert(sem_eval(hc, sc, Datum::Bool(false), d + 1, t) == ok(sc, Datum::Bool(false), t));
        lemma_cond_branches(hc, sc, xs, e, more, d, t, i + 1);
    } else {
        assert(l[i] == Datum::List(seq![Datum::Bool(true), e]));
        assert(sem_eval(hc, sc, Datum::Bool(true), d + 1, t) == ok(sc, Datum::Bool(true), t));
    }
}

/// A `cond` evaluates the value expression of its first branch whose condition holds: when
/// the branches before it have conditions `#f` and its condition is `#t`, the `cond` has
/// exactly the outcome of evaluating that branch's expression `e` (one level deeper), in
/// the same scopes and with the same host answers, whatever branches follow.
pub proof fn law_cond_evaluates_the_chosen_branch(
    hc: nat,
    sc: Scopes,
    xs: Seq<Datum>,
    e: Datum,
    more: Seq<Datum>,
    d: nat,
    t: Trace,
)
    requires
        d + 1 < MAX_DEPTH,
    ensures
        sem_eval(hc, sc, cond_form(xs, e, more), d, t) == sem_eval(hc, sc, e, d + 1, t),
{
    let l = cond_form(xs, e, more)->List_0;
    reveal_strlit("cond");
    reveal_strlit("set!");
    reveal_strlit("define");
    reveal_strlit("lambda");
    reveal_strlit("let");
    reveal_strlit("let*");
    reveal_strlit("if");
    assert(l[0] == Datum::Symbol("cond"@));
    assert("cond"@ != "set!"@) by {
        assert("cond"@[0] != "set!"@[0]);
    }
    assert("cond"@ != "define"@) by {
        assert("cond"@.len() != "define"@.len());
    }
    assert("cond"@ != "lambda"@) by {
        assert("cond"@.len() != "lambda"@.len());
    }
    assert("cond"@ != "let"@) by {
        assert("cond"@.len() != "let"@.len());
    }
    assert("cond"@ != "let*"@) by {
        assert("cond"@[0] != "let*"@[0]);
    }
    assert("cond"@ != "if"@) by {
        assert("cond"@.len() != "if"@.len());
    }
    assert(l.len() >= 2);
    assert(sem_list(hc, sc, l, d, t) == crate::semantics::sem_cond(hc, sc, l, 1, Datum::Nil, d, t));
    lemma_cond_branches(hc, sc, xs, e, more, d, t, 1);
}

/// The symbols named `ps`.
pub open spec fn symbols(ps: Seq<Seq<char>>) -> Seq<Datum> {
    Seq::new(ps.len(), |j: int| Datum::Symbol(ps[j]))
}

/// `(lambda (p...) body...)`.
pub open spec fn lambda_form(ps: Seq<Seq<char>>, bodies: Seq<Datum>) -> Datum {
    Datum::List(seq![Datum::Symbol("lambda"@), Datum::List(symbols(ps))] + bodies)
}

/// `(define (f p...) body...)`.
pub open spec fn define_function_form(f: Seq<char>, ps: Seq<Seq<char>>, bodies: Seq<Datum>) -> Datum {
    Datum::List(seq![Datum::Symbol("define"@), Datum::List(seq![Datum::Symbol(f)] + symbols(ps))] + bodies)
}

/// A `define` of a function binds the closure that the matching `lambda` gives, keeping
/// every body expression: `(lambda (p...) body...)` evaluates to the closure with
/// parameters `p...` whose body is the single expression, or the list of all of them when
/// there are several; and `(define (f p...) body...)` gives `()` and binds `f`, in the
/// innermost scope, to that same closure, so that `f` reads as it afterwards.
pub proof fn law_define_function_is_lambda(
    hc: nat,
    sc: Scopes,
    f: Seq<char>,
    ps: Seq<Seq<char>>,
    bodies: Seq<Datum>,
    d: nat,
    t: Trace,
)
    requires
        bodies.len() >= 1,
        d < MAX_DEPTH,
    ensures
        ({
            let closure = Datum::Function(
                ps,
                Box::new(if bodies.len() == 1 { bodies[0] } else { Datum::List(bodies) }),
            );
            &&& sem_eval(hc, sc, lambda_form(ps, bodies), d, t) == ok(sc, closure, t)
            &&& sem_eval(hc, sc, define_function_form(f, ps, bodies), d, t) == ok(
                define(sc, f, closure),
                Datum::Nil,
                t,
            )
            &&& lookup(define(sc, f, closure), f) == Some(closure)
        }),
{
    reveal_strlit("set!");
    reveal_strlit("define");
    reveal_strlit("lambda");
    assert("define"@ != "set!"@) by {
        assert("define"@.len() != "set!"@.len());
    }
    assert("lambda"@ != "set!"@) by {
        assert("lambda"@.len() != "set!"@.len());
    }
    assert("lambda"@ != "define"@) by {
        assert("lambda"@[0] != "define"@[0]);
    }
    let syms = symbols(ps);
    assert(crate::semantics::all_symbols(syms));
    assert(crate::semantics::symbol_names(syms) =~= ps);
    let lam = seq![Datum::Symbol("lambda"@), Datum::List(syms)] + bodies;
    assert(lam.skip(2) =~= bodies);
    assert(lam[0] == Datum::Symbol("lambda"@));
    assert(lam[1] == Datum::List(syms));
    assert(sem_list(hc, sc, lam, d, t) == crate::semantics::sem_lambda(sc, lam, t));
    let sig = seq![Datum::Symbol(f)] + syms;
    let def = seq![Datum::Symbol("define"@), Datum::List(sig)] + bodies;
    assert(def.skip(2) =~= bodies);
    assert(def[0] == Datum::Symbol("define"@));
    assert(def[1] == Datum::List(sig));
    assert(sig.skip(1) =~= syms);
    assert(sig[0] == Datum::Symbol(f));
    assert(sem_list(hc, sc, def, d, t) == crate::semantics::sem_define(hc, sc, def, d, t));
}

/// Each built-in name stands for the built-in whose argument check is written for it:
/// the seventeen names are distinct; the built-in of a name that takes only numbers reports
/// a non-number as `<name> only takes number` (`=` adds `, try equal?`); the built-in named
/// `equal?` lets any two or more atoms be compared; the one named `number?` gives whether
/// its one argument is a number; and the one named `integer?` hands a number on to be
/// looked at and answers `#f` for anything else. As [`Evaluator::new`] binds each name to
/// the host function of its position, the name `-` reaches subtraction's check, `/`
/// division's, and so on.
pub proof fn law_builtin_names_match_their_checks()
    ensures
        builtin_names().len() == 17,
        distinct_names(builtin_names()),
        forall|k: int|
            0 <= k < 17 && k != 4 && k != 5 && k != 15 && k != 16 ==> #[trigger] type_message(k as nat)
                == builtin_names()[k] + " only takes number"@,
        type_message(5) == builtin_names()[5] + " only takes number, try equal?"@,
        forall|k: int, args: Seq<Datum>|
            0 <= k < 17 && builtin_names()[k] == "equal?"@ && args.len() >= 2 ==> #[trigger] check_builtin_spec(
                k as nat,
                args,
            ) == CheckedModel::Compare,
        forall|k: int, a: Datum|
            0 <= k < 17 && builtin_names()[k] == "number?"@ ==> #[trigger] check_builtin_spec(k as nat, seq![a])
                == CheckedModel::Gives(Datum::Bool(a is Number)),
        forall|k: int, a: Datum|
            0 <= k < 17 && builtin_names()[k] == "integer?"@ ==> #[trigger] check_builtin_spec(k as nat, seq![a])
                == if a is Number {
                CheckedModel::Numbers(seq![a->Number_0])
            } else {
                CheckedModel::Gives(Datum::Bool(false))
            },
{
    reveal_strlit("+");
    reveal_strlit("*");
    reveal_strlit("-");
    reveal_strlit("/");
    reveal_strlit("equal?");
    reveal_strlit("=");
    reveal_strlit("<");
    reveal_strlit(">");
    reveal_strlit("<=");
    reveal_strlit(">=");
    reveal_strlit("floor");
    reveal_strlit("ceiling");
    reveal_strlit("truncate");
    reveal_strlit("round");
    reveal_strlit("sqrt");
    reveal_strlit("number?");
    reveal_strlit("integer?");
    reveal_strlit(" only takes number");
    reveal_strlit(" only takes number, try equal?");
    reveal_strlit("+ only takes number");
    reveal_strlit("* only takes number");
    reveal_strlit("- only takes number");
    reveal_strlit("/ only takes number");
    reveal_strlit("< only takes number");
    reveal_strlit("> only takes number");
    reveal_strlit("<= only takes number");
    reveal_strlit(">= only takes number");
    reveal_strlit("floor only takes number");
    reveal_strlit("ceiling only takes number");
    reveal_strlit("truncate only takes number");
    reveal_strlit("round only takes number");
    reveal_strlit("sqrt only takes number");
    reveal_strlit("= only takes number, try equal?");
    let b = builtin_names();
    assert(b.len() == 17);
    assert forall|i: int, j: int| 0 <= i < j < b.len() implies b[i] != b[j] by {
        if b[i] == b[j] {
            assert(b[i].len() == b[j].len());
            assert(b[i][0] == b[j][0]);
        }
        assert(b[0] =~= "+"@);
        assert(b[1] =~= "*"@);
        assert(b[2] =~= "-"@);
        assert(b[3] =~= "/"@);
        assert(b[4] =~= "equal?"@);
        assert(b[5] =~= "="@);
        assert(b[6] =~= "<"@);
        assert(b[7] =~= ">"@);
        assert(b[8] =~= "<="@);
        assert(b[9] =~= ">="@);
        assert(b[10] =~= "floor"@);
        assert(b[11] =~= "ceiling"@);
        assert(b[12] =~= "truncate"@);
        assert(b[13] =~= "round"@);
        assert(b[14] =~= "sqrt"@);
        assert(b[15] =~= "number?"@);
        assert(b[16] =~= "integer?"@);
    }
    assert forall|k: int| 0 <= k < 17 && k != 4 && k != 5 && k != 15 && k != 16 implies #[trigger] type_message(k as nat) == b[k] + " only takes number"@ by {
        if k == 0 {
            assert(type_message(k as nat) =~= b[k] + " only takes number"@);
        }
        if k == 1 {
            assert(type_message(k as nat) =~= b[k] + " only takes number"@);
        }
        if k == 2 {
            assert(type_message(k as nat) =~= b[k] + " only takes number"@);
        }
        if k == 3 {
            assert(type_message(k as nat) =~= b[k] + " only takes number"@);
        }
        if k == 6 {
            assert(type_message(k as nat) =~= b[k] + " only takes number"@);
        }
        if k == 7 {
            assert(type_message(k as nat) =~= b[k] + " only takes number"@);
        }
        if k == 8 {
            assert(type_message(k as nat) =~= b[k] + " only takes number"@);
        }
        if k == 9 {
            assert(type_message(k as nat) =~= b[k] + " only takes number"@);
        }
        if k == 10 {
            assert(type_message(k as nat) =~= b[k] + " only takes number"@);
        }
        if k == 11 {
            assert(type_message(k as nat) =~= b[k] + " only takes number"@);
        }
        if k == 12 {
            assert(type_message(k as nat) =~= b[k] + " only takes number"@);
        }
        if k == 13 {
            assert(type_message(k as nat) =~= b[k] + " only takes number"@);
        }
        if k == 14 {
            assert(type_message(k as nat) =~= b[k] + " only takes number"@);
        }
    }
    assert(type_message(5) =~= b[5] + " only takes number, try equal?"@);
    assert forall|k: int| 0 <= k < 17 && #[trigger] b[k] == "equal?"@ implies k == 4 by {}
    assert forall|k: int| 0 <= k < 17 && #[trigger] b[k] == "number?"@ implies k == 15 by {}
    assert forall|k: int| 0 <= k < 17 && #[trigger] b[k] == "integer?"@ implies k == 16 by {}
    assert forall|k: int, a: Datum| 0 <= k < 17 && b[k] == "integer?"@ implies #[trigger] check_builtin_spec(k as nat, seq![a]) == if a is Number { CheckedModel::Numbers(seq![a->Number_0]) } else { CheckedModel::Gives(Datum::Bool(false)) } by {
        assert(k == 16);
        if a is Number {
            assert(crate::builtins::numerals(seq![a]) =~= seq![a->Number_0]);
        }
    }
}

/// The keywords of the special forms differ from one another.
proof fn lemma_keywords()
    ensures
        "set!"@ != "define"@,
        "set!"@ != "lambda"@,
        "set!"@ != "let"@,
        "set!"@ != "let*"@,
        "set!"@ != "if"@,
        "set!"@ != "and"@,
        "set!"@ != "or"@,
        "define"@ != "lambda"@,
        "define"@ != "let"@,
        "define"@ != "let*"@,
        "define"@ != "if"@,
        "define"@ != "and"@,
        "define"@ != "or"@,
        "lambda"@ != "let"@,
        "lambda"@ != "let*"@,
        "lambda"@ != "if"@,
        "lambda"@ != "and"@,
        "lambda"@ != "or"@,
        "let"@ != "let*"@,
        "let"@ != "if"@,
        "let"@ != "and"@,
        "let"@ != "or"@,
        "let*"@ != "if"@,
        "let*"@ != "and"@,
        "let*"@ != "or"@,
        "if"@ != "and"@,
        "if"@ != "or"@,
        "if"@ != "cond"@,
        "and"@ != "or"@,
        "and"@ != "cond"@,
        "or"@ != "cond"@,
        "set!"@ != "cond"@,
        "define"@ != "cond"@,
        "lambda"@ != "cond"@,
        "let"@ != "cond"@,
        "let*"@ != "cond"@,
{
    reveal_strlit("set!");
    reveal_strlit("define");
    reveal_strlit("lambda");
    reveal_strlit("let");
    reveal_strlit("let*");
    reveal_strlit("if");
    reveal_strlit("cond");
    reveal_strlit("and");
    reveal_strlit("or");
    assert("set!"@[0] != "let*"@[0]);
    assert("set!"@[0] != "cond"@[0]);
    assert("let*"@[0] != "cond"@[0]);
    assert("define"@[0] != "lambda"@[0]);
    assert("let"@[0] != "and"@[0]);
    assert("if"@[0] != "or"@[0]);
    assert("lambda"@.len() != "let"@.len());
    assert("lambda"@.len() != "let*"@.len());
    assert("let"@.len() != "let*"@.len());
}

/// The first `m` pairs of names `ns` and values `vs`.
pub open spec fn pairs(ns: Seq<Seq<char>>, vs: Seq<Datum>, m: int) -> Seq<(Seq<char>, Datum)> {
    Seq::new(m as nat, |j: int| (ns[j], vs[j]))
}

proof fn lemma_define_all_pairs(sc: Scopes, ns: Seq<Seq<char>>, vs: Seq<Datum>, m: int)
    requires
        0 <= m,
    ensures
        crate::semantics::define_all(sc.push(Map::empty()), pairs(ns, vs, m)) == sc.push(bind_pairs(ns, vs, m)),
    decreases m,
{
    if m > 0 {
        assert(pairs(ns, vs, m).drop_last() =~= pairs(ns, vs, m - 1));
        lemma_define_all_pairs(sc, ns, vs, m - 1);
        lemma_define_top(sc, bind_pairs(ns, vs, m - 1), ns[m - 1], vs[m - 1]);
    } else {
        assert(bind_pairs(ns, vs, 0) == Map::<Seq<char>, Datum>::empty());
    }
}

/// `(let ((n_1 v_1) ... (n_m v_m)) body)`.
pub open spec fn let_form(ns: Seq<Seq<char>>, vs: Seq<Datum>, body: Datum) -> Datum {
    Datum::List(seq![Datum::Symbol("let"@), Datum::List(binding_list(ns, vs)), body])
}

proof fn lemma_let_bind(
    hc: nat,
    sc: Scopes,
    ns: Seq<Seq<char>>,
    vs: Seq<Datum>,
    k: int,
    d: nat,
    t: Trace,
    i: int,
)
    requires
        distinct_names(ns),
        ns.len() == vs.len(),
        forall|j: int| 0 <= j < vs.len() ==> is_self_evaluating(#[trigger] vs[j]),
        0 <= k < ns.len(),
        d + 1 < MAX_DEPTH,
        0 <= i <= vs.len(),
    ensures
        crate::semantics::sem_let_bindings(
            hc,
            sc,
            binding_list(ns, vs),
            i,
            pairs(ns, vs, i),
            Datum::Symbol(ns[k]),
            d,
            t,
        ) == Some(Outcome { scopes: sc, result: Ok::<Datum, Fault>(vs[k]), rest: t }),
    decreases vs.len() - i,
{
    let bs = binding_list(ns, vs);
    if i < vs.len() {
        let v = vs[i];
        assert(bs[i] == Datum::List(seq![Datum::Symbol(ns[i]), v]));
        assert(sem_eval(hc, sc, v, d + 1, t) == ok(sc, v, t));
        assert(pairs(ns, vs, i).push((ns[i], v)) =~= pairs(ns, vs, i + 1));
        lemma_let_bind(hc, sc, ns, vs, k, d, t, i + 1);
    } else {
        lemma_define_all_pairs(sc, ns, vs, i);
        let s = sc.push(bind_pairs(ns, vs, i));
        lemma_bind_pairs(ns, vs, vs.len() as int, k);
        assert(push_scope(sc) == sc.push(Map::empty()));
        assert(sem_eval(hc, s, Datum::Symbol(ns[k]), d + 1, t) == ok(s, vs[k], t));
        assert(s.drop_last() =~= sc);
    }
}

/// `let` evaluates its values in the scopes as they are and binds them in a new innermost
/// scope, which it drops afterwards: with distinct names bound to values that evaluate to
/// themselves, a body that reads the `k`-th name gives the `k`-th value, and the scopes
/// afterwards are those before. No host function is called.
pub proof fn law_let_binds_in_a_dropped_scope(
    hc: nat,
    sc: Scopes,
    ns: Seq<Seq<char>>,
    vs: Seq<Datum>,
    k: int,
    d: nat,
    t: Trace,
)
    requires
        distinct_names(ns),
        ns.len() == vs.len(),
        forall|j: int| 0 <= j < vs.len() ==> is_self_evaluating(#[trigger] vs[j]),
        0 <= k < ns.len(),
        d + 1 < MAX_DEPTH,
    ensures
        sem_eval(hc, sc, let_form(ns, vs, Datum::Symbol(ns[k])), d, t) == Some(
            Outcome { scopes: sc, result: Ok::<Datum, Fault>(vs[k]), rest: t },
        ),
{
    lemma_keywords();
    let l = seq![Datum::Symbol("let"@), Datum::List(binding_list(ns, vs)), Datum::Symbol(ns[k])];
    assert(pairs(ns, vs, 0) =~= Seq::<(Seq<char>, Datum)>::empty());
    assert(sem_list(hc, sc, l, d, t) == crate::semantics::sem_let(hc, sc, l, d, t));
    lemma_let_bind(hc, sc, ns, vs, k, d, t, 0);
}

/// `(if c a b)`.
pub open spec fn if_form(c: Datum, a: Datum, b: Datum) -> Datum {
    Datum::List(seq![Datum::Symbol("if"@), c, a, b])
}

/// `(if c a)`.
pub open spec fn if_then_form(c: Datum, a: Datum) -> Datum {
    Datum::List(seq![Datum::Symbol("if"@), c, a])
}

/// `if` chooses by its condition: with a condition that evaluates to itself, `(if c a b)`
/// has the outcome of `b` when `c` is `#f` and of `a` otherwise (evaluated one level
/// deeper, in the same scopes, with the same host answers); `(if c a)` gives `()` when
/// `c` is `#f`.
pub proof fn law_if_chooses_by_its_condition(hc: nat, sc: Scopes, c: Datum, a: Datum, b: Datum, d: nat, t: Trace)
    requires
        is_self_evaluating(c),
        d + 1 < MAX_DEPTH,
    ensures
        sem_eval(hc, sc, if_form(c, a, b), d, t) == if c == Datum::Bool(false) {
            sem_eval(hc, sc, b, d + 1, t)
        } else {
            sem_eval(hc, sc, a, d + 1, t)
        },
        sem_eval(hc, sc, if_then_form(c, a), d, t) == if c == Datum::Bool(false) {
            ok(sc, Datum::Nil, t)
        } else {
            sem_eval(hc, sc, a, d + 1, t)
        },
{
    lemma_keywords();
    let l = seq![Datum::Symbol("if"@), c, a, b];
    let l2 = seq![Datum::Symbol("if"@), c, a];
    assert(sem_eval(hc, sc, c, d + 1, t) == ok(sc, c, t));
    assert(sem_list(hc, sc, l, d, t) == crate::semantics::sem_if(hc, sc, l, d, t));
    assert(sem_list(hc, sc, l2, d, t) == crate::semantics::sem_if(hc, sc, l2, d, t));
}

/// `(and v...)`.
pub open spec fn and_form(vs: Seq<Datum>) -> Datum {
    Datum::List(seq![Datum::Symbol("and"@)] + vs)
}

/// `(or v...)`.
pub open spec fn or_form(vs: Seq<Datum>) -> Datum {
    Datum::List(seq![Datum::Symbol("or"@)] + vs)
}

proof fn lemma_and_steps(hc: nat, sc: Scopes, vs: Seq<Datum>, value: Datum, d: nat, t: Trace, i: int)
    requires
        forall|j: int| 0 <= j < vs.len() ==> is_self_evaluating(#[trigger] vs[j]),
        d + 1 < MAX_DEPTH,
        1 <= i <= vs.len() + 1,
    ensures
        (forall|j: int| i - 1 <= j < vs.len() ==> #[trigger] vs[j] != Datum::Bool(false)) ==> crate::semantics::sem_and(
            hc,
            sc,
            seq![Datum::Symbol("and"@)] + vs,
            i,
            value,
            d,
            t,
        ) == ok(sc, if i - 1 == vs.len() { value } else { vs[vs.len() - 1] }, t),
        forall|j: int|
            i - 1 <= j < vs.len() && #[trigger] vs[j] == Datum::Bool(false) && (forall|m: int|
                i - 1 <= m < j ==> vs[m] != Datum::Bool(false)) ==> crate::semantics::sem_and(
                hc,
                sc,
                seq![Datum::Symbol("and"@)] + vs,
                i,
                value,
                d,
                t,
            ) == ok(sc, Datum::Bool(false), t),
    decreases vs.len() + 1 - i,
{
    let l = seq![Datum::Symbol("and"@)] + vs;
    if i <= vs.len() {
        assert(l[i] == vs[i - 1]);
        assert(sem_eval(hc, sc, vs[i - 1], d + 1, t) == ok(sc, vs[i - 1], t));
        lemma_and_steps(hc, sc, vs, vs[i - 1], d, t, i + 1);
    }
}

proof fn lemma_or_steps(hc: nat, sc: Scopes, vs: Seq<Datum>, value: Datum, d: nat, t: Trace, i: int)
    requires
        forall|j: int| 0 <= j < vs.len() ==> is_self_evaluating(#[trigger] vs[j]),
        d + 1 < MAX_DEPTH,
        1 <= i <= vs.len() + 1,
        value == Datum::Bool(false),
    ensures
        (forall|j: int| i - 1 <= j < vs.len() ==> #[trigger] vs[j] == Datum::Bool(false)) ==> crate::semantics::sem_or(
            hc,
            sc,
            seq![Datum::Symbol("or"@)] + vs,
            i,
            value,
            d,
            t,
        ) == ok(sc, Datum::Bool(false), t),
        forall|j: int|
            i - 1 <= j < vs.len() && #[trigger] vs[j] != Datum::Bool(false) && (forall|m: int|
                i - 1 <= m < j ==> vs[m] == Datum::Bool(false)) ==> crate::semantics::sem_or(
                hc,
                sc,
                seq![Datum::Symbol("or"@)] + vs,
                i,
                value,
                d,
                t,
            ) == ok(sc, vs[j], t),
    decreases vs.len() + 1 - i,
{
    let l = seq![Datum::Symbol("or"@)] + vs;
    if i <= vs.len() {
        assert(l[i] == vs[i - 1]);
        assert(sem_eval(hc, sc, vs[i - 1], d + 1, t) == ok(sc, vs[i - 1], t));
        lemma_or_steps(hc, sc, vs, Datum::Bool(false), d, t, i + 1);
    }
}

/// `and` gives the first `#f` among its operands, or, when there is none, its last operand
/// (`#t` when it has none); `or` gives its first operand that is not `#f`, or `#f` when all
/// are. Shown for operands that evaluate to themselves; the scopes stay as they are and no
/// host function is called.
pub proof fn law_and_or_stop_at_the_deciding_operand(hc: nat, sc: Scopes, vs: Seq<Datum>, d: nat, t: Trace)
    requires
        forall|j: int| 0 <= j < vs.len() ==> is_self_evaluating(#[trigger] vs[j]),
        d + 1 < MAX_DEPTH,
    ensures
        (forall|j: int| 0 <= j < vs.len() ==> #[trigger] vs[j] != Datum::Bool(false)) ==> sem_eval(
            hc,
            sc,
            and_form(vs),
            d,
            t,
        ) == ok(sc, if vs.len() == 0 { Datum::Bool(true) } else { vs[vs.len() - 1] }, t),
        forall|j: int|
            0 <= j < vs.len() && #[trigger] vs[j] == Datum::Bool(false) && (forall|m: int|
                0 <= m < j ==> vs[m] != Datum::Bool(false)) ==> sem_eval(hc, sc, and_form(vs), d, t) == ok(
                sc,
                Datum::Bool(false),
                t,
            ),
        (forall|j: int| 0 <= j < vs.len() ==> #[trigger] vs[j] == Datum::Bool(false)) ==> sem_eval(
            hc,
            sc,
            or_form(vs),
            d,
            t,
        ) == ok(sc, Datum::Bool(false), t),
        forall|j: int|
            0 <= j < vs.len() && #[trigger] vs[j] != Datum::Bool(false) && (forall|m: int|
                0 <= m < j ==> vs[m] == Datum::Bool(false)) ==> sem_eval(hc, sc, or_form(vs), d, t) == ok(
                sc,
                vs[j],
                t,
            ),
{
    lemma_keywords();
    reveal_strlit("cond");
    reveal_strlit("and");
    reveal_strlit("or");
    let la = seq![Datum::Symbol("and"@)] + vs;
    let lo = seq![Datum::Symbol("or"@)] + vs;
    assert(la[0] == Datum::Symbol("and"@));
    assert(lo[0] == Datum::Symbol("or"@));
    assert(sem_list(hc, sc, la, d, t) == crate::semantics::sem_and(hc, sc, la, 1, Datum::Bool(true), d, t));
    assert(sem_list(hc, sc, lo, d, t) == crate::semantics::sem_or(hc, sc, lo, 1, Datum::Bool(false), d, t));
    lemma_and_steps(hc, sc, vs, Datum::Bool(true), d, t, 1);
    lemma_or_steps(hc, sc, vs, Datum::Bool(false), d, t, 1);
}

/// `(f a_1 ... a_n)` with `f` host function `index`.
pub open spec fn host_call_form(index: usize, args: Seq<Datum>) -> Datum {
    Datum::List(seq![Datum::HostFunction(index)] + args)
}

proof fn lemma_host_args(hc: nat, sc: Scopes, index: usize, args: Seq<Datum>, d: nat, t: Trace, i: int)
    requires
        forall|j: int| 0 <= j < args.len() ==> is_self_evaluating(#[trigger] args[j]),
        d + 1 < MAX_DEPTH,
        1 <= i <= args.len() + 1,
    ensures
        crate::semantics::sem_host_args(
            hc,
            sc,
            index,
            seq![Datum::HostFunction(index)] + args,
            i,
            args.take(i - 1),
            d,
            t,
        ) == crate::semantics::sem_host_call(hc, sc, index, args, t),
    decreases args.len() + 1 - i,
{
    let l = seq![Datum::HostFunction(index)] + args;
    if i <= args.len() {
        assert(l[i] == args[i - 1]);
        assert(sem_eval(hc, sc, args[i - 1], d + 1, t) == ok(sc, args[i - 1], t));
        assert(args.take(i - 1).push(args[i - 1]) =~= args.take(i));
        lemma_host_args(hc, sc, index, args, d, t, i + 1);
    } else {
        assert(args.take(i - 1) =~= args);
    }
}

/// A call of a host function hands it exactly the values of the arguments, in order: with
/// arguments that evaluate to themselves, calling host function `index` fails with
/// `builtin <index>` when there is no such function; for a built-in whose check decides,
/// gives what the check says without the host; and otherwise takes, as its result, the
/// answer of the next host call recorded, which must be a call of function `index` with
/// exactly the arguments `args`, leaving the scopes as they are.
pub proof fn law_host_call_hands_over_the_arguments(
    hc: nat,
    sc: Scopes,
    index: usize,
    args: Seq<Datum>,
    d: nat,
    t: Trace,
)
    requires
        forall|j: int| 0 <= j < args.len() ==> is_self_evaluating(#[trigger] args[j]),
        d + 1 < MAX_DEPTH,
    ensures
        index >= hc ==> sem_eval(hc, sc, host_call_form(index, args), d, t) == crate::semantics::fail(
            sc,
            Fault::UnboundVariable("builtin "@ + crate::text::decimal(index as nat)),
            t,
        ),
        index < hc && index < builtin_names().len() ==> match check_builtin_spec(index as nat, args) {
            CheckedModel::Fails(f) => sem_eval(hc, sc, host_call_form(index, args), d, t) == crate::semantics::fail(
                sc,
                f,
                t,
            ),
            CheckedModel::Gives(v) => sem_eval(hc, sc, host_call_form(index, args), d, t) == ok(sc, v, t),
            _ => true,
        },
        index < hc && (index >= builtin_names().len() || check_builtin_spec(index as nat, args) is Numbers
            || check_builtin_spec(index as nat, args) is Compare) ==> sem_eval(
            hc,
            sc,
            host_call_form(index, args),
            d,
            t,
        ) == if t.len() > 0 && t[0].index == index && t[0].args == args {
            Some(Outcome { scopes: sc, result: t[0].result, rest: t.skip(1) })
        } else {
            None
        },
{
    let l = seq![Datum::HostFunction(index)] + args;
    assert(l[0] == Datum::HostFunction(index));
    assert(args.take(0) =~= Seq::<Datum>::empty());
    assert(sem_list(hc, sc, l, d, t) == crate::semantics::sem_host_args(hc, sc, index, l, 1, Seq::empty(), d, t));
    lemma_host_args(hc, sc, index, args, d, t, 1);
}

/// An atom that neither names nor makes a call when it heads a list.
pub open spec fn is_plain(d: Datum) -> bool {
    d is Nil || d is Bool || d is Number || d is String
}

proof fn lemma_seq_values(hc: nat, sc: Scopes, bs: Seq<Datum>, d: nat, t: Trace, i: int)
    requires
        forall|j: int| 0 <= j < bs.len() ==> is_self_evaluating(#[trigger] bs[j]),
        d + 1 < MAX_DEPTH,
        0 <= i <= bs.len(),
    ensures
        crate::semantics::sem_seq(hc, sc, bs, i, bs.take(i), d, t) == ok(sc, Datum::List(bs), t),
    decreases bs.len() - i,
{
    if i < bs.len() {
        assert(sem_eval(hc, sc, bs[i], d + 1, t) == ok(sc, bs[i], t));
        assert(bs.take(i).push(bs[i]) =~= bs.take(i + 1));
        lemma_seq_values(hc, sc, bs, d, t, i + 1);
    } else {
        assert(bs.take(i) =~= bs);
    }
}

/// A list that is neither a special form nor a call is a sequence, whose value is the
/// list of its items' values; and a closure whose body is such a sequence gives the value
/// of its last item. Shown for items that evaluate to themselves, the first of them an
/// atom that does not name or make a call: `(1 2 3)` gives `(1 2 3)`, and `((lambda () 1 2
/// 3))` gives `3`. The scopes stay as they are and no host function is called.
pub proof fn law_sequence_and_closure_body(hc: nat, sc: Scopes, bs: Seq<Datum>, d: nat, t: Trace)
    requires
        bs.len() > 0,
        forall|j: int| 0 <= j < bs.len() ==> is_self_evaluating(#[trigger] bs[j]),
        is_plain(bs[0]),
        d + 2 < MAX_DEPTH,
    ensures
        sem_eval(hc, sc, Datum::List(bs), d, t) == ok(sc, Datum::List(bs), t),
        sem_eval(hc, sc, call_form(Seq::empty(), Datum::List(bs), Seq::empty()), d, t) == ok(sc, bs.last(), t),
{
    assert(bs.take(0) =~= Seq::<Datum>::empty());
    lemma_seq_values(hc, sc, bs, d, t, 0);
    assert(sem_list(hc, sc, bs, d, t) == crate::semantics::sem_seq(hc, sc, bs, 0, Seq::empty(), d, t));
    let s1 = push_scope(sc);
    lemma_seq_values(hc, s1, bs, d + 1, t, 0);
    assert(sem_list(hc, s1, bs, d + 1, t) == crate::semantics::sem_seq(hc, s1, bs, 0, Seq::empty(), d + 1, t));
    assert(sem_eval(hc, s1, Datum::List(bs), d + 1, t) == ok(s1, Datum::List(bs), t));
    let l = seq![Datum::Function(Seq::empty(), Box::new(Datum::List(bs)))] + Seq::<Datum>::empty();
    assert(l.len() == 1);
    assert(sem_list(hc, sc, l, d, t) == sem_call_args(hc, s1, Seq::empty(), Datum::List(bs), l, 1, d, t));
    assert(s1.drop_last() =~= sc);
}

} // verus!
