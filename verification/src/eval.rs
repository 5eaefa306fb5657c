use vstd::prelude::*;

use crate::atom::{
    Atom, Datum, group_view_atoms, lemma_view_atoms, lemma_view_atoms_push, view_atoms, view_strings,
};
use crate::scope::{Bindings, Scope};
use crate::semantics::{
    Fault, HostCall, MAX_DEPTH, Outcome, Scopes, Trace, all_symbols, assign, call_result, closure,
    define, define_all, fail, is_binding, is_symbol, lookup, ok, pop_scope, push_scope,
    sem_and, sem_call_args, sem_cond, sem_define, sem_eval, sem_head, sem_host_args,
    sem_if, sem_lambda, sem_let, sem_let_bindings, sem_let_star,
    sem_let_star_bindings, sem_list, sem_or, sem_seq, sem_set, symbol_names,
};
use crate::builtins::{Checked, check_builtin};
use crate::text::{decimal, decimal_string};

verus! {

/// Why an evaluation failed.
#[derive(Debug, PartialEq, Eq)]
pub enum EvalError {
    UnboundVariable(String),
    OutOfBounds(usize),
    TypeMismatch(&'static str),
    SyntaxError(&'static str),
    TooDeep(usize),
    ArityMismatch { expected: usize, got: usize },
}

impl View for EvalError {
    type V = Fault;

    open spec fn view(&self) -> Fault {
        match *self {
            EvalError::UnboundVariable(s) => Fault::UnboundVariable(s@),
            EvalError::OutOfBounds(i) => Fault::OutOfBounds(i),
            EvalError::TypeMismatch(m) => Fault::TypeMismatch(m@),
            EvalError::SyntaxError(m) => Fault::SyntaxError(m@),
            EvalError::TooDeep(d) => Fault::TooDeep(d),
            EvalError::ArityMismatch { expected, got } => Fault::ArityMismatch { expected, got },
        }
    }
}

/// The model of an evaluation's result.
pub open spec fn view_result(r: Result<Atom, EvalError>) -> Result<Datum, Fault> {
    match r {
        Ok(a) => Ok(a@),
        Err(e) => Err(e@),
    }
}

/// The host can be called on any function index and arguments.
pub open spec fn callable<F: Fn(usize, &[Atom]) -> Result<Atom, EvalError>>(host: F) -> bool {
    forall|index: usize, args: &[Atom]| call_requires(host, (index, args))
}

/// `c` records a call that `host` made: handed function index `c.index` and arguments whose
/// models are `c.args`, it gave back what `c.result` models.
pub open spec fn answered_call<F: Fn(usize, &[Atom]) -> Result<Atom, EvalError>>(host: F, c: HostCall) -> bool {
    exists|args: &[Atom], r: Result<Atom, EvalError>|
        #[trigger] call_ensures(host, (c.index, args), r) && view_atoms(args@) == c.args && view_result(r)
            == c.result
}

/// Every call recorded in `t` is one that `host` made, with that answer.
pub open spec fn answered<F: Fn(usize, &[Atom]) -> Result<Atom, EvalError>>(host: F, t: Trace) -> bool {
    forall|k: int| 0 <= k < t.len() ==> answered_call(host, #[trigger] t[k])
}

/// Two traces of calls that the host made, one after the other, are calls that it made.
pub broadcast proof fn lemma_answered_add<F: Fn(usize, &[Atom]) -> Result<Atom, EvalError>>(
    host: F,
    a: Trace,
    b: Trace,
)
    requires
        answered(host, a),
        answered(host, b),
    ensures
        #[trigger] answered(host, a + b),
{
    assert forall|k: int| 0 <= k < (a + b).len() implies answered_call(host, #[trigger] (a + b)[k]) by {
        if k < a.len() {
            assert((a + b)[k] == a[k]);
        } else {
            assert((a + b)[k] == b[k - a.len()]);
        }
    }
}

/// Whether the characters of `a` and `b` are the same.
pub fn text_eq(a: &str, b: &str) -> (r: bool)
    ensures
        r == (a@ == b@),
{
    let n = a.unicode_len();
    if n != b.unicode_len() {
        return false;
    }
    let mut i: usize = 0;
    while i < n
        invariant
            n == a@.len() == b@.len(),
            i <= n,
            a@.take(i as int) == b@.take(i as int),
        decreases n - i,
    {
        if a.get_char(i) != b.get_char(i) {
            return false;
        }
        assert(a@.take(i + 1) =~= a@.take(i as int).push(a@[i as int]));
        assert(b@.take(i + 1) =~= b@.take(i as int).push(b@[i as int]));
        i = i + 1;
    }
    assert(a@ =~= a@.take(n as int));
    assert(b@ =~= b@.take(n as int));
    true
}

/// Whether `a` is the symbol `name`.
pub fn is_symbol_named(a: &Atom, name: &str) -> (r: bool)
    ensures
        r == (a@ == Datum::Symbol(name@)),
{
    match a {
        Atom::Symbol(s) => text_eq(s.as_str(), name),
        _ => false,
    }
}

/// An evaluator: a stack of scopes, the outermost first, and the number of host functions
/// bound so far.
pub struct Evaluator {
    bindings: Vec<Scope>,
    host_count: usize,
}

impl Evaluator {
    /// The scopes, the outermost first.
    pub closed spec fn scopes(&self) -> Scopes {
        self.bindings@.map_values(|s: Scope| s@)
    }

    /// How many host functions have been bound.
    pub closed spec fn host_count(&self) -> nat {
        self.host_count as nat
    }

    /// Every scope is well formed: it binds no name twice.
    pub closed spec fn wf(&self) -> bool {
        forall|i: int| 0 <= i < self.bindings@.len() ==> (#[trigger] self.bindings@[i]).wf()
    }

    /// An evaluator whose only scope binds `top_bindings`, a later pair for a name
    /// replacing an earlier one, and then the built-in names to the host functions
    /// `0`, `1`, ... in the order of [`builtin_names`].
    pub fn new(top_bindings: Vec<(String, Atom)>) -> (e: Self)
        ensures
            e.wf(),
            e.scopes() == seq![bind_hosts(bindings_of(top_bindings@), builtin_names())],
            e.host_count() == builtin_names().len(),
    {
        let mut top = Scope::new();
        for i in 0..top_bindings.len()
            invariant
                top.wf(),
                top@ == bindings_of(top_bindings@.take(i as int)),
        {
            proof {
                assert(top_bindings@.take(i + 1).drop_last() =~= top_bindings@.take(i as int));
            }
            top.insert(top_bindings[i].0.clone(), top_bindings[i].1.clone());
        }
        assert(top_bindings@.take(top_bindings@.len() as int) =~= top_bindings@);
        let mut bindings: Vec<Scope> = Vec::new();
        bindings.push(top);
        let mut e = Evaluator { bindings, host_count: 0 };
        let ghost m = bindings_of(top_bindings@);
        assert(e.scopes() =~= seq![m]);
        let names = builtin_name_list();
        for k in 0..names.len()
            invariant
                names@.len() == builtin_names().len(),
                forall|j: int| 0 <= j < names@.len() ==> (#[trigger] names@[j])@ == builtin_names()[j],
                e.wf(),
                e.scopes() == seq![bind_hosts(m, builtin_names().take(k as int))],
                e.host_count() == k,
        {
            proof {
                assert(builtin_names().take(k + 1).drop_last() =~= builtin_names().take(k as int));
            }
            let name = names[k].to_owned();
            e.bind_host_func(name);
            proof {
                assert(e.scopes() =~= seq![bind_hosts(m, builtin_names().take(k + 1))]);
            }
        }
        assert(builtin_names().take(names@.len() as int) =~= builtin_names());
        e
    }
}

/// The names of the built-in functions, bound in this order to the host functions `0`,
/// `1`, ...: what they do is up to the host.
pub open spec fn builtin_names() -> Seq<Seq<char>> {
    seq![
        "+"@,
        "*"@,
        "-"@,
        "/"@,
        "equal?"@,
        "="@,
        "<"@,
        ">"@,
        "<="@,
        ">="@,
        "floor"@,
        "ceiling"@,
        "truncate"@,
        "round"@,
        "sqrt"@,
        "number?"@,
        "integer?"@,
    ]
}

/// `m` with each of `names` bound to the host function of its position, in order.
pub open spec fn bind_hosts(m: Bindings, names: Seq<Seq<char>>) -> Bindings
    decreases names.len(),
{
    if names.len() == 0 {
        m
    } else {
        bind_hosts(m, names.drop_last()).insert(
            names.last(),
            Datum::HostFunction((names.len() - 1) as usize),
        )
    }
}

/// The built-in names as text.
fn builtin_name_list() -> (v: Vec<&'static str>)
    ensures
        v@.len() == builtin_names().len(),
        forall|j: int| 0 <= j < v@.len() ==> (#[trigger] v@[j])@ == builtin_names()[j],
{
    vec![
        "+",
        "*",
        "-",
        "/",
        "equal?",
        "=",
        "<",
        ">",
        "<=",
        ">=",
        "floor",
        "ceiling",
        "truncate",
        "round",
        "sqrt",
        "number?",
        "integer?",
    ]
}

/// The bindings that a list of name-value pairs makes, bound in order.
pub open spec fn bindings_of(s: Seq<(String, Atom)>) -> Bindings
    decreases s.len(),
{
    if s.len() == 0 {
        Map::empty()
    } else {
        bindings_of(s.drop_last()).insert(s.last().0@, s.last().1@)
    }
}

/// `name` reads as its binding in scope `i` when no scope inside `i` binds it.
pub proof fn lemma_lookup_at(sc: Scopes, i: int, name: Seq<char>)
    requires
        0 <= i < sc.len(),
        sc[i].dom().contains(name),
        forall|j: int| i < j < sc.len() ==> !(#[trigger] sc[j]).dom().contains(name),
    ensures
        lookup(sc, name) == Some(sc[i][name]),
    decreases sc.len(),
{
    if i < sc.len() - 1 {
        assert(!sc[sc.len() - 1].dom().contains(name));
        lemma_lookup_at(sc.drop_last(), i, name);
    }
}

/// `name` reads as nothing when no scope binds it.
pub proof fn lemma_lookup_none(sc: Scopes, name: Seq<char>)
    requires
        forall|j: int| 0 <= j < sc.len() ==> !(#[trigger] sc[j]).dom().contains(name),
    ensures
        lookup(sc, name) is None,
    decreases sc.len(),
{
    if sc.len() > 0 {
        assert(!sc[sc.len() - 1].dom().contains(name));
        lemma_lookup_none(sc.drop_last(), name);
    }
}

/// Assigning to `name` rebinds it in scope `i` when no scope inside `i` binds it.
pub proof fn lemma_assign_at(sc: Scopes, i: int, name: Seq<char>, v: Datum)
    requires
        0 <= i < sc.len(),
        sc[i].dom().contains(name),
        forall|j: int| i < j < sc.len() ==> !(#[trigger] sc[j]).dom().contains(name),
    ensures
        assign(sc, name, v) == Some(sc.update(i, sc[i].insert(name, v))),
    decreases sc.len(),
{
    if i < sc.len() - 1 {
        assert(!sc[sc.len() - 1].dom().contains(name));
        lemma_assign_at(sc.drop_last(), i, name, v);
        assert(sc.drop_last().update(i, sc[i].insert(name, v)).push(sc.last()) =~= sc.update(
            i,
            sc[i].insert(name, v),
        ));
    } else {
        assert(sc.drop_last().push(sc.last().insert(name, v)) =~= sc.update(i, sc[i].insert(name, v)));
    }
}

/// Assigning keeps the number of scopes.
pub proof fn lemma_assign_len(sc: Scopes, name: Seq<char>, v: Datum)
    ensures
        assign(sc, name, v) matches Some(x) ==> x.len() == sc.len(),
    decreases sc.len(),
{
    if sc.len() > 0 {
        lemma_assign_len(sc.drop_last(), name, v);
    }
}

/// Assigning to `name` fails when no scope binds it.
pub proof fn lemma_assign_none(sc: Scopes, name: Seq<char>, v: Datum)
    requires
        forall|j: int| 0 <= j < sc.len() ==> !(#[trigger] sc[j]).dom().contains(name),
    ensures
        assign(sc, name, v) is None,
    decreases sc.len(),
{
    if sc.len() > 0 {
        assert(!sc[sc.len() - 1].dom().contains(name));
        lemma_assign_none(sc.drop_last(), name, v);
    }
}

impl Evaluator {
    /// An evaluator whose only scope binds the built-in names.
    pub fn new_empty() -> (e: Self)
        ensures
            e.wf(),
            e.scopes() == seq![bind_hosts(Map::<Seq<char>, Datum>::empty(), builtin_names())],
            e.host_count() == builtin_names().len(),
    {
        let e = Self::new(Vec::new());
        assert(bindings_of(Seq::<(String, Atom)>::empty()) == Map::<Seq<char>, Datum>::empty());
        e
    }

    /// How many scopes there are.
    pub fn scope_count(&self) -> (n: usize)
        ensures
            n == self.scopes().len(),
    {
        self.bindings.len()
    }

    /// How many host functions have been bound.
    pub fn host_function_count(&self) -> (n: usize)
        ensures
            n == self.host_count(),
    {
        self.host_count
    }

    /// Binds `name`, in the outermost scope, to the next host function, whose index it
    /// returns.
    pub fn bind_host_func(&mut self, name: String) -> (index: usize)
        requires
            old(self).wf(),
            old(self).scopes().len() > 0,
            old(self).host_count() < usize::MAX,
        ensures
            final(self).wf(),
            index == old(self).host_count(),
            final(self).host_count() == old(self).host_count() + 1,
            final(self).scopes() == old(self).scopes().update(
                0,
                old(self).scopes()[0].insert(name@, Datum::HostFunction(index)),
            ),
    {
        let index = self.host_count;
        self.host_count = self.host_count + 1;
        self.bindings[0].insert(name, Atom::HostFunction(index));
        proof {
            assert(self.scopes() =~= old(self).scopes().update(
                0,
                old(self).scopes()[0].insert(name@, Datum::HostFunction(index)),
            ));
        }
        index
    }

    /// The value of `name` in the innermost scope that binds it.
    fn get_in_scope(&self, name: &String) -> (r: Option<Atom>)
        requires
            self.wf(),
        ensures
            match lookup(self.scopes(), name@) {
                Some(v) => r matches Some(a) && a@ == v,
                None => r is None,
            },
    {
        let mut i = self.bindings.len();
        while i > 0
            invariant
                self.wf(),
                i <= self.bindings@.len(),
                forall|j: int| i <= j < self.scopes().len() ==> !(#[trigger] self.scopes()[j]).dom().contains(name@),
            decreases i,
        {
            i = i - 1;
            match self.bindings[i].get(name) {
                Some(v) => {
                    proof {
                        lemma_lookup_at(self.scopes(), i as int, name@);
                    }
                    return Some(v.clone());
                },
                None => {},
            }
        }
        proof {
            lemma_lookup_none(self.scopes(), name@);
        }
        None
    }

    /// Rebinds `name` in the innermost scope that binds it; an error when none does.
    fn try_set_in_any_scope(&mut self, name: String, value: Atom) -> (r: Result<(), EvalError>)
        requires
            old(self).wf(),
        ensures
            final(self).wf(),
            final(self).host_count() == old(self).host_count(),
            match assign(old(self).scopes(), name@, value@) {
                Some(sc) => r is Ok && final(self).scopes() == sc,
                None => r matches Err(e) && e@ == Fault::UnboundVariable(name@) && final(self).scopes()
                    == old(self).scopes(),
            },
    {
        let mut i = self.bindings.len();
        while i > 0
            invariant
                self.wf(),
                *self == *old(self),
                i <= self.bindings@.len(),
                forall|j: int| i <= j < self.scopes().len() ==> !(#[trigger] self.scopes()[j]).dom().contains(name@),
            decreases i,
        {
            i = i - 1;
            if self.bindings[i].get(&name).is_some() {
                proof {
                    lemma_assign_at(self.scopes(), i as int, name@, value@);
                }
                let ghost vv = value@;
                let ghost nn = name@;
                let found = self.bindings[i].replace(&name, value);
                proof {
                    assert(self.scopes() =~= old(self).scopes().update(
                        i as int,
                        old(self).scopes()[i as int].insert(nn, vv),
                    ));
                }
                return Ok(());
            }
        }
        proof {
            lemma_assign_none(self.scopes(), name@, value@);
        }
        Err(EvalError::UnboundVariable(name))
    }

    /// Binds `name` to `value` in the innermost scope.
    pub fn set_in_current_scope(&mut self, name: String, value: Atom)
        requires
            old(self).wf(),
            old(self).scopes().len() > 0,
        ensures
            final(self).wf(),
            final(self).host_count() == old(self).host_count(),
            final(self).scopes() == define(old(self).scopes(), name@, value@),
    {
        let n = self.bindings.len();
        let ghost vv = value@;
        let ghost nn = name@;
        self.bindings[n - 1].insert(name, value);
        proof {
            assert(self.scopes() =~= define(old(self).scopes(), nn, vv));
        }
    }

    fn push_scope(&mut self)
        requires
            old(self).wf(),
        ensures
            final(self).wf(),
            final(self).host_count() == old(self).host_count(),
            final(self).scopes() == push_scope(old(self).scopes()),
    {
        self.bindings.push(Scope::new());
        proof {
            assert(self.scopes() =~= push_scope(old(self).scopes()));
        }
    }

    fn pop_scope(&mut self)
        requires
            old(self).wf(),
        ensures
            final(self).wf(),
            final(self).host_count() == old(self).host_count(),
            final(self).scopes() == pop_scope(old(self).scopes()),
    {
        self.bindings.pop();
        proof {
            assert(self.scopes() =~= pop_scope(old(self).scopes()));
        }
    }
}


/// `o` is the outcome with scopes `sc`, the result `r` and the remaining trace `rest`.
pub open spec fn ends_as(o: Option<Outcome>, sc: Scopes, r: Result<Datum, Fault>, rest: Trace) -> bool {
    o == Some(Outcome { scopes: sc, result: r, rest })
}

/// Nothing before a trace leaves it as it is.
pub broadcast proof fn lemma_trace_empty_add(rest: Trace)
    ensures
        #[trigger] (Seq::<HostCall>::empty() + rest) == rest,
{
    assert(Seq::<HostCall>::empty() + rest =~= rest);
}

/// Traces join associatively.
pub broadcast proof fn lemma_trace_assoc(a: Trace, b: Trace, c: Trace)
    ensures
        #[trigger] ((a + b) + c) == a + (b + c),
{
    assert((a + b) + c =~= a + (b + c));
}

/// The names of the symbols `s[from..]`, when they are all symbols.
fn symbol_list_names(s: &Vec<Atom>, from: usize) -> (r: Option<Vec<String>>)
    requires
        from <= s@.len(),
    ensures
        r is Some <==> all_symbols(view_atoms(s@).skip(from as int)),
        r matches Some(v) ==> view_strings(v@) == symbol_names(
            view_atoms(s@).skip(from as int),
        ),
{
    broadcast use group_view_atoms;

    proof {
        lemma_view_atoms(s@);
    }
    let mut names: Vec<String> = Vec::new();
    let ghost sv = view_atoms(s@).skip(from as int);
    let mut i = from;
    while i < s.len()
        invariant
            from <= i <= s@.len(),
            sv == view_atoms(s@).skip(from as int),
            all_symbols(sv.take(i - from)),
            view_strings(names@) == symbol_names(sv.take(i - from)),
        decreases s@.len() - i,
    {
        match &s[i] {
            Atom::Symbol(name) => {
                proof {
                    lemma_view_atoms(s@);
                    assert(sv.take(i + 1 - from) =~= sv.take(i - from).push(sv[i - from]));
                    assert(sv[i - from] == s@[i as int]@);
                }
                let ghost before = names@;
                names.push(name.clone());
                proof {
                    assert(view_strings(names@) =~= view_strings(before).push(name@));
                    assert(symbol_names(sv.take(i + 1 - from)) =~= symbol_names(sv.take(i - from)).push(
                        name@,
                    ));
                }
            },
            _ => {
                proof {
                    lemma_view_atoms(s@);
                    assert(sv[i - from] == s@[i as int]@);
                    assert(!is_symbol(sv[i - from]));
                }
                return None;
            },
        }
        i = i + 1;
    }
    assert(sv.take(i - from) =~= sv);
    Some(names)
}

/// Copies of `l[from..]`.
fn copy_tail(l: &Vec<Atom>, from: usize) -> (r: Vec<Atom>)
    requires
        from <= l@.len(),
    ensures
        view_atoms(r@) == view_atoms(l@).skip(from as int),
{
    broadcast use group_view_atoms;

    proof {
        lemma_view_atoms(l@);
    }
    let mut r: Vec<Atom> = Vec::new();
    let mut i = from;
    while i < l.len()
        invariant
            from <= i <= l@.len(),
            view_atoms(r@) == view_atoms(l@).subrange(from as int, i as int),
        decreases l@.len() - i,
    {
        let c = l[i].clone();
        proof {
            lemma_view_atoms(l@);
            lemma_view_atoms_push(r@, c);
            assert(view_atoms(l@).subrange(from as int, i + 1) =~= view_atoms(l@).subrange(
                from as int,
                i as int,
            ).push(c@));
        }
        r.push(c);
        i = i + 1;
    }
    assert(view_atoms(l@).subrange(from as int, l@.len() as int) =~= view_atoms(l@).skip(from as int));
    r
}

/// A closure with parameters `params` and the body `l[from..]`.
fn make_closure(params: Vec<String>, l: &Vec<Atom>, from: usize) -> (a: Atom)
    requires
        from < l@.len(),
    ensures
        a@ == closure(view_strings(params@), view_atoms(l@).skip(from as int)),
{
    broadcast use group_view_atoms;

    proof {
        lemma_view_atoms(l@);
    }
    let body = if l.len() - from == 1 {
        l[from].clone()
    } else {
        Atom::List(copy_tail(l, from))
    };
    assert(body@ == (if view_atoms(l@).skip(from as int).len() == 1 {
        view_atoms(l@).skip(from as int)[0]
    } else {
        Datum::List(view_atoms(l@).skip(from as int))
    }));
    Atom::Function(params, Box::new(body))
}


/// Whether `a` is `#f`.
fn is_false(a: &Atom) -> (b: bool)
    ensures
        b == (a@ == Datum::Bool(false)),
{
    match a {
        Atom::Bool(b) => !*b,
        _ => false,
    }
}

impl Evaluator {
    /// Evaluates `atom` at nesting depth `depth`. Along with the result comes the trace of
    /// the calls made of host functions, with their answers, in order: followed by any
    /// further calls, that trace makes `sem_eval` describe this evaluation.
    fn eval_inner<F: Fn(usize, &[Atom]) -> Result<Atom, EvalError>>(&mut self, atom: &Atom, depth: usize, host: &F) -> (r: (
        Result<Atom, EvalError>,
        Ghost<Trace>,
    ))
        requires
            old(self).wf(),
            callable(*host),
            old(self).scopes().len() > 0,
        ensures
            final(self).wf(),
            answered(*host, r.1@),
            final(self).host_count() == old(self).host_count(),
            final(self).scopes().len() == old(self).scopes().len(),
            forall|rest: Trace|
                ends_as(
                    #[trigger] sem_eval(old(self).host_count(), old(self).scopes(), atom@, depth as nat, r.1@ + rest),
                    final(self).scopes(),
                    view_result(r.0),
                    rest,
                ),
        decreases MAX_DEPTH - depth, 3int, 0int,
    {
        broadcast use group_view_atoms, lemma_answered_add, lemma_trace_empty_add;

        let ghost hc = self.host_count();
        let ghost s0 = self.scopes();
        if depth >= MAX_DEPTH {
            let r = Err(EvalError::TooDeep(depth));
            assert(forall|rest: Trace| ends_as(#[trigger] sem_eval(hc, s0, atom@, depth as nat, Seq::<HostCall>::empty() + rest), s0, view_result(r), rest));
            return (r, Ghost(Seq::empty()));
        }
        match atom {
            Atom::List(l) => {
                assert(atom@ == Datum::List(view_atoms(l@)));
                if l.len() == 0 {
                    let r = Ok(Atom::Nil);
                    assert(forall|rest: Trace| ends_as(#[trigger] sem_eval(hc, s0, atom@, depth as nat, Seq::<HostCall>::empty() + rest), s0, view_result(r), rest));
                    (r, Ghost(Seq::empty()))
                } else {
                    let r = self.eval_list(l, depth, host);
                    assert(forall|rest: Trace| ends_as(#[trigger] sem_list(hc, s0, view_atoms(l@), depth as nat, r.1@ + rest), self.scopes(), view_result(r.0), rest));
                    assert forall|rest: Trace| ends_as(#[trigger] sem_eval(hc, s0, atom@, depth as nat, r.1@ + rest), self.scopes(), view_result(r.0), rest) by {
                        assert(view_atoms(l@).len() > 0);
                        assert(sem_eval(hc, s0, Datum::List(view_atoms(l@)), depth as nat, r.1@ + rest) == sem_list(hc, s0, view_atoms(l@), depth as nat, r.1@ + rest));
                    }
                    r
                }
            },
            Atom::Symbol(sym) => match self.get_in_scope(sym) {
                Some(v) => {
                    let r = Ok(v);
                    assert(forall|rest: Trace| ends_as(#[trigger] sem_eval(hc, s0, atom@, depth as nat, Seq::<HostCall>::empty() + rest), s0, view_result(r), rest));
                    (r, Ghost(Seq::empty()))
                },
                None => {
                    let r = Err(EvalError::UnboundVariable(sym.clone()));
                    assert(forall|rest: Trace| ends_as(#[trigger] sem_eval(hc, s0, atom@, depth as nat, Seq::<HostCall>::empty() + rest), s0, view_result(r), rest));
                    (r, Ghost(Seq::empty()))
                },
            },
            Atom::Quote(x) => {
                let r = Ok((**x).clone());
                assert(forall|rest: Trace| ends_as(#[trigger] sem_eval(hc, s0, atom@, depth as nat, Seq::<HostCall>::empty() + rest), s0, view_result(r), rest));
                (r, Ghost(Seq::empty()))
            },
            _ => {
                let r = Ok(atom.clone());
                assert(forall|rest: Trace| ends_as(#[trigger] sem_eval(hc, s0, atom@, depth as nat, Seq::<HostCall>::empty() + rest), s0, view_result(r), rest));
                (r, Ghost(Seq::empty()))
            },
        }
    }

    /// Evaluates the non-empty list `l`, according to its head.
    fn eval_list<F: Fn(usize, &[Atom]) -> Result<Atom, EvalError>>(&mut self, l: &Vec<Atom>, depth: usize, host: &F) -> (r: (Result<Atom, EvalError>, Ghost<Trace>))
        requires
            old(self).wf(),
            callable(*host),
            old(self).scopes().len() > 0,
            depth < MAX_DEPTH,
            l@.len() > 0,
        ensures
            final(self).wf(),
            answered(*host, r.1@),
            final(self).host_count() == old(self).host_count(),
            final(self).scopes().len() == old(self).scopes().len(),
            forall|rest: Trace|
                ends_as(
                    #[trigger] sem_list(old(self).host_count(), old(self).scopes(), view_atoms(l@), depth as nat, r.1@ + rest),
                    final(self).scopes(),
                    view_result(r.0),
                    rest,
                ),
        decreases MAX_DEPTH - depth, 2int, 0int,
    {
        broadcast use group_view_atoms, lemma_answered_add, lemma_trace_empty_add;

        let ghost hc = self.host_count();
        let ghost s0 = self.scopes();
        let ghost lv = view_atoms(l@);
        let head = &l[0];
        assert(lv[0] == head@);
        if is_symbol_named(head, "set!") {
            proof {
                assert(forall|t: Trace| #[trigger] sem_list(hc, s0, lv, depth as nat, t) == sem_set(hc, s0, lv, depth as nat, t));
            }
            self.eval_set(l, depth, host)
        } else if is_symbol_named(head, "define") {
            proof {
                assert(forall|t: Trace| #[trigger] sem_list(hc, s0, lv, depth as nat, t) == sem_define(hc, s0, lv, depth as nat, t));
            }
            self.eval_define(l, depth, host)
        } else if is_symbol_named(head, "lambda") {
            proof {
                assert(forall|t: Trace| #[trigger] sem_list(hc, s0, lv, depth as nat, t) == sem_lambda(s0, lv, t));
            }
            (Self::eval_lambda(l), Ghost(Seq::empty()))
        } else if is_symbol_named(head, "let") {
            proof {
                assert(forall|t: Trace| #[trigger] sem_list(hc, s0, lv, depth as nat, t) == sem_let(hc, s0, lv, depth as nat, t));
            }
            self.eval_let(l, depth, host)
        } else if is_symbol_named(head, "let*") {
            proof {
                assert(forall|t: Trace| #[trigger] sem_list(hc, s0, lv, depth as nat, t) == sem_let_star(hc, s0, lv, depth as nat, t));
            }
            self.eval_let_star(l, depth, host)
        } else if is_symbol_named(head, "if") {
            proof {
                assert(forall|t: Trace| #[trigger] sem_list(hc, s0, lv, depth as nat, t) == sem_if(hc, s0, lv, depth as nat, t));
            }
            self.eval_if(l, depth, host)
        } else if is_symbol_named(head, "cond") {
            if l.len() < 2 {
                (
                    Err(EvalError::SyntaxError("cond requires at least one condition branch")),
                    Ghost(Seq::empty()),
                )
            } else {
                proof {
                    assert(forall|t: Trace| #[trigger] sem_list(hc, s0, lv, depth as nat, t) == sem_cond(hc, s0, lv, 1, Datum::Nil, depth as nat, t));
                }
                self.eval_cond(l, depth, host)
            }
        } else if is_symbol_named(head, "and") {
            proof {
                assert(forall|t: Trace| #[trigger] sem_list(hc, s0, lv, depth as nat, t) == sem_and(hc, s0, lv, 1, Datum::Bool(true), depth as nat, t));
            }
            self.eval_and(l, depth, host)
        } else if is_symbol_named(head, "or") {
            proof {
                assert(forall|t: Trace| #[trigger] sem_list(hc, s0, lv, depth as nat, t) == sem_or(hc, s0, lv, 1, Datum::Bool(false), depth as nat, t));
            }
            self.eval_or(l, depth, host)
        } else {
            match head {
                Atom::Function(params, body) => {
                    if l.len() - 1 != params.len() {
                        (
                            Err(EvalError::ArityMismatch { expected: params.len(), got: l.len() - 1 }),
                            Ghost(Seq::empty()),
                        )
                    } else {
                        proof {
                            assert(forall|t: Trace| #[trigger] sem_list(hc, s0, lv, depth as nat, t) == sem_call_args(hc, push_scope(s0), view_strings(params@), body@, lv, 1, depth as nat, t));
                        }
                        self.eval_call(params, body, l, depth, host)
                    }
                },
                Atom::HostFunction(index) => {
                    proof {
                        assert(forall|t: Trace| #[trigger] sem_list(hc, s0, lv, depth as nat, t) == sem_host_args(hc, s0, *index, lv, 1, Seq::empty(), depth as nat, t));
                    }
                    self.eval_host_call(*index, l, depth, host)
                },
                Atom::List(_) => {
                    proof {
                        assert(forall|t: Trace| #[trigger] sem_list(hc, s0, lv, depth as nat, t) == sem_head(hc, s0, lv, depth as nat, t));
                    }
                    self.eval_head(l, depth, host)
                },
                Atom::Symbol(_) => {
                    proof {
                        assert(forall|t: Trace| #[trigger] sem_list(hc, s0, lv, depth as nat, t) == sem_head(hc, s0, lv, depth as nat, t));
                    }
                    self.eval_head(l, depth, host)
                },
                _ => {
                    proof {
                        assert(forall|t: Trace| #[trigger] sem_list(hc, s0, lv, depth as nat, t) == sem_seq(hc, s0, lv, 0, Seq::empty(), depth as nat, t));
                    }
                    self.eval_seq(l, depth, host)
                },
            }
        }
    }

    // (set! symbol any)
    fn eval_set<F: Fn(usize, &[Atom]) -> Result<Atom, EvalError>>(&mut self, l: &Vec<Atom>, depth: usize, host: &F) -> (r: (Result<Atom, EvalError>, Ghost<Trace>))
        requires
            old(self).wf(),
            callable(*host),
            old(self).scopes().len() > 0,
            depth < MAX_DEPTH,
        ensures
            final(self).wf(),
            answered(*host, r.1@),
            final(self).host_count() == old(self).host_count(),
            final(self).scopes().len() == old(self).scopes().len(),
            forall|rest: Trace|
                ends_as(
                    #[trigger] sem_set(old(self).host_count(), old(self).scopes(), view_atoms(l@), depth as nat, r.1@ + rest),
                    final(self).scopes(),
                    view_result(r.0),
                    rest,
                ),
        decreases MAX_DEPTH - depth, 1int, 0int,
    {
        broadcast use group_view_atoms, lemma_answered_add, lemma_trace_empty_add;

        let ghost hc = self.host_count();
        let ghost s0 = self.scopes();
        let ghost lv = view_atoms(l@);
        if l.len() < 3 {
            return (Err(EvalError::SyntaxError("set! requires binding and value")), Ghost(Seq::empty()));
        }
        match &l[1] {
            Atom::Symbol(sym) => {
                let (res, Ghost(t)) = self.eval_inner(&l[2], depth + 1, host);
                let ghost s1 = self.scopes();
                let ghost rv = view_result(res);
                proof {
                    assert forall|rest: Trace| #[trigger] sem_set(hc, s0, lv, depth as nat, t + rest) == match rv {
                        Ok(v) => match assign(s1, sym@, v) {
                            Some(sc2) => ok(sc2, Datum::Nil, rest),
                            None => fail(s1, Fault::UnboundVariable(sym@), rest),
                        },
                        Err(e) => fail(s1, e, rest),
                    } by {
                        assert(ends_as(sem_eval(hc, s0, lv[2], (depth + 1) as nat, t + rest), s1, rv, rest));
                    }
                }
                match res {
                    Ok(value) => {
                        proof {
                            lemma_assign_len(s1, sym@, value@);
                        }
                        match self.try_set_in_any_scope(sym.clone(), value) {
                            Ok(()) => (Ok(Atom::Nil), Ghost(t)),
                            Err(e) => (Err(e), Ghost(t)),
                        }
                    },
                    Err(e) => (Err(e), Ghost(t)),
                }
            },
            _ => (Err(EvalError::SyntaxError("set! requires binding and value")), Ghost(Seq::empty())),
        }
    }

    // (define symbol any)
    // (define (symbol...) any...)
    fn eval_define<F: Fn(usize, &[Atom]) -> Result<Atom, EvalError>>(&mut self, l: &Vec<Atom>, depth: usize, host: &F) -> (r: (Result<Atom, EvalError>, Ghost<Trace>))
        requires
            old(self).wf(),
            callable(*host),
            old(self).scopes().len() > 0,
            depth < MAX_DEPTH,
        ensures
            final(self).wf(),
            answered(*host, r.1@),
            final(self).host_count() == old(self).host_count(),
            final(self).scopes().len() == old(self).scopes().len(),
            forall|rest: Trace|
                ends_as(
                    #[trigger] sem_define(old(self).host_count(), old(self).scopes(), view_atoms(l@), depth as nat, r.1@ + rest),
                    final(self).scopes(),
                    view_result(r.0),
                    rest,
                ),
        decreases MAX_DEPTH - depth, 1int, 0int,
    {
        broadcast use group_view_atoms, lemma_answered_add, lemma_trace_empty_add;

        let ghost hc = self.host_count();
        let ghost s0 = self.scopes();
        let ghost lv = view_atoms(l@);
        if l.len() < 3 {
            return (Err(EvalError::SyntaxError("define requires binding and value")), Ghost(Seq::empty()));
        }
        match &l[1] {
            Atom::Symbol(sym) => {
                let (res, Ghost(t)) = self.eval_inner(&l[2], depth + 1, host);
                let ghost s1 = self.scopes();
                let ghost rv = view_result(res);
                proof {
                    assert forall|rest: Trace| #[trigger] sem_define(hc, s0, lv, depth as nat, t + rest) == match rv {
                        Ok(v) => ok(define(s1, sym@, v), Datum::Nil, rest),
                        Err(e) => fail(s1, e, rest),
                    } by {
                        assert(ends_as(sem_eval(hc, s0, lv[2], (depth + 1) as nat, t + rest), s1, rv, rest));
                    }
                }
                match res {
                    Ok(value) => {
                        self.set_in_current_scope(sym.clone(), value);
                        (Ok(Atom::Nil), Ghost(t))
                    },
                    Err(e) => (Err(e), Ghost(t)),
                }
            },
            Atom::List(sig) => {
                proof {
                    lemma_view_atoms(sig@);
                }
                if sig.len() == 0 {
                    return (Err(EvalError::SyntaxError("define binding must be symbol")), Ghost(Seq::empty()));
                }
                let name = match &sig[0] {
                    Atom::Symbol(name) => name,
                    _ => return (
                        Err(EvalError::SyntaxError("define binding must be symbol")),
                        Ghost(Seq::empty()),
                    ),
                };
                match symbol_list_names(sig, 1) {
                    Some(params) => {
                        let f = make_closure(params, l, 2);
                        self.set_in_current_scope(name.clone(), f);
                        (Ok(Atom::Nil), Ghost(Seq::empty()))
                    },
                    None => (
                        Err(EvalError::SyntaxError("function define arguments must be symbol")),
                        Ghost(Seq::empty()),
                    ),
                }
            },
            _ => (
                Err(EvalError::SyntaxError("define binding must be symbol or (symbol...)")),
                Ghost(Seq::empty()),
            ),
        }
    }

    // (lambda (symbol...) any...)
    fn eval_lambda(l: &Vec<Atom>) -> (r: Result<Atom, EvalError>)
        ensures
            forall|sc: Scopes, t: Trace| ends_as(#[trigger] sem_lambda(sc, view_atoms(l@), t), sc, view_result(r), t),
    {
        broadcast use group_view_atoms;

        if l.len() < 3 {
            return Err(EvalError::SyntaxError("lambda requires arguments and body"));
        }
        match &l[1] {
            Atom::List(params) => match symbol_list_names(params, 0) {
                Some(names) => {
                    proof {
                        assert(view_atoms(params@).skip(0) =~= view_atoms(params@));
                    }
                    Ok(make_closure(names, l, 2))
                },
                None => {
                    proof {
                        assert(view_atoms(params@).skip(0) =~= view_atoms(params@));
                    }
                    Err(EvalError::TypeMismatch("lambda arguments must be (symbol...)"))
                },
            },
            _ => Err(EvalError::TypeMismatch("lambda arguments must be (symbol...)")),
        }
    }

    // (if bool any any?)
    fn eval_if<F: Fn(usize, &[Atom]) -> Result<Atom, EvalError>>(&mut self, l: &Vec<Atom>, depth: usize, host: &F) -> (r: (Result<Atom, EvalError>, Ghost<Trace>))
        requires
            old(self).wf(),
            callable(*host),
            old(self).scopes().len() > 0,
            depth < MAX_DEPTH,
        ensures
            final(self).wf(),
            answered(*host, r.1@),
            final(self).host_count() == old(self).host_count(),
            final(self).scopes().len() == old(self).scopes().len(),
            forall|rest: Trace|
                ends_as(
                    #[trigger] sem_if(old(self).host_count(), old(self).scopes(), view_atoms(l@), depth as nat, r.1@ + rest),
                    final(self).scopes(),
                    view_result(r.0),
                    rest,
                ),
        decreases MAX_DEPTH - depth, 1int, 0int,
    {
        broadcast use group_view_atoms, lemma_answered_add, lemma_trace_empty_add, lemma_trace_assoc;

        let ghost hc = self.host_count();
        let ghost s0 = self.scopes();
        let ghost lv = view_atoms(l@);
        if l.len() < 3 || l.len() > 4 {
            return (Err(EvalError::SyntaxError("if requires condition and true-body")), Ghost(Seq::empty()));
        }
        let (c, Ghost(t1)) = self.eval_inner(&l[1], depth + 1, host);
        let ghost s1 = self.scopes();
        let ghost cv = view_result(c);
        proof {
            assert forall|rest: Trace| #[trigger] sem_if(hc, s0, lv, depth as nat, t1 + rest) == match cv {
                Ok(c) => if c != Datum::Bool(false) {
                    sem_eval(hc, s1, lv[2], (depth + 1) as nat, rest)
                } else if lv.len() == 4 {
                    sem_eval(hc, s1, lv[3], (depth + 1) as nat, rest)
                } else {
                    ok(s1, Datum::Nil, rest)
                },
                Err(e) => fail(s1, e, rest),
            } by {
                assert(ends_as(sem_eval(hc, s0, lv[1], (depth + 1) as nat, t1 + rest), s1, cv, rest));
            }
        }
        let c = match c {
            Ok(c) => c,
            Err(e) => return (Err(e), Ghost(t1)),
        };
        if !is_false(&c) {
            let (res, Ghost(t2)) = self.eval_inner(&l[2], depth + 1, host);
            proof {
                assert forall|rest: Trace| ends_as(#[trigger] sem_if(hc, s0, lv, depth as nat, (t1 + t2) + rest), self.scopes(), view_result(res), rest) by {
                    assert(sem_if(hc, s0, lv, depth as nat, t1 + (t2 + rest)) == sem_eval(hc, s1, lv[2], (depth + 1) as nat, t2 + rest));
                }
            }
            (res, Ghost(t1 + t2))
        } else if l.len() == 4 {
            let (res, Ghost(t2)) = self.eval_inner(&l[3], depth + 1, host);
            proof {
                assert forall|rest: Trace| ends_as(#[trigger] sem_if(hc, s0, lv, depth as nat, (t1 + t2) + rest), self.scopes(), view_result(res), rest) by {
                    assert(sem_if(hc, s0, lv, depth as nat, t1 + (t2 + rest)) == sem_eval(hc, s1, lv[3], (depth + 1) as nat, t2 + rest));
                }
            }
            (res, Ghost(t1 + t2))
        } else {
            (Ok(Atom::Nil), Ghost(t1))
        }
    }

    // a list whose head is a symbol or a list: evaluate the head, then the list again
    fn eval_head<F: Fn(usize, &[Atom]) -> Result<Atom, EvalError>>(&mut self, l: &Vec<Atom>, depth: usize, host: &F) -> (r: (Result<Atom, EvalError>, Ghost<Trace>))
        requires
            old(self).wf(),
            callable(*host),
            old(self).scopes().len() > 0,
            depth < MAX_DEPTH,
            l@.len() > 0,
        ensures
            final(self).wf(),
            answered(*host, r.1@),
            final(self).host_count() == old(self).host_count(),
            final(self).scopes().len() == old(self).scopes().len(),
            forall|rest: Trace|
                ends_as(
                    #[trigger] sem_head(old(self).host_count(), old(self).scopes(), view_atoms(l@), depth as nat, r.1@ + rest),
                    final(self).scopes(),
                    view_result(r.0),
                    rest,
                ),
        decreases MAX_DEPTH - depth, 1int, 0int,
    {
        broadcast use group_view_atoms, lemma_answered_add, lemma_trace_empty_add, lemma_trace_assoc;

        let ghost hc = self.host_count();
        let ghost s0 = self.scopes();
        let ghost lv = view_atoms(l@);
        let (f, Ghost(t1)) = self.eval_inner(&l[0], depth + 1, host);
        let ghost s1 = self.scopes();
        let ghost fv = view_result(f);
        proof {
            assert forall|rest: Trace| #[trigger] sem_head(hc, s0, lv, depth as nat, t1 + rest) == match fv {
                Ok(f) => sem_eval(hc, s1, Datum::List(seq![f] + lv.skip(1)), (depth + 1) as nat, rest),
                Err(e) => fail(s1, e, rest),
            } by {
                assert(ends_as(sem_eval(hc, s0, lv[0], (depth + 1) as nat, t1 + rest), s1, fv, rest));
            }
        }
        let f = match f {
            Ok(f) => f,
            Err(e) => return (Err(e), Ghost(t1)),
        };
        let ghost ff = f@;
        let mut parts: Vec<Atom> = Vec::new();
        parts.push(f);
        let mut tail = copy_tail(l, 1);
        proof {
            lemma_view_atoms(parts@);
            lemma_view_atoms(tail@);
            lemma_view_atoms(parts@ + tail@);
            assert(view_atoms(parts@ + tail@) =~= seq![ff] + lv.skip(1));
        }
        parts.append(&mut tail);
        let (res, Ghost(t2)) = self.eval_inner(&Atom::List(parts), depth + 1, host);
        proof {
            assert forall|rest: Trace| ends_as(#[trigger] sem_head(hc, s0, lv, depth as nat, (t1 + t2) + rest), self.scopes(), view_result(res), rest) by {
                assert(sem_head(hc, s0, lv, depth as nat, t1 + (t2 + rest)) == sem_eval(hc, s1, Datum::List(seq![ff] + lv.skip(1)), (depth + 1) as nat, t2 + rest));
            }
        }
        (res, Ghost(t1 + t2))
    }

    // (and any...)
    fn eval_and<F: Fn(usize, &[Atom]) -> Result<Atom, EvalError>>(&mut self, l: &Vec<Atom>, depth: usize, host: &F) -> (r: (Result<Atom, EvalError>, Ghost<Trace>))
        requires
            old(self).wf(),
            callable(*host),
            old(self).scopes().len() > 0,
            depth < MAX_DEPTH,
            l@.len() > 0,
        ensures
            final(self).wf(),
            answered(*host, r.1@),
            final(self).host_count() == old(self).host_count(),
            final(self).scopes().len() == old(self).scopes().len(),
            forall|rest: Trace|
                ends_as(
                    #[trigger] sem_and(old(self).host_count(), old(self).scopes(), view_atoms(l@), 1, Datum::Bool(true), depth as nat, r.1@ + rest),
                    final(self).scopes(),
                    view_result(r.0),
                    rest,
                ),
        decreases MAX_DEPTH - depth, 1int, 0int,
    {
        broadcast use group_view_atoms, lemma_answered_add, lemma_trace_empty_add, lemma_trace_assoc;

        let ghost hc = self.host_count();
        let ghost s0 = self.scopes();
        let ghost lv = view_atoms(l@);
        let mut value = Atom::Bool(true);
        let mut i: usize = 1;
        let ghost mut t: Trace = Seq::empty();
        while i < l.len()
            invariant
                self.wf(),
                callable(*host),
                answered(*host, t),
                self.host_count() == hc,
                hc == old(self).host_count(),
                s0 == old(self).scopes(),
                s0.len() > 0,
                lv == view_atoms(l@),
                depth < MAX_DEPTH,
                1 <= i <= l@.len(),
                self.scopes().len() == s0.len(),
                forall|rest: Trace|
                    #[trigger] sem_and(hc, s0, lv, 1, Datum::Bool(true), depth as nat, t + rest)
                        == sem_and(hc, self.scopes(), lv, i as int, value@, depth as nat, rest),
            decreases l@.len() - i,
        {
            let ghost sb = self.scopes();
            let ghost vb = value@;
            proof {
                lemma_view_atoms(l@);
                assert(lv[i as int] == l@[i as int]@);
            }
            let (res, Ghost(t1)) = self.eval_inner(&l[i], depth + 1, host);
            let ghost s1 = self.scopes();
            let ghost rv = view_result(res);
            let ghost t0 = t;
            proof {
                t = t0 + t1;
                assert forall|rest: Trace|
                    #[trigger] sem_and(hc, s0, lv, 1, Datum::Bool(true), depth as nat, t + rest) == match rv {
                        Ok(v) => if v == Datum::Bool(false) {
                            ok(s1, v, rest)
                        } else {
                            sem_and(hc, s1, lv, i + 1, v, depth as nat, rest)
                        },
                        Err(e) => fail(s1, e, rest),
                    } by {
                    assert(t + rest == t0 + (t1 + rest));
                    assert(sem_and(hc, s0, lv, 1, Datum::Bool(true), depth as nat, t0 + (t1 + rest))
                        == sem_and(hc, sb, lv, i as int, vb, depth as nat, t1 + rest));
                    assert(ends_as(sem_eval(hc, sb, lv[i as int], (depth + 1) as nat, t1 + rest), s1, rv, rest));
                }
            }
            match res {
                Ok(v) => {
                    if is_false(&v) {
                        return (Ok(v), Ghost(t));
                    }
                    value = v;
                },
                Err(e) => return (Err(e), Ghost(t)),
            }
            i = i + 1;
        }
        (Ok(value), Ghost(t))
    }

    // (or any...)
    fn eval_or<F: Fn(usize, &[Atom]) -> Result<Atom, EvalError>>(&mut self, l: &Vec<Atom>, depth: usize, host: &F) -> (r: (Result<Atom, EvalError>, Ghost<Trace>))
        requires
            old(self).wf(),
            callable(*host),
            old(self).scopes().len() > 0,
            depth < MAX_DEPTH,
            l@.len() > 0,
        ensures
            final(self).wf(),
            answered(*host, r.1@),
            final(self).host_count() == old(self).host_count(),
            final(self).scopes().len() == old(self).scopes().len(),
            forall|rest: Trace|
                ends_as(
                    #[trigger] sem_or(old(self).host_count(), old(self).scopes(), view_atoms(l@), 1, Datum::Bool(false), depth as nat, r.1@ + rest),
                    final(self).scopes(),
                    view_result(r.0),
                    rest,
                ),
        decreases MAX_DEPTH - depth, 1int, 0int,
    {
        broadcast use group_view_atoms, lemma_answered_add, lemma_trace_empty_add, lemma_trace_assoc;

        let ghost hc = self.host_count();
        let ghost s0 = self.scopes();
        let ghost lv = view_atoms(l@);
        let mut value = Atom::Bool(false);
        let mut i: usize = 1;
        let ghost mut t: Trace = Seq::empty();
        while i < l.len()
            invariant
                self.wf(),
                callable(*host),
                answered(*host, t),
                self.host_count() == hc,
                hc == old(self).host_count(),
                s0 == old(self).scopes(),
                s0.len() > 0,
                lv == view_atoms(l@),
                depth < MAX_DEPTH,
                1 <= i <= l@.len(),
                self.scopes().len() == s0.len(),
                forall|rest: Trace|
                    #[trigger] sem_or(hc, s0, lv, 1, Datum::Bool(false), depth as nat, t + rest)
                        == sem_or(hc, self.scopes(), lv, i as int, value@, depth as nat, rest),
            decreases l@.len() - i,
        {
            let ghost sb = self.scopes();
            let ghost vb = value@;
            proof {
                lemma_view_atoms(l@);
                assert(lv[i as int] == l@[i as int]@);
            }
            let (res, Ghost(t1)) = self.eval_inner(&l[i], depth + 1, host);
            let ghost s1 = self.scopes();
            let ghost rv = view_result(res);
            let ghost t0 = t;
            proof {
                t = t0 + t1;
                assert forall|rest: Trace|
                    #[trigger] sem_or(hc, s0, lv, 1, Datum::Bool(false), depth as nat, t + rest) == match rv {
                        Ok(v) => if v != Datum::Bool(false) {
                            ok(s1, v, rest)
                        } else {
                            sem_or(hc, s1, lv, i + 1, v, depth as nat, rest)
                        },
                        Err(e) => fail(s1, e, rest),
                    } by {
                    assert(t + rest == t0 + (t1 + rest));
                    assert(sem_or(hc, s0, lv, 1, Datum::Bool(false), depth as nat, t0 + (t1 + rest))
                        == sem_or(hc, sb, lv, i as int, vb, depth as nat, t1 + rest));
                    assert(ends_as(sem_eval(hc, sb, lv[i as int], (depth + 1) as nat, t1 + rest), s1, rv, rest));
                }
            }
            match res {
                Ok(v) => {
                    if !is_false(&v) {
                        return (Ok(v), Ghost(t));
                    }
                    value = v;
                },
                Err(e) => return (Err(e), Ghost(t)),
            }
            i = i + 1;
        }
        (Ok(value), Ghost(t))
    }

    // any other list: its elements in order, and the list of their values
    fn eval_seq<F: Fn(usize, &[Atom]) -> Result<Atom, EvalError>>(&mut self, l: &Vec<Atom>, depth: usize, host: &F) -> (r: (Result<Atom, EvalError>, Ghost<Trace>))
        requires
            old(self).wf(),
            callable(*host),
            old(self).scopes().len() > 0,
            depth < MAX_DEPTH,
        ensures
            final(self).wf(),
            answered(*host, r.1@),
            final(self).host_count() == old(self).host_count(),
            final(self).scopes().len() == old(self).scopes().len(),
            forall|rest: Trace|
                ends_as(
                    #[trigger] sem_seq(old(self).host_count(), old(self).scopes(), view_atoms(l@), 0, Seq::empty(), depth as nat, r.1@ + rest),
                    final(self).scopes(),
                    view_result(r.0),
                    rest,
                ),
        decreases MAX_DEPTH - depth, 1int, 0int,
    {
        broadcast use group_view_atoms, lemma_answered_add, lemma_trace_empty_add, lemma_trace_assoc;

        let ghost hc = self.host_count();
        let ghost s0 = self.scopes();
        let ghost lv = view_atoms(l@);
        let mut values: Vec<Atom> = Vec::new();
        let mut i: usize = 0;
        let ghost mut t: Trace = Seq::empty();
        proof {
            assert(view_atoms(values@) =~= Seq::<Datum>::empty());
        }
        while i < l.len()
            invariant
                self.wf(),
                callable(*host),
                answered(*host, t),
                self.host_count() == hc,
                hc == old(self).host_count(),
                s0 == old(self).scopes(),
                s0.len() > 0,
                lv == view_atoms(l@),
                depth < MAX_DEPTH,
                i <= l@.len(),
                self.scopes().len() == s0.len(),
                forall|rest: Trace|
                    #[trigger] sem_seq(hc, s0, lv, 0, Seq::empty(), depth as nat, t + rest)
                        == sem_seq(hc, self.scopes(), lv, i as int, view_atoms(values@), depth as nat, rest),
            decreases l@.len() - i,
        {
            let ghost sb = self.scopes();
            let ghost vb = view_atoms(values@);
            proof {
                lemma_view_atoms(l@);
                assert(lv[i as int] == l@[i as int]@);
            }
            let (res, Ghost(t1)) = self.eval_inner(&l[i], depth + 1, host);
            let ghost s1 = self.scopes();
            let ghost rv = view_result(res);
            let ghost t0 = t;
            proof {
                t = t0 + t1;
                assert forall|rest: Trace|
                    #[trigger] sem_seq(hc, s0, lv, 0, Seq::empty(), depth as nat, t + rest) == match rv {
                        Ok(v) => sem_seq(hc, s1, lv, i + 1, vb.push(v), depth as nat, rest),
                        Err(e) => fail(s1, e, rest),
                    } by {
                    assert(t + rest == t0 + (t1 + rest));
                    assert(sem_seq(hc, s0, lv, 0, Seq::empty(), depth as nat, t0 + (t1 + rest))
                        == sem_seq(hc, sb, lv, i as int, vb, depth as nat, t1 + rest));
                    assert(ends_as(sem_eval(hc, sb, lv[i as int], (depth + 1) as nat, t1 + rest), s1, rv, rest));
                }
            }
            match res {
                Ok(v) => {
                    proof {
                        lemma_view_atoms_push(values@, v);
                    }
                    values.push(v);
                },
                Err(e) => return (Err(e), Ghost(t)),
            }
            i = i + 1;
        }
        (Ok(Atom::List(values)), Ghost(t))
    }

    // (cond (bool any)... (else any)?)
    fn eval_cond<F: Fn(usize, &[Atom]) -> Result<Atom, EvalError>>(&mut self, l: &Vec<Atom>, depth: usize, host: &F) -> (r: (Result<Atom, EvalError>, Ghost<Trace>))
        requires
            old(self).wf(),
            callable(*host),
            old(self).scopes().len() > 0,
            depth < MAX_DEPTH,
            l@.len() > 0,
        ensures
            final(self).wf(),
            answered(*host, r.1@),
            final(self).host_count() == old(self).host_count(),
            final(self).scopes().len() == old(self).scopes().len(),
            forall|rest: Trace|
                ends_as(
                    #[trigger] sem_cond(old(self).host_count(), old(self).scopes(), view_atoms(l@), 1, Datum::Nil, depth as nat, r.1@ + rest),
                    final(self).scopes(),
                    view_result(r.0),
                    rest,
                ),
        decreases MAX_DEPTH - depth, 1int, 0int,
    {
        broadcast use group_view_atoms, lemma_answered_add, lemma_trace_empty_add, lemma_trace_assoc;

        let ghost hc = self.host_count();
        let ghost s0 = self.scopes();
        let ghost lv = view_atoms(l@);
        let mut otherwise = Atom::Nil;
        let mut i: usize = 1;
        let ghost mut t: Trace = Seq::empty();
        while i < l.len()
            invariant
                self.wf(),
                callable(*host),
                answered(*host, t),
                self.host_count() == hc,
                hc == old(self).host_count(),
                s0 == old(self).scopes(),
                s0.len() > 0,
                lv == view_atoms(l@),
                depth < MAX_DEPTH,
                1 <= i <= l@.len(),
                self.scopes().len() == s0.len(),
                forall|rest: Trace|
                    #[trigger] sem_cond(hc, s0, lv, 1, Datum::Nil, depth as nat, t + rest)
                        == sem_cond(hc, self.scopes(), lv, i as int, otherwise@, depth as nat, rest),
            decreases l@.len() - i,
        {
            let ghost sb = self.scopes();
            let ghost ob = otherwise@;
            proof {
                lemma_view_atoms(l@);
                assert(lv[i as int] == l@[i as int]@);
            }
            let pair = match &l[i] {
                Atom::List(pair) => pair,
                _ => return (
                    Err(EvalError::SyntaxError("cond branches must be a list with a condition and value expression")),
                    Ghost(t),
                ),
            };
            proof {
                lemma_view_atoms(pair@);
            }
            if pair.len() != 2 {
                return (
                    Err(EvalError::SyntaxError("cond branches must be a list with a condition and value expression")),
                    Ghost(t),
                );
            }
            if is_symbol_named(&pair[0], "else") {
                otherwise = pair[1].clone();
            } else {
                let (res, Ghost(t1)) = self.eval_inner(&pair[0], depth + 1, host);
                let ghost s1 = self.scopes();
                let ghost rv = view_result(res);
                let ghost t0 = t;
                proof {
                    t = t0 + t1;
                    assert forall|rest: Trace|
                        #[trigger] sem_cond(hc, s0, lv, 1, Datum::Nil, depth as nat, t + rest) == match rv {
                            Ok(Datum::Bool(true)) => sem_eval(hc, s1, pair@[1]@, (depth + 1) as nat, rest),
                            Ok(Datum::Bool(false)) => sem_cond(hc, s1, lv, i + 1, ob, depth as nat, rest),
                            Ok(_) => fail(s1, Fault::SyntaxError("cond branch condition must be bool"@), rest),
                            Err(e) => fail(s1, e, rest),
                        } by {
                        assert(t + rest == t0 + (t1 + rest));
                        assert(sem_cond(hc, s0, lv, 1, Datum::Nil, depth as nat, t0 + (t1 + rest))
                            == sem_cond(hc, sb, lv, i as int, ob, depth as nat, t1 + rest));
                        assert(ends_as(sem_eval(hc, sb, pair@[0]@, (depth + 1) as nat, t1 + rest), s1, rv, rest));
                    }
                }
                match res {
                    Ok(Atom::Bool(true)) => {
                        let (res2, Ghost(t2)) = self.eval_inner(&pair[1], depth + 1, host);
                        proof {
                            assert forall|rest: Trace|
                                ends_as(
                                    #[trigger] sem_cond(hc, s0, lv, 1, Datum::Nil, depth as nat, (t + t2) + rest),
                                    self.scopes(),
                                    view_result(res2),
                                    rest,
                                ) by {
                                assert((t + t2) + rest == t + (t2 + rest));
                                assert(sem_cond(hc, s0, lv, 1, Datum::Nil, depth as nat, t + (t2 + rest))
                                    == sem_eval(hc, s1, pair@[1]@, (depth + 1) as nat, t2 + rest));
                            }
                        }
                        return (res2, Ghost(t + t2));
                    },
                    Ok(Atom::Bool(false)) => {},
                    Ok(_) => return (Err(EvalError::SyntaxError("cond branch condition must be bool")), Ghost(t)),
                    Err(e) => return (Err(e), Ghost(t)),
                }
            }
            i = i + 1;
        }
        let ghost sb = self.scopes();
        proof {
            lemma_view_atoms(l@);
        }
        let (res, Ghost(t1)) = self.eval_inner(&otherwise, depth + 1, host);
        proof {
            assert forall|rest: Trace|
                ends_as(
                    #[trigger] sem_cond(hc, s0, lv, 1, Datum::Nil, depth as nat, (t + t1) + rest),
                    self.scopes(),
                    view_result(res),
                    rest,
                ) by {
                assert((t + t1) + rest == t + (t1 + rest));
                assert(sem_cond(hc, s0, lv, 1, Datum::Nil, depth as nat, t + (t1 + rest))
                    == sem_cond(hc, sb, lv, i as int, otherwise@, depth as nat, t1 + rest));
                assert(ends_as(sem_eval(hc, sb, otherwise@, (depth + 1) as nat, t1 + rest), self.scopes(), view_result(res), rest));
            }
        }
        (res, Ghost(t + t1))
    }

    // (let ((symbol any)...) any)
    fn eval_let<F: Fn(usize, &[Atom]) -> Result<Atom, EvalError>>(&mut self, l: &Vec<Atom>, depth: usize, host: &F) -> (r: (Result<Atom, EvalError>, Ghost<Trace>))
        requires
            old(self).wf(),
            callable(*host),
            old(self).scopes().len() > 0,
            depth < MAX_DEPTH,
        ensures
            final(self).wf(),
            answered(*host, r.1@),
            final(self).host_count() == old(self).host_count(),
            final(self).scopes().len() == old(self).scopes().len(),
            forall|rest: Trace|
                ends_as(
                    #[trigger] sem_let(old(self).host_count(), old(self).scopes(), view_atoms(l@), depth as nat, r.1@ + rest),
                    final(self).scopes(),
                    view_result(r.0),
                    rest,
                ),
        decreases MAX_DEPTH - depth, 1int, 0int,
    {
        broadcast use group_view_atoms, lemma_answered_add, lemma_trace_empty_add, lemma_trace_assoc;

        let ghost hc = self.host_count();
        let ghost s0 = self.scopes();
        let ghost lv = view_atoms(l@);
        if l.len() < 3 {
            return (Err(EvalError::SyntaxError("let requires bindings and body")), Ghost(Seq::empty()));
        }
        assert(lv[1] == l@[1]@);
        let bs = match &l[1] {
            Atom::List(bs) => bs,
            _ => return (
                Err(EvalError::TypeMismatch("let bindings must be (symbol any)")),
                Ghost(Seq::empty()),
            ),
        };
        let ghost bv = view_atoms(bs@);
        let ghost body = lv[2];
        let mut vals: Vec<(String, Atom)> = Vec::new();
        let mut i: usize = 0;
        let ghost mut t: Trace = Seq::empty();
        proof {
            lemma_view_atoms(bs@);
            assert(pairs_view(vals@) =~= Seq::<(Seq<char>, Datum)>::empty());
        }
        while i < bs.len()
            invariant
                self.wf(),
                callable(*host),
                answered(*host, t),
                self.host_count() == hc,
                hc == old(self).host_count(),
                s0 == old(self).scopes(),
                s0.len() > 0,
                lv == view_atoms(l@),
                bv == view_atoms(bs@),
                body == lv[2],
                depth < MAX_DEPTH,
                i <= bs@.len(),
                self.scopes().len() == s0.len(),
                forall|rest: Trace|
                    #[trigger] sem_let(hc, s0, lv, depth as nat, t + rest)
                        == sem_let_bindings(hc, self.scopes(), bv, i as int, pairs_view(vals@), body, depth as nat, rest),
            decreases bs@.len() - i,
        {
            proof {
                lemma_view_atoms(bs@);
            }
            let ghost sb = self.scopes();
            let ghost vb = pairs_view(vals@);
            let (name, expr) = match binding_parts(&bs[i]) {
                Some(parts) => parts,
                None => return (Err(EvalError::TypeMismatch("let bindings must be (symbol any)")), Ghost(t)),
            };
            let (res, Ghost(t1)) = self.eval_inner(expr, depth + 1, host);
            let ghost s1 = self.scopes();
            let ghost rv = view_result(res);
            let ghost t0 = t;
            proof {
                t = t0 + t1;
                assert forall|rest: Trace|
                    #[trigger] sem_let(hc, s0, lv, depth as nat, t + rest) == match rv {
                        Ok(v) => sem_let_bindings(hc, s1, bv, i + 1, vb.push((name@, v)), body, depth as nat, rest),
                        Err(e) => fail(s1, e, rest),
                    } by {
                    assert(t + rest == t0 + (t1 + rest));
                    assert(sem_let(hc, s0, lv, depth as nat, t0 + (t1 + rest))
                        == sem_let_bindings(hc, sb, bv, i as int, vb, body, depth as nat, t1 + rest));
                    assert(ends_as(sem_eval(hc, sb, expr@, (depth + 1) as nat, t1 + rest), s1, rv, rest));
                }
            }
            match res {
                Ok(v) => {
                    let ghost vv = v@;
                    vals.push((name.clone(), v));
                    proof {
                        assert(pairs_view(vals@) =~= vb.push((name@, vv)));
                    }
                },
                Err(e) => return (Err(e), Ghost(t)),
            }
            i = i + 1;
        }
        let ghost sb = self.scopes();
        self.push_scope();
        let mut j: usize = 0;
        while j < vals.len()
            invariant
                self.wf(),
                callable(*host),
                answered(*host, t),
                self.host_count() == hc,
                j <= vals@.len(),
                self.scopes() == define_all(push_scope(sb), pairs_view(vals@).take(j as int)),
                self.scopes().len() == sb.len() + 1,
            decreases vals@.len() - j,
        {
            proof {
                assert(pairs_view(vals@).take(j + 1).drop_last() =~= pairs_view(vals@).take(j as int));
            }
            self.set_in_current_scope(vals[j].0.clone(), vals[j].1.clone());
            j = j + 1;
        }
        proof {
            assert(pairs_view(vals@).take(vals@.len() as int) =~= pairs_view(vals@));
        }
        let ghost s2 = self.scopes();
        let (res, Ghost(t1)) = self.eval_inner(&l[2], depth + 1, host);
        let ghost s3 = self.scopes();
        self.pop_scope();
        proof {
            assert forall|rest: Trace|
                ends_as(
                    #[trigger] sem_let(hc, s0, lv, depth as nat, (t + t1) + rest),
                    self.scopes(),
                    view_result(res),
                    rest,
                ) by {
                assert((t + t1) + rest == t + (t1 + rest));
                assert(sem_let(hc, s0, lv, depth as nat, t + (t1 + rest))
                    == sem_let_bindings(hc, sb, bv, i as int, pairs_view(vals@), body, depth as nat, t1 + rest));
                assert(ends_as(sem_eval(hc, s2, body, (depth + 1) as nat, t1 + rest), s3, view_result(res), rest));
            }
        }
        (res, Ghost(t + t1))
    }

    // (let* ((symbol any)...) any)
    fn eval_let_star<F: Fn(usize, &[Atom]) -> Result<Atom, EvalError>>(&mut self, l: &Vec<Atom>, depth: usize, host: &F) -> (r: (Result<Atom, EvalError>, Ghost<Trace>))
        requires
            old(self).wf(),
            callable(*host),
            old(self).scopes().len() > 0,
            depth < MAX_DEPTH,
        ensures
            final(self).wf(),
            answered(*host, r.1@),
            final(self).host_count() == old(self).host_count(),
            final(self).scopes().len() == old(self).scopes().len(),
            forall|rest: Trace|
                ends_as(
                    #[trigger] sem_let_star(old(self).host_count(), old(self).scopes(), view_atoms(l@), depth as nat, r.1@ + rest),
                    final(self).scopes(),
                    view_result(r.0),
                    rest,
                ),
        decreases MAX_DEPTH - depth, 1int, 0int,
    {
        broadcast use group_view_atoms, lemma_answered_add, lemma_trace_empty_add, lemma_trace_assoc;

        let ghost hc = self.host_count();
        let ghost s0 = self.scopes();
        let ghost lv = view_atoms(l@);
        if l.len() < 3 {
            return (Err(EvalError::SyntaxError("let* requires bindings and body")), Ghost(Seq::empty()));
        }
        assert(lv[1] == l@[1]@);
        let bs = match &l[1] {
            Atom::List(bs) => bs,
            _ => return (
                Err(EvalError::TypeMismatch("let* bindings must be (symbol any)")),
                Ghost(Seq::empty()),
            ),
        };
        let ghost bv = view_atoms(bs@);
        let ghost body = lv[2];
        self.push_scope();
        let mut i: usize = 0;
        let ghost mut t: Trace = Seq::empty();
        while i < bs.len()
            invariant
                self.wf(),
                callable(*host),
                answered(*host, t),
                self.host_count() == hc,
                hc == old(self).host_count(),
                s0 == old(self).scopes(),
                s0.len() > 0,
                lv == view_atoms(l@),
                bv == view_atoms(bs@),
                body == lv[2],
                depth < MAX_DEPTH,
                i <= bs@.len(),
                self.scopes().len() == s0.len() + 1,
                forall|rest: Trace|
                    #[trigger] sem_let_star(hc, s0, lv, depth as nat, t + rest)
                        == sem_let_star_bindings(hc, self.scopes(), bv, i as int, body, depth as nat, rest),
            decreases bs@.len() - i,
        {
            proof {
                lemma_view_atoms(bs@);
            }
            let ghost sb = self.scopes();
            let (name, expr) = match binding_parts(&bs[i]) {
                Some(parts) => parts,
                None => {
                    self.pop_scope();
                    return (Err(EvalError::TypeMismatch("let* bindings must be (symbol any)")), Ghost(t));
                },
            };
            let (res, Ghost(t1)) = self.eval_inner(expr, depth + 1, host);
            let ghost s1 = self.scopes();
            let ghost rv = view_result(res);
            let ghost t0 = t;
            proof {
                t = t0 + t1;
                assert forall|rest: Trace|
                    #[trigger] sem_let_star(hc, s0, lv, depth as nat, t + rest) == match rv {
                        Ok(v) => sem_let_star_bindings(hc, define(s1, name@, v), bv, i + 1, body, depth as nat, rest),
                        Err(e) => fail(pop_scope(s1), e, rest),
                    } by {
                    assert(t + rest == t0 + (t1 + rest));
                    assert(sem_let_star(hc, s0, lv, depth as nat, t0 + (t1 + rest))
                        == sem_let_star_bindings(hc, sb, bv, i as int, body, depth as nat, t1 + rest));
                    assert(ends_as(sem_eval(hc, sb, expr@, (depth + 1) as nat, t1 + rest), s1, rv, rest));
                }
            }
            match res {
                Ok(v) => {
                    self.set_in_current_scope(name.clone(), v);
                },
                Err(e) => {
                    self.pop_scope();
                    return (Err(e), Ghost(t));
                },
            }
            i = i + 1;
        }
        let ghost sb = self.scopes();
        let (res, Ghost(t1)) = self.eval_inner(&l[2], depth + 1, host);
        let ghost s3 = self.scopes();
        self.pop_scope();
        proof {
            assert forall|rest: Trace|
                ends_as(
                    #[trigger] sem_let_star(hc, s0, lv, depth as nat, (t + t1) + rest),
                    self.scopes(),
                    view_result(res),
                    rest,
                ) by {
                assert((t + t1) + rest == t + (t1 + rest));
                assert(sem_let_star(hc, s0, lv, depth as nat, t + (t1 + rest))
                    == sem_let_star_bindings(hc, sb, bv, i as int, body, depth as nat, t1 + rest));
                assert(ends_as(sem_eval(hc, sb, body, (depth + 1) as nat, t1 + rest), s3, view_result(res), rest));
            }
        }
        (res, Ghost(t + t1))
    }

    // a call of a closure: the arguments are evaluated and bound in a new scope, then the body
    fn eval_call<F: Fn(usize, &[Atom]) -> Result<Atom, EvalError>>(
        &mut self,
        params: &Vec<String>,
        body: &Atom,
        l: &Vec<Atom>,
        depth: usize,
        host: &F,
    ) -> (r: (Result<Atom, EvalError>, Ghost<Trace>))
        requires
            old(self).wf(),
            callable(*host),
            old(self).scopes().len() > 0,
            depth < MAX_DEPTH,
            l@.len() >= 1,
            l@.len() - 1 == params@.len(),
        ensures
            final(self).wf(),
            answered(*host, r.1@),
            final(self).host_count() == old(self).host_count(),
            final(self).scopes().len() == old(self).scopes().len(),
            forall|rest: Trace|
                ends_as(
                    #[trigger] sem_call_args(old(self).host_count(), push_scope(old(self).scopes()), view_strings(params@), body@, view_atoms(l@), 1, depth as nat, r.1@ + rest),
                    final(self).scopes(),
                    view_result(r.0),
                    rest,
                ),
        decreases MAX_DEPTH - depth, 1int, 0int,
    {
        broadcast use group_view_atoms, lemma_answered_add, lemma_trace_empty_add, lemma_trace_assoc;

        let ghost hc = self.host_count();
        let ghost s0 = self.scopes();
        let ghost lv = view_atoms(l@);
        let ghost pv = view_strings(params@);
        self.push_scope();
        let mut i: usize = 1;
        let ghost mut t: Trace = Seq::empty();
        while i < l.len()
            invariant
                self.wf(),
                callable(*host),
                answered(*host, t),
                self.host_count() == hc,
                hc == old(self).host_count(),
                s0 == old(self).scopes(),
                s0.len() > 0,
                lv == view_atoms(l@),
                pv == view_strings(params@),
                l@.len() - 1 == params@.len(),
                depth < MAX_DEPTH,
                1 <= i <= l@.len(),
                self.scopes().len() == s0.len() + 1,
                forall|rest: Trace|
                    #[trigger] sem_call_args(hc, push_scope(s0), pv, body@, lv, 1, depth as nat, t + rest)
                        == sem_call_args(hc, self.scopes(), pv, body@, lv, i as int, depth as nat, rest),
            decreases l@.len() - i,
        {
            let ghost sb = self.scopes();
            proof {
                lemma_view_atoms(l@);
                assert(lv[i as int] == l@[i as int]@);
            }
            let (res, Ghost(t1)) = self.eval_inner(&l[i], depth + 1, host);
            let ghost s1 = self.scopes();
            let ghost rv = view_result(res);
            let ghost t0 = t;
            proof {
                t = t0 + t1;
                assert(pv[i - 1] == params@[i - 1]@);
                assert forall|rest: Trace|
                    #[trigger] sem_call_args(hc, push_scope(s0), pv, body@, lv, 1, depth as nat, t + rest) == match rv {
                        Ok(v) => sem_call_args(hc, define(s1, params@[i - 1]@, v), pv, body@, lv, i + 1, depth as nat, rest),
                        Err(e) => fail(pop_scope(s1), e, rest),
                    } by {
                    assert(t + rest == t0 + (t1 + rest));
                    assert(sem_call_args(hc, push_scope(s0), pv, body@, lv, 1, depth as nat, t0 + (t1 + rest))
                        == sem_call_args(hc, sb, pv, body@, lv, i as int, depth as nat, t1 + rest));
                    assert(ends_as(sem_eval(hc, sb, lv[i as int], (depth + 1) as nat, t1 + rest), s1, rv, rest));
                }
            }
            match res {
                Ok(v) => {
                    self.set_in_current_scope(params[i - 1].clone(), v);
                },
                Err(e) => {
                    self.pop_scope();
                    return (Err(e), Ghost(t));
                },
            }
            i = i + 1;
        }
        let ghost sb = self.scopes();
        let (res, Ghost(t1)) = self.eval_inner(body, depth + 1, host);
        let ghost s3 = self.scopes();
        let ghost rv = view_result(res);
        let result = match res {
            Ok(Atom::List(list)) => {
                proof {
                    lemma_view_atoms(list@);
                }
                if list.len() == 0 {
                    Ok(Atom::Nil)
                } else {
                    Ok(list[list.len() - 1].clone())
                }
            },
            other => other,
        };
        assert(view_result(result) == call_result(rv));
        self.pop_scope();
        proof {
            assert forall|rest: Trace|
                ends_as(
                    #[trigger] sem_call_args(hc, push_scope(s0), pv, body@, lv, 1, depth as nat, (t + t1) + rest),
                    self.scopes(),
                    view_result(result),
                    rest,
                ) by {
                assert((t + t1) + rest == t + (t1 + rest));
                assert(sem_call_args(hc, push_scope(s0), pv, body@, lv, 1, depth as nat, t + (t1 + rest))
                    == sem_call_args(hc, sb, pv, body@, lv, i as int, depth as nat, t1 + rest));
                assert(ends_as(sem_eval(hc, sb, body@, (depth + 1) as nat, t1 + rest), s3, rv, rest));
            }
        }
        (result, Ghost(t + t1))
    }

    // a call of a host function: the arguments are evaluated, then handed to the host
    fn eval_host_call<F: Fn(usize, &[Atom]) -> Result<Atom, EvalError>>(&mut self, index: usize, l: &Vec<Atom>, depth: usize, host: &F) -> (r: (
        Result<Atom, EvalError>,
        Ghost<Trace>,
    ))
        requires
            old(self).wf(),
            callable(*host),
            old(self).scopes().len() > 0,
            depth < MAX_DEPTH,
            l@.len() >= 1,
        ensures
            final(self).wf(),
            answered(*host, r.1@),
            final(self).host_count() == old(self).host_count(),
            final(self).scopes().len() == old(self).scopes().len(),
            forall|rest: Trace|
                ends_as(
                    #[trigger] sem_host_args(old(self).host_count(), old(self).scopes(), index, view_atoms(l@), 1, Seq::empty(), depth as nat, r.1@ + rest),
                    final(self).scopes(),
                    view_result(r.0),
                    rest,
                ),
        decreases MAX_DEPTH - depth, 1int, 0int,
    {
        broadcast use group_view_atoms, lemma_answered_add, lemma_trace_empty_add, lemma_trace_assoc;

        let ghost hc = self.host_count();
        let ghost s0 = self.scopes();
        let ghost lv = view_atoms(l@);
        let mut args: Vec<Atom> = Vec::new();
        let mut i: usize = 1;
        let ghost mut t: Trace = Seq::empty();
        proof {
            assert(view_atoms(args@) =~= Seq::<Datum>::empty());
        }
        while i < l.len()
            invariant
                self.wf(),
                callable(*host),
                answered(*host, t),
                self.host_count() == hc,
                hc == old(self).host_count(),
                s0 == old(self).scopes(),
                s0.len() > 0,
                lv == view_atoms(l@),
                depth < MAX_DEPTH,
                1 <= i <= l@.len(),
                self.scopes().len() == s0.len(),
                forall|rest: Trace|
                    #[trigger] sem_host_args(hc, s0, index, lv, 1, Seq::empty(), depth as nat, t + rest)
                        == sem_host_args(hc, self.scopes(), index, lv, i as int, view_atoms(args@), depth as nat, rest),
            decreases l@.len() - i,
        {
            let ghost sb = self.scopes();
            let ghost ab = view_atoms(args@);
            proof {
                lemma_view_atoms(l@);
                assert(lv[i as int] == l@[i as int]@);
            }
            let (res, Ghost(t1)) = self.eval_inner(&l[i], depth + 1, host);
            let ghost s1 = self.scopes();
            let ghost rv = view_result(res);
            let ghost t0 = t;
            proof {
                t = t0 + t1;
                assert forall|rest: Trace|
                    #[trigger] sem_host_args(hc, s0, index, lv, 1, Seq::empty(), depth as nat, t + rest) == match rv {
                        Ok(v) => sem_host_args(hc, s1, index, lv, i + 1, ab.push(v), depth as nat, rest),
                        Err(e) => fail(s1, e, rest),
                    } by {
                    assert(t + rest == t0 + (t1 + rest));
                    assert(sem_host_args(hc, s0, index, lv, 1, Seq::empty(), depth as nat, t0 + (t1 + rest))
                        == sem_host_args(hc, sb, index, lv, i as int, ab, depth as nat, t1 + rest));
                    assert(ends_as(sem_eval(hc, sb, lv[i as int], (depth + 1) as nat, t1 + rest), s1, rv, rest));
                }
            }
            match res {
                Ok(v) => {
                    proof {
                        lemma_view_atoms_push(args@, v);
                    }
                    args.push(v);
                },
                Err(e) => return (Err(e), Ghost(t)),
            }
            i = i + 1;
        }
        if index < self.host_count {
            if index < 17 {
                proof {
                    assert(builtin_names().len() == 17);
                }
                match check_builtin(index, args.as_slice()) {
                    Checked::Fails(e) => return (Err(e), Ghost(t)),
                    Checked::Gives(a) => return (Ok(a), Ghost(t)),
                    _ => {},
                }
            }
            let slice = args.as_slice();
            let res = host(index, slice);
            let ghost call = HostCall { index, args: view_atoms(args@), result: view_result(res) };
            proof {
                assert(call_ensures(*host, (index, slice), res));
                assert(slice@ == args@);
                assert(call_ensures(*host, (call.index, slice), res) && view_atoms(slice@) == call.args
                    && view_result(res) == call.result);
                assert(answered_call(*host, call));
                assert(answered(*host, seq![call]));
                assert forall|rest: Trace|
                    ends_as(
                        #[trigger] sem_host_args(hc, s0, index, lv, 1, Seq::empty(), depth as nat, (t + seq![call]) + rest),
                        self.scopes(),
                        view_result(res),
                        rest,
                    ) by {
                    assert((t + seq![call]) + rest == t + (seq![call] + rest));
                    assert((seq![call] + rest).skip(1) =~= rest);
                    assert((seq![call] + rest)[0] == call);
                    assert(sem_host_args(hc, s0, index, lv, 1, Seq::empty(), depth as nat, t + (seq![call] + rest))
                        == sem_host_args(hc, self.scopes(), index, lv, i as int, view_atoms(args@), depth as nat, seq![call] + rest));
                }
            }
            (res, Ghost(t + seq![call]))
        } else {
            let mut name = String::new();
            name.append("builtin ");
            let digits = decimal_string(index);
            name.append(digits.as_str());
            proof {
                assert(name@ == "builtin "@ + decimal(index as nat));
            }
            (Err(EvalError::UnboundVariable(name)), Ghost(t))
        }
    }
}

/// Evaluating `a` in the scopes `before` of an evaluator with `hc` host functions ends in
/// the scopes `after` with the result `r`, for some answers of the host functions to the
/// calls that the evaluation makes of them, in the order made.
pub open spec fn evaluates(hc: nat, before: Scopes, a: Datum, after: Scopes, r: Result<Datum, Fault>) -> bool {
    exists|t: Trace| #[trigger] sem_eval(hc, before, a, 0, t) == Some(Outcome { scopes: after, result: r, rest: Seq::empty() })
}

/// As [`evaluates`], where the answers are those that `host` gave: each call recorded is one
/// that was made of `host`, with the function index and the arguments that the evaluation
/// hands to it, in the order of the evaluation.
pub open spec fn evaluates_with<F: Fn(usize, &[Atom]) -> Result<Atom, EvalError>>(
    host: F,
    hc: nat,
    before: Scopes,
    a: Datum,
    after: Scopes,
    r: Result<Datum, Fault>,
) -> bool {
    exists|t: Trace|
        #[trigger] sem_eval(hc, before, a, 0, t) == Some(Outcome { scopes: after, result: r, rest: Seq::empty() })
            && answered(host, t)
}

impl Evaluator {
    /// Evaluates `atom` in the current scopes. `host` is called for each call of a host
    /// function, with its index and the evaluated arguments; for a built-in whose arguments
    /// decide the result, as [`check_builtin`] says, it is not called.
    pub fn eval<F: Fn(usize, &[Atom]) -> Result<Atom, EvalError>>(&mut self, atom: &Atom, host: &F) -> (r: Result<Atom, EvalError>)
        requires
            old(self).wf(),
            old(self).scopes().len() > 0,
            callable(*host),
        ensures
            final(self).wf(),
            final(self).host_count() == old(self).host_count(),
            evaluates_with(*host, old(self).host_count(), old(self).scopes(), atom@, final(self).scopes(), view_result(r)),
            evaluates(old(self).host_count(), old(self).scopes(), atom@, final(self).scopes(), view_result(r)),
            final(self).scopes().len() == old(self).scopes().len(),
    {
        let (r, Ghost(t)) = self.eval_inner(atom, 0, host);
        proof {
            assert(t + Seq::<HostCall>::empty() =~= t);
            assert(ends_as(
                sem_eval(old(self).host_count(), old(self).scopes(), atom@, 0, t + Seq::<HostCall>::empty()),
                self.scopes(),
                view_result(r),
                Seq::empty(),
            ));
            assert(sem_eval(old(self).host_count(), old(self).scopes(), atom@, 0, t) == Some(
                Outcome { scopes: self.scopes(), result: view_result(r), rest: Seq::empty() },
            ) && answered(*host, t));
        }
        r
    }
}

/// The name and the expression of a `let` binding `(name expr ...)`, if it is one.
fn binding_parts(b: &Atom) -> (r: Option<(&String, &Atom)>)
    ensures
        r is Some <==> is_binding(b@),
        r matches Some((name, expr)) ==> b@->List_0[0] == Datum::Symbol(name@) && b@->List_0[1] == expr@,
{
    match b {
        Atom::List(pair) => {
            proof {
                lemma_view_atoms(pair@);
            }
            if pair.len() < 2 {
                return None;
            }
            match &pair[0] {
                Atom::Symbol(name) => Some((name, &pair[1])),
                _ => None,
            }
        },
        _ => None,
    }
}

/// The model of a list of name-value pairs.
pub open spec fn pairs_view(s: Seq<(String, Atom)>) -> Seq<(Seq<char>, Datum)> {
    s.map_values(|p: (String, Atom)| (p.0@, p.1@))
}

} // verus!
