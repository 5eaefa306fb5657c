use vstd::prelude::*;

use crate::atom::Datum;
use crate::chars::is_decimal_literal;
use crate::eval::{evaluates, lemma_lookup_at};
use crate::location::Location;
use crate::parse::{
    AtomParseError, escaped, spec_parse_string, lemma_skip_bounds, list_items, loc, skip_whitespace_from, spec_parse, spec_parse_atom,
    spec_parse_list, spec_parse_number, string_body, top_items,
};
use crate::semantics::{
    Fault, MAX_DEPTH, Outcome, fail, Scopes, Trace, assign, define, lookup, ok, sem_define, sem_eval, sem_list,
    sem_set,
};

verus! {

/// A numeral as the reader keeps it: a decimal number, possibly preceded by `-`.
pub open spec fn is_numeral(t: Seq<char>) -> bool {
    ||| is_decimal_literal(t)
    ||| t.len() > 0 && t[0] == '-' && is_decimal_literal(t.skip(1))
}

/// An atom that reading can produce: no closure or host function anywhere in it, and
/// every number a numeral.
pub open spec fn is_readable(d: Datum) -> bool
    decreases d,
{
    match d {
        Datum::List(items) => forall|i: int| 0 <= i < items.len() ==> is_readable(#[trigger] items[i]),
        Datum::Quote(x) => is_readable(*x),
        Datum::Number(t) => is_numeral(t),
        Datum::Function(_, _) => false,
        Datum::HostFunction(_) => false,
        _ => true,
    }
}

proof fn lemma_string_body_readable(s: Seq<char>, start: Location, j: int, buf: Seq<char>)
    ensures
        string_body(s, start, j, buf) matches Ok((d, _)) ==> is_readable(d),
    decreases s.len() - j,
{
    if 0 <= j < s.len() {
        if s[j] == '\\' {
            if j + 1 < s.len() {
                if let Some(c) = escaped(s[j + 1]) {
                    lemma_string_body_readable(s, start, j + 2, buf.push(c));
                }
            }
        } else if s[j] != '"' {
            lemma_string_body_readable(s, start, j + 1, buf.push(s[j]));
        }
    }
}

proof fn lemma_atom_readable(s: Seq<char>, i: int)
    ensures
        spec_parse_atom(s, i) matches Ok((d, _)) ==> is_readable(d),
    decreases s.len() - i, 1int,
{
    if 0 <= i < s.len() {
        let c = s[i];
        if c == '(' {
            lemma_list_readable(s, i);
        } else if c == '"' {
            if s[i] == '"' {
                lemma_string_body_readable(s, loc(s, i), i + 1, Seq::empty());
            }
        } else if c == '\'' {
            lemma_atom_readable(s, i + 1);
        } else if c == '-' {
            if i + 1 < s.len() {
                if let Ok((d, _)) = spec_parse_number(s, i + 1) {
                    let t = d->Number_0;
                    assert((seq!['-'] + t).skip(1) =~= t);
                }
            }
        }
    }
}

proof fn lemma_list_readable(s: Seq<char>, i: int)
    ensures
        spec_parse_list(s, i) matches Ok((d, _)) ==> is_readable(d),
    decreases s.len() - i, 0int,
{
    if 0 <= i < s.len() && s[i] == '(' {
        lemma_items_readable(s, loc(s, i), i + 1, Seq::empty());
    }
}

proof fn lemma_items_readable(s: Seq<char>, start: Location, k: int, acc: Seq<Datum>)
    requires
        forall|m: int| 0 <= m < acc.len() ==> is_readable(#[trigger] acc[m]),
    ensures
        list_items(s, start, k, acc) matches Ok((d, _)) ==> is_readable(d),
    decreases s.len() - k, 2int,
{
    if 0 <= k <= s.len() {
        let j = skip_whitespace_from(s, k);
        lemma_skip_bounds(s, k, false);
        if j < s.len() && s[j] != ')' {
            lemma_atom_readable(s, j);
            if let Ok((d, j2)) = spec_parse_atom(s, j) {
                if k < j2 <= s.len() {
                    assert forall|m: int| 0 <= m < acc.push(d).len() implies is_readable(#[trigger] acc.push(d)[m]) by {
                        if m < acc.len() {
                            assert(acc.push(d)[m] == acc[m]);
                        }
                    }
                    lemma_items_readable(s, start, j2, acc.push(d));
                }
            }
        }
    }
}

proof fn lemma_top_readable(s: Seq<char>, k: int, acc: Seq<Datum>)
    requires
        forall|m: int| 0 <= m < acc.len() ==> is_readable(#[trigger] acc[m]),
    ensures
        top_items(s, k, acc) matches Some(Ok(items)) ==> forall|m: int|
            0 <= m < items.len() ==> is_readable(#[trigger] items[m]),
    decreases s.len() - k,
{
    if 0 <= k <= s.len() {
        let j = skip_whitespace_from(s, k);
        lemma_skip_bounds(s, k, false);
        if j < s.len() && s[j] != ')' {
            lemma_atom_readable(s, j);
            if let Ok((d, j2)) = spec_parse_atom(s, j) {
                if k < j2 <= s.len() {
                    assert forall|m: int| 0 <= m < acc.push(d).len() implies is_readable(#[trigger] acc.push(d)[m]) by {
                        if m < acc.len() {
                            assert(acc.push(d)[m] == acc[m]);
                        }
                    }
                    lemma_top_readable(s, j2, acc.push(d));
                }
            }
        }
    }
}

/// Reading a text gives only atoms that reading can produce: closures and host functions
/// never come out of the reader, and every number it gives is a numeral.
pub proof fn law_read_atoms_are_readable(s: Seq<char>)
    ensures
        spec_parse(s) matches Some(Ok(d)) ==> is_readable(d),
{
    lemma_top_readable(s, 0, Seq::empty());
}

/// `(define name expr)`.
pub open spec fn define_form(name: Seq<char>, expr: Datum) -> Datum {
    Datum::List(seq![Datum::Symbol("define"@), Datum::Symbol(name), expr])
}

/// `(set! name expr)`.
pub open spec fn set_form(name: Seq<char>, expr: Datum) -> Datum {
    Datum::List(seq![Datum::Symbol("set!"@), Datum::Symbol(name), expr])
}

/// After binding `name` to `v` in the innermost scope, `name` reads as `v`.
proof fn lemma_lookup_define(sc: Scopes, name: Seq<char>, v: Datum)
    ensures
        lookup(define(sc, name, v), name) == Some(v),
{
}

/// After rebinding `name` to `v` where it is bound, `name` reads as `v`.
proof fn lemma_lookup_assign(sc: Scopes, name: Seq<char>, v: Datum)
    ensures
        assign(sc, name, v) matches Some(sc2) ==> lookup(sc2, name) == Some(v),
    decreases sc.len(),
{
    if sc.len() > 0 && !sc.last().dom().contains(name) {
        lemma_lookup_assign(sc.drop_last(), name, v);
        if let Some(inner) = assign(sc.drop_last(), name, v) {
            assert(inner.push(sc.last()).drop_last() =~= inner);
        }
    }
}

/// What is defined is read back. When evaluating `(define name expr)` succeeds, it gives
/// `()`; the value `v` of `expr`, evaluated one level deeper with the same host answers,
/// is bound to `name` in the innermost scope of the scopes that `expr` left; and
/// evaluating `name` right after gives `v`, calling no host function.
pub proof fn law_define_then_read(
    hc: nat,
    before: Scopes,
    name: Seq<char>,
    expr: Datum,
    after: Scopes,
    r: Result<Datum, Fault>,
)
    requires
        evaluates(hc, before, define_form(name, expr), after, r),
        r is Ok,
    ensures
        r == Ok::<Datum, Fault>(Datum::Nil),
        exists|t: Trace|
            #[trigger] sem_eval(hc, before, expr, 1, t) matches Some(o) && o.result matches Ok(v)
                && o.rest.len() == 0 && after == define(o.scopes, name, v) && lookup(after, name)
                == Some(v) && evaluates(hc, after, Datum::Symbol(name), after, Ok(v)),
{
    let t = choose|t: Trace|
        #[trigger] sem_eval(hc, before, define_form(name, expr), 0, t) == Some(
            Outcome { scopes: after, result: r, rest: Seq::empty() },
        );
    let l = seq![Datum::Symbol("define"@), Datum::Symbol(name), expr];
    reveal_strlit("define");
    reveal_strlit("set!");
    assert(l[0] != Datum::Symbol("set!"@)) by {
        assert("define"@.len() != "set!"@.len());
    }
    assert(sem_eval(hc, before, define_form(name, expr), 0, t) == sem_list(hc, before, l, 0, t));
    assert(sem_list(hc, before, l, 0, t) == sem_define(hc, before, l, 0, t));
    let o = sem_eval(hc, before, expr, 1, t).unwrap();
    let v = o.result->Ok_0;
    lemma_lookup_define(o.scopes, name, v);
    assert(sem_eval(hc, after, Datum::Symbol(name), 0, Seq::empty()) == ok(after, v, Seq::empty()));
}

/// What is assigned is read back. When evaluating `(set! name expr)` succeeds, it gives
/// `()`; the value `v` of `expr`, evaluated one level deeper with the same host answers,
/// replaces the binding of `name` in the innermost scope that has one, so `set!` makes
/// no binding of its own; and evaluating `name` right after gives `v`, calling no host
/// function.
pub proof fn law_set_then_read(
    hc: nat,
    before: Scopes,
    name: Seq<char>,
    expr: Datum,
    after: Scopes,
    r: Result<Datum, Fault>,
)
    requires
        evaluates(hc, before, set_form(name, expr), after, r),
        r is Ok,
    ensures
        r == Ok::<Datum, Fault>(Datum::Nil),
        exists|t: Trace|
            #[trigger] sem_eval(hc, before, expr, 1, t) matches Some(o) && o.result matches Ok(v)
                && o.rest.len() == 0 && assign(o.scopes, name, v) == Some(after) && lookup(after, name)
                == Some(v) && evaluates(hc, after, Datum::Symbol(name), after, Ok(v)),
{
    let t = choose|t: Trace|
        #[trigger] sem_eval(hc, before, set_form(name, expr), 0, t) == Some(
            Outcome { scopes: after, result: r, rest: Seq::empty() },
        );
    let l = seq![Datum::Symbol("set!"@), Datum::Symbol(name), expr];
    assert(sem_eval(hc, before, set_form(name, expr), 0, t) == sem_list(hc, before, l, 0, t));
    assert(sem_list(hc, before, l, 0, t) == sem_set(hc, before, l, 0, t));
    let o = sem_eval(hc, before, expr, 1, t).unwrap();
    let v = o.result->Ok_0;
    lemma_lookup_assign(o.scopes, name, v);
    assert(sem_eval(hc, after, Datum::Symbol(name), 0, Seq::empty()) == ok(after, v, Seq::empty()));
}

/// What is bound in the innermost scope is read back: after binding `name` to `v` there,
/// as `set_in_current_scope` does, evaluating `name` gives `v`, leaving the scopes as they
/// are and calling no host function.
pub proof fn law_bind_then_read(hc: nat, sc: Scopes, name: Seq<char>, v: Datum)
    ensures
        evaluates(hc, define(sc, name, v), Datum::Symbol(name), define(sc, name, v), Ok(v)),
{
    lemma_lookup_define(sc, name, v);
    assert(sem_eval(hc, define(sc, name, v), Datum::Symbol(name), 0, Seq::empty()) == ok(
        define(sc, name, v),
        v,
        Seq::empty(),
    ));
}

/// A host function is found by the name it was bound to: after binding `name` in the
/// outermost scope to host function `i`, as `bind_host_func` does, evaluating `name` gives
/// that host function, unless an inner scope binds `name` too.
pub proof fn law_host_function_is_found(hc: nat, sc: Scopes, name: Seq<char>, i: usize)
    requires
        sc.len() > 0,
        forall|j: int| 0 < j < sc.len() ==> !(#[trigger] sc[j]).dom().contains(name),
    ensures
        ({
            let after = sc.update(0, sc[0].insert(name, Datum::HostFunction(i)));
            evaluates(hc, after, Datum::Symbol(name), after, Ok(Datum::HostFunction(i)))
        }),
{
    let after = sc.update(0, sc[0].insert(name, Datum::HostFunction(i)));
    assert forall|j: int| 0 < j < after.len() implies !(#[trigger] after[j]).dom().contains(name) by {
        assert(after[j] == sc[j]);
    }
    lemma_lookup_at(after, 0, name);
    assert(sem_eval(hc, after, Datum::Symbol(name), 0, Seq::empty()) == ok(
        after,
        Datum::HostFunction(i),
        Seq::empty(),
    ));
}

/// An atom that evaluates to itself: anything but a list, a symbol or a quotation.
pub open spec fn is_self_evaluating(d: Datum) -> bool {
    !(d is List) && !(d is Symbol) && !(d is Quote)
}

/// Quoting stops evaluation: `'x` evaluates to `x` as it stands, and an atom that is not
/// a list, a symbol or a quotation evaluates to itself. Either way the scopes stay as they
/// are, no host function is called, and nothing else can come out.
pub proof fn law_quote_and_self_evaluation(hc: nat, sc: Scopes, x: Datum)
    ensures
        evaluates(hc, sc, Datum::Quote(Box::new(x)), sc, Ok(x)),
        forall|after: Scopes, r: Result<Datum, Fault>|
            #[trigger] evaluates(hc, sc, Datum::Quote(Box::new(x)), after, r) ==> after == sc && r == Ok::<Datum, Fault>(x),
        is_self_evaluating(x) ==> evaluates(hc, sc, x, sc, Ok(x)),
        is_self_evaluating(x) ==> forall|after: Scopes, r: Result<Datum, Fault>|
            #[trigger] evaluates(hc, sc, x, after, r) ==> after == sc && r == Ok::<Datum, Fault>(x),
{
    let q = Datum::Quote(Box::new(x));
    assert(sem_eval(hc, sc, q, 0, Seq::empty()) == ok(sc, x, Seq::empty()));
    if is_self_evaluating(x) {
        assert(sem_eval(hc, sc, x, 0, Seq::empty()) == ok(sc, x, Seq::empty()));
    }
}

/// Nesting is cut off: an evaluation that reaches depth `MAX_DEPTH` or more stops there with
/// `TooDeep` of that depth, leaving the scopes as they are and calling no host function. As
/// every step into a sub-expression goes one level deeper, and `sem_eval` and the evaluator
/// are proved to terminate by that measure, evaluation always ends (provided the host's
/// functions return); a closure that calls itself forever ends with `TooDeep(64)`.
pub proof fn law_nesting_is_cut_off(hc: nat, sc: Scopes, a: Datum, d: nat, t: Trace)
    requires
        d >= MAX_DEPTH,
    ensures
        sem_eval(hc, sc, a, d, t) == fail(sc, Fault::TooDeep(d as usize), t),
{
}

/// The text of a string literal for `s`: each `\` and `"` preceded by a `\`.
pub open spec fn escape(s: Seq<char>) -> Seq<char>
    decreases s.len(),
{
    if s.len() == 0 {
        Seq::empty()
    } else {
        let c = s[0];
        let e = if c == '\\' || c == '"' {
            seq!['\\', c]
        } else {
            seq![c]
        };
        e + escape(s.skip(1))
    }
}

proof fn lemma_string_body_escaped(t: Seq<char>, start: Location, j: int, buf: Seq<char>, s: Seq<char>)
    requires
        0 <= j,
        j + escape(s).len() < t.len(),
        t.subrange(j, j + escape(s).len()) == escape(s),
        t[j + escape(s).len()] == '"',
    ensures
        string_body(t, start, j, buf) == Ok::<(Datum, int), AtomParseError>(
            (Datum::String(buf + s), j + escape(s).len() + 1),
        ),
    decreases s.len(),
{
    if s.len() == 0 {
        assert(buf + s =~= buf);
    } else {
        let c = s[0];
        let rest = s.skip(1);
        let e = if c == '\\' || c == '"' {
            seq!['\\', c]
        } else {
            seq![c]
        };
        assert(escape(s) == e + escape(rest));
        let n = e.len();
        assert(t[j] == escape(s)[0]);
        assert(t.subrange(j + n, j + n + escape(rest).len()) =~= escape(rest)) by {
            assert forall|k: int| 0 <= k < escape(rest).len() implies t.subrange(j + n, j + n + escape(rest).len())[k]
                == escape(rest)[k] by {
                assert(t[j + n + k] == t.subrange(j, j + escape(s).len())[n + k]);
            }
        }
        if n == 2 {
            assert(t[j + 1] == escape(s)[1]);
            lemma_string_body_escaped(t, start, j + 2, buf.push(c), rest);
        } else {
            lemma_string_body_escaped(t, start, j + 1, buf.push(c), rest);
        }
        assert(buf.push(c) + rest =~= buf + s);
    }
}

/// A string written as a literal reads back: reading `"` followed by the escaped characters
/// of `s` and a closing `"` gives the string `s`, and stops right after the closing `"`,
/// whatever follows it.
pub proof fn law_escaped_string_reads_back(s: Seq<char>, rest: Seq<char>)
    ensures
        ({
            let text = seq!['"'] + escape(s) + seq!['"'];
            &&& spec_parse_string(text + rest, 0) == Ok::<(Datum, int), AtomParseError>(
                (Datum::String(s), text.len() as int),
            )
            &&& spec_parse(text) == Some(Ok::<Datum, AtomParseError>(Datum::String(s)))
        }),
{
    let text = seq!['"'] + escape(s) + seq!['"'];
    let t = text + rest;
    let n = escape(s).len() as int;
    assert(t.subrange(1, 1 + n) =~= escape(s)) by {
        assert forall|k: int| 0 <= k < n implies t.subrange(1, 1 + n)[k] == escape(s)[k] by {
            assert(t[1 + k] == text[1 + k]);
        }
    }
    assert(t[1 + n] == text[1 + n]);
    assert(t[0] == '"');
    lemma_string_body_escaped(t, loc(t, 0), 1, Seq::empty(), s);
    assert(Seq::<char>::empty() + s =~= s);
    // the whole text, read as atoms
    assert(text =~= text + Seq::<char>::empty());
    assert(text.subrange(1, 1 + n) =~= escape(s)) by {
        assert forall|k: int| 0 <= k < n implies text.subrange(1, 1 + n)[k] == escape(s)[k] by {}
    }
    lemma_string_body_escaped(text, loc(text, 0), 1, Seq::empty(), s);
    assert(skip_whitespace_from(text, 0) == 0);
    assert(skip_whitespace_from(text, text.len() as int) == text.len());
    assert(top_items(text, text.len() as int, seq![Datum::String(s)]) == Some(
        Ok::<Seq<Datum>, AtomParseError>(seq![Datum::String(s)]),
    ));
    assert(top_items(text, 0, Seq::empty()) == top_items(text, text.len() as int, Seq::<Datum>::empty().push(Datum::String(s))));
}

} // verus!
