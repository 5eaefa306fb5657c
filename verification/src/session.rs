use vstd::prelude::*;

use crate::atom::{Atom, Datum};
use crate::eval::{EvalError, Evaluator, callable, evaluates_with};
use crate::parse::{AtomParseError, spec_parse};
use crate::semantics::Fault;

verus! {

/// What an interactive session answers to one line of input.
#[derive(Debug, PartialEq)]
pub enum Reply {
    /// The input has ended: the line was empty, without even a line break.
    End,
    /// The line evaluated to `()`, which is not shown.
    Quiet,
    /// The value that the line evaluated to.
    Value(Atom),
    /// The line could not be read.
    ParseError(AtomParseError),
    /// The line was read, and its evaluation failed.
    EvalError(EvalError),
}

/// The reply to a line whose evaluation ended with `r`.
pub open spec fn eval_reply(r: Result<Datum, Fault>, reply: Reply) -> bool {
    match r {
        Ok(Datum::Nil) => reply is Quiet,
        Ok(v) => reply matches Reply::Value(a) && a@ == v,
        Err(e) => reply matches Reply::EvalError(x) && x@ == e,
    }
}

/// Answers one line of input: ends the session on an empty line; otherwise reads the line
/// and evaluates what it holds with `evaluator`, `host` answering the calls of host
/// functions (each call it makes of `host` being recorded as in [`evaluates_with`]).
/// `None` for a line that holds a `)` where an atom should start at the top
/// level, on which reading never ends.
pub fn respond<F: Fn(usize, &[Atom]) -> Result<Atom, EvalError>>(evaluator: &mut Evaluator, host: &F, line: &str) -> (r: Option<Reply>)
    requires
        old(evaluator).wf(),
        old(evaluator).scopes().len() > 0,
        callable(*host),
        line@.len() < usize::MAX,
    ensures
        final(evaluator).wf(),
        final(evaluator).host_count() == old(evaluator).host_count(),
        line@.len() == 0 ==> r == Some(Reply::End) && *final(evaluator) == *old(evaluator),
        line@.len() > 0 ==> match spec_parse(line@) {
            None => r is None && *final(evaluator) == *old(evaluator),
            Some(Err(e)) => r == Some(Reply::ParseError(e)) && *final(evaluator) == *old(evaluator),
            Some(Ok(d)) => exists|res: Result<Datum, Fault>|
                #[trigger] evaluates_with(
                    *host,
                    old(evaluator).host_count(),
                    old(evaluator).scopes(),
                    d,
                    final(evaluator).scopes(),
                    res,
                ) && (r matches Some(reply) && eval_reply(res, reply)),
        },
{
    if line.unicode_len() == 0 {
        return Some(Reply::End);
    }
    let atom = match Atom::try_parse(line) {
        None => return None,
        Some(Err(e)) => return Some(Reply::ParseError(e)),
        Some(Ok(atom)) => atom,
    };
    match evaluator.eval(&atom, host) {
        Ok(Atom::Nil) => Some(Reply::Quiet),
        Ok(value) => Some(Reply::Value(value)),
        Err(e) => Some(Reply::EvalError(e)),
    }
}

} // verus!
