use vstd::prelude::*;

use crate::atom::{Atom, Datum, group_view_atoms, lemma_view_atoms, view_atoms, view_strings};
use crate::eval::{EvalError, builtin_names};
use crate::semantics::Fault;

verus! {

/// What checking the arguments of a built-in function decides, before any arithmetic.
#[derive(Debug, PartialEq)]
pub enum Checked {
    /// The call fails with this error.
    Fails(EvalError),
    /// The call gives this atom.
    Gives(Atom),
    /// The arguments are numbers, with these numerals: the host computes the result.
    Numbers(Vec<String>),
    /// The arguments are fit to be compared as they are, which the host does (`equal?`).
    Compare,
}

/// The model of [`Checked`].
pub enum CheckedModel {
    Fails(Fault),
    Gives(Datum),
    Numbers(Seq<Seq<char>>),
    Compare,
}

impl View for Checked {
    type V = CheckedModel;

    open spec fn view(&self) -> CheckedModel {
        match self {
            Checked::Fails(e) => CheckedModel::Fails(e@),
            Checked::Gives(a) => CheckedModel::Gives(a@),
            Checked::Numbers(v) => CheckedModel::Numbers(view_strings(v@)),
            Checked::Compare => CheckedModel::Compare,
        }
    }
}

/// Whether every atom of `args` is a number.
pub open spec fn all_numbers(args: Seq<Datum>) -> bool {
    forall|i: int| 0 <= i < args.len() ==> (#[trigger] args[i]) is Number
}

/// The numerals of the numbers `args`.
pub open spec fn numerals(args: Seq<Datum>) -> Seq<Seq<char>> {
    args.map_values(|d: Datum| d->Number_0)
}

/// The error that built-in `index` reports for an argument that is not a number.
pub open spec fn type_message(index: nat) -> Seq<char> {
    if index == 0 {
        "+ only takes number"@
    } else if index == 1 {
        "* only takes number"@
    } else if index == 2 {
        "- only takes number"@
    } else if index == 3 {
        "/ only takes number"@
    } else if index == 5 {
        "= only takes number, try equal?"@
    } else if index == 6 {
        "< only takes number"@
    } else if index == 7 {
        "> only takes number"@
    } else if index == 8 {
        "<= only takes number"@
    } else if index == 9 {
        ">= only takes number"@
    } else if index == 10 {
        "floor only takes number"@
    } else if index == 11 {
        "ceiling only takes number"@
    } else if index == 12 {
        "truncate only takes number"@
    } else if index == 13 {
        "round only takes number"@
    } else {
        "sqrt only takes number"@
    }
}

/// The numbers that a built-in needs, or the error for a non-number.
pub open spec fn numbers_or_fail(index: nat, args: Seq<Datum>) -> CheckedModel {
    if all_numbers(args) {
        CheckedModel::Numbers(numerals(args))
    } else {
        CheckedModel::Fails(Fault::TypeMismatch(type_message(index)))
    }
}

/// What the built-in with position `index` in [`builtin_names`] decides about the
/// arguments `args`: `+` and `*` take any numbers; `-` and `/` at least one; `equal?`
/// at least two atoms; `=`, `<`, `>`, `<=` and `>=` at least two numbers; `floor`,
/// `ceiling`, `truncate`, `round` and `sqrt` one number; `number?` one atom, and gives
/// whether it is a number; `integer?` one atom, which is no integer unless a number. A
/// function of one argument reports the wrong count as `got: 0`, whatever it got.
pub open spec fn check_builtin_spec(index: nat, args: Seq<Datum>) -> CheckedModel {
    let n = args.len();
    if index <= 1 {
        numbers_or_fail(index, args)
    } else if index <= 3 {
        if n == 0 {
            CheckedModel::Fails(Fault::ArityMismatch { expected: 1, got: 0 })
        } else {
            numbers_or_fail(index, args)
        }
    } else if index == 4 {
        if n < 2 {
            CheckedModel::Fails(Fault::ArityMismatch { expected: 2, got: n as usize })
        } else {
            CheckedModel::Compare
        }
    } else if index <= 9 {
        if n < 2 {
            CheckedModel::Fails(Fault::ArityMismatch { expected: 2, got: n as usize })
        } else {
            numbers_or_fail(index, args)
        }
    } else if n != 1 {
        CheckedModel::Fails(Fault::ArityMismatch { expected: 1, got: 0 })
    } else if index <= 14 {
        numbers_or_fail(index, args)
    } else if index == 15 {
        CheckedModel::Gives(Datum::Bool(args[0] is Number))
    } else if args[0] is Number {
        CheckedModel::Numbers(numerals(args))
    } else {
        CheckedModel::Gives(Datum::Bool(false))
    }
}

fn type_error(index: usize) -> (e: EvalError)
    ensures
        e@ == Fault::TypeMismatch(type_message(index as nat)),
{
    EvalError::TypeMismatch(
        if index == 0 {
            "+ only takes number"
        } else if index == 1 {
            "* only takes number"
        } else if index == 2 {
            "- only takes number"
        } else if index == 3 {
            "/ only takes number"
        } else if index == 5 {
            "= only takes number, try equal?"
        } else if index == 6 {
            "< only takes number"
        } else if index == 7 {
            "> only takes number"
        } else if index == 8 {
            "<= only takes number"
        } else if index == 9 {
            ">= only takes number"
        } else if index == 10 {
            "floor only takes number"
        } else if index == 11 {
            "ceiling only takes number"
        } else if index == 12 {
            "truncate only takes number"
        } else if index == 13 {
            "round only takes number"
        } else {
            "sqrt only takes number"
        },
    )
}

/// Checks that a host function got `expected` arguments: an arity mismatch when it did not.
pub fn check_arity(args: &[Atom], expected: usize) -> (r: Result<(), EvalError>)
    ensures
        r is Ok <==> args@.len() == expected,
        r matches Err(e) ==> e@ == (Fault::ArityMismatch { expected, got: args@.len() as usize }),
{
    if args.len() == expected {
        Ok(())
    } else {
        Err(EvalError::ArityMismatch { expected, got: args.len() })
    }
}

/// The numerals of `args` when all are numbers, else the type error of built-in `index`.
fn collect_numbers(index: usize, args: &[Atom]) -> (r: Checked)
    ensures
        r@ == numbers_or_fail(index as nat, view_atoms(args@)),
{
    broadcast use group_view_atoms;

    let ghost v = view_atoms(args@);
    let mut out: Vec<String> = Vec::new();
    for i in 0..args.len()
        invariant
            v == view_atoms(args@),
            v.len() == args@.len(),
            all_numbers(v.take(i as int)),
            view_strings(out@) == numerals(v.take(i as int)),
    {
        proof {
            lemma_view_atoms(args@);
        }
        match &args[i] {
            Atom::Number(x) => {
                let ghost before = out@;
                let y = x.clone();
                out.push(y);
                proof {
                    assert(out@ == before.push(y));
                    assert(view_strings(before).len() == before.len());
                    assert(numerals(v.take(i as int)).len() == i);
                    assert(before.len() == i);
                    assert(v[i as int] == Datum::Number(x@));
                    assert(v.take(i + 1) =~= v.take(i as int).push(v[i as int]));
                    assert(view_strings(before) == numerals(v.take(i as int)));
                    assert forall|k: int| 0 <= k < i + 1 implies #[trigger] view_strings(out@)[k]
                        == numerals(v.take(i + 1))[k] by {
                        if k < i {
                            assert(out@[k] == before[k]);
                            assert(view_strings(before)[k] == numerals(v.take(i as int))[k]);
                        }
                    }
                    assert(view_strings(out@) =~= numerals(v.take(i + 1)));
                }
            },
            _ => {
                proof {
                    assert(!(v[i as int] is Number));
                }
                return Checked::Fails(type_error(index));
            },
        }
    }
    proof {
        assert(v.take(args@.len() as int) =~= v);
    }
    Checked::Numbers(out)
}

/// Checks the arguments of the built-in with position `index` in [`builtin_names`]: the
/// error that the call fails with, the atom that it gives, or the numerals (or, for
/// `equal?`, the atoms) that the host computes its result from.
pub fn check_builtin(index: usize, args: &[Atom]) -> (r: Checked)
    requires
        index < builtin_names().len(),
    ensures
        r@ == check_builtin_spec(index as nat, view_atoms(args@)),
{
    broadcast use group_view_atoms;

    proof {
        lemma_view_atoms(args@);
    }
    let n = args.len();
    if index <= 1 {
        collect_numbers(index, args)
    } else if index <= 3 {
        if n == 0 {
            Checked::Fails(EvalError::ArityMismatch { expected: 1, got: 0 })
        } else {
            collect_numbers(index, args)
        }
    } else if index == 4 {
        if n < 2 {
            Checked::Fails(EvalError::ArityMismatch { expected: 2, got: n })
        } else {
            Checked::Compare
        }
    } else if index <= 9 {
        if n < 2 {
            Checked::Fails(EvalError::ArityMismatch { expected: 2, got: n })
        } else {
            collect_numbers(index, args)
        }
    } else if n != 1 {
        Checked::Fails(EvalError::ArityMismatch { expected: 1, got: 0 })
    } else if index <= 14 {
        collect_numbers(index, args)
    } else if index == 15 {
        Checked::Gives(Atom::Bool(matches!(args[0], Atom::Number(_))))
    } else {
        match &args[0] {
            Atom::Number(x) => {
                let mut out: Vec<String> = Vec::new();
                out.push(x.clone());
                proof {
                    assert(view_strings(out@) =~= numerals(view_atoms(args@)));
                }
                Checked::Numbers(out)
            },
            _ => Checked::Gives(Atom::Bool(false)),
        }
    }
}

} // verus!
