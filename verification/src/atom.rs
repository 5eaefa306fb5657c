use vstd::prelude::*;

verus! {

/// A value of the language: what the parser produces and the evaluator consumes.
///
/// A number is held as the numeral that denotes it (`"12.5"`, `"-3"`, `"1e6"`);
/// arithmetic on numbers is the business of the host functions.
#[derive(Debug, PartialEq)]
pub enum Atom {
    Nil,
    List(Vec<Atom>),
    Symbol(String),
    String(String),
    Number(String),
    Bool(bool),
    Quote(Box<Atom>),
    /// A closure: parameter names and body. Never parsed, only built by evaluation.
    Function(Vec<String>, Box<Atom>),
    /// The index of a function supplied by the host. Never parsed.
    HostFunction(usize),
}

/// The mathematical model of an [`Atom`].
pub enum Datum {
    Nil,
    List(Seq<Datum>),
    Symbol(Seq<char>),
    String(Seq<char>),
    Number(Seq<char>),
    Bool(bool),
    Quote(Box<Datum>),
    Function(Seq<Seq<char>>, Box<Datum>),
    HostFunction(usize),
}

/// The contents of a sequence of strings.
pub open spec fn view_strings(s: Seq<String>) -> Seq<Seq<char>> {
    s.map_values(|x: String| x@)
}

pub open spec fn view_atom(a: Atom) -> Datum
    decreases a,
{
    match a {
        Atom::Nil => Datum::Nil,
        Atom::List(v) => Datum::List(view_atoms(v@)),
        Atom::Symbol(s) => Datum::Symbol(s@),
        Atom::String(s) => Datum::String(s@),
        Atom::Number(s) => Datum::Number(s@),
        Atom::Bool(b) => Datum::Bool(b),
        Atom::Quote(b) => Datum::Quote(Box::new(view_atom(*b))),
        Atom::Function(params, body) => Datum::Function(
            view_strings(params@),
            Box::new(view_atom(*body)),
        ),
        Atom::HostFunction(i) => Datum::HostFunction(i),
    }
}

pub open spec fn view_atoms(s: Seq<Atom>) -> Seq<Datum>
    decreases s,
{
    if s.len() == 0 {
        Seq::empty()
    } else {
        view_atoms(s.drop_last()).push(view_atom(s.last()))
    }
}

pub broadcast proof fn lemma_view_atoms_len(s: Seq<Atom>)
    ensures
        #[trigger] view_atoms(s).len() == s.len(),
    decreases s.len(),
{
    if s.len() > 0 {
        lemma_view_atoms_len(s.drop_last());
    }
}

pub broadcast proof fn lemma_view_atoms_index(s: Seq<Atom>, i: int)
    requires
        0 <= i < s.len(),
    ensures
        #[trigger] view_atoms(s)[i] == view_atom(s[i]),
    decreases s.len(),
{
    lemma_view_atoms_len(s.drop_last());
    if i < s.len() - 1 {
        lemma_view_atoms_index(s.drop_last(), i);
    }
}

pub broadcast group group_view_atoms {
    lemma_view_atoms_len,
    lemma_view_atoms_index,
}

/// The models of the atoms of `s`, one by one.
pub proof fn lemma_view_atoms(s: Seq<Atom>)
    ensures
        view_atoms(s).len() == s.len(),
        forall|i: int| 0 <= i < s.len() ==> #[trigger] view_atoms(s)[i] == view_atom(s[i]),
{
    broadcast use group_view_atoms;

}

pub proof fn lemma_view_atoms_push(s: Seq<Atom>, a: Atom)
    ensures
        view_atoms(s.push(a)) == view_atoms(s).push(view_atom(a)),
{
    assert(s.push(a).drop_last() =~= s);
}

impl View for Atom {
    type V = Datum;

    open spec fn view(&self) -> Datum {
        view_atom(*self)
    }
}

/// Copies a list of names.
pub fn copy_strings(v: &Vec<String>) -> (r: Vec<String>)
    ensures
        r@ == v@,
{
    let mut r: Vec<String> = Vec::new();
    for i in 0..v.len()
        invariant
            r@ =~= v@.take(i as int),
    {
        r.push(v[i].clone());
    }
    r
}

impl Clone for Atom {
    /// A deep copy, with the same model as the atom it copies.
    fn clone(&self) -> (r: Atom)
        ensures
            r@ == self@,
        decreases self,
    {
        broadcast use group_view_atoms;

        match self {
            Atom::Nil => Atom::Nil,
            Atom::List(v) => {
                let mut r: Vec<Atom> = Vec::new();
                for i in 0..v.len()
                    invariant
                        r@.len() == i,
                        forall|j: int| 0 <= j < i ==> (#[trigger] r@[j])@ == v@[j]@,
                        *self == Atom::List(*v),
                {
                    proof {
                        assert(decreases_to!(*self => (*self)->List_0));
                        assert(decreases_to!(*v => v@));
                        assert(decreases_to!(v@ => v@[i as int]));
                    }
                    r.push(v[i].clone());
                }
                proof {
                    lemma_view_atoms(r@);
                    lemma_view_atoms(v@);
                    assert(view_atoms(r@) =~= view_atoms(v@));
                }
                Atom::List(r)
            },
            Atom::Symbol(s) => Atom::Symbol(s.clone()),
            Atom::String(s) => Atom::String(s.clone()),
            Atom::Number(s) => Atom::Number(s.clone()),
            Atom::Bool(b) => Atom::Bool(*b),
            Atom::Quote(b) => Atom::Quote(Box::new((**b).clone())),
            Atom::Function(params, body) => Atom::Function(
                copy_strings(params),
                Box::new((**body).clone()),
            ),
            Atom::HostFunction(i) => Atom::HostFunction(*i),
        }
    }
}

} // verus!
