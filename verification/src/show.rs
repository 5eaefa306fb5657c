use vstd::prelude::*;

use crate::atom::{Atom, Datum, group_view_atoms, lemma_view_atoms, view_atoms, view_strings};
use crate::eval::EvalError;
use crate::location::Location;
use crate::parse::AtomParseError;
use crate::semantics::{Fault, MAX_DEPTH};
use crate::text::{decimal, push_decimal};

verus! {

/// How an atom is shown: lists in parentheses with their items separated by spaces, a
/// string or a symbol as its characters, a number as its numeral, `#t` and `#f`, a
/// quotation with a leading `'`, a closure as the `lambda` that makes it, and a host
/// function by its index.
pub open spec fn display(d: Datum) -> Seq<char>
    decreases d,
{
    match d {
        Datum::Nil => "()"@,
        Datum::List(items) => "("@ + display_items(items) + ")"@,
        Datum::Symbol(x) => x,
        Datum::String(x) => x,
        Datum::Number(x) => x,
        Datum::Bool(b) => if b {
            "#t"@
        } else {
            "#f"@
        },
        Datum::Quote(x) => "'"@ + display(*x),
        Datum::Function(params, body) => "(lambda ("@ + join_words(params) + ") "@ + display(*body) + ")"@,
        Datum::HostFunction(i) => "[native #"@ + decimal(i as nat) + "]"@,
    }
}

/// The atoms `s` shown one after the other, separated by single spaces.
pub open spec fn display_items(s: Seq<Datum>) -> Seq<char>
    decreases s,
{
    if s.len() == 0 {
        Seq::empty()
    } else if s.len() == 1 {
        display(s[0])
    } else {
        proof {
            assert(decreases_to!(s => s.drop_last()));
        }
        display_items(s.drop_last()) + " "@ + display(s.last())
    }
}

/// The words `s` separated by single spaces.
pub open spec fn join_words(s: Seq<Seq<char>>) -> Seq<char>
    decreases s.len(),
{
    if s.len() == 0 {
        Seq::empty()
    } else if s.len() == 1 {
        s[0]
    } else {
        join_words(s.drop_last()) + " "@ + s.last()
    }
}

proof fn lemma_items_step(s: Seq<Datum>, i: int)
    requires
        0 <= i < s.len(),
    ensures
        display_items(s.take(i + 1)) == if i == 0 {
            display(s[0])
        } else {
            display_items(s.take(i)) + " "@ + display(s[i])
        },
{
    assert(s.take(i + 1).drop_last() =~= s.take(i));
}

proof fn lemma_words_step(s: Seq<Seq<char>>, i: int)
    requires
        0 <= i < s.len(),
    ensures
        join_words(s.take(i + 1)) == if i == 0 {
            s[0]
        } else {
            join_words(s.take(i)) + " "@ + s[i]
        },
{
    assert(s.take(i + 1).drop_last() =~= s.take(i));
}

/// Appends the words `names` separated by single spaces.
fn push_words(out: &mut String, names: &Vec<String>)
    ensures
        final(out)@ == old(out)@ + join_words(view_strings(names@)),
{
    let ghost start = out@;
    let ghost w = view_strings(names@);
    for i in 0..names.len()
        invariant
            w == view_strings(names@),
            out@ == start + join_words(w.take(i as int)),
    {
        proof {
            lemma_words_step(w, i as int);
        }
        if i > 0 {
            out.append(" ");
        }
        out.append(names[i].as_str());
        assert(out@ =~= start + join_words(w.take(i + 1)));
    }
    assert(w.take(names@.len() as int) =~= w);
}

impl Atom {
    /// The text that shows this atom. A number shows as the numeral that it holds: `1e6`
    /// read from a text stays `1e6`.
    pub fn to_string(&self) -> (r: String)
        ensures
            r@ == display(self@),
    {
        let mut out = String::new();
        self.push_text(&mut out);
        assert(out@ =~= display(self@));
        out
    }

    /// Appends the text that shows this atom.
    fn push_text(&self, out: &mut String)
        ensures
            final(out)@ == old(out)@ + display(self@),
        decreases self,
    {
        broadcast use group_view_atoms;

        let ghost start = out@;
        match self {
            Atom::Nil => out.append("()"),
            Atom::List(items) => {
                out.append("(");
                let ghost v = view_atoms(items@);
                for i in 0..items.len()
                    invariant
                        *self == Atom::List(*items),
                        v == view_atoms(items@),
                        out@ == start + "("@ + display_items(v.take(i as int)),
                {
                    proof {
                        lemma_view_atoms(items@);
                        lemma_items_step(v, i as int);
                        assert(decreases_to!(*self => (*self)->List_0));
                        assert(decreases_to!(*items => items@));
                        assert(decreases_to!(items@ => items@[i as int]));
                    }
                    if i > 0 {
                        out.append(" ");
                    }
                    items[i].push_text(out);
                    assert(out@ =~= start + "("@ + display_items(v.take(i + 1)));
                }
                proof {
                    lemma_view_atoms(items@);
                    assert(v.take(items@.len() as int) =~= v);
                }
                out.append(")");
                assert(out@ =~= start + display(self@));
            },
            Atom::Symbol(x) => out.append(x.as_str()),
            Atom::String(x) => out.append(x.as_str()),
            Atom::Number(x) => out.append(x.as_str()),
            Atom::Bool(b) => {
                if *b {
                    out.append("#t");
                } else {
                    out.append("#f");
                }
            },
            Atom::Quote(x) => {
                out.append("'");
                x.push_text(out);
                assert(out@ =~= start + display(self@));
            },
            Atom::Function(params, body) => {
                out.append("(lambda (");
                push_words(out, params);
                out.append(") ");
                body.push_text(out);
                out.append(")");
                assert(out@ =~= start + display(self@));
            },
            Atom::HostFunction(i) => {
                out.append("[native #");
                push_decimal(out, *i);
                out.append("]");
                assert(out@ =~= start + display(self@));
            },
        }
    }
}

/// The message that describes an evaluation error.
pub open spec fn fault_message(f: Fault) -> Seq<char> {
    match f {
        Fault::UnboundVariable(name) => "undefined symbol "@ + name,
        Fault::OutOfBounds(i) => "out of bounds list access at index "@ + decimal(i as nat),
        Fault::TypeMismatch(m) => m,
        Fault::SyntaxError(m) => m,
        Fault::TooDeep(_) => "too many nested expressions ("@ + decimal(MAX_DEPTH as nat) + ")"@,
        Fault::ArityMismatch { expected, got } => "function arity mismatch, expected "@ + decimal(
            expected as nat,
        ) + ", got "@ + decimal(got as nat),
    }
}

impl EvalError {
    /// The message that describes this error.
    pub fn to_string(&self) -> (r: String)
        ensures
            r@ == fault_message(self@),
    {
        let mut out = String::new();
        match self {
            EvalError::UnboundVariable(name) => {
                out.append("undefined symbol ");
                out.append(name.as_str());
            },
            EvalError::OutOfBounds(i) => {
                out.append("out of bounds list access at index ");
                push_decimal(&mut out, *i);
            },
            EvalError::TypeMismatch(m) => out.append(m),
            EvalError::SyntaxError(m) => out.append(m),
            EvalError::TooDeep(_) => {
                out.append("too many nested expressions (");
                push_decimal(&mut out, MAX_DEPTH);
                out.append(")");
            },
            EvalError::ArityMismatch { expected, got } => {
                out.append("function arity mismatch, expected ");
                push_decimal(&mut out, *expected);
                out.append(", got ");
                push_decimal(&mut out, *got);
            },
        }
        assert(out@ =~= fault_message(self@));
        out
    }
}

/// What `format!("{:?}", c)` gives for a character: the character in single quotes,
/// escaped as Rust escapes characters in debug output.
pub uninterp spec fn char_debug_text(c: char) -> Seq<char>;

/// The debug form of `c`, made by `<char as Debug>::fmt` through `format!`.
#[verifier::external_body]
fn char_debug(c: char) -> (r: String)
    ensures
        r@ == char_debug_text(c),
{
    format!("{:?}", c)
}

/// ` (line L, column C)` for the location `l`.
pub open spec fn location_suffix(l: Location) -> Seq<char> {
    " (line "@ + decimal(l.line as nat) + ", column "@ + decimal(l.column as nat) + ")"@
}

/// The message that describes a reading error.
pub open spec fn parse_error_message(e: AtomParseError) -> Seq<char> {
    match e {
        AtomParseError::EarlyEOF(l) => "Unexpected end-of-file"@ + location_suffix(l),
        AtomParseError::UnexpectedChar(c, l) => "Unexpected character '"@ + char_debug_text(c) + "'"@
            + location_suffix(l),
        AtomParseError::ExpectedChar(c, l) => "Expected character '"@ + char_debug_text(c) + "'"@
            + location_suffix(l),
        AtomParseError::InvalidEscape(c, l) => "Invalid string escape '\\"@ + char_debug_text(c) + "'"@
            + location_suffix(l),
        AtomParseError::InvalidNumber(l) => "invalid float literal"@ + location_suffix(l),
    }
}

fn push_location(out: &mut String, l: Location)
    ensures
        final(out)@ == old(out)@ + location_suffix(l),
{
    let ghost start = out@;
    out.append(" (line ");
    push_decimal(out, l.line);
    out.append(", column ");
    push_decimal(out, l.column);
    out.append(")");
    assert(out@ =~= start + location_suffix(l));
}

impl AtomParseError {
    /// The message that describes this error.
    pub fn to_string(&self) -> (r: String)
        ensures
            r@ == parse_error_message(*self),
    {
        let mut out = String::new();
        match self {
            AtomParseError::EarlyEOF(l) => {
                out.append("Unexpected end-of-file");
                push_location(&mut out, *l);
            },
            AtomParseError::UnexpectedChar(c, l) => {
                out.append("Unexpected character '");
                out.append(char_debug(*c).as_str());
                out.append("'");
                push_location(&mut out, *l);
            },
            AtomParseError::ExpectedChar(c, l) => {
                out.append("Expected character '");
                out.append(char_debug(*c).as_str());
                out.append("'");
                push_location(&mut out, *l);
            },
            AtomParseError::InvalidEscape(c, l) => {
                out.append("Invalid string escape '\\");
                out.append(char_debug(*c).as_str());
                out.append("'");
                push_location(&mut out, *l);
            },
            AtomParseError::InvalidNumber(l) => {
                out.append("invalid float literal");
                push_location(&mut out, *l);
            },
        }
        assert(out@ =~= parse_error_message(*self));
        out
    }
}

} // verus!
