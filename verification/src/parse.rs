use vstd::prelude::*;

use crate::atom::{Atom, Datum, lemma_view_atoms, lemma_view_atoms_push, view_atoms};
use crate::text::prepend_char;
use crate::chars::{
    check_decimal_literal, is_decimal_literal, is_digit, is_numeral_char, is_whitespace,
    spec_is_digit, spec_is_numeral_char, spec_is_whitespace,
};
use crate::location::{Location, lemma_location_bounds, location_after};

verus! {

/// Why a text could not be read as atoms. Each error carries the location it refers to.
#[derive(Debug, PartialEq, Eq)]
pub enum AtomParseError {
    EarlyEOF(Location),
    UnexpectedChar(char, Location),
    ExpectedChar(char, Location),
    InvalidEscape(char, Location),
    /// A run of numeral characters that is not a decimal number.
    InvalidNumber(Location),
}

/// The outcome of reading one atom from position `i` of a text: the atom and the
/// position just after it, or an error.
pub type ParseStep = Result<(Datum, int), AtomParseError>;

/// The location of position `i` of the text `s`.
pub open spec fn loc(s: Seq<char>, i: int) -> Location {
    location_after(s.take(i))
}

/// The position after reading one more character from `i`, if there is one.
pub open spec fn step(s: Seq<char>, i: int) -> int {
    if i < s.len() { i + 1 } else { i }
}

/// Skips whitespace and `;` comments (which run to the end of the line) from `i`.
pub open spec fn skip_from(s: Seq<char>, i: int, in_comment: bool) -> int
    decreases s.len() - i,
{
    if i < 0 || i >= s.len() {
        i
    } else {
        let c = s[i];
        let ic = if c == ';' {
            true
        } else if in_comment && c == '\n' {
            false
        } else {
            in_comment
        };
        if !ic && !spec_is_whitespace(c) {
            i
        } else {
            skip_from(s, i + 1, ic)
        }
    }
}

/// The position of the first character at or after `i` that is neither whitespace nor
/// inside a comment, or the end of the text.
pub open spec fn skip_whitespace_from(s: Seq<char>, i: int) -> int {
    skip_from(s, i, false)
}

pub proof fn lemma_skip_bounds(s: Seq<char>, i: int, in_comment: bool)
    requires
        0 <= i <= s.len(),
    ensures
        i <= skip_from(s, i, in_comment) <= s.len(),
        skip_from(s, i, in_comment) < s.len() ==> {
            let c = s[skip_from(s, i, in_comment)];
            c != ';' && !spec_is_whitespace(c)
        },
    decreases s.len() - i,
{
    if i < s.len() {
        let c = s[i];
        let ic = if c == ';' {
            true
        } else if in_comment && c == '\n' {
            false
        } else {
            in_comment
        };
        if ic || spec_is_whitespace(c) {
            lemma_skip_bounds(s, i + 1, ic);
        }
    }
}

/// Skipping from a position where skipping stopped stays there.
pub proof fn lemma_skip_idempotent(s: Seq<char>, i: int)
    requires
        0 <= i <= s.len(),
    ensures
        skip_whitespace_from(s, skip_whitespace_from(s, i)) == skip_whitespace_from(s, i),
{
    lemma_skip_bounds(s, i, false);
}

/// The end of the run of symbol characters starting at `i`: a symbol stops at whitespace
/// and at parentheses.
pub open spec fn symbol_end(s: Seq<char>, i: int) -> int
    decreases s.len() - i,
{
    if i < 0 || i >= s.len() {
        i
    } else if spec_is_whitespace(s[i]) || s[i] == ')' || s[i] == '(' {
        i
    } else {
        symbol_end(s, i + 1)
    }
}

/// The end of the run of numeral characters starting at `i`.
pub open spec fn numeral_end(s: Seq<char>, i: int) -> int
    decreases s.len() - i,
{
    if i < 0 || i >= s.len() {
        i
    } else if !spec_is_numeral_char(s[i]) {
        i
    } else {
        numeral_end(s, i + 1)
    }
}

pub proof fn lemma_run_ends(s: Seq<char>, i: int)
    requires
        0 <= i <= s.len(),
    ensures
        i <= symbol_end(s, i) <= s.len(),
        i <= numeral_end(s, i) <= s.len(),
        forall|k: int| i <= k < symbol_end(s, i) ==> {
            &&& !spec_is_whitespace(#[trigger] s[k])
            &&& s[k] != ')'
            &&& s[k] != '('
        },
        symbol_end(s, i) < s.len() ==> {
            let c = s[symbol_end(s, i)];
            spec_is_whitespace(c) || c == ')' || c == '('
        },
        forall|k: int| i <= k < numeral_end(s, i) ==> spec_is_numeral_char(#[trigger] s[k]),
        numeral_end(s, i) < s.len() ==> !spec_is_numeral_char(s[numeral_end(s, i)]),
    decreases s.len() - i,
{
    if i < s.len() {
        lemma_run_ends(s, i + 1);
    }
}

/// A symbol: the longest run of characters from `i` without whitespace or parentheses.
pub open spec fn spec_parse_symbol(s: Seq<char>, i: int) -> (Datum, int) {
    (Datum::Symbol(s.subrange(i, symbol_end(s, i))), symbol_end(s, i))
}

/// A number: the longest run of numeral characters from `i`, which must be a decimal number.
pub open spec fn spec_parse_number(s: Seq<char>, i: int) -> ParseStep {
    let text = s.subrange(i, numeral_end(s, i));
    if is_decimal_literal(text) {
        Ok((Datum::Number(text), numeral_end(s, i)))
    } else {
        Err(AtomParseError::InvalidNumber(loc(s, i)))
    }
}

/// The character that the escape sequence `\c` stands for in a string.
pub open spec fn escaped(c: char) -> Option<char> {
    if c == 'r' {
        Some('\r')
    } else if c == 'n' {
        Some('\n')
    } else if c == 't' {
        Some('\t')
    } else if c == '\\' {
        Some('\\')
    } else if c == '"' {
        Some('"')
    } else {
        None
    }
}

/// The rest of a string literal from position `j`, with `buf` read so far.
pub open spec fn string_body(s: Seq<char>, start: Location, j: int, buf: Seq<char>) -> ParseStep
    decreases s.len() - j,
{
    if j < 0 || j >= s.len() {
        Err(AtomParseError::EarlyEOF(start))
    } else if s[j] == '\\' {
        if j + 1 >= s.len() {
            Err(AtomParseError::EarlyEOF(start))
        } else {
            match escaped(s[j + 1]) {
                Some(c) => string_body(s, start, j + 2, buf.push(c)),
                None => Err(AtomParseError::InvalidEscape(s[j + 1], loc(s, j + 2))),
            }
        }
    } else if s[j] == '"' {
        Ok((Datum::String(buf), j + 1))
    } else {
        string_body(s, start, j + 1, buf.push(s[j]))
    }
}

/// A string literal: `"` then characters and escapes up to the closing `"`.
pub open spec fn spec_parse_string(s: Seq<char>, i: int) -> ParseStep {
    if 0 <= i < s.len() && s[i] == '"' {
        string_body(s, loc(s, i), i + 1, Seq::empty())
    } else {
        Err(AtomParseError::ExpectedChar('"', loc(s, i)))
    }
}

/// `#t` or `#f`.
pub open spec fn spec_parse_special(s: Seq<char>, i: int) -> ParseStep {
    if !(0 <= i < s.len() && s[i] == '#') {
        Err(AtomParseError::ExpectedChar('#', loc(s, step(s, i))))
    } else if i + 1 >= s.len() {
        Err(AtomParseError::EarlyEOF(loc(s, i + 1)))
    } else if s[i + 1] == 't' {
        Ok((Datum::Bool(true), i + 2))
    } else if s[i + 1] == 'f' {
        Ok((Datum::Bool(false), i + 2))
    } else {
        Err(AtomParseError::UnexpectedChar(s[i + 1], loc(s, i + 2)))
    }
}

/// A `-` that starts an atom, at position `i`: a negative number, the symbol `-`, or a
/// symbol that begins with `-`.
pub open spec fn spec_parse_minus(s: Seq<char>, i: int) -> ParseStep {
    if i + 1 >= s.len() {
        Err(AtomParseError::EarlyEOF(loc(s, i + 1)))
    } else {
        let c = s[i + 1];
        if spec_is_digit(c) {
            match spec_parse_number(s, i + 1) {
                Ok((d, j)) => Ok((Datum::Number(seq!['-'] + d->Number_0), j)),
                Err(e) => Err(e),
            }
        } else if spec_is_whitespace(c) || c == '(' {
            Ok((Datum::Symbol(seq!['-']), i + 1))
        } else {
            let (d, j) = spec_parse_symbol(s, i + 1);
            Ok((Datum::Symbol(seq!['-'] + d->Symbol_0), j))
        }
    }
}

/// One atom starting at position `i`.
pub open spec fn spec_parse_atom(s: Seq<char>, i: int) -> ParseStep
    decreases s.len() - i, 1int,
{
    if i < 0 || i >= s.len() {
        Err(AtomParseError::EarlyEOF(loc(s, i)))
    } else {
        let c = s[i];
        if c == '(' {
            spec_parse_list(s, i)
        } else if c == '"' {
            spec_parse_string(s, i)
        } else if c == '#' {
            spec_parse_special(s, i)
        } else if c == '\'' {
            match spec_parse_atom(s, i + 1) {
                Ok((d, j)) => Ok((Datum::Quote(Box::new(d)), j)),
                Err(e) => Err(e),
            }
        } else if c == '-' {
            spec_parse_minus(s, i)
        } else if spec_is_digit(c) {
            spec_parse_number(s, i)
        } else if !spec_is_whitespace(c) {
            Ok(spec_parse_symbol(s, i))
        } else {
            Err(AtomParseError::UnexpectedChar(c, loc(s, i)))
        }
    }
}

/// A list starting at position `i`: `(`, atoms separated by whitespace, `)`.
pub open spec fn spec_parse_list(s: Seq<char>, i: int) -> ParseStep
    decreases s.len() - i, 0int,
{
    if !(0 <= i < s.len() && s[i] == '(') {
        Err(AtomParseError::ExpectedChar('(', loc(s, step(s, i))))
    } else {
        list_items(s, loc(s, i), i + 1, Seq::empty())
    }
}

/// The rest of a list from position `k`, with the items `acc` read so far. An unclosed list
/// is reported at the location of its `(`, which is `start`.
pub open spec fn list_items(s: Seq<char>, start: Location, k: int, acc: Seq<Datum>) -> ParseStep
    decreases s.len() - k, 2int,
{
    if k < 0 || k > s.len() {
        Err(AtomParseError::EarlyEOF(start))
    } else {
        let j = skip_whitespace_from(s, k);
        proof {
            lemma_skip_bounds(s, k, false);
        }
        if j < s.len() && s[j] == ')' {
            Ok((Datum::List(acc), j + 1))
        } else if j >= s.len() {
            Err(AtomParseError::EarlyEOF(start))
        } else {
            match spec_parse_atom(s, j) {
                Err(e) => Err(e),
                Ok((d, j2)) => if k < j2 <= s.len() {
                    list_items(s, start, j2, acc.push(d))
                } else {
                    // never reached: an item always consumes text (see lemma_parse_progress)
                    Err(AtomParseError::EarlyEOF(start))
                },
            }
        }
    }
}

/// The atoms of a whole text from position `k`, with the atoms `acc` read so far; `None`
/// when reading never ends, which happens when a `)` stands where an atom should start.
pub open spec fn top_items(s: Seq<char>, k: int, acc: Seq<Datum>) -> Option<Result<Seq<Datum>, AtomParseError>>
    decreases s.len() - k,
{
    if k < 0 || k > s.len() {
        None
    } else {
        let j = skip_whitespace_from(s, k);
        proof {
            lemma_skip_bounds(s, k, false);
        }
        if j >= s.len() {
            Some(Ok(acc))
        } else if s[j] == ')' {
            None
        } else {
            match spec_parse_atom(s, j) {
                Err(e) => Some(Err(e)),
                Ok((d, j2)) => if k < j2 <= s.len() {
                    top_items(s, j2, acc.push(d))
                } else {
                    None
                },
            }
        }
    }
}

/// The atom that a whole text denotes: its only atom, or the list of its atoms when it
/// has none or several. `None` when reading the text never ends.
pub open spec fn spec_parse(s: Seq<char>) -> Option<Result<Datum, AtomParseError>> {
    match top_items(s, 0, Seq::empty()) {
        None => None,
        Some(Err(e)) => Some(Err(e)),
        Some(Ok(items)) => Some(Ok(if items.len() == 1 { items[0] } else { Datum::List(items) })),
    }
}

pub proof fn lemma_string_body_progress(s: Seq<char>, start: Location, j: int, buf: Seq<char>)
    requires
        0 <= j,
    ensures
        string_body(s, start, j, buf) matches Ok((_, j2)) ==> j < j2 <= s.len(),
    decreases s.len() - j,
{
    if 0 <= j < s.len() {
        if s[j] == '\\' {
            if j + 1 < s.len() {
                if let Some(c) = escaped(s[j + 1]) {
                    lemma_string_body_progress(s, start, j + 2, buf.push(c));
                }
            }
        } else if s[j] != '"' {
            lemma_string_body_progress(s, start, j + 1, buf.push(s[j]));
        }
    }
}

/// Reading an atom never moves backwards nor past the end, and moves forward unless the
/// atom would start at a `)`.
pub proof fn lemma_atom_progress(s: Seq<char>, i: int)
    requires
        0 <= i <= s.len(),
    ensures
        spec_parse_atom(s, i) matches Ok((_, j)) ==> {
            &&& i <= j <= s.len()
            &&& s[i] != ')' ==> i < j
        },
    decreases s.len() - i, 1int,
{
    if i < s.len() {
        let c = s[i];
        lemma_run_ends(s, i);
        if c == '(' {
            lemma_list_progress(s, i);
        } else if c == '"' {
            lemma_string_body_progress(s, loc(s, i), i + 1, Seq::empty());
        } else if c == '\'' {
            lemma_atom_progress(s, i + 1);
        } else if c == '-' {
            if i + 1 < s.len() {
                lemma_run_ends(s, i + 1);
            }
        }
    }
}

pub proof fn lemma_list_progress(s: Seq<char>, i: int)
    requires
        0 <= i <= s.len(),
    ensures
        spec_parse_list(s, i) matches Ok((_, j)) ==> i < j <= s.len(),
    decreases s.len() - i, 0int,
{
    if i < s.len() && s[i] == '(' {
        lemma_items_progress(s, loc(s, i), i + 1, Seq::empty());
    }
}

pub proof fn lemma_items_progress(s: Seq<char>, start: Location, k: int, acc: Seq<Datum>)
    requires
        0 <= k <= s.len(),
    ensures
        list_items(s, start, k, acc) matches Ok((_, j)) ==> k < j <= s.len(),
    decreases s.len() - k, 2int,
{
    let j = skip_whitespace_from(s, k);
    lemma_skip_bounds(s, k, false);
    if j < s.len() && s[j] != ')' {
        lemma_atom_progress(s, j);
        if let Ok((d, j2)) = spec_parse_atom(s, j) {
            if k < j2 <= s.len() {
                lemma_items_progress(s, start, j2, acc.push(d));
            }
        }
    }
}

} // verus!

verus! {

/// A text being read: its characters, the position reached, and the location of that
/// position.
pub struct ParserState {
    location: Location,
    src: Vec<char>,
    pos: usize,
}

impl ParserState {
    /// The characters of the text.
    pub closed spec fn text(&self) -> Seq<char> {
        self.src@
    }

    /// The position reached: the number of characters read.
    pub closed spec fn position(&self) -> int {
        self.pos as int
    }

    pub closed spec fn spec_location(&self) -> Location {
        self.location
    }

    /// The position lies within the text and the location is the one reached by reading
    /// the text up to the position.
    pub closed spec fn wf(&self) -> bool {
        &&& self.pos <= self.src@.len()
        &&& self.src@.len() < usize::MAX
        &&& self.location == loc(self.src@, self.pos as int)
    }

    pub proof fn lemma_wf(&self)
        requires
            self.wf(),
        ensures
            0 <= self.position() <= self.text().len() < usize::MAX,
            self.spec_location() == loc(self.text(), self.position()),
    {
    }

    /// Starts reading `src` at line 1, column 1.
    pub fn new(src: &str) -> (st: Self)
        requires
            src@.len() < usize::MAX,
        ensures
            st.wf(),
            st.text() == src@,
            st.position() == 0,
            st.spec_location() == (Location { line: 1, column: 1 }),
    {
        let mut chars: Vec<char> = Vec::new();
        for c in it: src.chars()
            invariant
                chars@ == it.seq().take(it.index() as int),
        {
            chars.push(c);
        }
        assert(chars@ =~= src@);
        assert(src@.take(0) =~= Seq::<char>::empty());
        ParserState { location: Location::default(), src: chars, pos: 0 }
    }

    /// The location reached.
    pub fn location(&self) -> (l: Location)
        ensures
            l == self.spec_location(),
    {
        self.location
    }

    /// The next character, without reading it.
    pub fn peek(&mut self) -> (c: Option<char>)
        requires
            old(self).wf(),
        ensures
            *final(self) == *old(self),
            c == char_at(old(self).text(), old(self).position()),
    {
        if self.pos < self.src.len() {
            Some(self.src[self.pos])
        } else {
            None
        }
    }

    /// Reads the next character, moving to the next line after a newline and to the next
    /// column after any other character.
    pub fn next(&mut self) -> (c: Option<char>)
        requires
            old(self).wf(),
        ensures
            final(self).wf(),
            final(self).text() == old(self).text(),
            final(self).position() == step(old(self).text(), old(self).position()),
            c == char_at(old(self).text(), old(self).position()),
    {
        if self.pos < self.src.len() {
            let c = self.src[self.pos];
            proof {
                let s = self.src@;
                let p = self.pos as int;
                assert(s.take(p + 1).drop_last() =~= s.take(p));
                assert(s.take(p + 1).last() == c);
                lemma_location_bounds(s.take(p));
                lemma_location_bounds(s.take(p + 1));
            }
            self.pos = self.pos + 1;
            if c == '\n' {
                self.location.next_line();
            } else {
                self.location.next_column();
            }
            Some(c)
        } else {
            None
        }
    }

    /// Reads past whitespace and comments: a comment runs from `;` to the end of its line.
    pub fn skip_whitespace(&mut self)
        requires
            old(self).wf(),
        ensures
            final(self).wf(),
            final(self).text() == old(self).text(),
            final(self).position() == skip_whitespace_from(old(self).text(), old(self).position()),
    {
        let mut in_comment = false;
        let ghost s = self.src@;
        let ghost start = self.pos as int;
        loop
            invariant
                self.wf(),
                self.text() == s,
                skip_from(s, self.position(), in_comment) == skip_whitespace_from(s, start),
                old(self).text() == s,
                old(self).position() == start,
            decreases s.len() - self.position(),
        {
            let c = match self.peek() {
                Some(c) => c,
                None => return,
            };
            if in_comment && c == '\n' {
                in_comment = false;
            }
            if c == ';' {
                in_comment = true;
            }
            if !in_comment && !is_whitespace(c) {
                return;
            }
            self.next();
        }
    }
}

/// The character at position `i` of `s`, if there is one.
pub open spec fn char_at(s: Seq<char>, i: int) -> Option<char> {
    if 0 <= i < s.len() { Some(s[i]) } else { None }
}

} // verus!

verus! {

/// `r` is what `expected` describes, with `pos` the position reached on success.
pub open spec fn step_matches(r: Result<Atom, AtomParseError>, expected: ParseStep, pos: int) -> bool {
    match expected {
        Ok((d, j)) => r matches Ok(a) && a@ == d && pos == j,
        Err(e) => r == Err::<Atom, AtomParseError>(e),
    }
}

impl Atom {
    fn parse_special(state: &mut ParserState) -> (r: Result<Atom, AtomParseError>)
        requires
            old(state).wf(),
        ensures
            final(state).wf(),
            final(state).text() == old(state).text(),
            step_matches(
                r,
                spec_parse_special(old(state).text(), old(state).position()),
                final(state).position(),
            ),
    {
        match state.next() {
            Some('#') => {},
            _ => return Err(AtomParseError::ExpectedChar('#', state.location)),
        }
        match state.next() {
            Some('t') => Ok(Atom::Bool(true)),
            Some('f') => Ok(Atom::Bool(false)),
            Some(c) => Err(AtomParseError::UnexpectedChar(c, state.location)),
            None => Err(AtomParseError::EarlyEOF(state.location)),
        }
    }

    // [^\s()]*
    fn parse_symbol(state: &mut ParserState) -> (r: Result<Atom, AtomParseError>)
        requires
            old(state).wf(),
        ensures
            final(state).wf(),
            final(state).text() == old(state).text(),
            step_matches(
                r,
                Ok(spec_parse_symbol(old(state).text(), old(state).position())),
                final(state).position(),
            ),
    {
        let ghost s = state.text();
        let ghost i0 = state.position();
        proof {
            lemma_run_ends(s, i0);
        }
        let mut buf = String::new();
        loop
            invariant
                state.wf(),
                state.text() == s,
                old(state).text() == s,
                old(state).position() == i0,
                i0 <= state.position() <= symbol_end(s, i0),
                buf@ == s.subrange(i0, state.position()),
                symbol_end(s, state.position()) == symbol_end(s, i0),
            ensures
                state.wf(),
                state.text() == s,
                state.position() == symbol_end(s, i0),
                buf@ == s.subrange(i0, state.position()),
            decreases s.len() - state.position(),
        {
            let c = match state.peek() {
                Some(c) => c,
                None => break,
            };
            if is_whitespace(c) || c == ')' || c == '(' {
                break;
            }
            buf.push(c);
            proof {
                lemma_run_ends(s, state.position() + 1);
            }
            state.next();
            assert(buf@ =~= s.subrange(i0, state.position()));
        }
        Ok(Atom::Symbol(buf))
    }

    // '"' ([^"\\] | '\\' [rnt\\"])* '"'
    fn parse_string(state: &mut ParserState) -> (r: Result<Atom, AtomParseError>)
        requires
            old(state).wf(),
        ensures
            final(state).wf(),
            final(state).text() == old(state).text(),
            step_matches(
                r,
                spec_parse_string(old(state).text(), old(state).position()),
                final(state).position(),
            ),
    {
        let ghost s = state.text();
        let ghost i0 = state.position();
        let start_loc = state.location;
        let mut buf = String::new();
        match state.next() {
            Some('"') => {},
            _ => return Err(AtomParseError::ExpectedChar('"', start_loc)),
        }
        loop
            invariant
                state.wf(),
                state.text() == s,
                old(state).text() == s,
                old(state).position() == i0,
                string_body(s, start_loc, state.position(), buf@) == spec_parse_string(s, i0),
            decreases s.len() - state.position(),
        {
            let c = match state.next() {
                Some(c) => c,
                None => return Err(AtomParseError::EarlyEOF(start_loc)),
            };
            if c == '\\' {
                let e = match state.next() {
                    Some(e) => e,
                    None => return Err(AtomParseError::EarlyEOF(start_loc)),
                };
                if e == 'r' {
                    buf.push('\r');
                } else if e == 'n' {
                    buf.push('\n');
                } else if e == 't' {
                    buf.push('\t');
                } else if e == '\\' {
                    buf.push('\\');
                } else if e == '"' {
                    buf.push('"');
                } else {
                    return Err(AtomParseError::InvalidEscape(e, state.location));
                }
            } else if c == '"' {
                return Ok(Atom::String(buf));
            } else {
                buf.push(c);
            }
        }
    }

    // [0-9.eE+-]+, which must be a decimal number
    fn parse_number(state: &mut ParserState) -> (r: Result<Atom, AtomParseError>)
        requires
            old(state).wf(),
        ensures
            final(state).wf(),
            final(state).text() == old(state).text(),
            step_matches(
                r,
                spec_parse_number(old(state).text(), old(state).position()),
                final(state).position(),
            ),
            r matches Ok(a) ==> a is Number,
    {
        let ghost s = state.text();
        let ghost i0 = state.position();
        proof {
            lemma_run_ends(s, i0);
        }
        let start_loc = state.location;
        let mut buf = String::new();
        let mut chars: Vec<char> = Vec::new();
        loop
            invariant
                state.wf(),
                state.text() == s,
                old(state).text() == s,
                old(state).position() == i0,
                i0 <= state.position() <= numeral_end(s, i0),
                chars@ == s.subrange(i0, state.position()),
                buf@ == chars@,
                numeral_end(s, state.position()) == numeral_end(s, i0),
            ensures
                state.wf(),
                state.text() == s,
                state.position() == numeral_end(s, i0),
                chars@ == s.subrange(i0, state.position()),
                buf@ == chars@,
            decreases s.len() - state.position(),
        {
            let c = match state.peek() {
                Some(c) => c,
                None => break,
            };
            if !is_numeral_char(c) {
                break;
            }
            buf.push(c);
            chars.push(c);
            proof {
                lemma_run_ends(s, state.position() + 1);
            }
            state.next();
            assert(chars@ =~= s.subrange(i0, state.position()));
        }
        if check_decimal_literal(&chars) {
            Ok(Atom::Number(buf))
        } else {
            Err(AtomParseError::InvalidNumber(start_loc))
        }
    }
}

} // verus!

verus! {

impl Atom {
    // '(' Atom* ')'
    fn parse_list(state: &mut ParserState) -> (r: Result<Atom, AtomParseError>)
        requires
            old(state).wf(),
        ensures
            final(state).wf(),
            final(state).text() == old(state).text(),
            step_matches(
                r,
                spec_parse_list(old(state).text(), old(state).position()),
                final(state).position(),
            ),
        decreases old(state).text().len() - old(state).position(), 0int,
    {
        let ghost s = state.text();
        let ghost i0 = state.position();
        let start_loc = state.location;
        let mut list: Vec<Atom> = Vec::new();
        match state.next() {
            Some('(') => {},
            _ => return Err(AtomParseError::ExpectedChar('(', state.location)),
        }
        loop
            invariant
                state.wf(),
                state.text() == s,
                old(state).text() == s,
                old(state).position() == i0,
                i0 < state.position(),
                list_items(s, start_loc, state.position(), view_atoms(list@)) == spec_parse_list(
                    s,
                    i0,
                ),
            decreases s.len() - state.position(),
        {
            let ghost k = state.position();
            state.skip_whitespace();
            proof {
                lemma_skip_bounds(s, k, false);
            }
            match state.peek() {
                Some(')') => {
                    state.next();
                    return Ok(Atom::List(list));
                },
                None => return Err(AtomParseError::EarlyEOF(start_loc)),
                Some(_) => {},
            }
            let ghost j = state.position();
            proof {
                lemma_atom_progress(s, j);
            }
            match Self::parse_atom(state) {
                Ok(a) => {
                    proof {
                        lemma_view_atoms_push(list@, a);
                    }
                    list.push(a);
                },
                Err(e) => return Err(e),
            }
        }
    }

    fn parse_atom(state: &mut ParserState) -> (r: Result<Atom, AtomParseError>)
        requires
            old(state).wf(),
        ensures
            final(state).wf(),
            final(state).text() == old(state).text(),
            step_matches(
                r,
                spec_parse_atom(old(state).text(), old(state).position()),
                final(state).position(),
            ),
        decreases old(state).text().len() - old(state).position(), 1int,
    {
        let ghost s = state.text();
        let ghost i0 = state.position();
        match state.peek() {
            Some('(') => Self::parse_list(state),
            Some('"') => Self::parse_string(state),
            Some('#') => Self::parse_special(state),
            Some('\'') => {
                state.next();
                match Self::parse_atom(state) {
                    Ok(a) => Ok(Atom::Quote(Box::new(a))),
                    Err(e) => Err(e),
                }
            },
            // either a negative number or a symbol
            Some('-') => {
                state.next();
                let c = match state.peek() {
                    Some(c) => c,
                    None => return Err(AtomParseError::EarlyEOF(state.location)),
                };
                if is_digit(c) {
                    match Self::parse_number(state) {
                        Ok(Atom::Number(num)) => Ok(Atom::Number(prepend_char('-', &num))),
                        Ok(_) => vstd::pervasive::unreached(),
                        Err(e) => Err(e),
                    }
                } else if is_whitespace(c) || c == '(' {
                    // just the symbol '-'
                    Ok(Atom::Symbol(prepend_char('-', &String::new())))
                } else {
                    match Self::parse_symbol(state) {
                        Ok(Atom::Symbol(sym)) => Ok(Atom::Symbol(prepend_char('-', &sym))),
                        Ok(_) => vstd::pervasive::unreached(),
                        Err(e) => Err(e),
                    }
                }
            },
            Some(c) => {
                if is_digit(c) {
                    Self::parse_number(state)
                } else if !is_whitespace(c) {
                    Self::parse_symbol(state)
                } else {
                    Err(AtomParseError::UnexpectedChar(c, state.location))
                }
            },
            None => Err(AtomParseError::EarlyEOF(state.location)),
        }
    }

    /// Reads a whole text: its only atom, or the list of its atoms when it has none or
    /// several. The text must not hold a `)` where an atom should start at the top level:
    /// reading such a text never ends.
    pub fn parse(src: &str) -> (r: Result<Atom, AtomParseError>)
        requires
            src@.len() < usize::MAX,
            spec_parse(src@) is Some,
        ensures
            match spec_parse(src@) {
                Some(Ok(d)) => r matches Ok(a) && a@ == d,
                Some(Err(e)) => r == Err::<Atom, AtomParseError>(e),
                None => false,
            },
    {
        match Self::try_parse(src) {
            Some(r) => r,
            None => {
                assert(false);
                Err(AtomParseError::EarlyEOF(Location::default()))
            },
        }
    }

    /// Reads a whole text as [`Atom::parse`] does, or gives `None` for a text that holds a
    /// `)` where an atom should start at the top level, on which reading would never end.
    pub fn try_parse(src: &str) -> (r: Option<Result<Atom, AtomParseError>>)
        requires
            src@.len() < usize::MAX,
        ensures
            match spec_parse(src@) {
                Some(Ok(d)) => r matches Some(Ok(a)) && a@ == d,
                Some(Err(e)) => r == Some(Err::<Atom, AtomParseError>(e)),
                None => r is None,
            },
    {
        let ghost s = src@;
        let mut state = ParserState::new(src);
        state.skip_whitespace();
        proof {
            lemma_skip_bounds(s, 0, false);
            lemma_skip_idempotent(s, 0);
            lemma_atom_progress(s, state.position());
            assert(top_items(s, state.position(), Seq::empty()) == top_items(s, 0, Seq::empty()));
        }
        let mut list: Vec<Atom> = Vec::new();
        loop
            invariant
                state.wf(),
                state.text() == s,
                top_items(s, state.position(), view_atoms(list@)) == top_items(s, 0, Seq::empty()),
                s == src@,
            ensures
                state.wf(),
                state.text() == s,
                top_items(s, state.position(), view_atoms(list@)) == top_items(s, 0, Seq::empty()),
                state.position() >= s.len(),
            decreases s.len() - state.position(),
        {
            let ghost k = state.position();
            state.skip_whitespace();
            proof {
                lemma_skip_bounds(s, k, false);
            }
            let c = state.peek();
            if c.is_none() {
                break;
            }
            if c == Some(')') {
                return None;
            }
            let ghost j = state.position();
            proof {
                lemma_atom_progress(s, j);
            }
            match Self::parse_atom(&mut state) {
                Ok(a) => {
                    proof {
                        lemma_view_atoms_push(list@, a);
                        assert(k < state.position() <= s.len());
                        assert(top_items(s, k, view_atoms(list@)) == top_items(
                            s,
                            state.position(),
                            view_atoms(list@).push(a@),
                        ));
                    }
                    list.push(a);
                },
                Err(e) => {
                    assert(top_items(s, k, view_atoms(list@)) == Some(
                        Err::<Seq<Datum>, AtomParseError>(e),
                    ));
                    return Some(Err(e));
                },
            }
        }
        proof {
            lemma_view_atoms(list@);
            assert(top_items(s, state.position(), view_atoms(list@)) == Some(
                Ok::<Seq<Datum>, AtomParseError>(view_atoms(list@)),
            ));
        }
        if list.len() == 1 {
            Some(Ok(list[0].clone()))
        } else {
            Some(Ok(Atom::List(list)))
        }
    }
}

} // verus!
