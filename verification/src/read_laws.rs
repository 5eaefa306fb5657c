use vstd::prelude::*;

use crate::atom::Datum;
use crate::chars::{
    all_digits, is_decimal_literal, is_mantissa, is_exponent, spec_is_digit, spec_is_numeral_char,
    spec_is_whitespace, unsigned_part,
};
use crate::location::Location;
use crate::parse::{
    AtomParseError, lemma_skip_bounds, list_items, numeral_end, skip_from, skip_whitespace_from,
    spec_parse, spec_parse_atom, string_body, symbol_end, top_items,
};
use crate::show::{display, display_items};

verus! {

/// The text `w` stands in `t` from position `i`.
pub open spec fn stands_at(t: Seq<char>, i: int, w: Seq<char>) -> bool {
    &&& 0 <= i
    &&& i + w.len() <= t.len()
    &&& forall|m: int| 0 <= m < w.len() ==> #[trigger] t[i + m] == w[m]
}

/// Position `j` of `t` ends a symbol or a number: the end of the text, whitespace or `)`.
pub open spec fn ends_atom(t: Seq<char>, j: int) -> bool {
    j == t.len() || (0 <= j < t.len() && (spec_is_whitespace(t[j]) || t[j] == ')'))
}

/// A letter or `_`: what a symbol that reads back starts with.
pub open spec fn is_word_start(c: char) -> bool {
    ('a' <= c <= 'z') || ('A' <= c <= 'Z') || c == '_'
}

/// A symbol name that reads back: it starts with a letter or `_` and holds no whitespace
/// and no parenthesis.
pub open spec fn is_plain_symbol(x: Seq<char>) -> bool {
    &&& x.len() > 0
    &&& is_word_start(x[0])
    &&& forall|k: int| 0 <= k < x.len() ==> !spec_is_whitespace(#[trigger] x[k]) && x[k] != '(' && x[k] != ')'
}

/// A numeral that reads back: a decimal number that starts with a digit, possibly
/// preceded by `-`.
pub open spec fn is_plain_numeral(t: Seq<char>) -> bool {
    ||| t.len() > 0 && spec_is_digit(t[0]) && is_decimal_literal(t)
    ||| t.len() > 1 && t[0] == '-' && spec_is_digit(t[1]) && is_decimal_literal(t.skip(1))
}

/// An atom whose text reads back as itself: built from booleans, numbers and symbols that
/// read back, lists and quotations.
pub open spec fn reads_back(d: Datum) -> bool
    decreases d,
{
    match d {
        Datum::Bool(_) => true,
        Datum::Number(t) => is_plain_numeral(t),
        Datum::Symbol(x) => is_plain_symbol(x),
        Datum::List(items) => forall|i: int| 0 <= i < items.len() ==> reads_back(#[trigger] items[i]),
        Datum::Quote(x) => reads_back(*x),
        _ => false,
    }
}

proof fn lemma_stands_split(t: Seq<char>, i: int, a: Seq<char>, b: Seq<char>)
    requires
        stands_at(t, i, a + b),
    ensures
        stands_at(t, i, a),
        stands_at(t, i + a.len(), b),
{
    assert forall|m: int| 0 <= m < a.len() implies #[trigger] t[i + m] == a[m] by {
        assert(t[i + m] == (a + b)[m]);
    }
    assert forall|m: int| 0 <= m < b.len() implies #[trigger] t[i + a.len() + m] == b[m] by {
        assert(t[i + (a.len() + m)] == (a + b)[a.len() + m]);
    }
}

/// Every character of a decimal number may stand in a numeral.
proof fn lemma_decimal_chars(t: Seq<char>)
    requires
        is_decimal_literal(t),
    ensures
        forall|m: int| 0 <= m < t.len() ==> spec_is_numeral_char(#[trigger] t[m]),
{
    let u = unsigned_part(t);
    let k = choose|k: int| 0 <= k <= u.len() && is_mantissa(#[trigger] u.take(k)) && is_exponent(u.skip(k));
    let mt = u.take(k);
    let ex = u.skip(k);
    assert forall|m: int| 0 <= m < u.len() implies spec_is_numeral_char(#[trigger] u[m]) by {
        if m < k {
            assert(u[m] == mt[m]);
            if mt.len() > 0 && all_digits(mt) {
                assert(spec_is_digit(mt[m]));
            } else {
                let p = choose|p: int|
                    0 <= p < mt.len() && mt[p] == '.' && mt.len() > 1 && all_digits(#[trigger] mt.take(p))
                        && all_digits(mt.skip(p + 1));
                if m < p {
                    assert(mt.take(p)[m] == mt[m]);
                } else if m > p {
                    assert(mt.skip(p + 1)[m - p - 1] == mt[m]);
                }
            }
        } else {
            assert(u[m] == ex[m - k]);
            let q = m - k;
            if ex.len() > 1 && crate::chars::is_exponent_mark(ex[0]) && all_digits(ex.skip(1)) {
                if q >= 1 {
                    assert(ex.skip(1)[q - 1] == ex[q]);
                }
            } else {
                if q >= 2 {
                    assert(ex.skip(2)[q - 2] == ex[q]);
                }
            }
        }
    }
    assert forall|m: int| 0 <= m < t.len() implies spec_is_numeral_char(#[trigger] t[m]) by {
        if t.len() > 0 && crate::chars::is_sign(t[0]) {
            if m > 0 {
                assert(t[m] == u[m - 1]);
            }
        } else {
            assert(t[m] == u[m]);
        }
    }
}

/// A run of symbol characters from `i` up to a stop at `e` ends there.
proof fn lemma_symbol_end_at(t: Seq<char>, i: int, e: int)
    requires
        0 <= i <= e <= t.len(),
        forall|k: int| i <= k < e ==> !spec_is_whitespace(#[trigger] t[k]) && t[k] != '(' && t[k] != ')',
        ends_atom(t, e),
    ensures
        symbol_end(t, i) == e,
    decreases e - i,
{
    if i < e {
        lemma_symbol_end_at(t, i + 1, e);
    }
}

/// A run of numeral characters from `i` up to a stop at `e` ends there.
proof fn lemma_numeral_end_at(t: Seq<char>, i: int, e: int)
    requires
        0 <= i <= e <= t.len(),
        forall|k: int| i <= k < e ==> spec_is_numeral_char(#[trigger] t[k]),
        ends_atom(t, e),
    ensures
        numeral_end(t, i) == e,
    decreases e - i,
{
    if i < e {
        lemma_numeral_end_at(t, i + 1, e);
    }
}

/// The text of an atom that reads back is not empty, and starts with neither whitespace nor
/// `;` nor `)`.
proof fn lemma_display_start(d: Datum)
    requires
        reads_back(d),
    ensures
        display(d).len() > 0,
        !spec_is_whitespace(display(d)[0]),
        display(d)[0] != ';',
        display(d)[0] != ')',
{
    reveal_strlit("#t");
    reveal_strlit("#f");
    reveal_strlit("(");
    reveal_strlit(")");
    reveal_strlit("'");
    match d {
        Datum::List(items) => {
            assert(display(d)[0] == '(');
        },
        Datum::Quote(x) => {
            assert(display(d)[0] == '\'');
        },
        _ => {},
    }
}

/// The items of a list, the first of them and then the rest.
proof fn lemma_display_items_front(s: Seq<Datum>)
    requires
        s.len() >= 2,
    ensures
        display_items(s) == display(s[0]) + " "@ + display_items(s.skip(1)),
    decreases s.len(),
{
    if s.len() == 2 {
        assert(s.drop_last() =~= seq![s[0]]);
        assert(s.skip(1) =~= seq![s[1]]);
        assert(display_items(s.drop_last()) == display(s[0]));
        assert(display_items(s.skip(1)) == display(s[1]));
    } else {
        let a = s.drop_last();
        let b = s.skip(1);
        lemma_display_items_front(a);
        assert(a.skip(1) =~= b.drop_last());
        assert(b.last() == s.last());
        assert(a[0] == s[0]);
        assert(display_items(s) == display_items(a) + " "@ + display(s.last()));
        assert(display_items(b) == display_items(b.drop_last()) + " "@ + display(b.last()));
        assert(display_items(s) =~= display(s[0]) + " "@ + display_items(b));
    }
}

proof fn lemma_atom_reads_back(t: Seq<char>, i: int, d: Datum)
    requires
        reads_back(d),
        stands_at(t, i, display(d)),
        ends_atom(t, i + display(d).len()),
    ensures
        spec_parse_atom(t, i) == Ok::<(Datum, int), AtomParseError>((d, i + display(d).len())),
    decreases d, 1int,
{
    reveal_strlit("#t");
    reveal_strlit("#f");
    reveal_strlit("(");
    reveal_strlit(")");
    reveal_strlit("'");
    lemma_display_start(d);
    let n = display(d).len() as int;
    assert(t[i + 0] == display(d)[0]);
    match d {
        Datum::Bool(b) => {
            assert(t[i + 1] == display(d)[1]);
            assert(t[i] == '#');
            if b {
                assert(display(d) == "#t"@);
                assert(t[i + 1] == 't');
            } else {
                assert(display(d) == "#f"@);
                assert(t[i + 1] == 'f');
            }
            assert(n == 2);
            assert(crate::parse::spec_parse_special(t, i) == Ok::<(Datum, int), AtomParseError>((d, i + 2)));
            assert(t[i] != '(' && t[i] != '"');
            assert(spec_parse_atom(t, i) == crate::parse::spec_parse_special(t, i));
            assert(spec_parse_atom(t, i) == Ok::<(Datum, int), AtomParseError>((d, i + display(d).len())));
        },
        Datum::Symbol(x) => {
            assert forall|k: int| i <= k < i + n implies !spec_is_whitespace(#[trigger] t[k]) && t[k] != '('
                && t[k] != ')' by {
                assert(t[i + (k - i)] == x[k - i]);
            }
            lemma_symbol_end_at(t, i, i + n);
            assert(t.subrange(i, i + n) =~= x) by {
                assert forall|k: int| 0 <= k < n implies t.subrange(i, i + n)[k] == x[k] by {
                    assert(t[i + k] == x[k]);
                }
            }
            assert(spec_parse_atom(t, i) == Ok::<(Datum, int), AtomParseError>((d, i + display(d).len())));
        },
        Datum::Number(x) => {
            if spec_is_digit(x[0]) && is_decimal_literal(x) {
                lemma_decimal_chars(x);
                assert forall|k: int| i <= k < i + n implies spec_is_numeral_char(#[trigger] t[k]) by {
                    assert(t[i + (k - i)] == x[k - i]);
                }
                lemma_numeral_end_at(t, i, i + n);
                assert(t.subrange(i, i + n) =~= x) by {
                    assert forall|k: int| 0 <= k < n implies t.subrange(i, i + n)[k] == x[k] by {
                        assert(t[i + k] == x[k]);
                    }
                }
            } else {
                let y = x.skip(1);
                lemma_decimal_chars(y);
                assert(t[i + 1] == x[1]);
                assert forall|k: int| i + 1 <= k < i + n implies spec_is_numeral_char(#[trigger] t[k]) by {
                    assert(t[i + (k - i)] == x[k - i]);
                    assert(x[k - i] == y[k - i - 1]);
                }
                lemma_numeral_end_at(t, i + 1, i + n);
                assert(t.subrange(i + 1, i + n) =~= y) by {
                    assert forall|k: int| 0 <= k < n - 1 implies t.subrange(i + 1, i + n)[k] == y[k] by {
                        assert(t[i + (k + 1)] == x[k + 1]);
                    }
                }
                assert(seq!['-'] + y =~= x);
            }
            assert(spec_parse_atom(t, i) == Ok::<(Datum, int), AtomParseError>((d, i + display(d).len())));
        },
        Datum::Quote(x) => {
            lemma_stands_split(t, i, "'"@, display(*x));
            lemma_atom_reads_back(t, i + 1, *x);
            assert(spec_parse_atom(t, i) == Ok::<(Datum, int), AtomParseError>((d, i + display(d).len())));
        },
        Datum::List(items) => {
            assert(display(d) == "("@ + (display_items(items) + ")"@));
            lemma_stands_split(t, i, "("@, display_items(items) + ")"@);
            assert(t[i] == '(');
            assert(n == display_items(items).len() + 2);
            let start = crate::parse::loc(t, i);
            lemma_items_read_back(t, start, i + 1, 0, Seq::empty(), items);
            assert(Seq::<Datum>::empty() + items =~= items);
            assert(crate::parse::spec_parse_list(t, i) == list_items(t, start, i + 1, Seq::empty()));
            assert(spec_parse_atom(t, i) == crate::parse::spec_parse_list(t, i));
            assert(spec_parse_atom(t, i) == Ok::<(Datum, int), AtomParseError>((d, i + display(d).len())));
        },
        _ => {},
    }
}

/// The rest of a list whose text, after `lead` spaces at `k`, is that of `items` and a `)`.
proof fn lemma_items_read_back(t: Seq<char>, start: Location, k: int, lead: int, acc: Seq<Datum>, items: Seq<Datum>)
    requires
        0 <= k,
        0 <= lead <= 1,
        forall|m: int| 0 <= m < items.len() ==> reads_back(#[trigger] items[m]),
        forall|m: int| 0 <= m < lead ==> #[trigger] t[k + m] == ' ',
        stands_at(t, k + lead, display_items(items) + ")"@),
    ensures
        list_items(t, start, k, acc) == Ok::<(Datum, int), AtomParseError>(
            (Datum::List(acc + items), k + lead + display_items(items).len() + 1),
        ),
    decreases items, 0int,
{
    reveal_strlit(")");
    reveal_strlit(" ");
    let w = display_items(items);
    let j = k + lead;
    lemma_stands_split(t, j, w, ")"@);
    // skipping the lead spaces stops at the items, or at the `)`
    let first = if items.len() == 0 { ')' } else { display(items[0])[0] };
    if items.len() > 0 {
        lemma_display_start(items[0]);
        if items.len() == 1 {
            assert(w == display(items[0]));
        } else {
            lemma_display_items_front(items);
        }
        assert(t[j + 0] == w[0]);
    } else {
        assert(t[j + 0] == ')');
    }
    assert(t[j] == first);
    assert(0 <= j < t.len());
    assert(spec_is_whitespace(' '));
    assert(!spec_is_whitespace(first) && first != ';');
    if lead == 1 {
        assert(t[k + 0] == ' ');
        assert(skip_from(t, k + 1, false) == j);
        assert(skip_from(t, k, false) == skip_from(t, k + 1, false));
    } else {
        assert(j == k);
        assert(t[k] == first);
        assert(skip_from(t, k, false) == k);
    }
    assert(skip_whitespace_from(t, k) == j);
    if items.len() == 0 {
        assert(acc + items =~= acc);
    } else {
        let d = items[0];
        let dn = display(d).len() as int;
        if items.len() == 1 {
            assert(w == display(d));
            assert(t[j + dn] == ')') by {
                assert(t[j + w.len() + 0] == ")"@[0]);
            }
            lemma_atom_reads_back(t, j, d);
            assert(acc.push(d) == acc + items) by {
                assert(acc.push(d) =~= acc + items);
            }
            assert(skip_whitespace_from(t, j + dn) == j + dn);
        } else {
            let rest = items.skip(1);
            assert(w == display(d) + " "@ + display_items(rest));
            lemma_stands_split(t, j, display(d), " "@ + display_items(rest) + ")"@);
            assert(display(d) + " "@ + display_items(rest) + ")"@ == display(d) + (" "@ + display_items(rest) + ")"@));
            assert(w + ")"@ == display(d) + (" "@ + display_items(rest) + ")"@));
            assert(t[j + dn + 0] == (" "@ + display_items(rest) + ")"@)[0]);
            lemma_atom_reads_back(t, j, d);
            lemma_stands_split(t, j + dn, " "@, display_items(rest) + ")"@);
            assert(" "@ + display_items(rest) + ")"@ == " "@ + (display_items(rest) + ")"@));
            assert(forall|m: int| 0 <= m < rest.len() ==> #[trigger] rest[m] == items[m + 1]);
            assert(decreases_to!(items => rest));
            lemma_items_read_back(t, start, j + dn, 1, acc.push(d), rest);
            assert(acc.push(d) + rest =~= acc + items);
        }
    }
}

/// The text of an atom reads back as the atom: for an atom built from booleans, numbers
/// that start with a digit (after an optional `-`), symbols that start with a letter or `_`
/// and hold no whitespace or parentheses, lists and quotations, reading what
/// `Atom::to_string` gives yields the atom again.
pub proof fn law_text_reads_back(d: Datum)
    requires
        reads_back(d),
    ensures
        spec_parse(display(d)) == Some(Ok::<Datum, AtomParseError>(d)),
{
    let t = display(d);
    let n = t.len() as int;
    lemma_display_start(d);
    assert(stands_at(t, 0, t));
    lemma_atom_reads_back(t, 0, d);
    assert(skip_whitespace_from(t, 0) == 0);
    assert(skip_whitespace_from(t, n) == n);
    assert(top_items(t, n, seq![d]) == Some(Ok::<Seq<Datum>, AtomParseError>(seq![d])));
    assert(top_items(t, 0, Seq::empty()) == top_items(t, n, Seq::<Datum>::empty().push(d)));
}

/// `t` holds `s` from position `off`, followed by nothing, or by a space, a `;` and a
/// comment that runs to the end of `t` without a line break.
pub open spec fn holds_at(t: Seq<char>, off: int, s: Seq<char>) -> bool {
    let e = off + s.len();
    &&& 0 <= off
    &&& e <= t.len()
    &&& forall|m: int| 0 <= m < s.len() ==> #[trigger] t[off + m] == s[m]
    &&& t.len() == e || (e + 2 <= t.len() && t[e] == ' ' && t[e + 1] == ';' && forall|k: int|
        e <= k < t.len() ==> #[trigger] t[k] != '\n')
}

/// A text that reading skips entirely, ending out of any comment: empty, or whitespace and
/// `;` comments that end with a line break.
pub open spec fn is_blank(p: Seq<char>) -> bool {
    p.len() == 0 || (p.last() == '\n' && skip_from(p, 0, false) == p.len())
}

/// `; trailing comment`, after a space: a comment that ends the text.
pub open spec fn is_trailing_comment(u: Seq<char>) -> bool {
    &&& u.len() >= 2
    &&& u[0] == ' '
    &&& u[1] == ';'
    &&& forall|k: int| 0 <= k < u.len() ==> #[trigger] u[k] != '\n'
}

proof fn lemma_comment_to_end(t: Seq<char>, x: int)
    requires
        0 <= x <= t.len(),
        forall|k: int| x <= k < t.len() ==> #[trigger] t[k] != '\n',
    ensures
        skip_from(t, x, true) == t.len(),
    decreases t.len() - x,
{
    if x < t.len() {
        lemma_comment_to_end(t, x + 1);
    }
}

/// After what `t` holds, skipping runs to the end of `t`.
proof fn lemma_tail_skip(t: Seq<char>, off: int, s: Seq<char>, ic: bool)
    requires
        holds_at(t, off, s),
    ensures
        skip_from(t, off + s.len(), ic) == t.len(),
{
    let e = off + s.len();
    if t.len() > e {
        assert(spec_is_whitespace(' '));
        lemma_comment_to_end(t, e + 2);
        assert(skip_from(t, e + 1, ic) == skip_from(t, e + 2, true));
    }
}

proof fn lemma_skip_in(t: Seq<char>, off: int, s: Seq<char>, j: int, ic: bool)
    requires
        holds_at(t, off, s),
        0 <= j <= s.len(),
    ensures
        skip_from(s, j, ic) < s.len() ==> skip_from(t, off + j, ic) == off + skip_from(s, j, ic),
        skip_from(s, j, ic) >= s.len() ==> skip_from(t, off + j, ic) == t.len(),
    decreases s.len() - j,
{
    if j == s.len() {
        lemma_tail_skip(t, off, s, ic);
    } else {
        assert(t[off + j] == s[j]);
        let c = s[j];
        let ic2 = if c == ';' {
            true
        } else if ic && c == '\n' {
            false
        } else {
            ic
        };
        lemma_skip_in(t, off, s, j + 1, ic2);
    }
}

proof fn lemma_symbol_end_in(t: Seq<char>, off: int, s: Seq<char>, j: int)
    requires
        holds_at(t, off, s),
        0 <= j <= s.len(),
    ensures
        symbol_end(t, off + j) == off + symbol_end(s, j),
    decreases s.len() - j,
{
    assert(spec_is_whitespace(' '));
    if j < s.len() {
        assert(t[off + j] == s[j]);
        lemma_symbol_end_in(t, off, s, j + 1);
    }
}

proof fn lemma_numeral_end_in(t: Seq<char>, off: int, s: Seq<char>, j: int)
    requires
        holds_at(t, off, s),
        0 <= j <= s.len(),
    ensures
        numeral_end(t, off + j) == off + numeral_end(s, j),
    decreases s.len() - j,
{
    if j < s.len() {
        assert(t[off + j] == s[j]);
        lemma_numeral_end_in(t, off, s, j + 1);
    }
}

proof fn lemma_subrange_in(t: Seq<char>, off: int, s: Seq<char>, a: int, b: int)
    requires
        holds_at(t, off, s),
        0 <= a <= b <= s.len(),
    ensures
        t.subrange(off + a, off + b) == s.subrange(a, b),
{
    assert forall|m: int| 0 <= m < b - a implies t.subrange(off + a, off + b)[m] == s.subrange(a, b)[m] by {
        assert(t[off + (a + m)] == s[a + m]);
    }
    assert(t.subrange(off + a, off + b) =~= s.subrange(a, b));
}

proof fn lemma_string_body_in(
    t: Seq<char>,
    off: int,
    s: Seq<char>,
    start: Location,
    start2: Location,
    j: int,
    buf: Seq<char>,
)
    requires
        holds_at(t, off, s),
        0 <= j,
    ensures
        string_body(s, start, j, buf) matches Ok((d, k)) ==> string_body(t, start2, off + j, buf) == Ok::<
            (Datum, int),
            AtomParseError,
        >((d, off + k)),
    decreases s.len() - j,
{
    if j < s.len() {
        assert(t[off + j] == s[j]);
        if s[j] == '\\' {
            if j + 1 < s.len() {
                assert(t[off + (j + 1)] == s[j + 1]);
                if let Some(c) = crate::parse::escaped(s[j + 1]) {
                    lemma_string_body_in(t, off, s, start, start2, j + 2, buf.push(c));
                }
            }
        } else if s[j] != '"' {
            lemma_string_body_in(t, off, s, start, start2, j + 1, buf.push(s[j]));
        }
    }
}

proof fn lemma_atom_in(t: Seq<char>, off: int, s: Seq<char>, j: int)
    requires
        holds_at(t, off, s),
        0 <= j <= s.len(),
    ensures
        spec_parse_atom(s, j) matches Ok((d, k)) ==> spec_parse_atom(t, off + j) == Ok::<
            (Datum, int),
            AtomParseError,
        >((d, off + k)),
    decreases s.len() - j, 1int,
{
    if j < s.len() {
        let c = s[j];
        assert(t[off + j] == c);
        if c == '(' {
            lemma_list_in(t, off, s, j);
        } else if c == '"' {
            lemma_string_body_in(t, off, s, crate::parse::loc(s, j), crate::parse::loc(t, off + j), j + 1, Seq::empty());
        } else if c == '#' {
            if j + 1 < s.len() {
                assert(t[off + (j + 1)] == s[j + 1]);
            }
        } else if c == '\'' {
            lemma_atom_in(t, off, s, j + 1);
        } else if c == '-' {
            if j + 1 < s.len() {
                assert(t[off + (j + 1)] == s[j + 1]);
                lemma_numeral_end_in(t, off, s, j + 1);
                lemma_symbol_end_in(t, off, s, j + 1);
                crate::parse::lemma_run_ends(s, j + 1);
                lemma_subrange_in(t, off, s, j + 1, numeral_end(s, j + 1));
                lemma_subrange_in(t, off, s, j + 1, symbol_end(s, j + 1));
            }
        } else {
            lemma_numeral_end_in(t, off, s, j);
            lemma_symbol_end_in(t, off, s, j);
            crate::parse::lemma_run_ends(s, j);
            lemma_subrange_in(t, off, s, j, numeral_end(s, j));
            lemma_subrange_in(t, off, s, j, symbol_end(s, j));
        }
    }
}

proof fn lemma_list_in(t: Seq<char>, off: int, s: Seq<char>, j: int)
    requires
        holds_at(t, off, s),
        0 <= j <= s.len(),
    ensures
        crate::parse::spec_parse_list(s, j) matches Ok((d, k)) ==> crate::parse::spec_parse_list(t, off + j)
            == Ok::<(Datum, int), AtomParseError>((d, off + k)),
    decreases s.len() - j, 0int,
{
    if j < s.len() && s[j] == '(' {
        assert(t[off + j] == s[j]);
        lemma_items_in(t, off, s, crate::parse::loc(s, j), crate::parse::loc(t, off + j), j + 1, Seq::empty());
    }
}

proof fn lemma_items_in(
    t: Seq<char>,
    off: int,
    s: Seq<char>,
    start: Location,
    start2: Location,
    k: int,
    acc: Seq<Datum>,
)
    requires
        holds_at(t, off, s),
        0 <= k,
    ensures
        list_items(s, start, k, acc) matches Ok((d, m)) ==> list_items(t, start2, off + k, acc) == Ok::<
            (Datum, int),
            AtomParseError,
        >((d, off + m)),
    decreases s.len() - k, 2int,
{
    if k <= s.len() {
        let j = skip_whitespace_from(s, k);
        lemma_skip_bounds(s, k, false);
        lemma_skip_in(t, off, s, k, false);
        if j < s.len() {
            assert(t[off + j] == s[j]);
            if s[j] != ')' {
                lemma_atom_in(t, off, s, j);
                if let Ok((d, j2)) = spec_parse_atom(s, j) {
                    if k < j2 <= s.len() {
                        lemma_items_in(t, off, s, start, start2, j2, acc.push(d));
                    }
                }
            }
        }
    }
}

proof fn lemma_top_in(t: Seq<char>, off: int, s: Seq<char>, k: int, acc: Seq<Datum>)
    requires
        holds_at(t, off, s),
        0 <= k,
    ensures
        top_items(s, k, acc) matches Some(Ok(items)) ==> top_items(t, off + k, acc) == Some(
            Ok::<Seq<Datum>, AtomParseError>(items),
        ),
    decreases s.len() - k,
{
    if k <= s.len() {
        let j = skip_whitespace_from(s, k);
        lemma_skip_bounds(s, k, false);
        lemma_skip_in(t, off, s, k, false);
        if j < s.len() {
            assert(t[off + j] == s[j]);
            if s[j] != ')' {
                lemma_atom_in(t, off, s, j);
                if let Ok((d, j2)) = spec_parse_atom(s, j) {
                    if k < j2 <= s.len() {
                        lemma_top_in(t, off, s, j2, acc.push(d));
                    }
                }
            }
        }
    }
}

/// Skipping through a blank text `p` at the start of `t` ends where skipping from the end of
/// `p`, out of any comment, ends.
proof fn lemma_blank_skip(t: Seq<char>, p: Seq<char>, i: int, ic: bool)
    requires
        p.len() > 0,
        p.last() == '\n',
        p.len() <= t.len(),
        forall|m: int| 0 <= m < p.len() ==> #[trigger] t[m] == p[m],
        0 <= i < p.len(),
        skip_from(p, i, ic) == p.len(),
    ensures
        skip_from(t, i, ic) == skip_from(t, p.len() as int, false),
    decreases p.len() - i,
{
    assert(t[i] == p[i]);
    let c = p[i];
    let ic2 = if c == ';' {
        true
    } else if ic && c == '\n' {
        false
    } else {
        ic
    };
    if i + 1 < p.len() {
        lemma_blank_skip(t, p, i + 1, ic2);
    } else {
        assert(c == '\n');
        assert(spec_is_whitespace('\n'));
    }
}

/// Blank text before a text and a comment after it change nothing of what is read: when
/// reading `s` gives an atom, reading `s` after `p` — nothing, or whitespace and `;` comments
/// ending with a line break — and before `u` — nothing, or a space and a `;` comment without
/// a line break, such as ` ; trailing comment` — gives the same atom.
pub proof fn law_blank_text_around_changes_nothing(p: Seq<char>, s: Seq<char>, u: Seq<char>)
    requires
        spec_parse(s) matches Some(Ok(_)),
        is_blank(p),
        u.len() == 0 || is_trailing_comment(u),
    ensures
        spec_parse(p + s + u) == spec_parse(s),
{
    let t = p + s + u;
    let off = p.len() as int;
    let e = off + s.len();
    assert forall|m: int| 0 <= m < s.len() implies #[trigger] t[off + m] == s[m] by {}
    if u.len() > 0 {
        assert(t[e] == u[0]);
        assert(t[e + 1] == u[1]);
        assert forall|k: int| e <= k < t.len() implies #[trigger] t[k] != '\n' by {
            assert(t[k] == u[k - e]);
        }
    }
    assert(holds_at(t, off, s));
    lemma_top_in(t, off, s, 0, Seq::empty());
    let items = top_items(s, 0, Seq::empty())->Some_0->Ok_0;
    assert(top_items(t, off, Seq::empty()) == Some(Ok::<Seq<Datum>, AtomParseError>(items)));
    if p.len() > 0 {
        assert forall|m: int| 0 <= m < p.len() implies #[trigger] t[m] == p[m] by {}
        lemma_blank_skip(t, p, 0, false);
        let j = skip_whitespace_from(t, off);
        lemma_skip_bounds(t, off, false);
        lemma_skip_bounds(t, 0, false);
        if j < t.len() && t[j] != ')' {
            crate::parse::lemma_atom_progress(t, j);
        }
        assert(top_items(t, 0, Seq::empty()) == top_items(t, off, Seq::empty()));
    } else {
        assert(t =~= s + u);
    }
}

} // verus!
