use vstd::prelude::*;

verus! {

/// The characters with the Unicode `White_Space` property.
pub open spec fn spec_is_whitespace(c: char) -> bool {
    ||| '\t' <= c <= '\r'
    ||| c == ' '
    ||| c == '\u{85}'
    ||| c == '\u{A0}'
    ||| c == '\u{1680}'
    ||| '\u{2000}' <= c <= '\u{200A}'
    ||| c == '\u{2028}'
    ||| c == '\u{2029}'
    ||| c == '\u{202F}'
    ||| c == '\u{205F}'
    ||| c == '\u{3000}'
}

/// Whether `c` has the Unicode `White_Space` property.
#[verifier::when_used_as_spec(spec_is_whitespace)]
pub fn is_whitespace(c: char) -> (b: bool)
    ensures
        b == spec_is_whitespace(c),
{
    ('\t' <= c && c <= '\r') || c == ' ' || c == '\u{85}' || c == '\u{A0}' || c == '\u{1680}'
        || ('\u{2000}' <= c && c <= '\u{200A}') || c == '\u{2028}' || c == '\u{2029}'
        || c == '\u{202F}' || c == '\u{205F}' || c == '\u{3000}'
}

pub open spec fn spec_is_digit(c: char) -> bool {
    '0' <= c <= '9'
}

/// Whether `c` is one of the ASCII digits `0`..`9`.
#[verifier::when_used_as_spec(spec_is_digit)]
pub fn is_digit(c: char) -> (b: bool)
    ensures
        b == spec_is_digit(c),
{
    '0' <= c && c <= '9'
}

/// The characters that a numeral may be made of.
pub open spec fn spec_is_numeral_char(c: char) -> bool {
    spec_is_digit(c) || c == '.' || c == 'e' || c == 'E' || c == '-' || c == '+'
}

#[verifier::when_used_as_spec(spec_is_numeral_char)]
pub fn is_numeral_char(c: char) -> (b: bool)
    ensures
        b == spec_is_numeral_char(c),
{
    is_digit(c) || c == '.' || c == 'e' || c == 'E' || c == '-' || c == '+'
}

pub open spec fn is_sign(c: char) -> bool {
    c == '+' || c == '-'
}

pub open spec fn is_exponent_mark(c: char) -> bool {
    c == 'e' || c == 'E'
}

/// Every character of `s` is a digit.
pub open spec fn all_digits(s: Seq<char>) -> bool {
    forall|i: int| 0 <= i < s.len() ==> spec_is_digit(#[trigger] s[i])
}

/// `Digit+ | Digit+ '.' Digit* | Digit* '.' Digit+`
pub open spec fn is_mantissa(m: Seq<char>) -> bool {
    ||| m.len() > 0 && all_digits(m)
    ||| exists|p: int|
        0 <= p < m.len() && m[p] == '.' && m.len() > 1 && all_digits(#[trigger] m.take(p))
            && all_digits(m.skip(p + 1))
}

/// `( [eE] [+-]? Digit+ )?`
pub open spec fn is_exponent(e: Seq<char>) -> bool {
    ||| e.len() == 0
    ||| e.len() > 1 && is_exponent_mark(e[0]) && all_digits(e.skip(1))
    ||| e.len() > 2 && is_exponent_mark(e[0]) && is_sign(e[1]) && all_digits(e.skip(2))
}

/// The decimal numbers of the grammar that `str::parse::<f64>` documents:
/// `[+-]? ( Digit+ | Digit+ '.' Digit* | Digit* '.' Digit+ ) ( [eE] [+-]? Digit+ )?`.
pub open spec fn is_decimal_literal(s: Seq<char>) -> bool {
    exists|k: int|
        0 <= k <= unsigned_part(s).len() && is_mantissa(#[trigger] unsigned_part(s).take(k))
            && is_exponent(unsigned_part(s).skip(k))
}

/// `s` without its leading sign, if it has one.
pub open spec fn unsigned_part(s: Seq<char>) -> Seq<char> {
    if s.len() > 0 && is_sign(s[0]) { s.skip(1) } else { s }
}

} // verus!

verus! {

/// Whether every character of `s[lo..hi]` is a digit.
fn all_digits_between(s: &Vec<char>, lo: usize, hi: usize) -> (b: bool)
    requires
        lo <= hi <= s@.len(),
    ensures
        b == all_digits(s@.subrange(lo as int, hi as int)),
{
    let mut i = lo;
    while i < hi
        invariant
            lo <= i <= hi <= s@.len(),
            all_digits(s@.subrange(lo as int, i as int)),
        decreases hi - i,
    {
        if !is_digit(s[i]) {
            assert(s@.subrange(lo as int, hi as int)[i - lo] == s@[i as int]);
            return false;
        }
        assert forall|j: int| 0 <= j < i + 1 - lo implies spec_is_digit(
            #[trigger] s@.subrange(lo as int, i + 1)[j],
        ) by {
            if j < i - lo {
                assert(s@.subrange(lo as int, i + 1)[j] == s@.subrange(lo as int, i as int)[j]);
            }
        }
        i = i + 1;
    }
    true
}

/// First index in `lo..hi` holding `c`, or `hi` when there is none.
fn find_char(s: &Vec<char>, lo: usize, hi: usize, c: char) -> (k: usize)
    requires
        lo <= hi <= s@.len(),
    ensures
        lo <= k <= hi,
        k < hi ==> s@[k as int] == c,
        forall|j: int| lo <= j < k ==> s@[j] != c,
{
    let mut k = lo;
    while k < hi && s[k] != c
        invariant
            lo <= k <= hi <= s@.len(),
            forall|j: int| lo <= j < k ==> s@[j] != c,
        decreases hi - k,
    {
        k = k + 1;
    }
    k
}

/// Whether `m = s[lo..hi]` is a mantissa: `Digit+ | Digit+ '.' Digit* | Digit* '.' Digit+`.
fn check_mantissa(s: &Vec<char>, lo: usize, hi: usize) -> (b: bool)
    requires
        lo <= hi <= s@.len(),
    ensures
        b == is_mantissa(s@.subrange(lo as int, hi as int)),
{
    let ghost m = s@.subrange(lo as int, hi as int);
    let p = find_char(s, lo, hi, '.');
    if p == hi {
        let r = hi > lo && all_digits_between(s, lo, hi);
        proof {
            assert forall|q: int| 0 <= q < m.len() && m[q] == '.' implies !(m.len() > 1 && all_digits(
                #[trigger] m.take(q),
            ) && all_digits(m.skip(q + 1))) by {
                assert(m[q] == s@[lo + q]);
            }
            if !r && hi > lo {
                assert(!all_digits(m));
            }
        }
        r
    } else {
        let before = all_digits_between(s, lo, p);
        let after = all_digits_between(s, p + 1, hi);
        let r = before && after && hi - lo > 1;
        proof {
            let q = p - lo;
            assert(m[q] == '.');
            assert(m.take(q) =~= s@.subrange(lo as int, p as int));
            assert(m.skip(q + 1) =~= s@.subrange(p + 1, hi as int));
            assert(!all_digits(m)) by {
                assert(!spec_is_digit(m[q]));
            }
            if !r {
                assert forall|q2: int| 0 <= q2 < m.len() && m[q2] == '.' implies !(m.len() > 1
                    && all_digits(#[trigger] m.take(q2)) && all_digits(m.skip(q2 + 1))) by {
                    assert(m[q2] == s@[lo + q2]);
                    if q2 < q {
                    } else if q2 > q {
                        assert(m.take(q2)[q] == '.');
                    }
                }
            }
        }
        r
    }
}

/// Whether `e = s[lo..hi]` is an exponent part: empty, or `[eE] [+-]? Digit+`.
fn check_exponent(s: &Vec<char>, lo: usize, hi: usize) -> (b: bool)
    requires
        lo <= hi <= s@.len(),
    ensures
        b == is_exponent(s@.subrange(lo as int, hi as int)),
{
    let ghost e = s@.subrange(lo as int, hi as int);
    if lo == hi {
        return true;
    }
    if !(s[lo] == 'e' || s[lo] == 'E') {
        assert(e[0] == s@[lo as int]);
        return false;
    }
    assert(e[0] == s@[lo as int]);
    if hi - lo >= 2 && (s[lo + 1] == '+' || s[lo + 1] == '-') {
        assert(e[1] == s@[lo + 1]);
        assert(e.skip(2) =~= s@.subrange(lo + 2, hi as int));
        assert(!all_digits(e.skip(1))) by {
            assert(e.skip(1)[0] == e[1]);
        }
        hi - lo > 2 && all_digits_between(s, lo + 2, hi)
    } else {
        assert(e.skip(1) =~= s@.subrange(lo + 1, hi as int));
        if hi - lo >= 2 {
            assert(e[1] == s@[lo + 1]);
        }
        hi - lo > 1 && all_digits_between(s, lo + 1, hi)
    }
}

/// Whether the characters of `s` form a decimal number that `str::parse::<f64>` accepts.
pub fn check_decimal_literal(s: &Vec<char>) -> (b: bool)
    ensures
        b == is_decimal_literal(s@),
{
    let n = s.len();
    let start: usize = if n > 0 && (s[0] == '+' || s[0] == '-') { 1 } else { 0 };
    let ghost body = unsigned_part(s@);
    assert(body =~= s@.subrange(start as int, n as int));
    let k1 = find_char(s, start, n, 'e');
    let k2 = find_char(s, start, n, 'E');
    let k = if k1 < k2 { k1 } else { k2 };
    let r = check_mantissa(s, start, k) && check_exponent(s, k, n);
    proof {
        let kk = k - start;
        assert(body.take(kk) =~= s@.subrange(start as int, k as int));
        assert(body.skip(kk) =~= s@.subrange(k as int, n as int));
        assert forall|k3: int|
            0 <= k3 <= body.len() && is_mantissa(#[trigger] body.take(k3)) && is_exponent(
                body.skip(k3),
            ) implies k3 == kk by {
            if k3 < kk {
                assert(body.skip(k3)[0] == s@[start + k3]);
            } else if k3 > kk {
                let m3 = body.take(k3);
                assert(m3[kk] == s@[k as int]);
                assert(is_exponent_mark(m3[kk]));
                assert(!all_digits(m3)) by {
                    assert(!spec_is_digit(m3[kk]));
                }
                if exists|p: int|
                    0 <= p < m3.len() && m3[p] == '.' && m3.len() > 1 && all_digits(
                        #[trigger] m3.take(p),
                    ) && all_digits(m3.skip(p + 1)) {
                    let p = choose|p: int|
                        0 <= p < m3.len() && m3[p] == '.' && m3.len() > 1 && all_digits(
                            #[trigger] m3.take(p),
                        ) && all_digits(m3.skip(p + 1));
                    if kk < p {
                        assert(m3.take(p)[kk] == m3[kk]);
                    } else {
                        assert(m3.skip(p + 1)[kk - p - 1] == m3[kk]);
                    }
                }
            }
        }
        assert(forall|j: int| start <= j < k ==> !is_exponent_mark(#[trigger] s@[j]));
        if k < n {
            assert(is_exponent_mark(s@[k as int]));
        }
        if r {
            assert(is_mantissa(body.take(kk)) && is_exponent(body.skip(kk)));
        } else if is_decimal_literal(s@) {
            let k3 = choose|k3: int|
                0 <= k3 <= body.len() && is_mantissa(#[trigger] body.take(k3)) && is_exponent(
                    body.skip(k3),
                );
            assert(k3 == kk);
        }
    }
    r
}

} // verus!
