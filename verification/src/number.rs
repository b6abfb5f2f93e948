use vstd::prelude::*;

verus! {

// The texts that `f64::from_str` accepts. Its documentation gives them as the
// strings that, once lowercased, match
//
//     Float  ::= Sign? ( 'inf' | 'infinity' | 'nan' | Number )
//     Number ::= ( Digit+ | Digit+ '.' Digit* | Digit* '.' Digit+ ) Exp?
//     Exp    ::= 'e' Sign? Digit+
//     Sign   ::= [+-]
//     Digit  ::= [0-9]
//
// The reader decides with `is_float_literal` whether a word is a number.

pub open spec fn is_digit(c: char) -> bool {
    '0' <= c && c <= '9'
}

pub open spec fn all_digits(s: Seq<char>) -> bool {
    forall|k: int| 0 <= k < s.len() ==> #[trigger] is_digit(s[k])
}

pub open spec fn is_sign(c: char) -> bool {
    c == '+' || c == '-'
}

/// The index of the first `a` or `b` in `s`, or `s.len()` when there is none.
pub open spec fn first_of(s: Seq<char>, a: char, b: char) -> int
    decreases s.len(),
{
    if s.len() == 0 {
        0
    } else {
        let k = first_of(s.drop_last(), a, b);
        if k < s.len() - 1 {
            k
        } else if s.last() == a || s.last() == b {
            s.len() - 1
        } else {
            s.len() as int
        }
    }
}

/// `Digit+ | Digit+ '.' Digit* | Digit* '.' Digit+`: digits with at most one
/// dot, and at least one digit.
pub open spec fn is_mantissa(m: Seq<char>) -> bool {
    let p = first_of(m, '.', '.');
    if p == m.len() {
        m.len() >= 1 && all_digits(m)
    } else {
        m.len() >= 2 && all_digits(m.subrange(0, p)) && all_digits(m.subrange(p + 1, m.len() as int))
    }
}

/// `Sign? Digit+`
pub open spec fn is_signed_digits(y: Seq<char>) -> bool {
    let z = if y.len() > 0 && is_sign(y[0]) {
        y.drop_first()
    } else {
        y
    };
    z.len() >= 1 && all_digits(z)
}

/// `Exp?`, where `Exp ::= 'e' Sign? Digit+` (either case of `e`).
pub open spec fn is_exponent(x: Seq<char>) -> bool {
    x.len() == 0 || ((x[0] == 'e' || x[0] == 'E') && is_signed_digits(x.drop_first()))
}

/// `Number`: a mantissa, then an optional exponent, which starts at the first
/// `e` or `E`.
pub open spec fn is_number(t: Seq<char>) -> bool {
    let k = first_of(t, 'e', 'E');
    is_mantissa(t.subrange(0, k)) && is_exponent(t.subrange(k, t.len() as int))
}

/// The code of a character with ASCII capitals made small.
pub open spec fn lower_code(c: char) -> u32 {
    if 'A' <= c && c <= 'Z' {
        (c as u32 + 32) as u32
    } else {
        c as u32
    }
}

/// `t` equals the lowercase word `w` when lowercased.
pub open spec fn equals_ignoring_case(t: Seq<char>, w: Seq<char>) -> bool {
    t.len() == w.len() && forall|k: int| 0 <= k < t.len() ==> lower_code(#[trigger] t[k]) == w[k] as u32
}

pub open spec fn is_special(t: Seq<char>) -> bool {
    equals_ignoring_case(t, seq!['i', 'n', 'f'])
        || equals_ignoring_case(t, seq!['i', 'n', 'f', 'i', 'n', 'i', 't', 'y'])
        || equals_ignoring_case(t, seq!['n', 'a', 'n'])
}

/// Whether `f64::from_str` accepts `s`.
pub open spec fn is_float_literal(s: Seq<char>) -> bool {
    let t = if s.len() > 0 && is_sign(s[0]) {
        s.drop_first()
    } else {
        s
    };
    is_special(t) || is_number(t)
}


/// A sequence in which neither `a` nor `b` occurs has its first `a` or `b`
/// at its end.
proof fn lemma_first_of_absent(s: Seq<char>, a: char, b: char)
    requires
        forall|k: int| 0 <= k < s.len() ==> s[k] != a && s[k] != b,
    ensures
        first_of(s, a, b) == s.len(),
    decreases s.len(),
{
    if s.len() > 0 {
        lemma_first_of_absent(s.drop_last(), a, b);
    }
}

/// `f64::from_str` accepts every nonempty string of the digits `0` to `9`,
/// so the reader takes each such word as a number.
pub proof fn law_digit_strings_are_numbers(s: Seq<char>)
    requires
        s.len() >= 1,
        forall|k: int| 0 <= k < s.len() ==> '0' <= #[trigger] s[k] && s[k] <= '9',
    ensures
        is_float_literal(s),
{
    assert(!is_sign(s[0]));
    lemma_first_of_absent(s, 'e', 'E');
    lemma_first_of_absent(s, '.', '.');
    assert(s.subrange(0, s.len() as int) =~= s);
    assert(all_digits(s));
    assert(is_mantissa(s));
    assert(s.subrange(s.len() as int, s.len() as int) =~= Seq::<char>::empty());
}


/// The first `a` or `b` of a sequence is where the first of them stands.
proof fn lemma_first_of_at(s: Seq<char>, p: int, a: char, b: char)
    requires
        0 <= p < s.len(),
        s[p] == a || s[p] == b,
        forall|k: int| 0 <= k < p ==> s[k] != a && s[k] != b,
    ensures
        first_of(s, a, b) == p,
    decreases s.len(),
{
    if p < s.len() - 1 {
        lemma_first_of_at(s.drop_last(), p, a, b);
    } else {
        lemma_first_of_absent(s.drop_last(), a, b);
    }
}

/// A sign in front of a text that starts with none changes nothing of
/// whether `f64::from_str` accepts it.
pub proof fn law_sign_prefix(c: char, t: Seq<char>)
    requires
        c == '+' || c == '-',
        t.len() == 0 || (t[0] != '+' && t[0] != '-'),
    ensures
        is_float_literal(seq![c] + t) == is_float_literal(t),
{
    assert((seq![c] + t).drop_first() =~= t);
}

/// Digits, a dot and digits, with at least one digit, are a number.
pub proof fn law_decimal_point(a: Seq<char>, b: Seq<char>)
    requires
        a.len() + b.len() >= 1,
        forall|k: int| 0 <= k < a.len() ==> '0' <= #[trigger] a[k] && a[k] <= '9',
        forall|k: int| 0 <= k < b.len() ==> '0' <= #[trigger] b[k] && b[k] <= '9',
    ensures
        is_float_literal(a + seq!['.'] + b),
{
    let s = a + seq!['.'] + b;
    let p = a.len() as int;
    assert forall|k: int| 0 <= k < s.len() implies s[k] != 'e' && s[k] != 'E' by {
        if k < p {
            assert(s[k] == a[k]);
        } else if k > p {
            assert(s[k] == b[k - p - 1]);
        }
    }
    lemma_first_of_absent(s, 'e', 'E');
    assert(s[p] == '.');
    assert forall|k: int| 0 <= k < p implies s[k] != '.' && s[k] != '.' by {
        assert(s[k] == a[k]);
    }
    assert(s.subrange(0, s.len() as int) =~= s);
    lemma_first_of_at(s, p, '.', '.');
    assert(s.subrange(0, p) =~= a);
    assert(s.subrange(p + 1, s.len() as int) =~= b);
    assert(all_digits(a));
    assert(all_digits(b));
    assert(!is_sign(s[0])) by {
        if p > 0 {
            assert(s[0] == a[0]);
        }
    }
    assert(s.subrange(s.len() as int, s.len() as int) =~= Seq::<char>::empty());
}

/// Digits, then `e` or `E`, an optional sign and digits, are a number.
pub proof fn law_exponent(a: Seq<char>, c: char, sign: Seq<char>, x: Seq<char>)
    requires
        a.len() >= 1,
        x.len() >= 1,
        c == 'e' || c == 'E',
        sign == Seq::<char>::empty() || sign == seq!['+'] || sign == seq!['-'],
        forall|k: int| 0 <= k < a.len() ==> '0' <= #[trigger] a[k] && a[k] <= '9',
        forall|k: int| 0 <= k < x.len() ==> '0' <= #[trigger] x[k] && x[k] <= '9',
    ensures
        is_float_literal(a + seq![c] + sign + x),
{
    let s = a + seq![c] + sign + x;
    let p = a.len() as int;
    assert(s[p] == c);
    assert forall|k: int| 0 <= k < p implies s[k] != 'e' && s[k] != 'E' by {
        assert(s[k] == a[k]);
    }
    lemma_first_of_at(s, p, 'e', 'E');
    assert(s.subrange(0, p) =~= a);
    lemma_first_of_absent(a, '.', '.');
    assert(a.subrange(0, a.len() as int) =~= a);
    assert(all_digits(a));
    let ex = s.subrange(p, s.len() as int);
    assert(ex[0] == c);
    let y = ex.drop_first();
    assert(y =~= sign + x);
    if sign.len() > 0 {
        assert(y.drop_first() =~= x);
    } else {
        assert(y =~= x);
    }
    assert(all_digits(x));
    assert(s[0] == a[0]);
}

/// `inf` and `nan`, in any mix of cases, are numbers.
pub proof fn law_inf_and_nan(c0: char, c1: char, c2: char)
    requires
        c0 == 'i' || c0 == 'I',
        c1 == 'n' || c1 == 'N',
        c2 == 'f' || c2 == 'F',
    ensures
        is_float_literal(seq![c0, c1, c2]),
        is_float_literal(seq![c1, if c0 == 'i' { 'a' } else { 'A' }, c1]),
{
    assert(equals_ignoring_case(seq![c0, c1, c2], seq!['i', 'n', 'f']));
    let nan = seq![c1, if c0 == 'i' { 'a' } else { 'A' }, c1];
    assert(equals_ignoring_case(nan, seq!['n', 'a', 'n']));
}

proof fn lemma_first_of_bounds(s: Seq<char>, a: char, b: char)
    ensures
        0 <= first_of(s, a, b) <= s.len(),
        first_of(s, a, b) < s.len() ==> (s[first_of(s, a, b)] == a || s[first_of(s, a, b)] == b),
    decreases s.len(),
{
    if s.len() > 0 {
        lemma_first_of_bounds(s.drop_last(), a, b);
    }
}

/// The characters that can occur in a text that `f64::from_str` accepts.
pub open spec fn float_char(c: char) -> bool {
    ||| '0' <= c && c <= '9'
    ||| c == '+' || c == '-' || c == '.' || c == 'e' || c == 'E'
    ||| c == 'i' || c == 'I' || c == 'n' || c == 'N' || c == 'f' || c == 'F'
    ||| c == 't' || c == 'T' || c == 'y' || c == 'Y' || c == 'a' || c == 'A'
}

proof fn lemma_case_chars(t: Seq<char>, w: Seq<char>)
    requires
        equals_ignoring_case(t, w),
        forall|k: int|
            0 <= k < w.len() ==> #[trigger] w[k] == 'i' || w[k] == 'n' || w[k] == 'f' || w[k] == 't' || w[k]
                == 'y' || w[k] == 'a',
    ensures
        forall|k: int| 0 <= k < t.len() ==> float_char(#[trigger] t[k]),
{
    assert forall|k: int| 0 <= k < t.len() implies float_char(#[trigger] t[k]) by {
        assert(lower_code(t[k]) == w[k] as u32);
        let c = t[k];
        vstd::utf8::char_u32_cast(c, c as u32);
        if 'A' <= c && c <= 'Z' {
            assert(c as u32 + 32 == w[k] as u32);
            let u = w[k];
            if u == 'i' {
                vstd::utf8::char_u32_cast('I', 'I' as u32);
                assert(c as u32 == 'I' as u32);
            } else if u == 'n' {
                vstd::utf8::char_u32_cast('N', 'N' as u32);
                assert(c as u32 == 'N' as u32);
            } else if u == 'f' {
                vstd::utf8::char_u32_cast('F', 'F' as u32);
                assert(c as u32 == 'F' as u32);
            } else if u == 't' {
                vstd::utf8::char_u32_cast('T', 'T' as u32);
                assert(c as u32 == 'T' as u32);
            } else if u == 'y' {
                vstd::utf8::char_u32_cast('Y', 'Y' as u32);
                assert(c as u32 == 'Y' as u32);
            } else {
                vstd::utf8::char_u32_cast('A', 'A' as u32);
                assert(c as u32 == 'A' as u32);
            }
        } else {
            assert(c as u32 == w[k] as u32);
            let u = w[k];
            if u == 'i' {
                vstd::utf8::char_u32_cast('i', 'i' as u32);
                assert(c as u32 == 'i' as u32);
            } else if u == 'n' {
                vstd::utf8::char_u32_cast('n', 'n' as u32);
                assert(c as u32 == 'n' as u32);
            } else if u == 'f' {
                vstd::utf8::char_u32_cast('f', 'f' as u32);
                assert(c as u32 == 'f' as u32);
            } else if u == 't' {
                vstd::utf8::char_u32_cast('t', 't' as u32);
                assert(c as u32 == 't' as u32);
            } else if u == 'y' {
                vstd::utf8::char_u32_cast('y', 'y' as u32);
                assert(c as u32 == 'y' as u32);
            } else {
                vstd::utf8::char_u32_cast('a', 'a' as u32);
                assert(c as u32 == 'a' as u32);
            }
        }
    }
}

/// `f64::from_str` refuses the empty text, and every text with a character
/// that is none of the digits, the signs, the dot, `e` and the letters of
/// `inf`, `infinity` and `nan` in either case.
pub proof fn law_float_chars(s: Seq<char>)
    ensures
        is_float_literal(s) ==> s.len() >= 1 && forall|k: int| 0 <= k < s.len() ==> float_char(#[trigger] s[k]),
{
    if is_float_literal(s) {
        let t = if s.len() > 0 && is_sign(s[0]) {
            s.drop_first()
        } else {
            s
        };
        assert forall|k: int| 0 <= k < t.len() implies float_char(#[trigger] t[k]) by {
            if is_special(t) {
                let inf = seq!['i', 'n', 'f'];
                let infinity = seq!['i', 'n', 'f', 'i', 'n', 'i', 't', 'y'];
                let nan = seq!['n', 'a', 'n'];
                if equals_ignoring_case(t, inf) {
                    lemma_case_chars(t, inf);
                } else if equals_ignoring_case(t, infinity) {
                    lemma_case_chars(t, infinity);
                } else {
                    lemma_case_chars(t, nan);
                }
            } else {
                let e = first_of(t, 'e', 'E');
                lemma_first_of_bounds(t, 'e', 'E');
                let m = t.subrange(0, e);
                let x = t.subrange(e, t.len() as int);
                if k < e {
                    assert(t[k] == m[k]);
                    let p = first_of(m, '.', '.');
                    lemma_first_of_bounds(m, '.', '.');
                    if p == m.len() {
                        assert(is_digit(m[k]));
                    } else if k < p {
                        assert(m.subrange(0, p)[k] == m[k]);
                        assert(is_digit(m.subrange(0, p)[k]));
                    } else if k > p {
                        assert(m.subrange(p + 1, m.len() as int)[k - p - 1] == m[k]);
                        assert(is_digit(m.subrange(p + 1, m.len() as int)[k - p - 1]));
                    }
                } else {
                    assert(t[k] == x[k - e]);
                    if k > e {
                        let y = x.drop_first();
                        assert(x[k - e] == y[k - e - 1]);
                        if y.len() > 0 && is_sign(y[0]) {
                            if k - e - 1 > 0 {
                                assert(y.drop_first()[k - e - 2] == y[k - e - 1]);
                                assert(is_digit(y.drop_first()[k - e - 2]));
                            }
                        } else {
                            assert(is_digit(y[k - e - 1]));
                        }
                    }
                }
            }
        }
        if s.len() > 0 && is_sign(s[0]) {
            assert forall|k: int| 0 <= k < s.len() implies float_char(#[trigger] s[k]) by {
                if k > 0 {
                    assert(s[k] == t[k - 1]);
                }
            }
        }
        if s.len() == 0 {
            assert(!is_special(s));
            assert(first_of(s, 'e', 'E') == 0);
            assert(s.subrange(0, 0) =~= s);
            assert(first_of(s.subrange(0, 0), '.', '.') == 0);
        }
    }
}

fn digit(c: char) -> (r: bool)
    ensures
        r == is_digit(c),
{
    '0' <= c && c <= '9'
}

/// Whether `v[lo..hi]` is all digits.
fn digits_between(v: &Vec<char>, lo: usize, hi: usize) -> (r: bool)
    requires
        lo <= hi <= v@.len(),
    ensures
        r == all_digits(v@.subrange(lo as int, hi as int)),
{
    let mut k = lo;
    while k < hi
        invariant
            lo <= k <= hi <= v@.len(),
            all_digits(v@.subrange(lo as int, k as int)),
        decreases hi - k,
    {
        if !digit(v[k]) {
            assert(v@.subrange(lo as int, hi as int)[k - lo] == v@[k as int]);
            return false;
        }
        assert(v@.subrange(lo as int, k + 1) =~= v@.subrange(lo as int, k as int).push(v@[k as int]));
        k = k + 1;
    }
    true
}

/// The index of the first `a` or `b` in `v[lo..hi]`, counted from `lo`.
fn first_between(v: &Vec<char>, lo: usize, hi: usize, a: char, b: char) -> (r: usize)
    requires
        lo <= hi <= v@.len(),
    ensures
        r as int == first_of(v@.subrange(lo as int, hi as int), a, b),
        r <= hi - lo,
{
    let ghost s = v@.subrange(lo as int, hi as int);
    let mut k = lo;
    while k < hi
        invariant
            lo <= k <= hi <= v@.len(),
            s == v@.subrange(lo as int, hi as int),
            first_of(s.subrange(0, k - lo), a, b) == k - lo,
        decreases hi - k,
    {
        assert(s.subrange(0, k - lo + 1).drop_last() =~= s.subrange(0, k - lo));
        if v[k] == a || v[k] == b {
            proof {
                lemma_first_of_prefix(s, k - lo + 1, a, b);
            }
            return k - lo;
        }
        k = k + 1;
    }
    assert(s.subrange(0, hi - lo) =~= s);
    hi - lo
}

/// Once a prefix holds an `a` or a `b`, the first one of the whole sequence is
/// the first one of the prefix.
proof fn lemma_first_of_prefix(s: Seq<char>, n: int, a: char, b: char)
    requires
        0 <= n <= s.len(),
        first_of(s.subrange(0, n), a, b) < n,
    ensures
        first_of(s, a, b) == first_of(s.subrange(0, n), a, b),
    decreases s.len() - n,
{
    if n < s.len() {
        assert(s.subrange(0, n + 1).drop_last() =~= s.subrange(0, n));
        lemma_first_of_prefix(s, n + 1, a, b);
    } else {
        assert(s.subrange(0, n) =~= s);
    }
}

fn mantissa_between(v: &Vec<char>, lo: usize, hi: usize) -> (r: bool)
    requires
        lo <= hi <= v@.len(),
    ensures
        r == is_mantissa(v@.subrange(lo as int, hi as int)),
{
    let ghost m = v@.subrange(lo as int, hi as int);
    let p = first_between(v, lo, hi, '.', '.');
    if p == hi - lo {
        hi - lo >= 1 && digits_between(v, lo, hi)
    } else {
        assert(m.subrange(0, p as int) =~= v@.subrange(lo as int, lo + p));
        assert(m.subrange(p + 1, m.len() as int) =~= v@.subrange(lo + p + 1, hi as int));
        hi - lo >= 2 && digits_between(v, lo, lo + p) && digits_between(v, lo + p + 1, hi)
    }
}

fn exponent_between(v: &Vec<char>, lo: usize, hi: usize) -> (r: bool)
    requires
        lo <= hi <= v@.len(),
    ensures
        r == is_exponent(v@.subrange(lo as int, hi as int)),
{
    let ghost x = v@.subrange(lo as int, hi as int);
    if lo == hi {
        return true;
    }
    if !(v[lo] == 'e' || v[lo] == 'E') {
        return false;
    }
    let ghost y = x.drop_first();
    assert(y =~= v@.subrange(lo + 1, hi as int));
    if lo + 1 < hi && (v[lo + 1] == '+' || v[lo + 1] == '-') {
        assert(y.drop_first() =~= v@.subrange(lo + 2, hi as int));
        lo + 2 < hi && digits_between(v, lo + 2, hi)
    } else {
        lo + 1 < hi && digits_between(v, lo + 1, hi)
    }
}

fn lower(c: char) -> (r: u32)
    ensures
        r == lower_code(c),
{
    if 'A' <= c && c <= 'Z' {
        c as u32 + 32
    } else {
        c as u32
    }
}

fn special_between(v: &Vec<char>, lo: usize, hi: usize) -> (r: bool)
    requires
        lo <= hi <= v@.len(),
    ensures
        r == is_special(v@.subrange(lo as int, hi as int)),
{
    let ghost t = v@.subrange(lo as int, hi as int);
    let n = hi - lo;
    if n == 3 {
        let inf = lower(v[lo]) == 'i' as u32 && lower(v[lo + 1]) == 'n' as u32 && lower(v[lo + 2])
            == 'f' as u32;
        let nan = lower(v[lo]) == 'n' as u32 && lower(v[lo + 1]) == 'a' as u32 && lower(v[lo + 2])
            == 'n' as u32;
        proof {
            let w1 = seq!['i', 'n', 'f'];
            let w3 = seq!['n', 'a', 'n'];
            assert(t[0] == v@[lo as int] && t[1] == v@[lo + 1] && t[2] == v@[lo + 2]);
            if inf {
                assert forall|k: int| 0 <= k < t.len() implies lower_code(#[trigger] t[k]) == w1[k] as u32 by {
                    assert(k == 0 || k == 1 || k == 2);
                }
            }
            if nan {
                assert forall|k: int| 0 <= k < t.len() implies lower_code(#[trigger] t[k]) == w3[k] as u32 by {
                    assert(k == 0 || k == 1 || k == 2);
                }
            }
            if equals_ignoring_case(t, w1) {
                assert(lower_code(t[0]) == w1[0] as u32);
                assert(lower_code(t[1]) == w1[1] as u32);
                assert(lower_code(t[2]) == w1[2] as u32);
            }
            if equals_ignoring_case(t, w3) {
                assert(lower_code(t[0]) == w3[0] as u32);
                assert(lower_code(t[1]) == w3[1] as u32);
                assert(lower_code(t[2]) == w3[2] as u32);
            }
        }
        inf || nan
    } else if n == 8 {
        let r = lower(v[lo]) == 'i' as u32 && lower(v[lo + 1]) == 'n' as u32 && lower(v[lo + 2])
            == 'f' as u32 && lower(v[lo + 3]) == 'i' as u32 && lower(v[lo + 4]) == 'n' as u32
            && lower(v[lo + 5]) == 'i' as u32 && lower(v[lo + 6]) == 't' as u32 && lower(v[lo + 7])
            == 'y' as u32;
        proof {
            let w2 = seq!['i', 'n', 'f', 'i', 'n', 'i', 't', 'y'];
            assert forall|k: int| 0 <= k < 8 implies t[k] == v@[lo + k] by {}
            if r {
                assert forall|k: int| 0 <= k < t.len() implies lower_code(#[trigger] t[k]) == w2[k] as u32 by {
                    assert(k == 0 || k == 1 || k == 2 || k == 3 || k == 4 || k == 5 || k == 6 || k == 7);
                }
            }
            if equals_ignoring_case(t, w2) {
                assert(lower_code(t[0]) == w2[0] as u32);
                assert(lower_code(t[1]) == w2[1] as u32);
                assert(lower_code(t[2]) == w2[2] as u32);
                assert(lower_code(t[3]) == w2[3] as u32);
                assert(lower_code(t[4]) == w2[4] as u32);
                assert(lower_code(t[5]) == w2[5] as u32);
                assert(lower_code(t[6]) == w2[6] as u32);
                assert(lower_code(t[7]) == w2[7] as u32);
            }
        }
        r
    } else {
        false
    }
}

/// Whether `f64::from_str` accepts the characters `v`.
pub fn float_literal(v: &Vec<char>) -> (r: bool)
    ensures
        r == is_float_literal(v@),
{
    let len = v.len();
    let lo: usize = if len > 0 && (v[0] == '+' || v[0] == '-') {
        1
    } else {
        0
    };
    let ghost t = v@.subrange(lo as int, len as int);
    assert(t =~= (if v@.len() > 0 && is_sign(v@[0]) {
        v@.drop_first()
    } else {
        v@
    }));
    if special_between(v, lo, len) {
        return true;
    }
    let k = first_between(v, lo, len, 'e', 'E');
    assert(t.subrange(0, k as int) =~= v@.subrange(lo as int, lo + k));
    assert(t.subrange(k as int, t.len() as int) =~= v@.subrange(lo + k, len as int));
    mantissa_between(v, lo, lo + k) && exponent_between(v, lo + k, len)
}

} // verus!
