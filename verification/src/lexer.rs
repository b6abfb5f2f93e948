use vstd::prelude::*;
use vstd::string::StringSliceAdditionalSpecFns;
use vstd::utf8::*;

use crate::env::{add_word, find_word, DictView, ZfEnv};
use crate::number::{float_literal, is_float_literal};
use crate::text::{
    char_is_whitespace, chars_of, decimal, is_white_space, join_str, push_char, push_decimal,
    str_eq, string_of, strip_underscores, without_underscores,
};
use crate::token::{tokens_view, NumberView, TokenView, ZfNumber, ZfToken};

verus! {

/// The characters that end a name.
pub open spec fn is_nonsymb(c: char) -> bool {
    ||| c == '{'
    ||| c == '}'
    ||| c == '('
    ||| c == ')'
    ||| c == '['
    ||| c == ']'
    ||| c == '"'
    ||| c == ' '
    ||| c == '\t'
    ||| c == '\n'
    ||| c == '\r'
    ||| c == '\\'
    ||| c == ';'
    ||| c == '&'
    ||| c == '#'
    ||| c == '$'
    ||| c == '@'
    ||| c == '!'
}

pub fn nonsymb(c: char) -> (r: bool)
    ensures
        r == is_nonsymb(c),
{
    c == '{' || c == '}' || c == '(' || c == ')' || c == '[' || c == ']' || c == '"' || c == ' '
        || c == '\t' || c == '\n' || c == '\r' || c == '\\' || c == ';' || c == '&' || c == '#'
        || c == '$' || c == '@' || c == '!'
}

/// What ends a run of characters that the reader takes in one piece.
#[derive(Clone, Copy)]
pub enum Stop {
    At(char),
    WhiteSpace,
    NonSymbol,
}

pub open spec fn stops(stop: Stop, c: char) -> bool {
    match stop {
        Stop::At(x) => c == x,
        Stop::WhiteSpace => is_white_space(c),
        Stop::NonSymbol => is_nonsymb(c),
    }
}

fn stops_at(stop: Stop, c: char) -> (r: bool)
    ensures
        r == stops(stop, c),
{
    match stop {
        Stop::At(x) => c == x,
        Stop::WhiteSpace => char_is_whitespace(c),
        Stop::NonSymbol => nonsymb(c),
    }
}

/// Where a run that starts at `c` ends: at the first stopping character from
/// `c` on, or at `c` itself when `c` is past the end.
pub open spec fn eat_end(chs: Seq<char>, c: int, stop: Stop) -> int
    decreases chs.len() - c,
{
    if 0 <= c < chs.len() {
        if stops(stop, chs[c]) {
            c
        } else {
            eat_end(chs, c + 1, stop)
        }
    } else {
        c
    }
}

/// The characters of a run from `c` to `e`.
pub open spec fn eat_text(chs: Seq<char>, c: int, e: int) -> Seq<char> {
    if c < chs.len() {
        chs.subrange(c, e)
    } else {
        seq![]
    }
}

pub proof fn lemma_eat_end(chs: Seq<char>, c: int, stop: Stop)
    requires
        0 <= c,
    ensures
        c <= eat_end(chs, c, stop),
        c <= chs.len() ==> eat_end(chs, c, stop) <= chs.len(),
        c > chs.len() ==> eat_end(chs, c, stop) == c,
        eat_end(chs, c, stop) < chs.len() ==> stops(stop, chs[eat_end(chs, c, stop)]),
    decreases chs.len() - c,
{
    if 0 <= c < chs.len() && !stops(stop, chs[c]) {
        lemma_eat_end(chs, c + 1, stop);
    }
}

/// Takes characters from `c` on until one that `stop` stops at: returns them,
/// the index where it stopped, and whether it ran off the end instead.
pub fn eat(chs: &Vec<char>, c: usize, stop: Stop) -> (r: (String, usize, bool))
    ensures
        r.1 == eat_end(chs@, c as int, stop),
        r.0@ == eat_text(chs@, c as int, r.1 as int),
        r.2 == (r.1 >= chs@.len()),
{
    let mut buf = String::new();
    let mut k = c;
    let mut early_return = true;
    proof {
        lemma_eat_end(chs@, c as int, stop);
    }
    while k < chs.len()
        invariant_except_break
            c <= k,
            k <= chs@.len() || k == c,
            eat_end(chs@, k as int, stop) == eat_end(chs@, c as int, stop),
            buf@ == eat_text(chs@, c as int, k as int),
            early_return,
        ensures
            eat_end(chs@, k as int, stop) == eat_end(chs@, c as int, stop),
            k == eat_end(chs@, c as int, stop),
            buf@ == eat_text(chs@, c as int, k as int),
            early_return == (k >= chs@.len()),
        decreases chs.len() - k,
    {
        if stops_at(stop, chs[k]) {
            early_return = false;
            break;
        } else {
            push_char(&mut buf, chs[k]);
            k = k + 1;
            assert(buf@ =~= eat_text(chs@, c as int, k as int));
        }
    }
    proof {
        if c >= chs@.len() {
            assert(buf@ =~= seq![]);
        }
    }
    (buf, k, early_return)
}

/// The outcome of reading a piece of source text.
pub enum Lexed {
    /// The index where reading stopped, and the tokens read.
    Done(usize, Vec<ZfToken>),
    /// The reader refused the text with this message.
    Failed(String),
    /// The text is one on which the reader panics or never stops.
    Stuck,
}

pub enum LexView {
    Done(nat, Seq<TokenView>),
    Failed(Seq<char>),
    Stuck,
}

impl View for Lexed {
    type V = LexView;

    open spec fn view(&self) -> LexView {
        match self {
            Lexed::Done(n, toks) => LexView::Done(*n as nat, tokens_view(toks@)),
            Lexed::Failed(m) => LexView::Failed(m@),
            Lexed::Stuck => LexView::Stuck,
        }
    }
}

/// The text that follows byte `b` of `input`, when `b` is a character
/// boundary of its UTF-8 encoding (slicing `&input[b..]` panics otherwise).
pub open spec fn byte_suffix(input: Seq<char>, b: int) -> Option<Seq<char>> {
    let bytes = encode_utf8(input);
    if is_char_boundary(bytes, b) {
        Some(decode_utf8(bytes.subrange(b, bytes.len() as int)))
    } else {
        None
    }
}

pub proof fn lemma_byte_suffix(input: Seq<char>, b: int)
    requires
        is_char_boundary(encode_utf8(input), b),
    ensures
        0 <= b <= encode_utf8(input).len(),
        byte_suffix(input, b) matches Some(s) && encode_utf8(s) == encode_utf8(input).subrange(
            b,
            encode_utf8(input).len() as int,
        ),
{
    broadcast use encode_utf8_valid_utf8, valid_utf8_split, decode_utf8_encode_utf8;

    let bytes = encode_utf8(input);
    if b != 0 {
        if b < 0 || bytes.len() < b {
            assert(!is_char_boundary(bytes, b));
        }
    }
    assert(valid_utf8(bytes.subrange(b, bytes.len() as int)));
}

pub proof fn lemma_chars_fit_in_bytes(s: Seq<char>)
    ensures
        s.len() <= encode_utf8(s).len(),
    decreases s.len(),
{
    if s.len() > 0 {
        lemma_chars_fit_in_bytes(s.drop_first());
    }
}

/// The first choice of name for a quotation, given the size of the
/// dictionary: `[` and `]` around the size in decimal.
pub open spec fn quote_name(k: nat) -> Seq<char> {
    seq!['['] + decimal(k) + seq![']']
}

/// The length of the longest name in the dictionary.
pub open spec fn max_name_len(d: DictView) -> nat
    decreases d.len(),
{
    if d.len() == 0 {
        0
    } else {
        let m = max_name_len(d.drop_last());
        if d.last().0.len() > m {
            d.last().0.len()
        } else {
            m
        }
    }
}

/// The name under which the reader files the body of a quotation: the first
/// choice when no word has it, else that name padded with `]` to one
/// character more than the longest name of the dictionary. Either way no
/// word of `d` has it.
pub open spec fn fresh_quote_name(d: DictView) -> Seq<char> {
    let base = quote_name(d.len());
    if find_word(d, base) is None {
        base
    } else {
        base + Seq::new((max_name_len(d) + 1 - base.len()) as nat, |k: int| ']')
    }
}

pub proof fn lemma_max_name_len(d: DictView)
    ensures
        forall|j: int| 0 <= j < d.len() ==> (#[trigger] d[j]).0.len() <= max_name_len(d),
    decreases d.len(),
{
    if d.len() > 0 {
        lemma_max_name_len(d.drop_last());
        assert forall|j: int| 0 <= j < d.len() implies (#[trigger] d[j]).0.len() <= max_name_len(d) by {
            if j < d.len() - 1 {
                assert(d[j] == d.drop_last()[j]);
            }
        }
    }
}

/// No word of the dictionary has the name that a quotation gets.
pub proof fn lemma_fresh_quote_name(d: DictView)
    ensures
        find_word(d, fresh_quote_name(d)) is None,
{
    crate::env::lemma_find_word(d, quote_name(d.len()));
    crate::env::lemma_find_word(d, fresh_quote_name(d));
    lemma_max_name_len(d);
    if find_word(d, quote_name(d.len())) is Some {
        let base = quote_name(d.len());
        let j = find_word(d, base)->0;
        assert(d[j].0 == base);
        assert(fresh_quote_name(d).len() == max_name_len(d) + 1);
        if find_word(d, fresh_quote_name(d)) is Some {
            let k = find_word(d, fresh_quote_name(d))->0;
            assert(d[k].0.len() <= max_name_len(d));
        }
    }
}

/// The name under which a quotation is filed, for the dictionary of `env`.
pub fn make_fresh_quote_name(env: &ZfEnv) -> (r: String)
    ensures
        r@ == fresh_quote_name(env.dict_view()),
{
    let ghost d = env.dict_view();
    let base = make_quote_name(env.dict.len());
    if env.findword(base.as_str()).is_none() {
        return base;
    }
    let mut m: usize = 0;
    let mut i: usize = 0;
    while i < env.dict.len()
        invariant
            i <= env.dict@.len(),
            d == env.dict_view(),
            m as nat == max_name_len(d.subrange(0, i as int)),
        decreases env.dict.len() - i,
    {
        assert(d.subrange(0, i + 1).drop_last() =~= d.subrange(0, i as int));
        let n = chars_of(env.dict[i].0.as_str()).len();
        if n > m {
            m = n;
        }
        i = i + 1;
    }
    assert(d.subrange(0, i as int) =~= d);
    let mut r = base;
    let ghost b = r@;
    let blen: usize = chars_of(r.as_str()).len();
    proof {
        lemma_max_name_len(d);
        crate::env::lemma_find_word(d, b);
    }
    assert(b.len() <= m);
    assert(b.len() >= 1) by {
        assert(b[0] == '[');
    }
    let mut k: usize = 0;
    while k <= m - blen
        invariant
            1 <= blen == b.len() <= m,
            k <= m - blen + 1,
            b == quote_name(d.len()),
            m as nat == max_name_len(d),
            r@ == b + Seq::new(k as nat, |j: int| ']'),
        decreases m - blen + 1 - k,
    {
        push_char(&mut r, ']');
        k = k + 1;
        assert(r@ =~= b + Seq::new(k as nat, |j: int| ']'));
    }
    r
}

fn make_quote_name(k: usize) -> (r: String)
    ensures
        r@ == quote_name(k as nat),
{
    let mut s = String::new();
    push_char(&mut s, '[');
    push_decimal(&mut s, k);
    push_char(&mut s, ']');
    assert(s@ =~= quote_name(k as nat));
    s
}

/// The characters after which the reader looks at the next character.
pub open spec fn is_sugar(c: char) -> bool {
    c == '|' || c == '&' || c == '$' || c == '!' || c == '@'
}

pub open spec fn measure_from(len: nat, i: nat) -> nat {
    if i < len {
        (len - i) as nat
    } else {
        0
    }
}

/// How the reader of this library names quotations: `fresh_quote_name`.
pub open spec fn quote_namer() -> spec_fn(DictView) -> Seq<char> {
    |d: DictView| fresh_quote_name(d)
}

/// A way of naming quotations that never gives a name that the dictionary
/// at hand already has.
pub open spec fn namer_fresh(namer: spec_fn(DictView) -> Seq<char>) -> bool {
    forall|d: DictView| #[trigger] find_word(d, namer(d)) is None
}

/// The reader, from position `i` of `input`, with the dictionary `d`, the
/// labels seen so far and the tokens read so far: the outcome and the
/// dictionary afterwards. A quotation is filed under the name that `namer`
/// gives for the dictionary at that point.
///
/// Nested quotations (`[ ... ]`) and word definitions (`: name ... ;`) are read
/// from the text after byte `i + 1` (or after the name) of the UTF-8 encoding,
/// as the slice `&input[i + 1..]` gives them, and go on at the index that
/// the nested reading returns.
pub open spec fn lex_loop(
    namer: spec_fn(DictView) -> Seq<char>,
    d: DictView,
    input: Seq<char>,
    in_def: bool,
    i: nat,
    labels: Map<Seq<char>, usize>,
    toks: Seq<TokenView>,
) -> (LexView, DictView)
    decreases encode_utf8(input).len(), measure_from(input.len(), i),
{
    let chs = input;
    let len = chs.len();
    if i >= len {
        (LexView::Done(i, toks), d)
    } else {
        let ii = i as int;
        let c = chs[ii];
        if c == ' ' || c == '\t' || c == '\r' || c == '\n' {
            lex_loop(namer, d, input, in_def, i + 1, labels, toks)
        } else if c == '(' {
            let e = eat_end(chs, ii + 1, Stop::At(')'));
            if e >= len {
                (LexView::Failed("unmatched ("@), d)
            } else {
                proof {
                    lemma_eat_end(chs, ii + 1, Stop::At(')'));
                }
                lex_loop(namer, d, input, in_def, (e + 2) as nat, labels, toks)
            }
        } else if c == '\\' {
            let e = eat_end(chs, ii + 2, Stop::At('\n'));
            proof {
                lemma_eat_end(chs, ii + 2, Stop::At('\n'));
            }
            lex_loop(namer, d, input, in_def, (e + 1) as nat, labels, toks)
        } else if c == '"' {
            let e = eat_end(chs, ii + 1, Stop::At('"'));
            if e >= len {
                (LexView::Failed("unmatched \""@), d)
            } else {
                proof {
                    lemma_eat_end(chs, ii + 1, Stop::At('"'));
                }
                lex_loop(
                    namer,
                    d,
                    input,
                    in_def,
                    (e + 1) as nat,
                    labels,
                    toks.push(TokenView::String(eat_text(chs, ii + 1, e))),
                )
            }
        } else if c == '[' {
            match byte_suffix(input, ii + 1) {
                None => (LexView::Stuck, d),
                Some(sub) => {
                    proof {
                        lemma_byte_suffix(input, ii + 1);
                    }
                    let (r, d1) = lex_loop(namer, d, sub, false, 0, Map::empty(), seq![]);
                    match r {
                        LexView::Done(n, body) => {
                            let (d2, idx) = add_word(d1, namer(d1), body);
                            lex_loop(
                                namer,
                                d2,
                                input,
                                in_def,
                                i + n + 1,
                                labels,
                                toks.push(TokenView::SymbRef(idx as usize)),
                            )
                        },
                        _ => (r, d1),
                    }
                },
            }
        } else if c == ']' {
            (LexView::Done(i + 1, toks), d)
        } else if c == ':' && !in_def {
            let e1 = eat_end(chs, ii + 1, Stop::WhiteSpace);
            let e2 = eat_end(chs, e1 + 1, Stop::NonSymbol);
            proof {
                lemma_eat_end(chs, ii + 1, Stop::WhiteSpace);
                lemma_eat_end(chs, e1 + 1, Stop::NonSymbol);
            }
            match byte_suffix(input, e2 + 1) {
                None => (LexView::Stuck, d),
                Some(sub) => {
                    proof {
                        lemma_byte_suffix(input, e2 + 1);
                    }
                    let (r, d1) = lex_loop(namer, d, sub, true, 0, Map::empty(), seq![]);
                    match r {
                        LexView::Done(n, body) => {
                            let (d2, idx) = add_word(d1, eat_text(chs, e1 + 1, e2), body);
                            lex_loop(namer, d2, input, in_def, (e2 + n + 1) as nat, labels, toks)
                        },
                        _ => (r, d1),
                    }
                },
            }
        } else if c == ';' && in_def {
            (LexView::Done(i + 1, toks), d)
        } else if c == ':' {
            (LexView::Failed("found nested word definitions"@), d)
        } else if c == ';' {
            (LexView::Failed("stray ;"@), d)
        } else if is_sugar(c) && i + 1 >= len {
            (LexView::Stuck, d)
        } else if c == '|' && !is_white_space(chs[ii + 1]) {
            let e = eat_end(chs, ii + 1, Stop::NonSymbol);
            proof {
                lemma_eat_end(chs, ii + 1, Stop::NonSymbol);
            }
            let name = eat_text(chs, ii + 1, e);
            let toks2 = toks.push(TokenView::Nop);
            lex_loop(
                namer,
                d,
                input,
                in_def,
                e as nat,
                labels.insert(seq!['|'] + name, (toks2.len() - 1) as usize),
                toks2,
            )
        } else if c == '&' && !is_white_space(chs[ii + 1]) {
            let e = eat_end(chs, ii + 1, Stop::NonSymbol);
            proof {
                lemma_eat_end(chs, ii + 1, Stop::NonSymbol);
            }
            let name = eat_text(chs, ii + 1, e);
            if labels.contains_key(name) {
                lex_loop(namer, d, input, in_def, e as nat, labels, toks.push(TokenView::Address(labels[name])))
            } else {
                match find_word(d, name) {
                    Some(j) => lex_loop(
                        namer,
                        d,
                        input,
                        in_def,
                        e as nat,
                        labels,
                        toks.push(TokenView::SymbRef(j as usize)),
                    ),
                    None => (LexView::Failed("Unknown label "@ + name), d),
                }
            }
        } else if c == '$' && !is_white_space(chs[ii + 1]) {
            lex_loop(
                namer,
                d,
                input,
                in_def,
                i + 2,
                labels,
                toks.push(TokenView::Number(NumberView::Char(chs[ii + 1] as u32))),
            )
        } else if c == '\'' {
            let e = eat_end(chs, ii + 1, Stop::WhiteSpace);
            proof {
                lemma_eat_end(chs, ii + 1, Stop::WhiteSpace);
            }
            lex_loop(
                namer,
                d,
                input,
                in_def,
                e as nat,
                labels,
                toks.push(TokenView::String(eat_text(chs, ii + 1, e))),
            )
        } else if (c == '!' || c == '@') && !is_white_space(chs[ii + 1]) {
            let e = eat_end(chs, ii + 1, Stop::NonSymbol);
            proof {
                lemma_eat_end(chs, ii + 1, Stop::NonSymbol);
            }
            let name = eat_text(chs, ii + 1, e);
            let access = if c == '!' {
                "store"@
            } else {
                "fetch"@
            };
            match find_word(d, access) {
                Some(j) => lex_loop(
                    namer,
                    d,
                    input,
                    in_def,
                    e as nat,
                    labels,
                    toks.push(TokenView::String(name)).push(TokenView::Symbol(j as usize)),
                ),
                None => (LexView::Stuck, d),
            }
        } else {
            let e = eat_end(chs, ii, Stop::NonSymbol);
            proof {
                lemma_eat_end(chs, ii, Stop::NonSymbol);
            }
            let word = chs.subrange(ii, e);
            let text = strip_underscores(word);
            if is_float_literal(text) {
                lex_loop(
                    namer,
                    d,
                    input,
                    in_def,
                    e as nat,
                    labels,
                    toks.push(TokenView::Number(NumberView::Literal(text))),
                )
            } else {
                match find_word(d, word) {
                    Some(j) => if e == i {
                        (LexView::Stuck, d)
                    } else {
                        lex_loop(namer, d, input, in_def, e as nat, labels, toks.push(TokenView::Symbol(j as usize)))
                    },
                    None => (LexView::Failed("unknown word "@ + word), d),
                }
            }
        }
    }
}

/// The labels a reader has seen, as (name, token index) pairs: a later pair
/// for the same name hides an earlier one, as a later insertion into a map
/// replaces an earlier one. The reader keeps its labels as such a list of
/// pairs, and this is their meaning as a map from names to token indices.
pub open spec fn label_map(v: Seq<(String, usize)>) -> Map<Seq<char>, usize>
    decreases v.len(),
{
    if v.len() == 0 {
        Map::empty()
    } else {
        label_map(v.drop_last()).insert(v.last().0@, v.last().1)
    }
}

proof fn lemma_label_map_tail(v: Seq<(String, usize)>, n: int, key: Seq<char>)
    requires
        0 <= n <= v.len(),
        forall|j: int| n <= j < v.len() ==> (#[trigger] v[j]).0@ != key,
    ensures
        label_map(v).contains_key(key) == label_map(v.subrange(0, n)).contains_key(key),
        label_map(v).contains_key(key) ==> label_map(v)[key] == label_map(v.subrange(0, n))[key],
    decreases v.len(),
{
    if n == v.len() {
        assert(v.subrange(0, n) =~= v);
    } else {
        let w = v.drop_last();
        assert(w.subrange(0, n) =~= v.subrange(0, n));
        assert forall|j: int| n <= j < w.len() implies (#[trigger] w[j]).0@ != key by {
            assert(w[j] == v[j]);
        }
        lemma_label_map_tail(w, n, key);
    }
}


/// The label of a name is the latest pair filed under it; a name with no
/// pair is no label.
pub proof fn law_latest_label_wins(v: Seq<(String, usize)>, key: Seq<char>)
    ensures
        (forall|j: int| 0 <= j < v.len() ==> (#[trigger] v[j]).0@ != key) ==> !label_map(v).contains_key(key),
        forall|j: int|
            0 <= j < v.len() && (#[trigger] v[j]).0@ == key && (forall|m: int| j < m < v.len() ==> (#[trigger] v[m]).0@ != key)
                ==> label_map(v).contains_key(key) && label_map(v)[key] == v[j].1,
{
    if forall|j: int| 0 <= j < v.len() ==> (#[trigger] v[j]).0@ != key {
        lemma_label_map_tail(v, 0, key);
    }
    assert forall|j: int|
        0 <= j < v.len() && (#[trigger] v[j]).0@ == key && (forall|m: int| j < m < v.len() ==> (#[trigger] v[m]).0@ != key)
            implies label_map(v).contains_key(key) && label_map(v)[key] == v[j].1 by {
        lemma_label_map_tail(v, j + 1, key);
        assert(v.subrange(0, j + 1).drop_last() =~= v.subrange(0, j));
        assert(v.subrange(0, j + 1).last() == v[j]);
    }
}

proof fn lemma_label_map_push(v: Seq<(String, usize)>, x: (String, usize))
    ensures
        label_map(v.push(x)) == label_map(v).insert(x.0@, x.1),
{
    assert(v.push(x).drop_last() =~= v);
}

proof fn lemma_tokens_push(v: Seq<ZfToken>, t: ZfToken)
    ensures
        tokens_view(v.push(t)) == tokens_view(v).push(t@),
{
    assert(tokens_view(v.push(t)) =~= tokens_view(v).push(t@));
}

/// The token index of the label `key`, the latest one of that name.
fn find_label(labels: &Vec<(String, usize)>, key: &str) -> (r: Option<usize>)
    ensures
        match r {
            Some(x) => label_map(labels@).contains_key(key@) && label_map(labels@)[key@] == x,
            None => !label_map(labels@).contains_key(key@),
        },
{
    let mut k = labels.len();
    while k > 0
        invariant
            k <= labels@.len(),
            forall|j: int| k <= j < labels@.len() ==> (#[trigger] labels@[j]).0@ != key@,
        decreases k,
    {
        if str_eq(labels[k - 1].0.as_str(), key) {
            proof {
                lemma_label_map_tail(labels@, k as int, key@);
                assert(labels@.subrange(0, k as int).drop_last() =~= labels@.subrange(0, k - 1));
            }
            return Some(labels[k - 1].1);
        }
        k = k - 1;
    }
    proof {
        lemma_label_map_tail(labels@, 0, key@);
    }
    None
}

/// `&input[b..]`, or `None` where that slicing panics.
fn suffix_from(input: &str, b: usize) -> (r: Option<&str>)
    ensures
        match r {
            Some(s) => byte_suffix(input@, b as int) == Some(s@),
            None => byte_suffix(input@, b as int) is None,
        },
{
    if input.is_char_boundary(b) {
        let (_, rest) = input.split_at(b);
        proof {
            broadcast use encode_utf8_decode_utf8;

            assert(rest.spec_bytes() == encode_utf8(rest@));
            assert(decode_utf8(encode_utf8(rest@)) == rest@);
        }
        Some(rest)
    } else {
        None
    }
}

/// What reading `input` from its start gives, with the dictionary `d`; a
/// definition inside a word definition is refused when `in_def` holds.
pub open spec fn lex_spec(d: DictView, input: Seq<char>, in_def: bool) -> (LexView, DictView) {
    lex_loop(quote_namer(), d, input, in_def, 0, Map::empty(), seq![])
}


/// The white-space characters between tokens: each of them separates tokens
/// and is otherwise skipped.
pub open spec fn is_separator(c: char) -> bool {
    c == ' ' || c == '\t' || c == '\r' || c == '\n'
}

/// Outside strings and comments, a space, a tab, a carriage return and a
/// newline are all skipped alike: reading from one of them gives what
/// reading from the next character gives.
pub proof fn law_separators_are_skipped(
    namer: spec_fn(DictView) -> Seq<char>,
    d: DictView,
    input: Seq<char>,
    in_def: bool,
    i: nat,
    labels: Map<Seq<char>, usize>,
    toks: Seq<TokenView>,
)
    requires
        i < input.len(),
        is_separator(input[i as int]),
    ensures
        lex_loop(namer, d, input, in_def, i, labels, toks) == lex_loop(namer, d, input, in_def, i + 1, labels, toks),
{
}

/// Reads `input` into tokens, filing the words it defines and the quotations
/// it meets in the dictionary of `env`. `in_def` tells that the text is the
/// body of a word definition, which ends at `;`; a quotation ends at `]`.
/// Returns, besides the tokens, the index at which reading stopped. Text on
/// which reading would panic or never end gives `Stuck`.
pub fn lex(env: &mut ZfEnv, input: &str, in_def: bool) -> (r: Lexed)
    requires
        encode_utf8(input@).len() + 3 <= usize::MAX,
    ensures
        (r@, final(env).dict_view()) == lex_spec(old(env).dict_view(), input@, in_def),
        final(env).pile == old(env).pile,
        final(env).vars == old(env).vars,
        final(env).rs == old(env).rs,
        r matches Lexed::Done(n, _) ==> n <= encode_utf8(input@).len() + 2,
    decreases encode_utf8(input@).len(),
{
    let ghost d0 = env.dict_view();
    let ghost blen = encode_utf8(input@).len();
    let chs = chars_of(input);
    proof {
        lemma_chars_fit_in_bytes(input@);
    }
    let mut labels: Vec<(String, usize)> = Vec::new();
    let mut toks: Vec<ZfToken> = Vec::new();
    let mut i: usize = 0;
    assert(label_map(labels@) =~= Map::<Seq<char>, usize>::empty());
    assert(tokens_view(toks@) =~= Seq::<TokenView>::empty());
    while i < chs.len()
        invariant
            chs@ == input@,
            blen == encode_utf8(input@).len(),
            chs@.len() <= blen,
            blen + 3 <= usize::MAX,
            i <= blen + 2,
            lex_spec(d0, input@, in_def) == lex_loop(
                quote_namer(),
                env.dict_view(),
                input@,
                in_def,
                i as nat,
                label_map(labels@),
                tokens_view(toks@),
            ),
            d0 == old(env).dict_view(),
            env.pile == old(env).pile,
            env.vars == old(env).vars,
            env.rs == old(env).rs,
        decreases measure_from(chs@.len(), i as nat),
    {
        let c = chs[i];
        let ghost d = env.dict_view();
        let ghost lm = label_map(labels@);
        let ghost tv = tokens_view(toks@);
        if c == ' ' || c == '\t' || c == '\r' || c == '\n' {
            i = i + 1;
        } else if c == '(' {
            let s = eat(&chs, i + 1, Stop::At(')'));
            proof {
                lemma_eat_end(chs@, i + 1, Stop::At(')'));
            }
            if s.2 {
                return Lexed::Failed("unmatched (".to_owned());
            }
            i = s.1 + 2;
        } else if c == '\\' {
            let s = eat(&chs, i + 2, Stop::At('\n'));
            proof {
                lemma_eat_end(chs@, i + 2, Stop::At('\n'));
            }
            i = s.1 + 1;
        } else if c == '"' {
            let s = eat(&chs, i + 1, Stop::At('"'));
            proof {
                lemma_eat_end(chs@, i + 1, Stop::At('"'));
            }
            if s.2 {
                return Lexed::Failed("unmatched \"".to_owned());
            }
            let t = ZfToken::String(s.0);
            proof {
                lemma_tokens_push(toks@, t);
            }
            toks.push(t);
            i = s.1 + 1;
        } else if c == '[' {
            let b = i + 1;
            match suffix_from(input, b) {
                None => {
                    return Lexed::Stuck;
                },
                Some(sub) => {
                    proof {
                        lemma_byte_suffix(input@, b as int);
                    }
                    let r = lex(env, sub, false);
                    match r {
                        Lexed::Done(n, body) => {
                            let name = make_fresh_quote_name(env);
                            let idx = env.addword(name, body);
                            let t = ZfToken::SymbRef(idx);
                            proof {
                                lemma_tokens_push(toks@, t);
                            }
                            toks.push(t);
                            i = i + n + 1;
                        },
                        Lexed::Failed(m) => {
                            return Lexed::Failed(m);
                        },
                        Lexed::Stuck => {
                            return Lexed::Stuck;
                        },
                    }
                },
            }
        } else if c == ']' {
            return Lexed::Done(i + 1, toks);
        } else if c == ':' && !in_def {
            let e1 = eat(&chs, i + 1, Stop::WhiteSpace).1;
            proof {
                lemma_eat_end(chs@, i + 1, Stop::WhiteSpace);
            }
            let name = eat(&chs, e1 + 1, Stop::NonSymbol);
            proof {
                lemma_eat_end(chs@, e1 + 1, Stop::NonSymbol);
            }
            let e2 = name.1;
            let b = e2 + 1;
            match suffix_from(input, b) {
                None => {
                    return Lexed::Stuck;
                },
                Some(sub) => {
                    proof {
                        lemma_byte_suffix(input@, b as int);
                    }
                    let r = lex(env, sub, true);
                    match r {
                        Lexed::Done(n, body) => {
                            env.addword(name.0, body);
                            i = e2 + n + 1;
                        },
                        Lexed::Failed(m) => {
                            return Lexed::Failed(m);
                        },
                        Lexed::Stuck => {
                            return Lexed::Stuck;
                        },
                    }
                },
            }
        } else if c == ';' && in_def {
            return Lexed::Done(i + 1, toks);
        } else if c == ':' {
            return Lexed::Failed("found nested word definitions".to_owned());
        } else if c == ';' {
            return Lexed::Failed("stray ;".to_owned());
        } else if (c == '|' || c == '&' || c == '$' || c == '!' || c == '@') && i + 1 >= chs.len() {
            return Lexed::Stuck;
        } else if c == '|' && !char_is_whitespace(chs[i + 1]) {
            let n = eat(&chs, i + 1, Stop::NonSymbol);
            proof {
                lemma_eat_end(chs@, i + 1, Stop::NonSymbol);
            }
            proof {
                lemma_tokens_push(toks@, ZfToken::Nop);
            }
            toks.push(ZfToken::Nop);
            let mut bar = String::new();
            push_char(&mut bar, '|');
            let key = join_str(bar.as_str(), n.0.as_str());
            assert(key@ =~= seq!['|'] + n.0@);
            let entry = (key, toks.len() - 1);
            proof {
                lemma_label_map_push(labels@, entry);
            }
            labels.push(entry);
            i = n.1;
        } else if c == '&' && !char_is_whitespace(chs[i + 1]) {
            let n = eat(&chs, i + 1, Stop::NonSymbol);
            proof {
                lemma_eat_end(chs@, i + 1, Stop::NonSymbol);
            }
            let t = match find_label(&labels, n.0.as_str()) {
                Some(a) => ZfToken::Address(a),
                None => match env.findword(n.0.as_str()) {
                    Some(j) => ZfToken::SymbRef(j),
                    None => {
                        return Lexed::Failed(join_str("Unknown label ", n.0.as_str()));
                    },
                },
            };
            proof {
                lemma_tokens_push(toks@, t);
            }
            toks.push(t);
            i = n.1;
        } else if c == '$' && !char_is_whitespace(chs[i + 1]) {
            let t = ZfToken::Number(ZfNumber::Char(chs[i + 1] as u32));
            proof {
                lemma_tokens_push(toks@, t);
            }
            toks.push(t);
            i = i + 2;
        } else if c == '\'' {
            let s = eat(&chs, i + 1, Stop::WhiteSpace);
            proof {
                lemma_eat_end(chs@, i + 1, Stop::WhiteSpace);
            }
            let t = ZfToken::String(s.0);
            proof {
                lemma_tokens_push(toks@, t);
            }
            toks.push(t);
            i = s.1;
        } else if (c == '!' || c == '@') && !char_is_whitespace(chs[i + 1]) {
            let n = eat(&chs, i + 1, Stop::NonSymbol);
            proof {
                lemma_eat_end(chs@, i + 1, Stop::NonSymbol);
            }
            let access: &str = if c == '!' {
                "store"
            } else {
                "fetch"
            };
            match env.findword(access) {
                Some(j) => {
                    let t1 = ZfToken::String(n.0);
                    let t2 = ZfToken::Symbol(j);
                    proof {
                        lemma_tokens_push(toks@, t1);
                        lemma_tokens_push(toks@.push(t1), t2);
                    }
                    toks.push(t1);
                    toks.push(t2);
                    i = n.1;
                },
                None => {
                    return Lexed::Stuck;
                },
            }
        } else {
            let w = eat(&chs, i, Stop::NonSymbol);
            proof {
                lemma_eat_end(chs@, i as int, Stop::NonSymbol);
            }
            let wc = chars_of(w.0.as_str());
            let text = without_underscores(&wc);
            if float_literal(&text) {
                let t = ZfToken::Number(ZfNumber::Literal(string_of(text.as_slice())));
                proof {
                    lemma_tokens_push(toks@, t);
                }
                toks.push(t);
                i = w.1;
            } else {
                match env.findword(w.0.as_str()) {
                    Some(j) => {
                        if w.1 == i {
                            return Lexed::Stuck;
                        }
                        let t = ZfToken::Symbol(j);
                        proof {
                            lemma_tokens_push(toks@, t);
                        }
                        toks.push(t);
                        i = w.1;
                    },
                    None => {
                        return Lexed::Failed(join_str("unknown word ", w.0.as_str()));
                    },
                }
            }
        }
    }
    Lexed::Done(i, toks)
}


/// Reads `input` into tokens as `lex` does, on text that the reader neither
/// panics on nor loops on: `Ok` with the index where reading stopped and the
/// tokens, or `Err` with the message of the refusal.
pub fn parse(env: &mut ZfEnv, input: &str, in_def: bool) -> (r: Result<(usize, Vec<ZfToken>), String>)
    requires
        encode_utf8(input@).len() + 3 <= usize::MAX,
        !(lex_spec(old(env).dict_view(), input@, in_def).0 is Stuck),
    ensures
        final(env).dict_view() == lex_spec(old(env).dict_view(), input@, in_def).1,
        match r {
            Ok((n, toks)) => lex_spec(old(env).dict_view(), input@, in_def).0 == LexView::Done(
                n as nat,
                tokens_view(toks@),
            ),
            Err(m) => lex_spec(old(env).dict_view(), input@, in_def).0 == LexView::Failed(m@),
        },
        final(env).pile == old(env).pile,
        final(env).vars == old(env).vars,
        final(env).rs == old(env).rs,
{
    match lex(env, input, in_def) {
        Lexed::Done(n, toks) => Ok((n, toks)),
        Lexed::Failed(m) => Err(m),
        Lexed::Stuck => {
            proof {
                assert(false);
            }
            Err(String::new())
        },
    }
}

} // verus!
