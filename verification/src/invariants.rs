use vstd::prelude::*;

use crate::env::{add_word, find_word, lemma_find_word, DictView, ProcView};
use crate::lexer::{
    byte_suffix, eat_end, eat_text, lemma_byte_suffix, lemma_eat_end, lex_loop, lex_spec,
    measure_from, namer_fresh, quote_namer, stops, LexView, Stop,
};
use crate::machine::{bump_top, pushed, run_steps, step_defined, step_spec, top_body, StepView};
use crate::parser::{term_with, terms_with, NodeView, Rule, TermView};
use crate::token::TokenView;
use vstd::utf8::*;

verus! {

/// A token names only words of a dictionary of `n` words.
pub open spec fn token_refs_ok(t: TokenView, n: nat) -> bool {
    match t {
        TokenView::Symbol(s) => s < n,
        TokenView::SymbRef(s) => s < n,
        _ => true,
    }
}

/// A body of tokens names only words of a dictionary of `n` words, and each
/// of its addresses is the index of a label (`Nop`) earlier in the same body. (Each
/// half is claimed for sizes that fit in `usize`, as every dictionary and
/// every body held in memory does.)
pub open spec fn body_ok(b: Seq<TokenView>, n: nat) -> bool {
    &&& n <= usize::MAX ==> forall|k: int| 0 <= k < b.len() ==> token_refs_ok(#[trigger] b[k], n)
    &&& b.len() <= usize::MAX ==> forall|k: int|
        0 <= k < b.len() ==> (#[trigger] b[k] matches TokenView::Address(a) ==> a < k
            && b[a as int] is Nop)
}

/// Every body in the dictionary names only words of the dictionary and jumps
/// only to its own labels.
pub open spec fn dict_ok(d: DictView) -> bool {
    forall|w: int| 0 <= w < d.len() ==> (#[trigger] d[w].1 matches ProcView::User(b) ==> body_ok(b, d.len()))
}

/// Every word that a body calls (`Symbol`) is one of the `n` words of the
/// dictionary.
pub open spec fn names_ok(b: Seq<TokenView>, n: nat) -> bool {
    forall|k: int| 0 <= k < b.len() ==> (#[trigger] b[k] matches TokenView::Symbol(s) ==> s < n)
}

/// Every body of the dictionary calls only words of the dictionary (claimed
/// for a dictionary whose size fits in `usize`).
pub open spec fn dict_names_ok(d: DictView) -> bool {
    d.len() <= usize::MAX ==> forall|w: int|
        0 <= w < d.len() ==> (#[trigger] d[w].1 matches ProcView::User(b) ==> names_ok(b, d.len()))
}

/// `d2` keeps every word of `d`, under its name and at its index.
pub open spec fn names_kept(d: DictView, d2: DictView) -> bool {
    &&& d.len() <= d2.len()
    &&& forall|j: int| 0 <= j < d.len() ==> #[trigger] d2[j].0 == d[j].0
}

/// `d2` keeps every word of `d` under its name and at its index, and a word
/// whose entry changed now has a body of tokens.
pub open spec fn changes_ok(d: DictView, d2: DictView) -> bool {
    &&& names_kept(d, d2)
    &&& forall|j: int| 0 <= j < d.len() ==> #[trigger] d2[j] == d[j] || d2[j].1 is User
}

pub proof fn lemma_changes_trans(d: DictView, d1: DictView, d2: DictView)
    requires
        changes_ok(d, d1),
        changes_ok(d1, d2),
    ensures
        changes_ok(d, d2),
{
    assert forall|j: int| 0 <= j < d.len() implies #[trigger] d2[j] == d[j] || d2[j].1 is User by {
        assert(d1[j] == d[j] || d1[j].1 is User);
        assert(d2[j] == d1[j] || d2[j].1 is User);
    }
    assert forall|j: int| 0 <= j < d.len() implies #[trigger] d2[j].0 == d[j].0 by {
        assert(d1[j].0 == d[j].0);
        assert(d2[j].0 == d1[j].0);
    }
}

/// The labels that a reader has seen point at `Nop` tokens of the tokens read.
pub open spec fn labels_ok(labels: Map<Seq<char>, usize>, toks: Seq<TokenView>) -> bool {
    toks.len() <= usize::MAX ==> forall|key: Seq<char>| #[trigger]
        labels.contains_key(key) ==> labels[key] < toks.len() && toks[labels[key] as int] is Nop
}

pub proof fn lemma_body_grow(b: Seq<TokenView>, n: nat, m: nat)
    requires
        body_ok(b, n),
        n <= m,
    ensures
        body_ok(b, m),
{
    if m <= usize::MAX {
        assert forall|k: int| 0 <= k < b.len() implies token_refs_ok(#[trigger] b[k], m) by {
            assert(token_refs_ok(b[k], n));
        }
    }
}

pub proof fn lemma_body_push(b: Seq<TokenView>, t: TokenView, n: nat)
    requires
        body_ok(b, n),
        n <= usize::MAX ==> token_refs_ok(t, n),
        b.len() + 1 <= usize::MAX ==> (t matches TokenView::Address(a) ==> a < b.len() && b[a as int] is Nop),
    ensures
        body_ok(b.push(t), n),
{
    let b2 = b.push(t);
    if n <= usize::MAX {
        assert forall|k: int| 0 <= k < b2.len() implies token_refs_ok(#[trigger] b2[k], n) by {
            if k < b.len() {
                assert(b2[k] == b[k]);
            }
        }
    }
    if b2.len() <= usize::MAX {
        assert forall|k: int| 0 <= k < b2.len() implies (#[trigger] b2[k] matches TokenView::Address(a)
            ==> a < k && b2[a as int] is Nop) by {
            if k < b.len() {
                assert(b2[k] == b[k]);
            }
        }
    }
}

pub proof fn lemma_labels_push(labels: Map<Seq<char>, usize>, toks: Seq<TokenView>, t: TokenView)
    requires
        labels_ok(labels, toks),
    ensures
        labels_ok(labels, toks.push(t)),
{
    if toks.push(t).len() <= usize::MAX {
        assert forall|key: Seq<char>| #[trigger] labels.contains_key(key) implies labels[key] < toks.push(
            t,
        ).len() && toks.push(t)[labels[key] as int] is Nop by {
            assert(toks.push(t)[labels[key] as int] == toks[labels[key] as int]);
        }
    }
}

/// `addword` of a body that names only words of `d` keeps the words of `d`
/// (changing only the entry written, to a body of tokens), returns an index
/// of the result, and keeps a well-formed dictionary well formed.
pub proof fn lemma_add_ok(d: DictView, name: Seq<char>, body: Seq<TokenView>)
    requires
        body_ok(body, d.len()),
    ensures
        changes_ok(d, add_word(d, name, body).0),
        dict_ok(d) ==> dict_ok(add_word(d, name, body).0),
        dict_names_ok(d) ==> dict_names_ok(add_word(d, name, body).0),
        0 <= add_word(d, name, body).1 < add_word(d, name, body).0.len(),
{
    lemma_find_word(d, name);
    let (d2, i) = add_word(d, name, body);
    lemma_body_grow(body, d.len(), d2.len());
    assert forall|j: int| 0 <= j < d.len() implies #[trigger] d2[j] == d[j] || d2[j].1 is User by {
        if j != i {
            assert(d2[j] == d[j]);
        }
    }
    if dict_names_ok(d) && d2.len() <= usize::MAX {
        assert forall|w: int| 0 <= w < d2.len() implies (#[trigger] d2[w].1 matches ProcView::User(b)
            ==> names_ok(b, d2.len())) by {
            if w != i {
                assert(d2[w] == d[w]);
            } else {
                assert forall|k: int| 0 <= k < body.len() implies (#[trigger] body[k] matches TokenView::Symbol(s) ==> s < d2.len()) by {
                    assert(token_refs_ok(body[k], d.len()));
                }
            }
        }
    }
    if dict_ok(d) {
        assert forall|w: int| 0 <= w < d2.len() implies (#[trigger] d2[w].1 matches ProcView::User(b)
            ==> body_ok(b, d2.len())) by {
            if w != i {
                assert(d2[w] == d[w]);
                match d[w].1 {
                    ProcView::User(b) => lemma_body_grow(b, d.len(), d2.len()),
                    _ => {},
                }
            }
        }
    }
}

/// A quotation is filed as a new word at the end of the dictionary, under
/// whatever name it gets, as long as no word has that name (as no word has
/// the name that `quote_namer` gives).
pub proof fn law_quote_appends(namer: spec_fn(DictView) -> Seq<char>, d: DictView, body: Seq<TokenView>)
    requires
        namer_fresh(namer),
    ensures
        add_word(d, namer(d), body) == (d.push((namer(d), ProcView::User(body))), d.len() as int),
{
    assert(find_word(d, namer(d)) is None);
}

/// The reader keeps the words of the dictionary (changing entries only to
/// bodies of tokens) and keeps a well-formed dictionary well formed, and what
/// it reads names only words of the dictionary it leaves and jumps only back
/// to labels of the same token list (induction along `lex_loop`).
pub proof fn lemma_lex_loop_ok(
    namer: spec_fn(DictView) -> Seq<char>,
    d: DictView,
    input: Seq<char>,
    in_def: bool,
    i: nat,
    labels: Map<Seq<char>, usize>,
    toks: Seq<TokenView>,
)
    requires
        body_ok(toks, d.len()),
        labels_ok(labels, toks),
    ensures
        ({
            let (r, d2) = lex_loop(namer, d, input, in_def, i, labels, toks);
            &&& changes_ok(d, d2)
            &&& dict_ok(d) ==> dict_ok(d2)
            &&& dict_names_ok(d) ==> dict_names_ok(d2)
            &&& r matches LexView::Done(_, t) ==> body_ok(t, d2.len())
        }),
    decreases encode_utf8(input).len(), measure_from(input.len(), i),
{
    let chs = input;
    let len = chs.len();
    if i >= len {
        return;
    }
    let ii = i as int;
    let c = chs[ii];
    if c == ' ' || c == '\t' || c == '\r' || c == '\n' {
        lemma_lex_loop_ok(namer, d, input, in_def, i + 1, labels, toks);
    } else if c == '(' {
        let e = eat_end(chs, ii + 1, Stop::At(')'));
        lemma_eat_end(chs, ii + 1, Stop::At(')'));
        if e < len {
            lemma_lex_loop_ok(namer, d, input, in_def, (e + 2) as nat, labels, toks);
        }
    } else if c == '\\' {
        let e = eat_end(chs, ii + 2, Stop::At('\n'));
        lemma_eat_end(chs, ii + 2, Stop::At('\n'));
        lemma_lex_loop_ok(namer, d, input, in_def, (e + 1) as nat, labels, toks);
    } else if c == '"' {
        let e = eat_end(chs, ii + 1, Stop::At('"'));
        lemma_eat_end(chs, ii + 1, Stop::At('"'));
        if e < len {
            let t = TokenView::String(eat_text(chs, ii + 1, e));
            lemma_body_push(toks, t, d.len());
            lemma_labels_push(labels, toks, t);
            lemma_lex_loop_ok(namer, d, input, in_def, (e + 1) as nat, labels, toks.push(t));
        }
    } else if c == '[' {
        match byte_suffix(input, ii + 1) {
            None => {},
            Some(sub) => {
                lemma_byte_suffix(input, ii + 1);
                assert(body_ok(seq![], d.len()));
                lemma_lex_loop_ok(namer, d, sub, false, 0, Map::empty(), seq![]);
                let (r, d1) = lex_loop(namer, d, sub, false, 0, Map::empty(), seq![]);
                match r {
                    LexView::Done(n, body) => {
                        lemma_add_ok(d1, namer(d1), body);
                        let (d2, idx) = add_word(d1, namer(d1), body);
                        let t = TokenView::SymbRef(idx as usize);
                        lemma_body_grow(toks, d.len(), d2.len());
                        lemma_body_push(toks, t, d2.len());
                        lemma_labels_push(labels, toks, t);
                        lemma_lex_loop_ok(namer, d2, input, in_def, i + n + 1, labels, toks.push(t));
                        lemma_changes_trans(d, d1, d2);
                        lemma_changes_trans(d, d2, lex_loop(namer, d2, input, in_def, i + n + 1, labels, toks.push(t)).1);
                    },
                    _ => {},
                }
            },
        }
    } else if c == ']' {
    } else if c == ':' && !in_def {
        let e1 = eat_end(chs, ii + 1, Stop::WhiteSpace);
        let e2 = eat_end(chs, e1 + 1, Stop::NonSymbol);
        lemma_eat_end(chs, ii + 1, Stop::WhiteSpace);
        lemma_eat_end(chs, e1 + 1, Stop::NonSymbol);
        match byte_suffix(input, e2 + 1) {
            None => {},
            Some(sub) => {
                lemma_byte_suffix(input, e2 + 1);
                assert(body_ok(seq![], d.len()));
                lemma_lex_loop_ok(namer, d, sub, true, 0, Map::empty(), seq![]);
                let (r, d1) = lex_loop(namer, d, sub, true, 0, Map::empty(), seq![]);
                match r {
                    LexView::Done(n, body) => {
                        let name = eat_text(chs, e1 + 1, e2);
                        lemma_add_ok(d1, name, body);
                        let (d2, idx) = add_word(d1, name, body);
                        lemma_body_grow(toks, d.len(), d2.len());
                        lemma_lex_loop_ok(namer, d2, input, in_def, (e2 + n + 1) as nat, labels, toks);
                        lemma_changes_trans(d, d1, d2);
                        lemma_changes_trans(d, d2, lex_loop(namer, d2, input, in_def, (e2 + n + 1) as nat, labels, toks).1);
                    },
                    _ => {},
                }
            },
        }
    } else if c == ';' && in_def {
    } else if c == ':' {
    } else if c == ';' {
    } else if crate::lexer::is_sugar(c) && i + 1 >= len {
    } else if c == '|' && !crate::text::is_white_space(chs[ii + 1]) {
        let e = eat_end(chs, ii + 1, Stop::NonSymbol);
        lemma_eat_end(chs, ii + 1, Stop::NonSymbol);
        let name = eat_text(chs, ii + 1, e);
        let toks2 = toks.push(TokenView::Nop);
        lemma_body_push(toks, TokenView::Nop, d.len());
        lemma_labels_push(labels, toks, TokenView::Nop);
        let labels2 = labels.insert(seq!['|'] + name, (toks2.len() - 1) as usize);
        assert(labels_ok(labels2, toks2));
        lemma_lex_loop_ok(namer, d, input, in_def, e as nat, labels2, toks2);
    } else if c == '&' && !crate::text::is_white_space(chs[ii + 1]) {
        let e = eat_end(chs, ii + 1, Stop::NonSymbol);
        lemma_eat_end(chs, ii + 1, Stop::NonSymbol);
        let name = eat_text(chs, ii + 1, e);
        if labels.contains_key(name) {
            let t = TokenView::Address(labels[name]);
            lemma_body_push(toks, t, d.len());
            lemma_labels_push(labels, toks, t);
            lemma_lex_loop_ok(namer, d, input, in_def, e as nat, labels, toks.push(t));
        } else {
            lemma_find_word(d, name);
            match find_word(d, name) {
                Some(j) => {
                    let t = TokenView::SymbRef(j as usize);
                    lemma_body_push(toks, t, d.len());
                    lemma_labels_push(labels, toks, t);
                    lemma_lex_loop_ok(namer, d, input, in_def, e as nat, labels, toks.push(t));
                },
                None => {},
            }
        }
    } else if c == '$' && !crate::text::is_white_space(chs[ii + 1]) {
        let t = TokenView::Number(crate::token::NumberView::Char(chs[ii + 1] as u32));
        lemma_body_push(toks, t, d.len());
        lemma_labels_push(labels, toks, t);
        lemma_lex_loop_ok(namer, d, input, in_def, i + 2, labels, toks.push(t));
    } else if c == '\'' {
        let e = eat_end(chs, ii + 1, Stop::WhiteSpace);
        lemma_eat_end(chs, ii + 1, Stop::WhiteSpace);
        let t = TokenView::String(eat_text(chs, ii + 1, e));
        lemma_body_push(toks, t, d.len());
        lemma_labels_push(labels, toks, t);
        lemma_lex_loop_ok(namer, d, input, in_def, e as nat, labels, toks.push(t));
    } else if (c == '!' || c == '@') && !crate::text::is_white_space(chs[ii + 1]) {
        let e = eat_end(chs, ii + 1, Stop::NonSymbol);
        lemma_eat_end(chs, ii + 1, Stop::NonSymbol);
        let name = eat_text(chs, ii + 1, e);
        let access = if c == '!' {
            "store"@
        } else {
            "fetch"@
        };
        lemma_find_word(d, access);
        match find_word(d, access) {
            Some(j) => {
                let t1 = TokenView::String(name);
                let t2 = TokenView::Symbol(j as usize);
                lemma_body_push(toks, t1, d.len());
                lemma_labels_push(labels, toks, t1);
                lemma_body_push(toks.push(t1), t2, d.len());
                lemma_labels_push(labels, toks.push(t1), t2);
                lemma_lex_loop_ok(namer, d, input, in_def, e as nat, labels, toks.push(t1).push(t2));
            },
            None => {},
        }
    } else {
        let e = eat_end(chs, ii, Stop::NonSymbol);
        lemma_eat_end(chs, ii, Stop::NonSymbol);
        let word = chs.subrange(ii, e);
        let text = crate::text::strip_underscores(word);
        if crate::number::is_float_literal(text) {
            let t = TokenView::Number(crate::token::NumberView::Literal(text));
            lemma_body_push(toks, t, d.len());
            lemma_labels_push(labels, toks, t);
            lemma_lex_loop_ok(namer, d, input, in_def, e as nat, labels, toks.push(t));
        } else {
            lemma_find_word(d, word);
            match find_word(d, word) {
                Some(j) => {
                    if e != ii {
                        let t = TokenView::Symbol(j as usize);
                        lemma_body_push(toks, t, d.len());
                        lemma_labels_push(labels, toks, t);
                        lemma_lex_loop_ok(namer, d, input, in_def, e as nat, labels, toks.push(t));
                    }
                },
                None => {},
            }
        }
    }
}

/// The name that a definition starting with the `:` at position `p` of
/// `input` gives its word, read as the reader reads it: after the `:`, up to
/// the next white space, then up to the next character that ends a name.
pub open spec fn colon_name(input: Seq<char>, p: int) -> Seq<char> {
    let e1 = eat_end(input, p + 1, Stop::WhiteSpace);
    let e2 = eat_end(input, e1 + 1, Stop::NonSymbol);
    eat_text(input, e1 + 1, e2)
}

/// Some `:` of `input` starts a definition of the word `name`.
pub open spec fn colon_defines(input: Seq<char>, name: Seq<char>) -> bool {
    exists|p: int| 0 <= p < input.len() && input[p] == ':' && #[trigger] colon_name(input, p) == name
}

proof fn lemma_eat_end_shift(input: Seq<char>, k: int, c: int, stop: Stop)
    requires
        0 <= k <= input.len(),
        0 <= c,
    ensures
        eat_end(input.subrange(k, input.len() as int), c, stop) + k == eat_end(input, c + k, stop),
    decreases input.len() - k - c,
{
    let s = input.subrange(k, input.len() as int);
    if c < s.len() {
        assert(s[c] == input[c + k]);
        if !stops(stop, s[c]) {
            lemma_eat_end_shift(input, k, c + 1, stop);
        }
    }
}

/// `d2` keeps every word of `d` under its name and at its index, and gives a
/// word of `d` a new entry only where `input` defines that name with `:`.
pub open spec fn redefined_by_colon(input: Seq<char>, d: DictView, d2: DictView) -> bool {
    &&& names_kept(d, d2)
    &&& forall|j: int| 0 <= j < d.len() && #[trigger] d2[j] != d[j] ==> colon_defines(input, d[j].0)
}

/// A definition in a suffix of `input` is a definition in `input`.
proof fn lemma_colon_defines_suffix(input: Seq<char>, k: int, name: Seq<char>)
    requires
        0 <= k <= input.len(),
        colon_defines(input.subrange(k, input.len() as int), name),
    ensures
        colon_defines(input, name),
{
    let s = input.subrange(k, input.len() as int);
    let p = choose|p: int| 0 <= p < s.len() && s[p] == ':' && #[trigger] colon_name(s, p) == name;
    let e1 = eat_end(s, p + 1, Stop::WhiteSpace);
    lemma_eat_end(s, p + 1, Stop::WhiteSpace);
    lemma_eat_end_shift(input, k, p + 1, Stop::WhiteSpace);
    let e2 = eat_end(s, e1 + 1, Stop::NonSymbol);
    lemma_eat_end(s, e1 + 1, Stop::NonSymbol);
    lemma_eat_end_shift(input, k, e1 + 1, Stop::NonSymbol);
    assert(eat_end(input, p + k + 1, Stop::WhiteSpace) == e1 + k);
    assert(eat_end(input, e1 + k + 1, Stop::NonSymbol) == e2 + k);
    if e1 + 1 < s.len() {
        assert(eat_text(s, e1 + 1, e2) =~= eat_text(input, e1 + k + 1, e2 + k));
    }
    assert(colon_name(input, p + k) == colon_name(s, p));
    assert(input[p + k] == s[p]);
}

/// The text after a character boundary of the encoding of `input` is a
/// suffix of `input`.
proof fn lemma_byte_suffix_is_suffix(input: Seq<char>, b: int) -> (k: int)
    requires
        is_char_boundary(encode_utf8(input), b),
    ensures
        0 <= k <= input.len(),
        byte_suffix(input, b) == Some(input.subrange(k, input.len() as int)),
{
    broadcast use encode_utf8_valid_utf8, encode_utf8_decode_utf8;

    let bytes = encode_utf8(input);
    decode_utf8_split(bytes, b);
    let front = decode_utf8(bytes.subrange(0, b));
    let back = decode_utf8(bytes.subrange(b, bytes.len() as int));
    assert(input == front + back);
    assert(input.subrange(front.len() as int, input.len() as int) =~= back);
    front.len() as int
}

proof fn lemma_names_kept_trans(d: DictView, d1: DictView, d2: DictView)
    requires
        names_kept(d, d1),
        names_kept(d1, d2),
    ensures
        names_kept(d, d2),
{
    assert forall|j: int| 0 <= j < d.len() implies #[trigger] d2[j].0 == d[j].0 by {
        assert(d1[j].0 == d[j].0);
    }
}

/// What the reader does to the words that were already in the dictionary
/// (induction along `lex_loop`): it keeps each under its name and at its
/// index, and gives one a new entry only where the text defines that name
/// with `:`.
proof fn lemma_lex_loop_colon(
    namer: spec_fn(DictView) -> Seq<char>,
    d: DictView,
    input: Seq<char>,
    in_def: bool,
    i: nat,
    labels: Map<Seq<char>, usize>,
    toks: Seq<TokenView>,
)
    requires
        namer_fresh(namer),
    ensures
        redefined_by_colon(input, d, lex_loop(namer, d, input, in_def, i, labels, toks).1),
    decreases encode_utf8(input).len(), measure_from(input.len(), i),
{
    let chs = input;
    let len = chs.len();
    if i >= len {
        return;
    }
    let ii = i as int;
    let c = chs[ii];
    if c == ' ' || c == '\t' || c == '\r' || c == '\n' {
        lemma_lex_loop_colon(namer, d, input, in_def, i + 1, labels, toks);
    } else if c == '(' {
        let e = eat_end(chs, ii + 1, Stop::At(')'));
        lemma_eat_end(chs, ii + 1, Stop::At(')'));
        if e < len {
            lemma_lex_loop_colon(namer, d, input, in_def, (e + 2) as nat, labels, toks);
        }
    } else if c == '\\' {
        let e = eat_end(chs, ii + 2, Stop::At('\n'));
        lemma_eat_end(chs, ii + 2, Stop::At('\n'));
        lemma_lex_loop_colon(namer, d, input, in_def, (e + 1) as nat, labels, toks);
    } else if c == '"' {
        let e = eat_end(chs, ii + 1, Stop::At('"'));
        lemma_eat_end(chs, ii + 1, Stop::At('"'));
        if e < len {
            let t = TokenView::String(eat_text(chs, ii + 1, e));
            lemma_lex_loop_colon(namer, d, input, in_def, (e + 1) as nat, labels, toks.push(t));
        }
    } else if c == '[' {
        match byte_suffix(input, ii + 1) {
            None => {},
            Some(sub) => {
                lemma_byte_suffix(input, ii + 1);
                let k = lemma_byte_suffix_is_suffix(input, ii + 1);
                lemma_lex_loop_colon(namer, d, sub, false, 0, Map::empty(), seq![]);
                let (r, d1) = lex_loop(namer, d, sub, false, 0, Map::empty(), seq![]);
                match r {
                    LexView::Done(n, body) => {
                        assert(find_word(d1, namer(d1)) is None);
                        let (d2, idx) = add_word(d1, namer(d1), body);
                        let t = TokenView::SymbRef(idx as usize);
                        lemma_lex_loop_colon(namer, d2, input, in_def, i + n + 1, labels, toks.push(t));
                        let d3 = lex_loop(namer, d2, input, in_def, i + n + 1, labels, toks.push(t)).1;
                        lemma_names_kept_trans(d, d1, d2);
                        lemma_names_kept_trans(d, d2, d3);
                        assert forall|j: int| 0 <= j < d.len() && #[trigger] d3[j] != d[j] implies colon_defines(
                            input,
                            d[j].0,
                        ) by {
                            assert(d2[j] == d1[j]);
                            if d1[j] != d[j] {
                                lemma_colon_defines_suffix(input, k, d[j].0);
                            } else {
                                assert(d3[j] != d2[j]);
                            }
                        }
                    },
                    _ => {
                        assert forall|j: int| 0 <= j < d.len() && #[trigger] d1[j] != d[j] implies colon_defines(
                            input,
                            d[j].0,
                        ) by {
                            lemma_colon_defines_suffix(input, k, d[j].0);
                        }
                    },
                }
            },
        }
    } else if c == ']' {
    } else if c == ':' && !in_def {
        let e1 = eat_end(chs, ii + 1, Stop::WhiteSpace);
        let e2 = eat_end(chs, e1 + 1, Stop::NonSymbol);
        lemma_eat_end(chs, ii + 1, Stop::WhiteSpace);
        lemma_eat_end(chs, e1 + 1, Stop::NonSymbol);
        match byte_suffix(input, e2 + 1) {
            None => {},
            Some(sub) => {
                lemma_byte_suffix(input, e2 + 1);
                let k = lemma_byte_suffix_is_suffix(input, e2 + 1);
                lemma_lex_loop_colon(namer, d, sub, true, 0, Map::empty(), seq![]);
                let (r, d1) = lex_loop(namer, d, sub, true, 0, Map::empty(), seq![]);
                match r {
                    LexView::Done(n, body) => {
                        let name = eat_text(chs, e1 + 1, e2);
                        assert(name == colon_name(input, ii));
                        lemma_find_word(d1, name);
                        let (d2, idx) = add_word(d1, name, body);
                        lemma_lex_loop_colon(namer, d2, input, in_def, (e2 + n + 1) as nat, labels, toks);
                        let d3 = lex_loop(namer, d2, input, in_def, (e2 + n + 1) as nat, labels, toks).1;
                        assert(names_kept(d1, d2));
                        lemma_names_kept_trans(d, d1, d2);
                        lemma_names_kept_trans(d, d2, d3);
                        assert forall|j: int| 0 <= j < d.len() && #[trigger] d3[j] != d[j] implies colon_defines(
                            input,
                            d[j].0,
                        ) by {
                            if d1[j] != d[j] {
                                lemma_colon_defines_suffix(input, k, d[j].0);
                            } else if d2[j] != d1[j] {
                                assert(j == idx);
                                assert(d1[j].0 == name);
                            } else {
                                assert(d3[j] != d2[j]);
                            }
                        }
                    },
                    _ => {
                        assert forall|j: int| 0 <= j < d.len() && #[trigger] d1[j] != d[j] implies colon_defines(
                            input,
                            d[j].0,
                        ) by {
                            lemma_colon_defines_suffix(input, k, d[j].0);
                        }
                    },
                }
            },
        }
    } else if c == ';' && in_def {
    } else if c == ':' {
    } else if c == ';' {
    } else if crate::lexer::is_sugar(c) && i + 1 >= len {
    } else if c == '|' && !crate::text::is_white_space(chs[ii + 1]) {
        let e = eat_end(chs, ii + 1, Stop::NonSymbol);
        lemma_eat_end(chs, ii + 1, Stop::NonSymbol);
        let name = eat_text(chs, ii + 1, e);
        let toks2 = toks.push(TokenView::Nop);
        let labels2 = labels.insert(seq!['|'] + name, (toks2.len() - 1) as usize);
        lemma_lex_loop_colon(namer, d, input, in_def, e as nat, labels2, toks2);
    } else if c == '&' && !crate::text::is_white_space(chs[ii + 1]) {
        let e = eat_end(chs, ii + 1, Stop::NonSymbol);
        lemma_eat_end(chs, ii + 1, Stop::NonSymbol);
        let name = eat_text(chs, ii + 1, e);
        if labels.contains_key(name) {
            lemma_lex_loop_colon(namer, d, input, in_def, e as nat, labels, toks.push(TokenView::Address(labels[name])));
        } else {
            match find_word(d, name) {
                Some(j) => {
                    lemma_lex_loop_colon(namer, d, input, in_def, e as nat, labels, toks.push(TokenView::SymbRef(j as usize)));
                },
                None => {},
            }
        }
    } else if c == '$' && !crate::text::is_white_space(chs[ii + 1]) {
        let t = TokenView::Number(crate::token::NumberView::Char(chs[ii + 1] as u32));
        lemma_lex_loop_colon(namer, d, input, in_def, i + 2, labels, toks.push(t));
    } else if c == '\'' {
        let e = eat_end(chs, ii + 1, Stop::WhiteSpace);
        lemma_eat_end(chs, ii + 1, Stop::WhiteSpace);
        let t = TokenView::String(eat_text(chs, ii + 1, e));
        lemma_lex_loop_colon(namer, d, input, in_def, e as nat, labels, toks.push(t));
    } else if (c == '!' || c == '@') && !crate::text::is_white_space(chs[ii + 1]) {
        let e = eat_end(chs, ii + 1, Stop::NonSymbol);
        lemma_eat_end(chs, ii + 1, Stop::NonSymbol);
        let name = eat_text(chs, ii + 1, e);
        let access = if c == '!' {
            "store"@
        } else {
            "fetch"@
        };
        match find_word(d, access) {
            Some(j) => {
                let t1 = TokenView::String(name);
                let t2 = TokenView::Symbol(j as usize);
                lemma_lex_loop_colon(namer, d, input, in_def, e as nat, labels, toks.push(t1).push(t2));
            },
            None => {},
        }
    } else {
        let e = eat_end(chs, ii, Stop::NonSymbol);
        lemma_eat_end(chs, ii, Stop::NonSymbol);
        let word = chs.subrange(ii, e);
        let text = crate::text::strip_underscores(word);
        if crate::number::is_float_literal(text) {
            let t = TokenView::Number(crate::token::NumberView::Literal(text));
            lemma_lex_loop_colon(namer, d, input, in_def, e as nat, labels, toks.push(t));
        } else {
            match find_word(d, word) {
                Some(j) => {
                    if e != ii {
                        let t = TokenView::Symbol(j as usize);
                        lemma_lex_loop_colon(namer, d, input, in_def, e as nat, labels, toks.push(t));
                    }
                },
                None => {},
            }
        }
    }
}

/// `quote_namer` never gives a name that the dictionary at hand has.
pub proof fn lemma_quote_namer_fresh()
    ensures
        namer_fresh(quote_namer()),
{
    assert forall|d: DictView| #[trigger] find_word(d, quote_namer()(d)) is None by {
        crate::lexer::lemma_fresh_quote_name(d);
    }
}

/// Reading source text, whatever names its quotations get as long as no
/// word of the dictionary at hand has them, never removes or renames a word:
/// every word of the dictionary before is there afterwards, at the same
/// index, under the same name. A word that was there gets a new entry only
/// where the text defines that name with `:`, and then it is a body of
/// tokens; every other word (each quotation among them) is added at the end.
/// The tokens read name only words of the dictionary afterwards, and each
/// address points back to a label (`Nop`) earlier in the same tokens. From a
/// well-formed dictionary, the dictionary afterwards is well formed too. All
/// this holds whatever the outcome, a refusal included.
pub proof fn law_lex_any_fresh_namer(
    namer: spec_fn(DictView) -> Seq<char>,
    d: DictView,
    input: Seq<char>,
    in_def: bool,
)
    requires
        namer_fresh(namer),
    ensures
        changes_ok(d, lex_loop(namer, d, input, in_def, 0, Map::empty(), seq![]).1),
        redefined_by_colon(input, d, lex_loop(namer, d, input, in_def, 0, Map::empty(), seq![]).1),
        dict_ok(d) ==> dict_ok(lex_loop(namer, d, input, in_def, 0, Map::empty(), seq![]).1),
        dict_names_ok(d) ==> dict_names_ok(lex_loop(namer, d, input, in_def, 0, Map::empty(), seq![]).1),
        lex_loop(namer, d, input, in_def, 0, Map::empty(), seq![]).0 matches LexView::Done(_, t) ==> body_ok(
            t,
            lex_loop(namer, d, input, in_def, 0, Map::empty(), seq![]).1.len(),
        ),
{
    assert(body_ok(seq![], d.len()));
    lemma_lex_loop_ok(namer, d, input, in_def, 0, Map::empty(), seq![]);
    lemma_lex_loop_colon(namer, d, input, in_def, 0, Map::empty(), seq![]);
}

/// The same for the reader of this library, which names quotations with
/// `fresh_quote_name`: it never removes or renames a word, gives a word
/// that was there a new body only where the text defines that name with `:`,
/// adds every other word (each quotation among them) at the end, reads
/// tokens that name only words of the dictionary afterwards and jump only
/// back to labels, and keeps a well-formed dictionary well formed, whatever
/// the outcome.
pub proof fn law_lex_keeps_dictionary(d: DictView, input: Seq<char>, in_def: bool)
    ensures
        changes_ok(d, lex_spec(d, input, in_def).1),
        redefined_by_colon(input, d, lex_spec(d, input, in_def).1),
        dict_ok(d) ==> dict_ok(lex_spec(d, input, in_def).1),
        dict_names_ok(d) ==> dict_names_ok(lex_spec(d, input, in_def).1),
        lex_spec(d, input, in_def).0 matches LexView::Done(_, t) ==> body_ok(
            t,
            lex_spec(d, input, in_def).1.len(),
        ),
{
    lemma_quote_namer_fresh();
    law_lex_any_fresh_namer(quote_namer(), d, input, in_def);
}

/// The tree reader keeps the words of the dictionary (changing entries only
/// to bodies of tokens) and keeps a well-formed dictionary well formed, and a
/// token it reads names only words of the dictionary it leaves and is no
/// address (induction along `term`).
pub proof fn lemma_term_ok(namer: spec_fn(DictView) -> Seq<char>, d: DictView, n: NodeView)
    ensures
        ({
            let (r, d2) = term_with(namer, d, n);
            &&& changes_ok(d, d2)
            &&& dict_ok(d) ==> dict_ok(d2)
            &&& dict_names_ok(d) ==> dict_names_ok(d2)
            &&& r matches TermView::Token(t) ==> (d2.len() <= usize::MAX ==> token_refs_ok(t, d2.len()))
                && !(t is Address)
        }),
    decreases n, 1nat,
{
    let t = n.text;
    match n.rule {
        Rule::WordDecl => {
            if n.inner.len() > 0 {
                lemma_term_ok(namer, d, n.inner[0]);
                let (r0, d1) = term_with(namer, d, n.inner[0]);
                match r0 {
                    TermView::Token(TokenView::Ident(name)) => {
                        let rest = n.inner.subrange(1, n.inner.len() as int);
                        assert(body_ok(seq![], d1.len()));
                        lemma_terms_ok(namer, d1, rest, seq![]);
                        let (b, d2) = terms_with(namer, d1, rest, seq![]);
                        lemma_changes_trans(d, d1, d2);
                        match b {
                            Some(body) => {
                                lemma_add_ok(d2, name, body);
                                lemma_changes_trans(d, d2, add_word(d2, name, body).0);
                            },
                            None => {},
                        }
                    },
                    _ => {},
                }
            }
        },
        Rule::Quote => {
            assert(body_ok(seq![], d.len()));
            lemma_terms_ok(namer, d, n.inner, seq![]);
            let (b, d1) = terms_with(namer, d, n.inner, seq![]);
            match b {
                Some(q) => {
                    lemma_add_ok(d1, namer(d1), q);
                    lemma_changes_trans(d, d1, add_word(d1, namer(d1), q).0);
                },
                None => {},
            }
        },
        Rule::Reference => {
            match crate::parser::after_first(t) {
                Some(name) => lemma_find_word(d, name),
                None => {},
            }
        },
        Rule::Word => {
            lemma_find_word(d, t);
        },
        _ => {},
    }
}

/// The same, for a list of nodes read after the tokens `acc`.
pub proof fn lemma_terms_ok(namer: spec_fn(DictView) -> Seq<char>, d: DictView, nodes: Seq<NodeView>, acc: Seq<TokenView>)
    requires
        body_ok(acc, d.len()),
        forall|k: int| 0 <= k < acc.len() ==> !(#[trigger] acc[k] is Address),
    ensures
        ({
            let (r, d2) = terms_with(namer, d, nodes, acc);
            &&& changes_ok(d, d2)
            &&& dict_ok(d) ==> dict_ok(d2)
            &&& dict_names_ok(d) ==> dict_names_ok(d2)
            &&& r matches Some(t) ==> body_ok(t, d2.len()) && forall|k: int|
                0 <= k < t.len() ==> !(#[trigger] t[k] is Address)
        }),
    decreases nodes, nodes.len(),
{
    if nodes.len() == 0 {
        assert(changes_ok(d, d));
    } else {
        lemma_term_ok(namer, d, nodes[0]);
        let (r, d1) = term_with(namer, d, nodes[0]);
        let rest = nodes.subrange(1, nodes.len() as int);
        lemma_body_grow(acc, d.len(), d1.len());
        match r {
            TermView::Stuck => {},
            TermView::Skip => {
                lemma_terms_ok(namer, d1, rest, acc);
                lemma_changes_trans(d, d1, terms_with(namer, d1, rest, acc).1);
            },
            TermView::Token(x) => {
                lemma_body_push(acc, x, d1.len());
                assert forall|k: int| 0 <= k < acc.push(x).len() implies !(#[trigger] acc.push(x)[k] is Address) by {
                    if k < acc.len() {
                        assert(acc.push(x)[k] == acc[k]);
                    }
                }
                lemma_terms_ok(namer, d1, rest, acc.push(x));
                lemma_changes_trans(d, d1, terms_with(namer, d1, rest, acc.push(x)).1);
            },
        }
    }
}

/// Reading a parse tree, whatever names its quotations get (`terms` is the
/// reading with the names of `quote_namer`), never removes or renames a word
/// (an entry that changed has a body of tokens, new words go at the end),
/// keeps a well-formed dictionary well formed, and gives tokens that name
/// only words of the dictionary it leaves and hold no address.
pub proof fn law_tree_reader_keeps_dictionary(
    namer: spec_fn(DictView) -> Seq<char>,
    d: DictView,
    nodes: Seq<NodeView>,
)
    ensures
        changes_ok(d, terms_with(namer, d, nodes, seq![]).1),
        dict_ok(d) ==> dict_ok(terms_with(namer, d, nodes, seq![]).1),
        dict_names_ok(d) ==> dict_names_ok(terms_with(namer, d, nodes, seq![]).1),
        terms_with(namer, d, nodes, seq![]).0 matches Some(t) ==> body_ok(
            t,
            terms_with(namer, d, nodes, seq![]).1.len(),
        ) && forall|k: int| 0 <= k < t.len() ==> !(#[trigger] t[k] is Address),
{
    assert(body_ok(seq![], d.len()));
    lemma_terms_ok(namer, d, nodes, seq![]);
}

/// Every body of the dictionary fits in memory (as each one held in a `Vec`
/// does).
pub open spec fn dict_fits(d: DictView) -> bool {
    &&& d.len() <= usize::MAX
    &&& forall|w: int| 0 <= w < d.len() ==> (#[trigger] d[w].1 matches ProcView::User(b) ==> b.len() <= usize::MAX)
}

/// A state of the interpreter that it can run: every word that a body of the
/// dictionary calls is in the dictionary, the dictionary fits in memory,
/// every frame names a word with a body, and the pointer of every frame
/// below the top one can still move on when the frame above returns.
pub open spec fn machine_ok(d: DictView, rs: Seq<(usize, usize)>) -> bool {
    &&& dict_names_ok(d)
    &&& dict_fits(d)
    &&& forall|j: int| 0 <= j < rs.len() ==> (#[trigger] rs[j]).0 < d.len() && d[rs[j].0 as int].1 is User
    &&& forall|j: int| 0 <= j < rs.len() - 1 ==> (#[trigger] rs[j]).1 < usize::MAX
}

/// From a state the interpreter can run, a step never panics, and the state
/// after it can be run too (whatever the step pushed on the data stack).
pub proof fn law_step_keeps_machine_ok(pile: Seq<TokenView>, d: DictView, rs: Seq<(usize, usize)>)
    requires
        machine_ok(d, rs),
    ensures
        step_defined(d, rs),
        machine_ok(d, step_spec(pile, d, rs).2),
{
    if rs.len() == 0 {
        return;
    }
    let n = rs.len();
    let (w, ip) = rs.last();
    let body = top_body(d, rs);
    assert(rs[n - 1] == rs.last());
    assert(d[w as int].1 matches ProcView::User(b) ==> b.len() <= usize::MAX);
    if n >= 2 {
        assert(rs[n - 2].1 < usize::MAX);
    }
    if ip < body.len() {
        match body[ip as int] {
            TokenView::Symbol(s) => {
                assert(body[ip as int] matches TokenView::Symbol(s) ==> s < d.len());
            },
            _ => {},
        }
    }
    assert(step_defined(d, rs));
    let rs2 = step_spec(pile, d, rs).2;
    assert forall|j: int| 0 <= j < rs2.len() implies (#[trigger] rs2[j]).0 < d.len() && d[rs2[j].0 as int].1 is User by {
        if ip < body.len() {
            match body[ip as int] {
                TokenView::Symbol(s) => {
                    assert(body[ip as int] matches TokenView::Symbol(s) ==> s < d.len());
                    if j < rs.len() {
                        assert(rs2[j] == rs[j]);
                    }
                },
                _ => {
                    if j < rs.len() - 1 {
                        assert(rs2[j] == rs[j]);
                    }
                },
            }
        } else {
            if j < rs.len() - 2 {
                assert(rs2[j] == rs[j]);
            }
        }
    }
    assert forall|j: int| 0 <= j < rs2.len() - 1 implies (#[trigger] rs2[j]).1 < usize::MAX by {
        if ip < body.len() && (body[ip as int] matches TokenView::Symbol(s) && d[s as int].1 is User) {
            if j < rs.len() - 1 {
                assert(rs2[j] == rs[j]);
            } else {
                assert(rs2[j] == rs.last());
            }
        } else if j < rs.len() - 1 {
            assert(rs2[j] == rs[j]);
        }
    }
}

pub proof fn lemma_names_grow(b: Seq<TokenView>, n: nat, m: nat)
    requires
        names_ok(b, n),
        n <= m,
    ensures
        names_ok(b, m),
{
    assert forall|k: int| 0 <= k < b.len() implies (#[trigger] b[k] matches TokenView::Symbol(s) ==> s < m) by {
        assert(b[k] matches TokenView::Symbol(s) ==> s < n);
    }
}

pub proof fn lemma_body_names(b: Seq<TokenView>, n: nat)
    requires
        body_ok(b, n),
        n <= usize::MAX,
    ensures
        names_ok(b, n),
{
    assert forall|k: int| 0 <= k < b.len() implies (#[trigger] b[k] matches TokenView::Symbol(s) ==> s < n) by {
        assert(token_refs_ok(b[k], n));
    }
}

/// Filing the program as `main` and starting it, from an empty return stack,
/// with a dictionary whose bodies call only its words and a program that
/// calls only words of the dictionary once `main` is filed, gives a state the
/// interpreter can run.
pub proof fn law_start_gives_machine_ok(d: DictView, code: Seq<TokenView>)
    requires
        dict_names_ok(d),
        dict_fits(d),
        d.len() < usize::MAX,
        code.len() <= usize::MAX,
        names_ok(code, add_word(d, "main"@, code).0.len()),
    ensures
        machine_ok(
            add_word(d, "main"@, code).0,
            seq![(add_word(d, "main"@, code).1 as usize, 0usize)],
        ),
{
    lemma_find_word(d, "main"@);
    let (d2, i) = add_word(d, "main"@, code);
    crate::env::law_find_after_add(d, "main"@, code);
    let rs = seq![(i as usize, 0usize)];
    assert(rs[0].0 == i);
    assert forall|w: int| 0 <= w < d2.len() implies (#[trigger] d2[w].1 matches ProcView::User(b) ==> b.len() <= usize::MAX) by {
        if w != i {
            assert(d2[w] == d[w]);
        }
    }
    assert forall|w: int| 0 <= w < d2.len() implies (#[trigger] d2[w].1 matches ProcView::User(b) ==> names_ok(b, d2.len())) by {
        if w != i {
            assert(d2[w] == d[w]);
            match d[w].1 {
                ProcView::User(b) => lemma_names_grow(b, d.len(), d2.len()),
                _ => {},
            }
        }
    }
}

/// A primitive that moves the pointer of the top frame anywhere (a jump)
/// keeps a runnable state runnable.
pub proof fn law_jump_keeps_machine_ok(d: DictView, rs: Seq<(usize, usize)>, ip: usize)
    requires
        machine_ok(d, rs),
        rs.len() > 0,
    ensures
        machine_ok(d, rs.update(rs.len() - 1, (rs.last().0, ip))),
{
    let rs2 = rs.update(rs.len() - 1, (rs.last().0, ip));
    assert forall|j: int| 0 <= j < rs2.len() implies (#[trigger] rs2[j]).0 < d.len() && d[rs2[j].0 as int].1 is User by {
        assert(rs2[j].0 == rs[j].0);
    }
    assert forall|j: int| 0 <= j < rs2.len() - 1 implies (#[trigger] rs2[j]).1 < usize::MAX by {
        assert(rs2[j] == rs[j]);
    }
}

/// A primitive that returns from the top frame (drops it) keeps a runnable
/// state runnable.
pub proof fn law_return_keeps_machine_ok(d: DictView, rs: Seq<(usize, usize)>)
    requires
        machine_ok(d, rs),
        rs.len() > 0,
    ensures
        machine_ok(d, rs.drop_last()),
{
    let rs2 = rs.drop_last();
    assert forall|j: int| 0 <= j < rs2.len() implies (#[trigger] rs2[j]).0 < d.len() && d[rs2[j].0 as int].1 is User by {
        assert(rs2[j] == rs[j]);
    }
    assert forall|j: int| 0 <= j < rs2.len() - 1 implies (#[trigger] rs2[j]).1 < usize::MAX by {
        assert(rs2[j] == rs[j]);
    }
}

/// A primitive that leaves the return stack as it was and asks for the
/// pointer to move on keeps a runnable state runnable.
pub proof fn law_after_builtin_keeps_machine_ok(d: DictView, rs: Seq<(usize, usize)>)
    requires
        machine_ok(d, rs),
        rs.len() > 0,
    ensures
        machine_ok(d, bump_top(rs)),
{
    let rs2 = bump_top(rs);
    assert forall|j: int| 0 <= j < rs2.len() implies (#[trigger] rs2[j]).0 < d.len() && d[rs2[j].0 as int].1 is User by {
        assert(rs2[j].0 == rs[j].0);
    }
    assert forall|j: int| 0 <= j < rs2.len() - 1 implies (#[trigger] rs2[j]).1 < usize::MAX by {
        assert(rs2[j] == rs[j]);
    }
}


/// A program that the reader accepts, read with a well-formed dictionary,
/// filed as `main` and started from an empty return stack, gives a state the
/// interpreter can run: each step from there is defined, and so is every step
/// after it (by `law_step_keeps_machine_ok`) until a primitive changes the
/// state otherwise.
pub proof fn law_read_program_runs(d: DictView, input: Seq<char>)
    requires
        dict_names_ok(d),
        lex_spec(d, input, false).0 is Done,
        dict_fits(lex_spec(d, input, false).1),
        lex_spec(d, input, false).1.len() < usize::MAX,
        lex_spec(d, input, false).0->Done_1.len() <= usize::MAX,
    ensures
        ({
            let (r, d2) = lex_spec(d, input, false);
            let code = r->Done_1;
            machine_ok(
                add_word(d2, "main"@, code).0,
                seq![(add_word(d2, "main"@, code).1 as usize, 0usize)],
            )
        }),
{
    law_lex_keeps_dictionary(d, input, false);
    let (r, d2) = lex_spec(d, input, false);
    let code = r->Done_1;
    lemma_body_names(code, d2.len());
    lemma_find_word(d2, "main"@);
    lemma_names_grow(code, d2.len(), add_word(d2, "main"@, code).0.len());
    law_start_gives_machine_ok(d2, code);
}


proof fn lemma_run_plain_body(
    pile: Seq<TokenView>,
    d: DictView,
    m: usize,
    code: Seq<TokenView>,
    k: nat,
)
    requires
        m < d.len(),
        d[m as int].1 == ProcView::User(code),
        code.len() <= usize::MAX,
        k <= code.len(),
        forall|j: int| 0 <= j < code.len() ==> !(#[trigger] code[j] is Symbol),
    ensures
        run_steps(pile, d, seq![(m, k as usize)], (code.len() - k + 1) as nat) == (
            pile + pushed(code.subrange(k as int, code.len() as int)),
            Seq::<(usize, usize)>::empty(),
        ),
    decreases code.len() - k,
{
    let rs = seq![(m, k as usize)];
    assert(top_body(d, rs) == code);
    let rest = code.subrange(k as int, code.len() as int);
    if k == code.len() {
        assert(rest =~= Seq::<TokenView>::empty());
        assert(pile + pushed(rest) =~= pile);
        assert(rs.drop_last() =~= Seq::<(usize, usize)>::empty());
        assert(run_steps(pile, d, rs, 1) == run_steps(pile, d, rs.drop_last(), 0));
    } else {
        let n1 = (code.len() - (k + 1) + 1) as nat;
        lemma_run_plain_body(pile, d, m, code, k + 1);
        assert(rest.drop_first() =~= code.subrange((k + 1) as int, code.len() as int));
        assert(rest[0] == code[k as int]);
        assert(bump_top(rs) =~= seq![(m, (k + 1) as usize)]);
        assert(!(code[k as int] is Symbol));
        match code[k as int] {
            TokenView::Nop => {},
            TokenView::SymbRef(i) => {
                let p2 = pile.push(TokenView::Symbol(i));
                lemma_run_plain_body(p2, d, m, code, k + 1);
                assert(p2 + pushed(code.subrange((k + 1) as int, code.len() as int)) =~= pile + (seq![
                    TokenView::Symbol(i),
                ] + pushed(code.subrange((k + 1) as int, code.len() as int))));
            },
            t => {
                let p2 = pile.push(t);
                lemma_run_plain_body(p2, d, m, code, k + 1);
                assert(p2 + pushed(code.subrange((k + 1) as int, code.len() as int)) =~= pile + (seq![t]
                    + pushed(code.subrange((k + 1) as int, code.len() as int))));
            },
        }
    }
}

/// Running a body that calls no word, from a return stack that holds only
/// its frame at the start, takes one step per token and one more to return:
/// afterwards the return stack is empty and the data stack holds what it held
/// before followed by the body's tokens in order, without the labels and with
/// each reference to a word turned into that word.
pub proof fn law_run_plain_body(pile: Seq<TokenView>, d: DictView, m: usize, code: Seq<TokenView>)
    requires
        m < d.len(),
        d[m as int].1 == ProcView::User(code),
        code.len() <= usize::MAX,
        forall|j: int| 0 <= j < code.len() ==> !(#[trigger] code[j] is Symbol),
    ensures
        run_steps(pile, d, seq![(m, 0usize)], (code.len() + 1) as nat) == (
            pile + pushed(code),
            Seq::<(usize, usize)>::empty(),
        ),
{
    lemma_run_plain_body(pile, d, m, code, 0);
    assert(code.subrange(0, code.len() as int) =~= code);
}


/// The body of the word at index `w` (empty for a primitive).
pub open spec fn word_body(d: DictView, w: int) -> Seq<TokenView> {
    match d[w].1 {
        ProcView::User(b) => b,
        ProcView::Builtin(_) => seq![],
    }
}

/// The word with a body that a token calls, if it calls one.
pub open spec fn callee(d: DictView, t: TokenView) -> Option<int> {
    match t {
        TokenView::Symbol(s) => if s < d.len() && d[s as int].1 is User {
            Some(s as int)
        } else {
            None
        },
        _ => None,
    }
}

/// The return stack after one step, when a primitive that the step meets
/// returns without touching the return stack and lets the pointer move on.
pub open spec fn frames_step(d: DictView, rs: Seq<(usize, usize)>) -> Seq<(usize, usize)> {
    match step_spec(seq![], d, rs).0 {
        StepView::CallBuiltin(_) => bump_top(rs),
        _ => step_spec(seq![], d, rs).2,
    }
}

/// The return stack after `n` such steps.
pub open spec fn frames_after(d: DictView, rs: Seq<(usize, usize)>, n: nat) -> Seq<(usize, usize)>
    decreases n,
{
    if n == 0 {
        rs
    } else {
        frames_after(d, frames_step(d, rs), (n - 1) as nat)
    }
}

/// The words of `reach` call only words of `reach`, each of lower `rank`:
/// no chain of calls from a word of `reach` comes back to a word already
/// running.
pub open spec fn calls_ranked(d: DictView, reach: Set<int>, rank: spec_fn(int) -> nat) -> bool {
    forall|w: int, k: int|
        #![trigger reach.contains(w), word_body(d, w)[k]]
        reach.contains(w) && 0 <= k < word_body(d, w).len() ==> match callee(d, word_body(d, w)[k]) {
            Some(s) => reach.contains(s) && rank(s) < rank(w),
            None => true,
        }
}

/// The words of `reach` call no primitive.
pub open spec fn calls_no_primitive(d: DictView, reach: Set<int>) -> bool {
    forall|w: int, k: int|
        #![trigger reach.contains(w), word_body(d, w)[k]]
        reach.contains(w) && 0 <= k < word_body(d, w).len() ==> (word_body(d, w)[k] matches TokenView::Symbol(
            s,
        ) ==> s < d.len() ==> d[s as int].1 is User)
}

/// The number of steps that running word `w` from token `k` on takes, up to
/// and with its return, where the words it calls are ranked by `rank`.
pub open spec fn run_cost(d: DictView, rank: spec_fn(int) -> nat, w: int, k: int) -> nat
    decreases rank(w), word_body(d, w).len() - k,
{
    let b = word_body(d, w);
    if k < 0 || k >= b.len() {
        1
    } else {
        let rest = run_cost(d, rank, w, k + 1);
        match callee(d, b[k]) {
            Some(s) => if rank(s) < rank(w) {
                1 + run_cost(d, rank, s, 0) + rest
            } else {
                1 + rest
            },
            None => 1 + rest,
        }
    }
}

/// What the frames below the top one still have to run once the calls they
/// stand at have returned.
pub open spec fn below_cost(d: DictView, rank: spec_fn(int) -> nat, rs: Seq<(usize, usize)>) -> nat
    decreases rs.len(),
{
    if rs.len() == 0 {
        0
    } else {
        run_cost(d, rank, rs.last().0 as int, rs.last().1 + 1) + below_cost(d, rank, rs.drop_last())
    }
}

/// The number of steps left before the return stack runs out.
pub open spec fn stack_cost(d: DictView, rank: spec_fn(int) -> nat, rs: Seq<(usize, usize)>) -> nat {
    if rs.len() == 0 {
        0
    } else {
        run_cost(d, rank, rs.last().0 as int, rs.last().1 as int) + below_cost(d, rank, rs.drop_last())
    }
}

/// A runnable state whose frames all run words of `reach`.
pub open spec fn frames_in(d: DictView, reach: Set<int>, rs: Seq<(usize, usize)>) -> bool {
    &&& machine_ok(d, rs)
    &&& forall|j: int| 0 <= j < rs.len() ==> reach.contains(#[trigger] rs[j].0 as int)
}

proof fn lemma_frames_step_cost(d: DictView, reach: Set<int>, rank: spec_fn(int) -> nat, rs: Seq<(usize, usize)>)
    requires
        calls_ranked(d, reach, rank),
        frames_in(d, reach, rs),
        rs.len() > 0,
    ensures
        frames_in(d, reach, frames_step(d, rs)),
        stack_cost(d, rank, frames_step(d, rs)) + 1 == stack_cost(d, rank, rs),
{
    law_step_keeps_machine_ok(seq![], d, rs);
    let n = rs.len();
    let (w, ip) = rs.last();
    assert(rs[n - 1] == rs.last());
    let b = top_body(d, rs);
    assert(b == word_body(d, w as int));
    assert(reach.contains(w as int));
    let rs2 = frames_step(d, rs);
    assert(d[w as int].1 matches ProcView::User(x) ==> x.len() <= usize::MAX);
    if ip >= b.len() {
        let rs1 = rs.drop_last();
        assert(run_cost(d, rank, w as int, ip as int) == 1);
        assert(rs2 == if rs1.len() > 0 { bump_top(rs1) } else { rs1 });
        if rs1.len() > 0 {
            assert(rs1[rs1.len() - 1] == rs[n - 2]);
            assert(rs1.last().1 < usize::MAX);
            let w1 = rs1.last().0;
            assert(rs2.drop_last() =~= rs1.drop_last());
            assert(rs2.last() == (w1, (rs1.last().1 + 1) as usize));
        }
    } else {
        let t = b[ip as int];
        assert(run_cost(d, rank, w as int, ip as int) == 1 + match callee(d, t) {
            Some(s) => if rank(s) < rank(w as int) {
                run_cost(d, rank, s, 0) + run_cost(d, rank, w as int, ip + 1)
            } else {
                run_cost(d, rank, w as int, ip + 1)
            },
            None => run_cost(d, rank, w as int, ip + 1),
        });
        match callee(d, t) {
            Some(s) => {
                assert(reach.contains(s) && rank(s) < rank(w as int));
                assert(rs2 == rs.push((s as usize, 0usize)));
                assert(rs2.drop_last() =~= rs);
                assert forall|j: int| 0 <= j < rs2.len() implies reach.contains(#[trigger] rs2[j].0 as int) by {
                    if j < n {
                        assert(rs2[j] == rs[j]);
                    }
                }
            },
            None => {
                law_after_builtin_keeps_machine_ok(d, rs);
                assert(rs2 == bump_top(rs));
                assert(rs2.drop_last() =~= rs.drop_last());
                assert forall|j: int| 0 <= j < rs2.len() implies reach.contains(#[trigger] rs2[j].0 as int) by {
                    assert(rs2[j].0 == rs[j].0);
                }
            },
        }
    }
}

proof fn lemma_frames_cost(d: DictView, reach: Set<int>, rank: spec_fn(int) -> nat, rs: Seq<(usize, usize)>, n: nat)
    requires
        calls_ranked(d, reach, rank),
        frames_in(d, reach, rs),
        n <= stack_cost(d, rank, rs),
    ensures
        frames_in(d, reach, frames_after(d, rs, n)),
        stack_cost(d, rank, frames_after(d, rs, n)) + n == stack_cost(d, rank, rs),
    decreases n,
{
    if n > 0 {
        lemma_frames_step_cost(d, reach, rank, rs);
        lemma_frames_cost(d, reach, rank, frames_step(d, rs), (n - 1) as nat);
    }
}

proof fn lemma_run_steps_frames(pile: Seq<TokenView>, d: DictView, reach: Set<int>, rank: spec_fn(int) -> nat, rs: Seq<(usize, usize)>, n: nat)
    requires
        calls_ranked(d, reach, rank),
        calls_no_primitive(d, reach),
        frames_in(d, reach, rs),
        n <= stack_cost(d, rank, rs),
    ensures
        run_steps(pile, d, rs, n).1 == frames_after(d, rs, n),
    decreases n,
{
    if n > 0 {
        law_step_keeps_machine_ok(pile, d, rs);
        let (w, ip) = rs.last();
        assert(rs[rs.len() - 1] == rs.last());
        let b = top_body(d, rs);
        assert(b == word_body(d, w as int));
        assert(reach.contains(w as int));
        if ip < b.len() {
            assert(b[ip as int] matches TokenView::Symbol(s) ==> s < d.len() ==> d[s as int].1 is User);
        }
        assert(step_spec(pile, d, rs).2 == step_spec(seq![], d, rs).2);
        assert(frames_step(d, rs) == step_spec(pile, d, rs).2);
        lemma_frames_step_cost(d, reach, rank, rs);
        lemma_run_steps_frames(step_spec(pile, d, rs).1, d, reach, rank, frames_step(d, rs), (n - 1) as nat);
    }
}

/// A program whose chains of calls never come back to a word already
/// running halts. Let every word of `reach` call only words of `reach` of
/// lower `rank`, and start from a runnable state with `m` of `reach` as the
/// only frame. When each primitive met returns without touching the return
/// stack and lets the pointer move on, the return stack runs out after
/// exactly `run_cost(d, rank, m, 0)` steps, and every step before is
/// defined. Where the words of `reach` call no primitive at all, the
/// interpreter's own steps (`run_steps`) end there too.
pub proof fn law_acyclic_program_halts(
    pile: Seq<TokenView>,
    d: DictView,
    reach: Set<int>,
    rank: spec_fn(int) -> nat,
    m: usize,
)
    requires
        calls_ranked(d, reach, rank),
        reach.contains(m as int),
        machine_ok(d, seq![(m, 0usize)]),
    ensures
        frames_after(d, seq![(m, 0usize)], run_cost(d, rank, m as int, 0)).len() == 0,
        forall|n: nat|
            n < run_cost(d, rank, m as int, 0) ==> (#[trigger] frames_after(d, seq![(m, 0usize)], n)).len() > 0
                && step_defined(d, frames_after(d, seq![(m, 0usize)], n)),
        calls_no_primitive(d, reach) ==> run_steps(pile, d, seq![(m, 0usize)], run_cost(d, rank, m as int, 0)).1.len()
            == 0,
{
    let rs = seq![(m, 0usize)];
    assert(rs.last() == (m, 0usize));
    assert(rs.drop_last() =~= Seq::<(usize, usize)>::empty());
    assert(stack_cost(d, rank, rs) == run_cost(d, rank, m as int, 0));
    assert(frames_in(d, reach, rs)) by {
        assert forall|j: int| 0 <= j < rs.len() implies reach.contains(#[trigger] rs[j].0 as int) by {
            assert(rs[j] == (m, 0usize));
        }
    }
    let c = run_cost(d, rank, m as int, 0);
    lemma_frames_cost(d, reach, rank, rs, c);
    let fin = frames_after(d, rs, c);
    if fin.len() > 0 {
        assert(stack_cost(d, rank, fin) >= 1);
    }
    assert forall|n: nat| n < c implies (#[trigger] frames_after(d, rs, n)).len() > 0 && step_defined(
        d,
        frames_after(d, rs, n),
    ) by {
        lemma_frames_cost(d, reach, rank, rs, n);
        law_step_keeps_machine_ok(seq![], d, frames_after(d, rs, n));
    }
    if calls_no_primitive(d, reach) {
        lemma_run_steps_frames(pile, d, reach, rank, rs, c);
    }
}

} // verus!
