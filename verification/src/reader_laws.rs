use vstd::prelude::*;
use vstd::utf8::*;

use crate::env::{add_word, find_word, DictView, ProcView};
use crate::lexer::{
    byte_suffix, eat_end, is_nonsymb, is_sugar, lex_loop, namer_fresh, stops, LexView,
    Stop,
};
use crate::number::is_float_literal;
use crate::text::{is_white_space, strip_underscores};
use crate::token::{NumberView, TokenView};

verus! {

// What the reader does at each kind of character, stated over positions of
// the text: the character under the reader, where the piece it starts ends,
// and what reading goes on with.

/// A run that starts at `c` and meets no stopping character before `j`, and
/// one at `j` (or the end of the text), ends at `j`.
proof fn lemma_eat_end_at(chs: Seq<char>, c: int, j: int, stop: Stop)
    requires
        0 <= c <= j <= chs.len(),
        forall|m: int| c <= m < j ==> !stops(stop, #[trigger] chs[m]),
        j == chs.len() || stops(stop, chs[j]),
    ensures
        eat_end(chs, c, stop) == j,
    decreases j - c,
{
    if c < j {
        lemma_eat_end_at(chs, c + 1, j, stop);
    }
}

/// Characters whose code is below 128 take one byte each in UTF-8.
pub open spec fn ascii_before(input: Seq<char>, b: int) -> bool {
    forall|m: int| 0 <= m < b ==> (#[trigger] input[m]) as u32 <= 0x7F
}

proof fn lemma_ascii_prefix_bytes(input: Seq<char>, b: int)
    requires
        0 <= b <= input.len(),
        ascii_before(input, b),
    ensures
        is_char_boundary(encode_utf8(input), b),
        encode_utf8(input).subrange(b, encode_utf8(input).len() as int) == encode_utf8(
            input.subrange(b, input.len() as int),
        ),
    decreases b,
{
    broadcast use encode_utf8_valid_utf8;

    let bytes = encode_utf8(input);
    if b == 0 {
        assert(bytes.subrange(0, bytes.len() as int) =~= bytes);
        assert(input.subrange(0, input.len() as int) =~= input);
    } else {
        let t = input.drop_first();
        assert forall|m: int| 0 <= m < b - 1 implies (#[trigger] t[m]) as u32 <= 0x7F by {
            assert(t[m] == input[m + 1]);
        }
        lemma_ascii_prefix_bytes(t, b - 1);
        assert(input[0] as u32 <= 0x7F);
        encode_utf8_first_scalar(input);
        assert(encode_scalar(input[0] as u32).len() == 1);
        assert(bytes == encode_scalar(input[0] as u32) + encode_utf8(t));
        assert(pop_first_scalar(bytes) =~= encode_utf8(t));
        assert(bytes.subrange(b, bytes.len() as int) =~= encode_utf8(t).subrange(
            b - 1,
            encode_utf8(t).len() as int,
        ));
        assert(t.subrange(b - 1, t.len() as int) =~= input.subrange(b, input.len() as int));
    }
}

/// After characters that each take one byte, the text after byte `b` is the
/// text after character `b`.
pub proof fn lemma_ascii_byte_suffix(input: Seq<char>, b: int)
    requires
        0 <= b <= input.len(),
        ascii_before(input, b),
    ensures
        byte_suffix(input, b) == Some(input.subrange(b, input.len() as int)),
{
    broadcast use encode_utf8_decode_utf8;

    lemma_ascii_prefix_bytes(input, b);
}

/// A comment `( ... )` is skipped: reading from its `(` goes on two
/// characters after the first `)` that follows (the character right after
/// the `)` is skipped with it, as the original reader does).
pub proof fn law_comment_is_skipped(
    namer: spec_fn(DictView) -> Seq<char>,
    d: DictView,
    input: Seq<char>,
    in_def: bool,
    i: nat,
    labels: Map<Seq<char>, usize>,
    toks: Seq<TokenView>,
    j: int,
)
    requires
        i < j < input.len(),
        input[i as int] == '(',
        input[j] == ')',
        forall|m: int| i < m < j ==> #[trigger] input[m] != ')',
    ensures
        lex_loop(namer, d, input, in_def, i, labels, toks) == lex_loop(
            namer,
            d,
            input,
            in_def,
            (j + 2) as nat,
            labels,
            toks,
        ),
{
    lemma_eat_end_at(input, (i + 1) as int, j, Stop::At(')'));
}

/// A `(` with no `)` after it is refused.
pub proof fn law_unmatched_paren(
    namer: spec_fn(DictView) -> Seq<char>,
    d: DictView,
    input: Seq<char>,
    in_def: bool,
    i: nat,
    labels: Map<Seq<char>, usize>,
    toks: Seq<TokenView>,
)
    requires
        i < input.len(),
        input[i as int] == '(',
        forall|m: int| i < m < input.len() ==> #[trigger] input[m] != ')',
    ensures
        lex_loop(namer, d, input, in_def, i, labels, toks) == (LexView::Failed("unmatched ("@), d),
{
    lemma_eat_end_at(input, (i + 1) as int, input.len() as int, Stop::At(')'));
}

/// A `\` starts a comment that runs to the end of the line: reading goes on
/// after the first newline that comes after the character following the `\`.
pub proof fn law_line_comment_is_skipped(
    namer: spec_fn(DictView) -> Seq<char>,
    d: DictView,
    input: Seq<char>,
    in_def: bool,
    i: nat,
    labels: Map<Seq<char>, usize>,
    toks: Seq<TokenView>,
    j: int,
)
    requires
        i < input.len(),
        (i + 2) as int <= j < input.len(),
        input[i as int] == '\\',
        input[j] == '\n',
        forall|m: int| (i + 2) as int <= m < j ==> #[trigger] input[m] != '\n',
    ensures
        lex_loop(namer, d, input, in_def, i, labels, toks) == lex_loop(
            namer,
            d,
            input,
            in_def,
            (j + 1) as nat,
            labels,
            toks,
        ),
{
    lemma_eat_end_at(input, (i + 2) as int, j, Stop::At('\n'));
}

/// A string `"..."` gives one string token holding the characters between
/// the quotes; a `"` with no `"` after it is refused.
pub proof fn law_string_literal(
    namer: spec_fn(DictView) -> Seq<char>,
    d: DictView,
    input: Seq<char>,
    in_def: bool,
    i: nat,
    labels: Map<Seq<char>, usize>,
    toks: Seq<TokenView>,
    j: int,
)
    requires
        i < input.len(),
        input[i as int] == '"',
        i < j <= input.len(),
        j == input.len() || input[j] == '"',
        forall|m: int| i < m < j ==> #[trigger] input[m] != '"',
    ensures
        j < input.len() ==> lex_loop(namer, d, input, in_def, i, labels, toks) == lex_loop(
            namer,
            d,
            input,
            in_def,
            (j + 1) as nat,
            labels,
            toks.push(TokenView::String(input.subrange((i + 1) as int, j))),
        ),
        j == input.len() ==> lex_loop(namer, d, input, in_def, i, labels, toks) == (
            LexView::Failed("unmatched \""@),
            d,
        ),
{
    lemma_eat_end_at(input, (i + 1) as int, j, Stop::At('"'));
}

/// At the end of the text reading stops with the tokens read, the index
/// being where it stopped.
pub proof fn law_end_of_text(
    namer: spec_fn(DictView) -> Seq<char>,
    d: DictView,
    input: Seq<char>,
    in_def: bool,
    i: nat,
    labels: Map<Seq<char>, usize>,
    toks: Seq<TokenView>,
)
    requires
        input.len() <= i,
    ensures
        lex_loop(namer, d, input, in_def, i, labels, toks) == (LexView::Done(i, toks), d),
{
}

/// `]` ends a quotation, and `;` a word definition: reading stops after it
/// with the tokens read. A `;` outside a definition and a `:` inside one are
/// refused.
pub proof fn law_enders(
    namer: spec_fn(DictView) -> Seq<char>,
    d: DictView,
    input: Seq<char>,
    in_def: bool,
    i: nat,
    labels: Map<Seq<char>, usize>,
    toks: Seq<TokenView>,
)
    requires
        i < input.len(),
    ensures
        input[i as int] == ']' ==> lex_loop(namer, d, input, in_def, i, labels, toks) == (
            LexView::Done(i + 1, toks),
            d,
        ),
        input[i as int] == ';' && in_def ==> lex_loop(namer, d, input, in_def, i, labels, toks) == (
            LexView::Done(i + 1, toks),
            d,
        ),
        input[i as int] == ';' && !in_def ==> lex_loop(namer, d, input, in_def, i, labels, toks) == (
            LexView::Failed("stray ;"@),
            d,
        ),
        input[i as int] == ':' && in_def ==> lex_loop(namer, d, input, in_def, i, labels, toks) == (
            LexView::Failed("found nested word definitions"@),
            d,
        ),
{
}

/// `$c` gives the number that is the code of the character `c`.
pub proof fn law_char_literal(
    namer: spec_fn(DictView) -> Seq<char>,
    d: DictView,
    input: Seq<char>,
    in_def: bool,
    i: nat,
    labels: Map<Seq<char>, usize>,
    toks: Seq<TokenView>,
)
    requires
        i + 1 < input.len(),
        input[i as int] == '$',
        !is_white_space(input[(i + 1) as int]),
    ensures
        lex_loop(namer, d, input, in_def, i, labels, toks) == lex_loop(
            namer,
            d,
            input,
            in_def,
            i + 2,
            labels,
            toks.push(TokenView::Number(NumberView::Char(input[(i + 1) as int] as u32))),
        ),
{
}

/// A name: the characters from `a` up to `j`, none of which ends a name,
/// with `j` at the end of the text or at a character that ends a name.
pub open spec fn name_run(input: Seq<char>, a: int, j: int) -> bool {
    &&& 0 <= a <= j <= input.len()
    &&& forall|m: int| a <= m < j ==> !is_nonsymb(#[trigger] input[m])
    &&& j == input.len() || is_nonsymb(input[j])
}

/// A plain word (one that starts with no character the reader treats
/// specially) is a number when, without its underscores, `f64::from_str`
/// accepts it; else it calls the first word of the dictionary with that
/// name; else it is refused as unknown.
pub proof fn law_plain_word(
    namer: spec_fn(DictView) -> Seq<char>,
    d: DictView,
    input: Seq<char>,
    in_def: bool,
    i: nat,
    labels: Map<Seq<char>, usize>,
    toks: Seq<TokenView>,
    j: int,
)
    requires
        i < j,
        name_run(input, i as int, j),
        !is_sugar(input[i as int]),
        input[i as int] != ':',
        input[i as int] != '\'',
    ensures
        ({
            let w = input.subrange(i as int, j);
            let r = lex_loop(namer, d, input, in_def, i, labels, toks);
            if is_float_literal(strip_underscores(w)) {
                r == lex_loop(
                    namer,
                    d,
                    input,
                    in_def,
                    j as nat,
                    labels,
                    toks.push(TokenView::Number(NumberView::Literal(strip_underscores(w)))),
                )
            } else {
                match find_word(d, w) {
                    Some(k) => r == lex_loop(
                        namer,
                        d,
                        input,
                        in_def,
                        j as nat,
                        labels,
                        toks.push(TokenView::Symbol(k as usize)),
                    ),
                    None => r == (LexView::Failed("unknown word "@ + w), d),
                }
            }
        }),
{
    assert(!is_nonsymb(input[i as int]));
    lemma_eat_end_at(input, i as int, j, Stop::NonSymbol);
}

/// `|name` marks a label: it gives a `Nop` token and files the label
/// `|name` at the index of that token.
pub proof fn law_label(
    namer: spec_fn(DictView) -> Seq<char>,
    d: DictView,
    input: Seq<char>,
    in_def: bool,
    i: nat,
    labels: Map<Seq<char>, usize>,
    toks: Seq<TokenView>,
    j: int,
)
    requires
        i + 1 < input.len(),
        input[i as int] == '|',
        !is_white_space(input[(i + 1) as int]),
        name_run(input, (i + 1) as int, j),
    ensures
        lex_loop(namer, d, input, in_def, i, labels, toks) == lex_loop(
            namer,
            d,
            input,
            in_def,
            j as nat,
            labels.insert(seq!['|'] + input.subrange((i + 1) as int, j), toks.len() as usize),
            toks.push(TokenView::Nop),
        ),
{
    lemma_eat_end_at(input, (i + 1) as int, j, Stop::NonSymbol);
    assert(toks.push(TokenView::Nop).len() - 1 == toks.len());
}

/// `&name` is the address of the label filed under `name`, if there is one;
/// else a reference to the first word of the dictionary with that name; else
/// it is refused.
pub proof fn law_address_or_reference(
    namer: spec_fn(DictView) -> Seq<char>,
    d: DictView,
    input: Seq<char>,
    in_def: bool,
    i: nat,
    labels: Map<Seq<char>, usize>,
    toks: Seq<TokenView>,
    j: int,
)
    requires
        i + 1 < input.len(),
        input[i as int] == '&',
        !is_white_space(input[(i + 1) as int]),
        name_run(input, (i + 1) as int, j),
    ensures
        ({
            let name = input.subrange((i + 1) as int, j);
            let r = lex_loop(namer, d, input, in_def, i, labels, toks);
            if labels.contains_key(name) {
                r == lex_loop(
                    namer,
                    d,
                    input,
                    in_def,
                    j as nat,
                    labels,
                    toks.push(TokenView::Address(labels[name])),
                )
            } else {
                match find_word(d, name) {
                    Some(k) => r == lex_loop(
                        namer,
                        d,
                        input,
                        in_def,
                        j as nat,
                        labels,
                        toks.push(TokenView::SymbRef(k as usize)),
                    ),
                    None => r == (LexView::Failed("Unknown label "@ + name), d),
                }
            }
        }),
{
    lemma_eat_end_at(input, (i + 1) as int, j, Stop::NonSymbol);
}

/// `'text` gives a string token holding the characters up to the next white
/// space.
pub proof fn law_quoted_word(
    namer: spec_fn(DictView) -> Seq<char>,
    d: DictView,
    input: Seq<char>,
    in_def: bool,
    i: nat,
    labels: Map<Seq<char>, usize>,
    toks: Seq<TokenView>,
    j: int,
)
    requires
        i < j <= input.len(),
        input[i as int] == '\'',
        forall|m: int| i < m < j ==> !is_white_space(#[trigger] input[m]),
        j == input.len() || is_white_space(input[j]),
    ensures
        lex_loop(namer, d, input, in_def, i, labels, toks) == lex_loop(
            namer,
            d,
            input,
            in_def,
            j as nat,
            labels,
            toks.push(TokenView::String(input.subrange((i + 1) as int, j))),
        ),
{
    lemma_eat_end_at(input, (i + 1) as int, j, Stop::WhiteSpace);
    if (i + 1) as int >= input.len() {
        assert(input.subrange((i + 1) as int, j) =~= Seq::<char>::empty());
    }
}

/// `!name` stores into the variable `name` and `@name` fetches it: they give
/// the string `name` followed by a call of the word `store` or `fetch`, and
/// the reader cannot go on where that word is missing.
pub proof fn law_store_and_fetch(
    namer: spec_fn(DictView) -> Seq<char>,
    d: DictView,
    input: Seq<char>,
    in_def: bool,
    i: nat,
    labels: Map<Seq<char>, usize>,
    toks: Seq<TokenView>,
    j: int,
)
    requires
        i + 1 < input.len(),
        input[i as int] == '!' || input[i as int] == '@',
        !is_white_space(input[(i + 1) as int]),
        name_run(input, (i + 1) as int, j),
    ensures
        ({
            let access = if input[i as int] == '!' {
                "store"@
            } else {
                "fetch"@
            };
            let r = lex_loop(namer, d, input, in_def, i, labels, toks);
            match find_word(d, access) {
                Some(k) => r == lex_loop(
                    namer,
                    d,
                    input,
                    in_def,
                    j as nat,
                    labels,
                    toks.push(TokenView::String(input.subrange((i + 1) as int, j))).push(
                        TokenView::Symbol(k as usize),
                    ),
                ),
                None => r == (LexView::Stuck, d),
            }
        }),
{
    lemma_eat_end_at(input, (i + 1) as int, j, Stop::NonSymbol);
}

/// After text whose characters take one byte each, a quotation `[ ... ]` is
/// read from the text that follows its `[`; its tokens are filed as a new
/// word at the end of the dictionary, under a name no word has, a reference
/// to that word is the token read, and reading goes on after the quotation.
pub proof fn law_quotation(
    namer: spec_fn(DictView) -> Seq<char>,
    d: DictView,
    input: Seq<char>,
    in_def: bool,
    i: nat,
    labels: Map<Seq<char>, usize>,
    toks: Seq<TokenView>,
)
    requires
        namer_fresh(namer),
        i < input.len(),
        input[i as int] == '[',
        ascii_before(input, (i + 1) as int),
    ensures
        ({
            let (r, d1) = lex_loop(namer, d, input.subrange((i + 1) as int, input.len() as int), false, 0, Map::empty(), seq![]);
            lex_loop(namer, d, input, in_def, i, labels, toks) == match r {
                LexView::Done(n, body) => lex_loop(
                    namer,
                    d1.push((namer(d1), ProcView::User(body))),
                    input,
                    in_def,
                    i + n + 1,
                    labels,
                    toks.push(TokenView::SymbRef(d1.len() as usize)),
                ),
                _ => (r, d1),
            }
        }),
{
    lemma_ascii_byte_suffix(input, (i + 1) as int);
    let (r, d1) = lex_loop(namer, d, input.subrange((i + 1) as int, input.len() as int), false, 0, Map::empty(), seq![]);
    assert(find_word(d1, namer(d1)) is None);
}

/// After text whose characters take one byte each, `: name body ;` (one
/// white-space character after the `:`) reads the body from the text after
/// the name, as a definition, files it as the word `name` (in place, when
/// the dictionary has that name), and goes on after the body's `;`.
pub proof fn law_definition(
    namer: spec_fn(DictView) -> Seq<char>,
    d: DictView,
    input: Seq<char>,
    i: nat,
    labels: Map<Seq<char>, usize>,
    toks: Seq<TokenView>,
    j: int,
)
    requires
        i + 1 < input.len(),
        input[i as int] == ':',
        is_white_space(input[(i + 1) as int]),
        name_run(input, (i + 2) as int, j),
        j < input.len(),
        ascii_before(input, j + 1),
    ensures
        ({
            let name = input.subrange((i + 2) as int, j);
            let (r, d1) = lex_loop(namer, d, input.subrange(j + 1, input.len() as int), true, 0, Map::empty(), seq![]);
            lex_loop(namer, d, input, false, i, labels, toks) == match r {
                LexView::Done(n, body) => lex_loop(
                    namer,
                    add_word(d1, name, body).0,
                    input,
                    false,
                    (j + n + 1) as nat,
                    labels,
                    toks,
                ),
                _ => (r, d1),
            }
        }),
{
    lemma_eat_end_at(input, (i + 1) as int, (i + 1) as int, Stop::WhiteSpace);
    lemma_eat_end_at(input, (i + 2) as int, j, Stop::NonSymbol);
    lemma_ascii_byte_suffix(input, j + 1);
}

} // verus!
