use vstd::prelude::*;

use crate::env::{add_word, find_word, DictView, ZfEnv};
use crate::lexer::{make_fresh_quote_name, quote_namer};
use crate::number::{float_literal, is_float_literal};
use crate::text::{chars_of, push_char, string_between};
use crate::token::{tokens_view, GuardItem, NumberView, TokenView, ZfNumber, ZfToken};

verus! {

// The second reader of zf: from a parse tree of the zf grammar (one node per
// match of a grammar rule, with the text it matched and the nodes inside it)
// to tokens, filing word declarations and quotations in the dictionary.

/// The rules of the zf grammar that the reader tells apart; `Other` is any
/// other rule.
#[derive(Clone, Copy, Debug, PartialEq, Eq, Structural)]
pub enum Rule {
    Eoi,
    Program,
    WordDecl,
    Quote,
    Integer,
    Float,
    String,
    Character,
    Reference,
    Word,
    Fetch,
    Store,
    Ident,
    Guard,
    Other,
}

/// A match of a grammar rule: the rule, the text it matched, and the matches
/// inside it, in order.
pub struct ParseNode {
    pub rule: Rule,
    pub text: String,
    pub inner: Vec<ParseNode>,
}

pub struct NodeView {
    pub rule: Rule,
    pub text: Seq<char>,
    pub inner: Seq<NodeView>,
}

impl View for ParseNode {
    type V = NodeView;

    open spec fn view(&self) -> NodeView
        decreases self,
    {
        NodeView {
            rule: self.rule,
            text: self.text@,
            inner: Seq::new(
                self.inner@.len(),
                |k: int|
                    if 0 <= k < self.inner@.len() {
                        self.inner@[k].view()
                    } else {
                        NodeView { rule: Rule::Other, text: seq![], inner: seq![] }
                    },
            ),
        }
    }
}

/// What reading one node gives.
pub enum TermView {
    /// No token (the end of input, or a word declaration).
    Skip,
    Token(TokenView),
    /// The reader panics on this node.
    Stuck,
}

pub open spec fn is_ascii_char(c: char) -> bool {
    (c as u32) < 0x80
}

/// `s.replace("''", "'")`: each pair of quotes, from left to right, becomes
/// one quote.
pub open spec fn unescape(s: Seq<char>) -> Seq<char>
    decreases s.len(),
{
    if s.len() >= 2 && s[0] == '\'' && s[1] == '\'' {
        seq!['\''] + unescape(s.subrange(2, s.len() as int))
    } else if s.len() == 0 {
        s
    } else {
        seq![s[0]] + unescape(s.subrange(1, s.len() as int))
    }
}

/// The guard item that a one-character text names.
pub open spec fn guard_item(t: Seq<char>) -> Option<GuardItem> {
    if t == seq!['a'] {
        Some(GuardItem::Any)
    } else if t == seq!['n'] {
        Some(GuardItem::Number)
    } else if t == seq!['s'] {
        Some(GuardItem::Str)
    } else if t == seq!['q'] {
        Some(GuardItem::Quote)
    } else if t == seq!['*'] {
        Some(GuardItem::Unchecked)
    } else {
        None
    }
}

/// The guard items that a list of nodes names, or `None` when one names none.
pub open spec fn guard_items(nodes: Seq<NodeView>) -> Option<Seq<GuardItem>>
    decreases nodes.len(),
{
    if nodes.len() == 0 {
        Some(seq![])
    } else {
        match (guard_items(nodes.drop_last()), guard_item(nodes.last().text)) {
            (Some(items), Some(g)) => Some(items.push(g)),
            _ => None,
        }
    }
}

/// The text after the first character, which slicing at byte 1 gives when
/// that character is ASCII (and panics on otherwise).
pub open spec fn after_first(t: Seq<char>) -> Option<Seq<char>> {
    if t.len() >= 1 && is_ascii_char(t[0]) {
        Some(t.drop_first())
    } else {
        None
    }
}

/// Reading one node with the dictionary `d`, a quotation being filed under
/// the name that `namer` gives for the dictionary at that point: the outcome
/// and the dictionary afterwards.
pub open spec fn term_with(namer: spec_fn(DictView) -> Seq<char>, d: DictView, n: NodeView) -> (
    TermView,
    DictView,
)
    decreases n, 1nat,
{
    let t = n.text;
    match n.rule {
        Rule::Eoi => (TermView::Skip, d),
        Rule::WordDecl => {
            if n.inner.len() == 0 {
                (TermView::Stuck, d)
            } else {
                let (r0, d1) = term_with(namer, d, n.inner[0]);
                match r0 {
                    TermView::Token(TokenView::Ident(name)) => {
                        let rest = n.inner.subrange(1, n.inner.len() as int);
                        let (b, d2) = terms_with(namer, d1, rest, seq![]);
                        match b {
                            Some(body) => (TermView::Skip, add_word(d2, name, body).0),
                            None => (TermView::Stuck, d2),
                        }
                    },
                    _ => (TermView::Stuck, d1),
                }
            }
        },
        Rule::Quote => {
            let (b, d1) = terms_with(namer, d, n.inner, seq![]);
            match b {
                Some(q) => {
                    let (d2, idx) = add_word(d1, namer(d1), q);
                    (TermView::Token(TokenView::SymbRef(idx as usize)), d2)
                },
                None => (TermView::Stuck, d1),
            }
        },
        Rule::Integer | Rule::Float => {
            if t.len() == 0 || !is_ascii_char(t[0]) {
                (TermView::Stuck, d)
            } else if t[0] == '_' {
                if is_float_literal(t.drop_first()) {
                    (TermView::Token(TokenView::Number(NumberView::Negated(t.drop_first()))), d)
                } else {
                    (TermView::Stuck, d)
                }
            } else {
                if is_float_literal(t) {
                    (TermView::Token(TokenView::Number(NumberView::Literal(t))), d)
                } else {
                    (TermView::Stuck, d)
                }
            }
        },
        Rule::String => {
            if t.len() >= 2 && is_ascii_char(t[0]) && is_ascii_char(t.last()) {
                (TermView::Token(TokenView::String(unescape(t.subrange(1, t.len() - 1)))), d)
            } else {
                (TermView::Stuck, d)
            }
        },
        Rule::Character => {
            if t.len() >= 2 && is_ascii_char(t[0]) {
                (TermView::Token(TokenView::Number(NumberView::Char(t[1] as u32))), d)
            } else {
                (TermView::Stuck, d)
            }
        },
        Rule::Reference => match after_first(t) {
            Some(name) => match find_word(d, name) {
                Some(i) => (TermView::Token(TokenView::SymbRef(i as usize)), d),
                None => (TermView::Stuck, d),
            },
            None => (TermView::Stuck, d),
        },
        Rule::Word => match find_word(d, t) {
            Some(i) => (TermView::Token(TokenView::Symbol(i as usize)), d),
            None => (TermView::Stuck, d),
        },
        Rule::Fetch => match after_first(t) {
            Some(name) => (TermView::Token(TokenView::Fetch(name)), d),
            None => (TermView::Stuck, d),
        },
        Rule::Store => match after_first(t) {
            Some(name) => (TermView::Token(TokenView::Store(name)), d),
            None => (TermView::Stuck, d),
        },
        Rule::Ident => (TermView::Token(TokenView::Ident(t)), d),
        Rule::Guard => {
            if n.inner.len() != 2 {
                (TermView::Stuck, d)
            } else {
                match (guard_items(n.inner[0].inner), guard_items(n.inner[1].inner)) {
                    (Some(before), Some(after)) => (TermView::Token(TokenView::Guard(before, after)), d),
                    _ => (TermView::Stuck, d),
                }
            }
        },
        _ => (TermView::Stuck, d),
    }
}

/// Reading a list of nodes in order, after the tokens `acc`: the tokens
/// (`None` when the reader panics on a node) and the dictionary afterwards.
pub open spec fn terms_with(
    namer: spec_fn(DictView) -> Seq<char>,
    d: DictView,
    nodes: Seq<NodeView>,
    acc: Seq<TokenView>,
) -> (
    Option<Seq<TokenView>>,
    DictView,
)
    decreases nodes, nodes.len(),
{
    if nodes.len() == 0 {
        (Some(acc), d)
    } else {
        let (r, d1) = term_with(namer, d, nodes[0]);
        match r {
            TermView::Stuck => (None, d1),
            TermView::Skip => terms_with(namer, d1, nodes.subrange(1, nodes.len() as int), acc),
            TermView::Token(x) => terms_with(namer, d1, nodes.subrange(1, nodes.len() as int), acc.push(x)),
        }
    }
}

/// Reading one node as this library does, quotations being named by
/// `fresh_quote_name`.
pub open spec fn term(d: DictView, n: NodeView) -> (TermView, DictView) {
    term_with(quote_namer(), d, n)
}

/// Reading a list of nodes as this library does.
pub open spec fn terms(d: DictView, nodes: Seq<NodeView>, acc: Seq<TokenView>) -> (
    Option<Seq<TokenView>>,
    DictView,
) {
    terms_with(quote_namer(), d, nodes, acc)
}


/// The tokens that calling the words named by `ws` gives, each word taken as
/// it is found in `d`.
pub open spec fn calls_of(d: DictView, ws: Seq<NodeView>) -> Seq<TokenView> {
    Seq::new(ws.len(), |k: int| TokenView::Symbol(find_word(d, ws[k].text)->0 as usize))
}

proof fn lemma_read_words(
    namer: spec_fn(DictView) -> Seq<char>,
    d: DictView,
    ws: Seq<NodeView>,
    acc: Seq<TokenView>,
)
    requires
        forall|k: int| 0 <= k < ws.len() ==> (#[trigger] ws[k]).rule == Rule::Word && find_word(d, ws[k].text) is Some,
    ensures
        terms_with(namer, d, ws, acc) == (Some(acc + calls_of(d, ws)), d),
    decreases ws.len(),
{
    if ws.len() == 0 {
        assert(acc + calls_of(d, ws) =~= acc);
    } else {
        let rest = ws.subrange(1, ws.len() as int);
        let x = TokenView::Symbol(find_word(d, ws[0].text)->0 as usize);
        assert(ws[0].rule == Rule::Word);
        assert(term_with(namer, d, ws[0]) == (TermView::Token(x), d));
        assert forall|k: int| 0 <= k < rest.len() implies (#[trigger] rest[k]).rule == Rule::Word && find_word(
            d,
            rest[k].text,
        ) is Some by {
            assert(rest[k] == ws[k + 1]);
        }
        lemma_read_words(namer, d, rest, acc.push(x));
        assert(acc.push(x) + calls_of(d, rest) =~= acc + calls_of(d, ws));
    }
}

/// A word declaration `: name w1 ... wk ;` whose words `w1 ... wk` are all in
/// the dictionary gives no token and files `name` with the body that calls
/// exactly those words, in order (the name itself is not part of the body);
/// whatever names quotations get.
pub proof fn law_word_declaration_body(
    namer: spec_fn(DictView) -> Seq<char>,
    d: DictView,
    text: Seq<char>,
    id: NodeView,
    ws: Seq<NodeView>,
)
    requires
        id.rule == Rule::Ident,
        forall|k: int| 0 <= k < ws.len() ==> (#[trigger] ws[k]).rule == Rule::Word && find_word(d, ws[k].text) is Some,
    ensures
        term_with(namer, d, NodeView { rule: Rule::WordDecl, text, inner: seq![id] + ws }) == (
            TermView::Skip,
            add_word(d, id.text, calls_of(d, ws)).0,
        ),
{
    let inner = seq![id] + ws;
    let node = NodeView { rule: Rule::WordDecl, text, inner };
    assert(inner[0] == id);
    assert(term_with(namer, d, id) == (TermView::Token(TokenView::Ident(id.text)), d));
    assert(inner.subrange(1, inner.len() as int) =~= ws);
    lemma_read_words(namer, d, ws, seq![]);
    assert(seq![] + calls_of(d, ws) =~= calls_of(d, ws));
    assert(terms_with(namer, d, node.inner.subrange(1, node.inner.len() as int), seq![]) == (
        Some(calls_of(d, ws)),
        d,
    ));
}

/// A number node, of either rule, whose text is `_` followed by a text that
/// `f64::from_str` accepts reads as that number negated.
pub proof fn law_underscore_negates(
    namer: spec_fn(DictView) -> Seq<char>,
    d: DictView,
    rule: Rule,
    l: Seq<char>,
    inner: Seq<NodeView>,
)
    requires
        rule == Rule::Integer || rule == Rule::Float,
        is_float_literal(l),
    ensures
        term_with(namer, d, NodeView { rule, text: seq!['_'] + l, inner }) == (
            TermView::Token(TokenView::Number(NumberView::Negated(l))),
            d,
        ),
{
    let t = seq!['_'] + l;
    assert(t[0] == '_');
    assert(t.drop_first() =~= l);
}

/// A word calls the first word of the dictionary with its name; a word the
/// dictionary lacks is one the reader panics on.
pub proof fn law_word_node(namer: spec_fn(DictView) -> Seq<char>, d: DictView, text: Seq<char>, inner: Seq<NodeView>)
    ensures
        term_with(namer, d, NodeView { rule: Rule::Word, text, inner }) == match find_word(d, text) {
            Some(k) => (TermView::Token(TokenView::Symbol(k as usize)), d),
            None => (TermView::Stuck, d),
        },
{
}

/// `&name` (any one-byte character before the name) is a reference to the
/// first word of the dictionary named `name`; a missing word is one the
/// reader panics on.
pub proof fn law_reference_node(
    namer: spec_fn(DictView) -> Seq<char>,
    d: DictView,
    c: char,
    name: Seq<char>,
    inner: Seq<NodeView>,
)
    requires
        (c as u32) < 0x80,
    ensures
        term_with(namer, d, NodeView { rule: Rule::Reference, text: seq![c] + name, inner }) == match find_word(
            d,
            name,
        ) {
            Some(k) => (TermView::Token(TokenView::SymbRef(k as usize)), d),
            None => (TermView::Stuck, d),
        },
{
    assert((seq![c] + name).drop_first() =~= name);
}

/// `@name` fetches the variable `name` and `!name` stores into it, and a
/// name gives an identifier token; none of them touches the dictionary.
pub proof fn law_variable_nodes(
    namer: spec_fn(DictView) -> Seq<char>,
    d: DictView,
    c: char,
    name: Seq<char>,
    inner: Seq<NodeView>,
)
    requires
        (c as u32) < 0x80,
    ensures
        term_with(namer, d, NodeView { rule: Rule::Fetch, text: seq![c] + name, inner }) == (
            TermView::Token(TokenView::Fetch(name)),
            d,
        ),
        term_with(namer, d, NodeView { rule: Rule::Store, text: seq![c] + name, inner }) == (
            TermView::Token(TokenView::Store(name)),
            d,
        ),
        term_with(namer, d, NodeView { rule: Rule::Ident, text: name, inner }) == (
            TermView::Token(TokenView::Ident(name)),
            d,
        ),
{
    assert((seq![c] + name).drop_first() =~= name);
}

/// A number node, of either rule, whose text `f64::from_str` accepts and
/// does not start with `_` reads as that number; one whose text it refuses
/// (with or without a leading `_`) is one the reader panics on.
pub proof fn law_number_node(
    namer: spec_fn(DictView) -> Seq<char>,
    d: DictView,
    rule: Rule,
    l: Seq<char>,
    inner: Seq<NodeView>,
)
    requires
        rule == Rule::Integer || rule == Rule::Float,
        l.len() >= 1,
        (l[0] as u32) < 0x80,
        l[0] != '_',
    ensures
        is_float_literal(l) ==> term_with(namer, d, NodeView { rule, text: l, inner }) == (
            TermView::Token(TokenView::Number(NumberView::Literal(l))),
            d,
        ),
        !is_float_literal(l) ==> term_with(namer, d, NodeView { rule, text: l, inner }) == (TermView::Stuck, d),
        !is_float_literal(l) ==> term_with(namer, d, NodeView { rule, text: seq!['_'] + l, inner }) == (
            TermView::Stuck,
            d,
        ),
{
    assert((seq!['_'] + l).drop_first() =~= l);
    assert((seq!['_'] + l)[0] == '_');
}

/// A string node (between one-byte delimiters) reads as its characters
/// between the delimiters, each doubled quote `''` made one quote.
pub proof fn law_string_node(
    namer: spec_fn(DictView) -> Seq<char>,
    d: DictView,
    open: char,
    s: Seq<char>,
    close: char,
    inner: Seq<NodeView>,
)
    requires
        (open as u32) < 0x80,
        (close as u32) < 0x80,
    ensures
        term_with(namer, d, NodeView { rule: Rule::String, text: seq![open] + s + seq![close], inner }) == (
            TermView::Token(TokenView::String(unescape(s))),
            d,
        ),
{
    let t = seq![open] + s + seq![close];
    assert(t[0] == open);
    assert(t.last() == close);
    assert(t.subrange(1, t.len() - 1) =~= s);
}

/// Text without quotes is unescaped to itself, and each doubled quote in
/// front of a text becomes one quote.
pub proof fn law_unescape(s: Seq<char>)
    ensures
        (forall|k: int| 0 <= k < s.len() ==> #[trigger] s[k] != '\'') ==> unescape(s) == s,
        unescape(seq!['\'', '\''] + s) == seq!['\''] + unescape(s),
    decreases s.len(),
{
    let q = seq!['\'', '\''] + s;
    assert(q.subrange(2, q.len() as int) =~= s);
    if s.len() > 0 {
        let rest = s.subrange(1, s.len() as int);
        law_unescape(rest);
        if forall|k: int| 0 <= k < s.len() ==> #[trigger] s[k] != '\'' {
            assert(s[0] != '\'');
            assert forall|k: int| 0 <= k < rest.len() implies #[trigger] rest[k] != '\'' by {
                assert(rest[k] == s[k + 1]);
            }
            assert(seq![s[0]] + rest =~= s);
        }
    }
}

/// A character node `$c` (any one-byte first character) is the number that
/// is the code of `c`.
pub proof fn law_character_node(
    namer: spec_fn(DictView) -> Seq<char>,
    d: DictView,
    t: Seq<char>,
    inner: Seq<NodeView>,
)
    requires
        t.len() >= 2,
        (t[0] as u32) < 0x80,
    ensures
        term_with(namer, d, NodeView { rule: Rule::Character, text: t, inner }) == (
            TermView::Token(TokenView::Number(NumberView::Char(t[1] as u32))),
            d,
        ),
{
}

/// A quotation whose words are all in the dictionary is filed as a new word
/// at the end of the dictionary, under a name no word has, with the body
/// that calls those words in order; the token read refers to it.
pub proof fn law_quote_node(
    namer: spec_fn(DictView) -> Seq<char>,
    d: DictView,
    text: Seq<char>,
    ws: Seq<NodeView>,
)
    requires
        crate::lexer::namer_fresh(namer),
        forall|k: int| 0 <= k < ws.len() ==> (#[trigger] ws[k]).rule == Rule::Word && find_word(d, ws[k].text) is Some,
    ensures
        term_with(namer, d, NodeView { rule: Rule::Quote, text, inner: ws }) == (
            TermView::Token(TokenView::SymbRef(d.len() as usize)),
            d.push((namer(d), crate::env::ProcView::User(calls_of(d, ws)))),
        ),
{
    lemma_read_words(namer, d, ws, seq![]);
    assert(seq![] + calls_of(d, ws) =~= calls_of(d, ws));
    assert(find_word(d, namer(d)) is None);
}

/// Reading two lists of nodes one after the other is reading the first, then
/// the second from where the first left the tokens and the dictionary; a
/// node the reader panics on in the first stops the whole.
pub proof fn law_terms_concat(
    namer: spec_fn(DictView) -> Seq<char>,
    d: DictView,
    a: Seq<NodeView>,
    b: Seq<NodeView>,
    acc: Seq<TokenView>,
)
    ensures
        terms_with(namer, d, a + b, acc) == match terms_with(namer, d, a, acc) {
            (Some(t), d1) => terms_with(namer, d1, b, t),
            (None, d1) => (None, d1),
        },
    decreases a.len(),
{
    if a.len() == 0 {
        assert(a + b =~= b);
    } else {
        let ab = a + b;
        assert(ab[0] == a[0]);
        assert(ab.subrange(1, ab.len() as int) =~= a.subrange(1, a.len() as int) + b);
        let (r, d1) = term_with(namer, d, a[0]);
        match r {
            TermView::Stuck => {},
            TermView::Skip => law_terms_concat(namer, d1, a.subrange(1, a.len() as int), b, acc),
            TermView::Token(x) => law_terms_concat(namer, d1, a.subrange(1, a.len() as int), b, acc.push(x)),
        }
    }
}

pub open spec fn nodes_view(v: Seq<ParseNode>) -> Seq<NodeView> {
    Seq::new(v.len(), |k: int| v[k]@)
}

/// What reading one node gives, as a value.
pub enum Term {
    Skip,
    Token(ZfToken),
    Stuck,
}

impl View for Term {
    type V = TermView;

    open spec fn view(&self) -> TermView {
        match self {
            Term::Skip => TermView::Skip,
            Term::Token(t) => TermView::Token(t@),
            Term::Stuck => TermView::Stuck,
        }
    }
}

proof fn lemma_inner_view(n: &ParseNode)
    ensures
        n@.inner == nodes_view(n.inner@),
        n@.text == n.text@,
        n@.rule == n.rule,
{
    assert(n@.inner =~= nodes_view(n.inner@));
}

proof fn lemma_unescape_step(s: Seq<char>, k: int)
    requires
        0 <= k < s.len(),
    ensures
        k + 1 < s.len() && s[k] == '\'' && s[k + 1] == '\'' ==> unescape(s.subrange(k, s.len() as int))
            == seq!['\''] + unescape(s.subrange(k + 2, s.len() as int)),
        !(k + 1 < s.len() && s[k] == '\'' && s[k + 1] == '\'') ==> unescape(
            s.subrange(k, s.len() as int),
        ) == seq![s[k]] + unescape(s.subrange(k + 1, s.len() as int)),
{
    let t = s.subrange(k, s.len() as int);
    if k + 2 <= s.len() {
        assert(t.subrange(2, t.len() as int) =~= s.subrange(k + 2, s.len() as int));
    }
    assert(t.subrange(1, t.len() as int) =~= s.subrange(k + 1, s.len() as int));
}

/// `v[lo..hi]` with each pair of quotes made one quote.
fn unescape_between(v: &Vec<char>, lo: usize, hi: usize) -> (r: String)
    requires
        lo <= hi <= v@.len(),
    ensures
        r@ == unescape(v@.subrange(lo as int, hi as int)),
{
    let ghost s = v@.subrange(lo as int, hi as int);
    let mut r = String::new();
    let mut k: usize = lo;
    assert(s.subrange(0, s.len() as int) =~= s);
    while k < hi
        invariant
            lo <= k <= hi <= v@.len(),
            s == v@.subrange(lo as int, hi as int),
            r@ + unescape(s.subrange(k - lo, s.len() as int)) == unescape(s),
        decreases hi - k,
    {
        proof {
            lemma_unescape_step(s, k - lo);
        }
        if k + 1 < hi && v[k] == '\'' && v[k + 1] == '\'' {
            push_char(&mut r, '\'');
            k = k + 2;
        } else {
            push_char(&mut r, v[k]);
            k = k + 1;
        }
        assert(r@ + unescape(s.subrange(k - lo, s.len() as int)) =~= unescape(s));
    }
    assert(s.subrange(k - lo, s.len() as int) =~= Seq::<char>::empty());
    r
}

fn guard_item_of(n: &ParseNode) -> (r: Option<GuardItem>)
    ensures
        r == guard_item(n@.text),
{
    proof {
        lemma_inner_view(n);
    }
    let c = chars_of(n.text.as_str());
    if c.len() != 1 {
        proof {
            assert(c@.len() != seq!['a'].len());
            assert(c@.len() != seq!['n'].len());
            assert(c@.len() != seq!['s'].len());
            assert(c@.len() != seq!['q'].len());
            assert(c@.len() != seq!['*'].len());
        }
        return None;
    }
    let x = c[0];
    proof {
        assert(c@ =~= seq![x]);
    }
    if x == 'a' {
        Some(GuardItem::Any)
    } else if x == 'n' {
        Some(GuardItem::Number)
    } else if x == 's' {
        Some(GuardItem::Str)
    } else if x == 'q' {
        Some(GuardItem::Quote)
    } else if x == '*' {
        Some(GuardItem::Unchecked)
    } else {
        proof {
            assert(seq![x][0] != seq!['a'][0]);
            assert(seq![x][0] != seq!['n'][0]);
            assert(seq![x][0] != seq!['s'][0]);
            assert(seq![x][0] != seq!['q'][0]);
            assert(seq![x][0] != seq!['*'][0]);
        }
        None
    }
}

fn guard_items_of(nodes: &Vec<ParseNode>) -> (r: Option<Vec<GuardItem>>)
    ensures
        match r {
            Some(v) => guard_items(nodes_view(nodes@)) == Some(v@),
            None => guard_items(nodes_view(nodes@)) is None,
        },
{
    let ghost nv = nodes_view(nodes@);
    let mut items: Vec<GuardItem> = Vec::new();
    let mut k: usize = 0;
    while k < nodes.len()
        invariant
            k <= nodes@.len(),
            nv == nodes_view(nodes@),
            guard_items(nv.subrange(0, k as int)) == Some(items@),
        decreases nodes.len() - k,
    {
        assert(nv.subrange(0, k + 1).drop_last() =~= nv.subrange(0, k as int));
        match guard_item_of(&nodes[k]) {
            Some(g) => {
                items.push(g);
            },
            None => {
                proof {
                    lemma_guard_items_prefix(nv, k + 1);
                }
                return None;
            },
        }
        k = k + 1;
    }
    assert(nv.subrange(0, k as int) =~= nv);
    Some(items)
}

proof fn lemma_guard_items_prefix(nv: Seq<NodeView>, k: int)
    requires
        0 <= k <= nv.len(),
        guard_items(nv.subrange(0, k)) is None,
    ensures
        guard_items(nv) is None,
    decreases nv.len() - k,
{
    if k < nv.len() {
        assert(nv.subrange(0, k + 1).drop_last() =~= nv.subrange(0, k));
        lemma_guard_items_prefix(nv, k + 1);
    } else {
        assert(nv.subrange(0, k) =~= nv);
    }
}

/// Reads the nodes `nodes[from..]` in order; `None` when the reader panics
/// on one of them.
fn parse_nodes(env: &mut ZfEnv, nodes: &Vec<ParseNode>, from: usize) -> (r: Option<Vec<ZfToken>>)
    requires
        from <= nodes@.len(),
    ensures
        ({
            let (s, d) = terms(
                old(env).dict_view(),
                nodes_view(nodes@).subrange(from as int, nodes@.len() as int),
                seq![],
            );
            &&& final(env).dict_view() == d
            &&& match r {
                Some(v) => s == Some(tokens_view(v@)),
                None => s is None,
            }
        }),
        final(env).pile == old(env).pile,
        final(env).vars == old(env).vars,
        final(env).rs == old(env).rs,
    decreases nodes, 0nat,
{
    let ghost nv = nodes_view(nodes@);
    let ghost d0 = env.dict_view();
    let mut out: Vec<ZfToken> = Vec::new();
    let mut k: usize = from;
    assert(tokens_view(out@) =~= Seq::<TokenView>::empty());
    while k < nodes.len()
        invariant
            from <= k <= nodes@.len(),
            nv == nodes_view(nodes@),
            d0 == old(env).dict_view(),
            terms(d0, nv.subrange(from as int, nv.len() as int), seq![]) == terms(
                env.dict_view(),
                nv.subrange(k as int, nv.len() as int),
                tokens_view(out@),
            ),
            env.pile == old(env).pile,
            env.vars == old(env).vars,
            env.rs == old(env).rs,
        decreases nodes.len() - k,
    {
        let ghost rest = nv.subrange(k as int, nv.len() as int);
        assert(rest.subrange(1, rest.len() as int) =~= nv.subrange(k + 1, nv.len() as int));
        assert(rest[0] == nodes@[k as int]@);
        assert(decreases_to!(nodes => nodes@[k as int]));
        let t = parse_term(env, &nodes[k]);
        match t {
            Term::Stuck => {
                return None;
            },
            Term::Skip => {},
            Term::Token(x) => {
                let ghost xv = x@;
                let ghost before = out@;
                out.push(x);
                assert(tokens_view(out@) =~= tokens_view(before).push(xv));
            },
        }
        k = k + 1;
    }
    assert(nv.subrange(k as int, nv.len() as int) =~= Seq::<NodeView>::empty());
    Some(out)
}

/// Reads one node of the parse tree.
pub fn parse_term(env: &mut ZfEnv, node: &ParseNode) -> (r: Term)
    ensures
        (r@, final(env).dict_view()) == term(old(env).dict_view(), node@),
        final(env).pile == old(env).pile,
        final(env).vars == old(env).vars,
        final(env).rs == old(env).rs,
    decreases node, 1nat,
{
    proof {
        lemma_inner_view(node);
    }
    let ghost nv = node@;
    let ghost d0 = env.dict_view();
    match node.rule {
        Rule::Eoi => Term::Skip,
        Rule::WordDecl => {
            if node.inner.len() == 0 {
                return Term::Stuck;
            }
            assert(nv.inner[0] == node.inner@[0]@);
            let first = parse_term(env, &node.inner[0]);
            let name = match first {
                Term::Token(ZfToken::Ident(s)) => s,
                _ => {
                    return Term::Stuck;
                },
            };
            match parse_nodes(env, &node.inner, 1) {
                Some(body) => {
                    env.addword(name, body);
                    Term::Skip
                },
                None => Term::Stuck,
            }
        },
        Rule::Quote => {
            assert(nodes_view(node.inner@).subrange(0, node.inner@.len() as int) =~= nodes_view(
                node.inner@,
            ));
            match parse_nodes(env, &node.inner, 0) {
                Some(q) => {
                    let name = make_fresh_quote_name(env);
                    let idx = env.addword(name, q);
                    Term::Token(ZfToken::SymbRef(idx))
                },
                None => Term::Stuck,
            }
        },
        Rule::Integer | Rule::Float => {
            let t = chars_of(node.text.as_str());
            if t.len() == 0 || t[0] as u32 >= 0x80 {
                return Term::Stuck;
            }
            if t[0] == '_' {
                let mut rest: Vec<char> = Vec::new();
                let mut k: usize = 1;
                while k < t.len()
                    invariant
                        1 <= k <= t@.len(),
                        rest@ == t@.subrange(1, k as int),
                    decreases t.len() - k,
                {
                    rest.push(t[k]);
                    k = k + 1;
                }
                assert(rest@ =~= t@.drop_first());
                if float_literal(&rest) {
                    Term::Token(ZfToken::Number(ZfNumber::Negated(string_between(&t, 1, t.len()))))
                } else {
                    Term::Stuck
                }
            } else {
                if float_literal(&t) {
                    assert(t@.subrange(0, t@.len() as int) =~= t@);
                    Term::Token(ZfToken::Number(ZfNumber::Literal(string_between(&t, 0, t.len()))))
                } else {
                    Term::Stuck
                }
            }
        },
        Rule::String => {
            let t = chars_of(node.text.as_str());
            if t.len() >= 2 && (t[0] as u32) < 0x80 && (t[t.len() - 1] as u32) < 0x80 {
                Term::Token(ZfToken::String(unescape_between(&t, 1, t.len() - 1)))
            } else {
                Term::Stuck
            }
        },
        Rule::Character => {
            let t = chars_of(node.text.as_str());
            if t.len() >= 2 && (t[0] as u32) < 0x80 {
                Term::Token(ZfToken::Number(ZfNumber::Char(t[1] as u32)))
            } else {
                Term::Stuck
            }
        },
        Rule::Reference | Rule::Fetch | Rule::Store => {
            let t = chars_of(node.text.as_str());
            if t.len() == 0 || t[0] as u32 >= 0x80 {
                return Term::Stuck;
            }
            let name = string_between(&t, 1, t.len());
            assert(name@ =~= t@.drop_first());
            match node.rule {
                Rule::Fetch => Term::Token(ZfToken::Fetch(name)),
                Rule::Store => Term::Token(ZfToken::Store(name)),
                _ => match env.findword(name.as_str()) {
                    Some(i) => Term::Token(ZfToken::SymbRef(i)),
                    None => Term::Stuck,
                },
            }
        },
        Rule::Word => match env.findword(node.text.as_str()) {
            Some(i) => Term::Token(ZfToken::Symbol(i)),
            None => Term::Stuck,
        },
        Rule::Ident => Term::Token(ZfToken::Ident(node.text.clone())),
        Rule::Guard => {
            if node.inner.len() != 2 {
                return Term::Stuck;
            }
            proof {
                lemma_inner_view(&node.inner@[0]);
                lemma_inner_view(&node.inner@[1]);
            }
            let before = guard_items_of(&node.inner[0].inner);
            let after = guard_items_of(&node.inner[1].inner);
            match (before, after) {
                (Some(b), Some(a)) => Term::Token(ZfToken::Guard { before: b, after: a }),
                _ => Term::Stuck,
            }
        },
        _ => Term::Stuck,
    }
}

/// Reads the top-level nodes of a parse tree into tokens, as `parse_nodes`
/// does, on trees that the reader does not panic on.
pub fn parse(env: &mut ZfEnv, pairs: Vec<ParseNode>) -> (r: Vec<ZfToken>)
    requires
        terms(old(env).dict_view(), nodes_view(pairs@), seq![]).0 is Some,
    ensures
        terms(old(env).dict_view(), nodes_view(pairs@), seq![]) == (
            Some(tokens_view(r@)),
            final(env).dict_view(),
        ),
        final(env).pile == old(env).pile,
        final(env).vars == old(env).vars,
        final(env).rs == old(env).rs,
{
    assert(nodes_view(pairs@).subrange(0, pairs@.len() as int) =~= nodes_view(pairs@));
    match parse_nodes(env, &pairs, 0) {
        Some(v) => v,
        None => {
            proof {
                assert(false);
            }
            Vec::new()
        },
    }
}

/// Reads the top-level nodes of a parse tree into tokens; `None` for a tree
/// on which the reader panics.
pub fn try_parse(env: &mut ZfEnv, pairs: Vec<ParseNode>) -> (r: Option<Vec<ZfToken>>)
    ensures
        ({
            let (s, d) = terms(old(env).dict_view(), nodes_view(pairs@), seq![]);
            &&& final(env).dict_view() == d
            &&& match r {
                Some(v) => s == Some(tokens_view(v@)),
                None => s is None,
            }
        }),
        final(env).pile == old(env).pile,
        final(env).vars == old(env).vars,
        final(env).rs == old(env).rs,
{
    assert(nodes_view(pairs@).subrange(0, pairs@.len() as int) =~= nodes_view(pairs@));
    parse_nodes(env, &pairs, 0)
}

} // verus!
