use vstd::prelude::*;

verus! {

/// A number literal as it was written in the source.
///
/// The numeric value is the `f64` that `f64::from_str` gives for the text;
/// that conversion is floating point and is made by the program around the
/// library.
#[derive(Clone, Debug)]
pub enum ZfNumber {
    /// The text of a literal, which `f64::from_str` accepts.
    Literal(String),
    /// A literal written with a leading `_`: the value of the text, negated
    /// unless it is zero.
    Negated(String),
    /// The code point of a character.
    Char(u32),
}

/// One item of a stack signature (`guard`).
#[derive(Clone, Copy, Debug, PartialEq, Eq, Structural)]
pub enum GuardItem {
    Any,
    Number,
    Str,
    Quote,
    Unchecked,
}

#[derive(Clone, Debug)]
pub enum ZfToken {
    Nop,
    Number(ZfNumber),
    String(String),
    Symbol(usize),
    SymbRef(usize),
    Address(usize),
    Ident(String),
    Fetch(String),
    Store(String),
    Guard { before: Vec<GuardItem>, after: Vec<GuardItem> },
}

/// The mathematical value of a `ZfNumber`.
pub enum NumberView {
    Literal(Seq<char>),
    Negated(Seq<char>),
    Char(u32),
}

/// The mathematical value of a `ZfToken`: strings are taken by their
/// characters.
pub enum TokenView {
    Nop,
    Number(NumberView),
    String(Seq<char>),
    Symbol(usize),
    SymbRef(usize),
    Address(usize),
    Ident(Seq<char>),
    Fetch(Seq<char>),
    Store(Seq<char>),
    Guard(Seq<GuardItem>, Seq<GuardItem>),
}

impl View for ZfNumber {
    type V = NumberView;

    open spec fn view(&self) -> NumberView {
        match self {
            ZfNumber::Literal(s) => NumberView::Literal(s@),
            ZfNumber::Negated(s) => NumberView::Negated(s@),
            ZfNumber::Char(c) => NumberView::Char(*c),
        }
    }
}

impl View for ZfToken {
    type V = TokenView;

    open spec fn view(&self) -> TokenView {
        match self {
            ZfToken::Nop => TokenView::Nop,
            ZfToken::Number(n) => TokenView::Number(n@),
            ZfToken::String(s) => TokenView::String(s@),
            ZfToken::Symbol(i) => TokenView::Symbol(*i),
            ZfToken::SymbRef(i) => TokenView::SymbRef(*i),
            ZfToken::Address(i) => TokenView::Address(*i),
            ZfToken::Ident(s) => TokenView::Ident(s@),
            ZfToken::Fetch(s) => TokenView::Fetch(s@),
            ZfToken::Store(s) => TokenView::Store(s@),
            ZfToken::Guard { before, after } => TokenView::Guard(before@, after@),
        }
    }
}

/// The views of a sequence of tokens.
pub open spec fn tokens_view(v: Seq<ZfToken>) -> Seq<TokenView> {
    v.map_values(|t: ZfToken| t@)
}

/// A copy of a list of guard items.
pub fn copy_guard_items(v: &Vec<GuardItem>) -> (r: Vec<GuardItem>)
    ensures
        r@ == v@,
{
    let mut r: Vec<GuardItem> = Vec::new();
    let mut i: usize = 0;
    while i < v.len()
        invariant
            i <= v.len(),
            r@ == v@.subrange(0, i as int),
        decreases v.len() - i,
    {
        r.push(v[i]);
        i = i + 1;
    }
    r
}

impl ZfNumber {
    /// A copy of this number literal.
    pub fn copy(&self) -> (r: ZfNumber)
        ensures
            r@ == self@,
    {
        match self {
            ZfNumber::Literal(s) => ZfNumber::Literal(s.clone()),
            ZfNumber::Negated(s) => ZfNumber::Negated(s.clone()),
            ZfNumber::Char(c) => ZfNumber::Char(*c),
        }
    }
}

impl ZfToken {
    /// A copy of this token.
    pub fn copy(&self) -> (r: ZfToken)
        ensures
            r@ == self@,
    {
        match self {
            ZfToken::Nop => ZfToken::Nop,
            ZfToken::Number(n) => ZfToken::Number(n.copy()),
            ZfToken::String(s) => ZfToken::String(s.clone()),
            ZfToken::Symbol(i) => ZfToken::Symbol(*i),
            ZfToken::SymbRef(i) => ZfToken::SymbRef(*i),
            ZfToken::Address(i) => ZfToken::Address(*i),
            ZfToken::Ident(s) => ZfToken::Ident(s.clone()),
            ZfToken::Fetch(s) => ZfToken::Fetch(s.clone()),
            ZfToken::Store(s) => ZfToken::Store(s.clone()),
            ZfToken::Guard { before, after } => ZfToken::Guard {
                before: copy_guard_items(before),
                after: copy_guard_items(after),
            },
        }
    }
}

} // verus!
