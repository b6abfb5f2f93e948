use zf::parser::{parse, parse_term, try_parse, ParseNode, Rule, Term};
use zf::{ZfEnv, ZfProc};

fn leaf(rule: Rule, text: &str) -> ParseNode {
    ParseNode { rule, text: text.to_string(), inner: vec![] }
}

fn node(rule: Rule, text: &str, inner: Vec<ParseNode>) -> ParseNode {
    ParseNode { rule, text: text.to_string(), inner }
}

fn env_with(words: &[&str]) -> ZfEnv {
    let mut env = ZfEnv::new();
    for (k, w) in words.iter().enumerate() {
        env.dict.push((w.to_string(), ZfProc::Builtin(k)));
    }
    env
}

fn token(env: &mut ZfEnv, n: &ParseNode) -> String {
    match parse_term(env, n) {
        Term::Token(t) => format!("{:?}", t),
        Term::Skip => "skip".to_string(),
        Term::Stuck => "stuck".to_string(),
    }
}

#[test]
fn leaves() {
    let mut env = env_with(&["dup"]);
    assert_eq!(token(&mut env, &leaf(Rule::Eoi, "")), "skip");
    assert_eq!(token(&mut env, &leaf(Rule::Integer, "42")), "Number(Literal(\"42\"))");
    assert_eq!(token(&mut env, &leaf(Rule::Integer, "_42")), "Number(Negated(\"42\"))");
    assert_eq!(token(&mut env, &leaf(Rule::Float, "1.5")), "Number(Literal(\"1.5\"))");
    assert_eq!(token(&mut env, &leaf(Rule::String, "'it''s'")), "String(\"it's\")");
    assert_eq!(token(&mut env, &leaf(Rule::String, "''''''")), "String(\"''\")");
    assert_eq!(token(&mut env, &leaf(Rule::Character, "$A")), "Number(Char(65))");
    assert_eq!(token(&mut env, &leaf(Rule::Reference, "&dup")), "SymbRef(0)");
    assert_eq!(token(&mut env, &leaf(Rule::Word, "dup")), "Symbol(0)");
    assert_eq!(token(&mut env, &leaf(Rule::Fetch, "@x")), "Fetch(\"x\")");
    assert_eq!(token(&mut env, &leaf(Rule::Store, "!x")), "Store(\"x\")");
    assert_eq!(token(&mut env, &leaf(Rule::Ident, "name")), "Ident(\"name\")");
}

#[test]
fn leaves_the_reader_panics_on() {
    let mut env = env_with(&[]);
    assert_eq!(token(&mut env, &leaf(Rule::Integer, "")), "stuck");
    assert_eq!(token(&mut env, &leaf(Rule::Integer, "x")), "stuck");
    assert_eq!(token(&mut env, &leaf(Rule::Integer, "é")), "stuck");
    assert_eq!(token(&mut env, &leaf(Rule::String, "'")), "stuck");
    assert_eq!(token(&mut env, &leaf(Rule::String, "'é")), "stuck");
    assert_eq!(token(&mut env, &leaf(Rule::Character, "$")), "stuck");
    assert_eq!(token(&mut env, &leaf(Rule::Reference, "&nope")), "stuck");
    assert_eq!(token(&mut env, &leaf(Rule::Word, "nope")), "stuck");
    assert_eq!(token(&mut env, &leaf(Rule::Fetch, "")), "stuck");
    assert_eq!(token(&mut env, &leaf(Rule::Program, "")), "stuck");
    assert_eq!(token(&mut env, &leaf(Rule::Other, "")), "stuck");
}

#[test]
fn guards() {
    let mut env = env_with(&[]);
    let g = node(
        Rule::Guard,
        "",
        vec![
            node(Rule::Other, "", vec![leaf(Rule::Other, "a"), leaf(Rule::Other, "n")]),
            node(Rule::Other, "", vec![leaf(Rule::Other, "*"), leaf(Rule::Other, "q"), leaf(Rule::Other, "s")]),
        ],
    );
    assert_eq!(
        token(&mut env, &g),
        "Guard { before: [Any, Number], after: [Unchecked, Quote, Str] }"
    );
    let bad = node(Rule::Guard, "", vec![node(Rule::Other, "", vec![leaf(Rule::Other, "z")]), node(Rule::Other, "", vec![])]);
    assert_eq!(token(&mut env, &bad), "stuck");
    let one = node(Rule::Guard, "", vec![node(Rule::Other, "", vec![])]);
    assert_eq!(token(&mut env, &one), "stuck");
}

#[test]
fn word_declaration_and_quote() {
    let mut env = env_with(&["dup", "*"]);
    let decl = node(
        Rule::WordDecl,
        ": sq dup * ;",
        vec![leaf(Rule::Ident, "sq"), leaf(Rule::Word, "dup"), leaf(Rule::Word, "*")],
    );
    let quote = node(Rule::Quote, "[ 2 sq ]", vec![leaf(Rule::Integer, "2"), leaf(Rule::Word, "sq")]);
    let toks = parse(&mut env, vec![decl, quote, leaf(Rule::Eoi, "")]);
    assert_eq!(format!("{:?}", toks), "[SymbRef(3)]");
    assert_eq!(env.dict[2].0, "sq");
    assert_eq!(env.dict[3].0, "[3]");
    match &env.dict[3].1 {
        ZfProc::User(b) => assert_eq!(format!("{:?}", b), "[Number(Literal(\"2\")), Symbol(2)]"),
        _ => panic!(),
    }
}

#[test]
fn declaration_without_name_is_refused() {
    let mut env = env_with(&[]);
    let decl = node(Rule::WordDecl, "", vec![leaf(Rule::Integer, "1")]);
    assert!(try_parse(&mut env, vec![decl]).is_none());
    assert!(try_parse(&mut env, vec![node(Rule::WordDecl, "", vec![])]).is_none());
    let ok = try_parse(&mut env, vec![leaf(Rule::Integer, "3")]).unwrap();
    assert_eq!(format!("{:?}", ok), "[Number(Literal(\"3\"))]");
}
