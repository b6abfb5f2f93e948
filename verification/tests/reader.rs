use zf::lexer::{lex, parse, Lexed};
use zf::{ZfEnv, ZfProc};

fn env_with(words: &[&str]) -> ZfEnv {
    let mut env = ZfEnv::new();
    for (k, w) in words.iter().enumerate() {
        env.dict.push((w.to_string(), ZfProc::Builtin(k)));
    }
    env
}

fn done(r: Lexed) -> (usize, String) {
    match r {
        Lexed::Done(n, toks) => (n, format!("{:?}", toks)),
        Lexed::Failed(m) => panic!("refused: {}", m),
        Lexed::Stuck => panic!("stuck"),
    }
}

fn failed(r: Lexed) -> String {
    match r {
        Lexed::Failed(m) => m,
        Lexed::Done(_, t) => panic!("read: {:?}", t),
        Lexed::Stuck => panic!("stuck"),
    }
}

fn stuck(r: Lexed) -> bool {
    matches!(r, Lexed::Stuck)
}

fn body_of(env: &ZfEnv, i: usize) -> String {
    match &env.dict[i].1 {
        ZfProc::User(b) => format!("{:?}", b),
        ZfProc::Builtin(_) => panic!("builtin"),
    }
}

#[test]
fn numbers_and_words() {
    let mut env = env_with(&["+", "dup"]);
    let (n, t) = done(lex(&mut env, "1 2 + dup", false));
    assert_eq!(n, 9);
    assert_eq!(
        t,
        "[Number(Literal(\"1\")), Number(Literal(\"2\")), Symbol(0), Symbol(1)]"
    );
}

#[test]
fn number_literals() {
    let mut env = env_with(&["e5", "1e", "+", "."]);
    let (_, t) = done(lex(&mut env, "1_000 _5 -2.5e3 .5 5. inf NaN infinity 1e+5", false));
    assert_eq!(
        t,
        "[Number(Literal(\"1000\")), Number(Literal(\"5\")), Number(Literal(\"-2.5e3\")), \
         Number(Literal(\".5\")), Number(Literal(\"5.\")), Number(Literal(\"inf\")), \
         Number(Literal(\"NaN\")), Number(Literal(\"infinity\")), Number(Literal(\"1e+5\"))]"
    );
    let (_, t) = done(lex(&mut env, "e5 1e + .", false));
    assert_eq!(t, "[Symbol(0), Symbol(1), Symbol(2), Symbol(3)]");
}

#[test]
fn comments_are_skipped() {
    let mut env = env_with(&[]);
    let (n, t) = done(lex(&mut env, "( a comment ) 5", false));
    assert_eq!((n, t.as_str()), (15, "[Number(Literal(\"5\"))]"));
    let (n, t) = done(lex(&mut env, "\\ to the end\n7", false));
    assert_eq!((n, t.as_str()), (14, "[Number(Literal(\"7\"))]"));
    let (n, t) = done(lex(&mut env, "(x)", false));
    assert_eq!((n, t.as_str()), (4, "[]"));
}

#[test]
fn unmatched_paren_and_quote() {
    let mut env = env_with(&[]);
    assert_eq!(failed(lex(&mut env, "(abc", false)), "unmatched (");
    assert_eq!(failed(lex(&mut env, "\"abc", false)), "unmatched \"");
}

#[test]
fn strings() {
    let mut env = env_with(&[]);
    let (n, t) = done(lex(&mut env, "\"hi there\" 'word 1", false));
    assert_eq!(n, 18);
    assert_eq!(
        t,
        "[String(\"hi there\"), String(\"word\"), Number(Literal(\"1\"))]"
    );
}

#[test]
fn char_sugar() {
    let mut env = env_with(&[]);
    let (n, t) = done(lex(&mut env, "$A $é", false));
    assert_eq!(n, 5);
    assert_eq!(t, "[Number(Char(65)), Number(Char(233))]");
}

#[test]
fn quotation_is_filed_as_word() {
    let mut env = env_with(&[]);
    let (n, t) = done(lex(&mut env, "[ 1 ]", false));
    assert_eq!((n, t.as_str()), (5, "[SymbRef(0)]"));
    assert_eq!(env.dict[0].0, "[0]");
    assert_eq!(body_of(&env, 0), "[Number(Literal(\"1\"))]");
    let (_, t) = done(lex(&mut env, "[ 2 ] [ 3 ]", false));
    assert_eq!(t, "[SymbRef(1), SymbRef(2)]");
    assert_eq!(env.dict[1].0, "[1]");
    assert_eq!(env.dict[2].0, "[2]");
}

#[test]
fn nested_quotations() {
    let mut env = env_with(&[]);
    let (_, t) = done(lex(&mut env, "[ [ 1 ] 2 ]", false));
    assert_eq!(t, "[SymbRef(1)]");
    assert_eq!(env.dict[0].0, "[0]");
    assert_eq!(body_of(&env, 0), "[Number(Literal(\"1\"))]");
    assert_eq!(body_of(&env, 1), "[SymbRef(0), Number(Literal(\"2\"))]");
}

#[test]
fn word_definition() {
    let mut env = env_with(&["dup", "*"]);
    let (n, t) = done(lex(&mut env, ": sq dup * ; 3 sq", false));
    assert_eq!(n, 17);
    assert_eq!(t, "[Number(Literal(\"3\")), Symbol(2)]");
    assert_eq!(env.dict[2].0, "sq");
    assert_eq!(body_of(&env, 2), "[Symbol(0), Symbol(1)]");
}

#[test]
fn redefinition_replaces_body() {
    let mut env = env_with(&[]);
    done(lex(&mut env, ": a 1 ; : a 2 ;", false));
    assert_eq!(env.dict.len(), 1);
    assert_eq!(body_of(&env, 0), "[Number(Literal(\"2\"))]");
}

#[test]
fn definition_errors() {
    let mut env = env_with(&[]);
    assert_eq!(failed(lex(&mut env, "1 ;", false)), "stray ;");
    assert_eq!(
        failed(lex(&mut env, ": a : b ; ;", false)),
        "found nested word definitions"
    );
    let mut env = env_with(&[]);
    let (n, t) = done(lex(&mut env, "1 ; 2", true));
    assert_eq!((n, t.as_str()), (3, "[Number(Literal(\"1\"))]"));
    let (n, t) = done(lex(&mut env, "1 ] 2", false));
    assert_eq!((n, t.as_str()), (3, "[Number(Literal(\"1\"))]"));
}

#[test]
fn labels_and_addresses() {
    let mut env = env_with(&[]);
    let (n, t) = done(lex(&mut env, "|top 1 &|top", false));
    assert_eq!(n, 12);
    assert_eq!(t, "[Nop, Number(Literal(\"1\")), Address(0)]");
}

#[test]
fn word_reference() {
    let mut env = env_with(&["dup"]);
    let (_, t) = done(lex(&mut env, "&dup", false));
    assert_eq!(t, "[SymbRef(0)]");
    assert_eq!(failed(lex(&mut env, "&nope", false)), "Unknown label nope");
}

#[test]
fn store_and_fetch_sugar() {
    let mut env = env_with(&["fetch", "store"]);
    let (n, t) = done(lex(&mut env, "!x @y", false));
    assert_eq!(n, 5);
    assert_eq!(
        t,
        "[String(\"x\"), Symbol(1), String(\"y\"), Symbol(0)]"
    );
}

#[test]
fn unknown_word() {
    let mut env = env_with(&[]);
    assert_eq!(failed(lex(&mut env, "foo", false)), "unknown word foo");
    assert_eq!(failed(lex(&mut env, "{", false)), "unknown word ");
    assert_eq!(failed(lex(&mut env, "& x", false)), "unknown word ");
}

#[test]
fn inputs_the_reader_panics_or_loops_on() {
    let mut env = env_with(&[]);
    assert!(stuck(lex(&mut env, "1 |", false)));
    assert!(stuck(lex(&mut env, "$", false)));
    assert!(stuck(lex(&mut env, "!x", false)));
    assert!(stuck(lex(&mut env, ": foo", false)));
    let mut env = env_with(&[""]);
    assert!(stuck(lex(&mut env, "{", false)));
    let mut env = env_with(&["éé"]);
    assert!(stuck(lex(&mut env, "éé[ 1 ]", false)));
}

#[test]
fn slicing_is_by_bytes() {
    let mut env = env_with(&["é"]);
    let (n, t) = done(lex(&mut env, "é [ 1 ]", false));
    assert_eq!(n, 8);
    assert_eq!(t, "[Symbol(0), SymbRef(2)]");
    assert_eq!(body_of(&env, 1), "[Number(Literal(\"1\"))]");
    assert_eq!(body_of(&env, 2), "[SymbRef(1)]");
}

#[test]
fn parse_gives_result() {
    let mut env = env_with(&["dup"]);
    let r = parse(&mut env, "dup 4", false);
    match r {
        Ok((n, t)) => {
            assert_eq!(n, 5);
            assert_eq!(format!("{:?}", t), "[Symbol(0), Number(Literal(\"4\"))]");
        }
        Err(e) => panic!("{}", e),
    }
    assert_eq!(parse(&mut env, "nope", false).unwrap_err(), "unknown word nope");
}

#[test]
fn reading_keeps_existing_words() {
    let mut env = env_with(&["a", "b"]);
    done(lex(&mut env, ": c a b ; [ c ] : a 1 ;", false));
    let names: Vec<&str> = env.dict.iter().map(|(n, _)| n.as_str()).collect();
    assert_eq!(names, vec!["a", "b", "c", "[3]"]);
    assert_eq!(body_of(&env, 3), "[Symbol(2)]");
}

#[test]
fn quote_word_ends_at_unicode_white_space() {
    let mut env = env_with(&["\u{3000}b"]);
    let (n, t) = done(lex(&mut env, "'a\u{3000}b", false));
    assert_eq!(n, 4);
    assert_eq!(t, "[String(\"a\"), Symbol(0)]");
    assert_eq!(
        failed(lex(&mut env, "'x\u{a0}y", false)),
        "unknown word \u{a0}y"
    );
}

#[test]
fn read_tokens_name_existing_words() {
    let mut env = env_with(&["dup", "drop"]);
    let (_, t) = match lex(&mut env, ": a dup [ drop ] ; [ a &a ] a |l &|l", false) {
        Lexed::Done(n, t) => (n, t),
        _ => panic!(),
    };
    let check = |toks: &Vec<zf::ZfToken>, n: usize| {
        for (k, tok) in toks.iter().enumerate() {
            match tok {
                zf::ZfToken::Symbol(s) | zf::ZfToken::SymbRef(s) => assert!(*s < n),
                zf::ZfToken::Address(a) => {
                    assert!(*a < toks.len());
                    assert!(matches!(toks[*a], zf::ZfToken::Nop), "token {}", k);
                }
                _ => {}
            }
        }
    };
    check(&t, env.dict.len());
    for (_, p) in env.dict.iter() {
        if let ZfProc::User(b) = p {
            check(b, env.dict.len());
        }
    }
}

#[test]
fn quotation_name_is_new() {
    let mut env = env_with(&["[1]"]);
    let (_, t) = done(lex(&mut env, "[ 2 ]", false));
    assert_eq!(t, "[SymbRef(1)]");
    assert_eq!(env.dict[0].0, "[1]");
    assert!(matches!(env.dict[0].1, ZfProc::Builtin(0)));
    assert_eq!(env.dict[1].0, "[1]]");
    let mut env = env_with(&["[2]", "a-long-name"]);
    let (_, t) = done(lex(&mut env, "[ 3 ]", false));
    assert_eq!(t, "[SymbRef(2)]");
    assert_eq!(env.dict[2].0, "[2]".to_string() + &"]".repeat(9));
    assert_eq!(env.dict[2].0.chars().count(), 12);
}

#[test]
fn refusal_keeps_what_was_read() {
    let mut env = ZfEnv::new();
    assert_eq!(parse(&mut env, ": a 1 ; b", false).unwrap_err(), "unknown word b");
    assert_eq!(env.dict.len(), 1);
    assert_eq!(env.dict[0].0, "a");
}

#[test]
fn addresses_point_back() {
    let mut env = env_with(&[]);
    let (_, t) = done(lex(&mut env, "|a |b &|b &|a |a &|a", false));
    assert_eq!(
        t,
        "[Nop, Nop, Address(1), Address(0), Nop, Address(4)]"
    );
}

#[test]
fn only_colon_definitions_change_old_words() {
    let mut env = env_with(&["a", "b"]);
    done(lex(&mut env, "[ a ] : b a ; [ [ b ] ]", false));
    assert_eq!(env.dict.len(), 5);
    assert_eq!(env.dict[0].0, "a");
    assert!(matches!(env.dict[0].1, ZfProc::Builtin(0)));
    assert_eq!(env.dict[1].0, "b");
    assert_eq!(body_of(&env, 1), "[Symbol(0)]");
}
