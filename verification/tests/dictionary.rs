use zf::{ZfEnv, ZfProc, ZfToken};

fn names(env: &ZfEnv) -> Vec<String> {
    env.dict.iter().map(|(n, _)| n.clone()).collect()
}

#[test]
fn new_env_is_empty() {
    let env = ZfEnv::new();
    assert!(env.pile.is_empty());
    assert!(env.dict.is_empty());
    assert!(env.rs.is_empty());
    assert!(env.vars.is_empty());
    let env2: ZfEnv = Default::default();
    assert!(env2.dict.is_empty());
}

#[test]
fn findword_finds_first_match_or_none() {
    let mut env = ZfEnv::new();
    env.dict.push(("dup".to_string(), ZfProc::Builtin(0)));
    env.dict.push(("swap".to_string(), ZfProc::Builtin(1)));
    env.dict.push(("dup".to_string(), ZfProc::Builtin(2)));
    assert_eq!(env.findword("dup"), Some(0));
    assert_eq!(env.findword("swap"), Some(1));
    assert_eq!(env.findword("drop"), None);
    assert_eq!(env.findword(""), None);
}

#[test]
fn addword_appends_new_word() {
    let mut env = ZfEnv::new();
    let i = env.addword("a".to_string(), vec![ZfToken::Nop]);
    let j = env.addword("b".to_string(), vec![]);
    assert_eq!((i, j), (0, 1));
    assert_eq!(names(&env), vec!["a", "b"]);
    assert_eq!(env.findword("b"), Some(1));
}

#[test]
fn addword_replaces_body_in_place() {
    let mut env = ZfEnv::new();
    env.addword("a".to_string(), vec![ZfToken::Nop]);
    env.addword("b".to_string(), vec![]);
    let k = env.addword("a".to_string(), vec![ZfToken::Symbol(1), ZfToken::Symbol(1)]);
    assert_eq!(k, 0);
    assert_eq!(env.dict.len(), 2);
    match &env.dict[0].1 {
        ZfProc::User(body) => assert_eq!(format!("{:?}", body), "[Symbol(1), Symbol(1)]"),
        ZfProc::Builtin(_) => panic!("expected a user word"),
    }
}

#[test]
fn addword_over_builtin_makes_it_user_word() {
    let mut env = ZfEnv::new();
    env.dict.push(("emit".to_string(), ZfProc::Builtin(7)));
    let k = env.addword("emit".to_string(), vec![]);
    assert_eq!(k, 0);
    assert!(matches!(env.dict[0].1, ZfProc::User(_)));
}

#[test]
fn find_after_add_same_index() {
    let mut env = ZfEnv::new();
    for name in ["x", "y", "z"] {
        let i = env.addword(name.to_string(), vec![]);
        assert_eq!(env.findword(name), Some(i));
    }
    let again = env.addword("y".to_string(), vec![ZfToken::Nop]);
    assert_eq!(again, 1);
    assert_eq!(names(&env), vec!["x", "y", "z"]);
}

#[test]
fn token_copy_is_equal() {
    let t = ZfToken::Guard {
        before: vec![zf::GuardItem::Any, zf::GuardItem::Number],
        after: vec![zf::GuardItem::Str],
    };
    assert_eq!(format!("{:?}", t.copy()), format!("{:?}", t));
    let s = ZfToken::String("abc".to_string());
    assert_eq!(format!("{:?}", s.copy()), "String(\"abc\")");
}
