use zf::lexer::parse;
use zf::{Step, ZfEnv, ZfProc, ZfToken};

/// Runs `code` as `run` does, with primitive 0 (`+`) counting its calls and
/// dropping one item, and primitive 1 (`jump`) taking an address off the data
/// stack and moving the pointer of the top frame there while fewer than two
/// items are left.
fn run(env: &mut ZfEnv, code: Vec<ZfToken>) -> usize {
    env.start(code);
    let mut calls = 0;
    loop {
        assert!(env.can_step());
        match env.step() {
            Step::Halted => break,
            Step::Stepped => {}
            Step::CallBuiltin(0) => {
                calls += 1;
                env.pile.pop();
                env.after_builtin(false);
            }
            Step::CallBuiltin(_) => {
                let top = env.rs.len() - 1;
                match env.pile.pop() {
                    Some(ZfToken::Address(a)) => {
                        if env.pile.len() < 2 {
                            env.rs[top].1 = a;
                            env.after_builtin(true);
                        } else {
                            env.after_builtin(false);
                        }
                    }
                    _ => panic!("no address"),
                }
            }
        }
    }
    calls
}

fn env_with_builtins() -> ZfEnv {
    let mut env = ZfEnv::new();
    env.dict.push(("+".to_string(), ZfProc::Builtin(0)));
    env.dict.push(("jump".to_string(), ZfProc::Builtin(1)));
    env
}

#[test]
fn literals_go_on_the_pile() {
    let mut env = env_with_builtins();
    let (_, code) = parse(&mut env, "1 \"s\" &+", false).unwrap();
    let calls = run(&mut env, code);
    assert_eq!(calls, 0);
    assert_eq!(
        format!("{:?}", env.pile),
        "[Number(Literal(\"1\")), String(\"s\"), Symbol(0)]"
    );
    assert!(env.rs.is_empty());
    assert_eq!(env.dict[2].0, "main");
}

#[test]
fn user_words_are_called_and_return() {
    let mut env = env_with_builtins();
    let (_, code) = parse(&mut env, ": two 1 + ; two two 5", false).unwrap();
    let calls = run(&mut env, code);
    assert_eq!(calls, 2);
    assert_eq!(format!("{:?}", env.pile), "[Number(Literal(\"5\"))]");
}

#[test]
fn step_by_step() {
    let mut env = env_with_builtins();
    env.start(vec![ZfToken::Nop, ZfToken::SymbRef(1), ZfToken::Symbol(0)]);
    assert_eq!(env.rs, vec![(2, 0)]);
    assert!(matches!(env.step(), Step::Stepped));
    assert_eq!(env.rs, vec![(2, 1)]);
    assert!(matches!(env.step(), Step::Stepped));
    assert_eq!(format!("{:?}", env.pile), "[Symbol(1)]");
    assert!(matches!(env.step(), Step::CallBuiltin(0)));
    assert_eq!(env.rs, vec![(2, 2)]);
    env.after_builtin(false);
    assert_eq!(env.rs, vec![(2, 3)]);
    assert!(matches!(env.step(), Step::Stepped));
    assert!(env.rs.is_empty());
    assert!(matches!(env.step(), Step::Halted));
}

#[test]
fn jumps_to_labels() {
    let mut env = env_with_builtins();
    let (_, code) = parse(&mut env, "|l 7 &|l jump", false).unwrap();
    run(&mut env, code);
    assert_eq!(
        format!("{:?}", env.pile),
        "[Number(Literal(\"7\")), Number(Literal(\"7\"))]"
    );
    assert_eq!(
        parse(&mut env, "&|end jump |end", false).unwrap_err(),
        "Unknown label |end"
    );
}

#[test]
fn can_step_refuses_broken_states() {
    let mut env = env_with_builtins();
    env.rs.push((0, 0));
    assert!(!env.can_step());
    env.rs.clear();
    env.rs.push((7, 0));
    assert!(!env.can_step());
    env.rs.clear();
    env.addword("w".to_string(), vec![ZfToken::Symbol(99)]);
    env.rs.push((2, 0));
    assert!(!env.can_step());
    env.rs.clear();
    env.rs.push((2, usize::MAX));
    env.rs.push((2, 5));
    assert!(!env.can_step());
}

#[test]
fn plain_body_pushes_its_tokens() {
    let mut env = env_with_builtins();
    let code = vec![
        ZfToken::Nop,
        ZfToken::SymbRef(1),
        ZfToken::Address(0),
        ZfToken::String("x".to_string()),
    ];
    env.pile.push(ZfToken::Nop);
    env.start(code);
    for _ in 0..5 {
        assert!(matches!(env.step(), Step::Stepped));
    }
    assert!(env.rs.is_empty());
    assert_eq!(
        format!("{:?}", env.pile),
        "[Nop, Symbol(1), Address(0), String(\"x\")]"
    );
}

/// Counts the steps until the return stack runs out, each primitive dropping
/// one item and letting the pointer move on.
fn count_steps(env: &mut ZfEnv, code: Vec<ZfToken>) -> usize {
    env.start(code);
    let mut steps = 0;
    loop {
        assert!(env.can_step());
        match env.step() {
            Step::Halted => break,
            Step::Stepped => {}
            Step::CallBuiltin(_) => {
                env.pile.pop();
                env.after_builtin(false);
            }
        }
        steps += 1;
    }
    steps
}

#[test]
fn acyclic_program_halts_after_its_cost() {
    // a = [1]: one step for the token, one to return (cost 2).
    // b = [a a]: each call costs 1 + 2, then the return (cost 7).
    // main = [b]: 1 + 7 + 1 = 9.
    let mut env = ZfEnv::new();
    let (_, code) = parse(&mut env, ": a 1 ; : b a a ; b", false).unwrap();
    assert_eq!(count_steps(&mut env, code), 9);
    assert!(env.rs.is_empty());
    assert_eq!(env.pile.len(), 2);
}

#[test]
fn primitive_calls_count_one_step_each() {
    // main = [1 2 +]: three tokens and a return.
    let mut env = env_with_builtins();
    let (_, code) = parse(&mut env, "1 2 +", false).unwrap();
    assert_eq!(count_steps(&mut env, code), 4);
    assert_eq!(env.pile.len(), 1);
}
