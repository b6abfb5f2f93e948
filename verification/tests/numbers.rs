use zf::number::float_literal;
use zf::text::{join_str, push_decimal, without_underscores};

fn lit(s: &str) -> bool {
    float_literal(&s.chars().collect::<Vec<char>>())
}

#[test]
fn accepts_what_f64_from_str_accepts() {
    for s in [
        "0", "12", "-3", "+4", "1.5", "1.", ".5", "1e5", "1E5", "1e-5", "2.5E+10", "inf", "-inf",
        "INF", "Infinity", "+infinity", "nan", "NaN", "-NaN", "007", "0.000",
    ] {
        assert!(lit(s), "{} should be a number", s);
        assert!(s.parse::<f64>().is_ok(), "std disagrees on {}", s);
    }
}

#[test]
fn refuses_what_f64_from_str_refuses() {
    for s in [
        "", "+", "-", ".", "e", "e5", "1e", "1e+", "1.2.3", "--1", "+-1", "1 ", " 1", "infin",
        "nana", "0x10", "1_000", "1,5", "١", "inf1", "1e5.0",
    ] {
        assert!(!lit(s), "{} should not be a number", s);
        assert!(s.parse::<f64>().is_err(), "std disagrees on {}", s);
    }
}

#[test]
fn strips_underscores() {
    let v: Vec<char> = "_1_0__0_".chars().collect();
    let r: String = without_underscores(&v).into_iter().collect();
    assert_eq!(r, "100");
}

#[test]
fn decimal_numerals() {
    for (n, s) in [(0usize, "0"), (7, "7"), (10, "10"), (305, "305"), (123456789, "123456789")] {
        let mut out = String::from("#");
        push_decimal(&mut out, n);
        assert_eq!(out, format!("#{}", s));
    }
}

#[test]
fn joins_strings() {
    assert_eq!(join_str("ab", "cé"), "abcé");
    assert_eq!(join_str("", ""), "");
}

#[test]
fn agrees_with_f64_from_str_on_short_texts() {
    let alphabet = ['0', '1', '.', 'e', 'E', '+', '-', 'i', 'n', 'f', 'a', '_'];
    let mut texts: Vec<String> = vec![String::new()];
    let mut last: Vec<String> = vec![String::new()];
    for _ in 0..4 {
        let mut next = Vec::new();
        for t in &last {
            for c in alphabet {
                let mut u = t.clone();
                u.push(c);
                next.push(u);
            }
        }
        texts.extend(next.iter().cloned());
        last = next;
    }
    for t in texts {
        assert_eq!(lit(&t), t.parse::<f64>().is_ok(), "on {:?}", t);
    }
}

#[test]
fn white_space_is_the_unicode_set() {
    let listed = |u: u32| {
        (0x09..=0x0d).contains(&u)
            || u == 0x20
            || u == 0x85
            || u == 0xa0
            || u == 0x1680
            || (0x2000..=0x200a).contains(&u)
            || u == 0x2028
            || u == 0x2029
            || u == 0x202f
            || u == 0x205f
            || u == 0x3000
    };
    for u in 0..=0x10ffffu32 {
        if let Some(c) = char::from_u32(u) {
            assert_eq!(c.is_whitespace(), listed(u), "U+{:04X}", u);
        }
    }
}
