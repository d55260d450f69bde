use ray_tracer_challenge::lex::{
    is_float_literal_chars, lines_of, parse_usize_chars, trim_chars, words_of,
};

fn chars(s: &str) -> Vec<char> {
    s.chars().collect()
}

fn strings(v: Vec<Vec<char>>) -> Vec<String> {
    v.into_iter().map(|w| w.into_iter().collect()).collect()
}

const SAMPLES: &[&str] = &[
    "", "0", "1", "-1", "+1", "1.", ".5", ".", "-.", "+.e1", "1e5", "1E5", "1e", "1e+", "1e-3",
    "1e+03", "e5", "1.5e3.2", "1..5", "--1", "+-1", "inf", "-inf", "+Inf", "INFINITY", "infinity",
    "infinit", "nan", "NaN", "-nan", "nana", "0x10", "1_000", " 1", "1 ", "١", "12345678901234567890",
    "1e999999999999", "0.000", "-0", "5.e2", "5e2.", "+", "-", "ïnf",
];

#[test]
fn float_literals_agree_with_std() {
    for s in SAMPLES {
        assert_eq!(
            is_float_literal_chars(&chars(s)),
            s.parse::<f64>().is_ok(),
            "disagreement on {:?}",
            s
        );
    }
}

#[test]
fn unsigned_integers_agree_with_std() {
    let samples = [
        "", "0", "7", "+7", "-7", "+", "007", "18446744073709551615", "18446744073709551616",
        "99999999999999999999", "12a", "1 2", "+0",
    ];
    for s in samples {
        assert_eq!(parse_usize_chars(&chars(s)), s.parse::<usize>().ok(), "disagreement on {:?}", s);
    }
}

#[test]
fn words_agree_with_std() {
    let samples = ["", "   ", "a b", "  a\t\tb  c\n", "a\u{3000}b", "one"];
    for s in samples {
        let expected: Vec<String> = s.split_whitespace().map(String::from).collect();
        assert_eq!(strings(words_of(&chars(s))), expected);
    }
}

#[test]
fn lines_agree_with_std() {
    let samples = ["", "\n", "a", "a\n", "a\r\nb", "a\rb\n", "a\n\nb\r", "\r\n\r\n"];
    for s in samples {
        let expected: Vec<String> = s.lines().map(String::from).collect();
        assert_eq!(strings(lines_of(&chars(s))), expected, "disagreement on {:?}", s);
    }
}

#[test]
fn trimming_agrees_with_std() {
    let samples = ["", "  ", " a ", "\ta b\n", "a", "\u{a0}x\u{2003}"];
    for s in samples {
        let t: String = trim_chars(&chars(s)).into_iter().collect();
        assert_eq!(t, s.trim());
    }
}
