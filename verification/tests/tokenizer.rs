use tfsearch::chars::text_chars;
use tfsearch::lexer::Lexer;

fn tokens_of_str(s: &str) -> Vec<String> {
    let chars = text_chars(s);
    let mut lx = Lexer::new(chars.as_slice());
    let mut out: Vec<String> = Vec::new();
    loop {
        match lx.next_token() {
            None => {
                return out;
            },
            Some(t) => out.push(t.iter().collect::<String>()),
        }
    }
}

#[test]
fn splits_classes_greedily() {
    assert_eq!(tokens_of_str("abc 123 a1b2"), vec!["abc", "123", "a1b2"]);
}

#[test]
fn digits_start_numeric_runs() {
    assert_eq!(tokens_of_str("12ab"), vec!["12", "ab"]);
}

#[test]
fn symbols_are_single_tokens() {
    assert_eq!(tokens_of_str("a+b!"), vec!["a", "+", "b", "!"]);
}

#[test]
fn whitespace_never_appears() {
    for t in tokens_of_str("  a\tb\nc  d\u{a0}e ") {
        assert!(!t.chars().any(|c| c.is_whitespace()));
        assert!(!t.is_empty());
    }
}

#[test]
fn empty_and_blank_inputs_yield_no_tokens() {
    assert_eq!(tokens_of_str(""), Vec::<String>::new());
    assert_eq!(tokens_of_str(" \t\n"), Vec::<String>::new());
}

#[test]
fn concatenation_reproduces_non_whitespace_input() {
    let input = "foo 42 bar-baz  qux";
    let joined = tokens_of_str(input).concat();
    let stripped: String = input.chars().filter(|c| !c.is_whitespace()).collect();
    assert_eq!(joined, stripped);
}

#[test]
fn runs_are_maximal() {
    // no numeric token is followed by a digit, no alphanumeric run by an
    // alphanumeric character
    let toks = tokens_of_str("abc123 456def");
    assert_eq!(toks, vec!["abc123", "456", "def"]);
}
