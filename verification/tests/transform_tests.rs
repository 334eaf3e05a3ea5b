use tortilla::formatter::Options;
use tortilla::transform::transform;
use tortilla::transform::Token;
use tortilla::transform::Token::Newline;
use tortilla::transform::Token::Space;

fn word(s: &str) -> Token {
    Token::Word(s.to_string())
}

fn run(input: Vec<Token>) -> Vec<Token> {
    let mut t = transform(input, Options::default());
    let mut out = Vec::new();
    while let Some(tok) = t.next_token() {
        out.push(tok);
    }
    out
}

#[test]
fn what() {
    assert_eq!(run(vec![Newline]), vec![Newline]);

    assert_eq!(
        run(vec![word("bruh"), Newline, word("bruh")]),
        vec![word("bruh"), Space, word("bruh")]
    );

    assert_eq!(
        run(vec![word("bruh"), Newline, Newline, word("bruh")]),
        vec![word("bruh"), Newline, Newline, word("bruh")]
    );
}

#[test]
fn long_line_is_rebroken() {
    // two words of width 50 exceed the default width of 80 together
    let long_a = "a".repeat(50);
    let long_b = "b".repeat(50);
    assert_eq!(
        run(vec![word(&long_a), Space, word(&long_b)]),
        vec![word(&long_a), Newline, word(&long_b)]
    );
}
