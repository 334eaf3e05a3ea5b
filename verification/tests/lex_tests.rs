use tortilla::lex::tokenize;
use tortilla::Newline;
use tortilla::Token;

fn lex(input: &str) -> Vec<Token> {
    tokenize(input)
}

fn w(s: &str) -> Token {
    Token::Word(s.to_string())
}

const S: Token = Token::Space;
const T: Token = Token::Tab;
const LF: Token = Token::Newline(Newline::LF);
const CRLF: Token = Token::Newline(Newline::CRLF);

#[test]
fn lex_empty() {
    assert_eq!(lex(""), vec![]);
}

#[test]
fn single_space() {
    assert_eq!(lex(" "), vec![S]);
}

#[test]
fn single_tab() {
    assert_eq!(lex("\t"), vec![T]);
}

#[test]
fn mixed_whitespace() {
    assert_eq!(lex("\t  \t "), vec![T, S, S, T, S]);
}

#[test]
fn single_lf() {
    assert_eq!(lex("\n"), vec![LF]);
}

#[test]
fn single_crlf() {
    assert_eq!(lex("\r\n"), vec![CRLF]);
}

#[test]
fn mixed_newlines() {
    assert_eq!(lex("\r\n\n\n\r\n"), vec![CRLF, LF, LF, CRLF]);
}

#[test]
fn one_letter_word() {
    assert_eq!(lex("a"), vec![w("a")]);
}

#[test]
fn multi_letter_word() {
    assert_eq!(lex("foobar"), vec![w("foobar")]);
}

#[test]
fn full_sentence() {
    assert_eq!(
        lex("Buffalo buffalo Buffalo buffalo buffalo buffalo Buffalo buffalo."),
        vec![
            w("Buffalo"),
            S,
            w("buffalo"),
            S,
            w("Buffalo"),
            S,
            w("buffalo"),
            S,
            w("buffalo"),
            S,
            w("buffalo"),
            S,
            w("Buffalo"),
            S,
            w("buffalo."),
        ]
    );
}

#[test]
fn mixed_paragraphs() {
    assert_eq!(
        lex("\t\tfoo  bar \nbaz\r\n"),
        vec![T, T, w("foo"), S, S, w("bar"), S, LF, w("baz"), CRLF]
    );
}
