use tortilla::lexer::lex;
use tortilla::lexer::Token;

fn word(s: &str) -> Token {
    Token::Word(s.to_string())
}

#[test]
fn test_empty_input() {
    assert_eq!(lex(""), vec![]);
}

#[test]
fn test_single_space() {
    assert_eq!(lex(" "), vec![Token::Space]);
}

#[test]
fn test_single_tab() {
    assert_eq!(lex("\t"), vec![Token::Tab]);
}

#[test]
fn test_single_lf() {
    assert_eq!(lex("\n"), vec![Token::NewlineLF]);
}

#[test]
fn test_single_crlf() {
    assert_eq!(lex("\r\n"), vec![Token::NewlineCRLF]);
}

#[test]
fn test_single_word() {
    assert_eq!(lex("hello"), vec![word("hello")]);
}

#[test]
fn test_mixed_tokens() {
    assert_eq!(
        lex("hello \tworld\n\r\nnext\tline"),
        vec![
            word("hello"),
            Token::Space,
            Token::Tab,
            word("world"),
            Token::NewlineLF,
            Token::NewlineCRLF,
            word("next"),
            Token::Tab,
            word("line"),
        ]
    );
}

#[test]
fn test_multiple_spaces() {
    assert_eq!(lex("   "), vec![Token::Space, Token::Space, Token::Space]);
}

#[test]
fn test_multiple_tabs() {
    assert_eq!(lex("\t\t\t"), vec![Token::Tab, Token::Tab, Token::Tab]);
}

#[test]
fn test_multiple_newlines() {
    assert_eq!(
        lex("\n\n\r\n"),
        vec![Token::NewlineLF, Token::NewlineLF, Token::NewlineCRLF,]
    );
}

#[test]
fn test_word_with_spaces_and_tabs() {
    assert_eq!(
        lex("a b\tc\nd"),
        vec![
            word("a"),
            Token::Space,
            word("b"),
            Token::Tab,
            word("c"),
            Token::NewlineLF,
            word("d"),
        ]
    );
}

#[test]
fn test_word_with_mixed_newlines() {
    assert_eq!(
        lex("a\nb\r\nc"),
        vec![
            word("a"),
            Token::NewlineLF,
            word("b"),
            Token::NewlineCRLF,
            word("c"),
        ]
    );
}

#[test]
fn test_only_newlines() {
    assert_eq!(
        lex("\n\r\n\n"),
        vec![Token::NewlineLF, Token::NewlineCRLF, Token::NewlineLF,]
    );
}

#[test]
fn test_lone_cr_in_word() {
    assert_eq!(lex("a\rb"), vec![word("a\rb")]);
}

#[test]
fn test_cr_not_followed_by_lf() {
    assert_eq!(lex("a\r"), vec![word("a\r")]);
}

#[test]
fn test_crlf_as_newline() {
    assert_eq!(
        lex("a\r\nb"),
        vec![word("a"), Token::NewlineCRLF, word("b")]
    );
}

#[test]
fn test_emoji() {
    assert_eq!(lex("hello🇩🇪world"), vec![word("hello🇩🇪world")]);
}

#[test]
fn test_combining_mark() {
    assert_eq!(lex("café"), vec![word("café")]);
}

#[test]
fn test_multibyte_chars() {
    assert_eq!(
        lex("汉字 test"),
        vec![word("汉字"), Token::Space, word("test")]
    );
}

#[test]
fn test_emoji_with_spaces() {
    assert_eq!(
        lex("hello 🇩🇪 world"),
        vec![
            word("hello"),
            Token::Space,
            word("🇩🇪"),
            Token::Space,
            word("world"),
        ]
    );
}

#[test]
fn test_complex_grapheme_clusters() {
    assert_eq!(
        lex("Zöe\tétoile\n\r\n👨‍👩‍👧‍👦"),
        vec![
            word("Zöe"),
            Token::Tab,
            word("étoile"),
            Token::NewlineLF,
            Token::NewlineCRLF,
            word("👨‍👩‍👧‍👦"),
        ]
    );
}

#[test]
fn test_nbsp_as_part_of_word() {
    assert_eq!(lex("hello\u{A0}world"), vec![word("hello\u{A0}world")]);
}

#[test]
fn test_mixed_unicode_and_ascii() {
    assert_eq!(
        lex("hello\u{A0}🌍\tworld\n\r\nnext\u{2009}line"),
        vec![
            word("hello\u{A0}🌍"),
            Token::Tab,
            word("world"),
            Token::NewlineLF,
            Token::NewlineCRLF,
            word("next\u{2009}line"),
        ]
    );
}
