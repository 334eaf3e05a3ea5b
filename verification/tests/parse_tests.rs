use tortilla::parse::parse_tokens;
use tortilla::Line;
use tortilla::Newline;
use tortilla::Token;
use tortilla::Whitespace::Space;
use tortilla::Whitespace::Tab;

fn w(s: &str) -> Token {
    Token::Word(s.to_string())
}

const S: Token = Token::Space;
const T: Token = Token::Tab;
const LF: Token = Token::Newline(Newline::LF);
const CRLF: Token = Token::Newline(Newline::CRLF);

fn line(
    indent: tortilla::Whitespace,
    comment: Option<&str>,
    padding: tortilla::Whitespace,
    bullet: Option<&str>,
    words: &[&str],
    newline: bool,
) -> Line {
    Line {
        indent,
        comment: comment.map(String::from),
        padding,
        bullet: bullet.map(String::from),
        words: words.iter().map(|s| s.to_string()).collect(),
        newline,
    }
}

fn parse(tokens: Vec<Token>) -> Vec<Line> {
    parse_tokens(tokens)
}

#[test]
fn parse_empty() {
    assert_eq!(parse(vec![]), vec![]);
}

#[test]
fn single_space_indent() {
    assert_eq!(
        parse(vec![S]),
        vec![line(Space(1), None, Space(0), None, &[], false)]
    );
}

#[test]
fn single_tab_indent() {
    assert_eq!(
        parse(vec![T]),
        vec![line(Tab(1), None, Space(0), None, &[], false)]
    );
}

#[test]
fn multiple_spaces_indent() {
    assert_eq!(
        parse(vec![S, S, S, S]),
        vec![line(Space(4), None, Space(0), None, &[], false)]
    );
}

#[test]
fn multiple_tabs_indent() {
    assert_eq!(
        parse(vec![T, T]),
        vec![line(Tab(2), None, Space(0), None, &[], false)]
    );
}

#[test]
fn spaces_then_tabs() {
    assert_eq!(
        parse(vec![S, S, S, T, T]),
        vec![line(Space(3), None, Tab(2), None, &[], false)]
    );
}

#[test]
fn tabs_then_spaces() {
    assert_eq!(
        parse(vec![T, T, T, S, S]),
        vec![line(Tab(3), None, Space(2), None, &[], false)]
    );
}

#[test]
fn comment_only() {
    assert_eq!(
        parse(vec![w("#")]),
        vec![line(Space(0), Some("#"), Space(0), None, &[], false)]
    );
    assert_eq!(
        parse(vec![w("//")]),
        vec![line(Space(0), Some("//"), Space(0), None, &[], false)]
    );
}

#[test]
fn indented_comment() {
    assert_eq!(
        parse(vec![S, S, S, S, w("#")]),
        vec![line(Space(4), Some("#"), Space(0), None, &[], false)]
    );
    assert_eq!(
        parse(vec![T, w("//")]),
        vec![line(Tab(1), Some("//"), Space(0), None, &[], false)]
    );
}

#[test]
fn indented_comment_and_padding() {
    assert_eq!(
        parse(vec![S, S, S, S, w("#"), T, S]),
        vec![line(Space(4), Some("#"), Tab(1), None, &[], false)]
    );
}

#[test]
fn bullets() {
    assert_eq!(
        parse(vec![w("-")]),
        vec![line(Space(0), None, Space(0), Some("-"), &[], false)]
    );
    assert_eq!(
        parse(vec![w("123.")]),
        vec![line(Space(0), None, Space(0), Some("123."), &[], false)]
    );
}

#[test]
fn indented_bullets() {
    assert_eq!(
        parse(vec![S, S, S, S, w("-")]),
        vec![line(Space(4), None, Space(0), Some("-"), &[], false)]
    );
    assert_eq!(
        parse(vec![T, w("123.")]),
        vec![line(Tab(1), None, Space(0), Some("123."), &[], false)]
    );
}

#[test]
fn comment_and_bullet() {
    assert_eq!(
        parse(vec![T, w("//"), S, w("-")]),
        vec![line(Tab(1), Some("//"), Space(1), Some("-"), &[], false)]
    );
}

#[test]
fn parse_words() {
    assert_eq!(
        parse(vec![w("foo"), S, S, w("bar"), T, w("baz")]),
        vec![line(
            Space(0),
            None,
            Space(0),
            None,
            &["foo", "bar", "baz"],
            false
        )]
    );
}

#[test]
fn parse_all_together() {
    assert_eq!(
        parse(vec![
            T,
            T,
            w("//"),
            S,
            S,
            S,
            w("-"),
            S,
            S,
            w("foo"),
            S,
            S,
            w("bar"),
            T,
            w("baz")
        ]),
        vec![line(
            Tab(2),
            Some("//"),
            Space(3),
            Some("-"),
            &["foo", "bar", "baz"],
            false
        )]
    );
}

#[test]
fn newlines() {
    assert_eq!(
        parse(vec![w("foo"), w("bar"), LF, CRLF, w("baz")]),
        vec![
            line(Space(0), None, Space(0), None, &["foo", "bar"], true),
            line(Space(0), None, Space(0), None, &[], true),
            line(Space(0), None, Space(0), None, &["baz"], false),
        ]
    );
}
