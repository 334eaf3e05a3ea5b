use tortilla::merge::merge_lines;
use tortilla::Line;
use tortilla::Whitespace::Space;

fn line(
    indent: tortilla::Whitespace,
    comment: Option<&str>,
    padding: tortilla::Whitespace,
    bullet: Option<&str>,
    words: &[&str],
    newline: bool,
) -> Line {
    Line {
        indent,
        comment: comment.map(String::from),
        padding,
        bullet: bullet.map(String::from),
        words: words.iter().map(|s| s.to_string()).collect(),
        newline,
    }
}

fn merge(lines: Vec<Line>) -> Vec<Line> {
    merge_lines(lines)
}

#[test]
fn merge_empty() {
    assert_eq!(merge(vec![]), vec![]);
}

#[test]
fn single_line() {
    assert_eq!(
        merge(vec![line(Space(2), None, Space(2), None, &["hello"], false)]),
        vec![line(Space(2), None, Space(2), None, &["hello"], false)]
    );
}

#[test]
fn merge_two_lines_with_matching_indent_and_padding() {
    assert_eq!(
        merge(vec![
            line(Space(2), None, Space(2), None, &["hello"], true),
            line(Space(2), None, Space(2), None, &["world"], true),
        ]),
        vec![line(
            Space(2),
            None,
            Space(2),
            None,
            &["hello", "world"],
            true
        )]
    );
}

#[test]
fn merge_two_lines_with_bullet() {
    assert_eq!(
        merge(vec![
            line(Space(2), None, Space(2), Some("-"), &["hello"], true),
            line(Space(2), None, Space(4), None, &["world"], false),
        ]),
        vec![line(
            Space(2),
            None,
            Space(2),
            Some("-"),
            &["hello", "world"],
            false
        )]
    );
}

#[test]
fn do_not_merge_different_comments() {
    assert_eq!(
        merge(vec![
            line(Space(2), Some("//"), Space(2), None, &["hello"], true),
            line(Space(2), Some("#"), Space(2), None, &["world"], false),
        ]),
        vec![
            line(Space(2), Some("//"), Space(2), None, &["hello"], true),
            line(Space(2), Some("#"), Space(2), None, &["world"], false),
        ]
    );
}

#[test]
fn do_not_merge_different_bullets() {
    assert_eq!(
        merge(vec![
            line(Space(2), None, Space(2), Some("-"), &["hello"], true),
            line(Space(2), None, Space(2), Some("*"), &["world"], false),
        ]),
        vec![
            line(Space(2), None, Space(2), Some("-"), &["hello"], true),
            line(Space(2), None, Space(2), Some("*"), &["world"], false),
        ]
    );
}

#[test]
fn do_not_merge_empty_lines() {
    assert_eq!(
        merge(vec![
            line(Space(2), None, Space(2), None, &["hello"], true),
            line(Space(2), None, Space(2), None, &[], true),
            line(Space(2), None, Space(2), None, &["world"], true),
        ]),
        vec![
            line(Space(2), None, Space(2), None, &["hello"], true),
            line(Space(2), None, Space(2), None, &[], true),
            line(Space(2), None, Space(2), None, &["world"], true),
        ]
    );
}

#[test]
fn do_not_merge_lines_with_new_bullet() {
    assert_eq!(
        merge(vec![
            line(Space(2), None, Space(2), Some("-"), &["hello"], true),
            line(Space(2), None, Space(2), Some("-"), &["world"], true),
        ]),
        vec![
            line(Space(2), None, Space(2), Some("-"), &["hello"], true),
            line(Space(2), None, Space(2), Some("-"), &["world"], true),
        ]
    );
}

#[test]
fn merge_multiple_lines() {
    assert_eq!(
        merge(vec![
            line(Space(2), None, Space(2), None, &["hello"], true),
            line(Space(2), None, Space(2), None, &["world"], true),
            line(Space(2), None, Space(2), None, &["rust"], false),
        ]),
        vec![line(
            Space(2),
            None,
            Space(2),
            None,
            &["hello", "world", "rust"],
            false
        )]
    );
}

#[test]
fn merge_twice_gives_same_output() {
    let input = vec![
        line(Space(2), None, Space(2), Some("-"), &["hello"], true),
        line(Space(2), None, Space(4), None, &["world"], true),
        line(Space(0), None, Space(0), None, &[], true),
        line(Space(0), Some("//"), Space(1), None, &["a"], true),
        line(Space(0), Some("//"), Space(1), None, &["b"], false),
    ];
    let once = merge_lines(input);
    let twice = merge_lines(once.clone());
    assert_eq!(once, twice);
}
