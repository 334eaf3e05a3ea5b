use tortilla::wrap::Guacamole;
use tortilla::wrap::LineWrap;
use tortilla::wrap::Salsa;
use tortilla::wrap::Sauce;
use tortilla::Line;
use tortilla::Newline;
use tortilla::Toppings;
use tortilla::Whitespace::Space;
use tortilla::Whitespace::Tab;

fn line(
    indent: tortilla::Whitespace,
    comment: Option<&str>,
    padding: tortilla::Whitespace,
    bullet: Option<&str>,
    words: &[&str],
    newline: bool,
) -> Line {
    Line {
        indent,
        comment: comment.map(String::from),
        padding,
        bullet: bullet.map(String::from),
        words: words.iter().map(|s| s.to_string()).collect(),
        newline,
    }
}

fn mini_line() -> Toppings {
    Toppings::default().width(10)
}

fn huge_line() -> Toppings {
    Toppings::default().width(1000)
}

fn collect<S: Sauce>(l: Line, toppings: &Toppings) -> Vec<String> {
    let mut lw = LineWrap::<S>::new(l, toppings);
    let mut out = Vec::new();
    while let Some(chunk) = lw.next_chunk() {
        out.push(chunk);
    }
    out
}

fn salsa(l: Line, toppings: &Toppings) -> Vec<String> {
    collect::<Salsa>(l, toppings)
}

fn guacamole(l: Line, toppings: &Toppings) -> Vec<String> {
    collect::<Guacamole>(l, toppings)
}

/// For cases where the two strategies must yield equal results.
fn all(l: Line, toppings: &Toppings) -> Vec<String> {
    let s = salsa(l.clone(), toppings);
    let g = guacamole(l, toppings);
    assert_eq!(s, g);
    s
}

fn strs(expected: &[&str]) -> Vec<String> {
    expected.iter().map(|s| s.to_string()).collect()
}

#[test]
fn wrap_empty() {
    assert_eq!(
        all(line(Space(0), None, Space(0), None, &[], false), &huge_line()),
        Vec::<String>::new()
    );
}

#[test]
fn wrap_indent_space() {
    assert_eq!(
        all(line(Space(4), None, Space(0), None, &[], false), &huge_line()),
        strs(&[" ", " ", " ", " "])
    );
}

#[test]
fn indent_tab() {
    assert_eq!(
        all(line(Tab(2), None, Space(0), None, &[], false), &huge_line()),
        strs(&["\t", "\t"])
    );
}

#[test]
fn wrap_comment() {
    assert_eq!(
        all(
            line(Space(0), Some("//"), Space(0), None, &[], false),
            &huge_line()
        ),
        strs(&["//"])
    );
}

#[test]
fn padding_space() {
    assert_eq!(
        all(line(Space(0), None, Space(4), None, &[], false), &huge_line()),
        strs(&[" ", " ", " ", " "])
    );
}

#[test]
fn padding_tab() {
    assert_eq!(
        all(line(Space(0), None, Tab(2), None, &[], false), &huge_line()),
        strs(&["\t", "\t"])
    );
}

#[test]
fn wrap_bullet() {
    assert_eq!(
        all(
            line(Space(0), None, Space(0), Some("123."), &[], false),
            &huge_line()
        ),
        strs(&["123."])
    );
}

#[test]
fn wrap_words() {
    assert_eq!(
        all(
            line(Space(0), None, Space(0), None, &["foo", "bar", "baz"], false),
            &huge_line()
        ),
        strs(&["foo", " ", "bar", " ", "baz"])
    );
}

#[test]
fn final_newline_lf() {
    assert_eq!(
        all(line(Space(0), None, Space(0), None, &[], true), &huge_line()),
        strs(&["\n"])
    );
}

#[test]
fn final_newline_crlf() {
    assert_eq!(
        all(
            line(Space(0), None, Space(0), None, &[], true),
            &huge_line().newline(Newline::CRLF)
        ),
        strs(&["\r\n"])
    );
}

#[test]
fn indent_and_padding() {
    assert_eq!(
        all(line(Tab(2), None, Space(2), None, &[], false), &huge_line()),
        strs(&["\t", "\t", " ", " "])
    );
}

#[test]
fn wrap_all_together() {
    assert_eq!(
        all(
            line(
                Tab(2),
                Some("//"),
                Space(2),
                Some("-"),
                &["foo", "bar", "baz"],
                true
            ),
            &huge_line()
        ),
        strs(&[
            "\t", "\t", "//", " ", " ", "-", " ", "foo", " ", "bar", " ", "baz", "\n"
        ])
    );
}

#[test]
fn words() {
    assert_eq!(
        all(
            line(Space(0), None, Space(0), None, &["foo", "bar", "baz"], false),
            &mini_line()
        ),
        strs(&["foo", " ", "bar", "\n", "baz"])
    );
}

#[test]
fn big_word() {
    assert_eq!(
        all(
            line(
                Space(0),
                None,
                Space(0),
                None,
                &["foo", "barbarbarbar", "baz"],
                false
            ),
            &mini_line()
        ),
        strs(&["foo", "\n", "barbarbarbar", "\n", "baz"])
    );
}

#[test]
fn indent_space() {
    assert_eq!(
        all(
            line(Space(2), None, Space(0), None, &["foo", "bar", "baz"], true),
            &mini_line().tabs(1)
        ),
        strs(&[" ", " ", "foo", " ", "bar", "\n", " ", " ", "baz", "\n"])
    );
}

#[test]
fn indent_low_tabs() {
    assert_eq!(
        all(
            line(Tab(2), None, Space(0), None, &["foo", "bar", "baz"], true),
            &mini_line().tabs(1)
        ),
        strs(&["\t", "\t", "foo", " ", "bar", "\n", "\t", "\t", "baz", "\n"])
    );
}

#[test]
fn indent_high_tabs() {
    assert_eq!(
        all(
            line(Tab(2), None, Space(0), None, &["foo", "bar", "baz"], false),
            &mini_line().tabs(8)
        ),
        strs(&[
            "\t", "\t", "foo", "\n", "\t", "\t", "bar", "\n", "\t", "\t", "baz"
        ])
    );
}

#[test]
fn comment() {
    assert_eq!(
        all(
            line(
                Space(0),
                Some("//"),
                Space(1),
                None,
                &["foo", "bar", "baz"],
                false
            ),
            &mini_line()
        ),
        strs(&["//", " ", "foo", " ", "bar", "\n", "//", " ", "baz"])
    );
}

#[test]
fn bullet() {
    assert_eq!(
        all(
            line(
                Space(0),
                None,
                Space(0),
                Some("1."),
                &["foo", "bar", "baz"],
                false
            ),
            &mini_line()
        ),
        strs(&["1.", " ", "foo", " ", "bar", "\n", " ", " ", " ", "baz"])
    );
}

#[test]
fn all_together() {
    assert_eq!(
        all(
            line(
                Tab(2),
                Some("#"),
                Space(1),
                Some("-"),
                &["foo", "bar", "baz"],
                true
            ),
            &mini_line()
        ),
        strs(&[
            "\t", "\t", "#", " ", "-", " ", "foo", "\n", "\t", "\t", "#", " ", " ", " ", "bar",
            "\n", "\t", "\t", "#", " ", " ", " ", "baz", "\n"
        ])
    );
}

#[test]
fn guacamole_is_suboptimal() {
    assert_eq!(
        guacamole(
            line(
                Space(0),
                None,
                Space(0),
                None,
                &[
                    "a", "b", "c", "d", "e", "f", "g", "h", "i", "j", "k", "l", "m", "n", "o",
                    "p", "qqqqqqqqq"
                ],
                true
            ),
            &mini_line()
        ),
        strs(&[
            "a", " ", "b", " ", "c", " ", "d", " ", "e", "\n", "f", " ", "g", " ", "h", " ", "i",
            " ", "j", "\n", "k", " ", "l", " ", "m", " ", "n", " ", "o", "\n", "p", "\n",
            "qqqqqqqqq", "\n"
        ]),
    );
}

#[test]
fn salsa_is_optimal() {
    assert_eq!(
        salsa(
            line(
                Space(0),
                None,
                Space(0),
                None,
                &[
                    "a", "b", "c", "d", "e", "f", "g", "h", "i", "j", "k", "l", "m", "n", "o",
                    "p", "qqqqqqqqq"
                ],
                true
            ),
            &mini_line()
        ),
        strs(&[
            "a", " ", "b", " ", "c", " ", "d", "\n", "e", " ", "f", " ", "g", " ", "h", "\n",
            "i", " ", "j", " ", "k", " ", "l", "\n", "m", " ", "n", " ", "o", " ", "p", "\n",
            "qqqqqqqqq", "\n"
        ]),
    );
}

#[test]
fn wide_characters_count_double() {
    // 汉 is two columns wide in the CJK variant: 汉汉 plus a space plus 汉
    // needs seven columns, so at width six the last word wraps; counting
    // characters instead would let it fit.
    assert_eq!(
        all(
            line(Space(0), None, Space(0), None, &["汉汉", "汉"], false),
            &Toppings::default().width(6)
        ),
        strs(&["汉汉", "\n", "汉"])
    );
    assert_eq!(
        all(
            line(Space(0), None, Space(0), None, &["汉汉", "汉"], false),
            &Toppings::default().width(8)
        ),
        strs(&["汉汉", " ", "汉"])
    );
}

#[test]
fn width_zero_puts_every_word_on_its_own_line() {
    assert_eq!(
        all(
            line(Space(0), None, Space(0), None, &["a", "b", "c"], false),
            &Toppings::default().width(0)
        ),
        strs(&["a", "\n", "b", "\n", "c"])
    );
}
