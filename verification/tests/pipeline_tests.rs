use tortilla::lex::tokenize;
use tortilla::lexer::lex;
use tortilla::parser::parse;
use tortilla::testing::whitespace_notation;
use tortilla::testing::LineExtension;
use tortilla::wrap::Guacamole;
use tortilla::wrap::Salsa;
use tortilla::Line;
use tortilla::Newline;
use tortilla::Token;
use tortilla::Toppings;
use tortilla::Whitespace;
use tortilla::wrap;

fn wrap_salsa(input: &str, toppings: Toppings) -> String {
    wrap::<Salsa>(input, toppings).collect_string()
}

fn wrap_guacamole(input: &str, toppings: Toppings) -> String {
    wrap::<Guacamole>(input, toppings).collect_string()
}

#[test]
fn plain_words_fit_at_default_width() {
    let toppings = Toppings::default().width(80);
    assert_eq!(wrap_salsa("foo bar baz", toppings.clone()), "foo bar baz");
    assert_eq!(wrap_guacamole("foo bar baz", toppings), "foo bar baz");
}

#[test]
fn bullet_paragraph_wraps_with_aligned_continuations() {
    let toppings = Toppings::default().width(8);
    assert_eq!(
        wrap_salsa("\n- foo bar baz\n", toppings),
        "\n- foo\n  bar\n  baz\n"
    );
}

#[test]
fn comment_and_bullet_replicate_prefix() {
    let toppings = Toppings::default().width(8);
    assert_eq!(
        wrap_salsa("\n  // - foo bar baz\n", toppings),
        "\n  // - foo\n  //   bar\n  //   baz\n"
    );
}

#[test]
fn first_fit_fills_lines_greedily() {
    let toppings = Toppings::default().width(10);
    assert_eq!(
        wrap_guacamole("a b c d e f g h i j k l m n o p qqqqqqqqq\n", toppings),
        "a b c d e\nf g h i j\nk l m n o\np\nqqqqqqqqq\n"
    );
}

#[test]
fn optimal_fit_minimizes_raggedness() {
    let toppings = Toppings::default().width(10);
    assert_eq!(
        wrap_salsa("a b c d e f g h i j k l m n o p qqqqqqqqq\n", toppings),
        "a b c d\ne f g h\ni j k l\nm n o p\nqqqqqqqqq\n"
    );
}

#[test]
fn tabs_comment_and_bullet_any_strategy() {
    let toppings = Toppings::default().width(10);
    let expected = "\t\t# - foo\n\t\t#   bar\n\t\t#   baz\n";
    assert_eq!(wrap_salsa("\t\t# - foo bar baz\n", toppings.clone()), expected);
    assert_eq!(wrap_guacamole("\t\t# - foo bar baz\n", toppings), expected);
}

#[test]
fn rewrapping_wide_restores_one_line_per_paragraph() {
    let input = "\n  // - foo bar baz\n";
    let narrow = wrap_salsa(input, Toppings::default().width(8));
    let wide = wrap_salsa(&narrow, Toppings::default().width(100));
    assert_eq!(wide, input);
}

#[test]
fn rewrapping_at_same_width_is_a_fixed_point() {
    let toppings = Toppings::default().width(10);
    let once = wrap_salsa("a b c d e f g h i j k l m n o p qqqqqqqqq\n", toppings.clone());
    let twice = wrap_salsa(&once, toppings.clone());
    assert_eq!(once, twice);
    let once_g = wrap_guacamole("a b c d e f g h i j k l m n o p qqqqqqqqq\n", toppings.clone());
    let twice_g = wrap_guacamole(&once_g, toppings);
    assert_eq!(once_g, twice_g);
}

#[test]
fn crlf_output_newlines() {
    let toppings = Toppings::default().width(8).newline(Newline::CRLF);
    assert_eq!(
        wrap_salsa("- foo bar baz", toppings),
        "- foo\r\n  bar\r\n  baz"
    );
}

#[test]
fn tokenizer_round_trip_reconstructs_input() {
    let inputs = [
        "",
        "foo bar baz",
        "\t\tfoo  bar \nbaz\r\n",
        "a\rb c\r\nd\u{A0}e 汉字 🇩🇪 café\n\n",
        " leading and trailing \t",
    ];
    for input in inputs {
        let mut rebuilt = String::new();
        for token in tokenize(input) {
            match token {
                Token::Space => rebuilt.push(' '),
                Token::Tab => rebuilt.push('\t'),
                Token::Newline(Newline::LF) => rebuilt.push('\n'),
                Token::Newline(Newline::CRLF) => rebuilt.push_str("\r\n"),
                Token::Word(w) => rebuilt.push_str(&w),
            }
        }
        assert_eq!(rebuilt, input);
    }
}

#[test]
fn flat_lexer_agrees_with_tokenizer() {
    let input = "\t x  yz\r\n\n w\r";
    let flat = lex(input);
    let stream = tokenize(input);
    assert_eq!(flat.len(), stream.len());
    for (f, s) in flat.iter().zip(stream.iter()) {
        let same = match (f, s) {
            (tortilla::lexer::Token::Space, Token::Space) => true,
            (tortilla::lexer::Token::Tab, Token::Tab) => true,
            (tortilla::lexer::Token::NewlineLF, Token::Newline(Newline::LF)) => true,
            (tortilla::lexer::Token::NewlineCRLF, Token::Newline(Newline::CRLF)) => true,
            (tortilla::lexer::Token::Word(a), Token::Word(b)) => a == b,
            _ => false,
        };
        assert!(same);
    }
}

#[test]
fn parser_reconstruction_of_single_spaced_input() {
    // with single spaces between words, concatenating the slots of each
    // parsed line in grammar order restores the input byte for byte
    let input = "  // - foo bar\n\t\tbaz qux";
    let lines = tortilla::parse::parse_tokens(tokenize(input));
    let mut rebuilt = String::new();
    for l in &lines {
        for _ in 0..l.indent.count() {
            rebuilt.push_str(match l.indent {
                Whitespace::Space(_) => " ",
                Whitespace::Tab(_) => "\t",
            });
        }
        if let Some(c) = &l.comment {
            rebuilt.push_str(c);
        }
        for _ in 0..l.padding.count() {
            rebuilt.push_str(match l.padding {
                Whitespace::Space(_) => " ",
                Whitespace::Tab(_) => "\t",
            });
        }
        let mut first = true;
        if let Some(b) = &l.bullet {
            rebuilt.push_str(b);
            first = false;
        }
        for w in &l.words {
            if !first {
                rebuilt.push(' ');
            }
            rebuilt.push_str(w);
            first = false;
        }
        if l.newline {
            rebuilt.push('\n');
        }
    }
    assert_eq!(rebuilt, input);
}

#[test]
fn paragraph_parser_recognizes_nothing() {
    let tokens = lex("foo bar\nbaz");
    let paragraphs = match parse(&tokens) {
        Ok(p) => p,
        Err(_) => panic!("the paragraph parser is total"),
    };
    assert!(paragraphs.is_empty());
}

#[test]
fn whitespace_notation_reads_kind_and_count() {
    assert_eq!(whitespace_notation("s4"), Whitespace::Space(4));
    assert_eq!(whitespace_notation("t2"), Whitespace::Tab(2));
    assert_eq!(whitespace_notation("s0"), Whitespace::Space(0));
    assert_eq!(whitespace_notation("t12"), Whitespace::Tab(12));
}

#[test]
fn trimmed_drops_the_newline_flag() {
    let l = Line {
        indent: Whitespace::Space(2),
        comment: None,
        padding: Whitespace::Space(0),
        bullet: None,
        words: vec!["x".to_string()],
        newline: true,
    };
    let t = l.clone().trimmed();
    assert!(!t.newline);
    assert_eq!(t.words, l.words);
}

#[test]
fn overlong_word_overflows_on_its_own_line() {
    let toppings = Toppings::default().width(4);
    assert_eq!(
        wrap_salsa("aa bbbbbbbb cc\n", toppings),
        "aa\nbbbbbbbb\ncc\n"
    );
}

#[test]
fn blank_lines_separate_paragraphs() {
    let toppings = Toppings::default().width(80);
    assert_eq!(
        wrap_guacamole("foo\nbar\n\nbaz\nqux\n", toppings),
        "foo bar\n\nbaz qux\n"
    );
}

#[test]
fn bullet_width_uses_display_columns() {
    // the round bullet is ambiguous-width, hence two columns wide in the
    // CJK variant, so continuations align with three spaces
    let toppings = Toppings::default().width(9);
    assert_eq!(
        wrap_salsa("\u{2022} foo bar baz\n", toppings),
        "\u{2022} foo\n   bar\n   baz\n"
    );
}
