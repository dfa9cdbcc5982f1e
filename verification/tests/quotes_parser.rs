use email_sigs::quotes_parser::{
    examine, guessing_parser, mail_quotes_parser, parse, thunderbird_parser, Quote, SyntaxError,
    Unrecognized, Verdict,
};

#[test]
fn test_parse_thunderbird_quotes() {
    let text = "\
        Some quote. - A. N. Other\
        \n%\n\
        Another quote.- Author Name\
        \n%\n\
        Quote3.-Different Name\
        \n%\n\
        Multiline quote<br>\n\
        is a quote on many lines - Some Author\
        \n%\n\
        Some quote without an author\
    ";
    let quotes = thunderbird_parser::parser().parse(text).unwrap();
    assert_eq!(
        quotes,
        vec![
            Quote::new("A. N. Other", "Some quote."),
            Quote::new("Author Name", "Another quote."),
            Quote::new_anonymous("Quote3.-Different Name"),
            Quote::new("Some Author", "Multiline quote\nis a quote on many lines"),
            Quote::new_anonymous("Some quote without an author"),
        ]
    );
    // A dash that no space follows names no author.
    assert_ne!(quotes[2], Quote::new("Different Name", "Quote3."));
}

#[test]
fn test_parse_mail_quotes() {
    let text = "\
        Some quote.:A. N. Other:\
        \n\n\
        Another quote. :Author Name:\
        \n\n\
        Quote3.:Different Name:\
        \n\n\
        [This is a multiline\nquote :Some Name:]\
        \n\n\
        [Multiline quote\nWithout an author]\
        \n\n\
        Regular quote without an author\
    ";
    assert_eq!(
        mail_quotes_parser::parser().parse(text),
        Ok(vec![
            Quote::new("A. N. Other", "Some quote."),
            Quote::new("Author Name", "Another quote."),
            Quote::new("Different Name", "Quote3."),
            Quote::new("Some Name", "This is a multiline\nquote"),
            Quote::new_anonymous("Multiline quote\nWithout an author"),
            Quote::new_anonymous("Regular quote without an author"),
        ])
    );
}

#[test]
fn test_guess_file_type_thunderbird() {
    let text = "\
    Some quote. - A. N. Other\
    \n%\n\
    Another quote.- Author Name\
    ";
    assert_eq!(
        parse(text),
        Some(vec![
            Quote::new("A. N. Other", "Some quote."),
            Quote::new("Author Name", "Another quote."),
        ])
    );
}

#[test]
fn test_guess_file_type_mail_quotes() {
    let text = "\
    Some quote.:A. N. Other:\
    \n\n\
    Another quote. :Author Name:\
    ";
    assert_eq!(
        parse(text),
        Some(vec![
            Quote::new("A. N. Other", "Some quote."),
            Quote::new("Author Name", "Another quote."),
        ])
    );
}

#[test]
fn test_guess_file_type_unidentified() {
    let text = "\
    Random text here\
    ";
    assert_eq!(parse(text), None);
}

fn quote(author: Option<&str>, text: &str) -> Quote {
    Quote { author: author.map(|a| a.to_string()), text: text.to_string() }
}

#[test]
fn constructors_trim_both_parts() {
    assert_eq!(Quote::new("  A. N. Other\t", "\n Some quote. "), quote(Some("A. N. Other"), "Some quote."));
    assert_eq!(Quote::new_anonymous(" \u{a0}x y\u{3000}"), quote(None, "x y"));
    assert_eq!(Quote::new("", "   "), quote(Some(""), ""));
}

#[test]
fn from_chars_trims_and_keeps_inner_space() {
    let author: Vec<char> = " a  b ".chars().collect();
    let text: Vec<char> = "\tt\n".chars().collect();
    assert_eq!(Quote::from_chars(Some(&author), &text), quote(Some("a  b"), "t"));
    assert_eq!(Quote::from_chars(None, &text), quote(None, "t"));
}

#[test]
fn duplicate_and_same_as_agree() {
    let a = Quote::new("A", "X");
    let b = a.duplicate();
    assert_eq!(a, b);
    assert!(a.same_as(&b));
    assert!(!a.same_as(&Quote::new_anonymous("X")));
    assert!(!a.same_as(&Quote::new("A", "x")));
    assert!(!Quote::new_anonymous("X").same_as(&a));
    assert!(Quote::new_anonymous("X").same_as(&Quote::new_anonymous("X")));
}

#[test]
fn mail_author_stands_between_the_last_two_colons() {
    let p = mail_quotes_parser::parser();
    assert_eq!(p.parse("a:b:c:d"), Ok(vec![quote(Some("c"), "a:b")]));
    assert_eq!(p.parse("text : who :"), Ok(vec![quote(Some("who"), "text")]));
    assert_eq!(p.parse("one:colon"), Ok(vec![quote(None, "one:colon")]));
    assert_eq!(p.parse("::"), Ok(vec![quote(Some(""), "")]));
}

#[test]
fn mail_line_to_quote_splits_a_record() {
    let record: Vec<char> = "Some quote.:A. N. Other:".chars().collect();
    assert_eq!(mail_quotes_parser::line_to_quote(&record), quote(Some("A. N. Other"), "Some quote."));
    let plain: Vec<char> = " no author ".chars().collect();
    assert_eq!(mail_quotes_parser::line_to_quote(&plain), quote(None, "no author"));
}

#[test]
fn mail_bracketed_record_keeps_its_line_breaks() {
    assert_eq!(
        mail_quotes_parser::parser().parse("[first line\nsecond line\n\nfourth line]\n\nplain"),
        Ok(vec![quote(None, "first line\nsecond line\n\nfourth line"), quote(None, "plain")])
    );
}

#[test]
fn mail_allows_one_trailing_separator() {
    let p = mail_quotes_parser::parser();
    assert_eq!(p.parse("a\n\nb\n\n"), Ok(vec![quote(None, "a"), quote(None, "b")]));
    assert_eq!(p.parse("a\n\nb\n"), Err(SyntaxError { offset: 4 }));
    assert_eq!(p.parse("a\n\nb\n\n\n"), Err(SyntaxError { offset: 6 }));
    assert_eq!(p.parse("a\n\n\nb"), Err(SyntaxError { offset: 3 }));
}

#[test]
fn mail_empty_input_holds_no_record() {
    assert_eq!(mail_quotes_parser::parser().parse(""), Ok(vec![]));
    assert_eq!(mail_quotes_parser::parser().parse("\n\na"), Err(SyntaxError { offset: 0 }));
}

#[test]
fn mail_unbalanced_bracket_is_a_plain_record_up_to_the_line_break() {
    let p = mail_quotes_parser::parser();
    assert_eq!(p.parse("[abc"), Ok(vec![quote(None, "[abc")]));
    assert_eq!(p.parse("[a\nb"), Err(SyntaxError { offset: 2 }));
    assert_eq!(p.parse("[a]b"), Err(SyntaxError { offset: 3 }));
    assert_eq!(p.parse("[a]\n\n[b"), Ok(vec![quote(None, "a"), quote(None, "[b")]));
}

#[test]
fn mail_reads_every_kind_of_line_break() {
    let p = mail_quotes_parser::parser();
    let two = Ok(vec![quote(None, "a"), quote(None, "b")]);
    assert_eq!(p.parse("a\r\n\r\nb"), two);
    assert_eq!(p.parse("a\r\rb"), two);
    assert_eq!(p.parse("a\u{2028}\u{2029}b"), two);
    assert_eq!(p.parse("a\u{b}\u{c}b"), two);
    assert_eq!(p.parse("a\u{85}\nb"), two);
    // A carriage return before a line feed is one line break, not two.
    assert_eq!(p.parse("a\r\nb"), Err(SyntaxError { offset: 1 }));
    assert_eq!(p.parse("a\n\r\nb"), two);
}

#[test]
fn thunderbird_splits_at_the_last_dash_space() {
    let p = thunderbird_parser::parser();
    assert_eq!(p.parse("a - b - c"), Ok(vec![quote(Some("c"), "a - b")]));
    assert_eq!(p.parse("a- "), Ok(vec![quote(Some(""), "a")]));
    assert_eq!(p.parse("- b"), Ok(vec![quote(Some("b"), "")]));
    assert_eq!(p.parse("a-b"), Ok(vec![quote(None, "a-b")]));
}

#[test]
fn thunderbird_drops_line_feeds_and_expands_markers() {
    let p = thunderbird_parser::parser();
    assert_eq!(p.parse("one<br>two\nthree - me"), Ok(vec![quote(Some("me"), "one\ntwothree")]));
    assert_eq!(p.parse("<b\nr>x"), Ok(vec![quote(None, "x")]));
    assert_eq!(p.parse("a<br><br>b<br"), Ok(vec![quote(None, "a\n\nb<br")]));
    assert_eq!(p.parse("a\rb"), Ok(vec![quote(None, "a\rb")]));
}

#[test]
fn thunderbird_helpers_rewrite_a_record() {
    let record: Vec<char> = "a\nb<br>c\n".chars().collect();
    let joined = thunderbird_parser::strip_line_feeds(&record);
    assert_eq!(joined.iter().collect::<String>(), "ab<br>c");
    let unfolded = thunderbird_parser::expand_breaks(&joined);
    assert_eq!(unfolded.iter().collect::<String>(), "ab\nc");
    let line: Vec<char> = "text - who".chars().collect();
    assert_eq!(thunderbird_parser::split_line(&line), quote(Some("who"), "text"));
    assert_eq!(thunderbird_parser::line_to_quote(&record), quote(None, "ab\nc"));
}

#[test]
fn thunderbird_needs_a_record_on_both_sides_of_a_separator() {
    let p = thunderbird_parser::parser();
    assert_eq!(p.parse(""), Ok(vec![]));
    assert_eq!(p.parse("a\n%\n"), Err(SyntaxError { offset: 1 }));
    assert_eq!(p.parse("\n%\na"), Err(SyntaxError { offset: 0 }));
    assert_eq!(p.parse("a\n%\n\n%\nb"), Err(SyntaxError { offset: 1 }));
    assert_eq!(p.parse("a\n%\nb"), Ok(vec![quote(None, "a"), quote(None, "b")]));
    assert_eq!(p.parse("a\r\n%\r\nb"), Ok(vec![quote(None, "a"), quote(None, "b")]));
    assert_eq!(p.parse("a\n%b"), Ok(vec![quote(None, "a%b")]));
}

#[test]
fn thunderbird_reads_a_single_record() {
    assert_eq!(
        thunderbird_parser::parser().parse("Only one - Me"),
        Ok(vec![Quote::new("Me", "Only one")])
    );
}

#[test]
fn an_input_that_fits_both_layouts_is_read_with_delimited_authors() {
    let text = "a - x\n\n%\n\nb - y";
    assert_eq!(
        mail_quotes_parser::parser().parse(text),
        Ok(vec![quote(None, "a - x"), quote(None, "%"), quote(None, "b - y")])
    );
    assert_eq!(
        thunderbird_parser::parser().parse(text),
        Ok(vec![quote(Some("x"), "a"), quote(Some("y"), "b")])
    );
    assert_eq!(
        guessing_parser().parse(text),
        Ok(vec![quote(None, "a - x"), quote(None, "%"), quote(None, "b - y")])
    );
    assert_eq!(parse(text), Some(vec![quote(None, "a - x"), quote(None, "%"), quote(None, "b - y")]));
}

#[test]
fn a_bracketed_percent_file_is_one_record_and_no_quote_file() {
    let text = "[x\n%\ny]";
    assert_eq!(thunderbird_parser::parser().parse(text).map(|q| q.len()), Ok(2));
    assert_eq!(mail_quotes_parser::parser().parse(text), Ok(vec![quote(None, "x\n%\ny")]));
    assert_eq!(parse(text), None);
}

#[test]
fn guessing_reports_where_both_layouts_stop() {
    assert_eq!(
        guessing_parser().parse("a\n%\n"),
        Err(Unrecognized {
            mail_quotes: SyntaxError { offset: 1 },
            thunderbird: SyntaxError { offset: 1 },
        })
    );
    assert_eq!(
        guessing_parser().parse("[a]b\n%\n"),
        Err(Unrecognized {
            mail_quotes: SyntaxError { offset: 3 },
            thunderbird: SyntaxError { offset: 4 },
        })
    );
}

#[test]
fn examine_tells_the_three_verdicts_apart() {
    match examine("a\n\nb") {
        Verdict::Quotes(quotes) => assert_eq!(quotes, vec![quote(None, "a"), quote(None, "b")]),
        _ => panic!("two records make a quote file"),
    }
    match examine("Random text here") {
        Verdict::TooFew(n) => assert_eq!(n, 1),
        _ => panic!("one record is too few"),
    }
    match examine("") {
        Verdict::TooFew(n) => assert_eq!(n, 0),
        _ => panic!("no record is too few"),
    }
    match examine("a\n%\n") {
        Verdict::Unrecognized(e) => assert_eq!(e.thunderbird.offset, 1),
        _ => panic!("no layout fits"),
    }
}

#[test]
fn diagnostics_are_worded_exactly() {
    assert_eq!(examine("a\n\nb").diagnostic(), None);
    assert_eq!(
        examine("just one").diagnostic(),
        Some("File contained less than 2 quotes. Maybe it isn't a quotes file?".to_string())
    );
    assert_eq!(
        examine("0123456789ab\n%\n").diagnostic(),
        Some(
            "Unrecognized format: as blank-line separated quotes, unexpected input at character 12; \
             as %-separated quotes, unexpected input at character 12"
                .to_string()
        )
    );
}

#[test]
fn scenario_percent_separated() {
    assert_eq!(
        parse("Some quote. - A. N. Other\n%\nAnother quote.- Author Name"),
        Some(vec![
            quote(Some("A. N. Other"), "Some quote."),
            quote(Some("Author Name"), "Another quote."),
        ])
    );
}

#[test]
fn scenario_blank_line_separated() {
    assert_eq!(
        parse("Some quote.:A. N. Other:\n\nAnother quote. :Author Name:"),
        Some(vec![
            quote(Some("A. N. Other"), "Some quote."),
            quote(Some("Author Name"), "Another quote."),
        ])
    );
}

#[test]
fn offsets_count_characters_not_bytes() {
    assert_eq!(mail_quotes_parser::parser().parse("äöü\nx"), Err(SyntaxError { offset: 3 }));
}
