//! The two layouts written down a second time, with parser combinators and
//! the standard library's string functions, and held against the library
//! on every short input over the characters that matter and on longer
//! pseudo-random ones.

use chumsky::error::Simple;
use chumsky::primitive::{end, just};
use chumsky::text::newline;
use chumsky::Parser;
use email_sigs::quotes_parser::{mail_quotes_parser, thunderbird_parser, Quote};

fn percent_records() -> impl Parser<char, Vec<String>, Error = Simple<char>> {
    let quote_sep = newline().then(just('%')).then(newline());
    let line = quote_sep.clone().not().repeated().at_least(1).collect::<String>();
    line.separated_by(quote_sep).then_ignore(end())
}

fn blank_line_records() -> impl Parser<char, Vec<String>, Error = Simple<char>> {
    let simple_line = newline().not().repeated().at_least(1).collect::<String>();
    let multi_line =
        just(']').not().repeated().delimited_by(just('['), just(']')).collect::<String>();
    multi_line
        .or(simple_line)
        .separated_by(newline().repeated().exactly(2))
        .allow_trailing()
        .then_ignore(end())
}

fn percent_quote(line: &str) -> Quote {
    let line = line.replace('\n', "").replace("<br>", "\n");
    match line.rsplit_once("- ") {
        Some((text, author)) => {
            Quote { author: Some(author.trim().to_owned()), text: text.trim().to_owned() }
        }
        None => Quote { author: None, text: line.trim().to_owned() },
    }
}

fn blank_line_quote(line: &str) -> Quote {
    let parts: Vec<&str> = line.rsplitn(3, ':').collect();
    if parts.len() == 3 {
        Quote { author: Some(parts[1].trim().to_owned()), text: parts[2].trim().to_owned() }
    } else {
        Quote { author: None, text: line.trim().to_owned() }
    }
}

fn check_percent(reference: &impl Parser<char, Vec<String>, Error = Simple<char>>, input: &str) {
    let expected: Option<Vec<Quote>> =
        reference.parse(input).ok().map(|records| records.iter().map(|r| percent_quote(r)).collect());
    assert_eq!(thunderbird_parser::parser().parse(input).ok(), expected, "{:?}", input);
}

fn check_blank_line(reference: &impl Parser<char, Vec<String>, Error = Simple<char>>, input: &str) {
    let expected: Option<Vec<Quote>> = reference
        .parse(input)
        .ok()
        .map(|records| records.iter().map(|r| blank_line_quote(r)).collect());
    assert_eq!(mail_quotes_parser::parser().parse(input).ok(), expected, "{:?}", input);
}

/// Every string over `alphabet` of the given length.
fn strings(alphabet: &[&str], length: usize) -> Vec<String> {
    let mut all = vec![String::new()];
    for _ in 0..length {
        let mut longer = Vec::with_capacity(all.len() * alphabet.len());
        for s in &all {
            for piece in alphabet {
                longer.push(format!("{}{}", s, piece));
            }
        }
        all = longer;
    }
    all
}

/// A fixed sequence of pseudo-random numbers.
fn next(state: &mut u64) -> usize {
    *state = state.wrapping_mul(6364136223846793005).wrapping_add(1442695040888963407);
    (*state >> 33) as usize
}

fn random_string(alphabet: &[&str], state: &mut u64) -> String {
    let length = next(state) % 40;
    let mut s = String::new();
    for _ in 0..length {
        s.push_str(alphabet[next(state) % alphabet.len()]);
    }
    s
}

const PERCENT_PIECES: [&str; 7] = ["a", "\n", "\r", "%", "-", " ", "<br>"];
const BLANK_LINE_PIECES: [&str; 7] = ["a", "\n", "\r", "[", "]", ":", " "];

#[test]
fn percent_layout_agrees_on_short_inputs() {
    let reference = percent_records();
    for length in 0..=5 {
        for input in strings(&PERCENT_PIECES, length) {
            check_percent(&reference, &input);
        }
    }
}

#[test]
fn blank_line_layout_agrees_on_short_inputs() {
    let reference = blank_line_records();
    for length in 0..=5 {
        for input in strings(&BLANK_LINE_PIECES, length) {
            check_blank_line(&reference, &input);
        }
    }
}

#[test]
fn percent_layout_agrees_on_random_inputs() {
    let reference = percent_records();
    let pieces = ["a", "b", "\n", "\n%\n", "\r\n", "%", "- ", "-", " ", "<br>", "\u{2028}", "é"];
    let mut state = 1;
    for _ in 0..3000 {
        check_percent(&reference, &random_string(&pieces, &mut state));
    }
}

#[test]
fn blank_line_layout_agrees_on_random_inputs() {
    let reference = blank_line_records();
    let pieces = ["a", "b", "\n", "\n\n", "\r\n", "[", "]", ":", " ", "\u{85}", "\u{b}", "é"];
    let mut state = 2;
    for _ in 0..3000 {
        check_blank_line(&reference, &random_string(&pieces, &mut state));
    }
}

#[test]
fn both_layouts_agree_on_other_line_breaks() {
    let percent = percent_records();
    let blank = blank_line_records();
    let pieces = ["a", "%", "\n", "\r", "\u{b}", "\u{c}", "\u{85}", "\u{2028}", "\u{2029}"];
    for length in 0..=4 {
        for input in strings(&pieces, length) {
            check_percent(&percent, &input);
            check_blank_line(&blank, &input);
        }
    }
}
