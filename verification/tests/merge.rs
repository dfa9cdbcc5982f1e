use email_sigs::merge::{collect, QuoteSet};
use email_sigs::quotes_parser::Quote;

fn names(quotes: &[Quote]) -> Vec<String> {
    quotes.iter().map(|q| q.text.clone()).collect()
}

#[test]
fn a_new_set_is_empty() {
    let set = QuoteSet::new();
    assert_eq!(set.len(), 0);
    assert_eq!(set.into_quotes(), vec![]);
}

#[test]
fn insert_skips_what_is_there() {
    let mut set = QuoteSet::new();
    assert!(set.insert(Quote::new("A", "X")));
    assert!(set.insert(Quote::new_anonymous("X")));
    assert!(!set.insert(Quote::new("A", "X")));
    assert!(set.insert(Quote::new("a", "X")));
    assert!(!set.insert(Quote::new(" A ", " X ")));
    assert_eq!(set.len(), 3);
    assert_eq!(
        set.into_quotes(),
        vec![Quote::new("A", "X"), Quote::new_anonymous("X"), Quote::new("a", "X")]
    );
}

#[test]
fn two_files_that_share_a_quote_give_three_quotes() {
    let first = "X:A:\n\nfirst only".to_string();
    let second = "second only\n\nX:A:".to_string();
    assert_eq!(
        collect(&vec![first, second]),
        vec![Quote::new("A", "X"), Quote::new_anonymous("first only"), Quote::new_anonymous("second only")]
    );
}

#[test]
fn merging_a_file_twice_is_merging_it_once() {
    let file = "b\n%\na\n%\nb\n%\nc".to_string();
    let once = collect(&vec![file.clone()]);
    let twice = collect(&vec![file.clone(), file]);
    assert_eq!(names(&once), vec!["b", "a", "c"]);
    assert_eq!(once, twice);
}

#[test]
fn extend_keeps_the_order_of_first_occurrence() {
    let mut set = QuoteSet::new();
    set.extend(vec![Quote::new_anonymous("2"), Quote::new_anonymous("1"), Quote::new_anonymous("2")]);
    set.extend(vec![Quote::new_anonymous("3"), Quote::new_anonymous("1"), Quote::new_anonymous("0")]);
    assert_eq!(names(&set.into_quotes()), vec!["2", "1", "3", "0"]);
}

#[test]
fn a_file_that_is_no_quote_file_adds_nothing() {
    let mut set = QuoteSet::new();
    assert_eq!(set.absorb("a\n\nb"), None);
    assert_eq!(
        set.absorb("Random text here"),
        Some("File contained less than 2 quotes. Maybe it isn't a quotes file?".to_string())
    );
    assert!(set.absorb("x\n%\n").unwrap().starts_with("Unrecognized format"));
    assert_eq!(set.absorb("c\n%\na"), None);
    assert_eq!(names(&set.into_quotes()), vec!["a", "b", "c"]);
}

#[test]
fn collect_of_no_file_is_empty() {
    assert_eq!(collect(&vec![]), vec![]);
    assert_eq!(collect(&vec!["nothing".to_string()]), vec![]);
}
