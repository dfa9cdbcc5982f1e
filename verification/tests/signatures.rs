use email_sigs::signatures::{with_prefixes, Signature};

#[test]
fn new_keeps_name_and_content() {
    let s = Signature::new("sig 4", "content 4");
    assert_eq!(s.name(), "sig 4");
    assert_eq!(s.content(), "content 4");
}

#[test]
fn with_prefix_changes_the_name_only() {
    let s = Signature::new("sig 4", "content 4").with_prefix("Autoquote: ");
    assert_eq!(s.name(), "Autoquote: sig 4");
    assert_eq!(s.content(), "content 4");
    assert_eq!(Signature::new("n", "c").with_prefix(""), Signature::new("n", "c"));
}

#[test]
fn with_prefixes_renames_each_in_order() {
    let all = vec![
        Signature::new("sig 4", "content 4"),
        Signature::new("sig 5", "content 5"),
        Signature::new("sig 6", "content 6"),
    ];
    assert_eq!(
        with_prefixes("P ", all),
        vec![
            Signature::new("P sig 4", "content 4"),
            Signature::new("P sig 5", "content 5"),
            Signature::new("P sig 6", "content 6"),
        ]
    );
    assert_eq!(with_prefixes("P ", vec![]), vec![]);
}
