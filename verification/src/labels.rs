//! Turning quotes into signatures.
//!
//! Each quote of a merged list becomes one signature. Its name is the
//! quote's position in the list, counted from one, a colon, a space and
//! the author, or `Anonymous` where there is none. Its content is the
//! text, followed by ` - ` and the author where there is one.

use crate::quotes_parser::thunderbird_parser::split;
use crate::quotes_parser::{views, Quote, QuoteView};
use crate::signatures::{Signature, SignatureView};
use crate::text::{
    decimal, is_trimmed, last_index_of_pair, lemma_last_index_of_pair, lemma_trimmed_fixpoint,
    to_decimal, trimmed, trimmed_end, trimmed_start, white_space,
};
use vstd::prelude::*;
use vstd::string::StringExecFns;

verus! {

/// The author of `quote`, or `Anonymous` where there is none.
pub open spec fn key_of(quote: QuoteView) -> Seq<char> {
    match quote.author {
        Some(author) => author,
        None => "Anonymous"@,
    }
}

/// The text of `quote`, followed by ` - ` and the author where there is
/// one.
pub open spec fn display_of(quote: QuoteView) -> Seq<char> {
    match quote.author {
        Some(author) => quote.text + " - "@ + author,
        None => quote.text,
    }
}

/// The signature for `quote` at `position`, counted from one.
pub open spec fn label_of(position: nat, quote: QuoteView) -> SignatureView {
    SignatureView { name: decimal(position) + ": "@ + key_of(quote), content: display_of(quote) }
}

/// The signatures for `quotes`: one for each, in order, numbered from one.
pub open spec fn labels_of(quotes: Seq<QuoteView>) -> Seq<SignatureView> {
    Seq::new(quotes.len(), |i: int| label_of((i + 1) as nat, quotes[i]))
}

/// What a quote is called: its author, or `Anonymous`.
pub fn format_key(quote: &Quote) -> (key: String)
    ensures
        key@ == key_of(quote@),
{
    match &quote.author {
        None => String::from_str("Anonymous"),
        Some(author) => author.clone(),
    }
}

/// What a quote is shown as: its text, then ` - ` and its author where
/// it has one.
pub fn format_quote(quote: &Quote) -> (display: String)
    ensures
        display@ == display_of(quote@),
{
    match &quote.author {
        None => quote.text.clone(),
        Some(author) => {
            let mut display = quote.text.clone();
            display.append(" - ");
            display.append(author.as_str());
            display
        },
    }
}

/// The signature for `quote` at `position`, counted from one.
pub fn label(position: usize, quote: &Quote) -> (signature: Signature)
    ensures
        signature@ == label_of(position as nat, quote@),
{
    let mut name = to_decimal(position);
    name.append(": ");
    name.append(format_key(quote).as_str());
    Signature::new(name.as_str(), format_quote(quote).as_str())
}

/// The signatures for `quotes`: one for each, in order, numbered from one.
pub fn labels(quotes: &Vec<Quote>) -> (signatures: Vec<Signature>)
    ensures
        crate::signatures::views(signatures@) == labels_of(views(quotes@)),
{
    let mut signatures: Vec<Signature> = Vec::new();
    let mut i: usize = 0;
    while i < quotes.len()
        invariant
            i <= quotes.len(),
            crate::signatures::views(signatures@) == labels_of(views(quotes@)).take(i as int),
        decreases quotes.len() - i,
    {
        let signature = label(i + 1, &quotes[i]);
        proof {
            assert(crate::signatures::views(signatures@.push(signature))
                =~= crate::signatures::views(signatures@).push(signature@));
            assert(labels_of(views(quotes@)).take(i + 1) =~= labels_of(views(quotes@)).take(
                i as int,
            ).push(signature@));
        }
        signatures.push(signature);
        i += 1;
    }
    assert(labels_of(views(quotes@)).take(quotes.len() as int) =~= labels_of(views(quotes@)));
    signatures
}

/// Whether `- ` stands nowhere in `s`.
pub open spec fn has_no_dash_space(s: Seq<char>) -> bool {
    last_index_of_pair(s, '-', ' ') == -1
}

/// A trimmed text followed by one space trims back to itself.
proof fn lemma_trimmed_with_space(text: Seq<char>)
    requires
        is_trimmed(text),
    ensures
        trimmed(text.push(' ')) == text,
{
    let padded = text.push(' ');
    assert(white_space(' '));
    assert(padded.drop_last() =~= text);
    if text.len() == 0 {
        assert(padded.drop_first() =~= text);
        assert(padded[0] == ' ');
        assert(trimmed_start(text) == text);
        assert(trimmed_start(padded) == trimmed_start(padded.drop_first()));
    } else {
        assert(padded[0] == text[0]);
        assert(trimmed_start(padded) == padded);
        assert(trimmed_end(padded) == trimmed_end(text));
    }
}

/// What a quote is shown as can be read back: split at its last `- `, as
/// a record of the layout with authors after a dash is, the displayed form
/// of a trimmed quote gives the quote again, provided that no `- ` stands
/// in the author or, for a quote without author, in the text.
pub proof fn lemma_display_reads_back(quote: QuoteView)
    requires
        quote.is_trimmed(),
        match quote.author {
            Some(author) => has_no_dash_space(author),
            None => has_no_dash_space(quote.text),
        },
    ensures
        split(display_of(quote)) == quote,
{
    reveal_strlit(" - ");
    let shown = display_of(quote);
    match quote.author {
        Some(author) => {
            let text = quote.text;
            let at = text.len() as int + 1;
            assert(shown.len() == text.len() + 3 + author.len());
            assert(shown[at - 1] == ' ');
            assert(shown[at] == '-');
            assert(shown[at + 1] == ' ');
            lemma_last_index_of_pair(shown, '-', ' ');
            lemma_last_index_of_pair(author, '-', ' ');
            let k = last_index_of_pair(shown, '-', ' ');
            if k < at {
                assert(!(shown[at] == '-' && shown[at + 1] == ' '));
            }
            if k > at {
                if k == at + 1 {
                    assert(shown[k] == ' ');
                } else {
                    let i = k - at - 2;
                    assert(shown[k] == author[i]);
                    assert(shown[k + 1] == author[i + 1]);
                    assert(!(author[i] == '-' && author[i + 1] == ' '));
                }
            }
            assert(k == at);
            assert(shown.take(k) =~= text.push(' '));
            assert(shown.skip(k + 2) =~= author);
            lemma_trimmed_with_space(text);
            lemma_trimmed_fixpoint(author);
        },
        None => {
            lemma_trimmed_fixpoint(quote.text);
        },
    }
}

} // verus!
