//! Merging the quotes of several files into one list without duplicates.
//!
//! Quotes are kept in the order in which they were first seen. Two quotes
//! are the same if they have the same author, or both none, and the same
//! text, character for character.

use crate::quotes_parser::{examine, examined, parsed, Quote, QuoteView, Verdict};
use crate::quotes_parser::{diagnostic_of, views};
use indexmap::IndexSet;
use vstd::prelude::*;

verus! {

/// An insertion-ordered hash set.
#[verifier::external_type_specification]
#[verifier::external_body]
#[verifier::reject_recursive_types(T)]
#[verifier::reject_recursive_types(S)]
pub struct ExIndexSet<T, S>(IndexSet<T, S>);

/// The items that an `IndexSet` of author and text holds, in its order,
/// each as the characters of its author and text.
pub uninterp spec fn set_items(set: IndexSet<(Option<String>, String)>) -> Seq<
    (Option<Seq<char>>, Seq<char>),
>;

/// `IndexSet::new` makes a set that holds nothing.
#[verifier::external_body]
fn set_new() -> (set: IndexSet<(Option<String>, String)>)
    ensures
        set_items(set) == Seq::<(Option<Seq<char>>, Seq<char>)>::empty(),
{
    IndexSet::new()
}

/// `IndexSet::len` is the number of items that the set holds.
#[verifier::external_body]
fn set_len(set: &IndexSet<(Option<String>, String)>) -> (n: usize)
    ensures
        n == set_items(*set).len(),
{
    set.len()
}

/// `IndexSet::insert` leaves the set as it is and returns `false` if the
/// set holds an equal item; otherwise it puts the item last in order and
/// returns `true`. Items are equal when their authors and texts hold the
/// same characters.
#[verifier::external_body]
fn set_insert(set: &mut IndexSet<(Option<String>, String)>, item: (Option<String>, String)) -> (added:
    bool)
    ensures
        added == !set_items(*old(set)).contains(item.deep_view()),
        set_items(*final(set)) == if added {
            set_items(*old(set)).push(item.deep_view())
        } else {
            set_items(*old(set))
        },
{
    set.insert(item)
}

/// `IndexSet::into_iter` hands out the items that the set holds, in its
/// order.
#[verifier::external_body]
fn set_into_vec(set: IndexSet<(Option<String>, String)>) -> (items: Vec<(Option<String>, String)>)
    ensures
        items.deep_view() == set_items(set),
{
    set.into_iter().collect()
}

/// The quote that a pair of author and text stands for.
pub open spec fn quote_of_pair(pair: (Option<Seq<char>>, Seq<char>)) -> QuoteView {
    QuoteView { author: pair.0, text: pair.1 }
}

/// The pair of author and text that stands for a quote.
pub open spec fn pair_of_quote(quote: QuoteView) -> (Option<Seq<char>>, Seq<char>) {
    (quote.author, quote.text)
}

/// `acc` with `quote` added at the end, unless `acc` holds it already.
pub open spec fn with_quote(acc: Seq<QuoteView>, quote: QuoteView) -> Seq<QuoteView> {
    if acc.contains(quote) {
        acc
    } else {
        acc.push(quote)
    }
}

/// `acc` with the quotes of `quotes` added one after the other, each
/// unless it is there already.
pub open spec fn merged(acc: Seq<QuoteView>, quotes: Seq<QuoteView>) -> Seq<QuoteView>
    decreases quotes.len(),
{
    if quotes.len() == 0 {
        acc
    } else {
        with_quote(merged(acc, quotes.drop_last()), quotes.last())
    }
}

/// `acc` after the file with the contents `contents` was taken in: with
/// its quotes merged in if it is a quote file, unchanged if it is not.
pub open spec fn absorbed(acc: Seq<QuoteView>, contents: Seq<char>) -> Seq<QuoteView> {
    match parsed(contents) {
        Some(quotes) => merged(acc, quotes),
        None => acc,
    }
}

/// The quotes of the files with the given contents, taken in one after
/// the other.
pub open spec fn collected(files: Seq<Seq<char>>) -> Seq<QuoteView>
    decreases files.len(),
{
    if files.len() == 0 {
        Seq::empty()
    } else {
        absorbed(collected(files.drop_last()), files.last())
    }
}

/// A list of quotes without duplicates, in the order in which the quotes
/// were first added.
pub struct QuoteSet {
    items: IndexSet<(Option<String>, String)>,
}

impl View for QuoteSet {
    type V = Seq<QuoteView>;

    closed spec fn view(&self) -> Seq<QuoteView> {
        set_items(self.items).map_values(|p: (Option<Seq<char>>, Seq<char>)| quote_of_pair(p))
    }
}

impl QuoteSet {
    /// Whether no quote stands twice in the list. Every list that `new`
    /// makes has this property, and every method keeps it.
    pub open spec fn wf(&self) -> bool {
        self@.no_duplicates()
    }

    /// The empty list.
    pub fn new() -> (set: Self)
        ensures
            set@ == Seq::<QuoteView>::empty(),
            set.wf(),
    {
        let set = QuoteSet { items: set_new() };
        assert(set@ =~= Seq::<QuoteView>::empty());
        set
    }

    /// The number of quotes in the list.
    pub fn len(&self) -> (n: usize)
        ensures
            n == self@.len(),
    {
        set_len(&self.items)
    }

    /// Adds `quote` at the end of the list, unless the list holds it
    /// already. Says whether it was added.
    pub fn insert(&mut self, quote: Quote) -> (added: bool)
        requires
            old(self).wf(),
        ensures
            added == !old(self)@.contains(quote@),
            final(self)@ == with_quote(old(self)@, quote@),
            final(self).wf(),
    {
        let ghost before = set_items(self.items);
        let ghost pair = pair_of_quote(quote@);
        let item = (quote.author, quote.text);
        assert(item.deep_view() == pair);
        proof {
            lemma_pairs_and_quotes(before, pair);
        }
        let added = set_insert(&mut self.items, item);
        proof {
            if added {
                assert(before.push(pair).map_values(
                    |p: (Option<Seq<char>>, Seq<char>)| quote_of_pair(p),
                ) =~= before.map_values(
                    |p: (Option<Seq<char>>, Seq<char>)| quote_of_pair(p),
                ).push(quote@));
            }
        }
        added
    }

    /// Adds the quotes of `quotes` in order, each unless the list holds it
    /// already.
    pub fn extend(&mut self, quotes: Vec<Quote>)
        requires
            old(self).wf(),
        ensures
            final(self)@ == merged(old(self)@, views(quotes@)),
            final(self).wf(),
    {
        let ghost all = quotes@;
        let ghost start = self@;
        for quote in it: quotes
            invariant
                it.seq() == all,
                self.wf(),
                self@ == merged(start, views(all.take(it.index()))),
        {
            proof {
                let seen = all.take(it.index());
                assert(all.take(it.index() + 1) =~= seen.push(quote));
                assert(views(seen.push(quote)) =~= views(seen).push(quote@));
                assert(views(seen).push(quote@).drop_last() =~= views(seen));
            }
            self.insert(quote);
        }
        assert(all.take(all.len() as int) =~= all);
    }

    /// Takes in the file with the contents `contents`: merges its quotes
    /// into the list if it is a quote file, and leaves the list as it is
    /// if it is not. Returns what to tell the user if it is not.
    pub fn absorb(&mut self, contents: &str) -> (diagnostic: Option<String>)
        requires
            old(self).wf(),
        ensures
            final(self)@ == absorbed(old(self)@, contents@),
            final(self).wf(),
            match diagnostic {
                Some(text) => diagnostic_of(examined(contents@)) == Some(text@),
                None => diagnostic_of(examined(contents@)) is None,
            },
            diagnostic is None <==> parsed(contents@) is Some,
    {
        let verdict = examine(contents);
        let diagnostic = verdict.diagnostic();
        match verdict {
            Verdict::Quotes(quotes) => {
                self.extend(quotes);
            },
            _ => {},
        }
        diagnostic
    }

    /// The quotes of the list, in order.
    pub fn into_quotes(self) -> (quotes: Vec<Quote>)
        requires
            self.wf(),
        ensures
            views(quotes@) == self@,
            views(quotes@).no_duplicates(),
    {
        let pairs = set_into_vec(self.items);
        let ghost all = pairs@;
        let mut quotes: Vec<Quote> = Vec::new();
        for pair in it: pairs
            invariant
                it.seq() == all,
                all.len() == self@.len(),
                forall|i: int|
                    0 <= i < all.len() ==> quote_of_pair(#[trigger] all[i].deep_view()) == self@[i],
                views(quotes@) == self@.take(it.index()),
        {
            let quote = Quote { author: pair.0, text: pair.1 };
            proof {
                assert(quote@ == quote_of_pair(all[it.index()].deep_view()));
                assert(views(quotes@.push(quote)) =~= views(quotes@).push(quote@));
                assert(self@.take(it.index() + 1) =~= self@.take(it.index()).push(quote@));
            }
            quotes.push(quote);
        }
        assert(self@.take(self@.len() as int) =~= self@);
        quotes
    }
}

/// The quotes of the files with the given contents, merged in the order
/// of the files: each quote once, where it was first seen. A file that is
/// not a quote file adds nothing.
pub fn collect(files: &Vec<String>) -> (quotes: Vec<Quote>)
    ensures
        views(quotes@) == collected(files.deep_view()),
        views(quotes@).no_duplicates(),
{
    let mut set = QuoteSet::new();
    let mut i: usize = 0;
    assert(files.deep_view().take(0) =~= Seq::<Seq<char>>::empty());
    while i < files.len()
        invariant
            i <= files.len(),
            set.wf(),
            set@ == collected(files.deep_view().take(i as int)),
        decreases files.len() - i,
    {
        proof {
            let seen = files.deep_view().take(i as int);
            assert(files.deep_view().take(i + 1).drop_last() =~= seen);
            assert(files.deep_view().take(i + 1).last() == files[i as int]@);
        }
        let _ = set.absorb(files[i].as_str());
        i += 1;
    }
    assert(files.deep_view().take(files.len() as int) =~= files.deep_view());
    set.into_quotes()
}

/// Merging adds nothing that is there already: what stood in `acc` stays
/// where it stood, and only new quotes come after it.
pub proof fn lemma_merged_keeps_prefix(acc: Seq<QuoteView>, quotes: Seq<QuoteView>)
    ensures
        acc.len() <= merged(acc, quotes).len(),
        merged(acc, quotes).take(acc.len() as int) == acc,
    decreases quotes.len(),
{
    if quotes.len() == 0 {
        assert(acc.take(acc.len() as int) =~= acc);
    } else {
        lemma_merged_keeps_prefix(acc, quotes.drop_last());
        let before = merged(acc, quotes.drop_last());
        assert(merged(acc, quotes).take(acc.len() as int) =~= before.take(acc.len() as int));
    }
}

/// The merged list holds exactly the quotes of `acc` and of `quotes`.
pub proof fn lemma_merged_contains(acc: Seq<QuoteView>, quotes: Seq<QuoteView>, quote: QuoteView)
    ensures
        merged(acc, quotes).contains(quote) <==> acc.contains(quote) || quotes.contains(quote),
    decreases quotes.len(),
{
    if quotes.len() > 0 {
        let front = quotes.drop_last();
        let before = merged(acc, front);
        lemma_merged_contains(acc, front, quote);
        if quotes.contains(quote) {
            let i = choose|i: int| 0 <= i < quotes.len() && quotes[i] == quote;
            if i < front.len() {
                assert(front[i] == quote);
            }
        }
        if front.contains(quote) {
            let i = choose|i: int| 0 <= i < front.len() && front[i] == quote;
            assert(quotes[i] == quote);
        }
        assert(quotes[quotes.len() - 1] == quotes.last());
        if before.contains(quotes.last()) {
        } else {
            let after = before.push(quotes.last());
            assert(after[after.len() - 1] == quotes.last());
            if before.contains(quote) {
                let i = choose|i: int| 0 <= i < before.len() && before[i] == quote;
                assert(after[i] == quote);
            }
            if after.contains(quote) {
                let i = choose|i: int| 0 <= i < after.len() && after[i] == quote;
                if i < before.len() {
                    assert(before[i] == quote);
                }
            }
        }
    }
}

/// Merging into a list without duplicates gives a list without
/// duplicates.
pub proof fn lemma_merged_no_duplicates(acc: Seq<QuoteView>, quotes: Seq<QuoteView>)
    requires
        acc.no_duplicates(),
    ensures
        merged(acc, quotes).no_duplicates(),
    decreases quotes.len(),
{
    if quotes.len() > 0 {
        lemma_merged_no_duplicates(acc, quotes.drop_last());
    }
}

/// Merging quotes that the list holds already changes nothing.
pub proof fn lemma_merged_known(acc: Seq<QuoteView>, quotes: Seq<QuoteView>)
    requires
        forall|i: int| 0 <= i < quotes.len() ==> acc.contains(#[trigger] quotes[i]),
    ensures
        merged(acc, quotes) == acc,
    decreases quotes.len(),
{
    if quotes.len() > 0 {
        let front = quotes.drop_last();
        assert forall|i: int| 0 <= i < front.len() implies acc.contains(#[trigger] front[i]) by {
            assert(front[i] == quotes[i]);
        }
        lemma_merged_known(acc, front);
        assert(acc.contains(quotes[quotes.len() - 1]));
    }
}

/// Merging the same quotes twice gives what merging them once gives.
pub proof fn lemma_merged_twice(acc: Seq<QuoteView>, quotes: Seq<QuoteView>)
    ensures
        merged(merged(acc, quotes), quotes) == merged(acc, quotes),
{
    let once = merged(acc, quotes);
    assert forall|i: int| 0 <= i < quotes.len() implies once.contains(#[trigger] quotes[i]) by {
        lemma_merged_contains(acc, quotes, quotes[i]);
    }
    lemma_merged_known(once, quotes);
}

/// Merging two lists one after the other is merging them joined.
pub proof fn lemma_merged_in_turn(acc: Seq<QuoteView>, first: Seq<QuoteView>, second: Seq<QuoteView>)
    ensures
        merged(merged(acc, first), second) == merged(acc, first + second),
    decreases second.len(),
{
    if second.len() == 0 {
        assert(first + second =~= first);
    } else {
        lemma_merged_in_turn(acc, first, second.drop_last());
        assert((first + second).drop_last() =~= first + second.drop_last());
        assert((first + second).last() == second.last());
    }
}

/// Taking in the same file twice gives what taking it in once gives, and
/// what was in the list before stays where it was.
pub proof fn lemma_absorbed_twice(acc: Seq<QuoteView>, contents: Seq<char>)
    ensures
        absorbed(absorbed(acc, contents), contents) == absorbed(acc, contents),
        acc.len() <= absorbed(acc, contents).len(),
        absorbed(acc, contents).take(acc.len() as int) == acc,
{
    match parsed(contents) {
        Some(quotes) => {
            lemma_merged_twice(acc, quotes);
            lemma_merged_keeps_prefix(acc, quotes);
        },
        None => {
            assert(acc.take(acc.len() as int) =~= acc);
        },
    }
}

/// The position at which `quote` first stands in `quotes`, or the length
/// of `quotes` if it stands nowhere.
pub open spec fn first_index_of(quotes: Seq<QuoteView>, quote: QuoteView) -> int
    decreases quotes.len(),
{
    if quotes.len() == 0 {
        0
    } else if quotes[0] == quote {
        0
    } else {
        1 + first_index_of(quotes.drop_first(), quote)
    }
}

/// `first_index_of` finds the first occurrence.
pub proof fn lemma_first_index_of(quotes: Seq<QuoteView>, quote: QuoteView)
    ensures
        0 <= first_index_of(quotes, quote) <= quotes.len(),
        first_index_of(quotes, quote) < quotes.len() ==> quotes[first_index_of(quotes, quote)]
            == quote,
        forall|i: int| 0 <= i < first_index_of(quotes, quote) ==> #[trigger] quotes[i] != quote,
        first_index_of(quotes, quote) < quotes.len() <==> quotes.contains(quote),
    decreases quotes.len(),
{
    if quotes.len() > 0 && quotes[0] != quote {
        let rest = quotes.drop_first();
        lemma_first_index_of(rest, quote);
        let k = first_index_of(rest, quote);
        assert forall|i: int| 0 <= i < 1 + k implies #[trigger] quotes[i] != quote by {
            if i > 0 {
                assert(rest[i - 1] == quotes[i]);
            }
        }
        if k < rest.len() {
            assert(quotes[1 + k] == rest[k]);
        }
        if quotes.contains(quote) {
            let i = choose|i: int| 0 <= i < quotes.len() && quotes[i] == quote;
            assert(rest[i - 1] == quote);
        }
    } else if quotes.len() > 0 {
        assert(quotes[0] == quote);
    }
}

/// Merged from nothing, quotes stand in the order in which they were
/// first seen: of two quotes of the merged list, the earlier one is first
/// seen earlier in `quotes`.
pub proof fn lemma_merged_in_order_seen(quotes: Seq<QuoteView>, i: int, j: int)
    requires
        0 <= i < j < merged(Seq::empty(), quotes).len(),
    ensures
        first_index_of(quotes, merged(Seq::empty(), quotes)[i]) < first_index_of(
            quotes,
            merged(Seq::empty(), quotes)[j],
        ) < quotes.len(),
    decreases quotes.len(),
{
    let all = merged(Seq::<QuoteView>::empty(), quotes);
    if quotes.len() > 0 {
        let front = quotes.drop_last();
        let before = merged(Seq::<QuoteView>::empty(), front);
        lemma_first_index_in_front(quotes, all[i]);
        lemma_first_index_in_front(quotes, all[j]);
        lemma_first_index_of(front, all[i]);
        lemma_first_index_of(front, all[j]);
        lemma_first_index_of(quotes, all[j]);
        assert(before.contains(all[i])) by {
            assert(before[i] == all[i]);
        }
        lemma_merged_contains(Seq::empty(), front, all[i]);
        if j < before.len() {
            assert(before.contains(all[j])) by {
                assert(before[j] == all[j]);
            }
            lemma_merged_contains(Seq::empty(), front, all[j]);
            lemma_merged_in_order_seen(front, i, j);
        } else {
            assert(all[j] == quotes.last());
            lemma_merged_contains(Seq::empty(), front, all[j]);
            assert(quotes[quotes.len() - 1] == all[j]);
        }
    }
}

/// Where a quote first stands in a list that is one longer: where it
/// first stands in the front part, if it stands there.
proof fn lemma_first_index_in_front(quotes: Seq<QuoteView>, quote: QuoteView)
    requires
        quotes.len() > 0,
    ensures
        quotes.drop_last().contains(quote) ==> first_index_of(quotes, quote) == first_index_of(
            quotes.drop_last(),
            quote,
        ),
        !quotes.drop_last().contains(quote) ==> first_index_of(quotes, quote) >= quotes.len() - 1,
{
    let front = quotes.drop_last();
    lemma_first_index_of(front, quote);
    lemma_first_index_of(quotes, quote);
    let a = first_index_of(front, quote);
    let b = first_index_of(quotes, quote);
    if front.contains(quote) {
        assert(quotes[a] == front[a]);
        if b < a {
            assert(front[b] == quotes[b]);
        }
    } else {
        if b < quotes.len() - 1 {
            assert(front[b] == quotes[b]);
        }
    }
}

/// A list of pairs holds a pair exactly when the list of the quotes that
/// the pairs stand for holds its quote.
proof fn lemma_pairs_and_quotes(
    pairs: Seq<(Option<Seq<char>>, Seq<char>)>,
    pair: (Option<Seq<char>>, Seq<char>),
)
    ensures
        pairs.contains(pair) <==> pairs.map_values(
            |p: (Option<Seq<char>>, Seq<char>)| quote_of_pair(p),
        ).contains(quote_of_pair(pair)),
{
    let quotes = pairs.map_values(|p: (Option<Seq<char>>, Seq<char>)| quote_of_pair(p));
    if pairs.contains(pair) {
        let i = choose|i: int| 0 <= i < pairs.len() && pairs[i] == pair;
        assert(quotes[i] == quote_of_pair(pair));
    }
    if quotes.contains(quote_of_pair(pair)) {
        let i = choose|i: int| 0 <= i < quotes.len() && quotes[i] == quote_of_pair(pair);
        assert(pairs[i] == pair);
    }
}

} // verus!
