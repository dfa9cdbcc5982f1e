//! The layout with authors after a dash.
//!
//! Records are separated by a line that holds only `%`: a line break, `%`,
//! a line break. A record is any run of characters in which no separator
//! starts, and is never empty. Inside a record a line feed is only layout
//! and is dropped; the marker `<br>` stands for a line break that belongs
//! to the quote. The author, if there is one, follows the last `- `.

use crate::quotes_parser::{
    anonymous, attributed, is_line_break, line_break_at, line_break_len, views, Quote, QuoteView,
    Scan, SyntaxError,
};
use crate::text::{chars_of, last_index_of_pair, rfind_pair};
use vstd::prelude::*;
use vstd::slice::slice_subrange;

verus! {

/// The length of the separator that starts at `i`, a line break, `%` and
/// a line break, or 0 if none starts there.
pub open spec fn separator_len(s: Seq<char>, i: int) -> int {
    let a = line_break_len(s, i);
    let b = line_break_len(s, i + a + 1);
    if a > 0 && i + a < s.len() && s[i + a] == '%' && b > 0 {
        a + 1 + b
    } else {
        0
    }
}

/// The first position from `i` on where a separator starts, or the length
/// of `s` if none does: where a record that starts at `i` ends.
pub open spec fn record_end(s: Seq<char>, i: int) -> int
    decreases s.len() - i,
{
    if 0 <= i < s.len() && separator_len(s, i) == 0 {
        record_end(s, i + 1)
    } else {
        i
    }
}

/// The records found from `i` on, where a record is expected, and the
/// position where reading stops: after the last record that is followed
/// by the end of the input or by a separator and another record.
pub open spec fn scan(s: Seq<char>, i: int) -> Scan
    decreases s.len() - i,
{
    let j = record_end(s, i);
    if j <= i {
        Scan { records: Seq::empty(), stop: i }
    } else {
        let d = separator_len(s, j);
        if d == 0 || record_end(s, j + d) <= j + d {
            Scan { records: seq![s.subrange(i, j)], stop: j }
        } else {
            proof {
                lemma_record_end(s, i);
            }
            let rest = scan(s, j + d);
            Scan { records: seq![s.subrange(i, j)] + rest.records, stop: rest.stop }
        }
    }
}

/// `s` without its line feeds.
pub open spec fn without_line_feeds(s: Seq<char>) -> Seq<char> {
    s.filter(|c: char| c != '\n')
}

/// Whether the marker `<br>` starts at `i` in `s`.
pub open spec fn marker_at(s: Seq<char>, i: int) -> bool {
    &&& 0 <= i
    &&& i + 4 <= s.len()
    &&& s[i] == '<'
    &&& s[i + 1] == 'b'
    &&& s[i + 2] == 'r'
    &&& s[i + 3] == '>'
}

/// `s` with a line feed in place of each marker `<br>`, read from left to
/// right.
pub open spec fn with_breaks(s: Seq<char>) -> Seq<char>
    decreases s.len(),
{
    if s.len() == 0 {
        s
    } else if marker_at(s, 0) {
        seq!['\n'] + with_breaks(s.skip(4))
    } else {
        seq![s[0]] + with_breaks(s.skip(1))
    }
}

/// The quote that a record holds. Line feeds are dropped and markers are
/// turned into line feeds. Then the author is what follows the last `- `
/// and the text what stands before it; without a `- ` the whole is the
/// text of an anonymous quote.
pub open spec fn quote_of(record: Seq<char>) -> QuoteView {
    split(with_breaks(without_line_feeds(record)))
}

/// The quote that a line holds, split at its last `- `.
pub open spec fn split(line: Seq<char>) -> QuoteView {
    let k = last_index_of_pair(line, '-', ' ');
    if k >= 0 {
        attributed(line.skip(k + 2), line.take(k))
    } else {
        anonymous(line)
    }
}

/// What this layout makes of `s`: the quotes of its records, in order, if
/// the records and separators take up all of `s`, else the position where
/// reading stopped.
pub open spec fn recognized(s: Seq<char>) -> Result<Seq<QuoteView>, int> {
    let found = scan(s, 0);
    if found.stop == s.len() {
        Ok(found.records.map_values(|r: Seq<char>| quote_of(r)))
    } else {
        Err(found.stop)
    }
}

/// A record ends at or after its start, within the input, at a separator
/// or at the end, and no separator starts inside it.
pub proof fn lemma_record_end(s: Seq<char>, i: int)
    requires
        0 <= i <= s.len(),
    ensures
        i <= record_end(s, i) <= s.len(),
        record_end(s, i) < s.len() ==> separator_len(s, record_end(s, i)) > 0,
        record_end(s, i) + separator_len(s, record_end(s, i)) <= s.len(),
        forall|j: int| i <= j < record_end(s, i) ==> #[trigger] separator_len(s, j) == 0,
    decreases s.len() - i,
{
    if i < s.len() && separator_len(s, i) == 0 {
        lemma_record_end(s, i + 1);
    }
}

/// Reading stops within the input, and never before the position where it
/// began.
pub proof fn lemma_scan_bounds(s: Seq<char>, i: int)
    requires
        0 <= i <= s.len(),
    ensures
        i <= scan(s, i).stop <= s.len(),
    decreases s.len() - i,
{
    lemma_record_end(s, i);
    let j = record_end(s, i);
    if j > i {
        let d = separator_len(s, j);
        if !(d == 0 || record_end(s, j + d) <= j + d) {
            lemma_scan_bounds(s, j + d);
        }
    }
}

/// A record of a file together with what stands between it and the next
/// record.
pub struct Entry {
    pub record: Seq<char>,
    pub gap: Seq<char>,
}

/// Whether `gap` is exactly one separator: a line break, `%` and a line
/// break.
pub open spec fn is_percent_line(gap: Seq<char>) -> bool {
    gap.len() > 0 && separator_len(gap, 0) == gap.len()
}

/// Whether `record` can stand in a file as one record whatever separator
/// follows it: it is not empty, neither starts nor ends with a line break,
/// holds no separator, and does not end with a line break and `%`, which
/// would make a separator together with the line break that follows.
pub open spec fn well_formed(record: Seq<char>) -> bool {
    &&& record.len() > 0
    &&& !is_line_break(record.first())
    &&& !is_line_break(record.last())
    &&& forall|i: int| 0 <= i < record.len() ==> #[trigger] separator_len(record, i) == 0
    &&& !(record.len() >= 2 && record.last() == '%' && is_line_break(record[record.len() - 2]))
}

/// The file that holds `entries`: each record followed by its gap.
pub open spec fn written(entries: Seq<Entry>) -> Seq<char>
    decreases entries.len(),
{
    if entries.len() == 0 {
        Seq::empty()
    } else {
        entries[0].record + entries[0].gap + written(entries.drop_first())
    }
}

/// Whether `entries` make a file in this layout: every record is well
/// formed, a separator follows each but the last, and nothing follows the
/// last.
pub open spec fn well_formed_file(entries: Seq<Entry>) -> bool {
    forall|i: int|
        0 <= i < entries.len() ==> {
            &&& well_formed((#[trigger] entries[i]).record)
            &&& if i < entries.len() - 1 {
                is_percent_line(entries[i].gap)
            } else {
                entries[i].gap.len() == 0
            }
        }
}

/// A record ends where the first separator after its start starts.
proof fn lemma_record_end_at(s: Seq<char>, i: int, j: int)
    requires
        0 <= i <= j <= s.len(),
        forall|k: int| i <= k < j ==> #[trigger] separator_len(s, k) == 0,
        j == s.len() || separator_len(s, j) > 0,
    ensures
        record_end(s, i) == j,
    decreases j - i,
{
    if i < j {
        assert(separator_len(s, i) == 0);
        lemma_record_end_at(s, i + 1, j);
    }
}

/// No separator starts inside a well-formed record, wherever the record
/// stands, if the end of the input or a line break follows it.
proof fn lemma_no_separator_inside(s: Seq<char>, i: int, r: Seq<char>, k: int)
    requires
        well_formed(r),
        0 <= i,
        i + r.len() <= s.len(),
        forall|m: int| 0 <= m < r.len() ==> s[i + m] == #[trigger] r[m],
        i + r.len() == s.len() || is_line_break(s[i + r.len()]),
        i <= k < i + r.len(),
    ensures
        separator_len(s, k) == 0,
{
    let m = k - i;
    let n = r.len() as int;
    let a = line_break_len(s, k);
    assert(s[k] == r[m]);
    assert(r[n - 1] == r.last());
    assert(separator_len(r, m) == 0);
    if separator_len(s, k) > 0 {
        assert(a == 1 || a == 2);
        assert(s[k + a] == '%');
        assert(is_line_break(s[k + a + 1]));
        if m + a >= n {
            if a == 2 && m == n - 1 {
                assert(is_line_break(r[n - 1]));
            } else {
                assert(m + a == n);
                assert(false);
            }
        } else {
            assert(s[k + 1] == r[m + 1]);
            assert(s[k + a] == r[m + a]);
            assert(line_break_len(r, m) == a);
            assert(is_line_break(r[m + a - 1]));
            if m + a + 1 >= n {
                assert(m + a == n - 1);
                assert(is_line_break(r[n - 2]));
                assert(false);
            } else {
                assert(s[k + a + 1] == r[m + a + 1]);
                assert(line_break_len(r, m + a + 1) > 0);
                assert(false);
            }
        }
    }
}

/// A separator is found as a whole where it stands, if what follows it is
/// the end of the input or anything but a line feed.
proof fn lemma_separator_in_place(s: Seq<char>, end: int, gap: Seq<char>)
    requires
        is_percent_line(gap),
        0 <= end,
        end + gap.len() <= s.len(),
        forall|m: int| 0 <= m < gap.len() ==> s[end + m] == #[trigger] gap[m],
        end + gap.len() == s.len() || s[end + gap.len()] != '\n',
    ensures
        separator_len(s, end) == gap.len(),
{
    let a = line_break_len(gap, 0);
    let b = line_break_len(gap, a + 1);
    assert(gap.len() == a + 1 + b);
    assert(s[end] == gap[0]);
    assert(s[end + 1] == gap[1]);
    assert(line_break_len(s, end) == a);
    assert(s[end + a] == gap[a]);
    assert(s[end + a + 1] == gap[a + 1]);
    if b == 2 {
        assert(s[end + a + 2] == gap[a + 2]);
    }
    assert(line_break_len(s, end + a + 1) == b);
}

/// In a well-formed file that stands after `prefix`, the first record
/// ends where it is written to end, and its gap is the separator found
/// there.
proof fn lemma_first_record(prefix: Seq<char>, entries: Seq<Entry>)
    requires
        well_formed_file(entries),
        entries.len() > 0,
    ensures
        record_end(prefix + written(entries), prefix.len() as int) == prefix.len()
            + entries[0].record.len(),
        separator_len(
            prefix + written(entries),
            (prefix.len() + entries[0].record.len()) as int,
        ) == entries[0].gap.len(),
        (prefix + written(entries)).subrange(
            prefix.len() as int,
            (prefix.len() + entries[0].record.len()) as int,
        ) == entries[0].record,
{
    let e = entries[0];
    let rest = entries.drop_first();
    let s = prefix + written(entries);
    let i = prefix.len() as int;
    let r = e.record;
    let end = i + r.len();
    let tail = written(rest);
    assert(well_formed(r));
    assert(s.len() == i + r.len() + e.gap.len() + tail.len());
    assert forall|m: int| 0 <= m < r.len() implies s[i + m] == #[trigger] r[m] by {}
    assert forall|m: int| 0 <= m < e.gap.len() implies s[end + m] == #[trigger] e.gap[m] by {}
    assert(s.subrange(i, end) =~= r);
    if rest.len() > 0 {
        assert(rest[0] == entries[1]);
        assert(well_formed(rest[0].record));
        assert(is_percent_line(e.gap));
        assert(tail[0] == rest[0].record.first());
        assert(s[end + e.gap.len()] == tail[0]);
        assert(s[end] == e.gap[0]);
        assert(is_line_break(e.gap[0]));
        lemma_separator_in_place(s, end, e.gap);
    } else {
        assert(tail.len() == 0);
        assert(e.gap.len() == 0);
        assert(end == s.len());
    }
    assert forall|k: int| i <= k < end implies #[trigger] separator_len(s, k) == 0 by {
        lemma_no_separator_inside(s, i, r, k);
    }
    lemma_record_end_at(s, i, end);
}

/// Reading a well-formed file from its first record on finds all its
/// records and stops at its end, whatever stands before that record.
proof fn lemma_scan_written(prefix: Seq<char>, entries: Seq<Entry>)
    requires
        well_formed_file(entries),
        entries.len() > 0,
    ensures
        scan(prefix + written(entries), prefix.len() as int) == (Scan {
            records: entries.map_values(|e: Entry| e.record),
            stop: (prefix + written(entries)).len() as int,
        }),
    decreases entries.len(),
{
    let e = entries[0];
    let rest = entries.drop_first();
    let s = prefix + written(entries);
    let i = prefix.len() as int;
    let end = i + e.record.len();
    let records = entries.map_values(|e: Entry| e.record);
    lemma_first_record(prefix, entries);
    assert(well_formed(e.record));
    if rest.len() == 0 {
        assert(written(rest).len() == 0);
        assert(records =~= seq![e.record]);
    } else {
        assert(well_formed_file(rest)) by {
            assert forall|k: int| 0 <= k < rest.len() implies {
                &&& well_formed((#[trigger] rest[k]).record)
                &&& if k < rest.len() - 1 {
                    is_percent_line(rest[k].gap)
                } else {
                    rest[k].gap.len() == 0
                }
            } by {
                assert(rest[k] == entries[k + 1]);
            }
        }
        let longer = prefix + e.record + e.gap;
        assert(s =~= longer + written(rest));
        lemma_first_record(longer, rest);
        lemma_scan_written(longer, rest);
        assert(records =~= seq![e.record] + rest.map_values(|e: Entry| e.record));
    }
}

/// A file of well-formed records with a separator between each two is
/// read as exactly those records, in order: one quote for each, with the
/// markers in it turned into line breaks.
pub proof fn lemma_written_is_recognized(entries: Seq<Entry>)
    requires
        well_formed_file(entries),
    ensures
        recognized(written(entries)) == Ok::<Seq<QuoteView>, int>(
            entries.map_values(|e: Entry| quote_of(e.record)),
        ),
{
    let s = written(entries);
    let quotes = entries.map_values(|e: Entry| quote_of(e.record));
    if entries.len() == 0 {
        assert(scan(s, 0).records.map_values(|r: Seq<char>| quote_of(r)) =~= quotes);
    } else {
        lemma_scan_written(Seq::empty(), entries);
        assert(Seq::<char>::empty() + s =~= s);
        assert(entries.map_values(|e: Entry| e.record).map_values(|r: Seq<char>| quote_of(r))
            =~= quotes);
    }
}

/// Measures the separator that starts at `i`.
fn separator_at(s: &[char], i: usize) -> (d: usize)
    requires
        i <= s.len(),
    ensures
        d == separator_len(s@, i as int),
        i + d <= s.len(),
{
    let a = line_break_at(s, i);
    if a == 0 || i + a >= s.len() {
        return 0;
    }
    if s[i + a] != '%' {
        return 0;
    }
    let b = line_break_at(s, i + a + 1);
    if b == 0 {
        0
    } else {
        a + 1 + b
    }
}

/// Where the record that starts at `i` ends.
fn find_record_end(s: &[char], i: usize) -> (j: usize)
    requires
        i <= s.len(),
    ensures
        j == record_end(s@, i as int),
        i <= j <= s.len(),
{
    let mut j: usize = i;
    while j < s.len() && separator_at(s, j) == 0
        invariant
            i <= j <= s.len(),
            record_end(s@, i as int) == record_end(s@, j as int),
        decreases s.len() - j,
    {
        j += 1;
    }
    j
}

/// `s` without its line feeds.
pub fn strip_line_feeds(s: &[char]) -> (r: Vec<char>)
    ensures
        r@ == without_line_feeds(s@),
{
    let mut r: Vec<char> = Vec::new();
    let mut i: usize = 0;
    while i < s.len()
        invariant
            i <= s.len(),
            r@ == without_line_feeds(s@.take(i as int)),
        decreases s.len() - i,
    {
        proof {
            reveal(Seq::filter);
            assert(s@.take(i + 1).drop_last() =~= s@.take(i as int));
        }
        if s[i] != '\n' {
            r.push(s[i]);
        }
        i += 1;
    }
    assert(s@.take(s.len() as int) =~= s@);
    r
}

/// `s` with a line feed in place of each marker `<br>`.
pub fn expand_breaks(s: &[char]) -> (r: Vec<char>)
    ensures
        r@ == with_breaks(s@),
{
    let mut r: Vec<char> = Vec::new();
    let mut i: usize = 0;
    assert(s@.skip(0) =~= s@);
    while i < s.len()
        invariant
            i <= s.len(),
            with_breaks(s@) == r@ + with_breaks(s@.skip(i as int)),
        decreases s.len() - i,
    {
        let ghost rest = s@.skip(i as int);
        if s.len() - i >= 4 && s[i] == '<' && s[i + 1] == 'b' && s[i + 2] == 'r' && s[i + 3]
            == '>' {
            proof {
                assert(marker_at(rest, 0));
                assert(rest.skip(4) =~= s@.skip(i + 4));
                assert(r@ + (seq!['\n'] + with_breaks(rest.skip(4))) =~= r@.push('\n')
                    + with_breaks(rest.skip(4)));
            }
            r.push('\n');
            i += 4;
        } else {
            proof {
                assert(!marker_at(rest, 0));
                assert(rest.skip(1) =~= s@.skip(i + 1));
                assert(r@ + (seq![rest[0]] + with_breaks(rest.skip(1))) =~= r@.push(rest[0])
                    + with_breaks(rest.skip(1)));
            }
            r.push(s[i]);
            i += 1;
        }
    }
    assert(r@ + with_breaks(s@.skip(i as int)) =~= r@);
    r
}

/// Makes the quote that a line holds, split at its last `- `.
pub fn split_line(line: &[char]) -> (q: Quote)
    ensures
        q@ == split(line@),
{
    match rfind_pair(line, '-', ' ') {
        Some(k) => {
            assert(line@.subrange(0, k as int) =~= line@.take(k as int));
            assert(line@.subrange(k + 2, line@.len() as int) =~= line@.skip(k + 2));
            Quote::from_chars(
                Some(slice_subrange(line, k + 2, line.len())),
                slice_subrange(line, 0, k),
            )
        },
        None => Quote::from_chars(None, line),
    }
}

/// Makes the quote that a record holds.
pub fn line_to_quote(line: &[char]) -> (q: Quote)
    ensures
        q@ == quote_of(line@),
{
    let joined = strip_line_feeds(line);
    let unfolded = expand_breaks(joined.as_slice());
    split_line(unfolded.as_slice())
}

/// Reads `s` in this layout.
pub fn parse_chars(s: &[char]) -> (r: Result<Vec<Quote>, SyntaxError>)
    ensures
        match r {
            Ok(quotes) => recognized(s@) == Ok::<Seq<QuoteView>, int>(views(quotes@)),
            Err(e) => recognized(s@) == Err::<Seq<QuoteView>, int>(e.offset as int),
        },
{
    let mut quotes: Vec<Quote> = Vec::new();
    let ghost mut done: Seq<Seq<char>> = Seq::empty();
    let mut i: usize = 0;
    let mut stop: usize = 0;
    let mut end: usize = find_record_end(s, 0);
    loop
        invariant_except_break
            i <= end <= s.len(),
            end == record_end(s@, i as int),
            scan(s@, 0).records == done + scan(s@, i as int).records,
            scan(s@, 0).stop == scan(s@, i as int).stop,
            views(quotes@) == done.map_values(|r: Seq<char>| quote_of(r)),
        ensures
            stop == scan(s@, 0).stop,
            stop <= s.len(),
            views(quotes@) == scan(s@, 0).records.map_values(|r: Seq<char>| quote_of(r)),
        decreases s.len() - i,
    {
        if end <= i {
            stop = i;
            assert(done + scan(s@, i as int).records =~= done);
            break;
        }
        let quote = line_to_quote(slice_subrange(s, i, end));
        let ghost body = s@.subrange(i as int, end as int);
        proof {
            assert(views(quotes@.push(quote)) =~= views(quotes@).push(quote@));
            assert(done.push(body).map_values(|r: Seq<char>| quote_of(r)) =~= done.map_values(
                |r: Seq<char>| quote_of(r),
            ).push(quote_of(body)));
        }
        quotes.push(quote);
        let d = separator_at(s, end);
        if d == 0 {
            stop = end;
            assert(done + scan(s@, i as int).records =~= done.push(body));
            break;
        }
        let next_end = find_record_end(s, end + d);
        if next_end <= end + d {
            stop = end;
            assert(done + scan(s@, i as int).records =~= done.push(body));
            break;
        }
        proof {
            assert(done + scan(s@, i as int).records =~= done.push(body) + scan(
                s@,
                end + d,
            ).records);
            done = done.push(body);
        }
        i = end + d;
        end = next_end;
    }
    if stop == s.len() {
        Ok(quotes)
    } else {
        Err(SyntaxError { offset: stop })
    }
}

/// The recogniser of this layout.
pub struct Thunderbird {}

/// The recogniser of this layout.
pub fn parser() -> Thunderbird {
    Thunderbird {  }
}

impl Thunderbird {
    /// Reads `s` in this layout: the quotes of its records, in order, or
    /// where reading stopped.
    pub fn parse(&self, s: &str) -> (r: Result<Vec<Quote>, SyntaxError>)
        ensures
            match r {
                Ok(quotes) => recognized(s@) == Ok::<Seq<QuoteView>, int>(views(quotes@)),
                Err(e) => recognized(s@) == Err::<Seq<QuoteView>, int>(e.offset as int),
            },
    {
        let chars = chars_of(s);
        parse_chars(chars.as_slice())
    }
}

} // verus!
