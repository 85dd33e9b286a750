//! The header of a compressed file: the frequency table as text.
//!
//! The header is one line of `symbol:count` pairs, each followed by `|`. The
//! symbol is one character, whatever it is; the count is written in decimal
//! digits. A table that holds `|` or the line end as a symbol cannot be
//! written: its pairs could not be told apart again.

use crate::error::HuffmanError;
use crate::frequency::{
    ascending, distinct_symbols, entries_map, has_symbol, lemma_entries_unique, lemma_push_entry,
    total_count, FrequencyTable,
};
use crate::text::{symbols_of, text_of};
use vstd::prelude::*;
use vstd::slice::slice_subrange;

verus! {

/// The character that ends a pair.
pub open spec fn pair_end() -> char {
    '|'
}

/// The character between the symbol and the count of a pair.
pub open spec fn pair_separator() -> char {
    ':'
}

/// The character that ends the header.
pub open spec fn line_end() -> char {
    '\n'
}

/// The digit that stands for `d`.
pub open spec fn digit_char(d: nat) -> char {
    if d == 0 {
        '0'
    } else if d == 1 {
        '1'
    } else if d == 2 {
        '2'
    } else if d == 3 {
        '3'
    } else if d == 4 {
        '4'
    } else if d == 5 {
        '5'
    } else if d == 6 {
        '6'
    } else if d == 7 {
        '7'
    } else if d == 8 {
        '8'
    } else {
        '9'
    }
}

/// What a digit stands for.
pub open spec fn digit_value(c: char) -> Option<nat> {
    if c == '0' {
        Some(0)
    } else if c == '1' {
        Some(1)
    } else if c == '2' {
        Some(2)
    } else if c == '3' {
        Some(3)
    } else if c == '4' {
        Some(4)
    } else if c == '5' {
        Some(5)
    } else if c == '6' {
        Some(6)
    } else if c == '7' {
        Some(7)
    } else if c == '8' {
        Some(8)
    } else if c == '9' {
        Some(9)
    } else {
        None
    }
}

/// The decimal digits of `n`, without leading zeros.
pub open spec fn decimal(n: nat) -> Seq<char>
    decreases n,
{
    if n < 10 {
        seq![digit_char(n)]
    } else {
        decimal(n / 10).push(digit_char(n % 10))
    }
}

/// Whether all the characters are decimal digits.
pub open spec fn all_digits(d: Seq<char>) -> bool {
    forall|i: int| 0 <= i < d.len() ==> digit_value(#[trigger] d[i]) is Some
}

/// The number that decimal digits stand for.
pub open spec fn decimal_value(d: Seq<char>) -> nat
    decreases d.len(),
{
    if d.len() == 0 {
        0
    } else {
        10 * decimal_value(d.drop_last()) + digit_value(d.last()).unwrap()
    }
}

/// The count that a token's digits stand for: at least one digit, nothing
/// but digits, and a number that fits the machine word.
pub open spec fn parse_count(d: Seq<char>) -> Option<usize> {
    if d.len() > 0 && all_digits(d) && decimal_value(d) <= usize::MAX {
        Some(decimal_value(d) as usize)
    } else {
        None
    }
}

/// The pair that a token stands for: one character, the separator, the
/// count.
pub open spec fn parse_pair(token: Seq<char>) -> Option<(char, usize)> {
    if token.len() >= 3 && token[1] == pair_separator() {
        match parse_count(token.skip(2)) {
            Some(n) => Some((token[0], n)),
            None => None,
        }
    } else {
        None
    }
}

/// Where the token that starts at `from` ends: at the next `|`, or at the
/// end of the line.
pub open spec fn token_end(line: Seq<char>, from: int) -> int
    decreases line.len() - from,
{
    if from < 0 || from >= line.len() || line[from] == pair_end() {
        from
    } else {
        token_end(line, from + 1)
    }
}

/// Whether a pair can join the pairs read so far: a positive count, a new
/// symbol, and a total that still fits the machine word.
pub open spec fn acceptable(read: Seq<(char, usize)>, pair: (char, usize)) -> bool {
    &&& pair.1 > 0
    &&& !has_symbol(read, pair.0)
    &&& total_count(read) + pair.1 <= usize::MAX
}

/// Reads the line from `from` on, token by token: all the pairs, or the
/// first token that is no pair or cannot join those before it. An empty
/// token is no pair; the `|` of the last pair may end the line.
pub open spec fn parse_from(line: Seq<char>, from: int, read: Seq<(char, usize)>) -> Result<
    Seq<(char, usize)>,
    Seq<char>,
>
    decreases line.len() - from,
{
    if from < 0 || from >= line.len() {
        Ok(read)
    } else {
        proof {
            lemma_token_end_range(line, from);
        }
        let end = token_end(line, from);
        let token = line.subrange(from, end);
        match parse_pair(token) {
            Some(pair) => if !acceptable(read, pair) {
                Err(token)
            } else if end >= line.len() {
                Ok(read.push(pair))
            } else {
                parse_from(line, end + 1, read.push(pair))
            },
            None => Err(token),
        }
    }
}

/// What a header line stands for: its pairs in the order in which they come,
/// or the first malformed token.
pub open spec fn parse_line(line: Seq<char>) -> Result<Seq<(char, usize)>, Seq<char>> {
    parse_from(line, 0, Seq::empty())
}

/// The text of one pair.
pub open spec fn pair_text(e: (char, usize)) -> Seq<char> {
    seq![e.0, pair_separator()] + decimal(e.1 as nat) + seq![pair_end()]
}

/// The text of a header: the pairs, one after the other.
pub open spec fn header_text(entries: Seq<(char, usize)>) -> Seq<char>
    decreases entries.len(),
{
    if entries.len() == 0 {
        Seq::empty()
    } else {
        header_text(entries.drop_last()) + pair_text(entries.last())
    }
}

/// Whether a header can carry the symbol.
pub open spec fn supported(c: char) -> bool {
    c != pair_end() && c != line_end()
}

/// The first symbol of the entries that a header cannot carry.
pub open spec fn first_unsupported(entries: Seq<(char, usize)>) -> Option<char>
    decreases entries.len(),
{
    if entries.len() == 0 {
        None
    } else if !supported(entries[0].0) {
        Some(entries[0].0)
    } else {
        first_unsupported(entries.drop_first())
    }
}

/// A token ends at or after its start, at a `|` or at the end of the line,
/// and holds no `|`.
pub proof fn lemma_token_end_range(line: Seq<char>, from: int)
    requires
        0 <= from <= line.len(),
    ensures
        from <= token_end(line, from) <= line.len(),
        token_end(line, from) < line.len() ==> line[token_end(line, from)] == pair_end(),
        forall|i: int| from <= i < token_end(line, from) ==> #[trigger] line[i] != pair_end(),
    decreases line.len() - from,
{
    if from < line.len() && line[from] != pair_end() {
        lemma_token_end_range(line, from + 1);
    }
}

/// The digit for `d`.
fn digit_for(d: usize) -> (c: char)
    requires
        d < 10,
    ensures
        c == digit_char(d as nat),
{
    if d == 0 {
        '0'
    } else if d == 1 {
        '1'
    } else if d == 2 {
        '2'
    } else if d == 3 {
        '3'
    } else if d == 4 {
        '4'
    } else if d == 5 {
        '5'
    } else if d == 6 {
        '6'
    } else if d == 7 {
        '7'
    } else if d == 8 {
        '8'
    } else {
        '9'
    }
}

/// What the character stands for as a digit, if it is one.
fn value_of_digit(c: char) -> (d: Option<usize>)
    ensures
        d is Some <==> digit_value(c) is Some,
        d matches Some(v) ==> digit_value(c) == Some(v as nat) && v < 10,
{
    if c == '0' {
        Some(0)
    } else if c == '1' {
        Some(1)
    } else if c == '2' {
        Some(2)
    } else if c == '3' {
        Some(3)
    } else if c == '4' {
        Some(4)
    } else if c == '5' {
        Some(5)
    } else if c == '6' {
        Some(6)
    } else if c == '7' {
        Some(7)
    } else if c == '8' {
        Some(8)
    } else if c == '9' {
        Some(9)
    } else {
        None
    }
}

/// Appends the decimal digits of `n`.
fn push_decimal(text: &mut String, n: usize)
    ensures
        final(text)@ == old(text)@ + decimal(n as nat),
    decreases n,
{
    if n >= 10 {
        push_decimal(text, n / 10);
    }
    let ghost before = text@;
    text.push(digit_for(n % 10));
    proof {
        if n >= 10 {
            assert(text@ =~= old(text)@ + decimal((n / 10) as nat).push(digit_char((n % 10) as nat)));
        } else {
            assert(text@ =~= old(text)@ + seq![digit_char(n as nat)]);
        }
    }
}

/// Writes the frequency table as a header line, without the line end: the
/// pairs in ascending symbol order.
///
/// Fails with `UnsupportedSymbol` on the first symbol that a header cannot
/// carry.
pub fn serialize_header(table: &FrequencyTable) -> (r: Result<String, HuffmanError>)
    ensures
        match first_unsupported(table.entries()) {
            Some(c) => r == Err::<String, HuffmanError>(HuffmanError::UnsupportedSymbol(c)),
            None => r matches Ok(text) && text@ == header_text(table.entries()),
        },
{
    let ghost entries = table.entries();
    let n = table.len();
    let mut text = String::new();
    let mut i: usize = 0;
    assert(entries.skip(0) =~= entries);
    assert(entries.take(0) =~= Seq::<(char, usize)>::empty());
    while i < n
        invariant
            i <= n == entries.len(),
            entries == table.entries(),
            first_unsupported(entries) == first_unsupported(entries.skip(i as int)),
            text@ == header_text(entries.take(i as int)),
        decreases n - i,
    {
        let (c, count) = table.entry(i);
        assert(entries.skip(i as int)[0] == entries[i as int]);
        assert(entries.skip(i as int).drop_first() =~= entries.skip(i + 1));
        if c == '|' || c == '\n' {
            return Err(HuffmanError::UnsupportedSymbol(c));
        }
        let ghost before = text@;
        text.push(c);
        text.push(':');
        push_decimal(&mut text, count);
        text.push('|');
        proof {
            assert(entries.take(i + 1).drop_last() =~= entries.take(i as int));
            assert(text@ =~= before + pair_text((c, count)));
        }
        i += 1;
    }
    assert(entries.take(i as int) =~= entries);
    Ok(text)
}

/// The number of the first digits is no larger than the number of all.
proof fn lemma_decimal_value_take(d: Seq<char>, n: int)
    requires
        0 <= n <= d.len(),
        all_digits(d),
    ensures
        decimal_value(d.take(n)) <= decimal_value(d),
    decreases d.len() - n,
{
    if n < d.len() {
        lemma_decimal_value_take(d, n + 1);
        assert(d.take(n + 1).drop_last() =~= d.take(n));
        assert(d.take(n + 1).last() == d[n]);
    } else {
        assert(d.take(n) =~= d);
    }
}

/// Reads the count that the characters from `from` to `end` stand for.
fn read_count(symbols: &Vec<char>, from: usize, end: usize) -> (r: Option<usize>)
    requires
        from <= end <= symbols@.len(),
    ensures
        r == parse_count(symbols@.subrange(from as int, end as int)),
{
    let ghost d = symbols@.subrange(from as int, end as int);
    if from == end {
        return None;
    }
    let mut value: usize = 0;
    let mut i: usize = from;
    let mut fits = true;
    assert(d.take(0) =~= Seq::<char>::empty());
    while i < end
        invariant
            from <= i <= end <= symbols@.len(),
            d == symbols@.subrange(from as int, end as int),
            all_digits(d.take(i - from)),
            fits ==> value == decimal_value(d.take(i - from)),
            !fits ==> decimal_value(d.take(i - from)) > usize::MAX,
        decreases end - i,
    {
        let c = symbols[i];
        assert(d[i - from] == c);
        assert(d.take(i - from + 1).drop_last() =~= d.take(i - from));
        assert(d.take(i - from + 1).last() == c);
        match value_of_digit(c) {
            None => {
                assert(!all_digits(d));
                return None;
            },
            Some(v) => {
                assert forall|j: int| 0 <= j < i - from + 1 implies digit_value(
                    #[trigger] d.take(i - from + 1)[j],
                ) is Some by {
                    if j < i - from {
                        assert(d.take(i - from)[j] == d[j]);
                    }
                }
                if fits {
                    if value > (usize::MAX - v) / 10 {
                        fits = false;
                    } else {
                        value = value * 10 + v;
                    }
                }
            },
        }
        i += 1;
    }
    assert(d.take(end - from) =~= d);
    if fits {
        Some(value)
    } else {
        None
    }
}

/// Reads the pair that the characters from `from` to `end` stand for.
fn read_pair(symbols: &Vec<char>, from: usize, end: usize) -> (r: Option<(char, usize)>)
    requires
        from <= end <= symbols@.len(),
    ensures
        r == parse_pair(symbols@.subrange(from as int, end as int)),
{
    let ghost token = symbols@.subrange(from as int, end as int);
    if end - from < 3 || symbols[from + 1] != ':' {
        return None;
    }
    assert(token[1] == symbols@[from + 1]);
    assert(token[0] == symbols@[from as int]);
    assert(token.skip(2) =~= symbols@.subrange(from + 2, end as int));
    match read_count(symbols, from + 2, end) {
        Some(n) => Some((symbols[from], n)),
        None => None,
    }
}

/// Reads a header line, without its line end, back into a frequency table.
/// The pairs may come in any order.
///
/// Fails with `MalformedHeader`, which carries the token, on the first token
/// that is not a `symbol:count` pair, repeats a symbol, has the count zero or
/// takes the total beyond the machine word.
pub fn parse_header(line: &str) -> (r: Result<FrequencyTable, HuffmanError>)
    ensures
        match parse_line(line@) {
            Ok(pairs) => r matches Ok(table) && table.wf() && table@ == entries_map(pairs)
                && table.total_spec() == total_count(pairs) && (pairs.len() == 0
                <==> table.entries().len() == 0) && (ascending(pairs) ==> table.entries()
                == pairs),
            Err(token) => r matches Err(HuffmanError::MalformedHeader(t)) && t@ == token,
        },
{
    let symbols = symbols_of(line);
    let n = symbols.len();
    let mut table = FrequencyTable::new();
    let ghost mut read = Seq::<(char, usize)>::empty();
    let mut from: usize = 0;
    while from < n
        invariant
            from <= n == symbols@.len(),
            symbols@ == line@,
            table.wf(),
            parse_line(line@) == parse_from(symbols@, from as int, read),
            distinct_symbols(read),
            table@ == entries_map(read),
            table.total_spec() == total_count(read),
            read.len() == 0 <==> table.entries().len() == 0,
        decreases n - from,
    {
        let mut end = from;
        while end < n && symbols[end] != '|'
            invariant
                from <= end <= n == symbols@.len(),
                token_end(symbols@, from as int) == token_end(symbols@, end as int),
            decreases n - end,
        {
            end += 1;
        }
        let ghost token = symbols@.subrange(from as int, end as int);
        let pair = read_pair(&symbols, from, end);
        let ghost old_table = table;
        let added = match pair {
            Some((c, count)) => {
                assert(has_symbol(read, c) == entries_map(read).dom().contains(c));
                table.insert(c, count)
            },
            None => false,
        };
        if !added {
            let t = text_of(slice_subrange(symbols.as_slice(), from, end));
            return Err(HuffmanError::MalformedHeader(t));
        }
        proof {
            let p = pair.unwrap();
            lemma_push_entry(read, p);
            assert(read.push(p).drop_last() =~= read);
            read = read.push(p);
            table.lemma_nonempty();
        }
        if end < n {
            from = end + 1;
        } else {
            from = n;
        }
    }
    proof {
        if ascending(read) {
            table.lemma_wf();
            lemma_entries_unique(table.entries(), read);
        }
    }
    Ok(table)
}

/// The digits of a number stand for that number, and none of them ends a
/// pair or a line.
pub proof fn lemma_decimal(n: nat)
    ensures
        decimal(n).len() > 0,
        all_digits(decimal(n)),
        decimal_value(decimal(n)) == n,
        forall|i: int|
            0 <= i < decimal(n).len() ==> #[trigger] decimal(n)[i] != pair_end() && decimal(n)[i]
                != line_end(),
    decreases n,
{
    let d = decimal(n);
    if n < 10 {
        assert(d.drop_last() =~= Seq::<char>::empty());
        assert(decimal_value(d.drop_last()) == 0);
        assert(digit_value(digit_char(n)) == Some(n));
    } else {
        lemma_decimal(n / 10);
        let init = decimal(n / 10);
        assert(d.drop_last() =~= init);
        assert(digit_value(digit_char(n % 10)) == Some(n % 10));
        assert forall|i: int| 0 <= i < d.len() implies digit_value(#[trigger] d[i]) is Some
            && d[i] != pair_end() && d[i] != line_end() by {
            if i < init.len() {
                assert(d[i] == init[i]);
            }
        }
    }
}

/// The text of a header starts with the text of its first pair.
pub proof fn lemma_header_front(entries: Seq<(char, usize)>)
    requires
        entries.len() > 0,
    ensures
        header_text(entries) == pair_text(entries[0]) + header_text(entries.drop_first()),
    decreases entries.len(),
{
    if entries.len() == 1 {
        assert(entries.drop_last() =~= Seq::<(char, usize)>::empty());
        assert(entries.drop_first() =~= Seq::<(char, usize)>::empty());
        assert(header_text(entries.drop_last()) =~= Seq::<char>::empty());
        assert(header_text(entries) =~= pair_text(entries[0]) + header_text(entries.drop_first()));
    } else {
        let init = entries.drop_last();
        lemma_header_front(init);
        assert(init.drop_first() =~= entries.drop_first().drop_last());
        assert(entries.drop_first().last() == entries.last());
        assert(header_text(entries) =~= pair_text(entries[0]) + header_text(entries.drop_first()));
    }
}

/// A token ends at the first `|` after its start.
proof fn lemma_token_end_at(line: Seq<char>, from: int, end: int)
    requires
        0 <= from <= end < line.len(),
        forall|i: int| from <= i < end ==> #[trigger] line[i] != pair_end(),
        line[end] == pair_end(),
    ensures
        token_end(line, from) == end,
    decreases end - from,
{
    if from < end {
        assert(line[from] != pair_end());
        lemma_token_end_at(line, from + 1, end);
    }
}

/// Reading the text of pairs, from where it starts in a line, gives the
/// pairs back, after those read before.
proof fn lemma_parse_header_text(
    before: Seq<char>,
    read: Seq<(char, usize)>,
    rest: Seq<(char, usize)>,
)
    requires
        distinct_symbols(read + rest),
        total_count(read + rest) <= usize::MAX,
        forall|i: int| 0 <= i < rest.len() ==> (#[trigger] rest[i]).1 > 0 && rest[i].0 != pair_end(),
    ensures
        parse_from(before + header_text(rest), before.len() as int, read) == Ok::<
            Seq<(char, usize)>,
            Seq<char>,
        >(read + rest),
    decreases rest.len(),
{
    let line = before + header_text(rest);
    let from = before.len() as int;
    if rest.len() == 0 {
        assert(read + rest =~= read);
        assert(line =~= before);
    } else {
        let e = rest[0];
        let tail = rest.drop_first();
        let digits = decimal(e.1 as nat);
        lemma_header_front(rest);
        lemma_decimal(e.1 as nat);
        let end = from + 2 + digits.len();
        assert(line =~= before + pair_text(e) + header_text(tail));
        assert(line[from] == e.0);
        assert(line[from + 1] == pair_separator());
        assert forall|i: int| from <= i < end implies #[trigger] line[i] != pair_end() by {
            if i >= from + 2 {
                assert(line[i] == digits[i - from - 2]);
            }
        }
        assert(line[end] == pair_end());
        lemma_token_end_at(line, from, end);
        let token = line.subrange(from, end);
        assert(token =~= seq![e.0, pair_separator()] + digits);
        assert(token.skip(2) =~= digits);
        assert(parse_pair(token) == Some(e));
        assert((read + rest)[read.len() as int] == e);
        assert(!has_symbol(read, e.0)) by {
            if has_symbol(read, e.0) {
                let j = crate::frequency::position_of(read, e.0);
                assert((read + rest)[j].0 == (read + rest)[read.len() as int].0);
            }
        }
        assert(read.push(e) + tail =~= read + rest);
        assert(total_count(read.push(e)) <= total_count(read + rest)) by {
            assert((read + rest).take(read.len() as int + 1) =~= read.push(e));
            crate::frequency::lemma_total_take(read + rest, read.len() as int + 1);
        }
        assert(read.push(e).drop_last() =~= read);
        assert(acceptable(read, e));
        let next = before + pair_text(e);
        assert(next.len() == end + 1);
        assert(line =~= next + header_text(tail));
        assert forall|i: int| 0 <= i < tail.len() implies (#[trigger] tail[i]).1 > 0 && tail[i].0
            != pair_end() by {
            assert(tail[i] == rest[i + 1]);
        }
        lemma_parse_header_text(next, read.push(e), tail);
        if end + 1 >= line.len() {
            assert(header_text(tail).len() == 0);
            if tail.len() > 0 {
                lemma_header_front(tail);
            }
            assert(tail =~= Seq::<(char, usize)>::empty());
        }
    }
}

/// Header round trip: reading the text of pairs gives the pairs back, in
/// whatever order they were written, provided that they can make up a
/// frequency table and that none has `|` for its symbol.
pub proof fn lemma_header_round_trip(pairs: Seq<(char, usize)>)
    requires
        distinct_symbols(pairs),
        total_count(pairs) <= usize::MAX,
        forall|i: int| 0 <= i < pairs.len() ==> (#[trigger] pairs[i]).1 > 0 && pairs[i].0 != pair_end(),
    ensures
        parse_line(header_text(pairs)) == Ok::<Seq<(char, usize)>, Seq<char>>(pairs),
{
    let empty = Seq::<(char, usize)>::empty();
    assert(empty + pairs =~= pairs);
    lemma_parse_header_text(Seq::<char>::empty(), empty, pairs);
    assert(Seq::<char>::empty() + header_text(pairs) =~= header_text(pairs));
}

/// The text of a header of supported symbols holds no line end.
pub proof fn lemma_header_one_line(entries: Seq<(char, usize)>)
    requires
        first_unsupported(entries) is None,
    ensures
        forall|i: int| 0 <= i < entries.len() ==> supported(#[trigger] entries[i].0),
        forall|i: int| 0 <= i < header_text(entries).len() ==> #[trigger] header_text(entries)[i]
            != line_end(),
    decreases entries.len(),
{
    if entries.len() > 0 {
        let tail = entries.drop_first();
        lemma_header_one_line(tail);
        lemma_header_front(entries);
        lemma_decimal(entries[0].1 as nat);
        assert forall|i: int| 0 <= i < entries.len() implies supported(#[trigger] entries[i].0) by {
            if i > 0 {
                assert(entries[i] == tail[i - 1]);
            }
        }
        let p = pair_text(entries[0]);
        let d = decimal(entries[0].1 as nat);
        assert forall|i: int| 0 <= i < header_text(entries).len() implies #[trigger] header_text(
            entries,
        )[i] != line_end() by {
            if i < p.len() {
                if 2 <= i < 2 + d.len() {
                    assert(p[i] == d[i - 2]);
                }
            } else {
                assert(header_text(entries)[i] == header_text(tail)[i - p.len()]);
            }
        }
    }
}

} // verus!
