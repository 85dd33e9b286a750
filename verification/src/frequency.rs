//! Counting symbols: the frequency table.

use crate::text::symbols_of;
use vstd::prelude::*;

verus! {

/// How often `c` occurs in `text`.
pub open spec fn occurrences(text: Seq<char>, c: char) -> nat {
    text.to_multiset().count(c)
}

/// The mapping from each symbol of `text` to the number of its occurrences.
pub open spec fn frequency_map(text: Seq<char>) -> Map<char, nat> {
    Map::new(|c: char| occurrences(text, c) > 0, |c: char| occurrences(text, c))
}

/// Whether some entry is for the symbol `c`.
pub open spec fn has_symbol(s: Seq<(char, usize)>, c: char) -> bool {
    exists|i: int| 0 <= i < s.len() && (#[trigger] s[i]).0 == c
}

/// The position of an entry for the symbol `c`.
pub open spec fn position_of(s: Seq<(char, usize)>, c: char) -> int {
    choose|i: int| 0 <= i < s.len() && (#[trigger] s[i]).0 == c
}

/// The mapping that a sequence of entries stands for.
pub open spec fn entries_map(s: Seq<(char, usize)>) -> Map<char, nat> {
    Map::new(|c: char| has_symbol(s, c), |c: char| s[position_of(s, c)].1 as nat)
}

/// The entries are in strictly ascending symbol order, so that no symbol
/// occurs twice.
pub open spec fn ascending(s: Seq<(char, usize)>) -> bool {
    forall|i: int, j: int| 0 <= i < j < s.len() ==> (#[trigger] s[i]).0 < (#[trigger] s[j]).0
}

/// No entry has the count zero.
pub open spec fn positive(s: Seq<(char, usize)>) -> bool {
    forall|i: int| 0 <= i < s.len() ==> (#[trigger] s[i]).1 > 0
}

/// The sum of all counts.
pub open spec fn total_count(s: Seq<(char, usize)>) -> nat
    decreases s.len(),
{
    if s.len() == 0 {
        0
    } else {
        total_count(s.drop_last()) + s.last().1 as nat
    }
}

/// What holds of the entries of every frequency table.
pub open spec fn valid_entries(s: Seq<(char, usize)>) -> bool {
    &&& ascending(s)
    &&& positive(s)
    &&& total_count(s) <= usize::MAX
}

/// The entries of a mapping in ascending symbol order.
pub open spec fn sorted_entries(m: Map<char, nat>) -> Seq<(char, usize)> {
    choose|s: Seq<(char, usize)>| ascending(s) && entries_map(s) == m
}

/// No symbol has two entries.
pub open spec fn distinct_symbols(s: Seq<(char, usize)>) -> bool {
    forall|i: int, j: int| 0 <= i < j < s.len() ==> (#[trigger] s[i]).0 != (#[trigger] s[j]).0
}

/// Ascending entries have distinct symbols.
pub proof fn lemma_ascending_distinct(s: Seq<(char, usize)>)
    requires
        ascending(s),
    ensures
        distinct_symbols(s),
{
    assert forall|i: int, j: int| 0 <= i < j < s.len() implies (#[trigger] s[i]).0 != (
    #[trigger] s[j]).0 by {
        assert(s[i].0 < s[j].0);
    }
}

/// Where symbols are distinct, a symbol is found only at its own position.
pub proof fn lemma_position_unique(s: Seq<(char, usize)>, i: int)
    requires
        distinct_symbols(s) || ascending(s),
        0 <= i < s.len(),
    ensures
        has_symbol(s, s[i].0),
        position_of(s, s[i].0) == i,
        entries_map(s).contains_pair(s[i].0, s[i].1 as nat),
{
    if ascending(s) {
        lemma_ascending_distinct(s);
    }
    let j = position_of(s, s[i].0);
    assert(s[j].0 == s[i].0);
    if j < i {
        assert(s[j].0 != s[i].0);
    }
    if i < j {
        assert(s[i].0 != s[j].0);
    }
}

/// Ascending entries are determined by the mapping they stand for.
pub proof fn lemma_entries_unique(s: Seq<(char, usize)>, t: Seq<(char, usize)>)
    requires
        ascending(s),
        ascending(t),
        entries_map(s) == entries_map(t),
    ensures
        s == t,
    decreases s.len(),
{
    if s.len() == 0 {
        if t.len() > 0 {
            lemma_position_unique(t, 0);
            assert(entries_map(s).dom().contains(t[0].0));
        }
        assert(s =~= t);
    } else if t.len() == 0 {
        lemma_position_unique(s, 0);
        assert(entries_map(t).dom().contains(s[0].0));
    } else {
        let a = s.last();
        let b = t.last();
        lemma_position_unique(s, s.len() - 1);
        lemma_position_unique(t, t.len() - 1);
        assert(entries_map(t).dom().contains(a.0));
        assert(entries_map(s).dom().contains(b.0));
        let ia = position_of(t, a.0);
        let ib = position_of(s, b.0);
        lemma_position_unique(t, ia);
        lemma_position_unique(s, ib);
        assert(a.0 == b.0) by {
            if ia < t.len() - 1 {
                assert(t[ia].0 < t[t.len() - 1].0);
            }
            if ib < s.len() - 1 {
                assert(s[ib].0 < s[s.len() - 1].0);
            }
        }
        assert(a == b);
        let s1 = s.drop_last();
        let t1 = t.drop_last();
        assert(entries_map(s1) =~= entries_map(t1)) by {
            assert forall|c: char| has_symbol(s1, c) == has_symbol(t1, c) by {
                lemma_drop_last_symbols(s, c);
                lemma_drop_last_symbols(t, c);
                assert(has_symbol(s, c) == entries_map(s).dom().contains(c));
                assert(has_symbol(t, c) == entries_map(t).dom().contains(c));
            }
            assert forall|c: char| has_symbol(s1, c) implies entries_map(s1)[c] == entries_map(
                t1,
            )[c] by {
                lemma_drop_last_symbols(s, c);
                lemma_drop_last_symbols(t, c);
            }
        }
        lemma_entries_unique(s1, t1);
        assert(s =~= s1.push(a));
        assert(t =~= t1.push(b));
    }
}

/// What the entries before the last stand for, in ascending entries.
proof fn lemma_drop_last_symbols(s: Seq<(char, usize)>, c: char)
    requires
        ascending(s),
        s.len() > 0,
    ensures
        ascending(s.drop_last()),
        has_symbol(s.drop_last(), c) <==> has_symbol(s, c) && c != s.last().0,
        has_symbol(s.drop_last(), c) ==> entries_map(s.drop_last())[c] == entries_map(s)[c],
{
    let s1 = s.drop_last();
    assert forall|i: int, j: int| 0 <= i < j < s1.len() implies (#[trigger] s1[i]).0 < (
    #[trigger] s1[j]).0 by {
        assert(s[i].0 < s[j].0);
    }
    if has_symbol(s1, c) {
        let i = position_of(s1, c);
        assert(s[i].0 == c);
        assert(s[i].0 < s[s.len() - 1].0);
        lemma_position_unique(s, i);
        lemma_position_unique(s1, i);
    }
    if has_symbol(s, c) && c != s.last().0 {
        let i = position_of(s, c);
        assert(s1[i].0 == c);
    }
}

/// The total grows by the count of an inserted entry.
pub proof fn lemma_total_insert(s: Seq<(char, usize)>, i: int, e: (char, usize))
    requires
        0 <= i <= s.len(),
    ensures
        total_count(s.insert(i, e)) == total_count(s) + e.1,
    decreases s.len(),
{
    let t = s.insert(i, e);
    if i == s.len() {
        assert(t.drop_last() =~= s);
    } else {
        assert(t.drop_last() =~= s.drop_last().insert(i, e));
        lemma_total_insert(s.drop_last(), i, e);
    }
}

/// The total changes by as much as the count of an updated entry does.
pub proof fn lemma_total_update(s: Seq<(char, usize)>, i: int, e: (char, usize))
    requires
        0 <= i < s.len(),
    ensures
        total_count(s.update(i, e)) == total_count(s) - s[i].1 + e.1,
    decreases s.len(),
{
    let t = s.update(i, e);
    if i == s.len() - 1 {
        assert(t.drop_last() =~= s.drop_last());
    } else {
        assert(t.drop_last() =~= s.drop_last().update(i, e));
        lemma_total_update(s.drop_last(), i, e);
    }
}

/// No count is larger than the total.
pub proof fn lemma_count_le_total(s: Seq<(char, usize)>, i: int)
    requires
        0 <= i < s.len(),
    ensures
        s[i].1 <= total_count(s),
    decreases s.len(),
{
    if i < s.len() - 1 {
        lemma_count_le_total(s.drop_last(), i);
    }
}

/// Every symbol is a code point.
pub proof fn lemma_symbol_range(c: char)
    ensures
        0 <= c as int <= 0x10FFFF,
{
}

/// Ascending symbols leave room for no more entries than there are symbols.
pub proof fn lemma_ascending_len(s: Seq<(char, usize)>, i: int)
    requires
        ascending(s),
        0 <= i < s.len(),
    ensures
        i <= s[i].0 as int,
        s.len() - i <= 0x110000 - s[i].0 as int,
        s.len() <= 0x110000,
    decreases s.len() - i,
{
    if i < s.len() - 1 {
        lemma_ascending_len(s, i + 1);
        assert(s[i].0 < s[i + 1].0);
        assert((s[i].0 as int) < (s[i + 1].0 as int));
    } else {
        lemma_symbol_range(s[i].0);
    }
    lemma_ascending_at_least(s, i);
}

proof fn lemma_ascending_at_least(s: Seq<(char, usize)>, i: int)
    requires
        ascending(s),
        0 <= i < s.len(),
    ensures
        i <= s[i].0 as int,
    decreases i,
{
    if i > 0 {
        lemma_ascending_at_least(s, i - 1);
        assert(s[i - 1].0 < s[i].0);
        assert((s[i - 1].0 as int) < (s[i].0 as int));
    } else {
        lemma_symbol_range(s[i].0);
    }
}

/// What inserting an entry for a new symbol at its place does.
pub proof fn lemma_insert_entry(s: Seq<(char, usize)>, i: int, e: (char, usize))
    requires
        ascending(s),
        0 <= i <= s.len(),
        forall|j: int| 0 <= j < i ==> (#[trigger] s[j]).0 < e.0,
        forall|j: int| i <= j < s.len() ==> (#[trigger] s[j]).0 > e.0,
    ensures
        ascending(s.insert(i, e)),
        !has_symbol(s, e.0),
        entries_map(s.insert(i, e)) == entries_map(s).insert(e.0, e.1 as nat),
{
    let t = s.insert(i, e);
    assert forall|a: int, b: int| 0 <= a < b < t.len() implies (#[trigger] t[a]).0 < (
    #[trigger] t[b]).0 by {
        let a0 = if a < i { a } else { a - 1 };
        let b0 = if b < i { b } else { b - 1 };
        if a != i && b != i {
            assert(s[a0].0 < s[b0].0);
        } else if a == i {
            assert(s[b0].0 > e.0);
        } else {
            assert(s[a0].0 < e.0);
        }
    }
    if has_symbol(s, e.0) {
        let j = position_of(s, e.0);
        assert(s[j].0 == e.0);
    }
    assert forall|c: char| has_symbol(t, c) <==> (has_symbol(s, c) || c == e.0) by {
        if has_symbol(t, c) {
            let a = position_of(t, c);
            if a != i {
                let a0 = if a < i { a } else { a - 1 };
                assert(s[a0].0 == c);
            }
        }
        if has_symbol(s, c) {
            let j = position_of(s, c);
            let a = if j < i { j } else { j + 1 };
            assert(t[a].0 == c);
        }
        if c == e.0 {
            assert(t[i].0 == c);
        }
    }
    assert forall|c: char| has_symbol(t, c) implies entries_map(t)[c] == entries_map(s).insert(
        e.0,
        e.1 as nat,
    )[c] by {
        if c == e.0 {
            lemma_position_unique(t, i);
        } else {
            let j = position_of(s, c);
            let a = if j < i { j } else { j + 1 };
            lemma_position_unique(s, j);
            assert(t[a] == s[j]);
            lemma_position_unique(t, a);
        }
    }
    assert(entries_map(t) =~= entries_map(s).insert(e.0, e.1 as nat));
}

/// What giving an entry a new count does.
pub proof fn lemma_update_entry(s: Seq<(char, usize)>, i: int, n: usize)
    requires
        ascending(s),
        0 <= i < s.len(),
    ensures
        ascending(s.update(i, (s[i].0, n))),
        entries_map(s.update(i, (s[i].0, n))) == entries_map(s).insert(s[i].0, n as nat),
{
    let t = s.update(i, (s[i].0, n));
    assert forall|a: int, b: int| 0 <= a < b < t.len() implies (#[trigger] t[a]).0 < (
    #[trigger] t[b]).0 by {
        assert(s[a].0 < s[b].0);
    }
    assert forall|c: char| has_symbol(t, c) <==> has_symbol(s, c) by {
        if has_symbol(t, c) {
            let a = position_of(t, c);
            assert(s[a].0 == c);
        }
        if has_symbol(s, c) {
            let a = position_of(s, c);
            assert(t[a].0 == c);
        }
    }
    lemma_position_unique(s, i);
    assert forall|c: char| has_symbol(t, c) implies entries_map(t)[c] == entries_map(s).insert(
        s[i].0,
        n as nat,
    )[c] by {
        let j = position_of(s, c);
        lemma_position_unique(s, j);
        lemma_position_unique(t, j);
    }
    assert(entries_map(t) =~= entries_map(s).insert(s[i].0, n as nat));
}

/// What appending an entry for a new symbol does, whatever the order.
pub proof fn lemma_push_entry(s: Seq<(char, usize)>, e: (char, usize))
    requires
        distinct_symbols(s),
        !has_symbol(s, e.0),
    ensures
        distinct_symbols(s.push(e)),
        entries_map(s.push(e)) == entries_map(s).insert(e.0, e.1 as nat),
{
    let t = s.push(e);
    assert forall|a: int, b: int| 0 <= a < b < t.len() implies (#[trigger] t[a]).0 != (
    #[trigger] t[b]).0 by {
        if b < s.len() {
            assert(s[a].0 != s[b].0);
        } else {
            assert(s[a].0 != e.0);
        }
    }
    assert forall|c: char| has_symbol(t, c) <==> (has_symbol(s, c) || c == e.0) by {
        if has_symbol(t, c) {
            let a = position_of(t, c);
            if a < s.len() {
                assert(s[a].0 == c);
            }
        }
        if has_symbol(s, c) {
            let j = position_of(s, c);
            assert(t[j].0 == c);
        }
        if c == e.0 {
            assert(t[s.len() as int].0 == c);
        }
    }
    assert forall|c: char| has_symbol(t, c) implies entries_map(t)[c] == entries_map(s).insert(
        e.0,
        e.1 as nat,
    )[c] by {
        if c == e.0 {
            lemma_position_unique(t, s.len() as int);
        } else {
            let j = position_of(s, c);
            lemma_position_unique(s, j);
            assert(t[j] == s[j]);
            lemma_position_unique(t, j);
        }
    }
    assert(entries_map(t) =~= entries_map(s).insert(e.0, e.1 as nat));
}

/// The total of the first entries is no larger than the total of all.
pub proof fn lemma_total_take(s: Seq<(char, usize)>, n: int)
    requires
        0 <= n <= s.len(),
    ensures
        total_count(s.take(n)) <= total_count(s),
    decreases s.len() - n,
{
    if n < s.len() {
        lemma_total_take(s, n + 1);
        assert(s.take(n + 1).drop_last() =~= s.take(n));
    } else {
        assert(s.take(n) =~= s);
    }
}

/// The number of entries whose symbol is below `c`, in ascending entries.
pub open spec fn rank(s: Seq<(char, usize)>, c: char) -> int
    decreases s.len(),
{
    if s.len() == 0 || s.last().0 < c {
        s.len() as int
    } else {
        rank(s.drop_last(), c)
    }
}

/// The entries after one more occurrence of `c` is counted.
pub open spec fn counted(s: Seq<(char, usize)>, c: char) -> Seq<(char, usize)> {
    let i = rank(s, c);
    if i < s.len() && s[i].0 == c {
        s.update(i, (c, (s[i].1 + 1) as usize))
    } else {
        s.insert(i, (c, 1usize))
    }
}

/// The entries that counting the symbols of a text one by one gives.
pub open spec fn counted_entries(text: Seq<char>) -> Seq<(char, usize)>
    decreases text.len(),
{
    if text.len() == 0 {
        Seq::empty()
    } else {
        counted(counted_entries(text.drop_last()), text.last())
    }
}

pub proof fn lemma_rank(s: Seq<(char, usize)>, c: char)
    requires
        ascending(s),
    ensures
        0 <= rank(s, c) <= s.len(),
        forall|j: int| 0 <= j < rank(s, c) ==> (#[trigger] s[j]).0 < c,
        forall|j: int| rank(s, c) <= j < s.len() ==> (#[trigger] s[j]).0 >= c,
    decreases s.len(),
{
    if s.len() > 0 {
        if s.last().0 < c {
            assert forall|j: int| 0 <= j < s.len() implies (#[trigger] s[j]).0 < c by {
                if j < s.len() - 1 {
                    assert(s[j].0 < s[s.len() - 1].0);
                }
            }
        } else {
            let s1 = s.drop_last();
            assert forall|i: int, j: int| 0 <= i < j < s1.len() implies (#[trigger] s1[i]).0 < (
            #[trigger] s1[j]).0 by {
                assert(s[i].0 < s[j].0);
            }
            lemma_rank(s1, c);
            assert forall|j: int| rank(s, c) <= j < s.len() implies (#[trigger] s[j]).0 >= c by {
                if j < s1.len() {
                    assert(s1[j].0 >= c);
                }
            }
            assert forall|j: int| 0 <= j < rank(s, c) implies (#[trigger] s[j]).0 < c by {
                assert(s1[j].0 < c);
            }
        }
    }
}

/// Counting one more occurrence keeps the entries valid and changes the
/// mapping and the total as it should.
pub proof fn lemma_counted(s: Seq<(char, usize)>, c: char)
    requires
        valid_entries(s),
        total_count(s) < usize::MAX,
    ensures
        valid_entries(counted(s, c)),
        total_count(counted(s, c)) == total_count(s) + 1,
        entries_map(counted(s, c)) == entries_map(s).insert(
            c,
            if has_symbol(s, c) {
                entries_map(s)[c] + 1
            } else {
                1
            },
        ),
{
    lemma_rank(s, c);
    let i = rank(s, c);
    let t = counted(s, c);
    if i < s.len() && s[i].0 == c {
        let n = (s[i].1 + 1) as usize;
        lemma_count_le_total(s, i);
        lemma_total_update(s, i, (c, n));
        lemma_update_entry(s, i, n);
        lemma_position_unique(s, i);
        assert(positive(t));
    } else {
        lemma_total_insert(s, i, (c, 1usize));
        lemma_insert_entry(s, i, (c, 1usize));
        assert(positive(t)) by {
            assert forall|k: int| 0 <= k < t.len() implies (#[trigger] t[k]).1 > 0 by {
                if k < i {
                    assert(s[k].1 > 0);
                } else if k > i {
                    assert(s[k - 1].1 > 0);
                }
            }
        }
    }
}

/// The frequency mapping of a text of one more symbol.
pub proof fn lemma_frequency_push(text: Seq<char>, c: char)
    ensures
        frequency_map(text.push(c)) == frequency_map(text).insert(
            c,
            if frequency_map(text).contains_key(c) {
                frequency_map(text)[c] + 1
            } else {
                1
            },
        ),
{
    vstd::seq_lib::to_multiset_build(text, c);
    assert forall|x: char| occurrences(text.push(c), x) == (if x == c {
        occurrences(text, x) + 1
    } else {
        occurrences(text, x)
    }) by {}
    assert(frequency_map(text.push(c)) =~= frequency_map(text).insert(
        c,
        if frequency_map(text).contains_key(c) {
            frequency_map(text)[c] + 1
        } else {
            1
        },
    ));
}

/// Counting the symbols of a text gives valid entries for its frequency
/// mapping, and their total is the length of the text.
pub proof fn lemma_counted_entries(text: Seq<char>)
    requires
        text.len() <= usize::MAX,
    ensures
        valid_entries(counted_entries(text)),
        entries_map(counted_entries(text)) == frequency_map(text),
        total_count(counted_entries(text)) == text.len(),
    decreases text.len(),
{
    broadcast use vstd::seq_lib::group_to_multiset_ensures;

    let e = counted_entries(text);
    if text.len() == 0 {
        assert forall|x: char| !has_symbol(e, x) by {
            if has_symbol(e, x) {
                let j = position_of(e, x);
            }
        }
        assert forall|x: char| occurrences(text, x) == 0 by {
            assert(!text.contains(x));
        }
        assert(entries_map(e) =~= frequency_map(text));
    } else {
        let init = text.drop_last();
        let c = text.last();
        lemma_counted_entries(init);
        lemma_counted(counted_entries(init), c);
        lemma_frequency_push(init, c);
        assert(text =~= init.push(c));
        assert(has_symbol(counted_entries(init), c) == frequency_map(init).contains_key(c));
    }
}

/// The ascending entries of the frequency mapping of a text are valid, and
/// their total is the length of the text.
pub proof fn lemma_frequency_entries(text: Seq<char>)
    requires
        text.len() <= usize::MAX,
    ensures
        valid_entries(sorted_entries(frequency_map(text))),
        entries_map(sorted_entries(frequency_map(text))) == frequency_map(text),
        total_count(sorted_entries(frequency_map(text))) == text.len(),
        text.len() > 0 ==> sorted_entries(frequency_map(text)).len() > 0,
{
    broadcast use vstd::seq_lib::group_to_multiset_ensures;

    lemma_counted_entries(text);
    let e = counted_entries(text);
    let s = sorted_entries(frequency_map(text));
    assert(ascending(e) && entries_map(e) == frequency_map(text));
    lemma_entries_unique(e, s);
    if text.len() > 0 {
        assert(text.contains(text[0]));
        assert(frequency_map(text).contains_key(text[0]));
        assert(has_symbol(s, text[0]));
    }
}

/// The first position whose symbol is not below `c`.
fn lower_bound(entries: &Vec<(char, usize)>, c: char) -> (pos: usize)
    requires
        ascending(entries@),
    ensures
        pos <= entries@.len(),
        forall|i: int| 0 <= i < pos ==> (#[trigger] entries@[i]).0 < c,
        forall|i: int| pos <= i < entries@.len() ==> (#[trigger] entries@[i]).0 >= c,
{
    let mut lo: usize = 0;
    let mut hi: usize = entries.len();
    while lo < hi
        invariant
            lo <= hi <= entries@.len(),
            ascending(entries@),
            forall|i: int| 0 <= i < lo ==> (#[trigger] entries@[i]).0 < c,
            forall|i: int| hi <= i < entries@.len() ==> (#[trigger] entries@[i]).0 >= c,
        decreases hi - lo,
    {
        let mid = lo + (hi - lo) / 2;
        if entries[mid].0 < c {
            assert forall|i: int| 0 <= i < mid + 1 implies (#[trigger] entries@[i]).0 < c by {
                if i < mid {
                    assert(entries@[i].0 < entries@[mid as int].0);
                }
            }
            lo = mid + 1;
        } else {
            assert forall|i: int| mid <= i < entries@.len() implies (#[trigger] entries@[i]).0
                >= c by {
                if mid < i {
                    assert(entries@[mid as int].0 < entries@[i].0);
                }
            }
            hi = mid;
        }
    }
    lo
}

/// Counts one more occurrence of `c`.
fn count_symbol(entries: &mut Vec<(char, usize)>, c: char)
    requires
        valid_entries(old(entries)@),
        total_count(old(entries)@) < usize::MAX,
    ensures
        valid_entries(final(entries)@),
        total_count(final(entries)@) == total_count(old(entries)@) + 1,
        entries_map(final(entries)@) == entries_map(old(entries)@).insert(
            c,
            if has_symbol(old(entries)@, c) {
                entries_map(old(entries)@)[c] + 1
            } else {
                1
            },
        ),
{
    let pos = lower_bound(entries, c);
    if pos < entries.len() && entries[pos].0 == c {
        let n = entries[pos].1;
        proof {
            lemma_count_le_total(entries@, pos as int);
            lemma_total_update(entries@, pos as int, (c, (n + 1) as usize));
            lemma_update_entry(entries@, pos as int, (n + 1) as usize);
            lemma_position_unique(entries@, pos as int);
        }
        entries.set(pos, (c, n + 1));
        assert(positive(entries@));
    } else {
        proof {
            lemma_total_insert(entries@, pos as int, (c, 1usize));
            lemma_insert_entry(entries@, pos as int, (c, 1usize));
        }
        let ghost before = entries@;
        entries.insert(pos, (c, 1));
        assert(positive(entries@)) by {
            assert forall|i: int| 0 <= i < entries@.len() implies (#[trigger] entries@[i]).1
                > 0 by {
                if i < pos {
                    assert(before[i].1 > 0);
                } else if i > pos {
                    assert(before[i - 1].1 > 0);
                }
            }
        }
    }
}

/// Adds an entry for `c` with the count `n`, unless `c` has one already, `n`
/// is zero or the total would no longer fit.
fn add_entry(entries: &mut Vec<(char, usize)>, total: usize, c: char, n: usize) -> (added: bool)
    requires
        valid_entries(old(entries)@),
        total == total_count(old(entries)@),
    ensures
        valid_entries(final(entries)@),
        added <==> n > 0 && !has_symbol(old(entries)@, c) && total + n <= usize::MAX,
        added ==> total_count(final(entries)@) == total + n && entries_map(final(entries)@)
            == entries_map(old(entries)@).insert(c, n as nat),
        !added ==> final(entries)@ == old(entries)@,
{
    if n == 0 || n > usize::MAX - total {
        return false;
    }
    let pos = lower_bound(entries, c);
    if pos < entries.len() && entries[pos].0 == c {
        return false;
    }
    proof {
        lemma_total_insert(entries@, pos as int, (c, n));
        lemma_insert_entry(entries@, pos as int, (c, n));
    }
    let ghost before = entries@;
    entries.insert(pos, (c, n));
    assert(positive(entries@)) by {
        assert forall|i: int| 0 <= i < entries@.len() implies (#[trigger] entries@[i]).1 > 0 by {
            if i < pos {
                assert(before[i].1 > 0);
            } else if i > pos {
                assert(before[i - 1].1 > 0);
            }
        }
    }
    true
}

/// A mapping from symbols to positive counts, kept as entries in ascending
/// symbol order. The view is the mapping.
#[derive(Debug)]
pub struct FrequencyTable {
    entries: Vec<(char, usize)>,
}

impl View for FrequencyTable {
    type V = Map<char, nat>;

    open spec fn view(&self) -> Map<char, nat> {
        entries_map(self.entries())
    }
}

impl FrequencyTable {
    /// The entries, in ascending symbol order.
    pub closed spec fn entries(&self) -> Seq<(char, usize)> {
        self.entries@
    }

    /// The sum of all counts.
    pub open spec fn total_spec(&self) -> nat {
        total_count(self.entries())
    }

    /// What holds of every table: ascending symbols, positive counts, and a
    /// total that fits the machine word.
    #[verifier::type_invariant]
    pub closed spec fn wf(&self) -> bool {
        valid_entries(self.entries@)
    }

    /// A well-formed table has valid entries, and they are the ascending
    /// entries of its mapping.
    pub proof fn lemma_wf(&self)
        requires
            self.wf(),
        ensures
            valid_entries(self.entries()),
            self.entries() == sorted_entries(self@),
            self.entries().len() <= 0x110000,
    {
        let s = sorted_entries(self@);
        assert(ascending(self.entries()) && entries_map(self.entries()) == self@);
        lemma_entries_unique(self.entries(), s);
        if self.entries().len() > 0 {
            lemma_ascending_len(self.entries(), 0);
        }
    }

    /// A table whose mapping has a key has an entry.
    pub proof fn lemma_nonempty(&self)
        ensures
            self.entries().len() == 0 ==> self@ =~= Map::<char, nat>::empty(),
            self.entries().len() > 0 ==> self@.contains_key(self.entries()[0].0),
    {
        if self.entries().len() > 0 {
            assert(has_symbol(self.entries(), self.entries()[0].0));
        } else {
            assert forall|c: char| !has_symbol(self.entries(), c) by {
                if has_symbol(self.entries(), c) {
                    let i = position_of(self.entries(), c);
                }
            }
        }
    }

    /// The table without entries.
    pub fn new() -> (table: FrequencyTable)
        ensures
            table.wf(),
            table.entries() == Seq::<(char, usize)>::empty(),
            table@ == Map::<char, nat>::empty(),
    {
        let table = FrequencyTable { entries: Vec::new() };
        assert(table@ =~= Map::<char, nat>::empty());
        table
    }

    /// The number of entries.
    pub fn len(&self) -> (n: usize)
        ensures
            n == self.entries().len(),
    {
        self.entries.len()
    }

    /// Whether the table has no entries.
    pub fn is_empty(&self) -> (b: bool)
        ensures
            b == (self.entries().len() == 0),
    {
        self.entries.len() == 0
    }

    /// The sum of all counts.
    pub fn total(&self) -> (n: usize)
        ensures
            n == self.total_spec(),
    {
        proof {
            use_type_invariant(self);
        }
        let mut sum: usize = 0;
        let mut i: usize = 0;
        assert(self.entries@.take(0) =~= Seq::<(char, usize)>::empty());
        while i < self.entries.len()
            invariant
                i <= self.entries@.len(),
                sum == total_count(self.entries@.take(i as int)),
                total_count(self.entries@) <= usize::MAX,
            decreases self.entries@.len() - i,
        {
            proof {
                lemma_total_take(self.entries@, i + 1);
                assert(self.entries@.take(i + 1).drop_last() =~= self.entries@.take(i as int));
            }
            sum = sum + self.entries[i].1;
            i += 1;
        }
        assert(self.entries@.take(i as int) =~= self.entries@);
        sum
    }

    /// Adds an entry for `c` with the count `n`. Nothing is added, and
    /// `false` returned, when `c` has an entry already, `n` is zero or the
    /// total would no longer fit the machine word.
    pub fn insert(&mut self, c: char, n: usize) -> (added: bool)
        ensures
            final(self).wf(),
            added <==> n > 0 && !old(self)@.contains_key(c) && old(self).total_spec() + n
                <= usize::MAX,
            added ==> final(self)@ == old(self)@.insert(c, n as nat) && final(self).total_spec()
                == old(self).total_spec() + n,
            !added ==> final(self).entries() == old(self).entries(),
    {
        proof {
            use_type_invariant(&*self);
        }
        let total = self.total();
        assert(has_symbol(self.entries@, c) == self@.contains_key(c));
        let mut entries: Vec<(char, usize)> = Vec::new();
        std::mem::swap(&mut entries, &mut self.entries);
        let added = add_entry(&mut entries, total, c, n);
        self.entries = entries;
        added
    }

    /// The count of `c`, if it has an entry.
    pub fn get(&self, c: char) -> (count: Option<usize>)
        ensures
            count matches Some(n) ==> self@.contains_pair(c, n as nat),
            count.is_none() ==> !self@.contains_key(c),
    {
        proof {
            use_type_invariant(self);
        }
        let pos = lower_bound(&self.entries, c);
        if pos < self.entries.len() && self.entries[pos].0 == c {
            proof {
                lemma_position_unique(self.entries@, pos as int);
            }
            Some(self.entries[pos].1)
        } else {
            proof {
                if has_symbol(self.entries@, c) {
                    let j = position_of(self.entries@, c);
                    assert(self.entries@[j].0 == c);
                }
            }
            None
        }
    }

    /// The entries, in ascending symbol order.
    pub fn to_vec(&self) -> (pairs: Vec<(char, usize)>)
        ensures
            pairs@ == self.entries(),
    {
        let mut pairs: Vec<(char, usize)> = Vec::new();
        let mut i: usize = 0;
        while i < self.entries.len()
            invariant
                i <= self.entries@.len(),
                pairs@ == self.entries@.take(i as int),
            decreases self.entries@.len() - i,
        {
            pairs.push(self.entries[i]);
            assert(self.entries@.take(i + 1) =~= self.entries@.take(i as int).push(
                self.entries@[i as int],
            ));
            i += 1;
        }
        assert(self.entries@.take(i as int) =~= self.entries@);
        pairs
    }

    /// The entry at position `i`, in ascending symbol order.
    pub(crate) fn entry(&self, i: usize) -> (e: (char, usize))
        requires
            i < self.entries().len(),
        ensures
            e == self.entries()[i as int],
    {
        self.entries[i]
    }

    /// The table that the pairs stand for, in whatever order they come;
    /// `None` when a symbol occurs twice, a count is zero or the total does
    /// not fit the machine word.
    pub fn from_pairs(pairs: &[(char, usize)]) -> (r: Option<FrequencyTable>)
        ensures
            r.is_some() <==> distinct_symbols(pairs@) && positive(pairs@) && total_count(pairs@)
                <= usize::MAX,
            r matches Some(table) ==> table.wf() && table@ == entries_map(pairs@)
                && table.total_spec() == total_count(pairs@),
            r matches Some(table) ==> (ascending(pairs@) ==> table.entries() == pairs@),
    {
        let mut entries: Vec<(char, usize)> = Vec::new();
        let mut total: usize = 0;
        let mut i: usize = 0;
        assert(entries_map(entries@) =~= entries_map(pairs@.take(0)));
        while i < pairs.len()
            invariant
                i <= pairs@.len(),
                valid_entries(entries@),
                total == total_count(entries@),
                total == total_count(pairs@.take(i as int)),
                distinct_symbols(pairs@.take(i as int)),
                positive(pairs@.take(i as int)),
                entries_map(entries@) == entries_map(pairs@.take(i as int)),
            decreases pairs@.len() - i,
        {
            let (c, n) = pairs[i];
            let ghost before = pairs@.take(i as int);
            let ghost after = pairs@.take(i + 1);
            assert(after =~= before.push((c, n)));
            assert(after.drop_last() =~= before);
            let ghost old_entries = entries@;
            assert(has_symbol(old_entries, c) == entries_map(old_entries).dom().contains(c));
            assert(has_symbol(before, c) == entries_map(before).dom().contains(c));
            let added = add_entry(&mut entries, total, c, n);
            if !added {
                proof {
                    if n == 0 {
                        assert(pairs@[i as int].1 == 0);
                    } else if has_symbol(old_entries, c) {
                        assert(has_symbol(before, c));
                        let j = position_of(before, c);
                        assert(pairs@[j].0 == pairs@[i as int].0);
                    } else {
                        lemma_total_take(pairs@, i + 1);
                    }
                }
                return None;
            }
            proof {
                assert(!has_symbol(before, c));
                lemma_push_entry(before, (c, n));
            }
            total = total + n;
            i += 1;
        }
        assert(pairs@.take(i as int) =~= pairs@);
        proof {
            if ascending(pairs@) {
                lemma_entries_unique(entries@, pairs@);
            }
        }
        Some(FrequencyTable { entries })
    }
}

/// Counts the symbols of a text.
pub fn build_frequency_table(text: &str) -> (table: FrequencyTable)
    ensures
        table.wf(),
        table@ == frequency_map(text@),
        table.total_spec() == text@.len(),
        table.entries() == counted_entries(text@),
        text@.len() <= usize::MAX,
{
    let symbols = symbols_of(text);
    let mut entries: Vec<(char, usize)> = Vec::new();
    let mut i: usize = 0;
    proof {
        broadcast use vstd::seq_lib::group_to_multiset_ensures;

        assert forall|x: char| !has_symbol(entries@, x) by {
            if has_symbol(entries@, x) {
                let j = position_of(entries@, x);
            }
        }
        assert forall|x: char| occurrences(symbols@.take(0), x) == 0 by {
            assert(!symbols@.take(0).contains(x));
        }
        assert(entries_map(entries@) =~= frequency_map(symbols@.take(0)));
    }
    while i < symbols.len()
        invariant
            i <= symbols@.len(),
            valid_entries(entries@),
            total_count(entries@) == i,
            entries_map(entries@) == frequency_map(symbols@.take(i as int)),
        decreases symbols@.len() - i,
    {
        let c = symbols[i];
        let ghost before = symbols@.take(i as int);
        let ghost old_entries = entries@;
        count_symbol(&mut entries, c);
        proof {
            assert(symbols@.take(i + 1) =~= before.push(c));
            vstd::seq_lib::to_multiset_build(before, c);
            let m0 = frequency_map(before);
            let m1 = frequency_map(before.push(c));
            assert(has_symbol(old_entries, c) == m0.dom().contains(c));
            assert forall|x: char| occurrences(before.push(c), x) == (if x == c {
                occurrences(before, x) + 1
            } else {
                occurrences(before, x)
            }) by {}
            assert(entries_map(entries@) =~= m1);
        }
        i += 1;
    }
    assert(symbols@.take(i as int) =~= symbols@);
    proof {
        lemma_counted_entries(text@);
        lemma_entries_unique(entries@, counted_entries(text@));
    }
    FrequencyTable { entries }
}

} // verus!
