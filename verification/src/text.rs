//! Moving between strings and sequences of symbols.

use vstd::prelude::*;

verus! {

/// The symbols of a text, in order.
pub fn symbols_of(text: &str) -> (symbols: Vec<char>)
    ensures
        symbols@ == text@,
{
    let mut symbols: Vec<char> = Vec::new();
    for c in it: text.chars()
        invariant
            symbols@ == it.seq().take(it.index() as int),
            it.seq() == text@,
    {
        symbols.push(c);
    }
    symbols
}

/// `String::push`: appends one character to the end of the string.
pub assume_specification[ String::push ](s: &mut String, c: char)
    ensures
        final(s)@ == old(s)@.push(c),
;

/// The text made of the given symbols, in order.
pub fn text_of(symbols: &[char]) -> (text: String)
    ensures
        text@ == symbols@,
{
    let mut text = String::new();
    let mut i: usize = 0;
    while i < symbols.len()
        invariant
            i <= symbols@.len(),
            text@ == symbols@.take(i as int),
        decreases symbols@.len() - i,
    {
        text.push(symbols[i]);
        assert(symbols@.take(i + 1) =~= symbols@.take(i as int).push(symbols@[i as int]));
        i += 1;
    }
    assert(symbols@.take(i as int) =~= symbols@);
    text
}

} // verus!
