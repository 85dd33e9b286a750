//! Encoding a text into bits and decoding bits into a text.

use crate::bits::{max_bits, BitSequence};
use crate::codes::{code_map, code_of, CodeTable};
use crate::error::HuffmanError;
use crate::text::symbols_of;
use crate::tree::HuffmanNode;
use vstd::prelude::*;

verus! {

/// The codes of the symbols of `text`, one after the other.
pub open spec fn encode(text: Seq<char>, codes: Map<char, Seq<bool>>) -> Seq<bool>
    decreases text.len(),
{
    if text.len() == 0 {
        Seq::empty()
    } else {
        encode(text.drop_last(), codes) + codes[text.last()]
    }
}

/// The first symbol of `text` that has no code.
pub open spec fn first_unknown(text: Seq<char>, codes: Map<char, Seq<bool>>) -> Option<char>
    decreases text.len(),
{
    if text.len() == 0 {
        None
    } else if !codes.contains_key(text[0]) {
        Some(text[0])
    } else {
        first_unknown(text.drop_first(), codes)
    }
}

/// The descent from `node` along `bits`: the symbol of the leaf that is
/// reached and the bits that are left, or `None` when the bits end first.
pub open spec fn walk(node: HuffmanNode, bits: Seq<bool>) -> Option<(char, Seq<bool>)>
    decreases node,
{
    match node {
        HuffmanNode::Leaf { symbol, .. } => Some((symbol, bits)),
        HuffmanNode::Internal { left, right, .. } => if bits.len() == 0 {
            None
        } else if bits[0] {
            walk(*right, bits.drop_first())
        } else {
            walk(*left, bits.drop_first())
        },
    }
}

/// The symbols found by descending from the root again and again, until
/// `limit` symbols are found or the bits end inside a descent.
pub open spec fn decode_symbols(root: HuffmanNode, bits: Seq<bool>, limit: nat) -> Seq<char>
    decreases limit,
{
    if limit == 0 {
        Seq::empty()
    } else {
        match walk(root, bits) {
            None => Seq::empty(),
            Some((c, rest)) => seq![c] + decode_symbols(root, rest, (limit - 1) as nat),
        }
    }
}

/// The text that the bits stand for. The weight of the root says how many
/// symbols there are; bits beyond the last symbol are left aside.
pub open spec fn decode(root: HuffmanNode, bits: Seq<bool>) -> Seq<char> {
    decode_symbols(root, bits, root.weight_of())
}

/// The code of a text of one more symbol.
pub proof fn lemma_encode_push(text: Seq<char>, c: char, codes: Map<char, Seq<bool>>)
    ensures
        encode(text.push(c), codes) == encode(text, codes) + codes[c],
{
    assert(text.push(c).drop_last() =~= text);
}

/// The code of a text starts with the code of its first symbol.
pub proof fn lemma_encode_front(text: Seq<char>, codes: Map<char, Seq<bool>>)
    requires
        text.len() > 0,
    ensures
        encode(text, codes) == codes[text[0]] + encode(text.drop_first(), codes),
    decreases text.len(),
{
    if text.len() == 1 {
        assert(text.drop_last() =~= Seq::<char>::empty());
        assert(text.drop_first() =~= Seq::<char>::empty());
        assert(encode(text.drop_last(), codes) =~= Seq::<bool>::empty());
        assert(encode(text.drop_first(), codes) =~= Seq::<bool>::empty());
        assert(encode(text, codes) =~= codes[text[0]] + encode(text.drop_first(), codes));
    } else {
        let init = text.drop_last();
        lemma_encode_front(init, codes);
        assert(init.drop_first() =~= text.drop_first().drop_last());
        assert(text.drop_first().last() == text.last());
        assert(encode(text, codes) =~= codes[text[0]] + encode(text.drop_first(), codes));
    }
}

/// The code of the first symbols of a text is no longer than the code of
/// the text.
pub proof fn lemma_encode_take(text: Seq<char>, n: int, codes: Map<char, Seq<bool>>)
    requires
        0 <= n <= text.len(),
    ensures
        encode(text.take(n), codes).len() <= encode(text, codes).len(),
    decreases text.len() - n,
{
    if n < text.len() {
        lemma_encode_take(text, n + 1, codes);
        assert(text.take(n + 1).drop_last() =~= text.take(n));
    } else {
        assert(text.take(n) =~= text);
    }
}

/// Whether a symbol without a code stands among the first symbols.
pub proof fn lemma_first_unknown_skip(text: Seq<char>, n: int, codes: Map<char, Seq<bool>>)
    requires
        0 <= n <= text.len(),
        forall|i: int| 0 <= i < n ==> codes.contains_key(#[trigger] text[i]),
    ensures
        first_unknown(text, codes) == first_unknown(text.skip(n), codes),
    decreases n,
{
    if n == 0 {
        assert(text.skip(0) =~= text);
    } else {
        lemma_first_unknown_skip(text.drop_first(), n - 1, codes);
        assert(text.drop_first().skip(n - 1) =~= text.skip(n));
        assert(codes.contains_key(text[0]));
    }
}

/// Descending along the code of a symbol reaches that symbol and uses up
/// exactly the code.
pub proof fn lemma_walk_code(node: HuffmanNode, c: char, rest: Seq<bool>)
    requires
        code_of(node, c) is Some,
    ensures
        walk(node, code_of(node, c).unwrap() + rest) == Some((c, rest)),
    decreases node,
{
    let p = code_of(node, c).unwrap();
    match node {
        HuffmanNode::Leaf { .. } => {
            assert(p + rest =~= rest);
        },
        HuffmanNode::Internal { weight, left, right } => {
            if code_of(*right, c) is Some {
                let q = code_of(*right, c).unwrap();
                lemma_walk_code(*right, c, rest);
                assert((p + rest).drop_first() =~= q + rest);
                assert((p + rest)[0] == true);
            } else {
                let q = code_of(*left, c).unwrap();
                lemma_walk_code(*left, c, rest);
                assert((p + rest).drop_first() =~= q + rest);
                assert((p + rest)[0] == false);
            }
        },
    }
}

/// Decoding as many symbols as a text has, from the code of the text
/// followed by any bits, gives the text.
pub proof fn lemma_decode_encode(root: HuffmanNode, text: Seq<char>, rest: Seq<bool>)
    requires
        forall|i: int| 0 <= i < text.len() ==> code_of(root, #[trigger] text[i]) is Some,
    ensures
        decode_symbols(root, encode(text, code_map(root)) + rest, text.len()) == text,
    decreases text.len(),
{
    let codes = code_map(root);
    if text.len() == 0 {
        assert(decode_symbols(root, encode(text, codes) + rest, 0) =~= text);
    } else {
        let c = text[0];
        let tail = text.drop_first();
        lemma_encode_front(text, codes);
        assert(codes[c] == code_of(root, c).unwrap());
        let bits = encode(text, codes) + rest;
        assert(bits =~= code_of(root, c).unwrap() + (encode(tail, codes) + rest));
        lemma_walk_code(root, c, encode(tail, codes) + rest);
        assert forall|i: int| 0 <= i < tail.len() implies code_of(root, #[trigger] tail[i])
            is Some by {
            assert(tail[i] == text[i + 1]);
        }
        lemma_decode_encode(root, tail, rest);
        assert(seq![c] + tail =~= text);
    }
}

/// Descending along a proper start of a code ends inside the tree.
pub proof fn lemma_walk_partial(node: HuffmanNode, c: char, n: int)
    requires
        code_of(node, c) is Some,
        0 <= n < code_of(node, c).unwrap().len(),
    ensures
        walk(node, code_of(node, c).unwrap().take(n)) is None,
    decreases node,
{
    let p = code_of(node, c).unwrap();
    match node {
        HuffmanNode::Leaf { .. } => {},
        HuffmanNode::Internal { weight, left, right } => {
            if n > 0 {
                let sub = if code_of(*right, c) is Some { *right } else { *left };
                let q = code_of(sub, c).unwrap();
                assert(p.take(n).drop_first() =~= q.take(n - 1));
                assert(p.take(n)[0] == (code_of(*right, c) is Some));
                lemma_walk_partial(sub, c, n - 1);
            }
        },
    }
}

/// Decoding the first bits of the code of a text gives the first symbols of
/// the text: those whose codes are there in full.
pub proof fn lemma_decode_partial(root: HuffmanNode, text: Seq<char>, n: int)
    requires
        forall|i: int| 0 <= i < text.len() ==> code_of(root, #[trigger] text[i]) is Some,
        0 <= n <= encode(text, code_map(root)).len(),
    ensures
        decode_symbols(root, encode(text, code_map(root)).take(n), text.len()).is_prefix_of(text),
    decreases text.len(),
{
    let codes = code_map(root);
    let bits = encode(text, codes).take(n);
    if text.len() > 0 {
        let c = text[0];
        let tail = text.drop_first();
        let p = code_of(root, c).unwrap();
        lemma_encode_front(text, codes);
        assert(codes[c] == p);
        assert forall|i: int| 0 <= i < tail.len() implies code_of(root, #[trigger] tail[i])
            is Some by {
            assert(tail[i] == text[i + 1]);
        }
        if n >= p.len() {
            let rest = encode(tail, codes).take(n - p.len());
            assert(bits =~= p + rest);
            lemma_walk_code(root, c, rest);
            lemma_decode_partial(root, tail, n - p.len());
            let found = decode_symbols(root, rest, tail.len());
            assert(decode_symbols(root, bits, text.len()) == seq![c] + found);
            assert(found =~= tail.subrange(0, found.len() as int));
            assert(seq![c] + found =~= text.subrange(0, found.len() as int + 1));
        } else {
            assert(bits =~= p.take(n));
            lemma_walk_partial(root, c, n);
            assert(decode_symbols(root, bits, text.len()) =~= text.subrange(0, 0));
        }
    } else {
        assert(decode_symbols(root, bits, 0) =~= text.subrange(0, 0));
    }
}

/// No more symbols are decoded than the limit allows.
pub proof fn lemma_decode_len(root: HuffmanNode, bits: Seq<bool>, limit: nat)
    ensures
        decode_symbols(root, bits, limit).len() <= limit,
    decreases limit,
{
    if limit > 0 {
        match walk(root, bits) {
            None => {},
            Some((c, rest)) => {
                lemma_decode_len(root, rest, (limit - 1) as nat);
            },
        }
    }
}

/// Encodes a text: the codes of its symbols, one after the other.
///
/// Fails with `UnknownSymbol` on the first symbol that the table has no code
/// for, and with `TooLarge` when every symbol has a code but the bits are
/// more than a bit sequence can hold.
pub fn encode_text(text: &str, table: &CodeTable) -> (r: Result<BitSequence, HuffmanError>)
    ensures
        match first_unknown(text@, table@) {
            Some(c) => r == Err::<BitSequence, HuffmanError>(HuffmanError::UnknownSymbol(c)),
            None => if encode(text@, table@).len() > max_bits() {
                r == Err::<BitSequence, HuffmanError>(HuffmanError::TooLarge)
            } else {
                r matches Ok(bits) && bits@ == encode(text@, table@)
            },
        },
{
    let symbols = symbols_of(text);
    let ghost codes = table@;
    let limit: usize = usize::MAX / 8;
    let mut length: usize = 0;
    let mut fits = true;
    let mut i: usize = 0;
    assert(symbols@.take(0) =~= Seq::<char>::empty());
    while i < symbols.len()
        invariant
            i <= symbols@.len(),
            symbols@ == text@,
            codes == table@,
            limit == max_bits(),
            forall|j: int| 0 <= j < i ==> codes.contains_key(#[trigger] symbols@[j]),
            fits ==> length == encode(symbols@.take(i as int), codes).len() && length <= limit,
            !fits ==> encode(symbols@, codes).len() > limit,
        decreases symbols@.len() - i,
    {
        let c = symbols[i];
        match table.get(c) {
            None => {
                proof {
                    lemma_first_unknown_skip(symbols@, i as int, codes);
                    assert(symbols@.skip(i as int)[0] == c);
                }
                return Err(HuffmanError::UnknownSymbol(c));
            },
            Some(code) => {
                proof {
                    assert(symbols@.take(i + 1) =~= symbols@.take(i as int).push(c));
                    lemma_encode_push(symbols@.take(i as int), c, codes);
                    lemma_encode_take(symbols@, i + 1, codes);
                }
                if fits {
                    let n = code.len();
                    if n > limit - length {
                        fits = false;
                    } else {
                        length = length + n;
                    }
                }
            },
        }
        i += 1;
    }
    proof {
        lemma_first_unknown_skip(symbols@, symbols@.len() as int, codes);
        assert(symbols@.take(symbols@.len() as int) =~= symbols@);
    }
    if !fits {
        return Err(HuffmanError::TooLarge);
    }
    let mut bits = BitSequence::new();
    let mut k: usize = 0;
    while k < symbols.len()
        invariant
            k <= symbols@.len(),
            codes == table@,
            forall|j: int| 0 <= j < symbols@.len() ==> codes.contains_key(#[trigger] symbols@[j]),
            encode(symbols@, codes).len() <= max_bits(),
            bits@ == encode(symbols@.take(k as int), codes),
        decreases symbols@.len() - k,
    {
        let c = symbols[k];
        let code = table.get(c).unwrap();
        proof {
            assert(symbols@.take(k + 1) =~= symbols@.take(k as int).push(c));
            lemma_encode_push(symbols@.take(k as int), c, codes);
            lemma_encode_take(symbols@, k + 1, codes);
        }
        bits.extend(code);
        k += 1;
    }
    assert(symbols@.take(k as int) =~= symbols@);
    Ok(bits)
}

/// Decodes bits into a text by descending the tree from the root, one
/// symbol per descent.
///
/// The weight of the root is the number of symbols of the text: decoding
/// stops there and leaves the remaining bits, which fill up the last byte,
/// aside. Where the bits end inside a descent, the symbols found so far are
/// the result, which is then shorter than the weight says. A tree of one
/// leaf uses no bits at all: its symbol is repeated as often as the weight
/// says.
pub fn decode_text(encoded: &BitSequence, root: &HuffmanNode) -> (text: String)
    ensures
        text@ == decode(*root, encoded@),
        text@.len() <= root.weight_of(),
{
    proof {
        lemma_decode_len(*root, encoded@, root.weight_of());
    }
    let n = encoded.len();
    let limit = root.weight();
    let mut text = String::new();
    let mut pos: usize = 0;
    let mut count: usize = 0;
    let mut exhausted = false;
    assert(encoded@.skip(0) =~= encoded@);
    assert(text@ + decode(*root, encoded@) =~= decode(*root, encoded@));
    while count < limit && !exhausted
        invariant
            pos <= n == encoded@.len(),
            count <= limit == root.weight_of(),
            !exhausted ==> text@ + decode_symbols(
                *root,
                encoded@.skip(pos as int),
                (limit - count) as nat,
            ) == decode(*root, encoded@),
            exhausted ==> text@ == decode(*root, encoded@),
        decreases limit - count + (if exhausted { 0int } else { 1int }),
    {
        let mut node = root;
        let mut p = pos;
        let mut descending = true;
        while descending
            invariant
                pos <= p <= n == encoded@.len(),
                walk(*root, encoded@.skip(pos as int)) == walk(*node, encoded@.skip(p as int)),
                !descending ==> (node is Leaf || p == n),
            decreases n - p + (if descending { 1int } else { 0int }),
        {
            match node {
                HuffmanNode::Leaf { .. } => {
                    descending = false;
                },
                HuffmanNode::Internal { left, right, .. } => {
                    if p < n {
                        let bit = encoded.bit(p);
                        assert(encoded@.skip(p as int)[0] == bit);
                        assert(encoded@.skip(p as int).drop_first() =~= encoded@.skip(p + 1));
                        if bit {
                            node = right;
                        } else {
                            node = left;
                        }
                        p = p + 1;
                    } else {
                        descending = false;
                    }
                },
            }
        }
        match node {
            HuffmanNode::Leaf { symbol, .. } => {
                let ghost before = text@;
                let ghost tail = decode_symbols(
                    *root,
                    encoded@.skip(p as int),
                    (limit - count - 1) as nat,
                );
                text.push(*symbol);
                assert(text@ + tail =~= before + (seq![*symbol] + tail));
                pos = p;
                count = count + 1;
            },
            HuffmanNode::Internal { .. } => {
                assert(encoded@.skip(p as int).len() == 0);
                assert(text@ + Seq::<char>::empty() =~= text@);
                exhausted = true;
            },
        }
    }
    proof {
        if !exhausted {
            assert(text@ + Seq::<char>::empty() =~= text@);
        }
    }
    text
}

} // verus!
