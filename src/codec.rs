//! Frequency counting, and compress and decompress end to end.

use vstd::prelude::*;

use itertools::Itertools;

use crate::bits::{bits_of_value, value_of};
use crate::codes::{assign_codes, code_table, lemma_code_table_has, table_view};
use crate::container::{
    be_bytes, be_value, container_ok, encode_table, entry_bytes, header_count,
    parse_huffman_data, serialize_huffman_data, storable, table_codes, table_entries,
    table_wf, HuffmanData,
};
use crate::packing::{
    bytes_bits, covers, decode_bits, decode_from, encode_bits, encoded_bits, pack_bits, packed,
    padding_for, unpack_bytes,
};
use crate::tree::{
    by_symbol, create_tree, distinct_symbols, freq_total, huffman_tree, lemma_ascending_unique,
    lemma_merge_keeps, leaves_of, same_entries, symbols_ascending, tree_has,
};
use crate::HuffmanError;

verus! {

/// Whether a symbol is `c`.
pub open spec fn is_symbol(c: char) -> spec_fn(char) -> bool {
    |x: char| x == c
}

/// How often `c` occurs in `s`.
pub open spec fn occurrences(s: Seq<char>, c: char) -> nat {
    s.filter(is_symbol(c)).len()
}

/// `g` holds one entry per symbol of `s`, with the number of its occurrences.
pub open spec fn tallies(g: Seq<(char, usize)>, s: Seq<char>) -> bool {
    &&& forall|i: int|
        0 <= i < g.len() ==> (#[trigger] g[i]).1 as nat == occurrences(s, g[i].0) && s.contains(g[i].0)
    &&& forall|c: char| s.contains(c) ==> exists|i: int| 0 <= i < g.len() && g[i].0 == c
}

/// The frequency table of a text, symbols ascending.
pub open spec fn frequencies(s: Seq<char>) -> Seq<(char, usize)> {
    choose|g: Seq<(char, usize)>| symbols_ascending(g) && tallies(g, s)
}

/// The Huffman tree of a text.
pub open spec fn text_tree(s: Seq<char>) -> crate::tree::HuffmanNode {
    huffman_tree(frequencies(s))
}

/// A container from a code table, the padding bit count and the packed bytes.
pub open spec fn container_of(t: Seq<(char, Seq<bool>)>, pad: u8, msg: Seq<u8>) -> Seq<u8> {
    be_bytes(t.len(), 4) + t.map(|i: int, e: (char, Seq<bool>)| e.0 as u8) + entry_bytes(
        t.map(|i: int, e: (char, Seq<bool>)| value_of(e.1) as u64),
        t.map(|i: int, e: (char, Seq<bool>)| e.1.len() as u8),
    ) + seq![pad] + msg
}

/// Some symbol of `s` does not fit in one byte.
pub open spec fn has_wide_symbol(s: Seq<char>) -> bool {
    exists|i: int| 0 <= i < s.len() && (#[trigger] s[i] as int) > 0xFF
}

/// What compressing `s` gives.
pub open spec fn compressed(s: Seq<char>) -> Result<Seq<u8>, HuffmanError> {
    if has_wide_symbol(s) {
        Err(HuffmanError::UnsupportedSymbol)
    } else if s.len() == 0 {
        Err(HuffmanError::EmptyInput)
    } else {
        let t = code_table(text_tree(s));
        if !storable(t) {
            Err(HuffmanError::UnassignableCode)
        } else {
            let bits = encoded_bits(t, s);
            Ok(container_of(t, padding_for(bits.len()) as u8, packed(bits)))
        }
    }
}

/// What decoding a packed payload gives: the last `extra` bits are padding.
pub open spec fn decode_payload(t: Seq<(char, Seq<bool>)>, extra: u8, msg: Seq<u8>) -> Result<
    Seq<char>,
    HuffmanError,
> {
    let bits = bytes_bits(msg);
    if extra > 7 || extra > 8 * msg.len() {
        Err(HuffmanError::MalformedContainer)
    } else {
        match decode_from(t, Seq::empty(), bits.take(8 * msg.len() - extra)) {
            Some(x) => Ok(x),
            None => Err(HuffmanError::CorruptData),
        }
    }
}

/// The code table stored in a well-formed container.
pub open spec fn stored_table(b: Seq<u8>) -> Seq<(char, Seq<bool>)> {
    let n = header_count(b) as int;
    Seq::new(
        n as nat,
        |i: int|
            (
                b[4 + i] as char,
                bits_of_value(be_value(b.subrange(4 + n + 9 * i + 1, 4 + n + 9 * i + 9)), b[4 + n + 9 * i] as nat),
            ),
    )
}

/// What decompressing the container `b` gives.
pub open spec fn decompressed(b: Seq<u8>) -> Result<Seq<char>, HuffmanError> {
    if !container_ok(b) {
        Err(HuffmanError::MalformedContainer)
    } else {
        let n = header_count(b) as int;
        decode_payload(stored_table(b), b[4 + 10 * n], b.skip(4 + 10 * n + 1))
    }
}

/// Two tables that tally the same text hold the same entries.
proof fn lemma_tallies_same(a: Seq<(char, usize)>, b: Seq<(char, usize)>, s: Seq<char>)
    requires
        tallies(a, s),
        tallies(b, s),
    ensures
        same_entries(a, b),
{
    assert forall|e: (char, usize)| a.contains(e) implies b.contains(e) by {
        let i = choose|i: int| 0 <= i < a.len() && a[i] == e;
        assert(s.contains(a[i].0));
        let j = choose|j: int| 0 <= j < b.len() && b[j].0 == e.0;
        assert(b[j] == e);
    }
    assert forall|e: (char, usize)| b.contains(e) implies a.contains(e) by {
        let i = choose|i: int| 0 <= i < b.len() && b[i] == e;
        assert(s.contains(b[i].0));
        let j = choose|j: int| 0 <= j < a.len() && a[j].0 == e.0;
        assert(a[j] == e);
    }
}

/// A tally of a text with ascending symbols is its frequency table.
proof fn lemma_sorted_tally(f: Seq<(char, usize)>, g: Seq<(char, usize)>, s: Seq<char>)
    requires
        tallies(f, s),
        symbols_ascending(g),
        same_entries(g, f),
    ensures
        g == frequencies(s),
        symbols_ascending(frequencies(s)),
        tallies(frequencies(s), s),
{
    assert forall|i: int| 0 <= i < g.len() implies (#[trigger] g[i]).1 as nat == occurrences(s, g[i].0) && s.contains(
        g[i].0,
    ) by {
        assert(g.contains(g[i]));
        let j = choose|j: int| 0 <= j < f.len() && f[j] == g[i];
    }
    assert forall|c: char| s.contains(c) implies exists|i: int| 0 <= i < g.len() && g[i].0 == c by {
        let j = choose|j: int| 0 <= j < f.len() && f[j].0 == c;
        assert(f.contains(f[j]));
        let i = choose|i: int| 0 <= i < g.len() && g[i] == f[j];
    }
    assert(tallies(g, s));
    let fr = frequencies(s);
    lemma_tallies_same(g, fr, s);
    lemma_ascending_unique(g, fr);
}

/// The tree built from any tally of a text is the text's tree.
proof fn lemma_tree_of_text(f: Seq<(char, usize)>, s: Seq<char>)
    requires
        tallies(f, s),
        symbols_ascending(by_symbol(f)),
        same_entries(by_symbol(f), f),
    ensures
        huffman_tree(f) == text_tree(s),
        symbols_ascending(frequencies(s)),
        tallies(frequencies(s), s),
        by_symbol(f) == frequencies(s),
        by_symbol(frequencies(s)) == frequencies(s),
{
    lemma_sorted_tally(f, by_symbol(f), s);
    let fr = frequencies(s);
    let h = by_symbol(fr);
    assert(same_entries(fr, fr));
    lemma_ascending_unique(h, fr);
}

/// Every symbol of a text has an entry in the code table of its tree.
pub(crate) proof fn lemma_text_covered(s: Seq<char>)
    requires
        symbols_ascending(frequencies(s)),
        tallies(frequencies(s), s),
        by_symbol(frequencies(s)) == frequencies(s),
    ensures
        covers(code_table(text_tree(s)), s),
{
    let fr = frequencies(s);
    let pool = leaves_of(fr);
    assert forall|i: int| 0 <= i < s.len() implies exists|k: int|
        0 <= k < code_table(text_tree(s)).len() && code_table(text_tree(s))[k].0 == #[trigger] s[i] by {
        assert(s.contains(s[i]));
        let j = choose|j: int| 0 <= j < fr.len() && fr[j].0 == s[i];
        assert(tree_has(pool[j], s[i]));
        lemma_merge_keeps(pool, j, s[i]);
        lemma_code_table_has(text_tree(s), s[i]);
    }
}

/// Relies on `Itertools::counts`: one entry for each distinct item, holding
/// how many times it occurs; every item is counted once. The order of the
/// entries is that of a `HashMap` and is not fixed.
#[verifier::external_body]
fn symbol_counts(s: &str) -> (r: Vec<(char, usize)>)
    ensures
        distinct_symbols(r@),
        tallies(r@, s@),
        freq_total(r@) == s@.len(),
{
    s.chars().counts().into_iter().collect()
}

/// The characters of a string, in order.
fn chars_of(s: &str) -> (r: Vec<char>)
    ensures
        r@ == s@,
{
    let mut out: Vec<char> = Vec::new();
    for c in it: s.chars()
        invariant
            out@ == it.seq().take(it.index() as int),
            it.seq() == s@,
    {
        out.push(c);
        assert(it.seq().take(it.index() as int + 1) =~= it.seq().take(it.index() as int).push(c));
    }
    out
}

/// Relies on `String: FromIterator<char>`: the string of these characters.
#[verifier::external_body]
fn string_of(v: &Vec<char>) -> (r: String)
    ensures
        r@ == v@,
{
    v.iter().collect()
}

/// The frequency table of a text: each symbol once, with how often it
/// occurs, symbols ascending.
pub fn count_frequencies(contents: &str) -> (r: Vec<(char, usize)>)
    ensures
        r@ == frequencies(contents@),
        freq_total(r@) == contents@.len(),
{
    let counts = symbol_counts(contents);
    let sorted = crate::tree::sort_by_symbol(&counts);
    proof {
        lemma_sorted_tally(counts@, sorted@, contents@);
    }
    sorted
}

/// Encodes `contents` with the code table: the packed bytes and the number of
/// padding bits in the last byte.
pub fn encode_message(contents: String, dict: &Vec<(char, Vec<bool>)>) -> (r: (Vec<u8>, u8))
    requires
        covers(table_view(dict@), contents@),
    ensures
        r.0@ == packed(encoded_bits(table_view(dict@), contents@)),
        r.1 as nat == padding_for(encoded_bits(table_view(dict@), contents@).len()),
        bytes_bits(r.0@) == encoded_bits(table_view(dict@), contents@) + crate::bits::zeros(r.1 as nat),
        r.1 < 8,
{
    let symbols = chars_of(contents.as_str());
    let bits = encode_bits(&symbols, dict);
    pack_bits(&bits)
}

/// Decodes the payload of a container with its table, dropping the padding
/// bits. Fails with `MalformedContainer` when the padding count exceeds 7 or
/// the payload, and with `CorruptData` when the bits do not match the table.
pub fn decode_huffman_data(data: HuffmanData) -> (r: Result<String, HuffmanError>)
    requires
        table_wf(data.table),
    ensures
        match decode_payload(table_entries(data.table), data.extra_bits, data.message@) {
            Ok(x) => r matches Ok(s) && s@ == x,
            Err(e) => r == Err::<String, HuffmanError>(e),
        },
{
    let dict = table_codes(&data.table);
    let mut bits = unpack_bytes(&data.message);
    proof {
        crate::packing::lemma_bytes_bits_len(data.message@);
    }
    if data.extra_bits > 7 || data.extra_bits as usize > bits.len() {
        return Err(HuffmanError::MalformedContainer);
    }
    let keep = bits.len() - data.extra_bits as usize;
    bits.truncate(keep);
    assert(bits@ =~= bytes_bits(data.message@).take(8 * data.message@.len() - data.extra_bits));
    match decode_bits(&dict, &bits) {
        Ok(symbols) => Ok(string_of(&symbols)),
        Err(e) => Err(e),
    }
}

/// Reads a container and decodes it back to the text.
pub fn decompress(blob: &Vec<u8>) -> (r: Result<String, HuffmanError>)
    ensures
        match decompressed(blob@) {
            Ok(x) => r matches Ok(s) && s@ == x,
            Err(e) => r == Err::<String, HuffmanError>(e),
        },
{
    let data = match parse_huffman_data(blob) {
        Ok(d) => d,
        Err(e) => return Err(e),
    };
    proof {
        let b = blob@;
        let n = header_count(b) as int;
        assert forall|i: int| 0 <= i < n implies #[trigger] table_entries(data.table)[i] == stored_table(b)[i] by {
            assert(data.table.chars@[i] == b.subrange(4, 4 + n)[i] as char);
            assert(data.table.lengths@[i] == b[4 + n + 9 * i]);
            assert(data.table.codes@[i] as nat == be_value(b.subrange(4 + n + 9 * i + 1, 4 + n + 9 * i + 9)));
        }
        assert(table_entries(data.table) =~= stored_table(b));
    }
    decode_huffman_data(data)
}

/// Compresses a text into a self-describing container: the code table of its
/// Huffman tree, the padding bit count and the packed codes of its symbols.
pub fn compress(contents: &str) -> (r: Result<Vec<u8>, HuffmanError>)
    ensures
        match compressed(contents@) {
            Ok(x) => r matches Ok(b) && b@ == x,
            Err(e) => r == Err::<Vec<u8>, HuffmanError>(e),
        },
{
    let symbols = chars_of(contents);
    let mut i: usize = 0;
    while i < symbols.len()
        invariant
            i <= symbols@.len(),
            symbols@ == contents@,
            forall|k: int| 0 <= k < i ==> (#[trigger] symbols@[k] as int) <= 0xFF,
        decreases symbols@.len() - i,
    {
        if symbols[i] > '\u{FF}' {
            assert(has_wide_symbol(contents@)) by {
                assert(contents@[i as int] == symbols@[i as int]);
            }
            return Err(HuffmanError::UnsupportedSymbol);
        }
        i = i + 1;
    }
    assert(!has_wide_symbol(contents@)) by {
        assert forall|k: int| 0 <= k < contents@.len() implies (#[trigger] contents@[k] as int) <= 0xFF by {
            assert(contents@[k] == symbols@[k]);
        }
    }
    let freqs = symbol_counts(contents);
    let ghost f = freqs@;
    proof {
        if contents@.len() > 0 {
            assert(contents@.contains(contents@[0]));
        } else if f.len() > 0 {
            assert(contents@.contains(f[0].0));
        }
    }
    let tree = match create_tree(freqs) {
        Ok(t) => t,
        Err(e) => return Err(e),
    };
    proof {
        lemma_tree_of_text(f, contents@);
        lemma_text_covered(contents@);
    }
    let ghost tv = code_table(tree);
    let dict = assign_codes(tree);
    let table = match encode_table(&dict) {
        Ok(t) => t,
        Err(e) => return Err(e),
    };
    let (message, extra_bits) = encode_message(contents.to_owned(), &dict);
    let data = HuffmanData { message, extra_bits, table };
    let out = serialize_huffman_data(&data);
    proof {
        let t = data.table;
        assert(t.chars@.map(|i: int, c: char| c as u8) =~= tv.map(|i: int, e: (char, Seq<bool>)| e.0 as u8));
        assert forall|k: int| 0 <= k < tv.len() implies #[trigger] t.codes@[k] == value_of(tv[k].1) as u64 by {
            assert(tv[k].1.len() <= 64);
            crate::bits::lemma_value_bound(tv[k].1);
            crate::bits::lemma_pow2_mono(tv[k].1.len(), 64);
            crate::bits::lemma_pow2_64();
        }
        assert(t.codes@ =~= tv.map(|i: int, e: (char, Seq<bool>)| value_of(e.1) as u64));
        assert forall|k: int| 0 <= k < tv.len() implies #[trigger] t.lengths@[k] == tv[k].1.len() as u8 by {
            assert(tv[k].1.len() <= 64);
        }
        assert(t.lengths@ =~= tv.map(|i: int, e: (char, Seq<bool>)| e.1.len() as u8));
        assert(out@ =~= container_of(tv, extra_bits, data.message@));
    }
    Ok(out)
}

} // verus!
