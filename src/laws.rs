//! Laws of the codec: round trip, a lone symbol, determinism, padding.

use vstd::prelude::*;

use crate::bits::{
    bits_of_value, lemma_bits_of_value_of, lemma_pow2_64, lemma_pow2_mono,
    lemma_value_bound, value_of, zeros,
};
use crate::codec::{
    compressed, container_of, decompressed, frequencies, has_wide_symbol, is_symbol, occurrences,
    stored_table, tallies, text_tree,
};
use crate::codes::{code_table, lemma_code_table_prefix_free};
use crate::container::{be_bytes, be_value, container_ok, entry_bytes, header_count, lemma_be_round_trip, storable};
use crate::packing::{
    bytes_bits, code_for, encoded_bits, first_for_symbol, lemma_bytes_bits_len, lemma_decode_encoded,
    packed, padding_for,
};
use crate::tree::{by_symbol, lemma_ascending_unique, leaves_of, merge_all, same_entries, symbols_ascending};
use crate::HuffmanError;

verus! {

/// Symbols before `k` are below `c`, the rest above it.
spec fn splits_at(g: Seq<(char, usize)>, c: char, k: int) -> bool {
    &&& 0 <= k <= g.len()
    &&& forall|m: int| 0 <= m < k ==> (#[trigger] g[m].0 as int) < (c as int)
    &&& forall|m: int| k <= m < g.len() ==> (#[trigger] g[m].0 as int) > (c as int)
}

proof fn lemma_insert_point(g: Seq<(char, usize)>, c: char)
    requires
        symbols_ascending(g),
        forall|m: int| 0 <= m < g.len() ==> (#[trigger] g[m]).0 != c,
    ensures
        exists|k: int| splits_at(g, c, k),
    decreases g.len(),
{
    if g.len() == 0 {
        assert(splits_at(g, c, 0));
    } else {
        let n = g.len() - 1;
        if (g[n].0 as int) < (c as int) {
            assert forall|m: int| 0 <= m < g.len() implies (#[trigger] g[m].0 as int) < (c as int) by {
                if m < n {
                    assert((g[m].0 as int) < (g[n].0 as int));
                }
            }
            assert(splits_at(g, c, g.len() as int));
        } else {
            let g0 = g.drop_last();
            assert forall|m: int| 0 <= m < g0.len() implies (#[trigger] g0[m]).0 != c by {
                assert(g0[m] == g[m]);
            }
            lemma_insert_point(g0, c);
            let k = choose|k: int| splits_at(g0, c, k);
            assert forall|m: int| 0 <= m < k implies (#[trigger] g[m].0 as int) < (c as int) by {
                assert(g0[m] == g[m]);
            }
            assert forall|m: int| k <= m < g.len() implies (#[trigger] g[m].0 as int) > (c as int) by {
                if m < n {
                    assert(g0[m] == g[m]);
                }
            }
            assert(splits_at(g, c, k));
        }
    }
}

proof fn lemma_occurrences_absent(s: Seq<char>, c: char)
    requires
        !s.contains(c),
    ensures
        occurrences(s, c) == 0,
    decreases s.len(),
{
    if s.len() == 0 {
        s.lemma_filter_len(is_symbol(c));
    } else {
        let s0 = s.drop_last();
        assert(!s0.contains(c)) by {
            if s0.contains(c) {
                let k = choose|k: int| 0 <= k < s0.len() && s0[k] == c;
                assert(s[k] == c);
            }
        }
        lemma_occurrences_absent(s0, c);
        assert(s =~= s0.push(s.last()));
        assert(s.last() != c) by {
            assert(s[s.len() - 1] == s.last());
        }
        s0.lemma_filter_len_push(is_symbol(c), s.last());
    }
}

/// Every text that fits in memory has a frequency table with ascending symbols.
pub proof fn lemma_tally_exists(s: Seq<char>)
    requires
        s.len() <= usize::MAX,
    ensures
        exists|g: Seq<(char, usize)>| symbols_ascending(g) && tallies(g, s),
    decreases s.len(),
{
    if s.len() == 0 {
        let g = Seq::<(char, usize)>::empty();
        assert(symbols_ascending(g) && tallies(g, s));
    } else {
        let s0 = s.drop_last();
        let c = s.last();
        lemma_tally_exists(s0);
        let g0 = choose|g: Seq<(char, usize)>| symbols_ascending(g) && tallies(g, s0);
        assert(s =~= s0.push(c));
        assert forall|x: char| #[trigger] occurrences(s, x) == occurrences(s0, x) + (if x == c { 1int } else { 0int }) by {
            s0.lemma_filter_len_push(is_symbol(x), c);
        }
        assert forall|x: char| s.contains(x) && x != c implies s0.contains(x) by {
            let k = choose|k: int| 0 <= k < s.len() && s[k] == x;
            assert(s0[k] == x);
        }
        assert forall|x: char| #[trigger] s0.contains(x) implies s.contains(x) by {
            let k = choose|k: int| 0 <= k < s0.len() && s0[k] == x;
            assert(s[k] == x);
        }
        if s0.contains(c) {
            let j = choose|j: int| 0 <= j < g0.len() && g0[j].0 == c;
            s0.lemma_filter_len(is_symbol(c));
            assert(g0[j].1 as nat == occurrences(s0, c));
            let g = g0.update(j, (c, (g0[j].1 + 1) as usize));
            assert forall|i: int| 0 <= i < g.len() implies (#[trigger] g[i]).1 as nat == occurrences(s, g[i].0) && s.contains(
                g[i].0,
            ) by {
                if i != j {
                    assert(g[i] == g0[i]);
                    assert(g0[i].0 != c);
                }
            }
            assert forall|x: char| s.contains(x) implies exists|i: int| 0 <= i < g.len() && g[i].0 == x by {
                if x == c {
                    assert(g[j].0 == x);
                } else {
                    let i = choose|i: int| 0 <= i < g0.len() && g0[i].0 == x;
                    assert(g[i].0 == x);
                }
            }
            assert(symbols_ascending(g));
            assert(tallies(g, s));
        } else {
            lemma_occurrences_absent(s0, c);
            assert forall|m: int| 0 <= m < g0.len() implies (#[trigger] g0[m]).0 != c by {
                assert(s0.contains(g0[m].0));
            }
            lemma_insert_point(g0, c);
            let k = choose|k: int| splits_at(g0, c, k);
            let g = g0.insert(k, (c, 1usize));
            assert forall|i: int, j: int| 0 <= i < j < g.len() implies (g[i].0 as int) < (g[j].0 as int) by {
                if i < k && j == k {
                    assert(g[i] == g0[i]);
                } else if i < k && j > k {
                    assert(g[i] == g0[i] && g[j] == g0[j - 1]);
                } else if i == k {
                    assert(g[j] == g0[j - 1]);
                } else if j < k {
                    assert(g[i] == g0[i] && g[j] == g0[j]);
                } else {
                    assert(g[i] == g0[i - 1] && g[j] == g0[j - 1]);
                }
            }
            assert forall|i: int| 0 <= i < g.len() implies (#[trigger] g[i]).1 as nat == occurrences(s, g[i].0) && s.contains(
                g[i].0,
            ) by {
                if i < k {
                    assert(g[i] == g0[i]);
                } else if i > k {
                    assert(g[i] == g0[i - 1]);
                }
            }
            assert forall|x: char| s.contains(x) implies exists|i: int| 0 <= i < g.len() && g[i].0 == x by {
                if x == c {
                    assert(g[k].0 == x);
                } else {
                    let i = choose|i: int| 0 <= i < g0.len() && g0[i].0 == x;
                    if i < k {
                        assert(g[i].0 == x);
                    } else {
                        assert(g[i + 1].0 == x);
                    }
                }
            }
            assert(symbols_ascending(g));
            assert(tallies(g, s));
        }
    }
}

/// Every bit string of whole bytes is the bits of some byte sequence.
pub proof fn lemma_pack_exists(p: Seq<bool>)
    requires
        p.len() % 8 == 0,
    ensures
        exists|b: Seq<u8>| bytes_bits(b) == p,
    decreases p.len(),
{
    if p.len() == 0 {
        assert(bytes_bits(Seq::<u8>::empty()) =~= p);
    } else {
        let n = p.len() - 8;
        let front = p.take(n);
        let chunk = p.skip(n);
        lemma_pack_exists(front);
        let b0 = choose|b: Seq<u8>| bytes_bits(b) == front;
        lemma_value_bound(chunk);
        lemma_pow2_64();
        let v = value_of(chunk);
        let b = b0.push(v as u8);
        lemma_bits_of_value_of(chunk);
        assert(b.drop_last() =~= b0);
        assert(bytes_bits(b) =~= p);
    }
}

/// The frequency table of a text: ascending, a tally of the text, and its own
/// ascending arrangement.
proof fn lemma_frequencies(s: Seq<char>)
    requires
        s.len() <= usize::MAX,
    ensures
        symbols_ascending(frequencies(s)),
        tallies(frequencies(s), s),
        by_symbol(frequencies(s)) == frequencies(s),
{
    lemma_tally_exists(s);
    let f = frequencies(s);
    assert(same_entries(f, f));
    lemma_ascending_unique(by_symbol(f), f);
}

/// Padding: between 1 and 7 zero bits when the bit count is not a multiple of
/// 8, none when it is; the packed bytes hold exactly the bits, then the padding.
pub proof fn lemma_padding(bits: Seq<bool>)
    ensures
        padding_for(bits.len()) <= 7,
        bits.len() % 8 == 0 <==> padding_for(bits.len()) == 0,
        bits.len() % 8 != 0 ==> 1 <= padding_for(bits.len()) <= 7,
        bytes_bits(packed(bits)) == bits + zeros(padding_for(bits.len())),
        8 * packed(bits).len() == bits.len() + padding_for(bits.len()),
        bytes_bits(packed(bits)).take(bits.len() as int) == bits,
{
    let p = bits + zeros(padding_for(bits.len()));
    lemma_pack_exists(p);
    lemma_bytes_bits_len(packed(bits));
    assert(p.take(bits.len() as int) =~= bits);
}

/// Compressing is a function of the text: the same text gives the same bytes.
pub proof fn lemma_deterministic(s1: Seq<char>, s2: Seq<char>)
    requires
        s1 == s2,
    ensures
        compressed(s1) == compressed(s2),
{
}

/// Decompressing what compressing a text gave returns the text.
pub proof fn lemma_round_trip(s: Seq<char>)
    requires
        s.len() <= usize::MAX,
        compressed(s) is Ok,
    ensures
        decompressed(compressed(s)->Ok_0) == Ok::<Seq<char>, HuffmanError>(s),
{
    lemma_frequencies(s);
    crate::codec::lemma_text_covered(s);
    let t = code_table(text_tree(s));
    lemma_code_table_prefix_free(text_tree(s));
    let bits = encoded_bits(t, s);
    let pad = padding_for(bits.len()) as u8;
    lemma_padding(bits);
    let msg = packed(bits);
    let b = container_of(t, pad, msg);
    assert(b == compressed(s)->Ok_0);
    assert(t.len() > 0) by {
        assert(exists|k: int| 0 <= k < t.len() && t[k].0 == s[0]);
    }
    lemma_container_parts(t, pad, msg);
    lemma_decode_encoded(t, s);
}

/// What a container made from a storable table reads back as.
proof fn lemma_container_parts(t: Seq<(char, Seq<bool>)>, pad: u8, msg: Seq<u8>)
    requires
        storable(t),
        t.len() > 0,
    ensures
        container_ok(container_of(t, pad, msg)),
        header_count(container_of(t, pad, msg)) == t.len(),
        stored_table(container_of(t, pad, msg)) == t,
        container_of(t, pad, msg)[4 + 10 * t.len() as int] == pad,
        container_of(t, pad, msg).skip(4 + 10 * t.len() as int + 1) == msg,
{
    let b = container_of(t, pad, msg);
    let n = t.len() as int;
    let sym = t.map(|i: int, e: (char, Seq<bool>)| e.0 as u8);
    let codes = t.map(|i: int, e: (char, Seq<bool>)| value_of(e.1) as u64);
    let lens = t.map(|i: int, e: (char, Seq<bool>)| e.1.len() as u8);
    let ent = entry_bytes(codes, lens);
    crate::container::lemma_entry_bytes(codes, lens);
    assert(t.len() < 0x1_0000_0000);
    reveal_with_fuel(crate::container::pow256, 5);
    lemma_be_round_trip(t.len(), 4);
    let head = be_bytes(t.len(), 4);
    assert(b == head + sym + ent + seq![pad] + msg);
    assert(b.take(4) =~= head);
    assert(header_count(b) == n);
    assert(b.len() == 4 + 10 * n + 1 + msg.len());
    assert forall|i: int| 0 <= i < n implies #[trigger] stored_table(b)[i] == t[i] by {
        assert(b[4 + i] == sym[i]);
        assert(b[4 + n + 9 * i] == ent[9 * i]);
        assert(b.subrange(4 + n + 9 * i + 1, 4 + n + 9 * i + 9) =~= ent.subrange(9 * i + 1, 9 * i + 9));
        reveal_with_fuel(crate::container::pow256, 9);
        lemma_be_round_trip(codes[i] as nat, 8);
        lemma_stored_entry(t, b, i);
    }
    assert(stored_table(b) =~= t);
    assert(b[4 + 10 * n] == pad);
    assert(b.skip(4 + 10 * n + 1) =~= msg);
}

proof fn lemma_byte_char(c: char)
    requires
        (c as int) <= 0xFF,
    ensures
        ((c as u8) as char) == c,
{
    let y = c as u8;
    assert(y as int == c as int);
    assert((y as char) as int == y as int);
}

proof fn lemma_stored_entry(t: Seq<(char, Seq<bool>)>, b: Seq<u8>, i: int)
    requires
        storable(t),
        0 <= i < t.len(),
        b[4 + i] == t[i].0 as u8,
        b[4 + t.len() + 9 * i] == t[i].1.len() as u8,
        be_value(b.subrange(4 + t.len() + 9 * i + 1, 4 + t.len() + 9 * i + 9)) == (value_of(t[i].1) as u64) as nat,
    ensures
        (b[4 + i] as char, bits_of_value(be_value(b.subrange(4 + t.len() + 9 * i + 1, 4 + t.len() + 9 * i + 9)), b[4 + t.len() + 9 * i] as nat)) == t[i],
{
    lemma_byte_char(t[i].0);
    assert(t[i].1.len() <= 64);
    lemma_value_bound(t[i].1);
    lemma_pow2_mono(t[i].1.len(), 64);
    lemma_pow2_64();
    lemma_bits_of_value_of(t[i].1);
}

proof fn lemma_singleton_bits(t: Seq<(char, Seq<bool>)>, s: Seq<char>, c: char)
    requires
        t == seq![(c, seq![false])],
        forall|i: int| 0 <= i < s.len() ==> s[i] == c,
    ensures
        encoded_bits(t, s) == Seq::new(s.len(), |i: int| false),
    decreases s.len(),
{
    if s.len() > 0 {
        lemma_singleton_bits(t, s.drop_last(), c);
        assert(first_for_symbol(t, c, 0));
        let k = choose|k: int| first_for_symbol(t, c, k);
        assert(k == 0);
        assert(code_for(t, s.last()) == seq![false]);
        assert(encoded_bits(t, s) =~= Seq::new(s.len(), |i: int| false));
    } else {
        assert(encoded_bits(t, s) =~= Seq::new(s.len(), |i: int| false));
    }
}

/// A text of one repeated symbol: that symbol gets the code `0`, each
/// occurrence encodes to one `0` bit, and a one-byte symbol decodes back.
pub proof fn lemma_singleton(s: Seq<char>, c: char)
    requires
        0 < s.len() <= usize::MAX,
        forall|i: int| 0 <= i < s.len() ==> s[i] == c,
    ensures
        code_table(text_tree(s)) == seq![(c, seq![false])],
        encoded_bits(code_table(text_tree(s)), s) == Seq::new(s.len(), |i: int| false),
        (c as int) <= 0xFF ==> compressed(s) is Ok && decompressed(compressed(s)->Ok_0) == Ok::<
            Seq<char>,
            HuffmanError,
        >(s),
{
    lemma_frequencies(s);
    let f = frequencies(s);
    assert(s.contains(s[0]));
    assert forall|i: int| 0 <= i < f.len() implies (#[trigger] f[i]).0 == c by {
        let k = choose|k: int| 0 <= k < s.len() && s[k] == f[i].0;
    }
    assert(f.len() == 1) by {
        if f.len() > 1 {
            assert(f[0].0 == c && f[1].0 == c);
        }
    }
    assert(leaves_of(f).len() == 1);
    assert(merge_all(leaves_of(f)) == leaves_of(f)[0]);
    let t = code_table(text_tree(s));
    assert(t =~= seq![(c, seq![false])]);
    lemma_singleton_bits(t, s, c);
    if (c as int) <= 0xFF {
        assert(!has_wide_symbol(s));
        assert(storable(t));
        lemma_round_trip(s);
    }
}

} // verus!
