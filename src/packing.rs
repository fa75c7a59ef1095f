//! Bit packing into bytes and greedy decoding against a code table.

use vstd::prelude::*;

use crate::bits::{
    bits_of_value, lemma_value_of_bits_of, lemma_bits_of_value_len, lemma_bits_of_value_of, lemma_pow2_64, lemma_value_bound,
    pow2, value_of, zeros,
};
use crate::codes::{is_prefix, prefix_free, table_view};
use crate::HuffmanError;

verus! {

/// `k` is the first entry of `t` for symbol `c`.
pub open spec fn first_for_symbol(t: Seq<(char, Seq<bool>)>, c: char, k: int) -> bool {
    0 <= k < t.len() && t[k].0 == c && forall|m: int| 0 <= m < k ==> t[m].0 != c
}

/// `k` is the first entry of `t` with code `code`.
pub open spec fn first_for_code(t: Seq<(char, Seq<bool>)>, code: Seq<bool>, k: int) -> bool {
    0 <= k < t.len() && t[k].1 == code && forall|m: int| 0 <= m < k ==> t[m].1 != code
}

/// Every symbol of `s` has an entry in `t`.
pub open spec fn covers(t: Seq<(char, Seq<bool>)>, s: Seq<char>) -> bool {
    forall|i: int| 0 <= i < s.len() ==> exists|k: int| 0 <= k < t.len() && t[k].0 == #[trigger] s[i]
}

/// The code the encoder uses for `c`: that of its first entry.
pub open spec fn code_for(t: Seq<(char, Seq<bool>)>, c: char) -> Seq<bool> {
    t[choose|k: int| first_for_symbol(t, c, k)].1
}

/// The symbol whose code is exactly `code`, if any.
pub open spec fn lookup(t: Seq<(char, Seq<bool>)>, code: Seq<bool>) -> Option<char> {
    if exists|k: int| first_for_code(t, code, k) {
        Some(t[choose|k: int| first_for_code(t, code, k)].0)
    } else {
        None
    }
}

/// The length of the longest code.
pub open spec fn max_code_len(t: Seq<(char, Seq<bool>)>) -> nat
    decreases t.len(),
{
    if t.len() == 0 {
        0
    } else {
        let m = max_code_len(t.drop_last());
        if t.last().1.len() > m {
            t.last().1.len()
        } else {
            m
        }
    }
}

/// The codes of the symbols of `s`, concatenated in order.
pub open spec fn encoded_bits(t: Seq<(char, Seq<bool>)>, s: Seq<char>) -> Seq<bool>
    decreases s.len(),
{
    if s.len() == 0 {
        Seq::empty()
    } else {
        encoded_bits(t, s.drop_last()) + code_for(t, s.last())
    }
}

/// How many zero bits complete the last byte of `n` bits.
pub open spec fn padding_for(n: nat) -> nat {
    if n % 8 == 0 {
        0
    } else {
        (8 - n % 8) as nat
    }
}

/// The bits of a byte sequence, most significant bit of each byte first.
pub open spec fn bytes_bits(b: Seq<u8>) -> Seq<bool>
    decreases b.len(),
{
    if b.len() == 0 {
        Seq::empty()
    } else {
        bytes_bits(b.drop_last()) + bits_of_value(b.last() as nat, 8)
    }
}

/// The bytes whose bits are `bits` followed by the padding zeros.
pub open spec fn packed(bits: Seq<bool>) -> Seq<u8> {
    choose|b: Seq<u8>| bytes_bits(b) == bits + zeros(padding_for(bits.len()))
}

pub proof fn lemma_bytes_bits_len(b: Seq<u8>)
    ensures
        bytes_bits(b).len() == 8 * b.len(),
    decreases b.len(),
{
    if b.len() > 0 {
        lemma_bytes_bits_len(b.drop_last());
        lemma_bits_of_value_len(b.last() as nat, 8);
    }
}

/// Distinct byte sequences have distinct bits.
pub proof fn lemma_bytes_bits_injective(a: Seq<u8>, b: Seq<u8>)
    requires
        bytes_bits(a) == bytes_bits(b),
    ensures
        a == b,
    decreases a.len(),
{
    lemma_bytes_bits_len(a);
    lemma_bytes_bits_len(b);
    if a.len() > 0 {
        let x = bytes_bits(a);
        let n = x.len() as int;
        lemma_bytes_bits_len(a.drop_last());
        lemma_bytes_bits_len(b.drop_last());
        lemma_bits_of_value_len(a.last() as nat, 8);
        lemma_bits_of_value_len(b.last() as nat, 8);
        assert(x.subrange(0, n - 8) =~= bytes_bits(a.drop_last()));
        assert(bytes_bits(b).subrange(0, n - 8) =~= bytes_bits(b.drop_last()));
        assert(x.subrange(n - 8, n) =~= bits_of_value(a.last() as nat, 8));
        assert(bytes_bits(b).subrange(n - 8, n) =~= bits_of_value(b.last() as nat, 8));
        lemma_pow2_64();
        lemma_value_of_bits_of(a.last() as nat, 8);
        lemma_value_of_bits_of(b.last() as nat, 8);
        lemma_bytes_bits_injective(a.drop_last(), b.drop_last());
        assert(a =~= a.drop_last().push(a.last()));
        assert(b =~= b.drop_last().push(b.last()));
    }
}

pub open spec fn then_symbols(out: Seq<char>, r: Option<Seq<char>>) -> Option<Seq<char>> {
    match r {
        Some(x) => Some(out + x),
        None => None,
    }
}

/// Greedy decoding: bits are added to the candidate `cur` one at a time; a
/// candidate equal to a code gives its symbol and starts afresh. `None` when a
/// candidate reaches the longest code length without a match, or bits are
/// left over that complete no code.
pub open spec fn decode_from(t: Seq<(char, Seq<bool>)>, cur: Seq<bool>, bits: Seq<bool>) -> Option<Seq<char>>
    decreases bits.len(),
{
    if bits.len() == 0 {
        if cur.len() == 0 {
            Some(Seq::empty())
        } else {
            None
        }
    } else {
        let c2 = cur.push(bits[0]);
        match lookup(t, c2) {
            Some(ch) => then_symbols(seq![ch], decode_from(t, Seq::empty(), bits.drop_first())),
            None => if c2.len() >= max_code_len(t) {
                None
            } else {
                decode_from(t, c2, bits.drop_first())
            },
        }
    }
}

pub proof fn lemma_first_symbol_exists(t: Seq<(char, Seq<bool>)>, c: char, k0: int)
    requires
        0 <= k0 < t.len(),
        t[k0].0 == c,
    ensures
        exists|k: int| first_for_symbol(t, c, k),
    decreases k0,
{
    if exists|m: int| 0 <= m < k0 && t[m].0 == c {
        let m = choose|m: int| 0 <= m < k0 && t[m].0 == c;
        lemma_first_symbol_exists(t, c, m);
    } else {
        assert(first_for_symbol(t, c, k0));
    }
}

proof fn lemma_max_code_len(t: Seq<(char, Seq<bool>)>, k: int)
    requires
        0 <= k < t.len(),
    ensures
        t[k].1.len() <= max_code_len(t),
    decreases t.len(),
{
    if k < t.len() - 1 {
        lemma_max_code_len(t.drop_last(), k);
    }
}

proof fn lemma_encoded_front(t: Seq<(char, Seq<bool>)>, s: Seq<char>)
    requires
        s.len() > 0,
    ensures
        encoded_bits(t, s) == code_for(t, s[0]) + encoded_bits(t, s.drop_first()),
    decreases s.len(),
{
    if s.len() > 1 {
        lemma_encoded_front(t, s.drop_last());
        assert(s.drop_last().drop_first() =~= s.drop_first().drop_last());
        assert(s.drop_last()[0] == s[0]);
        assert(s.drop_first().last() == s.last());
        let a = code_for(t, s[0]);
        let m = encoded_bits(t, s.drop_last().drop_first());
        let z = code_for(t, s.last());
        assert((a + m) + z =~= a + (m + z));
    } else {
        assert(s.drop_first() =~= Seq::<char>::empty());
        assert(encoded_bits(t, s.drop_last()) =~= Seq::<bool>::empty());
        let a = code_for(t, s[0]);
        assert(Seq::<bool>::empty() + a =~= a);
        assert(a + Seq::<bool>::empty() =~= a);
    }
}

/// Decoding the bits of one code, followed by anything, gives its symbol first.
proof fn lemma_decode_code(t: Seq<(char, Seq<bool>)>, k: int, m: int, rest: Seq<bool>)
    requires
        prefix_free(t),
        0 <= k < t.len(),
        0 <= m < t[k].1.len(),
    ensures
        decode_from(t, t[k].1.take(m), t[k].1.skip(m) + rest) == then_symbols(
            seq![t[k].0],
            decode_from(t, Seq::empty(), rest),
        ),
    decreases t[k].1.len() - m,
{
    let code = t[k].1;
    let bits = code.skip(m) + rest;
    let c2 = code.take(m).push(bits[0]);
    assert(c2 =~= code.take(m + 1));
    assert(bits.drop_first() =~= code.skip(m + 1) + rest);
    lemma_max_code_len(t, k);
    if m + 1 == code.len() {
        assert(c2 =~= code);
        assert(first_for_code(t, code, k)) by {
            assert forall|q: int| 0 <= q < k implies t[q].1 != code by {
                if t[q].1 == code {
                    assert(is_prefix(t[q].1, t[k].1)) by {
                        assert(code.subrange(0, code.len() as int) =~= code);
                    }
                }
            }
        }
        let kk = choose|q: int| first_for_code(t, code, q);
        assert(kk == k);
        assert(lookup(t, c2) == Some(t[k].0));
        assert(code.skip(m + 1) + rest =~= rest);
    } else {
        assert forall|q: int| !first_for_code(t, c2, q) by {
            if first_for_code(t, c2, q) {
                assert(q != k);
                assert(is_prefix(t[q].1, t[k].1)) by {
                    assert(code.subrange(0, m + 1) =~= c2);
                }
            }
        }
        assert(lookup(t, c2) == None::<char>);
        lemma_decode_code(t, k, m + 1, rest);
    }
}

/// Decoding the encoding of `s` with a prefix-free table that covers it gives `s`.
pub proof fn lemma_decode_encoded(t: Seq<(char, Seq<bool>)>, s: Seq<char>)
    requires
        prefix_free(t),
        forall|i: int| 0 <= i < t.len() ==> #[trigger] t[i].1.len() > 0,
        covers(t, s),
    ensures
        decode_from(t, Seq::empty(), encoded_bits(t, s)) == Some(s),
    decreases s.len(),
{
    if s.len() == 0 {
        assert(encoded_bits(t, s) =~= Seq::<bool>::empty());
    } else {
        lemma_encoded_front(t, s);
        let k0 = choose|k: int| 0 <= k < t.len() && t[k].0 == s[0];
        lemma_first_symbol_exists(t, s[0], k0);
        let k = choose|k: int| first_for_symbol(t, s[0], k);
        let rest = encoded_bits(t, s.drop_first());
        assert forall|i: int| 0 <= i < s.drop_first().len() implies exists|q: int|
            0 <= q < t.len() && t[q].0 == #[trigger] s.drop_first()[i] by {
            assert(s.drop_first()[i] == s[i + 1]);
        }
        lemma_decode_encoded(t, s.drop_first());
        lemma_decode_code(t, k, 0, rest);
        assert(t[k].1.take(0) =~= Seq::<bool>::empty());
        assert(t[k].1.skip(0) =~= t[k].1);
        assert(seq![s[0]] + s.drop_first() =~= s);
    }
}

/// Equality of two bit strings.
fn bits_equal(a: &Vec<bool>, b: &Vec<bool>) -> (r: bool)
    ensures
        r == (a@ == b@),
{
    if a.len() != b.len() {
        return false;
    }
    let mut i: usize = 0;
    while i < a.len()
        invariant
            a@.len() == b@.len(),
            i <= a@.len(),
            forall|m: int| 0 <= m < i ==> a@[m] == b@[m],
        decreases a@.len() - i,
    {
        if a[i] != b[i] {
            return false;
        }
        i = i + 1;
    }
    assert(a@ =~= b@);
    true
}

/// The position of the first entry for `c`, if any.
fn find_symbol(t: &Vec<(char, Vec<bool>)>, c: char) -> (r: Option<usize>)
    ensures
        match r {
            Some(k) => first_for_symbol(table_view(t@), c, k as int),
            None => forall|k: int| 0 <= k < t@.len() ==> t@[k].0 != c,
        },
{
    let mut k: usize = 0;
    while k < t.len()
        invariant
            k <= t@.len(),
            forall|m: int| 0 <= m < k ==> t@[m].0 != c,
        decreases t@.len() - k,
    {
        if t[k].0 == c {
            return Some(k);
        }
        k = k + 1;
    }
    None
}

/// The position of the first entry whose code is `code`, if any.
fn find_code(t: &Vec<(char, Vec<bool>)>, code: &Vec<bool>) -> (r: Option<usize>)
    ensures
        match r {
            Some(k) => first_for_code(table_view(t@), code@, k as int),
            None => forall|k: int| 0 <= k < t@.len() ==> t@[k].1@ != code@,
        },
{
    let mut k: usize = 0;
    while k < t.len()
        invariant
            k <= t@.len(),
            forall|m: int| 0 <= m < k ==> t@[m].1@ != code@,
        decreases t@.len() - k,
    {
        if bits_equal(&t[k].1, code) {
            return Some(k);
        }
        k = k + 1;
    }
    None
}

fn max_len(t: &Vec<(char, Vec<bool>)>) -> (r: usize)
    ensures
        r == max_code_len(table_view(t@)),
{
    let mut m: usize = 0;
    let mut k: usize = 0;
    while k < t.len()
        invariant
            k <= t@.len(),
            m == max_code_len(table_view(t@).take(k as int)),
        decreases t@.len() - k,
    {
        assert(table_view(t@).take(k as int + 1).drop_last() =~= table_view(t@).take(k as int));
        if t[k].1.len() > m {
            m = t[k].1.len();
        }
        k = k + 1;
    }
    assert(table_view(t@).take(k as int) =~= table_view(t@));
    m
}

/// The bits of `symbols` under the code table, each symbol's code in turn.
pub fn encode_bits(symbols: &Vec<char>, dict: &Vec<(char, Vec<bool>)>) -> (r: Vec<bool>)
    requires
        covers(table_view(dict@), symbols@),
    ensures
        r@ == encoded_bits(table_view(dict@), symbols@),
{
    let ghost t = table_view(dict@);
    let mut out: Vec<bool> = Vec::new();
    let mut i: usize = 0;
    while i < symbols.len()
        invariant
            i <= symbols@.len(),
            t == table_view(dict@),
            covers(t, symbols@),
            out@ == encoded_bits(t, symbols@.take(i as int)),
        decreases symbols@.len() - i,
    {
        let c = symbols[i];
        let k = match find_symbol(dict, c) {
            Some(k) => k,
            None => {
                assert(exists|q: int| 0 <= q < t.len() && t[q].0 == symbols@[i as int]);
                assert(false);
                0
            },
        };
        let ghost before = out@;
        let code = &dict[k].1;
        let mut j: usize = 0;
        while j < code.len()
            invariant
                j <= code@.len(),
                out@ == before + code@.take(j as int),
            decreases code@.len() - j,
        {
            out.push(code[j]);
            assert(code@.take(j as int + 1) =~= code@.take(j as int).push(code@[j as int]));
            j = j + 1;
        }
        proof {
            assert(code@.take(j as int) =~= code@);
            let kk = choose|q: int| first_for_symbol(t, c, q);
            assert(kk == k);
            assert(symbols@.take(i as int + 1).drop_last() =~= symbols@.take(i as int));
        }
        i = i + 1;
    }
    assert(symbols@.take(i as int) =~= symbols@);
    out
}

/// Packs bits into bytes, most significant bit first, the last byte filled up
/// with zero bits; returns the bytes and the number of those padding bits.
pub fn pack_bits(bits: &Vec<bool>) -> (r: (Vec<u8>, u8))
    ensures
        r.1 as nat == padding_for(bits@.len()),
        bytes_bits(r.0@) == bits@ + zeros(r.1 as nat),
        r.0@ == packed(bits@),
        r.1 == 0 <==> bits@.len() % 8 == 0,
        r.1 < 8,
{
    let mut padded: Vec<bool> = Vec::new();
    let mut i: usize = 0;
    while i < bits.len()
        invariant
            i <= bits@.len(),
            padded@ == bits@.take(i as int),
        decreases bits@.len() - i,
    {
        padded.push(bits[i]);
        assert(bits@.take(i as int + 1) =~= bits@.take(i as int).push(bits@[i as int]));
        i = i + 1;
    }
    assert(bits@.take(i as int) =~= bits@);
    let pad: u8 = if bits.len() % 8 == 0 { 0 } else { (8 - bits.len() % 8) as u8 };
    let mut p: u8 = 0;
    while p < pad
        invariant
            p <= pad,
            pad < 8,
            padded@ == bits@ + zeros(p as nat),
        decreases pad - p,
    {
        padded.push(false);
        assert(bits@ + zeros(p as nat + 1) =~= (bits@ + zeros(p as nat)).push(false));
        p = p + 1;
    }
    assert(padded@.len() % 8 == 0);
    let mut out: Vec<u8> = Vec::new();
    let mut k: usize = 0;
    while k < padded.len()
        invariant
            padded@.len() % 8 == 0,
            k % 8 == 0,
            k <= padded@.len(),
            bytes_bits(out@) == padded@.take(k as int),
        decreases padded@.len() - k,
    {
        assert(k + 8 <= padded.len()) by (nonlinear_arith)
            requires
                k % 8 == 0,
                padded.len() % 8 == 0,
                k < padded.len(),
        ;
        let ghost chunk = padded@.subrange(k as int, k as int + 8);
        let mut v: u8 = 0;
        let mut j: usize = 0;
        while j < 8
            invariant
                j <= 8,
                k + 8 <= padded.len(),
                chunk == padded@.subrange(k as int, k as int + 8),
                v as nat == value_of(chunk.take(j as int)),
            decreases 8 - j,
        {
            proof {
                lemma_value_bound(chunk.take(j as int));
                lemma_pow2_64();
                assert(pow2(j as nat) <= 128) by {
                    reveal_with_fuel(pow2, 9);
                }
                assert(chunk.take(j as int + 1).drop_last() =~= chunk.take(j as int));
            }
            v = 2 * v + if padded[k + j] { 1u8 } else { 0u8 };
            j = j + 1;
        }
        proof {
            assert(chunk.take(8) =~= chunk);
            lemma_bits_of_value_of(chunk);
            assert(out@.push(v).drop_last() =~= out@);
            assert(padded@.take(k as int + 8) =~= padded@.take(k as int) + chunk);
        }
        out.push(v);
        k = k + 8;
    }
    assert(padded@.take(k as int) =~= padded@);
    proof {
        let b = packed(bits@);
        lemma_bytes_bits_injective(b, out@);
    }
    (out, pad)
}

/// The bits of `bytes`, most significant bit of each byte first.
pub fn unpack_bytes(bytes: &Vec<u8>) -> (r: Vec<bool>)
    ensures
        r@ == bytes_bits(bytes@),
{
    let mut out: Vec<bool> = Vec::new();
    let mut i: usize = 0;
    while i < bytes.len()
        invariant
            i <= bytes@.len(),
            out@ == bytes_bits(bytes@.take(i as int)),
        decreases bytes@.len() - i,
    {
        crate::bits::push_value_bits(bytes[i] as u64, 8, &mut out);
        assert(bytes@.take(i as int + 1).drop_last() =~= bytes@.take(i as int));
        i = i + 1;
    }
    assert(bytes@.take(i as int) =~= bytes@);
    out
}

/// Greedy decoding of `bits` with the code table (see `decode_from`).
pub fn decode_bits(dict: &Vec<(char, Vec<bool>)>, bits: &Vec<bool>) -> (r: Result<Vec<char>, HuffmanError>)
    ensures
        match decode_from(table_view(dict@), Seq::empty(), bits@) {
            Some(s) => r matches Ok(v) && v@ == s,
            None => r == Err::<Vec<char>, HuffmanError>(HuffmanError::CorruptData),
        },
{
    let ghost t = table_view(dict@);
    let limit = max_len(dict);
    let mut out: Vec<char> = Vec::new();
    let mut cur: Vec<bool> = Vec::new();
    let mut i: usize = 0;
    proof {
        assert(bits@.skip(0) =~= bits@);
        match decode_from(t, Seq::empty(), bits@) {
            Some(x) => {
                assert(Seq::<char>::empty() + x =~= x);
            },
            None => {},
        }
    }
    while i < bits.len()
        invariant
            i <= bits@.len(),
            t == table_view(dict@),
            limit == max_code_len(t),
            decode_from(t, Seq::empty(), bits@) == then_symbols(out@, decode_from(t, cur@, bits@.skip(i as int))),
        decreases bits@.len() - i,
    {
        let ghost rest = bits@.skip(i as int);
        let ghost old_out = out@;
        let ghost old_cur = cur@;
        assert(rest.drop_first() =~= bits@.skip(i as int + 1));
        cur.push(bits[i]);
        match find_code(dict, &cur) {
            Some(k) => {
                let c = dict[k].0;
                proof {
                    let kk = choose|q: int| first_for_code(t, cur@, q);
                    assert(first_for_code(t, cur@, k as int));
                    assert(kk == k);
                    match decode_from(t, Seq::empty(), bits@.skip(i as int + 1)) {
                        Some(x) => {
                            assert(old_out + (seq![c] + x) =~= old_out.push(c) + x);
                        },
                        None => {},
                    }
                }
                out.push(c);
                cur = Vec::new();
            },
            None => {
                proof {
                    assert(!exists|q: int| first_for_code(t, cur@, q));
                }
                if cur.len() >= limit {
                    return Err(HuffmanError::CorruptData);
                }
            },
        }
        i = i + 1;
    }
    if cur.len() > 0 {
        return Err(HuffmanError::CorruptData);
    }
    assert(out@ + Seq::<char>::empty() =~= out@);
    Ok(out)
}

} // verus!
