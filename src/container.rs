//! The binary container: header, code table, padding count, payload.

use vstd::prelude::*;

use crate::bits::{bits_of_value, lemma_bits_of_value_of, lemma_value_bound, value_of, value_of_bits};
use crate::codes::table_view;
use crate::HuffmanError;

verus! {

/// The serialized code table: symbols and codes in the same order, each code
/// as its length in bits and its value right-aligned in 64 bits.
pub struct Table {
    pub len_table: u32,
    pub chars: Vec<char>,
    pub codes: Vec<u64>,
    pub lengths: Vec<u8>,
}

/// Everything a compressed container holds.
pub struct HuffmanData {
    pub message: Vec<u8>,
    pub extra_bits: u8,
    pub table: Table,
}

/// The table's fields agree in length and every symbol fits in one byte.
pub open spec fn table_wf(t: Table) -> bool {
    &&& t.len_table as nat == t.chars@.len()
    &&& t.codes@.len() == t.chars@.len()
    &&& t.lengths@.len() == t.chars@.len()
    &&& forall|i: int| 0 <= i < t.chars@.len() ==> (#[trigger] t.chars@[i] as int) <= 0xFF
}

/// The code table a serialized table stands for.
pub open spec fn table_entries(t: Table) -> Seq<(char, Seq<bool>)> {
    Seq::new(
        t.chars@.len(),
        |i: int| (t.chars@[i], bits_of_value(t.codes@[i] as nat, t.lengths@[i] as nat)),
    )
}

/// The big-endian bytes of the lowest `n` bytes of `v`.
pub open spec fn be_bytes(v: nat, n: nat) -> Seq<u8>
    decreases n,
{
    if n == 0 {
        Seq::empty()
    } else {
        be_bytes(v / 256, (n - 1) as nat).push((v % 256) as u8)
    }
}

/// The number whose big-endian bytes are `b`.
pub open spec fn be_value(b: Seq<u8>) -> nat
    decreases b.len(),
{
    if b.len() == 0 {
        0
    } else {
        256 * be_value(b.drop_last()) + b.last() as nat
    }
}

pub open spec fn pow256(n: nat) -> nat
    decreases n,
{
    if n == 0 {
        1
    } else {
        256 * pow256((n - 1) as nat)
    }
}

/// Each entry: its length byte, then its value as eight big-endian bytes.
pub open spec fn entry_bytes(codes: Seq<u64>, lengths: Seq<u8>) -> Seq<u8>
    decreases codes.len(),
{
    if codes.len() == 0 || lengths.len() == 0 {
        Seq::empty()
    } else {
        entry_bytes(codes.drop_last(), lengths.drop_last()) + seq![lengths.last()] + be_bytes(codes.last() as nat, 8)
    }
}

pub open spec fn symbol_bytes(chars: Seq<char>) -> Seq<u8> {
    chars.map(|i: int, c: char| c as u8)
}

/// The container: entry count (4 bytes, big-endian), the symbols (one byte
/// each), the codes, the padding bit count (1 byte), the packed bytes.
pub open spec fn container_bytes(d: HuffmanData) -> Seq<u8> {
    be_bytes(d.table.len_table as nat, 4) + symbol_bytes(d.table.chars@) + entry_bytes(
        d.table.codes@,
        d.table.lengths@,
    ) + seq![d.extra_bits] + d.message@
}

/// The entry count a container's header gives.
pub open spec fn header_count(b: Seq<u8>) -> nat {
    be_value(b.take(4))
}

/// The container is long enough for its header and holds at least one entry.
pub open spec fn container_ok(b: Seq<u8>) -> bool {
    b.len() >= 4 && header_count(b) > 0 && b.len() >= 4 + 10 * header_count(b) + 1
}

/// What `parse_huffman_data` reads out of a well-formed container.
pub open spec fn parsed_from(d: HuffmanData, b: Seq<u8>) -> bool {
    let n = header_count(b) as int;
    &&& d.table.len_table as nat == n
    &&& table_wf(d.table)
    &&& d.table.chars@ == b.subrange(4, 4 + n).map(|i: int, x: u8| x as char)
    &&& forall|i: int| 0 <= i < n ==> #[trigger] d.table.lengths@[i] == b[4 + n + 9 * i]
    &&& forall|i: int| 0 <= i < n ==> #[trigger] d.table.codes@[i] as nat == be_value(
        b.subrange(4 + n + 9 * i + 1, 4 + n + 9 * i + 9),
    )
    &&& d.extra_bits == b[4 + 10 * n]
    &&& d.message@ == b.skip(4 + 10 * n + 1)
}

/// A code table can be stored: at most `u32::MAX` entries, codes of at most
/// 64 bits, symbols of one byte.
pub open spec fn storable(t: Seq<(char, Seq<bool>)>) -> bool {
    &&& t.len() <= u32::MAX
    &&& forall|i: int| 0 <= i < t.len() ==> #[trigger] t[i].1.len() <= 64
    &&& forall|i: int| 0 <= i < t.len() ==> (#[trigger] t[i].0 as int) <= 0xFF
}

pub proof fn lemma_be_value_bound(b: Seq<u8>)
    ensures
        be_value(b) < pow256(b.len()),
    decreases b.len(),
{
    if b.len() > 0 {
        lemma_be_value_bound(b.drop_last());
    }
}

pub proof fn lemma_be_round_trip(v: nat, n: nat)
    requires
        v < pow256(n),
    ensures
        be_bytes(v, n).len() == n,
        be_value(be_bytes(v, n)) == v,
    decreases n,
{
    if n > 0 {
        assert(v / 256 < pow256((n - 1) as nat));
        lemma_be_round_trip(v / 256, (n - 1) as nat);
        assert(be_bytes(v, n).drop_last() == be_bytes(v / 256, (n - 1) as nat));
    }
}

proof fn lemma_pow256()
    ensures
        pow256(8) == 0x1_0000_0000_0000_0000,
        pow256(4) == 0x1_0000_0000,
{
    reveal_with_fuel(pow256, 9);
}

proof fn lemma_pow256_mono(a: nat, b: nat)
    requires
        a <= b,
    ensures
        pow256(a) <= pow256(b),
    decreases b,
{
    if a < b {
        lemma_pow256_mono(a, (b - 1) as nat);
    }
}

pub(crate) proof fn lemma_entry_bytes(codes: Seq<u64>, lengths: Seq<u8>)
    requires
        codes.len() == lengths.len(),
    ensures
        entry_bytes(codes, lengths).len() == 9 * codes.len(),
        forall|i: int| 0 <= i < codes.len() ==> #[trigger] entry_bytes(codes, lengths)[9 * i] == lengths[i],
        forall|i: int|
            0 <= i < codes.len() ==> #[trigger] entry_bytes(codes, lengths).subrange(9 * i + 1, 9 * i + 9)
                == be_bytes(codes[i] as nat, 8),
    decreases codes.len(),
{
    if codes.len() > 0 {
        let c0 = codes.drop_last();
        let l0 = lengths.drop_last();
        lemma_entry_bytes(c0, l0);
        lemma_pow256();
        lemma_be_round_trip(codes.last() as nat, 8);
        let e0 = entry_bytes(c0, l0);
        let e = entry_bytes(codes, lengths);
        let n = codes.len() - 1;
        assert(e == e0 + seq![lengths.last()] + be_bytes(codes.last() as nat, 8));
        assert forall|i: int| 0 <= i < codes.len() implies #[trigger] e[9 * i] == lengths[i] by {
            if i < n {
                assert(e[9 * i] == e0[9 * i]);
                assert(c0[i] == codes[i]);
            }
        }
        assert forall|i: int| 0 <= i < codes.len() implies #[trigger] e.subrange(9 * i + 1, 9 * i + 9) == be_bytes(
            codes[i] as nat,
            8,
        ) by {
            if i < n {
                assert(e.subrange(9 * i + 1, 9 * i + 9) =~= e0.subrange(9 * i + 1, 9 * i + 9));
            } else {
                assert(e.subrange(9 * i + 1, 9 * i + 9) =~= be_bytes(codes.last() as nat, 8));
            }
        }
    }
}

/// Appends the lowest `n` bytes of `v`, big-endian.
fn push_be(v: u64, n: u8, out: &mut Vec<u8>)
    ensures
        final(out)@ == old(out)@ + be_bytes(v as nat, n as nat),
    decreases n,
{
    if n > 0 {
        push_be(v / 256, n - 1, out);
        out.push((v % 256) as u8);
    } else {
        assert(old(out)@ + Seq::<u8>::empty() =~= old(out)@);
    }
}

/// Appends `v` as eight big-endian bytes.
pub fn write_u64_be(out: &mut Vec<u8>, v: u64)
    ensures
        final(out)@ == old(out)@ + be_bytes(v as nat, 8),
{
    push_be(v, 8, out);
}

/// The number whose big-endian bytes are `b[at..at + n]`.
fn read_be(b: &Vec<u8>, at: usize, n: usize) -> (r: u64)
    requires
        n <= 8,
        at + n <= b@.len(),
    ensures
        r as nat == be_value(b@.subrange(at as int, at + n)),
{
    let ghost s = b@.subrange(at as int, at + n);
    let mut v: u64 = 0;
    let mut j: usize = 0;
    while j < n
        invariant
            j <= n <= 8,
            at + n <= b.len(),
            s == b@.subrange(at as int, at + n),
            v as nat == be_value(s.take(j as int)),
        decreases n - j,
    {
        proof {
            lemma_be_value_bound(s.take(j as int));
            lemma_pow256();
            lemma_pow256_mono((j + 1) as nat, 8);
            assert(s.take(j as int + 1).drop_last() =~= s.take(j as int));
        }
        v = 256 * v + b[at + j] as u64;
        j = j + 1;
    }
    assert(s.take(j as int) =~= s);
    v
}

/// Reads the eight big-endian bytes at `at` as a number.
pub fn read_u64_be(b: &Vec<u8>, at: usize) -> (r: u64)
    requires
        at + 8 <= b@.len(),
    ensures
        r as nat == be_value(b@.subrange(at as int, at + 8)),
{
    read_be(b, at, 8)
}

/// The serialized form of a code table. Fails with `UnassignableCode` when
/// it cannot be stored (see `storable`).
pub fn encode_table(dict: &Vec<(char, Vec<bool>)>) -> (r: Result<Table, HuffmanError>)
    ensures
        storable(table_view(dict@)) <==> r is Ok,
        !storable(table_view(dict@)) ==> r == Err::<Table, HuffmanError>(HuffmanError::UnassignableCode),
        r matches Ok(t) ==> table_wf(t) && table_entries(t) == table_view(dict@),
        r matches Ok(t) ==> forall|k: int|
            0 <= k < dict@.len() ==> {
                &&& #[trigger] t.chars@[k] == dict@[k].0
                &&& t.lengths@[k] as nat == dict@[k].1@.len()
                &&& t.codes@[k] as nat == value_of(dict@[k].1@)
            },
{
    let ghost tv = table_view(dict@);
    if dict.len() > 0xFFFF_FFFF {
        return Err(HuffmanError::UnassignableCode);
    }
    let mut chars: Vec<char> = Vec::new();
    let mut codes: Vec<u64> = Vec::new();
    let mut lengths: Vec<u8> = Vec::new();
    let mut i: usize = 0;
    while i < dict.len()
        invariant
            i <= dict@.len() <= u32::MAX,
            tv == table_view(dict@),
            storable(tv.take(i as int)),
            chars@.len() == i && codes@.len() == i && lengths@.len() == i,
            forall|k: int| 0 <= k < i ==> #[trigger] chars@[k] == tv[k].0,
            forall|k: int| 0 <= k < i ==> #[trigger] lengths@[k] as nat == tv[k].1.len(),
            forall|k: int| 0 <= k < i ==> #[trigger] codes@[k] as nat == value_of(tv[k].1),
        decreases dict@.len() - i,
    {
        let (c, code) = (dict[i].0, &dict[i].1);
        if code.len() > 64 || c > '\u{FF}' {
            proof {
                assert(tv[i as int].1 == code@);
                assert(!storable(tv)) by {
                    if code@.len() > 64 {
                        assert(tv[i as int].1.len() > 64);
                    } else {
                        assert((tv[i as int].0 as int) > 0xFF);
                    }
                }
            }
            return Err(HuffmanError::UnassignableCode);
        }
        chars.push(c);
        codes.push(value_of_bits(code));
        lengths.push(code.len() as u8);
        proof {
            let t1 = tv.take(i as int + 1);
            assert forall|k: int| 0 <= k < t1.len() implies #[trigger] t1[k].1.len() <= 64 by {
                if k < i {
                    assert(t1[k] == tv.take(i as int)[k]);
                }
            }
            assert forall|k: int| 0 <= k < t1.len() implies (#[trigger] t1[k].0 as int) <= 0xFF by {
                if k < i {
                    assert(t1[k] == tv.take(i as int)[k]);
                }
            }
        }
        i = i + 1;
    }
    assert(tv.take(i as int) =~= tv);
    let t = Table { len_table: dict.len() as u32, chars, codes, lengths };
    proof {
        assert forall|k: int| 0 <= k < t.chars@.len() implies #[trigger] table_entries(t)[k] == tv[k] by {
            lemma_value_bound(tv[k].1);
            lemma_bits_of_value_of(tv[k].1);
        }
        assert(table_entries(t) =~= tv);
        assert forall|k: int| 0 <= k < t.chars@.len() implies (#[trigger] t.chars@[k] as int) <= 0xFF by {
            assert(tv.take(i as int)[k] == tv[k]);
        }
    }
    Ok(t)
}

/// The code table of a serialized table, codes as bit strings.
pub fn table_codes(t: &Table) -> (r: Vec<(char, Vec<bool>)>)
    requires
        table_wf(*t),
    ensures
        table_view(r@) == table_entries(*t),
{
    let mut out: Vec<(char, Vec<bool>)> = Vec::new();
    let mut i: usize = 0;
    while i < t.chars.len()
        invariant
            i <= t.chars@.len(),
            table_wf(*t),
            table_view(out@) == table_entries(*t).take(i as int),
        decreases t.chars@.len() - i,
    {
        let mut code: Vec<bool> = Vec::new();
        crate::bits::push_value_bits(t.codes[i], t.lengths[i], &mut code);
        assert(Seq::<bool>::empty() + bits_of_value(t.codes@[i as int] as nat, t.lengths@[i as int] as nat)
            =~= bits_of_value(t.codes@[i as int] as nat, t.lengths@[i as int] as nat));
        let ghost old_out = out@;
        let ghost cv = code@;
        out.push((t.chars[i], code));
        assert(table_view(out@) =~= table_view(old_out).push((t.chars@[i as int], cv)));
        assert(table_view(out@) =~= table_entries(*t).take(i as int + 1));
        i = i + 1;
    }
    assert(table_entries(*t).take(i as int) =~= table_entries(*t));
    out
}

/// The container's bytes.
pub fn serialize_huffman_data(data: &HuffmanData) -> (r: Vec<u8>)
    requires
        table_wf(data.table),
    ensures
        r@ == container_bytes(*data),
{
    let t = &data.table;
    let mut out: Vec<u8> = Vec::new();
    push_be(t.len_table as u64, 4, &mut out);
    let ghost head = out@;
    let mut i: usize = 0;
    while i < t.chars.len()
        invariant
            i <= t.chars@.len(),
            table_wf(*t),
            out@ == head + symbol_bytes(t.chars@.take(i as int)),
        decreases t.chars@.len() - i,
    {
        let c = t.chars[i];
        assert((c as int) <= 0xFF);
        out.push(c as u8);
        assert(symbol_bytes(t.chars@.take(i as int + 1)) =~= symbol_bytes(t.chars@.take(i as int)).push(c as u8));
        i = i + 1;
    }
    assert(t.chars@.take(i as int) =~= t.chars@);
    let ghost mid = out@;
    let mut k: usize = 0;
    while k < t.codes.len()
        invariant
            k <= t.codes@.len(),
            table_wf(*t),
            out@ == mid + entry_bytes(t.codes@.take(k as int), t.lengths@.take(k as int)),
        decreases t.codes@.len() - k,
    {
        assert(t.codes@.take(k as int + 1).drop_last() =~= t.codes@.take(k as int));
        assert(t.lengths@.take(k as int + 1).drop_last() =~= t.lengths@.take(k as int));
        out.push(t.lengths[k]);
        push_be(t.codes[k], 8, &mut out);
        k = k + 1;
    }
    assert(t.codes@.take(k as int) =~= t.codes@);
    assert(t.lengths@.take(k as int) =~= t.lengths@);
    out.push(data.extra_bits);
    let ghost tail = out@;
    let mut m: usize = 0;
    while m < data.message.len()
        invariant
            m <= data.message@.len(),
            out@ == tail + data.message@.take(m as int),
        decreases data.message@.len() - m,
    {
        out.push(data.message[m]);
        assert(data.message@.take(m as int + 1) =~= data.message@.take(m as int).push(data.message@[m as int]));
        m = m + 1;
    }
    assert(data.message@.take(m as int) =~= data.message@);
    assert(out@ =~= container_bytes(*data));
    out
}

/// Reads a container. Fails with `MalformedContainer` when it is shorter than
/// its header implies or declares no entry.
pub fn parse_huffman_data(bytes: &Vec<u8>) -> (r: Result<HuffmanData, HuffmanError>)
    ensures
        !container_ok(bytes@) <==> r == Err::<HuffmanData, HuffmanError>(HuffmanError::MalformedContainer),
        container_ok(bytes@) <==> r is Ok,
        r matches Ok(d) ==> parsed_from(d, bytes@),
{
    if bytes.len() < 4 {
        return Err(HuffmanError::MalformedContainer);
    }
    let n = read_be(bytes, 0, 4);
    proof {
        assert(bytes@.subrange(0, 4) =~= bytes@.take(4));
        lemma_be_value_bound(bytes@.take(4));
        lemma_pow256();
    }
    if n == 0 || (bytes.len() as u64) < 10 * n + 5 {
        return Err(HuffmanError::MalformedContainer);
    }
    let n = n as usize;
    let ghost b = bytes@;
    let ghost ni = n as int;
    let mut chars: Vec<char> = Vec::new();
    let mut i: usize = 0;
    while i < n
        invariant
            i <= n,
            ni == n,
            b == bytes@,
            4 + 10 * ni + 1 <= bytes.len(),
            chars@ == b.subrange(4, 4 + i).map(|q: int, x: u8| x as char),
            forall|q: int| 0 <= q < i ==> (#[trigger] chars@[q] as int) <= 0xFF,
        decreases n - i,
    {
        let c = bytes[4 + i] as char;
        chars.push(c);
        assert(b.subrange(4, 4 + i + 1).map(|q: int, x: u8| x as char) =~= b.subrange(4, 4 + i).map(
            |q: int, x: u8| x as char,
        ).push(c));
        i = i + 1;
    }
    let base = 4 + n;
    let mut codes: Vec<u64> = Vec::new();
    let mut lengths: Vec<u8> = Vec::new();
    let mut k: usize = 0;
    while k < n
        invariant
            k <= n,
            ni == n,
            base == 4 + n,
            b == bytes@,
            4 + 10 * ni + 1 <= bytes.len(),
            codes@.len() == k && lengths@.len() == k,
            forall|q: int| 0 <= q < k ==> #[trigger] lengths@[q] == b[4 + ni + 9 * q],
            forall|q: int| 0 <= q < k ==> #[trigger] codes@[q] as nat == be_value(
                b.subrange(4 + ni + 9 * q + 1, 4 + ni + 9 * q + 9),
            ),
        decreases n - k,
    {
        let at = base + 9 * k;
        lengths.push(bytes[at]);
        codes.push(read_be(bytes, at + 1, 8));
        k = k + 1;
    }
    let extra_bits = bytes[base + 9 * n];
    let mut message: Vec<u8> = Vec::new();
    let start = base + 9 * n + 1;
    let mut m: usize = start;
    while m < bytes.len()
        invariant
            start <= m <= b.len(),
            b == bytes@,
            message@ == b.subrange(start as int, m as int),
        decreases b.len() - m,
    {
        message.push(bytes[m]);
        assert(b.subrange(start as int, m + 1) =~= b.subrange(start as int, m as int).push(b[m as int]));
        m = m + 1;
    }
    assert(message@ =~= b.skip(start as int));
    let d = HuffmanData {
        message,
        extra_bits,
        table: Table { len_table: n as u32, chars, codes, lengths },
    };
    assert(parsed_from(d, bytes@));
    Ok(d)
}

} // verus!
