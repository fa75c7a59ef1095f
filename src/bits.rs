//! Bit strings as numbers: most-significant-first digits, and back.

use vstd::prelude::*;

verus! {

/// The number whose binary digits, most significant first, are `b`.
pub open spec fn value_of(b: Seq<bool>) -> nat
    decreases b.len(),
{
    if b.len() == 0 {
        0
    } else {
        2 * value_of(b.drop_last()) + if b.last() { 1nat } else { 0nat }
    }
}

/// The lowest `len` binary digits of `v`, most significant first.
pub open spec fn bits_of_value(v: nat, len: nat) -> Seq<bool>
    decreases len,
{
    if len == 0 {
        Seq::empty()
    } else {
        bits_of_value(v / 2, (len - 1) as nat).push(v % 2 == 1)
    }
}

pub open spec fn pow2(n: nat) -> nat
    decreases n,
{
    if n == 0 {
        1
    } else {
        2 * pow2((n - 1) as nat)
    }
}

/// `n` zero bits.
pub open spec fn zeros(n: nat) -> Seq<bool> {
    Seq::new(n, |i: int| false)
}

pub proof fn lemma_value_bound(b: Seq<bool>)
    ensures
        value_of(b) < pow2(b.len()),
    decreases b.len(),
{
    if b.len() > 0 {
        lemma_value_bound(b.drop_last());
    }
}

/// Reading back the digits of a value gives the digits it was made from.
pub proof fn lemma_bits_of_value_of(b: Seq<bool>)
    ensures
        bits_of_value(value_of(b), b.len()) == b,
    decreases b.len(),
{
    if b.len() > 0 {
        let v = value_of(b);
        let d = value_of(b.drop_last());
        assert(v / 2 == d);
        assert(v % 2 == 1 <==> b.last());
        lemma_bits_of_value_of(b.drop_last());
        assert(b.drop_last().push(b.last()) =~= b);
    }
}

/// The digits of a value that fits in `len` digits give the value back.
pub proof fn lemma_value_of_bits_of(v: nat, len: nat)
    requires
        v < pow2(len),
    ensures
        value_of(bits_of_value(v, len)) == v,
    decreases len,
{
    if len > 0 {
        lemma_value_of_bits_of(v / 2, (len - 1) as nat);
        assert(bits_of_value(v, len).drop_last() == bits_of_value(v / 2, (len - 1) as nat));
    }
}

pub proof fn lemma_bits_of_value_len(v: nat, len: nat)
    ensures
        bits_of_value(v, len).len() == len,
    decreases len,
{
    if len > 0 {
        lemma_bits_of_value_len(v / 2, (len - 1) as nat);
    }
}

pub proof fn lemma_pow2_64()
    ensures
        pow2(64) == 0x1_0000_0000_0000_0000,
        pow2(8) == 256,
{
    reveal_with_fuel(pow2, 65);
}

/// Appends the lowest `len` binary digits of `v`, most significant first.
pub fn push_value_bits(v: u64, len: u8, out: &mut Vec<bool>)
    ensures
        final(out)@ == old(out)@ + bits_of_value(v as nat, len as nat),
    decreases len,
{
    if len > 0 {
        push_value_bits(v / 2, len - 1, out);
        out.push(v % 2 == 1);
    } else {
        assert(old(out)@ + Seq::<bool>::empty() =~= old(out)@);
    }
}

/// The number whose binary digits, most significant first, are `b`.
pub fn value_of_bits(b: &Vec<bool>) -> (r: u64)
    requires
        b@.len() <= 64,
    ensures
        r as nat == value_of(b@),
{
    let mut v: u64 = 0;
    let mut i: usize = 0;
    while i < b.len()
        invariant
            i <= b@.len() <= 64,
            v as nat == value_of(b@.take(i as int)),
        decreases b@.len() - i,
    {
        proof {
            lemma_value_bound(b@.take(i as int));
            lemma_pow2_64();
            assert(pow2(i as nat) * 2 == pow2((i + 1) as nat));
            assert(b@.take(i as int + 1).drop_last() =~= b@.take(i as int));
            if i + 1 <= 64 {
                lemma_pow2_mono((i + 1) as nat, 64);
            }
        }
        v = 2 * v + if b[i] { 1u64 } else { 0u64 };
        i = i + 1;
    }
    assert(b@.take(i as int) =~= b@);
    v
}

pub proof fn lemma_pow2_mono(a: nat, b: nat)
    requires
        a <= b,
    ensures
        pow2(a) <= pow2(b),
    decreases b,
{
    if a < b {
        lemma_pow2_mono(a, (b - 1) as nat);
    }
}

} // verus!
