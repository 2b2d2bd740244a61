//! Little-endian integers of a fixed width, as sequences of bytes.
use vstd::arithmetic::power::pow;
use vstd::prelude::*;

verus! {

/// The `n` low-order bytes of `v`, least significant byte first.
pub open spec fn le_bytes(v: nat, n: nat) -> Seq<u8>
    decreases n,
{
    if n == 0 {
        Seq::empty()
    } else {
        seq![(v % 256) as u8] + le_bytes(v / 256, (n - 1) as nat)
    }
}

/// The number that `s` holds, least significant byte first.
pub open spec fn le_value(s: Seq<u8>) -> nat
    decreases s.len(),
{
    if s.len() == 0 {
        0
    } else {
        s[0] as nat + 256 * le_value(s.drop_first())
    }
}

/// How many values `n` bytes can hold.
pub open spec fn byte_range(n: nat) -> nat
    decreases n,
{
    if n == 0 {
        1
    } else {
        256 * byte_range((n - 1) as nat)
    }
}

/// The widths that the formats of this crate use.
pub proof fn lemma_byte_ranges()
    ensures
        byte_range(1) == 0x100,
        byte_range(2) == 0x1_0000,
        byte_range(4) == 0x1_0000_0000,
        byte_range(8) == 0x1_0000_0000_0000_0000,
{
    reveal_with_fuel(byte_range, 9);
}

pub proof fn lemma_byte_range_monotone(a: nat, b: nat)
    requires
        a <= b,
    ensures
        byte_range(a) <= byte_range(b),
        0 < byte_range(a),
    decreases b,
{
    if b == 0 {
    } else if a == b {
        lemma_byte_range_monotone((a - 1) as nat, (b - 1) as nat);
    } else {
        lemma_byte_range_monotone(a, (b - 1) as nat);
    }
}

pub proof fn lemma_le_bytes_len(v: nat, n: nat)
    ensures
        le_bytes(v, n).len() == n,
    decreases n,
{
    if n > 0 {
        lemma_le_bytes_len(v / 256, (n - 1) as nat);
    }
}

pub proof fn lemma_le_value_bound(s: Seq<u8>)
    ensures
        le_value(s) < byte_range(s.len()),
    decreases s.len(),
{
    if s.len() > 0 {
        lemma_le_value_bound(s.drop_first());
    }
}

/// Law: a number that fits in `n` bytes is read back from its `n` bytes.
pub proof fn law_le_round_trip(v: nat, n: nat)
    requires
        v < byte_range(n),
    ensures
        le_bytes(v, n).len() == n,
        le_value(le_bytes(v, n)) == v,
    decreases n,
{
    if n > 0 {
        let rest = le_bytes(v / 256, (n - 1) as nat);
        law_le_round_trip(v / 256, (n - 1) as nat);
        assert(le_bytes(v, n).drop_first() =~= rest);
    }
}

/// Law: bytes are written again from the number that they hold.
pub proof fn law_le_bytes_of_value(s: Seq<u8>)
    ensures
        le_bytes(le_value(s), s.len()) == s,
    decreases s.len(),
{
    if s.len() > 0 {
        law_le_bytes_of_value(s.drop_first());
        let v = le_value(s);
        assert(v % 256 == s[0] as nat && v / 256 == le_value(s.drop_first()));
        assert(seq![s[0]] + s.drop_first() =~= s);
    } else {
        assert(s =~= Seq::empty());
    }
}

/// Appends the `width` low-order bytes of `value`, least significant byte first.
pub fn put_le(out: &mut Vec<u8>, value: u64, width: usize)
    ensures
        final(out)@ == old(out)@ + le_bytes(value as nat, width as nat),
{
    let mut rest: u64 = value;
    let mut left: usize = width;
    while left > 0
        invariant
            left <= width,
            out@ + le_bytes(rest as nat, left as nat) == old(out)@ + le_bytes(
                value as nat,
                width as nat,
            ),
        decreases left,
    {
        let ghost before = out@;
        out.push((rest % 256) as u8);
        assert(out@ + le_bytes((rest / 256) as nat, (left - 1) as nat) =~= before + le_bytes(
            rest as nat,
            left as nat,
        ));
        rest = rest / 256;
        left = left - 1;
    }
    assert(out@ + le_bytes(rest as nat, 0) =~= out@);
}

/// The number in the `width` bytes of `data` that begin at `at`.
pub fn get_le(data: &[u8], at: usize, width: usize) -> (value: u64)
    requires
        at + width <= data@.len(),
        width <= 8,
    ensures
        value == le_value(data@.subrange(at as int, at + width)),
        value < byte_range(width as nat),
{
    let ghost whole = data@.subrange(at as int, at + width);
    let mut value: u64 = 0;
    let mut left: usize = width;
    assert(whole.subrange(width as int, width as int) =~= Seq::empty());
    while left > 0
        invariant
            left <= width <= 8,
            at + width <= data.len(),
            whole == data@.subrange(at as int, at + width),
            value == le_value(whole.subrange(left as int, width as int)),
        decreases left,
    {
        proof {
            let tail = whole.subrange(left as int, width as int);
            lemma_le_value_bound(tail);
            lemma_byte_range_monotone(tail.len(), 7);
            assert(byte_range(7) == 0x100_0000_0000_0000) by {
                reveal_with_fuel(byte_range, 8);
            }
            assert(whole.subrange(left - 1, width as int).drop_first() =~= tail);
        }
        left = left - 1;
        value = data[at + left] as u64 + 256 * value;
    }
    proof {
        assert(whole.subrange(0, width as int) =~= whole);
        lemma_le_value_bound(whole);
    }
    value
}

/// Law: the byte at each place is the digit of the number to the base of 256 that counts as many
/// powers, the lowest first; and bytes stand for the sum of what they count.
pub proof fn law_lowest_byte_comes_first(v: nat, n: nat, i: int, s: Seq<u8>, byte: u8)
    requires
        0 <= i < n,
    ensures
        le_bytes(v, n).len() == n,
        le_bytes(v, n)[i] == (v as int / pow(256, i as nat)) % 256,
        le_value(s.push(byte)) == le_value(s) + byte * pow(256, s.len()),
        le_value(Seq::empty()) == 0,
{
    lemma_le_bytes_len(v, n);
    lemma_le_byte(v, n, i);
    lemma_le_value_push(s, byte);
}

proof fn lemma_le_byte(v: nat, n: nat, i: int)
    requires
        0 <= i < n,
    ensures
        le_bytes(v, n).len() == n,
        le_bytes(v, n)[i] == (v as int / pow(256, i as nat)) % 256,
    decreases n,
{
    lemma_le_bytes_len(v, n);
    lemma_le_bytes_len(v / 256, (n - 1) as nat);
    if i == 0 {
        vstd::arithmetic::power::lemma_pow0(256);
    } else {
        lemma_le_byte(v / 256, (n - 1) as nat, i - 1);
        let p = pow(256, (i - 1) as nat);
        vstd::arithmetic::power::lemma_pow_positive(256, (i - 1) as nat);
        vstd::arithmetic::power::lemma_pow_adds(256, 1, (i - 1) as nat);
        vstd::arithmetic::power::lemma_pow1(256);
        vstd::arithmetic::div_mod::lemma_div_denominator(v as int, 256, p);
        assert(pow(256, i as nat) == 256 * p);
    }
}

proof fn lemma_le_value_push(s: Seq<u8>, byte: u8)
    ensures
        le_value(s.push(byte)) == le_value(s) + byte * pow(256, s.len()),
    decreases s.len(),
{
    if s.len() == 0 {
        vstd::arithmetic::power::lemma_pow0(256);
        assert(s.push(byte).drop_first() =~= Seq::empty());
        assert(le_value(s.push(byte).drop_first()) == 0);
    } else {
        let t = s.drop_first();
        lemma_le_value_push(t, byte);
        assert(s.push(byte).drop_first() =~= t.push(byte));
        vstd::arithmetic::power::lemma_pow_adds(256, 1, t.len());
        vstd::arithmetic::power::lemma_pow1(256);
        let p = pow(256, t.len());
        assert(256 * (byte * p) == byte * (256 * p)) by (nonlinear_arith);
    }
}

} // verus!
