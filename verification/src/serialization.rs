//! Writing values to bytes and reading them back.
use crate::error::{ErrorView, Result, StorageError};
use crate::le::{byte_range, get_le, law_le_round_trip, le_bytes, le_value, lemma_byte_ranges, lemma_le_bytes_len, put_le};
use vstd::arithmetic::power::pow;
use vstd::prelude::*;
use vstd::utf8::{encode_utf8, valid_utf8};

pub mod utils;

verus! {

/// Collects bytes.
pub struct Serializer {
    buffer: Vec<u8>,
}

impl View for Serializer {
    type V = Seq<u8>;

    closed spec fn view(&self) -> Seq<u8> {
        self.buffer@
    }
}

/// A number in groups of seven bits, least significant group first; every byte but the last has
/// its high bit set.
pub open spec fn varint_bytes(v: nat) -> Seq<u8>
    decreases v,
{
    if v < 128 {
        seq![v as u8]
    } else {
        seq![(v % 128 + 128) as u8] + varint_bytes(v / 128)
    }
}

/// The text of `s` behind its length in bytes.
pub open spec fn string_bytes(s: Seq<char>) -> Seq<u8> {
    prefixed_bytes(encode_utf8(s))
}

/// `bytes` behind the four low-order bytes of their number.
pub open spec fn prefixed_bytes(bytes: Seq<u8>) -> Seq<u8> {
    le_bytes(bytes.len(), 4) + bytes
}

impl Serializer {
    pub fn new() -> (r: Self)
        ensures
            r@ == Seq::<u8>::empty(),
    {
        Self { buffer: Vec::new() }
    }

    pub fn write_u8(&mut self, value: u8)
        ensures
            final(self)@ == old(self)@.push(value),
    {
        self.buffer.push(value);
    }

    pub fn write_u16(&mut self, value: u16)
        ensures
            final(self)@ == old(self)@ + le_bytes(value as nat, 2),
    {
        put_le(&mut self.buffer, value as u64, 2);
    }

    pub fn write_u32(&mut self, value: u32)
        ensures
            final(self)@ == old(self)@ + le_bytes(value as nat, 4),
    {
        put_le(&mut self.buffer, value as u64, 4);
    }

    pub fn write_u64(&mut self, value: u64)
        ensures
            final(self)@ == old(self)@ + le_bytes(value as nat, 8),
    {
        put_le(&mut self.buffer, value, 8);
    }

    /// Writes the four low-order bytes of a length.
    pub fn write_len(&mut self, len: usize)
        ensures
            final(self)@ == old(self)@ + le_bytes(len as nat, 4),
    {
        put_le(&mut self.buffer, len as u64, 4);
    }

    pub fn write_bytes(&mut self, bytes: &[u8])
        ensures
            final(self)@ == old(self)@ + bytes@,
    {
        self.buffer.extend_from_slice(bytes);
    }

    /// Writes the length of a text and its bytes.
    pub fn write_string(&mut self, s: &str)
        ensures
            final(self)@ == old(self)@ + string_bytes(s@),
    {
        let bytes = s.as_bytes();
        self.write_len(bytes.len());
        self.write_bytes(bytes);
        assert(self@ =~= old(self)@ + string_bytes(s@));
    }

    /// Writes a number in groups of seven bits.
    pub fn write_variable_int(&mut self, value: u64)
        ensures
            final(self)@ == old(self)@ + varint_bytes(value as nat),
    {
        let mut rest: u64 = value;
        while rest >= 0x80
            invariant
                self@ + varint_bytes(rest as nat) == old(self)@ + varint_bytes(value as nat),
            decreases rest,
        {
            let ghost before = self@;
            self.write_u8((rest % 0x80 + 0x80) as u8);
            assert(self@ + varint_bytes((rest / 0x80) as nat) =~= before + varint_bytes(
                rest as nat,
            ));
            rest = rest / 0x80;
        }
        let ghost before = self@;
        self.write_u8(rest as u8);
        assert(self@ =~= before + varint_bytes(rest as nat));
    }

    /// The number of bytes written so far.
    pub fn size(&self) -> (r: usize)
        ensures
            r == self@.len(),
    {
        self.buffer.len()
    }

    pub fn finish(self) -> (r: Vec<u8>)
        ensures
            r@ == self@,
    {
        self.buffer
    }

    pub fn as_slice(&self) -> (r: &[u8])
        ensures
            r@ == self@,
    {
        self.buffer.as_slice()
    }
}

impl Default for Serializer {
    fn default() -> (r: Self)
        ensures
            r@ == Seq::<u8>::empty(),
    {
        Self::new()
    }
}

/// Reads values from a slice, front to back.
pub struct Deserializer<'a> {
    data: &'a [u8],
    position: usize,
}

/// The error for data that ends too early.
pub open spec fn short_data() -> ErrorView {
    ErrorView::Corruption { message: "unexpected end of data"@ }
}

/// The error for a number of variable length with too many bytes.
pub open spec fn long_varint() -> ErrorView {
    ErrorView::Corruption { message: "variable integer too long"@ }
}

/// The error for a text that is not UTF-8.
pub open spec fn bad_text() -> ErrorView {
    ErrorView::Corruption { message: "Invalid UTF-8 string"@ }
}

/// How many bytes at the front of `s` have their high bit set.
pub open spec fn varint_more(s: Seq<u8>) -> nat
    decreases s.len(),
{
    if s.len() > 0 && s[0] >= 128 {
        1 + varint_more(s.drop_first())
    } else {
        0
    }
}

/// The number whose groups of seven bits the bytes of `s` hold, least significant group first.
pub open spec fn varint_value(s: Seq<u8>) -> nat
    decreases s.len(),
{
    if s.len() == 0 {
        0
    } else {
        s[0] as nat % 128 + 128 * varint_value(s.drop_first())
    }
}

/// `String::from_utf8`: the text whose UTF-8 encoding is `bytes`, or nothing where `bytes` is
/// not valid UTF-8.
#[verifier::external_body]
fn string_from_utf8(bytes: Vec<u8>) -> (r: Option<String>)
    ensures
        match r {
            Some(s) => valid_utf8(bytes@) && encode_utf8(s@) == bytes@,
            None => !valid_utf8(bytes@),
        },
{
    String::from_utf8(bytes).ok()
}

impl<'a> Deserializer<'a> {
    /// All the data, read or not.
    pub closed spec fn input(self) -> Seq<u8> {
        self.data@
    }

    /// How many bytes have been read.
    pub closed spec fn pos(self) -> nat {
        self.position as nat
    }

    /// The data that has not been read.
    pub open spec fn rest(self) -> Seq<u8> {
        self.input().skip(self.pos() as int)
    }

    /// The position lies in the data.
    pub open spec fn wf(self) -> bool {
        self.pos() <= self.input().len() <= usize::MAX
    }

    /// The state after `n` more bytes have been read.
    pub open spec fn advanced(self, next: Self, n: nat) -> bool {
        &&& next.wf()
        &&& next.input() == self.input()
        &&& next.pos() == self.pos() + n
        &&& next.rest() == self.rest().skip(n as int)
    }

    pub fn new(data: &'a [u8]) -> (r: Self)
        ensures
            r.wf(),
            r.input() == data@,
            r.pos() == 0,
    {
        let len: usize = data.len();
        Self { data, position: 0 }
    }

    fn ensure_byte(&self, n: usize) -> (r: Result<()>)
        requires
            self.wf(),
        ensures
            match r {
                Ok(_) => n <= self.rest().len(),
                Err(e) => n > self.rest().len() && e@ == short_data(),
            },
    {
        if n > self.data.len() - self.position {
            Err(StorageError::corruption("unexpected end of data"))
        } else {
            Ok(())
        }
    }

    /// Reads the little-endian number of the next `width` bytes.
    fn read_le(&mut self, width: usize) -> (r: Result<u64>)
        requires
            old(self).wf(),
            width <= 8,
        ensures
            match r {
                Ok(v) => {
                    &&& width <= old(self).rest().len()
                    &&& v == le_value(old(self).rest().take(width as int))
                    &&& v < byte_range(width as nat)
                    &&& old(self).advanced(*final(self), width as nat)
                },
                Err(e) => {
                    &&& width > old(self).rest().len()
                    &&& e@ == short_data()
                    &&& *final(self) == *old(self)
                },
            },
    {
        self.ensure_byte(width)?;
        let value: u64 = get_le(self.data, self.position, width);
        assert(self.rest().take(width as int) =~= self.data@.subrange(
            self.position as int,
            self.position + width,
        ));
        self.position = self.position + width;
        assert(self.rest() =~= old(self).rest().skip(width as int));
        Ok(value)
    }

    pub fn read_u8(&mut self) -> (r: Result<u8>)
        requires
            old(self).wf(),
        ensures
            match r {
                Ok(v) => {
                    &&& 1 <= old(self).rest().len()
                    &&& v == old(self).rest()[0]
                    &&& old(self).advanced(*final(self), 1)
                },
                Err(e) => {
                    &&& old(self).rest().len() == 0
                    &&& e@ == short_data()
                    &&& *final(self) == *old(self)
                },
            },
    {
        self.ensure_byte(1)?;
        let value: u8 = self.data[self.position];
        self.position = self.position + 1;
        assert(self.rest() =~= old(self).rest().skip(1));
        Ok(value)
    }

    pub fn read_u16(&mut self) -> (r: Result<u16>)
        requires
            old(self).wf(),
        ensures
            match r {
                Ok(v) => {
                    &&& 2 <= old(self).rest().len()
                    &&& v == le_value(old(self).rest().take(2))
                    &&& old(self).advanced(*final(self), 2)
                },
                Err(e) => {
                    &&& 2 > old(self).rest().len()
                    &&& e@ == short_data()
                    &&& *final(self) == *old(self)
                },
            },
    {
        proof {
            lemma_byte_ranges();
        }
        let value: u64 = self.read_le(2)?;
        Ok(value as u16)
    }

    pub fn read_u32(&mut self) -> (r: Result<u32>)
        requires
            old(self).wf(),
        ensures
            match r {
                Ok(v) => {
                    &&& 4 <= old(self).rest().len()
                    &&& v == le_value(old(self).rest().take(4))
                    &&& old(self).advanced(*final(self), 4)
                },
                Err(e) => {
                    &&& 4 > old(self).rest().len()
                    &&& e@ == short_data()
                    &&& *final(self) == *old(self)
                },
            },
    {
        proof {
            lemma_byte_ranges();
        }
        let value: u64 = self.read_le(4)?;
        Ok(value as u32)
    }

    pub fn read_u64(&mut self) -> (r: Result<u64>)
        requires
            old(self).wf(),
        ensures
            match r {
                Ok(v) => {
                    &&& 8 <= old(self).rest().len()
                    &&& v == le_value(old(self).rest().take(8))
                    &&& old(self).advanced(*final(self), 8)
                },
                Err(e) => {
                    &&& 8 > old(self).rest().len()
                    &&& e@ == short_data()
                    &&& *final(self) == *old(self)
                },
            },
    {
        self.read_le(8)
    }

    pub fn read_bytes(&mut self, len: usize) -> (r: Result<&'a [u8]>)
        requires
            old(self).wf(),
        ensures
            match r {
                Ok(v) => {
                    &&& len <= old(self).rest().len()
                    &&& v@ == old(self).rest().take(len as int)
                    &&& old(self).advanced(*final(self), len as nat)
                },
                Err(e) => {
                    &&& len > old(self).rest().len()
                    &&& e@ == short_data()
                    &&& *final(self) == *old(self)
                },
            },
    {
        self.ensure_byte(len)?;
        let bytes = vstd::slice::slice_subrange(self.data, self.position, self.position + len);
        assert(bytes@ =~= self.rest().take(len as int));
        self.position = self.position + len;
        assert(self.rest() =~= old(self).rest().skip(len as int));
        Ok(bytes)
    }

    /// Reads a text behind its length in bytes.
    pub fn read_string(&mut self) -> (r: Result<String>)
        requires
            old(self).wf(),
        ensures
            final(self).wf(),
            final(self).input() == old(self).input(),
            ({
                let rest = old(self).rest();
                let len = le_value(rest.take(4));
                let bytes = rest.skip(4).take(len as int);
                match r {
                    Ok(s) => {
                        &&& 4 + len <= rest.len()
                        &&& valid_utf8(bytes)
                        &&& encode_utf8(s@) == bytes
                        &&& final(self).pos() == old(self).pos() + 4 + len
                    },
                    Err(e) => {
                        ||| rest.len() < 4 && e@ == short_data() && final(self).pos() == old(self).pos()
                        ||| 4 <= rest.len() < 4 + len && e@ == short_data() && final(self).pos()
                            == old(self).pos() + 4
                        ||| 4 + len <= rest.len() && !valid_utf8(bytes) && e@ == bad_text()
                            && final(self).pos() == old(self).pos() + 4 + len
                    },
                }
            }),
    {
        let len: u32 = self.read_u32()?;
        let bytes = self.read_bytes(len as usize)?;
        assert(bytes@ =~= old(self).rest().skip(4).take(len as int));
        match string_from_utf8(crate::copy_bytes(bytes)) {
            Some(s) => Ok(s),
            None => Err(StorageError::corruption("Invalid UTF-8 string")),
        }
    }

    /// Reads a number in groups of seven bits.
    ///
    /// The number ends at the first byte whose high bit is clear; there are at most ten bytes, and
    /// what does not fit in 64 bits is dropped.
    pub fn read_variable_int(&mut self) -> (r: Result<u64>)
        requires
            old(self).wf(),
        ensures
            final(self).wf(),
            final(self).input() == old(self).input(),
            ({
                let rest = old(self).rest();
                let more = varint_more(rest);
                match r {
                    Ok(v) => {
                        &&& more < 10
                        &&& more < rest.len()
                        &&& v == varint_value(rest.take(more as int + 1)) % 0x1_0000_0000_0000_0000
                        &&& final(self).pos() == old(self).pos() + more + 1
                    },
                    Err(e) => {
                        ||| more >= 10 && e@ == long_varint() && final(self).pos() == old(self).pos() + 10
                        ||| more < 10 && more == rest.len() && e@ == short_data() && final(self).pos() == old(self).pos() + more
                    },
                }
            }),
    {
        let ghost rest = old(self).rest();
        let mut result: u64 = 0;
        let mut scale: u64 = 1;
        let mut count: usize = 0;
        assert(rest.take(0) =~= Seq::empty());
        while count < 10
            invariant
                old(self).wf(),
                self.wf(),
                self.input() == old(self).input(),
                rest == old(self).rest(),
                count <= 10,
                count <= rest.len(),
                self.pos() == old(self).pos() + count,
                forall|j: int| 0 <= j < count ==> rest[j] >= 128,
                count < 10 ==> scale == group_scale(count as nat) && result == varint_value(
                    rest.take(count as int),
                ),
            decreases 10 - count,
        {
            proof {
                lemma_varint_more_skip(rest, count as nat);
            }
            let byte: u8 = self.read_u8()?;
            let ghost head = rest.take(count as int);
            proof {
                assert(byte == rest[count as int]);
                assert(rest.take(count + 1) =~= head.push(byte));
                lemma_varint_value_push(head, byte);
                lemma_group_scales();
                lemma_group_scale_bound(count as nat, 9);
            }
            let part: u64 = ((byte % 128) as u64).wrapping_mul(scale);
            let value: u64 = result.wrapping_add(part);
            proof {
                let group = (byte % 128) as nat;
                let m = 0x1_0000_0000_0000_0000int;
                assert(part == (group * group_scale(count as nat)) % m as nat);
                vstd::arithmetic::div_mod::lemma_add_mod_noop_right(
                    result as int,
                    (group * group_scale(count as nat)) as int,
                    m,
                );
                assert(value == varint_value(head.push(byte)) % m as nat);
            }
            if byte < 128 {
                assert(varint_more(rest) == count) by {
                    lemma_varint_more_skip(rest, count as nat);
                }
                return Ok(value);
            }
            count = count + 1;
            if count < 10 {
                proof {
                    lemma_varint_value_bound(rest.take(count as int));
                    lemma_group_scale_bound(count as nat, 9);
                    assert(group_scale(count as nat) == 128 * group_scale((count - 1) as nat));
                }
                result = value;
                scale = scale * 128;
            }
        }
        proof {
            lemma_varint_more_skip(rest, 10);
        }
        Err(StorageError::corruption("variable integer too long"))
    }

    /// Passes over `n` bytes.
    pub fn skip(&mut self, n: usize) -> (r: Result<()>)
        requires
            old(self).wf(),
        ensures
            match r {
                Ok(_) => {
                    &&& n <= old(self).rest().len()
                    &&& old(self).advanced(*final(self), n as nat)
                },
                Err(e) => {
                    &&& n > old(self).rest().len()
                    &&& e@ == short_data()
                    &&& *final(self) == *old(self)
                },
            },
    {
        self.ensure_byte(n)?;
        self.position = self.position + n;
        assert(self.rest() =~= old(self).rest().skip(n as int));
        Ok(())
    }

    /// How many bytes have been read.
    pub fn position(&self) -> (r: usize)
        ensures
            r == self.pos(),
    {
        self.position
    }

    /// How many bytes have not been read.
    pub fn remaining(&self) -> (r: usize)
        requires
            self.wf(),
        ensures
            r == self.rest().len(),
    {
        self.data.len() - self.position
    }

    /// Whether all the data has been read.
    pub fn is_eof(&self) -> (r: bool)
        requires
            self.wf(),
        ensures
            r == (self.rest().len() == 0),
    {
        self.position >= self.data.len()
    }

    /// The data that has not been read.
    pub fn remaining_slice(&self) -> (r: &'a [u8])
        requires
            self.wf(),
        ensures
            r@ == self.rest(),
    {
        let r = vstd::slice::slice_subrange(self.data, self.position, self.data.len());
        assert(r@ =~= self.rest());
        r
    }

    /// The next byte, which stays unread.
    pub fn peek_u8(&self) -> (r: Result<u8>)
        requires
            self.wf(),
        ensures
            match r {
                Ok(v) => 1 <= self.rest().len() && v == self.rest()[0],
                Err(e) => self.rest().len() == 0 && e@ == short_data(),
            },
    {
        self.ensure_byte(1)?;
        Ok(self.data[self.position])
    }
}

/// The weight of the group of seven bits in the byte at `n`.
pub open spec fn group_scale(n: nat) -> nat
    decreases n,
{
    if n == 0 {
        1
    } else {
        128 * group_scale((n - 1) as nat)
    }
}

proof fn lemma_group_scales()
    ensures
        group_scale(9) == 0x8000_0000_0000_0000,
        group_scale(10) == 0x40_0000_0000_0000_0000,
{
    reveal_with_fuel(group_scale, 11);
}

proof fn lemma_group_scale_bound(a: nat, b: nat)
    requires
        a <= b,
    ensures
        0 < group_scale(a) <= group_scale(b),
    decreases b,
{
    if b == 0 {
    } else if a == b {
        lemma_group_scale_bound((a - 1) as nat, (b - 1) as nat);
    } else {
        lemma_group_scale_bound(a, (b - 1) as nat);
    }
}

proof fn lemma_varint_value_push(s: Seq<u8>, b: u8)
    ensures
        varint_value(s.push(b)) == varint_value(s) + (b % 128) as nat * group_scale(s.len()),
    decreases s.len(),
{
    let g = (b % 128) as nat;
    if s.len() == 0 {
        assert(s.push(b).drop_first() =~= s);
        assert(g * group_scale(0) == g) by (nonlinear_arith)
            requires
                group_scale(0) == 1,
        ;
    } else {
        let t = s.drop_first();
        assert(s.push(b).drop_first() =~= t.push(b));
        lemma_varint_value_push(t, b);
        assert(g * (128 * group_scale(t.len())) == 128 * (g * group_scale(t.len())))
            by (nonlinear_arith);
    }
}

proof fn lemma_varint_value_bound(s: Seq<u8>)
    ensures
        varint_value(s) < group_scale(s.len()),
    decreases s.len(),
{
    if s.len() > 0 {
        lemma_varint_value_bound(s.drop_first());
    }
}

proof fn lemma_varint_more_skip(s: Seq<u8>, n: nat)
    requires
        n <= s.len(),
        forall|j: int| 0 <= j < n ==> s[j] >= 128,
    ensures
        varint_more(s) == n + varint_more(s.skip(n as int)),
        varint_more(s) <= s.len(),
    decreases s.len(),
{
    if n > 0 {
        let t = s.drop_first();
        lemma_varint_more_skip(t, (n - 1) as nat);
        assert(t.skip(n - 1) =~= s.skip(n as int));
    } else {
        assert(s.skip(0) =~= s);
        if s.len() > 0 && s[0] >= 128 {
            assert(s.drop_first().skip(0) =~= s.drop_first());
            lemma_varint_more_skip(s.drop_first(), 0);
        }
    }
}

/// Law: a number is read back from its groups of seven bits, whatever follows them, and there are
/// at most ten of them.
pub proof fn law_varint_round_trip(v: u64, tail: Seq<u8>)
    ensures
        ({
            let bytes = varint_bytes(v as nat);
            let more = varint_more(bytes + tail);
            &&& 1 <= bytes.len() <= 10
            &&& more + 1 == bytes.len()
            &&& (bytes + tail).take(more as int + 1) == bytes
            &&& varint_value(bytes) == v
            &&& varint_value(bytes) % 0x1_0000_0000_0000_0000 == v
        }),
{
    lemma_group_scales();
    lemma_varint_shape(v as nat, 10, tail);
    let bytes = varint_bytes(v as nat);
    assert((bytes + tail).take(bytes.len() as int) =~= bytes);
}

proof fn lemma_varint_shape(v: nat, n: nat, tail: Seq<u8>)
    requires
        v < group_scale(n),
        n > 0,
    ensures
        1 <= varint_bytes(v).len() <= n,
        varint_more(varint_bytes(v) + tail) + 1 == varint_bytes(v).len(),
        varint_value(varint_bytes(v)) == v,
    decreases n,
{
    let bytes = varint_bytes(v);
    if v < 128 {
        assert((bytes + tail)[0] == v as u8);
        assert(bytes.drop_first() =~= Seq::empty());
        assert(varint_value(bytes.drop_first()) == 0);
    } else {
        assert(n > 1) by {
            if n == 1 {
                assert(group_scale(1) == 128) by {
                    reveal_with_fuel(group_scale, 2);
                }
            }
        }
        lemma_varint_shape(v / 128, (n - 1) as nat, tail);
        let rest = varint_bytes(v / 128);
        assert((bytes + tail).drop_first() =~= rest + tail);
        assert(bytes.drop_first() =~= rest);
        assert(bytes[0] == (v % 128 + 128) as u8);
        assert(bytes[0] as nat % 128 == v % 128);
    }
}

/// Law: a number of `n` bytes is read back from them, whatever follows.
pub proof fn law_fixed_width_round_trip(v: nat, n: nat, tail: Seq<u8>)
    requires
        v < byte_range(n),
    ensures
        ({
            let data = le_bytes(v, n) + tail;
            &&& n <= data.len()
            &&& le_value(data.take(n as int)) == v
            &&& data.skip(n as int) == tail
        }),
{
    law_le_round_trip(v, n);
    let data = le_bytes(v, n) + tail;
    assert(data.take(n as int) =~= le_bytes(v, n));
    assert(data.skip(n as int) =~= tail);
}

/// Law: bytes behind their length are read back, whatever follows, where the length fits in four
/// bytes.
pub proof fn law_prefixed_round_trip(bytes: Seq<u8>, tail: Seq<u8>)
    requires
        bytes.len() < 0x1_0000_0000,
    ensures
        ({
            let data = prefixed_bytes(bytes) + tail;
            &&& 4 + bytes.len() <= data.len()
            &&& le_value(data.take(4)) == bytes.len()
            &&& data.skip(4).take(bytes.len() as int) == bytes
            &&& data.skip(4 + bytes.len() as int) == tail
        }),
{
    lemma_byte_ranges();
    law_fixed_width_round_trip(bytes.len(), 4, bytes + tail);
    let data = prefixed_bytes(bytes) + tail;
    assert(data =~= le_bytes(bytes.len(), 4) + (bytes + tail));
    assert(data.skip(4).take(bytes.len() as int) =~= bytes);
    lemma_le_bytes_len(bytes.len(), 4);
    assert(data.skip(4 + bytes.len() as int) =~= tail);
}

/// Law: a text is read back from its bytes: they are valid, and no other text has them.
pub proof fn law_text_round_trip(s: Seq<char>, t: Seq<char>)
    ensures
        valid_utf8(encode_utf8(s)),
        encode_utf8(t) == encode_utf8(s) ==> t == s,
{
    vstd::utf8::encode_utf8_valid_utf8(s);
    vstd::utf8::encode_utf8_decode_utf8(s);
    vstd::utf8::encode_utf8_decode_utf8(t);
}

/// A value that can be written.
pub trait Serialize {
    /// Whether `after` is what a successful call may leave where `before` was written already.
    spec fn writes(&self, before: Seq<u8>, after: Seq<u8>) -> bool;

    /// Whether a call may fail with `error` where `before` was written already.
    spec fn refuses(&self, before: Seq<u8>, error: ErrorView) -> bool;

    fn serialize(&self, serializer: &mut Serializer) -> (r: Result<()>)
        ensures
            match r {
                Ok(_) => self.writes(old(serializer)@, final(serializer)@),
                Err(e) => self.refuses(old(serializer)@, e@),
            },
    ;
}

/// A value that can be read.
pub trait Deserialize<'a>: Sized {
    /// Whether a call may read `value` from the bytes of `data` between `from` and `to`.
    spec fn reads(data: Seq<u8>, from: nat, to: nat, value: Self) -> bool;

    /// Whether a call at `from` may fail with `error`.
    spec fn fails(data: Seq<u8>, from: nat, error: ErrorView) -> bool;

    fn deserialize(deserializer: &mut Deserializer<'a>) -> (r: Result<Self>)
        requires
            old(deserializer).wf(),
        ensures
            final(deserializer).wf(),
            final(deserializer).input() == old(deserializer).input(),
            match r {
                Ok(v) => Self::reads(
                    old(deserializer).input(),
                    old(deserializer).pos(),
                    final(deserializer).pos(),
                    v,
                ),
                Err(e) => Self::fails(old(deserializer).input(), old(deserializer).pos(), e@),
            },
    ;
}

/// The bytes of `data` from `from` on are too few for `n`.
pub open spec fn too_short(data: Seq<u8>, from: nat, n: nat) -> bool {
    data.len() < from + n
}

impl Serialize for u8 {
    open spec fn writes(&self, before: Seq<u8>, after: Seq<u8>) -> bool {
        after == before.push(*self)
    }

    open spec fn refuses(&self, before: Seq<u8>, error: ErrorView) -> bool {
        false
    }

    fn serialize(&self, serializer: &mut Serializer) -> (r: Result<()>) {
        serializer.write_u8(*self);
        Ok(())
    }
}

impl<'a> Deserialize<'a> for u8 {
    open spec fn reads(data: Seq<u8>, from: nat, to: nat, value: Self) -> bool {
        !too_short(data, from, 1) && to == from + 1 && value == data[from as int]
    }

    open spec fn fails(data: Seq<u8>, from: nat, error: ErrorView) -> bool {
        too_short(data, from, 1) && error == short_data()
    }

    fn deserialize(deserializer: &mut Deserializer<'a>) -> (r: Result<Self>) {
        deserializer.read_u8()
    }
}

impl Serialize for u16 {
    open spec fn writes(&self, before: Seq<u8>, after: Seq<u8>) -> bool {
        after == before + le_bytes(*self as nat, 2)
    }

    open spec fn refuses(&self, before: Seq<u8>, error: ErrorView) -> bool {
        false
    }

    fn serialize(&self, serializer: &mut Serializer) -> (r: Result<()>) {
        serializer.write_u16(*self);
        Ok(())
    }
}

impl<'a> Deserialize<'a> for u16 {
    open spec fn reads(data: Seq<u8>, from: nat, to: nat, value: Self) -> bool {
        !too_short(data, from, 2) && to == from + 2 && value == le_value(data.skip(from as int).take(2))
    }

    open spec fn fails(data: Seq<u8>, from: nat, error: ErrorView) -> bool {
        too_short(data, from, 2) && error == short_data()
    }

    fn deserialize(deserializer: &mut Deserializer<'a>) -> (r: Result<Self>) {
        deserializer.read_u16()
    }
}

impl Serialize for u32 {
    open spec fn writes(&self, before: Seq<u8>, after: Seq<u8>) -> bool {
        after == before + le_bytes(*self as nat, 4)
    }

    open spec fn refuses(&self, before: Seq<u8>, error: ErrorView) -> bool {
        false
    }

    fn serialize(&self, serializer: &mut Serializer) -> (r: Result<()>) {
        serializer.write_u32(*self);
        Ok(())
    }
}

impl<'a> Deserialize<'a> for u32 {
    open spec fn reads(data: Seq<u8>, from: nat, to: nat, value: Self) -> bool {
        !too_short(data, from, 4) && to == from + 4 && value == le_value(data.skip(from as int).take(4))
    }

    open spec fn fails(data: Seq<u8>, from: nat, error: ErrorView) -> bool {
        too_short(data, from, 4) && error == short_data()
    }

    fn deserialize(deserializer: &mut Deserializer<'a>) -> (r: Result<Self>) {
        deserializer.read_u32()
    }
}

impl Serialize for u64 {
    open spec fn writes(&self, before: Seq<u8>, after: Seq<u8>) -> bool {
        after == before + le_bytes(*self as nat, 8)
    }

    open spec fn refuses(&self, before: Seq<u8>, error: ErrorView) -> bool {
        false
    }

    fn serialize(&self, serializer: &mut Serializer) -> (r: Result<()>) {
        serializer.write_u64(*self);
        Ok(())
    }
}

impl<'a> Deserialize<'a> for u64 {
    open spec fn reads(data: Seq<u8>, from: nat, to: nat, value: Self) -> bool {
        !too_short(data, from, 8) && to == from + 8 && value == le_value(data.skip(from as int).take(8))
    }

    open spec fn fails(data: Seq<u8>, from: nat, error: ErrorView) -> bool {
        too_short(data, from, 8) && error == short_data()
    }

    fn deserialize(deserializer: &mut Deserializer<'a>) -> (r: Result<Self>) {
        deserializer.read_u64()
    }
}

impl Serialize for String {
    open spec fn writes(&self, before: Seq<u8>, after: Seq<u8>) -> bool {
        after == before + string_bytes(self@)
    }

    open spec fn refuses(&self, before: Seq<u8>, error: ErrorView) -> bool {
        false
    }

    fn serialize(&self, serializer: &mut Serializer) -> (r: Result<()>) {
        serializer.write_string(self.as_str());
        Ok(())
    }
}

/// The length in the four bytes of `data` at `from`.
pub open spec fn length_at(data: Seq<u8>, from: nat) -> nat {
    le_value(data.skip(from as int).take(4))
}

/// The bytes of `data` behind the length at `from`.
pub open spec fn prefixed_at(data: Seq<u8>, from: nat) -> Seq<u8> {
    data.skip(from as int).skip(4).take(length_at(data, from) as int)
}

/// Whether `data` ends before the bytes whose length is at `from`, or before that length.
pub open spec fn prefixed_too_short(data: Seq<u8>, from: nat) -> bool {
    too_short(data, from, 4) || too_short(data, from, 4 + length_at(data, from))
}

impl<'a> Deserialize<'a> for String {
    open spec fn reads(data: Seq<u8>, from: nat, to: nat, value: Self) -> bool {
        &&& !prefixed_too_short(data, from)
        &&& to == from + 4 + length_at(data, from)
        &&& encode_utf8(value@) == prefixed_at(data, from)
    }

    open spec fn fails(data: Seq<u8>, from: nat, error: ErrorView) -> bool {
        if prefixed_too_short(data, from) {
            error == short_data()
        } else {
            !valid_utf8(prefixed_at(data, from)) && error == bad_text()
        }
    }

    fn deserialize(deserializer: &mut Deserializer<'a>) -> (r: Result<Self>) {
        deserializer.read_string()
    }
}

impl Serialize for Vec<u8> {
    open spec fn writes(&self, before: Seq<u8>, after: Seq<u8>) -> bool {
        after == before + prefixed_bytes(self@)
    }

    open spec fn refuses(&self, before: Seq<u8>, error: ErrorView) -> bool {
        false
    }

    fn serialize(&self, serializer: &mut Serializer) -> (r: Result<()>) {
        let ghost before = serializer@;
        serializer.write_len(self.len());
        serializer.write_bytes(self.as_slice());
        assert(serializer@ =~= before + prefixed_bytes(self@));
        Ok(())
    }
}

impl<'a> Deserialize<'a> for Vec<u8> {
    open spec fn reads(data: Seq<u8>, from: nat, to: nat, value: Self) -> bool {
        &&& !prefixed_too_short(data, from)
        &&& to == from + 4 + length_at(data, from)
        &&& value@ == prefixed_at(data, from)
    }

    open spec fn fails(data: Seq<u8>, from: nat, error: ErrorView) -> bool {
        prefixed_too_short(data, from) && error == short_data()
    }

    fn deserialize(deserializer: &mut Deserializer<'a>) -> (r: Result<Self>) {
        let len: u32 = deserializer.read_u32()?;
        let bytes = deserializer.read_bytes(len as usize)?;
        Ok(crate::copy_bytes(bytes))
    }
}

/// Law: what a value of a fixed width writes reads back as that value and nothing else, and never
/// fails.
pub proof fn law_integers_read_back(a: u8, b: u16, c: u32, d: u64, before: Seq<u8>, tail: Seq<u8>)
    ensures
        forall|after: Seq<u8>, to: nat, v: u8, e: ErrorView| #[trigger]
            a.writes(before, after) ==> {
                &&& (#[trigger] u8::reads(after + tail, before.len(), to, v) <==> v == a && to
                    == after.len())
                &&& !(#[trigger] u8::fails(after + tail, before.len(), e))
            },
        forall|after: Seq<u8>, to: nat, v: u16, e: ErrorView| #[trigger]
            b.writes(before, after) ==> {
                &&& (#[trigger] u16::reads(after + tail, before.len(), to, v) <==> v == b && to
                    == after.len())
                &&& !(#[trigger] u16::fails(after + tail, before.len(), e))
            },
        forall|after: Seq<u8>, to: nat, v: u32, e: ErrorView| #[trigger]
            c.writes(before, after) ==> {
                &&& (#[trigger] u32::reads(after + tail, before.len(), to, v) <==> v == c && to
                    == after.len())
                &&& !(#[trigger] u32::fails(after + tail, before.len(), e))
            },
        forall|after: Seq<u8>, to: nat, v: u64, e: ErrorView| #[trigger]
            d.writes(before, after) ==> {
                &&& (#[trigger] u64::reads(after + tail, before.len(), to, v) <==> v == d && to
                    == after.len())
                &&& !(#[trigger] u64::fails(after + tail, before.len(), e))
            },
{
    lemma_byte_ranges();
    law_fixed_width_round_trip(b as nat, 2, tail);
    law_fixed_width_round_trip(c as nat, 4, tail);
    law_fixed_width_round_trip(d as nat, 8, tail);
    let at = before.len() as int;
    lemma_le_bytes_len(b as nat, 2);
    lemma_le_bytes_len(c as nat, 4);
    lemma_le_bytes_len(d as nat, 8);
    assert((before + le_bytes(b as nat, 2) + tail).skip(at) =~= le_bytes(b as nat, 2) + tail);
    assert((before + le_bytes(c as nat, 4) + tail).skip(at) =~= le_bytes(c as nat, 4) + tail);
    assert((before + le_bytes(d as nat, 8) + tail).skip(at) =~= le_bytes(d as nat, 8) + tail);
}

/// Law: what a text or a byte vector writes reads back as that value, and never fails, where its
/// length fits in four bytes.
pub proof fn law_prefixed_read_back(
    s: String,
    b: Vec<u8>,
    before: Seq<u8>,
    after_s: Seq<u8>,
    after_b: Seq<u8>,
    tail: Seq<u8>,
)
    requires
        encode_utf8(s@).len() < 0x1_0000_0000,
        b@.len() < 0x1_0000_0000,
        s.writes(before, after_s),
        b.writes(before, after_b),
    ensures
        forall|to: nat, v: String| #[trigger]
            String::reads(after_s + tail, before.len(), to, v) <==> v@ == s@ && to
                == after_s.len(),
        forall|e: ErrorView| !(#[trigger] String::fails(after_s + tail, before.len(), e)),
        forall|to: nat, v: Vec<u8>| #[trigger]
            Vec::<u8>::reads(after_b + tail, before.len(), to, v) <==> v@ == b@ && to
                == after_b.len(),
        forall|e: ErrorView| !(#[trigger] Vec::<u8>::fails(after_b + tail, before.len(), e)),
{
    let at = before.len() as int;
    let text = encode_utf8(s@);
    law_prefixed_round_trip(text, tail);
    law_prefixed_round_trip(b@, tail);
    lemma_le_bytes_len(text.len(), 4);
    lemma_le_bytes_len(b@.len(), 4);
    assert((after_s + tail).skip(at) =~= prefixed_bytes(text) + tail);
    assert((after_b + tail).skip(at) =~= prefixed_bytes(b@) + tail);
    assert forall|v: String| encode_utf8(v@) == text implies v@ == s@ by {
        law_text_round_trip(s@, v@);
    }
    law_text_round_trip(s@, s@);
}

/// Law: the groups of a number of variable length are its digits to the base of 128, the lowest
/// first; all bytes but the last are marked as followed by more; and there are no more bytes than the
/// number needs.
pub proof fn law_lowest_group_comes_first(v: nat, i: int)
    requires
        0 <= i < varint_bytes(v).len(),
    ensures
        varint_bytes(v)[i] as int % 128 == (v as int / pow(128, i as nat)) % 128,
        varint_bytes(v)[i] >= 128 <==> i + 1 < varint_bytes(v).len(),
        i > 0 ==> v >= pow(128, i as nat),
    decreases v,
{
    vstd::arithmetic::power::lemma_pow0(128);
    if v >= 128 && i > 0 {
        let rest = varint_bytes(v / 128);
        assert(varint_bytes(v)[i] == rest[i - 1]);
        law_lowest_group_comes_first(v / 128, i - 1);
        let p = pow(128, (i - 1) as nat);
        vstd::arithmetic::power::lemma_pow_positive(128, (i - 1) as nat);
        vstd::arithmetic::power::lemma_pow_adds(128, 1, (i - 1) as nat);
        vstd::arithmetic::power::lemma_pow1(128);
        vstd::arithmetic::div_mod::lemma_div_denominator(v as int, 128, p);
        assert(pow(128, i as nat) == 128 * p);
        assert(v / 128 >= p);
    } else if v >= 128 {
        assert(varint_bytes(v)[0] == (v % 128 + 128) as u8);
        lemma_varint_is_not_empty(v / 128);
    }
}

proof fn lemma_varint_is_not_empty(v: nat)
    ensures
        varint_bytes(v).len() >= 1,
{
}

/// Law: bytes of a given number are written behind that number in four bytes, the lowest first, and
/// a text as the bytes of its encoding.
pub proof fn law_bytes_stand_behind_their_number(bytes: Seq<u8>, s: Seq<char>, i: int)
    requires
        bytes.len() < 0x1_0000_0000,
    ensures
        prefixed_bytes(bytes).len() == 4 + bytes.len(),
        0 <= i < 4 ==> prefixed_bytes(bytes)[i] == (bytes.len() as int / pow(256, i as nat)) % 256,
        prefixed_bytes(bytes).skip(4) == bytes,
        string_bytes(s) == prefixed_bytes(encode_utf8(s)),
{
    lemma_le_bytes_len(bytes.len(), 4);
    if 0 <= i < 4 {
        crate::le::law_lowest_byte_comes_first(bytes.len(), 4, i, Seq::empty(), 0);
    }
    assert(prefixed_bytes(bytes).skip(4) =~= bytes);
}

/// Law: reading a number of a fixed width fails exactly where fewer bytes are left than it has, and
/// else gives the number in the next bytes, the lowest first.
pub proof fn law_short_numbers_are_refused(data: Seq<u8>, from: nat, to: nat)
    requires
        from <= data.len(),
    ensures
        forall|v: u8| #[trigger]
            u8::reads(data, from, to, v) <==> data.len() >= from + 1 && to == from + 1 && v
                == data[from as int],
        forall|v: u16| #[trigger]
            u16::reads(data, from, to, v) <==> data.len() >= from + 2 && to == from + 2 && v
                == le_value(data.subrange(from as int, from as int + 2)),
        forall|v: u32| #[trigger]
            u32::reads(data, from, to, v) <==> data.len() >= from + 4 && to == from + 4 && v
                == le_value(data.subrange(from as int, from as int + 4)),
        forall|v: u64| #[trigger]
            u64::reads(data, from, to, v) <==> data.len() >= from + 8 && to == from + 8 && v
                == le_value(data.subrange(from as int, from as int + 8)),
        forall|e: ErrorView| #[trigger]
            u8::fails(data, from, e) ==> data.len() < from + 1 && e is Corruption,
        forall|e: ErrorView| #[trigger]
            u16::fails(data, from, e) ==> data.len() < from + 2 && e is Corruption,
        forall|e: ErrorView| #[trigger]
            u32::fails(data, from, e) ==> data.len() < from + 4 && e is Corruption,
        forall|e: ErrorView| #[trigger]
            u64::fails(data, from, e) ==> data.len() < from + 8 && e is Corruption,
{
    let s = data.skip(from as int);
    if data.len() >= from + 2 {
        assert(s.take(2) =~= data.subrange(from as int, from as int + 2));
    }
    if data.len() >= from + 4 {
        assert(s.take(4) =~= data.subrange(from as int, from as int + 4));
    }
    if data.len() >= from + 8 {
        assert(s.take(8) =~= data.subrange(from as int, from as int + 8));
    }
}

/// Law: numbers, texts and bytes are never refused when they are written.
pub proof fn law_writing_is_never_refused(
    a: u8,
    b: u16,
    c: u32,
    d: u64,
    s: String,
    v: Vec<u8>,
    before: Seq<u8>,
    e: ErrorView,
)
    ensures
        !a.refuses(before, e),
        !b.refuses(before, e),
        !c.refuses(before, e),
        !d.refuses(before, e),
        !s.refuses(before, e),
        !v.refuses(before, e),
{
}

/// Law: what is written stands behind what was written before, and changes none of it.
pub proof fn law_writing_goes_on_at_the_end(
    a: u8,
    b: u16,
    c: u32,
    d: u64,
    s: String,
    v: Vec<u8>,
    before: Seq<u8>,
    after: Seq<u8>,
)
    ensures
        a.writes(before, after) ==> after == before.push(a),
        b.writes(before, after) ==> after == before + le_bytes(b as nat, 2),
        c.writes(before, after) ==> after == before + le_bytes(c as nat, 4),
        d.writes(before, after) ==> after == before + le_bytes(d as nat, 8),
        s.writes(before, after) ==> after == before + le_bytes(encode_utf8(s@).len(), 4)
            + encode_utf8(s@),
        v.writes(before, after) ==> after == before + le_bytes(v@.len(), 4) + v@,
{
    assert(before + (le_bytes(encode_utf8(s@).len(), 4) + encode_utf8(s@)) =~= before + le_bytes(
        encode_utf8(s@).len(),
        4,
    ) + encode_utf8(s@));
    assert(before + (le_bytes(v@.len(), 4) + v@) =~= before + le_bytes(v@.len(), 4) + v@);
}

/// Law: a number of variable length ends with the first byte that is below 128, and its bytes count
/// seven bits each, the first the lowest.
pub proof fn law_variable_numbers_end_at_a_low_byte(s: Seq<u8>, byte: u8)
    ensures
        varint_more(s) <= s.len(),
        forall|i: int| 0 <= i < varint_more(s) ==> #[trigger] s[i] >= 128,
        varint_more(s) < s.len() ==> s[varint_more(s) as int] < 128,
        varint_value(seq![byte] + s) == byte % 128 + 128 * varint_value(s),
        varint_value(Seq::empty()) == 0,
    decreases s.len(),
{
    assert((seq![byte] + s).drop_first() =~= s);
    if s.len() > 0 && s[0] >= 128 {
        let t = s.drop_first();
        law_variable_numbers_end_at_a_low_byte(t, byte);
        assert forall|i: int| 0 <= i < varint_more(s) implies #[trigger] s[i] >= 128 by {
            if i > 0 {
                assert(s[i] == t[i - 1]);
            }
        }
        if varint_more(s) < s.len() {
            assert(s[varint_more(s) as int] == t[varint_more(t) as int]);
        }
    }
}

/// Law: bytes behind their number are read exactly where all of them are there, and a text where they
/// are its encoding; where some are missing reading fails.
pub proof fn law_short_bytes_are_refused(data: Seq<u8>, from: nat, to: nat)
    requires
        from <= data.len(),
    ensures
        forall|v: Vec<u8>| #[trigger]
            Vec::<u8>::reads(data, from, to, v) ==> {
                let n = le_value(data.subrange(from as int, from as int + 4));
                &&& data.len() >= from + 4 + n
                &&& to == from + 4 + n
                &&& v@ == data.subrange(from as int + 4, from as int + 4 + n)
            },
        forall|s: String| #[trigger]
            String::reads(data, from, to, s) ==> {
                let n = le_value(data.subrange(from as int, from as int + 4));
                &&& data.len() >= from + 4 + n
                &&& to == from + 4 + n
                &&& encode_utf8(s@) == data.subrange(from as int + 4, from as int + 4 + n)
            },
        forall|e: ErrorView| #[trigger]
            Vec::<u8>::fails(data, from, e) ==> data.len() < from + 4 || data.len() < from + 4
                + le_value(data.subrange(from as int, from as int + 4)),
{
    let s = data.skip(from as int);
    if data.len() >= from + 4 {
        assert(s.take(4) =~= data.subrange(from as int, from as int + 4));
        let n = le_value(s.take(4)) as int;
        if data.len() >= from + 4 + n {
            assert(s.skip(4).take(n) =~= data.subrange(from as int + 4, from as int + 4 + n));
        }
    }
}

} // verus!
