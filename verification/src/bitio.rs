//! Most-significant-bit-first bit writing and reading over byte buffers.
use crate::bits::{
    bits_of, byte_bit, bytes_bits, lemma_bits_of_len, lemma_value_of_low_bits, value_of, zero_bits,
};
use crate::text::{append_decimal, decimal};
use vstd::arithmetic::power2::pow2;
use vstd::prelude::*;
use vstd::string::*;

verus! {

/// Bits accumulated into bytes, the first bit of each byte in its top place.
///
/// The view is the sequence of bits written so far, alignment padding included.
#[derive(Debug, Clone, PartialEq, Eq)]
pub struct BitWriter {
    bytes: Vec<u8>,
    used: u8,
}

impl View for BitWriter {
    type V = Seq<bool>;

    closed spec fn view(&self) -> Seq<bool> {
        bytes_bits(self.bytes@).take(self.filled())
    }
}

impl BitWriter {
    /// Bits of the buffer that have been written.
    spec fn filled(&self) -> int {
        if self.used == 0 {
            8 * self.bytes@.len() as int
        } else {
            8 * (self.bytes@.len() - 1) + self.used
        }
    }

    /// The writer's invariant: a started last byte exists, and what it has not
    /// been given yet is zero.
    pub closed spec fn wf(&self) -> bool {
        &&& self.used < 8
        &&& self.used != 0 ==> self.bytes@.len() > 0
        &&& forall|i: int|
            self.filled() <= i < 8 * self.bytes@.len() ==> !(#[trigger] bytes_bits(self.bytes@)[i])
    }

    /// A writer that holds no bit.
    pub fn new() -> (writer: Self)
        ensures
            writer.wf(),
            writer@ == Seq::<bool>::empty(),
    {
        let writer = BitWriter { bytes: Vec::new(), used: 0 };
        assert(writer@ =~= Seq::<bool>::empty());
        writer
    }

    /// Number of bits written.
    pub fn bit_len(&self) -> (len: usize)
        requires
            self.wf(),
            self@.len() <= usize::MAX,
        ensures
            len == self@.len(),
    {
        if self.used == 0 {
            self.bytes.len() * 8
        } else {
            (self.bytes.len() - 1) * 8 + self.used as usize
        }
    }

    /// Whether nothing has been written.
    pub fn is_empty(&self) -> (empty: bool)
        requires
            self.wf(),
        ensures
            empty == (self@.len() == 0),
    {
        self.bytes.is_empty()
    }

    /// Append one bit.
    pub fn write_bit(&mut self, bit: bool)
        requires
            old(self).wf(),
        ensures
            final(self).wf(),
            final(self)@ == old(self)@.push(bit),
    {
        let ghost before = self.bytes@;
        let ghost at = self.filled();
        if self.used == 0 {
            self.bytes.push(0);
        }
        let ghost padded = self.bytes@;
        proof {
            let z = 0u8;
            assert(forall|k: u8| k < 8 ==> (#[trigger] (z >> k)) & 1u8 == 0u8) by (bit_vector)
                requires
                    z == 0u8,
            ;
            assert forall|i: int| at <= i < 8 * padded.len() implies !bytes_bits(padded)[i] by {
                if i >= 8 * before.len() {
                    assert(i / 8 == before.len());
                    assert((z >> ((7 - i % 8) as u8)) & 1u8 == 0u8);
                } else {
                    assert(bytes_bits(padded)[i] == bytes_bits(before)[i]);
                }
            }
            assert forall|i: int| 0 <= i < at implies bytes_bits(padded)[i] == bytes_bits(before)[i] by {
                assert(i / 8 < before.len());
            }
        }
        let last: usize = self.bytes.len() - 1;
        let used: u8 = self.used;
        if bit {
            let b: u8 = self.bytes[last];
            let mask: u8 = 1u8 << (7 - used);
            self.bytes[last] = b | mask;
            proof {
                assert(forall|k: u8|
                    k < 8 ==> ((#[trigger] ((b | mask) >> k)) & 1u8 == 1u8) == (k == 7 - used || (b >> k)
                        & 1u8 == 1u8)) by (bit_vector)
                    requires
                        used < 8,
                        mask == 1u8 << ((7 - used) as u8),
                ;
            }
        }
        self.used = (self.used + 1) % 8;
        proof {
            let now = bytes_bits(self.bytes@);
            assert(at == 8 * last + used);
            assert forall|i: int| 0 <= i < 8 * padded.len() implies now[i] == (if i == at {
                bit
            } else {
                bytes_bits(padded)[i]
            }) by {
                if i / 8 == last {
                    let k = (7 - i % 8) as u8;
                    if bit {
                        let b = padded[last as int];
                        let mask = 1u8 << ((7 - used) as u8);
                        assert((((b | mask) >> k) & 1u8 == 1u8) == (k == 7 - used || (b >> k) & 1u8 == 1u8));
                        assert((i % 8 == used) == (i == at));
                    }
                } else {
                    assert(i != at);
                }
            }
            assert(self@ =~= old(self)@.push(bit));
        }
    }

    /// Append the low `n` bits of `value`, most significant first.
    pub fn write_bits(&mut self, value: u64, n: u8)
        requires
            old(self).wf(),
            n <= 64,
        ensures
            final(self).wf(),
            final(self)@ == old(self)@ + bits_of(value as nat, n as nat),
    {
        let ghost start = self@;
        let mut i: u8 = n;
        assert(start + bits_of((value >> i) as nat, 0) =~= start);
        while i > 0
            invariant
                i <= n <= 64,
                self.wf(),
                self@ == start + bits_of((value >> i) as nat, (n - i) as nat),
            decreases i,
        {
            i = i - 1;
            let bit = (value >> i) & 1 == 1;
            self.write_bit(bit);
            proof {
                let v = value >> i;
                let w = value >> ((i + 1) as u8);
                assert(w == v / 2 && (v & 1 == 1) == (v % 2 == 1)) by (bit_vector)
                    requires
                        i < 64,
                        v == value >> i,
                        w == value >> ((i + 1) as u8),
                ;
                assert(self@ =~= start + bits_of(v as nat, (n - i) as nat));
            }
        }
        assert(value >> 0u8 == value) by (bit_vector);
    }

    /// Pad with zero bits up to the next byte boundary.
    pub fn align_to_byte(&mut self)
        requires
            old(self).wf(),
        ensures
            final(self).wf(),
            final(self)@ == old(self)@ + zero_bits(
                ((8 - old(self)@.len() % 8) % 8) as nat,
            ),
    {
        self.used = 0;
        proof {
            assert(self@ =~= old(self)@ + zero_bits(
                ((8 - old(self)@.len() % 8) % 8) as nat,
            ));
        }
    }

    /// The written bits as bytes, the last byte padded with zeros.
    pub fn into_bytes(self) -> (bytes: Vec<u8>)
        requires
            self.wf(),
        ensures
            bytes@.len() == (self@.len() + 7) / 8,
            bytes_bits(bytes@) == self@ + zero_bits(
                ((8 - self@.len() % 8) % 8) as nat,
            ),
    {
        assert(bytes_bits(self.bytes@) =~= self@ + zero_bits(
            ((8 - self@.len() % 8) % 8) as nat,
        ));
        self.bytes
    }
}

impl Default for BitWriter {
    fn default() -> (writer: Self)
        ensures
            writer.wf(),
            writer@ == Seq::<bool>::empty(),
    {
        BitWriter::new()
    }
}

/// A read asked for more bits than the stream still holds.
#[derive(Debug, Clone, Copy, PartialEq, Eq, Hash, Structural)]
pub struct BitstreamEnd {
    /// Bits asked for.
    pub requested: usize,
    /// Bits that were left.
    pub remaining: usize,
}

impl BitstreamEnd {
    /// What `message` says.
    pub open spec fn text(&self) -> Seq<char> {
        "oxideav-wma::bitio: bit stream exhausted ("@ + decimal(self.requested as nat)
            + " bits requested, "@ + decimal(self.remaining as nat) + " remaining)"@
    }

    /// A description for people.
    pub fn message(&self) -> (s: String)
        ensures
            s@ == self.text(),
    {
        let mut s = String::from_str("oxideav-wma::bitio: bit stream exhausted (");
        append_decimal(&mut s, self.requested as u64);
        s.append(" bits requested, ");
        append_decimal(&mut s, self.remaining as u64);
        s.append(" remaining)");
        s
    }
}

/// A cursor over the leading bits of a byte buffer.
///
/// The view is the sequence of bits not read yet.
#[derive(Debug, Clone)]
pub struct BitReader<'a> {
    bytes: &'a [u8],
    pos: usize,
    len_bits: usize,
}

impl<'a> View for BitReader<'a> {
    type V = Seq<bool>;

    closed spec fn view(&self) -> Seq<bool> {
        bytes_bits(self.bytes@).subrange(self.pos as int, self.len_bits as int)
    }
}

impl<'a> BitReader<'a> {
    /// The reader's invariant: the cursor is inside the stream, the stream
    /// inside the buffer.
    pub closed spec fn wf(&self) -> bool {
        self.pos <= self.len_bits <= 8 * self.bytes@.len() <= usize::MAX
    }

    /// Bits read so far.
    pub closed spec fn consumed(&self) -> nat {
        self.pos as nat
    }

    /// Read all of `bytes`.
    pub fn new(bytes: &'a [u8]) -> (reader: Self)
        requires
            8 * bytes@.len() <= usize::MAX,
        ensures
            reader.wf(),
            reader.consumed() == 0,
            reader@ == bytes_bits(bytes@),
    {
        let reader = BitReader { bytes, pos: 0, len_bits: bytes.len() * 8 };
        assert(reader@ =~= bytes_bits(bytes@));
        reader
    }

    /// Read the first `len_bits` bits of `bytes`.
    pub fn with_bit_len(bytes: &'a [u8], len_bits: usize) -> (reader: Self)
        requires
            len_bits <= 8 * bytes@.len() <= usize::MAX,
        ensures
            reader.wf(),
            reader.consumed() == 0,
            reader@ == bytes_bits(bytes@).take(len_bits as int),
    {
        let reader = BitReader { bytes, pos: 0, len_bits };
        assert(reader@ =~= bytes_bits(bytes@).take(len_bits as int));
        reader
    }

    /// Number of bits not read yet.
    pub fn remaining_bits(&self) -> (n: usize)
        requires
            self.wf(),
        ensures
            n == self@.len(),
    {
        self.len_bits - self.pos
    }

    /// Number of bits read so far.
    pub fn position(&self) -> (n: usize)
        requires
            self.wf(),
        ensures
            n == self.consumed(),
    {
        self.pos
    }

    /// Read one bit.
    pub fn read_bit(&mut self) -> (bit: Result<bool, BitstreamEnd>)
        requires
            old(self).wf(),
        ensures
            final(self).wf(),
            match bit {
                Ok(b) => {
                    &&& old(self)@.len() > 0
                    &&& b == old(self)@[0]
                    &&& final(self)@ == old(self)@.skip(1)
                    &&& final(self).consumed() == old(self).consumed() + 1
                },
                Err(e) => {
                    &&& old(self)@.len() == 0
                    &&& e == (BitstreamEnd { requested: 1, remaining: 0 })
                    &&& *final(self) == *old(self)
                },
            },
    {
        if self.pos >= self.len_bits {
            return Err(BitstreamEnd { requested: 1, remaining: 0 });
        }
        let byte: u8 = self.bytes[self.pos / 8];
        let k: u8 = (self.pos % 8) as u8;
        let bit = (byte >> (7 - k)) & 1 == 1;
        proof {
            assert(bit == byte_bit(byte, self.pos as int % 8));
        }
        self.pos = self.pos + 1;
        assert(self@ =~= old(self)@.skip(1));
        Ok(bit)
    }

    /// Read `n` bits as a number, or none of them where fewer are left.
    pub fn read_bits(&mut self, n: u8) -> (value: Result<u64, BitstreamEnd>)
        requires
            old(self).wf(),
            n <= 64,
        ensures
            final(self).wf(),
            match value {
                Ok(v) => {
                    &&& old(self)@.len() >= n
                    &&& v == value_of(old(self)@.take(n as int))
                    &&& final(self)@ == old(self)@.skip(n as int)
                    &&& final(self).consumed() == old(self).consumed() + n
                },
                Err(e) => {
                    &&& old(self)@.len() < n
                    &&& e.requested == n
                    &&& e.remaining == old(self)@.len()
                    &&& *final(self) == *old(self)
                },
            },
    {
        if (n as usize) > self.remaining_bits() {
            return Err(BitstreamEnd { requested: n as usize, remaining: self.remaining_bits() });
        }
        let ghost all = self@;
        let mut value: u64 = 0;
        let mut i: u8 = 0;
        assert(all.skip(0) =~= all);
        while i < n
            invariant
                i <= n <= 64,
                n <= all.len(),
                self.wf(),
                self@ == all.skip(i as int),
                self.consumed() == old(self).consumed() + i,
                value == value_of(all.take(i as int)),
            decreases n - i,
        {
            let bit = match self.read_bit() {
                Ok(bit) => bit,
                Err(e) => {
                    return Err(e);
                },
            };
            proof {
                crate::bits::lemma_value_bound(all.take(i as int));
                vstd::arithmetic::power2::lemma2_to64();
                vstd::arithmetic::power2::lemma2_to64_rest();
                if i < 63 {
                    vstd::arithmetic::power2::lemma_pow2_strictly_increases(i as nat, 63);
                }
                assert(all.take(i + 1).drop_last() =~= all.take(i as int));
                assert(all.skip(i as int).skip(1) =~= all.skip(i + 1));
                let b = if bit { 1u64 } else { 0u64 };
                assert((value << 1) | b == 2 * value + b) by (bit_vector)
                    requires
                        value < 0x8000_0000_0000_0000u64,
                        b <= 1,
                ;
            }
            let b: u64 = if bit { 1 } else { 0 };
            value = (value << 1) | b;
            i = i + 1;
        }
        Ok(value)
    }

    /// Skip to the next byte boundary, or to the end where that comes first.
    pub fn align_to_byte(&mut self)
        requires
            old(self).wf(),
        ensures
            final(self).wf(),
            ({
                let skipped = skip_to_byte(old(self).consumed(), old(self)@.len());
                &&& final(self).consumed() == old(self).consumed() + skipped
                &&& final(self)@ == old(self)@.skip(skipped)
            }),
    {
        let rem: usize = self.pos % 8;
        if rem != 0 {
            let next: usize = self.pos + (8 - rem);
            self.pos = if next <= self.len_bits { next } else { self.len_bits };
        }
        assert(self@ =~= old(self)@.skip(skip_to_byte(old(self).consumed(), old(self)@.len())));
    }
}

/// How many bits lie between a cursor and the next byte boundary, where
/// `remaining` bits are left.
pub open spec fn skip_to_byte(consumed: nat, remaining: nat) -> int {
    let pad = (8 - consumed % 8) % 8;
    if pad <= remaining { pad } else { remaining as int }
}

/// The bits of `fields` written one after the other, each a number and the
/// width it is written in.
pub open spec fn fields_bits(fields: Seq<(nat, nat)>) -> Seq<bool>
    decreases fields.len(),
{
    if fields.len() == 0 {
        Seq::empty()
    } else {
        bits_of(fields[0].0, fields[0].1) + fields_bits(fields.skip(1))
    }
}

/// The sum of the widths of `fields`.
pub open spec fn widths_sum(fields: Seq<(nat, nat)>) -> nat
    decreases fields.len(),
{
    if fields.len() == 0 {
        0
    } else {
        fields[0].1 + widths_sum(fields.skip(1))
    }
}

/// As many bits are written as the widths add up to.
pub proof fn widths_add_up(fields: Seq<(nat, nat)>)
    ensures
        fields_bits(fields).len() == widths_sum(fields),
    decreases fields.len(),
{
    if fields.len() > 0 {
        lemma_bits_of_len(fields[0].0, fields[0].1);
        widths_add_up(fields.skip(1));
    }
}

/// The numbers that reads of the widths of `fields`, one after the other, give
/// from `bits`.
pub open spec fn fields_read(bits: Seq<bool>, fields: Seq<(nat, nat)>) -> Seq<nat>
    decreases fields.len(),
{
    if fields.len() == 0 {
        Seq::empty()
    } else {
        let width = fields[0].1 as int;
        seq![value_of(bits.take(width))] + fields_read(bits.skip(width), fields.skip(1))
    }
}

/// Reading the widths that were written gives the numbers that were written, each
/// modulo two to its width, whatever follows in the stream.
pub proof fn written_fields_are_read_back(fields: Seq<(nat, nat)>, rest: Seq<bool>)
    ensures
        fields_read(fields_bits(fields) + rest, fields).len() == fields.len(),
        forall|i: int|
            0 <= i < fields.len() ==> #[trigger] fields_read(
                fields_bits(fields) + rest,
                fields,
            )[i] == fields[i].0 % pow2(fields[i].1),
    decreases fields.len(),
{
    let stream = fields_bits(fields) + rest;
    if fields.len() > 0 {
        let (value, width) = fields[0];
        let tail = fields.skip(1);
        written_fields_are_read_back(tail, rest);
        lemma_bits_of_len(value, width);
        lemma_value_of_low_bits(value, width);
        assert(stream.take(width as int) =~= bits_of(value, width));
        assert(stream.skip(width as int) =~= fields_bits(tail) + rest);
        let read = fields_read(stream, fields);
        let after = fields_read(fields_bits(tail) + rest, tail);
        assert(read == seq![value_of(bits_of(value, width))] + after);
        assert forall|i: int| 0 <= i < fields.len() implies #[trigger] read[i] == fields[i].0
            % pow2(fields[i].1) by {
            if i > 0 {
                assert(read[i] == after[i - 1]);
                assert(tail[i - 1] == fields[i]);
            }
        }
    }
}

/// The padding of the last byte leaves the written bits as they are: a reader
/// of the finished bytes, held to the number of bits written, sees exactly them.
pub proof fn finished_bytes_hold_the_written_bits(written: Seq<bool>, bytes: Seq<u8>)
    requires
        bytes_bits(bytes) == written + zero_bits(((8 - written.len() % 8) % 8) as nat),
    ensures
        bytes_bits(bytes).take(written.len() as int) == written,
        written.len() <= 8 * bytes.len() < written.len() + 8,
{
    assert(bytes_bits(bytes).take(written.len() as int) =~= written);
    assert(bytes_bits(bytes).len() == 8 * bytes.len());
}

/// Skipping to a byte boundary passes over less than a byte and ends on a boundary, or
/// else at the end.
pub proof fn skipping_ends_on_a_boundary(consumed: nat, remaining: nat)
    ensures
        0 <= skip_to_byte(consumed, remaining) < 8,
        skip_to_byte(consumed, remaining) <= remaining,
        (consumed + skip_to_byte(consumed, remaining)) % 8 == 0 || skip_to_byte(consumed, remaining)
            == remaining,
        consumed % 8 == 0 ==> skip_to_byte(consumed, remaining) == 0,
        forall|k: int|
            0 <= k < skip_to_byte(consumed, remaining) ==> #[trigger] ((consumed + k) % 8) != 0,
{
}

} // verus!
