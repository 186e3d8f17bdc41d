//! The packet bit reader of `oxideav_core`, as the decoder uses it.
use crate::bits::{bytes_bits, value_of};
use oxideav_core::bits::BitReader as PacketReader;
use oxideav_core::Error as CoreError;
use vstd::prelude::*;

verus! {

/// The packet bit reader, declared to the verifier as an opaque type.
#[verifier::external_type_specification]
#[verifier::external_body]
pub struct ExPacketReader<'a>(PacketReader<'a>);

/// The error type of `oxideav_core`, declared to the verifier as an opaque type.
#[verifier::external_type_specification]
#[verifier::external_body]
pub struct ExCoreError(CoreError);

/// The bits that a packet bit reader has not handed out yet.
pub uninterp spec fn unread(reader: PacketReader<'_>) -> Seq<bool>;

/// `BitReader::new` starts before the first bit of its bytes, each byte read
/// from its most significant bit.
pub assume_specification<'a>[ PacketReader::<'a>::new ](data: &'a [u8]) -> (reader: PacketReader<'a>)
    ensures
        unread(reader) == bytes_bits(data@),
;

/// `BitReader::read_u32` takes the next `n` bits as a number, most significant
/// first, and fails, taking none, where fewer are left.
pub assume_specification<'a>[ PacketReader::<'a>::read_u32 ](
    reader: &mut PacketReader<'a>,
    n: u32,
) -> (value: Result<u32, CoreError>)
    requires
        n <= 32,
    ensures
        match value {
            Ok(v) => {
                &&& n <= unread(*old(reader)).len()
                &&& v == value_of(unread(*old(reader)).take(n as int))
                &&& unread(*final(reader)) == unread(*old(reader)).skip(n as int)
            },
            Err(_) => {
                &&& n > unread(*old(reader)).len()
                &&& unread(*final(reader)) == unread(*old(reader))
            },
        },
;

/// `BitReader::align_to_byte` skips the bits left of the byte it is in.
pub assume_specification<'a>[ PacketReader::<'a>::align_to_byte ](reader: &mut PacketReader<'a>)
    ensures
        unread(*final(reader)) == unread(*old(reader)).skip(
            (unread(*old(reader)).len() % 8) as int,
        ),
;

/// What reading a number of `n` bits gives, and the bits left after it.
pub open spec fn take_number(bits: Seq<bool>, n: nat) -> (Option<nat>, Seq<bool>) {
    if bits.len() < n {
        (None, bits)
    } else {
        (Some(value_of(bits.take(n as int))), bits.skip(n as int))
    }
}

/// Read a number of `n` bits, or `None` where fewer are left.
pub fn read_number(reader: &mut PacketReader<'_>, n: u32) -> (value: Option<u32>)
    requires
        n <= 32,
    ensures
        unread(*final(reader)) == take_number(unread(*old(reader)), n as nat).1,
        match value {
            Some(v) => {
                &&& take_number(unread(*old(reader)), n as nat).0 == Some(v as nat)
                &&& v < vstd::arithmetic::power2::pow2(n as nat)
            },
            None => take_number(unread(*old(reader)), n as nat).0 is None,
        },
{
    match reader.read_u32(n) {
        Ok(v) => {
            proof {
                crate::bits::lemma_value_bound(unread(*old(reader)).take(n as int));
            }
            Some(v)
        },
        Err(_) => None,
    }
}

} // verus!
