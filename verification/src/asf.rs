//! Extracting audio superframes from an ASF file.
//!
//! The header holds objects, among them the audio format and the size of a data
//! packet. The data object holds packets of that size, each with payloads. The
//! payloads, joined, are cut into superframes of the format's block size.
use crate::header::{little_endian, read_le16, read_le32, read_le64};
use vstd::prelude::*;
use vstd::string::*;

verus! {

/// Identifier of the header object.
pub const ASF_HEADER_GUID: [u8; 16] = [
    0x30, 0x26, 0xB2, 0x75, 0x8E, 0x66, 0xCF, 0x11, 0xA6, 0xD9, 0x00, 0xAA, 0x00, 0x62, 0xCE, 0x6C,
];

/// Identifier of the data object.
pub const ASF_DATA_GUID: [u8; 16] = [
    0x36, 0x26, 0xB2, 0x75, 0x8E, 0x66, 0xCF, 0x11, 0xA6, 0xD9, 0x00, 0xAA, 0x00, 0x62, 0xCE, 0x6C,
];

/// Identifier of a stream properties object.
pub const ASF_STREAM_PROPS_GUID: [u8; 16] = [
    0x91, 0x07, 0xDC, 0xB7, 0xB7, 0xA9, 0xCF, 0x11, 0x8E, 0xE6, 0x00, 0xC0, 0x0C, 0x20, 0x53, 0x65,
];

/// Identifier of the file properties object.
pub const ASF_FILE_PROPS_GUID: [u8; 16] = [
    0xA1, 0xDC, 0xAB, 0x8C, 0x47, 0xA9, 0xCF, 0x11, 0x8E, 0xE4, 0x00, 0xC0, 0x0C, 0x20, 0x53, 0x65,
];

/// Why a file or an object could not be parsed.
#[derive(Debug, Clone, Copy, PartialEq, Eq, Structural)]
pub enum AsfError {
    /// A stream properties object is too short for its fixed part.
    StreamPropertiesTruncated,
    /// A stream properties object is too short for its type-specific data.
    TypeSpecificTruncated,
    /// The type-specific data is too short for an audio format.
    WaveFormatTooSmall,
    /// The file does not start with a header object.
    MissingHeader,
    /// The header object's size is impossible.
    HeaderSize,
    /// No stream properties object holds an audio format.
    NoStreamProperties,
    /// No file properties object gives a packet size.
    NoFileProperties,
    /// No data object follows the header object.
    MissingData,
    /// The data object's size is impossible.
    DataSize,
    /// The packet size is zero.
    ZeroPacketSize,
    /// The format's block size is zero.
    ZeroBlockAlign,
}

impl AsfError {
    /// What `message` says.
    pub open spec fn text(self) -> Seq<char> {
        match self {
            AsfError::StreamPropertiesTruncated => "asf: stream properties truncated"@,
            AsfError::TypeSpecificTruncated => "asf: stream type-specific data truncated"@,
            AsfError::WaveFormatTooSmall => "asf: WAVEFORMATEX too small"@,
            AsfError::MissingHeader => "asf: missing Header Object GUID"@,
            AsfError::HeaderSize => "asf: Header Object size out of range"@,
            AsfError::NoStreamProperties => "asf: no audio Stream Properties Object found"@,
            AsfError::NoFileProperties => "asf: no File Properties Object found"@,
            AsfError::MissingData => "asf: missing Data Object GUID"@,
            AsfError::DataSize => "asf: Data Object size out of range"@,
            AsfError::ZeroPacketSize => "asf: packet size is zero"@,
            AsfError::ZeroBlockAlign => "asf: block_align is zero"@,
        }
    }

    /// A description for people.
    pub fn message(self) -> (s: &'static str)
        ensures
            s@ == self.text(),
    {
        match self {
            AsfError::StreamPropertiesTruncated => "asf: stream properties truncated",
            AsfError::TypeSpecificTruncated => "asf: stream type-specific data truncated",
            AsfError::WaveFormatTooSmall => "asf: WAVEFORMATEX too small",
            AsfError::MissingHeader => "asf: missing Header Object GUID",
            AsfError::HeaderSize => "asf: Header Object size out of range",
            AsfError::NoStreamProperties => "asf: no audio Stream Properties Object found",
            AsfError::NoFileProperties => "asf: no File Properties Object found",
            AsfError::MissingData => "asf: missing Data Object GUID",
            AsfError::DataSize => "asf: Data Object size out of range",
            AsfError::ZeroPacketSize => "asf: packet size is zero",
            AsfError::ZeroBlockAlign => "asf: block_align is zero",
        }
    }
}

/// An audio format.
#[derive(Debug, Clone)]
pub struct WaveFormatEx {
    /// Codec identifier.
    pub format_tag: u16,
    /// Channel count.
    pub channels: u16,
    /// Sample rate.
    pub sample_rate: u32,
    /// Mean bytes per second.
    pub avg_bytes_per_sec: u32,
    /// Bytes per superframe.
    pub block_align: u16,
    /// Bits per sample.
    pub bits_per_sample: u16,
    /// Codec-private data.
    pub extradata: Vec<u8>,
}

/// An audio format, as values.
#[verifier::ext_equal]
pub struct WaveFields {
    /// Codec identifier.
    pub format_tag: u16,
    /// Channel count.
    pub channels: u16,
    /// Sample rate.
    pub sample_rate: u32,
    /// Mean bytes per second.
    pub avg_bytes_per_sec: u32,
    /// Bytes per superframe.
    pub block_align: u16,
    /// Bits per sample.
    pub bits_per_sample: u16,
    /// Codec-private data.
    pub extradata: Seq<u8>,
}

impl View for WaveFormatEx {
    type V = WaveFields;

    open spec fn view(&self) -> WaveFields {
        WaveFields {
            format_tag: self.format_tag,
            channels: self.channels,
            sample_rate: self.sample_rate,
            avg_bytes_per_sec: self.avg_bytes_per_sec,
            block_align: self.block_align,
            bits_per_sample: self.bits_per_sample,
            extradata: self.extradata@,
        }
    }
}

/// The audio format and the superframes of a file.
#[derive(Debug, Clone)]
pub struct AsfFile {
    /// The audio format.
    pub waveformatex: WaveFormatEx,
    /// The superframes, each of the format's block size.
    pub packets: Vec<Vec<u8>>,
}

/// The views of byte strings.
pub open spec fn strings_view(v: Seq<Vec<u8>>) -> Seq<Seq<u8>> {
    Seq::new(v.len(), |i: int| v[i]@)
}

/// The number of `n` bytes at `at`.
pub open spec fn number_at(b: Seq<u8>, at: int, n: int) -> nat {
    little_endian(b.subrange(at, at + n))
}

// ------------------------------------------------------------ header objects

/// The format that a stream properties object's body holds.
pub open spec fn stream_format(obj: Seq<u8>) -> Result<WaveFields, AsfError> {
    let len = number_at(obj, 40, 4);
    let wave = obj.subrange(54, (54 + len) as int);
    let private = number_at(wave, 16, 2);
    if obj.len() < 72 {
        Err(AsfError::StreamPropertiesTruncated)
    } else if obj.len() < 54 + len {
        Err(AsfError::TypeSpecificTruncated)
    } else if len < 18 {
        Err(AsfError::WaveFormatTooSmall)
    } else {
        Ok(
            WaveFields {
                format_tag: number_at(wave, 0, 2) as u16,
                channels: number_at(wave, 2, 2) as u16,
                sample_rate: number_at(wave, 4, 4) as u32,
                avg_bytes_per_sec: number_at(wave, 8, 4) as u32,
                block_align: number_at(wave, 12, 2) as u16,
                bits_per_sample: number_at(wave, 14, 2) as u16,
                extradata: if wave.len() >= 18 + private {
                    wave.subrange(18, (18 + private) as int)
                } else {
                    Seq::empty()
                },
            },
        )
    }
}

/// The packet size that a file properties object's body holds.
pub open spec fn file_packet_size(obj: Seq<u8>) -> Option<u32> {
    if obj.len() < 80 {
        None
    } else {
        Some(number_at(obj, 68, 4) as u32)
    }
}

/// A header object: its identifier and its body.
pub type HeaderObject = (Seq<u8>, Seq<u8>);

/// The objects from `p` on in a header that ends at `end`, up to the first
/// whose size is impossible.
pub open spec fn header_objects(data: Seq<u8>, p: int, end: int) -> Seq<HeaderObject>
    decreases end - p,
{
    if 0 <= p && p + 24 <= end {
        let size = number_at(data, p + 16, 8);
        if size < 24 || p + size > end {
            Seq::empty()
        } else {
            seq![(data.subrange(p, p + 16), data.subrange(p + 24, p + size))] + header_objects(
                data,
                p + size,
                end,
            )
        }
    } else {
        Seq::empty()
    }
}

/// The format of the last object that holds one.
pub open spec fn found_format(objects: Seq<HeaderObject>) -> Option<WaveFields>
    decreases objects.len(),
{
    if objects.len() == 0 {
        None
    } else {
        match stream_format(objects.last().1) {
            Ok(wave) if objects.last().0 == ASF_STREAM_PROPS_GUID@ => Some(wave),
            _ => found_format(objects.drop_last()),
        }
    }
}

/// The packet size of the last file properties object.
pub open spec fn found_packet_size(objects: Seq<HeaderObject>) -> Option<u32>
    decreases objects.len(),
{
    if objects.len() == 0 {
        None
    } else if objects.last().0 == ASF_FILE_PROPS_GUID@ {
        file_packet_size(objects.last().1)
    } else {
        found_packet_size(objects.drop_last())
    }
}

// ------------------------------------------------------------ data packets

/// Bytes of a number whose width is given by a two-bit code.
pub open spec fn coded_width(code: int) -> int {
    if code == 0 {
        0
    } else if code == 1 {
        1
    } else if code == 2 {
        2
    } else {
        4
    }
}

/// A number of coded width at `p` and the place after it, where the packet
/// holds it.
pub open spec fn coded_number(pkt: Seq<u8>, p: int, code: int) -> Option<(nat, int)> {
    let n = coded_width(code);
    if p + n > pkt.len() {
        None
    } else {
        Some((number_at(pkt, p, n), p + n))
    }
}

/// What a packet says of its payloads.
pub struct PacketLayout {
    /// Where the payloads start.
    pub start: int,
    /// Where they end.
    pub end: int,
    /// How many there are.
    pub count: nat,
    /// Whether the packet may hold several.
    pub multiple: bool,
    /// Width code of a payload's length.
    pub length_code: int,
    /// Width code of a payload's media object number.
    pub object_code: int,
    /// Width code of a payload's offset into its media object.
    pub offset_code: int,
    /// Width code of the length of a payload's replicated data.
    pub replicated_code: int,
}

/// Where a packet's length flags are, after its error correction data.
pub open spec fn flags_at(pkt: Seq<u8>) -> Option<int> {
    if pkt.len() == 0 {
        None
    } else {
        let at = if pkt[0] >= 128 {
            1 + pkt[0] as int % 16
        } else {
            1int
        };
        if at + 2 > pkt.len() {
            None
        } else {
            Some(at)
        }
    }
}

/// The layout of a packet whose length flags are at `at`.
pub open spec fn layout_from(pkt: Seq<u8>, at: int) -> Option<PacketLayout> {
    let flags = pkt[at] as int;
    let props = pkt[at + 1] as int;
    let multiple = flags >= 128;
    match coded_number(pkt, at + 2, (flags / 32) % 4) {
        None => None,
        Some((length, p)) => match coded_number(pkt, p, (flags / 8) % 4) {
            None => None,
            Some((_, p)) => match coded_number(pkt, p, (flags / 2) % 4) {
                None => None,
                Some((padding, p)) => {
                    let whole = if (flags / 32) % 4 == 0 || length > pkt.len() {
                        pkt.len() as int
                    } else {
                        length as int
                    };
                    let p = p + 6;
                    if p > pkt.len() || (multiple && p >= pkt.len()) {
                        None
                    } else {
                        Some(
                            PacketLayout {
                                start: if multiple {
                                    p + 1
                                } else {
                                    p
                                },
                                end: if padding <= whole {
                                    whole - padding
                                } else {
                                    0
                                },
                                count: if multiple {
                                    (pkt[p] % 64) as nat
                                } else {
                                    1
                                },
                                multiple,
                                length_code: if multiple {
                                    pkt[p] as int / 64
                                } else {
                                    0
                                },
                                object_code: (props / 4) % 4,
                                offset_code: (props / 16) % 4,
                                replicated_code: (props / 64) % 4,
                            },
                        )
                    }
                },
            },
        },
    }
}

/// The layout of a packet.
pub open spec fn packet_layout(pkt: Seq<u8>) -> Option<PacketLayout> {
    match flags_at(pkt) {
        None => None,
        Some(at) => layout_from(pkt, at),
    }
}

/// Where the data of the payload at `p` starts and ends, where the packet holds
/// it: after the stream number, the object number, the offset, the replicated
/// data and, in a packet that codes payload lengths, the length.
pub open spec fn payload_at(pkt: Seq<u8>, l: PacketLayout, p: int) -> Option<(int, int)> {
    match coded_number(pkt, p + 1, l.object_code) {
        None => None,
        Some((_, p)) => match coded_number(pkt, p, l.offset_code) {
            None => None,
            Some((_, p)) => match coded_number(pkt, p, l.replicated_code) {
                None => None,
                Some((replicated, p)) => {
                    let p = p + replicated;
                    if p > pkt.len() {
                        None
                    } else if l.multiple && l.length_code > 0 {
                        match coded_number(pkt, p, l.length_code) {
                            Some((len, p)) if p + len <= pkt.len() => Some((p, (p + len) as int)),
                            _ => None,
                        }
                    } else if p <= l.end {
                        Some((p, l.end))
                    } else {
                        None
                    }
                },
            },
        },
    }
}

/// Up to `count` payloads from `p` on, up to the first that the packet does not
/// hold.
pub open spec fn payloads_from(pkt: Seq<u8>, l: PacketLayout, count: nat, p: int) -> Seq<Seq<u8>>
    decreases count,
{
    if count == 0 || p >= l.end || p >= pkt.len() {
        Seq::empty()
    } else {
        match payload_at(pkt, l, p) {
            None => Seq::empty(),
            Some((from, to)) => seq![pkt.subrange(from, to)] + payloads_from(
                pkt,
                l,
                (count - 1) as nat,
                to,
            ),
        }
    }
}

/// The payloads of a packet.
pub open spec fn packet_payloads(pkt: Seq<u8>) -> Seq<Seq<u8>> {
    match packet_layout(pkt) {
        None => Seq::empty(),
        Some(l) => payloads_from(pkt, l, l.count, l.start),
    }
}

/// Byte strings, joined.
pub open spec fn joined(parts: Seq<Seq<u8>>) -> Seq<u8>
    decreases parts.len(),
{
    if parts.len() == 0 {
        Seq::empty()
    } else {
        joined(parts.drop_last()) + parts.last()
    }
}

/// The payloads of the packets of `stride` bytes between `p` and `end`, joined.
pub open spec fn stream_bytes(data: Seq<u8>, p: int, end: int, stride: int) -> Seq<u8>
    decreases end - p,
{
    if stride <= 0 || p < 0 || p + stride > end {
        Seq::empty()
    } else {
        joined(packet_payloads(data.subrange(p, p + stride))) + stream_bytes(
            data,
            p + stride,
            end,
            stride,
        )
    }
}

/// Whole pieces of `size` bytes of a byte string, in order.
pub open spec fn pieces(bytes: Seq<u8>, size: int) -> Seq<Seq<u8>> {
    Seq::new(
        (bytes.len() as int / size) as nat,
        |i: int| bytes.subrange(i * size, i * size + size),
    )
}

/// The format and the superframes of a file.
pub open spec fn file_contents(data: Seq<u8>) -> Result<(WaveFields, Seq<Seq<u8>>), AsfError> {
    let header = number_at(data, 16, 8) as int;
    let objects = header_objects(data, 30, header);
    let body = number_at(data, header + 16, 8) as int;
    if data.len() < 30 || data.take(16) != ASF_HEADER_GUID@ {
        Err(AsfError::MissingHeader)
    } else if header < 30 || header > data.len() {
        Err(AsfError::HeaderSize)
    } else if found_format(objects) is None {
        Err(AsfError::NoStreamProperties)
    } else if found_packet_size(objects) is None {
        Err(AsfError::NoFileProperties)
    } else if data.len() < header + 24 || data.subrange(header, header + 16) != ASF_DATA_GUID@ {
        Err(AsfError::MissingData)
    } else if body < 50 || header + body > data.len() {
        Err(AsfError::DataSize)
    } else if found_packet_size(objects) == Some(0u32) {
        Err(AsfError::ZeroPacketSize)
    } else {
        let wave = found_format(objects)->0;
        let stride = found_packet_size(objects)->0 as int;
        let bytes = stream_bytes(data, header + 50, header + body, stride);
        if wave.block_align == 0 {
            Err(AsfError::ZeroBlockAlign)
        } else {
            Ok((wave, pieces(bytes, wave.block_align as int)))
        }
    }
}

// ------------------------------------------------------------ parsing

fn guid_at(data: &[u8], at: usize, guid: &[u8; 16]) -> (same: bool)
    requires
        at + 16 <= data@.len(),
    ensures
        same == (data@.subrange(at as int, at + 16) == guid@),
{
    let mut i: usize = 0;
    let end: usize = data.len();
    while i < 16
        invariant
            at + 16 <= end == data@.len(),
            i <= 16,
            forall|k: int| 0 <= k < i ==> data@[at + k] == #[trigger] guid@[k],
        decreases 16 - i,
    {
        if data[at + i] != guid[i] {
            proof {
                assert(data@.subrange(at as int, at + 16)[i as int] != guid@[i as int]);
            }
            return false;
        }
        i = i + 1;
    }
    assert(data@.subrange(at as int, at + 16) =~= guid@);
    true
}

/// Parse the body of a stream properties object.
pub fn parse_stream_props(obj: &[u8]) -> (format: Result<WaveFormatEx, AsfError>)
    ensures
        stream_format(obj@) == (match format {
            Ok(f) => Ok::<WaveFields, AsfError>(f@),
            Err(e) => Err(e),
        }),
{
    if obj.len() < 72 {
        return Err(AsfError::StreamPropertiesTruncated);
    }
    let len: usize = read_le32(obj, 40) as usize;
    if len > obj.len() - 54 {
        return Err(AsfError::TypeSpecificTruncated);
    }
    if len < 18 {
        return Err(AsfError::WaveFormatTooSmall);
    }
    let wave = vstd::slice::slice_subrange(obj, 54, 54 + len);
    let format_tag: u16 = read_le16(wave, 0);
    let channels: u16 = read_le16(wave, 2);
    let sample_rate: u32 = read_le32(wave, 4);
    let avg_bytes_per_sec: u32 = read_le32(wave, 8);
    let block_align: u16 = read_le16(wave, 12);
    let bits_per_sample: u16 = read_le16(wave, 14);
    let private: usize = read_le16(wave, 16) as usize;
    let extradata: Vec<u8> = if private <= len - 18 {
        vstd::slice::slice_to_vec(vstd::slice::slice_subrange(wave, 18, 18 + private))
    } else {
        Vec::new()
    };
    Ok(
        WaveFormatEx {
            format_tag,
            channels,
            sample_rate,
            avg_bytes_per_sec,
            block_align,
            bits_per_sample,
            extradata,
        },
    )
}

/// The packet size in the body of a file properties object.
pub fn parse_file_props_packet_size(obj: &[u8]) -> (size: Option<u32>)
    ensures
        size == file_packet_size(obj@),
{
    if obj.len() < 80 {
        return None;
    }
    Some(read_le32(obj, 68))
}

/// Bytes of a number whose width is given by a two-bit code.
fn lb(code: u8) -> (n: usize)
    requires
        code < 4,
    ensures
        n == coded_width(code as int),
{
    if code == 0 {
        0
    } else if code == 1 {
        1
    } else if code == 2 {
        2
    } else {
        4
    }
}

/// Read a number of coded width.
fn read_coded(pkt: &[u8], p: usize, code: u8) -> (number: Option<(u32, usize)>)
    requires
        p <= pkt@.len(),
        code < 4,
    ensures
        match number {
            Some((v, next)) => {
                &&& coded_number(pkt@, p as int, code as int) == Some((v as nat, next as int))
                &&& p <= next <= pkt@.len()
            },
            None => coded_number(pkt@, p as int, code as int) is None,
        },
{
    let n: usize = lb(code);
    if n > pkt.len() - p {
        return None;
    }
    let v: u32 = if code == 0 {
        proof {
            assert(pkt@.subrange(p as int, p as int) =~= Seq::<u8>::empty());
        }
        0
    } else if code == 1 {
        proof {
            reveal_with_fuel(little_endian, 2);
            let s = pkt@.subrange(p as int, p + 1);
            assert(s.skip(1) =~= Seq::<u8>::empty());
        }
        pkt[p] as u32
    } else if code == 2 {
        read_le16(pkt, p) as u32
    } else {
        read_le32(pkt, p)
    };
    Some((v, p + n))
}

/// The layout of a packet, in machine numbers.
struct Layout {
    start: usize,
    end: usize,
    count: u8,
    multiple: bool,
    length_code: u8,
    object_code: u8,
    offset_code: u8,
    replicated_code: u8,
}

impl Layout {
    spec fn numbers(&self) -> PacketLayout {
        PacketLayout {
            start: self.start as int,
            end: self.end as int,
            count: self.count as nat,
            multiple: self.multiple,
            length_code: self.length_code as int,
            object_code: self.object_code as int,
            offset_code: self.offset_code as int,
            replicated_code: self.replicated_code as int,
        }
    }

    spec fn sane(&self, pkt: Seq<u8>) -> bool {
        &&& self.start <= pkt.len()
        &&& self.end <= pkt.len()
        &&& self.length_code < 4
        &&& self.object_code < 4
        &&& self.offset_code < 4
        &&& self.replicated_code < 4
    }
}

fn read_flags_at(pkt: &[u8]) -> (at: Option<usize>)
    ensures
        match at {
            Some(at) => flags_at(pkt@) == Some(at as int) && at + 2 <= pkt@.len(),
            None => flags_at(pkt@) is None,
        },
{
    if pkt.len() == 0 {
        return None;
    }
    let ecc: u8 = pkt[0];
    let at: usize = if ecc >= 128 {
        1 + (ecc % 16) as usize
    } else {
        1
    };
    if at > pkt.len() || pkt.len() - at < 2 {
        return None;
    }
    Some(at)
}

fn read_layout(pkt: &[u8]) -> (layout: Option<Layout>)
    ensures
        match layout {
            Some(l) => packet_layout(pkt@) == Some(l.numbers()) && l.sane(pkt@),
            None => packet_layout(pkt@) is None,
        },
{
    let at: usize = match read_flags_at(pkt) {
        Some(at) => at,
        None => {
            return None;
        },
    };
    let flags: u8 = pkt[at];
    let props: u8 = pkt[at + 1];
    let multiple = flags >= 128;
    let (length, p): (u32, usize) = match read_coded(pkt, at + 2, (flags / 32) % 4) {
        Some(r) => r,
        None => {
            return None;
        },
    };
    let (_sequence, p): (u32, usize) = match read_coded(pkt, p, (flags / 8) % 4) {
        Some(r) => r,
        None => {
            return None;
        },
    };
    let (padding, p): (u32, usize) = match read_coded(pkt, p, (flags / 2) % 4) {
        Some(r) => r,
        None => {
            return None;
        },
    };
    let whole: usize = if (flags / 32) % 4 == 0 || length as usize > pkt.len() {
        pkt.len()
    } else {
        length as usize
    };
    if pkt.len() - p < 6 {
        return None;
    }
    let p: usize = p + 6;
    if multiple && p >= pkt.len() {
        return None;
    }
    let end: usize = if padding as usize <= whole {
        whole - padding as usize
    } else {
        0
    };
    let (start, count, length_code): (usize, u8, u8) = if multiple {
        (p + 1, pkt[p] % 64, pkt[p] / 64)
    } else {
        (p, 1, 0)
    };
    Some(
        Layout {
            start,
            end,
            count,
            multiple,
            length_code,
            object_code: (props / 4) % 4,
            offset_code: (props / 16) % 4,
            replicated_code: (props / 64) % 4,
        },
    )
}

fn read_payload(pkt: &[u8], l: &Layout, p: usize) -> (data: Option<(usize, usize)>)
    requires
        l.sane(pkt@),
        p < pkt@.len(),
    ensures
        match data {
            Some((from, to)) => {
                &&& payload_at(pkt@, l.numbers(), p as int) == Some((from as int, to as int))
                &&& from <= to <= pkt@.len()
            },
            None => payload_at(pkt@, l.numbers(), p as int) is None,
        },
{
    let end: usize = pkt.len();
    assert(p < end);
    let (_object, p): (u32, usize) = match read_coded(pkt, p + 1, l.object_code) {
        Some(r) => r,
        None => {
            return None;
        },
    };
    let (_offset, p): (u32, usize) = match read_coded(pkt, p, l.offset_code) {
        Some(r) => r,
        None => {
            return None;
        },
    };
    let (replicated, p): (u32, usize) = match read_coded(pkt, p, l.replicated_code) {
        Some(r) => r,
        None => {
            return None;
        },
    };
    if replicated as usize > pkt.len() - p {
        return None;
    }
    let p: usize = p + replicated as usize;
    if l.multiple && l.length_code > 0 {
        let (len, p): (u32, usize) = match read_coded(pkt, p, l.length_code) {
            Some(r) => r,
            None => {
                return None;
            },
        };
        if len as usize > pkt.len() - p {
            return None;
        }
        Some((p, p + len as usize))
    } else if p <= l.end {
        Some((p, l.end))
    } else {
        None
    }
}

/// Extract the payloads of one data packet.
pub fn parse_one_packet(pkt: &[u8]) -> (payloads: Vec<Vec<u8>>)
    ensures
        strings_view(payloads@) == packet_payloads(pkt@),
{
    let mut out: Vec<Vec<u8>> = Vec::new();
    assert(strings_view(out@) =~= Seq::<Seq<u8>>::empty());
    let l = match read_layout(pkt) {
        Some(l) => l,
        None => {
            return out;
        },
    };
    let ghost numbers = l.numbers();
    let mut p: usize = l.start;
    let mut left: u8 = l.count;
    assert(strings_view(out@) + payloads_from(pkt@, numbers, left as nat, p as int)
        =~= packet_payloads(pkt@));
    while left > 0 && p < l.end
        invariant
            l.sane(pkt@),
            numbers == l.numbers(),
            p <= pkt@.len(),
            strings_view(out@) + payloads_from(pkt@, numbers, left as nat, p as int)
                == packet_payloads(pkt@),
        decreases left,
    {
        match read_payload(pkt, &l, p) {
            Some((from, to)) => {
                let ghost before = out@;
                let ghost tail = payloads_from(pkt@, numbers, (left - 1) as nat, to as int);
                out.push(vstd::slice::slice_to_vec(vstd::slice::slice_subrange(pkt, from, to)));
                proof {
                    let one = pkt@.subrange(from as int, to as int);
                    assert(strings_view(out@) =~= strings_view(before).push(one));
                    assert(strings_view(out@) + tail =~= strings_view(before) + (seq![one] + tail));
                }
                p = to;
                left = left - 1;
            },
            None => {
                assert(strings_view(out@) =~= packet_payloads(pkt@));
                return out;
            },
        }
    }
    assert(strings_view(out@) =~= packet_payloads(pkt@));
    out
}

/// The format and packet size that a header's objects give.
fn parse_header_objects(data: &[u8], end: usize) -> (found: (Option<WaveFormatEx>, Option<u32>))
    requires
        30 <= end <= data@.len(),
    ensures
        found_format(header_objects(data@, 30, end as int)) == (match found.0 {
            Some(w) => Some(w@),
            None => None,
        }),
        found_packet_size(header_objects(data@, 30, end as int)) == found.1,
{
    let mut wave: Option<WaveFormatEx> = None;
    let mut size: Option<u32> = None;
    let mut p: usize = 30;
    let ghost mut seen = Seq::<HeaderObject>::empty();
    assert(seen + header_objects(data@, 30, end as int) =~= header_objects(data@, 30, end as int));
    while end - p >= 24
        invariant
            30 <= p <= end <= data@.len(),
            seen + header_objects(data@, p as int, end as int) == header_objects(
                data@,
                30,
                end as int,
            ),
            found_format(seen) == (match wave {
                Some(w) => Some(w@),
                None => None,
            }),
            found_packet_size(seen) == size,
        decreases end - p,
    {
        let object_size: u64 = read_le64(data, p + 16);
        if object_size < 24 || object_size > (end - p) as u64 {
            assert(seen =~= header_objects(data@, 30, end as int));
            return (wave, size);
        }
        let next: usize = p + object_size as usize;
        let body = vstd::slice::slice_subrange(data, p + 24, next);
        let ghost object = (data@.subrange(p as int, p + 16), body@);
        let ghost before = seen;
        let ghost rest = header_objects(data@, next as int, end as int);
        proof {
            assert(before + (seq![object] + rest) =~= before.push(object) + rest);
            assert(before.push(object).drop_last() =~= before);
            seen = before.push(object);
            assert(ASF_STREAM_PROPS_GUID@[0] != ASF_FILE_PROPS_GUID@[0]);
        }
        if guid_at(data, p, &ASF_STREAM_PROPS_GUID) {
            if let Ok(w) = parse_stream_props(body) {
                wave = Some(w);
            }
        } else if guid_at(data, p, &ASF_FILE_PROPS_GUID) {
            size = parse_file_props_packet_size(body);
        }
        p = next;
    }
    assert(seen =~= header_objects(data@, 30, end as int));
    (wave, size)
}

/// The payloads of all packets, joined.
fn collect_stream(data: &[u8], start: usize, end: usize, stride: usize) -> (bytes: Vec<u8>)
    requires
        start <= end <= data@.len(),
        stride > 0,
    ensures
        bytes@ == stream_bytes(data@, start as int, end as int, stride as int),
{
    let mut bytes: Vec<u8> = Vec::new();
    let mut p: usize = start;
    let ghost whole = stream_bytes(data@, start as int, end as int, stride as int);
    assert(bytes@ + whole =~= whole);
    while end - p >= stride
        invariant
            start <= p <= end <= data@.len(),
            stride > 0,
            bytes@ + stream_bytes(data@, p as int, end as int, stride as int) == whole,
        decreases end - p,
    {
        let pkt = vstd::slice::slice_subrange(data, p, p + stride);
        let payloads: Vec<Vec<u8>> = parse_one_packet(pkt);
        let ghost before = bytes@;
        let ghost parts = strings_view(payloads@);
        let mut i: usize = 0;
        assert(before + joined(parts.take(0)) =~= before);
        while i < payloads.len()
            invariant
                i <= payloads@.len(),
                parts == strings_view(payloads@),
                bytes@ == before + joined(parts.take(i as int)),
            decreases payloads@.len() - i,
        {
            let ghost sofar = bytes@;
            bytes.extend_from_slice(payloads[i].as_slice());
            proof {
                assert(bytes@ =~= sofar + payloads@[i as int]@);
                assert(parts.take(i + 1).drop_last() =~= parts.take(i as int));
                assert(bytes@ =~= before + joined(parts.take(i + 1)));
            }
            i = i + 1;
        }
        proof {
            assert(parts.take(i as int) =~= parts);
            let rest = stream_bytes(data@, p + stride, end as int, stride as int);
            assert(before + (joined(parts) + rest) =~= bytes@ + rest);
        }
        p = p + stride;
    }
    assert(bytes@ =~= whole);
    bytes
}

/// Cut a byte string into whole pieces of `size` bytes.
fn cut(bytes: &Vec<u8>, size: usize) -> (out: Vec<Vec<u8>>)
    requires
        size > 0,
    ensures
        strings_view(out@) == pieces(bytes@, size as int),
{
    let mut out: Vec<Vec<u8>> = Vec::new();
    let mut q: usize = 0;
    assert(0 * size == 0) by (nonlinear_arith);
    while bytes.len() - q >= size
        invariant
            size > 0,
            q <= bytes@.len(),
            q == out@.len() * size,
            forall|i: int|
                0 <= i < out@.len() ==> (#[trigger] out@[i])@ == bytes@.subrange(
                    i * size,
                    i * size + size,
                ),
        decreases bytes@.len() - q,
    {
        let piece = vstd::slice::slice_subrange(bytes.as_slice(), q, q + size);
        let ghost k = out@.len() as int;
        out.push(vstd::slice::slice_to_vec(piece));
        assert((k + 1) * size == k * size + size) by (nonlinear_arith);
        q = q + size;
    }
    proof {
        let k = out@.len() as int;
        let n = bytes@.len() as int;
        assert(n / size as int == k) by (nonlinear_arith)
            requires
                k * size <= n < k * size + size,
                size > 0,
        ;
        assert(strings_view(out@) =~= pieces(bytes@, size as int));
    }
    out
}

/// Parse an ASF file held in memory: its audio format and its superframes.
pub fn parse(data: &[u8]) -> (file: Result<AsfFile, AsfError>)
    ensures
        file_contents(data@) == (match file {
            Ok(f) => Ok::<(WaveFields, Seq<Seq<u8>>), AsfError>(
                (f.waveformatex@, strings_view(f.packets@)),
            ),
            Err(e) => Err(e),
        }),
{
    proof {
        if data@.len() >= 16 {
            assert(data@.take(16) =~= data@.subrange(0, 16));
        }
    }
    if data.len() < 30 || !guid_at(data, 0, &ASF_HEADER_GUID) {
        return Err(AsfError::MissingHeader);
    }
    let header_size: u64 = read_le64(data, 16);
    if header_size < 30 || header_size > data.len() as u64 {
        return Err(AsfError::HeaderSize);
    }
    let header_end: usize = header_size as usize;
    let (wave, packet_size): (Option<WaveFormatEx>, Option<u32>) = parse_header_objects(
        data,
        header_end,
    );
    let waveformatex = match wave {
        Some(w) => w,
        None => {
            return Err(AsfError::NoStreamProperties);
        },
    };
    let stride: usize = match packet_size {
        Some(n) => n as usize,
        None => {
            return Err(AsfError::NoFileProperties);
        },
    };
    if data.len() - header_end < 24 || !guid_at(data, header_end, &ASF_DATA_GUID) {
        return Err(AsfError::MissingData);
    }
    let data_size: u64 = read_le64(data, header_end + 16);
    if data_size < 50 || data_size > (data.len() - header_end) as u64 {
        return Err(AsfError::DataSize);
    }
    if stride == 0 {
        return Err(AsfError::ZeroPacketSize);
    }
    let bytes: Vec<u8> = collect_stream(
        data,
        header_end + 50,
        header_end + data_size as usize,
        stride,
    );
    let block_align: usize = waveformatex.block_align as usize;
    if block_align == 0 {
        return Err(AsfError::ZeroBlockAlign);
    }
    let packets: Vec<Vec<u8>> = cut(&bytes, block_align);
    Ok(AsfFile { waveformatex, packets })
}

/// Every superframe has the format's block size.
pub proof fn superframes_have_block_size(data: Seq<u8>)
    ensures
        file_contents(data) matches Ok((wave, frames)) ==> forall|i: int|
            0 <= i < frames.len() ==> (#[trigger] frames[i]).len() == wave.block_align,
{
    if let Ok((wave, frames)) = file_contents(data) {
        let size = wave.block_align as int;
        let header = number_at(data, 16, 8) as int;
        let objects = header_objects(data, 30, header);
        let body = number_at(data, header + 16, 8) as int;
        let stride = found_packet_size(objects)->0 as int;
        let bytes = stream_bytes(data, header + 50, header + body, stride);
        assert forall|i: int| 0 <= i < frames.len() implies (#[trigger] frames[i]).len() == size by {
            let n = bytes.len() as int;
            assert(0 <= i * size && i * size + size <= n) by (nonlinear_arith)
                requires
                    0 <= i < n / size,
                    size > 0,
            ;
        }
    }
}

} // verus!
