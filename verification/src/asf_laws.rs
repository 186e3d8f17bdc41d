//! How ASF files are spelled, and that parsing gives back what was spelled.
use crate::asf::{
    coded_number, file_contents, file_packet_size, found_format, found_packet_size, header_objects,
    joined, number_at, packet_layout, packet_payloads, payload_at, payloads_from, pieces,
    stream_bytes, stream_format, AsfError, HeaderObject, PacketLayout, WaveFields, ASF_DATA_GUID,
    ASF_FILE_PROPS_GUID, ASF_HEADER_GUID, ASF_STREAM_PROPS_GUID,
};
use crate::header::{lemma_byte_powers, lemma_spelled_len, spelled, spelled_numbers_are_read_back};
use vstd::arithmetic::power::pow;
use vstd::prelude::*;

verus! {

// ------------------------------------------------------------ parts of byte strings

/// Whether a byte string holds a part at `p`.
#[verifier::opaque]
spec fn holds(all: Seq<u8>, p: int, part: Seq<u8>) -> bool {
    &&& 0 <= p
    &&& p + part.len() <= all.len()
    &&& all.subrange(p, p + part.len()) == part
}

proof fn lemma_holds_itself(all: Seq<u8>)
    ensures
        holds(all, 0, all),
{
    reveal(holds);
    assert(all.subrange(0, all.len() as int) =~= all);
}

proof fn lemma_holds_part(all: Seq<u8>, p: int, part: Seq<u8>)
    requires
        holds(all, p, part),
    ensures
        0 <= p,
        p + part.len() <= all.len(),
        all.subrange(p, p + part.len()) == part,
{
    reveal(holds);
}

proof fn lemma_holds_both(all: Seq<u8>, p: int, a: Seq<u8>, b: Seq<u8>)
    requires
        holds(all, p, a + b),
    ensures
        holds(all, p, a),
        holds(all, p + a.len(), b),
        0 <= p,
        p + a.len() + b.len() <= all.len(),
        all.subrange(p + a.len(), p + a.len() + b.len()) == b,
{
    reveal(holds);
    let both = all.subrange(p, p + a.len() + b.len());
    assert(all.subrange(p, p + a.len()) =~= both.subrange(0, a.len() as int));
    assert((a + b).subrange(0, a.len() as int) =~= a);
    assert(all.subrange(p + a.len(), p + a.len() + b.len()) =~= both.subrange(
        a.len() as int,
        (a.len() + b.len()) as int,
    ));
    assert((a + b).subrange(a.len() as int, (a.len() + b.len()) as int) =~= b);
}

proof fn lemma_holds_byte(all: Seq<u8>, p: int, b: u8)
    requires
        holds(all, p, seq![b]),
    ensures
        all[p] == b,
{
    reveal(holds);
    assert(all.subrange(p, p + 1)[0] == b);
}

proof fn lemma_holds_number(all: Seq<u8>, p: int, v: nat, n: nat)
    requires
        holds(all, p, spelled(v, n)),
        v < pow(256, n),
    ensures
        number_at(all, p, n as int) == v,
        p + n <= all.len(),
{
    reveal(holds);
    spelled_numbers_are_read_back(v, n);
}

// ------------------------------------------------------------ data packets

/// Bytes of a number whose width has a code from zero to three: none, one, two or four.
pub open spec fn width_of(code: int) -> nat {
    if code < 3 {
        code as nat
    } else {
        4
    }
}

/// The fields of a packet.
pub struct PacketFields {
    /// The error correction data: a byte below 128, or one from 128 on and as many more as
    /// its low four bits say.
    pub lead: Seq<u8>,
    /// Width code of the packet's length.
    pub length_code: int,
    /// The packet's length.
    pub length: nat,
    /// Width code of the sequence number.
    pub sequence_code: int,
    /// The sequence number.
    pub sequence: nat,
    /// Width code of the padding's length.
    pub padding_code: int,
    /// Width code of the payloads' object numbers.
    pub object_code: int,
    /// Width code of the payloads' offsets.
    pub offset_code: int,
    /// Width code of the lengths of the payloads' replicated data.
    pub replicated_code: int,
    /// The lowest bit of the length flags.
    pub spare_flag: int,
    /// The lowest two bits of the property flags.
    pub spare_props: int,
    /// The send time and the duration.
    pub times: Seq<u8>,
}

/// Whether the fields can be spelled.
pub open spec fn fields_fit(f: PacketFields, padding: nat) -> bool {
    &&& f.lead.len() > 0
    &&& f.lead.len() == 1 + if f.lead[0] >= 128 {
        f.lead[0] as int % 16
    } else {
        0int
    }
    &&& 0 <= f.length_code < 4
    &&& 0 <= f.sequence_code < 4
    &&& 0 <= f.padding_code < 4
    &&& 0 <= f.object_code < 4
    &&& 0 <= f.offset_code < 4
    &&& 0 <= f.replicated_code < 4
    &&& 0 <= f.spare_flag < 2
    &&& 0 <= f.spare_props < 4
    &&& f.times.len() == 6
    &&& f.length < pow(256, width_of(f.length_code))
    &&& f.sequence < pow(256, width_of(f.sequence_code))
    &&& padding < pow(256, width_of(f.padding_code))
}

/// The bytes of a packet up to its payloads: the error correction data; the length flags,
/// which hold from the top whether there are several payloads and the codes of the
/// packet's length, of the sequence number and of the padding's length; the property
/// flags, which hold from the top the codes of a payload's replicated data, offset and
/// object number; the three numbers; and the times.
pub open spec fn head_text(f: PacketFields, several: bool, padding: nat) -> Seq<u8> {
    let flags = (if several {
        128int
    } else {
        0
    }) + 32 * f.length_code + 8 * f.sequence_code + 2 * f.padding_code + f.spare_flag;
    let props = 64 * f.replicated_code + 16 * f.offset_code + 4 * f.object_code + f.spare_props;
    f.lead + seq![flags as u8] + seq![props as u8] + spelled(f.length, width_of(f.length_code))
        + spelled(f.sequence, width_of(f.sequence_code)) + spelled(
        padding,
        width_of(f.padding_code),
    ) + f.times
}

/// A payload.
pub struct Payload {
    /// The stream number.
    pub stream: u8,
    /// The object number.
    pub object: nat,
    /// The offset into the object.
    pub offset: nat,
    /// The replicated data.
    pub replicated: Seq<u8>,
    /// The data.
    pub data: Seq<u8>,
}

/// Whether a payload's numbers can be spelled.
pub open spec fn payload_fits(f: PacketFields, p: Payload) -> bool {
    &&& p.object < pow(256, width_of(f.object_code))
    &&& p.offset < pow(256, width_of(f.offset_code))
    &&& p.replicated.len() < pow(256, width_of(f.replicated_code))
}

/// The bytes of a payload up to its data: the stream number, the object number, the
/// offset, and the replicated data after its length.
pub open spec fn payload_head(f: PacketFields, p: Payload) -> Seq<u8> {
    seq![p.stream] + spelled(p.object, width_of(f.object_code)) + spelled(
        p.offset,
        width_of(f.offset_code),
    ) + spelled(p.replicated.len(), width_of(f.replicated_code)) + p.replicated
}

/// The bytes of a packet with one payload: after the packet's fields those of the payload,
/// its data, the padding, and whatever lies past the packet's length.
pub open spec fn single_text(f: PacketFields, p: Payload, padding: Seq<u8>, slack: Seq<u8>) -> Seq<
    u8,
> {
    head_text(f, false, padding.len()) + payload_head(f, p) + p.data + padding + slack
}

/// Whether a packet of `len` bytes, `slack` of them past its end, says how long it is: it
/// says nothing and all of it counts, or it gives its length.
pub open spec fn length_says(f: PacketFields, len: nat, slack: nat) -> bool {
    if f.length_code == 0 || f.length > len {
        slack == 0
    } else {
        f.length == len - slack
    }
}

proof fn lemma_coded(all: Seq<u8>, p: int, v: nat, code: int)
    requires
        0 <= code < 4,
        holds(all, p, spelled(v, width_of(code))),
        v < pow(256, width_of(code)),
    ensures
        coded_number(all, p, code) == Some((v, p + width_of(code))),
{
    lemma_holds_number(all, p, v, width_of(code));
}

proof fn lemma_head_len(f: PacketFields, several: bool, padding: nat)
    requires
        fields_fit(f, padding),
    ensures
        head_text(f, several, padding).len() == f.lead.len() + 8 + width_of(f.length_code)
            + width_of(f.sequence_code) + width_of(f.padding_code),
{
    lemma_spelled_len(f.length, width_of(f.length_code));
    lemma_spelled_len(f.sequence, width_of(f.sequence_code));
    lemma_spelled_len(padding, width_of(f.padding_code));
}

/// Where a packet's parts up to the payloads are.
proof fn lemma_head_parts(all: Seq<u8>, f: PacketFields, several: bool, padding: nat)
    requires
        fields_fit(f, padding),
        holds(all, 0, head_text(f, several, padding)),
    ensures
        ({
            let at = f.lead.len() as int;
            let flags = (if several {
                128int
            } else {
                0
            }) + 32 * f.length_code + 8 * f.sequence_code + 2 * f.padding_code + f.spare_flag;
            let props = 64 * f.replicated_code + 16 * f.offset_code + 4 * f.object_code
                + f.spare_props;
            let a = at + 2 + width_of(f.length_code);
            let b = a + width_of(f.sequence_code);
            &&& holds(all, 0, f.lead)
            &&& all[at] == flags
            &&& all[at + 1] == props
            &&& holds(all, at + 2, spelled(f.length, width_of(f.length_code)))
            &&& holds(all, a, spelled(f.sequence, width_of(f.sequence_code)))
            &&& holds(all, b, spelled(padding, width_of(f.padding_code)))
            &&& b + width_of(f.padding_code) + 6 <= all.len()
        }),
{
    let at = f.lead.len() as int;
    let flags = (if several {
        128int
    } else {
        0
    }) + 32 * f.length_code + 8 * f.sequence_code + 2 * f.padding_code + f.spare_flag;
    let props = 64 * f.replicated_code + 16 * f.offset_code + 4 * f.object_code + f.spare_props;
    let one = f.lead + seq![flags as u8];
    let two = one + seq![props as u8];
    let three = two + spelled(f.length, width_of(f.length_code));
    let four = three + spelled(f.sequence, width_of(f.sequence_code));
    let five = four + spelled(padding, width_of(f.padding_code));
    lemma_spelled_len(f.length, width_of(f.length_code));
    lemma_spelled_len(f.sequence, width_of(f.sequence_code));
    lemma_spelled_len(padding, width_of(f.padding_code));
    lemma_holds_both(all, 0, five, f.times);
    lemma_holds_both(all, 0, four, spelled(padding, width_of(f.padding_code)));
    lemma_holds_both(all, 0, three, spelled(f.sequence, width_of(f.sequence_code)));
    lemma_holds_both(all, 0, two, spelled(f.length, width_of(f.length_code)));
    lemma_holds_both(all, 0, one, seq![props as u8]);
    lemma_holds_both(all, 0, f.lead, seq![flags as u8]);
    lemma_holds_byte(all, at, flags as u8);
    lemma_holds_byte(all, at + 1, props as u8);
}

proof fn lemma_flag_codes(several: bool, a: int, b: int, c: int, d: int)
    requires
        0 <= a < 4,
        0 <= b < 4,
        0 <= c < 4,
        0 <= d < 2,
    ensures
        ({
            let flags = (if several {
                128int
            } else {
                0
            }) + 32 * a + 8 * b + 2 * c + d;
            &&& (flags / 32) % 4 == a
            &&& (flags / 8) % 4 == b
            &&& (flags / 2) % 4 == c
            &&& (flags >= 128) == several
        }),
{
    let top = if several {
        4int
    } else {
        0
    };
    let flags = 32 * top + 32 * a + 8 * b + 2 * c + d;
    assert(flags / 32 == top + a);
    assert(flags / 8 == 4 * (top + a) + b);
    assert(flags / 2 == 4 * (4 * (top + a) + b) + c);
    assert((4 * (top + a) + b) % 4 == b);
    assert((4 * (4 * (top + a) + b) + c) % 4 == c);
}

proof fn lemma_prop_codes(a: int, b: int, c: int, d: int)
    requires
        0 <= a < 4,
        0 <= b < 4,
        0 <= c < 4,
        0 <= d < 4,
    ensures
        ({
            let props = 64 * a + 16 * b + 4 * c + d;
            &&& (props / 64) % 4 == a
            &&& (props / 16) % 4 == b
            &&& (props / 4) % 4 == c
        }),
{
    let props = 64 * a + 16 * b + 4 * c + d;
    assert(props / 64 == a);
    assert(props / 16 == 4 * a + b);
    assert(props / 4 == 4 * (4 * a + b) + c);
    assert((4 * a + b) % 4 == b);
    assert((4 * (4 * a + b) + c) % 4 == c);
}

/// Where a packet's length flags are.
proof fn lemma_flags_at(all: Seq<u8>, lead: Seq<u8>)
    requires
        lead.len() > 0,
        lead.len() == 1 + if lead[0] >= 128 {
            lead[0] as int % 16
        } else {
            0int
        },
        holds(all, 0, lead),
        lead.len() + 2 <= all.len(),
    ensures
        crate::asf::flags_at(all) == Some(lead.len() as int),
{
    reveal(holds);
    assert(all.subrange(0, lead.len() as int)[0] == lead[0]);
}

/// The three numbers after the flags.
proof fn lemma_head_numbers(all: Seq<u8>, f: PacketFields, several: bool, padding: nat)
    requires
        fields_fit(f, padding),
        holds(all, 0, head_text(f, several, padding)),
    ensures
        ({
            let at = f.lead.len() as int;
            let flags = all[at] as int;
            let props = all[at + 1] as int;
            let a = at + 2 + width_of(f.length_code);
            let b = a + width_of(f.sequence_code);
            let c = b + width_of(f.padding_code);
            &&& crate::asf::flags_at(all) == Some(at)
            &&& (flags / 32) % 4 == f.length_code
            &&& (flags / 8) % 4 == f.sequence_code
            &&& (flags / 2) % 4 == f.padding_code
            &&& (flags >= 128) == several
            &&& (props / 64) % 4 == f.replicated_code
            &&& (props / 16) % 4 == f.offset_code
            &&& (props / 4) % 4 == f.object_code
            &&& coded_number(all, at + 2, f.length_code) == Some((f.length, a))
            &&& coded_number(all, a, f.sequence_code) == Some((f.sequence, b))
            &&& coded_number(all, b, f.padding_code) == Some((padding, c))
            &&& c + 6 <= all.len()
        }),
{
    let at = f.lead.len() as int;
    lemma_head_parts(all, f, several, padding);
    lemma_flags_at(all, f.lead);
    let a = at + 2 + width_of(f.length_code);
    let b = a + width_of(f.sequence_code);
    lemma_coded(all, at + 2, f.length, f.length_code);
    lemma_coded(all, a, f.sequence, f.sequence_code);
    lemma_coded(all, b, padding, f.padding_code);
    lemma_flag_codes(several, f.length_code, f.sequence_code, f.padding_code, f.spare_flag);
    lemma_prop_codes(f.replicated_code, f.offset_code, f.object_code, f.spare_props);
}

/// The layout that a packet's fields give.
proof fn lemma_layout(all: Seq<u8>, f: PacketFields, several: bool, padding: nat)
    requires
        fields_fit(f, padding),
        holds(all, 0, head_text(f, several, padding)),
        several ==> all.len() > head_text(f, several, padding).len(),
    ensures
        ({
            let p = head_text(f, several, padding).len() as int;
            let whole = if f.length_code == 0 || f.length > all.len() {
                all.len() as int
            } else {
                f.length as int
            };
            packet_layout(all) == Some(
                PacketLayout {
                    start: if several {
                        p + 1
                    } else {
                        p
                    },
                    end: if padding <= whole {
                        whole - padding
                    } else {
                        0
                    },
                    count: if several {
                        (all[p] % 64) as nat
                    } else {
                        1
                    },
                    multiple: several,
                    length_code: if several {
                        all[p] as int / 64
                    } else {
                        0
                    },
                    object_code: f.object_code,
                    offset_code: f.offset_code,
                    replicated_code: f.replicated_code,
                },
            )
        }),
{
    lemma_head_len(f, several, padding);
    lemma_head_numbers(all, f, several, padding);
}

/// The bytes up to a payload's data are passed over.
proof fn lemma_payload_head(all: Seq<u8>, f: PacketFields, l: PacketLayout, q: int, p: Payload)
    requires
        0 <= f.object_code < 4,
        0 <= f.offset_code < 4,
        0 <= f.replicated_code < 4,
        l.object_code == f.object_code,
        l.offset_code == f.offset_code,
        l.replicated_code == f.replicated_code,
        payload_fits(f, p),
        holds(all, q, payload_head(f, p)),
    ensures
        ({
            let from = q + payload_head(f, p).len();
            payload_at(all, l, q) == if l.multiple && l.length_code > 0 {
                match coded_number(all, from, l.length_code) {
                    Some((len, at)) if at + len <= all.len() => Some((at, (at + len) as int)),
                    _ => None,
                }
            } else if from <= l.end {
                Some((from, l.end))
            } else {
                None
            }
        }),
{
    let one = seq![p.stream];
    let two = one + spelled(p.object, width_of(f.object_code));
    let three = two + spelled(p.offset, width_of(f.offset_code));
    let n = p.replicated.len();
    let four = three + spelled(n, width_of(f.replicated_code));
    lemma_spelled_len(p.object, width_of(f.object_code));
    lemma_spelled_len(p.offset, width_of(f.offset_code));
    lemma_spelled_len(n, width_of(f.replicated_code));
    lemma_holds_both(all, q, four, p.replicated);
    lemma_holds_both(all, q, three, spelled(n, width_of(f.replicated_code)));
    lemma_holds_both(all, q, two, spelled(p.offset, width_of(f.offset_code)));
    lemma_holds_both(all, q, one, spelled(p.object, width_of(f.object_code)));
    lemma_coded(all, q + 1, p.object, f.object_code);
    lemma_coded(all, q + two.len(), p.offset, f.offset_code);
    lemma_coded(all, q + three.len(), n, f.replicated_code);
}

/// A packet with one payload holds just that payload's data: neither its fields, nor the
/// replicated data, nor the padding, nor what lies past its length.
pub proof fn single_payloads_are_read_back(
    f: PacketFields,
    p: Payload,
    padding: Seq<u8>,
    slack: Seq<u8>,
)
    requires
        fields_fit(f, padding.len()),
        payload_fits(f, p),
        length_says(f, single_text(f, p, padding, slack).len(), slack.len()),
    ensures
        packet_payloads(single_text(f, p, padding, slack)) == seq![p.data],
{
    let all = single_text(f, p, padding, slack);
    let head = head_text(f, false, padding.len());
    let own = payload_head(f, p);
    lemma_holds_itself(all);
    lemma_holds_both(all, 0, head + own + p.data + padding, slack);
    lemma_holds_both(all, 0, head + own + p.data, padding);
    lemma_holds_both(all, 0, head + own, p.data);
    lemma_holds_both(all, 0, head, own);
    lemma_layout(all, f, false, padding.len());
    let l = packet_layout(all)->0;
    lemma_payload_head(all, f, l, head.len() as int, p);
    let from = (head.len() + own.len()) as int;
    assert(l.end == from + p.data.len());
    assert(payload_at(all, l, l.start) == Some((from, l.end)));
    assert(all.subrange(from, l.end) == p.data);
    reveal_with_fuel(payloads_from, 2);
    assert(payloads_from(all, l, 0, l.end) =~= Seq::<Seq<u8>>::empty());
    assert(packet_payloads(all) =~= seq![p.data]);
}

/// The bytes of payloads that give the lengths of their data, one after the other.
pub open spec fn payloads_text(f: PacketFields, length_code: int, ps: Seq<Payload>) -> Seq<u8>
    decreases ps.len(),
{
    if ps.len() == 0 {
        Seq::empty()
    } else {
        payload_head(f, ps[0]) + spelled(ps[0].data.len(), width_of(length_code)) + ps[0].data
            + payloads_text(f, length_code, ps.skip(1))
    }
}

/// The bytes of a packet with several payloads: after the packet's fields a byte with the
/// code of the data lengths in its top two bits and the number of payloads in the others;
/// then the payloads, the padding, and whatever lies past the packet's length.
pub open spec fn several_text(
    f: PacketFields,
    length_code: int,
    ps: Seq<Payload>,
    padding: Seq<u8>,
    slack: Seq<u8>,
) -> Seq<u8> {
    head_text(f, true, padding.len()) + seq![(64 * length_code + ps.len()) as u8] + payloads_text(
        f,
        length_code,
        ps,
    ) + padding + slack
}

/// The data of payloads.
pub open spec fn data_of(ps: Seq<Payload>) -> Seq<Seq<u8>> {
    Seq::new(ps.len(), |k: int| ps[k].data)
}

/// One payload that gives the length of its data.
proof fn lemma_measured_payload(
    all: Seq<u8>,
    f: PacketFields,
    l: PacketLayout,
    p: Payload,
    rest: Seq<u8>,
    q: int,
)
    requires
        0 <= f.object_code < 4,
        0 <= f.offset_code < 4,
        0 <= f.replicated_code < 4,
        l.object_code == f.object_code,
        l.offset_code == f.offset_code,
        l.replicated_code == f.replicated_code,
        l.multiple,
        0 < l.length_code < 4,
        payload_fits(f, p),
        p.data.len() < pow(256, width_of(l.length_code)),
        holds(
            all,
            q,
            payload_head(f, p) + spelled(p.data.len(), width_of(l.length_code)) + p.data + rest,
        ),
    ensures
        ({
            let from = q + payload_head(f, p).len() + width_of(l.length_code);
            let to = from + p.data.len();
            &&& payload_at(all, l, q) == Some((from, to))
            &&& all.subrange(from, to) == p.data
            &&& holds(all, to, rest)
            &&& 0 <= q < from <= to <= all.len()
        }),
{
    let own = payload_head(f, p);
    let width = width_of(l.length_code);
    let len = spelled(p.data.len(), width);
    lemma_spelled_len(p.data.len(), width);
    lemma_holds_both(all, q, own + len + p.data, rest);
    lemma_holds_both(all, q, own + len, p.data);
    lemma_holds_both(all, q, own, len);
    lemma_payload_head(all, f, l, q, p);
    lemma_coded(all, q + own.len(), p.data.len(), l.length_code);
}

proof fn lemma_payloads_read(
    all: Seq<u8>,
    f: PacketFields,
    l: PacketLayout,
    ps: Seq<Payload>,
    count: nat,
    q: int,
)
    requires
        0 <= f.object_code < 4,
        0 <= f.offset_code < 4,
        0 <= f.replicated_code < 4,
        l.object_code == f.object_code,
        l.offset_code == f.offset_code,
        l.replicated_code == f.replicated_code,
        l.multiple,
        0 < l.length_code < 4,
        forall|k: int|
            0 <= k < ps.len() ==> payload_fits(f, #[trigger] ps[k]) && ps[k].data.len() < pow(
                256,
                width_of(l.length_code),
            ),
        holds(all, q, payloads_text(f, l.length_code, ps)),
        q + payloads_text(f, l.length_code, ps).len() <= l.end,
        ps.len() <= count,
    ensures
        payloads_from(all, l, count, q) == data_of(ps) + payloads_from(
            all,
            l,
            (count - ps.len()) as nat,
            q + payloads_text(f, l.length_code, ps).len(),
        ),
    decreases ps.len(),
{
    let last = payloads_from(
        all,
        l,
        (count - ps.len()) as nat,
        q + payloads_text(f, l.length_code, ps).len(),
    );
    if ps.len() == 0 {
        assert(data_of(ps) + last =~= last);
    } else {
        let p = ps[0];
        let tail = ps.skip(1);
        let own = payload_head(f, p);
        let width = width_of(l.length_code);
        let rest = payloads_text(f, l.length_code, tail);
        assert(payload_fits(f, p));
        lemma_spelled_len(p.data.len(), width);
        lemma_measured_payload(all, f, l, p, rest, q);
        let to = q + own.len() + width + p.data.len();
        assert forall|k: int| 0 <= k < tail.len() implies payload_fits(f, #[trigger] tail[k])
            && tail[k].data.len() < pow(256, width) by {
            assert(tail[k] == ps[k + 1]);
        }
        lemma_payloads_read(all, f, l, tail, (count - 1) as nat, to);
        assert(data_of(ps) =~= seq![p.data] + data_of(tail));
        assert(data_of(ps) + last =~= seq![p.data] + (data_of(tail) + last));
    }
}

proof fn lemma_count_byte(length_code: int, n: int)
    requires
        0 <= length_code < 4,
        0 <= n < 64,
    ensures
        (64 * length_code + n) as u8 % 64 == n,
        (64 * length_code + n) as u8 / 64 == length_code,
{
    let count = 64 * length_code + n;
    assert(count / 64 == length_code);
    assert(count % 64 == n);
}

/// The layout that a packet with several payloads has.
proof fn lemma_several_layout(
    f: PacketFields,
    length_code: int,
    ps: Seq<Payload>,
    padding: Seq<u8>,
    slack: Seq<u8>,
)
    requires
        fields_fit(f, padding.len()),
        0 < length_code < 4,
        ps.len() < 64,
        length_says(f, several_text(f, length_code, ps, padding, slack).len(), slack.len()),
    ensures
        ({
            let all = several_text(f, length_code, ps, padding, slack);
            &&& packet_layout(all) is Some
            &&& packet_layout(all)->0.count == ps.len()
            &&& packet_layout(all)->0.multiple
            &&& packet_layout(all)->0.length_code == length_code
            &&& packet_layout(all)->0.object_code == f.object_code
            &&& packet_layout(all)->0.offset_code == f.offset_code
            &&& packet_layout(all)->0.replicated_code == f.replicated_code
            &&& packet_layout(all)->0.end == packet_layout(all)->0.start + payloads_text(
                f,
                length_code,
                ps,
            ).len()
            &&& holds(all, packet_layout(all)->0.start, payloads_text(f, length_code, ps))
        }),
{
    let all = several_text(f, length_code, ps, padding, slack);
    let head = head_text(f, true, padding.len());
    let count = (64 * length_code + ps.len()) as u8;
    let text = payloads_text(f, length_code, ps);
    let three = head + seq![count] + text;
    assert(holds(all, 0, three)) by {
        lemma_holds_itself(all);
        lemma_holds_both(all, 0, three + padding, slack);
        lemma_holds_both(all, 0, three, padding);
    }
    assert(holds(all, (head.len() + 1) as int, text) && holds(all, 0, head) && all[head.len() as int]
        == count) by {
        lemma_holds_both(all, 0, head + seq![count], text);
        lemma_holds_both(all, 0, head, seq![count]);
        lemma_holds_byte(all, head.len() as int, count);
    }
    assert(all.len() == head.len() + 1 + text.len() + padding.len() + slack.len());
    lemma_layout(all, f, true, padding.len());
    lemma_count_byte(length_code, ps.len() as int);
}

/// A packet with several payloads that give the lengths of their data holds just the data
/// of each, in order.
pub proof fn several_payloads_are_read_back(
    f: PacketFields,
    length_code: int,
    ps: Seq<Payload>,
    padding: Seq<u8>,
    slack: Seq<u8>,
)
    requires
        fields_fit(f, padding.len()),
        0 < length_code < 4,
        ps.len() < 64,
        forall|k: int|
            0 <= k < ps.len() ==> payload_fits(f, #[trigger] ps[k]) && ps[k].data.len() < pow(
                256,
                width_of(length_code),
            ),
        length_says(f, several_text(f, length_code, ps, padding, slack).len(), slack.len()),
    ensures
        packet_payloads(several_text(f, length_code, ps, padding, slack)) == data_of(ps),
{
    let all = several_text(f, length_code, ps, padding, slack);
    lemma_several_layout(f, length_code, ps, padding, slack);
    let l = packet_layout(all)->0;
    lemma_payloads_read(all, f, l, ps, ps.len(), l.start);
    assert(packet_payloads(all) =~= data_of(ps));
}

/// A payload whose data is said to reach past the packet ends the packet: the payloads before
/// it are held, and it is not.
pub proof fn payloads_past_the_packet_are_left_out(
    f: PacketFields,
    length_code: int,
    ps: Seq<Payload>,
    p: Payload,
    stated: nat,
    count: int,
)
    requires
        fields_fit(f, 0),
        f.length_code == 0,
        0 < length_code < 4,
        ps.len() < count < 64,
        forall|k: int|
            0 <= k < ps.len() ==> payload_fits(f, #[trigger] ps[k]) && ps[k].data.len() < pow(
                256,
                width_of(length_code),
            ),
        payload_fits(f, p),
        p.data.len() < stated < pow(256, width_of(length_code)),
    ensures
        packet_payloads(
            head_text(f, true, 0) + seq![(64 * length_code + count) as u8] + payloads_text(
                f,
                length_code,
                ps,
            ) + payload_head(f, p) + spelled(stated, width_of(length_code)) + p.data,
        ) == data_of(ps),
{
    let head = head_text(f, true, 0);
    let byte = (64 * length_code + count) as u8;
    let text = payloads_text(f, length_code, ps);
    let own = payload_head(f, p);
    let width = width_of(length_code);
    let len = spelled(stated, width);
    let two = head + seq![byte];
    let all = two + text + own + len + p.data;
    lemma_spelled_len(stated, width);
    lemma_holds_itself(all);
    lemma_holds_both(all, 0, two + text + own + len, p.data);
    lemma_holds_both(all, 0, two + text + own, len);
    lemma_holds_both(all, 0, two + text, own);
    lemma_holds_both(all, 0, two, text);
    lemma_holds_both(all, 0, head, seq![byte]);
    lemma_holds_byte(all, head.len() as int, byte);
    lemma_layout(all, f, true, 0);
    lemma_count_byte(length_code, count);
    let l = packet_layout(all)->0;
    let q = (two.len() + text.len()) as int;
    lemma_payloads_read(all, f, l, ps, count as nat, l.start);
    lemma_payload_head(all, f, l, q, p);
    lemma_coded(all, q + own.len(), stated, length_code);
    assert(payloads_from(all, l, (count - ps.len()) as nat, q) =~= Seq::<Seq<u8>>::empty());
    assert(packet_payloads(all) =~= data_of(ps));
}

/// A packet with several payloads that do not give the lengths of their data holds one
/// payload, whose data reaches up to the padding.
pub proof fn payloads_without_lengths_reach_the_end(
    f: PacketFields,
    count: int,
    p: Payload,
    padding: Seq<u8>,
    slack: Seq<u8>,
)
    requires
        fields_fit(f, padding.len()),
        payload_fits(f, p),
        0 < count < 64,
        length_says(
            f,
            (head_text(f, true, padding.len()) + seq![count as u8] + payload_head(f, p) + p.data
                + padding + slack).len(),
            slack.len(),
        ),
    ensures
        packet_payloads(
            head_text(f, true, padding.len()) + seq![count as u8] + payload_head(f, p) + p.data
                + padding + slack,
        ) == seq![p.data],
{
    let two = head_text(f, true, padding.len()) + seq![count as u8];
    let own = payload_head(f, p);
    let all = two + own + p.data + padding + slack;
    lemma_unmeasured_layout(f, count, p, padding, slack);
    let l = packet_layout(all)->0;
    lemma_payload_head(all, f, l, two.len() as int, p);
    lemma_holds_part(all, (two.len() + own.len()) as int, p.data);
    reveal_with_fuel(payloads_from, 2);
    assert(payloads_from(all, l, (count - 1) as nat, l.end) =~= Seq::<Seq<u8>>::empty());
    assert(packet_payloads(all) =~= seq![p.data]);
}

proof fn lemma_unmeasured_layout(
    f: PacketFields,
    count: int,
    p: Payload,
    padding: Seq<u8>,
    slack: Seq<u8>,
)
    requires
        fields_fit(f, padding.len()),
        0 < count < 64,
        length_says(
            f,
            (head_text(f, true, padding.len()) + seq![count as u8] + payload_head(f, p) + p.data
                + padding + slack).len(),
            slack.len(),
        ),
    ensures
        ({
            let two = head_text(f, true, padding.len()) + seq![count as u8];
            let own = payload_head(f, p);
            let all = two + own + p.data + padding + slack;
            let from = (two.len() + own.len()) as int;
            &&& packet_layout(all) is Some
            &&& packet_layout(all)->0.start == two.len()
            &&& packet_layout(all)->0.end == from + p.data.len()
            &&& packet_layout(all)->0.count == count
            &&& packet_layout(all)->0.multiple
            &&& packet_layout(all)->0.length_code == 0
            &&& packet_layout(all)->0.object_code == f.object_code
            &&& packet_layout(all)->0.offset_code == f.offset_code
            &&& packet_layout(all)->0.replicated_code == f.replicated_code
            &&& holds(all, two.len() as int, own)
            &&& holds(all, from, p.data)
        }),
{
    let head = head_text(f, true, padding.len());
    let own = payload_head(f, p);
    let two = head + seq![count as u8];
    let all = two + own + p.data + padding + slack;
    assert(holds(all, 0, two + own + p.data)) by {
        lemma_holds_itself(all);
        lemma_holds_both(all, 0, two + own + p.data + padding, slack);
        lemma_holds_both(all, 0, two + own + p.data, padding);
    }
    lemma_holds_both(all, 0, two + own, p.data);
    lemma_holds_both(all, 0, two, own);
    assert(holds(all, 0, head) && all[head.len() as int] == count) by {
        lemma_holds_both(all, 0, head, seq![count as u8]);
        lemma_holds_byte(all, head.len() as int, count as u8);
    }
    assert(all.len() == two.len() + own.len() + p.data.len() + padding.len() + slack.len());
    lemma_layout(all, f, true, padding.len());
    lemma_count_byte(0, count);
}

/// A packet that ends before its payloads start holds nothing.
pub proof fn cut_packets_hold_nothing(f: PacketFields, several: bool, padding: nat, n: int)
    requires
        fields_fit(f, padding),
        0 <= n < head_text(f, several, padding).len(),
    ensures
        packet_payloads(head_text(f, several, padding).take(n)) == Seq::<Seq<u8>>::empty(),
{
    let head = head_text(f, several, padding);
    let pkt = head.take(n);
    let at = f.lead.len() as int;
    lemma_head_len(f, several, padding);
    lemma_holds_itself(head);
    lemma_head_numbers(head, f, several, padding);
    assert(head.subrange(0, at)[0] == f.lead[0]) by {
        lemma_head_parts(head, f, several, padding);
    }
    if n > 0 {
        assert(pkt[0] == f.lead[0]);
    }
    if n >= at + 2 {
        assert(pkt[at] == head[at]);
        assert(crate::asf::flags_at(pkt) == Some(at));
        let a = at + 2 + width_of(f.length_code);
        let b = a + width_of(f.sequence_code);
        let c = b + width_of(f.padding_code);
        if n >= a {
            assert(coded_number(pkt, at + 2, f.length_code) matches Some((_, next)) && next == a);
            if n >= b {
                assert(coded_number(pkt, a, f.sequence_code) matches Some((_, next)) && next == b);
                if n >= c {
                    assert(coded_number(pkt, b, f.padding_code) matches Some((_, next)) && next == c);
                } else {
                    assert(coded_number(pkt, b, f.padding_code) is None);
                }
            } else {
                assert(coded_number(pkt, a, f.sequence_code) is None);
            }
        } else {
            assert(coded_number(pkt, at + 2, f.length_code) is None);
        }
    } else {
        assert(crate::asf::flags_at(pkt) is None);
    }
    assert(packet_layout(pkt) is None);
}

// ------------------------------------------------------------ header objects

/// The bytes of an audio format: the tag, the channels, the sample rate, the mean bytes per
/// second, the block size, the bits per sample and the length of the codec-private data,
/// each least significant byte first; that data; and whatever follows.
pub open spec fn wave_text(w: WaveFields, spare: Seq<u8>) -> Seq<u8> {
    spelled(w.format_tag as nat, 2) + spelled(w.channels as nat, 2) + spelled(
        w.sample_rate as nat,
        4,
    ) + spelled(w.avg_bytes_per_sec as nat, 4) + spelled(w.block_align as nat, 2) + spelled(
        w.bits_per_sample as nat,
        2,
    ) + spelled(w.extradata.len(), 2) + w.extradata + spare
}

/// The bytes of a stream properties object's body: forty bytes, the length of the format,
/// ten more bytes, the format, and whatever follows.
pub open spec fn stream_text(
    before: Seq<u8>,
    between: Seq<u8>,
    w: WaveFields,
    spare: Seq<u8>,
    after: Seq<u8>,
) -> Seq<u8> {
    before + spelled(wave_text(w, spare).len(), 4) + between + wave_text(w, spare) + after
}

proof fn lemma_wave_read(w: WaveFields, spare: Seq<u8>)
    requires
        w.extradata.len() <= 0xFFFF,
    ensures
        ({
            let all = wave_text(w, spare);
            &&& all.len() == 18 + w.extradata.len() + spare.len()
            &&& number_at(all, 0, 2) == w.format_tag
            &&& number_at(all, 2, 2) == w.channels
            &&& number_at(all, 4, 4) == w.sample_rate
            &&& number_at(all, 8, 4) == w.avg_bytes_per_sec
            &&& number_at(all, 12, 2) == w.block_align
            &&& number_at(all, 14, 2) == w.bits_per_sample
            &&& number_at(all, 16, 2) == w.extradata.len()
            &&& all.subrange(18, (18 + w.extradata.len()) as int) == w.extradata
        }),
{
    let all = wave_text(w, spare);
    let a = spelled(w.format_tag as nat, 2);
    let b = spelled(w.channels as nat, 2);
    let c = spelled(w.sample_rate as nat, 4);
    let d = spelled(w.avg_bytes_per_sec as nat, 4);
    let e = spelled(w.block_align as nat, 2);
    let g = spelled(w.bits_per_sample as nat, 2);
    let h = spelled(w.extradata.len(), 2);
    lemma_spelled_len(w.format_tag as nat, 2);
    lemma_spelled_len(w.channels as nat, 2);
    lemma_spelled_len(w.sample_rate as nat, 4);
    lemma_spelled_len(w.avg_bytes_per_sec as nat, 4);
    lemma_spelled_len(w.block_align as nat, 2);
    lemma_spelled_len(w.bits_per_sample as nat, 2);
    lemma_spelled_len(w.extradata.len(), 2);
    lemma_byte_powers();
    lemma_holds_itself(all);
    lemma_holds_both(all, 0, a + b + c + d + e + g + h + w.extradata, spare);
    lemma_holds_both(all, 0, a + b + c + d + e + g + h, w.extradata);
    lemma_holds_both(all, 0, a + b + c + d + e + g, h);
    lemma_holds_both(all, 0, a + b + c + d + e, g);
    lemma_holds_both(all, 0, a + b + c + d, e);
    lemma_holds_both(all, 0, a + b + c, d);
    lemma_holds_both(all, 0, a + b, c);
    lemma_holds_both(all, 0, a, b);
    lemma_holds_number(all, 0, w.format_tag as nat, 2);
    lemma_holds_number(all, 2, w.channels as nat, 2);
    lemma_holds_number(all, 4, w.sample_rate as nat, 4);
    lemma_holds_number(all, 8, w.avg_bytes_per_sec as nat, 4);
    lemma_holds_number(all, 12, w.block_align as nat, 2);
    lemma_holds_number(all, 14, w.bits_per_sample as nat, 2);
    lemma_holds_number(all, 16, w.extradata.len(), 2);
}

/// The format of a stream properties object is read back.
pub proof fn formats_are_read_back(
    before: Seq<u8>,
    between: Seq<u8>,
    w: WaveFields,
    spare: Seq<u8>,
    after: Seq<u8>,
)
    requires
        before.len() == 40,
        between.len() == 10,
        w.extradata.len() <= 0xFFFF,
        wave_text(w, spare).len() <= 0xFFFF_FFFF,
    ensures
        stream_format(stream_text(before, between, w, spare, after)) == Ok::<WaveFields, AsfError>(
            w,
        ),
{
    let all = stream_text(before, between, w, spare, after);
    let wave = wave_text(w, spare);
    let len = spelled(wave.len(), 4);
    lemma_wave_read(w, spare);
    lemma_spelled_len(wave.len(), 4);
    lemma_byte_powers();
    lemma_holds_itself(all);
    lemma_holds_both(all, 0, before + len + between + wave, after);
    lemma_holds_both(all, 0, before + len + between, wave);
    lemma_holds_both(all, 0, before + len, between);
    lemma_holds_both(all, 0, before, len);
    lemma_holds_number(all, 40, wave.len(), 4);
    assert(all.subrange(54, (54 + wave.len()) as int) == wave);
    assert(stream_format(all)->Ok_0 =~= w);
}

/// A stream properties object is refused just where it is shorter than 72 bytes, where it
/// ends before its format does, and where its format is shorter than 18 bytes, in this
/// order.
pub proof fn formats_are_refused_by_length(obj: Seq<u8>)
    ensures
        stream_format(obj) == Err::<WaveFields, AsfError>(AsfError::StreamPropertiesTruncated)
            <==> obj.len() < 72,
        stream_format(obj) == Err::<WaveFields, AsfError>(AsfError::TypeSpecificTruncated)
            <==> obj.len() >= 72 && number_at(obj, 40, 4) > obj.len() - 54,
        stream_format(obj) == Err::<WaveFields, AsfError>(AsfError::WaveFormatTooSmall)
            <==> obj.len() >= 72 && number_at(obj, 40, 4) < 18,
{
}

/// The packet size of a file properties object is read back: four bytes after the first
/// 68, and at least eight more.
pub proof fn packet_sizes_are_read_back(before: Seq<u8>, size: u32, after: Seq<u8>)
    requires
        before.len() == 68,
    ensures
        after.len() >= 8 ==> file_packet_size(before + spelled(size as nat, 4) + after) == Some(
            size,
        ),
        after.len() < 8 ==> file_packet_size(before + spelled(size as nat, 4) + after) is None,
{
    let len = spelled(size as nat, 4);
    let all = before + len + after;
    lemma_spelled_len(size as nat, 4);
    lemma_byte_powers();
    lemma_holds_itself(all);
    lemma_holds_both(all, 0, before + len, after);
    lemma_holds_both(all, 0, before, len);
    lemma_holds_number(all, 68, size as nat, 4);
}

/// The bytes of header objects, one after the other: each its identifier, its size and its
/// body.
pub open spec fn objects_text(objects: Seq<HeaderObject>) -> Seq<u8>
    decreases objects.len(),
{
    if objects.len() == 0 {
        Seq::empty()
    } else {
        objects[0].0 + spelled(24 + objects[0].1.len(), 8) + objects[0].1 + objects_text(
            objects.skip(1),
        )
    }
}

/// Whether header objects can be spelled.
pub open spec fn objects_fit(objects: Seq<HeaderObject>) -> bool {
    forall|k: int|
        0 <= k < objects.len() ==> (#[trigger] objects[k]).0.len() == 16 && objects[k].1.len() + 24
            < 0x1_0000_0000_0000_0000
}

proof fn lemma_objects_read(data: Seq<u8>, p: int, objects: Seq<HeaderObject>, end: int)
    requires
        objects_fit(objects),
        holds(data, p, objects_text(objects)),
        p + objects_text(objects).len() <= end,
        header_objects(data, p + objects_text(objects).len(), end) == Seq::<HeaderObject>::empty(),
    ensures
        header_objects(data, p, end) == objects,
    decreases objects.len(),
{
    if objects.len() == 0 {
        assert(objects =~= Seq::<HeaderObject>::empty());
    } else {
        let (guid, body) = objects[0];
        let tail = objects.skip(1);
        let rest = objects_text(tail);
        let size = spelled(24 + body.len(), 8);
        assert(objects[0].0.len() == 16);
        lemma_spelled_len(24 + body.len(), 8);
        lemma_byte_powers();
        lemma_holds_both(data, p, guid + size + body, rest);
        lemma_holds_both(data, p, guid + size, body);
        lemma_holds_both(data, p, guid, size);
        lemma_holds_part(data, p, guid);
        lemma_holds_number(data, p + 16, 24 + body.len(), 8);
        assert(objects_fit(tail)) by {
            assert forall|k: int| 0 <= k < tail.len() implies (#[trigger] tail[k]).0.len() == 16
                && tail[k].1.len() + 24 < 0x1_0000_0000_0000_0000 by {
                assert(tail[k] == objects[k + 1]);
            }
        }
        lemma_objects_read(data, p + 24 + body.len(), tail, end);
        assert(header_objects(data, p, end) =~= seq![(guid, body)] + tail);
        assert(objects =~= seq![(guid, body)] + tail);
    }
}

/// Whether bytes start no header object: they are fewer than an object's identifier and
/// size, or the size is below 24 or above the number of bytes.
pub open spec fn starts_no_object(bytes: Seq<u8>) -> bool {
    ||| bytes.len() < 24
    ||| number_at(bytes, 16, 8) < 24
    ||| number_at(bytes, 16, 8) > bytes.len()
}

/// Header objects are read back in order, wherever they are, up to bytes that start no
/// object.
pub proof fn objects_are_read_back(
    before: Seq<u8>,
    objects: Seq<HeaderObject>,
    left: Seq<u8>,
    after: Seq<u8>,
)
    requires
        objects_fit(objects),
        starts_no_object(left),
    ensures
        header_objects(
            before + objects_text(objects) + left + after,
            before.len() as int,
            (before.len() + objects_text(objects).len() + left.len()) as int,
        ) == objects,
{
    let all = before + objects_text(objects) + left + after;
    let p = (before.len() + objects_text(objects).len()) as int;
    lemma_holds_itself(all);
    lemma_holds_both(all, 0, before + objects_text(objects) + left, after);
    lemma_holds_both(all, 0, before + objects_text(objects), left);
    lemma_holds_both(all, 0, before, objects_text(objects));
    if left.len() >= 24 {
        assert(all.subrange(p + 16, p + 24) =~= all.subrange(p, p + left.len()).subrange(16, 24));
    }
    lemma_objects_read(all, before.len() as int, objects, p + left.len());
}

/// The format that counts is that of the last stream properties object that holds one.
pub proof fn last_format_counts(objects: Seq<HeaderObject>, k: int, w: WaveFields)
    requires
        0 <= k < objects.len(),
        objects[k].0 == ASF_STREAM_PROPS_GUID@,
        stream_format(objects[k].1) == Ok::<WaveFields, AsfError>(w),
        forall|j: int|
            k < j < objects.len() ==> (#[trigger] objects[j]).0 != ASF_STREAM_PROPS_GUID@
                || stream_format(objects[j].1) is Err,
    ensures
        found_format(objects) == Some(w),
    decreases objects.len(),
{
    if k < objects.len() - 1 {
        assert(objects[objects.len() - 1] == objects.last());
        last_format_counts(objects.drop_last(), k, w);
    }
}

/// Without a stream properties object that holds a format there is none.
pub proof fn no_object_no_format(objects: Seq<HeaderObject>)
    requires
        forall|j: int|
            0 <= j < objects.len() ==> (#[trigger] objects[j]).0 != ASF_STREAM_PROPS_GUID@
                || stream_format(objects[j].1) is Err,
    ensures
        found_format(objects) is None,
    decreases objects.len(),
{
    if objects.len() > 0 {
        assert(objects[objects.len() - 1] == objects.last());
        no_object_no_format(objects.drop_last());
    }
}

/// The packet size that counts is that of the last file properties object.
pub proof fn last_packet_size_counts(objects: Seq<HeaderObject>, k: int)
    requires
        0 <= k < objects.len(),
        objects[k].0 == ASF_FILE_PROPS_GUID@,
        forall|j: int|
            k < j < objects.len() ==> (#[trigger] objects[j]).0 != ASF_FILE_PROPS_GUID@,
    ensures
        found_packet_size(objects) == file_packet_size(objects[k].1),
    decreases objects.len(),
{
    if k < objects.len() - 1 {
        assert(objects[objects.len() - 1] == objects.last());
        last_packet_size_counts(objects.drop_last(), k);
    }
}

/// Without a file properties object there is no packet size.
pub proof fn no_object_no_packet_size(objects: Seq<HeaderObject>)
    requires
        forall|j: int|
            0 <= j < objects.len() ==> (#[trigger] objects[j]).0 != ASF_FILE_PROPS_GUID@,
    ensures
        found_packet_size(objects) is None,
    decreases objects.len(),
{
    if objects.len() > 0 {
        assert(objects[objects.len() - 1] == objects.last());
        no_object_no_packet_size(objects.drop_last());
    }
}

// ------------------------------------------------------------ files

proof fn lemma_joined_front(first: Seq<u8>, rest: Seq<Seq<u8>>)
    ensures
        joined(seq![first] + rest) == first + joined(rest),
    decreases rest.len(),
{
    let all = seq![first] + rest;
    if rest.len() == 0 {
        reveal_with_fuel(joined, 2);
        assert(all.drop_last() =~= Seq::<Seq<u8>>::empty());
        assert(all.last() == first);
        assert(joined(all) =~= first + joined(rest));
    } else {
        assert(all.drop_last() =~= seq![first] + rest.drop_last());
        lemma_joined_front(first, rest.drop_last());
        assert(joined(all) =~= first + joined(rest));
    }
}

/// Joined byte strings have every byte of each, in order: joining one more appends it.
pub proof fn joining_appends(parts: Seq<Seq<u8>>, last: Seq<u8>)
    ensures
        joined(parts.push(last)) == joined(parts) + last,
        joined(Seq::<Seq<u8>>::empty()) == Seq::<u8>::empty(),
{
    assert(parts.push(last).drop_last() =~= parts);
}

/// The data of all packets: what each holds, in order.
pub open spec fn packets_data(packets: Seq<Seq<u8>>) -> Seq<Seq<u8>> {
    Seq::new(packets.len(), |k: int| joined(packet_payloads(packets[k])))
}

/// Of packets with one payload each just the payloads' data is joined: no byte of padding
/// reaches the superframes.
pub proof fn padding_is_left_out(
    packets: Seq<Seq<u8>>,
    fs: Seq<PacketFields>,
    ps: Seq<Payload>,
    paddings: Seq<Seq<u8>>,
)
    requires
        packets.len() == ps.len(),
        forall|k: int|
            0 <= k < packets.len() ==> {
                &&& #[trigger] packets[k] == single_text(fs[k], ps[k], paddings[k], Seq::empty())
                &&& fields_fit(fs[k], paddings[k].len())
                &&& payload_fits(fs[k], ps[k])
                &&& length_says(fs[k], packets[k].len(), 0)
            },
    ensures
        packets_data(packets) == data_of(ps),
{
    assert forall|k: int| 0 <= k < packets.len() implies #[trigger] packets_data(packets)[k]
        == data_of(ps)[k] by {
        assert(packets[k] == single_text(fs[k], ps[k], paddings[k], Seq::empty()));
        single_payloads_are_read_back(fs[k], ps[k], paddings[k], Seq::empty());
        joining_appends(Seq::empty(), ps[k].data);
        assert(seq![ps[k].data] =~= Seq::<Seq<u8>>::empty().push(ps[k].data));
        assert(joined(seq![ps[k].data]) =~= ps[k].data);
    }
    assert(packets_data(packets) =~= data_of(ps));
}

/// The data of one packet.
#[verifier::opaque]
spec fn held(packet: Seq<u8>) -> Seq<u8> {
    joined(packet_payloads(packet))
}

/// The data of each packet.
spec fn all_held(packets: Seq<Seq<u8>>) -> Seq<Seq<u8>> {
    Seq::new(packets.len(), |k: int| held(packets[k]))
}

proof fn lemma_all_held(packets: Seq<Seq<u8>>)
    ensures
        all_held(packets) == packets_data(packets),
{
    reveal(held);
    assert(all_held(packets) =~= packets_data(packets));
}

proof fn lemma_next_packet(data: Seq<u8>, p: int, end: int, stride: int, first: Seq<u8>)
    requires
        0 <= p,
        stride > 0,
        p + stride <= end,
        data.subrange(p, p + stride) == first,
    ensures
        stream_bytes(data, p, end, stride) == held(first) + stream_bytes(
            data,
            p + stride,
            end,
            stride,
        ),
{
    reveal(held);
}

proof fn lemma_all_held_front(first: Seq<u8>, rest: Seq<Seq<u8>>)
    ensures
        joined(all_held(seq![first] + rest)) == held(first) + joined(all_held(rest)),
{
    assert(all_held(seq![first] + rest) =~= seq![held(first)] + all_held(rest));
    lemma_joined_front(held(first), all_held(rest));
}

proof fn lemma_packets_read(
    data: Seq<u8>,
    p: int,
    packets: Seq<Seq<u8>>,
    tail: Seq<u8>,
    stride: int,
)
    requires
        stride > 0,
        forall|k: int| 0 <= k < packets.len() ==> (#[trigger] packets[k]).len() == stride,
        tail.len() < stride,
        holds(data, p, joined(packets) + tail),
    ensures
        stream_bytes(data, p, p + joined(packets).len() + tail.len(), stride) == joined(
            all_held(packets),
        ),
    decreases packets.len(),
{
    let end = p + joined(packets).len() + tail.len();
    if packets.len() == 0 {
        assert(all_held(packets) =~= Seq::<Seq<u8>>::empty());
    } else {
        let first = packets[0];
        let rest = packets.skip(1);
        assert(packets =~= seq![first] + rest);
        lemma_joined_front(first, rest);
        assert(joined(packets) + tail =~= first + (joined(rest) + tail));
        lemma_holds_both(data, p, first, joined(rest) + tail);
        lemma_holds_part(data, p, first);
        assert forall|k: int| 0 <= k < rest.len() implies (#[trigger] rest[k]).len() == stride by {
            assert(rest[k] == packets[k + 1]);
        }
        lemma_packets_read(data, p + stride, rest, tail, stride);
        lemma_next_packet(data, p, end, stride, first);
        lemma_all_held_front(first, rest);
    }
}

/// The bytes of a file: the header object with its identifier, its size, six bytes and the
/// objects inside; the data object with its identifier, its size, twenty-six bytes, the
/// packets and less than one more; and whatever follows.
pub open spec fn file_text(
    objects: Seq<HeaderObject>,
    six: Seq<u8>,
    packets: Seq<Seq<u8>>,
    twenty_six: Seq<u8>,
    tail: Seq<u8>,
    after: Seq<u8>,
) -> Seq<u8> {
    let body = joined(packets) + tail;
    ASF_HEADER_GUID@ + spelled(30 + objects_text(objects).len(), 8) + six + objects_text(objects)
        + ASF_DATA_GUID@ + spelled(50 + body.len(), 8) + twenty_six + body + after
}

proof fn lemma_file_parts(
    objects: Seq<HeaderObject>,
    six: Seq<u8>,
    packets: Seq<Seq<u8>>,
    twenty_six: Seq<u8>,
    tail: Seq<u8>,
    after: Seq<u8>,
)
    requires
        six.len() == 6,
        twenty_six.len() == 26,
        30 + objects_text(objects).len() < 0x1_0000_0000_0000_0000,
        50 + joined(packets).len() + tail.len() < 0x1_0000_0000_0000_0000,
    ensures
        ({
            let all = file_text(objects, six, packets, twenty_six, tail, after);
            let header = (30 + objects_text(objects).len()) as int;
            let body = joined(packets) + tail;
            &&& all.take(16) == ASF_HEADER_GUID@
            &&& number_at(all, 16, 8) == header
            &&& holds(all, 30, objects_text(objects))
            &&& all.subrange(header, header + 16) == ASF_DATA_GUID@
            &&& number_at(all, header + 16, 8) == 50 + body.len()
            &&& holds(all, header + 50, body)
        }),
{
    let all = file_text(objects, six, packets, twenty_six, tail, after);
    let text = objects_text(objects);
    let body = joined(packets) + tail;
    let a = ASF_HEADER_GUID@ + spelled(30 + text.len(), 8);
    let b = a + six + text;
    let c = b + ASF_DATA_GUID@;
    let d = c + spelled(50 + body.len(), 8);
    lemma_spelled_len(30 + text.len(), 8);
    lemma_spelled_len(50 + body.len(), 8);
    lemma_byte_powers();
    lemma_holds_itself(all);
    lemma_holds_both(all, 0, d + twenty_six + body, after);
    lemma_holds_both(all, 0, d + twenty_six, body);
    lemma_holds_both(all, 0, d, twenty_six);
    lemma_holds_both(all, 0, c, spelled(50 + body.len(), 8));
    lemma_holds_both(all, 0, b, ASF_DATA_GUID@);
    lemma_holds_both(all, 0, a + six, text);
    lemma_holds_both(all, 0, a, six);
    lemma_holds_both(all, 0, ASF_HEADER_GUID@, spelled(30 + text.len(), 8));
    lemma_holds_number(all, 16, 30 + text.len(), 8);
    lemma_holds_number(all, (30 + text.len() + 16) as int, 50 + body.len(), 8);
    assert(all.take(16) =~= all.subrange(0, 16));
}

/// What a file holds whose parts are where they should be.
proof fn lemma_contents(
    all: Seq<u8>,
    objects: Seq<HeaderObject>,
    packets: Seq<Seq<u8>>,
    tail: Seq<u8>,
    wave: WaveFields,
    size: u32,
)
    requires
        ({
            let header = (30 + objects_text(objects).len()) as int;
            let body = joined(packets) + tail;
            &&& all.take(16) == ASF_HEADER_GUID@
            &&& number_at(all, 16, 8) == header
            &&& holds(all, 30, objects_text(objects))
            &&& all.subrange(header, header + 16) == ASF_DATA_GUID@
            &&& number_at(all, header + 16, 8) == 50 + body.len()
            &&& holds(all, header + 50, body)
        }),
        objects_fit(objects),
        found_format(objects) == Some(wave),
        found_packet_size(objects) == Some(size),
        size > 0,
        wave.block_align > 0,
        forall|k: int| 0 <= k < packets.len() ==> (#[trigger] packets[k]).len() == size,
        tail.len() < size,
    ensures
        file_contents(all) == Ok::<(WaveFields, Seq<Seq<u8>>), AsfError>(
            (wave, pieces(joined(packets_data(packets)), wave.block_align as int)),
        ),
{
    let header = (30 + objects_text(objects).len()) as int;
    lemma_holds_part(all, header + 50, joined(packets) + tail);
    lemma_objects_read(all, 30, objects, header);
    lemma_packets_read(all, header + 50, packets, tail, size as int);
    lemma_all_held(packets);
}

/// A file is read back: the format that its header objects give, and the data of its
/// packets, joined and cut into pieces of the format's block size.
pub proof fn files_are_read_back(
    objects: Seq<HeaderObject>,
    six: Seq<u8>,
    packets: Seq<Seq<u8>>,
    twenty_six: Seq<u8>,
    tail: Seq<u8>,
    after: Seq<u8>,
    wave: WaveFields,
    size: u32,
)
    requires
        six.len() == 6,
        twenty_six.len() == 26,
        30 + objects_text(objects).len() < 0x1_0000_0000_0000_0000,
        50 + joined(packets).len() + tail.len() < 0x1_0000_0000_0000_0000,
        objects_fit(objects),
        found_format(objects) == Some(wave),
        found_packet_size(objects) == Some(size),
        size > 0,
        wave.block_align > 0,
        forall|k: int| 0 <= k < packets.len() ==> (#[trigger] packets[k]).len() == size,
        tail.len() < size,
    ensures
        file_contents(file_text(objects, six, packets, twenty_six, tail, after)) == Ok::<
            (WaveFields, Seq<Seq<u8>>),
            AsfError,
        >((wave, pieces(joined(packets_data(packets)), wave.block_align as int))),
{
    lemma_file_parts(objects, six, packets, twenty_six, tail, after);
    lemma_contents(
        file_text(objects, six, packets, twenty_six, tail, after),
        objects,
        packets,
        tail,
        wave,
        size,
    );
}

/// Pieces are whole and in order: joined, they are the start of the byte string, up to
/// less than one piece before its end.
pub proof fn pieces_are_the_start(bytes: Seq<u8>, size: int)
    requires
        size > 0,
    ensures
        forall|k: int|
            0 <= k < pieces(bytes, size).len() ==> (#[trigger] pieces(bytes, size)[k]).len()
                == size,
        joined(pieces(bytes, size)) == bytes.take(joined(pieces(bytes, size)).len() as int),
        joined(pieces(bytes, size)).len() <= bytes.len(),
        bytes.len() - joined(pieces(bytes, size)).len() < size,
{
    let n = bytes.len() as int / size;
    vstd::arithmetic::div_mod::lemma_fundamental_div_mod(bytes.len() as int, size);
    let all = pieces(bytes, size);
    assert(size * n == n * size) by (nonlinear_arith);
    lemma_pieces_join(bytes, size, n);
    assert(all.take(n) =~= all);
    assert forall|k: int| 0 <= k < all.len() implies (#[trigger] all[k]).len() == size by {
        assert(0 <= k * size && k * size + size <= n * size) by (nonlinear_arith)
            requires
                0 <= k < n,
                size > 0,
        ;
    }
}

proof fn lemma_pieces_join(bytes: Seq<u8>, size: int, n: int)
    requires
        size > 0,
        0 <= n <= bytes.len() as int / size,
        n * size <= bytes.len(),
    ensures
        joined(pieces(bytes, size).take(n)) == bytes.take(n * size),
    decreases n,
{
    let all = pieces(bytes, size);
    if n == 0 {
        assert(0 * size == 0) by (nonlinear_arith);
        assert(all.take(0) =~= Seq::<Seq<u8>>::empty());
        assert(bytes.take(0) =~= Seq::<u8>::empty());
    } else {
        let m = n - 1;
        assert(n * size == m * size + size && m * size >= 0) by (nonlinear_arith)
            requires
                m == n - 1,
                n >= 1,
                size > 0,
        ;
        lemma_pieces_join(bytes, size, m);
        assert(all.take(n).drop_last() =~= all.take(m));
        assert(bytes.take(n * size) =~= bytes.take(m * size) + bytes.subrange(
            m * size,
            m * size + size,
        ));
    }
}

/// A file is refused for its first fault: no header object at its start; a header size
/// below 30 or past the file's end; no format; no packet size; no data object right after
/// the header; a data size below 50 or past the file's end; packets of no size; and blocks
/// of no size.
pub proof fn files_are_refused_for_their_first_fault(data: Seq<u8>)
    ensures
        ({
            let header = number_at(data, 16, 8) as int;
            let objects = header_objects(data, 30, header);
            let body = number_at(data, header + 16, 8) as int;
            let headed = data.len() >= 30 && data.take(16) == ASF_HEADER_GUID@;
            let sized = headed && 30 <= header <= data.len();
            let formatted = sized && found_format(objects) is Some;
            let packed = formatted && found_packet_size(objects) is Some;
            let with_data = packed && data.len() >= header + 24 && data.subrange(
                header,
                header + 16,
            ) == ASF_DATA_GUID@;
            let whole = with_data && body >= 50 && header + body <= data.len();
            let strided = whole && found_packet_size(objects)->0 > 0;
            let refused = |e: AsfError| file_contents(data) == Err::<
                (WaveFields, Seq<Seq<u8>>),
                AsfError,
            >(e);
            &&& refused(AsfError::MissingHeader) <==> !headed
            &&& refused(AsfError::HeaderSize) <==> headed && !sized
            &&& refused(AsfError::NoStreamProperties) <==> sized && !formatted
            &&& refused(AsfError::NoFileProperties) <==> formatted && !packed
            &&& refused(AsfError::MissingData) <==> packed && !with_data
            &&& refused(AsfError::DataSize) <==> with_data && !whole
            &&& refused(AsfError::ZeroPacketSize) <==> whole && !strided
            &&& refused(AsfError::ZeroBlockAlign) <==> strided && found_format(
                objects,
            )->0.block_align == 0
            &&& file_contents(data) is Ok <==> strided && found_format(objects)->0.block_align > 0
        }),
{
}

} // verus!
