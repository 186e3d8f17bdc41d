use oxideav_wma::asf::{
    parse, parse_file_props_packet_size, parse_one_packet, parse_stream_props, AsfError,
    ASF_DATA_GUID, ASF_FILE_PROPS_GUID, ASF_HEADER_GUID, ASF_STREAM_PROPS_GUID,
};

const PACKET: usize = 40;

fn stream_props(block_align: u16, extradata: &[u8]) -> Vec<u8> {
    let mut body = vec![0u8; 40];
    body.extend_from_slice(&(18 + extradata.len() as u32).to_le_bytes());
    body.extend_from_slice(&[0u8; 10]);
    body.extend_from_slice(&0x161u16.to_le_bytes());
    body.extend_from_slice(&2u16.to_le_bytes());
    body.extend_from_slice(&44_100u32.to_le_bytes());
    body.extend_from_slice(&16_000u32.to_le_bytes());
    body.extend_from_slice(&block_align.to_le_bytes());
    body.extend_from_slice(&16u16.to_le_bytes());
    body.extend_from_slice(&(extradata.len() as u16).to_le_bytes());
    body.extend_from_slice(extradata);
    body
}

fn file_props(packet_size: u32) -> Vec<u8> {
    let mut body = vec![0u8; 16 + 8 * 6 + 4];
    body.extend_from_slice(&packet_size.to_le_bytes());
    body.extend_from_slice(&packet_size.to_le_bytes());
    body.extend_from_slice(&[0u8; 4]);
    body
}

fn object(guid: &[u8; 16], body: &[u8]) -> Vec<u8> {
    let mut out = guid.to_vec();
    out.extend_from_slice(&(24 + body.len() as u64).to_le_bytes());
    out.extend_from_slice(body);
    out
}

/// A packet with one payload: no error correction, no lengths, then the payload
/// header (stream number, a one-byte replicated-data length of zero).
fn packet(payload: &[u8]) -> Vec<u8> {
    let mut out = vec![0x00, 0x00, 0b0100_0000];
    out.extend_from_slice(&[0u8; 6]);
    out.push(1);
    out.push(0);
    out.extend_from_slice(payload);
    assert_eq!(out.len(), PACKET);
    out
}

fn file(block_align: u16, packet_size: u32, packets: &[Vec<u8>]) -> Vec<u8> {
    let mut inner = object(&ASF_STREAM_PROPS_GUID, &stream_props(block_align, &[1, 2, 3]));
    inner.extend(object(&ASF_FILE_PROPS_GUID, &file_props(packet_size)));
    let mut out = ASF_HEADER_GUID.to_vec();
    out.extend_from_slice(&(30 + inner.len() as u64).to_le_bytes());
    out.extend_from_slice(&[0u8; 6]);
    out.extend(inner);
    let mut data = vec![0u8; 26];
    for p in packets {
        data.extend_from_slice(p);
    }
    out.extend(object(&ASF_DATA_GUID, &data));
    out
}

#[test]
fn superframes_are_cut_from_joined_payloads() {
    let a: Vec<u8> = (0..29).collect();
    let c: Vec<u8> = (29..58).collect();
    let f = parse(&file(10, PACKET as u32, &[packet(&a), packet(&c)])).unwrap();
    assert_eq!(f.waveformatex.format_tag, 0x161);
    assert_eq!(f.waveformatex.channels, 2);
    assert_eq!(f.waveformatex.sample_rate, 44_100);
    assert_eq!(f.waveformatex.avg_bytes_per_sec, 16_000);
    assert_eq!(f.waveformatex.block_align, 10);
    assert_eq!(f.waveformatex.bits_per_sample, 16);
    assert_eq!(f.waveformatex.extradata, vec![1, 2, 3]);
    assert_eq!(f.packets.len(), 5);
    for (i, p) in f.packets.iter().enumerate() {
        let from = 10 * i as u8;
        assert_eq!(*p, (from..from + 10).collect::<Vec<u8>>());
    }
}

#[test]
fn multiple_payloads_have_their_own_lengths() {
    // Several payloads, byte lengths, one byte of padding.
    let mut p = vec![0x82, 0x00, 0x00, 0b1000_0010, 0b0100_0000, 3];
    p.extend_from_slice(&[0u8; 6]);
    p.push(0b0100_0010);
    p.extend_from_slice(&[1, 0, 2, 0xAA, 0xBB]);
    p.extend_from_slice(&[1, 1, 0x77, 1, 0xCC]);
    p.extend_from_slice(&[0, 0, 0]);
    assert_eq!(
        parse_one_packet(&p),
        vec![vec![0xAA, 0xBB], vec![0xCC]]
    );
}

#[test]
fn packets_that_end_early_hold_no_payload() {
    assert!(parse_one_packet(&[]).is_empty());
    assert!(parse_one_packet(&[0x8F, 0]).is_empty());
    assert!(parse_one_packet(&[0x00, 0x00]).is_empty());
    assert!(parse_one_packet(&[0x00, 0x00, 0x00, 0, 0]).is_empty());
}

#[test]
fn short_objects_are_refused() {
    assert_eq!(
        parse_stream_props(&[0; 71]).unwrap_err(),
        AsfError::StreamPropertiesTruncated
    );
    let mut body = stream_props(10, &[]);
    body[40] = 19;
    assert_eq!(
        parse_stream_props(&body).unwrap_err(),
        AsfError::TypeSpecificTruncated
    );
    body[40] = 17;
    assert_eq!(
        parse_stream_props(&body).unwrap_err(),
        AsfError::WaveFormatTooSmall
    );
    assert_eq!(parse_file_props_packet_size(&[0; 79]), None);
    assert_eq!(parse_file_props_packet_size(&file_props(1234)), Some(1234));
}

#[test]
fn broken_files_are_refused() {
    let good = file(10, PACKET as u32, &[packet(&[0; 29])]);
    assert_eq!(parse(&[]).unwrap_err(), AsfError::MissingHeader);
    let mut f = good.clone();
    f[0] ^= 1;
    assert_eq!(parse(&f).unwrap_err(), AsfError::MissingHeader);
    let mut f = good.clone();
    f[23] = 0xFF;
    assert_eq!(parse(&f).unwrap_err(), AsfError::HeaderSize);
    let mut f = good.clone();
    f[30] ^= 1;
    assert_eq!(parse(&f).unwrap_err(), AsfError::NoStreamProperties);
    let header = u64::from_le_bytes([
        good[16], good[17], good[18], good[19], good[20], good[21], good[22], good[23],
    ]) as usize;
    let mut f = good.clone();
    f[header - 24 - file_props(0).len()] ^= 1;
    assert_eq!(parse(&f).unwrap_err(), AsfError::NoFileProperties);
    let mut f = good.clone();
    f[header] ^= 1;
    assert_eq!(parse(&f).unwrap_err(), AsfError::MissingData);
    let mut f = good.clone();
    f[header + 16] = 49;
    assert_eq!(parse(&f).unwrap_err(), AsfError::DataSize);
    assert_eq!(
        parse(&file(0, PACKET as u32, &[])).unwrap_err(),
        AsfError::ZeroBlockAlign
    );
    assert_eq!(
        parse(&file(10, 0, &[packet(&[0; 29])])).unwrap_err(),
        AsfError::ZeroPacketSize
    );
    assert_eq!(
        AsfError::MissingHeader.message(),
        "asf: missing Header Object GUID"
    );
}
