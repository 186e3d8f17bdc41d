use oxideav_wma::{BitReader, BitWriter, BitstreamEnd};

#[test]
fn fresh_writer_is_empty() {
    let w = BitWriter::new();
    assert!(w.is_empty());
    assert_eq!(w.bit_len(), 0);
    assert!(w.into_bytes().is_empty());
}

#[test]
fn write_bit_fills_msb_first() {
    let mut w = BitWriter::new();
    w.write_bit(true);
    w.write_bit(false);
    w.write_bit(true);
    assert_eq!(w.bit_len(), 3);
    assert_eq!(w.into_bytes(), vec![0b1010_0000]);
}

#[test]
fn write_bits_emits_most_significant_first() {
    let mut w = BitWriter::new();
    w.write_bits(0b1011, 4);
    w.write_bits(0b0110, 4);
    assert_eq!(w.bit_len(), 8);
    assert_eq!(w.into_bytes(), vec![0b1011_0110]);
}

#[test]
fn write_bits_zero_width_is_noop() {
    let mut w = BitWriter::new();
    w.write_bits(0xFFFF, 0);
    assert!(w.is_empty());
}

#[test]
fn write_bits_crosses_byte_boundaries() {
    let mut w = BitWriter::new();
    w.write_bits(0xABCD, 16);
    w.write_bits(0b101, 3);
    assert_eq!(w.bit_len(), 19);
    assert_eq!(w.into_bytes(), vec![0xAB, 0xCD, 0b1010_0000]);
}

#[test]
fn write_bits_full_u64_width() {
    let mut w = BitWriter::new();
    w.write_bits(u64::MAX, 64);
    assert_eq!(w.bit_len(), 64);
    assert_eq!(w.into_bytes(), vec![0xFF; 8]);
}


#[test]
fn align_to_byte_pads_with_zeros() {
    let mut w = BitWriter::new();
    w.write_bits(0b11, 2);
    w.align_to_byte();
    w.write_bits(0xFF, 8);
    assert_eq!(w.bit_len(), 16);
    assert_eq!(w.into_bytes(), vec![0b1100_0000, 0xFF]);
}

#[test]
fn read_bit_consumes_msb_first() {
    let bytes = [0b1010_0000];
    let mut r = BitReader::new(&bytes);
    assert!(r.read_bit().unwrap());
    assert!(!r.read_bit().unwrap());
    assert!(r.read_bit().unwrap());
    assert_eq!(r.position(), 3);
    assert_eq!(r.remaining_bits(), 5);
}

#[test]
fn read_bits_matches_write_bits() {
    let bytes = [0xAB, 0xCD];
    let mut r = BitReader::new(&bytes);
    assert_eq!(r.read_bits(4).unwrap(), 0xA);
    assert_eq!(r.read_bits(8).unwrap(), 0xBC);
    assert_eq!(r.read_bits(4).unwrap(), 0xD);
    assert_eq!(r.remaining_bits(), 0);
}

#[test]
fn read_bits_zero_width_reads_nothing() {
    let bytes = [0xFF];
    let mut r = BitReader::new(&bytes);
    assert_eq!(r.read_bits(0).unwrap(), 0);
    assert_eq!(r.position(), 0);
}

#[test]
fn read_past_end_fails_without_consuming() {
    let bytes = [0xFF];
    let mut r = BitReader::new(&bytes);
    let _ = r.read_bits(6).unwrap();
    let err = r.read_bits(3).unwrap_err();
    assert_eq!(
        err,
        BitstreamEnd {
            requested: 3,
            remaining: 2,
        }
    );
    assert_eq!(r.position(), 6);
    assert_eq!(r.read_bits(2).unwrap(), 0b11);
}

#[test]
fn with_bit_len_excludes_padding() {
    let bytes = [0b1110_0000];
    let mut r = BitReader::with_bit_len(&bytes, 3);
    assert_eq!(r.read_bits(3).unwrap(), 0b111);
    assert_eq!(
        r.read_bit().unwrap_err(),
        BitstreamEnd {
            requested: 1,
            remaining: 0,
        }
    );
}


#[test]
fn reader_align_to_byte_skips_to_boundary() {
    let bytes = [0b1010_1010, 0xFF];
    let mut r = BitReader::new(&bytes);
    let _ = r.read_bits(3).unwrap();
    r.align_to_byte();
    assert_eq!(r.position(), 8);
    assert_eq!(r.read_bits(8).unwrap(), 0xFF);
    r.align_to_byte();
    assert_eq!(r.position(), 16);
}

#[test]
fn write_read_round_trip_mixed_widths() {
    let mut state = 0xC0FFEE_u64;
    let mut fields = Vec::new();
    for i in 0..200u64 {
        state = state
            .wrapping_mul(6364136223846793005)
            .wrapping_add(1442695040888963407);
        let width = (i % 24 + 1) as u8;
        let value = state & ((1u64 << width) - 1);
        fields.push((value, width));
    }

    let mut w = BitWriter::new();
    for &(value, width) in &fields {
        w.write_bits(value, width);
    }
    let bit_len = w.bit_len();
    let bytes = w.into_bytes();

    let mut r = BitReader::with_bit_len(&bytes, bit_len);
    for &(value, width) in &fields {
        assert_eq!(r.read_bits(width).unwrap(), value, "width={width}");
    }
    assert_eq!(r.remaining_bits(), 0);
}

#[test]
fn bitstream_end_display_and_error() {
    let e = BitstreamEnd {
        requested: 3,
        remaining: 2,
    };
    let s = e.message();
    assert!(s.contains('3'));
    assert!(s.contains('2'));
}
