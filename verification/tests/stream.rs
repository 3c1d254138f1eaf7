//! The two buffers of the decoder and the segments of the payload.

use quircs::payload::{
    alpha_tuple, decode_alpha, decode_byte, decode_eci, decode_kanji, decode_numeric,
    decode_payload, numeric_tuple,
};
use quircs::stream::{bits_remaining, codestream_ecc, read_bit, read_data, take_bits, Datastream};
use quircs::version_db::block_params;
use quircs::{Code, Data, DataType, DecodeError, EccLevel};

fn stream_of(bits: &str) -> Datastream {
    let mut ds = Datastream::new();
    let mut n = 0;
    for c in bits.chars() {
        if c == '1' {
            ds.data[n >> 3] |= 0x80 >> (n & 7);
        }
        if c == '0' || c == '1' {
            n += 1;
        }
    }
    ds.data_bits = n as i32;
    ds
}

fn data_of(version: usize) -> Data {
    let mut d = Data::default();
    d.version = version;
    d
}

#[test]
fn a_new_stream_is_empty() {
    let ds = Datastream::new();
    assert_eq!(ds.data_bits, 0);
    assert_eq!(ds.ptr, 0);
    assert!(ds.raw.iter().all(|b| *b == 0));
    assert!(ds.data.iter().all(|b| *b == 0));
    assert_eq!(bits_remaining(&ds), 0);
}

#[test]
fn take_bits_reads_the_highest_bit_first() {
    let mut ds = stream_of("1011 0010 1111 0000 1");
    assert_eq!(bits_remaining(&ds), 17);
    assert_eq!(take_bits(&mut ds, 4), 0b1011);
    assert_eq!(take_bits(&mut ds, 0), 0);
    assert_eq!(take_bits(&mut ds, 6), 0b001011);
    assert_eq!(ds.ptr, 10);
    assert_eq!(bits_remaining(&ds), 7);
    // fewer bits are left than are asked for: what is there is the number
    assert_eq!(take_bits(&mut ds, 16), 0b1100001);
    assert_eq!(bits_remaining(&ds), 0);
    assert_eq!(take_bits(&mut ds, 8), 0);
    assert_eq!(ds.ptr, 17);
}

#[test]
fn read_bit_appends_the_unmasked_cell() {
    let mut code = Code::default();
    code.size = 21;
    code.mark(10, 9);
    let mut data = data_of(1);
    data.mask = 1;
    let mut ds = Datastream::new();
    // row 9: odd, so that mask 1 does not flip; the cell is dark
    read_bit(&code, &mut data, &mut ds, 9, 10);
    // row 10: even, mask 1 flips the light cell
    read_bit(&code, &mut data, &mut ds, 10, 10);
    // row 11: light and not flipped
    read_bit(&code, &mut data, &mut ds, 11, 10);
    // row 9, mask 0: column 10 makes an odd sum, no flip
    data.mask = 0;
    read_bit(&code, &mut data, &mut ds, 9, 10);
    assert_eq!(ds.data_bits, 4);
    assert_eq!(ds.raw[0], 0b1101_0000);
    assert_eq!(ds.ptr, 0);
}

#[test]
fn read_data_walks_the_columns_in_pairs_from_the_bottom_right() {
    let mut code = Code::default();
    code.size = 21;
    // the first eight data cells: (20,20) (19,20) (20,19) (19,19) ...
    code.mark(20, 20);
    code.mark(19, 19);
    code.mark(20, 17);
    let mut data = data_of(1);
    data.mask = 8;
    let mut ds = Datastream::new();
    read_data(&code, &mut data, &mut ds);
    assert_eq!(ds.data_bits, 208);
    assert_eq!(ds.raw[0], 0b1001_0010);
    assert!(ds.raw[1..].iter().all(|b| *b == 0));
    // with mask 0 the cells in which row and column make an even sum flip
    data.mask = 0;
    let mut ds = Datastream::new();
    read_data(&code, &mut data, &mut ds);
    assert_eq!(ds.raw[0], 0b1001_0010 ^ 0b1001_1001);
}

#[test]
fn read_data_turns_at_the_top_and_skips_the_timing_column() {
    let mut code = Code::default();
    code.size = 21;
    // the second pair of columns goes down: its first cell is (18, 9)
    code.mark(18, 9);
    // the pair left of the timing column is (5, 4); it goes down, and
    // (5, 12) is the seventh of its data cells
    code.mark(5, 12);
    let mut data = data_of(1);
    data.mask = 8;
    let mut ds = Datastream::new();
    read_data(&code, &mut data, &mut ds);
    let set: Vec<usize> = (0..208).filter(|i| ds.raw[i >> 3] & (0x80 >> (i & 7)) != 0).collect();
    // 24 cells in the first pair (rows 20..=9), then (18, 9) first; the
    // pairs at columns 20, 18, 16 and 14 have 24 cells each, those at 12
    // and 10 have 40 each, the timing row left out, and the pair at 8 has 8
    assert_eq!(set[0], 24);
    assert_eq!(set.len(), 2);
    assert_eq!(set[1], 4 * 24 + 2 * 40 + 8 + 6);
}

#[test]
fn codestream_ecc_lays_the_blocks_one_after_another() {
    // version 5-Q: two blocks of 15 and two of 16 data words
    let p = block_params(5, 3);
    assert_eq!((p.bs, p.dw, p.ns), (33, 15, 2));
    let mut data = data_of(5);
    data.ecc_level = EccLevel::Q;
    let mut ds = Datastream::new();
    // all-zero codewords are codewords of every block
    ds.data_bits = 134 * 8;
    assert!(codestream_ecc(&mut data, &mut ds).is_ok());
    assert_eq!(ds.data_bits, 62 * 8);
    assert!(ds.data[..62].iter().all(|b| *b == 0));
    // one wrong word in each block is put right: the first data word of
    // the first two blocks, the last data word of the third, and the last
    // parity word of the fourth
    let mut ds = Datastream::new();
    ds.raw[0] = 0x11;
    ds.raw[1] = 0x22;
    ds.raw[60] = 0x33;
    ds.raw[133] = 0x44;
    assert!(codestream_ecc(&mut data, &mut ds).is_ok());
    assert_eq!(ds.data_bits, 62 * 8);
    assert!(ds.data[..62].iter().all(|b| *b == 0));
}

#[test]
fn codestream_ecc_restores_a_long_block_with_nine_wrong_codewords() {
    // version 5-Q has 18 parity words a block: nine wrong codewords are
    // the most that can be put right. The third block is a long one: its
    // sixteenth data word lies at 60, after the fifteen columns of four.
    let mut data = data_of(5);
    data.ecc_level = EccLevel::Q;
    let mut ds = Datastream::new();
    for j in 0..5 {
        ds.raw[j * 4 + 2] = (j * 31 + 1) as u8;
    }
    ds.raw[60] = 0x5a;
    for k in 0..3 {
        ds.raw[62 + k * 4 + 2] = (k * 17 + 9) as u8;
    }
    assert!(codestream_ecc(&mut data, &mut ds).is_ok());
    assert!(ds.data[..62].iter().all(|b| *b == 0));
    // the data words come out block by block: a word that is put at the
    // place of the fourth block's last data word comes out last
    let mut ds = Datastream::new();
    let mut block = vec![0u8; 34];
    block[15] = 0x77;
    let parity = rs_parity(&block[..16], 18);
    ds.raw[61] = 0x77;
    for (k, p) in parity.iter().enumerate() {
        ds.raw[62 + k * 4 + 3] = *p;
    }
    assert!(codestream_ecc(&mut data, &mut ds).is_ok());
    assert_eq!(ds.data[61], 0x77);
    assert!(ds.data[..61].iter().all(|b| *b == 0));
}

fn slow_mul(a: u8, b: u8) -> u8 {
    let mut x = a as u32;
    let mut y = b as u32;
    let mut r = 0u32;
    while y != 0 {
        if y & 1 != 0 {
            r ^= x;
        }
        x <<= 1;
        if x & 0x100 != 0 {
            x ^= 0x11d;
        }
        y >>= 1;
    }
    r as u8
}

fn rs_parity(data: &[u8], degree: usize) -> Vec<u8> {
    let mut g = vec![0u8; degree];
    g[degree - 1] = 1;
    let mut root = 1u8;
    for _ in 0..degree {
        for j in 0..degree {
            g[j] = slow_mul(g[j], root);
            if j + 1 < degree {
                g[j] ^= g[j + 1];
            }
        }
        root = slow_mul(root, 2);
    }
    let mut rem = vec![0u8; degree];
    for b in data {
        let factor = b ^ rem[0];
        rem.remove(0);
        rem.push(0);
        for j in 0..degree {
            rem[j] ^= slow_mul(g[j], factor);
        }
    }
    rem
}

#[test]
fn codestream_ecc_fails_on_a_block_past_correction() {
    let mut data = data_of(1);
    data.ecc_level = EccLevel::L;
    let mut ds = Datastream::new();
    for (i, b) in ds.raw.iter_mut().take(26).enumerate() {
        *b = (i * 37 + 11) as u8;
    }
    ds.data_bits = 208;
    assert_eq!(codestream_ecc(&mut data, &mut ds), Err(DecodeError::DataEcc));
    assert_eq!(ds.data_bits, 208);
}

#[test]
fn numeric_tuple_appends_decimal_digits() {
    let mut data = data_of(1);
    let mut ds = stream_of("0001111011 0101010 1001 111");
    assert_eq!(numeric_tuple(&mut data, &mut ds, 10, 3), 0);
    assert_eq!(data.payload, b"123");
    assert_eq!(numeric_tuple(&mut data, &mut ds, 7, 2), 0);
    assert_eq!(data.payload, b"12342");
    assert_eq!(numeric_tuple(&mut data, &mut ds, 4, 1), 0);
    assert_eq!(data.payload, b"123429");
    assert_eq!(ds.ptr, 21);
    assert_eq!(numeric_tuple(&mut data, &mut ds, 4, 1), -1);
    assert_eq!(data.payload, b"123429");
    assert_eq!(ds.ptr, 21);
    // a group past 999 gives its last three digits
    let mut ds = stream_of("1111111111");
    let mut data = data_of(1);
    assert_eq!(numeric_tuple(&mut data, &mut ds, 10, 3), 0);
    assert_eq!(data.payload, b"023");
}

#[test]
fn alpha_tuple_appends_characters_to_the_base_45() {
    let mut data = data_of(1);
    // "AC" is 10 * 45 + 12 = 462, "-" is 41
    let mut ds = stream_of("00111001110 101001");
    assert_eq!(alpha_tuple(&mut data, &mut ds, 11, 2), 0);
    assert_eq!(data.payload, b"AC");
    assert_eq!(alpha_tuple(&mut data, &mut ds, 6, 1), 0);
    assert_eq!(data.payload, b"AC-");
    assert_eq!(alpha_tuple(&mut data, &mut ds, 6, 1), -1);
    assert_eq!(data.payload, b"AC-");
}

#[test]
fn decode_numeric_reads_count_and_groups() {
    let mut data = data_of(1);
    // count 5: "12345"
    let mut ds = stream_of("0000000101 0001111011 0101101");
    assert!(decode_numeric(&mut data, &mut ds).is_ok());
    assert_eq!(data.payload, b"12345");
    assert_eq!(bits_remaining(&ds), 0);
    // the count is 12 bits wide from version 10 and 14 from version 27
    let mut data = data_of(10);
    let mut ds = stream_of("000000000001 0111");
    assert!(decode_numeric(&mut data, &mut ds).is_ok());
    assert_eq!(data.payload, b"7");
    let mut data = data_of(27);
    let mut ds = stream_of("00000000000001 1000");
    assert!(decode_numeric(&mut data, &mut ds).is_ok());
    assert_eq!(data.payload, b"8");
}

#[test]
fn decode_numeric_underflows_and_overflows() {
    let mut data = data_of(1);
    let mut ds = stream_of("0000000101 0001111011 01011");
    assert_eq!(decode_numeric(&mut data, &mut ds), Err(DecodeError::DataUnderflow));
    assert_eq!(data.payload, b"123");
    let mut data = data_of(27);
    data.payload = vec![0; 8000];
    // count 896: 8000 + 896 + 1 is one too many
    let mut ds = stream_of("00001110000000 1111");
    assert_eq!(decode_numeric(&mut data, &mut ds), Err(DecodeError::DataOverflow));
    assert_eq!(data.payload.len(), 8000);
    assert_eq!(ds.ptr, 14);
    // count 895 fits, and then the digits are missing
    let mut ds = stream_of("00001101111111 1111");
    assert_eq!(decode_numeric(&mut data, &mut ds), Err(DecodeError::DataUnderflow));
}

#[test]
fn decode_alpha_reads_pairs_and_a_single() {
    let mut data = data_of(1);
    // count 5: "AC-42": AC = 462, -4 = 41 * 45 + 4 = 1849, 2
    let mut ds = stream_of("000000101 00111001110 11100111001 000010");
    assert!(decode_alpha(&mut data, &mut ds).is_ok());
    assert_eq!(data.payload, b"AC-42");
    let mut data = data_of(1);
    let mut ds = stream_of("000000101 00111001110 11100111001 00001");
    assert_eq!(decode_alpha(&mut data, &mut ds), Err(DecodeError::DataUnderflow));
    assert_eq!(data.payload, b"AC-4");
}

#[test]
fn decode_byte_reads_whole_bytes() {
    let mut data = data_of(1);
    let mut ds = stream_of("00000010 01100001 01000001 1");
    assert!(decode_byte(&mut data, &mut ds).is_ok());
    assert_eq!(data.payload, b"aA");
    assert_eq!(bits_remaining(&ds), 1);
    let mut data = data_of(1);
    let mut ds = stream_of("00000011 01100001 01000001 1");
    assert_eq!(decode_byte(&mut data, &mut ds), Err(DecodeError::DataUnderflow));
    assert!(data.payload.is_empty());
    assert_eq!(ds.ptr, 8);
    let mut data = data_of(10);
    let mut ds = stream_of("0000000000000001 00100001");
    assert!(decode_byte(&mut data, &mut ds).is_ok());
    assert_eq!(data.payload, b"!");
}

#[test]
fn decode_kanji_gives_shift_jis() {
    // 0x935f -> 0x935f - 0x8140 = 0x121f -> 0x12 * 0xc0 + 0x1f = 0xd9f
    // 0xe4aa -> 0xe4aa - 0xc140 = 0x236a -> 0x23 * 0xc0 + 0x6a = 0x1aaa
    let mut data = data_of(1);
    let mut ds = stream_of("00000010 0110110011111 1101010101010");
    assert!(decode_kanji(&mut data, &mut ds).is_ok());
    assert_eq!(data.payload, vec![0x93, 0x5f, 0xe4, 0xaa]);
    let mut data = data_of(1);
    let mut ds = stream_of("00000010 0110110011111 110101010101");
    assert_eq!(decode_kanji(&mut data, &mut ds), Err(DecodeError::DataUnderflow));
    assert!(data.payload.is_empty());
    let mut data = data_of(1);
    data.payload = vec![0; 8894];
    let mut ds = stream_of("00000001 0110110011111");
    assert_eq!(decode_kanji(&mut data, &mut ds), Err(DecodeError::DataOverflow));
}

#[test]
fn decode_eci_reads_one_two_or_three_bytes() {
    let mut data = data_of(1);
    let mut ds = stream_of("00011010");
    assert!(decode_eci(&mut data, &mut ds).is_ok());
    assert_eq!(data.eci, Some(26));
    let mut ds = stream_of("10000011 10000011");
    assert!(decode_eci(&mut data, &mut ds).is_ok());
    assert_eq!(data.eci, Some(0x8383));
    let mut ds = stream_of("11000001 10000110 10100000");
    assert!(decode_eci(&mut data, &mut ds).is_ok());
    assert_eq!(data.eci, Some(0xc186a0));
    assert_eq!(ds.ptr, 24);
    let mut ds = stream_of("1110 0000");
    assert!(decode_eci(&mut data, &mut ds).is_ok());
    assert_eq!(data.eci, Some(0xe0));
    let mut ds = stream_of("0001101");
    assert_eq!(decode_eci(&mut data, &mut ds), Err(DecodeError::DataUnderflow));
    assert_eq!(data.eci, Some(0xe0));
    let mut ds = stream_of("10000011 1000001");
    assert_eq!(decode_eci(&mut data, &mut ds), Err(DecodeError::DataUnderflow));
    assert_eq!(data.eci, Some(0x83));
    let mut ds = stream_of("11000001 10000110 1010000");
    assert_eq!(decode_eci(&mut data, &mut ds), Err(DecodeError::DataUnderflow));
    assert_eq!(data.eci, Some(0xc1));
}

#[test]
fn decode_payload_reads_segments_until_a_terminator() {
    let mut data = data_of(1);
    // numeric "42", byte "a", then the terminator and padding
    let mut ds = stream_of("0001 0000000010 0101010 0100 00000001 01100001 0000 11101100");
    assert!(decode_payload(&mut data, &mut ds).is_ok());
    assert_eq!(data.payload, b"42a");
    assert_eq!(data.data_type, Some(DataType::Byte));
    assert_eq!(data.eci, None);
    // an indicator that names no mode ends the payload as well
    let mut data = data_of(1);
    let mut ds = stream_of("0100 00000001 01100001 0011 0100 00000001 01100010");
    assert!(decode_payload(&mut data, &mut ds).is_ok());
    assert_eq!(data.payload, b"a");
    // fewer than four bits end it too
    let mut data = data_of(1);
    let mut ds = stream_of("0100 00000001 01100001 010");
    assert!(decode_payload(&mut data, &mut ds).is_ok());
    assert_eq!(data.payload, b"a");
}

#[test]
fn decode_payload_keeps_the_highest_kind_and_the_eci() {
    let mut data = data_of(1);
    let mut ds = stream_of(
        "0111 00011010 1000 00000001 0110110011111 0010 000000001 101001 0001 0000000001 0111",
    );
    assert!(decode_payload(&mut data, &mut ds).is_ok());
    assert_eq!(data.payload, vec![0x93, 0x5f, b'-', b'7']);
    assert_eq!(data.data_type, Some(DataType::Kanji));
    assert_eq!(data.eci, Some(26));
    let mut data = data_of(1);
    let mut ds = stream_of("0111 00011010");
    assert!(decode_payload(&mut data, &mut ds).is_ok());
    assert_eq!(data.data_type, None);
    assert_eq!(data.eci, Some(26));
}

#[test]
fn decode_payload_hands_on_the_error_of_a_segment() {
    let mut data = data_of(1);
    let mut ds = stream_of("0001 0000000010 0101010 0100 00000011 01100001");
    assert_eq!(decode_payload(&mut data, &mut ds), Err(DecodeError::DataUnderflow));
    assert_eq!(data.payload, b"42");
    assert_eq!(data.data_type, Some(DataType::Numeric));
}

#[test]
fn codestream_ecc_keeps_the_words_of_the_blocks_before_the_failure() {
    let mut data = data_of(5);
    data.ecc_level = EccLevel::Q;
    let mut ds = Datastream::new();
    for b in ds.data.iter_mut() {
        *b = 0xaa;
    }
    // the second of the four blocks is noise, the first is a codeword
    for j in 0..15 {
        ds.raw[j * 4 + 1] = (j * 17 + 3) as u8;
    }
    for j in 0..18 {
        ds.raw[62 + j * 4 + 1] = (j * 29 + 7) as u8;
    }
    ds.data_bits = 1072;
    assert_eq!(codestream_ecc(&mut data, &mut ds), Err(DecodeError::DataEcc));
    assert_eq!(ds.data_bits, 1072);
    assert!(ds.data[..15].iter().all(|b| *b == 0));
    assert!(ds.data[15..].iter().all(|b| *b == 0xaa));
}
