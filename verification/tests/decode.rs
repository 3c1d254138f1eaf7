//! Decoding of whole symbols. The symbols are drawn here, by an encoder
//! that follows the QR standard and shares nothing with the decoder but the
//! table of block sizes.

use quircs::version_db::{block_params, total_codewords};
use quircs::{Code, DataType, DecodeError, EccLevel, Eci};

// ---- a small QR encoder ----

fn gf_mul(a: u8, b: u8) -> u8 {
    let mut x = a as u32;
    let mut y = b as u32;
    let mut r = 0u32;
    while y != 0 {
        if y & 1 != 0 {
            r ^= x;
        }
        x <<= 1;
        if x & 0x100 != 0 {
            x ^= 0x11d;
        }
        y >>= 1;
    }
    r as u8
}

fn rs_generator(degree: usize) -> Vec<u8> {
    let mut g = vec![0u8; degree];
    g[degree - 1] = 1;
    let mut root = 1u8;
    for _ in 0..degree {
        for j in 0..degree {
            g[j] = gf_mul(g[j], root);
            if j + 1 < degree {
                g[j] ^= g[j + 1];
            }
        }
        root = gf_mul(root, 2);
    }
    g
}

fn rs_parity(data: &[u8], degree: usize) -> Vec<u8> {
    let g = rs_generator(degree);
    let mut rem = vec![0u8; degree];
    for b in data {
        let factor = b ^ rem[0];
        rem.remove(0);
        rem.push(0);
        for j in 0..degree {
            rem[j] ^= gf_mul(g[j], factor);
        }
    }
    rem
}

fn level_index(level: EccLevel) -> usize {
    match level {
        EccLevel::M => 0,
        EccLevel::L => 1,
        EccLevel::H => 2,
        EccLevel::Q => 3,
    }
}

struct Bits {
    bits: Vec<bool>,
}

impl Bits {
    fn new() -> Bits {
        Bits { bits: Vec::new() }
    }

    fn put(&mut self, value: u32, width: usize) {
        for i in (0..width).rev() {
            self.bits.push((value >> i) & 1 == 1);
        }
    }
}

enum Seg {
    Numeric(Vec<u8>),
    Alpha(Vec<u8>),
    Byte(Vec<u8>),
    Kanji(Vec<u8>),
    Eci(u32),
}

fn count_width(seg: &Seg, version: usize) -> usize {
    let class = if version < 10 {
        0
    } else if version < 27 {
        1
    } else {
        2
    };
    match seg {
        Seg::Numeric(_) => [10, 12, 14][class],
        Seg::Alpha(_) => [9, 11, 13][class],
        Seg::Byte(_) => [8, 16, 16][class],
        Seg::Kanji(_) => [8, 10, 12][class],
        Seg::Eci(_) => 0,
    }
}

fn alpha_value(c: u8) -> u32 {
    b"0123456789ABCDEFGHIJKLMNOPQRSTUVWXYZ $%*+-./:"
        .iter()
        .position(|x| *x == c)
        .unwrap() as u32
}

fn put_segment(out: &mut Bits, seg: &Seg, version: usize) {
    let width = count_width(seg, version);
    match seg {
        Seg::Numeric(d) => {
            out.put(1, 4);
            out.put(d.len() as u32, width);
            for group in d.chunks(3) {
                let mut v = 0u32;
                for c in group {
                    v = v * 10 + (*c - b'0') as u32;
                }
                out.put(v, [0, 4, 7, 10][group.len()]);
            }
        }
        Seg::Alpha(d) => {
            out.put(2, 4);
            out.put(d.len() as u32, width);
            for group in d.chunks(2) {
                if group.len() == 2 {
                    out.put(alpha_value(group[0]) * 45 + alpha_value(group[1]), 11);
                } else {
                    out.put(alpha_value(group[0]), 6);
                }
            }
        }
        Seg::Byte(d) => {
            out.put(4, 4);
            out.put(d.len() as u32, width);
            for b in d {
                out.put(*b as u32, 8);
            }
        }
        Seg::Kanji(d) => {
            out.put(8, 4);
            out.put((d.len() / 2) as u32, width);
            for pair in d.chunks(2) {
                let code = ((pair[0] as u32) << 8) | pair[1] as u32;
                let off = if code <= 0x9ffc { code - 0x8140 } else { code - 0xc140 };
                out.put((off >> 8) * 0xc0 + (off & 0xff), 13);
            }
        }
        Seg::Eci(n) => {
            out.put(7, 4);
            if *n < 0x80 {
                out.put(*n, 8);
            } else if *n < 0x4000 {
                out.put(0x8000 | *n, 16);
            } else {
                out.put(0xc0_0000 | *n, 24);
            }
        }
    }
}

/// The data words of a symbol: the segments, a terminator and padding.
fn data_words(segs: &[Seg], version: usize, level: EccLevel) -> Vec<u8> {
    let p = block_params(version, level_index(level));
    let total = total_codewords(version) as usize;
    let long = (total - (p.bs * p.ns) as usize) / (p.bs as usize + 1);
    let capacity = p.dw as usize * (p.ns as usize + long) + long;
    let mut out = Bits::new();
    for s in segs {
        put_segment(&mut out, s, version);
    }
    assert!(out.bits.len() <= capacity * 8, "the payload does not fit");
    let term = std::cmp::min(4, capacity * 8 - out.bits.len());
    out.put(0, term);
    while out.bits.len() % 8 != 0 {
        out.bits.push(false);
    }
    let mut words: Vec<u8> = out
        .bits
        .chunks(8)
        .map(|c| c.iter().fold(0u8, |a, b| (a << 1) | *b as u8))
        .collect();
    let mut pad = 0xecu8;
    while words.len() < capacity {
        words.push(pad);
        pad ^= 0xec ^ 0x11;
    }
    words
}

/// The codewords of a symbol in the order in which they lie in it: the
/// blocks' data words by turns, then their parity words by turns.
fn interleave(words: &[u8], version: usize, level: EccLevel) -> Vec<u8> {
    let p = block_params(version, level_index(level));
    let total = total_codewords(version) as usize;
    let (bs, dw, ns) = (p.bs as usize, p.dw as usize, p.ns as usize);
    let long = (total - bs * ns) / (bs + 1);
    let npar = bs - dw;
    let mut blocks: Vec<(Vec<u8>, Vec<u8>)> = Vec::new();
    let mut at = 0;
    for i in 0..ns + long {
        let n = if i < ns { dw } else { dw + 1 };
        let d = words[at..at + n].to_vec();
        at += n;
        let e = rs_parity(&d, npar);
        blocks.push((d, e));
    }
    let mut out = Vec::new();
    for j in 0..dw + 1 {
        for b in &blocks {
            if j < b.0.len() {
                out.push(b.0[j]);
            }
        }
    }
    for j in 0..npar {
        for b in &blocks {
            out.push(b.1[j]);
        }
    }
    assert_eq!(out.len(), total);
    out
}

fn alignment_positions(version: usize) -> Vec<usize> {
    if version == 1 {
        return Vec::new();
    }
    let n = version / 7 + 2;
    let step = if version == 32 {
        26
    } else {
        (version * 4 + n * 2 + 1) / (n * 2 - 2) * 2
    };
    let size = version * 4 + 17;
    let mut r = vec![6];
    let mut pos = size - 7;
    for _ in 0..n - 1 {
        r.insert(1, pos);
        pos = pos.wrapping_sub(step);
    }
    r
}

struct Matrix {
    size: usize,
    dark: Vec<bool>,
    function: Vec<bool>,
}

impl Matrix {
    fn set_function(&mut self, x: usize, y: usize, dark: bool) {
        self.dark[y * self.size + x] = dark;
        self.function[y * self.size + x] = true;
    }
}

fn format_word(level: EccLevel, mask: u32) -> u32 {
    let bits = match level {
        EccLevel::L => 1,
        EccLevel::M => 0,
        EccLevel::Q => 3,
        EccLevel::H => 2,
    };
    let data = (bits << 3) | mask;
    let mut rem = data;
    for _ in 0..10 {
        rem = (rem << 1) ^ ((rem >> 9) * 0x537);
    }
    ((data << 10) | rem) ^ 0x5412
}

fn draw_format(m: &mut Matrix, word: u32) {
    let bit = |i: usize| (word >> i) & 1 == 1;
    let size = m.size;
    for i in 0..6 {
        m.set_function(8, i, bit(i));
    }
    m.set_function(8, 7, bit(6));
    m.set_function(8, 8, bit(7));
    m.set_function(7, 8, bit(8));
    for i in 9..15 {
        m.set_function(14 - i, 8, bit(i));
    }
    for i in 0..8 {
        m.set_function(size - 1 - i, 8, bit(i));
    }
    for i in 8..15 {
        m.set_function(8, size - 15 + i, bit(i));
    }
    m.set_function(8, size - 8, true);
}

fn draw_function_patterns(m: &mut Matrix, version: usize) {
    let size = m.size;
    for i in 0..size {
        m.set_function(6, i, i % 2 == 0);
        m.set_function(i, 6, i % 2 == 0);
    }
    for (cx, cy) in [(3i32, 3i32), (size as i32 - 4, 3), (3, size as i32 - 4)] {
        for dy in -4i32..=4 {
            for dx in -4i32..=4 {
                let (x, y) = (cx + dx, cy + dy);
                if x >= 0 && y >= 0 && (x as usize) < size && (y as usize) < size {
                    let d = std::cmp::max(dx.abs(), dy.abs());
                    m.set_function(x as usize, y as usize, d != 2 && d != 4);
                }
            }
        }
    }
    let ap = alignment_positions(version);
    let n = ap.len();
    for (i, cx) in ap.iter().enumerate() {
        for (j, cy) in ap.iter().enumerate() {
            if (i == 0 && j == 0) || (i == 0 && j == n - 1) || (i == n - 1 && j == 0) {
                continue;
            }
            for dy in -2i32..=2 {
                for dx in -2i32..=2 {
                    let d = std::cmp::max(dx.abs(), dy.abs());
                    m.set_function(
                        (*cx as i32 + dx) as usize,
                        (*cy as i32 + dy) as usize,
                        d != 1,
                    );
                }
            }
        }
    }
    draw_format(m, 0);
    if version >= 7 {
        let mut rem = version as u32;
        for _ in 0..12 {
            rem = (rem << 1) ^ ((rem >> 11) * 0x1f25);
        }
        let bits = ((version as u32) << 12) | rem;
        for i in 0..18 {
            let bit = (bits >> i) & 1 == 1;
            let a = size - 11 + i % 3;
            let b = i / 3;
            m.set_function(a, b, bit);
            m.set_function(b, a, bit);
        }
    }
}

fn mask_hit(mask: u32, x: usize, y: usize) -> bool {
    match mask {
        0 => (x + y) % 2 == 0,
        1 => y % 2 == 0,
        2 => x % 3 == 0,
        3 => (x + y) % 3 == 0,
        4 => (x / 3 + y / 2) % 2 == 0,
        5 => x * y % 2 + x * y % 3 == 0,
        6 => (x * y % 2 + x * y % 3) % 2 == 0,
        _ => ((x + y) % 2 + x * y % 3) % 2 == 0,
    }
}

/// Draws the symbol whose codewords, in the order in which they lie in
/// it, are `codewords`.
fn draw(codewords: &[u8], version: usize, level: EccLevel, mask: u32) -> Code {
    let size = version * 4 + 17;
    let mut m = Matrix { size, dark: vec![false; size * size], function: vec![false; size * size] };
    draw_function_patterns(&mut m, version);
    let mut i = 0;
    let mut right = size as i32 - 1;
    while right >= 1 {
        if right == 6 {
            right = 5;
        }
        for vert in 0..size {
            for j in 0..2 {
                let x = (right - j) as usize;
                let upward = (right + 1) & 2 == 0;
                let y = if upward { size - 1 - vert } else { vert };
                if !m.function[y * size + x] {
                    let mut bit = false;
                    if i < codewords.len() * 8 {
                        bit = (codewords[i >> 3] >> (7 - (i & 7))) & 1 == 1;
                        i += 1;
                    }
                    m.dark[y * size + x] = bit != mask_hit(mask, x, y);
                }
            }
        }
        right -= 2;
    }
    assert_eq!(i, codewords.len() * 8);
    draw_format(&mut m, format_word(level, mask));
    let mut code = Code::default();
    code.size = size as i32;
    for (k, d) in m.dark.iter().enumerate() {
        if *d {
            code.cell_bitmap[k >> 3] |= 1 << (k & 7);
        }
    }
    code
}

fn encode(segs: &[Seg], version: usize, level: EccLevel, mask: u32) -> Code {
    let words = data_words(segs, version, level);
    draw(&interleave(&words, version, level), version, level, mask)
}

fn flip(code: &mut Code, x: usize, y: usize) {
    let k = y * code.size as usize + x;
    code.cell_bitmap[k >> 3] ^= 1 << (k & 7);
}

const LEVELS: [EccLevel; 4] = [EccLevel::M, EccLevel::L, EccLevel::H, EccLevel::Q];

// ---- the tests ----

#[test]
fn hello_version_1_h_mask_1_with_utf8_eci() {
    let code = encode(&[Seg::Eci(26), Seg::Byte(b"Hello".to_vec())], 1, EccLevel::H, 1);
    let data = code.decode().unwrap();
    assert_eq!(data.version, 1);
    assert_eq!(data.ecc_level, EccLevel::H);
    assert_eq!(data.mask, 1);
    assert_eq!(data.data_type, Some(DataType::Byte));
    assert_eq!(data.eci, Some(26));
    assert_eq!(data.eci.and_then(Eci::from_u32), Some(Eci::Utf8));
    assert_eq!(data.payload, b"Hello");
}

#[test]
fn world_version_1_h_mask_3_with_utf8_eci() {
    let code = encode(&[Seg::Eci(26), Seg::Byte(b"World".to_vec())], 1, EccLevel::H, 3);
    let data = code.decode().unwrap();
    assert_eq!(data.version, 1);
    assert_eq!(data.ecc_level, EccLevel::H);
    assert_eq!(data.mask, 3);
    assert_eq!(data.data_type, Some(DataType::Byte));
    assert_eq!(data.eci, Some(26));
    assert_eq!(data.payload, b"World");
}

#[test]
fn version_4_m_mask_2_byte_payloads() {
    for text in [&b"from javascript"[..], &b"here comes qr!"[..]] {
        let code = encode(&[Seg::Byte(text.to_vec())], 4, EccLevel::M, 2);
        let data = code.decode().unwrap();
        assert_eq!(data.version, 4);
        assert_eq!(data.ecc_level, EccLevel::M);
        assert_eq!(data.mask, 2);
        assert_eq!(data.data_type, Some(DataType::Byte));
        assert_eq!(data.eci, None);
        assert_eq!(data.payload, text);
    }
}

fn fixture(mode: DataType) -> (Seg, Vec<u8>) {
    match mode {
        DataType::Numeric => (Seg::Numeric(b"42".to_vec()), b"42".to_vec()),
        DataType::Alpha => (Seg::Alpha(b"AC-42".to_vec()), b"AC-42".to_vec()),
        DataType::Byte => (Seg::Byte(b"aA1234".to_vec()), b"aA1234".to_vec()),
        _ => (Seg::Kanji(vec![0x93, 0x5f, 0xe4, 0xaa]), vec![0x93, 0x5f, 0xe4, 0xaa]),
    }
}

fn check_matrix(versions: std::ops::RangeInclusive<usize>) {
    for version in versions {
        for level in LEVELS {
            for mode in [DataType::Numeric, DataType::Alpha, DataType::Byte, DataType::Kanji] {
                let mask = ((version + level_index(level)) % 8) as u32;
                let (seg, want) = fixture(mode);
                let code = encode(&[seg], version, level, mask);
                let data = code.decode().expect("failed to decode");
                assert_eq!(data.version, version);
                assert_eq!(data.ecc_level, level);
                assert_eq!(data.mask, mask as i32);
                assert_eq!(data.data_type, Some(mode));
                assert_eq!(data.payload, want);
            }
        }
    }
}

#[test]
fn generated_matrix_versions_1_to_10() {
    check_matrix(1..=10);
}

#[test]
fn generated_matrix_versions_11_to_20() {
    check_matrix(11..=20);
}

#[test]
fn generated_matrix_versions_21_to_30() {
    check_matrix(21..=30);
}

#[test]
fn generated_matrix_versions_31_to_40() {
    check_matrix(31..=40);
}

#[test]
fn every_mask_pattern_is_undone() {
    for mask in 0..8 {
        let code = encode(&[Seg::Byte(b"mask patterns".to_vec())], 3, EccLevel::Q, mask);
        let data = code.decode().unwrap();
        assert_eq!(data.mask, mask as i32);
        assert_eq!(data.payload, b"mask patterns");
    }
}

#[test]
fn redecoding_an_encoded_payload_gives_it_back() {
    let text: Vec<u8> = (0..200u32).map(|i| (i * 7 + 3) as u8).collect();
    for (version, level) in [(10, EccLevel::L), (14, EccLevel::M), (20, EccLevel::Q), (27, EccLevel::H)] {
        let first = encode(&[Seg::Byte(text.clone())], version, level, 5).decode().unwrap();
        let again = encode(&[Seg::Byte(first.payload.clone())], first.version, first.ecc_level, first.mask as u32)
            .decode()
            .unwrap();
        assert_eq!(again.payload, text);
        assert_eq!(again.version, version);
    }
}

#[test]
fn mixed_segments_report_the_highest_kind() {
    let segs = [
        Seg::Numeric(b"0123456789".to_vec()),
        Seg::Kanji(vec![0x93, 0x5f]),
        Seg::Alpha(b"HELLO WORLD".to_vec()),
        Seg::Byte(b"!".to_vec()),
    ];
    let data = encode(&segs, 5, EccLevel::M, 0).decode().unwrap();
    assert_eq!(data.data_type, Some(DataType::Kanji));
    let mut want = b"0123456789".to_vec();
    want.extend_from_slice(&[0x93, 0x5f]);
    want.extend_from_slice(b"HELLO WORLD!");
    assert_eq!(data.payload, want);
}

#[test]
fn numeric_groups_of_one_two_and_three_digits() {
    for text in [&b"7"[..], &b"42"[..], &b"123"[..], &b"1234"[..], &b"12345"[..], &b"000999"[..]] {
        let data = encode(&[Seg::Numeric(text.to_vec())], 1, EccLevel::L, 4).decode().unwrap();
        assert_eq!(data.data_type, Some(DataType::Numeric));
        assert_eq!(data.payload, text);
    }
}

#[test]
fn alphanumeric_alphabet_comes_back() {
    let text = b"0123456789ABCDEFGHIJKLMNOPQRSTUVWXYZ $%*+-./:";
    let data = encode(&[Seg::Alpha(text.to_vec())], 3, EccLevel::L, 6).decode().unwrap();
    assert_eq!(data.data_type, Some(DataType::Alpha));
    assert_eq!(data.payload, text);
}

#[test]
fn kanji_in_both_ranges() {
    let text = vec![0x81, 0x40, 0x9f, 0xfc, 0xe0, 0x40, 0xea, 0xa4];
    let data = encode(&[Seg::Kanji(text.clone())], 2, EccLevel::M, 7).decode().unwrap();
    assert_eq!(data.data_type, Some(DataType::Kanji));
    assert_eq!(data.payload, text);
}

#[test]
fn eci_of_one_two_and_three_bytes() {
    let one = encode(&[Seg::Eci(26), Seg::Byte(b"a".to_vec())], 1, EccLevel::L, 0).decode().unwrap();
    assert_eq!(one.eci, Some(26));
    let two = encode(&[Seg::Eci(899), Seg::Byte(b"a".to_vec())], 1, EccLevel::L, 0).decode().unwrap();
    assert_eq!(two.eci, Some(0x8000 | 899));
    let three =
        encode(&[Seg::Eci(100_000), Seg::Byte(b"a".to_vec())], 1, EccLevel::L, 0).decode().unwrap();
    assert_eq!(three.eci, Some(0xc0_0000 | 100_000));
    assert_eq!(three.payload, b"a");
}

#[test]
fn empty_payload_has_no_kind() {
    let data = encode(&[], 1, EccLevel::M, 2).decode().unwrap();
    assert_eq!(data.data_type, None);
    assert_eq!(data.eci, None);
    assert!(data.payload.is_empty());
}

#[test]
fn damaged_cells_within_capacity_are_corrected() {
    let mut code = encode(&[Seg::Byte(b"error correction".to_vec())], 3, EccLevel::H, 1);
    // bytes of the data area, two columns wide: flip a few whole codewords
    for y in 20..28 {
        flip(&mut code, 28, y);
        flip(&mut code, 27, y);
    }
    let data = code.decode().unwrap();
    assert_eq!(data.payload, b"error correction");
}

#[test]
fn too_much_damage_is_a_data_ecc_error() {
    let mut code = encode(&[Seg::Byte(b"x".to_vec())], 1, EccLevel::L, 0);
    for y in 9..21 {
        for x in 9..21 {
            if (x * 7 + y * 3) % 4 == 0 {
                flip(&mut code, x, y);
            }
        }
    }
    assert_eq!(code.decode().err(), Some(DecodeError::DataEcc));
}

#[test]
fn format_is_read_from_the_second_copy_when_the_first_is_ruined() {
    let mut code = encode(&[Seg::Byte(b"second".to_vec())], 2, EccLevel::Q, 5);
    for (x, y) in [(8, 0), (8, 1), (8, 2), (8, 3), (8, 4), (8, 5), (8, 7)] {
        flip(&mut code, x, y);
    }
    let data = code.decode().unwrap();
    assert_eq!(data.ecc_level, EccLevel::Q);
    assert_eq!(data.mask, 5);
    assert_eq!(data.payload, b"second");
}

#[test]
fn three_flipped_format_bits_are_corrected() {
    let mut code = encode(&[Seg::Byte(b"fmt".to_vec())], 1, EccLevel::M, 6);
    let size = code.size as usize;
    for (x, y) in [(8, 0), (8, 8), (2, 8)] {
        flip(&mut code, x, y);
    }
    for (x, y) in [(size - 1, 8), (size - 5, 8), (8, size - 3)] {
        flip(&mut code, x, y);
    }
    let data = code.decode().unwrap();
    assert_eq!(data.ecc_level, EccLevel::M);
    assert_eq!(data.mask, 6);
}

#[test]
fn both_format_copies_ruined_is_a_format_ecc_error() {
    let mut code = encode(&[Seg::Byte(b"fmt".to_vec())], 1, EccLevel::M, 6);
    let size = code.size as usize;
    for (x, y) in [(8, 0), (8, 1), (8, 2), (8, 3), (8, 4)] {
        flip(&mut code, x, y);
    }
    for (x, y) in [(size - 1, 8), (size - 2, 8), (size - 3, 8), (size - 4, 8), (size - 5, 8)] {
        flip(&mut code, x, y);
    }
    let r = code.decode();
    match r {
        Err(e) => assert_eq!(e, DecodeError::FormatEcc),
        Ok(d) => assert!(d.ecc_level != EccLevel::M || d.mask != 6),
    }
}

#[test]
fn grid_sizes_that_are_no_symbol() {
    let mut code = Code::default();
    for size in [0, 1, 16, 18, 19, 20, 22, 23, 24, 178, 179, 180, -1, -2, -3, i32::MAX, i32::MIN] {
        code.size = size;
        if (size as i64 - 17) % 4 != 0 {
            assert_eq!(code.decode().err(), Some(DecodeError::InvalidGridSize), "size {}", size);
        }
    }
    for size in [17, 13, 9, 1, -3, 181, 185, 1001, i32::MIN + 1] {
        code.size = size;
        if (size as i64 - 17) % 4 == 0 {
            assert_eq!(code.decode().err(), Some(DecodeError::InvalidVersion), "size {}", size);
        }
    }
}

#[test]
fn blank_grid_of_a_valid_size_has_no_format() {
    let mut code = Code::default();
    code.size = 21;
    assert_eq!(code.decode().err(), Some(DecodeError::FormatEcc));
}

#[test]
fn a_count_past_the_data_is_an_underflow() {
    // a byte segment that claims 17 bytes in a symbol that holds 16 data
    // words, mode and count included
    let mut words = vec![0x41u8, 0x10];
    words.resize(16, 0x55);
    let code = draw(&interleave(&words, 1, EccLevel::M), 1, EccLevel::M, 0);
    assert_eq!(code.decode().err(), Some(DecodeError::DataUnderflow));
}

#[test]
fn decoding_twice_gives_the_same_data() {
    let code = encode(&[Seg::Alpha(b"SAME AGAIN".to_vec())], 2, EccLevel::L, 3);
    let a = code.decode().unwrap();
    let b = code.decode().unwrap();
    assert_eq!(a.payload, b.payload);
    assert_eq!(a.version, b.version);
    assert_eq!(a.mask, b.mask);
    assert_eq!(a.ecc_level, b.ecc_level);
    assert_eq!(a.data_type, b.data_type);
}

#[test]
fn a_long_block_with_nine_wrong_codewords_is_restored() {
    // version 5-Q: two blocks of 33 codewords and two of 34, with 18
    // parity words each, so that nine wrong codewords of a block are the
    // most that can be put right
    let text = b"long blocks carry one data word more";
    let words = data_words(&[Seg::Byte(text.to_vec())], 5, EccLevel::Q);
    let clean = interleave(&words, 5, EccLevel::Q);
    for block in [2usize, 3] {
        let mut codewords = clean.clone();
        // five data words, the last data word, and three parity words of
        // the block
        for j in 0..5 {
            codewords[j * 4 + block] ^= 0x5a;
        }
        codewords[60 + (block - 2)] ^= 0xff;
        for k in 0..3 {
            codewords[62 + k * 4 + block] ^= 0x3c;
        }
        let data = draw(&codewords, 5, EccLevel::Q, 3).decode().unwrap();
        assert_eq!(data.payload, text);
    }
    // and so is a short block
    let mut codewords = clean.clone();
    for j in 0..6 {
        codewords[j * 4] ^= 0x81;
    }
    for k in 0..3 {
        codewords[62 + k * 4] ^= 0x18;
    }
    let data = draw(&codewords, 5, EccLevel::Q, 3).decode().unwrap();
    assert_eq!(data.payload, text);
}

#[test]
fn every_block_of_every_version_bears_its_full_share_of_errors() {
    for version in [3usize, 5, 7, 10, 14, 21, 30, 40] {
        for level in LEVELS {
            let p = block_params(version, level_index(level));
            let total = total_codewords(version) as usize;
            let (bs, dw, ns) = (p.bs as usize, p.dw as usize, p.ns as usize);
            let long = (total - bs * ns) / (bs + 1);
            let bc = ns + long;
            let t = (bs - dw) / 2;
            let words = data_words(&[Seg::Byte(b"share".to_vec())], version, level);
            let clean = interleave(&words, version, level);
            let mut codewords = clean.clone();
            // in every block the first `t` data words are wrong
            for block in 0..bc {
                for j in 0..t {
                    codewords[j * bc + block] ^= (1 + (j + block) % 255) as u8;
                }
            }
            let data = draw(&codewords, version, level, 0).decode();
            assert_eq!(
                data.map(|d| d.payload).map_err(|e| (e, version, level, bs, dw, ns, long)),
                Ok(b"share".to_vec())
            );
        }
    }
}
