//! Cells of the grid: bits, masks, reserved cells and the format word.

use quircs::grid::{grid_bit, mask_bit, read_format, reserved_cell};
use quircs::version_db::{
    alignment_center, block_params, total_codewords, version_info, RsParams, VersionInfo,
};
use quircs::{Code, Data, DecodeError, EccLevel, VERSION_MAX, VERSION_MIN};

fn set(code: &mut Code, x: i32, y: i32) {
    let i = (y * code.size + x) as usize;
    code.cell_bitmap[i >> 3] |= 1 << (i & 7);
}

#[test]
fn grid_bit_reads_the_bit_of_the_cell() {
    let mut code = Code::default();
    code.size = 21;
    set(&mut code, 3, 0);
    set(&mut code, 20, 20);
    set(&mut code, 0, 1);
    assert_eq!(grid_bit(&code, 3, 0), 1);
    assert_eq!(grid_bit(&code, 2, 0), 0);
    assert_eq!(grid_bit(&code, 20, 20), 1);
    assert_eq!(grid_bit(&code, 0, 1), 1);
    assert_eq!(grid_bit(&code, 1, 0), 0);
    assert_eq!(code.cell_bitmap[0], 0b0000_1000);
    assert_eq!(code.cell_bitmap[2], 0b0010_0000);
}

#[test]
fn mark_sets_the_cell_that_grid_bit_reads() {
    let mut code = Code::default();
    code.size = 177;
    code.mark(176, 176);
    code.mark(5, 9);
    assert_eq!(grid_bit(&code, 176, 176), 1);
    assert_eq!(grid_bit(&code, 5, 9), 1);
    assert_eq!(grid_bit(&code, 9, 5), 0);
    assert_eq!(code.cell_bitmap.iter().map(|b| b.count_ones()).sum::<u32>(), 2);
    assert_eq!(code.cell_bitmap[3916], 1);
}

#[test]
fn mask_patterns_follow_their_formulas() {
    for i in 0..12 {
        for j in 0..12 {
            let want = [
                (i + j) % 2 == 0,
                i % 2 == 0,
                j % 3 == 0,
                (i + j) % 3 == 0,
                (i / 2 + j / 3) % 2 == 0,
                (i * j) % 2 + (i * j) % 3 == 0,
                ((i * j) % 2 + (i * j) % 3) % 2 == 0,
                ((i * j) % 3 + (i + j) % 2) % 2 == 0,
            ];
            for (m, w) in want.iter().enumerate() {
                assert_eq!(mask_bit(m as i32, i, j), *w as i32, "mask {} at {} {}", m, i, j);
            }
            assert_eq!(mask_bit(8, i, j), 0);
            assert_eq!(mask_bit(-1, i, j), 0);
        }
    }
    assert_eq!(mask_bit(4, 5, 7), 1);
    assert_eq!(mask_bit(4, 2, 2), 0);
    assert_eq!(mask_bit(7, 1, 1), 0);
    assert_eq!(mask_bit(7, 3, 3), 1);
    assert_eq!(mask_bit(7, 1, 2), 0);
}

#[test]
fn reserved_cells_of_version_1() {
    // finders with their format cells, and the timing patterns
    for (i, j) in [(0, 0), (8, 8), (8, 0), (0, 8), (13, 0), (20, 8), (0, 13), (8, 20), (6, 10), (10, 6)] {
        assert_eq!(reserved_cell(1, i, j), 1, "{} {}", i, j);
    }
    for (i, j) in [(9, 9), (20, 20), (9, 0), (0, 9), (12, 0), (0, 12), (20, 9), (9, 20), (5, 9), (7, 12)] {
        assert_eq!(reserved_cell(1, i, j), 0, "{} {}", i, j);
    }
}

#[test]
fn reserved_cells_of_alignment_patterns_and_version_information() {
    // version 2 has one alignment pattern, centred at (18, 18)
    for d in 16..=20 {
        assert_eq!(reserved_cell(2, d, 18), 1);
        assert_eq!(reserved_cell(2, 18, d), 1);
    }
    assert_eq!(reserved_cell(2, 15, 18), 0);
    assert_eq!(reserved_cell(2, 21, 18), 0);
    assert_eq!(reserved_cell(2, 18, 21), 0);
    // version 7: centres 6, 22, 38; none under the finders
    assert_eq!(reserved_cell(7, 22, 22), 1);
    assert_eq!(reserved_cell(7, 38, 38), 1);
    assert_eq!(reserved_cell(7, 22, 38), 1);
    assert_eq!(reserved_cell(7, 4, 22), 1);
    assert_eq!(reserved_cell(7, 22, 4), 1);
    assert_eq!(reserved_cell(7, 30, 30), 0);
    // version information beside the top-right and bottom-left finders
    assert_eq!(reserved_cell(7, 0, 34), 1);
    assert_eq!(reserved_cell(7, 5, 36), 1);
    assert_eq!(reserved_cell(7, 34, 0), 1);
    assert_eq!(reserved_cell(7, 36, 5), 1);
    assert_eq!(reserved_cell(6, 0, 30), 0);
    assert_eq!(reserved_cell(6, 30, 0), 0);
}

#[test]
fn the_cells_that_are_not_reserved_hold_the_codewords() {
    for version in VERSION_MIN..=VERSION_MAX {
        let size = version as i32 * 4 + 17;
        let mut free = 0;
        for i in 0..size {
            for j in 0..size {
                if reserved_cell(version as i32, i, j) == 0 {
                    free += 1;
                }
            }
        }
        let bits = total_codewords(version) * 8;
        assert!(bits <= free && free < bits + 8, "version {}: {} cells, {} bits", version, free, bits);
    }
}

fn write_format(code: &mut Code, word: u16, first: bool, second: bool) {
    let xs = [8, 8, 8, 8, 8, 8, 8, 8, 7, 5, 4, 3, 2, 1, 0];
    let ys = [0, 1, 2, 3, 4, 5, 7, 8, 8, 8, 8, 8, 8, 8, 8];
    for bit in 0..15 {
        if (word >> bit) & 1 == 1 {
            if first {
                set(code, xs[bit], ys[bit]);
            }
            if second {
                if bit < 8 {
                    set(code, code.size - 1 - bit as i32, 8);
                } else {
                    set(code, 8, code.size - 15 + bit as i32);
                }
            }
        }
    }
}

fn format_word(level_bits: u32, mask: u32) -> u16 {
    let data = (level_bits << 3) | mask;
    let mut rem = data;
    for _ in 0..10 {
        rem = (rem << 1) ^ ((rem >> 9) * 0x537);
    }
    (((data << 10) | rem) ^ 0x5412) as u16
}

#[test]
fn read_format_gives_level_and_mask_from_either_copy() {
    let levels = [(0u32, EccLevel::M), (1, EccLevel::L), (2, EccLevel::H), (3, EccLevel::Q)];
    for (bits, level) in levels {
        for mask in 0..8 {
            for which in 0..2 {
                let mut code = Code::default();
                code.size = 25;
                write_format(&mut code, format_word(bits, mask), which == 0, which == 1);
                let mut data = Data::default();
                data.version = 2;
                assert!(read_format(&code, &mut data, which).is_ok());
                assert_eq!(data.ecc_level, level);
                assert_eq!(data.mask, mask as i32);
                assert_eq!(data.version, 2);
            }
        }
    }
}

#[test]
fn read_format_of_a_blank_grid_fails_and_leaves_the_data() {
    let mut code = Code::default();
    code.size = 21;
    let mut data = Data::default();
    data.mask = 5;
    data.ecc_level = EccLevel::Q;
    assert_eq!(read_format(&code, &mut data, 0), Err(DecodeError::FormatEcc));
    assert_eq!(read_format(&code, &mut data, 1), Err(DecodeError::FormatEcc));
    assert_eq!(data.mask, 5);
    assert_eq!(data.ecc_level, EccLevel::Q);
}

#[test]
fn the_tables_of_the_versions() {
    assert_eq!(total_codewords(1), 26);
    assert_eq!(total_codewords(40), 3706);
    assert_eq!(block_params(1, 0), RsParams::new(26, 16, 1));
    assert_eq!(block_params(1, 1), RsParams::new(26, 19, 1));
    assert_eq!(block_params(1, 2), RsParams::new(26, 9, 1));
    assert_eq!(block_params(1, 3), RsParams::new(26, 13, 1));
    assert_eq!(block_params(5, 3), RsParams::new(33, 15, 2));
    assert_eq!(block_params(40, 2), RsParams::new(45, 15, 20));
    assert_eq!(alignment_center(1, 0), 0);
    assert_eq!(alignment_center(2, 1), 18);
    assert_eq!(alignment_center(40, 6), 170);
    let info: VersionInfo = version_info(7);
    assert_eq!(info.data_bytes, 196);
    assert_eq!(info.apat, [6, 22, 38, 0, 0, 0, 0]);
    assert_eq!(info.ecc[3], RsParams::new(32, 14, 2));
    let none = version_info(0);
    assert_eq!(none.data_bytes, 0);
    assert_eq!(none.ecc[0], RsParams::default());
    for version in 1..=40usize {
        let total = total_codewords(version);
        for level in 0..4 {
            let p = block_params(version, level);
            let long = (total - p.bs * p.ns) / (p.bs + 1);
            assert_eq!(p.bs * p.ns + long * (p.bs + 1), total);
            assert!(p.dw >= 1 && p.dw < p.bs && p.bs - p.dw <= 30);
        }
    }
}

#[test]
fn alignment_centres_run_from_6_to_the_seventh_cell_from_the_edge() {
    for version in 2..=40usize {
        let size = version as i32 * 4 + 17;
        let n = version / 7 + 2;
        let step = if version == 32 {
            26
        } else {
            ((version * 4 + n * 2 + 1) / (n * 2 - 2) * 2) as i32
        };
        assert_eq!(alignment_center(version, 0), 6);
        for k in 1..n {
            let want = size - 7 - (n - 1 - k) as i32 * step;
            assert_eq!(alignment_center(version, k), want, "version {} centre {}", version, k);
        }
        for k in n..7 {
            assert_eq!(alignment_center(version, k), 0);
        }
    }
    assert_eq!(alignment_center(21, 4), 94);
    assert_eq!(alignment_center(1, 0), 0);
}
