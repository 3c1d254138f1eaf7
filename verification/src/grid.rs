use crate::ecc::{correct_format, flip_roots, spec_correct_format};
use crate::error::DecodeError;
use crate::quirc::{Code, Data, EccLevel};
use crate::version_db::{alignment, alignment_center, alignment_count};
use vstd::prelude::*;

verus! {

/// The pattern that is added to a format word before it is placed.
pub const FORMAT_MASK: u16 = 0x5412;

/// The columns of the cells that hold the format word beside the top-left
/// finder, from bit 0 on.
pub const FORMAT_XS: [i32; 15] = [8, 8, 8, 8, 8, 8, 8, 8, 7, 5, 4, 3, 2, 1, 0];

/// The rows of the cells that hold the format word beside the top-left
/// finder, from bit 0 on.
pub const FORMAT_YS: [i32; 15] = [0, 1, 2, 3, 4, 5, 7, 8, 8, 8, 8, 8, 8, 8, 8];

/// Reads the cell at `(x, y)`: 1 where it is dark, else 0.
pub fn grid_bit(code: &Code, x: i32, y: i32) -> (bit: i32)
    requires
        code.fits(),
        code.has_cell(x as int, y as int),
    ensures
        bit == if code.dark(x as int, y as int) { 1i32 } else { 0i32 },
{
    assert(0 <= y * code.size + x < 177 * 177) by (nonlinear_arith)
        requires
            0 <= x < code.size,
            0 <= y < code.size,
            code.size <= 177,
    ;
    let p: i32 = y * code.size + x;
    let b = code.cell_bitmap[(p / 8) as usize];
    if (b >> ((p % 8) as u8)) & 1u8 == 1u8 {
        1
    } else {
        0
    }
}

/// The column and the row of the cell that holds bit `bit` of the format
/// word at the location `which`: 0 is the one beside the top-left finder,
/// any other the one split between the other two finders.
pub open spec fn format_cell(size: int, which: int, bit: int) -> (int, int) {
    if which == 0 {
        (FORMAT_XS@[bit] as int, FORMAT_YS@[bit] as int)
    } else if bit >= 8 {
        (8, size - 15 + bit)
    } else {
        (size - 1 - bit, 8)
    }
}

/// The number that the `k` highest bits of the format word at the location
/// `which` make up, as the cells have them.
pub open spec fn format_bits(code: Code, which: int, k: int) -> int
    decreases k,
{
    if k <= 0 {
        0
    } else {
        let (x, y) = format_cell(code.size as int, which, 15 - k);
        2 * format_bits(code, which, k - 1) + if code.dark(x, y) {
            1int
        } else {
            0int
        }
    }
}

/// The format word at the location `which` as the cells have it, with the
/// placement pattern taken off.
pub open spec fn raw_format(code: Code, which: int) -> u16 {
    (format_bits(code, which, 15) as u16) ^ FORMAT_MASK
}

/// The level that a corrected format word names.
pub open spec fn format_level(word: u16) -> Option<EccLevel> {
    EccLevel::spec_from_i32((word >> 13) as int)
}

/// The mask pattern that a corrected format word names.
pub open spec fn format_mask(word: u16) -> int {
    ((word >> 10) & 7) as int
}

/// The level and the mask pattern that the format word at the location
/// `which` gives, or `None` where the word cannot be corrected.
pub open spec fn spec_read_format(code: Code, which: int) -> Option<(EccLevel, int)> {
    match spec_correct_format(raw_format(code, which)) {
        Some(word) => match format_level(word) {
            Some(level) => Some((level, format_mask(word))),
            None => None,
        },
        None => None,
    }
}

/// A number of `k` bits is less than 2 to the `k`.
proof fn lemma_format_bits_bound(code: Code, which: int, k: int)
    requires
        0 <= k <= 15,
    ensures
        0 <= format_bits(code, which, k) < vstd::arithmetic::power2::pow2(k as nat),
    decreases k,
{
    vstd::arithmetic::power2::lemma2_to64();
    if k > 0 {
        lemma_format_bits_bound(code, which, k - 1);
        vstd::arithmetic::power2::lemma_pow2_unfold(k as nat);
    }
}

/// Flipping bits below the fifteenth keeps a word below 2 to the 15.
proof fn lemma_flip_roots_bound(sigma: Seq<u8>, u: u16, k: int)
    requires
        u < 0x8000,
        0 <= k <= 15,
    ensures
        flip_roots(sigma, u, k) < 0x8000,
    decreases k,
{
    if k > 0 {
        lemma_flip_roots_bound(sigma, u, k - 1);
        let v = flip_roots(sigma, u, k - 1);
        let j = (k - 1) as u16;
        assert(v < 0x8000 && j < 15 ==> (v ^ (1u16 << j)) < 0x8000) by (bit_vector);
    }
}

/// A corrected format word of 15 bits names a level and a mask pattern
/// from 0 to 7.
pub proof fn lemma_format_fields(u: u16)
    requires
        u < 0x8000,
    ensures
        match spec_correct_format(u) {
            Some(word) => word < 0x8000 && format_level(word) is Some && 0 <= format_mask(word)
                <= 7,
            None => true,
        },
{
    reveal(spec_correct_format);
    match spec_correct_format(u) {
        Some(word) => {
            let sigma = crate::ecc::spec_berlekamp_massey(
                crate::gf::GaloisField::Gf16,
                crate::ecc::spec_format_syndromes(u),
                6,
            );
            lemma_flip_roots_bound(sigma, u, 15);
            assert(word < 0x8000);
            assert(word < 0x8000 ==> (word >> 13) < 4 && ((word >> 10) & 7) <= 7) by (bit_vector);
        },
        None => {},
    }
}

/// Computes the cell that holds bit `bit` of the format word.
fn format_cell_at(size: i32, which: i32, bit: usize) -> (cell: (i32, i32))
    requires
        9 <= size <= 177,
        bit < 15,
    ensures
        (cell.0 as int, cell.1 as int) == format_cell(size as int, which as int, bit as int),
        0 <= cell.0 < size,
        0 <= cell.1 < size,
{
    if which == 0 {
        (FORMAT_XS[bit], FORMAT_YS[bit])
    } else if bit >= 8 {
        (8, size - 15 + bit as i32)
    } else {
        (size - 1 - bit as i32, 8)
    }
}

/// Reads the format word at the location `which`, corrects it, and writes
/// the level and the mask pattern it names to `data`. Where the word
/// cannot be corrected, `data` is left as it was.
pub fn read_format(code: &Code, data: &mut Data, which: i32) -> (r: Result<(), DecodeError>)
    requires
        9 <= code.size <= 177,
    ensures
        match spec_read_format(*code, which as int) {
            Some((level, mask)) => {
                &&& r is Ok
                &&& 0 <= mask <= 7
                &&& final(data)@ == (crate::quirc::DataView {
                    ecc_level: level,
                    mask: mask,
                    ..old(data)@
                })
            },
            None => {
                &&& r == Err::<(), DecodeError>(DecodeError::FormatEcc)
                &&& final(data)@ == old(data)@
            },
        },
{
    let mut format: u16 = 0;
    let mut k: usize = 0;
    while k < 15
        invariant
            k <= 15,
            9 <= code.size <= 177,
            format == format_bits(*code, which as int, k as int),
        decreases 15 - k,
    {
        proof {
            lemma_format_bits_bound(*code, which as int, k as int);
            lemma_format_bits_bound(*code, which as int, k + 1);
            vstd::arithmetic::power2::lemma2_to64();
            vstd::arithmetic::power2::lemma_pow2_strictly_increases(k as nat, 15);
            if k + 1 < 15 {
                vstd::arithmetic::power2::lemma_pow2_strictly_increases((k + 1) as nat, 15);
            }
        }
        let (x, y) = format_cell_at(code.size, which, 14 - k);
        format = format * 2 + grid_bit(code, x, y) as u16;
        k += 1;
    }
    proof {
        lemma_format_bits_bound(*code, which as int, 15);
        vstd::arithmetic::power2::lemma2_to64();
        assert(format < 0x8000 ==> (format ^ 0x5412u16) < 0x8000) by (bit_vector);
        lemma_format_fields(format ^ 0x5412u16);
    }
    format = format ^ FORMAT_MASK;
    match correct_format(&mut format) {
        Ok(()) => {},
        Err(e) => {
            return Err(e);
        },
    }
    match EccLevel::from_i32((format >> 13) as i32) {
        Some(level) => {
            data.ecc_level = level;
        },
        None => {
            return Err(DecodeError::FormatEcc);
        },
    }
    data.mask = ((format >> 10) & 7) as i32;
    Ok(())
}

/// Does the mask pattern `mask` flip the cell in row `i` and column `j`?
/// A number that names no pattern flips nothing.
#[verifier::opaque]
pub open spec fn mask_cond(mask: int, i: int, j: int) -> bool {
    if mask == 0 {
        (i + j) % 2 == 0
    } else if mask == 1 {
        i % 2 == 0
    } else if mask == 2 {
        j % 3 == 0
    } else if mask == 3 {
        (i + j) % 3 == 0
    } else if mask == 4 {
        (i / 2 + j / 3) % 2 == 0
    } else if mask == 5 {
        (i * j) % 2 + (i * j) % 3 == 0
    } else if mask == 6 {
        ((i * j) % 2 + (i * j) % 3) % 2 == 0
    } else if mask == 7 {
        ((i * j) % 3 + (i + j) % 2) % 2 == 0
    } else {
        false
    }
}

/// Tells by 1 or 0 whether the mask pattern `mask` flips the cell in row
/// `i` and column `j`.
pub fn mask_bit(mask: i32, i: i32, j: i32) -> (bit: i32)
    requires
        0 <= i <= 0x7fff,
        0 <= j <= 0x7fff,
    ensures
        bit == if mask_cond(mask as int, i as int, j as int) { 1i32 } else { 0i32 },
{
    reveal(mask_cond);
    assert(0 <= i * j <= 0x7fff * 0x7fff) by (nonlinear_arith)
        requires
            0 <= i <= 0x7fff,
            0 <= j <= 0x7fff,
    ;
    let hit = match mask {
        0 => (i + j) % 2 == 0,
        1 => i % 2 == 0,
        2 => j % 3 == 0,
        3 => (i + j) % 3 == 0,
        4 => (i / 2 + j / 3) % 2 == 0,
        5 => (i * j) % 2 + (i * j) % 3 == 0,
        6 => ((i * j) % 2 + (i * j) % 3) % 2 == 0,
        7 => ((i * j) % 3 + (i + j) % 2) % 2 == 0,
        _ => false,
    };
    if hit {
        1
    } else {
        0
    }
}

/// The index of the last of the first `limit` alignment-pattern centres of
/// a version that lies within two cells of the coordinate `c`, or -1.
pub open spec fn alignment_near(version: int, c: int, limit: int) -> int
    decreases limit,
{
    if limit <= 0 {
        -1
    } else if -3 < alignment(version, limit - 1) - c < 3 {
        limit - 1
    } else {
        alignment_near(version, c, limit - 1)
    }
}

/// Does the cell in row `i` and column `j` lie under an alignment pattern?
/// It does where both coordinates are within two cells of a centre, but
/// for the three pairs of centres that lie under the finders.
pub open spec fn in_alignment(version: int, i: int, j: int) -> bool {
    let n = alignment_count(version, 7);
    let ai = alignment_near(version, i, n);
    let aj = alignment_near(version, j, n);
    &&& ai >= 0
    &&& aj >= 0
    &&& (0 < ai < n - 1 || 0 < aj < n - 1 || (ai == n - 1 && aj == n - 1))
}

/// Is the cell in row `i` and column `j` kept for a function pattern (a
/// finder with its format cells, a timing pattern, the version
/// information, an alignment pattern), so that it holds no data?
#[verifier::opaque]
pub open spec fn is_reserved(version: int, i: int, j: int) -> bool {
    let size = version * 4 + 17;
    ||| i < 9 && j < 9
    ||| i + 8 >= size && j < 9
    ||| i < 9 && j + 8 >= size
    ||| i == 6
    ||| j == 6
    ||| version >= 7 && i < 6 && j + 11 >= size
    ||| version >= 7 && i + 11 >= size && j < 6
    ||| in_alignment(version, i, j)
}

/// Where the first `a` centres are not zero and the next one is, or there
/// is no next one, the version has `a` centres.
pub proof fn lemma_alignment_count(version: int, a: int, limit: int)
    requires
        0 <= a <= limit <= 7,
        alignment_count(version, a) == a,
        a < 7 ==> alignment(version, a) == 0,
    ensures
        alignment_count(version, limit) == a,
    decreases limit,
{
    if limit > a {
        lemma_alignment_count(version, a, limit - 1);
    }
}

/// Tells by 1 or 0 whether the cell in row `i` and column `j` of a symbol
/// of the given version is kept for a function pattern.
pub fn reserved_cell(version: i32, i: i32, j: i32) -> (r: i32)
    requires
        0 <= version <= 40,
        0 <= i < version * 4 + 17,
        0 <= j < version * 4 + 17,
    ensures
        r == if is_reserved(version as int, i as int, j as int) { 1i32 } else { 0i32 },
{
    reveal(is_reserved);
    let size: i32 = version * 4 + 17;
    let mut ai: i32 = -1;
    let mut aj: i32 = -1;
    if i < 9 && j < 9 {
        return 1;
    }
    if i + 8 >= size && j < 9 {
        return 1;
    }
    if i < 9 && j + 8 >= size {
        return 1;
    }
    if i == 6 || j == 6 {
        return 1;
    }
    if version >= 7 {
        if i < 6 && j + 11 >= size {
            return 1;
        }
        if i + 11 >= size && j < 6 {
            return 1;
        }
    }
    let mut a: i32 = 0;
    while a < 7 && alignment_center(version as usize, a as usize) != 0
        invariant
            0 <= a <= 7,
            0 <= version <= 40,
            -200 <= i <= 200,
            -200 <= j <= 200,
            alignment_count(version as int, a as int) == a,
            ai == alignment_near(version as int, i as int, a as int),
            aj == alignment_near(version as int, j as int, a as int),
        decreases 7 - a,
    {
        let p: i32 = alignment_center(version as usize, a as usize);
        assert(-1000 <= p <= 1000) by {
            lemma_alignment_range(version as int, a as int);
        }
        if -3 < p - i && p - i < 3 {
            ai = a;
        }
        if -3 < p - j && p - j < 3 {
            aj = a;
        }
        a += 1;
    }
    proof {
        lemma_alignment_count(version as int, a as int, 7);
    }
    if ai >= 0 && aj >= 0 {
        a -= 1;
        if ai > 0 && ai < a {
            return 1;
        }
        if aj > 0 && aj < a {
            return 1;
        }
        if aj == a && ai == a {
            return 1;
        }
    }
    0
}

/// No alignment-pattern centre lies outside the largest grid.
pub proof fn lemma_alignment_range(version: int, k: int)
    requires
        0 <= version <= 40,
        0 <= k < 7,
    ensures
        0 <= alignment(version, k) <= 170,
{
    assert(forall|n: int| 0 <= n < 287 ==> 0 <= #[trigger] crate::version_db::ALIGNMENT@[n] <= 170);
}

} // verus!
