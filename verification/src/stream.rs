use crate::ecc::{correct_block, spec_correct_block};
use crate::error::DecodeError;
use crate::grid::{grid_bit, is_reserved, mask_bit, mask_cond, reserved_cell};
use crate::quirc::{Code, Data};
use crate::version_db::{
    block_count, block_params, data_bytes, data_words, lemma_block_layout, long_blocks, rs_params,
    total_codewords, RsParams,
};
use vstd::prelude::*;

verus! {

/// The number of bytes of each buffer of a [`Datastream`], and one more
/// than the longest payload.
pub const MAX_PAYLOAD: usize = 8896;

/// The number of bits of each buffer of a [`Datastream`].
pub const STREAM_BITS: i32 = 71168;

/// The two buffers of the decoder: `raw` takes the bits of the data cells
/// as they are read, `data` the corrected data words, which are then read
/// bit by bit from `ptr` on.
#[derive(Copy, Clone)]
pub struct Datastream {
    pub raw: [u8; 8896],
    pub data_bits: i32,
    pub ptr: i32,
    pub data: [u8; 8896],
}

/// Is bit `s` of `b` set, counted from the lowest?
pub open spec fn bit_at(b: u8, s: u8) -> bool {
    (b >> s) & 1u8 == 1u8
}

/// Is bit `k` of `bytes` set, the highest bit of each byte first?
pub open spec fn msb_bit(bytes: Seq<u8>, k: int) -> bool {
    bit_at(bytes[k / 8], (7 - k % 8) as u8)
}

/// The first `n` bits of `bytes`, the highest bit of each byte first.
pub open spec fn bits_of(bytes: Seq<u8>, n: int) -> Seq<bool> {
    Seq::new(n as nat, |k: int| msb_bit(bytes, k))
}

/// The number that the bits `bits[from..from + n]` make up, the first of
/// them the highest.
pub open spec fn bits_value(bits: Seq<bool>, from: int, n: int) -> int
    decreases n,
{
    if n <= 0 {
        0
    } else {
        2 * bits_value(bits, from, n - 1) + if bits[from + n - 1] {
            1int
        } else {
            0int
        }
    }
}

/// A number of `n` bits is less than 2 to the `n`.
pub proof fn lemma_bits_value_bound(bits: Seq<bool>, from: int, n: int)
    requires
        0 <= n,
    ensures
        0 <= bits_value(bits, from, n) < vstd::arithmetic::power2::pow2(n as nat),
    decreases n,
{
    vstd::arithmetic::power2::lemma2_to64();
    if n > 0 {
        lemma_bits_value_bound(bits, from, n - 1);
        vstd::arithmetic::power2::lemma_pow2_unfold(n as nat);
    }
}

/// A number of at most `width` bits, where `width` is at most 30, is less
/// than 2 to the `width`, and this than 2 to the 30.
pub proof fn lemma_field_bound(bits: Seq<bool>, from: int, n: int, width: int)
    requires
        0 <= n <= width <= 30,
    ensures
        0 <= bits_value(bits, from, n) < vstd::arithmetic::power2::pow2(width as nat) <= 0x4000_0000,
{
    lemma_bits_value_bound(bits, from, n);
    vstd::arithmetic::power2::lemma2_to64();
    if n < width {
        vstd::arithmetic::power2::lemma_pow2_strictly_increases(n as nat, width as nat);
    }
    if width < 30 {
        vstd::arithmetic::power2::lemma_pow2_strictly_increases(width as nat, 30);
    }
}

impl Datastream {
    /// The bits read from the data cells so far.
    pub open spec fn raw_bits(&self) -> Seq<bool> {
        bits_of(self.raw@, self.data_bits as int)
    }

    /// Can `raw` take more bits? It can where it holds no set bit past
    /// those read so far.
    pub open spec fn wf_raw(&self) -> bool {
        &&& 0 <= self.data_bits <= STREAM_BITS
        &&& forall|k: int| self.data_bits <= k < STREAM_BITS ==> !#[trigger] msb_bit(self.raw@, k)
    }

    /// The bits of the corrected data words.
    pub open spec fn stream(&self) -> Seq<bool> {
        bits_of(self.data@, self.data_bits as int)
    }

    /// Does the reading position lie within the data words?
    pub open spec fn wf_read(&self) -> bool {
        0 <= self.ptr <= self.data_bits <= STREAM_BITS
    }

    /// The number of bits left to read.
    pub open spec fn remaining(&self) -> int {
        self.data_bits - self.ptr
    }

    /// A stream that holds nothing.
    pub fn new() -> (ds: Datastream)
        ensures
            ds.wf_raw(),
            ds.wf_read(),
            ds.data_bits == 0,
            ds.ptr == 0,
            forall|k: int| 0 <= k < 8896 ==> ds.raw@[k] == 0u8 && ds.data@[k] == 0u8,
    {
        let ds = Datastream { raw: [0u8; 8896], data_bits: 0, ptr: 0, data: [0u8; 8896] };
        proof {
            assert forall|k: int| 0 <= k < STREAM_BITS implies !#[trigger] msb_bit(ds.raw@, k) by {
                let s = (7 - k % 8) as u8;
                assert(!bit_at(0u8, s)) by (bit_vector);
            }
        }
        ds
    }
}

/// Setting the bit that stands `p` places below the highest sets that bit
/// and no other.
proof fn lemma_set_bit(b: u8, p: u8, s: u8)
    requires
        p < 8,
        s < 8,
    ensures
        bit_at(b | (0x80u8 >> p), s) == (s == 7 - p || bit_at(b, s)),
{
    assert(p < 8 && s < 8 ==> ((((b | (0x80u8 >> p)) >> s) & 1u8 == 1u8) == (s == 7u8 - p || ((b
        >> s) & 1u8 == 1u8)))) by (bit_vector);
}

/// Appends to `ds.raw` the data bit of the cell in row `i` and column
/// `j`: the cell's value, flipped where the mask pattern of `data` says
/// so.
pub fn read_bit(code: &Code, data: &mut Data, ds: &mut Datastream, i: i32, j: i32)
    requires
        code.fits(),
        code.has_cell(j as int, i as int),
        old(ds).wf_raw(),
        old(ds).data_bits < STREAM_BITS,
    ensures
        *final(data) == *old(data),
        final(ds).wf_raw(),
        final(ds).data_bits == old(ds).data_bits + 1,
        final(ds).raw_bits() == old(ds).raw_bits().push(
            code.dark(j as int, i as int) != mask_cond(old(data).mask as int, i as int, j as int),
        ),
        final(ds).ptr == old(ds).ptr,
        final(ds).data == old(ds).data,
{
    let ghost before = *ds;
    let bitpos: i32 = ds.data_bits % 8;
    let bytepos: usize = (ds.data_bits / 8) as usize;
    let mut v: i32 = grid_bit(code, j, i);
    if mask_bit(data.mask, i, j) != 0 {
        v = 1 - v;
    }
    if v != 0 {
        ds.raw[bytepos] = ds.raw[bytepos] | (0x80u8 >> (bitpos as u8));
    }
    ds.data_bits += 1;
    proof {
        let bit = code.dark(j as int, i as int) != mask_cond(
            data.mask as int,
            i as int,
            j as int,
        );
        assert forall|k: int| 0 <= k < STREAM_BITS implies #[trigger] msb_bit(ds.raw@, k) == (
        msb_bit(before.raw@, k) || (k == before.data_bits && bit)) by {
            let s = (7 - k % 8) as u8;
            if v != 0 && k / 8 == bytepos {
                lemma_set_bit(before.raw@[bytepos as int], bitpos as u8, s);
            }
        }
        assert(ds.raw_bits() =~= before.raw_bits().push(bit));
    }
}

/// The number of bits of the data words that are left to read.
pub fn bits_remaining(ds: &Datastream) -> (n: i32)
    requires
        ds.wf_read(),
    ensures
        n == ds.remaining(),
{
    ds.data_bits - ds.ptr
}

/// The lesser of two numbers.
pub open spec fn min_of(a: int, b: int) -> int {
    if a <= b {
        a
    } else {
        b
    }
}

/// Reads up to `len` bits of the data words, fewer where fewer are left,
/// and returns the number they make up, the first bit the highest.
pub fn take_bits(ds: &mut Datastream, len: i32) -> (ret: i32)
    requires
        old(ds).wf_read(),
        0 <= len <= 30,
    ensures
        ret == bits_value(old(ds).stream(), old(ds).ptr as int, min_of(len as int, old(ds).remaining())),
        final(ds).ptr == old(ds).ptr + min_of(len as int, old(ds).remaining()),
        final(ds).data_bits == old(ds).data_bits,
        final(ds).data == old(ds).data,
        final(ds).raw == old(ds).raw,
{
    let ghost start = ds.ptr;
    let ghost bits = ds.stream();
    let mut ret: i32 = 0;
    let mut len = len;
    let ghost n = len;
    while len != 0 && ds.ptr < ds.data_bits
        invariant
            0 <= len <= n <= 30,
            ds.wf_read(),
            ds.data_bits == old(ds).data_bits,
            ds.data == old(ds).data,
            ds.raw == old(ds).raw,
            bits == ds.stream(),
            start <= ds.ptr,
            ds.ptr - start == n - len,
            ret == bits_value(bits, start as int, ds.ptr - start),
        decreases len,
    {
        let b: u8 = ds.data[(ds.ptr / 8) as usize];
        let s: u8 = (7 - ds.ptr % 8) as u8;
        proof {
            lemma_bits_value_bound(bits, start as int, ds.ptr - start);
            vstd::arithmetic::power2::lemma2_to64();
            vstd::arithmetic::power2::lemma_pow2_strictly_increases((ds.ptr - start) as nat, 30);
            assert(bits[ds.ptr as int] == msb_bit(ds.data@, ds.ptr as int));
        }
        ret = ret * 2;
        if (b >> s) & 1u8 == 1u8 {
            ret = ret + 1;
        }
        ds.ptr += 1;
        len -= 1;
    }
    ret
}


/// The right-hand column of the `k`-th pair of columns that the data walk
/// takes, counted from the right edge of the grid. The pairs skip the
/// vertical timing pattern in column 6.
pub open spec fn pair_column(size: int, k: int) -> int {
    let c = size - 1 - 2 * k;
    if c <= 6 {
        c - 1
    } else {
        c
    }
}

/// The `r`-th row that the data walk visits in the `k`-th pair of columns:
/// upwards in the first pair, downwards in the next, and so in turn.
pub open spec fn pair_row(size: int, k: int, r: int) -> int {
    if k % 2 == 0 {
        size - 1 - r
    } else {
        r
    }
}

/// The data bit of the cell in row `y` and column `x`, unmasked, or
/// nothing where the cell is reserved.
#[verifier::opaque]
pub open spec fn cell_bits(code: Code, version: int, mask: int, y: int, x: int) -> Seq<bool> {
    if is_reserved(version, y, x) {
        Seq::empty()
    } else {
        seq![code.dark(x, y) != mask_cond(mask, y, x)]
    }
}

/// The data bits of the first `r` rows that the walk visits in the `k`-th
/// pair of columns, in each row the right-hand cell first.
pub open spec fn column_bits(code: Code, version: int, mask: int, k: int, r: int) -> Seq<bool>
    decreases r,
{
    if r <= 0 {
        Seq::empty()
    } else {
        let y = pair_row(code.size as int, k, r - 1);
        let x = pair_column(code.size as int, k);
        column_bits(code, version, mask, k, r - 1) + cell_bits(code, version, mask, y, x)
            + cell_bits(code, version, mask, y, x - 1)
    }
}

/// The data bits of the first `k` pairs of columns of the walk.
pub open spec fn walk_bits(code: Code, version: int, mask: int, k: int) -> Seq<bool>
    decreases k,
{
    if k <= 0 {
        Seq::empty()
    } else {
        walk_bits(code, version, mask, k - 1) + column_bits(
            code,
            version,
            mask,
            k - 1,
            code.size as int,
        )
    }
}

/// The data bits of a symbol in the order of its codewords: those of all
/// the cells that are not reserved, unmasked, as the walk in pairs of
/// columns from the bottom right corner meets them.
pub open spec fn data_cell_bits(code: Code, version: int, mask: int) -> Seq<bool> {
    walk_bits(code, version, mask, (code.size - 1) / 2)
}

/// `k` times `size`: the number of rows that the walk visits in `k` pairs
/// of columns, or of codewords that `k` blocks have at one place. It is
/// kept opaque, so that the solver meets no product of two unknowns.
#[verifier::opaque]
spec fn repeated(size: int, k: int) -> int {
    k * size
}

/// What `k` times `size` is for the least `k`, for the next `k`, and for
/// the greatest; and that the pairs of columns of a grid of odd size hold
/// all its cells but those of one column.
proof fn lemma_repeated(size: int, k: int, pairs: int)
    requires
        0 <= k <= pairs,
        0 <= size,
    ensures
        repeated(size, 0) == 0,
        repeated(size, k + 1) == repeated(size, k) + size,
        0 <= repeated(size, k) <= repeated(size, pairs),
        2 * pairs == size - 1 ==> 2 * repeated(size, pairs) == size * (size - 1),
{
    reveal(repeated);
    assert((k + 1) * size == k * size + size) by (nonlinear_arith);
    assert(0 <= k * size <= pairs * size) by (nonlinear_arith)
        requires
            0 <= k <= pairs,
            0 <= size,
    ;
    assert(2 * pairs == size - 1 ==> 2 * (pairs * size) == size * (size - 1)) by (nonlinear_arith);
}

/// `k` times the greater size is the greater.
proof fn lemma_repeated_grows(a: int, b: int, k: int)
    requires
        0 <= a <= b,
        0 <= k,
    ensures
        0 <= repeated(a, k) <= repeated(b, k),
{
    reveal(repeated);
    assert(0 <= k * a <= k * b) by (nonlinear_arith)
        requires
            0 <= a <= b,
            0 <= k,
    ;
}

/// Reads the data bits of the two cells that a pair of columns has in
/// row `y`, the one in the right-hand column `x` first.
fn read_row(code: &Code, data: &mut Data, ds: &mut Datastream, y: i32, x: i32)
    requires
        1 <= old(data).version <= 40,
        code.size == old(data).version * 4 + 17,
        0 <= y < code.size,
        1 <= x < code.size,
        old(ds).wf_raw(),
        old(ds).data_bits + 2 <= STREAM_BITS,
    ensures
        *final(data) == *old(data),
        final(ds).wf_raw(),
        final(ds).data_bits <= old(ds).data_bits + 2,
        final(ds).raw_bits() == old(ds).raw_bits() + (cell_bits(
            *code,
            old(data).version as int,
            old(data).mask as int,
            y as int,
            x as int,
        ) + cell_bits(*code, old(data).version as int, old(data).mask as int, y as int, x - 1)),
        final(ds).ptr == old(ds).ptr,
        final(ds).data == old(ds).data,
{
    reveal(cell_bits);
    let version: i32 = data.version as i32;
    let ghost bits0 = ds.raw_bits();
    if reserved_cell(version, y, x) == 0 {
        read_bit(code, data, ds, y, x);
    }
    let ghost bits1 = ds.raw_bits();
    let ghost a = cell_bits(*code, version as int, data.mask as int, y as int, x as int);
    assert(bits1 =~= bits0 + a);
    if reserved_cell(version, y, x - 1) == 0 {
        read_bit(code, data, ds, y, x - 1);
    }
    let ghost b = cell_bits(*code, version as int, data.mask as int, y as int, x - 1);
    assert(ds.raw_bits() =~= bits1 + b);
    assert(bits0 + a + b =~= bits0 + (a + b));
}

/// Reads the data bits of all cells of the grid that are not reserved and
/// appends them to `ds.raw`.
pub fn read_data(code: &Code, data: &mut Data, ds: &mut Datastream)
    requires
        1 <= old(data).version <= 40,
        code.size == old(data).version * 4 + 17,
        old(ds).wf_raw(),
        old(ds).data_bits + code.size * (code.size - 1) <= STREAM_BITS,
    ensures
        *final(data) == *old(data),
        final(ds).wf_raw(),
        final(ds).raw_bits() == old(ds).raw_bits() + data_cell_bits(
            *code,
            old(data).version as int,
            old(data).mask as int,
        ),
        final(ds).ptr == old(ds).ptr,
        final(ds).data == old(ds).data,
{
    let size: i32 = code.size;
    let version: i32 = data.version as i32;
    let ghost mask = data.mask as int;
    let ghost start = ds.raw_bits();
    let ghost start_bits = ds.data_bits as int;
    let ghost pairs = (size - 1) / 2;
    let ghost cap = repeated(size as int, pairs);
    let mut y: i32 = size - 1;
    let mut x: i32 = size - 1;
    let mut dir: i32 = -1;
    let ghost mut k: int = 0;
    let ghost mut r: int = 0;
    proof {
        lemma_repeated(size as int, 0, pairs);
        assert(start + Seq::<bool>::empty() + Seq::<bool>::empty() =~= start);
    }
    while x > 0
        invariant
            1 <= version <= 40,
            version == data.version,
            *data == *old(data),
            mask == data.mask,
            size == code.size,
            size == version * 4 + 17,
            2 * pairs == size - 1,
            cap == repeated(size as int, pairs),
            start_bits + 2 * cap <= STREAM_BITS,
            ds.wf_raw(),
            ds.ptr == old(ds).ptr,
            ds.data == old(ds).data,
            0 <= k <= pairs,
            0 <= r < size,
            k == pairs ==> r == 0,
            x == pair_column(size as int, k) || (x == 6 && r == 0 && size - 1 - 2 * k == 6),
            k < pairs ==> y == pair_row(size as int, k, r),
            dir == if k % 2 == 0 { -1i32 } else { 1i32 },
            ds.data_bits <= start_bits + 2 * (repeated(size as int, k) + r),
            ds.raw_bits() == start + walk_bits(*code, version as int, mask, k) + column_bits(
                *code,
                version as int,
                mask,
                k,
                r,
            ),
        decreases pairs - k, size - r,
    {
        if x == 6 {
            x -= 1;
        }
        assert(k < pairs);
        assert(x == pair_column(size as int, k));
        proof {
            lemma_repeated(size as int, k, pairs);
            lemma_repeated(size as int, k + 1, pairs);
        }
        let ghost bits0 = ds.raw_bits();
        read_row(code, data, ds, y, x);
        proof {
            let a = cell_bits(*code, version as int, mask, y as int, x as int);
            let b = cell_bits(*code, version as int, mask, y as int, x - 1);
            let w = walk_bits(*code, version as int, mask, k);
            let c = column_bits(*code, version as int, mask, k, r);
            assert(column_bits(*code, version as int, mask, k, r + 1) == c + a + b);
            assert(bits0 + (a + b) =~= start + w + (c + a + b));
        }
        y += dir;
        if y < 0 || y >= size {
            dir = -dir;
            x -= 2;
            y += dir;
            proof {
                assert(r + 1 == size);
                let w = walk_bits(*code, version as int, mask, k);
                let c = column_bits(*code, version as int, mask, k, size as int);
                assert(walk_bits(*code, version as int, mask, k + 1) == w + c);
                assert(start + w + c =~= start + (w + c) + Seq::<bool>::empty());
                k = k + 1;
                r = 0;
            }
        } else {
            proof {
                r = r + 1;
            }
        }
    }
    proof {
        assert(k == pairs);
        assert(column_bits(*code, version as int, mask, k, 0) =~= Seq::<bool>::empty());
        assert(ds.raw_bits() =~= start + walk_bits(*code, version as int, mask, pairs));
    }
}


/// The number of data words of the `i`-th block: the long blocks, which
/// come after the short ones, have one more.
pub open spec fn block_dw(version: int, level: int, i: int) -> int {
    let p = rs_params(version, level);
    if i < p.ns {
        p.dw as int
    } else {
        p.dw + 1
    }
}

/// The number of codewords of the `i`-th block.
pub open spec fn block_bs(version: int, level: int, i: int) -> int {
    let p = rs_params(version, level);
    if i < p.ns {
        p.bs as int
    } else {
        p.bs + 1
    }
}

/// The `j`-th codeword of the `i`-th of `bc` blocks, taken out of the
/// interleaved codewords `raw`. The first `ns` blocks are short and have
/// `dw` data words, the others are long and have one more. The data words
/// lie in `raw` column by column: the first word of every block, then the
/// second of every block, and so on; the last column holds the last data
/// words of the long blocks alone. From `parity_at` on the parity words
/// lie in the same way, a word of every block in each column.
pub open spec fn interleaved_word(
    raw: Seq<u8>,
    bc: int,
    ns: int,
    dw: int,
    parity_at: int,
    i: int,
    j: int,
) -> u8 {
    if j < dw {
        raw[j * bc + i]
    } else if j == dw && i >= ns {
        raw[dw * bc + (i - ns)]
    } else if i >= ns {
        raw[parity_at + (j - dw - 1) * bc + i]
    } else {
        raw[parity_at + (j - dw) * bc + i]
    }
}

/// The number of data words of the `i`-th block, where the first `ns`
/// blocks have `dw` and the others one more.
pub open spec fn words_of_block(ns: int, dw: int, i: int) -> int {
    if i < ns {
        dw
    } else {
        dw + 1
    }
}

/// The `i`-th block, with its data words and its `npar` parity words,
/// taken out of the interleaved codewords `raw`.
pub open spec fn gathered(
    raw: Seq<u8>,
    bc: int,
    ns: int,
    dw: int,
    npar: int,
    parity_at: int,
    i: int,
) -> Seq<u8> {
    Seq::new(
        (words_of_block(ns, dw, i) + npar) as nat,
        |j: int| interleaved_word(raw, bc, ns, dw, parity_at, i, j),
    )
}

/// The `i`-th block of a symbol, taken out of its interleaved codewords
/// `raw`.
pub open spec fn raw_block(raw: Seq<u8>, version: int, level: int, i: int) -> Seq<u8> {
    gathered(
        raw,
        block_count(version, level),
        rs_params(version, level).ns as int,
        rs_params(version, level).dw as int,
        rs_params(version, level).parity(),
        data_words(version, level),
        i,
    )
}

/// The data words of the first `n` blocks of `raw`, each block corrected,
/// or `None` where one of them cannot be corrected.
pub open spec fn spec_codestream(raw: Seq<u8>, version: int, level: int, n: int) -> Option<
    Seq<u8>,
>
    decreases n,
{
    if n <= 0 {
        Some(Seq::empty())
    } else {
        match spec_codestream(raw, version, level, n - 1) {
            None => None,
            Some(words) => {
                let dw = block_dw(version, level, n - 1);
                let fixed = spec_correct_block(
                    raw_block(raw, version, level, n - 1),
                    block_bs(version, level, n - 1),
                    dw,
                );
                if fixed.1 {
                    Some(words + fixed.0.take(dw))
                } else {
                    None
                }
            },
        }
    }
}

/// The data words of a symbol, corrected: those of all its blocks, one
/// block after another.
pub open spec fn corrected_words(raw: Seq<u8>, version: int, level: int) -> Option<Seq<u8>> {
    spec_codestream(raw, version, level, block_count(version, level))
}

/// The number of blocks, among the first `n`, that are corrected before
/// one cannot be: `n` where all can.
pub open spec fn blocks_done(raw: Seq<u8>, version: int, level: int, n: int) -> int
    decreases n,
{
    if n <= 0 {
        0
    } else if spec_codestream(raw, version, level, n) is Some {
        n
    } else {
        blocks_done(raw, version, level, n - 1)
    }
}

/// The data words that are laid down: those of the blocks that are
/// corrected before one cannot be.
pub open spec fn words_done(raw: Seq<u8>, version: int, level: int) -> Seq<u8> {
    let n = block_count(version, level);
    match spec_codestream(raw, version, level, blocks_done(raw, version, level, n)) {
        Some(words) => words,
        None => Seq::empty(),
    }
}

/// Where the block `i` is the first that cannot be corrected, `i` blocks
/// are done.
proof fn lemma_blocks_done(raw: Seq<u8>, version: int, level: int, i: int, n: int)
    requires
        0 <= i,
        i < n,
        spec_codestream(raw, version, level, i) is Some,
        spec_codestream(raw, version, level, i + 1) is None,
    ensures
        blocks_done(raw, version, level, n) == i,
    decreases n,
{
    lemma_codestream_fails(raw, version, level, i + 1, n);
    if n > i + 1 {
        lemma_blocks_done(raw, version, level, i, n - 1);
    } else {
        assert(blocks_done(raw, version, level, i) == i);
    }
}

/// The data words of one more block.
proof fn lemma_codestream_step(raw: Seq<u8>, version: int, level: int, i: int)
    requires
        0 <= i,
    ensures
        spec_codestream(raw, version, level, i + 1) == match spec_codestream(
            raw,
            version,
            level,
            i,
        ) {
            None => None,
            Some(words) => {
                let dw = block_dw(version, level, i);
                let fixed = spec_correct_block(
                    raw_block(raw, version, level, i),
                    block_bs(version, level, i),
                    dw,
                );
                if fixed.1 {
                    Some(words + fixed.0.take(dw))
                } else {
                    None::<Seq<u8>>
                }
            },
        },
{
}

/// Once a block cannot be corrected, no later block mends that.
proof fn lemma_codestream_fails(raw: Seq<u8>, version: int, level: int, i: int, n: int)
    requires
        0 <= i <= n,
        spec_codestream(raw, version, level, i) is None,
    ensures
        spec_codestream(raw, version, level, n) is None,
    decreases n,
{
    if n > i {
        lemma_codestream_fails(raw, version, level, i, n - 1);
    }
}

/// How the blocks of a version at a level lie in its codewords.
struct Interleaving {
    /// The parameters of the short blocks.
    sb: RsParams,
    /// The number of long blocks.
    lb_count: i32,
    /// The number of blocks.
    bc: i32,
    /// The place of the first parity word.
    ecc_offset: i32,
}

/// Looks up how the blocks of a version at a level lie in its codewords.
fn interleaving(version: usize, level: usize) -> (lay: Interleaving)
    requires
        1 <= version <= 40,
        level < 4,
    ensures
        lay.sb == rs_params(version as int, level as int),
        lay.lb_count == long_blocks(version as int, level as int),
        lay.bc == block_count(version as int, level as int),
        lay.ecc_offset == data_words(version as int, level as int),
        1 <= lay.sb.dw < lay.sb.bs <= 152,
        lay.sb.bs - lay.sb.dw <= 30,
        1 <= lay.sb.ns <= lay.bc,
        lay.bc == lay.sb.ns + lay.lb_count,
        0 <= lay.ecc_offset,
        repeated(lay.sb.dw + 1, lay.bc as int) <= 3706,
        lay.ecc_offset + repeated(lay.sb.bs - lay.sb.dw, lay.bc as int) <= 3706,
{
    let total: i32 = total_codewords(version);
    let sb: RsParams = block_params(version, level);
    let ghost lb = long_blocks(version as int, level as int);
    proof {
        lemma_block_layout(version as int, level as int);
        reveal(repeated);
        let bs = sb.bs as int;
        let dw = sb.dw as int;
        let ns = sb.ns as int;
        let bc = ns + lb;
        assert(bs * bc + lb == total) by (nonlinear_arith)
            requires
                bs * ns + lb * (bs + 1) == total,
                bc == ns + lb,
        ;
        assert(0 <= bs * ns <= total) by (nonlinear_arith)
            requires
                bs * ns + lb * (bs + 1) == total,
                0 <= bs,
                0 <= ns,
                0 <= lb,
        ;
        assert(0 <= dw * bc && (dw + 1) * bc <= bs * bc) by (nonlinear_arith)
            requires
                0 <= dw,
                dw + 1 <= bs,
                0 <= bc,
        ;
        assert(dw * bc + (bs - dw) * bc == bs * bc) by (nonlinear_arith);
        assert(bc * (dw + 1) == (dw + 1) * bc && bc * (bs - dw) == (bs - dw) * bc)
            by (nonlinear_arith);
    }
    let lb_count: i32 = (total - sb.bs * sb.ns) / (sb.bs + 1);
    let bc: i32 = lb_count + sb.ns;
    let ecc_offset: i32 = sb.dw * bc + lb_count;
    Interleaving { sb, lb_count, bc, ecc_offset }
}

/// Takes the `i`-th block out of the interleaved codewords `raw`: its data
/// words, of which a short block has `dw` and a long one `dw + 1`, and its
/// `npar` parity words.
fn gather_block(raw: &[u8; 8896], bc: i32, ns: i32, dw: i32, npar: i32, parity_at: i32, i: i32) -> (block:
    Vec<u8>)
    requires
        0 <= i < bc,
        0 <= ns <= bc,
        0 <= dw,
        0 <= npar,
        0 <= parity_at,
        repeated(dw + 1, bc as int) <= 8896,
        parity_at + repeated(npar as int, bc as int) <= 8896,
    ensures
        block@ == gathered(
            raw@,
            bc as int,
            ns as int,
            dw as int,
            npar as int,
            parity_at as int,
            i as int,
        ),
{
    let ghost own = words_of_block(ns as int, dw as int, i as int);
    proof {
        reveal(repeated);
        assert(bc * (dw + 1) == dw * bc + bc) by (nonlinear_arith);
        assert(0 <= dw * bc) by (nonlinear_arith)
            requires
                0 <= dw,
                0 <= bc,
        ;
    }
    let mut block: Vec<u8> = Vec::new();
    let mut j: i32 = 0;
    while j < dw
        invariant
            0 <= j <= dw,
            0 <= i < bc,
            dw * bc + bc <= 8896,
            block@.len() == j,
            forall|q: int|
                0 <= q < j ==> block@[q] == interleaved_word(
                    raw@,
                    bc as int,
                    ns as int,
                    dw as int,
                    parity_at as int,
                    i as int,
                    q,
                ),
        decreases dw - j,
    {
        proof {
            assert(0 <= j * bc && j * bc + bc <= dw * bc) by (nonlinear_arith)
                requires
                    0 <= j,
                    j + 1 <= dw,
                    0 <= bc,
            ;
        }
        block.push(raw[(j * bc + i) as usize]);
        j += 1;
    }
    if i >= ns {
        block.push(raw[(dw * bc + (i - ns)) as usize]);
    }
    let mut j: i32 = 0;
    while j < npar
        invariant
            0 <= j <= npar,
            0 <= i < bc,
            0 <= dw,
            0 <= parity_at,
            own == words_of_block(ns as int, dw as int, i as int),
            parity_at + repeated(npar as int, bc as int) <= 8896,
            block@.len() == own + j,
            forall|q: int|
                0 <= q < own + j ==> block@[q] == interleaved_word(
                    raw@,
                    bc as int,
                    ns as int,
                    dw as int,
                    parity_at as int,
                    i as int,
                    q,
                ),
        decreases npar - j,
    {
        proof {
            reveal(repeated);
            assert(0 <= j * bc && j * bc + bc <= bc * npar) by (nonlinear_arith)
                requires
                    0 <= j,
                    j + 1 <= npar,
                    0 <= bc,
            ;
        }
        block.push(raw[(parity_at + j * bc + i) as usize]);
        j += 1;
    }
    assert(block@ =~= gathered(
        raw@,
        bc as int,
        ns as int,
        dw as int,
        npar as int,
        parity_at as int,
        i as int,
    ));
    block
}

/// Lays the first `dw` words of `block` into `ds.data` from `at` on.
fn store_words(ds: &mut Datastream, at: i32, block: &Vec<u8>, dw: i32)
    requires
        0 <= at,
        0 <= dw <= block@.len(),
        at + dw <= 8896,
    ensures
        final(ds).raw == old(ds).raw,
        final(ds).ptr == old(ds).ptr,
        final(ds).data_bits == old(ds).data_bits,
        final(ds).data@.take(at + dw) == old(ds).data@.take(at as int) + block@.take(dw as int),
        final(ds).data@.skip(at + dw) == old(ds).data@.skip(at + dw),
{
    let mut j: i32 = 0;
    while j < dw
        invariant
            0 <= j <= dw <= block@.len(),
            0 <= at,
            at + dw <= 8896,
            ds.raw == old(ds).raw,
            ds.ptr == old(ds).ptr,
            ds.data_bits == old(ds).data_bits,
            ds.data@.take(at as int) == old(ds).data@.take(at as int),
            ds.data@.skip(at + dw) == old(ds).data@.skip(at + dw),
            forall|q: int| 0 <= q < j ==> ds.data@[at + q] == block@[q],
        decreases dw - j,
    {
        let ghost before = ds.data@;
        ds.data[(at + j) as usize] = block[j as usize];
        assert(ds.data@.take(at as int) =~= before.take(at as int));
        assert(ds.data@.skip(at + dw) =~= before.skip(at + dw));
        j += 1;
    }
    assert(ds.data@.take(at + dw) =~= old(ds).data@.take(at as int) + block@.take(dw as int));
}

/// Takes the blocks out of the interleaved codewords in `ds.raw`, where
/// they lie column by column, the short blocks first, corrects each, and
/// lays their data words one block after another into `ds.data`, which
/// then holds them from bit 0 to bit `ds.data_bits`. It
/// stops at the first block that cannot be corrected; the data words of
/// the blocks before it are laid down by then.
pub fn codestream_ecc(data: &mut Data, ds: &mut Datastream) -> (r: Result<(), DecodeError>)
    requires
        1 <= old(data).version <= 40,
    ensures
        *final(data) == *old(data),
        final(ds).raw == old(ds).raw,
        final(ds).ptr == old(ds).ptr,
        match corrected_words(
            old(ds).raw@,
            old(data).version as int,
            old(data).ecc_level.index(),
        ) {
            Some(words) => {
                &&& r is Ok
                &&& words.len() <= 3706
                &&& final(ds).data_bits == 8 * words.len()
                &&& final(ds).data@.take(words.len() as int) == words
            },
            None => {
                &&& r == Err::<(), DecodeError>(DecodeError::DataEcc)
                &&& final(ds).data_bits == old(ds).data_bits
            },
        },
        ({
            let done = words_done(
                old(ds).raw@,
                old(data).version as int,
                old(data).ecc_level.index(),
            );
            &&& done.len() <= 3706
            &&& final(ds).data@ == done + old(ds).data@.skip(done.len() as int)
        }),
{
    let version: usize = data.version;
    let level: usize = data.ecc_level.to_i32() as usize;
    let ghost v = version as int;
    let ghost l = level as int;
    let ghost raw = ds.raw@;
    let lay = interleaving(version, level);
    let sb_ecc: RsParams = lay.sb;
    let bc: i32 = lay.bc;
    let lb_ecc = RsParams { bs: sb_ecc.bs + 1, dw: sb_ecc.dw + 1, ns: sb_ecc.ns };
    let mut dst_offset: i32 = 0;
    let mut i: i32 = 0;
    proof {
        lemma_repeated(sb_ecc.dw + 1, 0, bc as int);
    }
    while i < bc
        invariant
            *data == *old(data),
            v == data.version,
            l == data.ecc_level.index(),
            raw == ds.raw@,
            ds.raw == old(ds).raw,
            ds.ptr == old(ds).ptr,
            ds.data_bits == old(ds).data_bits,
            sb_ecc == rs_params(v, l),
            bc == block_count(v, l),
            lay.ecc_offset == data_words(v, l),
            lay.bc == bc,
            lay.sb == sb_ecc,
            lb_ecc == sb_ecc.long(),
            1 <= sb_ecc.dw < sb_ecc.bs <= 152,
            sb_ecc.bs - sb_ecc.dw <= 30,
            0 <= lay.ecc_offset,
            repeated(sb_ecc.dw + 1, bc as int) <= 3706,
            lay.ecc_offset + repeated(sb_ecc.bs - sb_ecc.dw, bc as int) <= 3706,
            0 <= i <= bc,
            1 <= sb_ecc.ns <= bc,
            0 <= dst_offset <= repeated(sb_ecc.dw + 1, i as int),
            spec_codestream(raw, v, l, i as int) is Some,
            spec_codestream(raw, v, l, i as int).unwrap().len() == dst_offset,
            ds.data@.take(dst_offset as int) == spec_codestream(raw, v, l, i as int).unwrap(),
            ds.data@.skip(dst_offset as int) == old(ds).data@.skip(dst_offset as int),
        decreases bc - i,
    {
        let ecc: RsParams = if i < sb_ecc.ns {
            sb_ecc
        } else {
            lb_ecc
        };
        let num_ec: i32 = ecc.bs - ecc.dw;
        let ghost words = spec_codestream(raw, v, l, i as int).unwrap();
        proof {
            lemma_repeated(sb_ecc.dw + 1, i as int, bc as int);
            lemma_repeated(sb_ecc.dw + 1, i + 1, bc as int);
            lemma_repeated_grows(sb_ecc.dw as int, sb_ecc.dw + 1, bc as int);
        }
        let mut block = gather_block(
            &ds.raw,
            bc,
            sb_ecc.ns,
            sb_ecc.dw,
            num_ec,
            lay.ecc_offset,
            i,
        );
        let ghost want = raw_block(raw, v, l, i as int);
        let ghost fixed = spec_correct_block(want, ecc.bs as int, ecc.dw as int);
        proof {
            assert(ecc.bs == block_bs(v, l, i as int));
            assert(ecc.dw == block_dw(v, l, i as int));
            assert(num_ec == rs_params(v, l).parity());
            assert(block@ == want);
            lemma_codestream_step(raw, v, l, i as int);
        }
        match correct_block(block.as_mut_slice(), &ecc) {
            Ok(()) => {},
            Err(e) => {
                proof {
                    assert(!fixed.1);
                    assert(spec_codestream(raw, v, l, i + 1) is None);
                    lemma_codestream_fails(raw, v, l, i + 1, bc as int);
                    lemma_blocks_done(raw, v, l, i as int, bc as int);
                    assert(ds.data@ =~= ds.data@.take(dst_offset as int) + ds.data@.skip(
                        dst_offset as int,
                    ));
                }
                return Err(e);
            },
        }
        assert(fixed.1);
        assert(block@ == fixed.0);
        assert(spec_codestream(raw, v, l, i + 1) == Some(words + fixed.0.take(ecc.dw as int)));
        let ghost before = ds.data@;
        store_words(ds, dst_offset, &block, ecc.dw);
        proof {
            assert(before.skip(dst_offset + ecc.dw) =~= before.skip(dst_offset as int).skip(
                ecc.dw as int,
            ));
            assert(old(ds).data@.skip(dst_offset + ecc.dw) =~= old(ds).data@.skip(
                dst_offset as int,
            ).skip(ecc.dw as int));
        }
        dst_offset += ecc.dw;
        i += 1;
    }
    proof {
        lemma_repeated(sb_ecc.dw + 1, i as int, bc as int);
        assert(corrected_words(raw, v, l) == spec_codestream(raw, v, l, bc as int));
        assert(ds.data@ =~= ds.data@.take(dst_offset as int) + ds.data@.skip(dst_offset as int));
    }
    ds.data_bits = dst_offset * 8;
    Ok(())
}

} // verus!
