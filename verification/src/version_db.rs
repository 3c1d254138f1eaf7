use vstd::prelude::*;

verus! {

/// The smallest version of a symbol.
pub const VERSION_MIN: usize = 1;

/// The largest version of a symbol.
pub const VERSION_MAX: usize = 40;

/// The most alignment-pattern centres that a version lists.
pub const MAX_ALIGNMENT: usize = 7;

/// The Reed-Solomon parameters of the blocks of one version and level.
#[derive(Debug, Copy, Clone, PartialEq, Eq, Structural)]
pub struct RsParams {
    /// The number of codewords of a short block.
    pub bs: i32,
    /// The number of data words of a short block.
    pub dw: i32,
    /// The number of short blocks.
    pub ns: i32,
}

impl RsParams {
    /// The parameters of blocks of `bs` codewords, `dw` of them data words,
    /// of which there are `ns` short ones.
    pub fn new(bs: i32, dw: i32, ns: i32) -> (r: RsParams)
        ensures
            r == (RsParams { bs, dw, ns }),
    {
        RsParams { bs, dw, ns }
    }

    /// The number of parity words of a block.
    pub open spec fn parity(self) -> int {
        self.bs - self.dw
    }

    /// The parameters of a long block: one data word more.
    pub open spec fn long(self) -> RsParams {
        RsParams { bs: (self.bs + 1) as i32, dw: (self.dw + 1) as i32, ns: self.ns }
    }

    /// What holds of the parameters of every block of a symbol, short or
    /// long: at least one data word, and from 1 to 64 parity words in a
    /// block of at most 255 codewords.
    pub open spec fn wf(self) -> bool {
        &&& 1 <= self.dw < self.bs <= 255
        &&& self.bs - self.dw <= 64
    }
}

impl Default for RsParams {
    fn default() -> (r: RsParams)
        ensures
            r == (RsParams { bs: 0, dw: 0, ns: 0 }),
    {
        RsParams { bs: 0, dw: 0, ns: 0 }
    }
}

/// What the tables hold of one version.
#[derive(Debug, Copy, Clone)]
pub struct VersionInfo {
    /// The number of codewords, data and parity together.
    pub data_bytes: i32,
    /// The centres of the alignment patterns, in rising order and filled
    /// up with zeros.
    pub apat: [i32; 7],
    /// The block parameters of the levels M, L, H and Q in turn.
    pub ecc: [RsParams; 4],
}

/// The number of codewords of each version, data and parity together.
pub const DATA_BYTES: [i32; 41] = [
    0, 26, 44, 70, 100, 134, 172, 196, 242, 292,
    346, 404, 466, 532, 581, 655, 733, 815, 901, 991,
    1085, 1156, 1258, 1364, 1474, 1588, 1706, 1828, 1921, 2051,
    2185, 2323, 2465, 2611, 2761, 2876, 3034, 3196, 3362, 3532,
    3706,
];

/// The centres of the alignment patterns of each version: seven entries
/// a version, in rising order and filled up with zeros.
pub const ALIGNMENT: [i32; 287] = [
    0, 0, 0, 0, 0, 0, 0,
    0, 0, 0, 0, 0, 0, 0,
    6, 18, 0, 0, 0, 0, 0,
    6, 22, 0, 0, 0, 0, 0,
    6, 26, 0, 0, 0, 0, 0,
    6, 30, 0, 0, 0, 0, 0,
    6, 34, 0, 0, 0, 0, 0,
    6, 22, 38, 0, 0, 0, 0,
    6, 24, 42, 0, 0, 0, 0,
    6, 26, 46, 0, 0, 0, 0,
    6, 28, 50, 0, 0, 0, 0,
    6, 30, 54, 0, 0, 0, 0,
    6, 32, 58, 0, 0, 0, 0,
    6, 34, 62, 0, 0, 0, 0,
    6, 26, 46, 66, 0, 0, 0,
    6, 26, 48, 70, 0, 0, 0,
    6, 26, 50, 74, 0, 0, 0,
    6, 30, 54, 78, 0, 0, 0,
    6, 30, 56, 82, 0, 0, 0,
    6, 30, 58, 86, 0, 0, 0,
    6, 34, 62, 90, 0, 0, 0,
    6, 28, 50, 72, 94, 0, 0,
    6, 26, 50, 74, 98, 0, 0,
    6, 30, 54, 78, 102, 0, 0,
    6, 28, 54, 80, 106, 0, 0,
    6, 32, 58, 84, 110, 0, 0,
    6, 30, 58, 86, 114, 0, 0,
    6, 34, 62, 90, 118, 0, 0,
    6, 26, 50, 74, 98, 122, 0,
    6, 30, 54, 78, 102, 126, 0,
    6, 26, 52, 78, 104, 130, 0,
    6, 30, 56, 82, 108, 134, 0,
    6, 34, 60, 86, 112, 138, 0,
    6, 30, 58, 86, 114, 142, 0,
    6, 34, 62, 90, 118, 146, 0,
    6, 30, 54, 78, 102, 126, 150,
    6, 24, 50, 76, 102, 128, 154,
    6, 28, 54, 80, 106, 132, 158,
    6, 32, 58, 84, 110, 136, 162,
    6, 26, 54, 82, 110, 138, 166,
    6, 30, 58, 86, 114, 142, 170,
];

/// The block parameters of each version and level: twelve entries a
/// version, which are the short block's size, its number of data words and
/// the number of short blocks, for the levels M, L, H and Q in turn.
pub const RS_BLOCKS: [i32; 492] = [
    0, 0, 0, 0, 0, 0, 0, 0, 0, 0, 0, 0,
    26, 16, 1, 26, 19, 1, 26, 9, 1, 26, 13, 1,
    44, 28, 1, 44, 34, 1, 44, 16, 1, 44, 22, 1,
    70, 44, 1, 70, 55, 1, 35, 13, 2, 35, 17, 2,
    50, 32, 2, 100, 80, 1, 25, 9, 4, 50, 24, 2,
    67, 43, 2, 134, 108, 1, 33, 11, 2, 33, 15, 2,
    43, 27, 4, 86, 68, 2, 43, 15, 4, 43, 19, 4,
    49, 31, 4, 98, 78, 2, 39, 13, 4, 32, 14, 2,
    60, 38, 2, 121, 97, 2, 40, 14, 4, 40, 18, 4,
    58, 36, 3, 146, 116, 2, 36, 12, 4, 36, 16, 4,
    69, 43, 4, 86, 68, 2, 43, 15, 6, 43, 19, 6,
    80, 50, 1, 101, 81, 4, 36, 12, 3, 50, 22, 4,
    58, 36, 6, 116, 92, 2, 42, 14, 7, 46, 20, 4,
    59, 37, 8, 133, 107, 4, 33, 11, 12, 44, 20, 8,
    64, 40, 4, 145, 115, 3, 36, 12, 11, 36, 16, 11,
    65, 41, 5, 109, 87, 5, 36, 12, 11, 54, 24, 5,
    73, 45, 7, 122, 98, 5, 45, 15, 3, 43, 19, 15,
    74, 46, 10, 135, 107, 1, 42, 14, 2, 50, 22, 1,
    69, 43, 9, 150, 120, 5, 42, 14, 2, 50, 22, 17,
    70, 44, 3, 141, 113, 3, 39, 13, 9, 47, 21, 17,
    67, 41, 3, 135, 107, 3, 43, 15, 15, 54, 24, 15,
    68, 42, 17, 144, 116, 4, 46, 16, 19, 50, 22, 17,
    74, 46, 17, 139, 111, 2, 37, 13, 34, 54, 24, 7,
    75, 47, 4, 151, 121, 4, 45, 15, 16, 54, 24, 11,
    73, 45, 6, 147, 117, 6, 46, 16, 30, 54, 24, 11,
    75, 47, 8, 132, 106, 8, 45, 15, 22, 54, 24, 7,
    74, 46, 19, 142, 114, 10, 46, 16, 33, 50, 22, 28,
    73, 45, 22, 152, 122, 8, 45, 15, 12, 53, 23, 8,
    73, 45, 3, 147, 117, 3, 45, 15, 11, 54, 24, 4,
    73, 45, 21, 146, 116, 7, 45, 15, 19, 53, 23, 1,
    75, 47, 19, 145, 115, 5, 45, 15, 23, 54, 24, 15,
    74, 46, 2, 145, 115, 13, 45, 15, 23, 54, 24, 42,
    74, 46, 10, 145, 115, 17, 45, 15, 19, 54, 24, 10,
    74, 46, 14, 145, 115, 17, 45, 15, 11, 54, 24, 29,
    74, 46, 14, 145, 115, 13, 46, 16, 59, 54, 24, 44,
    75, 47, 12, 151, 121, 12, 45, 15, 22, 54, 24, 39,
    75, 47, 6, 151, 121, 6, 45, 15, 2, 54, 24, 46,
    74, 46, 29, 152, 122, 17, 45, 15, 24, 54, 24, 49,
    74, 46, 13, 152, 122, 4, 45, 15, 42, 54, 24, 48,
    75, 47, 40, 147, 117, 20, 45, 15, 10, 54, 24, 43,
    75, 47, 18, 148, 118, 19, 45, 15, 20, 54, 24, 34,
];

/// The number of codewords of a version.
pub open spec fn data_bytes(version: int) -> int {
    DATA_BYTES@[version] as int
}

/// The `k`-th alignment-pattern centre of a version, or 0 past the last.
pub open spec fn alignment(version: int, k: int) -> int {
    ALIGNMENT@[version * 7 + k] as int
}

/// The number of alignment-pattern centres of a version: the entries
/// before the first zero among the first `limit`.
pub open spec fn alignment_count(version: int, limit: int) -> int
    decreases limit,
{
    if limit <= 0 {
        0
    } else {
        let n = alignment_count(version, limit - 1);
        if n == limit - 1 && alignment(version, limit - 1) != 0 {
            limit
        } else {
            n
        }
    }
}

/// The block parameters of a version at the level with index `level`.
pub open spec fn rs_params(version: int, level: int) -> RsParams {
    let at = (version * 4 + level) * 3;
    RsParams { bs: RS_BLOCKS@[at], dw: RS_BLOCKS@[at + 1], ns: RS_BLOCKS@[at + 2] }
}

/// The number of long blocks of a version at a level.
pub open spec fn long_blocks(version: int, level: int) -> int {
    let p = rs_params(version, level);
    (data_bytes(version) - p.bs * p.ns) / (p.bs + 1)
}

/// The number of blocks of a version at a level, short and long.
pub open spec fn block_count(version: int, level: int) -> int {
    rs_params(version, level).ns + long_blocks(version, level)
}

/// The number of data words of a version at a level, over all blocks.
pub open spec fn data_words(version: int, level: int) -> int {
    rs_params(version, level).dw * block_count(version, level) + long_blocks(version, level)
}

impl VersionInfo {
    /// Does `self` hold what the tables say of `version`?
    pub open spec fn describes(self, version: int) -> bool {
        &&& self.data_bytes == data_bytes(version)
        &&& forall|k: int| 0 <= k < 7 ==> self.apat@[k] == alignment(version, k)
        &&& forall|l: int| 0 <= l < 4 ==> self.ecc@[l] == rs_params(version, l)
    }
}

/// The number of codewords of `version`.
pub fn total_codewords(version: usize) -> (n: i32)
    requires
        version <= 40,
    ensures
        n == data_bytes(version as int),
{
    DATA_BYTES[version]
}

/// The `k`-th alignment-pattern centre of `version`, or 0 past the last.
pub fn alignment_center(version: usize, k: usize) -> (c: i32)
    requires
        version <= 40,
        k < 7,
    ensures
        c == alignment(version as int, k as int),
{
    ALIGNMENT[version * 7 + k]
}

/// The block parameters of `version` at the level with index `level`.
pub fn block_params(version: usize, level: usize) -> (p: RsParams)
    requires
        version <= 40,
        level < 4,
    ensures
        p == rs_params(version as int, level as int),
{
    let at: usize = (version * 4 + level) * 3;
    RsParams { bs: RS_BLOCKS[at], dw: RS_BLOCKS[at + 1], ns: RS_BLOCKS[at + 2] }
}

/// Everything the tables hold of `version`. Version 0 does not exist and
/// has an entry of zeros.
pub fn version_info(version: usize) -> (info: VersionInfo)
    requires
        version <= 40,
    ensures
        info.describes(version as int),
{
    let mut apat = [0i32; 7];
    let mut k: usize = 0;
    while k < 7
        invariant
            version <= 40,
            k <= 7,
            forall|j: int| 0 <= j < k ==> apat@[j] == alignment(version as int, j),
        decreases 7 - k,
    {
        apat[k] = alignment_center(version, k);
        k += 1;
    }
    let ecc = [
        block_params(version, 0),
        block_params(version, 1),
        block_params(version, 2),
        block_params(version, 3),
    ];
    VersionInfo { data_bytes: total_codewords(version), apat, ecc }
}

/// What [`lemma_block_layout`] states.
pub open spec fn block_layout_holds(version: int, level: int) -> bool {
    let p = rs_params(version, level);
    let lb = long_blocks(version, level);
    &&& 1 <= p.dw < p.bs <= 152
    &&& p.bs - p.dw <= 30
    &&& 1 <= p.ns
    &&& 0 <= lb
    &&& p.bs * p.ns + lb * (p.bs + 1) == data_bytes(version)
    &&& 26 <= data_bytes(version) <= 3706
}

/// One row of the tables: where the entries are as given and the blocks
/// make up the codewords, the layout holds.
proof fn lemma_layout_row(version: int, level: int, d: int, bs: int, dw: int, ns: int, lb: int)
    requires
        0 <= version <= 40,
        0 <= level < 4,
        DATA_BYTES@[version] == d,
        RS_BLOCKS@[(version * 4 + level) * 3] == bs,
        RS_BLOCKS@[(version * 4 + level) * 3 + 1] == dw,
        RS_BLOCKS@[(version * 4 + level) * 3 + 2] == ns,
        1 <= dw < bs <= 152,
        bs - dw <= 30,
        1 <= ns,
        0 <= lb,
        bs * ns + lb * (bs + 1) == d,
        26 <= d <= 3706,
    ensures
        block_layout_holds(version, level),
{
    assert((d - bs * ns) / (bs + 1) == lb) by (nonlinear_arith)
        requires
            bs * ns + lb * (bs + 1) == d,
            bs + 1 > 0,
    ;
}


/// The rows of the versions from 1 to 5.
proof fn lemma_layout_1_5(version: int, level: int)
    requires
        1 <= version <= 5,
        0 <= level < 4,
    ensures
        block_layout_holds(version, level),
{
    if version == 1 {
        if level == 0 {
            lemma_layout_row(1, 0, 26, 26, 16, 1, 0);
        }
        if level == 1 {
            lemma_layout_row(1, 1, 26, 26, 19, 1, 0);
        }
        if level == 2 {
            lemma_layout_row(1, 2, 26, 26, 9, 1, 0);
        }
        if level == 3 {
            lemma_layout_row(1, 3, 26, 26, 13, 1, 0);
        }
    }
    if version == 2 {
        if level == 0 {
            lemma_layout_row(2, 0, 44, 44, 28, 1, 0);
        }
        if level == 1 {
            lemma_layout_row(2, 1, 44, 44, 34, 1, 0);
        }
        if level == 2 {
            lemma_layout_row(2, 2, 44, 44, 16, 1, 0);
        }
        if level == 3 {
            lemma_layout_row(2, 3, 44, 44, 22, 1, 0);
        }
    }
    if version == 3 {
        if level == 0 {
            lemma_layout_row(3, 0, 70, 70, 44, 1, 0);
        }
        if level == 1 {
            lemma_layout_row(3, 1, 70, 70, 55, 1, 0);
        }
        if level == 2 {
            lemma_layout_row(3, 2, 70, 35, 13, 2, 0);
        }
        if level == 3 {
            lemma_layout_row(3, 3, 70, 35, 17, 2, 0);
        }
    }
    if version == 4 {
        if level == 0 {
            lemma_layout_row(4, 0, 100, 50, 32, 2, 0);
        }
        if level == 1 {
            lemma_layout_row(4, 1, 100, 100, 80, 1, 0);
        }
        if level == 2 {
            lemma_layout_row(4, 2, 100, 25, 9, 4, 0);
        }
        if level == 3 {
            lemma_layout_row(4, 3, 100, 50, 24, 2, 0);
        }
    }
    if version == 5 {
        if level == 0 {
            lemma_layout_row(5, 0, 134, 67, 43, 2, 0);
        }
        if level == 1 {
            lemma_layout_row(5, 1, 134, 134, 108, 1, 0);
        }
        if level == 2 {
            lemma_layout_row(5, 2, 134, 33, 11, 2, 2);
        }
        if level == 3 {
            lemma_layout_row(5, 3, 134, 33, 15, 2, 2);
        }
    }
}

/// The rows of the versions from 6 to 10.
proof fn lemma_layout_6_10(version: int, level: int)
    requires
        6 <= version <= 10,
        0 <= level < 4,
    ensures
        block_layout_holds(version, level),
{
    if version == 6 {
        if level == 0 {
            lemma_layout_row(6, 0, 172, 43, 27, 4, 0);
        }
        if level == 1 {
            lemma_layout_row(6, 1, 172, 86, 68, 2, 0);
        }
        if level == 2 {
            lemma_layout_row(6, 2, 172, 43, 15, 4, 0);
        }
        if level == 3 {
            lemma_layout_row(6, 3, 172, 43, 19, 4, 0);
        }
    }
    if version == 7 {
        if level == 0 {
            lemma_layout_row(7, 0, 196, 49, 31, 4, 0);
        }
        if level == 1 {
            lemma_layout_row(7, 1, 196, 98, 78, 2, 0);
        }
        if level == 2 {
            lemma_layout_row(7, 2, 196, 39, 13, 4, 1);
        }
        if level == 3 {
            lemma_layout_row(7, 3, 196, 32, 14, 2, 4);
        }
    }
    if version == 8 {
        if level == 0 {
            lemma_layout_row(8, 0, 242, 60, 38, 2, 2);
        }
        if level == 1 {
            lemma_layout_row(8, 1, 242, 121, 97, 2, 0);
        }
        if level == 2 {
            lemma_layout_row(8, 2, 242, 40, 14, 4, 2);
        }
        if level == 3 {
            lemma_layout_row(8, 3, 242, 40, 18, 4, 2);
        }
    }
    if version == 9 {
        if level == 0 {
            lemma_layout_row(9, 0, 292, 58, 36, 3, 2);
        }
        if level == 1 {
            lemma_layout_row(9, 1, 292, 146, 116, 2, 0);
        }
        if level == 2 {
            lemma_layout_row(9, 2, 292, 36, 12, 4, 4);
        }
        if level == 3 {
            lemma_layout_row(9, 3, 292, 36, 16, 4, 4);
        }
    }
    if version == 10 {
        if level == 0 {
            lemma_layout_row(10, 0, 346, 69, 43, 4, 1);
        }
        if level == 1 {
            lemma_layout_row(10, 1, 346, 86, 68, 2, 2);
        }
        if level == 2 {
            lemma_layout_row(10, 2, 346, 43, 15, 6, 2);
        }
        if level == 3 {
            lemma_layout_row(10, 3, 346, 43, 19, 6, 2);
        }
    }
}

/// The rows of the versions from 11 to 15.
proof fn lemma_layout_11_15(version: int, level: int)
    requires
        11 <= version <= 15,
        0 <= level < 4,
    ensures
        block_layout_holds(version, level),
{
    if version == 11 {
        if level == 0 {
            lemma_layout_row(11, 0, 404, 80, 50, 1, 4);
        }
        if level == 1 {
            lemma_layout_row(11, 1, 404, 101, 81, 4, 0);
        }
        if level == 2 {
            lemma_layout_row(11, 2, 404, 36, 12, 3, 8);
        }
        if level == 3 {
            lemma_layout_row(11, 3, 404, 50, 22, 4, 4);
        }
    }
    if version == 12 {
        if level == 0 {
            lemma_layout_row(12, 0, 466, 58, 36, 6, 2);
        }
        if level == 1 {
            lemma_layout_row(12, 1, 466, 116, 92, 2, 2);
        }
        if level == 2 {
            lemma_layout_row(12, 2, 466, 42, 14, 7, 4);
        }
        if level == 3 {
            lemma_layout_row(12, 3, 466, 46, 20, 4, 6);
        }
    }
    if version == 13 {
        if level == 0 {
            lemma_layout_row(13, 0, 532, 59, 37, 8, 1);
        }
        if level == 1 {
            lemma_layout_row(13, 1, 532, 133, 107, 4, 0);
        }
        if level == 2 {
            lemma_layout_row(13, 2, 532, 33, 11, 12, 4);
        }
        if level == 3 {
            lemma_layout_row(13, 3, 532, 44, 20, 8, 4);
        }
    }
    if version == 14 {
        if level == 0 {
            lemma_layout_row(14, 0, 581, 64, 40, 4, 5);
        }
        if level == 1 {
            lemma_layout_row(14, 1, 581, 145, 115, 3, 1);
        }
        if level == 2 {
            lemma_layout_row(14, 2, 581, 36, 12, 11, 5);
        }
        if level == 3 {
            lemma_layout_row(14, 3, 581, 36, 16, 11, 5);
        }
    }
    if version == 15 {
        if level == 0 {
            lemma_layout_row(15, 0, 655, 65, 41, 5, 5);
        }
        if level == 1 {
            lemma_layout_row(15, 1, 655, 109, 87, 5, 1);
        }
        if level == 2 {
            lemma_layout_row(15, 2, 655, 36, 12, 11, 7);
        }
        if level == 3 {
            lemma_layout_row(15, 3, 655, 54, 24, 5, 7);
        }
    }
}

/// The rows of the versions from 16 to 20.
proof fn lemma_layout_16_20(version: int, level: int)
    requires
        16 <= version <= 20,
        0 <= level < 4,
    ensures
        block_layout_holds(version, level),
{
    if version == 16 {
        if level == 0 {
            lemma_layout_row(16, 0, 733, 73, 45, 7, 3);
        }
        if level == 1 {
            lemma_layout_row(16, 1, 733, 122, 98, 5, 1);
        }
        if level == 2 {
            lemma_layout_row(16, 2, 733, 45, 15, 3, 13);
        }
        if level == 3 {
            lemma_layout_row(16, 3, 733, 43, 19, 15, 2);
        }
    }
    if version == 17 {
        if level == 0 {
            lemma_layout_row(17, 0, 815, 74, 46, 10, 1);
        }
        if level == 1 {
            lemma_layout_row(17, 1, 815, 135, 107, 1, 5);
        }
        if level == 2 {
            lemma_layout_row(17, 2, 815, 42, 14, 2, 17);
        }
        if level == 3 {
            lemma_layout_row(17, 3, 815, 50, 22, 1, 15);
        }
    }
    if version == 18 {
        if level == 0 {
            lemma_layout_row(18, 0, 901, 69, 43, 9, 4);
        }
        if level == 1 {
            lemma_layout_row(18, 1, 901, 150, 120, 5, 1);
        }
        if level == 2 {
            lemma_layout_row(18, 2, 901, 42, 14, 2, 19);
        }
        if level == 3 {
            lemma_layout_row(18, 3, 901, 50, 22, 17, 1);
        }
    }
    if version == 19 {
        if level == 0 {
            lemma_layout_row(19, 0, 991, 70, 44, 3, 11);
        }
        if level == 1 {
            lemma_layout_row(19, 1, 991, 141, 113, 3, 4);
        }
        if level == 2 {
            lemma_layout_row(19, 2, 991, 39, 13, 9, 16);
        }
        if level == 3 {
            lemma_layout_row(19, 3, 991, 47, 21, 17, 4);
        }
    }
    if version == 20 {
        if level == 0 {
            lemma_layout_row(20, 0, 1085, 67, 41, 3, 13);
        }
        if level == 1 {
            lemma_layout_row(20, 1, 1085, 135, 107, 3, 5);
        }
        if level == 2 {
            lemma_layout_row(20, 2, 1085, 43, 15, 15, 10);
        }
        if level == 3 {
            lemma_layout_row(20, 3, 1085, 54, 24, 15, 5);
        }
    }
}

/// The rows of the versions from 21 to 25.
proof fn lemma_layout_21_25(version: int, level: int)
    requires
        21 <= version <= 25,
        0 <= level < 4,
    ensures
        block_layout_holds(version, level),
{
    if version == 21 {
        if level == 0 {
            lemma_layout_row(21, 0, 1156, 68, 42, 17, 0);
        }
        if level == 1 {
            lemma_layout_row(21, 1, 1156, 144, 116, 4, 4);
        }
        if level == 2 {
            lemma_layout_row(21, 2, 1156, 46, 16, 19, 6);
        }
        if level == 3 {
            lemma_layout_row(21, 3, 1156, 50, 22, 17, 6);
        }
    }
    if version == 22 {
        if level == 0 {
            lemma_layout_row(22, 0, 1258, 74, 46, 17, 0);
        }
        if level == 1 {
            lemma_layout_row(22, 1, 1258, 139, 111, 2, 7);
        }
        if level == 2 {
            lemma_layout_row(22, 2, 1258, 37, 13, 34, 0);
        }
        if level == 3 {
            lemma_layout_row(22, 3, 1258, 54, 24, 7, 16);
        }
    }
    if version == 23 {
        if level == 0 {
            lemma_layout_row(23, 0, 1364, 75, 47, 4, 14);
        }
        if level == 1 {
            lemma_layout_row(23, 1, 1364, 151, 121, 4, 5);
        }
        if level == 2 {
            lemma_layout_row(23, 2, 1364, 45, 15, 16, 14);
        }
        if level == 3 {
            lemma_layout_row(23, 3, 1364, 54, 24, 11, 14);
        }
    }
    if version == 24 {
        if level == 0 {
            lemma_layout_row(24, 0, 1474, 73, 45, 6, 14);
        }
        if level == 1 {
            lemma_layout_row(24, 1, 1474, 147, 117, 6, 4);
        }
        if level == 2 {
            lemma_layout_row(24, 2, 1474, 46, 16, 30, 2);
        }
        if level == 3 {
            lemma_layout_row(24, 3, 1474, 54, 24, 11, 16);
        }
    }
    if version == 25 {
        if level == 0 {
            lemma_layout_row(25, 0, 1588, 75, 47, 8, 13);
        }
        if level == 1 {
            lemma_layout_row(25, 1, 1588, 132, 106, 8, 4);
        }
        if level == 2 {
            lemma_layout_row(25, 2, 1588, 45, 15, 22, 13);
        }
        if level == 3 {
            lemma_layout_row(25, 3, 1588, 54, 24, 7, 22);
        }
    }
}

/// The rows of the versions from 26 to 30.
proof fn lemma_layout_26_30(version: int, level: int)
    requires
        26 <= version <= 30,
        0 <= level < 4,
    ensures
        block_layout_holds(version, level),
{
    if version == 26 {
        if level == 0 {
            lemma_layout_row(26, 0, 1706, 74, 46, 19, 4);
        }
        if level == 1 {
            lemma_layout_row(26, 1, 1706, 142, 114, 10, 2);
        }
        if level == 2 {
            lemma_layout_row(26, 2, 1706, 46, 16, 33, 4);
        }
        if level == 3 {
            lemma_layout_row(26, 3, 1706, 50, 22, 28, 6);
        }
    }
    if version == 27 {
        if level == 0 {
            lemma_layout_row(27, 0, 1828, 73, 45, 22, 3);
        }
        if level == 1 {
            lemma_layout_row(27, 1, 1828, 152, 122, 8, 4);
        }
        if level == 2 {
            lemma_layout_row(27, 2, 1828, 45, 15, 12, 28);
        }
        if level == 3 {
            lemma_layout_row(27, 3, 1828, 53, 23, 8, 26);
        }
    }
    if version == 28 {
        if level == 0 {
            lemma_layout_row(28, 0, 1921, 73, 45, 3, 23);
        }
        if level == 1 {
            lemma_layout_row(28, 1, 1921, 147, 117, 3, 10);
        }
        if level == 2 {
            lemma_layout_row(28, 2, 1921, 45, 15, 11, 31);
        }
        if level == 3 {
            lemma_layout_row(28, 3, 1921, 54, 24, 4, 31);
        }
    }
    if version == 29 {
        if level == 0 {
            lemma_layout_row(29, 0, 2051, 73, 45, 21, 7);
        }
        if level == 1 {
            lemma_layout_row(29, 1, 2051, 146, 116, 7, 7);
        }
        if level == 2 {
            lemma_layout_row(29, 2, 2051, 45, 15, 19, 26);
        }
        if level == 3 {
            lemma_layout_row(29, 3, 2051, 53, 23, 1, 37);
        }
    }
    if version == 30 {
        if level == 0 {
            lemma_layout_row(30, 0, 2185, 75, 47, 19, 10);
        }
        if level == 1 {
            lemma_layout_row(30, 1, 2185, 145, 115, 5, 10);
        }
        if level == 2 {
            lemma_layout_row(30, 2, 2185, 45, 15, 23, 25);
        }
        if level == 3 {
            lemma_layout_row(30, 3, 2185, 54, 24, 15, 25);
        }
    }
}

/// The rows of the versions from 31 to 35.
proof fn lemma_layout_31_35(version: int, level: int)
    requires
        31 <= version <= 35,
        0 <= level < 4,
    ensures
        block_layout_holds(version, level),
{
    if version == 31 {
        if level == 0 {
            lemma_layout_row(31, 0, 2323, 74, 46, 2, 29);
        }
        if level == 1 {
            lemma_layout_row(31, 1, 2323, 145, 115, 13, 3);
        }
        if level == 2 {
            lemma_layout_row(31, 2, 2323, 45, 15, 23, 28);
        }
        if level == 3 {
            lemma_layout_row(31, 3, 2323, 54, 24, 42, 1);
        }
    }
    if version == 32 {
        if level == 0 {
            lemma_layout_row(32, 0, 2465, 74, 46, 10, 23);
        }
        if level == 1 {
            lemma_layout_row(32, 1, 2465, 145, 115, 17, 0);
        }
        if level == 2 {
            lemma_layout_row(32, 2, 2465, 45, 15, 19, 35);
        }
        if level == 3 {
            lemma_layout_row(32, 3, 2465, 54, 24, 10, 35);
        }
    }
    if version == 33 {
        if level == 0 {
            lemma_layout_row(33, 0, 2611, 74, 46, 14, 21);
        }
        if level == 1 {
            lemma_layout_row(33, 1, 2611, 145, 115, 17, 1);
        }
        if level == 2 {
            lemma_layout_row(33, 2, 2611, 45, 15, 11, 46);
        }
        if level == 3 {
            lemma_layout_row(33, 3, 2611, 54, 24, 29, 19);
        }
    }
    if version == 34 {
        if level == 0 {
            lemma_layout_row(34, 0, 2761, 74, 46, 14, 23);
        }
        if level == 1 {
            lemma_layout_row(34, 1, 2761, 145, 115, 13, 6);
        }
        if level == 2 {
            lemma_layout_row(34, 2, 2761, 46, 16, 59, 1);
        }
        if level == 3 {
            lemma_layout_row(34, 3, 2761, 54, 24, 44, 7);
        }
    }
    if version == 35 {
        if level == 0 {
            lemma_layout_row(35, 0, 2876, 75, 47, 12, 26);
        }
        if level == 1 {
            lemma_layout_row(35, 1, 2876, 151, 121, 12, 7);
        }
        if level == 2 {
            lemma_layout_row(35, 2, 2876, 45, 15, 22, 41);
        }
        if level == 3 {
            lemma_layout_row(35, 3, 2876, 54, 24, 39, 14);
        }
    }
}

/// The rows of the versions from 36 to 40.
proof fn lemma_layout_36_40(version: int, level: int)
    requires
        36 <= version <= 40,
        0 <= level < 4,
    ensures
        block_layout_holds(version, level),
{
    if version == 36 {
        if level == 0 {
            lemma_layout_row(36, 0, 3034, 75, 47, 6, 34);
        }
        if level == 1 {
            lemma_layout_row(36, 1, 3034, 151, 121, 6, 14);
        }
        if level == 2 {
            lemma_layout_row(36, 2, 3034, 45, 15, 2, 64);
        }
        if level == 3 {
            lemma_layout_row(36, 3, 3034, 54, 24, 46, 10);
        }
    }
    if version == 37 {
        if level == 0 {
            lemma_layout_row(37, 0, 3196, 74, 46, 29, 14);
        }
        if level == 1 {
            lemma_layout_row(37, 1, 3196, 152, 122, 17, 4);
        }
        if level == 2 {
            lemma_layout_row(37, 2, 3196, 45, 15, 24, 46);
        }
        if level == 3 {
            lemma_layout_row(37, 3, 3196, 54, 24, 49, 10);
        }
    }
    if version == 38 {
        if level == 0 {
            lemma_layout_row(38, 0, 3362, 74, 46, 13, 32);
        }
        if level == 1 {
            lemma_layout_row(38, 1, 3362, 152, 122, 4, 18);
        }
        if level == 2 {
            lemma_layout_row(38, 2, 3362, 45, 15, 42, 32);
        }
        if level == 3 {
            lemma_layout_row(38, 3, 3362, 54, 24, 48, 14);
        }
    }
    if version == 39 {
        if level == 0 {
            lemma_layout_row(39, 0, 3532, 75, 47, 40, 7);
        }
        if level == 1 {
            lemma_layout_row(39, 1, 3532, 147, 117, 20, 4);
        }
        if level == 2 {
            lemma_layout_row(39, 2, 3532, 45, 15, 10, 67);
        }
        if level == 3 {
            lemma_layout_row(39, 3, 3532, 54, 24, 43, 22);
        }
    }
    if version == 40 {
        if level == 0 {
            lemma_layout_row(40, 0, 3706, 75, 47, 18, 31);
        }
        if level == 1 {
            lemma_layout_row(40, 1, 3706, 148, 118, 19, 6);
        }
        if level == 2 {
            lemma_layout_row(40, 2, 3706, 45, 15, 20, 61);
        }
        if level == 3 {
            lemma_layout_row(40, 3, 3706, 54, 24, 34, 34);
        }
    }
}

/// The tables describe blocks that the decoder can hold: every block has
/// data words and from 1 to 30 parity words, no short block is longer than
/// 152 codewords, and the blocks of a version make up its codewords
/// exactly.
pub proof fn lemma_block_layout(version: int, level: int)
    requires
        1 <= version <= 40,
        0 <= level < 4,
    ensures
        block_layout_holds(version, level),
{
    if version <= 5 {
        lemma_layout_1_5(version, level);
    } else if version <= 10 {
        lemma_layout_6_10(version, level);
    } else if version <= 15 {
        lemma_layout_11_15(version, level);
    } else if version <= 20 {
        lemma_layout_16_20(version, level);
    } else if version <= 25 {
        lemma_layout_21_25(version, level);
    } else if version <= 30 {
        lemma_layout_26_30(version, level);
    } else if version <= 35 {
        lemma_layout_31_35(version, level);
    } else if version <= 40 {
        lemma_layout_36_40(version, level);
    }
}

} // verus!
