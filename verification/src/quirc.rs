use vstd::prelude::*;

verus! {

/// A cell of the binarized frame: 0 is background, 1 is foreground that no
/// region has claimed yet, and any larger value is the id of a region.
pub type Pixel = u16;

/// The largest grid size, that of a version 40 symbol.
pub const MAX_GRID_SIZE: i32 = 177;

/// A point in image coordinates.
#[derive(Debug, Copy, Clone, PartialEq, Eq, Structural)]
pub struct Point {
    pub x: i32,
    pub y: i32,
}

impl Point {
    /// Moves the point back to the origin.
    pub fn clear(&mut self)
        ensures
            *final(self) == (Point { x: 0, y: 0 }),
    {
        self.x = 0;
        self.y = 0;
    }
}

impl Default for Point {
    fn default() -> (p: Point)
        ensures
            p == (Point { x: 0, y: 0 }),
    {
        Point { x: 0, y: 0 }
    }
}

/// A connected set of equally coloured pixels found by flood fill.
#[derive(Debug, Copy, Clone, PartialEq, Eq, Structural)]
pub struct Region {
    /// The pixel from which the region was filled.
    pub seed: Point,
    /// The number of pixels painted.
    pub count: i32,
    /// The index of the capstone that owns the region, or -1.
    pub capstone: i32,
}

impl Default for Region {
    fn default() -> (r: Region)
        ensures
            r == (Region { seed: Point { x: 0, y: 0 }, count: 0, capstone: 0 }),
    {
        Region { seed: Point { x: 0, y: 0 }, count: 0, capstone: 0 }
    }
}

/// A symbol as the identifier hands it to the decoder.
#[derive(Copy, Clone)]
pub struct Code {
    /// The four corners of the symbol in the image, clockwise from top left.
    pub corners: [Point; 4],
    /// The number of cells along one side of the grid.
    pub size: i32,
    /// The cells in row-major order, one bit each: bit `i & 7` of byte
    /// `i >> 3` is set iff the cell at `(x, y)` is dark, where
    /// `i = y * size + x`.
    pub cell_bitmap: [u8; 3917],
}

impl Code {
    /// The number of the bit that holds the cell at `(x, y)`.
    pub open spec fn bit_index(&self, x: int, y: int) -> int {
        y * self.size + x
    }

    /// Does the grid hold the cell at `(x, y)`?
    pub open spec fn has_cell(&self, x: int, y: int) -> bool {
        &&& 0 <= x < self.size
        &&& 0 <= y < self.size
    }

    /// The grid is no larger than the bitmap can hold.
    pub open spec fn fits(&self) -> bool {
        0 <= self.size <= MAX_GRID_SIZE
    }

    /// Is bit `i` of the bitmap set?
    pub open spec fn bit(&self, i: int) -> bool {
        (self.cell_bitmap@[i / 8] >> ((i % 8) as u8)) & 1u8 == 1u8
    }

    /// Is the cell at `(x, y)` dark?
    pub open spec fn dark(&self, x: int, y: int) -> bool {
        self.bit(self.bit_index(x, y))
    }

    /// Marks the cell at `(x, y)` as dark.
    pub fn mark(&mut self, x: i32, y: i32)
        requires
            old(self).fits(),
            old(self).has_cell(x as int, y as int),
        ensures
            final(self).size == old(self).size,
            final(self).corners == old(self).corners,
            final(self).dark(x as int, y as int),
            forall|i: int|
                0 <= i < 8 * 3917 ==> #[trigger] final(self).bit(i) == (old(self).bit(i) || i
                    == old(self).bit_index(x as int, y as int)),
    {
        assert(0 <= y * self.size + x < 177 * 177) by (nonlinear_arith)
            requires
                0 <= x < self.size,
                0 <= y < self.size,
                self.size <= 177,
        ;
        let i: i32 = y * self.size + x;
        let at: usize = (i / 8) as usize;
        let p: u8 = (i % 8) as u8;
        let ghost before = self.cell_bitmap@;
        self.cell_bitmap[at] = self.cell_bitmap[at] | (1u8 << p);
        proof {
            assert forall|k: int| 0 <= k < 8 * 3917 implies #[trigger] self.bit(k) == (old(
                self,
            ).bit(k) || k == i) by {
                let s = (k % 8) as u8;
                let b = before[at as int];
                if k / 8 == at {
                    assert(p < 8 && s < 8 ==> ((((b | (1u8 << p)) >> s) & 1u8 == 1u8) == (s == p
                        || ((b >> s) & 1u8 == 1u8)))) by (bit_vector);
                }
            }
        }
    }

    /// The code without any cell: every corner at the origin, size 0 and
    /// an all-light bitmap.
    pub open spec fn is_blank(&self) -> bool {
        &&& self.size == 0
        &&& forall|i: int| 0 <= i < 4 ==> self.corners@[i] == (Point { x: 0, y: 0 })
        &&& forall|i: int| 0 <= i < 3917 ==> self.cell_bitmap@[i] == 0u8
    }

    /// Resets the code to the blank one.
    pub fn clear(&mut self)
        ensures
            final(self).is_blank(),
    {
        self.corners = [Point { x: 0, y: 0 }; 4];
        self.size = 0;
        self.cell_bitmap = [0u8; 3917];
    }
}

impl Default for Code {
    fn default() -> (c: Code)
        ensures
            c.is_blank(),
    {
        Code { corners: [Point { x: 0, y: 0 }; 4], size: 0, cell_bitmap: [0u8; 3917] }
    }
}

/// The error-correction level of a symbol.
#[derive(Debug, Copy, Clone, PartialEq, Eq, Structural, Hash)]
pub enum EccLevel {
    M,
    L,
    H,
    Q,
}

impl EccLevel {
    /// The two-bit number that stands for the level in the format word.
    pub open spec fn index(self) -> int {
        match self {
            EccLevel::M => 0,
            EccLevel::L => 1,
            EccLevel::H => 2,
            EccLevel::Q => 3,
        }
    }

    /// The level that `n` stands for, if any.
    pub open spec fn spec_from_i32(n: int) -> Option<EccLevel> {
        if n == 0 {
            Some(EccLevel::M)
        } else if n == 1 {
            Some(EccLevel::L)
        } else if n == 2 {
            Some(EccLevel::H)
        } else if n == 3 {
            Some(EccLevel::Q)
        } else {
            None
        }
    }

    /// The level that `n` stands for in the format word, if any.
    pub fn from_i32(n: i32) -> (r: Option<EccLevel>)
        ensures
            r == EccLevel::spec_from_i32(n as int),
    {
        match n {
            0 => Some(EccLevel::M),
            1 => Some(EccLevel::L),
            2 => Some(EccLevel::H),
            3 => Some(EccLevel::Q),
            _ => None,
        }
    }

    /// The number that stands for the level in the format word.
    pub fn to_i32(&self) -> (n: i32)
        ensures
            n == self.index(),
    {
        match self {
            EccLevel::M => 0,
            EccLevel::L => 1,
            EccLevel::H => 2,
            EccLevel::Q => 3,
        }
    }
}

impl Default for EccLevel {
    fn default() -> (l: EccLevel)
        ensures
            l == EccLevel::M,
    {
        EccLevel::M
    }
}

/// The kind of a payload segment.
#[derive(Debug, Copy, Clone, PartialEq, Eq, Structural, Hash)]
pub enum DataType {
    Numeric,
    Alpha,
    Byte,
    Eci,
    Kanji,
}

impl DataType {
    /// The mode indicator of the kind.
    pub open spec fn mode(self) -> int {
        match self {
            DataType::Numeric => 1,
            DataType::Alpha => 2,
            DataType::Byte => 4,
            DataType::Eci => 7,
            DataType::Kanji => 8,
        }
    }

    /// The kind whose mode indicator is `n`, if any.
    pub open spec fn spec_from_i32(n: int) -> Option<DataType> {
        if n == 1 {
            Some(DataType::Numeric)
        } else if n == 2 {
            Some(DataType::Alpha)
        } else if n == 4 {
            Some(DataType::Byte)
        } else if n == 7 {
            Some(DataType::Eci)
        } else if n == 8 {
            Some(DataType::Kanji)
        } else {
            None
        }
    }

    /// The lower-case name of the kind.
    pub open spec fn spec_name(self) -> Seq<char> {
        match self {
            DataType::Numeric => "numeric"@,
            DataType::Alpha => "alpha"@,
            DataType::Byte => "byte"@,
            DataType::Eci => "eci"@,
            DataType::Kanji => "kanji"@,
        }
    }

    /// The kind whose mode indicator is `n`, if any.
    pub fn from_i32(n: i32) -> (r: Option<DataType>)
        ensures
            r == DataType::spec_from_i32(n as int),
    {
        match n {
            1 => Some(DataType::Numeric),
            2 => Some(DataType::Alpha),
            4 => Some(DataType::Byte),
            7 => Some(DataType::Eci),
            8 => Some(DataType::Kanji),
            _ => None,
        }
    }

    /// The mode indicator of the kind.
    pub fn to_i32(&self) -> (n: i32)
        ensures
            n == self.mode(),
    {
        match self {
            DataType::Numeric => 1,
            DataType::Alpha => 2,
            DataType::Byte => 4,
            DataType::Eci => 7,
            DataType::Kanji => 8,
        }
    }

    /// The lower-case name of the kind.
    pub fn to_string(&self) -> (s: String)
        ensures
            s@ == self.spec_name(),
    {
        let name = match self {
            DataType::Numeric => "numeric",
            DataType::Alpha => "alpha",
            DataType::Byte => "byte",
            DataType::Eci => "eci",
            DataType::Kanji => "kanji",
        };
        name.to_owned()
    }
}

/// The character encodings that an ECI assignment number commonly names.
#[derive(Debug, Copy, Clone, PartialEq, Eq, Structural, Hash)]
pub enum Eci {
    Iso8859_1,
    Ibm437,
    Iso8859_2,
    Iso8859_3,
    Iso8859_4,
    Iso8859_5,
    Iso8859_6,
    Iso8859_7,
    Iso8859_8,
    Iso8859_9,
    Windows874,
    Iso8859_13,
    Iso8859_15,
    ShiftJis,
    Utf8,
}

impl Eci {
    /// The assignment number of the encoding.
    pub open spec fn number(self) -> int {
        match self {
            Eci::Iso8859_1 => 1,
            Eci::Ibm437 => 2,
            Eci::Iso8859_2 => 4,
            Eci::Iso8859_3 => 5,
            Eci::Iso8859_4 => 6,
            Eci::Iso8859_5 => 7,
            Eci::Iso8859_6 => 8,
            Eci::Iso8859_7 => 9,
            Eci::Iso8859_8 => 10,
            Eci::Iso8859_9 => 11,
            Eci::Windows874 => 13,
            Eci::Iso8859_13 => 15,
            Eci::Iso8859_15 => 17,
            Eci::ShiftJis => 20,
            Eci::Utf8 => 26,
        }
    }

    /// The encoding whose assignment number is `n`, if it is one of these.
    pub fn from_u32(n: u32) -> (r: Option<Eci>)
        ensures
            match r {
                Some(e) => e.number() == n,
                None => forall|e: Eci| e.number() != n,
            },
    {
        match n {
            1 => Some(Eci::Iso8859_1),
            2 => Some(Eci::Ibm437),
            4 => Some(Eci::Iso8859_2),
            5 => Some(Eci::Iso8859_3),
            6 => Some(Eci::Iso8859_4),
            7 => Some(Eci::Iso8859_5),
            8 => Some(Eci::Iso8859_6),
            9 => Some(Eci::Iso8859_7),
            10 => Some(Eci::Iso8859_8),
            11 => Some(Eci::Iso8859_9),
            13 => Some(Eci::Windows874),
            15 => Some(Eci::Iso8859_13),
            17 => Some(Eci::Iso8859_15),
            20 => Some(Eci::ShiftJis),
            26 => Some(Eci::Utf8),
            _ => None,
        }
    }

    /// The assignment number of the encoding.
    pub fn to_u32(&self) -> (n: u32)
        ensures
            n == self.number(),
    {
        match self {
            Eci::Iso8859_1 => 1,
            Eci::Ibm437 => 2,
            Eci::Iso8859_2 => 4,
            Eci::Iso8859_3 => 5,
            Eci::Iso8859_4 => 6,
            Eci::Iso8859_5 => 7,
            Eci::Iso8859_6 => 8,
            Eci::Iso8859_7 => 9,
            Eci::Iso8859_8 => 10,
            Eci::Iso8859_9 => 11,
            Eci::Windows874 => 13,
            Eci::Iso8859_13 => 15,
            Eci::Iso8859_15 => 17,
            Eci::ShiftJis => 20,
            Eci::Utf8 => 26,
        }
    }
}

/// What a decoded symbol holds.
#[derive(Debug, Clone)]
pub struct Data {
    /// The version of the symbol, from 1 to 40.
    pub version: usize,
    /// The error-correction level.
    pub ecc_level: EccLevel,
    /// The number of the mask pattern, from 0 to 7.
    pub mask: i32,
    /// The highest-valued kind among the segments of the payload.
    pub data_type: Option<DataType>,
    /// The payload. Kanji segments come out as Shift-JIS, all others as
    /// the bytes they encode.
    pub payload: Vec<u8>,
    /// The ECI assignment number, if the payload names one.
    pub eci: Option<u32>,
}

/// The mathematical content of a [`Data`].
pub struct DataView {
    pub version: int,
    pub ecc_level: EccLevel,
    pub mask: int,
    pub data_type: Option<DataType>,
    pub payload: Seq<u8>,
    pub eci: Option<u32>,
}

impl View for Data {
    type V = DataView;

    open spec fn view(&self) -> DataView {
        DataView {
            version: self.version as int,
            ecc_level: self.ecc_level,
            mask: self.mask as int,
            data_type: self.data_type,
            payload: self.payload@,
            eci: self.eci,
        }
    }
}

impl Data {
    /// The data of no symbol: version 0, level M, mask 0 and no payload.
    pub open spec fn spec_empty() -> DataView {
        DataView {
            version: 0,
            ecc_level: EccLevel::M,
            mask: 0,
            data_type: None,
            payload: Seq::empty(),
            eci: None,
        }
    }
}

impl Default for Data {
    fn default() -> (d: Data)
        ensures
            d@ == Data::spec_empty(),
    {
        Data {
            version: 0,
            ecc_level: EccLevel::M,
            mask: 0,
            data_type: None,
            payload: Vec::new(),
            eci: None,
        }
    }
}

/// The version of this library.
pub fn version() -> (s: String)
    ensures
        s@ == "0.10.0"@,
{
    "0.10.0".to_owned()
}

} // verus!
