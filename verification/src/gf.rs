use vstd::prelude::*;

verus! {

/// The powers of the generator of GF(16): entry `i` is the generator to
/// the `i`.
pub const GF16_EXP: [u8; 16] = [
    0x01, 0x02, 0x04, 0x08, 0x03, 0x06, 0x0c, 0x0b, 0x05, 0x0a, 0x07, 0x0e, 0x0f, 0x0d, 0x09, 0x01,
];

/// The logarithms in GF(16): entry `x` is an exponent to which the
/// generator gives `x`. The entry of 0, which has no logarithm, is 0.
pub const GF16_LOG: [u8; 16] = [
    0x00, 0x0f, 0x01, 0x04, 0x02, 0x08, 0x05, 0x0a, 0x03, 0x0e, 0x09, 0x07, 0x06, 0x0d, 0x0b, 0x0c,
];

/// The powers of the generator of GF(256), with the primitive polynomial
/// x^8 + x^4 + x^3 + x^2 + 1.
pub const GF256_EXP: [u8; 256] = [
    0x01, 0x02, 0x04, 0x08, 0x10, 0x20, 0x40, 0x80, 0x1d, 0x3a, 0x74, 0xe8, 0xcd, 0x87, 0x13, 0x26,
    0x4c, 0x98, 0x2d, 0x5a, 0xb4, 0x75, 0xea, 0xc9, 0x8f, 0x03, 0x06, 0x0c, 0x18, 0x30, 0x60, 0xc0,
    0x9d, 0x27, 0x4e, 0x9c, 0x25, 0x4a, 0x94, 0x35, 0x6a, 0xd4, 0xb5, 0x77, 0xee, 0xc1, 0x9f, 0x23,
    0x46, 0x8c, 0x05, 0x0a, 0x14, 0x28, 0x50, 0xa0, 0x5d, 0xba, 0x69, 0xd2, 0xb9, 0x6f, 0xde, 0xa1,
    0x5f, 0xbe, 0x61, 0xc2, 0x99, 0x2f, 0x5e, 0xbc, 0x65, 0xca, 0x89, 0x0f, 0x1e, 0x3c, 0x78, 0xf0,
    0xfd, 0xe7, 0xd3, 0xbb, 0x6b, 0xd6, 0xb1, 0x7f, 0xfe, 0xe1, 0xdf, 0xa3, 0x5b, 0xb6, 0x71, 0xe2,
    0xd9, 0xaf, 0x43, 0x86, 0x11, 0x22, 0x44, 0x88, 0x0d, 0x1a, 0x34, 0x68, 0xd0, 0xbd, 0x67, 0xce,
    0x81, 0x1f, 0x3e, 0x7c, 0xf8, 0xed, 0xc7, 0x93, 0x3b, 0x76, 0xec, 0xc5, 0x97, 0x33, 0x66, 0xcc,
    0x85, 0x17, 0x2e, 0x5c, 0xb8, 0x6d, 0xda, 0xa9, 0x4f, 0x9e, 0x21, 0x42, 0x84, 0x15, 0x2a, 0x54,
    0xa8, 0x4d, 0x9a, 0x29, 0x52, 0xa4, 0x55, 0xaa, 0x49, 0x92, 0x39, 0x72, 0xe4, 0xd5, 0xb7, 0x73,
    0xe6, 0xd1, 0xbf, 0x63, 0xc6, 0x91, 0x3f, 0x7e, 0xfc, 0xe5, 0xd7, 0xb3, 0x7b, 0xf6, 0xf1, 0xff,
    0xe3, 0xdb, 0xab, 0x4b, 0x96, 0x31, 0x62, 0xc4, 0x95, 0x37, 0x6e, 0xdc, 0xa5, 0x57, 0xae, 0x41,
    0x82, 0x19, 0x32, 0x64, 0xc8, 0x8d, 0x07, 0x0e, 0x1c, 0x38, 0x70, 0xe0, 0xdd, 0xa7, 0x53, 0xa6,
    0x51, 0xa2, 0x59, 0xb2, 0x79, 0xf2, 0xf9, 0xef, 0xc3, 0x9b, 0x2b, 0x56, 0xac, 0x45, 0x8a, 0x09,
    0x12, 0x24, 0x48, 0x90, 0x3d, 0x7a, 0xf4, 0xf5, 0xf7, 0xf3, 0xfb, 0xeb, 0xcb, 0x8b, 0x0b, 0x16,
    0x2c, 0x58, 0xb0, 0x7d, 0xfa, 0xe9, 0xcf, 0x83, 0x1b, 0x36, 0x6c, 0xd8, 0xad, 0x47, 0x8e, 0x01,
];

/// The logarithms in GF(256). The entry of 0, which has no logarithm, is 0.
pub const GF256_LOG: [u8; 256] = [
    0x00, 0xff, 0x01, 0x19, 0x02, 0x32, 0x1a, 0xc6, 0x03, 0xdf, 0x33, 0xee, 0x1b, 0x68, 0xc7, 0x4b,
    0x04, 0x64, 0xe0, 0x0e, 0x34, 0x8d, 0xef, 0x81, 0x1c, 0xc1, 0x69, 0xf8, 0xc8, 0x08, 0x4c, 0x71,
    0x05, 0x8a, 0x65, 0x2f, 0xe1, 0x24, 0x0f, 0x21, 0x35, 0x93, 0x8e, 0xda, 0xf0, 0x12, 0x82, 0x45,
    0x1d, 0xb5, 0xc2, 0x7d, 0x6a, 0x27, 0xf9, 0xb9, 0xc9, 0x9a, 0x09, 0x78, 0x4d, 0xe4, 0x72, 0xa6,
    0x06, 0xbf, 0x8b, 0x62, 0x66, 0xdd, 0x30, 0xfd, 0xe2, 0x98, 0x25, 0xb3, 0x10, 0x91, 0x22, 0x88,
    0x36, 0xd0, 0x94, 0xce, 0x8f, 0x96, 0xdb, 0xbd, 0xf1, 0xd2, 0x13, 0x5c, 0x83, 0x38, 0x46, 0x40,
    0x1e, 0x42, 0xb6, 0xa3, 0xc3, 0x48, 0x7e, 0x6e, 0x6b, 0x3a, 0x28, 0x54, 0xfa, 0x85, 0xba, 0x3d,
    0xca, 0x5e, 0x9b, 0x9f, 0x0a, 0x15, 0x79, 0x2b, 0x4e, 0xd4, 0xe5, 0xac, 0x73, 0xf3, 0xa7, 0x57,
    0x07, 0x70, 0xc0, 0xf7, 0x8c, 0x80, 0x63, 0x0d, 0x67, 0x4a, 0xde, 0xed, 0x31, 0xc5, 0xfe, 0x18,
    0xe3, 0xa5, 0x99, 0x77, 0x26, 0xb8, 0xb4, 0x7c, 0x11, 0x44, 0x92, 0xd9, 0x23, 0x20, 0x89, 0x2e,
    0x37, 0x3f, 0xd1, 0x5b, 0x95, 0xbc, 0xcf, 0xcd, 0x90, 0x87, 0x97, 0xb2, 0xdc, 0xfc, 0xbe, 0x61,
    0xf2, 0x56, 0xd3, 0xab, 0x14, 0x2a, 0x5d, 0x9e, 0x84, 0x3c, 0x39, 0x53, 0x47, 0x6d, 0x41, 0xa2,
    0x1f, 0x2d, 0x43, 0xd8, 0xb7, 0x7b, 0xa4, 0x76, 0xc4, 0x17, 0x49, 0xec, 0x7f, 0x0c, 0x6f, 0xf6,
    0x6c, 0xa1, 0x3b, 0x52, 0x29, 0x9d, 0x55, 0xaa, 0xfb, 0x60, 0x86, 0xb1, 0xbb, 0xcc, 0x3e, 0x5a,
    0xcb, 0x59, 0x5f, 0xb0, 0x9c, 0xa9, 0xa0, 0x51, 0x0b, 0xf5, 0x16, 0xeb, 0x7a, 0x75, 0x2c, 0xd7,
    0x4f, 0xae, 0xd5, 0xe9, 0xe6, 0xe7, 0xad, 0xe8, 0x74, 0xd6, 0xf4, 0xea, 0xa8, 0x50, 0x58, 0xaf,
];

/// One of the two fields of the decoder, each given by the tables of the
/// powers and the logarithms of its generator.
#[derive(Debug, Copy, Clone, PartialEq, Eq, Structural)]
pub enum GaloisField {
    /// GF(16), in which the format word is protected.
    Gf16,
    /// GF(256), in which the codewords are protected.
    Gf256,
}

impl GaloisField {
    /// The number of non-zero elements of the field.
    pub open spec fn order(self) -> int {
        match self {
            GaloisField::Gf16 => 15,
            GaloisField::Gf256 => 255,
        }
    }

    /// Is `x` an element of the field?
    pub open spec fn has(self, x: u8) -> bool {
        self == GaloisField::Gf256 || x < 16
    }

    /// Are all of `s` elements of the field?
    pub open spec fn has_all(self, s: Seq<u8>) -> bool {
        forall|i: int| 0 <= i < s.len() ==> self.has(#[trigger] s[i])
    }

    /// The generator to the `i`, for `0 <= i <= order`.
    pub open spec fn exp_of(self, i: int) -> u8 {
        match self {
            GaloisField::Gf16 => GF16_EXP@[i],
            GaloisField::Gf256 => GF256_EXP@[i],
        }
    }

    /// The logarithm of `x`; as the tables have it, that of 0 is 0.
    pub open spec fn log_of(self, x: u8) -> int {
        match self {
            GaloisField::Gf16 => GF16_LOG@[x as int] as int,
            GaloisField::Gf256 => GF256_LOG@[x as int] as int,
        }
    }

    /// The number of non-zero elements of the field.
    pub fn p(&self) -> (p: i32)
        ensures
            p == self.order(),
    {
        match self {
            GaloisField::Gf16 => 15,
            GaloisField::Gf256 => 255,
        }
    }

    /// The generator to the `i`.
    pub fn exp(&self, i: usize) -> (x: u8)
        requires
            i <= self.order(),
        ensures
            x == self.exp_of(i as int),
            self.has(x),
    {
        match self {
            GaloisField::Gf16 => GF16_EXP[i],
            GaloisField::Gf256 => GF256_EXP[i],
        }
    }

    /// The logarithm of `x`.
    pub fn log(&self, x: u8) -> (l: u8)
        requires
            self.has(x),
        ensures
            l == self.log_of(x),
    {
        match self {
            GaloisField::Gf16 => GF16_LOG[x as usize],
            GaloisField::Gf256 => GF256_LOG[x as usize],
        }
    }
}

/// The product of `a` and `b` in the field.
pub open spec fn gf_mul(f: GaloisField, a: u8, b: u8) -> u8 {
    if a == 0 || b == 0 {
        0
    } else {
        f.exp_of((f.log_of(a) + f.log_of(b)) % f.order())
    }
}

/// The product of `c` and the generator to the `e`, for `e >= 0`.
pub open spec fn gf_scale(f: GaloisField, c: u8, e: int) -> u8 {
    if c == 0 {
        0
    } else {
        f.exp_of((f.log_of(c) + e) % f.order())
    }
}

/// The quotient of `a` by `b`, for non-zero `a` and `b`. For a zero the
/// tables' logarithm of 0 is taken, as the decoder does.
pub open spec fn gf_ratio(f: GaloisField, a: u8, b: u8) -> u8 {
    f.exp_of((f.order() - f.log_of(b) + f.log_of(a)) % f.order())
}

/// Every entry of the tables of a field is an element of it.
pub proof fn lemma_tables_in_field(f: GaloisField, i: int)
    requires
        0 <= i <= f.order(),
    ensures
        f.has(f.exp_of(i)),
{
}

/// Adding nothing changes nothing.
pub proof fn lemma_xor_zero(x: u8)
    ensures
        x ^ 0 == x,
{
    assert(x ^ 0 == x) by (bit_vector);
}

/// The sum of two elements of a field is an element of it.
pub proof fn lemma_xor_in_field(f: GaloisField, a: u8, b: u8)
    requires
        f.has(a),
        f.has(b),
    ensures
        f.has(a ^ b),
{
    assert(a < 16 && b < 16 ==> (a ^ b) < 16) by (bit_vector);
}

/// Products, scalings and quotients of elements of a field are elements
/// of it.
pub proof fn lemma_products_in_field(f: GaloisField, a: u8, b: u8, e: int)
    requires
        e >= 0,
    ensures
        f.has(gf_mul(f, a, b)),
        f.has(gf_scale(f, a, e)),
        f.has(gf_ratio(f, a, b)),
{
    lemma_tables_in_field(f, (f.log_of(a) + f.log_of(b)) % f.order());
    lemma_tables_in_field(f, (f.log_of(a) + e) % f.order());
    lemma_tables_in_field(f, (f.order() - f.log_of(b) + f.log_of(a)) % f.order());
}

/// Computes the product of `a` and `b`.
pub fn times(gf: &GaloisField, a: u8, b: u8) -> (r: u8)
    requires
        gf.has(a),
        gf.has(b),
    ensures
        r == gf_mul(*gf, a, b),
        gf.has(r),
{
    if a == 0 || b == 0 {
        return 0;
    }
    let e = (gf.log(a) as i32 + gf.log(b) as i32) % gf.p();
    gf.exp(e as usize)
}

/// Computes the product of `c` and the generator to the `e`.
pub fn scale(gf: &GaloisField, c: u8, e: i32) -> (r: u8)
    requires
        gf.has(c),
        0 <= e <= 0x7fff_0000,
    ensures
        r == gf_scale(*gf, c, e as int),
        gf.has(r),
{
    if c == 0 {
        return 0;
    }
    let k = (gf.log(c) as i32 + e) % gf.p();
    gf.exp(k as usize)
}

/// Computes the quotient of `a` by `b`.
pub fn ratio(gf: &GaloisField, a: u8, b: u8) -> (r: u8)
    requires
        gf.has(a),
        gf.has(b),
    ensures
        r == gf_ratio(*gf, a, b),
        gf.has(r),
{
    let e = (gf.p() - gf.log(b) as i32 + gf.log(a) as i32) % gf.p();
    gf.exp(e as usize)
}

} // verus!
