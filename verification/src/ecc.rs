use crate::error::DecodeError;
use crate::gf::{
    gf_mul, gf_ratio, gf_scale, lemma_products_in_field, lemma_xor_in_field, lemma_xor_zero, times,
    ratio, scale, GaloisField, GF16_EXP, GF256_EXP,
};
use crate::version_db::RsParams;
use vstd::prelude::*;

verus! {

/// `dst` plus `c` times `src` times x to the `shift`, cut off at degree 63.
pub open spec fn spec_poly_add(f: GaloisField, dst: Seq<u8>, src: Seq<u8>, c: u8, shift: int) -> Seq<
    u8,
> {
    Seq::new(
        64,
        |p: int|
            if shift <= p {
                dst[p] ^ gf_mul(f, c, src[p - shift])
            } else {
                dst[p]
            },
    )
}

/// Adds to `dst` the polynomial `src`, multiplied by `c` and shifted up by
/// `shift` degrees. Terms past the end of the buffer are dropped.
pub fn poly_add(dst: &mut [u8; 64], src: &[u8; 64], c: u8, shift: i32, gf: &GaloisField)
    requires
        shift >= 0,
        gf.has(c),
        gf.has_all(src@),
    ensures
        final(dst)@ == spec_poly_add(*gf, old(dst)@, src@, c, shift as int),
        gf.has_all(old(dst)@) ==> gf.has_all(final(dst)@),
{
    let ghost before = dst@;
    if c == 0 || shift >= 64 {
        proof {
            assert forall|p: int| 0 <= p < 64 implies dst@[p] == spec_poly_add(
                *gf,
                before,
                src@,
                c,
                shift as int,
            )[p] by {
                lemma_xor_zero(before[p]);
            }
        }
        return ;
    }
    let n: usize = 64 - shift as usize;
    let mut i: usize = 0;
    while i < n
        invariant
            0 <= shift < 64,
            n == 64 - shift,
            i <= n,
            gf.has(c),
            gf.has_all(src@),
            gf.has_all(before) ==> gf.has_all(dst@),
            forall|p: int|
                0 <= p < 64 ==> dst@[p] == if shift <= p < i + shift {
                    before[p] ^ gf_mul(*gf, c, src@[p - shift])
                } else {
                    before[p]
                },
        decreases n - i,
    {
        let p: usize = i + shift as usize;
        let v = src[i];
        assert(gf.has(src@[i as int]));
        if v != 0 {
            let t = times(gf, c, v);
            proof {
                if gf.has_all(before) {
                    assert(gf.has(dst@[p as int]));
                    lemma_xor_in_field(*gf, dst@[p as int], t);
                }
            }
            dst[p] = dst[p] ^ t;
        } else {
            proof {
                lemma_xor_zero(before[p as int]);
            }
        }
        i += 1;
    }
}

/// The term of degree `i` of a polynomial with coefficient `c` there, at
/// the non-zero point `x`.
pub open spec fn poly_term(f: GaloisField, c: u8, x: u8, i: int) -> u8 {
    gf_scale(f, c, f.log_of(x) * i)
}

/// The sum of the terms of `s` below degree `n`, at the non-zero point `x`.
pub open spec fn poly_sum(f: GaloisField, s: Seq<u8>, x: u8, n: int) -> u8
    decreases n,
{
    if n <= 0 {
        0
    } else {
        poly_sum(f, s, x, n - 1) ^ poly_term(f, s[n - 1], x, n - 1)
    }
}

/// The value of the polynomial `s` at `x`.
#[verifier::opaque]
pub open spec fn spec_poly_eval(f: GaloisField, s: Seq<u8>, x: u8) -> u8 {
    if x == 0 {
        s[0]
    } else {
        poly_sum(f, s, x, 64)
    }
}

/// The sum of the terms of a polynomial over a field lies in the field.
pub proof fn lemma_poly_sum_in_field(f: GaloisField, s: Seq<u8>, x: u8, n: int)
    requires
        0 <= n <= 64,
    ensures
        f.has(poly_sum(f, s, x, n)),
    decreases n,
{
    if n > 0 {
        lemma_poly_sum_in_field(f, s, x, n - 1);
        assert(f.log_of(x) * (n - 1) >= 0) by (nonlinear_arith)
            requires
                f.log_of(x) >= 0,
                n - 1 >= 0,
        ;
        lemma_products_in_field(f, s[n - 1], 0, f.log_of(x) * (n - 1));
        lemma_xor_in_field(f, poly_sum(f, s, x, n - 1), poly_term(f, s[n - 1], x, n - 1));
    }
}

/// Evaluates the polynomial `s` at `x`.
pub fn poly_eval(s: &[u8; 64], x: u8, gf: &GaloisField) -> (sum: u8)
    requires
        gf.has(x),
        gf.has_all(s@),
    ensures
        sum == spec_poly_eval(*gf, s@, x),
        gf.has(sum),
{
    reveal(spec_poly_eval);
    if x == 0 {
        assert(gf.has(s@[0]));
        return s[0];
    }
    let mut sum: u8 = 0;
    let log_x = gf.log(x);
    let mut i: usize = 0;
    while i < 64
        invariant
            i <= 64,
            gf.has_all(s@),
            log_x == gf.log_of(x),
            sum == poly_sum(*gf, s@, x, i as int),
        decreases 64 - i,
    {
        let c = s[i];
        assert(gf.has(s@[i as int]));
        assert(0 <= log_x as int * i as int <= 255 * 63) by (nonlinear_arith)
            requires
                0 <= log_x <= 255,
                0 <= i <= 63,
        ;
        if c != 0 {
            sum = sum ^ scale(gf, c, log_x as i32 * i as i32);
        } else {
            proof {
                lemma_xor_zero(sum);
            }
        }
        i += 1;
    }
    proof {
        lemma_poly_sum_in_field(*gf, s@, x, 64);
    }
    sum
}


/// The state of the search for the shortest recurrence that generates a
/// syndrome sequence.
pub struct Lfsr {
    /// The coefficients of the recurrence found so far.
    pub c: Seq<u8>,
    /// Those before its length last grew.
    pub b: Seq<u8>,
    /// The length of the recurrence.
    pub len: int,
    /// The number of steps since the length last grew, plus one.
    pub gap: int,
    /// The discrepancy at which the length last grew.
    pub last: u8,
}

/// The polynomial 1.
pub open spec fn unit_poly() -> Seq<u8> {
    Seq::new(64, |i: int| if i == 0 { 1u8 } else { 0u8 })
}

/// By how much the recurrence `c`, taken over its first `k` coefficients
/// past the leading one, misses the syndrome `s[n]`.
pub open spec fn discrepancy(f: GaloisField, s: Seq<u8>, c: Seq<u8>, n: int, k: int) -> u8
    decreases k,
{
    if k <= 0 {
        s[n]
    } else {
        discrepancy(f, s, c, n, k - 1) ^ gf_mul(f, c[k], s[n - k])
    }
}

/// The state before any syndrome is looked at.
pub open spec fn lfsr_start() -> Lfsr {
    Lfsr { c: unit_poly(), b: unit_poly(), len: 0, gap: 1, last: 1 }
}

/// The state after the syndrome `s[n]` is taken in.
pub open spec fn lfsr_step(f: GaloisField, s: Seq<u8>, st: Lfsr, n: int) -> Lfsr {
    let d = discrepancy(f, s, st.c, n, st.len);
    let fixed = spec_poly_add(f, st.c, st.b, gf_ratio(f, d, st.last), st.gap);
    if d == 0 {
        Lfsr { gap: st.gap + 1, ..st }
    } else if st.len * 2 <= n {
        Lfsr { c: fixed, b: st.c, len: n + 1 - st.len, gap: 1, last: d }
    } else {
        Lfsr { c: fixed, gap: st.gap + 1, ..st }
    }
}

/// The state after the first `n` syndromes are taken in.
pub open spec fn lfsr_after(f: GaloisField, s: Seq<u8>, n: int) -> Lfsr
    decreases n,
{
    if n <= 0 {
        lfsr_start()
    } else {
        lfsr_step(f, s, lfsr_after(f, s, n - 1), n - 1)
    }
}

/// The error locator that the Berlekamp-Massey iteration finds for the
/// first `n` syndromes of `s`.
#[verifier::opaque]
pub open spec fn spec_berlekamp_massey(f: GaloisField, s: Seq<u8>, n: int) -> Seq<u8> {
    lfsr_after(f, s, n).c
}

/// Finds the error locator of the syndromes `s[0..n]` by the
/// Berlekamp-Massey iteration and writes it to `sigma`.
pub fn berlekamp_massey(s: &[u8; 64], n: usize, gf: &GaloisField, sigma: &mut [u8; 64])
    requires
        n <= 64,
        gf.has_all(s@),
    ensures
        final(sigma)@ == spec_berlekamp_massey(*gf, s@, n as int),
        gf.has_all(final(sigma)@),
{
    reveal(spec_berlekamp_massey);
    let mut c = [0u8; 64];
    let mut b = [0u8; 64];
    let mut l: usize = 0;
    let mut m: i32 = 1;
    let mut last: u8 = 1;
    b[0] = 1;
    c[0] = 1;
    assert(c@ == unit_poly());
    assert(b@ == unit_poly());
    let mut k: usize = 0;
    while k < n
        invariant
            k <= n <= 64,
            gf.has_all(s@),
            gf.has_all(c@),
            gf.has_all(b@),
            gf.has(last),
            l <= k,
            1 <= m <= k + 1,
            c@ == lfsr_after(*gf, s@, k as int).c,
            b@ == lfsr_after(*gf, s@, k as int).b,
            l == lfsr_after(*gf, s@, k as int).len,
            m == lfsr_after(*gf, s@, k as int).gap,
            last == lfsr_after(*gf, s@, k as int).last,
        decreases n - k,
    {
        let mut d = s[k];
        assert(gf.has(s@[k as int]));
        let mut i: usize = 1;
        while i <= l
            invariant
                1 <= i <= l + 1,
                l <= k < 64,
                gf.has_all(s@),
                gf.has_all(c@),
                gf.has(d),
                d == discrepancy(*gf, s@, c@, k as int, i - 1),
            decreases l + 1 - i,
        {
            assert(gf.has(c@[i as int]));
            assert(gf.has(s@[k - i]));
            if c[i] != 0 && s[k - i] != 0 {
                let t = times(gf, c[i], s[k - i]);
                proof {
                    lemma_xor_in_field(*gf, d, t);
                }
                d = d ^ t;
            } else {
                proof {
                    lemma_xor_zero(d);
                }
            }
            i += 1;
        }
        let mult = ratio(gf, d, last);
        if d == 0 {
            m += 1;
        } else if l * 2 <= k {
            let t = c;
            poly_add(&mut c, &b, mult, m, gf);
            b = t;
            l = k + 1 - l;
            last = d;
            m = 1;
        } else {
            poly_add(&mut c, &b, mult, m, gf);
            m += 1;
        }
        k += 1;
    }
    *sigma = c;
}

/// Does `s` hold an entry that is not zero?
pub open spec fn any_nonzero(s: Seq<u8>) -> bool {
    exists|i: int| 0 <= i < s.len() && #[trigger] s[i] != 0
}

/// The sum of the last `k` codewords of a block of `bs`, each times the
/// generator to the `i` times its distance from the end of the block.
pub open spec fn syndrome_sum(data: Seq<u8>, bs: int, i: int, k: int) -> u8
    decreases k,
{
    if k <= 0 {
        0
    } else {
        syndrome_sum(data, bs, i, k - 1) ^ gf_scale(
            GaloisField::Gf256,
            data[bs - k],
            i * (k - 1),
        )
    }
}

/// The syndromes of the block `data[0..bs]` with `npar` parity words: the
/// value of the block, read as a polynomial with its last codeword as the
/// constant term, at the first `npar` powers of the generator. The entries
/// from `npar` on are zero.
pub open spec fn spec_block_syndromes(data: Seq<u8>, bs: int, npar: int) -> Seq<u8> {
    Seq::new(
        64,
        |i: int|
            if i < npar {
                syndrome_sum(data, bs, i, bs)
            } else {
                0u8
            },
    )
}

/// Computes the syndromes of the block `data[0..bs]` into `s` and tells
/// by 1 or 0 whether any of them is not zero.
pub fn block_syndromes(data: &[u8], bs: i32, npar: usize, s: &mut [u8; 64]) -> (nonzero: i32)
    requires
        0 <= bs <= data@.len(),
        bs <= 0x200_0000,
        npar <= 64,
    ensures
        final(s)@ == spec_block_syndromes(data@, bs as int, npar as int),
        nonzero == if any_nonzero(final(s)@) { 1i32 } else { 0i32 },
{
    *s = [0u8; 64];
    let mut nonzero: i32 = 0;
    let mut i: usize = 0;
    while i < npar
        invariant
            i <= npar <= 64,
            0 <= bs <= data@.len(),
            bs <= 0x200_0000,
            forall|k: int|
                0 <= k < 64 ==> s@[k] == if k < i {
                    syndrome_sum(data@, bs as int, k, bs as int)
                } else {
                    0u8
                },
            nonzero == 0 || nonzero == 1,
            nonzero == 1 <==> exists|k: int| 0 <= k < i && #[trigger] s@[k] != 0,
        decreases npar - i,
    {
        let mut acc: u8 = 0;
        let mut j: i32 = 0;
        while j < bs
            invariant
                0 <= j <= bs <= data@.len(),
                bs <= 0x200_0000,
                i < 64,
                acc == syndrome_sum(data@, bs as int, i as int, j as int),
            decreases bs - j,
        {
            let c = data[(bs - j - 1) as usize];
            assert(0 <= i as int * j as int <= 63 * 0x200_0000) by (nonlinear_arith)
                requires
                    0 <= i <= 63,
                    0 <= j <= 0x200_0000,
            ;
            if c != 0 {
                acc = acc ^ scale(&GaloisField::Gf256, c, i as i32 * j);
            } else {
                proof {
                    lemma_xor_zero(acc);
                }
            }
            j += 1;
        }
        let ghost before = s@;
        s[i] = acc;
        if acc != 0 {
            nonzero = 1;
            assert(s@[i as int] != 0);
        }
        proof {
            if exists|k: int| 0 <= k < i && #[trigger] before[k] != 0 {
                let k = choose|k: int| 0 <= k < i && #[trigger] before[k] != 0;
                assert(s@[k] != 0);
            }
        }
        i += 1;
    }
    nonzero
}

/// The term that the coefficient `sigma[i]` adds to the coefficient of
/// degree `k` of the error evaluator.
pub open spec fn omega_term(s: Seq<u8>, sigma: Seq<u8>, k: int, i: int) -> u8 {
    if i <= k && k - i < 63 {
        gf_mul(GaloisField::Gf256, sigma[i], s[k - i + 1])
    } else {
        0u8
    }
}

/// The coefficient of degree `k` of the product of `sigma` and the
/// syndromes from the second on, summed over the first `n` coefficients of
/// `sigma`.
pub open spec fn omega_sum(s: Seq<u8>, sigma: Seq<u8>, k: int, n: int) -> u8
    decreases n,
{
    if n <= 0 {
        0
    } else {
        omega_sum(s, sigma, k, n - 1) ^ omega_term(s, sigma, k, n - 1)
    }
}

/// The error evaluator: the product of `sigma` and the syndromes from the
/// second on, cut off below degree `npar`.
#[verifier::opaque]
pub open spec fn spec_eloc_poly(s: Seq<u8>, sigma: Seq<u8>, npar: int) -> Seq<u8> {
    Seq::new(
        64,
        |k: int|
            if k < npar {
                omega_sum(s, sigma, k, npar)
            } else {
                0u8
            },
    )
}

/// The evaluator's coefficient of degree `k` while the terms of
/// `sigma[i]` are being added: those below degree `i + j` are in.
spec fn omega_partial(s: Seq<u8>, sigma: Seq<u8>, k: int, i: int, j: int) -> u8 {
    if i <= k < i + j {
        omega_sum(s, sigma, k, i) ^ omega_term(s, sigma, k, i)
    } else {
        omega_sum(s, sigma, k, i)
    }
}

/// Computes the error evaluator of the syndromes `s` and the locator
/// `sigma` into `omega`.
pub fn eloc_poly(omega: &mut [u8; 64], s: &[u8; 64], sigma: &[u8; 64], npar: usize)
    requires
        npar <= 64,
    ensures
        final(omega)@ == spec_eloc_poly(s@, sigma@, npar as int),
{
    reveal(spec_eloc_poly);
    *omega = [0u8; 64];
    let gf = GaloisField::Gf256;
    let mut i: usize = 0;
    while i < npar
        invariant
            i <= npar <= 64,
            gf == GaloisField::Gf256,
            forall|k: int| 0 <= k < npar ==> omega@[k] == omega_sum(s@, sigma@, k, i as int),
            forall|k: int| npar <= k < 64 ==> omega@[k] == 0u8,
        decreases npar - i,
    {
        let a = sigma[i];
        let mut j: usize = 0;
        while j < 63 && i + j < npar
            invariant
                i < npar <= 64,
                j <= 63,
                a == sigma@[i as int],
                gf == GaloisField::Gf256,
                forall|k: int|
                    0 <= k < npar ==> omega@[k] == #[trigger] omega_partial(
                        s@,
                        sigma@,
                        k,
                        i as int,
                        j as int,
                    ),
                forall|k: int| npar <= k < 64 ==> omega@[k] == 0u8,
            decreases 63 - j,
        {
            let b = s[j + 1];
            let ghost before = omega@;
            if a != 0 && b != 0 {
                omega[i + j] = omega[i + j] ^ times(&gf, a, b);
            } else {
                proof {
                    lemma_xor_zero(omega@[i + j]);
                }
            }
            proof {
                assert forall|k: int| 0 <= k < npar implies omega@[k] == #[trigger] omega_partial(
                    s@,
                    sigma@,
                    k,
                    i as int,
                    j + 1,
                ) by {
                    assert(before[k] == omega_partial(s@, sigma@, k, i as int, j as int));
                }
            }
            j += 1;
        }
        proof {
            assert forall|k: int| 0 <= k < npar implies omega@[k] == omega_sum(
                s@,
                sigma@,
                k,
                i + 1,
            ) by {
                assert(omega@[k] == omega_partial(s@, sigma@, k, i as int, j as int));
                lemma_xor_zero(omega_sum(s@, sigma@, k, i as int));
            }
        }
        i += 1;
    }
}


/// The formal derivative of `sigma`: in characteristic 2, its coefficients
/// of odd degree, each moved down by one degree.
pub open spec fn sigma_derivative(sigma: Seq<u8>) -> Seq<u8> {
    Seq::new(
        64,
        |i: int|
            if i % 2 == 0 && i + 1 < 64 {
                sigma[i + 1]
            } else {
                0u8
            },
    )
}

/// The point at which the locator is tested for an error in the codeword
/// that stands `i` places before the end of a block.
pub open spec fn locator_point(i: int) -> u8 {
    GF256_EXP@[255 - i]
}

/// Does the locator `sigma` place an error `i` places before the end of a
/// block?
pub open spec fn is_error_at(sigma: Seq<u8>, i: int) -> bool {
    spec_poly_eval(GaloisField::Gf256, sigma, locator_point(i)) == 0
}

/// The magnitude of the error `i` places before the end of a block: the
/// evaluator over the derivative of the locator, both at the locator's
/// point.
pub open spec fn error_value(deriv: Seq<u8>, omega: Seq<u8>, i: int) -> u8 {
    gf_ratio(
        GaloisField::Gf256,
        spec_poly_eval(GaloisField::Gf256, omega, locator_point(i)),
        spec_poly_eval(GaloisField::Gf256, deriv, locator_point(i)),
    )
}

/// The block `data[0..bs]` with the errors taken out that the syndromes
/// `s` of its `npar` parity words point to.
pub open spec fn repaired(data: Seq<u8>, bs: int, s: Seq<u8>, npar: int) -> Seq<u8> {
    let sigma = spec_berlekamp_massey(GaloisField::Gf256, s, npar);
    let deriv = sigma_derivative(sigma);
    let omega = spec_eloc_poly(s, sigma, npar - 1);
    Seq::new(
        data.len(),
        |k: int|
            if k < bs && is_error_at(sigma, bs - 1 - k) {
                data[k] ^ error_value(deriv, omega, bs - 1 - k)
            } else {
                data[k]
            },
    )
}

/// Is the block `data[0..bs]` with `npar` parity words a codeword, that
/// is, are all its syndromes zero?
pub open spec fn is_codeword(data: Seq<u8>, bs: int, npar: int) -> bool {
    !any_nonzero(spec_block_syndromes(data, bs, npar))
}

/// What correcting the block `data[0..bs]` with `dw` data words leaves in
/// `data`, and whether it succeeds. A codeword is left as it is. Any other
/// block is repaired, and the correction succeeds iff the outcome is a
/// codeword.
#[verifier::opaque]
pub open spec fn spec_correct_block(data: Seq<u8>, bs: int, dw: int) -> (Seq<u8>, bool) {
    let npar = bs - dw;
    if is_codeword(data, bs, npar) {
        (data, true)
    } else {
        let fixed = repaired(data, bs, spec_block_syndromes(data, bs, npar), npar);
        (fixed, is_codeword(fixed, bs, npar))
    }
}

/// Corrects the errors of the block `data[0..ecc.bs]` in place.
pub fn correct_block(data: &mut [u8], ecc: &RsParams) -> (r: Result<(), DecodeError>)
    requires
        0 <= ecc.dw <= ecc.bs <= 256,
        ecc.bs - ecc.dw <= 64,
        ecc.bs <= old(data)@.len(),
    ensures
        final(data)@.len() == old(data)@.len(),
        final(data)@ == spec_correct_block(old(data)@, ecc.bs as int, ecc.dw as int).0,
        r is Ok <==> spec_correct_block(old(data)@, ecc.bs as int, ecc.dw as int).1,
        r is Ok ==> is_codeword(final(data)@, ecc.bs as int, ecc.bs - ecc.dw),
        r is Err ==> r == Err::<(), DecodeError>(DecodeError::DataEcc),
{
    reveal(spec_correct_block);
    let ghost before = data@;
    let npar: usize = ecc.bs as usize - ecc.dw as usize;
    let gf = GaloisField::Gf256;
    let mut s = [0u8; 64];
    let mut sigma = [0u8; 64];
    let mut sigma_deriv = [0u8; 64];
    let mut omega = [0u8; 64];
    if block_syndromes(data, ecc.bs, npar, &mut s) == 0 {
        return Ok(());
    }
    berlekamp_massey(&s, npar, &gf, &mut sigma);
    let mut i: usize = 0;
    while i + 1 < 64
        invariant
            i % 2 == 0,
            i <= 64,
            forall|k: int|
                0 <= k < 64 ==> sigma_deriv@[k] == if k % 2 == 0 && k < i {
                    sigma@[k + 1]
                } else {
                    0u8
                },
        decreases 64 - i,
    {
        sigma_deriv[i] = sigma[i + 1];
        i += 2;
    }
    assert(sigma_deriv@ == sigma_derivative(sigma@));
    eloc_poly(&mut omega, &s, &sigma, npar - 1);
    let mut i: i32 = 0;
    while i < ecc.bs
        invariant
            0 <= i <= ecc.bs <= 256,
            ecc.bs <= before.len(),
            data@.len() == before.len(),
            gf == GaloisField::Gf256,
            forall|k: int|
                0 <= k < before.len() ==> data@[k] == if ecc.bs - i <= k < ecc.bs && is_error_at(
                    sigma@,
                    ecc.bs - 1 - k,
                ) {
                    before[k] ^ error_value(sigma_deriv@, omega@, ecc.bs - 1 - k)
                } else {
                    before[k]
                },
        decreases ecc.bs - i,
    {
        let xinv = gf.exp((255 - i) as usize);
        if poly_eval(&sigma, xinv, &gf) == 0 {
            let sd_x = poly_eval(&sigma_deriv, xinv, &gf);
            let omega_x = poly_eval(&omega, xinv, &gf);
            let error = ratio(&gf, omega_x, sd_x);
            let index = (ecc.bs - i - 1) as usize;
            data[index] = data[index] ^ error;
        }
        i += 1;
    }
    assert(data@ == repaired(before, ecc.bs as int, s@, npar as int));
    if block_syndromes(data, ecc.bs, npar, &mut s) != 0 {
        return Err(DecodeError::DataEcc);
    }
    Ok(())
}

/// Is bit `j` of the format word `u` set?
pub open spec fn format_bit(u: u16, j: u16) -> bool {
    (u >> j) & 1 == 1
}

/// The sum, over the set bits of `u` below bit `k`, of the generator of
/// GF(16) to the `i + 1` times the number of the bit.
pub open spec fn format_syndrome_sum(u: u16, i: int, k: int) -> u8
    decreases k,
{
    if k <= 0 {
        0
    } else {
        format_syndrome_sum(u, i, k - 1) ^ (if format_bit(u, (k - 1) as u16) {
            GF16_EXP@[((i + 1) * (k - 1)) % 15]
        } else {
            0u8
        })
    }
}

/// The six syndromes of the 15-bit format word `u`: its value, read as a
/// polynomial over GF(16) with bit 0 as the constant term, at the first to
/// the sixth power of the generator. The entries from the sixth on are
/// zero.
pub open spec fn spec_format_syndromes(u: u16) -> Seq<u8> {
    Seq::new(
        64,
        |i: int|
            if i < 6 {
                format_syndrome_sum(u, i, 15)
            } else {
                0u8
            },
    )
}

/// The sums of entries of the table of GF(16) are elements of GF(16).
proof fn lemma_format_syndrome_in_field(u: u16, i: int, k: int)
    requires
        0 <= i < 6,
        0 <= k <= 15,
    ensures
        format_syndrome_sum(u, i, k) < 16,
    decreases k,
{
    if k > 0 {
        lemma_format_syndrome_in_field(u, i, k - 1);
        let e = ((i + 1) * (k - 1)) % 15;
        assert(GaloisField::Gf16.has(GaloisField::Gf16.exp_of(e)));
        lemma_xor_in_field(
            GaloisField::Gf16,
            format_syndrome_sum(u, i, k - 1),
            if format_bit(u, (k - 1) as u16) {
                GF16_EXP@[e]
            } else {
                0u8
            },
        );
    }
}

/// Computes the six syndromes of the format word `u` into `s` and tells
/// by 1 or 0 whether any of them is not zero.
pub fn format_syndromes(u: u16, s: &mut [u8; 64]) -> (nonzero: i32)
    ensures
        final(s)@ == spec_format_syndromes(u),
        GaloisField::Gf16.has_all(final(s)@),
        nonzero == if any_nonzero(final(s)@) { 1i32 } else { 0i32 },
{
    *s = [0u8; 64];
    let mut nonzero: i32 = 0;
    let mut i: usize = 0;
    while i < 6
        invariant
            i <= 6,
            forall|k: int|
                0 <= k < 64 ==> s@[k] == if k < i {
                    format_syndrome_sum(u, k, 15)
                } else {
                    0u8
                },
            nonzero == 0 || nonzero == 1,
            nonzero == 1 <==> exists|k: int| 0 <= k < i && #[trigger] s@[k] != 0,
        decreases 6 - i,
    {
        let mut acc: u8 = 0;
        let mut j: u16 = 0;
        while j < 15
            invariant
                j <= 15,
                i < 6,
                acc == format_syndrome_sum(u, i as int, j as int),
            decreases 15 - j,
        {
            if (u >> j) & 1 == 1 {
                assert(0 <= (i + 1) * j <= 6 * 14) by (nonlinear_arith)
                    requires
                        0 <= i < 6,
                        0 <= j < 15,
                ;
                acc = acc ^ GF16_EXP[((i + 1) * (j as usize)) % 15];
            } else {
                proof {
                    lemma_xor_zero(acc);
                }
            }
            j += 1;
        }
        let ghost before = s@;
        s[i] = acc;
        if acc != 0 {
            nonzero = 1;
            assert(s@[i as int] != 0);
        }
        proof {
            if exists|k: int| 0 <= k < i && #[trigger] before[k] != 0 {
                let k = choose|k: int| 0 <= k < i && #[trigger] before[k] != 0;
                assert(s@[k] != 0);
            }
        }
        i += 1;
    }
    proof {
        assert forall|k: int| 0 <= k < 64 implies GaloisField::Gf16.has(#[trigger] s@[k]) by {
            if k < 6 {
                lemma_format_syndrome_in_field(u, k, 15);
            }
        }
    }
    nonzero
}

/// Is `u` a format codeword, that is, are all its syndromes zero?
pub open spec fn is_format_codeword(u: u16) -> bool {
    !any_nonzero(spec_format_syndromes(u))
}

/// The word `u` with bit `i` flipped for each `i` below `k` at which the
/// locator `sigma` has a root.
pub open spec fn flip_roots(sigma: Seq<u8>, u: u16, k: int) -> u16
    decreases k,
{
    if k <= 0 {
        u
    } else {
        let v = flip_roots(sigma, u, k - 1);
        if spec_poly_eval(GaloisField::Gf16, sigma, GF16_EXP@[15 - (k - 1)]) == 0 {
            v ^ (1u16 << ((k - 1) as u16))
        } else {
            v
        }
    }
}

/// The format word that correcting `u` gives, or `None` where it fails. A
/// codeword is left as it is. In any other word the bits are flipped that
/// the locator of its syndromes points to, and the correction succeeds iff
/// the outcome is a codeword.
#[verifier::opaque]
pub open spec fn spec_correct_format(u: u16) -> Option<u16> {
    if is_format_codeword(u) {
        Some(u)
    } else {
        let sigma = spec_berlekamp_massey(GaloisField::Gf16, spec_format_syndromes(u), 6);
        let v = flip_roots(sigma, u, 15);
        if is_format_codeword(v) {
            Some(v)
        } else {
            None
        }
    }
}

/// Corrects up to three bit errors of the format word `f_ret` in place.
/// Where it fails the word is left as it was.
pub fn correct_format(f_ret: &mut u16) -> (r: Result<(), DecodeError>)
    ensures
        match spec_correct_format(*old(f_ret)) {
            Some(v) => r is Ok && *final(f_ret) == v,
            None => r == Err::<(), DecodeError>(DecodeError::FormatEcc) && *final(f_ret) == *old(
                f_ret,
            ),
        },
        r is Ok ==> is_format_codeword(*final(f_ret)),
{
    reveal(spec_correct_format);
    let mut u: u16 = *f_ret;
    let gf = GaloisField::Gf16;
    let mut s = [0u8; 64];
    let mut sigma = [0u8; 64];
    if format_syndromes(u, &mut s) == 0 {
        return Ok(());
    }
    berlekamp_massey(&s, 6, &gf, &mut sigma);
    let mut i: u16 = 0;
    while i < 15
        invariant
            i <= 15,
            gf == GaloisField::Gf16,
            gf.has_all(sigma@),
            u == flip_roots(sigma@, *old(f_ret), i as int),
        decreases 15 - i,
    {
        if poly_eval(&sigma, gf.exp((15 - i) as usize), &gf) == 0 {
            u = u ^ (1u16 << i);
        }
        i += 1;
    }
    if format_syndromes(u, &mut s) != 0 {
        return Err(DecodeError::FormatEcc);
    }
    *f_ret = u;
    Ok(())
}


/// A block that is a codeword is left as it is, and what a successful
/// correction leaves is a codeword.
pub proof fn lemma_correct_block_sound(data: Seq<u8>, bs: int, dw: int)
    ensures
        is_codeword(data, bs, bs - dw) ==> spec_correct_block(data, bs, dw) == (data, true),
        spec_correct_block(data, bs, dw).1 ==> is_codeword(
            spec_correct_block(data, bs, dw).0,
            bs,
            bs - dw,
        ),
        spec_correct_block(data, bs, dw).0.len() == data.len(),
{
    reveal(spec_correct_block);
}

/// Correcting a block a second time changes nothing: what a successful
/// correction leaves is corrected to itself.
pub proof fn lemma_correct_block_idempotent(data: Seq<u8>, bs: int, dw: int)
    requires
        spec_correct_block(data, bs, dw).1,
    ensures
        spec_correct_block(spec_correct_block(data, bs, dw).0, bs, dw) == (
            spec_correct_block(data, bs, dw).0,
            true,
        ),
{
    lemma_correct_block_sound(data, bs, dw);
    lemma_correct_block_sound(spec_correct_block(data, bs, dw).0, bs, dw);
}

/// A format word that is a codeword is left as it is, and what a
/// successful correction gives is a codeword: no word is ever corrected
/// to one that is none.
pub proof fn lemma_correct_format_sound(u: u16)
    ensures
        is_format_codeword(u) ==> spec_correct_format(u) == Some(u),
        spec_correct_format(u) matches Some(v) ==> is_format_codeword(v),
{
    reveal(spec_correct_format);
}

/// Correcting a format word a second time changes nothing.
pub proof fn lemma_correct_format_idempotent(u: u16)
    ensures
        spec_correct_format(u) matches Some(v) ==> spec_correct_format(v) == Some(v),
{
    lemma_correct_format_sound(u);
    match spec_correct_format(u) {
        Some(v) => {
            lemma_correct_format_sound(v);
        },
        None => {},
    }
}


/// Sums in a field of characteristic 2 may be taken in any order, and a
/// term taken twice is not taken.
proof fn lemma_xor_terms(a: u8, b: u8, t: u8)
    ensures
        (a ^ b) ^ 0u8 == (a ^ t) ^ (b ^ t),
        (a ^ b) ^ t == (a ^ t) ^ (b ^ 0u8),
        (a ^ b) ^ t == (a ^ 0u8) ^ (b ^ t),
        (a ^ b) ^ 0u8 == (a ^ 0u8) ^ (b ^ 0u8),
        0u8 ^ a == a,
{
    assert((a ^ b) ^ 0u8 == (a ^ t) ^ (b ^ t) && (a ^ b) ^ t == (a ^ t) ^ (b ^ 0u8) && (a ^ b) ^ t
        == (a ^ 0u8) ^ (b ^ t) && (a ^ b) ^ 0u8 == (a ^ 0u8) ^ (b ^ 0u8) && 0u8 ^ a == a)
        by (bit_vector);
}

/// A bit of the sum of two words is set iff it is set in one of them.
proof fn lemma_bit_of_sum(u: u16, e: u16, j: u16)
    requires
        j < 16,
    ensures
        format_bit(u ^ e, j) == (format_bit(u, j) != format_bit(e, j)),
{
    assert(j < 16 ==> ((((u ^ e) >> j) & 1 == 1) == ((((u >> j) & 1) == 1) != (((e >> j) & 1)
        == 1)))) by (bit_vector);
}

/// The syndromes are linear: those of the sum of two words are the sums
/// of theirs.
pub proof fn lemma_format_syndromes_linear(u: u16, e: u16, i: int, k: int)
    requires
        0 <= k <= 15,
    ensures
        format_syndrome_sum(u ^ e, i, k) == format_syndrome_sum(u, i, k) ^ format_syndrome_sum(
            e,
            i,
            k,
        ),
    decreases k,
{
    if k > 0 {
        lemma_format_syndromes_linear(u, e, i, k - 1);
        lemma_bit_of_sum(u, e, (k - 1) as u16);
        lemma_xor_terms(
            format_syndrome_sum(u, i, k - 1),
            format_syndrome_sum(e, i, k - 1),
            GF16_EXP@[((i + 1) * (k - 1)) % 15],
        );
    } else {
        lemma_xor_terms(0, 0, 0);
    }
}

/// Adding a codeword to a word leaves the syndromes of the word.
pub proof fn lemma_format_syndromes_of_error(u: u16, e: u16)
    requires
        is_format_codeword(u),
    ensures
        spec_format_syndromes(u ^ e) == spec_format_syndromes(e),
        spec_format_syndromes(e ^ u) == spec_format_syndromes(e),
{
    assert(u ^ e == e ^ u) by (bit_vector);
    assert forall|i: int| 0 <= i < 64 implies spec_format_syndromes(u ^ e)[i]
        == spec_format_syndromes(e)[i] by {
        if i < 6 {
            lemma_format_syndromes_linear(u, e, i, 15);
            assert(spec_format_syndromes(u)[i] == 0);
            lemma_xor_terms(format_syndrome_sum(e, i, 15), 0, 0);
        }
    }
    assert(spec_format_syndromes(u ^ e) =~= spec_format_syndromes(e));
}

/// Flipping the roots of a locator in the sum of two words is flipping them
/// in one of the words.
proof fn lemma_flip_roots_of_sum(sigma: Seq<u8>, u: u16, e: u16, k: int)
    requires
        0 <= k <= 15,
    ensures
        flip_roots(sigma, u ^ e, k) == flip_roots(sigma, e, k) ^ u,
    decreases k,
{
    if k > 0 {
        lemma_flip_roots_of_sum(sigma, u, e, k - 1);
        let v = flip_roots(sigma, e, k - 1);
        let m = 1u16 << ((k - 1) as u16);
        assert((v ^ u) ^ m == (v ^ m) ^ u) by (bit_vector);
    } else {
        assert(u ^ e == e ^ u) by (bit_vector);
    }
}

/// The correction of a format word depends on its error pattern alone:
/// adding a codeword to a word adds it to what the word is corrected to,
/// and a word that cannot be corrected stays one.
pub proof fn lemma_correct_format_shifts(u: u16, e: u16)
    requires
        is_format_codeword(u),
    ensures
        spec_correct_format(u ^ e) == match spec_correct_format(e) {
            Some(v) => Some(v ^ u),
            None => None::<u16>,
        },
{
    reveal(spec_correct_format);
    lemma_format_syndromes_of_error(u, e);
    assert(u ^ e == e ^ u) by (bit_vector);
    let sigma = spec_berlekamp_massey(GaloisField::Gf16, spec_format_syndromes(e), 6);
    lemma_flip_roots_of_sum(sigma, u, e, 15);
    lemma_format_syndromes_of_error(u, flip_roots(sigma, e, 15));
}

} // verus!
