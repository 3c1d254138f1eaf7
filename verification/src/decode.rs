use crate::error::DecodeError;
use crate::grid::{read_format, spec_read_format};
use crate::payload::{decode_payload, spec_decode_payload, state_of, Decoded};
use crate::quirc::{Code, Data, DataView, EccLevel};
use crate::stream::{
    bit_at, bits_of, codestream_ecc, corrected_words, data_cell_bits, msb_bit, read_data,
    Datastream, MAX_PAYLOAD, STREAM_BITS,
};
use vstd::prelude::*;

verus! {

/// Bit `i` of `bits` as a number, and 0 where `bits` has no such bit.
pub open spec fn bit_or_zero(bits: Seq<bool>, i: int) -> int {
    if 0 <= i < bits.len() && bits[i] {
        1
    } else {
        0
    }
}

/// The byte that the eight bits of `bits` from `at` on make up, the first
/// of them the highest.
pub open spec fn packed_byte(bits: Seq<bool>, at: int) -> u8 {
    (128 * bit_or_zero(bits, at) + 64 * bit_or_zero(bits, at + 1) + 32 * bit_or_zero(bits, at + 2)
        + 16 * bit_or_zero(bits, at + 3) + 8 * bit_or_zero(bits, at + 4) + 4 * bit_or_zero(
        bits,
        at + 5,
    ) + 2 * bit_or_zero(bits, at + 6) + bit_or_zero(bits, at + 7)) as u8
}

/// The codewords that the data bits of a symbol make up: the bits packed
/// into bytes, the first bit the highest of the first byte, and filled up
/// with zeros to the size of the buffer.
pub open spec fn packed(bits: Seq<bool>) -> Seq<u8> {
    Seq::new(8896, |k: int| packed_byte(bits, 8 * k))
}

/// The level and the mask pattern of a symbol: what the format word
/// beside the top-left finder gives or, where that cannot be corrected,
/// what its copy beside the other two finders gives.
pub open spec fn spec_format(code: Code) -> Option<(EccLevel, int)> {
    match spec_read_format(code, 0) {
        Some(f) => Some(f),
        None => spec_read_format(code, 1),
    }
}

/// The state in which the reading of a payload starts.
pub open spec fn fresh() -> Decoded {
    Decoded { error: None, ptr: 0, payload: Seq::empty(), data_type: None, eci: None }
}

/// What decoding a symbol gives: the grid size tells the version, the
/// format word the level and the mask pattern; the data bits of the cells
/// make up the codewords, whose blocks are corrected; and the data words
/// hold the segments of the payload.
pub open spec fn spec_decode(code: Code) -> Result<DataView, DecodeError> {
    let version = (code.size - 17) / 4;
    if (code.size - 17) % 4 != 0 {
        Err(DecodeError::InvalidGridSize)
    } else if version < 1 || version > 40 {
        Err(DecodeError::InvalidVersion)
    } else {
        match spec_format(code) {
            None => Err(DecodeError::FormatEcc),
            Some((level, mask)) => {
                let raw = packed(data_cell_bits(code, version, mask));
                match corrected_words(raw, version, level.index()) {
                    None => Err(DecodeError::DataEcc),
                    Some(words) => {
                        let bits = bits_of(words, 8 * (words.len() as int));
                        let end = spec_decode_payload(bits, version, fresh());
                        match end.error {
                            Some(e) => Err(e),
                            None => Ok(
                                DataView {
                                    version,
                                    ecc_level: level,
                                    mask,
                                    data_type: end.data_type,
                                    payload: end.payload,
                                    eci: end.eci,
                                },
                            ),
                        }
                    },
                }
            },
        }
    }
}

/// A byte is the number that its bits make up.
proof fn lemma_byte_of_bits(x: u8)
    ensures
        x == 128 * (if bit_at(x, 7) { 1int } else { 0int }) + 64 * (if bit_at(x, 6) { 1int } else { 0int })
            + 32 * (if bit_at(x, 5) { 1int } else { 0int }) + 16 * (if bit_at(x, 4) { 1int } else { 0int })
            + 8 * (if bit_at(x, 3) { 1int } else { 0int }) + 4 * (if bit_at(x, 2) { 1int } else { 0int })
            + 2 * (if bit_at(x, 1) { 1int } else { 0int }) + (if bit_at(x, 0) { 1int } else { 0int }),
{
    let b7 = (x >> 7u8) & 1u8;
    let b6 = (x >> 6u8) & 1u8;
    let b5 = (x >> 5u8) & 1u8;
    let b4 = (x >> 4u8) & 1u8;
    let b3 = (x >> 3u8) & 1u8;
    let b2 = (x >> 2u8) & 1u8;
    let b1 = (x >> 1u8) & 1u8;
    let b0 = (x >> 0u8) & 1u8;
    assert(x == 128 * b7 + 64 * b6 + 32 * b5 + 16 * b4 + 8 * b3 + 4 * b2 + 2 * b1 + b0 && b7 <= 1
        && b6 <= 1 && b5 <= 1 && b4 <= 1 && b3 <= 1 && b2 <= 1 && b1 <= 1 && b0 <= 1)
        by (bit_vector)
        requires
            b7 == (x >> 7u8) & 1u8,
            b6 == (x >> 6u8) & 1u8,
            b5 == (x >> 5u8) & 1u8,
            b4 == (x >> 4u8) & 1u8,
            b3 == (x >> 3u8) & 1u8,
            b2 == (x >> 2u8) & 1u8,
            b1 == (x >> 1u8) & 1u8,
            b0 == (x >> 0u8) & 1u8,
    ;
}

/// A bit read is the bit of the buffer at its place, and the buffer holds
/// no set bit where no bit is read.
proof fn lemma_bit_of_raw(ds: Datastream, k: int, q: int)
    requires
        ds.wf_raw(),
        0 <= k < 8896,
        0 <= q < 8,
    ensures
        bit_or_zero(ds.raw_bits(), 8 * k + q) == if bit_at(ds.raw@[k], (7 - q) as u8) {
            1int
        } else {
            0int
        },
{
    let i = 8 * k + q;
    assert(i / 8 == k && i % 8 == q);
    assert(msb_bit(ds.raw@, i) == bit_at(ds.raw@[k], (7 - q) as u8));
    if i < ds.data_bits {
        assert(ds.raw_bits()[i] == msb_bit(ds.raw@, i));
    } else {
        assert(!msb_bit(ds.raw@, i));
    }
}

/// A buffer that holds the bits read and nothing after them holds their
/// codewords.
proof fn lemma_raw_is_packed(ds: Datastream)
    requires
        ds.wf_raw(),
    ensures
        ds.raw@ == packed(ds.raw_bits()),
{
    let bits = ds.raw_bits();
    assert forall|k: int| 0 <= k < 8896 implies ds.raw@[k] == packed_byte(bits, 8 * k) by {
        lemma_byte_of_bits(ds.raw@[k]);
        lemma_bit_of_raw(ds, k, 0);
        lemma_bit_of_raw(ds, k, 1);
        lemma_bit_of_raw(ds, k, 2);
        lemma_bit_of_raw(ds, k, 3);
        lemma_bit_of_raw(ds, k, 4);
        lemma_bit_of_raw(ds, k, 5);
        lemma_bit_of_raw(ds, k, 6);
        lemma_bit_of_raw(ds, k, 7);
    }
    assert(ds.raw@ =~= packed(bits));
}

/// The bits of the data words are those of the buffer that holds them.
proof fn lemma_stream_of_words(ds: Datastream, words: Seq<u8>)
    requires
        words.len() <= 8896,
        ds.data_bits == 8 * words.len(),
        ds.data@.take(words.len() as int) == words,
    ensures
        ds.stream() == bits_of(words, 8 * (words.len() as int)),
{
    assert forall|k: int| 0 <= k < 8 * words.len() implies msb_bit(ds.data@, k) == msb_bit(
        words,
        k,
    ) by {
        assert(ds.data@.take(words.len() as int)[k / 8] == ds.data@[k / 8]);
    }
    assert(ds.stream() =~= bits_of(words, 8 * (words.len() as int)));
}

impl Code {
    /// Decodes the symbol: reads the format word, collects the codewords,
    /// corrects them and unpacks the payload.
    pub fn decode(&self) -> (r: Result<Data, DecodeError>)
        ensures
            match r {
                Ok(data) => {
                    &&& spec_decode(*self) == Ok::<DataView, DecodeError>(data@)
                    &&& 1 <= data.version <= 40
                    &&& self.size == 4 * data.version + 17
                    &&& 0 <= data.mask <= 7
                    &&& data.payload@.len() <= MAX_PAYLOAD
                },
                Err(e) => spec_decode(*self) == Err::<DataView, DecodeError>(e),
            },
    {
        let s: i64 = self.size as i64 - 17;
        let t: i64 = if s < 0 {
            -s
        } else {
            s
        };
        if t % 4 != 0 {
            return Err(DecodeError::InvalidGridSize);
        }
        if s < 4 || s > 160 {
            return Err(DecodeError::InvalidVersion);
        }
        let mut data = Data::default();
        data.version = (s / 4) as usize;
        let ghost version = data.version as int;
        match read_format(self, &mut data, 0) {
            Ok(()) => {},
            Err(_) => {
                match read_format(self, &mut data, 1) {
                    Ok(()) => {},
                    Err(e) => {
                        return Err(e);
                    },
                }
            },
        }
        let ghost level = data.ecc_level;
        let ghost mask = data.mask as int;
        assert(spec_format(*self) == Some((level, mask)));
        let mut ds = Datastream::new();
        assert(self.size * (self.size - 1) <= STREAM_BITS) by (nonlinear_arith)
            requires
                21 <= self.size <= 177,
        ;
        read_data(self, &mut data, &mut ds);
        proof {
            assert(ds.raw_bits() =~= data_cell_bits(*self, version, mask));
            lemma_raw_is_packed(ds);
        }
        match codestream_ecc(&mut data, &mut ds) {
            Ok(()) => {},
            Err(e) => {
                return Err(e);
            },
        }
        let ghost words = corrected_words(ds.raw@, version, level.index()).unwrap();
        proof {
            lemma_stream_of_words(ds, words);
            assert(state_of(data@, ds) == fresh());
        }
        match decode_payload(&mut data, &mut ds) {
            Ok(()) => {},
            Err(e) => {
                return Err(e);
            },
        }
        Ok(data)
    }
}

} // verus!
