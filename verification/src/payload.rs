use crate::error::DecodeError;
use crate::quirc::{Data, DataType, DataView};
use crate::stream::{
    bits_remaining, bits_value, lemma_field_bound, min_of, take_bits, Datastream, MAX_PAYLOAD,
};
use vstd::prelude::*;

verus! {

/// The characters of the alphanumeric mode, each at the place of its value.
pub const ALPHA_MAP: [u8; 45] = [
    0x30, 0x31, 0x32, 0x33, 0x34, 0x35, 0x36, 0x37, 0x38, 0x39, 0x41, 0x42, 0x43, 0x44, 0x45,
    0x46, 0x47, 0x48, 0x49, 0x4a, 0x4b, 0x4c, 0x4d, 0x4e, 0x4f, 0x50, 0x51, 0x52, 0x53, 0x54,
    0x55, 0x56, 0x57, 0x58, 0x59, 0x5a, 0x20, 0x24, 0x25, 0x2a, 0x2b, 0x2d, 0x2e, 0x2f, 0x3a,
];

/// `base` to the `e`.
pub open spec fn radix_power(base: int, e: int) -> int
    decreases e,
{
    if e <= 0 {
        1
    } else {
        base * radix_power(base, e - 1)
    }
}

/// The `k`-th of the last `n` digits of `value` to the base `base`, the
/// highest of them first.
pub open spec fn digit_at(value: int, base: int, n: int, k: int) -> int {
    (value / radix_power(base, n - 1 - k)) % base
}

/// The last `n` decimal digits of `value` as ASCII characters.
pub open spec fn decimal_digits(value: int, n: int) -> Seq<u8> {
    Seq::new(n as nat, |k: int| (48 + digit_at(value, 10, n, k)) as u8)
}

/// The last `n` digits of `value` to the base 45 as characters of the
/// alphanumeric mode.
pub open spec fn alpha_digits(value: int, n: int) -> Seq<u8> {
    Seq::new(n as nat, |k: int| ALPHA_MAP@[digit_at(value, 45, n, k)])
}

/// A power of a positive base is positive.
proof fn lemma_radix_power_positive(base: int, e: int)
    requires
        base >= 1,
    ensures
        radix_power(base, e) >= 1,
    decreases e,
{
    if e > 0 {
        lemma_radix_power_positive(base, e - 1);
        assert(base * radix_power(base, e - 1) >= 1) by (nonlinear_arith)
            requires
                base >= 1,
                radix_power(base, e - 1) >= 1,
        ;
    }
}

/// Taking a digit off a number that has lost `e` digits leaves the number
/// that has lost one more.
proof fn lemma_digit_step(value: int, base: int, e: int)
    requires
        value >= 0,
        base >= 2,
        e >= 0,
    ensures
        (value / radix_power(base, e)) / base == value / radix_power(base, e + 1),
        value / radix_power(base, e) >= 0,
        value / radix_power(base, 0) == value,
{
    lemma_radix_power_positive(base, e);
    vstd::arithmetic::div_mod::lemma_div_denominator(value, radix_power(base, e), base);
    assert(radix_power(base, e + 1) == base * radix_power(base, e));
    assert(radix_power(base, e) * base == base * radix_power(base, e)) by (nonlinear_arith);
    vstd::arithmetic::div_mod::lemma_div_pos_is_pos(value, radix_power(base, e));
    assert(radix_power(base, 0) == 1);
}

/// Appends `n` zero bytes to `payload`.
fn push_zeros(payload: &mut Vec<u8>, n: i32)
    requires
        0 <= n,
    ensures
        final(payload)@.len() == old(payload)@.len() + n,
        final(payload)@.take(old(payload)@.len() as int) == old(payload)@,
{
    let mut i: i32 = 0;
    while i < n
        invariant
            0 <= i <= n,
            payload@.len() == old(payload)@.len() + i,
            payload@.take(old(payload)@.len() as int) == old(payload)@,
        decreases n - i,
    {
        let ghost before = payload@;
        payload.push(0);
        assert(payload@.take(old(payload)@.len() as int) =~= before.take(
            old(payload)@.len() as int,
        ));
        i += 1;
    }
}

/// The data with `bytes` added to the payload and nothing else changed.
pub open spec fn with_bytes(data: DataView, bytes: Seq<u8>) -> DataView {
    DataView { payload: data.payload + bytes, ..data }
}

/// Reads a group of `bits` bits and appends its last `digits` decimal
/// digits to the payload. Returns 0, or -1 where fewer than `bits` bits
/// are left, and then reads and appends nothing.
pub fn numeric_tuple(data: &mut Data, ds: &mut Datastream, bits: i32, digits: i32) -> (r: i32)
    requires
        old(ds).wf_read(),
        0 <= bits <= 30,
        0 <= digits,
    ensures
        old(ds).remaining() < bits ==> r == -1 && *final(ds) == *old(ds) && final(data)@ == old(
            data,
        )@,
        old(ds).remaining() >= bits ==> {
            &&& r == 0
            &&& final(ds).ptr == old(ds).ptr + bits
            &&& final(ds).data_bits == old(ds).data_bits
            &&& final(ds).data == old(ds).data
            &&& final(ds).raw == old(ds).raw
            &&& final(data)@ == with_bytes(
                old(data)@,
                decimal_digits(bits_value(old(ds).stream(), old(ds).ptr as int, bits as int), digits as int),
            )
        },
{
    if bits_remaining(ds) < bits {
        return -1;
    }
    let tuple: i32 = take_bits(ds, bits);
    let start: usize = data.payload.len();
    let ghost before = data.payload@;
    proof {
        crate::stream::lemma_bits_value_bound(old(ds).stream(), old(ds).ptr as int, bits as int);
    }
    push_zeros(&mut data.payload, digits);
    let end: usize = data.payload.len();
    let mut i: i32 = digits - 1;
    let mut t: i32 = tuple;
    proof {
        lemma_digit_step(tuple as int, 10, 0);
    }
    while i >= 0
        invariant
            -1 <= i < digits,
            0 <= tuple,
            start == before.len(),
            end == start + digits,
            data.payload@.len() == start + digits,
            data.payload@.take(start as int) == before,
            t == (tuple as int) / radix_power(10, digits - 1 - i),
            t >= 0,
            forall|k: int|
                i < k < digits ==> data.payload@[start + k] == (48 + digit_at(
                    tuple as int,
                    10,
                    digits as int,
                    k,
                )) as u8,
            data.version == old(data).version,
            data.ecc_level == old(data).ecc_level,
            data.mask == old(data).mask,
            data.data_type == old(data).data_type,
            data.eci == old(data).eci,
        decreases i + 1,
    {
        let ghost seen = data.payload@;
        data.payload[start + i as usize] = (t % 10 + 48) as u8;
        proof {
            lemma_digit_step(tuple as int, 10, digits - 1 - i);
            assert(data.payload@.take(start as int) =~= seen.take(start as int));
        }
        t = t / 10;
        i -= 1;
    }
    assert(data.payload@ =~= before + decimal_digits(tuple as int, digits as int));
    0
}

/// Reads a group of `bits` bits and appends its last `digits` digits to
/// the base 45, as characters of the alphanumeric mode, to the payload.
/// Returns 0, or -1 where fewer than `bits` bits are left, and then reads
/// and appends nothing.
pub fn alpha_tuple(data: &mut Data, ds: &mut Datastream, bits: i32, digits: i32) -> (r: i32)
    requires
        old(ds).wf_read(),
        0 <= bits <= 30,
        0 <= digits,
    ensures
        old(ds).remaining() < bits ==> r == -1 && *final(ds) == *old(ds) && final(data)@ == old(
            data,
        )@,
        old(ds).remaining() >= bits ==> {
            &&& r == 0
            &&& final(ds).ptr == old(ds).ptr + bits
            &&& final(ds).data_bits == old(ds).data_bits
            &&& final(ds).data == old(ds).data
            &&& final(ds).raw == old(ds).raw
            &&& final(data)@ == with_bytes(
                old(data)@,
                alpha_digits(bits_value(old(ds).stream(), old(ds).ptr as int, bits as int), digits as int),
            )
        },
{
    if bits_remaining(ds) < bits {
        return -1;
    }
    let tuple: i32 = take_bits(ds, bits);
    let start: usize = data.payload.len();
    let ghost before = data.payload@;
    proof {
        crate::stream::lemma_bits_value_bound(old(ds).stream(), old(ds).ptr as int, bits as int);
    }
    push_zeros(&mut data.payload, digits);
    let end: usize = data.payload.len();
    let mut i: i32 = 0;
    let mut t: i32 = tuple;
    proof {
        lemma_digit_step(tuple as int, 45, 0);
    }
    while i < digits
        invariant
            0 <= i <= digits,
            0 <= tuple,
            start == before.len(),
            end == start + digits,
            data.payload@.len() == start + digits,
            data.payload@.take(start as int) == before,
            t == (tuple as int) / radix_power(45, i as int),
            t >= 0,
            forall|k: int|
                digits - 1 - i < k < digits ==> data.payload@[start + k] == ALPHA_MAP@[digit_at(
                    tuple as int,
                    45,
                    digits as int,
                    k,
                )],
            data.version == old(data).version,
            data.ecc_level == old(data).ecc_level,
            data.mask == old(data).mask,
            data.data_type == old(data).data_type,
            data.eci == old(data).eci,
        decreases digits - i,
    {
        let ghost seen = data.payload@;
        data.payload[start + (digits - i - 1) as usize] = ALPHA_MAP[(t % 45) as usize];
        proof {
            lemma_digit_step(tuple as int, 45, i as int);
            assert(data.payload@.take(start as int) =~= seen.take(start as int));
        }
        t = t / 45;
        i += 1;
    }
    assert(data.payload@ =~= before + alpha_digits(tuple as int, digits as int));
    0
}


/// What reading a segment gives: the error that ends it, if any, the
/// place up to which the bits are read, and the bytes it adds to the
/// payload. A segment that fails may have read bits and added bytes
/// before it failed.
pub struct Segment {
    pub error: Option<DecodeError>,
    pub ptr: int,
    pub bytes: Seq<u8>,
}

/// The segment `seg` with `bytes` added before its own.
pub open spec fn after(bytes: Seq<u8>, seg: Segment) -> Segment {
    Segment { bytes: bytes + seg.bytes, ..seg }
}

/// The number of bits that a read of `len` bits at `ptr` takes: `len`,
/// or as many as are left where that is fewer.
pub open spec fn field_len(bits: Seq<bool>, ptr: int, len: int) -> int {
    min_of(len, bits.len() - ptr)
}

/// The number that a read of `len` bits at `ptr` gives.
pub open spec fn field(bits: Seq<bool>, ptr: int, len: int) -> int {
    bits_value(bits, ptr, field_len(bits, ptr, len))
}

/// Has the reading of a segment left the stream and the data as `seg`
/// says, and is `r` its outcome?
pub open spec fn segment_done(
    d0: DataView,
    s0: Datastream,
    d1: DataView,
    s1: Datastream,
    r: Result<(), DecodeError>,
    seg: Segment,
) -> bool {
    &&& s1.ptr == seg.ptr
    &&& s1.data_bits == s0.data_bits
    &&& s1.data == s0.data
    &&& s1.raw == s0.raw
    &&& s1.wf_read()
    &&& d1 == with_bytes(d0, seg.bytes)
    &&& d1.payload.len() <= MAX_PAYLOAD
    &&& match seg.error {
        None => r is Ok,
        Some(e) => r == Err::<(), DecodeError>(e),
    }
}

/// The width of the character count of a numeric segment.
pub open spec fn numeric_count_bits(version: int) -> int {
    if version < 10 {
        10
    } else if version < 27 {
        12
    } else {
        14
    }
}

/// The digits of a numeric segment of `count` digits at `ptr`: three in
/// each group of 10 bits, then two in 7 bits or one in 4. It fails where
/// the bits of a group are not all there.
pub open spec fn numeric_body(bits: Seq<bool>, ptr: int, count: int) -> Segment
    decreases count,
{
    if count >= 3 {
        if bits.len() - ptr < 10 {
            Segment { error: Some(DecodeError::DataUnderflow), ptr, bytes: Seq::empty() }
        } else {
            after(
                decimal_digits(bits_value(bits, ptr, 10), 3),
                numeric_body(bits, ptr + 10, count - 3),
            )
        }
    } else if count == 2 {
        if bits.len() - ptr < 7 {
            Segment { error: Some(DecodeError::DataUnderflow), ptr, bytes: Seq::empty() }
        } else {
            Segment { error: None, ptr: ptr + 7, bytes: decimal_digits(bits_value(bits, ptr, 7), 2) }
        }
    } else if count == 1 {
        if bits.len() - ptr < 4 {
            Segment { error: Some(DecodeError::DataUnderflow), ptr, bytes: Seq::empty() }
        } else {
            Segment { error: None, ptr: ptr + 4, bytes: decimal_digits(bits_value(bits, ptr, 4), 1) }
        }
    } else {
        Segment { error: None, ptr, bytes: Seq::empty() }
    }
}

/// A numeric segment at `ptr`, in a symbol of the given version whose
/// payload holds `payload_len` bytes so far: the character count, then the
/// digits. It fails with an overflow where the payload could not hold the
/// digits and one byte more.
pub open spec fn spec_decode_numeric(bits: Seq<bool>, ptr: int, version: int, payload_len: int) -> Segment {
    let n = field_len(bits, ptr, numeric_count_bits(version));
    let count = bits_value(bits, ptr, n);
    if payload_len + count + 1 > MAX_PAYLOAD {
        Segment { error: Some(DecodeError::DataOverflow), ptr: ptr + n, bytes: Seq::empty() }
    } else {
        numeric_body(bits, ptr + n, count)
    }
}

/// Reads a numeric segment and appends its digits to the payload.
pub fn decode_numeric(data: &mut Data, ds: &mut Datastream) -> (r: Result<(), DecodeError>)
    requires
        old(ds).wf_read(),
        old(data).payload@.len() <= MAX_PAYLOAD,
    ensures
        segment_done(
            old(data)@,
            *old(ds),
            final(data)@,
            *final(ds),
            r,
            spec_decode_numeric(
                old(ds).stream(),
                old(ds).ptr as int,
                old(data).version as int,
                old(data).payload@.len() as int,
            ),
        ),
{
    let ghost bits = ds.stream();
    let ghost before = data@;
    let mut nbits: i32 = 14;
    if data.version < 10 {
        nbits = 10;
    } else if data.version < 27 {
        nbits = 12;
    }
    proof {
        lemma_field_bound(bits, ds.ptr as int, field_len(bits, ds.ptr as int, nbits as int), 14);
        vstd::arithmetic::power2::lemma2_to64();
    }
    let mut count: i32 = take_bits(ds, nbits);
    if data.payload.len() as i32 + count + 1 > MAX_PAYLOAD as i32 {
        assert(data@ == with_bytes(before, Seq::empty()));
        return Err(DecodeError::DataOverflow);
    }
    let ghost goal = numeric_body(bits, ds.ptr as int, count as int);
    let ghost mut done: Seq<u8> = Seq::empty();
    assert(before.payload + done =~= before.payload);
    assert(after(done, goal).bytes =~= goal.bytes);
    while count >= 3
        invariant
            0 <= count,
            before == old(data)@,
            goal == spec_decode_numeric(
                old(ds).stream(),
                old(ds).ptr as int,
                old(data).version as int,
                old(data).payload@.len() as int,
            ),
            ds.wf_read(),
            ds.data_bits == old(ds).data_bits,
            ds.data == old(ds).data,
            ds.raw == old(ds).raw,
            bits == ds.stream(),
            data@ == with_bytes(before, done),
            before.payload.len() + done.len() + count + 1 <= MAX_PAYLOAD,
            after(done, numeric_body(bits, ds.ptr as int, count as int)) == goal,
        decreases count,
    {
        let ghost digits = decimal_digits(bits_value(bits, ds.ptr as int, 10), 3);
        let ghost rest = numeric_body(bits, ds.ptr + 10, count - 3);
        if numeric_tuple(data, ds, 10, 3) < 0 {
            assert(done + Seq::<u8>::empty() =~= done);
            return Err(DecodeError::DataUnderflow);
        }
        proof {
            assert((done + digits) + rest.bytes =~= done + (digits + rest.bytes));
            assert(before.payload + (done + digits) =~= before.payload + done + digits);
            done = done + digits;
        }
        count -= 3;
    }
    if count >= 2 {
        let ghost digits = decimal_digits(bits_value(bits, ds.ptr as int, 7), 2);
        if numeric_tuple(data, ds, 7, 2) < 0 {
            assert(done + Seq::<u8>::empty() =~= done);
            return Err(DecodeError::DataUnderflow);
        }
        assert(before.payload + (done + digits) =~= before.payload + done + digits);
        return Ok(());
    }
    if count != 0 {
        let ghost digits = decimal_digits(bits_value(bits, ds.ptr as int, 4), 1);
        if numeric_tuple(data, ds, 4, 1) < 0 {
            assert(done + Seq::<u8>::empty() =~= done);
            return Err(DecodeError::DataUnderflow);
        }
        assert(before.payload + (done + digits) =~= before.payload + done + digits);
        return Ok(());
    }
    assert(done + Seq::<u8>::empty() =~= done);
    Ok(())
}


/// The width of the character count of an alphanumeric segment.
pub open spec fn alpha_count_bits(version: int) -> int {
    if version < 10 {
        9
    } else if version < 27 {
        11
    } else {
        13
    }
}

/// The characters of an alphanumeric segment of `count` characters at
/// `ptr`: two in each group of 11 bits, then one in 6. It fails where the
/// bits of a group are not all there.
pub open spec fn alpha_body(bits: Seq<bool>, ptr: int, count: int) -> Segment
    decreases count,
{
    if count >= 2 {
        if bits.len() - ptr < 11 {
            Segment { error: Some(DecodeError::DataUnderflow), ptr, bytes: Seq::empty() }
        } else {
            after(
                alpha_digits(bits_value(bits, ptr, 11), 2),
                alpha_body(bits, ptr + 11, count - 2),
            )
        }
    } else if count == 1 {
        if bits.len() - ptr < 6 {
            Segment { error: Some(DecodeError::DataUnderflow), ptr, bytes: Seq::empty() }
        } else {
            Segment { error: None, ptr: ptr + 6, bytes: alpha_digits(bits_value(bits, ptr, 6), 1) }
        }
    } else {
        Segment { error: None, ptr, bytes: Seq::empty() }
    }
}

/// An alphanumeric segment at `ptr`: the character count, then the
/// characters. It fails with an overflow where the payload could not hold
/// the characters and one byte more.
pub open spec fn spec_decode_alpha(bits: Seq<bool>, ptr: int, version: int, payload_len: int) -> Segment {
    let n = field_len(bits, ptr, alpha_count_bits(version));
    let count = bits_value(bits, ptr, n);
    if payload_len + count + 1 > MAX_PAYLOAD {
        Segment { error: Some(DecodeError::DataOverflow), ptr: ptr + n, bytes: Seq::empty() }
    } else {
        alpha_body(bits, ptr + n, count)
    }
}

/// Reads an alphanumeric segment and appends its characters to the
/// payload.
pub fn decode_alpha(data: &mut Data, ds: &mut Datastream) -> (r: Result<(), DecodeError>)
    requires
        old(ds).wf_read(),
        old(data).payload@.len() <= MAX_PAYLOAD,
    ensures
        segment_done(
            old(data)@,
            *old(ds),
            final(data)@,
            *final(ds),
            r,
            spec_decode_alpha(
                old(ds).stream(),
                old(ds).ptr as int,
                old(data).version as int,
                old(data).payload@.len() as int,
            ),
        ),
{
    let ghost bits = ds.stream();
    let ghost before = data@;
    let mut nbits: i32 = 13;
    if data.version < 10 {
        nbits = 9;
    } else if data.version < 27 {
        nbits = 11;
    }
    proof {
        lemma_field_bound(bits, ds.ptr as int, field_len(bits, ds.ptr as int, nbits as int), 13);
        vstd::arithmetic::power2::lemma2_to64();
    }
    let mut count: i32 = take_bits(ds, nbits);
    if data.payload.len() as i32 + count + 1 > MAX_PAYLOAD as i32 {
        assert(data@ == with_bytes(before, Seq::empty()));
        return Err(DecodeError::DataOverflow);
    }
    let ghost goal = alpha_body(bits, ds.ptr as int, count as int);
    let ghost mut done: Seq<u8> = Seq::empty();
    assert(before.payload + done =~= before.payload);
    assert(after(done, goal).bytes =~= goal.bytes);
    while count >= 2
        invariant
            0 <= count,
            before == old(data)@,
            goal == spec_decode_alpha(
                old(ds).stream(),
                old(ds).ptr as int,
                old(data).version as int,
                old(data).payload@.len() as int,
            ),
            ds.wf_read(),
            ds.data_bits == old(ds).data_bits,
            ds.data == old(ds).data,
            ds.raw == old(ds).raw,
            bits == ds.stream(),
            data@ == with_bytes(before, done),
            before.payload.len() + done.len() + count + 1 <= MAX_PAYLOAD,
            after(done, alpha_body(bits, ds.ptr as int, count as int)) == goal,
        decreases count,
    {
        let ghost digits = alpha_digits(bits_value(bits, ds.ptr as int, 11), 2);
        let ghost rest = alpha_body(bits, ds.ptr + 11, count - 2);
        if alpha_tuple(data, ds, 11, 2) < 0 {
            assert(done + Seq::<u8>::empty() =~= done);
            return Err(DecodeError::DataUnderflow);
        }
        proof {
            assert((done + digits) + rest.bytes =~= done + (digits + rest.bytes));
            assert(before.payload + (done + digits) =~= before.payload + done + digits);
            done = done + digits;
        }
        count -= 2;
    }
    if count != 0 {
        let ghost digits = alpha_digits(bits_value(bits, ds.ptr as int, 6), 1);
        if alpha_tuple(data, ds, 6, 1) < 0 {
            assert(done + Seq::<u8>::empty() =~= done);
            return Err(DecodeError::DataUnderflow);
        }
        assert(before.payload + (done + digits) =~= before.payload + done + digits);
        return Ok(());
    }
    assert(done + Seq::<u8>::empty() =~= done);
    Ok(())
}

/// The width of the character count of a byte segment.
pub open spec fn byte_count_bits(version: int) -> int {
    if version < 10 {
        8
    } else {
        16
    }
}

/// The `count` bytes that lie in the bits from `ptr` on, eight bits each.
pub open spec fn bytes_at(bits: Seq<bool>, ptr: int, count: int) -> Seq<u8> {
    Seq::new(count as nat, |k: int| bits_value(bits, ptr + 8 * k, 8) as u8)
}

/// A byte segment at `ptr`: the character count, then as many bytes. It
/// fails with an overflow where the payload could not hold the bytes and
/// one byte more, and with an underflow where the bits of the bytes are
/// not all there.
pub open spec fn spec_decode_byte(bits: Seq<bool>, ptr: int, version: int, payload_len: int) -> Segment {
    let n = field_len(bits, ptr, byte_count_bits(version));
    let count = bits_value(bits, ptr, n);
    let p = ptr + n;
    if payload_len + count + 1 > MAX_PAYLOAD {
        Segment { error: Some(DecodeError::DataOverflow), ptr: p, bytes: Seq::empty() }
    } else if bits.len() - p < count * 8 {
        Segment { error: Some(DecodeError::DataUnderflow), ptr: p, bytes: Seq::empty() }
    } else {
        Segment { error: None, ptr: p + 8 * count, bytes: bytes_at(bits, p, count) }
    }
}

/// Reads a byte segment and appends its bytes to the payload.
pub fn decode_byte(data: &mut Data, ds: &mut Datastream) -> (r: Result<(), DecodeError>)
    requires
        old(ds).wf_read(),
        old(data).payload@.len() <= MAX_PAYLOAD,
    ensures
        segment_done(
            old(data)@,
            *old(ds),
            final(data)@,
            *final(ds),
            r,
            spec_decode_byte(
                old(ds).stream(),
                old(ds).ptr as int,
                old(data).version as int,
                old(data).payload@.len() as int,
            ),
        ),
{
    let ghost bits = ds.stream();
    let ghost before = data@;
    let nbits: i32 = if data.version < 10 {
        8
    } else {
        16
    };
    proof {
        lemma_field_bound(bits, ds.ptr as int, field_len(bits, ds.ptr as int, nbits as int), 16);
        vstd::arithmetic::power2::lemma2_to64();
    }
    let count: i32 = take_bits(ds, nbits);
    if data.payload.len() as i32 + count + 1 > MAX_PAYLOAD as i32 {
        assert(data@ == with_bytes(before, Seq::empty()));
        return Err(DecodeError::DataOverflow);
    }
    if bits_remaining(ds) < count * 8 {
        assert(data@ == with_bytes(before, Seq::empty()));
        return Err(DecodeError::DataUnderflow);
    }
    let ghost p = ds.ptr as int;
    let mut i: i32 = 0;
    assert(before.payload + bytes_at(bits, p, 0) =~= before.payload);
    while i < count
        invariant
            0 <= i <= count,
            ds.wf_read(),
            ds.ptr == p + 8 * i,
            ds.data_bits - p >= count * 8,
            ds.data_bits == old(ds).data_bits,
            ds.data == old(ds).data,
            ds.raw == old(ds).raw,
            bits == ds.stream(),
            data@ == with_bytes(before, bytes_at(bits, p, i as int)),
        decreases count - i,
    {
        proof {
            lemma_field_bound(bits, ds.ptr as int, 8, 8);
            vstd::arithmetic::power2::lemma2_to64();
        }
        let b = take_bits(ds, 8) as u8;
        data.payload.push(b);
        assert(before.payload + bytes_at(bits, p, i + 1) =~= (before.payload + bytes_at(
            bits,
            p,
            i as int,
        )).push(b));
        i += 1;
    }
    Ok(())
}

/// The width of the character count of a Kanji segment.
pub open spec fn kanji_count_bits(version: int) -> int {
    if version < 10 {
        8
    } else if version < 27 {
        10
    } else {
        12
    }
}

/// The Shift-JIS code of the Kanji character that the 13-bit number `d`
/// stands for.
pub open spec fn shift_jis(d: int) -> int {
    let m = (d / 0xc0) * 256 + d % 0xc0;
    if m + 0x8140 <= 0x9ffc {
        m + 0x8140
    } else {
        m + 0xc140
    }
}

/// The `count` Kanji characters that lie in the bits from `ptr` on, 13
/// bits each, as Shift-JIS: two bytes a character, the high byte first.
pub open spec fn kanji_at(bits: Seq<bool>, ptr: int, count: int) -> Seq<u8> {
    Seq::new(
        (2 * count) as nat,
        |k: int|
            {
                let code = shift_jis(bits_value(bits, ptr + 13 * (k / 2), 13));
                if k % 2 == 0 {
                    (code / 256) as u8
                } else {
                    (code % 256) as u8
                }
            },
    )
}

/// A Kanji segment at `ptr`: the character count, then as many characters.
/// It fails with an overflow where the payload could not hold the bytes of
/// the characters and one byte more, and with an underflow where the bits
/// of the characters are not all there.
pub open spec fn spec_decode_kanji(bits: Seq<bool>, ptr: int, version: int, payload_len: int) -> Segment {
    let n = field_len(bits, ptr, kanji_count_bits(version));
    let count = bits_value(bits, ptr, n);
    let p = ptr + n;
    if payload_len + count * 2 + 1 > MAX_PAYLOAD {
        Segment { error: Some(DecodeError::DataOverflow), ptr: p, bytes: Seq::empty() }
    } else if bits.len() - p < count * 13 {
        Segment { error: Some(DecodeError::DataUnderflow), ptr: p, bytes: Seq::empty() }
    } else {
        Segment { error: None, ptr: p + 13 * count, bytes: kanji_at(bits, p, count) }
    }
}

/// Reads a Kanji segment and appends its characters to the payload as
/// Shift-JIS.
pub fn decode_kanji(data: &mut Data, ds: &mut Datastream) -> (r: Result<(), DecodeError>)
    requires
        old(ds).wf_read(),
        old(data).payload@.len() <= MAX_PAYLOAD,
    ensures
        segment_done(
            old(data)@,
            *old(ds),
            final(data)@,
            *final(ds),
            r,
            spec_decode_kanji(
                old(ds).stream(),
                old(ds).ptr as int,
                old(data).version as int,
                old(data).payload@.len() as int,
            ),
        ),
{
    let ghost bits = ds.stream();
    let ghost before = data@;
    let mut nbits: i32 = 12;
    if data.version < 10 {
        nbits = 8;
    } else if data.version < 27 {
        nbits = 10;
    }
    proof {
        lemma_field_bound(bits, ds.ptr as int, field_len(bits, ds.ptr as int, nbits as int), 12);
        vstd::arithmetic::power2::lemma2_to64();
    }
    let count: i32 = take_bits(ds, nbits);
    if data.payload.len() as i32 + count * 2 + 1 > MAX_PAYLOAD as i32 {
        assert(data@ == with_bytes(before, Seq::empty()));
        return Err(DecodeError::DataOverflow);
    }
    if bits_remaining(ds) < count * 13 {
        assert(data@ == with_bytes(before, Seq::empty()));
        return Err(DecodeError::DataUnderflow);
    }
    let ghost p = ds.ptr as int;
    let mut i: i32 = 0;
    assert(before.payload + kanji_at(bits, p, 0) =~= before.payload);
    while i < count
        invariant
            0 <= i <= count,
            ds.wf_read(),
            ds.ptr == p + 13 * i,
            ds.data_bits - p >= count * 13,
            ds.data_bits == old(ds).data_bits,
            ds.data == old(ds).data,
            ds.raw == old(ds).raw,
            bits == ds.stream(),
            data@ == with_bytes(before, kanji_at(bits, p, i as int)),
        decreases count - i,
    {
        proof {
            lemma_field_bound(bits, ds.ptr as int, 13, 13);
            vstd::arithmetic::power2::lemma2_to64();
        }
        let d: i32 = take_bits(ds, 13);
        let msb: i32 = d / 0xc0;
        let lsb: i32 = d % 0xc0;
        let intermediate: i32 = msb * 256 + lsb;
        let sjw: i32 = if intermediate + 0x8140 <= 0x9ffc {
            intermediate + 0x8140
        } else {
            intermediate + 0xc140
        };
        assert(sjw == shift_jis(d as int));
        let hi = (sjw / 256) as u8;
        let lo = (sjw % 256) as u8;
        data.payload.push(hi);
        data.payload.push(lo);
        assert(before.payload + kanji_at(bits, p, i + 1) =~= (before.payload + kanji_at(
            bits,
            p,
            i as int,
        )).push(hi).push(lo));
        i += 1;
    }
    Ok(())
}

/// What reading an ECI designator gives: the error that ends it, if any,
/// the place up to which the bits are read, and the assignment number as
/// far as it is read.
pub struct Designator {
    pub error: Option<DecodeError>,
    pub ptr: int,
    pub eci: Option<u32>,
}

/// An ECI designator at `ptr`, after one that gave `prev`: a first byte,
/// and one more byte where the first begins with the bits 10, or two more
/// where it begins with 110. The assignment number is the bytes read as
/// one number, the first the highest. It fails with an underflow where a
/// byte is not all there.
pub open spec fn spec_decode_eci(bits: Seq<bool>, ptr: int, prev: Option<u32>) -> Designator {
    if bits.len() - ptr < 8 {
        Designator { error: Some(DecodeError::DataUnderflow), ptr, eci: prev }
    } else {
        let first = bits_value(bits, ptr, 8);
        let left = bits.len() - (ptr + 8);
        if 0x80 <= first < 0xc0 {
            if left < 8 {
                Designator {
                    error: Some(DecodeError::DataUnderflow),
                    ptr: ptr + 8,
                    eci: Some(first as u32),
                }
            } else {
                Designator {
                    error: None,
                    ptr: ptr + 16,
                    eci: Some((first * 0x100 + bits_value(bits, ptr + 8, 8)) as u32),
                }
            }
        } else if 0xc0 <= first < 0xe0 {
            if left < 16 {
                Designator {
                    error: Some(DecodeError::DataUnderflow),
                    ptr: ptr + 8,
                    eci: Some(first as u32),
                }
            } else {
                Designator {
                    error: None,
                    ptr: ptr + 24,
                    eci: Some((first * 0x1_0000 + bits_value(bits, ptr + 8, 16)) as u32),
                }
            }
        } else {
            Designator { error: None, ptr: ptr + 8, eci: Some(first as u32) }
        }
    }
}

/// Reads an ECI designator and writes its assignment number to `data`.
pub fn decode_eci(data: &mut Data, ds: &mut Datastream) -> (r: Result<(), DecodeError>)
    requires
        old(ds).wf_read(),
    ensures
        ({
            let des = spec_decode_eci(old(ds).stream(), old(ds).ptr as int, old(data).eci);
            &&& final(ds).ptr == des.ptr
            &&& final(ds).data_bits == old(ds).data_bits
            &&& final(ds).data == old(ds).data
            &&& final(ds).raw == old(ds).raw
            &&& final(ds).wf_read()
            &&& final(data)@ == (DataView { eci: des.eci, ..old(data)@ })
            &&& match des.error {
                None => r is Ok,
                Some(e) => r == Err::<(), DecodeError>(e),
            }
        }),
{
    let ghost bits = ds.stream();
    if bits_remaining(ds) < 8 {
        return Err(DecodeError::DataUnderflow);
    }
    proof {
        lemma_field_bound(bits, ds.ptr as int, 8, 8);
        lemma_field_bound(bits, ds.ptr + 8, 8, 8);
        lemma_field_bound(bits, ds.ptr + 8, 16, 16);
        vstd::arithmetic::power2::lemma2_to64();
    }
    let first: u32 = take_bits(ds, 8) as u32;
    data.eci = Some(first);
    if 0x80 <= first && first < 0xc0 {
        if bits_remaining(ds) < 8 {
            return Err(DecodeError::DataUnderflow);
        }
        let next: u32 = take_bits(ds, 8) as u32;
        data.eci = Some(first * 0x100 + next);
    } else if 0xc0 <= first && first < 0xe0 {
        if bits_remaining(ds) < 16 {
            return Err(DecodeError::DataUnderflow);
        }
        let next: u32 = take_bits(ds, 16) as u32;
        data.eci = Some(first * 0x1_0000 + next);
    }
    Ok(())
}


/// What reading the segments of a payload gives, or has given so far: the
/// error that ends it, if any, the place up to which the bits are read,
/// the payload, the highest-valued kind among the segments, and the ECI
/// assignment number.
pub struct Decoded {
    pub error: Option<DecodeError>,
    pub ptr: int,
    pub payload: Seq<u8>,
    pub data_type: Option<DataType>,
    pub eci: Option<u32>,
}

/// The mode indicator of the highest-valued kind so far, or 0.
pub open spec fn mode_of(kind: Option<DataType>) -> int {
    match kind {
        Some(t) => t.mode(),
        None => 0,
    }
}

/// The highest-valued kind once a segment with the mode indicator `mode`
/// is read: the kind of that segment where its indicator is a single bit
/// and higher than that of `kind`, else `kind`.
pub open spec fn strongest(kind: Option<DataType>, mode: int) -> Option<DataType> {
    if (mode == 1 || mode == 2 || mode == 4 || mode == 8) && mode > mode_of(kind) {
        DataType::spec_from_i32(mode)
    } else {
        kind
    }
}

/// The segment with the mode indicator `mode` at `ptr`.
pub open spec fn spec_segment(
    mode: int,
    bits: Seq<bool>,
    ptr: int,
    version: int,
    payload_len: int,
) -> Segment {
    if mode == 1 {
        spec_decode_numeric(bits, ptr, version, payload_len)
    } else if mode == 2 {
        spec_decode_alpha(bits, ptr, version, payload_len)
    } else if mode == 4 {
        spec_decode_byte(bits, ptr, version, payload_len)
    } else {
        spec_decode_kanji(bits, ptr, version, payload_len)
    }
}

/// The state after the segment or designator with the mode indicator
/// `mode` is read at `ptr`, from the state `st`.
pub open spec fn spec_step(bits: Seq<bool>, version: int, st: Decoded, mode: int, ptr: int) -> Decoded {
    if mode == 7 {
        let des = spec_decode_eci(bits, ptr, st.eci);
        Decoded { error: des.error, ptr: des.ptr, eci: des.eci, ..st }
    } else {
        let seg = spec_segment(mode, bits, ptr, version, st.payload.len() as int);
        Decoded {
            error: seg.error,
            ptr: seg.ptr,
            payload: st.payload + seg.bytes,
            data_type: if seg.error is None {
                strongest(st.data_type, mode)
            } else {
                st.data_type
            },
            eci: st.eci,
        }
    }
}

/// Is `mode` the indicator of a segment or of a designator?
pub open spec fn is_mode(mode: int) -> bool {
    mode == 1 || mode == 2 || mode == 4 || mode == 7 || mode == 8
}

/// No digits are read backwards.
proof fn lemma_numeric_advances(bits: Seq<bool>, ptr: int, count: int)
    requires
        ptr <= bits.len(),
    ensures
        ptr <= numeric_body(bits, ptr, count).ptr <= bits.len(),
    decreases count,
{
    if count >= 3 && bits.len() - ptr >= 10 {
        lemma_numeric_advances(bits, ptr + 10, count - 3);
    }
}

/// No characters are read backwards.
proof fn lemma_alpha_advances(bits: Seq<bool>, ptr: int, count: int)
    requires
        ptr <= bits.len(),
    ensures
        ptr <= alpha_body(bits, ptr, count).ptr <= bits.len(),
    decreases count,
{
    if count >= 2 && bits.len() - ptr >= 11 {
        lemma_alpha_advances(bits, ptr + 11, count - 2);
    }
}

/// A number of no bits or more is not negative.
proof fn lemma_bits_value_nonnegative(bits: Seq<bool>, from: int, n: int)
    ensures
        bits_value(bits, from, n) >= 0,
    decreases n,
{
    if n > 0 {
        lemma_bits_value_nonnegative(bits, from, n - 1);
    }
}

/// No step reads backwards.
pub proof fn lemma_step_advances(bits: Seq<bool>, version: int, st: Decoded, mode: int, ptr: int)
    requires
        ptr <= bits.len(),
    ensures
        ptr <= spec_step(bits, version, st, mode, ptr).ptr <= bits.len(),
{
    let len = st.payload.len() as int;
    if mode == 1 {
        let n = field_len(bits, ptr, numeric_count_bits(version));
        lemma_numeric_advances(bits, ptr + n, bits_value(bits, ptr, n));
    } else if mode == 2 {
        let n = field_len(bits, ptr, alpha_count_bits(version));
        lemma_alpha_advances(bits, ptr + n, bits_value(bits, ptr, n));
    } else if mode == 4 {
        let n = field_len(bits, ptr, byte_count_bits(version));
        lemma_bits_value_nonnegative(bits, ptr, n);
    } else if mode != 7 {
        let n = field_len(bits, ptr, kanji_count_bits(version));
        lemma_bits_value_nonnegative(bits, ptr, n);
    }
}

/// The payload from the state `st` on: as long as four bits are left, a
/// mode indicator is read and then the segment or the designator that it
/// announces. An indicator that announces neither ends the payload, and so
/// does an error.
pub open spec fn spec_decode_payload(bits: Seq<bool>, version: int, st: Decoded) -> Decoded
    decreases bits.len() - st.ptr,
    via lemma_payload_terminates
{
    if bits.len() - st.ptr < 4 || st.ptr < 0 {
        st
    } else {
        let mode = bits_value(bits, st.ptr, 4);
        if !is_mode(mode) {
            Decoded { ptr: st.ptr + 4, ..st }
        } else {
            let next = spec_step(bits, version, st, mode, st.ptr + 4);
            if next.error is Some {
                next
            } else {
                spec_decode_payload(bits, version, next)
            }
        }
    }
}

/// Every step reads on, so the reading of the payload ends.
#[via_fn]
proof fn lemma_payload_terminates(bits: Seq<bool>, version: int, st: Decoded) {
    if !(bits.len() - st.ptr < 4 || st.ptr < 0) {
        let mode = bits_value(bits, st.ptr, 4);
        lemma_step_advances(bits, version, st, mode, st.ptr + 4);
    }
}

/// The state of the decoder as the data and the stream hold it.
pub open spec fn state_of(data: DataView, ds: Datastream) -> Decoded {
    Decoded {
        error: None,
        ptr: ds.ptr as int,
        payload: data.payload,
        data_type: data.data_type,
        eci: data.eci,
    }
}

/// Notes in `data` that a segment of the kind with the mode indicator
/// `mode` is read.
fn note_kind(data: &mut Data, mode: i32)
    requires
        mode == 1 || mode == 2 || mode == 4 || mode == 8,
    ensures
        final(data)@ == (DataView {
            data_type: strongest(old(data).data_type, mode as int),
            ..old(data)@
        }),
{
    let current: i32 = match data.data_type {
        Some(t) => t.to_i32(),
        None => 0,
    };
    if mode > current {
        data.data_type = DataType::from_i32(mode);
    }
}

/// Reads the segments of the payload from the data words into `data`.
pub fn decode_payload(data: &mut Data, ds: &mut Datastream) -> (r: Result<(), DecodeError>)
    requires
        old(ds).wf_read(),
        old(data).payload@.len() <= MAX_PAYLOAD,
    ensures
        ({
            let end = spec_decode_payload(
                old(ds).stream(),
                old(data).version as int,
                state_of(old(data)@, *old(ds)),
            );
            &&& final(ds).ptr == end.ptr
            &&& final(ds).data_bits == old(ds).data_bits
            &&& final(ds).data == old(ds).data
            &&& final(ds).raw == old(ds).raw
            &&& final(data)@ == (DataView {
                payload: end.payload,
                data_type: end.data_type,
                eci: end.eci,
                ..old(data)@
            })
            &&& end.payload.len() <= MAX_PAYLOAD
            &&& match end.error {
                None => r is Ok,
                Some(e) => r == Err::<(), DecodeError>(e),
            }
        }),
{
    let ghost bits = ds.stream();
    let ghost version = data.version as int;
    let ghost goal = spec_decode_payload(bits, version, state_of(data@, *ds));
    while bits_remaining(ds) >= 4
        invariant
            ds.wf_read(),
            ds.data_bits == old(ds).data_bits,
            ds.data == old(ds).data,
            ds.raw == old(ds).raw,
            bits == ds.stream(),
            bits == old(ds).stream(),
            version == data.version,
            data.version == old(data).version,
            data.ecc_level == old(data).ecc_level,
            data.mask == old(data).mask,
            data.payload@.len() <= MAX_PAYLOAD,
            goal == spec_decode_payload(
                old(ds).stream(),
                old(data).version as int,
                state_of(old(data)@, *old(ds)),
            ),
            goal == spec_decode_payload(bits, version, state_of(data@, *ds)),
        decreases ds.data_bits - ds.ptr,
    {
        let ghost st = state_of(data@, *ds);
        proof {
            lemma_field_bound(bits, ds.ptr as int, 4, 4);
            vstd::arithmetic::power2::lemma2_to64();
        }
        let mode: i32 = take_bits(ds, 4);
        let ghost next = spec_step(bits, version, st, mode as int, st.ptr + 4);
        proof {
            lemma_step_advances(bits, version, st, mode as int, st.ptr + 4);
        }
        let r = match mode {
            1 => decode_numeric(data, ds),
            2 => decode_alpha(data, ds),
            4 => decode_byte(data, ds),
            8 => decode_kanji(data, ds),
            7 => decode_eci(data, ds),
            _ => {
                assert(goal == (Decoded { ptr: st.ptr + 4, ..st }));
                return Ok(());
            },
        };
        match r {
            Ok(()) => {},
            Err(e) => {
                assert(goal == next);
                return Err(e);
            },
        }
        if mode != 7 {
            note_kind(data, mode);
        }
        assert(state_of(data@, *ds) == next);
    }
    Ok(())
}

} // verus!
