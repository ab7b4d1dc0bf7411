//! The wire format of messages: fields with a key, holding variable-length integers, 32-bit
//! values or length-delimited bytes.
use vstd::prelude::*;
use vstd::slice::*;
use vstd::utf8::*;

use crate::float_bits::F32;
use crate::text::decode_text;

verus! {

/// Why bytes are not a message.
#[derive(Clone, Copy, Debug, PartialEq, Eq, Structural)]
pub enum WireError {
    /// The bytes end inside a variable-length integer.
    TruncatedVarint,
    /// A variable-length integer has more than ten bytes.
    VarintTooLong,
    /// A length does not fit in memory.
    LengthOverflow,
    /// The bytes end inside a length-delimited field.
    TruncatedBytes,
    /// A text field is not UTF-8.
    InvalidUtf8,
    /// The bytes end inside a 32-bit field that is read.
    TruncatedFixed32,
    /// The bytes end inside a field that is skipped.
    TruncatedField,
    /// A field has a wire type that is not known.
    UnsupportedWireType { wire: u8 },
}

/// Wire type of variable-length integers.
pub const WIRE_VARINT: u8 = 0;
/// Wire type of 64-bit values.
pub const WIRE_FIXED64: u8 = 1;
/// Wire type of length-delimited bytes.
pub const WIRE_BYTES: u8 = 2;
/// Wire type of 32-bit values.
pub const WIRE_FIXED32: u8 = 5;

////////////////////////////////////////////////////////////////////////////////
// Writing
////////////////////////////////////////////////////////////////////////////////

/// A number in base 128, least significant digit first, with 128 added to every digit but the
/// last.
pub open spec fn varint_bytes(value: nat) -> Seq<u8>
    decreases value,
{
    if value < 128 {
        seq![value as u8]
    } else {
        seq![(value % 128 + 128) as u8] + varint_bytes(value / 128)
    }
}

/// The key of a field: its number times eight plus the wire type.
pub open spec fn key_bytes(field: nat, wire: nat) -> Seq<u8> {
    varint_bytes(field * 8 + wire)
}

/// An integer field.
pub open spec fn varint_field(field: nat, value: nat) -> Seq<u8> {
    key_bytes(field, 0) + varint_bytes(value)
}

/// Four bytes, least significant first.
pub open spec fn le32(value: u32) -> Seq<u8> {
    seq![
        (value % 256) as u8,
        (value / 256 % 256) as u8,
        (value / 65536 % 256) as u8,
        (value / 16777216) as u8,
    ]
}

/// A 32-bit field.
pub open spec fn fixed32_field(field: nat, value: u32) -> Seq<u8> {
    key_bytes(field, 5) + le32(value)
}

/// A length-delimited field.
pub open spec fn bytes_field(field: nat, value: Seq<u8>) -> Seq<u8> {
    key_bytes(field, 2) + varint_bytes(value.len()) + value
}

/// Writes a variable-length integer behind `out`.
pub fn varint(out: &mut Vec<u8>, value: u64)
    ensures
        final(out)@ == old(out)@ + varint_bytes(value as nat),
{
    let mut rest: u64 = value;
    while rest >= 0x80
        invariant
            out@ + varint_bytes(rest as nat) == old(out)@ + varint_bytes(value as nat),
        decreases rest,
    {
        let ghost before = out@;
        out.push((rest % 128 + 128) as u8);
        assert(out@ + varint_bytes((rest / 128) as nat) =~= before + varint_bytes(rest as nat));
        rest = rest / 128;
    }
    let ghost before = out@;
    out.push(rest as u8);
    assert(out@ =~= before + varint_bytes(rest as nat));
}

/// Writes an integer field behind `out`.
pub fn field_varint(out: &mut Vec<u8>, field: u32, value: u64)
    ensures
        final(out)@ == old(out)@ + varint_field(field as nat, value as nat),
{
    varint(out, (field as u64) * 8);
    varint(out, value);
    assert(out@ =~= old(out)@ + varint_field(field as nat, value as nat));
}

/// Writes a 32-bit field behind `out`.
pub fn field_fixed32(out: &mut Vec<u8>, field: u32, value: F32)
    ensures
        final(out)@ == old(out)@ + fixed32_field(field as nat, value.bits),
{
    varint(out, (field as u64) * 8 + 5);
    push_le32(out, value.bits);
    assert(out@ =~= old(out)@ + fixed32_field(field as nat, value.bits));
}

/// Writes four bytes, least significant first, behind `out`.
pub fn push_le32(out: &mut Vec<u8>, value: u32)
    ensures
        final(out)@ == old(out)@ + le32(value),
{
    out.push((value % 256) as u8);
    out.push((value / 256 % 256) as u8);
    out.push((value / 65536 % 256) as u8);
    out.push((value / 16777216) as u8);
    assert(out@ =~= old(out)@ + le32(value));
}

/// Writes a text field behind `out`.
pub fn field_string(out: &mut Vec<u8>, field: u32, value: &str)
    ensures
        final(out)@ == old(out)@ + bytes_field(field as nat, encode_utf8(value@)),
{
    field_message(out, field, value.as_bytes());
}

/// Writes a length-delimited field behind `out`.
pub fn field_message(out: &mut Vec<u8>, field: u32, value: &[u8])
    ensures
        final(out)@ == old(out)@ + bytes_field(field as nat, value@),
{
    varint(out, (field as u64) * 8 + 2);
    varint(out, value.len() as u64);
    out.extend_from_slice(value);
    assert(out@ =~= old(out)@ + bytes_field(field as nat, value@));
}

////////////////////////////////////////////////////////////////////////////////
// Reading
////////////////////////////////////////////////////////////////////////////////

/// Reads the rest of a variable-length integer at `pos`, of which `digits` digits came before:
/// the number in base 128 and where it ends. There are at most ten digits, and of the tenth only
/// the lowest bit counts, for the number has 64 bits.
pub open spec fn varint_rest(bytes: Seq<u8>, pos: int, digits: nat) -> Result<(nat, int), WireError>
    decreases 10 - digits,
{
    if digits >= 10 {
        Err(WireError::VarintTooLong)
    } else if pos >= bytes.len() {
        Err(WireError::TruncatedVarint)
    } else {
        let digit = if digits == 9 {
            (bytes[pos] % 2) as nat
        } else {
            (bytes[pos] % 128) as nat
        };
        if bytes[pos] < 128 {
            Ok((digit, pos + 1))
        } else {
            match varint_rest(bytes, pos + 1, digits + 1) {
                Ok((rest, next)) => Ok((digit + 128 * rest, next)),
                Err(e) => Err(e),
            }
        }
    }
}

/// Reads a variable-length integer at `pos`: its value and where it ends.
pub open spec fn varint_at(bytes: Seq<u8>, pos: int) -> Result<(u64, int), WireError> {
    match varint_rest(bytes, pos, 0) {
        Ok((value, next)) => Ok((value as u64, next)),
        Err(e) => Err(e),
    }
}

/// Reads a key at `pos`: field number, wire type and where it ends. Field numbers are taken
/// modulo 2^32.
pub open spec fn key_at(bytes: Seq<u8>, pos: int) -> Result<((u32, u8), int), WireError> {
    match varint_at(bytes, pos) {
        Ok((key, next)) => Ok((((key / 8 % 0x1_0000_0000) as u32, (key % 8) as u8), next)),
        Err(e) => Err(e),
    }
}

/// Reads length-delimited bytes at `pos`: the bytes and where they end.
pub open spec fn bytes_at(bytes: Seq<u8>, pos: int) -> Result<(Seq<u8>, int), WireError> {
    match varint_at(bytes, pos) {
        Ok((value, start)) => {
            let end = start + (value as usize);
            if end > usize::MAX {
                Err(WireError::LengthOverflow)
            } else if end > bytes.len() {
                Err(WireError::TruncatedBytes)
            } else {
                Ok((bytes.subrange(start, end), end))
            }
        },
        Err(e) => Err(e),
    }
}

/// Reads a text at `pos`: its characters and where it ends.
pub open spec fn string_at(bytes: Seq<u8>, pos: int) -> Result<(Seq<char>, int), WireError> {
    match bytes_at(bytes, pos) {
        Ok((body, next)) => if valid_utf8(body) {
            Ok((decode_utf8(body), next))
        } else {
            Err(WireError::InvalidUtf8)
        },
        Err(e) => Err(e),
    }
}

/// The number that four bytes hold, least significant first.
pub open spec fn le32_value(bytes: Seq<u8>) -> u32 {
    (bytes[0] + 256 * bytes[1] + 65536 * bytes[2] + 16777216 * bytes[3]) as u32
}

/// Eight bytes, least significant first.
pub open spec fn le64(value: u64) -> Seq<u8> {
    le32((value % 0x1_0000_0000) as u32) + le32((value / 0x1_0000_0000) as u32)
}

/// The number that eight bytes hold, least significant first.
pub open spec fn le64_value(bytes: Seq<u8>) -> u64 {
    (le32_value(bytes.take(4)) + 0x1_0000_0000 * le32_value(bytes.skip(4))) as u64
}

/// Reads a 32-bit value at `pos`: the value and where it ends.
pub open spec fn fixed32_at(bytes: Seq<u8>, pos: int) -> Result<(F32, int), WireError> {
    if pos + 4 > bytes.len() {
        Err(WireError::TruncatedFixed32)
    } else {
        Ok((F32 { bits: le32_value(bytes.subrange(pos, pos + 4)) }, pos + 4))
    }
}

/// Skips the value of a field at `pos`: where it ends.
pub open spec fn skip_at(bytes: Seq<u8>, pos: int, wire: u8) -> Result<int, WireError> {
    if wire == 0 {
        match varint_at(bytes, pos) {
            Ok((_, next)) => Ok(next),
            Err(e) => Err(e),
        }
    } else if wire == 2 {
        match bytes_at(bytes, pos) {
            Ok((_, next)) => Ok(next),
            Err(e) => Err(e),
        }
    } else if wire == 1 {
        if pos + 8 > bytes.len() {
            Err(WireError::TruncatedField)
        } else {
            Ok(pos + 8)
        }
    } else if wire == 5 {
        if pos + 4 > bytes.len() {
            Err(WireError::TruncatedField)
        } else {
            Ok(pos + 4)
        }
    } else {
        Err(WireError::UnsupportedWireType { wire })
    }
}

/// 128 to the power `n`.
pub open spec fn pow128(n: nat) -> nat
    decreases n,
{
    if n == 0 {
        1
    } else {
        128 * pow128((n - 1) as nat)
    }
}

/// What is read lies behind `pos` and inside the bytes, and fits in the bits that are left.
pub proof fn lemma_varint_rest_bounds(bytes: Seq<u8>, pos: int, digits: nat)
    requires
        0 <= pos,
    ensures
        varint_rest(bytes, pos, digits) matches Ok((value, next)) ==> pos < next <= bytes.len()
            && (digits == 9 ==> value < 2) && (digits < 9 ==> value < 2 * pow128((9 - digits) as nat)),
    decreases 10 - digits,
{
    if digits < 10 {
        lemma_varint_rest_bounds(bytes, pos + 1, digits + 1);
        if digits < 9 {
            assert(pow128(0) == 1);
            assert(pow128((9 - digits) as nat) == 128 * pow128((8 - digits) as nat));
            lemma_pow128_positive((8 - digits) as nat);
        }
    }
}

proof fn lemma_pow128_positive(n: nat)
    ensures
        pow128(n) >= 1,
    decreases n,
{
    if n > 0 {
        lemma_pow128_positive((n - 1) as nat);
    }
}

proof fn lemma_pow128_nine()
    ensures
        2 * pow128(9) == 0x1_0000_0000_0000_0000,
        pow128(9) == 0x8000_0000_0000_0000,
{
    reveal_with_fuel(pow128, 10);
}

/// A variable-length integer that is read has 64 bits and lies inside the bytes.
pub proof fn lemma_varint_at_bounds(bytes: Seq<u8>, pos: int)
    requires
        0 <= pos,
    ensures
        varint_rest(bytes, pos, 0) matches Ok((value, next)) ==> value <= u64::MAX,
        varint_at(bytes, pos) matches Ok((value, next)) ==> pos < next <= bytes.len(),
{
    lemma_varint_rest_bounds(bytes, pos, 0);
    lemma_pow128_nine();
}

/// Bytes that are read one field at a time.
pub struct ProtoInput<'a> {
    pub bytes: &'a [u8],
    pub pos: usize,
}

impl<'a> ProtoInput<'a> {
    /// The position lies inside the bytes.
    pub open spec fn wf(&self) -> bool {
        self.pos <= self.bytes@.len()
    }

    /// Starts reading at the first byte.
    pub fn new(bytes: &'a [u8]) -> (input: ProtoInput<'a>)
        ensures
            input.wf(),
            input.bytes == bytes,
            input.pos == 0,
    {
        ProtoInput { bytes, pos: 0 }
    }

    /// Whether everything has been read.
    pub fn is_empty(&self) -> (empty: bool)
        ensures
            empty == (self.pos >= self.bytes@.len()),
    {
        self.pos >= self.bytes.len()
    }

    /// Reads a variable-length integer.
    pub fn varint(&mut self) -> (out: Result<u64, WireError>)
        requires
            old(self).wf(),
        ensures
            final(self).wf(),
            final(self).bytes == old(self).bytes,
            match varint_at(old(self).bytes@, old(self).pos as int) {
                Ok((value, next)) => out == Ok::<u64, WireError>(value) && final(self).pos == next,
                Err(e) => out == Err::<u64, WireError>(e),
            },
    {
        let ghost start = self.pos as int;
        let ghost whole = varint_rest(self.bytes@, start, 0);
        let mut value: u64 = 0;
        let mut scale: u64 = 1;
        let mut digits: usize = 0;
        proof {
            lemma_varint_at_bounds(self.bytes@, start);
        }
        while digits < 10
            invariant
                self.wf(),
                self.bytes == old(self).bytes,
                start == old(self).pos,
                whole == varint_rest(self.bytes@, start, 0),
                whole matches Ok((v, _)) ==> v <= u64::MAX,
                digits <= 10,
                digits < 10 ==> scale == pow128(digits as nat),
                digits < 10 ==> value < scale,
                match varint_rest(self.bytes@, self.pos as int, digits as nat) {
                    Ok((rest, next)) => whole == Ok::<(nat, int), WireError>(
                        ((value + scale * rest) as nat, next),
                    ),
                    Err(e) => whole == Err::<(nat, int), WireError>(e),
                },
            decreases 10 - digits,
        {
            if self.pos >= self.bytes.len() {
                return Err(WireError::TruncatedVarint);
            }
            let byte: u8 = self.bytes[self.pos];
            self.pos = self.pos + 1;
            let digit: u64 = if digits == 9 {
                (byte % 2) as u64
            } else {
                (byte % 128) as u64
            };
            proof {
                lemma_pow128_nine();
                lemma_pow128_bound(digits as nat);
                let ghost rest = varint_rest(self.bytes@, self.pos as int, (digits + 1) as nat);
                if rest is Ok {
                    let r = rest->Ok_0.0 as int;
                    let v = value as int;
                    let d = digit as int;
                    let s = scale as int;
                    assert(v + s * (d + 128 * r) == (v + d * s) + (s * 128) * r) by (nonlinear_arith);
                }
                let d = digit as int;
                let s = scale as int;
                assert(s * d == d * s) by (nonlinear_arith);
                assert(digits < 9 ==> value + d * s < s * 128 && s * 128 <= u64::MAX) by {
                    assert(d * s <= 127 * s) by (nonlinear_arith)
                        requires
                            d <= 127,
                            s >= 0,
                    ;
                }
                if digits == 9 {
                    assert(d * s <= s) by (nonlinear_arith)
                        requires
                            d <= 1,
                            s >= 0,
                    ;
                }
                assert(d * s >= 0) by (nonlinear_arith)
                    requires
                        d >= 0,
                        s >= 0,
                ;
            }
            value = value + digit * scale;
            if byte < 128 {
                return Ok(value);
            }
            if digits < 9 {
                scale = scale * 128;
            }
            digits = digits + 1;
        }
        Err(WireError::VarintTooLong)
    }

    /// Reads the key of a field: its number and its wire type.
    pub fn key(&mut self) -> (out: Result<(u32, u8), WireError>)
        requires
            old(self).wf(),
        ensures
            final(self).wf(),
            final(self).bytes == old(self).bytes,
            match key_at(old(self).bytes@, old(self).pos as int) {
                Ok((key, next)) => out == Ok::<(u32, u8), WireError>(key) && final(self).pos == next,
                Err(e) => out == Err::<(u32, u8), WireError>(e),
            },
    {
        match self.varint() {
            Ok(key) => Ok(((key / 8 % 0x1_0000_0000) as u32, (key % 8) as u8)),
            Err(e) => Err(e),
        }
    }

    /// Reads length-delimited bytes.
    pub fn bytes(&mut self) -> (out: Result<&'a [u8], WireError>)
        requires
            old(self).wf(),
        ensures
            final(self).wf(),
            final(self).bytes == old(self).bytes,
            match bytes_at(old(self).bytes@, old(self).pos as int) {
                Ok((body, next)) => out is Ok && out->Ok_0@ == body && final(self).pos == next,
                Err(e) => out == Err::<&'a [u8], WireError>(e),
            },
    {
        let len: usize = match self.varint() {
            Ok(value) => value as usize,
            Err(e) => return Err(e),
        };
        match self.pos.checked_add(len) {
            None => Err(WireError::LengthOverflow),
            Some(end) => {
                if end > self.bytes.len() {
                    return Err(WireError::TruncatedBytes);
                }
                let body: &'a [u8] = slice_subrange(self.bytes, self.pos, end);
                self.pos = end;
                Ok(body)
            },
        }
    }

    /// Reads a text.
    pub fn string(&mut self) -> (out: Result<String, WireError>)
        requires
            old(self).wf(),
        ensures
            final(self).wf(),
            final(self).bytes == old(self).bytes,
            match string_at(old(self).bytes@, old(self).pos as int) {
                Ok((text, next)) => out is Ok && out->Ok_0@ == text && final(self).pos == next,
                Err(e) => out == Err::<String, WireError>(e),
            },
    {
        match self.bytes() {
            Ok(body) => match decode_text(body) {
                Some(text) => Ok(text),
                None => Err(WireError::InvalidUtf8),
            },
            Err(e) => Err(e),
        }
    }

    /// Reads a 32-bit value.
    pub fn fixed32(&mut self) -> (out: Result<F32, WireError>)
        requires
            old(self).wf(),
        ensures
            final(self).wf(),
            final(self).bytes == old(self).bytes,
            match fixed32_at(old(self).bytes@, old(self).pos as int) {
                Ok((value, next)) => out == Ok::<F32, WireError>(value) && final(self).pos == next,
                Err(e) => out == Err::<F32, WireError>(e),
            },
    {
        if self.bytes.len() - self.pos < 4 {
            return Err(WireError::TruncatedFixed32);
        }
        let start: usize = self.pos;
        let bits: u32 = read_le32(slice_subrange(self.bytes, start, start + 4));
        self.pos = start + 4;
        Ok(F32 { bits })
    }

    /// Skips the value of a field.
    pub fn skip(&mut self, wire: u8) -> (out: Result<(), WireError>)
        requires
            old(self).wf(),
        ensures
            final(self).wf(),
            final(self).bytes == old(self).bytes,
            match skip_at(old(self).bytes@, old(self).pos as int, wire) {
                Ok(next) => out == Ok::<(), WireError>(()) && final(self).pos == next,
                Err(e) => out == Err::<(), WireError>(e),
            },
    {
        if wire == WIRE_VARINT {
            match self.varint() {
                Ok(_) => Ok(()),
                Err(e) => Err(e),
            }
        } else if wire == WIRE_BYTES {
            match self.bytes() {
                Ok(_) => Ok(()),
                Err(e) => Err(e),
            }
        } else if wire == WIRE_FIXED64 || wire == WIRE_FIXED32 {
            let width: usize = if wire == WIRE_FIXED64 {
                8
            } else {
                4
            };
            if self.bytes.len() - self.pos < width {
                return Err(WireError::TruncatedField);
            }
            self.pos = self.pos + width;
            Ok(())
        } else {
            Err(WireError::UnsupportedWireType { wire })
        }
    }
}

/// Writes eight bytes, least significant first, behind `out`.
pub fn push_le64(out: &mut Vec<u8>, value: u64)
    ensures
        final(out)@ == old(out)@ + le64(value),
{
    push_le32(out, (value % 0x1_0000_0000) as u32);
    push_le32(out, (value / 0x1_0000_0000) as u32);
    assert(out@ =~= old(out)@ + le64(value));
}

/// The number that eight bytes hold, least significant first.
pub fn read_le64(bytes: &[u8]) -> (value: u64)
    requires
        bytes@.len() == 8,
    ensures
        value == le64_value(bytes@),
{
    let low = slice_subrange(bytes, 0, 4);
    let high = slice_subrange(bytes, 4, 8);
    assert(low@ =~= bytes@.take(4));
    assert(high@ =~= bytes@.skip(4));
    read_le32(low) as u64 + 0x1_0000_0000 * (read_le32(high) as u64)
}

/// The number that four bytes hold, least significant first.
pub fn read_le32(bytes: &[u8]) -> (value: u32)
    requires
        bytes@.len() == 4,
    ensures
        value == le32_value(bytes@),
{
    bytes[0] as u32 + 256 * (bytes[1] as u32) + 65536 * (bytes[2] as u32) + 16777216 * (
    bytes[3] as u32)
}

////////////////////////////////////////////////////////////////////////////////
// Messages
////////////////////////////////////////////////////////////////////////////////

/// A message that is read field by field. A later field replaces an earlier one with the same
/// number, and fields that are not known are skipped.
pub trait Message: Sized + View {
    /// What the value of one field, read at `pos`, makes of a message, and where it ends.
    spec fn merged(
        message: Self::V,
        field: u32,
        wire: u8,
        bytes: Seq<u8>,
        pos: int,
    ) -> Result<(Self::V, int), WireError>;

    /// A field ends inside the bytes.
    proof fn merged_advances(message: Self::V, field: u32, wire: u8, bytes: Seq<u8>, pos: int)
        requires
            0 <= pos <= bytes.len(),
        ensures
            Self::merged(message, field, wire, bytes, pos) matches Ok((_, next)) ==> pos <= next
                <= bytes.len(),
    ;

    /// Reads the value of one field into the message.
    fn merge(&mut self, field: u32, wire: u8, input: &mut ProtoInput) -> (out: Result<(), WireError>)
        requires
            old(input).wf(),
        ensures
            final(input).wf(),
            final(input).bytes == old(input).bytes,
            match Self::merged(old(self)@, field, wire, old(input).bytes@, old(input).pos as int) {
                Ok((message, next)) => out == Ok::<(), WireError>(()) && final(self)@ == message
                    && final(input).pos == next,
                Err(e) => out == Err::<(), WireError>(e),
            },
    ;
}

/// What the fields from `pos` to the end make of a message.
pub open spec fn decoded<M: Message>(bytes: Seq<u8>, pos: int, message: M::V) -> Result<
    M::V,
    WireError,
>
    decreases bytes.len() - pos,
    when 0 <= pos
{
    if pos >= bytes.len() {
        Ok(message)
    } else {
        match key_at(bytes, pos) {
            Ok(((field, wire), start)) => {
                proof {
                    lemma_varint_at_bounds(bytes, pos);
                    M::merged_advances(message, field, wire, bytes, start);
                }
                match M::merged(message, field, wire, bytes, start) {
                    Ok((more, next)) => decoded::<M>(bytes, next, more),
                    Err(e) => Err(e),
                }
            },
            Err(e) => Err(e),
        }
    }
}

/// Reads all fields into a message.
pub fn decode_message<M: Message>(bytes: &[u8], message: M) -> (out: Result<M, WireError>)
    ensures
        match decoded::<M>(bytes@, 0, message@) {
            Ok(v) => out is Ok && out->Ok_0@ == v,
            Err(e) => out == Err::<M, WireError>(e),
        },
{
    let mut read: M = message;
    let mut input = ProtoInput::new(bytes);
    while !input.is_empty()
        invariant
            input.wf(),
            input.bytes == bytes,
            decoded::<M>(bytes@, 0, message@) == decoded::<M>(bytes@, input.pos as int, read@),
        decreases bytes@.len() - input.pos,
    {
        proof {
            lemma_varint_at_bounds(bytes@, input.pos as int);
        }
        let (field, wire) = match input.key() {
            Ok(key) => key,
            Err(e) => return Err(e),
        };
        proof {
            M::merged_advances(read@, field, wire, bytes@, input.pos as int);
        }
        match read.merge(field, wire, &mut input) {
            Ok(()) => {},
            Err(e) => return Err(e),
        }
    }
    Ok(read)
}

////////////////////////////////////////////////////////////////////////////////
// What is written is read back
////////////////////////////////////////////////////////////////////////////////

/// `part` stands in `bytes` at `pos`.
pub open spec fn holds_at(bytes: Seq<u8>, pos: int, part: Seq<u8>) -> bool {
    0 <= pos && pos + part.len() <= bytes.len() && bytes.subrange(pos, pos + part.len()) == part
}

/// The parts of a concatenation stand where they were put.
pub proof fn lemma_holds_parts(bytes: Seq<u8>, pos: int, a: Seq<u8>, b: Seq<u8>)
    requires
        holds_at(bytes, pos, a + b),
    ensures
        holds_at(bytes, pos, a),
        holds_at(bytes, pos + a.len(), b),
{
    assert(bytes.subrange(pos, pos + a.len()) =~= (a + b).subrange(0, a.len() as int));
    assert((a + b).subrange(0, a.len() as int) =~= a);
    assert(bytes.subrange(pos + a.len(), pos + a.len() + b.len()) =~= (a + b).subrange(
        a.len() as int,
        (a + b).len() as int,
    ));
    assert((a + b).subrange(a.len() as int, (a + b).len() as int) =~= b);
}

proof fn lemma_varint_rest_reads(bytes: Seq<u8>, pos: int, digits: nat, value: nat)
    requires
        holds_at(bytes, pos, varint_bytes(value)),
        digits <= 9,
        value < 2 * pow128((9 - digits) as nat),
    ensures
        varint_rest(bytes, pos, digits) == Ok::<(nat, int), WireError>(
            (value, pos + varint_bytes(value).len()),
        ),
    decreases value,
{
    let part = varint_bytes(value);
    assert(bytes.subrange(pos, pos + part.len())[0] == bytes[pos]);
    if digits == 9 {
        assert(pow128(0) == 1);
    }
    if value >= 128 {
        let tail = varint_bytes(value / 128);
        assert(part == seq![(value % 128 + 128) as u8] + tail);
        lemma_holds_parts(bytes, pos, seq![(value % 128 + 128) as u8], tail);
        assert(pow128((9 - digits) as nat) == 128 * pow128((8 - digits) as nat));
        lemma_varint_rest_reads(bytes, pos + 1, digits + 1, value / 128);
    }
}

/// A number that was written as a variable-length integer is read back.
pub proof fn varint_round_trip(bytes: Seq<u8>, pos: int, value: u64)
    requires
        holds_at(bytes, pos, varint_bytes(value as nat)),
    ensures
        varint_at(bytes, pos) == Ok::<(u64, int), WireError>(
            (value, pos + varint_bytes(value as nat).len()),
        ),
{
    lemma_pow128_nine();
    lemma_varint_rest_reads(bytes, pos, 0, value as nat);
}

/// A key that was written is read back.
pub proof fn key_round_trip(bytes: Seq<u8>, pos: int, field: u32, wire: u8)
    requires
        holds_at(bytes, pos, key_bytes(field as nat, wire as nat)),
        wire < 8,
    ensures
        key_at(bytes, pos) == Ok::<((u32, u8), int), WireError>(
            ((field, wire), pos + key_bytes(field as nat, wire as nat).len()),
        ),
{
    varint_round_trip(bytes, pos, (field * 8 + wire) as u64);
}

/// An integer field that was written is read back: first the key, then the number.
pub proof fn varint_field_round_trip(bytes: Seq<u8>, pos: int, field: u32, value: u64)
    requires
        holds_at(bytes, pos, varint_field(field as nat, value as nat)),
    ensures
        ({
            let start = pos + key_bytes(field as nat, 0).len();
            &&& key_at(bytes, pos) == Ok::<((u32, u8), int), WireError>(((field, 0u8), start))
            &&& varint_at(bytes, start) == Ok::<(u64, int), WireError>(
                (value, pos + varint_field(field as nat, value as nat).len()),
            )
        }),
{
    lemma_holds_parts(bytes, pos, key_bytes(field as nat, 0), varint_bytes(value as nat));
    key_round_trip(bytes, pos, field, 0);
    varint_round_trip(bytes, pos + key_bytes(field as nat, 0).len(), value);
}

/// A number that was written as four bytes is read back.
pub proof fn le32_round_trip(value: u32)
    ensures
        le32_value(le32(value)) == value,
        le32(value).len() == 4,
{
    let a = value % 256;
    let b = value / 256 % 256;
    let c = value / 65536 % 256;
    let d = value / 16777216;
    assert(a + 256 * b + 65536 * c + 16777216 * d == value && d < 256) by (bit_vector)
        requires
            a == value % 256,
            b == value / 256 % 256,
            c == value / 65536 % 256,
            d == value / 16777216,
    ;
}

/// A number that was written as eight bytes is read back.
pub proof fn le64_round_trip(value: u64)
    ensures
        le64_value(le64(value)) == value,
        le64(value).len() == 8,
{
    let low = (value % 0x1_0000_0000) as u32;
    let high = (value / 0x1_0000_0000) as u32;
    le32_round_trip(low);
    le32_round_trip(high);
    assert(le64(value).take(4) =~= le32(low));
    assert(le64(value).skip(4) =~= le32(high));
}

/// A 32-bit field that was written is read back: first the key, then the value.
pub proof fn fixed32_field_round_trip(bytes: Seq<u8>, pos: int, field: u32, value: F32)
    requires
        holds_at(bytes, pos, fixed32_field(field as nat, value.bits)),
    ensures
        ({
            let start = pos + key_bytes(field as nat, 5).len();
            &&& key_at(bytes, pos) == Ok::<((u32, u8), int), WireError>(((field, 5u8), start))
            &&& fixed32_at(bytes, start) == Ok::<(F32, int), WireError>(
                (value, pos + fixed32_field(field as nat, value.bits).len()),
            )
        }),
{
    lemma_holds_parts(bytes, pos, key_bytes(field as nat, 5), le32(value.bits));
    key_round_trip(bytes, pos, field, 5);
    le32_round_trip(value.bits);
}

/// A length-delimited field that was written is read back: first the key, then the bytes.
pub proof fn bytes_field_round_trip(bytes: Seq<u8>, pos: int, field: u32, value: Seq<u8>)
    requires
        holds_at(bytes, pos, bytes_field(field as nat, value)),
        bytes.len() <= usize::MAX,
    ensures
        ({
            let start = pos + key_bytes(field as nat, 2).len();
            &&& key_at(bytes, pos) == Ok::<((u32, u8), int), WireError>(((field, 2u8), start))
            &&& bytes_at(bytes, start) == Ok::<(Seq<u8>, int), WireError>(
                (value, pos + bytes_field(field as nat, value).len()),
            )
        }),
{
    let key = key_bytes(field as nat, 2);
    let len = varint_bytes(value.len());
    lemma_holds_parts(bytes, pos, key + len, value);
    lemma_holds_parts(bytes, pos, key, len);
    key_round_trip(bytes, pos, field, 2);
    varint_round_trip(bytes, pos + key.len(), value.len() as u64);
}

/// A text field that was written is read back: first the key, then the text.
pub proof fn string_field_round_trip(bytes: Seq<u8>, pos: int, field: u32, text: Seq<char>)
    requires
        holds_at(bytes, pos, bytes_field(field as nat, encode_utf8(text))),
        bytes.len() <= usize::MAX,
    ensures
        ({
            let start = pos + key_bytes(field as nat, 2).len();
            &&& key_at(bytes, pos) == Ok::<((u32, u8), int), WireError>(((field, 2u8), start))
            &&& string_at(bytes, start) == Ok::<(Seq<char>, int), WireError>(
                (text, pos + bytes_field(field as nat, encode_utf8(text)).len()),
            )
        }),
{
    bytes_field_round_trip(bytes, pos, field, encode_utf8(text));
    encode_utf8_valid_utf8(text);
    encode_utf8_decode_utf8(text);
}

proof fn lemma_pow128_bound(n: nat)
    ensures
        n < 9 ==> pow128(n + 1) <= 0x8000_0000_0000_0000,
        pow128(n + 1) == 128 * pow128(n),
{
    lemma_pow128_nine();
    if n < 9 {
        lemma_pow128_monotone(n + 1, 9);
    }
}

proof fn lemma_pow128_monotone(i: nat, j: nat)
    requires
        i <= j,
    ensures
        pow128(i) <= pow128(j),
    decreases j - i,
{
    if i < j {
        lemma_pow128_monotone(i, (j - 1) as nat);
        lemma_pow128_positive((j - 1) as nat);
    }
}

} // verus!
