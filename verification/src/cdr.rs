//! Writing classic CDR, little-endian, one primitive at a time.
//!
//! Every function here appends one value to the body of a message through
//! [`re_cdr::CdrWriter`]. Alignment is measured from the start of the body.

use re_cdr::{CdrWriter, LittleEndian};
use vstd::prelude::*;
use vstd::utf8::encode_utf8;

verus! {

/// The `width` low-order bytes of `value` in two's complement, least significant first.
pub open spec fn le_bytes(value: int, width: nat) -> Seq<u8>
    decreases width,
{
    if width == 0 {
        Seq::empty()
    } else {
        seq![(value % 256) as u8] + le_bytes(value / 256, (width - 1) as nat)
    }
}

/// `body` with as many zero bytes added as bring its length to a multiple of `alignment`.
pub open spec fn aligned(body: Seq<u8>, alignment: int) -> Seq<u8> {
    body + Seq::new(((alignment - body.len() as int % alignment) % alignment) as nat, |i: int| 0u8)
}

/// `body` with an integer of `width` bytes appended, aligned to its own width.
pub open spec fn with_integer(body: Seq<u8>, value: int, width: nat) -> Seq<u8> {
    aligned(body, width as int) + le_bytes(value, width)
}

/// `body` with a string appended: its length counting the final NUL, its bytes, the NUL.
pub open spec fn with_string(body: Seq<u8>, bytes: Seq<u8>) -> Seq<u8> {
    with_integer(body, bytes.len() as int + 1, 4) + bytes.push(0u8)
}

/// Calls `CdrWriter::write_bool`: one byte, `1` for `true` and `0` for `false`.
#[verifier::external_body]
pub(crate) fn write_bool(body: &mut Vec<u8>, value: bool)
    ensures
        final(body)@ == old(body)@.push(if value { 1u8 } else { 0u8 }),
{
    let mut buffer = Vec::new();
    let mut writer = CdrWriter::<LittleEndian>::new(&mut buffer);
    std::mem::swap(writer.buffer_mut(), body);
    writer.write_bool(value);
    *body = buffer;
}

/// Calls `CdrWriter::write_u8`: the byte itself.
#[verifier::external_body]
pub(crate) fn write_u8(body: &mut Vec<u8>, value: u8)
    ensures
        final(body)@ == old(body)@.push(value),
{
    let mut buffer = Vec::new();
    let mut writer = CdrWriter::<LittleEndian>::new(&mut buffer);
    std::mem::swap(writer.buffer_mut(), body);
    writer.write_u8(value);
    *body = buffer;
}

/// Calls `CdrWriter::write_i8`: one two's complement byte.
#[verifier::external_body]
pub(crate) fn write_i8(body: &mut Vec<u8>, value: i8)
    ensures
        final(body)@ == with_integer(old(body)@, value as int, 1),
{
    let mut buffer = Vec::new();
    let mut writer = CdrWriter::<LittleEndian>::new(&mut buffer);
    std::mem::swap(writer.buffer_mut(), body);
    writer.write_i8(value);
    *body = buffer;
}

/// Calls `CdrWriter::write_i16`: zero bytes up to a multiple of two, then the integer's
/// two bytes, least significant first.
#[verifier::external_body]
pub(crate) fn write_i16(body: &mut Vec<u8>, value: i16)
    ensures
        final(body)@ == with_integer(old(body)@, value as int, 2),
{
    let mut buffer = Vec::new();
    let mut writer = CdrWriter::<LittleEndian>::new(&mut buffer);
    std::mem::swap(writer.buffer_mut(), body);
    writer.write_i16(value);
    *body = buffer;
}

/// Calls `CdrWriter::write_u16`: zero bytes up to a multiple of two, then the integer's
/// two bytes, least significant first.
#[verifier::external_body]
pub(crate) fn write_u16(body: &mut Vec<u8>, value: u16)
    ensures
        final(body)@ == with_integer(old(body)@, value as int, 2),
{
    let mut buffer = Vec::new();
    let mut writer = CdrWriter::<LittleEndian>::new(&mut buffer);
    std::mem::swap(writer.buffer_mut(), body);
    writer.write_u16(value);
    *body = buffer;
}

/// Calls `CdrWriter::write_i32`: zero bytes up to a multiple of four, then the integer's
/// four bytes, least significant first.
#[verifier::external_body]
pub(crate) fn write_i32(body: &mut Vec<u8>, value: i32)
    ensures
        final(body)@ == with_integer(old(body)@, value as int, 4),
{
    let mut buffer = Vec::new();
    let mut writer = CdrWriter::<LittleEndian>::new(&mut buffer);
    std::mem::swap(writer.buffer_mut(), body);
    writer.write_i32(value);
    *body = buffer;
}

/// Calls `CdrWriter::write_u32`: zero bytes up to a multiple of four, then the integer's
/// four bytes, least significant first.
#[verifier::external_body]
pub(crate) fn write_u32(body: &mut Vec<u8>, value: u32)
    ensures
        final(body)@ == with_integer(old(body)@, value as int, 4),
{
    let mut buffer = Vec::new();
    let mut writer = CdrWriter::<LittleEndian>::new(&mut buffer);
    std::mem::swap(writer.buffer_mut(), body);
    writer.write_u32(value);
    *body = buffer;
}

/// Calls `CdrWriter::write_i64`: zero bytes up to a multiple of eight, then the integer's
/// eight bytes, least significant first.
#[verifier::external_body]
pub(crate) fn write_i64(body: &mut Vec<u8>, value: i64)
    ensures
        final(body)@ == with_integer(old(body)@, value as int, 8),
{
    let mut buffer = Vec::new();
    let mut writer = CdrWriter::<LittleEndian>::new(&mut buffer);
    std::mem::swap(writer.buffer_mut(), body);
    writer.write_i64(value);
    *body = buffer;
}

/// Calls `CdrWriter::write_u64`: zero bytes up to a multiple of eight, then the integer's
/// eight bytes, least significant first.
#[verifier::external_body]
pub(crate) fn write_u64(body: &mut Vec<u8>, value: u64)
    ensures
        final(body)@ == with_integer(old(body)@, value as int, 8),
{
    let mut buffer = Vec::new();
    let mut writer = CdrWriter::<LittleEndian>::new(&mut buffer);
    std::mem::swap(writer.buffer_mut(), body);
    writer.write_u64(value);
    *body = buffer;
}

/// Calls `CdrWriter::write_sequence_length`: the length as a four-byte unsigned integer. A
/// length that does not fit in one would be cut, so it is left out.
#[verifier::external_body]
pub(crate) fn write_sequence_length(body: &mut Vec<u8>, len: usize)
    requires
        len <= 0xffff_ffff,
    ensures
        final(body)@ == with_integer(old(body)@, len as int, 4),
{
    let mut buffer = Vec::new();
    let mut writer = CdrWriter::<LittleEndian>::new(&mut buffer);
    std::mem::swap(writer.buffer_mut(), body);
    writer.write_sequence_length(len);
    *body = buffer;
}

/// Calls `CdrWriter::write_string`: the length counting a final NUL, the UTF-8 bytes, the
/// NUL. A text whose length with the NUL does not fit in four bytes is left out.
#[verifier::external_body]
pub(crate) fn write_string(body: &mut Vec<u8>, value: &str)
    requires
        encode_utf8(value@).len() < 0xffff_ffff,
    ensures
        final(body)@ == with_string(old(body)@, encode_utf8(value@)),
{
    let mut buffer = Vec::new();
    let mut writer = CdrWriter::<LittleEndian>::new(&mut buffer);
    std::mem::swap(writer.buffer_mut(), body);
    writer.write_string(value);
    *body = buffer;
}

} // verus!
