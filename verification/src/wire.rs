//! The wire format of messages, as a subscriber reads it.
//!
//! A message on the wire is a header and the fields of its type in the order they are declared,
//! each at a multiple of its own size, counted from the end of the header. Here it is read, by
//! what a plan says of the type alone. What is handed out of a message that was kept as a struct
//! is held against that: a subscriber reads exactly the values that were kept.

use vstd::prelude::*;
use vstd::utf8::{
    decode_utf8, encode_utf8, encode_utf8_decode_utf8, encode_utf8_valid_utf8, valid_utf8,
};

use crate::cdr::{aligned, le_bytes, with_integer, with_string};
use crate::reencoding::{
    lemma_elements_append, lemma_scalars_append, writing_a_value_only_appends,
};
use crate::replay::{
    encoded, misfit, with_elements, with_fields, with_message, with_scalar, with_scalars,
    with_value, ArraySize, BuiltInType, Column, Fault, MessageDecodePlan, Problem,
    StructColumn, ValueLayout,
};

verus! {

/// A value of a message.
#[verifier::ext_equal]
pub enum Value {
    Bool(bool),
    /// An integer of so many bytes, with a sign or without.
    Integer { width: nat, signed: bool, value: int },
    /// A float of so many bytes, as its bits.
    Float { width: nat, bits: int },
    Text(Seq<char>),
    /// The fields of a message.
    Message(Seq<Value>),
    /// The elements of an array.
    List(Seq<Value>),
}

/// The value at a row of a column.
pub open spec fn value_at(column: Column, row: int) -> Value
    decreases column,
{
    match column {
        Column::Bool(v) => Value::Bool(v@[row]),
        Column::UInt8(v) => unsigned(1, v@[row] as int),
        Column::Int8(v) => signed(1, v@[row] as int),
        Column::Int16(v) => signed(2, v@[row] as int),
        Column::UInt16(v) => unsigned(2, v@[row] as int),
        Column::Int32(v) => signed(4, v@[row] as int),
        Column::UInt32(v) => unsigned(4, v@[row] as int),
        Column::Int64(v) => signed(8, v@[row] as int),
        Column::UInt64(v) => unsigned(8, v@[row] as int),
        Column::Float32(v) => Value::Float { width: 4, bits: v@[row] as int },
        Column::Float64(v) => Value::Float { width: 8, bits: v@[row] as int },
        Column::Utf8(v) => Value::Text(v@[row]@),
        Column::Struct(s) => message_at(s, row),
        Column::List(lists) => if 0 <= row < lists@.len() {
            let list = lists@[row];
            Value::List(
                Seq::new(list.rows(), |i: int| value_at(list, i)),
            )
        } else {
            Value::List(Seq::empty())
        },
        Column::Other(_) => Value::List(Seq::empty()),
    }
}

/// The message at a row of a column of structs: the value of each field.
pub open spec fn message_at(message: StructColumn, row: int) -> Value
    decreases message,
{
    Value::Message(
        Seq::new(
            message.columns@.len(),
            |c: int|
                if 0 <= c < message.columns@.len() {
                    value_at(message.columns@[c], row)
                } else {
                    Value::Bool(false)
                },
        ),
    )
}

pub open spec fn unsigned(width: nat, value: int) -> Value {
    Value::Integer { width, signed: false, value }
}

pub open spec fn signed(width: nat, value: int) -> Value {
    Value::Integer { width, signed: true, value }
}

/// The number some bytes are, the least significant first.
pub open spec fn number(bytes: Seq<u8>) -> int
    decreases bytes.len(),
{
    if bytes.len() == 0 {
        0
    } else {
        bytes[0] as int + 256 * number(bytes.skip(1))
    }
}

/// The first place from `at` on that is a multiple of `width`.
pub open spec fn boundary(at: int, width: int) -> int {
    ((at + width - 1) / width) * width
}

/// Reads an unsigned integer of so many bytes at its boundary, and where it ends. What is
/// skipped has to be zero.
pub open spec fn read_number(body: Seq<u8>, at: int, width: int) -> Option<(int, int)> {
    let start = boundary(at, width);
    if start + width <= body.len() && (forall|k: int| at <= k < start ==> #[trigger] body[k] == 0) {
        Some((number(body.subrange(start, start + width)), start + width))
    } else {
        None
    }
}

/// Reads an integer of so many bytes, in two's complement where it has a sign.
pub open spec fn read_integer(body: Seq<u8>, at: int, width: int, signed: bool) -> Option<
    (Value, int),
> {
    match read_number(body, at, width) {
        None => None,
        Some((n, end)) => {
            let half: int = if width == 1 {
                0x80
            } else if width == 2 {
                0x8000
            } else if width == 4 {
                0x8000_0000
            } else {
                0x8000_0000_0000_0000
            };
            let value = if signed && n >= half {
                n - 2 * half
            } else {
                n
            };
            Some((Value::Integer { width: width as nat, signed, value }, end))
        },
    }
}

/// Reads the bits of a float of so many bytes.
pub open spec fn read_float(body: Seq<u8>, at: int, width: int) -> Option<(Value, int)> {
    match read_number(body, at, width) {
        None => None,
        Some((bits, end)) => Some((Value::Float { width: width as nat, bits }, end)),
    }
}

/// Reads a text: its length in four bytes, counting a zero byte at its end, its UTF-8, and the
/// zero byte.
pub open spec fn read_text(body: Seq<u8>, at: int) -> Option<(Value, int)> {
    match read_number(body, at, 4) {
        None => None,
        Some((length, start)) => {
            let end = start + length;
            if length >= 1 && end <= body.len() && body[end - 1] == 0 && valid_utf8(
                body.subrange(start, end - 1),
            ) {
                Some((Value::Text(decode_utf8(body.subrange(start, end - 1))), end))
            } else {
                None
            }
        },
    }
}

/// Reads a value of a built-in type, and where it ends. A `wstring` cannot be read.
pub open spec fn read_builtin(ty: BuiltInType, body: Seq<u8>, at: int) -> Option<(Value, int)> {
    match ty {
        BuiltInType::Bool => if 0 <= at < body.len() && body[at] <= 1 {
            Some((Value::Bool(body[at] == 1), at + 1))
        } else {
            None
        },
        BuiltInType::Byte => read_integer(body, at, 1, false),
        BuiltInType::Char => read_integer(body, at, 1, false),
        BuiltInType::UInt8 => read_integer(body, at, 1, false),
        BuiltInType::Int8 => read_integer(body, at, 1, true),
        BuiltInType::Int16 => read_integer(body, at, 2, true),
        BuiltInType::UInt16 => read_integer(body, at, 2, false),
        BuiltInType::Int32 => read_integer(body, at, 4, true),
        BuiltInType::UInt32 => read_integer(body, at, 4, false),
        BuiltInType::Int64 => read_integer(body, at, 8, true),
        BuiltInType::UInt64 => read_integer(body, at, 8, false),
        BuiltInType::Float32 => read_float(body, at, 4),
        BuiltInType::Float64 => read_float(body, at, 8),
        BuiltInType::String(_) => read_text(body, at),
        BuiltInType::WString(_) => None,
    }
}

/// Reads a value and where it ends: a built-in, the fields of a message, or an array. An array
/// of a fixed length is its elements alone; any other is their number in four bytes, and the
/// elements. Messages inside each other are read `depth` deep.
pub open spec fn read_value(
    plan: MessageDecodePlan,
    layout: ValueLayout,
    body: Seq<u8>,
    at: int,
    depth: nat,
) -> Option<(Value, int)>
    decreases depth, 0nat, layout, 0nat,
{
    match layout {
        ValueLayout::BuiltIn(ty) => read_builtin(ty, body, at),
        ValueLayout::Message(id) => if depth == 0 {
            None
        } else {
            let count = plan.messages@[id as int].fields@.len();
            match read_fields(plan, id as int, body, at, count, (depth - 1) as nat) {
                None => None,
                Some((fields, end)) => Some((Value::Message(fields), end)),
            }
        },
        ValueLayout::Array { element, size } => {
            let length = match size {
                ArraySize::Fixed(count) => Some((count as int, at)),
                _ => read_number(body, at, 4),
            };
            match length {
                None => None,
                Some((count, start)) => if count < 0 {
                    None
                } else {
                    match read_elements(plan, *element, body, start, count as nat, depth) {
                        None => None,
                        Some((elements, end)) => Some((Value::List(elements), end)),
                    }
                },
            }
        },
    }
}

/// Reads so many values of one layout, one after the other.
pub open spec fn read_elements(
    plan: MessageDecodePlan,
    layout: ValueLayout,
    body: Seq<u8>,
    at: int,
    count: nat,
    depth: nat,
) -> Option<(Seq<Value>, int)>
    decreases depth, 0nat, layout, count + 1,
{
    if count == 0 {
        Some((Seq::empty(), at))
    } else {
        match read_elements(plan, layout, body, at, (count - 1) as nat, depth) {
            None => None,
            Some((before, next)) => match read_value(plan, layout, body, next, depth) {
                None => None,
                Some((value, end)) => Some((before.push(value), end)),
            },
        }
    }
}

/// Reads the first fields of a message, in the order they are declared.
pub open spec fn read_fields(
    plan: MessageDecodePlan,
    id: int,
    body: Seq<u8>,
    at: int,
    count: nat,
    depth: nat,
) -> Option<(Seq<Value>, int)>
    decreases depth, 1nat, ValueLayout::Message(0), count,
{
    if count == 0 {
        Some((Seq::empty(), at))
    } else {
        match read_fields(plan, id, body, at, (count - 1) as nat, depth) {
            None => None,
            Some((before, next)) => {
                let layout = plan.messages@[id].fields@[count - 1].value;
                match read_value(plan, layout, body, next, depth) {
                    None => None,
                    Some((value, end)) => Some((before.push(value), end)),
                }
            },
        }
    }
}

/// Reads a message of the plan's type: the header of little-endian CDR, the fields, and nothing
/// after them.
pub open spec fn read_message(plan: MessageDecodePlan, message: Seq<u8>, depth: nat) -> Option<
    Value,
> {
    if message.len() >= 4 && message[0] == 0 && message[1] == 1 && message[2] == 0 && message[3]
        == 0 {
        let body = message.skip(4);
        match read_fields(plan, 0, body, 0, plan.messages@[0].fields@.len(), depth) {
            None => None,
            Some((fields, end)) => if end == body.len() {
                Some(Value::Message(fields))
            } else {
                None
            },
        }
    } else {
        None
    }
}

/// How deep messages are inside each other in a column.
pub open spec fn depth_of(column: Column) -> nat
    decreases column, column.rows() + 2,
{
    match column {
        Column::Struct(s) => 1 + depth_of_fields(s, s.columns@.len()),
        Column::List(lists) => depth_of_lists(column, lists@.len()),
        _ => 0,
    }
}

/// How deep messages are inside each other in the deepest of the first lists of a column.
pub open spec fn depth_of_lists(column: Column, count: nat) -> nat
    decreases column, count + 1,
{
    match column {
        Column::List(lists) => if count == 0 || count > lists@.len() {
            0
        } else {
            larger(
                depth_of_lists(column, (count - 1) as nat),
                depth_of(lists@[count - 1]),
            )
        },
        _ => 0,
    }
}

/// How deep messages are inside each other in the deepest of the first fields of a message.
pub open spec fn depth_of_fields(message: StructColumn, count: nat) -> nat
    decreases message, count,
{
    if count == 0 || count > message.columns@.len() {
        0
    } else {
        larger(
            depth_of_fields(message, (count - 1) as nat),
            depth_of(message.columns@[count - 1]),
        )
    }
}

pub open spec fn larger(a: nat, b: nat) -> nat {
    if a > b {
        a
    } else {
        b
    }
}

/// How many numbers some bytes can be.
spec fn span(width: nat) -> int
    decreases width,
{
    if width == 0 {
        1
    } else {
        256 * span((width - 1) as nat)
    }
}

proof fn lemma_spans()
    ensures
        span(1) == 0x100,
        span(2) == 0x1_0000,
        span(4) == 0x1_0000_0000,
        span(8) == 0x1_0000_0000_0000_0000,
{
    reveal_with_fuel(span, 9);
}

/// The bytes of an integer are as many as asked for, and the number they are is the integer, but
/// for a multiple of what they can tell apart.
proof fn lemma_number(value: int, width: nat) -> (k: int)
    ensures
        le_bytes(value, width).len() == width,
        number(le_bytes(value, width)) == value - k * span(width),
        0 <= number(le_bytes(value, width)) < span(width),
    decreases width,
{
    let bytes = le_bytes(value, width);
    if width == 0 {
        assert(number(bytes) == 0);
        assert(value * 1 == value) by (nonlinear_arith);
        value
    } else {
        let less = (width - 1) as nat;
        let rest = le_bytes(value / 256, less);
        let k = lemma_number(value / 256, less);
        let s = span(less);
        assert(bytes[0] == (value % 256) as u8);
        assert(bytes.skip(1) =~= rest);
        assert(number(bytes) == value % 256 + 256 * number(rest));
        assert(256 * (k * s) == k * (256 * s)) by (nonlinear_arith);
        assert(value == 256 * (value / 256) + value % 256);
        k
    }
}

/// An integer that is not negative and fits is the number its bytes are.
proof fn lemma_unsigned(value: int, width: nat)
    requires
        0 <= value < span(width),
    ensures
        number(le_bytes(value, width)) == value,
{
    let k = lemma_number(value, width);
    let s = span(width);
    assert(k == 0) by (nonlinear_arith)
        requires
            0 <= value < s,
            0 <= value - k * s < s,
    ;
}

/// An integer that is negative and fits is the number its bytes are, less what they can tell
/// apart.
proof fn lemma_negative(value: int, width: nat)
    requires
        -span(width) <= value < 0,
    ensures
        number(le_bytes(value, width)) == value + span(width),
{
    let k = lemma_number(value, width);
    let s = span(width);
    assert(k == -1) by (nonlinear_arith)
        requires
            -s <= value < 0,
            0 <= value - k * s < s,
    ;
    assert(value - (-1) * s == value + s);
}

proof fn lemma_boundary(body: Seq<u8>, width: int)
    requires
        width == 1 || width == 2 || width == 4 || width == 8,
    ensures
        aligned(body, width).len() == boundary(body.len() as int, width),
        forall|k: int|
            body.len() <= k < aligned(body, width).len() ==> #[trigger] aligned(body, width)[k]
                == 0,
{
}

/// An integer that was written is read where it was, and up to where it ends.
proof fn lemma_read_number(body: Seq<u8>, value: int, width: nat, all: Seq<u8>)
    requires
        width == 1 || width == 2 || width == 4 || width == 8,
        with_integer(body, value, width).is_prefix_of(all),
    ensures
        read_number(all, body.len() as int, width as int) == Some(
            (number(le_bytes(value, width)), with_integer(body, value, width).len() as int),
        ),
{
    let start = aligned(body, width as int);
    let written = with_integer(body, value, width);
    lemma_boundary(body, width as int);
    let k = lemma_number(value, width);
    assert forall|i: int| 0 <= i < written.len() implies #[trigger] all[i] == written[i] by {
        assert(written == all.subrange(0, written.len() as int));
        assert(all.subrange(0, written.len() as int)[i] == all[i]);
    }
    assert forall|i: int| body.len() <= i < start.len() implies #[trigger] all[i] == 0 by {
        assert(written[i] == start[i]);
    }
    let n = start.len() as int;
    assert(all.subrange(n, n + width) =~= le_bytes(value, width)) by {
        assert forall|i: int| 0 <= i < width implies all.subrange(n, n + width)[i] == le_bytes(
            value,
            width,
        )[i] by {
            assert(written[n + i] == le_bytes(value, width)[i]);
        }
    }
}

proof fn lemma_read_signed(body: Seq<u8>, value: int, width: nat, all: Seq<u8>)
    requires
        width == 1 || width == 2 || width == 4 || width == 8,
        -span(width) <= 2 * value < span(width),
        with_integer(body, value, width).is_prefix_of(all),
    ensures
        read_integer(all, body.len() as int, width as int, true) == Some(
            (signed(width, value), with_integer(body, value, width).len() as int),
        ),
{
    lemma_spans();
    lemma_read_number(body, value, width, all);
    if value < 0 {
        lemma_negative(value, width);
    } else {
        lemma_unsigned(value, width);
    }
}

proof fn lemma_read_unsigned(body: Seq<u8>, value: int, width: nat, all: Seq<u8>)
    requires
        width == 1 || width == 2 || width == 4 || width == 8,
        0 <= value < span(width),
        with_integer(body, value, width).is_prefix_of(all),
    ensures
        read_number(all, body.len() as int, width as int) == Some(
            (value, with_integer(body, value, width).len() as int),
        ),
        read_integer(all, body.len() as int, width as int, false) == Some(
            (unsigned(width, value), with_integer(body, value, width).len() as int),
        ),
        read_float(all, body.len() as int, width as int) == Some(
            (
                Value::Float { width, bits: value },
                with_integer(body, value, width).len() as int,
            ),
        ),
{
    lemma_read_number(body, value, width, all);
    lemma_unsigned(value, width);
}

proof fn lemma_read_text(body: Seq<u8>, text: Seq<char>, all: Seq<u8>)
    requires
        encode_utf8(text).len() < 0xffff_ffff,
        with_string(body, encode_utf8(text)).is_prefix_of(all),
    ensures
        read_text(all, body.len() as int) == Some(
            (Value::Text(text), with_string(body, encode_utf8(text)).len() as int),
        ),
{
    let bytes = encode_utf8(text);
    let length = bytes.len() as int + 1;
    let head = with_integer(body, length, 4);
    let written = with_string(body, bytes);
    assert forall|i: int| 0 <= i < written.len() implies #[trigger] all[i] == written[i] by {
        assert(written == all.subrange(0, written.len() as int));
        assert(all.subrange(0, written.len() as int)[i] == all[i]);
    }
    assert(head =~= all.subrange(0, head.len() as int)) by {
        assert forall|i: int| 0 <= i < head.len() implies head[i] == all[i] by {
            assert(written[i] == head[i]);
        }
    }
    lemma_spans();
    lemma_read_unsigned(body, length, 4, all);
    let start = head.len() as int;
    assert(all.subrange(start, start + length - 1) =~= bytes) by {
        assert forall|i: int| 0 <= i < bytes.len() implies all.subrange(start, start + length - 1)[i]
            == bytes[i] by {
            assert(written[start + i] == bytes[i]);
        }
    }
    assert(written[start + length - 1] == 0);
    encode_utf8_valid_utf8(text);
    encode_utf8_decode_utf8(text);
}

/// A scalar that was written is read where it was.
proof fn lemma_read_scalar(
    ty: BuiltInType,
    column: Column,
    row: int,
    body: Seq<u8>,
    all: Seq<u8>,
)
    requires
        misfit(ty, column) is None,
        column.well_formed(),
        0 <= row < column.rows(),
        with_scalar(body, column, row).is_prefix_of(all),
    ensures
        read_builtin(ty, all, body.len() as int) == Some(
            (value_at(column, row), with_scalar(body, column, row).len() as int),
        ),
{
    lemma_spans();
    let written = with_scalar(body, column, row);
    assert forall|i: int| 0 <= i < written.len() implies #[trigger] all[i] == written[i] by {
        assert(written == all.subrange(0, written.len() as int));
        assert(all.subrange(0, written.len() as int)[i] == all[i]);
    }
    match column {
        Column::Bool(v) => {
            assert(written[body.len() as int] == (if v@[row] {
                1u8
            } else {
                0u8
            }));
        },
        Column::UInt8(v) => {
            let byte = v@[row];
            let at = body.len() as int;
            assert(written[at] == byte);
            let one = all.subrange(at, at + 1);
            assert(one[0] == byte);
            assert(one.skip(1) =~= Seq::<u8>::empty());
            assert(number(one.skip(1)) == 0);
            assert(number(one) == byte as int);
            assert(read_number(all, at, 1) == Some((byte as int, at + 1)));
        },
        Column::Int8(v) => {
            lemma_read_signed(body, v@[row] as int, 1, all);
        },
        Column::Int16(v) => {
            lemma_read_signed(body, v@[row] as int, 2, all);
        },
        Column::UInt16(v) => {
            lemma_read_unsigned(body, v@[row] as int, 2, all);
        },
        Column::Int32(v) => {
            lemma_read_signed(body, v@[row] as int, 4, all);
        },
        Column::UInt32(v) => {
            lemma_read_unsigned(body, v@[row] as int, 4, all);
        },
        Column::Int64(v) => {
            lemma_read_signed(body, v@[row] as int, 8, all);
        },
        Column::UInt64(v) => {
            lemma_read_unsigned(body, v@[row] as int, 8, all);
        },
        Column::Float32(v) => {
            lemma_read_unsigned(body, v@[row] as int, 4, all);
        },
        Column::Float64(v) => {
            lemma_read_unsigned(body, v@[row] as int, 8, all);
        },
        Column::Utf8(v) => {
            assert(encode_utf8(v@[row]@).len() < 0xffff_ffff);
            lemma_read_text(body, v@[row]@, all);
        },
        _ => {},
    }
}

/// The first values of a column.
spec fn values_of(column: Column, count: nat) -> Seq<Value> {
    Seq::new(count, |i: int| value_at(column, i))
}

/// The first fields of a message.
spec fn fields_of(message: StructColumn, row: int, count: nat) -> Seq<Value> {
    Seq::new(count, |c: int| value_at(message.columns@[c], row))
}

proof fn lemma_shorter(x: Seq<u8>, y: Seq<u8>, all: Seq<u8>)
    requires
        x.is_prefix_of(y),
        y.is_prefix_of(all),
    ensures
        x.is_prefix_of(all),
{
    assert(x =~= all.subrange(0, x.len() as int)) by {
        assert forall|k: int| 0 <= k < x.len() implies x[k] == all[k] by {
            assert(x[k] == y.subrange(0, x.len() as int)[k]);
            assert(y[k] == all.subrange(0, y.len() as int)[k]);
        }
    }
}

proof fn lemma_read_scalars(
    plan: MessageDecodePlan,
    ty: BuiltInType,
    column: Column,
    count: nat,
    body: Seq<u8>,
    all: Seq<u8>,
    depth: nat,
)
    requires
        misfit(ty, column) is None,
        column.well_formed(),
        count <= column.rows(),
        with_scalars(body, column, count).is_prefix_of(all),
    ensures
        read_elements(plan, ValueLayout::BuiltIn(ty), all, body.len() as int, count, depth) == Some(
            (values_of(column, count), with_scalars(body, column, count).len() as int),
        ),
    decreases count,
{
    if count == 0 {
        assert(values_of(column, 0) =~= Seq::<Value>::empty());
    } else {
        let fewer = (count - 1) as nat;
        let before = with_scalars(body, column, fewer);
        let after = with_scalars(body, column, count);
        assert(before.is_prefix_of(after)) by {
            assert(before =~= after.subrange(0, before.len() as int));
        }
        lemma_shorter(before, after, all);
        lemma_read_scalars(plan, ty, column, fewer, body, all, depth);
        lemma_read_scalar(ty, column, count - 1, before, all);
        assert(values_of(column, count) =~= values_of(column, fewer).push(
            value_at(column, count - 1),
        ));
        assert(read_value(plan, ValueLayout::BuiltIn(ty), all, before.len() as int, depth)
            == read_builtin(ty, all, before.len() as int));
    }
}

/// A value that was written is read where it was, and up to where it ends.
proof fn lemma_read_value(
    plan: MessageDecodePlan,
    layout: ValueLayout,
    column: Column,
    row: int,
    body: Seq<u8>,
    all: Seq<u8>,
    depth: nat,
)
    requires
        column.well_formed(),
        0 <= row < column.rows(),
        with_value(plan, layout, column, row, body) matches Ok(after) && after.is_prefix_of(all),
        depth_of(column) <= depth,
    ensures
        read_value(plan, layout, all, body.len() as int, depth) == Some(
            (
                value_at(column, row),
                with_value(plan, layout, column, row, body)->Ok_0.len() as int,
            ),
        ),
    decreases column, 0nat,
{
    let after = with_value(plan, layout, column, row, body)->Ok_0;
    match layout {
        ValueLayout::BuiltIn(ty) => {
            lemma_read_scalar(ty, column, row, body, all);
        },
        ValueLayout::Message(id) => {
            if let Column::Struct(nested) = column {
                let n = nested.columns@.len();
                lemma_read_fields(
                    plan,
                    id as int,
                    nested,
                    row,
                    n,
                    body,
                    all,
                    (depth - 1) as nat,
                );
                lemma_all_fields(nested, row);
            }
        },
        ValueLayout::Array { element, size } => {
            if let Column::List(lists) = column {
                let values = lists@[row];
                let count = values.rows();
                lemma_depth_of_list(column, lists@.len(), row);
                let start = if size is Fixed {
                    body
                } else {
                    with_integer(body, count as int, 4)
                };
                assert(start.is_prefix_of(after)) by {
                    match *element {
                        ValueLayout::BuiltIn(ty) => {
                            lemma_scalars_append(start, values, count);
                        },
                        _ => {
                            lemma_elements_append(plan, *element, values, count, start);
                        },
                    }
                }
                lemma_shorter(start, after, all);
                if !(size is Fixed) {
                    lemma_spans();
                    lemma_read_unsigned(body, count as int, 4, all);
                }
                match *element {
                    ValueLayout::BuiltIn(ty) => {
                        lemma_read_scalars(plan, ty, values, count, start, all, depth);
                    },
                    _ => {
                        lemma_read_elements(
                            plan,
                            *element,
                            values,
                            count,
                            start,
                            all,
                            depth,
                        );
                    },
                }
                assert(value_at(column, row) == Value::List(values_of(values, count))) by {
                    let list = value_at(column, row)->List_0;
                    assert forall|i: int| 0 <= i < count implies list[i] == value_at(
                        values,
                        i,
                    ) by {}
                    assert(list =~= values_of(values, count));
                }
            }
        },
    }
}

proof fn lemma_read_elements(
    plan: MessageDecodePlan,
    layout: ValueLayout,
    column: Column,
    count: nat,
    body: Seq<u8>,
    all: Seq<u8>,
    depth: nat,
)
    requires
        column.well_formed(),
        count <= column.rows(),
        with_elements(plan, layout, column, count, body) matches Ok(after) && after.is_prefix_of(
            all,
        ),
        depth_of(column) <= depth,
    ensures
        read_elements(plan, layout, all, body.len() as int, count, depth) == Some(
            (
                values_of(column, count),
                with_elements(plan, layout, column, count, body)->Ok_0.len() as int,
            ),
        ),
    decreases column, count + 1,
{
    if count == 0 {
        assert(values_of(column, 0) =~= Seq::<Value>::empty());
    } else {
        let fewer = (count - 1) as nat;
        let before = with_elements(plan, layout, column, fewer, body)->Ok_0;
        let after = with_elements(plan, layout, column, count, body)->Ok_0;
        writing_a_value_only_appends(plan, layout, column, count - 1, before);
        lemma_shorter(before, after, all);
        lemma_read_elements(plan, layout, column, fewer, body, all, depth);
        lemma_read_value(plan, layout, column, count - 1, before, all, depth);
        assert(values_of(column, count) =~= values_of(column, fewer).push(
            value_at(column, count - 1),
        ));
    }
}

proof fn lemma_read_fields(
    plan: MessageDecodePlan,
    id: int,
    message: StructColumn,
    row: int,
    count: nat,
    body: Seq<u8>,
    all: Seq<u8>,
    depth: nat,
)
    requires
        message.well_formed(),
        0 <= row < message.rows,
        count <= message.columns@.len(),
        with_fields(plan, id, message, row, count, body) matches Ok(after) && after.is_prefix_of(
            all,
        ),
        depth_of_fields(message, message.columns@.len()) <= depth,
    ensures
        read_fields(plan, id, all, body.len() as int, count, depth) == Some(
            (
                fields_of(message, row, count),
                with_fields(plan, id, message, row, count, body)->Ok_0.len() as int,
            ),
        ),
    decreases message, count,
{
    if count == 0 {
        assert(fields_of(message, row, 0) =~= Seq::<Value>::empty());
    } else {
        let fewer = (count - 1) as nat;
        let layout = plan.messages@[id].fields@[count - 1].value;
        let column = message.columns@[count - 1];
        let before = with_fields(plan, id, message, row, fewer, body)->Ok_0;
        let after = with_fields(plan, id, message, row, count, body)->Ok_0;
        lemma_depth_of_field(message, message.columns@.len(), count - 1);
        writing_a_value_only_appends(plan, layout, column, row, before);
        lemma_shorter(before, after, all);
        lemma_read_fields(plan, id, message, row, fewer, body, all, depth);
        lemma_read_value(plan, layout, column, row, before, all, depth);
        assert(fields_of(message, row, count) =~= fields_of(message, row, fewer).push(
            value_at(column, row),
        ));
    }
}

proof fn lemma_all_fields(message: StructColumn, row: int)
    ensures
        message_at(message, row) == Value::Message(
            fields_of(message, row, message.columns@.len()),
        ),
{
    let fields = message_at(message, row)->Message_0;
    assert forall|c: int| 0 <= c < message.columns@.len() implies fields[c] == value_at(
        message.columns@[c],
        row,
    ) by {}
    assert(fields =~= fields_of(message, row, message.columns@.len()));
}

proof fn lemma_depth_of_list(column: Column, count: nat, row: int)
    requires
        column matches Column::List(lists) && 0 <= row < count <= lists@.len(),
    ensures
        depth_of(column->List_0@[row]) <= depth_of_lists(column, count),
    decreases count,
{
    if row < count - 1 {
        lemma_depth_of_list(column, (count - 1) as nat, row);
    }
}

proof fn lemma_depth_of_field(message: StructColumn, count: nat, field: int)
    requires
        0 <= field < count <= message.columns@.len(),
    ensures
        depth_of(message.columns@[field]) <= depth_of_fields(message, count),
    decreases count,
{
    if field < count - 1 {
        lemma_depth_of_field(message, (count - 1) as nat, field);
    }
}

/// A subscriber reads of a message that was written back exactly the values that were kept: every
/// field of the row, in the order the type declares them, and nothing else. The header says how
/// they are written, each is where its size puts it, an array of no fixed length says in four
/// bytes how many elements there are, and a text how many bytes.
pub proof fn a_subscriber_reads_what_was_kept(
    plan: MessageDecodePlan,
    root: StructColumn,
    row: int,
    message: Seq<u8>,
    depth: nat,
)
    requires
        root.well_formed(),
        0 <= row < root.rows,
        encoded(plan, root, row) == Ok::<Seq<u8>, Fault>(message),
        depth >= depth_of_fields(root, root.columns@.len()),
    ensures
        read_message(plan, message, depth) == Some(message_at(root, row)),
{
    let body = with_message(plan, 0, root, row, Seq::empty())->Ok_0;
    assert(message.skip(4) =~= body);
    assert(body =~= body.subrange(0, body.len() as int));
    lemma_read_fields(plan, 0, root, row, root.columns@.len(), Seq::empty(), body, depth);
    lemma_all_fields(root, row);
}

/// Whether a column holds what a field of a built-in type is decoded into. Nothing is decoded
/// into a `wstring`.
pub open spec fn is_column_of(ty: BuiltInType, column: Column) -> bool {
    match (ty, column) {
        (BuiltInType::Bool, Column::Bool(_)) => true,
        (BuiltInType::Byte, Column::UInt8(_)) => true,
        (BuiltInType::Char, Column::UInt8(_)) => true,
        (BuiltInType::UInt8, Column::UInt8(_)) => true,
        (BuiltInType::Int8, Column::Int8(_)) => true,
        (BuiltInType::Int16, Column::Int16(_)) => true,
        (BuiltInType::UInt16, Column::UInt16(_)) => true,
        (BuiltInType::Int32, Column::Int32(_)) => true,
        (BuiltInType::UInt32, Column::UInt32(_)) => true,
        (BuiltInType::Int64, Column::Int64(_)) => true,
        (BuiltInType::UInt64, Column::UInt64(_)) => true,
        (BuiltInType::Float32, Column::Float32(_)) => true,
        (BuiltInType::Float64, Column::Float64(_)) => true,
        (BuiltInType::String(_), Column::Utf8(_)) => true,
        _ => false,
    }
}

/// Whether the value at a row of a column is one of this layout: of its type, with every field of
/// a message and every element of an array being of theirs. An array of a fixed length has as
/// many elements.
pub open spec fn is_laid_out(
    plan: MessageDecodePlan,
    layout: ValueLayout,
    column: Column,
    row: int,
) -> bool
    decreases column, 0nat,
{
    match layout {
        ValueLayout::BuiltIn(ty) => is_column_of(ty, column),
        ValueLayout::Message(id) => column matches Column::Struct(nested) && is_message_of(
            plan,
            id as int,
            nested,
            row,
        ),
        ValueLayout::Array { element, size } => column matches Column::List(lists) && {
            &&& 0 <= row < lists@.len()
            &&& size matches ArraySize::Fixed(count) ==> lists@[row].rows() == count
            &&& *element matches ValueLayout::BuiltIn(ty) ==> is_column_of(ty, lists@[row])
            &&& are_laid_out(plan, *element, lists@[row], lists@[row].rows())
        },
    }
}

/// Whether the first values of a column are all of this layout.
pub open spec fn are_laid_out(
    plan: MessageDecodePlan,
    layout: ValueLayout,
    column: Column,
    count: nat,
) -> bool
    decreases column, count + 1,
{
    count == 0 || (are_laid_out(plan, layout, column, (count - 1) as nat) && is_laid_out(
        plan,
        layout,
        column,
        count - 1,
    ))
}

/// Whether a row of structs is a message of this type: as many columns as the type has fields,
/// and each laid out as its field.
pub open spec fn is_message_of(
    plan: MessageDecodePlan,
    id: int,
    message: StructColumn,
    row: int,
) -> bool
    decreases message, 1nat,
{
    let fields = plan.messages@[id].fields@;
    &&& fields.len() == message.columns@.len()
    &&& forall|c: int|
        #![trigger message.columns@[c]]
        0 <= c < message.columns@.len() ==> is_laid_out(
            plan,
            fields[c].value,
            message.columns@[c],
            row,
        )
}

proof fn lemma_column_of(ty: BuiltInType, column: Column)
    ensures
        misfit(ty, column) is None <==> is_column_of(ty, column),
{
    match ty {
        BuiltInType::Bool => {},
        BuiltInType::Byte => {},
        BuiltInType::Char => {},
        BuiltInType::Float32 => {},
        BuiltInType::Float64 => {},
        BuiltInType::Int8 => {},
        BuiltInType::Int16 => {},
        BuiltInType::Int32 => {},
        BuiltInType::Int64 => {},
        BuiltInType::UInt8 => {},
        BuiltInType::UInt16 => {},
        BuiltInType::UInt32 => {},
        BuiltInType::UInt64 => {},
        BuiltInType::String(_) => {},
        BuiltInType::WString(_) => {},
    }
}

proof fn lemma_value_is_written(
    plan: MessageDecodePlan,
    layout: ValueLayout,
    column: Column,
    row: int,
    body: Seq<u8>,
)
    requires
        column.well_formed(),
        0 <= row < column.rows(),
    ensures
        with_value(plan, layout, column, row, body) is Ok <==> is_laid_out(
            plan,
            layout,
            column,
            row,
        ),
    decreases column, 0nat,
{
    match layout {
        ValueLayout::BuiltIn(ty) => {
            lemma_column_of(ty, column);
        },
        ValueLayout::Message(id) => {
            if let Column::Struct(nested) = column {
                lemma_message_is_written(plan, id as int, nested, row, body);
            }
        },
        ValueLayout::Array { element, size } => {
            if let Column::List(lists) = column {
                let values = lists@[row];
                let count = values.rows();
                let start = if size is Fixed {
                    body
                } else {
                    with_integer(body, count as int, 4)
                };
                match *element {
                    ValueLayout::BuiltIn(ty) => {
                        lemma_column_of(ty, values);
                        if is_column_of(ty, values) {
                            lemma_scalars_laid_out(plan, ty, values, count);
                        }
                    },
                    _ => {
                        lemma_elements_are_written(plan, *element, values, count, start);
                    },
                }
            }
        },
    }
}

proof fn lemma_elements_are_written(
    plan: MessageDecodePlan,
    layout: ValueLayout,
    column: Column,
    count: nat,
    body: Seq<u8>,
)
    requires
        column.well_formed(),
        count <= column.rows(),
    ensures
        with_elements(plan, layout, column, count, body) is Ok <==> are_laid_out(
            plan,
            layout,
            column,
            count,
        ),
    decreases column, count + 1,
{
    if count > 0 {
        let fewer = (count - 1) as nat;
        lemma_elements_are_written(plan, layout, column, fewer, body);
        if let Ok(before) = with_elements(plan, layout, column, fewer, body) {
            lemma_value_is_written(plan, layout, column, count - 1, before);
        }
    }
}

proof fn lemma_scalars_laid_out(
    plan: MessageDecodePlan,
    ty: BuiltInType,
    column: Column,
    count: nat,
)
    requires
        is_column_of(ty, column),
    ensures
        are_laid_out(plan, ValueLayout::BuiltIn(ty), column, count),
    decreases count,
{
    if count > 0 {
        lemma_scalars_laid_out(plan, ty, column, (count - 1) as nat);
        assert(is_laid_out(plan, ValueLayout::BuiltIn(ty), column, count - 1));
    }
}

proof fn lemma_message_is_written(
    plan: MessageDecodePlan,
    id: int,
    message: StructColumn,
    row: int,
    body: Seq<u8>,
)
    requires
        message.well_formed(),
        0 <= row < message.rows,
    ensures
        with_message(plan, id, message, row, body) is Ok <==> is_message_of(plan, id, message, row),
    decreases message, message.columns@.len() + 1,
{
    if plan.messages@[id].fields@.len() == message.columns@.len() {
        lemma_fields_are_written(plan, id, message, row, message.columns@.len(), body);
    }
}

proof fn lemma_fields_are_written(
    plan: MessageDecodePlan,
    id: int,
    message: StructColumn,
    row: int,
    count: nat,
    body: Seq<u8>,
)
    requires
        message.well_formed(),
        0 <= row < message.rows,
        count <= message.columns@.len() == plan.messages@[id].fields@.len(),
    ensures
        with_fields(plan, id, message, row, count, body) is Ok <==> forall|c: int|
            #![trigger message.columns@[c]]
            0 <= c < count ==> is_laid_out(
                plan,
                plan.messages@[id].fields@[c].value,
                message.columns@[c],
                row,
            ),
    decreases message, count,
{
    if count > 0 {
        let fewer = (count - 1) as nat;
        let layout = plan.messages@[id].fields@[count - 1].value;
        let column = message.columns@[count - 1];
        lemma_fields_are_written(plan, id, message, row, fewer, body);
        if let Ok(before) = with_fields(plan, id, message, row, fewer, body) {
            lemma_value_is_written(plan, layout, column, row, before);
        }
    }
}

/// A row is written back exactly where it is a message of its type: every field of it holds what
/// the field is decoded into, and every array of a fixed length is as long as it has to be.
/// Otherwise the fault says where: it is under the first field that does not, or says how many
/// fields there are where that is not how many the type has.
pub proof fn a_message_of_its_type_is_written_back(
    plan: MessageDecodePlan,
    root: StructColumn,
    row: int,
)
    requires
        root.well_formed(),
        0 <= row < root.rows,
    ensures
        encoded(plan, root, row) is Ok <==> is_message_of(plan, 0, root, row),
        encoded(plan, root, row) matches Err(fault) ==> {
            let fields = plan.messages@[0].fields@;
            if fields.len() != root.columns@.len() {
                &&& fault.path.len() == 0
                &&& fault.problem is FieldCount
            } else {
                exists|c: int|
                    {
                        &&& 0 <= c < fields.len()
                        &&& !is_laid_out(plan, fields[c].value, #[trigger] root.columns@[c], row)
                        &&& forall|b: int|
                            0 <= b < c ==> is_laid_out(
                                plan,
                                fields[b].value,
                                #[trigger] root.columns@[b],
                                row,
                            )
                        &&& fault.path.len() > 0
                        &&& fault.path[0] == fields[c].name@
                    }
            }
        },
{
    lemma_message_is_written(plan, 0, root, row, Seq::empty());
    if plan.messages@[0].fields@.len() == root.columns@.len() {
        lemma_first_fault(plan, root, row, root.columns@.len());
    }
}

proof fn lemma_first_fault(plan: MessageDecodePlan, root: StructColumn, row: int, count: nat)
    requires
        root.well_formed(),
        0 <= row < root.rows,
        count <= root.columns@.len() == plan.messages@[0].fields@.len(),
    ensures
        with_fields(plan, 0, root, row, count, Seq::empty()) matches Err(fault) ==> {
            let fields = plan.messages@[0].fields@;
            exists|c: int|
                {
                    &&& 0 <= c < count
                    &&& !is_laid_out(plan, fields[c].value, #[trigger] root.columns@[c], row)
                    &&& forall|b: int|
                        0 <= b < c ==> is_laid_out(
                            plan,
                            fields[b].value,
                            #[trigger] root.columns@[b],
                            row,
                        )
                    &&& fault.path.len() > 0
                    &&& fault.path[0] == fields[c].name@
                }
        },
    decreases count,
{
    if count > 0 {
        let fewer = (count - 1) as nat;
        lemma_first_fault(plan, root, row, fewer);
        if let Ok(before) = with_fields(plan, 0, root, row, fewer, Seq::empty()) {
            lemma_fields_are_written(plan, 0, root, row, fewer, Seq::empty());
            let column = root.columns@[count - 1];
            lemma_value_is_written(
                plan,
                plan.messages@[0].fields@[count - 1].value,
                column,
                row,
                before,
            );
        }
    }
}

/// Whether a problem stands in the way of writing a value, under these fields of it.
pub open spec fn value_has(
    plan: MessageDecodePlan,
    layout: ValueLayout,
    column: Column,
    row: int,
    path: Seq<Seq<char>>,
    problem: Problem,
) -> bool
    decreases column, 0nat,
{
    match layout {
        ValueLayout::BuiltIn(ty) => path.len() == 0 && if ty is WString {
            problem is WString
        } else {
            problem == Problem::NotBuiltIn(ty) && !is_column_of(ty, column)
        },
        ValueLayout::Message(id) => match column {
            Column::Struct(nested) => message_has(plan, id as int, nested, row, path, problem),
            _ => path.len() == 0 && problem is NotStruct,
        },
        ValueLayout::Array { element, size } => match column {
            Column::List(lists) => 0 <= row < lists@.len() && {
                let count = lists@[row].rows();
                match size {
                    ArraySize::Fixed(wanted) => if count != wanted {
                        &&& path.len() == 0
                        &&& problem matches Problem::FixedSize { len, expected } && len == count
                            && expected == wanted
                    } else {
                        elements_have(plan, *element, lists@[row], count, path, problem)
                    },
                    _ => elements_have(plan, *element, lists@[row], count, path, problem),
                }
            },
            _ => path.len() == 0 && problem is NotList,
        },
    }
}

/// Whether a problem stands in the way of writing one of the first values of a column. Values of a
/// built-in type are all in the way or none of them is, even where there are none.
pub open spec fn elements_have(
    plan: MessageDecodePlan,
    layout: ValueLayout,
    column: Column,
    count: nat,
    path: Seq<Seq<char>>,
    problem: Problem,
) -> bool
    decreases column, count + 1,
{
    match layout {
        ValueLayout::BuiltIn(_) => value_has(plan, layout, column, 0, path, problem),
        _ => count > 0 && (elements_have(plan, layout, column, (count - 1) as nat, path, problem)
            || value_has(plan, layout, column, count - 1, path, problem)),
    }
}

/// Whether a problem stands in the way of writing a message, under these fields of it.
pub open spec fn message_has(
    plan: MessageDecodePlan,
    id: int,
    message: StructColumn,
    row: int,
    path: Seq<Seq<char>>,
    problem: Problem,
) -> bool
    decreases message, 1nat,
{
    let declared = plan.messages@[id].fields@;
    if declared.len() != message.columns@.len() {
        &&& path.len() == 0
        &&& problem matches Problem::FieldCount { columns, fields } && columns
            == message.columns@.len() && fields == declared.len()
    } else {
        exists|c: int|
            #![trigger message.columns@[c]]
            {
                &&& 0 <= c < message.columns@.len()
                &&& path.len() > 0
                &&& path[0] == declared[c].name@
                &&& value_has(
                    plan,
                    declared[c].value,
                    message.columns@[c],
                    row,
                    path.skip(1),
                    problem,
                )
            }
    }
}

/// What a row that cannot be written back is told to be wrong with it is so: under the fields that
/// are named, outermost first, there is what is told. A type with another number of fields is told
/// both numbers, and a fixed array with another number of elements both of those.
pub proof fn what_is_told_of_a_message_is_so(plan: MessageDecodePlan, root: StructColumn, row: int)
    requires
        root.well_formed(),
        0 <= row < root.rows,
    ensures
        encoded(plan, root, row) matches Err(fault) ==> message_has(
            plan,
            0,
            root,
            row,
            fault.path,
            fault.problem,
        ),
{
    lemma_message_has(plan, 0, root, row, Seq::empty());
}

proof fn lemma_value_has(
    plan: MessageDecodePlan,
    layout: ValueLayout,
    column: Column,
    row: int,
    body: Seq<u8>,
)
    requires
        column.well_formed(),
        0 <= row < column.rows(),
    ensures
        with_value(plan, layout, column, row, body) matches Err(fault) ==> value_has(
            plan,
            layout,
            column,
            row,
            fault.path,
            fault.problem,
        ),
    decreases column, 0nat,
{
    match layout {
        ValueLayout::BuiltIn(ty) => {
            lemma_column_of(ty, column);
            lemma_misfit(ty, column);
        },
        ValueLayout::Message(id) => {
            if let Column::Struct(nested) = column {
                lemma_message_has(plan, id as int, nested, row, body);
            }
        },
        ValueLayout::Array { element, size } => {
            if let Column::List(lists) = column {
                let values = lists@[row];
                let count = values.rows();
                let start = if size is Fixed {
                    body
                } else {
                    with_integer(body, count as int, 4)
                };
                match *element {
                    ValueLayout::BuiltIn(ty) => {
                        lemma_column_of(ty, values);
                        lemma_misfit(ty, values);
                        reveal_with_fuel(value_has, 2);
                        reveal_with_fuel(elements_have, 2);
                    },
                    _ => {
                        lemma_elements_have(plan, *element, values, count, start);
                    },
                }
            }
        },
    }
}

proof fn lemma_misfit(ty: BuiltInType, column: Column)
    ensures
        misfit(ty, column) matches Some(problem) ==> if ty is WString {
            problem is WString
        } else {
            problem == Problem::NotBuiltIn(ty)
        },
{
}

proof fn lemma_elements_have(
    plan: MessageDecodePlan,
    layout: ValueLayout,
    column: Column,
    count: nat,
    body: Seq<u8>,
)
    requires
        column.well_formed(),
        count <= column.rows(),
        !(layout is BuiltIn),
    ensures
        with_elements(plan, layout, column, count, body) matches Err(fault) ==> elements_have(
            plan,
            layout,
            column,
            count,
            fault.path,
            fault.problem,
        ),
    decreases column, count + 1,
{
    if count > 0 {
        let fewer = (count - 1) as nat;
        lemma_elements_have(plan, layout, column, fewer, body);
        if let Ok(before) = with_elements(plan, layout, column, fewer, body) {
            lemma_value_has(plan, layout, column, count - 1, before);
        }
    }
}

proof fn lemma_message_has(
    plan: MessageDecodePlan,
    id: int,
    message: StructColumn,
    row: int,
    body: Seq<u8>,
)
    requires
        message.well_formed(),
        0 <= row < message.rows,
    ensures
        with_message(plan, id, message, row, body) matches Err(fault) ==> message_has(
            plan,
            id,
            message,
            row,
            fault.path,
            fault.problem,
        ),
    decreases message, message.columns@.len() + 1,
{
    assert(message.columns.len() == message.columns@.len());
    assert(plan.messages@[id].fields.len() == plan.messages@[id].fields@.len());
    if plan.messages@[id].fields@.len() == message.columns@.len() {
        lemma_fields_have(plan, id, message, row, message.columns@.len(), body);
    }
}

proof fn lemma_fields_have(
    plan: MessageDecodePlan,
    id: int,
    message: StructColumn,
    row: int,
    count: nat,
    body: Seq<u8>,
)
    requires
        message.well_formed(),
        0 <= row < message.rows,
        count <= message.columns@.len() == plan.messages@[id].fields@.len(),
    ensures
        with_fields(plan, id, message, row, count, body) matches Err(fault) ==> message_has(
            plan,
            id,
            message,
            row,
            fault.path,
            fault.problem,
        ),
    decreases message, count,
{
    if count > 0 {
        let fewer = (count - 1) as nat;
        let field = plan.messages@[id].fields@[count - 1];
        let column = message.columns@[count - 1];
        lemma_fields_have(plan, id, message, row, fewer, body);
        if let Ok(before) = with_fields(plan, id, message, row, fewer, body) {
            lemma_value_has(plan, field.value, column, row, before);
            if let Err(fault) = with_value(plan, field.value, column, row, before) {
                let path = seq![field.name@] + fault.path;
                assert(path.skip(1) =~= fault.path);
                assert(message_has(plan, id, message, row, path, fault.problem));
            }
        }
    }
}

} // verus!
