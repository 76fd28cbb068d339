//! What writing a message back keeps: everything.
//!
//! A message that was kept as a struct is handed out by writing its fields back in the order
//! of its definition. Nothing is lost on the way: two messages of one type that are written
//! alike hold the same values.

use vstd::prelude::*;
use vstd::utf8::{encode_utf8, encode_utf8_decode_utf8};

use crate::cdr::{aligned, le_bytes, with_integer, with_string};
use crate::replay::{
    encapsulation, encoded, fits, misfit, with_elements, with_fields, with_message, with_scalar,
    with_scalars, with_value, BuiltInType, Column, Fault, MessageDecodePlan, StructColumn,
    ValueLayout,
};

verus! {

/// Whether two columns of one built-in type hold the same value at two rows.
pub open spec fn same_scalar(a: Column, i: int, b: Column, j: int) -> bool {
    match (a, b) {
        (Column::Bool(a), Column::Bool(b)) => a@[i] == b@[j],
        (Column::UInt8(a), Column::UInt8(b)) => a@[i] == b@[j],
        (Column::Int8(a), Column::Int8(b)) => a@[i] == b@[j],
        (Column::Int16(a), Column::Int16(b)) => a@[i] == b@[j],
        (Column::UInt16(a), Column::UInt16(b)) => a@[i] == b@[j],
        (Column::Int32(a), Column::Int32(b)) => a@[i] == b@[j],
        (Column::UInt32(a), Column::UInt32(b)) => a@[i] == b@[j],
        (Column::Int64(a), Column::Int64(b)) => a@[i] == b@[j],
        (Column::UInt64(a), Column::UInt64(b)) => a@[i] == b@[j],
        (Column::Float32(a), Column::Float32(b)) => a@[i] == b@[j],
        (Column::Float64(a), Column::Float64(b)) => a@[i] == b@[j],
        (Column::Utf8(a), Column::Utf8(b)) => a@[i]@ == b@[j]@,
        _ => false,
    }
}

/// Whether two columns laid out alike hold the same value at two rows: the same scalar, the
/// same in every field, or as many elements and each of them the same.
pub open spec fn same_value(
    plan: MessageDecodePlan,
    layout: ValueLayout,
    a: Column,
    i: int,
    b: Column,
    j: int,
) -> bool
    decreases a, 0nat,
{
    match layout {
        ValueLayout::BuiltIn(_) => same_scalar(a, i, b, j),
        ValueLayout::Message(id) => match (a, b) {
            (Column::Struct(a), Column::Struct(b)) => same_message(plan, id as int, a, i, b, j),
            _ => false,
        },
        ValueLayout::Array { element, .. } => match (a, b) {
            (Column::List(a), Column::List(b)) => if 0 <= i < a@.len() && 0 <= j < b@.len() {
                &&& a@[i].rows() == b@[j].rows()
                &&& same_elements(plan, *element, a@[i], b@[j], a@[i].rows())
            } else {
                false
            },
            _ => false,
        },
    }
}

/// Whether the first `count` values of two columns laid out alike are the same.
pub open spec fn same_elements(
    plan: MessageDecodePlan,
    layout: ValueLayout,
    a: Column,
    b: Column,
    count: nat,
) -> bool
    decreases a, count + 1,
{
    if count == 0 {
        true
    } else {
        &&& same_elements(plan, layout, a, b, (count - 1) as nat)
        &&& same_value(plan, layout, a, count - 1, b, count - 1)
    }
}

/// Whether two messages of one type hold the same values.
pub open spec fn same_message(
    plan: MessageDecodePlan,
    id: int,
    a: StructColumn,
    i: int,
    b: StructColumn,
    j: int,
) -> bool
    decreases a, a.columns@.len() + 1,
{
    &&& a.columns@.len() == b.columns@.len() == plan.messages@[id].fields@.len()
    &&& same_fields(plan, id, a, i, b, j, a.columns@.len())
}

/// Whether the first `count` fields of two messages of one type hold the same values.
pub open spec fn same_fields(
    plan: MessageDecodePlan,
    id: int,
    a: StructColumn,
    i: int,
    b: StructColumn,
    j: int,
    count: nat,
) -> bool
    decreases a, count,
{
    if count == 0 || count > a.columns@.len() {
        true
    } else {
        &&& same_fields(plan, id, a, i, b, j, (count - 1) as nat)
        &&& same_value(
            plan,
            plan.messages@[id].fields@[count - 1].value,
            a.columns@[count - 1],
            i,
            b.columns@[count - 1],
            j,
        )
    }
}

/// How many values `width` bytes tell apart.
spec fn spread(width: nat) -> int
    decreases width,
{
    if width == 0 {
        1
    } else {
        256 * spread((width - 1) as nat)
    }
}

proof fn lemma_le_len(value: int, width: nat)
    ensures
        le_bytes(value, width).len() == width,
    decreases width,
{
    if width > 0 {
        lemma_le_len(value / 256, (width - 1) as nat);
    }
}

/// Integers with the same bytes differ by a multiple of what the bytes tell apart.
proof fn lemma_le_bytes(a: int, b: int, width: nat) -> (k: int)
    requires
        le_bytes(a, width) == le_bytes(b, width),
    ensures
        a - b == k * spread(width),
        spread(width) > 0,
    decreases width,
{
    if width == 0 {
        assert(a - b == (a - b) * 1) by (nonlinear_arith);
        a - b
    } else {
        let rest = (width - 1) as nat;
        let x = le_bytes(a, width);
        let y = le_bytes(b, width);
        lemma_le_len(a / 256, rest);
        lemma_le_len(b / 256, rest);
        assert(x[0] == (a % 256) as u8 && y[0] == (b % 256) as u8);
        assert(a % 256 == b % 256);
        assert(le_bytes(a / 256, rest) =~= x.skip(1));
        assert(le_bytes(b / 256, rest) =~= y.skip(1));
        let k = lemma_le_bytes(a / 256, b / 256, rest);
        let p = spread(rest);
        assert(256 * (k * p) == k * (256 * p)) by (nonlinear_arith);
        assert(a - b == 256 * (a / 256 - b / 256));
        k
    }
}

/// Integers of one width are told apart by their bytes.
proof fn lemma_integer(a: int, b: int, width: nat)
    requires
        le_bytes(a, width) == le_bytes(b, width),
        -spread(width) < a - b < spread(width),
    ensures
        a == b,
{
    let k = lemma_le_bytes(a, b, width);
    let p = spread(width);
    assert(k == 0) by (nonlinear_arith)
        requires
            -p < k * p < p,
            p > 0,
    ;
}

proof fn lemma_spreads()
    ensures
        spread(1) == 0x100,
        spread(2) == 0x1_0000,
        spread(4) == 0x1_0000_0000,
        spread(8) == 0x1_0000_0000_0000_0000,
{
    reveal_with_fuel(spread, 9);
}

/// Two beginnings of the same bytes that are as long are the same.
proof fn lemma_same_beginning(x: Seq<u8>, y: Seq<u8>, all: Seq<u8>)
    requires
        x.is_prefix_of(all),
        y.is_prefix_of(all),
        x.len() == y.len(),
    ensures
        x == y,
{
    assert(x =~= y);
}

proof fn lemma_with_integer(body: Seq<u8>, a: int, b: int, width: nat, all: Seq<u8>)
    requires
        with_integer(body, a, width).is_prefix_of(all),
        with_integer(body, b, width).is_prefix_of(all),
        -spread(width) < a - b < spread(width),
    ensures
        a == b,
{
    let start = aligned(body, width as int);
    let x = with_integer(body, a, width);
    let y = with_integer(body, b, width);
    lemma_le_len(a, width);
    lemma_le_len(b, width);
    lemma_same_beginning(x, y, all);
    let n = start.len() as int;
    assert(le_bytes(a, width) =~= x.skip(n));
    assert(le_bytes(b, width) =~= y.skip(n));
    lemma_integer(a, b, width);
}

proof fn lemma_with_string(body: Seq<u8>, a: Seq<u8>, b: Seq<u8>, all: Seq<u8>)
    requires
        with_string(body, a).is_prefix_of(all),
        with_string(body, b).is_prefix_of(all),
        a.len() < 0xffff_ffff,
        b.len() < 0xffff_ffff,
    ensures
        a == b,
{
    lemma_spreads();
    let la = a.len() as int + 1;
    let lb = b.len() as int + 1;
    let x = with_integer(body, la, 4);
    let y = with_integer(body, lb, 4);
    assert(x.is_prefix_of(with_string(body, a)));
    assert(y.is_prefix_of(with_string(body, b)));
    lemma_prefix_of_prefix(x, with_string(body, a), all);
    lemma_prefix_of_prefix(y, with_string(body, b), all);
    lemma_with_integer(body, la, lb, 4, all);
    lemma_same_beginning(with_string(body, a), with_string(body, b), all);
    let n = x.len() as int;
    assert(a.push(0u8) =~= with_string(body, a).skip(n));
    assert(b.push(0u8) =~= with_string(body, b).skip(n));
    assert(a =~= a.push(0u8).drop_last());
    assert(b =~= b.push(0u8).drop_last());
}

proof fn lemma_prefix_of_prefix(x: Seq<u8>, y: Seq<u8>, all: Seq<u8>)
    requires
        x.is_prefix_of(y),
        y.is_prefix_of(all),
    ensures
        x.is_prefix_of(all),
{
    assert(x =~= all.subrange(0, x.len() as int)) by {
        assert forall|k: int| 0 <= k < x.len() implies x[k] == all[k] by {
            assert(x[k] == y.subrange(0, x.len() as int)[k]);
            assert(y[k] == all.subrange(0, y.len() as int)[k]);
        }
    }
}

/// Writing a scalar leaves what was written before it.
proof fn lemma_scalar_appends(body: Seq<u8>, column: Column, row: int)
    ensures
        body.is_prefix_of(with_scalar(body, column, row)),
{
    assert(body =~= with_scalar(body, column, row).subrange(0, body.len() as int));
}

pub(crate) proof fn lemma_scalars_append(body: Seq<u8>, column: Column, count: nat)
    ensures
        body.is_prefix_of(with_scalars(body, column, count)),
    decreases count,
{
    if count == 0 {
        assert(body =~= body.subrange(0, body.len() as int));
    } else {
        let before = with_scalars(body, column, (count - 1) as nat);
        lemma_scalars_append(body, column, (count - 1) as nat);
        lemma_scalar_appends(before, column, count - 1);
        lemma_prefix_of_prefix(body, before, with_scalars(body, column, count));
    }
}

/// Writing a value leaves what was written before it as it was.
pub proof fn writing_a_value_only_appends(
    plan: MessageDecodePlan,
    layout: ValueLayout,
    column: Column,
    row: int,
    body: Seq<u8>,
)
    ensures
        with_value(plan, layout, column, row, body) matches Ok(after) ==> body.is_prefix_of(after),
    decreases column, 0nat,
{
    match layout {
        ValueLayout::BuiltIn(ty) => {
            lemma_scalar_appends(body, column, row);
        },
        ValueLayout::Message(id) => {
            if let Column::Struct(nested) = column {
                writing_a_message_only_appends(plan, id as int, nested, row, body);
            }
        },
        ValueLayout::Array { element, size } => {
            if let Column::List(lists) = column {
                if 0 <= row < lists@.len() {
                    let values = lists@[row];
                    let count = values.rows();
                    let start = if size is Fixed {
                        body
                    } else {
                        with_integer(body, count as int, 4)
                    };
                    assert(body =~= start.subrange(0, body.len() as int));
                    lemma_scalars_append(start, values, count);
                    lemma_elements_append(plan, *element, values, count, start);
                    if let Ok(after) = with_value(plan, layout, column, row, body) {
                        lemma_prefix_of_prefix(body, start, after);
                    }
                }
            }
        },
    }
}

pub(crate) proof fn lemma_elements_append(
    plan: MessageDecodePlan,
    layout: ValueLayout,
    column: Column,
    count: nat,
    body: Seq<u8>,
)
    ensures
        with_elements(plan, layout, column, count, body) matches Ok(after) ==> body.is_prefix_of(
            after,
        ),
    decreases column, count + 1,
{
    if count == 0 {
        assert(body =~= body.subrange(0, body.len() as int));
    } else {
        lemma_elements_append(plan, layout, column, (count - 1) as nat, body);
        if let Ok(before) = with_elements(plan, layout, column, (count - 1) as nat, body) {
            writing_a_value_only_appends(plan, layout, column, count - 1, before);
            if let Ok(after) = with_elements(plan, layout, column, count, body) {
                lemma_prefix_of_prefix(body, before, after);
            }
        }
    }
}

/// Writing a message leaves what was written before it as it was.
pub proof fn writing_a_message_only_appends(
    plan: MessageDecodePlan,
    id: int,
    message: StructColumn,
    row: int,
    body: Seq<u8>,
)
    ensures
        with_message(plan, id, message, row, body) matches Ok(after) ==> body.is_prefix_of(after),
    decreases message, message.columns@.len() + 1,
{
    lemma_fields_append(plan, id, message, row, message.columns@.len(), body);
}

proof fn lemma_fields_append(
    plan: MessageDecodePlan,
    id: int,
    message: StructColumn,
    row: int,
    count: nat,
    body: Seq<u8>,
)
    ensures
        with_fields(plan, id, message, row, count, body) matches Ok(after) ==> body.is_prefix_of(
            after,
        ),
    decreases message, count,
{
    if count == 0 || count > message.columns@.len() {
        assert(body =~= body.subrange(0, body.len() as int));
    } else {
        lemma_fields_append(plan, id, message, row, (count - 1) as nat, body);
        if let Ok(before) = with_fields(plan, id, message, row, (count - 1) as nat, body) {
            writing_a_value_only_appends(
                plan,
                plan.messages@[id].fields@[count - 1].value,
                message.columns@[count - 1],
                row,
                before,
            );
            if let Ok(after) = with_fields(plan, id, message, row, count, body) {
                lemma_prefix_of_prefix(body, before, after);
            }
        }
    }
}

/// Scalars of one type that are written alike are the same.
proof fn lemma_same_scalar(
    ty: BuiltInType,
    a: Column,
    i: int,
    b: Column,
    j: int,
    body: Seq<u8>,
    all: Seq<u8>,
)
    requires
        fits(ty, a),
        fits(ty, b),
        a.well_formed(),
        b.well_formed(),
        0 <= i < a.rows(),
        0 <= j < b.rows(),
        with_scalar(body, a, i).is_prefix_of(all),
        with_scalar(body, b, j).is_prefix_of(all),
    ensures
        same_scalar(a, i, b, j),
        with_scalar(body, a, i) == with_scalar(body, b, j),
{
    lemma_spreads();
    let n = body.len() as int;
    match (a, b) {
        (Column::Bool(x), Column::Bool(y)) => {
            lemma_same_beginning(with_scalar(body, a, i), with_scalar(body, b, j), all);
            assert(with_scalar(body, a, i)[n] == with_scalar(body, b, j)[n]);
        },
        (Column::UInt8(x), Column::UInt8(y)) => {
            lemma_same_beginning(with_scalar(body, a, i), with_scalar(body, b, j), all);
            assert(with_scalar(body, a, i)[n] == with_scalar(body, b, j)[n]);
        },
        (Column::Int8(x), Column::Int8(y)) => {
            lemma_with_integer(body, x@[i] as int, y@[j] as int, 1, all);
        },
        (Column::Int16(x), Column::Int16(y)) => {
            lemma_with_integer(body, x@[i] as int, y@[j] as int, 2, all);
        },
        (Column::UInt16(x), Column::UInt16(y)) => {
            lemma_with_integer(body, x@[i] as int, y@[j] as int, 2, all);
        },
        (Column::Int32(x), Column::Int32(y)) => {
            lemma_with_integer(body, x@[i] as int, y@[j] as int, 4, all);
        },
        (Column::UInt32(x), Column::UInt32(y)) => {
            lemma_with_integer(body, x@[i] as int, y@[j] as int, 4, all);
        },
        (Column::Int64(x), Column::Int64(y)) => {
            lemma_with_integer(body, x@[i] as int, y@[j] as int, 8, all);
        },
        (Column::UInt64(x), Column::UInt64(y)) => {
            lemma_with_integer(body, x@[i] as int, y@[j] as int, 8, all);
        },
        (Column::Float32(x), Column::Float32(y)) => {
            lemma_with_integer(body, x@[i] as int, y@[j] as int, 4, all);
        },
        (Column::Float64(x), Column::Float64(y)) => {
            lemma_with_integer(body, x@[i] as int, y@[j] as int, 8, all);
        },
        (Column::Utf8(x), Column::Utf8(y)) => {
            assert(encode_utf8(x@[i]@).len() < 0xffff_ffff);
            assert(encode_utf8(y@[j]@).len() < 0xffff_ffff);
            lemma_with_string(body, encode_utf8(x@[i]@), encode_utf8(y@[j]@), all);
            encode_utf8_decode_utf8(x@[i]@);
            encode_utf8_decode_utf8(y@[j]@);
        },
        _ => {},
    }
}

proof fn lemma_same_scalars(
    plan: MessageDecodePlan,
    ty: BuiltInType,
    a: Column,
    b: Column,
    count: nat,
    body: Seq<u8>,
    all: Seq<u8>,
)
    requires
        fits(ty, a),
        fits(ty, b),
        a.well_formed(),
        b.well_formed(),
        count <= a.rows(),
        count <= b.rows(),
        with_scalars(body, a, count).is_prefix_of(all),
        with_scalars(body, b, count).is_prefix_of(all),
    ensures
        same_elements(plan, ValueLayout::BuiltIn(ty), a, b, count),
        with_scalars(body, a, count) == with_scalars(body, b, count),
    decreases count,
{
    if count > 0 {
        let fewer = (count - 1) as nat;
        let x = with_scalars(body, a, fewer);
        let y = with_scalars(body, b, fewer);
        lemma_scalar_appends(x, a, count - 1);
        lemma_scalar_appends(y, b, count - 1);
        lemma_prefix_of_prefix(x, with_scalars(body, a, count), all);
        lemma_prefix_of_prefix(y, with_scalars(body, b, count), all);
        lemma_same_scalars(plan, ty, a, b, fewer, body, all);
        lemma_same_scalar(ty, a, count - 1, b, count - 1, x, all);
        assert(same_value(plan, ValueLayout::BuiltIn(ty), a, count - 1, b, count - 1));
    }
}

/// Values laid out alike that are written alike, after the same bytes, are the same.
proof fn lemma_same_value(
    plan: MessageDecodePlan,
    layout: ValueLayout,
    a: Column,
    i: int,
    b: Column,
    j: int,
    body: Seq<u8>,
    all: Seq<u8>,
)
    requires
        a.well_formed(),
        b.well_formed(),
        0 <= i < a.rows(),
        0 <= j < b.rows(),
        with_value(plan, layout, a, i, body) matches Ok(x) && x.is_prefix_of(all),
        with_value(plan, layout, b, j, body) matches Ok(y) && y.is_prefix_of(all),
    ensures
        same_value(plan, layout, a, i, b, j),
        with_value(plan, layout, a, i, body) == with_value(plan, layout, b, j, body),
    decreases a, 0nat,
{
    match layout {
        ValueLayout::BuiltIn(ty) => {
            lemma_same_scalar(ty, a, i, b, j, body, all);
        },
        ValueLayout::Message(id) => {
            if let Column::Struct(x) = a {
                if let Column::Struct(y) = b {
                    lemma_same_message(plan, id as int, x, i, y, j, body, all);
                }
            }
        },
        ValueLayout::Array { element, size } => {
            if let Column::List(la) = a {
                if let Column::List(lb) = b {
                    let x = la@[i];
                    let y = lb@[j];
                    let sa = if size is Fixed {
                        body
                    } else {
                        with_integer(body, x.rows() as int, 4)
                    };
                    let sb = if size is Fixed {
                        body
                    } else {
                        with_integer(body, y.rows() as int, 4)
                    };
                    let wa = with_value(plan, layout, a, i, body)->Ok_0;
                    let wb = with_value(plan, layout, b, j, body)->Ok_0;
                    lemma_scalars_append(sa, x, x.rows());
                    lemma_scalars_append(sb, y, y.rows());
                    lemma_elements_append(plan, *element, x, x.rows(), sa);
                    lemma_elements_append(plan, *element, y, y.rows(), sb);
                    lemma_prefix_of_prefix(sa, wa, all);
                    lemma_prefix_of_prefix(sb, wb, all);
                    if !(size is Fixed) {
                        lemma_spreads();
                        lemma_with_integer(body, x.rows() as int, y.rows() as int, 4, all);
                    }
                    assert(x.rows() == y.rows());
                    match *element {
                        ValueLayout::BuiltIn(ty) => {
                            lemma_same_scalars(plan, ty, x, y, x.rows(), sa, all);
                        },
                        _ => {
                            lemma_same_elements(plan, *element, x, y, x.rows(), sa, all);
                        },
                    }
                }
            }
        },
    }
}

proof fn lemma_same_elements(
    plan: MessageDecodePlan,
    layout: ValueLayout,
    a: Column,
    b: Column,
    count: nat,
    body: Seq<u8>,
    all: Seq<u8>,
)
    requires
        a.well_formed(),
        b.well_formed(),
        count <= a.rows(),
        count <= b.rows(),
        with_elements(plan, layout, a, count, body) matches Ok(x) && x.is_prefix_of(all),
        with_elements(plan, layout, b, count, body) matches Ok(y) && y.is_prefix_of(all),
    ensures
        same_elements(plan, layout, a, b, count),
        with_elements(plan, layout, a, count, body) == with_elements(plan, layout, b, count, body),
    decreases a, count + 1,
{
    if count > 0 {
        let fewer = (count - 1) as nat;
        let x = with_elements(plan, layout, a, fewer, body)->Ok_0;
        let y = with_elements(plan, layout, b, fewer, body)->Ok_0;
        writing_a_value_only_appends(plan, layout, a, count - 1, x);
        writing_a_value_only_appends(plan, layout, b, count - 1, y);
        lemma_prefix_of_prefix(x, with_elements(plan, layout, a, count, body)->Ok_0, all);
        lemma_prefix_of_prefix(y, with_elements(plan, layout, b, count, body)->Ok_0, all);
        lemma_same_elements(plan, layout, a, b, fewer, body, all);
        lemma_same_value(plan, layout, a, count - 1, b, count - 1, x, all);
    }
}

proof fn lemma_same_message(
    plan: MessageDecodePlan,
    id: int,
    a: StructColumn,
    i: int,
    b: StructColumn,
    j: int,
    body: Seq<u8>,
    all: Seq<u8>,
)
    requires
        a.well_formed(),
        b.well_formed(),
        0 <= i < a.rows,
        0 <= j < b.rows,
        with_message(plan, id, a, i, body) matches Ok(x) && x.is_prefix_of(all),
        with_message(plan, id, b, j, body) matches Ok(y) && y.is_prefix_of(all),
    ensures
        same_message(plan, id, a, i, b, j),
        with_message(plan, id, a, i, body) == with_message(plan, id, b, j, body),
    decreases a, a.columns@.len() + 1,
{
    lemma_same_fields(plan, id, a, i, b, j, a.columns@.len(), body, all);
}

proof fn lemma_same_fields(
    plan: MessageDecodePlan,
    id: int,
    a: StructColumn,
    i: int,
    b: StructColumn,
    j: int,
    count: nat,
    body: Seq<u8>,
    all: Seq<u8>,
)
    requires
        a.well_formed(),
        b.well_formed(),
        0 <= i < a.rows,
        0 <= j < b.rows,
        count <= a.columns@.len() == b.columns@.len(),
        with_fields(plan, id, a, i, count, body) matches Ok(x) && x.is_prefix_of(all),
        with_fields(plan, id, b, j, count, body) matches Ok(y) && y.is_prefix_of(all),
    ensures
        same_fields(plan, id, a, i, b, j, count),
        with_fields(plan, id, a, i, count, body) == with_fields(plan, id, b, j, count, body),
    decreases a, count,
{
    if count > 0 {
        let fewer = (count - 1) as nat;
        let layout = plan.messages@[id].fields@[count - 1].value;
        let ca = a.columns@[count - 1];
        let cb = b.columns@[count - 1];
        let x = with_fields(plan, id, a, i, fewer, body)->Ok_0;
        let y = with_fields(plan, id, b, j, fewer, body)->Ok_0;
        writing_a_value_only_appends(plan, layout, ca, i, x);
        writing_a_value_only_appends(plan, layout, cb, j, y);
        lemma_prefix_of_prefix(x, with_fields(plan, id, a, i, count, body)->Ok_0, all);
        lemma_prefix_of_prefix(y, with_fields(plan, id, b, j, count, body)->Ok_0, all);
        lemma_same_fields(plan, id, a, i, b, j, fewer, body, all);
        lemma_same_value(plan, layout, ca, i, cb, j, x, all);
    }
}

/// Nothing is lost when a message is written back: two messages of one type that are written
/// as the same bytes hold the same values.
pub proof fn messages_written_alike_are_the_same(
    plan: MessageDecodePlan,
    a: StructColumn,
    i: int,
    b: StructColumn,
    j: int,
)
    requires
        a.well_formed(),
        b.well_formed(),
        0 <= i < a.rows,
        0 <= j < b.rows,
        encoded(plan, a, i) is Ok,
        encoded(plan, a, i) == encoded(plan, b, j),
    ensures
        same_message(plan, 0, a, i, b, j),
{
    let x = with_message(plan, 0, a, i, Seq::empty())->Ok_0;
    let y = with_message(plan, 0, b, j, Seq::empty())->Ok_0;
    let n = encapsulation().len() as int;
    assert(x =~= (encapsulation() + x).skip(n));
    assert(y =~= (encapsulation() + y).skip(n));
    assert(x =~= x.subrange(0, x.len() as int));
    lemma_same_message(plan, 0, a, i, b, j, Seq::empty(), x);
}

/// An array of built-ins is written as its elements are, one after the other.
pub proof fn an_array_is_written_as_its_elements_are(
    plan: MessageDecodePlan,
    ty: BuiltInType,
    column: Column,
    count: nat,
    body: Seq<u8>,
)
    requires
        misfit(ty, column) is None,
    ensures
        with_elements(plan, ValueLayout::BuiltIn(ty), column, count, body) == Ok::<
            Seq<u8>,
            Fault,
        >(with_scalars(body, column, count)),
    decreases count,
{
    if count > 0 {
        an_array_is_written_as_its_elements_are(plan, ty, column, (count - 1) as nat, body);
        let before = with_scalars(body, column, (count - 1) as nat);
        assert(with_value(plan, ValueLayout::BuiltIn(ty), column, count - 1, before) == Ok::<
            Seq<u8>,
            Fault,
        >(with_scalar(before, column, count - 1)));
    }
}

} // verus!
