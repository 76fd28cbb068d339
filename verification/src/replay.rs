//! The playback path: decoded rows back out as CDR.
//!
//! A decoded message is a column per field, and a plan says how the fields are laid out.
//! Walking the plan in field order over one row writes the message back: what comes out is
//! what went in.

use vstd::prelude::*;
use vstd::utf8::encode_utf8;

use crate::cdr::{
    with_integer, with_string, write_bool, write_i16, write_i32, write_i64, write_i8,
    write_sequence_length, write_string, write_u16, write_u32, write_u64, write_u8,
};

verus! {

/// A built-in field type of a `.msg` definition. A bound on a string's length is carried
/// along.
#[derive(Clone, Copy, Debug, PartialEq, Eq, Structural)]
pub enum BuiltInType {
    Bool,
    Byte,
    Char,
    Float32,
    Float64,
    Int8,
    Int16,
    Int32,
    Int64,
    UInt8,
    UInt16,
    UInt32,
    UInt64,
    String(Option<usize>),
    WString(Option<usize>),
}

/// How many elements an array field may hold.
#[derive(Clone, Copy, Debug, PartialEq, Eq, Structural)]
pub enum ArraySize {
    Fixed(usize),
    Bounded(usize),
    Unbounded,
}

/// The layout of one value: a scalar, a nested message, or an array of either.
#[derive(Debug)]
pub enum ValueLayout {
    BuiltIn(BuiltInType),
    /// The message with this id in its plan.
    Message(usize),
    Array { element: Box<ValueLayout>, size: ArraySize },
}

/// One field of a message.
#[derive(Debug)]
pub struct FieldLayout {
    pub name: String,
    pub value: ValueLayout,
}

/// The fields of a message, in declaration order.
#[derive(Debug)]
pub struct MessageLayout {
    pub fields: Vec<FieldLayout>,
}

/// How one ROS type is laid out, with every message type it is made of.
#[derive(Debug)]
pub struct MessageDecodePlan {
    pub schema_name: String,
    /// Every message type, by id; the type itself is the first.
    pub messages: Vec<MessageLayout>,
}

impl ValueLayout {
    /// Every nested message this layout names is one of the first `messages`.
    pub open spec fn well_formed(self, messages: nat) -> bool
        decreases self,
    {
        match self {
            ValueLayout::BuiltIn(_) => true,
            ValueLayout::Message(id) => id < messages,
            ValueLayout::Array { element, .. } => element.well_formed(messages),
        }
    }
}

impl MessageDecodePlan {
    /// The plan describes its own type, and every nested message it names.
    pub open spec fn well_formed(self) -> bool {
        &&& self.messages@.len() > 0
        &&& forall|m: int, f: int|
            0 <= m < self.messages@.len() && 0 <= f < self.messages@[m].fields@.len()
                ==> #[trigger] self.messages@[m].fields@[f].value.well_formed(
                self.messages@.len(),
            )
    }
}

/// The values of one field over every row of a decoded column.
#[derive(Debug)]
pub enum Column {
    Bool(Vec<bool>),
    UInt8(Vec<u8>),
    Int8(Vec<i8>),
    Int16(Vec<i16>),
    UInt16(Vec<u16>),
    Int32(Vec<i32>),
    UInt32(Vec<u32>),
    Int64(Vec<i64>),
    UInt64(Vec<u64>),
    /// Single-precision floats, as the bits of each.
    Float32(Vec<u32>),
    /// Double-precision floats, as the bits of each.
    Float64(Vec<u64>),
    Utf8(Vec<String>),
    Struct(StructColumn),
    /// A list per row, each with a column of its elements.
    List(Vec<Column>),
    /// A column of any other type, which no ROS field is decoded into.
    Other(usize),
}

/// A column of structs: one column per field, all over the same rows.
#[derive(Debug)]
pub struct StructColumn {
    pub columns: Vec<Column>,
    pub rows: usize,
}

impl Column {
    /// How many rows the column holds.
    pub open spec fn rows(self) -> nat {
        match self {
            Column::Bool(v) => v@.len(),
            Column::UInt8(v) => v@.len(),
            Column::Int8(v) => v@.len(),
            Column::Int16(v) => v@.len(),
            Column::UInt16(v) => v@.len(),
            Column::Int32(v) => v@.len(),
            Column::UInt32(v) => v@.len(),
            Column::Int64(v) => v@.len(),
            Column::UInt64(v) => v@.len(),
            Column::Float32(v) => v@.len(),
            Column::Float64(v) => v@.len(),
            Column::Utf8(v) => v@.len(),
            Column::Struct(s) => s.rows as nat,
            Column::List(v) => v@.len(),
            Column::Other(rows) => rows as nat,
        }
    }

    /// The columns of a struct cover the same rows, and every list and string is short
    /// enough for CDR to state its length.
    pub open spec fn well_formed(self) -> bool
        decreases self,
    {
        match self {
            Column::Struct(s) => s.well_formed(),
            Column::List(v) => forall|i: int|
                0 <= i < v@.len() ==> (#[trigger] v@[i]).well_formed() && v@[i].rows()
                    <= 0xffff_ffff,
            Column::Utf8(v) => forall|i: int|
                0 <= i < v@.len() ==> encode_utf8((#[trigger] v@[i])@).len() < 0xffff_ffff,
            _ => true,
        }
    }
}

impl StructColumn {
    /// See [`Column::well_formed`].
    pub open spec fn well_formed(self) -> bool
        decreases self,
    {
        forall|i: int|
            0 <= i < self.columns@.len() ==> (#[trigger] self.columns@[i]).well_formed()
                && self.columns@[i].rows() == self.rows
    }
}

/// What stands in the way of writing a value back.
#[derive(Clone, Copy, Debug, PartialEq, Eq, Structural)]
pub enum Problem {
    /// A message's plan declares another number of fields than its struct has columns.
    FieldCount { columns: usize, fields: usize },
    /// The layout calls for a built-in of this type, and the column holds something else.
    NotBuiltIn(BuiltInType),
    /// The layout calls for a nested message, and the column is not one of structs.
    NotStruct,
    /// The layout calls for an array, and the column is not one of lists.
    NotList,
    /// A fixed-size array holds another number of elements than its layout declares.
    FixedSize { len: usize, expected: usize },
    /// ROS 2 `wstring` is not supported.
    WString,
}

/// A problem, and the fields it was found under, outermost first.
#[verifier::ext_equal]
pub struct Fault {
    pub path: Seq<Seq<char>>,
    pub problem: Problem,
}

/// Why a row could not be written back as CDR.
#[derive(Clone, Debug, PartialEq, Eq)]
pub struct EncodeError {
    /// The names of the fields the problem was found under, outermost first.
    pub path: Vec<String>,
    pub problem: Problem,
}

impl View for EncodeError {
    type V = Fault;

    open spec fn view(&self) -> Fault {
        Fault { path: self.path@.map_values(|name: String| name@), problem: self.problem }
    }
}

/// Whether a column holds the values a built-in type is decoded into.
pub open spec fn fits(ty: BuiltInType, column: Column) -> bool {
    match ty {
        BuiltInType::Bool => column is Bool,
        BuiltInType::Byte => column is UInt8,
        BuiltInType::Char => column is UInt8,
        BuiltInType::UInt8 => column is UInt8,
        BuiltInType::Int8 => column is Int8,
        BuiltInType::Int16 => column is Int16,
        BuiltInType::UInt16 => column is UInt16,
        BuiltInType::Int32 => column is Int32,
        BuiltInType::UInt32 => column is UInt32,
        BuiltInType::Int64 => column is Int64,
        BuiltInType::UInt64 => column is UInt64,
        BuiltInType::Float32 => column is Float32,
        BuiltInType::Float64 => column is Float64,
        BuiltInType::String(_) => column is Utf8,
        BuiltInType::WString(_) => false,
    }
}

/// What keeps values of type `ty` from being read out of `column`, if anything does.
pub open spec fn misfit(ty: BuiltInType, column: Column) -> Option<Problem> {
    if ty is WString {
        Some(Problem::WString)
    } else if !fits(ty, column) {
        Some(Problem::NotBuiltIn(ty))
    } else {
        None
    }
}

/// `body` with the scalar at `row` of `column` appended.
pub open spec fn with_scalar(body: Seq<u8>, column: Column, row: int) -> Seq<u8> {
    match column {
        Column::Bool(v) => body.push(if v@[row] { 1u8 } else { 0u8 }),
        Column::UInt8(v) => body.push(v@[row]),
        Column::Int8(v) => with_integer(body, v@[row] as int, 1),
        Column::Int16(v) => with_integer(body, v@[row] as int, 2),
        Column::UInt16(v) => with_integer(body, v@[row] as int, 2),
        Column::Int32(v) => with_integer(body, v@[row] as int, 4),
        Column::UInt32(v) => with_integer(body, v@[row] as int, 4),
        Column::Int64(v) => with_integer(body, v@[row] as int, 8),
        Column::UInt64(v) => with_integer(body, v@[row] as int, 8),
        Column::Float32(v) => with_integer(body, v@[row] as int, 4),
        Column::Float64(v) => with_integer(body, v@[row] as int, 8),
        Column::Utf8(v) => with_string(body, encode_utf8(v@[row]@)),
        _ => body,
    }
}

/// `body` with the first `count` scalars of `column` appended, one after the other.
pub open spec fn with_scalars(body: Seq<u8>, column: Column, count: nat) -> Seq<u8>
    decreases count,
{
    if count == 0 {
        body
    } else {
        with_scalar(with_scalars(body, column, (count - 1) as nat), column, count - 1)
    }
}

/// `body` with the value at `row` of `column` appended, laid out as `layout`.
pub open spec fn with_value(
    plan: MessageDecodePlan,
    layout: ValueLayout,
    column: Column,
    row: int,
    body: Seq<u8>,
) -> Result<Seq<u8>, Fault>
    decreases column, 0nat,
{
    match layout {
        ValueLayout::BuiltIn(ty) => match misfit(ty, column) {
            Some(problem) => Err(Fault { path: Seq::empty(), problem }),
            None => Ok(with_scalar(body, column, row)),
        },
        ValueLayout::Message(id) => match column {
            Column::Struct(nested) => with_message(plan, id as int, nested, row, body),
            _ => Err(Fault { path: Seq::empty(), problem: Problem::NotStruct }),
        },
        ValueLayout::Array { element, size } => match column {
            Column::List(lists) => if 0 <= row < lists@.len() {
                let values = lists@[row];
                let count = values.rows();
                if size matches ArraySize::Fixed(expected) && count != expected {
                    Err(
                        Fault {
                            path: Seq::empty(),
                            problem: Problem::FixedSize {
                                len: count as usize,
                                expected: size->Fixed_0,
                            },
                        },
                    )
                } else {
                    // A fixed-size array carries no length on the wire; any other does.
                    let start = if size is Fixed {
                        body
                    } else {
                        with_integer(body, count as int, 4)
                    };
                    match *element {
                        ValueLayout::BuiltIn(ty) => match misfit(ty, values) {
                            Some(problem) => Err(Fault { path: Seq::empty(), problem }),
                            None => Ok(with_scalars(start, values, count)),
                        },
                        _ => with_elements(plan, *element, values, count, start),
                    }
                }
            } else {
                Err(Fault { path: Seq::empty(), problem: Problem::NotList })
            },
            _ => Err(Fault { path: Seq::empty(), problem: Problem::NotList }),
        },
    }
}

/// `body` with the first `count` values of `column` appended, each laid out as `layout`.
pub open spec fn with_elements(
    plan: MessageDecodePlan,
    layout: ValueLayout,
    column: Column,
    count: nat,
    body: Seq<u8>,
) -> Result<Seq<u8>, Fault>
    decreases column, count + 1,
{
    if count == 0 {
        Ok(body)
    } else {
        match with_elements(plan, layout, column, (count - 1) as nat, body) {
            Ok(before) => with_value(plan, layout, column, count - 1, before),
            Err(fault) => Err(fault),
        }
    }
}

/// `body` with one message appended: every field of the row, in declaration order.
pub open spec fn with_message(
    plan: MessageDecodePlan,
    id: int,
    message: StructColumn,
    row: int,
    body: Seq<u8>,
) -> Result<Seq<u8>, Fault>
    decreases message, message.columns@.len() + 1,
{
    let fields = plan.messages@[id].fields@;
    if fields.len() != message.columns@.len() {
        Err(
            Fault {
                path: Seq::empty(),
                problem: Problem::FieldCount {
                    columns: message.columns@.len() as usize,
                    fields: fields.len() as usize,
                },
            },
        )
    } else {
        with_fields(plan, id, message, row, message.columns@.len(), body)
    }
}

/// `body` with the first `count` fields of one message appended. A fault found inside a
/// field is placed under its name.
pub open spec fn with_fields(
    plan: MessageDecodePlan,
    id: int,
    message: StructColumn,
    row: int,
    count: nat,
    body: Seq<u8>,
) -> Result<Seq<u8>, Fault>
    decreases message, count,
{
    if count == 0 || count > message.columns@.len() {
        Ok(body)
    } else {
        match with_fields(plan, id, message, row, (count - 1) as nat, body) {
            Ok(before) => {
                let field = plan.messages@[id].fields@[count - 1];
                match with_value(plan, field.value, message.columns@[count - 1], row, before) {
                    Ok(after) => Ok(after),
                    Err(fault) => Err(
                        Fault { path: seq![field.name@] + fault.path, problem: fault.problem },
                    ),
                }
            },
            Err(fault) => Err(fault),
        }
    }
}

/// Classic CDR, little-endian, options zeroed — what ROS 2 publishes over DDS.
pub open spec fn encapsulation() -> Seq<u8> {
    seq![0u8, 1u8, 0u8, 0u8]
}

/// The CDR message a row of a decoded column stands for: the encapsulation header, then the
/// body.
pub open spec fn encoded(plan: MessageDecodePlan, root: StructColumn, row: int) -> Result<
    Seq<u8>,
    Fault,
> {
    match with_message(plan, 0, root, row, Seq::empty()) {
        Ok(body) => Ok(encapsulation() + body),
        Err(fault) => Err(fault),
    }
}

impl Column {
    /// How many rows the column holds.
    pub fn len(&self) -> (r: usize)
        ensures
            r == self.rows(),
    {
        match self {
            Column::Bool(v) => v.len(),
            Column::UInt8(v) => v.len(),
            Column::Int8(v) => v.len(),
            Column::Int16(v) => v.len(),
            Column::UInt16(v) => v.len(),
            Column::Int32(v) => v.len(),
            Column::UInt32(v) => v.len(),
            Column::Int64(v) => v.len(),
            Column::UInt64(v) => v.len(),
            Column::Float32(v) => v.len(),
            Column::Float64(v) => v.len(),
            Column::Utf8(v) => v.len(),
            Column::Struct(s) => s.rows,
            Column::List(v) => v.len(),
            Column::Other(rows) => *rows,
        }
    }
}

fn check_builtin(ty: &BuiltInType, array: &Column) -> (r: Option<Problem>)
    ensures
        r == misfit(*ty, *array),
{
    let fits = match ty {
        BuiltInType::Bool => matches!(array, Column::Bool(_)),
        BuiltInType::Byte | BuiltInType::Char | BuiltInType::UInt8 => matches!(
            array,
            Column::UInt8(_)
        ),
        BuiltInType::Int8 => matches!(array, Column::Int8(_)),
        BuiltInType::Int16 => matches!(array, Column::Int16(_)),
        BuiltInType::UInt16 => matches!(array, Column::UInt16(_)),
        BuiltInType::Int32 => matches!(array, Column::Int32(_)),
        BuiltInType::UInt32 => matches!(array, Column::UInt32(_)),
        BuiltInType::Int64 => matches!(array, Column::Int64(_)),
        BuiltInType::UInt64 => matches!(array, Column::UInt64(_)),
        BuiltInType::Float32 => matches!(array, Column::Float32(_)),
        BuiltInType::Float64 => matches!(array, Column::Float64(_)),
        BuiltInType::String(_) => matches!(array, Column::Utf8(_)),
        BuiltInType::WString(_) => {
            return Some(Problem::WString);
        },
    };
    if fits {
        None
    } else {
        Some(Problem::NotBuiltIn(*ty))
    }
}

/// Writes the scalar at `row`.
fn write_scalar(array: &Column, row: usize, body: &mut Vec<u8>)
    requires
        array.well_formed(),
        row < array.rows(),
    ensures
        final(body)@ == with_scalar(old(body)@, *array, row as int),
{
    match array {
        Column::Bool(v) => write_bool(body, v[row]),
        Column::UInt8(v) => write_u8(body, v[row]),
        Column::Int8(v) => write_i8(body, v[row]),
        Column::Int16(v) => write_i16(body, v[row]),
        Column::UInt16(v) => write_u16(body, v[row]),
        Column::Int32(v) => write_i32(body, v[row]),
        Column::UInt32(v) => write_u32(body, v[row]),
        Column::Int64(v) => write_i64(body, v[row]),
        Column::UInt64(v) => write_u64(body, v[row]),
        Column::Float32(v) => write_u32(body, v[row]),
        Column::Float64(v) => write_u64(body, v[row]),
        Column::Utf8(v) => {
            assert(encode_utf8(v@[row as int]@).len() < 0xffff_ffff);
            write_string(body, v[row].as_str())
        },
        _ => {},
    }
}

/// Writes one ROS built-in scalar.
pub fn encode_builtin(ty: &BuiltInType, array: &Column, row: usize, body: &mut Vec<u8>) -> (r: Result<
    (),
    EncodeError,
>)
    requires
        array.well_formed(),
        row < array.rows(),
    ensures
        match r {
            Ok(()) => misfit(*ty, *array) is None && final(body)@ == with_scalar(
                old(body)@,
                *array,
                row as int,
            ),
            Err(e) => misfit(*ty, *array) == Some(e.problem) && e.path@.len() == 0 && final(body)@
                == old(body)@,
        },
{
    if let Some(problem) = check_builtin(ty, array) {
        return Err(EncodeError { path: Vec::new(), problem });
    }
    write_scalar(array, row, body);
    Ok(())
}

/// Writes a whole array of ROS built-ins.
///
/// The point of this over looping [`encode_value`] is that the column is checked once
/// rather than once per element.
pub fn encode_builtin_array(ty: &BuiltInType, array: &Column, body: &mut Vec<u8>) -> (r: Result<
    (),
    EncodeError,
>)
    requires
        array.well_formed(),
    ensures
        match r {
            Ok(()) => misfit(*ty, *array) is None && final(body)@ == with_scalars(
                old(body)@,
                *array,
                array.rows(),
            ),
            Err(e) => misfit(*ty, *array) == Some(e.problem) && e.path@.len() == 0 && final(body)@
                == old(body)@,
        },
{
    if let Some(problem) = check_builtin(ty, array) {
        return Err(EncodeError { path: Vec::new(), problem });
    }
    let len: usize = array.len();
    let mut index: usize = 0;
    while index < len
        invariant
            array.well_formed(),
            index <= len == array.rows(),
            body@ == with_scalars(old(body)@, *array, index as nat),
        decreases len - index,
    {
        write_scalar(array, index, body);
        index += 1;
    }
    Ok(())
}

/// Whether a value cannot be written at all: its column is of another type than its field, or it
/// is an array of another length. Nothing is written of such a value.
pub open spec fn unfit(layout: ValueLayout, array: Column, row: int) -> bool {
    match layout {
        ValueLayout::BuiltIn(ty) => misfit(ty, array) is Some,
        ValueLayout::Message(_) => !(array is Struct),
        ValueLayout::Array { size, .. } => match array {
            Column::List(lists) => size matches ArraySize::Fixed(expected) && lists@[row].rows()
                != expected,
            _ => true,
        },
    }
}

/// Writes one value: a scalar, a nested message, or an array of either.
fn encode_value(
    plan: &MessageDecodePlan,
    layout: &ValueLayout,
    array: &Column,
    row: usize,
    body: &mut Vec<u8>,
) -> (r: Result<(), EncodeError>)
    requires
        plan.well_formed(),
        layout.well_formed(plan.messages@.len()),
        array.well_formed(),
        row < array.rows(),
    ensures
        match r {
            Ok(()) => with_value(*plan, *layout, *array, row as int, old(body)@) == Ok::<
                Seq<u8>,
                Fault,
            >(final(body)@),
            Err(e) => with_value(*plan, *layout, *array, row as int, old(body)@) == Err::<
                Seq<u8>,
                Fault,
            >(e@) && (unfit(*layout, *array, row as int) ==> final(body)@ == old(body)@),
        },
    decreases *array, 0nat,
{
    match layout {
        ValueLayout::BuiltIn(ty) => {
            let r = encode_builtin(ty, array, row, body);
            assert(r matches Err(e) ==> e@.path =~= Seq::<Seq<char>>::empty());
            r
        },
        ValueLayout::Message(id) => match array {
            Column::Struct(nested) => encode_message(plan, *id, nested, row, body),
            _ => {
                let e = EncodeError { path: Vec::new(), problem: Problem::NotStruct };
                assert(e@.path =~= Seq::<Seq<char>>::empty());
                Err(e)
            },
        },
        ValueLayout::Array { element, size } => match array {
            Column::List(lists) => {
                let values = &lists[row];
                let len: usize = values.len();
                match size {
                    ArraySize::Fixed(expected) => {
                        if len != *expected {
                            let e = EncodeError {
                                path: Vec::new(),
                                problem: Problem::FixedSize { len, expected: *expected },
                            };
                            assert(e@.path =~= Seq::<Seq<char>>::empty());
                            return Err(e);
                        }
                    },
                    ArraySize::Bounded(_) | ArraySize::Unbounded => {
                        write_sequence_length(body, len);
                    },
                }
                let ghost start = body@;
                if let ValueLayout::BuiltIn(ty) = &**element {
                    let r = encode_builtin_array(ty, values, body);
                    assert(r matches Err(e) ==> e@.path =~= Seq::<Seq<char>>::empty());
                    return r;
                }
                let mut index: usize = 0;
                while index < len
                    invariant
                        plan.well_formed(),
                        element.well_formed(plan.messages@.len()),
                        values.well_formed(),
                        index <= len == values.rows(),
                        with_elements(*plan, **element, *values, index as nat, start) == Ok::<
                            Seq<u8>,
                            Fault,
                        >(body@),
                        with_value(*plan, *layout, *array, row as int, old(body)@)
                            == with_elements(*plan, **element, *values, len as nat, start),
                        decreases_to!(*array => *values),
                        !unfit(*layout, *array, row as int),
                    decreases len - index,
                {
                    match encode_value(plan, element, values, index, body) {
                        Ok(()) => {},
                        Err(e) => {
                            proof {
                                lemma_elements_fault(
                                    *plan,
                                    **element,
                                    *values,
                                    index as nat + 1,
                                    len as nat,
                                    start,
                                );
                            }
                            return Err(e);
                        },
                    }
                    index += 1;
                }
                Ok(())
            },
            _ => {
                let e = EncodeError { path: Vec::new(), problem: Problem::NotList };
                assert(e@.path =~= Seq::<Seq<char>>::empty());
                Err(e)
            },
        },
    }
}

/// A fault among the first elements of an array is the fault of the whole array.
proof fn lemma_elements_fault(
    plan: MessageDecodePlan,
    layout: ValueLayout,
    column: Column,
    some: nat,
    all: nat,
    body: Seq<u8>,
)
    requires
        some <= all,
        with_elements(plan, layout, column, some, body) is Err,
    ensures
        with_elements(plan, layout, column, all, body) == with_elements(
            plan,
            layout,
            column,
            some,
            body,
        ),
    decreases all,
{
    if some < all {
        lemma_elements_fault(plan, layout, column, some, (all - 1) as nat, body);
    }
}

/// A fault among the first fields of a message is the fault of the whole message.
proof fn lemma_fields_fault(
    plan: MessageDecodePlan,
    id: int,
    message: StructColumn,
    row: int,
    some: nat,
    all: nat,
    body: Seq<u8>,
)
    requires
        some <= all <= message.columns@.len(),
        with_fields(plan, id, message, row, some, body) is Err,
    ensures
        with_fields(plan, id, message, row, all, body) == with_fields(
            plan,
            id,
            message,
            row,
            some,
            body,
        ),
    decreases all,
{
    if some < all {
        lemma_fields_fault(plan, id, message, row, some, (all - 1) as nat, body);
    }
}

/// Writes every field of one message, in ROS declaration order.
fn encode_message(
    plan: &MessageDecodePlan,
    message_id: usize,
    message: &StructColumn,
    row: usize,
    body: &mut Vec<u8>,
) -> (r: Result<(), EncodeError>)
    requires
        plan.well_formed(),
        message_id < plan.messages@.len(),
        message.well_formed(),
        row < message.rows,
    ensures
        match r {
            Ok(()) => with_message(*plan, message_id as int, *message, row as int, old(body)@)
                == Ok::<Seq<u8>, Fault>(final(body)@),
            Err(e) => with_message(*plan, message_id as int, *message, row as int, old(body)@)
                == Err::<Seq<u8>, Fault>(e@),
        },
    decreases *message, message.columns@.len() + 1,
{
    let fields = &plan.messages[message_id].fields;
    if fields.len() != message.columns.len() {
        let e = EncodeError {
            path: Vec::new(),
            problem: Problem::FieldCount { columns: message.columns.len(), fields: fields.len() },
        };
        assert(e@.path =~= Seq::<Seq<char>>::empty());
        return Err(e);
    }
    let mut index: usize = 0;
    while index < message.columns.len()
        invariant
            plan.well_formed(),
            message_id < plan.messages@.len(),
            fields@ == plan.messages@[message_id as int].fields@,
            fields@.len() == message.columns@.len(),
            message.well_formed(),
            row < message.rows,
            index <= message.columns@.len(),
            with_fields(
                *plan,
                message_id as int,
                *message,
                row as int,
                index as nat,
                old(body)@,
            ) == Ok::<Seq<u8>, Fault>(body@),
        decreases message.columns@.len() - index,
    {
        let column = &message.columns[index];
        assert(message.columns@[index as int].well_formed());
        assert(plan.messages@[message_id as int].fields@[index as int].value.well_formed(
            plan.messages@.len(),
        ));
        match encode_value(plan, &fields[index].value, column, row, body) {
            Ok(()) => {},
            Err(e) => {
                let mut path = e.path;
                path.insert(0, fields[index].name.clone());
                let placed = EncodeError { path, problem: e.problem };
                proof {
                    assert(placed@.path =~= seq![fields@[index as int].name@] + e@.path);
                    lemma_fields_fault(
                        *plan,
                        message_id as int,
                        *message,
                        row as int,
                        index as nat + 1,
                        message.columns@.len(),
                        old(body)@,
                    );
                }
                return Err(placed);
            },
        }
        index += 1;
    }
    Ok(())
}

/// Encodes one row of a decoded message column back into a CDR message.
pub fn encode(plan: &MessageDecodePlan, root: &StructColumn, row: usize) -> (r: Result<
    Vec<u8>,
    EncodeError,
>)
    requires
        plan.well_formed(),
        root.well_formed(),
        row < root.rows,
    ensures
        match r {
            Ok(message) => encoded(*plan, *root, row as int) == Ok::<Seq<u8>, Fault>(message@),
            Err(e) => encoded(*plan, *root, row as int) == Err::<Seq<u8>, Fault>(e@),
        },
{
    // Alignment is measured from the start of the body, so the body is built on its own and
    // the encapsulation header prepended afterwards.
    let mut body: Vec<u8> = Vec::new();
    encode_message(plan, 0, root, row, &mut body)?;

    let mut message: Vec<u8> = vec![0u8, 1u8, 0u8, 0u8];
    assert(message@ =~= encapsulation());
    message.append(&mut body);
    Ok(message)
}

} // verus!
