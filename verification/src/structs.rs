//! Struct-valued columns: a list of structs per row, and the columns of their fields.

use std::sync::Arc;

use arrow::array::{
    Array, ArrayRef, BinaryArray, FixedSizeListArray, StringArray, StructArray,
};
use arrow::datatypes::{DataType, Field};
use vstd::prelude::*;
use vstd::utf8::encode_utf8;

use crate::blobs::{list_cells, Cell, Items, ListColumn};
use crate::text::texts;

verus! {

/// A run of structs, as Arrow holds them: one column per field.
#[verifier::external_body]
#[derive(Debug)]
pub struct StructRows {
    rows: StructArray,
}

/// The values of one field over a run of structs; nothing where a value is null.
pub enum Values {
    Texts(Seq<Option<Seq<char>>>),
    Bytes(Seq<Option<Seq<u8>>>),
    Other,
}

/// One field of a run of structs.
pub struct StructField {
    pub name: Seq<char>,
    pub values: Values,
}

/// How many structs a run holds.
pub uninterp spec fn struct_len(rows: StructRows) -> nat;

/// The fields of a run of structs, in order.
pub uninterp spec fn struct_fields(rows: StructRows) -> Seq<StructField>;

/// The first field from `k` on with this name.
pub open spec fn field_named(fields: Seq<StructField>, name: Seq<char>, k: int) -> Option<
    StructField,
>
    decreases fields.len() - k,
{
    if k < 0 || k >= fields.len() {
        None
    } else if fields[k].name == name {
        Some(fields[k])
    } else {
        field_named(fields, name, k + 1)
    }
}

/// The values of the first field with this name, if they are texts.
pub open spec fn text_values(fields: Seq<StructField>, name: Seq<char>) -> Option<
    Seq<Option<Seq<char>>>,
> {
    match field_named(fields, name, 0) {
        Some(field) => match field.values {
            Values::Texts(texts) => Some(texts),
            _ => None,
        },
        None => None,
    }
}

/// The values of the first field with this name, if they are bytes.
pub open spec fn byte_values(fields: Seq<StructField>, name: Seq<char>) -> Option<
    Seq<Option<Seq<u8>>>,
> {
    match field_named(fields, name, 0) {
        Some(field) => match field.values {
            Values::Bytes(bytes) => Some(bytes),
            _ => None,
        },
        None => None,
    }
}

/// The texts of a list, as contracts speak of them.
pub open spec fn optional_texts(list: Seq<Option<String>>) -> Seq<Option<Seq<char>>> {
    list.map_values(
        |text: Option<String>|
            match text {
                Some(text) => Some(text@),
                None => None,
            },
    )
}

/// The runs of bytes of a list, as contracts speak of them.
pub open spec fn optional_bytes(list: Seq<Option<Vec<u8>>>) -> Seq<Option<Seq<u8>>> {
    list.map_values(
        |bytes: Option<Vec<u8>>|
            match bytes {
                Some(bytes) => Some(bytes@),
                None => None,
            },
    )
}

/// Calls [`arrow::array::ListArray::value`] and reads what the slot holds as structs; `None`
/// where it holds something else.
#[verifier::external_body]
pub(crate) fn structs_at(list: &ListColumn, row: usize) -> (r: Option<StructRows>)
    requires
        row < list_cells(*list).len(),
    ensures
        r is Some <==> list_cells(*list)[row as int].items is Structs,
        r matches Some(rows) ==> list_cells(*list)[row as int].items == (Items::Structs {
            len: struct_len(rows),
            fields: struct_fields(rows),
        }),
{
    let value = list.list.value(row);
    value.as_any().downcast_ref::<StructArray>().cloned().map(|rows| StructRows { rows })
}

/// Calls [`arrow::array::ListArray::value`] and reads what the slot holds as texts, whether or
/// not they are marked null; `None` where it holds something else.
#[verifier::external_body]
pub(crate) fn texts_at(list: &ListColumn, row: usize) -> (r: Option<Vec<String>>)
    requires
        row < list_cells(*list).len(),
    ensures
        r is Some <==> list_cells(*list)[row as int].items is Texts,
        r matches Some(values) ==> list_cells(*list)[row as int].items == Items::Texts(
            texts(values@),
        ),
{
    let value = list.list.value(row);
    let texts = value.as_any().downcast_ref::<StringArray>()?;
    Some((0..texts.len()).map(|i| texts.value(i).to_owned()).collect())
}

/// Calls [`Array::len`]: how many structs there are.
#[verifier::external_body]
pub(crate) fn struct_count(rows: &StructRows) -> (r: usize)
    ensures
        r == struct_len(*rows),
{
    rows.rows.len()
}

/// Calls `Fields::find` and reads the values of the field it finds as texts: the first one
/// of that name; `None` where there is none, or it holds something else.
#[verifier::external_body]
pub(crate) fn texts_of(rows: &StructRows, name: &str) -> (r: Option<Vec<Option<String>>>)
    ensures
        text_values(struct_fields(*rows), name@) == (match r {
            Some(texts) => Some(optional_texts(texts@)),
            None => None,
        }),
{
    let (index, _) = rows.rows.fields().find(name)?;
    let texts = rows.rows.column(index).as_any().downcast_ref::<StringArray>()?;
    Some(texts.iter().map(|text| text.map(str::to_owned)).collect())
}

/// Calls `Fields::find` and reads the values of the field it finds as runs of bytes: the
/// first one of that name; `None` where there is none, or it holds something else.
#[verifier::external_body]
pub(crate) fn bytes_of(rows: &StructRows, name: &str) -> (r: Option<Vec<Option<Vec<u8>>>>)
    ensures
        byte_values(struct_fields(*rows), name@) == (match r {
            Some(bytes) => Some(optional_bytes(bytes@)),
            None => None,
        }),
{
    let (index, _) = rows.rows.fields().find(name)?;
    let bytes = rows.rows.column(index).as_any().downcast_ref::<BinaryArray>()?;
    Some(bytes.iter().map(|bytes| bytes.map(<[u8]>::to_vec)).collect())
}

/// The value of one field of a struct.
#[derive(Debug)]
pub enum FieldValue<'a> {
    Text(&'a str),
    Bytes(&'a [u8]),
}

/// One field of a struct, and its value.
#[derive(Debug)]
pub struct RecordField<'a> {
    pub name: &'a str,
    pub value: FieldValue<'a>,
}

impl<'a> RecordField<'a> {
    /// The field of a run of the one struct.
    pub open spec fn model(self) -> StructField {
        StructField {
            name: self.name@,
            values: match self.value {
                FieldValue::Text(text) => Values::Texts(seq![Some(text@)]),
                FieldValue::Bytes(bytes) => Values::Bytes(seq![Some(bytes@)]),
            },
        }
    }

    /// An Arrow column counts its bytes in 31 bits.
    pub open spec fn fits(self) -> bool {
        match self.value {
            FieldValue::Text(text) => encode_utf8(text@).len() <= 0x7fff_ffff,
            FieldValue::Bytes(bytes) => bytes@.len() <= 0x7fff_ffff,
        }
    }
}

/// The fields of one struct, as contracts speak of them.
pub open spec fn field_models(fields: Seq<RecordField>) -> Seq<StructField> {
    fields.map_values(|f: RecordField| f.model())
}

/// Calls [`StructArray::from`] on a column of one value per field and
/// [`FixedSizeListArray::new`] on that, and turns it into a list column: one row holding
/// the one struct.
#[verifier::external_body]
pub(crate) fn one_row(fields: Vec<RecordField>) -> (r: ListColumn)
    requires
        fields@.len() > 0,
        forall|i: int| 0 <= i < fields@.len() ==> (#[trigger] fields@[i]).fits(),
    ensures
        list_cells(r) == seq![
            Cell { null: false, items: Items::Structs { len: 1, fields: field_models(fields@) } },
        ],
{
    let columns = fields.into_iter().map(|field| {
        let (kind, column): (_, ArrayRef) = match field.value {
            FieldValue::Text(text) => (DataType::Utf8, Arc::new(StringArray::from(vec![text]))),
            FieldValue::Bytes(bytes) => (DataType::Binary, Arc::new(BinaryArray::from(vec![bytes]))),
        };
        (Arc::new(Field::new(field.name, kind, false)), column)
    });
    let record = StructArray::from(columns.collect::<Vec<_>>());
    // Rerun's canonical form for a component list is a nullable `item` field.
    let item = Arc::new(Field::new_list_field(record.data_type().clone(), true));
    ListColumn { list: FixedSizeListArray::new(item, 1, Arc::new(record), None).into() }
}

} // verus!
