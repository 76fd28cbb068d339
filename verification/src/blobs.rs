//! The column of raw messages: one blob per row, or none.
//!
//! The column is an Arrow list per row, holding the row's one blob, itself a list of bytes.
//! It is built up row by row as messages arrive and read back row by row at playback.

use std::sync::Arc;

use arrow::array::{
    Array, FixedSizeListBuilder, ListArray, ListBuilder, UInt8Array, UInt8Builder,
};
use arrow::datatypes::{DataType, Field};
use re_sdk_types::Loggable;
use vstd::prelude::*;

use crate::structs::StructField;

verus! {

/// An Arrow list array, as a column of a chunk holds it.
#[verifier::external_body]
#[derive(Debug)]
pub struct ListColumn {
    pub list: ListArray,
}

/// An Arrow builder of a column of blobs.
#[verifier::external_body]
#[derive(Debug)]
pub struct BlobBuilder {
    builder: FixedSizeListBuilder<ListBuilder<UInt8Builder>>,
}

/// One slot of a list array: whether it is null, and what it holds.
pub struct Cell {
    pub null: bool,
    pub items: Items,
}

/// What a slot of a list array holds: lists, bytes, structs, texts, or values of some other
/// type.
pub enum Items {
    Lists(Seq<Cell>),
    Bytes(Seq<u8>),
    Structs { len: nat, fields: Seq<StructField> },
    Texts(Seq<Seq<char>>),
    Other,
}

/// The slots of a list array, in order.
pub uninterp spec fn list_cells(list: ListColumn) -> Seq<Cell>;

/// What the slots of a column hold, row by row: nothing where the slot is null, and otherwise
/// a number that stands for what it holds.
pub uninterp spec fn list_slots(list: ListColumn) -> Seq<Option<nat>>;

/// Calls [`Array::len`]: the number of slots.
#[verifier::external_body]
pub(crate) fn list_len(list: &ListColumn) -> (r: usize)
    ensures
        r == list_cells(*list).len(),
{
    list.list.len()
}

/// Calls [`Array::is_null`]: whether the slot is marked null.
#[verifier::external_body]
pub(crate) fn list_is_null(list: &ListColumn, row: usize) -> (r: bool)
    requires
        row < list_cells(*list).len(),
    ensures
        r == list_cells(*list)[row as int].null,
{
    list.list.is_null(row)
}

/// Calls [`ListArray::value`] and reads what the slot holds as lists; `None` where it holds
/// something else.
#[verifier::external_body]
fn lists_at(list: &ListColumn, row: usize) -> (r: Option<ListColumn>)
    requires
        row < list_cells(*list).len(),
    ensures
        r is Some <==> list_cells(*list)[row as int].items is Lists,
        r matches Some(lists) ==> list_cells(*list)[row as int].items == Items::Lists(
            list_cells(lists),
        ),
{
    let value = list.list.value(row);
    value.as_any().downcast_ref::<ListArray>().cloned().map(|list| ListColumn { list })
}

/// Calls [`ListArray::value`] and reads what the slot holds as bytes; `None` where it holds
/// something else.
#[verifier::external_body]
fn bytes_at(list: &ListColumn, row: usize) -> (r: Option<Vec<u8>>)
    requires
        row < list_cells(*list).len(),
    ensures
        r is Some <==> list_cells(*list)[row as int].items is Bytes,
        r matches Some(bytes) ==> list_cells(*list)[row as int].items == Items::Bytes(bytes@),
{
    let values = list.list.value(row);
    values.as_any().downcast_ref::<UInt8Array>().map(|bytes| bytes.values().to_vec())
}

/// The blob at `row` of a column, if there is one: the first of the lists the row holds.
pub open spec fn blob(column: Seq<Cell>, row: int) -> Option<Seq<u8>> {
    if row >= column.len() || column[row].null {
        None
    } else {
        match column[row].items {
            Items::Lists(blobs) => if blobs.len() == 0 {
                None
            } else {
                match blobs[0].items {
                    Items::Bytes(bytes) => Some(bytes),
                    _ => None,
                }
            },
            _ => None,
        }
    }
}

/// The blob at `row` of a `Blob` column, or `None` if there is none.
pub fn blob_at(list: &ListColumn, row: usize) -> (r: Option<Vec<u8>>)
    ensures
        blob(list_cells(*list), row as int) == (match r {
            Some(bytes) => Some(bytes@),
            None => None,
        }),
{
    if row >= list_len(list) || list_is_null(list, row) {
        return None;
    }
    match lists_at(list, row) {
        None => None,
        Some(blobs) => {
            if list_len(&blobs) == 0 {
                return None;
            }
            bytes_at(&blobs, 0)
        },
    }
}

/// The rows a builder of a blob column holds so far: a blob, or none.
pub uninterp spec fn builder_rows(
    builder: BlobBuilder,
) -> Seq<Option<Seq<u8>>>;

/// How many bytes the blobs of some rows have together.
pub open spec fn payload(rows: Seq<Option<Seq<u8>>>) -> nat
    decreases rows.len(),
{
    if rows.len() == 0 {
        0
    } else {
        payload(rows.drop_last()) + (match rows.last() {
            Some(bytes) => bytes.len(),
            None => 0,
        })
    }
}

/// The slots of a finished column of `rows`: one list per row, with the row's blob as its
/// one element, and null where the row has none.
pub open spec fn blob_cells(rows: Seq<Option<Seq<u8>>>) -> Seq<Cell> {
    Seq::new(
        rows.len(),
        |i: int|
            match rows[i] {
                Some(bytes) => Cell {
                    null: false,
                    items: Items::Lists(seq![Cell { null: false, items: Items::Bytes(bytes) }]),
                },
                None => Cell {
                    null: true,
                    items: Items::Lists(
                        seq![Cell { null: true, items: Items::Bytes(Seq::empty()) }],
                    ),
                },
            },
    )
}

/// Calls [`FixedSizeListBuilder::new`] on a builder of lists of bytes, with the fields of a
/// `Blob` column: a builder that holds no rows.
#[verifier::external_body]
pub(crate) fn blob_list_builder() -> (r: BlobBuilder)
    ensures
        builder_rows(r) == Seq::<Option<Seq<u8>>>::empty(),
{
    // The bytes of a blob are always present; the list of a row may be null.
    let bytes = ListBuilder::<UInt8Builder>::default()
        .with_field(Arc::new(Field::new_list_field(DataType::UInt8, false)));
    let blobs = Field::new_list_field(re_sdk_types::components::Blob::arrow_datatype(), true);
    BlobBuilder { builder: FixedSizeListBuilder::new(bytes, 1).with_field(Arc::new(blobs)) }
}

/// Calls [`UInt8Builder::append_slice`] and [`ListBuilder::append`], then
/// [`FixedSizeListBuilder::append`]: one more row, holding the bytes. The list builder
/// panics where its bytes are more than 31 bits can count, so such a call is left out.
#[verifier::external_body]
pub(crate) fn append_blob(
    builder: &mut BlobBuilder,
    bytes: &[u8],
)
    requires
        payload(builder_rows(*old(builder))) + bytes@.len() <= 0x7fff_ffff,
    ensures
        builder_rows(*final(builder)) == builder_rows(*old(builder)).push(Some(bytes@)),
{
    builder.builder.values().values().append_slice(bytes);
    builder.builder.values().append(true);
    builder.builder.append(true);
}

/// Calls [`ListBuilder::append_null`] and [`FixedSizeListBuilder::append`]: one more row,
/// holding nothing.
#[verifier::external_body]
pub(crate) fn append_null(builder: &mut BlobBuilder)
    ensures
        builder_rows(*final(builder)) == builder_rows(*old(builder)).push(None),
{
    builder.builder.values().append_null();
    builder.builder.append(false);
}

/// Calls [`FixedSizeListBuilder::finish`] and turns the array into a [`ListArray`]: the
/// rows appended so far, which leave the builder. A list array counts its rows in 31 bits.
#[verifier::external_body]
pub(crate) fn finish_blobs(
    builder: &mut BlobBuilder,
) -> (r: ListColumn)
    requires
        builder_rows(*old(builder)).len() <= 0x7fff_ffff,
    ensures
        list_cells(r) == blob_cells(builder_rows(*old(builder))),
        builder_rows(*final(builder)) == Seq::<Option<Seq<u8>>>::empty(),
{
    ListColumn { list: builder.builder.finish().into() }
}

/// A finished column gives back, row by row, what was appended to it.
pub proof fn finished_column_gives_back_each_row(rows: Seq<Option<Seq<u8>>>, row: int)
    requires
        0 <= row,
    ensures
        blob(blob_cells(rows), row) == (if row < rows.len() {
            rows[row]
        } else {
            None
        }),
{
}

} // verus!
