//! Decoded rows written back as CDR.

use rosbag2_storage_rrd::replay::{
    encode, ArraySize, BuiltInType, Column, EncodeError, FieldLayout, MessageDecodePlan,
    MessageLayout, Problem, StructColumn, ValueLayout,
};

const HEADER: [u8; 4] = [0x00, 0x01, 0x00, 0x00];

fn field(name: &str, value: ValueLayout) -> FieldLayout {
    FieldLayout { name: name.to_owned(), value }
}

fn built_in(ty: BuiltInType) -> ValueLayout {
    ValueLayout::BuiltIn(ty)
}

fn array(element: ValueLayout, size: ArraySize) -> ValueLayout {
    ValueLayout::Array { element: Box::new(element), size }
}

fn plan_of(messages: Vec<Vec<FieldLayout>>) -> MessageDecodePlan {
    MessageDecodePlan {
        schema_name: "test_msgs/msg/Test".to_owned(),
        messages: messages.into_iter().map(|fields| MessageLayout { fields }).collect(),
    }
}

fn plan(fields: Vec<FieldLayout>) -> MessageDecodePlan {
    plan_of(vec![fields])
}

fn structs(columns: Vec<Column>, rows: usize) -> StructColumn {
    StructColumn { columns, rows }
}

/// The body of the first row of one column, laid out as `value`.
fn body(value: ValueLayout, column: Column) -> Result<Vec<u8>, EncodeError> {
    let message = encode(&plan(vec![field("f", value)]), &structs(vec![column], 1), 0)?;
    assert_eq!(message[..4], HEADER);
    Ok(message[4..].to_vec())
}

fn problem(value: ValueLayout, column: Column) -> Problem {
    let error = body(value, column).unwrap_err();
    assert_eq!(error.path, ["f"]);
    error.problem
}

#[test]
fn every_scalar_is_written_little_endian() {
    let cases = [
        (BuiltInType::Bool, Column::Bool(vec![true]), vec![1]),
        (BuiltInType::Bool, Column::Bool(vec![false]), vec![0]),
        (BuiltInType::Byte, Column::UInt8(vec![0xfe]), vec![0xfe]),
        (BuiltInType::Char, Column::UInt8(vec![b'x']), vec![b'x']),
        (BuiltInType::UInt8, Column::UInt8(vec![200]), vec![200]),
        (BuiltInType::Int8, Column::Int8(vec![-2]), vec![0xfe]),
        (BuiltInType::Int16, Column::Int16(vec![-2]), vec![0xfe, 0xff]),
        (BuiltInType::UInt16, Column::UInt16(vec![0x0102]), vec![2, 1]),
        (BuiltInType::Int32, Column::Int32(vec![-2]), vec![0xfe, 0xff, 0xff, 0xff]),
        (BuiltInType::UInt32, Column::UInt32(vec![0x0102_0304]), vec![4, 3, 2, 1]),
        (
            BuiltInType::Int64,
            Column::Int64(vec![i64::MIN]),
            vec![0, 0, 0, 0, 0, 0, 0, 0x80],
        ),
        (
            BuiltInType::UInt64,
            Column::UInt64(vec![0x0102_0304_0506_0708]),
            vec![8, 7, 6, 5, 4, 3, 2, 1],
        ),
        (
            BuiltInType::Float32,
            Column::Float32(vec![1.5_f32.to_bits()]),
            1.5_f32.to_le_bytes().to_vec(),
        ),
        (
            BuiltInType::Float64,
            Column::Float64(vec![(-0.1_f64).to_bits()]),
            (-0.1_f64).to_le_bytes().to_vec(),
        ),
        (
            BuiltInType::String(None),
            Column::Utf8(vec!["h\u{e9}".to_owned()]),
            vec![4, 0, 0, 0, b'h', 0xc3, 0xa9, 0],
        ),
    ];
    for (ty, column, expected) in cases {
        assert_eq!(body(built_in(ty), column).unwrap(), expected, "{ty:?}");
    }
}

#[test]
fn every_value_is_aligned_to_its_own_width() {
    let plan = plan(vec![
        field("a", built_in(BuiltInType::UInt8)),
        field("b", built_in(BuiltInType::UInt16)),
        field("c", built_in(BuiltInType::UInt8)),
        field("d", built_in(BuiltInType::UInt64)),
        field("e", built_in(BuiltInType::UInt8)),
        field("f", built_in(BuiltInType::String(None))),
    ]);
    let row = structs(
        vec![
            Column::UInt8(vec![1]),
            Column::UInt16(vec![2]),
            Column::UInt8(vec![3]),
            Column::UInt64(vec![4]),
            Column::UInt8(vec![5]),
            Column::Utf8(vec![String::new()]),
        ],
        1,
    );
    let expected = [
        &HEADER[..],
        &[1, 0, 2, 0, 3, 0, 0, 0],
        &[4, 0, 0, 0, 0, 0, 0, 0],
        &[5, 0, 0, 0, 1, 0, 0, 0, 0],
    ]
    .concat();
    assert_eq!(encode(&plan, &row, 0).unwrap(), expected);
}

#[test]
fn only_the_row_asked_for_is_written() {
    let plan = plan(vec![field("data", built_in(BuiltInType::Int32))]);
    let rows = structs(vec![Column::Int32(vec![10, 20, 30])], 3);
    for (row, value) in [10_u8, 20, 30].into_iter().enumerate() {
        let message = encode(&plan, &rows, row).unwrap();
        assert_eq!(message, [&HEADER[..], &[value, 0, 0, 0]].concat());
    }
}

#[test]
fn an_array_states_its_length_unless_that_is_fixed() {
    let values = || Column::List(vec![Column::UInt16(vec![7, 8, 9])]);
    let element = || built_in(BuiltInType::UInt16);
    for size in [ArraySize::Unbounded, ArraySize::Bounded(5)] {
        assert_eq!(
            body(array(element(), size), values()).unwrap(),
            [3, 0, 0, 0, 7, 0, 8, 0, 9, 0]
        );
    }
    assert_eq!(
        body(array(element(), ArraySize::Fixed(3)), values()).unwrap(),
        [7, 0, 8, 0, 9, 0]
    );
    assert_eq!(
        body(
            array(element(), ArraySize::Unbounded),
            Column::List(vec![Column::UInt16(Vec::new())])
        )
        .unwrap(),
        [0, 0, 0, 0]
    );
}

#[test]
fn arrays_of_every_built_in_are_written_element_by_element() {
    let cases = [
        (BuiltInType::Bool, Column::Bool(vec![true, false]), vec![1, 0]),
        (BuiltInType::Byte, Column::UInt8(vec![1, 2]), vec![1, 2]),
        (BuiltInType::Int8, Column::Int8(vec![-1, 1]), vec![0xff, 1]),
        (BuiltInType::Int16, Column::Int16(vec![-1, 1]), vec![0xff, 0xff, 1, 0]),
        (BuiltInType::UInt16, Column::UInt16(vec![1, 2]), vec![1, 0, 2, 0]),
        (BuiltInType::Int32, Column::Int32(vec![1]), vec![1, 0, 0, 0]),
        (BuiltInType::UInt32, Column::UInt32(vec![1]), vec![1, 0, 0, 0]),
        (BuiltInType::Int64, Column::Int64(vec![1]), vec![1, 0, 0, 0, 0, 0, 0, 0]),
        (BuiltInType::UInt64, Column::UInt64(vec![1]), vec![1, 0, 0, 0, 0, 0, 0, 0]),
        (
            BuiltInType::Float32,
            Column::Float32(vec![0x3f80_0000]),
            vec![0, 0, 0x80, 0x3f],
        ),
        (
            BuiltInType::Float64,
            Column::Float64(vec![0x3ff0_0000_0000_0000]),
            vec![0, 0, 0, 0, 0, 0, 0xf0, 0x3f],
        ),
        (
            BuiltInType::String(None),
            Column::Utf8(vec!["a".to_owned(), String::new()]),
            vec![2, 0, 0, 0, b'a', 0, 0, 0, 1, 0, 0, 0, 0],
        ),
    ];
    for (ty, column, expected) in cases {
        let len = column.len();
        let layout = array(built_in(ty), ArraySize::Fixed(len));
        assert_eq!(body(layout, Column::List(vec![column])).unwrap(), expected, "{ty:?}");
    }
}

#[test]
fn nested_messages_and_arrays_of_them_are_written_in_place() {
    let plan = plan_of(vec![
        vec![
            field("head", ValueLayout::Message(1)),
            field("tail", array(ValueLayout::Message(1), ArraySize::Unbounded)),
        ],
        vec![
            field("id", built_in(BuiltInType::UInt8)),
            field("size", built_in(BuiltInType::UInt16)),
        ],
    ]);
    let pair = |ids: Vec<u8>, sizes: Vec<u16>| {
        let rows = ids.len();
        Column::Struct(structs(vec![Column::UInt8(ids), Column::UInt16(sizes)], rows))
    };
    let row = structs(
        vec![
            pair(vec![1], vec![2]),
            Column::List(vec![pair(vec![3, 5], vec![4, 6])]),
        ],
        1,
    );
    assert_eq!(
        encode(&plan, &row, 0).unwrap(),
        [&HEADER[..], &[1, 0, 2, 0, 2, 0, 0, 0, 3, 0, 4, 0, 5, 0, 6, 0]].concat()
    );
}

#[test]
fn each_mismatch_between_layout_and_column_is_told_apart() {
    let int = || built_in(BuiltInType::Int32);
    assert_eq!(
        problem(int(), Column::UInt32(vec![1])),
        Problem::NotBuiltIn(BuiltInType::Int32)
    );
    assert_eq!(
        problem(built_in(BuiltInType::WString(None)), Column::Utf8(vec![String::new()])),
        Problem::WString
    );
    assert_eq!(
        problem(ValueLayout::Message(0), Column::Int32(vec![1])),
        Problem::NotStruct
    );
    assert_eq!(
        problem(array(int(), ArraySize::Unbounded), Column::Int32(vec![1])),
        Problem::NotList
    );
    assert_eq!(
        problem(
            array(int(), ArraySize::Fixed(2)),
            Column::List(vec![Column::Int32(vec![1])])
        ),
        Problem::FixedSize { len: 1, expected: 2 }
    );
    // Also where there is no element to write.
    assert_eq!(
        problem(
            array(int(), ArraySize::Unbounded),
            Column::List(vec![Column::Bool(Vec::new())])
        ),
        Problem::NotBuiltIn(BuiltInType::Int32)
    );
    let two = plan(vec![field("a", int()), field("b", int())]);
    let error = encode(&two, &structs(vec![Column::Int32(vec![1])], 1), 0).unwrap_err();
    assert_eq!(error.problem, Problem::FieldCount { columns: 1, fields: 2 });
    assert!(error.path.is_empty());
}

#[test]
fn a_mismatch_is_placed_under_the_fields_it_was_found_in() {
    let plan = plan_of(vec![
        vec![field("outer", array(ValueLayout::Message(1), ArraySize::Unbounded))],
        vec![
            field("fine", built_in(BuiltInType::Bool)),
            field("inner", built_in(BuiltInType::Int8)),
        ],
    ]);
    let nested = structs(vec![Column::Bool(vec![true]), Column::UInt8(vec![1])], 1);
    let row = structs(vec![Column::List(vec![Column::Struct(nested)])], 1);
    let error = encode(&plan, &row, 0).unwrap_err();
    assert_eq!(error.path, ["outer", "inner"]);
    assert_eq!(error.problem, Problem::NotBuiltIn(BuiltInType::Int8));
}

#[test]
fn messages_are_written_alike_only_where_they_hold_the_same_values() {
    let plan = plan(vec![
        field("text", built_in(BuiltInType::String(None))),
        field("words", array(built_in(BuiltInType::String(None)), ArraySize::Unbounded)),
        field("level", built_in(BuiltInType::Int16)),
    ]);
    let words = |rows: &[&[&str]]| {
        let of = |row: &&[&str]| Column::Utf8(row.iter().map(|word| (*word).to_owned()).collect());
        Column::List(rows.iter().map(of).collect())
    };
    // The rows differ in one value each; the last one is the first one again.
    let root = structs(
        vec![
            Column::Utf8(["ab", "a", "ab", "ab", "ab", "ab"].map(str::to_owned).to_vec()),
            words(&[&["c"], &["c"], &["c", ""], &[], &["c"], &["c"]]),
            Column::Int16(vec![-1, -1, -1, -1, 1, -1]),
        ],
        6,
    );
    let written: Vec<Vec<u8>> = (0..6).map(|row| encode(&plan, &root, row).unwrap()).collect();
    for row in 1..5 {
        for other in 0..row {
            assert_ne!(written[row], written[other], "rows {row} and {other}");
        }
    }
    assert_eq!(written[5], written[0]);
}

#[test]
fn an_array_of_scalars_is_written_as_the_scalars_are() {
    let values = || Column::UInt32(vec![7, 8, 9]);
    let rows = structs(vec![values()], 3);
    let one = plan(vec![field("f", built_in(BuiltInType::UInt32))]);
    let mut each = Vec::new();
    for row in 0..3 {
        each.extend_from_slice(&encode(&one, &rows, row).unwrap()[4..]);
    }
    let fixed = array(built_in(BuiltInType::UInt32), ArraySize::Fixed(3));
    assert_eq!(body(fixed, Column::List(vec![values()])).unwrap(), each);
}
