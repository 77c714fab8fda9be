use cluster_controller::func::{
    all, any, count, expr, max_bool, max_date, max_int16, max_int32, max_int64, max_numeric,
    max_string, max_timestamp, max_timestamptz, min_bool, min_date, min_int16, min_int32,
    min_int64, min_numeric, min_string, min_timestamp, min_timestamptz, string_agg, sum_int16,
    sum_int32, sum_int64, sum_numeric, AggregateFunc, ColumnOrder,
};
use cluster_controller::ordered_func::{
    array_concat, dense_rank, jsonb_agg, jsonb_object_agg, lag, list_concat, row_number,
};
use cluster_controller::repr::{ColumnType, Datum, ScalarType};

fn text(s: &str) -> Datum {
    Datum::String(s.to_string())
}

fn pair(value: Datum, separator: Datum) -> Datum {
    Datum::List(vec![value, separator])
}

fn column(scalar_type: ScalarType, nullable: bool) -> ColumnType {
    ColumnType { scalar_type, nullable }
}

fn record(fields: Vec<(&str, ColumnType)>) -> ScalarType {
    ScalarType::Record {
        fields: fields.into_iter().map(|(name, column)| (name.to_string(), column)).collect(),
        custom_id: None,
        custom_name: None,
    }
}

fn list(element_type: ScalarType) -> ScalarType {
    ScalarType::List { element_type: Box::new(element_type), custom_id: None }
}

#[test]
fn max_and_min_of_integers() {
    let datums = vec![Datum::Int16(3), Datum::Null, Datum::Int16(-7), Datum::Int16(12), Datum::Int16(12)];
    assert_eq!(max_int16(&datums), Datum::Int16(12));
    assert_eq!(min_int16(&datums), Datum::Int16(-7));
    let datums = vec![Datum::Int32(i32::MIN), Datum::Int32(i32::MAX), Datum::Null];
    assert_eq!(max_int32(&datums), Datum::Int32(i32::MAX));
    assert_eq!(min_int32(&datums), Datum::Int32(i32::MIN));
    let datums = vec![Datum::Int64(5)];
    assert_eq!(max_int64(&datums), Datum::Int64(5));
    assert_eq!(min_int64(&datums), Datum::Int64(5));
}

#[test]
fn max_and_min_of_nothing_is_null() {
    assert_eq!(max_int16(&vec![]), Datum::Null);
    assert_eq!(min_int64(&vec![Datum::Null, Datum::Null]), Datum::Null);
    assert_eq!(max_bool(&vec![Datum::Null]), Datum::Null);
    assert_eq!(min_string(&vec![]), Datum::Null);
    assert_eq!(max_string(&vec![Datum::Null]), Datum::Null);
}

#[test]
fn max_and_min_of_booleans() {
    let datums = vec![Datum::False, Datum::Null, Datum::True, Datum::False];
    assert_eq!(max_bool(&datums), Datum::True);
    assert_eq!(min_bool(&datums), Datum::False);
    assert_eq!(max_bool(&vec![Datum::False, Datum::False]), Datum::False);
    assert_eq!(min_bool(&vec![Datum::True]), Datum::True);
}

#[test]
fn max_and_min_of_dates_and_times() {
    let dates = vec![Datum::Date(19000), Datum::Date(-5), Datum::Null];
    assert_eq!(max_date(&dates), Datum::Date(19000));
    assert_eq!(min_date(&dates), Datum::Date(-5));
    let times = vec![Datum::Timestamp(10), Datum::Timestamp(30), Datum::Timestamp(20)];
    assert_eq!(max_timestamp(&times), Datum::Timestamp(30));
    assert_eq!(min_timestamp(&times), Datum::Timestamp(10));
    let moments = vec![Datum::Null, Datum::TimestampTz(-1), Datum::TimestampTz(1)];
    assert_eq!(max_timestamptz(&moments), Datum::TimestampTz(1));
    assert_eq!(min_timestamptz(&moments), Datum::TimestampTz(-1));
}

#[test]
fn max_and_min_of_texts() {
    let datums = vec![text("pear"), Datum::Null, text("apple"), text("pea"), text("zebra"), text("Zebra"), text("")];
    assert_eq!(max_string(&datums), text("zebra"));
    assert_eq!(min_string(&datums), text(""));
    let datums = vec![text("é"), text("z"), text("ab"), text("a")];
    assert_eq!(max_string(&datums), text("é"));
    assert_eq!(min_string(&datums), text("a"));
    let mut sorted: Vec<&str> = vec!["pear", "apple", "pea", "zebra", "Zebra", "", "é", "日本"];
    sorted.sort();
    let datums: Vec<Datum> = ["pear", "apple", "pea", "zebra", "Zebra", "", "é", "日本"].iter().map(|s| text(s)).collect();
    assert_eq!(max_string(&datums), text(sorted[sorted.len() - 1]));
    assert_eq!(min_string(&datums), text(sorted[0]));
}

#[test]
fn sums_of_integers() {
    assert_eq!(sum_int16(&vec![Datum::Int16(i16::MAX), Datum::Int16(i16::MAX), Datum::Null]), Datum::Int64(65534));
    assert_eq!(sum_int32(&vec![Datum::Int32(i32::MIN), Datum::Int32(-1)]), Datum::Int64(-2147483649));
    assert_eq!(
        sum_int64(&vec![Datum::Int64(i64::MAX), Datum::Int64(i64::MAX), Datum::Int64(2)]),
        Datum::Numeric(18446744073709551616)
    );
    assert_eq!(sum_int64(&vec![Datum::Int64(i64::MIN), Datum::Int64(i64::MIN)]), Datum::Numeric(-18446744073709551616));
    assert_eq!(sum_int16(&vec![]), Datum::Null);
    assert_eq!(sum_int32(&vec![Datum::Null]), Datum::Null);
    assert_eq!(sum_int64(&vec![Datum::Null, Datum::Null]), Datum::Null);
    assert_eq!(sum_int64(&vec![Datum::Int64(0)]), Datum::Numeric(0));
}

#[test]
fn count_of_values_that_are_not_null() {
    assert_eq!(count(&vec![]), Datum::Int64(0));
    assert_eq!(count(&vec![Datum::Null, Datum::Null]), Datum::Int64(0));
    assert_eq!(count(&vec![Datum::Int16(1), Datum::Null, text("x"), Datum::False]), Datum::Int64(3));
}

#[test]
fn any_and_all_with_three_values() {
    let cases: Vec<(Vec<Datum>, Datum, Datum)> = vec![
        (vec![], Datum::False, Datum::True),
        (vec![Datum::True], Datum::True, Datum::True),
        (vec![Datum::False], Datum::False, Datum::False),
        (vec![Datum::Null], Datum::Null, Datum::Null),
        (vec![Datum::Null, Datum::True], Datum::True, Datum::Null),
        (vec![Datum::True, Datum::Null], Datum::True, Datum::Null),
        (vec![Datum::Null, Datum::False], Datum::Null, Datum::False),
        (vec![Datum::False, Datum::Null], Datum::Null, Datum::False),
        (vec![Datum::False, Datum::True, Datum::Null], Datum::True, Datum::False),
        (vec![Datum::False, Datum::False], Datum::False, Datum::False),
        (vec![Datum::True, Datum::True], Datum::True, Datum::True),
    ];
    for (datums, expected_any, expected_all) in cases {
        assert_eq!(any(&datums), expected_any, "{datums:?}");
        assert_eq!(all(&datums), expected_all, "{datums:?}");
    }
}

fn row(expr: Datum, order: Vec<Datum>) -> Datum {
    let mut elements = vec![expr];
    elements.extend(order);
    Datum::List(elements)
}

fn rows(exprs: Vec<Datum>) -> Vec<Datum> {
    exprs.into_iter().map(|e| row(e, vec![])).collect()
}

#[test]
fn string_agg_joins_with_separators() {
    let datums = rows(vec![
        pair(text("a"), text(", ")),
        Datum::Null,
        pair(Datum::Null, text("; ")),
        pair(text("b"), text("; ")),
        pair(text("c"), Datum::Null),
        pair(text(""), text("-")),
    ]);
    assert_eq!(string_agg(&datums), text("a; bc-"));
    assert_eq!(string_agg(&rows(vec![pair(text("only"), text("!"))])), text("only"));
    assert_eq!(string_agg(&vec![]), Datum::Null);
    assert_eq!(string_agg(&rows(vec![Datum::Null, pair(Datum::Null, Datum::Null)])), Datum::Null);
    let ordered = vec![
        row(pair(text("x"), text("/")), vec![Datum::Int32(2)]),
        row(pair(text("y"), text("/")), vec![Datum::Int32(1)]),
    ];
    assert_eq!(string_agg(&ordered), text("x/y"));
}

#[test]
fn jsonb_agg_collects_what_is_not_null() {
    let datums = rows(vec![Datum::Int32(1), Datum::Null, text("two"), Datum::List(vec![Datum::Null])]);
    assert_eq!(
        jsonb_agg(&datums),
        Datum::List(vec![Datum::Int32(1), text("two"), Datum::List(vec![Datum::Null])])
    );
    assert_eq!(jsonb_agg(&vec![]), Datum::List(vec![]));
    assert_eq!(jsonb_agg(&rows(vec![Datum::Null])), Datum::List(vec![]));
}

#[test]
fn lists_and_arrays_are_concatenated() {
    let lists = rows(vec![
        Datum::List(vec![Datum::Int32(1), Datum::Int32(2)]),
        Datum::List(vec![]),
        Datum::List(vec![Datum::Null, text("x")]),
    ]);
    assert_eq!(
        list_concat(&lists),
        Datum::List(vec![Datum::Int32(1), Datum::Int32(2), Datum::Null, text("x")])
    );
    let arrays = rows(vec![Datum::Array(vec![Datum::True]), Datum::Array(vec![Datum::False, Datum::True])]);
    assert_eq!(array_concat(&arrays), Datum::Array(vec![Datum::True, Datum::False, Datum::True]));
    assert_eq!(list_concat(&vec![]), Datum::List(vec![]));
    assert_eq!(array_concat(&vec![]), Datum::Array(vec![]));
}

#[test]
fn row_number_counts_from_one() {
    let datums = rows(vec![
        Datum::List(vec![text("a"), text("b")]),
        Datum::List(vec![]),
        Datum::List(vec![text("c")]),
    ]);
    assert_eq!(
        row_number(&datums),
        Datum::List(vec![
            Datum::List(vec![Datum::Int64(1), text("a")]),
            Datum::List(vec![Datum::Int64(2), text("b")]),
            Datum::List(vec![Datum::Int64(3), text("c")]),
        ])
    );
    assert_eq!(row_number(&vec![]), Datum::List(vec![]));
}

#[test]
fn dense_rank_grows_where_the_order_changes() {
    let datums = vec![
        row(Datum::List(vec![text("a"), text("b")]), vec![Datum::Int32(10)]),
        row(Datum::List(vec![text("c")]), vec![Datum::Int32(10)]),
        row(Datum::List(vec![]), vec![Datum::Int32(15)]),
        row(Datum::List(vec![text("d")]), vec![Datum::Int32(20)]),
        row(Datum::List(vec![text("e")]), vec![Datum::Int32(20), Datum::Null]),
        row(Datum::List(vec![text("f")]), vec![Datum::Int32(10)]),
    ];
    assert_eq!(
        dense_rank(&datums),
        Datum::List(vec![
            Datum::List(vec![Datum::Int64(1), text("a")]),
            Datum::List(vec![Datum::Int64(1), text("b")]),
            Datum::List(vec![Datum::Int64(1), text("c")]),
            Datum::List(vec![Datum::Int64(2), text("d")]),
            Datum::List(vec![Datum::Int64(3), text("e")]),
            Datum::List(vec![Datum::Int64(4), text("f")]),
        ])
    );
    assert_eq!(dense_rank(&vec![]), Datum::List(vec![]));
}

#[test]
fn lag_looks_back_by_the_offset() {
    let lag_row = |record: &str, value: i32, offset: Datum, default: Datum| {
        row(
            Datum::List(vec![
                text(record),
                Datum::List(vec![Datum::Int32(value), offset, default]),
            ]),
            vec![],
        )
    };
    let datums = vec![
        lag_row("r0", 100, Datum::Int32(1), Datum::Int32(-1)),
        lag_row("r1", 101, Datum::Int32(1), Datum::Null),
        lag_row("r2", 102, Datum::Int32(2), Datum::Int32(-1)),
        lag_row("r3", 103, Datum::Null, Datum::Int32(-1)),
        lag_row("r4", 104, Datum::Int32(0), Datum::Int32(-1)),
        lag_row("r5", 105, Datum::Int32(-1), Datum::Int32(-1)),
        lag_row("r6", 106, Datum::Int32(-1), text("none")),
        lag_row("r7", 107, Datum::Int32(i32::MIN), Datum::Int32(-7)),
        lag_row("r8", 108, Datum::Int32(i32::MAX), Datum::Int32(-8)),
    ];
    let found = |found: Datum, record: &str| Datum::List(vec![found, text(record)]);
    assert_eq!(
        lag(&datums),
        Datum::List(vec![
            found(Datum::Int32(-1), "r0"),
            found(Datum::Int32(100), "r1"),
            found(Datum::Int32(100), "r2"),
            found(Datum::Null, "r3"),
            found(Datum::Int32(104), "r4"),
            found(Datum::Int32(106), "r5"),
            found(Datum::Int32(107), "r6"),
            found(Datum::Int32(-7), "r7"),
            found(Datum::Int32(-8), "r8"),
        ])
    );
    assert_eq!(lag(&vec![]), Datum::List(vec![]));
}

#[test]
fn datums_are_copied_and_compared_by_value() {
    let nested = Datum::List(vec![
        Datum::Array(vec![Datum::Int16(1), text("x")]),
        Datum::Null,
        Datum::Numeric(-5),
        Datum::List(vec![]),
    ]);
    let copy = nested.clone();
    assert_eq!(copy, nested);
    assert!(copy.same_value(&nested));
    assert!(!copy.same_value(&Datum::List(vec![])));
    assert!(!Datum::List(vec![]).same_value(&Datum::Array(vec![])));
    assert!(!text("a").same_value(&text("b")));
    assert!(!Datum::Int32(1).same_value(&Datum::Int64(1)));
    assert!(Datum::Dummy.same_value(&Datum::Dummy));
    assert!(!Datum::List(vec![Datum::True]).same_value(&Datum::List(vec![Datum::False])));
    assert_eq!(nested.unwrap_list().len(), 4);
    assert_eq!(Datum::Array(vec![Datum::True]).unwrap_array(), &vec![Datum::True]);
    assert_eq!(expr(&row(text("e"), vec![Datum::Int16(1)])), &text("e"));
}

#[test]
fn default_and_identity() {
    let ordered = || vec![ColumnOrder { column: 0, desc: false }];
    assert_eq!(AggregateFunc::Count.default(), Datum::Int64(0));
    assert_eq!(AggregateFunc::Any.default(), Datum::False);
    assert_eq!(AggregateFunc::All.default(), Datum::True);
    assert_eq!(AggregateFunc::Dummy.default(), Datum::Dummy);
    assert_eq!(AggregateFunc::MaxInt32.default(), Datum::Null);
    assert_eq!(AggregateFunc::SumInt64.default(), Datum::Null);
    assert_eq!(AggregateFunc::Lag { order_by: ordered() }.default(), Datum::Null);

    assert_eq!(AggregateFunc::Any.identity_datum(), Datum::False);
    assert_eq!(AggregateFunc::All.identity_datum(), Datum::True);
    assert_eq!(AggregateFunc::Dummy.identity_datum(), Datum::Dummy);
    assert_eq!(AggregateFunc::ArrayConcat { order_by: ordered() }.identity_datum(), Datum::Array(vec![]));
    assert_eq!(AggregateFunc::ListConcat { order_by: ordered() }.identity_datum(), Datum::List(vec![]));
    assert_eq!(AggregateFunc::RowNumber { order_by: ordered() }.identity_datum(), Datum::List(vec![]));
    assert_eq!(AggregateFunc::DenseRank { order_by: ordered() }.identity_datum(), Datum::List(vec![]));
    assert_eq!(AggregateFunc::Lag { order_by: ordered() }.identity_datum(), Datum::List(vec![]));
    assert_eq!(AggregateFunc::Count.identity_datum(), Datum::Null);
    assert_eq!(AggregateFunc::MinString.identity_datum(), Datum::Null);
}

#[test]
fn eval_dispatches() {
    let ints = vec![Datum::Int32(4), Datum::Null, Datum::Int32(-2)];
    assert_eq!(AggregateFunc::MaxInt32.eval(&ints), Some(Datum::Int32(4)));
    assert_eq!(AggregateFunc::MinInt32.eval(&ints), Some(Datum::Int32(-2)));
    assert_eq!(AggregateFunc::SumInt32.eval(&ints), Some(Datum::Int64(2)));
    assert_eq!(AggregateFunc::Count.eval(&ints), Some(Datum::Int64(2)));
    assert_eq!(AggregateFunc::Any.eval(&ints), Some(Datum::Null));
    assert_eq!(AggregateFunc::All.eval(&ints), Some(Datum::Null));
    assert_eq!(AggregateFunc::Dummy.eval(&ints), Some(Datum::Dummy));
    assert_eq!(AggregateFunc::MaxFloat64.eval(&ints), None);
    assert_eq!(AggregateFunc::SumFloat32.eval(&ints), None);
    assert_eq!(AggregateFunc::SumNumeric.eval(&ints), Some(Datum::Numeric(0)));
    let numbers = vec![Datum::Numeric(1 << 100), Datum::Null, Datum::Numeric(-5)];
    assert_eq!(AggregateFunc::MaxNumeric.eval(&numbers), Some(Datum::Numeric(1 << 100)));
    assert_eq!(AggregateFunc::MinNumeric.eval(&numbers), Some(Datum::Numeric(-5)));
    assert_eq!(AggregateFunc::SumNumeric.eval(&numbers), Some(Datum::Numeric((1 << 100) - 5)));
    assert_eq!(
        AggregateFunc::JsonbAgg { order_by: vec![ColumnOrder { column: 1, desc: true }] }.eval(&ints),
        None
    );
    let pairs = rows(vec![pair(text("x"), text("+")), pair(text("y"), text("+"))]);
    assert_eq!(AggregateFunc::StringAgg { order_by: vec![] }.eval(&pairs), Some(text("x+y")));
    assert_eq!(
        AggregateFunc::JsonbAgg { order_by: vec![] }.eval(&pairs),
        Some(Datum::List(vec![pair(text("x"), text("+")), pair(text("y"), text("+"))]))
    );
    assert_eq!(
        AggregateFunc::ListConcat { order_by: vec![] }.eval(&pairs),
        Some(Datum::List(vec![text("x"), text("+"), text("y"), text("+")]))
    );
    assert_eq!(
        AggregateFunc::RowNumber { order_by: vec![] }.eval(&rows(vec![Datum::List(vec![text("r")])])),
        Some(Datum::List(vec![Datum::List(vec![Datum::Int64(1), text("r")])]))
    );
    assert_eq!(
        AggregateFunc::DenseRank { order_by: vec![] }.eval(&rows(vec![Datum::List(vec![text("r")])])),
        Some(Datum::List(vec![Datum::List(vec![Datum::Int64(1), text("r")])]))
    );
    assert_eq!(
        AggregateFunc::ArrayConcat { order_by: vec![] }.eval(&rows(vec![Datum::Array(vec![Datum::True])])),
        Some(Datum::Array(vec![Datum::True]))
    );
    assert_eq!(AggregateFunc::Lag { order_by: vec![] }.eval(&vec![]), Some(Datum::List(vec![])));
    assert_eq!(
        AggregateFunc::JsonbObjectAgg { order_by: vec![] }.eval(&pairs),
        Some(Datum::Dict(vec![("x".to_string(), text("+")), ("y".to_string(), text("+"))]))
    );
    assert_eq!(
        AggregateFunc::Lag { order_by: vec![ColumnOrder { column: 1, desc: false }] }.eval(&vec![]),
        Some(Datum::List(vec![]))
    );
    assert_eq!(
        AggregateFunc::StringAgg { order_by: vec![ColumnOrder { column: 1, desc: true }] }.eval(&pairs),
        None
    );
}

#[test]
fn output_types_of_simple_aggregates() {
    assert_eq!(
        AggregateFunc::Count.output_type(column(ScalarType::String, true)),
        Some(column(ScalarType::Int64, false))
    );
    assert_eq!(
        AggregateFunc::Any.output_type(column(ScalarType::Bool, true)),
        Some(column(ScalarType::Bool, true))
    );
    assert_eq!(
        AggregateFunc::All.output_type(column(ScalarType::Bool, false)),
        Some(column(ScalarType::Bool, false))
    );
    assert_eq!(
        AggregateFunc::SumInt16.output_type(column(ScalarType::Int16, true)),
        Some(column(ScalarType::Int64, true))
    );
    assert_eq!(
        AggregateFunc::SumInt32.output_type(column(ScalarType::Int32, false)),
        Some(column(ScalarType::Int64, false))
    );
    assert_eq!(
        AggregateFunc::SumInt64.output_type(column(ScalarType::Int64, true)),
        Some(column(ScalarType::Numeric { max_scale: Some(0) }, true))
    );
    assert_eq!(
        AggregateFunc::JsonbAgg { order_by: vec![] }.output_type(column(ScalarType::Jsonb, true)),
        Some(column(ScalarType::Jsonb, true))
    );
    assert_eq!(
        AggregateFunc::MaxString.output_type(column(ScalarType::String, true)),
        Some(column(ScalarType::String, true))
    );
    assert_eq!(
        AggregateFunc::MinFloat64.output_type(column(ScalarType::Float64, false)),
        Some(column(ScalarType::Float64, false))
    );
}

#[test]
fn output_types_of_aggregates_over_ordered_input() {
    let wrapped = |inner: ScalarType| {
        column(record(vec![("", column(inner, true)), ("", column(ScalarType::Int32, false))]), true)
    };
    assert_eq!(
        AggregateFunc::ListConcat { order_by: vec![] }.output_type(wrapped(list(ScalarType::Int32))),
        Some(column(list(ScalarType::Int32), true))
    );
    assert_eq!(
        AggregateFunc::ArrayConcat { order_by: vec![] }
            .output_type(wrapped(ScalarType::Array(Box::new(ScalarType::String)))),
        Some(column(ScalarType::Array(Box::new(ScalarType::String)), true))
    );
    assert_eq!(
        AggregateFunc::ArrayConcat { order_by: vec![] }.output_type(column(ScalarType::Int32, true)),
        None
    );
    assert_eq!(
        AggregateFunc::ListConcat { order_by: vec![] }.output_type(column(record(vec![]), true)),
        None
    );

    let value_and_separator = record(vec![
        ("", column(ScalarType::String, false)),
        ("", column(ScalarType::String, true)),
    ]);
    assert_eq!(
        AggregateFunc::StringAgg { order_by: vec![] }.output_type(wrapped(value_and_separator)),
        Some(column(ScalarType::String, false))
    );
    assert_eq!(
        AggregateFunc::StringAgg { order_by: vec![] }.output_type(wrapped(ScalarType::String)),
        None
    );
}

#[test]
fn output_types_of_window_functions() {
    let row = || record(vec![("a", column(ScalarType::Int32, true))]);
    let numbered = |name: &str| {
        list(record(vec![
            (name, column(ScalarType::Int64, false)),
            ("?record?", column(row(), false)),
        ]))
    };
    let input = || column(record(vec![("", column(list(row()), false))]), true);
    assert_eq!(
        AggregateFunc::RowNumber { order_by: vec![] }.output_type(input()),
        Some(column(numbered("?row_number?"), true))
    );
    assert_eq!(
        AggregateFunc::DenseRank { order_by: vec![] }.output_type(input()),
        Some(column(numbered("?dense_rank?"), true))
    );
    assert_eq!(
        AggregateFunc::RowNumber { order_by: vec![] }
            .output_type(column(record(vec![("", column(row(), false))]), true)),
        None
    );

    let encoded_args = record(vec![
        ("", column(ScalarType::String, false)),
        ("", column(ScalarType::Int32, false)),
        ("", column(ScalarType::String, true)),
    ]);
    let lag_input = column(
        record(vec![
            (
                "",
                column(
                    record(vec![("", column(row(), false)), ("", column(encoded_args, false))]),
                    false,
                ),
            ),
            ("", column(ScalarType::Int64, false)),
        ]),
        false,
    );
    assert_eq!(
        AggregateFunc::Lag { order_by: vec![] }.output_type(lag_input),
        Some(column(
            list(record(vec![
                ("?lag?", column(ScalarType::String, true)),
                ("?record?", column(row(), false)),
            ])),
            false
        ))
    );
    assert_eq!(AggregateFunc::Lag { order_by: vec![] }.output_type(input()), None);
}

#[test]
fn jsonb_object_agg_keeps_the_last_value_of_each_key_in_key_order() {
    let datums = rows(vec![
        pair(text("m"), Datum::Int32(1)),
        pair(text("b"), Datum::Int32(2)),
        Datum::Null,
        pair(Datum::Null, Datum::Int32(3)),
        pair(text("z"), Datum::Int32(4)),
        pair(text("b"), Datum::Int32(5)),
        pair(text("a"), Datum::Null),
        pair(text("m"), text("six")),
        pair(text("é"), Datum::Int32(7)),
        pair(text(""), Datum::Int32(8)),
    ]);
    assert_eq!(
        jsonb_object_agg(&datums),
        Datum::Dict(vec![
            ("".to_string(), Datum::Int32(8)),
            ("a".to_string(), Datum::Null),
            ("b".to_string(), Datum::Int32(5)),
            ("m".to_string(), text("six")),
            ("z".to_string(), Datum::Int32(4)),
            ("é".to_string(), Datum::Int32(7)),
        ])
    );
    assert_eq!(jsonb_object_agg(&vec![]), Datum::Dict(vec![]));
    let copy = jsonb_object_agg(&datums).clone();
    assert!(copy.same_value(&jsonb_object_agg(&datums)));
    assert!(!copy.same_value(&Datum::Dict(vec![])));
    assert_eq!(copy.unwrap_dict().len(), 6);
}

#[test]
fn max_min_and_sum_of_decimal_numbers() {
    let datums = vec![Datum::Numeric(i128::MAX), Datum::Null, Datum::Numeric(i128::MIN), Datum::Numeric(1)];
    assert_eq!(max_numeric(&datums), Datum::Numeric(i128::MAX));
    assert_eq!(min_numeric(&datums), Datum::Numeric(i128::MIN));
    assert_eq!(sum_numeric(&datums), Datum::Numeric(0));
    assert_eq!(max_numeric(&vec![Datum::Null]), Datum::Null);
    assert_eq!(min_numeric(&vec![]), Datum::Null);
    assert_eq!(sum_numeric(&vec![Datum::Null]), Datum::Null);
    assert_eq!(sum_numeric(&vec![Datum::Numeric(2), Datum::Numeric(3)]), Datum::Numeric(5));
}

fn by_first_column() -> Vec<ColumnOrder> {
    vec![ColumnOrder { column: 1, desc: true }]
}

#[test]
fn nothing_gives_the_default_whatever_the_order() {
    let none: Vec<Datum> = vec![];
    let reductions = vec![
        AggregateFunc::MaxNumeric,
        AggregateFunc::MaxInt16,
        AggregateFunc::MaxInt32,
        AggregateFunc::MaxInt64,
        AggregateFunc::MaxBool,
        AggregateFunc::MaxString,
        AggregateFunc::MaxDate,
        AggregateFunc::MaxTimestamp,
        AggregateFunc::MaxTimestampTz,
        AggregateFunc::MinNumeric,
        AggregateFunc::MinInt16,
        AggregateFunc::MinInt32,
        AggregateFunc::MinInt64,
        AggregateFunc::MinBool,
        AggregateFunc::MinString,
        AggregateFunc::MinDate,
        AggregateFunc::MinTimestamp,
        AggregateFunc::MinTimestampTz,
        AggregateFunc::SumInt16,
        AggregateFunc::SumInt32,
        AggregateFunc::SumInt64,
        AggregateFunc::SumNumeric,
        AggregateFunc::Count,
        AggregateFunc::Any,
        AggregateFunc::All,
        AggregateFunc::StringAgg { order_by: vec![] },
        AggregateFunc::StringAgg { order_by: by_first_column() },
        AggregateFunc::Dummy,
    ];
    for func in reductions {
        assert_eq!(func.eval(&none), Some(func.default()), "{:?}", func);
    }
    assert_eq!(AggregateFunc::Count.eval(&none), Some(Datum::Int64(0)));
    assert_eq!(AggregateFunc::Any.eval(&none), Some(Datum::False));
    assert_eq!(AggregateFunc::All.eval(&none), Some(Datum::True));
    assert_eq!(
        AggregateFunc::StringAgg { order_by: by_first_column() }.eval(&none),
        Some(Datum::Null)
    );
}

#[test]
fn ordered_aggregates_are_evaluated_where_nothing_is_to_be_sorted() {
    let none: Vec<Datum> = vec![];
    assert_eq!(
        AggregateFunc::JsonbAgg { order_by: by_first_column() }.eval(&none),
        Some(Datum::List(vec![]))
    );
    assert_eq!(
        AggregateFunc::JsonbObjectAgg { order_by: by_first_column() }.eval(&none),
        Some(Datum::Dict(vec![]))
    );
    assert_eq!(
        AggregateFunc::ListConcat { order_by: by_first_column() }.eval(&none),
        Some(Datum::List(vec![]))
    );
    assert_eq!(
        AggregateFunc::ArrayConcat { order_by: by_first_column() }.eval(&none),
        Some(Datum::Array(vec![]))
    );
    assert_eq!(
        AggregateFunc::RowNumber { order_by: by_first_column() }.eval(&none),
        Some(Datum::List(vec![]))
    );
    assert_eq!(
        AggregateFunc::DenseRank { order_by: by_first_column() }.eval(&none),
        Some(Datum::List(vec![]))
    );
    let one = vec![row(pair(text("x"), text("+")), vec![Datum::Int32(7)])];
    assert_eq!(
        AggregateFunc::StringAgg { order_by: by_first_column() }.eval(&one),
        Some(text("x"))
    );
    assert_eq!(
        AggregateFunc::JsonbAgg { order_by: by_first_column() }.eval(&one),
        Some(Datum::List(vec![pair(text("x"), text("+"))]))
    );
    let two = vec![
        row(pair(text("x"), text("+")), vec![Datum::Int32(7)]),
        row(pair(text("y"), text("+")), vec![Datum::Int32(8)]),
    ];
    assert_eq!(AggregateFunc::StringAgg { order_by: by_first_column() }.eval(&two), None);
    assert_eq!(AggregateFunc::JsonbAgg { order_by: by_first_column() }.eval(&two), None);
}
