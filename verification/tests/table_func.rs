use cluster_controller::repr::{ColumnType, Datum, Interval, RelationType, ScalarType};
use cluster_controller::table_func::{
    add_timestamp_months, generate_series_int32, generate_series_int64, generate_series_ts,
    generate_subscripts_array, jsonb_array_elements, jsonb_each, jsonb_object_keys,
    unnest_array, unnest_list, wrap, AnalyzedRegex, EvalError, RangeStepInclusive, TableFunc,
    TableRows, TimestampRangeStepInclusive, FIRST_TIMESTAMP, LAST_TIMESTAMP,
};

fn column(scalar_type: ScalarType, nullable: bool) -> ColumnType {
    ColumnType { scalar_type, nullable }
}

fn collect(mut series: RangeStepInclusive) -> Vec<i64> {
    let mut numbers = vec![];
    while let Some(number) = series.next() {
        numbers.push(number);
        assert!(numbers.len() < 1000);
    }
    assert_eq!(series.next(), None);
    numbers
}

fn all_table_funcs() -> Vec<TableFunc> {
    vec![
        TableFunc::JsonbEach { stringify: true },
        TableFunc::JsonbEach { stringify: false },
        TableFunc::JsonbObjectKeys,
        TableFunc::JsonbArrayElements { stringify: true },
        TableFunc::JsonbArrayElements { stringify: false },
        TableFunc::RegexpExtract(AnalyzedRegex::new("(a)(?P<b>b)?").unwrap()),
        TableFunc::CsvExtract(3),
        TableFunc::GenerateSeriesInt32,
        TableFunc::GenerateSeriesInt64,
        TableFunc::GenerateSeriesTimestamp,
        TableFunc::GenerateSeriesTimestampTz,
        TableFunc::Repeat,
        TableFunc::UnnestArray { el_typ: ScalarType::Int16 },
        TableFunc::UnnestList { el_typ: ScalarType::Jsonb },
        TableFunc::Wrap {
            types: vec![column(ScalarType::Bool, true), column(ScalarType::Date, false)],
            width: 2,
        },
        TableFunc::GenerateSubscriptsArray,
    ]
}

#[test]
fn series_of_integers() {
    assert_eq!(collect(generate_series_int64(1, 10, 3).unwrap()), vec![1, 4, 7, 10]);
    assert_eq!(collect(generate_series_int64(1, 9, 3).unwrap()), vec![1, 4, 7]);
    assert_eq!(collect(generate_series_int64(5, 1, -2).unwrap()), vec![5, 3, 1]);
    assert_eq!(collect(generate_series_int64(5, 1, 1).unwrap()), Vec::<i64>::new());
    assert_eq!(collect(generate_series_int64(1, 5, -1).unwrap()), Vec::<i64>::new());
    assert_eq!(collect(generate_series_int64(3, 3, 7).unwrap()), vec![3]);
    assert_eq!(collect(generate_series_int32(-2, 2, 2).unwrap()), vec![-2, 0, 2]);
}

#[test]
fn series_stop_where_counting_would_overflow() {
    assert_eq!(
        collect(generate_series_int64(i64::MAX - 3, i64::MAX, 2).unwrap()),
        vec![i64::MAX - 3, i64::MAX - 1]
    );
    assert_eq!(
        collect(generate_series_int64(i64::MIN + 1, i64::MIN, -1).unwrap()),
        vec![i64::MIN + 1, i64::MIN]
    );
    assert_eq!(
        collect(generate_series_int32(i32::MAX - 1, i32::MAX, 1).unwrap()),
        vec![i32::MAX as i64 - 1, i32::MAX as i64]
    );
    assert_eq!(
        collect(generate_series_int32(i32::MIN + 2, i32::MIN, -2).unwrap()),
        vec![i32::MIN as i64 + 2, i32::MIN as i64]
    );
}

#[test]
fn series_agree_with_num() {
    let cases = [
        (0i64, 10i64, 1i64),
        (0, 10, 4),
        (10, 0, -3),
        (0, 0, 5),
        (7, 3, 2),
        (3, 7, -2),
        (i64::MAX - 5, i64::MAX, 3),
        (i64::MIN + 5, i64::MIN, -3),
    ];
    for (start, stop, step) in cases {
        let expected: Vec<i64> = num::range_step_inclusive(start, stop, step).collect();
        assert_eq!(collect(generate_series_int64(start, stop, step).unwrap()), expected);
    }
    let cases = [(0i32, 9i32, 2i32), (i32::MAX - 2, i32::MAX, 1), (i32::MIN + 4, i32::MIN, -3)];
    for (start, stop, step) in cases {
        let expected: Vec<i64> =
            num::range_step_inclusive(start, stop, step).map(i64::from).collect();
        assert_eq!(collect(generate_series_int32(start, stop, step).unwrap()), expected);
    }
}

#[test]
fn series_with_step_zero_is_refused() {
    let refusal = EvalError::InvalidParameterValue("step size cannot equal zero".to_string());
    assert_eq!(generate_series_int64(1, 2, 0), Err(refusal.clone()));
    assert_eq!(generate_series_int32(1, 2, 0), Err(refusal));
}

#[test]
fn subscripts_of_an_array() {
    let array = Datum::Array(vec![Datum::Int16(7), Datum::Null, Datum::Int16(9)]);
    assert_eq!(collect(generate_subscripts_array(&array, 1).unwrap().unwrap()), vec![1, 2, 3]);
    assert_eq!(generate_subscripts_array(&array, 0), Ok(None));
    assert_eq!(generate_subscripts_array(&array, -1), Ok(None));
    assert_eq!(generate_subscripts_array(&array, 2), Ok(None));
    let empty = Datum::Array(vec![]);
    assert_eq!(collect(generate_subscripts_array(&empty, 1).unwrap().unwrap()), Vec::<i64>::new());
}

#[test]
fn table_func_arities() {
    let arities: Vec<usize> = all_table_funcs().iter().map(|f| f.output_arity()).collect();
    assert_eq!(arities, vec![2, 2, 1, 1, 1, 2, 3, 1, 1, 1, 1, 0, 1, 1, 2, 1]);
    let column_counts: Vec<usize> =
        all_table_funcs().into_iter().map(|f| f.output_type().arity()).collect();
    assert_eq!(column_counts, arities);
}

#[test]
fn table_func_properties() {
    let funcs = all_table_funcs();
    let empty_on_null: Vec<bool> = funcs.iter().map(|f| f.empty_on_null_input()).collect();
    let expected: Vec<bool> = (0..16).map(|i| i != 14).collect();
    assert_eq!(empty_on_null, expected);
    let monotone: Vec<bool> = funcs.iter().map(|f| f.preserves_monotonicity()).collect();
    let expected: Vec<bool> = (0..16).map(|i| i != 11).collect();
    assert_eq!(monotone, expected);
}

#[test]
fn table_func_output_types() {
    let relation = |column_types: Vec<ColumnType>, keyed: bool| RelationType {
        column_types,
        keys: if keyed { vec![vec![0]] } else { vec![] },
    };
    let text = |nullable: bool| column(ScalarType::String, nullable);
    let expected = vec![
        relation(vec![text(false), text(true)], false),
        relation(vec![text(false), column(ScalarType::Jsonb, false)], false),
        relation(vec![text(false)], false),
        relation(vec![text(true)], false),
        relation(vec![column(ScalarType::Jsonb, false)], false),
        relation(vec![text(true), text(true)], false),
        relation(vec![text(false), text(false), text(false)], false),
        relation(vec![column(ScalarType::Int32, false)], true),
        relation(vec![column(ScalarType::Int64, false)], true),
        relation(vec![column(ScalarType::Timestamp, false)], true),
        relation(vec![column(ScalarType::TimestampTz, false)], true),
        relation(vec![], false),
        relation(vec![column(ScalarType::Int16, true)], false),
        relation(vec![column(ScalarType::Jsonb, true)], false),
        relation(vec![column(ScalarType::Bool, true), column(ScalarType::Date, false)], false),
        relation(vec![column(ScalarType::Int32, false)], true),
    ];
    let actual: Vec<RelationType> =
        all_table_funcs().into_iter().map(|f| f.output_type()).collect();
    assert_eq!(actual, expected);
}

fn text(s: &str) -> Datum {
    Datum::String(s.to_string())
}

fn once(rows: Vec<Vec<Datum>>) -> Vec<(Vec<Datum>, i64)> {
    rows.into_iter().map(|row| (row, 1)).collect()
}

#[test]
fn wrap_chunks_its_arguments() {
    let values = vec![Datum::Int16(1), Datum::Int16(2), Datum::Int16(3), Datum::Int16(4), Datum::Int16(5)];
    assert_eq!(
        wrap(&values, 2),
        once(vec![
            vec![Datum::Int16(1), Datum::Int16(2)],
            vec![Datum::Int16(3), Datum::Int16(4)],
            vec![Datum::Int16(5)],
        ])
    );
    assert_eq!(wrap(&values, 5), once(vec![vec![Datum::Int16(1), Datum::Int16(2), Datum::Int16(3), Datum::Int16(4), Datum::Int16(5)]]));
    assert_eq!(wrap(&values, 7).len(), 1);
    assert_eq!(wrap(&values, 1).len(), 5);
    assert_eq!(wrap(&vec![], 3), vec![]);
}

#[test]
fn unnest_gives_one_row_per_element() {
    let elements = || vec![Datum::Int16(1), Datum::Null, text("x")];
    let expected = once(vec![vec![Datum::Int16(1)], vec![Datum::Null], vec![text("x")]]);
    assert_eq!(unnest_array(&Datum::Array(elements())), expected);
    assert_eq!(unnest_list(&Datum::List(elements())), expected);
    assert_eq!(jsonb_array_elements(&Datum::List(elements())), expected);
    assert_eq!(jsonb_array_elements(&text("no array")), vec![]);
    assert_eq!(unnest_list(&Datum::List(vec![])), vec![]);
}

#[test]
fn eval_gives_nothing_on_null_input() {
    for func in all_table_funcs() {
        let out = func.eval(&vec![Datum::Null, Datum::Null, Datum::Null]);
        match func {
            TableFunc::Wrap { .. } => {
                assert_eq!(
                    out,
                    Ok(Some(TableRows::Rows(once(vec![
                        vec![Datum::Null, Datum::Null],
                        vec![Datum::Null]
                    ]))))
                );
            }
            _ => assert_eq!(out, Ok(Some(TableRows::Rows(vec![])))),
        }
    }
}

#[test]
fn a_null_argument_is_looked_for_before_anything_else() {
    assert_eq!(
        TableFunc::GenerateSeriesInt32.eval(&vec![Datum::Null, Datum::Int32(3), Datum::Int32(0)]),
        Ok(Some(TableRows::Rows(vec![])))
    );
    assert_eq!(
        TableFunc::GenerateSeriesInt64.eval(&vec![Datum::Int64(1), Datum::Int64(3), Datum::Null]),
        Ok(Some(TableRows::Rows(vec![])))
    );
    assert_eq!(
        TableFunc::JsonbEach { stringify: true }.eval(&vec![Datum::Null]),
        Ok(Some(TableRows::Rows(vec![])))
    );
    assert_eq!(
        TableFunc::JsonbArrayElements { stringify: true }.eval(&vec![Datum::Null]),
        Ok(Some(TableRows::Rows(vec![])))
    );
    assert_eq!(
        TableFunc::JsonbArrayElements { stringify: true }.eval(&vec![Datum::List(vec![])]),
        Ok(None)
    );
}

#[test]
fn a_series_with_step_zero_is_refused_with_its_message() {
    let refused = || Err(EvalError::InvalidParameterValue("step size cannot equal zero".to_string()));
    assert_eq!(
        TableFunc::GenerateSeriesInt32.eval(&vec![Datum::Int32(1), Datum::Int32(3), Datum::Int32(0)]),
        refused()
    );
    assert_eq!(
        TableFunc::GenerateSeriesInt64.eval(&vec![Datum::Int64(1), Datum::Int64(3), Datum::Int64(0)]),
        refused()
    );
    let still = Datum::Interval(Interval { months: 0, micros: 0 });
    assert_eq!(
        TableFunc::GenerateSeriesTimestamp
            .eval(&vec![Datum::Timestamp(1), Datum::Timestamp(3), still.clone()]),
        refused()
    );
    assert_eq!(
        TableFunc::GenerateSeriesTimestampTz
            .eval(&vec![Datum::TimestampTz(1), Datum::TimestampTz(3), still]),
        refused()
    );
}

#[test]
fn eval_of_series() {
    let out = TableFunc::GenerateSeriesInt32
        .eval(&vec![Datum::Int32(1), Datum::Int32(5), Datum::Int32(2)])
        .unwrap()
        .unwrap();
    match out {
        TableRows::Series { series, wide } => {
            assert!(!wide);
            assert_eq!(collect(series), vec![1, 3, 5]);
        }
        other => panic!("unexpected {other:?}"),
    }
    let out = TableFunc::GenerateSeriesInt64
        .eval(&vec![Datum::Int64(9), Datum::Int64(7), Datum::Int64(-1)])
        .unwrap()
        .unwrap();
    match out {
        TableRows::Series { series, wide } => {
            assert!(wide);
            assert_eq!(collect(series), vec![9, 8, 7]);
        }
        other => panic!("unexpected {other:?}"),
    }
    assert_eq!(
        TableFunc::GenerateSeriesInt64.eval(&vec![Datum::Int64(9), Datum::Int64(7), Datum::Int64(0)]),
        Err(EvalError::InvalidParameterValue("step size cannot equal zero".to_string()))
    );
    let array = Datum::Array(vec![Datum::True, Datum::False]);
    match TableFunc::GenerateSubscriptsArray.eval(&vec![array, Datum::Int32(1)]).unwrap().unwrap() {
        TableRows::Series { series, wide } => {
            assert!(!wide);
            assert_eq!(collect(series), vec![1, 2]);
        }
        other => panic!("unexpected {other:?}"),
    }
    assert_eq!(
        TableFunc::GenerateSubscriptsArray.eval(&vec![Datum::Array(vec![]), Datum::Int32(2)]),
        Ok(Some(TableRows::Rows(vec![])))
    );
}

#[test]
fn eval_of_functions_that_give_rows() {
    assert_eq!(
        TableFunc::Repeat.eval(&vec![Datum::Int64(-3)]),
        Ok(Some(TableRows::Rows(vec![(vec![], -3)])))
    );
    assert_eq!(TableFunc::Repeat.eval(&vec![Datum::Int64(0)]), Ok(Some(TableRows::Rows(vec![]))));
    assert_eq!(
        TableFunc::CsvExtract(2).eval(&vec![text("a,b\nc\nd,e\n")]),
        Ok(Some(TableRows::Rows(once(vec![
            vec![text("a"), text("b")],
            vec![text("d"), text("e")]
        ]))))
    );
    assert_eq!(
        TableFunc::RegexpExtract(AnalyzedRegex::new("(a+)(b)?").unwrap()).eval(&vec![text("xaab aa")]),
        Ok(Some(TableRows::Rows(once(vec![vec![text("aa"), text("b")]]))))
    );
    assert_eq!(
        TableFunc::RegexpExtract(AnalyzedRegex::new("(a+)(b)?").unwrap()).eval(&vec![text("xa")]),
        Ok(Some(TableRows::Rows(once(vec![vec![text("a"), Datum::Null]]))))
    );
    assert_eq!(
        TableFunc::RegexpExtract(AnalyzedRegex::new("(a+)(b)?").unwrap()).eval(&vec![text("x")]),
        Ok(Some(TableRows::Rows(vec![])))
    );
    assert_eq!(
        TableFunc::UnnestList { el_typ: ScalarType::Int16 }
            .eval(&vec![Datum::List(vec![Datum::Int16(4)])]),
        Ok(Some(TableRows::Rows(once(vec![vec![Datum::Int16(4)]]))))
    );
    assert_eq!(
        TableFunc::UnnestArray { el_typ: ScalarType::Int16 }
            .eval(&vec![Datum::Array(vec![Datum::Int16(4), Datum::Int16(5)])]),
        Ok(Some(TableRows::Rows(once(vec![vec![Datum::Int16(4)], vec![Datum::Int16(5)]]))))
    );
    assert_eq!(
        TableFunc::JsonbArrayElements { stringify: false }.eval(&vec![Datum::List(vec![text("j")])]),
        Ok(Some(TableRows::Rows(once(vec![vec![text("j")]]))))
    );
    assert_eq!(
        TableFunc::Wrap { types: vec![], width: 1 }.eval(&vec![text("w")]),
        Ok(Some(TableRows::Rows(once(vec![vec![text("w")]]))))
    );
}

#[test]
fn json_objects_are_taken_apart() {
    let object = || {
        Datum::Dict(vec![
            ("a".to_string(), Datum::Int32(1)),
            ("b".to_string(), Datum::List(vec![Datum::Null])),
        ])
    };
    assert_eq!(
        jsonb_each(&object()),
        once(vec![
            vec![text("a"), Datum::Int32(1)],
            vec![text("b"), Datum::List(vec![Datum::Null])]
        ])
    );
    assert_eq!(jsonb_object_keys(&object()), once(vec![vec![text("a")], vec![text("b")]]));
    assert_eq!(jsonb_each(&Datum::List(vec![])), vec![]);
    assert_eq!(jsonb_object_keys(&text("no object")), vec![]);
    assert_eq!(
        TableFunc::JsonbEach { stringify: false }.eval(&vec![object()]),
        Ok(Some(TableRows::Rows(jsonb_each(&object()))))
    );
    assert_eq!(
        TableFunc::JsonbObjectKeys.eval(&vec![object()]),
        Ok(Some(TableRows::Rows(jsonb_object_keys(&object()))))
    );
    assert_eq!(TableFunc::JsonbEach { stringify: true }.eval(&vec![object()]), Ok(None));
}

fn micros(year: i32, month: u32, day: u32, hour: u32) -> i64 {
    chrono::NaiveDate::from_ymd_opt(year, month, day)
        .unwrap()
        .and_hms_opt(hour, 0, 0)
        .unwrap()
        .and_utc()
        .timestamp_micros()
}

fn collect_timestamps(mut series: TimestampRangeStepInclusive) -> Vec<i64> {
    let mut timestamps = vec![];
    while let Some(timestamp) = series.next() {
        timestamps.push(timestamp);
        assert!(timestamps.len() < 1000);
    }
    assert_eq!(series.next(), None);
    timestamps
}

#[test]
fn months_are_added_by_the_calendar() {
    assert_eq!(add_timestamp_months(micros(2014, 1, 1, 1), 1), Some(micros(2014, 2, 1, 1)));
    assert_eq!(add_timestamp_months(micros(2014, 1, 31, 0), 1), Some(micros(2014, 2, 28, 0)));
    assert_eq!(add_timestamp_months(micros(2016, 1, 31, 0), 1), Some(micros(2016, 2, 29, 0)));
    assert_eq!(add_timestamp_months(micros(2014, 3, 31, 0), -1), Some(micros(2014, 2, 28, 0)));
    assert_eq!(add_timestamp_months(micros(2014, 1, 15, 7), -13), Some(micros(2012, 12, 15, 7)));
    assert_eq!(add_timestamp_months(micros(2014, 1, 15, 7), 0), Some(micros(2014, 1, 15, 7)));
    assert_eq!(add_timestamp_months(micros(2014, 1, 15, 7), i32::MAX), None);
    assert_eq!(add_timestamp_months(micros(2014, 1, 15, 7), i32::MIN), None);
    assert_eq!(add_timestamp_months(i64::MAX, 1), None);
}

#[test]
fn series_of_timestamps() {
    let day = 86_400_000_000i64;
    let by_month = Interval { months: 1, micros: 0 };
    assert_eq!(
        collect_timestamps(generate_series_ts(micros(2020, 1, 31, 0), micros(2020, 5, 1, 0), by_month).unwrap()),
        vec![micros(2020, 1, 31, 0), micros(2020, 2, 29, 0), micros(2020, 3, 29, 0), micros(2020, 4, 29, 0)]
    );
    let back = Interval { months: 0, micros: -2 * day };
    assert_eq!(
        collect_timestamps(generate_series_ts(micros(2020, 3, 2, 0), micros(2020, 2, 27, 0), back).unwrap()),
        vec![micros(2020, 3, 2, 0), micros(2020, 2, 29, 0), micros(2020, 2, 27, 0)]
    );
    let mixed = Interval { months: 1, micros: day };
    assert_eq!(
        collect_timestamps(generate_series_ts(micros(2021, 1, 30, 12), micros(2021, 4, 30, 0), mixed).unwrap()),
        vec![micros(2021, 1, 30, 12), micros(2021, 3, 1, 12), micros(2021, 4, 2, 12)]
    );
    assert_eq!(
        collect_timestamps(generate_series_ts(micros(2020, 1, 2, 0), micros(2020, 1, 1, 0), by_month).unwrap()),
        Vec::<i64>::new()
    );
    assert_eq!(
        generate_series_ts(0, 10, Interval { months: 0, micros: 0 }),
        Err(EvalError::InvalidParameterValue("step size cannot equal zero".to_string()))
    );
    assert_eq!(
        generate_series_ts(0, 10, Interval { months: 1, micros: -30 * day }),
        Err(EvalError::InvalidParameterValue("step size cannot equal zero".to_string()))
    );
    assert_eq!(Interval { months: 2, micros: -5 }.as_microseconds(), 60 * day as i128 - 5);
}

#[test]
fn series_of_timestamps_end_where_dates_end() {
    let far = chrono::NaiveDateTime::MAX.and_utc().timestamp_micros();
    let series = generate_series_ts(far - 10, i64::MAX, Interval { months: 0, micros: 7 }).unwrap();
    assert_eq!(collect_timestamps(series), vec![far - 10, far - 3]);
    let series = generate_series_ts(far, i64::MAX, Interval { months: 12, micros: 0 }).unwrap();
    assert_eq!(collect_timestamps(series), vec![far]);
}

#[test]
fn eval_of_series_of_timestamps() {
    let step = Interval { months: 0, micros: 1_000_000 };
    let out = TableFunc::GenerateSeriesTimestamp
        .eval(&vec![Datum::Timestamp(0), Datum::Timestamp(2_000_000), Datum::Interval(step)])
        .unwrap()
        .unwrap();
    match out {
        TableRows::TimestampSeries { series, with_zone } => {
            assert!(!with_zone);
            assert_eq!(collect_timestamps(series), vec![0, 1_000_000, 2_000_000]);
        }
        other => panic!("unexpected {other:?}"),
    }
    let out = TableFunc::GenerateSeriesTimestampTz
        .eval(&vec![Datum::TimestampTz(5), Datum::TimestampTz(4), Datum::Interval(Interval { months: -1, micros: 0 })])
        .unwrap()
        .unwrap();
    match out {
        TableRows::TimestampSeries { series, with_zone } => {
            assert!(with_zone);
            assert!(series.rev);
            assert_eq!(collect_timestamps(series).len(), 1);
        }
        other => panic!("unexpected {other:?}"),
    }
    assert_eq!(
        TableFunc::GenerateSeriesTimestamp.eval(&vec![
            Datum::Timestamp(0),
            Datum::Timestamp(1),
            Datum::Interval(Interval { months: 0, micros: 0 })
        ]),
        Err(EvalError::InvalidParameterValue("step size cannot equal zero".to_string()))
    );
}

#[test]
fn the_timestamps_that_can_be_told_are_those_of_chrono() {
    assert_eq!(chrono::NaiveDateTime::MIN.and_utc().timestamp_micros(), FIRST_TIMESTAMP);
    assert_eq!(chrono::NaiveDateTime::MAX.and_utc().timestamp_micros(), LAST_TIMESTAMP);
    assert!(chrono::DateTime::from_timestamp_micros(FIRST_TIMESTAMP).is_some());
    assert!(chrono::DateTime::from_timestamp_micros(FIRST_TIMESTAMP - 1).is_none());
    assert!(chrono::DateTime::from_timestamp_micros(LAST_TIMESTAMP).is_some());
    assert!(chrono::DateTime::from_timestamp_micros(LAST_TIMESTAMP + 1).is_none());
}

fn by_micros(micros: i64) -> Interval {
    Interval { months: 0, micros }
}

#[test]
fn a_timestamp_series_ends_where_timestamps_can_no_longer_be_told() {
    let mut up = generate_series_ts(LAST_TIMESTAMP - 3, i64::MAX, by_micros(2)).unwrap();
    assert_eq!(up.next(), Some(LAST_TIMESTAMP - 3));
    assert_eq!(up.next(), Some(LAST_TIMESTAMP - 1));
    assert_eq!(up.next(), None);
    let mut last = generate_series_ts(LAST_TIMESTAMP - 1, i64::MAX, by_micros(1)).unwrap();
    assert_eq!(last.next(), Some(LAST_TIMESTAMP - 1));
    assert_eq!(last.next(), Some(LAST_TIMESTAMP));
    assert_eq!(last.next(), None);
    let mut down = generate_series_ts(FIRST_TIMESTAMP + 1, i64::MIN, by_micros(-1)).unwrap();
    assert_eq!(down.next(), Some(FIRST_TIMESTAMP + 1));
    assert_eq!(down.next(), Some(FIRST_TIMESTAMP));
    assert_eq!(down.next(), None);
    let mut beyond = generate_series_ts(LAST_TIMESTAMP + 1, i64::MAX, by_micros(-5)).unwrap();
    assert_eq!(beyond.next(), None);
    let mut outside = generate_series_ts(LAST_TIMESTAMP + 1, i64::MIN, by_micros(-5)).unwrap();
    assert_eq!(outside.next(), Some(LAST_TIMESTAMP + 1));
    assert_eq!(outside.next(), None);
    let mut far = generate_series_ts(i64::MIN, i64::MAX, by_micros(i64::MAX)).unwrap();
    assert_eq!(far.next(), Some(i64::MIN));
    assert_eq!(far.next(), None);
}

#[test]
fn a_timestamp_series_counts_in_microseconds() {
    let mut series = generate_series_ts(-5_000_000, 5_000_001, by_micros(2_500_000)).unwrap();
    let mut found = vec![];
    while let Some(timestamp) = series.next() {
        found.push(timestamp);
    }
    assert_eq!(found, vec![-5_000_000, -2_500_000, 0, 2_500_000, 5_000_000]);
    let day = 86_400_000_000;
    let mut back = generate_series_ts(day + 1, -day, by_micros(-day)).unwrap();
    assert_eq!(back.next(), Some(day + 1));
    assert_eq!(back.next(), Some(1));
    assert_eq!(back.next(), Some(1 - day));
    assert_eq!(back.next(), None);
}
