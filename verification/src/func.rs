//! Aggregate functions: what is known of them without evaluating them.

use vstd::prelude::*;
use vstd::string::*;
use vstd::utf8::encode_utf8;
use crate::ordered_func::{
    are_keyed, are_lag_rows, array_concat, concatenated, dense_rank, dict_of, hold_arrays,
    hold_lists, jsonb_agg, jsonb_object_agg, lag, lag_pairs, list_concat, numbered,
    ordered_records, ranked, row_number, without_nulls,
};
use crate::repr::{datum_views, ColumnType, Datum, DatumView, ScalarType};

verus! {

/// The column by which rows are ordered, and the direction.
#[derive(Clone, Copy, Debug, PartialEq, Eq, Hash, Structural)]
pub struct ColumnOrder {
    /// The column to order by.
    pub column: usize,
    /// Whether the order is descending.
    pub desc: bool,
}

/// An aggregate function.
#[derive(Clone, Debug, PartialEq, Eq, Hash)]
pub enum AggregateFunc {
    MaxNumeric,
    MaxInt16,
    MaxInt32,
    MaxInt64,
    MaxFloat32,
    MaxFloat64,
    MaxBool,
    MaxString,
    MaxDate,
    MaxTimestamp,
    MaxTimestampTz,
    MinNumeric,
    MinInt16,
    MinInt32,
    MinInt64,
    MinFloat32,
    MinFloat64,
    MinBool,
    MinString,
    MinDate,
    MinTimestamp,
    MinTimestampTz,
    SumInt16,
    SumInt32,
    SumInt64,
    SumFloat32,
    SumFloat64,
    SumNumeric,
    Count,
    Any,
    All,
    /// Collects JSON values into a JSON list, leaving nulls out.
    JsonbAgg { order_by: Vec<ColumnOrder> },
    /// Zips keys and JSON values into a JSON map, leaving nulls out.
    JsonbObjectAgg { order_by: Vec<ColumnOrder> },
    /// Concatenates arrays into one array.
    ArrayConcat { order_by: Vec<ColumnOrder> },
    /// Concatenates lists into one list.
    ListConcat { order_by: Vec<ColumnOrder> },
    StringAgg { order_by: Vec<ColumnOrder> },
    RowNumber { order_by: Vec<ColumnOrder> },
    DenseRank { order_by: Vec<ColumnOrder> },
    Lag { order_by: Vec<ColumnOrder> },
    /// Collapses any number of placeholders into one placeholder.
    Dummy,
}

impl AggregateFunc {
    /// Whether the function is a maximum, a minimum or a sum.
    pub open spec fn is_max_min_or_sum(&self) -> bool {
        ||| self is MaxNumeric
        ||| self is MaxInt16
        ||| self is MaxInt32
        ||| self is MaxInt64
        ||| self is MaxFloat32
        ||| self is MaxFloat64
        ||| self is MaxBool
        ||| self is MaxString
        ||| self is MaxDate
        ||| self is MaxTimestamp
        ||| self is MaxTimestampTz
        ||| self is MinNumeric
        ||| self is MinInt16
        ||| self is MinInt32
        ||| self is MinInt64
        ||| self is MinFloat32
        ||| self is MinFloat64
        ||| self is MinBool
        ||| self is MinString
        ||| self is MinDate
        ||| self is MinTimestamp
        ||| self is MinTimestampTz
        ||| self is SumInt16
        ||| self is SumInt32
        ||| self is SumInt64
        ||| self is SumFloat32
        ||| self is SumFloat64
        ||| self is SumNumeric
    }

    /// Whether the result of the function is null whenever all of its
    /// inputs are null: so it is for every maximum, minimum and sum and for
    /// `string_agg`, and for no other function.
    pub open spec fn spec_propagates_nonnull_constraint(&self) -> bool {
        self.is_max_min_or_sum() || self is StringAgg
    }

    /// Whether a constraint that the result of the aggregation is not null
    /// can be turned into a constraint that its input is not null, that is,
    /// whether the result is null whenever all inputs are null.
    pub fn propagates_nonnull_constraint(&self) -> (b: bool)
        ensures
            b == self.spec_propagates_nonnull_constraint(),
    {
        match self {
            AggregateFunc::MaxNumeric
            | AggregateFunc::MaxInt16
            | AggregateFunc::MaxInt32
            | AggregateFunc::MaxInt64
            | AggregateFunc::MaxFloat32
            | AggregateFunc::MaxFloat64
            | AggregateFunc::MaxBool
            | AggregateFunc::MaxString
            | AggregateFunc::MaxDate
            | AggregateFunc::MaxTimestamp
            | AggregateFunc::MaxTimestampTz
            | AggregateFunc::MinNumeric
            | AggregateFunc::MinInt16
            | AggregateFunc::MinInt32
            | AggregateFunc::MinInt64
            | AggregateFunc::MinFloat32
            | AggregateFunc::MinFloat64
            | AggregateFunc::MinBool
            | AggregateFunc::MinString
            | AggregateFunc::MinDate
            | AggregateFunc::MinTimestamp
            | AggregateFunc::MinTimestampTz
            | AggregateFunc::SumInt16
            | AggregateFunc::SumInt32
            | AggregateFunc::SumInt64
            | AggregateFunc::SumFloat32
            | AggregateFunc::SumFloat64
            | AggregateFunc::SumNumeric
            | AggregateFunc::StringAgg { .. } => true,
            // A count is never null.
            AggregateFunc::Count => false,
            _ => false,
        }
    }

    /// The name under which the function is shown.
    pub open spec fn spec_name(&self) -> Seq<char> {
        match self {
            AggregateFunc::MaxNumeric
            | AggregateFunc::MaxInt16
            | AggregateFunc::MaxInt32
            | AggregateFunc::MaxInt64
            | AggregateFunc::MaxFloat32
            | AggregateFunc::MaxFloat64
            | AggregateFunc::MaxBool
            | AggregateFunc::MaxString
            | AggregateFunc::MaxDate
            | AggregateFunc::MaxTimestamp
            | AggregateFunc::MaxTimestampTz => "max"@,
            AggregateFunc::MinNumeric
            | AggregateFunc::MinInt16
            | AggregateFunc::MinInt32
            | AggregateFunc::MinInt64
            | AggregateFunc::MinFloat32
            | AggregateFunc::MinFloat64
            | AggregateFunc::MinBool
            | AggregateFunc::MinString
            | AggregateFunc::MinDate
            | AggregateFunc::MinTimestamp
            | AggregateFunc::MinTimestampTz => "min"@,
            AggregateFunc::SumInt16
            | AggregateFunc::SumInt32
            | AggregateFunc::SumInt64
            | AggregateFunc::SumFloat32
            | AggregateFunc::SumFloat64
            | AggregateFunc::SumNumeric => "sum"@,
            AggregateFunc::Count => "count"@,
            AggregateFunc::Any => "any"@,
            AggregateFunc::All => "all"@,
            AggregateFunc::JsonbAgg { .. } => "jsonb_agg"@,
            AggregateFunc::JsonbObjectAgg { .. } => "jsonb_object_agg"@,
            AggregateFunc::ArrayConcat { .. } => "array_agg"@,
            AggregateFunc::ListConcat { .. } => "list_agg"@,
            AggregateFunc::StringAgg { .. } => "string_agg"@,
            AggregateFunc::RowNumber { .. } => "row_number"@,
            AggregateFunc::DenseRank { .. } => "dense_rank"@,
            AggregateFunc::Lag { .. } => "lag"@,
            AggregateFunc::Dummy => "dummy"@,
        }
    }

    /// The name under which the function is shown.
    pub fn name(&self) -> (name: &'static str)
        ensures
            name@ == self.spec_name(),
    {
        match self {
            AggregateFunc::MaxNumeric
            | AggregateFunc::MaxInt16
            | AggregateFunc::MaxInt32
            | AggregateFunc::MaxInt64
            | AggregateFunc::MaxFloat32
            | AggregateFunc::MaxFloat64
            | AggregateFunc::MaxBool
            | AggregateFunc::MaxString
            | AggregateFunc::MaxDate
            | AggregateFunc::MaxTimestamp
            | AggregateFunc::MaxTimestampTz => "max",
            AggregateFunc::MinNumeric
            | AggregateFunc::MinInt16
            | AggregateFunc::MinInt32
            | AggregateFunc::MinInt64
            | AggregateFunc::MinFloat32
            | AggregateFunc::MinFloat64
            | AggregateFunc::MinBool
            | AggregateFunc::MinString
            | AggregateFunc::MinDate
            | AggregateFunc::MinTimestamp
            | AggregateFunc::MinTimestampTz => "min",
            AggregateFunc::SumInt16
            | AggregateFunc::SumInt32
            | AggregateFunc::SumInt64
            | AggregateFunc::SumFloat32
            | AggregateFunc::SumFloat64
            | AggregateFunc::SumNumeric => "sum",
            AggregateFunc::Count => "count",
            AggregateFunc::Any => "any",
            AggregateFunc::All => "all",
            AggregateFunc::JsonbAgg { .. } => "jsonb_agg",
            AggregateFunc::JsonbObjectAgg { .. } => "jsonb_object_agg",
            AggregateFunc::ArrayConcat { .. } => "array_agg",
            AggregateFunc::ListConcat { .. } => "list_agg",
            AggregateFunc::StringAgg { .. } => "string_agg",
            AggregateFunc::RowNumber { .. } => "row_number",
            AggregateFunc::DenseRank { .. } => "dense_rank",
            AggregateFunc::Lag { .. } => "lag",
            AggregateFunc::Dummy => "dummy",
        }
    }
}

/// The scalar type of the first field of a record type, if `scalar_type`
/// is a record type with at least one field.
pub open spec fn first_field_type(scalar_type: ScalarType) -> Option<ScalarType> {
    match scalar_type {
        ScalarType::Record { fields, .. } => if fields@.len() > 0 {
            Some(fields@[0].1.scalar_type)
        } else {
            None
        },
        _ => None,
    }
}

/// The type of the second field of a record type, if `scalar_type` is a
/// record type with at least two fields.
pub open spec fn second_field_type(scalar_type: ScalarType) -> Option<ScalarType> {
    match scalar_type {
        ScalarType::Record { fields, .. } => if fields@.len() > 1 {
            Some(fields@[1].1.scalar_type)
        } else {
            None
        },
        _ => None,
    }
}

/// Whether the first field of a record type may be null, if `scalar_type`
/// is a record type with at least one field.
pub open spec fn first_field_nullable(scalar_type: ScalarType) -> Option<bool> {
    match scalar_type {
        ScalarType::Record { fields, .. } => if fields@.len() > 0 {
            Some(fields@[0].1.nullable)
        } else {
            None
        },
        _ => None,
    }
}

/// The type of the elements of a list type, if `scalar_type` is one.
pub open spec fn element_type(scalar_type: ScalarType) -> Option<ScalarType> {
    match scalar_type {
        ScalarType::List { element_type, .. } => Some(*element_type),
        _ => None,
    }
}

/// Whether `output` is the type of a list of unnamed records of two
/// fields: one named `name` of type `first`, and one named `?record?` of
/// type `second`.
pub open spec fn is_list_of_pairs(
    output: ScalarType,
    name: Seq<char>,
    first: ColumnType,
    second: ColumnType,
) -> bool {
    &&& output matches ScalarType::List { element_type, custom_id }
    &&& custom_id is None
    &&& *element_type matches ScalarType::Record { fields, custom_id: record_id, custom_name }
    &&& record_id is None
    &&& custom_name is None
    &&& fields@.len() == 2
    &&& fields@[0].0@ == name
    &&& fields@[0].1 == first
    &&& fields@[1].0@ == "?record?"@
    &&& fields@[1].1 == second
}

impl AggregateFunc {
    /// The type of the rows that a window function numbers: the type of
    /// the elements of the list that is the first field of the record
    /// `input`, if `input` has that shape.
    pub open spec fn numbered_row_type(input: ScalarType) -> Option<ScalarType> {
        match first_field_type(input) {
            Some(list) => element_type(list),
            None => None,
        }
    }

    /// The type of the row that `lag` hands on: the first field of the
    /// record that is the first field of the record `input`, if `input`
    /// has that shape.
    pub open spec fn lag_row_type(input: ScalarType) -> Option<ScalarType> {
        match first_field_type(input) {
            Some(args) => first_field_type(args),
            None => None,
        }
    }

    /// The type of the value that `lag` looks back for: the first field of
    /// the record that is the second field of the record that is the first
    /// field of the record `input`, if `input` has that shape.
    pub open spec fn lag_value_type(input: ScalarType) -> Option<ScalarType> {
        match first_field_type(input) {
            Some(args) => match second_field_type(args) {
                Some(encoded) => first_field_type(encoded),
                None => None,
            },
            None => None,
        }
    }

    /// Whether `output` is the type of the result of the aggregation over a
    /// column of type `input`, or nothing if `input` is not of the shape
    /// that the aggregation takes.
    ///
    /// A count is a number that is never null. `any` and `all` are
    /// booleans, the JSON aggregations are JSON, the sums of small integers
    /// are large integers and the sum of large integers is a decimal number
    /// without digits after the point. An aggregation over ordered input
    /// takes a record whose first field holds the input proper: the
    /// concatenations give the type of that field; `string_agg` gives a
    /// text that may be null if the first field of that field may be;
    /// `row_number`, `dense_rank` and `lag` give a list of records that pair
    /// what they compute with the row. Every other aggregation gives the
    /// type of its input. But for counts and `string_agg`, the result may be
    /// null if the input may be.
    pub open spec fn is_output_type(&self, input: ColumnType, output: Option<ColumnType>) -> bool {
        match self {
            AggregateFunc::Count => output == Some(
                ColumnType { scalar_type: ScalarType::Int64, nullable: false },
            ),
            AggregateFunc::Any | AggregateFunc::All => output == Some(
                ColumnType { scalar_type: ScalarType::Bool, nullable: input.nullable },
            ),
            AggregateFunc::JsonbAgg { .. } | AggregateFunc::JsonbObjectAgg { .. } => output == Some(
                ColumnType { scalar_type: ScalarType::Jsonb, nullable: input.nullable },
            ),
            AggregateFunc::SumInt16 | AggregateFunc::SumInt32 => output == Some(
                ColumnType { scalar_type: ScalarType::Int64, nullable: input.nullable },
            ),
            AggregateFunc::SumInt64 => output == Some(
                ColumnType {
                    scalar_type: ScalarType::Numeric { max_scale: Some(0u8) },
                    nullable: input.nullable,
                },
            ),
            AggregateFunc::ArrayConcat { .. } | AggregateFunc::ListConcat { .. } => output
                == match first_field_type(input.scalar_type) {
                Some(scalar_type) => Some(ColumnType { scalar_type, nullable: input.nullable }),
                None => None,
            },
            AggregateFunc::StringAgg { .. } => output == match first_field_type(input.scalar_type) {
                Some(pair) => match first_field_nullable(pair) {
                    Some(nullable) => Some(ColumnType { scalar_type: ScalarType::String, nullable }),
                    None => None,
                },
                None => None,
            },
            AggregateFunc::RowNumber { .. } => match Self::numbered_row_type(input.scalar_type) {
                Some(row) => output matches Some(column) && column.nullable == input.nullable
                    && is_list_of_pairs(
                    column.scalar_type,
                    "?row_number?"@,
                    ColumnType { scalar_type: ScalarType::Int64, nullable: false },
                    ColumnType { scalar_type: row, nullable: false },
                ),
                None => output is None,
            },
            AggregateFunc::DenseRank { .. } => match Self::numbered_row_type(input.scalar_type) {
                Some(row) => output matches Some(column) && column.nullable == input.nullable
                    && is_list_of_pairs(
                    column.scalar_type,
                    "?dense_rank?"@,
                    ColumnType { scalar_type: ScalarType::Int64, nullable: false },
                    ColumnType { scalar_type: row, nullable: false },
                ),
                None => output is None,
            },
            AggregateFunc::Lag { .. } => match (
                Self::lag_row_type(input.scalar_type),
                Self::lag_value_type(input.scalar_type),
            ) {
                (Some(row), Some(value)) => output matches Some(column) && column.nullable
                    == input.nullable && is_list_of_pairs(
                    column.scalar_type,
                    "?lag?"@,
                    ColumnType { scalar_type: value, nullable: true },
                    ColumnType { scalar_type: row, nullable: false },
                ),
                _ => output is None,
            },
            _ => output == Some(input),
        }
    }

    /// The type of the result of the aggregation over a column of type
    /// `input_type`, or nothing if `input_type` is not of the shape that the
    /// aggregation takes.
    pub fn output_type(&self, input_type: ColumnType) -> (output: Option<ColumnType>)
        ensures
            self.is_output_type(input_type, output),
    {
        let nullable = input_type.nullable;
        match self {
            AggregateFunc::Count => Some(ScalarType::Int64.nullable(false)),
            AggregateFunc::Any => Some(ScalarType::Bool.nullable(nullable)),
            AggregateFunc::All => Some(ScalarType::Bool.nullable(nullable)),
            AggregateFunc::JsonbAgg { .. } => Some(ScalarType::Jsonb.nullable(nullable)),
            AggregateFunc::JsonbObjectAgg { .. } => Some(ScalarType::Jsonb.nullable(nullable)),
            AggregateFunc::SumInt16 => Some(ScalarType::Int64.nullable(nullable)),
            AggregateFunc::SumInt32 => Some(ScalarType::Int64.nullable(nullable)),
            AggregateFunc::SumInt64 => Some(
                ScalarType::Numeric { max_scale: Some(0) }.nullable(nullable),
            ),
            AggregateFunc::ArrayConcat { .. } | AggregateFunc::ListConcat { .. } => {
                match take_first_field(input_type.scalar_type) {
                    Some(first) => Some(first.scalar_type.nullable(nullable)),
                    None => None,
                }
            },
            AggregateFunc::StringAgg { .. } => {
                match take_first_field(input_type.scalar_type) {
                    Some(first) => match take_first_field(first.scalar_type) {
                        Some(value) => Some(ScalarType::String.nullable(value.nullable)),
                        None => None,
                    },
                    None => None,
                }
            },
            AggregateFunc::RowNumber { .. } => {
                match numbered_row(input_type.scalar_type) {
                    Some(row) => Some(
                        list_of_pairs(
                            "?row_number?",
                            ScalarType::Int64.nullable(false),
                            row.nullable(false),
                        ).nullable(nullable),
                    ),
                    None => None,
                }
            },
            AggregateFunc::DenseRank { .. } => {
                match numbered_row(input_type.scalar_type) {
                    Some(row) => Some(
                        list_of_pairs(
                            "?dense_rank?",
                            ScalarType::Int64.nullable(false),
                            row.nullable(false),
                        ).nullable(nullable),
                    ),
                    None => None,
                }
            },
            AggregateFunc::Lag { .. } => {
                match take_first_two_fields(input_type.scalar_type) {
                    Some(args) => match take_first_two_fields(args.0.scalar_type) {
                        Some((row, Some(encoded))) => match take_first_field(encoded.scalar_type) {
                            Some(value) => Some(
                                list_of_pairs(
                                    "?lag?",
                                    value.scalar_type.nullable(true),
                                    row.scalar_type.nullable(false),
                                ).nullable(nullable),
                            ),
                            None => None,
                        },
                        _ => None,
                    },
                    None => None,
                }
            },
            // A maximum or a minimum of texts has the type of its input, so
            // that texts of a fixed length keep their length.
            _ => Some(input_type),
        }
    }
}

/// The first field of a record type, if `scalar_type` is a record type with
/// at least one field.
fn take_first_field(scalar_type: ScalarType) -> (first: Option<ColumnType>)
    ensures
        match first {
            Some(column) => first_field_type(scalar_type) == Some(column.scalar_type)
                && first_field_nullable(scalar_type) == Some(column.nullable),
            None => first_field_type(scalar_type) is None && first_field_nullable(scalar_type) is None,
        },
{
    match take_first_two_fields(scalar_type) {
        Some(fields) => Some(fields.0),
        None => None,
    }
}

/// The first field of a record type and, if there is one, the second, if
/// `scalar_type` is a record type with at least one field.
fn take_first_two_fields(scalar_type: ScalarType) -> (first: Option<(ColumnType, Option<ColumnType>)>)
    ensures
        match first {
            Some((column, second)) => {
                &&& first_field_type(scalar_type) == Some(column.scalar_type)
                &&& first_field_nullable(scalar_type) == Some(column.nullable)
                &&& match second {
                    Some(next) => second_field_type(scalar_type) == Some(next.scalar_type),
                    None => second_field_type(scalar_type) is None,
                }
            },
            None => first_field_type(scalar_type) is None && first_field_nullable(scalar_type) is None
                && second_field_type(scalar_type) is None,
        },
{
    match scalar_type {
        ScalarType::Record { fields, .. } => {
            let mut fields = fields;
            if fields.len() == 0 {
                None
            } else if fields.len() == 1 {
                let first = fields.remove(0);
                Some((first.1, None))
            } else {
                let second = fields.remove(1);
                let first = fields.remove(0);
                Some((first.1, Some(second.1)))
            }
        },
        _ => None,
    }
}

/// The type of the elements of the list that is the first field of the
/// record type `scalar_type`, if it has that shape.
fn numbered_row(scalar_type: ScalarType) -> (row: Option<ScalarType>)
    ensures
        row == AggregateFunc::numbered_row_type(scalar_type),
{
    match take_first_field(scalar_type) {
        Some(first) => match first.scalar_type {
            ScalarType::List { element_type, .. } => Some(*element_type),
            _ => None,
        },
        None => None,
    }
}

/// The type of a list of unnamed records of two fields: one named `name` of
/// type `first`, and one named `?record?` of type `second`.
fn list_of_pairs(name: &str, first: ColumnType, second: ColumnType) -> (list: ScalarType)
    ensures
        is_list_of_pairs(list, name@, first, second),
{
    let mut fields: Vec<(String, ColumnType)> = Vec::new();
    fields.push((String::from_str(name), first));
    fields.push((String::from_str("?record?"), second));
    ScalarType::List {
        element_type: Box::new(ScalarType::Record { fields, custom_id: None, custom_name: None }),
        custom_id: None,
    }
}

/// The kinds of values that are ordered like numbers.
#[derive(Clone, Copy, Debug, PartialEq, Eq, Structural)]
pub enum Domain {
    Int16,
    Int32,
    Int64,
    Numeric,
    Bool,
    Date,
    Timestamp,
    TimestampTz,
}

/// The number by which `datum` is ordered among the values of `domain`, if
/// it is one of them. Of the booleans, false comes first.
pub open spec fn key_of(domain: Domain, datum: Datum) -> Option<int> {
    match (domain, datum) {
        (Domain::Int16, Datum::Int16(v)) => Some(v as int),
        (Domain::Int32, Datum::Int32(v)) => Some(v as int),
        (Domain::Int64, Datum::Int64(v)) => Some(v as int),
        (Domain::Numeric, Datum::Numeric(v)) => Some(v as int),
        (Domain::Bool, Datum::False) => Some(0int),
        (Domain::Bool, Datum::True) => Some(1int),
        (Domain::Date, Datum::Date(v)) => Some(v as int),
        (Domain::Timestamp, Datum::Timestamp(v)) => Some(v as int),
        (Domain::TimestampTz, Datum::TimestampTz(v)) => Some(v as int),
        _ => None,
    }
}

/// Whether `out` is the greatest of the values of `domain` among `datums`,
/// or null if there is none.
pub open spec fn is_greatest(domain: Domain, datums: Seq<Datum>, out: Datum) -> bool {
    if forall|i: int| 0 <= i < datums.len() ==> key_of(domain, #[trigger] datums[i]) is None {
        out == Datum::Null
    } else {
        &&& key_of(domain, out) is Some
        &&& exists|i: int| 0 <= i < datums.len() && #[trigger] datums[i] == out
        &&& forall|i: int|
            0 <= i < datums.len() && key_of(domain, #[trigger] datums[i]) is Some ==> key_of(
                domain,
                datums[i],
            )->0 <= key_of(domain, out)->0
    }
}

/// Whether `out` is the least of the values of `domain` among `datums`, or
/// null if there is none.
pub open spec fn is_least_of(domain: Domain, datums: Seq<Datum>, out: Datum) -> bool {
    if forall|i: int| 0 <= i < datums.len() ==> key_of(domain, #[trigger] datums[i]) is None {
        out == Datum::Null
    } else {
        &&& key_of(domain, out) is Some
        &&& exists|i: int| 0 <= i < datums.len() && #[trigger] datums[i] == out
        &&& forall|i: int|
            0 <= i < datums.len() && key_of(domain, #[trigger] datums[i]) is Some ==> key_of(
                domain,
                datums[i],
            )->0 >= key_of(domain, out)->0
    }
}

/// The number by which `datum` is ordered among the values of `domain`, if
/// it is one of them.
fn key(domain: Domain, datum: &Datum) -> (k: Option<i128>)
    ensures
        match k {
            Some(k) => key_of(domain, *datum) == Some(k as int),
            None => key_of(domain, *datum) is None,
        },
{
    match (domain, datum) {
        (Domain::Int16, Datum::Int16(v)) => Some(*v as i128),
        (Domain::Int32, Datum::Int32(v)) => Some(*v as i128),
        (Domain::Int64, Datum::Int64(v)) => Some(*v as i128),
        (Domain::Numeric, Datum::Numeric(v)) => Some(*v),
        (Domain::Bool, Datum::False) => Some(0),
        (Domain::Bool, Datum::True) => Some(1),
        (Domain::Date, Datum::Date(v)) => Some(*v as i128),
        (Domain::Timestamp, Datum::Timestamp(v)) => Some(*v as i128),
        (Domain::TimestampTz, Datum::TimestampTz(v)) => Some(*v as i128),
        _ => None,
    }
}

/// A copy of `datum`, which is a value of `domain`.
fn copy_of(domain: Domain, datum: &Datum) -> (copy: Datum)
    requires
        key_of(domain, *datum) is Some,
    ensures
        copy == *datum,
{
    match datum {
        Datum::Int16(v) => Datum::Int16(*v),
        Datum::Int32(v) => Datum::Int32(*v),
        Datum::Int64(v) => Datum::Int64(*v),
        Datum::Numeric(v) => Datum::Numeric(*v),
        Datum::False => Datum::False,
        Datum::True => Datum::True,
        Datum::Date(v) => Datum::Date(*v),
        Datum::Timestamp(v) => Datum::Timestamp(*v),
        Datum::TimestampTz(v) => Datum::TimestampTz(*v),
        _ => Datum::Null,
    }
}

/// The greatest, or else the least, of the values of `domain` among
/// `datums`, or null if there is none.
fn extreme(domain: Domain, datums: &Vec<Datum>, greatest: bool) -> (out: Datum)
    ensures
        greatest ==> is_greatest(domain, datums@, out),
        !greatest ==> is_least_of(domain, datums@, out),
{
    let mut best: Option<(usize, i128)> = None;
    let mut i: usize = 0;
    while i < datums.len()
        invariant
            i <= datums.len(),
            match best {
                None => forall|j: int| 0 <= j < i ==> key_of(domain, #[trigger] datums@[j]) is None,
                Some((at, k)) => {
                    &&& at < i
                    &&& key_of(domain, datums@[at as int]) == Some(k as int)
                    &&& forall|j: int|
                        0 <= j < i && key_of(domain, #[trigger] datums@[j]) is Some ==> if greatest {
                            key_of(domain, datums@[j])->0 <= k
                        } else {
                            key_of(domain, datums@[j])->0 >= k
                        }
                },
            },
        decreases datums.len() - i,
    {
        match key(domain, &datums[i]) {
            Some(k) => {
                let better = match best {
                    None => true,
                    Some((_, b)) => if greatest {
                        k >= b
                    } else {
                        k < b
                    },
                };
                if better {
                    best = Some((i, k));
                }
            },
            None => {},
        }
        i = i + 1;
    }
    match best {
        None => Datum::Null,
        Some((at, _)) => {
            let out = copy_of(domain, &datums[at]);
            assert(datums@[at as int] == out);
            out
        },
    }
}

/// The greatest of the 16-bit integers among `datums`, or null if there is
/// none.
pub fn max_int16(datums: &Vec<Datum>) -> (out: Datum)
    ensures
        is_greatest(Domain::Int16, datums@, out),
{
    extreme(Domain::Int16, datums, true)
}

/// The greatest of the 32-bit integers among `datums`, or null if there is
/// none.
pub fn max_int32(datums: &Vec<Datum>) -> (out: Datum)
    ensures
        is_greatest(Domain::Int32, datums@, out),
{
    extreme(Domain::Int32, datums, true)
}

/// The greatest of the 64-bit integers among `datums`, or null if there is
/// none.
pub fn max_int64(datums: &Vec<Datum>) -> (out: Datum)
    ensures
        is_greatest(Domain::Int64, datums@, out),
{
    extreme(Domain::Int64, datums, true)
}

/// The greatest of the decimal numbers among `datums`, or null if there is
/// none.
pub fn max_numeric(datums: &Vec<Datum>) -> (out: Datum)
    ensures
        is_greatest(Domain::Numeric, datums@, out),
{
    extreme(Domain::Numeric, datums, true)
}

/// True if one of `datums` is true, else false if one is false, else null.
pub fn max_bool(datums: &Vec<Datum>) -> (out: Datum)
    ensures
        is_greatest(Domain::Bool, datums@, out),
{
    extreme(Domain::Bool, datums, true)
}

/// The latest of the dates among `datums`, or null if there is none.
pub fn max_date(datums: &Vec<Datum>) -> (out: Datum)
    ensures
        is_greatest(Domain::Date, datums@, out),
{
    extreme(Domain::Date, datums, true)
}

/// The latest of the timestamps among `datums`, or null if there is none.
pub fn max_timestamp(datums: &Vec<Datum>) -> (out: Datum)
    ensures
        is_greatest(Domain::Timestamp, datums@, out),
{
    extreme(Domain::Timestamp, datums, true)
}

/// The latest of the moments among `datums`, or null if there is none.
pub fn max_timestamptz(datums: &Vec<Datum>) -> (out: Datum)
    ensures
        is_greatest(Domain::TimestampTz, datums@, out),
{
    extreme(Domain::TimestampTz, datums, true)
}

/// The least of the 16-bit integers among `datums`, or null if there is
/// none.
pub fn min_int16(datums: &Vec<Datum>) -> (out: Datum)
    ensures
        is_least_of(Domain::Int16, datums@, out),
{
    extreme(Domain::Int16, datums, false)
}

/// The least of the 32-bit integers among `datums`, or null if there is
/// none.
pub fn min_int32(datums: &Vec<Datum>) -> (out: Datum)
    ensures
        is_least_of(Domain::Int32, datums@, out),
{
    extreme(Domain::Int32, datums, false)
}

/// The least of the 64-bit integers among `datums`, or null if there is
/// none.
pub fn min_int64(datums: &Vec<Datum>) -> (out: Datum)
    ensures
        is_least_of(Domain::Int64, datums@, out),
{
    extreme(Domain::Int64, datums, false)
}

/// The least of the decimal numbers among `datums`, or null if there is
/// none.
pub fn min_numeric(datums: &Vec<Datum>) -> (out: Datum)
    ensures
        is_least_of(Domain::Numeric, datums@, out),
{
    extreme(Domain::Numeric, datums, false)
}

/// False if one of `datums` is false, else true if one is true, else null.
pub fn min_bool(datums: &Vec<Datum>) -> (out: Datum)
    ensures
        is_least_of(Domain::Bool, datums@, out),
{
    extreme(Domain::Bool, datums, false)
}

/// The earliest of the dates among `datums`, or null if there is none.
pub fn min_date(datums: &Vec<Datum>) -> (out: Datum)
    ensures
        is_least_of(Domain::Date, datums@, out),
{
    extreme(Domain::Date, datums, false)
}

/// The earliest of the timestamps among `datums`, or null if there is none.
pub fn min_timestamp(datums: &Vec<Datum>) -> (out: Datum)
    ensures
        is_least_of(Domain::Timestamp, datums@, out),
{
    extreme(Domain::Timestamp, datums, false)
}

/// The earliest of the moments among `datums`, or null if there is none.
pub fn min_timestamptz(datums: &Vec<Datum>) -> (out: Datum)
    ensures
        is_least_of(Domain::TimestampTz, datums@, out),
{
    extreme(Domain::TimestampTz, datums, false)
}

/// The number of values among `datums` that are not null.
pub open spec fn non_null_count(datums: Seq<Datum>) -> nat
    decreases datums.len(),
{
    if datums.len() == 0 {
        0
    } else {
        non_null_count(datums.drop_last()) + if datums.last() is Null {
            0nat
        } else {
            1nat
        }
    }
}

/// The sum of the values of `domain` among `datums`.
pub open spec fn sum_of(domain: Domain, datums: Seq<Datum>) -> int
    decreases datums.len(),
{
    if datums.len() == 0 {
        0
    } else {
        sum_of(domain, datums.drop_last()) + match key_of(domain, datums.last()) {
            Some(v) => v,
            None => 0,
        }
    }
}

/// The number of values among `datums` that are not null, as a 64-bit
/// integer.
pub fn count(datums: &Vec<Datum>) -> (out: Datum)
    ensures
        out == Datum::Int64(non_null_count(datums@) as i64),
{
    let mut n: usize = 0;
    let mut i: usize = 0;
    assert(datums@.subrange(0, 0) =~= Seq::<Datum>::empty());
    while i < datums.len()
        invariant
            i <= datums.len(),
            n <= i,
            n == non_null_count(datums@.subrange(0, i as int)),
        decreases datums.len() - i,
    {
        proof {
            let upto = datums@.subrange(0, i + 1);
            assert(upto.drop_last() =~= datums@.subrange(0, i as int));
            assert(upto.last() == datums@[i as int]);
        }
        if !datums[i].is_null() {
            n = n + 1;
        }
        i = i + 1;
    }
    assert(datums@.subrange(0, i as int) =~= datums@);
    Datum::Int64(#[verifier::truncate] (n as i64))
}

/// Whether `out` is what `any` gives for `datums`: true if one of them is
/// true, else null if one of them is null, else false.
pub open spec fn is_any(datums: Seq<Datum>, out: Datum) -> bool {
    if exists|i: int| 0 <= i < datums.len() && (#[trigger] datums[i]) is True {
        out == Datum::True
    } else if exists|i: int| 0 <= i < datums.len() && (#[trigger] datums[i]) is Null {
        out == Datum::Null
    } else {
        out == Datum::False
    }
}

/// Whether `out` is what `all` gives for `datums`: false if one of them is
/// false, else null if one of them is null, else true.
pub open spec fn is_all(datums: Seq<Datum>, out: Datum) -> bool {
    if exists|i: int| 0 <= i < datums.len() && (#[trigger] datums[i]) is False {
        out == Datum::False
    } else if exists|i: int| 0 <= i < datums.len() && (#[trigger] datums[i]) is Null {
        out == Datum::Null
    } else {
        out == Datum::True
    }
}

/// True if one of `datums` is true, else null if one of them is null, else
/// false.
pub fn any(datums: &Vec<Datum>) -> (out: Datum)
    ensures
        is_any(datums@, out),
{
    let mut seen_true = false;
    let mut seen_null = false;
    let mut i: usize = 0;
    while i < datums.len()
        invariant
            i <= datums.len(),
            seen_true <==> exists|j: int| 0 <= j < i && (#[trigger] datums@[j]) is True,
            seen_null <==> exists|j: int| 0 <= j < i && (#[trigger] datums@[j]) is Null,
        decreases datums.len() - i,
    {
        match &datums[i] {
            Datum::True => {
                seen_true = true;
            },
            Datum::Null => {
                seen_null = true;
            },
            _ => {},
        }
        i = i + 1;
    }
    if seen_true {
        Datum::True
    } else if seen_null {
        Datum::Null
    } else {
        Datum::False
    }
}

/// False if one of `datums` is false, else null if one of them is null,
/// else true.
pub fn all(datums: &Vec<Datum>) -> (out: Datum)
    ensures
        is_all(datums@, out),
{
    let mut seen_false = false;
    let mut seen_null = false;
    let mut i: usize = 0;
    while i < datums.len()
        invariant
            i <= datums.len(),
            seen_false <==> exists|j: int| 0 <= j < i && (#[trigger] datums@[j]) is False,
            seen_null <==> exists|j: int| 0 <= j < i && (#[trigger] datums@[j]) is Null,
        decreases datums.len() - i,
    {
        match &datums[i] {
            Datum::False => {
                seen_false = true;
            },
            Datum::Null => {
                seen_null = true;
            },
            _ => {},
        }
        i = i + 1;
    }
    if seen_false {
        Datum::False
    } else if seen_null {
        Datum::Null
    } else {
        Datum::True
    }
}

impl AggregateFunc {
    /// What the aggregation gives for no input at all: a count is zero,
    /// `any` is false, `all` is true, a placeholder stays a placeholder, and
    /// everything else is null.
    pub open spec fn spec_default(&self) -> Datum {
        match self {
            AggregateFunc::Count => Datum::Int64(0),
            AggregateFunc::Any => Datum::False,
            AggregateFunc::All => Datum::True,
            AggregateFunc::Dummy => Datum::Dummy,
            _ => Datum::Null,
        }
    }

    /// What the aggregation gives for no input at all.
    pub fn default(&self) -> (out: Datum)
        ensures
            out == self.spec_default(),
    {
        match self {
            AggregateFunc::Count => Datum::Int64(0),
            AggregateFunc::Any => Datum::False,
            AggregateFunc::All => Datum::True,
            AggregateFunc::Dummy => Datum::Dummy,
            _ => Datum::Null,
        }
    }

    /// A value whose presence among the input does not change what the
    /// aggregation gives: false for `any`, true for `all`, a placeholder for
    /// placeholders, the empty array or list for what concatenates or
    /// numbers, and null for everything else.
    pub fn identity_datum(&self) -> (out: Datum)
        ensures
            match self {
                AggregateFunc::Any => out == Datum::False,
                AggregateFunc::All => out == Datum::True,
                AggregateFunc::Dummy => out == Datum::Dummy,
                AggregateFunc::ArrayConcat { .. } => out matches Datum::Array(elements)
                    && elements@.len() == 0,
                AggregateFunc::ListConcat { .. }
                | AggregateFunc::RowNumber { .. }
                | AggregateFunc::DenseRank { .. }
                | AggregateFunc::Lag { .. } => out matches Datum::List(elements) && elements@.len()
                    == 0,
                _ => out == Datum::Null,
            },
    {
        match self {
            AggregateFunc::Any => Datum::False,
            AggregateFunc::All => Datum::True,
            AggregateFunc::Dummy => Datum::Dummy,
            AggregateFunc::ArrayConcat { .. } => Datum::empty_array(),
            AggregateFunc::ListConcat { .. } => Datum::empty_list(),
            AggregateFunc::RowNumber { .. } => Datum::empty_list(),
            AggregateFunc::DenseRank { .. } => Datum::empty_list(),
            AggregateFunc::Lag { .. } => Datum::empty_list(),
            _ => Datum::Null,
        }
    }
}

/// Whether `out` is what summing the values of `domain` among `datums`
/// gives: null if every one of `datums` is null; else their sum, as a
/// decimal number if the values are 64-bit integers or decimal numbers and
/// as a 64-bit integer otherwise.
pub open spec fn is_sum(domain: Domain, datums: Seq<Datum>, out: Datum) -> bool {
    if non_null_count(datums) == 0 {
        out == Datum::Null
    } else if domain == Domain::Int64 || domain == Domain::Numeric {
        out == Datum::Numeric(sum_of(domain, datums) as i128)
    } else {
        out == Datum::Int64(sum_of(domain, datums) as i64)
    }
}

/// The sum of the values of `domain` among `datums`, and whether one of
/// `datums` is not null.
fn sum(domain: Domain, datums: &Vec<Datum>) -> (total: (i128, bool))
    requires
        domain != Domain::Numeric,
    ensures
        total.0 == sum_of(domain, datums@),
        total.1 == (non_null_count(datums@) > 0),
{
    let mut acc: i128 = 0;
    let mut any: bool = false;
    let mut i: usize = 0;
    assert(datums@.subrange(0, 0) =~= Seq::<Datum>::empty());
    while i < datums.len()
        invariant
            i <= datums.len(),
            acc == sum_of(domain, datums@.subrange(0, i as int)),
            domain != Domain::Numeric,
            any == (non_null_count(datums@.subrange(0, i as int)) > 0),
            -(i as int) * 0x8000_0000_0000_0000 <= acc <= (i as int) * 0x8000_0000_0000_0000,
        decreases datums.len() - i,
    {
        proof {
            let upto = datums@.subrange(0, i + 1);
            assert(upto.drop_last() =~= datums@.subrange(0, i as int));
            assert(upto.last() == datums@[i as int]);
        }
        if !datums[i].is_null() {
            any = true;
        }
        match key(domain, &datums[i]) {
            Some(v) => {
                acc = acc + v;
            },
            None => {},
        }
        i = i + 1;
    }
    assert(datums@.subrange(0, i as int) =~= datums@);
    (acc, any)
}

/// The sum of the 16-bit integers among `datums` as a 64-bit integer, or
/// null if every one of `datums` is null.
pub fn sum_int16(datums: &Vec<Datum>) -> (out: Datum)
    requires
        i64::MIN <= sum_of(Domain::Int16, datums@) <= i64::MAX,
    ensures
        is_sum(Domain::Int16, datums@, out),
{
    let (total, any) = sum(Domain::Int16, datums);
    if any {
        Datum::Int64(total as i64)
    } else {
        Datum::Null
    }
}

/// The sum of the 32-bit integers among `datums` as a 64-bit integer, or
/// null if every one of `datums` is null.
pub fn sum_int32(datums: &Vec<Datum>) -> (out: Datum)
    requires
        i64::MIN <= sum_of(Domain::Int32, datums@) <= i64::MAX,
    ensures
        is_sum(Domain::Int32, datums@, out),
{
    let (total, any) = sum(Domain::Int32, datums);
    if any {
        Datum::Int64(total as i64)
    } else {
        Datum::Null
    }
}

/// The sum of the 64-bit integers among `datums` as a decimal number, or
/// null if every one of `datums` is null.
pub fn sum_int64(datums: &Vec<Datum>) -> (out: Datum)
    ensures
        is_sum(Domain::Int64, datums@, out),
{
    let (total, any) = sum(Domain::Int64, datums);
    if any {
        Datum::Numeric(total)
    } else {
        Datum::Null
    }
}

/// Whether the sum of the decimal numbers among the first `k` of `datums`
/// can be told, whatever `k` is.
pub open spec fn sums_fit(datums: Seq<Datum>) -> bool {
    forall|k: int|
        0 <= k <= datums.len() ==> i128::MIN <= #[trigger] sum_of(
            Domain::Numeric,
            datums.subrange(0, k),
        ) <= i128::MAX
}

/// The sum of the decimal numbers among `datums`, or null if every one of
/// `datums` is null.
pub fn sum_numeric(datums: &Vec<Datum>) -> (out: Datum)
    requires
        sums_fit(datums@),
    ensures
        is_sum(Domain::Numeric, datums@, out),
{
    let mut acc: i128 = 0;
    let mut any: bool = false;
    let mut i: usize = 0;
    assert(datums@.subrange(0, 0) =~= Seq::<Datum>::empty());
    while i < datums.len()
        invariant
            i <= datums.len(),
            sums_fit(datums@),
            acc == sum_of(Domain::Numeric, datums@.subrange(0, i as int)),
            any == (non_null_count(datums@.subrange(0, i as int)) > 0),
        decreases datums.len() - i,
    {
        proof {
            let upto = datums@.subrange(0, i + 1);
            assert(upto.drop_last() =~= datums@.subrange(0, i as int));
            assert(upto.last() == datums@[i as int]);
            assert(i128::MIN <= sum_of(Domain::Numeric, datums@.subrange(0, i + 1)) <= i128::MAX);
        }
        if !datums[i].is_null() {
            any = true;
        }
        match &datums[i] {
            Datum::Numeric(v) => {
                acc = acc + *v;
            },
            _ => {},
        }
        i = i + 1;
    }
    assert(datums@.subrange(0, i as int) =~= datums@);
    if any {
        Datum::Numeric(acc)
    } else {
        Datum::Null
    }
}

/// Whether `a` comes before `b`, or is `b`, in the order of texts: byte by
/// byte, and a text before every text that it is the beginning of.
pub open spec fn text_le(a: Seq<u8>, b: Seq<u8>) -> bool
    decreases a.len(),
{
    if a.len() == 0 {
        true
    } else if b.len() == 0 {
        false
    } else if a[0] != b[0] {
        a[0] < b[0]
    } else {
        text_le(a.drop_first(), b.drop_first())
    }
}

/// The order of texts is total and transitive.
pub proof fn lemma_text_le_is_total_order(a: Seq<u8>, b: Seq<u8>, c: Seq<u8>)
    ensures
        text_le(a, a),
        text_le(a, b) || text_le(b, a),
        text_le(a, b) && text_le(b, a) ==> a == b,
        text_le(a, b) && text_le(b, c) ==> text_le(a, c),
    decreases a.len(),
{
    if a.len() > 0 {
        lemma_text_le_is_total_order(a.drop_first(), a.drop_first(), a.drop_first());
        if b.len() > 0 {
            if c.len() > 0 {
                lemma_text_le_is_total_order(a.drop_first(), b.drop_first(), c.drop_first());
            } else {
                lemma_text_le_is_total_order(a.drop_first(), b.drop_first(), b.drop_first());
            }
            if text_le(a, b) && text_le(b, a) {
                assert(a =~= seq![a[0]] + a.drop_first());
                assert(b =~= seq![b[0]] + b.drop_first());
            }
        }
    } else {
        if text_le(b, a) {
            assert(a =~= b);
        }
    }
}

/// The bytes of the text that `datum` is, if it is one.
pub open spec fn text_of(datum: Datum) -> Option<Seq<u8>> {
    match datum {
        Datum::String(text) => Some(encode_utf8(text@)),
        _ => None,
    }
}

/// Whether `out` is the last in the order of texts of the texts among
/// `datums`, or null if there is none.
pub open spec fn is_greatest_text(datums: Seq<Datum>, out: Datum) -> bool {
    if forall|i: int| 0 <= i < datums.len() ==> !((#[trigger] datums[i]) is String) {
        out == Datum::Null
    } else {
        &&& out is String
        &&& exists|i: int| 0 <= i < datums.len() && #[trigger] datums[i] == out
        &&& forall|i: int|
            0 <= i < datums.len() && (#[trigger] datums[i]) is String ==> text_le(
                text_of(datums[i])->0,
                text_of(out)->0,
            )
    }
}

/// Whether `out` is the first in the order of texts of the texts among
/// `datums`, or null if there is none.
pub open spec fn is_least_text(datums: Seq<Datum>, out: Datum) -> bool {
    if forall|i: int| 0 <= i < datums.len() ==> !((#[trigger] datums[i]) is String) {
        out == Datum::Null
    } else {
        &&& out is String
        &&& exists|i: int| 0 <= i < datums.len() && #[trigger] datums[i] == out
        &&& forall|i: int|
            0 <= i < datums.len() && (#[trigger] datums[i]) is String ==> text_le(
                text_of(out)->0,
                text_of(datums[i])->0,
            )
    }
}

/// Whether `a` comes before `b`, or is `b`, in the order of texts.
pub fn bytes_le(a: &[u8], b: &[u8]) -> (le: bool)
    ensures
        le == text_le(a@, b@),
{
    let mut i: usize = 0;
    assert(a@.subrange(0, a@.len() as int) =~= a@);
    assert(b@.subrange(0, b@.len() as int) =~= b@);
    while i < a.len() && i < b.len()
        invariant
            i <= a@.len(),
            i <= b@.len(),
            text_le(a@, b@) == text_le(
                a@.subrange(i as int, a@.len() as int),
                b@.subrange(i as int, b@.len() as int),
            ),
        decreases a@.len() - i,
    {
        let ghost rest_a = a@.subrange(i as int, a@.len() as int);
        let ghost rest_b = b@.subrange(i as int, b@.len() as int);
        assert(rest_a[0] == a@[i as int]);
        assert(rest_b[0] == b@[i as int]);
        assert(rest_a.drop_first() =~= a@.subrange(i + 1, a@.len() as int));
        assert(rest_b.drop_first() =~= b@.subrange(i + 1, b@.len() as int));
        if a[i] != b[i] {
            return a[i] < b[i];
        }
        i = i + 1;
    }
    i == a.len()
}

/// The last, or else the first, in the order of texts of the texts among
/// `datums`, or null if there is none.
fn extreme_text(datums: &Vec<Datum>, greatest: bool) -> (out: Datum)
    ensures
        greatest ==> is_greatest_text(datums@, out),
        !greatest ==> is_least_text(datums@, out),
{
    let mut best: Option<usize> = None;
    let mut i: usize = 0;
    while i < datums.len()
        invariant
            i <= datums.len(),
            match best {
                None => forall|j: int| 0 <= j < i ==> !((#[trigger] datums@[j]) is String),
                Some(at) => {
                    &&& at < i
                    &&& datums@[at as int] is String
                    &&& forall|j: int|
                        0 <= j < i && (#[trigger] datums@[j]) is String ==> if greatest {
                            text_le(text_of(datums@[j])->0, text_of(datums@[at as int])->0)
                        } else {
                            text_le(text_of(datums@[at as int])->0, text_of(datums@[j])->0)
                        }
                },
            },
        decreases datums.len() - i,
    {
        match &datums[i] {
            Datum::String(text) => {
                let better = match best {
                    None => true,
                    Some(at) => match &datums[at] {
                        Datum::String(kept) => {
                            if greatest {
                                bytes_le(kept.as_str().as_bytes(), text.as_str().as_bytes())
                            } else {
                                !bytes_le(kept.as_str().as_bytes(), text.as_str().as_bytes())
                            }
                        },
                        _ => true,
                    },
                };
                proof {
                    let new = text_of(datums@[i as int])->0;
                    lemma_text_le_is_total_order(new, new, new);
                    if best is Some {
                        let at = best->0 as int;
                        let old = text_of(datums@[at])->0;
                        lemma_text_le_is_total_order(old, new, new);
                        assert forall|j: int|
                            0 <= j < i && (#[trigger] datums@[j]) is String implies if greatest {
                            text_le(text_of(datums@[j])->0, old) && (text_le(old, new) ==> text_le(
                                text_of(datums@[j])->0,
                                new,
                            ))
                        } else {
                            text_le(old, text_of(datums@[j])->0) && (text_le(new, old) ==> text_le(
                                new,
                                text_of(datums@[j])->0,
                            ))
                        } by {
                            let other = text_of(datums@[j])->0;
                            lemma_text_le_is_total_order(other, old, new);
                            lemma_text_le_is_total_order(new, old, other);
                        }
                    }
                }
                if better {
                    best = Some(i);
                }
            },
            _ => {},
        }
        i = i + 1;
    }
    match best {
        None => Datum::Null,
        Some(at) => match &datums[at] {
            Datum::String(text) => {
                let out = Datum::String(text.clone());
                assert(datums@[at as int] == out);
                out
            },
            _ => Datum::Null,
        },
    }
}

/// The last in the order of texts of the texts among `datums`, or null if
/// there is none.
pub fn max_string(datums: &Vec<Datum>) -> (out: Datum)
    ensures
        is_greatest_text(datums@, out),
{
    extreme_text(datums, true)
}

/// The first in the order of texts of the texts among `datums`, or null if
/// there is none.
pub fn min_string(datums: &Vec<Datum>) -> (out: Datum)
    ensures
        is_least_text(datums@, out),
{
    extreme_text(datums, false)
}

/// Whether `datum` is a row of input of an aggregation over ordered
/// input: a list whose first element is what is aggregated, and whose other
/// elements are what the input is ordered by.
pub open spec fn is_row(datum: DatumView) -> bool {
    datum matches DatumView::List(elements) && elements.len() >= 1
}

/// What a row of input holds to be aggregated.
pub open spec fn expr_of(datum: DatumView) -> DatumView {
    datum->List_0[0]
}

/// What a row of input is ordered by.
pub open spec fn order_of(datum: DatumView) -> Seq<DatumView> {
    datum->List_0.subrange(1, datum->List_0.len() as int)
}

/// What each of the rows `datums` holds to be aggregated.
pub open spec fn exprs_of(datums: Seq<DatumView>) -> Seq<DatumView> {
    datums.map_values(|d: DatumView| expr_of(d))
}

/// Whether each of `datums` is a row of input.
pub open spec fn are_rows(datums: Seq<Datum>) -> bool {
    forall|i: int| 0 <= i < datums.len() ==> is_row((#[trigger] datums[i])@)
}

/// What the row `datum` holds to be aggregated.
pub fn expr(datum: &Datum) -> (e: &Datum)
    requires
        is_row(datum@),
    ensures
        e@ == expr_of(datum@),
{
    let elements = datum.unwrap_list();
    assert(datum_views(elements@)[0] == elements@[0]@);
    &elements[0]
}

/// The separator and the text that `expr` adds to what `string_agg` joins,
/// if it adds any: a list whose first element is a text adds that text,
/// after the separator that is its second element, or after no separator
/// if that is null.
pub open spec fn joined_pair(expr: DatumView) -> Option<(Seq<char>, Seq<char>)> {
    match expr {
        DatumView::List(items) => if items.len() >= 2 {
            match (items[0], items[1]) {
                (DatumView::String(text), DatumView::Null) => Some((Seq::<char>::empty(), text)),
                (DatumView::String(text), DatumView::String(separator)) => Some((separator, text)),
                _ => None,
            }
        } else {
            None
        },
        _ => None,
    }
}

/// Whether `expr` is of the shape that `string_agg` takes: null, or a list
/// of at least two elements, the first of which is null or a text that is
/// followed by null or a text.
pub open spec fn is_joinable(expr: DatumView) -> bool {
    expr is Null || (expr matches DatumView::List(items) && items.len() >= 2 && (items[0] is Null
        || joined_pair(expr) is Some))
}

/// The texts that `exprs` add, joined in order, each but the first after
/// its separator; nothing if no text is added.
pub open spec fn joined(exprs: Seq<DatumView>) -> Option<Seq<char>>
    decreases exprs.len(),
{
    if exprs.len() == 0 {
        None
    } else {
        match (joined(exprs.drop_last()), joined_pair(exprs.last())) {
            (so_far, None) => so_far,
            (None, Some((_, text))) => Some(text),
            (Some(so_far), Some((separator, text))) => Some(so_far + separator + text),
        }
    }
}

/// Whether `string_agg` takes the rows `datums`.
pub open spec fn are_joinable(datums: Seq<Datum>) -> bool {
    forall|i: int|
        0 <= i < datums.len() ==> is_row((#[trigger] datums[i])@) && is_joinable(
            expr_of(datums[i]@),
        )
}

/// Joins the texts that the rows `datums` add, in the order of the rows,
/// each but the first after its separator; gives null if no text is added.
pub fn string_agg(datums: &Vec<Datum>) -> (out: Datum)
    requires
        are_joinable(datums@),
    ensures
        match joined(exprs_of(datum_views(datums@))) {
            Some(text) => out@ == DatumView::String(text),
            None => out@ == DatumView::Null,
        },
{
    let mut text = String::new();
    let mut started = false;
    let mut i: usize = 0;
    let ghost all = exprs_of(datum_views(datums@));
    assert(all.subrange(0, 0) =~= Seq::<DatumView>::empty());
    while i < datums.len()
        invariant
            i <= datums.len(),
            are_joinable(datums@),
            all == exprs_of(datum_views(datums@)),
            match joined(all.subrange(0, i as int)) {
                Some(so_far) => started && text@ == so_far,
                None => !started && text@ == Seq::<char>::empty(),
            },
        decreases datums.len() - i,
    {
        proof {
            let upto = all.subrange(0, i + 1);
            assert(upto.drop_last() =~= all.subrange(0, i as int));
            assert(upto.last() == expr_of(datums@[i as int]@));
            assert(is_joinable(expr_of(datums@[i as int]@)));
        }
        let e = expr(&datums[i]);
        if !e.is_null() {
            let items = e.unwrap_list();
            assert(datum_views(items@)[0] == items@[0]@);
            assert(datum_views(items@)[1] == items@[1]@);
            match &items[0] {
                Datum::String(value) => {
                    if started {
                        match &items[1] {
                            Datum::String(separator) => {
                                text.append(separator.as_str());
                            },
                            _ => {},
                        }
                    }
                    text.append(value.as_str());
                    started = true;
                    assert(text@ =~= joined(all.subrange(0, i + 1))->0);
                },
                _ => {},
            }
        }
        i = i + 1;
    }
    assert(all.subrange(0, i as int) =~= all);
    if started {
        Datum::String(text)
    } else {
        Datum::Null
    }
}

/// Whether the rows `datums` are in the order `order_by` as they stand,
/// whatever they hold: no order is asked for, or there is at most one row.
pub open spec fn in_order(order_by: Seq<ColumnOrder>, datums: Seq<Datum>) -> bool {
    order_by.len() == 0 || datums.len() <= 1
}

impl AggregateFunc {
    /// The numbers that the sum adds up, if the function is a sum of
    /// integers.
    pub open spec fn summed(&self) -> Option<Domain> {
        match self {
            AggregateFunc::SumInt16 => Some(Domain::Int16),
            AggregateFunc::SumInt32 => Some(Domain::Int32),
            AggregateFunc::SumInt64 => Some(Domain::Int64),
            AggregateFunc::SumNumeric => Some(Domain::Numeric),
            _ => None,
        }
    }

    /// Whether the aggregation can be evaluated over `datums`: a sum of
    /// small integers has to fit a 64-bit integer and a sum of decimal
    /// numbers what a decimal number holds, and an aggregation over
    /// ordered input whose rows are in order takes rows of the shape that
    /// it reads.
    pub open spec fn takes(&self, datums: Seq<Datum>) -> bool {
        match self {
            AggregateFunc::SumInt16 | AggregateFunc::SumInt32 => i64::MIN <= sum_of(
                self.summed()->0,
                datums,
            ) <= i64::MAX,
            AggregateFunc::SumNumeric => sums_fit(datums),
            AggregateFunc::StringAgg { order_by } => in_order(order_by@, datums) ==> are_joinable(datums),
            AggregateFunc::JsonbAgg { order_by } => in_order(order_by@, datums) ==> are_rows(datums),
            AggregateFunc::JsonbObjectAgg { order_by } => in_order(order_by@, datums) ==> are_keyed(datums),
            AggregateFunc::ListConcat { order_by } => in_order(order_by@, datums) ==> hold_lists(datums),
            AggregateFunc::ArrayConcat { order_by } => in_order(order_by@, datums) ==> hold_arrays(datums),
            AggregateFunc::RowNumber { order_by } => in_order(order_by@, datums) ==> hold_lists(datums)
                && concatenated(exprs_of(datum_views(datums))).len() <= i64::MAX,
            AggregateFunc::DenseRank { order_by } => in_order(order_by@, datums) ==> hold_lists(datums)
                && ordered_records(datum_views(datums)).len() <= i64::MAX,
            AggregateFunc::Lag { order_by } => in_order(order_by@, datums) ==> are_lag_rows(datums),
            _ => true,
        }
    }

    /// Whether `out` is what evaluating the aggregation over `datums`
    /// gives, or nothing if the aggregation is not one of those that are
    /// evaluated here: the greatest, the least, the sum and the number of
    /// integers, decimal numbers, booleans, dates, timestamps and texts,
    /// `any` and `all`, the
    /// placeholder, and the aggregations over ordered input wherever the
    /// rows are in order as they stand.
    pub open spec fn is_result(&self, datums: Seq<Datum>, out: Option<Datum>) -> bool {
        match self {
            AggregateFunc::MaxNumeric => out matches Some(d) && is_greatest(
                Domain::Numeric,
                datums,
                d,
            ),
            AggregateFunc::MinNumeric => out matches Some(d) && is_least_of(
                Domain::Numeric,
                datums,
                d,
            ),
            AggregateFunc::MaxInt16 => out matches Some(d) && is_greatest(Domain::Int16, datums, d),
            AggregateFunc::MaxInt32 => out matches Some(d) && is_greatest(Domain::Int32, datums, d),
            AggregateFunc::MaxInt64 => out matches Some(d) && is_greatest(Domain::Int64, datums, d),
            AggregateFunc::MaxBool => out matches Some(d) && is_greatest(Domain::Bool, datums, d),
            AggregateFunc::MaxDate => out matches Some(d) && is_greatest(Domain::Date, datums, d),
            AggregateFunc::MaxTimestamp => out matches Some(d) && is_greatest(
                Domain::Timestamp,
                datums,
                d,
            ),
            AggregateFunc::MaxTimestampTz => out matches Some(d) && is_greatest(
                Domain::TimestampTz,
                datums,
                d,
            ),
            AggregateFunc::MaxString => out matches Some(d) && is_greatest_text(datums, d),
            AggregateFunc::MinInt16 => out matches Some(d) && is_least_of(Domain::Int16, datums, d),
            AggregateFunc::MinInt32 => out matches Some(d) && is_least_of(Domain::Int32, datums, d),
            AggregateFunc::MinInt64 => out matches Some(d) && is_least_of(Domain::Int64, datums, d),
            AggregateFunc::MinBool => out matches Some(d) && is_least_of(Domain::Bool, datums, d),
            AggregateFunc::MinDate => out matches Some(d) && is_least_of(Domain::Date, datums, d),
            AggregateFunc::MinTimestamp => out matches Some(d) && is_least_of(
                Domain::Timestamp,
                datums,
                d,
            ),
            AggregateFunc::MinTimestampTz => out matches Some(d) && is_least_of(
                Domain::TimestampTz,
                datums,
                d,
            ),
            AggregateFunc::MinString => out matches Some(d) && is_least_text(datums, d),
            AggregateFunc::SumInt16
            | AggregateFunc::SumInt32
            | AggregateFunc::SumInt64
            | AggregateFunc::SumNumeric => out matches Some(d) && is_sum(
                self.summed()->0,
                datums,
                d,
            ),
            AggregateFunc::Count => out == Some(Datum::Int64(non_null_count(datums) as i64)),
            AggregateFunc::Any => out matches Some(d) && is_any(datums, d),
            AggregateFunc::All => out matches Some(d) && is_all(datums, d),
            AggregateFunc::StringAgg { order_by } => if in_order(order_by@, datums) {
                match joined(exprs_of(datum_views(datums))) {
                    Some(text) => out matches Some(d) && d@ == DatumView::String(text),
                    None => out matches Some(d) && d@ == DatumView::Null,
                }
            } else {
                out is None
            },
            AggregateFunc::Dummy => out == Some(Datum::Dummy),
            AggregateFunc::JsonbAgg { order_by } => if in_order(order_by@, datums) {
                out matches Some(d) && d@ == DatumView::List(
                    without_nulls(exprs_of(datum_views(datums))),
                )
            } else {
                out is None
            },
            AggregateFunc::JsonbObjectAgg { order_by } => if in_order(order_by@, datums) {
                out matches Some(d) && d@ == DatumView::Dict(dict_of(exprs_of(datum_views(datums))))
            } else {
                out is None
            },
            AggregateFunc::ListConcat { order_by } => if in_order(order_by@, datums) {
                out matches Some(d) && d@ == DatumView::List(
                    concatenated(exprs_of(datum_views(datums))),
                )
            } else {
                out is None
            },
            AggregateFunc::ArrayConcat { order_by } => if in_order(order_by@, datums) {
                out matches Some(d) && d@ == DatumView::Array(
                    concatenated(exprs_of(datum_views(datums))),
                )
            } else {
                out is None
            },
            AggregateFunc::RowNumber { order_by } => if in_order(order_by@, datums) {
                out matches Some(d) && d@ == DatumView::List(
                    numbered(concatenated(exprs_of(datum_views(datums)))),
                )
            } else {
                out is None
            },
            AggregateFunc::DenseRank { order_by } => if in_order(order_by@, datums) {
                out matches Some(d) && d@ == DatumView::List(
                    ranked(ordered_records(datum_views(datums))),
                )
            } else {
                out is None
            },
            AggregateFunc::Lag { order_by } => if in_order(order_by@, datums) {
                out matches Some(d) && d@ == DatumView::List(lag_pairs(datum_views(datums)))
            } else {
                out is None
            },
            _ => out is None,
        }
    }

    /// Evaluates the aggregation over `datums`, if it is one of those that
    /// are evaluated here. An aggregation over ordered input is only
    /// evaluated where nothing is to be sorted: it asks for no order, or
    /// there is at most one row.
    pub fn eval(&self, datums: &Vec<Datum>) -> (out: Option<Datum>)
        requires
            self.takes(datums@),
        ensures
            self.is_result(datums@, out),
    {
        match self {
            AggregateFunc::MaxNumeric => Some(max_numeric(datums)),
            AggregateFunc::MinNumeric => Some(min_numeric(datums)),
            AggregateFunc::SumNumeric => Some(sum_numeric(datums)),
            AggregateFunc::MaxInt16 => Some(max_int16(datums)),
            AggregateFunc::MaxInt32 => Some(max_int32(datums)),
            AggregateFunc::MaxInt64 => Some(max_int64(datums)),
            AggregateFunc::MaxBool => Some(max_bool(datums)),
            AggregateFunc::MaxString => Some(max_string(datums)),
            AggregateFunc::MaxDate => Some(max_date(datums)),
            AggregateFunc::MaxTimestamp => Some(max_timestamp(datums)),
            AggregateFunc::MaxTimestampTz => Some(max_timestamptz(datums)),
            AggregateFunc::MinInt16 => Some(min_int16(datums)),
            AggregateFunc::MinInt32 => Some(min_int32(datums)),
            AggregateFunc::MinInt64 => Some(min_int64(datums)),
            AggregateFunc::MinBool => Some(min_bool(datums)),
            AggregateFunc::MinString => Some(min_string(datums)),
            AggregateFunc::MinDate => Some(min_date(datums)),
            AggregateFunc::MinTimestamp => Some(min_timestamp(datums)),
            AggregateFunc::MinTimestampTz => Some(min_timestamptz(datums)),
            AggregateFunc::SumInt16 => Some(sum_int16(datums)),
            AggregateFunc::SumInt32 => Some(sum_int32(datums)),
            AggregateFunc::SumInt64 => Some(sum_int64(datums)),
            AggregateFunc::Count => Some(count(datums)),
            AggregateFunc::Any => Some(any(datums)),
            AggregateFunc::All => Some(all(datums)),
            AggregateFunc::StringAgg { order_by } => {
                if order_by.len() == 0 || datums.len() <= 1 {
                    Some(string_agg(datums))
                } else {
                    None
                }
            },
            AggregateFunc::Dummy => Some(Datum::Dummy),
            AggregateFunc::JsonbAgg { order_by } => {
                if order_by.len() == 0 || datums.len() <= 1 {
                    Some(jsonb_agg(datums))
                } else {
                    None
                }
            },
            AggregateFunc::JsonbObjectAgg { order_by } => {
                if order_by.len() == 0 || datums.len() <= 1 {
                    Some(jsonb_object_agg(datums))
                } else {
                    None
                }
            },
            AggregateFunc::ListConcat { order_by } => {
                if order_by.len() == 0 || datums.len() <= 1 {
                    Some(list_concat(datums))
                } else {
                    None
                }
            },
            AggregateFunc::ArrayConcat { order_by } => {
                if order_by.len() == 0 || datums.len() <= 1 {
                    Some(array_concat(datums))
                } else {
                    None
                }
            },
            AggregateFunc::RowNumber { order_by } => {
                if order_by.len() == 0 || datums.len() <= 1 {
                    Some(row_number(datums))
                } else {
                    None
                }
            },
            AggregateFunc::DenseRank { order_by } => {
                if order_by.len() == 0 || datums.len() <= 1 {
                    Some(dense_rank(datums))
                } else {
                    None
                }
            },
            AggregateFunc::Lag { order_by } => {
                if order_by.len() == 0 || datums.len() <= 1 {
                    Some(lag(datums))
                } else {
                    None
                }
            },
            _ => None,
        }
    }

    /// Whether the aggregation reduces its input to one of its values, to
    /// their sum or number, to a truth value, a joined text or a
    /// placeholder, and is evaluated here.
    pub open spec fn is_reduction(&self) -> bool {
        match self {
            AggregateFunc::MaxFloat32
            | AggregateFunc::MaxFloat64
            | AggregateFunc::MinFloat32
            | AggregateFunc::MinFloat64
            | AggregateFunc::SumFloat32
            | AggregateFunc::SumFloat64
            | AggregateFunc::JsonbAgg { .. }
            | AggregateFunc::JsonbObjectAgg { .. }
            | AggregateFunc::ArrayConcat { .. }
            | AggregateFunc::ListConcat { .. }
            | AggregateFunc::RowNumber { .. }
            | AggregateFunc::DenseRank { .. }
            | AggregateFunc::Lag { .. } => false,
            _ => true,
        }
    }

    /// Over no input at all a reduction gives its default, whatever order
    /// it asks for.
    pub proof fn lemma_nothing_gives_default(&self, datums: Seq<Datum>, out: Option<Datum>)
        requires
            self.is_reduction(),
            datums.len() == 0,
            self.is_result(datums, out),
        ensures
            out matches Some(d) && d@ == self.spec_default()@,
    {
        assert(non_null_count(datums) == 0);
        assert(exprs_of(datum_views(datums)) =~= Seq::<DatumView>::empty());
        match self {
            AggregateFunc::SumInt16
            | AggregateFunc::SumInt32
            | AggregateFunc::SumInt64
            | AggregateFunc::SumNumeric => {
                assert(is_sum(self.summed()->0, datums, out->0));
            },
            _ => {},
        }
    }
}

} // verus!
