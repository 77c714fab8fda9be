//! Table functions: what is known of them without evaluating them, and the
//! ones that take a text apart.

use vstd::prelude::*;
use vstd::string::*;
use crate::repr::{
    datum_views, entry_views, key_views, lemma_view_of_elements, ColumnType, Datum, DatumView,
    Interval, RelationType, ScalarType,
};

verus! {

/// One capture group of a regular expression.
#[derive(Clone, Debug, PartialEq, Eq, Hash)]
pub struct CaptureGroupDesc {
    /// The number of the group, counted from one.
    pub index: u32,
    /// The name of the group, if it has one.
    pub name: Option<String>,
    /// Whether the group may fail to take part in a match.
    pub nullable: bool,
}

/// A compiled regular expression of the `regex` crate. Nothing is known of
/// what it holds.
#[verifier::external_type_specification]
#[verifier::external_body]
pub struct ExRegex(regex::Regex);

/// The error of the `regex` crate.
#[verifier::external_type_specification]
#[verifier::external_body]
pub struct ExRegexError(regex::Error);

/// Why a pattern is no regular expression.
#[derive(Clone, Debug, PartialEq, Eq)]
pub enum RegexError {
    /// The pattern is not well formed; the message says why.
    Syntax(String),
    /// The compiled expression would be larger than the limit given.
    CompiledTooBig(usize),
    /// The pattern was refused for another reason.
    Other,
}

/// Whether `regex::Regex::new` accepts the pattern.
pub uninterp spec fn regex_compiles(pattern: Seq<char>) -> bool;

/// The pattern that a compiled expression was made from: what
/// `regex::Regex::as_str` returns for it.
pub uninterp spec fn regex_pattern(regex: regex::Regex) -> Seq<char>;

/// The names of the capture groups of the expression that `regex::Regex::new`
/// compiles from `pattern`, as `regex::Regex::capture_names` lists them.
pub uninterp spec fn regex_group_names(pattern: Seq<char>) -> Seq<Option<Seq<char>>>;

/// What the capture groups of the expression that `regex::Regex::new`
/// compiles from `pattern` hold at its first match in `text`, as
/// `regex::Regex::captures` finds them; nothing if there is no match.
pub uninterp spec fn regex_captures_of(pattern: Seq<char>, text: Seq<char>) -> Option<
    Seq<Option<Seq<char>>>,
>;

/// The text of a name or of what a group matched, if there is one.
pub open spec fn text_view(text: Option<String>) -> Option<Seq<char>> {
    match text {
        Some(text) => Some(text@),
        None => None,
    }
}

/// The texts of `texts`.
pub open spec fn text_views(texts: Seq<Option<String>>) -> Seq<Option<Seq<char>>> {
    texts.map_values(|text: Option<String>| text_view(text))
}

/// The texts of what the groups of a match hold, if there is a match.
pub open spec fn match_view(groups: Option<Vec<Option<String>>>) -> Option<Seq<Option<Seq<char>>>> {
    match groups {
        Some(groups) => Some(text_views(groups@)),
        None => None,
    }
}

/// Compiles `pattern` with `regex::Regex::new`.
///
/// The contract names the outcome: whether a pattern is accepted depends on
/// the pattern alone. It claims further that the expression made keeps the
/// pattern it was made from, as the documentation of `as_str` says.
#[verifier::external_body]
fn regex_new(pattern: &str) -> (result: Result<regex::Regex, regex::Error>)
    ensures
        result is Ok <==> regex_compiles(pattern@),
        result matches Ok(regex) ==> regex_pattern(regex) == pattern@,
{
    regex::Regex::new(pattern)
}

/// Tells the variants of `regex::Error` apart.
#[verifier::external_body]
fn regex_error(error: regex::Error) -> (e: RegexError) {
    match error {
        regex::Error::Syntax(message) => RegexError::Syntax(message),
        regex::Error::CompiledTooBig(limit) => RegexError::CompiledTooBig(limit),
        _ => RegexError::Other,
    }
}

/// Lists the names of the capture groups of `regex` with
/// `regex::Regex::capture_names`, one entry per group, in the order of the
/// groups' opening parentheses.
///
/// The contract names the list, which depends only on the pattern that the
/// expression was compiled from. It claims further what the documentation
/// of `capture_names` states: there is always at least one group, and the
/// first, which stands for the whole match, has no name.
#[verifier::external_body]
fn regex_capture_names(regex: &regex::Regex) -> (names: Vec<Option<String>>)
    ensures
        text_views(names@) == regex_group_names(regex_pattern(*regex)),
        names@.len() >= 1,
        names@[0] is None,
{
    regex.capture_names().map(|name| name.map(String::from)).collect()
}

/// Searches `text` for the first match of `regex` with
/// `regex::Regex::captures` and returns what each capture group matched,
/// the whole match first.
///
/// The contract names the outcome: for an expression that `Regex::new`
/// compiled, as all of this library are, what a search finds depends only
/// on the pattern and on the text. It claims further that a match has one
/// entry for each capture group of the expression, the one for the whole
/// match among them: `Captures::iter` walks the same groups as
/// `capture_names`.
#[verifier::external_body]
fn regex_captures(regex: &regex::Regex, text: &str) -> (groups: Option<Vec<Option<String>>>)
    ensures
        match_view(groups) == regex_captures_of(regex_pattern(*regex), text@),
        groups matches Some(found) ==> found@.len() >= 1 && found@.len() == regex_group_names(
            regex_pattern(*regex),
        ).len(),
{
    regex.captures(text).map(
        |captures| captures.iter().map(|m| m.map(|m| String::from(m.as_str()))).collect(),
    )
}

/// The description of the capture group at place `i` of `names`.
pub open spec fn described_group(names: Seq<Option<String>>, i: int) -> CaptureGroupDesc {
    CaptureGroupDesc { index: i as u32, name: names[i], nullable: true }
}

/// The descriptions of the capture groups whose names are `names`, the
/// first of which stands for the whole match and is left out: each group is
/// numbered by its place and may fail to take part in a match.
pub fn describe_capture_groups(names: &Vec<Option<String>>) -> (groups: Vec<CaptureGroupDesc>)
    ensures
        groups@.len() == if names@.len() == 0 {
            0
        } else {
            names@.len() - 1
        },
        forall|i: int|
            0 <= i < groups@.len() ==> #[trigger] groups@[i] == described_group(names@, i + 1),
{
    let mut groups: Vec<CaptureGroupDesc> = Vec::new();
    let mut i: usize = 1;
    while i < names.len()
        invariant
            1 <= i,
            i <= names.len() || (names.len() == 0 && i == 1),
            groups@.len() == i - 1,
            forall|j: int|
                0 <= j < groups@.len() ==> #[trigger] groups@[j] == described_group(names@, j + 1),
        decreases names.len() - i,
    {
        let name = match &names[i] {
            Some(name) => Some(name.clone()),
            None => None,
        };
        groups.push(CaptureGroupDesc { index: #[verifier::truncate] (i as u32), name, nullable: true });
        i = i + 1;
    }
    groups
}

/// What is left of the groups of a match without the first, which is the
/// whole match.
pub fn captured_groups(groups: Vec<Option<String>>) -> (fields: Vec<Option<String>>)
    ensures
        fields@ == if groups@.len() == 0 {
            groups@
        } else {
            groups@.subrange(1, groups@.len() as int)
        },
{
    let mut fields = groups;
    if fields.len() > 0 {
        fields.remove(0);
        assert(fields@ =~= groups@.subrange(1, groups@.len() as int));
    }
    fields
}

/// A regular expression together with the descriptions of its capture
/// groups.
#[derive(Debug)]
pub struct AnalyzedRegex {
    regex: regex::Regex,
    groups: Vec<CaptureGroupDesc>,
}

impl AnalyzedRegex {
    /// The pattern that the expression was compiled from.
    pub closed spec fn pattern(&self) -> Seq<char> {
        regex_pattern(self.regex)
    }

    /// The descriptions of the capture groups.
    pub closed spec fn spec_capture_groups(&self) -> Seq<CaptureGroupDesc> {
        self.groups@
    }

    /// The invariant of an analyzed expression: it describes each capture
    /// group of its pattern but the one that stands for the whole match.
    /// The groups are numbered from one in order, each has the name that it
    /// has in the pattern, and each may fail to take part in a match.
    pub open spec fn wf(&self) -> bool {
        &&& self.spec_capture_groups().len() + 1 == regex_group_names(self.pattern()).len()
        &&& forall|i: int|
            0 <= i < self.spec_capture_groups().len() ==> {
                &&& (#[trigger] self.spec_capture_groups()[i]).index == (i + 1) as u32
                &&& text_view(self.spec_capture_groups()[i].name) == regex_group_names(
                    self.pattern(),
                )[i + 1]
                &&& self.spec_capture_groups()[i].nullable
            }
    }

    /// Compiles the pattern `s` and describes its capture groups. The
    /// pattern is refused if and only if the `regex` crate refuses it.
    pub fn new(s: &str) -> (result: Result<AnalyzedRegex, RegexError>)
        ensures
            result is Ok <==> regex_compiles(s@),
            result matches Ok(analyzed) ==> analyzed.wf() && analyzed.pattern() == s@,
    {
        match regex_new(s) {
            Ok(regex) => {
                let names = regex_capture_names(&regex);
                let groups = describe_capture_groups(&names);
                proof {
                    assert forall|i: int| 0 <= i < groups@.len() implies text_view(
                        (#[trigger] groups@[i]).name,
                    ) == regex_group_names(s@)[i + 1] by {
                        assert(groups@[i] == described_group(names@, i + 1));
                        assert(text_views(names@)[i + 1] == text_view(names@[i + 1]));
                    }
                }
                Ok(AnalyzedRegex { regex, groups })
            },
            Err(error) => Err(regex_error(error)),
        }
    }

    /// The number of capture groups.
    pub fn capture_groups_len(&self) -> (n: usize)
        ensures
            n == self.spec_capture_groups().len(),
    {
        self.groups.len()
    }

    /// The descriptions of the capture groups, in order.
    pub fn capture_groups_iter(&self) -> (groups: &Vec<CaptureGroupDesc>)
        ensures
            groups@ == self.spec_capture_groups(),
    {
        &self.groups
    }

    /// The compiled expression: the one that was made from the pattern.
    pub fn inner(&self) -> (regex: &regex::Regex)
        ensures
            regex_pattern(*regex) == self.pattern(),
    {
        &self.regex
    }
}

/// What is left of a match without its first group, which is the whole
/// match; nothing if there is no match.
pub open spec fn extracted(found: Option<Seq<Option<Seq<char>>>>) -> Option<
    Seq<Option<Seq<char>>>,
> {
    match found {
        Some(groups) => Some(
            if groups.len() == 0 {
                groups
            } else {
                groups.subrange(1, groups.len() as int)
            },
        ),
        None => None,
    }
}

/// What each capture group of `r` matched at the first match of `r` in
/// `text`, in the order of the groups, or nothing if there is no match. A
/// group that took no part in the match gives no text. Where there is a
/// match, there is one entry for each capture group of the pattern but the
/// one that stands for the whole match.
pub fn regexp_extract(text: &str, r: &AnalyzedRegex) -> (fields: Option<Vec<Option<String>>>)
    ensures
        match_view(fields) == extracted(regex_captures_of(r.pattern(), text@)),
        fields matches Some(found) ==> found@.len() + 1 == regex_group_names(r.pattern()).len(),
{
    match regex_captures(r.inner(), text) {
        Some(groups) => {
            let fields = captured_groups(groups);
            assert(text_views(fields@) =~= text_views(groups@).subrange(
                1,
                groups@.len() as int,
            ));
            Some(fields)
        },
        None => None,
    }
}

/// The records that `csv::Reader` reads from a text without a header line:
/// one entry per record, which holds the fields of the record, or nothing if
/// the reader reports an error for the record.
pub uninterp spec fn csv_records_of(text: Seq<char>) -> Seq<Option<Seq<Seq<char>>>>;

/// The texts of the fields of one record, if it was read.
pub open spec fn record_view(record: Option<Vec<String>>) -> Option<Seq<Seq<char>>> {
    match record {
        Some(fields) => Some(fields@.map_values(|f: String| f@)),
        None => None,
    }
}

/// Reads `text` as CSV without a header line, with a reader that
/// `csv::ReaderBuilder` builds and `csv::Reader::into_records` walks.
///
/// The contract only names the outcome: what is read depends on the text
/// alone.
#[verifier::external_body]
fn csv_records(text: &str) -> (records: Vec<Option<Vec<String>>>)
    ensures
        record_views(records@) == csv_records_of(text@),
{
    csv::ReaderBuilder::new()
        .has_headers(false)
        .from_reader(text.as_bytes())
        .into_records()
        .map(|record| record.ok().map(|fields| fields.iter().map(String::from).collect()))
        .collect()
}

/// The texts of the fields of each of `rows`.
pub open spec fn row_views(rows: Seq<Vec<String>>) -> Seq<Seq<Seq<char>>> {
    rows.map_values(|fields: Vec<String>| fields@.map_values(|f: String| f@))
}

/// The texts of the fields of each of `records` that was read.
pub open spec fn record_views(records: Seq<Option<Vec<String>>>) -> Seq<Option<Seq<Seq<char>>>> {
    records.map_values(|r: Option<Vec<String>>| record_view(r))
}

/// Whether a record was read and has `n_cols` fields.
pub open spec fn is_row(record: Option<Seq<Seq<char>>>, n_cols: usize) -> bool {
    record matches Some(fields) && fields.len() == n_cols
}

/// The records among `records` that were read and have `n_cols` fields, in
/// order.
pub open spec fn selected_records(records: Seq<Option<Seq<Seq<char>>>>, n_cols: usize) -> Seq<
    Seq<Seq<char>>,
>
    decreases records.len(),
{
    if records.len() == 0 {
        Seq::empty()
    } else if is_row(records.last(), n_cols) {
        selected_records(records.drop_last(), n_cols).push(records.last()->0)
    } else {
        selected_records(records.drop_last(), n_cols)
    }
}

/// Keeps the records that were read and have `n_cols` fields, in order.
pub fn select_records(records: Vec<Option<Vec<String>>>, n_cols: usize) -> (rows: Vec<Vec<String>>)
    ensures
        row_views(rows@) == selected_records(record_views(records@), n_cols),
{
    let mut rows: Vec<Vec<String>> = Vec::new();
    let mut records = records;
    let ghost all = record_views(records@);
    let mut k: usize = 0;
    assert(all.subrange(0, 0) =~= Seq::<Option<Seq<Seq<char>>>>::empty());
    assert(row_views(rows@) =~= selected_records(all.subrange(0, 0), n_cols));
    while k < records.len()
        invariant
            k <= records.len(),
            records@.len() == all.len(),
            forall|j: int| k <= j < records@.len() ==> record_view(#[trigger] records@[j]) == all[j],
            row_views(rows@) == selected_records(all.subrange(0, k as int), n_cols),
        decreases records.len() - k,
    {
        let ghost before_rows = row_views(rows@);
        proof {
            let upto = all.subrange(0, k + 1);
            assert(upto.drop_last() =~= all.subrange(0, k as int));
            assert(upto.last() == record_view(records@[k as int]));
        }
        let record = records[k].take();
        match record {
            Some(fields) => {
                if fields.len() == n_cols {
                    rows.push(fields);
                    assert(row_views(rows@) =~= before_rows.push(record_view(record)->0));
                }
            },
            None => {},
        }
        k = k + 1;
    }
    assert(all.subrange(0, k as int) =~= all);
    rows
}

/// Reads `text` as CSV without a header line and returns the records that
/// have `n_cols` fields, in order.
pub fn csv_extract(text: &str, n_cols: usize) -> (rows: Vec<Vec<String>>)
    ensures
        row_views(rows@) == selected_records(csv_records_of(text@), n_cols),
{
    select_records(csv_records(text), n_cols)
}

/// How often the empty row is to be repeated: `n` times, or not at all if
/// `n` is zero.
pub fn repeat(n: i64) -> (times: Option<i64>)
    ensures
        times == if n != 0 {
            Some(n)
        } else {
            None::<i64>
        },
{
    if n != 0 {
        Some(n)
    } else {
        None
    }
}

/// A table function.
#[derive(Debug)]
pub enum TableFunc {
    JsonbEach { stringify: bool },
    JsonbObjectKeys,
    JsonbArrayElements { stringify: bool },
    RegexpExtract(AnalyzedRegex),
    CsvExtract(usize),
    GenerateSeriesInt32,
    GenerateSeriesInt64,
    GenerateSeriesTimestamp,
    GenerateSeriesTimestampTz,
    Repeat,
    UnnestArray { el_typ: ScalarType },
    UnnestList { el_typ: ScalarType },
    /// Wraps a list of values into rows of `width` columns each.
    Wrap { types: Vec<ColumnType>, width: usize },
    GenerateSubscriptsArray,
}

/// The type of a column of texts.
pub open spec fn text_column(nullable: bool) -> ColumnType {
    ColumnType { scalar_type: ScalarType::String, nullable }
}

impl TableFunc {
    /// Whether the function generates a series or the subscripts of an
    /// array.
    pub open spec fn generates_series(&self) -> bool {
        ||| self is GenerateSeriesInt32
        ||| self is GenerateSeriesInt64
        ||| self is GenerateSeriesTimestamp
        ||| self is GenerateSeriesTimestampTz
        ||| self is GenerateSubscriptsArray
    }

    /// The types of the columns of what the function gives.
    pub open spec fn spec_output_columns(self) -> Seq<ColumnType> {
        match self {
            TableFunc::JsonbEach { stringify } => seq![
                text_column(false),
                if stringify {
                    text_column(true)
                } else {
                    ColumnType { scalar_type: ScalarType::Jsonb, nullable: false }
                },
            ],
            TableFunc::JsonbObjectKeys => seq![text_column(false)],
            TableFunc::JsonbArrayElements { stringify } => seq![
                if stringify {
                    text_column(true)
                } else {
                    ColumnType { scalar_type: ScalarType::Jsonb, nullable: false }
                },
            ],
            TableFunc::RegexpExtract(a) => a.spec_capture_groups().map_values(
                |group: CaptureGroupDesc| text_column(group.nullable),
            ),
            TableFunc::CsvExtract(n_cols) => Seq::new(n_cols as nat, |i: int| text_column(false)),
            TableFunc::GenerateSeriesInt32 => seq![
                ColumnType { scalar_type: ScalarType::Int32, nullable: false },
            ],
            TableFunc::GenerateSeriesInt64 => seq![
                ColumnType { scalar_type: ScalarType::Int64, nullable: false },
            ],
            TableFunc::GenerateSeriesTimestamp => seq![
                ColumnType { scalar_type: ScalarType::Timestamp, nullable: false },
            ],
            TableFunc::GenerateSeriesTimestampTz => seq![
                ColumnType { scalar_type: ScalarType::TimestampTz, nullable: false },
            ],
            TableFunc::GenerateSubscriptsArray => seq![
                ColumnType { scalar_type: ScalarType::Int32, nullable: false },
            ],
            TableFunc::Repeat => Seq::empty(),
            TableFunc::UnnestArray { el_typ } => seq![
                ColumnType { scalar_type: el_typ, nullable: true },
            ],
            TableFunc::UnnestList { el_typ } => seq![
                ColumnType { scalar_type: el_typ, nullable: true },
            ],
            TableFunc::Wrap { types, .. } => types@,
        }
    }

    /// The keys of what the function gives: the one column of a series is
    /// a key, and nothing else is.
    pub open spec fn spec_output_keys(self) -> Seq<Seq<usize>> {
        if self.generates_series() {
            seq![seq![0usize]]
        } else {
            Seq::empty()
        }
    }

    /// The type of what the function gives.
    pub fn output_type(self) -> (relation: RelationType)
        ensures
            relation.column_types@ == self.spec_output_columns(),
            key_views(relation.keys@) == self.spec_output_keys(),
    {
        let mut column_types: Vec<ColumnType> = Vec::new();
        let mut keyed = false;
        match self {
            TableFunc::JsonbEach { stringify } => {
                column_types.push(ScalarType::String.nullable(false));
                if stringify {
                    column_types.push(ScalarType::String.nullable(true));
                } else {
                    column_types.push(ScalarType::Jsonb.nullable(false));
                }
            },
            TableFunc::JsonbObjectKeys => {
                column_types.push(ScalarType::String.nullable(false));
            },
            TableFunc::JsonbArrayElements { stringify } => {
                if stringify {
                    column_types.push(ScalarType::String.nullable(true));
                } else {
                    column_types.push(ScalarType::Jsonb.nullable(false));
                }
            },
            TableFunc::RegexpExtract(a) => {
                let groups = a.capture_groups_iter();
                let mut i: usize = 0;
                while i < groups.len()
                    invariant
                        i <= groups@.len(),
                        column_types@.len() == i,
                        forall|j: int|
                            0 <= j < i ==> #[trigger] column_types@[j] == text_column(
                                groups@[j].nullable,
                            ),
                    decreases groups@.len() - i,
                {
                    column_types.push(ScalarType::String.nullable(groups[i].nullable));
                    i = i + 1;
                }
            },
            TableFunc::CsvExtract(n_cols) => {
                let mut i: usize = 0;
                while i < n_cols
                    invariant
                        i <= n_cols,
                        column_types@.len() == i,
                        forall|j: int| 0 <= j < i ==> #[trigger] column_types@[j] == text_column(false),
                    decreases n_cols - i,
                {
                    column_types.push(ScalarType::String.nullable(false));
                    i = i + 1;
                }
            },
            TableFunc::GenerateSeriesInt32 => {
                column_types.push(ScalarType::Int32.nullable(false));
                keyed = true;
            },
            TableFunc::GenerateSeriesInt64 => {
                column_types.push(ScalarType::Int64.nullable(false));
                keyed = true;
            },
            TableFunc::GenerateSeriesTimestamp => {
                column_types.push(ScalarType::Timestamp.nullable(false));
                keyed = true;
            },
            TableFunc::GenerateSeriesTimestampTz => {
                column_types.push(ScalarType::TimestampTz.nullable(false));
                keyed = true;
            },
            TableFunc::GenerateSubscriptsArray => {
                column_types.push(ScalarType::Int32.nullable(false));
                keyed = true;
            },
            TableFunc::Repeat => {},
            TableFunc::UnnestArray { el_typ } => {
                column_types.push(el_typ.nullable(true));
            },
            TableFunc::UnnestList { el_typ } => {
                column_types.push(el_typ.nullable(true));
            },
            TableFunc::Wrap { types, .. } => {
                column_types = types;
            },
        }
        assert(column_types@ =~= self.spec_output_columns());
        let relation = RelationType::new(column_types);
        if keyed {
            let mut key: Vec<usize> = Vec::new();
            key.push(0);
            let mut keys: Vec<Vec<usize>> = Vec::new();
            keys.push(key);
            assert(key_views(keys@) =~= seq![seq![0usize]]);
            relation.with_keys(keys)
        } else {
            assert(key_views(relation.keys@) =~= Seq::<Seq<usize>>::empty());
            relation
        }
    }

    /// The number of columns of what the function gives.
    pub open spec fn spec_output_arity(&self) -> nat {
        match self {
            TableFunc::JsonbEach { .. } => 2,
            TableFunc::RegexpExtract(a) => a.spec_capture_groups().len(),
            TableFunc::CsvExtract(n_cols) => *n_cols as nat,
            TableFunc::Repeat => 0,
            TableFunc::Wrap { width, .. } => *width as nat,
            _ => 1,
        }
    }

    /// The number of columns of what the function gives.
    pub fn output_arity(&self) -> (arity: usize)
        ensures
            arity == self.spec_output_arity(),
    {
        match self {
            TableFunc::JsonbEach { .. } => 2,
            TableFunc::JsonbObjectKeys => 1,
            TableFunc::JsonbArrayElements { .. } => 1,
            TableFunc::RegexpExtract(a) => a.capture_groups_len(),
            TableFunc::CsvExtract(n_cols) => *n_cols,
            TableFunc::GenerateSeriesInt32 => 1,
            TableFunc::GenerateSeriesInt64 => 1,
            TableFunc::GenerateSeriesTimestamp => 1,
            TableFunc::GenerateSeriesTimestampTz => 1,
            TableFunc::GenerateSubscriptsArray => 1,
            TableFunc::Repeat => 0,
            TableFunc::UnnestArray { .. } => 1,
            TableFunc::UnnestList { .. } => 1,
            TableFunc::Wrap { width, .. } => *width,
        }
    }

    /// Whether the function gives nothing as soon as one of its inputs is
    /// null: so it is for every function but `Wrap`.
    pub fn empty_on_null_input(&self) -> (b: bool)
        ensures
            b == !(self is Wrap),
    {
        match self {
            TableFunc::JsonbEach { .. }
            | TableFunc::JsonbObjectKeys
            | TableFunc::JsonbArrayElements { .. }
            | TableFunc::GenerateSeriesInt32
            | TableFunc::GenerateSeriesInt64
            | TableFunc::GenerateSeriesTimestamp
            | TableFunc::GenerateSeriesTimestampTz
            | TableFunc::GenerateSubscriptsArray
            | TableFunc::RegexpExtract(_)
            | TableFunc::CsvExtract(_)
            | TableFunc::Repeat
            | TableFunc::UnnestArray { .. }
            | TableFunc::UnnestList { .. } => true,
            TableFunc::Wrap { .. } => false,
        }
    }

    /// Whether what the function gives only grows when its input only
    /// grows: so it is for every function but `Repeat`.
    pub fn preserves_monotonicity(&self) -> (b: bool)
        ensures
            b == !(self is Repeat),
    {
        // Every variant is listed, so that whoever adds one has to decide.
        match self {
            TableFunc::JsonbEach { .. } => true,
            TableFunc::JsonbObjectKeys => true,
            TableFunc::JsonbArrayElements { .. } => true,
            TableFunc::RegexpExtract(_) => true,
            TableFunc::CsvExtract(_) => true,
            TableFunc::GenerateSeriesInt32 => true,
            TableFunc::GenerateSeriesInt64 => true,
            TableFunc::GenerateSeriesTimestamp => true,
            TableFunc::GenerateSeriesTimestampTz => true,
            TableFunc::GenerateSubscriptsArray => true,
            TableFunc::Repeat => false,
            TableFunc::UnnestArray { .. } => true,
            TableFunc::UnnestList { .. } => true,
            TableFunc::Wrap { .. } => true,
        }
    }
}

/// The function gives as many columns as its type has, unless it wraps its
/// input into rows whose width is not the number of types it was given.
pub proof fn lemma_output_arity_is_number_of_columns(func: TableFunc)
    requires
        func matches TableFunc::Wrap { types, width } ==> types@.len() == width,
    ensures
        func.spec_output_arity() == func.spec_output_columns().len(),
{
}

/// Why a function cannot be evaluated.
#[derive(Clone, Debug, PartialEq, Eq)]
pub enum EvalError {
    /// A parameter has a value that the function does not take; the message
    /// says which.
    InvalidParameterValue(String),
    /// A number does not fit a 32-bit integer.
    Int32OutOfRange,
}

/// The numbers from `state` to `stop`, both included, in steps of `step`,
/// as far as they can be counted without leaving the range from `lowest`
/// to `highest`.
#[derive(Clone, Copy, Debug, PartialEq, Eq, Structural)]
pub struct RangeStepInclusive {
    /// The number to give next.
    pub state: i64,
    /// The number at which to stop.
    pub stop: i64,
    /// The difference between one number and the next.
    pub step: i64,
    /// Whether the numbers go down.
    pub rev: bool,
    /// Whether the number that followed the last one given would have left
    /// the range.
    pub done: bool,
    /// The least number of the range.
    pub lowest: i64,
    /// The greatest number of the range.
    pub highest: i64,
}

impl RangeStepInclusive {
    /// Whether the series has a number left to give.
    pub open spec fn has_next(self) -> bool {
        !self.done && if self.rev {
            self.state >= self.stop
        } else {
            self.state <= self.stop
        }
    }

    /// The series after it has given its next number.
    pub open spec fn advanced(self) -> RangeStepInclusive {
        if self.lowest <= self.state + self.step <= self.highest {
            RangeStepInclusive { state: (self.state + self.step) as i64, ..self }
        } else {
            RangeStepInclusive { done: true, ..self }
        }
    }

    /// Gives the next number of the series, if there is one left.
    pub fn next(&mut self) -> (number: Option<i64>)
        ensures
            old(self).has_next() ==> number == Some(old(self).state) && *final(self) == old(
                self,
            ).advanced(),
            !old(self).has_next() ==> number is None && *final(self) == *old(self),
    {
        if !self.done && ((self.rev && self.state >= self.stop) || (!self.rev && self.state
            <= self.stop)) {
            let result = self.state;
            match self.state.checked_add(self.step) {
                Some(next) => {
                    if self.lowest <= next && next <= self.highest {
                        self.state = next;
                    } else {
                        self.done = true;
                    }
                },
                None => {
                    self.done = true;
                },
            }
            Some(result)
        } else {
            None
        }
    }
}

/// The series from `start` to `stop` in steps of `step`, within the range
/// from `lowest` to `highest`; refused if the step is zero.
fn series(start: i64, stop: i64, step: i64, lowest: i64, highest: i64) -> (result: Result<
    RangeStepInclusive,
    EvalError,
>)
    ensures
        match result {
            Ok(series) => step != 0 && series == (RangeStepInclusive {
                state: start,
                stop,
                step,
                rev: step < 0,
                done: false,
                lowest,
                highest,
            }),
            Err(e) => {
                &&& step == 0
                &&& e matches EvalError::InvalidParameterValue(message)
                &&& message@ == "step size cannot equal zero"@
            },
        },
{
    if step == 0 {
        return Err(EvalError::InvalidParameterValue(String::from_str("step size cannot equal zero")));
    }
    Ok(RangeStepInclusive { state: start, stop, step, rev: step < 0, done: false, lowest, highest })
}

/// The 32-bit integers from `start` to `stop`, both included, in steps of
/// `step`; refused if the step is zero.
pub fn generate_series_int32(start: i32, stop: i32, step: i32) -> (result: Result<
    RangeStepInclusive,
    EvalError,
>)
    ensures
        match result {
            Ok(series) => step != 0 && series == (RangeStepInclusive {
                state: start as i64,
                stop: stop as i64,
                step: step as i64,
                rev: step < 0,
                done: false,
                lowest: i32::MIN as i64,
                highest: i32::MAX as i64,
            }),
            Err(e) => {
                &&& step == 0
                &&& e matches EvalError::InvalidParameterValue(message)
                &&& message@ == "step size cannot equal zero"@
            },
        },
{
    series(start as i64, stop as i64, step as i64, i32::MIN as i64, i32::MAX as i64)
}

/// The 64-bit integers from `start` to `stop`, both included, in steps of
/// `step`; refused if the step is zero.
pub fn generate_series_int64(start: i64, stop: i64, step: i64) -> (result: Result<
    RangeStepInclusive,
    EvalError,
>)
    ensures
        match result {
            Ok(series) => step != 0 && series == (RangeStepInclusive {
                state: start,
                stop,
                step,
                rev: step < 0,
                done: false,
                lowest: i64::MIN,
                highest: i64::MAX,
            }),
            Err(e) => {
                &&& step == 0
                &&& e matches EvalError::InvalidParameterValue(message)
                &&& message@ == "step size cannot equal zero"@
            },
        },
{
    series(start, stop, step, i64::MIN, i64::MAX)
}

/// A series that gives the number `start + k * step` as its `k`-th number,
/// counted from zero, for as long as numbers are left.
pub proof fn lemma_series_counts_in_steps(series: RangeStepInclusive, start: int, k: int)
    requires
        series.has_next(),
        series.state == start + k * series.step,
        series.advanced().has_next(),
    ensures
        series.advanced().state == start + (k + 1) * series.step,
{
    assert((k + 1) * series.step == k * series.step + series.step) by (nonlinear_arith);
}

/// The subscripts of the dimension `dim` of the array `a`: the numbers
/// from one to the number of its elements if `dim` is one, and none for any
/// other dimension, since an array has one. Refused if the number of
/// elements does not fit a 32-bit integer.
pub fn generate_subscripts_array(a: &Datum, dim: i32) -> (result: Result<
    Option<RangeStepInclusive>,
    EvalError,
>)
    requires
        a is Array,
    ensures
        match result {
            Ok(Some(series)) => dim == 1 && a->Array_0@.len() <= i32::MAX && series
                == (RangeStepInclusive {
                state: 1,
                stop: a->Array_0@.len() as i64,
                step: 1,
                rev: false,
                done: false,
                lowest: i32::MIN as i64,
                highest: i32::MAX as i64,
            }),
            Ok(None) => dim != 1,
            Err(e) => dim == 1 && a->Array_0@.len() > i32::MAX && e == EvalError::Int32OutOfRange,
        },
{
    if dim != 1 {
        return Ok(None);
    }
    match a {
        Datum::Array(elements) => {
            if elements.len() > i32::MAX as usize {
                return Err(EvalError::Int32OutOfRange);
            }
            Ok(
                Some(
                    RangeStepInclusive {
                        state: 1,
                        stop: elements.len() as i64,
                        step: 1,
                        rev: false,
                        done: false,
                        lowest: i32::MIN as i64,
                        highest: i32::MAX as i64,
                    },
                ),
            )
        },
        _ => Ok(None),
    }
}

/// What a table function gives.
#[derive(Debug, PartialEq, Eq)]
pub enum TableRows {
    /// These rows, each as often as the number beside it says.
    Rows(Vec<(Vec<Datum>, i64)>),
    /// One row for each number of the series, which holds the number as a
    /// 64-bit integer if `wide` is set and as a 32-bit integer otherwise.
    Series { series: RangeStepInclusive, wide: bool },
    /// One row for each timestamp of the series, which holds the timestamp
    /// as a moment if `with_zone` is set and without a time zone otherwise.
    TimestampSeries { series: TimestampRangeStepInclusive, with_zone: bool },
}

/// The values of the rows `rows`, each with how often it occurs.
pub open spec fn counted_row_views(rows: Seq<(Vec<Datum>, i64)>) -> Seq<(Seq<DatumView>, int)> {
    rows.map_values(|r: (Vec<Datum>, i64)| (datum_views(r.0@), r.1 as int))
}

/// One row of one value for each of `values`, each row once.
pub open spec fn rows_of_one(values: Seq<DatumView>) -> Seq<(Seq<DatumView>, int)> {
    values.map_values(|v: DatumView| (seq![v], 1int))
}

/// The value that stands for what a capture group matched: its text, or
/// null for a group that took no part in the match.
pub open spec fn field_datum(field: Option<Seq<char>>) -> DatumView {
    match field {
        Some(text) => DatumView::String(text),
        None => DatumView::Null,
    }
}

/// The one row that holds what the capture groups of a match hold, once;
/// no rows if there is no match.
pub open spec fn rows_of_match(found: Option<Seq<Option<Seq<char>>>>) -> Seq<
    (Seq<DatumView>, int),
> {
    match found {
        Some(fields) => seq![(fields.map_values(|f: Option<Seq<char>>| field_datum(f)), 1int)],
        None => Seq::empty(),
    }
}

/// One row of texts for each of `records`, each row once.
pub open spec fn rows_of_texts(records: Seq<Seq<Seq<char>>>) -> Seq<(Seq<DatumView>, int)> {
    records.map_values(
        |fields: Seq<Seq<char>>|
            (fields.map_values(|f: Seq<char>| DatumView::String(f)), 1int),
    )
}

/// The values `values` in rows of `width` values each, but for the last
/// row, which holds what is left; each row once.
pub open spec fn wrapped(values: Seq<DatumView>, width: int) -> Seq<(Seq<DatumView>, int)>
    recommends
        width > 0,
    decreases values.len(),
{
    if values.len() == 0 || width <= 0 {
        Seq::empty()
    } else if values.len() <= width {
        seq![(values, 1int)]
    } else {
        seq![(values.subrange(0, width), 1int)] + wrapped(
            values.subrange(width, values.len() as int),
            width,
        )
    }
}

/// One row of one value for each of `values`, each row once.
fn one_per_row(values: &Vec<Datum>) -> (rows: Vec<(Vec<Datum>, i64)>)
    ensures
        counted_row_views(rows@) == rows_of_one(datum_views(values@)),
{
    let mut rows: Vec<(Vec<Datum>, i64)> = Vec::new();
    let mut i: usize = 0;
    while i < values.len()
        invariant
            i <= values.len(),
            rows@.len() == i,
            forall|j: int|
                0 <= j < i ==> datum_views((#[trigger] rows@[j]).0@) == seq![values@[j]@]
                    && rows@[j].1 == 1,
        decreases values.len() - i,
    {
        let mut row: Vec<Datum> = Vec::new();
        row.push(values[i].clone());
        assert(datum_views(row@) =~= seq![values@[i as int]@]);
        rows.push((row, 1));
        i = i + 1;
    }
    assert(counted_row_views(rows@) =~= rows_of_one(datum_views(values@)));
    rows
}

/// One row of texts for each of `records`, each row once.
fn text_rows(records: Vec<Vec<String>>) -> (rows: Vec<(Vec<Datum>, i64)>)
    ensures
        counted_row_views(rows@) == rows_of_texts(row_views(records@)),
{
    let mut rows: Vec<(Vec<Datum>, i64)> = Vec::new();
    let mut i: usize = 0;
    while i < records.len()
        invariant
            i <= records.len(),
            rows@.len() == i,
            forall|j: int|
                0 <= j < i ==> (#[trigger] counted_row_views(rows@)[j]) == rows_of_texts(
                    row_views(records@),
                )[j],
        decreases records.len() - i,
    {
        let mut row: Vec<Datum> = Vec::new();
        let mut k: usize = 0;
        while k < records[i].len()
            invariant
                i < records.len(),
                k <= records@[i as int]@.len(),
                row@.len() == k,
                forall|j: int|
                    0 <= j < k ==> (#[trigger] row@[j])@ == DatumView::String(
                        records@[i as int]@[j]@,
                    ),
            decreases records@[i as int]@.len() - k,
        {
            row.push(Datum::String(records[i][k].clone()));
            k = k + 1;
        }
        assert(datum_views(row@) =~= row_views(records@)[i as int].map_values(
            |f: Seq<char>| DatumView::String(f),
        ));
        let ghost before = counted_row_views(rows@);
        rows.push((row, 1));
        assert(counted_row_views(rows@) =~= before.push((datum_views(row@), 1int)));
        assert forall|j: int| 0 <= j < i + 1 implies (#[trigger] counted_row_views(rows@)[j])
            == rows_of_texts(row_views(records@))[j] by {
            if j < i {
                assert(counted_row_views(rows@)[j] == before[j]);
            }
        }
        i = i + 1;
    }
    assert(counted_row_views(rows@) =~= rows_of_texts(row_views(records@)));
    rows
}

/// The values `values` in rows of `width` values each, but for the last
/// row, which holds what is left; each row once.
pub fn wrap(values: &Vec<Datum>, width: usize) -> (rows: Vec<(Vec<Datum>, i64)>)
    requires
        width > 0,
    ensures
        counted_row_views(rows@) == wrapped(datum_views(values@), width as int),
{
    let ghost all = datum_views(values@);
    let mut rows: Vec<(Vec<Datum>, i64)> = Vec::new();
    let mut start: usize = 0;
    assert(all.subrange(0, all.len() as int) =~= all);
    while start < values.len()
        invariant
            start <= values.len(),
            width > 0,
            all == datum_views(values@),
            wrapped(all, width as int) == counted_row_views(rows@) + wrapped(
                all.subrange(start as int, all.len() as int),
                width as int,
            ),
        decreases values.len() - start,
    {
        let end = if values.len() - start <= width {
            values.len()
        } else {
            start + width
        };
        let mut row: Vec<Datum> = Vec::new();
        let mut k: usize = start;
        while k < end
            invariant
                start <= k <= end <= values.len(),
                row@.len() == k - start,
                forall|j: int| 0 <= j < row@.len() ==> (#[trigger] row@[j])@ == values@[start + j]@,
            decreases end - k,
        {
            row.push(values[k].clone());
            k = k + 1;
        }
        let ghost rest = all.subrange(start as int, all.len() as int);
        let ghost before = counted_row_views(rows@);
        proof {
            assert(datum_views(row@) =~= rest.subrange(0, end - start));
            if end == values.len() {
                assert(rest.subrange(0, end - start) =~= rest);
                assert(all.subrange(end as int, all.len() as int) =~= Seq::<DatumView>::empty());
                assert(wrapped(rest, width as int) =~= seq![(rest, 1int)] + wrapped(
                    all.subrange(end as int, all.len() as int),
                    width as int,
                ));
            } else {
                assert(rest.subrange(width as int, rest.len() as int) =~= all.subrange(
                    end as int,
                    all.len() as int,
                ));
            }
        }
        rows.push((row, 1));
        proof {
            assert(counted_row_views(rows@) =~= before.push((datum_views(row@), 1int)));
            assert(wrapped(all, width as int) =~= counted_row_views(rows@) + wrapped(
                all.subrange(end as int, all.len() as int),
                width as int,
            ));
        }
        start = end;
    }
    assert(all.subrange(start as int, all.len() as int) =~= Seq::<DatumView>::empty());
    assert(wrapped(all, width as int) =~= counted_row_views(rows@));
    rows
}

/// One row for each element of the array that `a` is, which holds the
/// element; each row once.
pub fn unnest_array(a: &Datum) -> (rows: Vec<(Vec<Datum>, i64)>)
    requires
        a@ is Array,
    ensures
        counted_row_views(rows@) == rows_of_one(a@->Array_0),
{
    one_per_row(a.unwrap_array())
}

/// One row for each element of the list that `a` is, which holds the
/// element; each row once.
pub fn unnest_list(a: &Datum) -> (rows: Vec<(Vec<Datum>, i64)>)
    requires
        a@ is List,
    ensures
        counted_row_views(rows@) == rows_of_one(a@->List_0),
{
    one_per_row(a.unwrap_list())
}

/// One row for each element of the JSON array that `a` is, which holds the
/// element; each row once. What is no array has no elements.
pub fn jsonb_array_elements(a: &Datum) -> (rows: Vec<(Vec<Datum>, i64)>)
    ensures
        counted_row_views(rows@) == match a@ {
            DatumView::List(elements) => rows_of_one(elements),
            _ => Seq::empty(),
        },
{
    match a {
        Datum::List(_) => one_per_row(a.unwrap_list()),
        _ => {
            let rows: Vec<(Vec<Datum>, i64)> = Vec::new();
            assert(counted_row_views(rows@) =~= Seq::<(Seq<DatumView>, int)>::empty());
            rows
        },
    }
}

/// One row of a key and its value for each of `entries`, each row once.
pub open spec fn rows_of_entries(entries: Seq<(Seq<char>, DatumView)>) -> Seq<
    (Seq<DatumView>, int),
> {
    entries.map_values(|e: (Seq<char>, DatumView)| (seq![DatumView::String(e.0), e.1], 1int))
}

/// One row of a key for each of `entries`, each row once.
pub open spec fn rows_of_keys(entries: Seq<(Seq<char>, DatumView)>) -> Seq<(Seq<DatumView>, int)> {
    entries.map_values(|e: (Seq<char>, DatumView)| (seq![DatumView::String(e.0)], 1int))
}

/// The entries of the JSON object that `a` is; what is no object has none.
pub open spec fn entries_of(a: DatumView) -> Seq<(Seq<char>, DatumView)> {
    match a {
        DatumView::Dict(entries) => entries,
        _ => Seq::empty(),
    }
}

/// One row for each entry of the JSON object that `a` is, which holds the
/// key, and the value too if `values` is set; each row once. What is no
/// object has no entries.
fn entry_rows(a: &Datum, values: bool) -> (rows: Vec<(Vec<Datum>, i64)>)
    ensures
        counted_row_views(rows@) == if values {
            rows_of_entries(entries_of(a@))
        } else {
            rows_of_keys(entries_of(a@))
        },
{
    let mut rows: Vec<(Vec<Datum>, i64)> = Vec::new();
    match a {
        Datum::Dict(_) => {
            let entries = a.unwrap_dict();
            let mut i: usize = 0;
            while i < entries.len()
                invariant
                    i <= entries.len(),
                    rows@.len() == i,
                    forall|j: int|
                        0 <= j < i ==> (#[trigger] rows@[j]).1 == 1 && datum_views(rows@[j].0@)
                            == if values {
                            seq![DatumView::String(entries@[j].0@), entries@[j].1@]
                        } else {
                            seq![DatumView::String(entries@[j].0@)]
                        },
                decreases entries.len() - i,
            {
                let mut row: Vec<Datum> = Vec::new();
                row.push(Datum::String(entries[i].0.clone()));
                if values {
                    row.push(entries[i].1.clone());
                    assert(datum_views(row@) =~= seq![
                        DatumView::String(entries@[i as int].0@),
                        entries@[i as int].1@,
                    ]);
                } else {
                    assert(datum_views(row@) =~= seq![DatumView::String(entries@[i as int].0@)]);
                }
                rows.push((row, 1));
                i = i + 1;
            }
            assert(counted_row_views(rows@) =~= if values {
                rows_of_entries(entry_views(entries@))
            } else {
                rows_of_keys(entry_views(entries@))
            });
        },
        _ => {
            assert(counted_row_views(rows@) =~= Seq::<(Seq<DatumView>, int)>::empty());
            assert(rows_of_entries(entries_of(a@)) =~= Seq::<(Seq<DatumView>, int)>::empty());
            assert(rows_of_keys(entries_of(a@)) =~= Seq::<(Seq<DatumView>, int)>::empty());
        },
    }
    rows
}

/// One row for each entry of the JSON object that `a` is, which holds the
/// key and the value; each row once. What is no object has no entries.
pub fn jsonb_each(a: &Datum) -> (rows: Vec<(Vec<Datum>, i64)>)
    ensures
        counted_row_views(rows@) == rows_of_entries(entries_of(a@)),
{
    entry_rows(a, true)
}

/// One row for each entry of the JSON object that `a` is, which holds the
/// key; each row once. What is no object has no entries.
pub fn jsonb_object_keys(a: &Datum) -> (rows: Vec<(Vec<Datum>, i64)>)
    ensures
        counted_row_views(rows@) == rows_of_keys(entries_of(a@)),
{
    entry_rows(a, false)
}

/// Whether `out` refuses a series because its step is zero.
pub open spec fn refuses_zero_step(out: Result<Option<TableRows>, EvalError>) -> bool {
    out matches Err(EvalError::InvalidParameterValue(message)) && message@
        == "step size cannot equal zero"@
}

/// Whether one of `datums` is null.
pub open spec fn some_null(datums: Seq<Datum>) -> bool {
    exists|i: int| 0 <= i < datums.len() && (#[trigger] datums[i])@ is Null
}

/// Whether one of `datums` is null.
fn has_null(datums: &Vec<Datum>) -> (b: bool)
    ensures
        b == some_null(datums@),
{
    let mut i: usize = 0;
    while i < datums.len()
        invariant
            i <= datums.len(),
            forall|j: int| 0 <= j < i ==> !((#[trigger] datums@[j])@ is Null),
        decreases datums.len() - i,
    {
        if datums[i].is_null() {
            return true;
        }
        i = i + 1;
    }
    false
}

impl TableFunc {
    /// Whether the function is one of those that are evaluated here: all
    /// but the ones that turn JSON into text.
    pub open spec fn is_evaluated(&self) -> bool {
        match self {
            TableFunc::JsonbEach { stringify } => !*stringify,
            TableFunc::JsonbArrayElements { stringify } => !*stringify,
            _ => true,
        }
    }

    /// Whether the function can be evaluated on `datums`: rows have a
    /// width, and unless the function gives nothing because one of `datums`
    /// is null, its arguments are there and of the kinds that it reads.
    pub open spec fn takes(&self, datums: Seq<Datum>) -> bool {
        match self {
            TableFunc::Wrap { width, .. } => *width > 0,
            _ => !self.is_evaluated() || some_null(datums) || match self {
                TableFunc::RegexpExtract(_) | TableFunc::CsvExtract(_) => datums.len() >= 1
                    && datums[0]@ is String,
                TableFunc::GenerateSeriesInt32 => datums.len() >= 3 && datums[0]@ is Int32
                    && datums[1]@ is Int32 && datums[2]@ is Int32,
                TableFunc::GenerateSeriesInt64 => datums.len() >= 3 && datums[0]@ is Int64
                    && datums[1]@ is Int64 && datums[2]@ is Int64,
                TableFunc::GenerateSeriesTimestamp => datums.len() >= 3 && datums[0]@ is Timestamp
                    && datums[1]@ is Timestamp && datums[2]@ is Interval,
                TableFunc::GenerateSeriesTimestampTz => datums.len() >= 3 && datums[0]@
                    is TimestampTz && datums[1]@ is TimestampTz && datums[2]@ is Interval,
                TableFunc::GenerateSubscriptsArray => datums.len() >= 2 && datums[0]@ is Array
                    && datums[1]@ is Int32,
                TableFunc::Repeat => datums.len() >= 1 && datums[0]@ is Int64,
                TableFunc::UnnestArray { .. } => datums.len() >= 1 && datums[0]@ is Array,
                TableFunc::UnnestList { .. } => datums.len() >= 1 && datums[0]@ is List,
                TableFunc::JsonbArrayElements { .. } => datums.len() >= 1,
                TableFunc::JsonbEach { .. } => datums.len() >= 1,
                TableFunc::JsonbObjectKeys => datums.len() >= 1,
                _ => true,
            },
        }
    }

    /// Whether `out` is what evaluating the function on `datums` gives.
    ///
    /// Every function but `Wrap` gives no rows if one of `datums` is null.
    /// Otherwise a function that is not evaluated here gives nothing to go
    /// by; a series, of numbers or of timestamps, is the series from
    /// its first argument to its second in steps of its third, and is
    /// refused, with the message that says so, if the step is zero; the
    /// subscripts of an array are the series from one to its length, or no
    /// rows for a dimension that it does not have; `Repeat` gives the empty
    /// row as often as its argument says, or no rows if that is zero; the
    /// elements of an array or a list and the entries or the keys of a JSON
    /// object come one per row; the records of a CSV
    /// text that have the number of fields asked for come one per row; what
    /// a regular expression captures at its first match comes as one row, or
    /// as no rows if there is no match; and `Wrap` gives its arguments in
    /// rows of its width.
    pub open spec fn is_result(
        &self,
        datums: Seq<Datum>,
        out: Result<Option<TableRows>, EvalError>,
    ) -> bool {
        if !(self is Wrap) && some_null(datums) {
            out matches Ok(Some(TableRows::Rows(rows))) && rows@.len() == 0
        } else if !self.is_evaluated() {
            out matches Ok(None)
        } else {
            match self {
                TableFunc::RegexpExtract(a) => {
                    &&& out matches Ok(Some(TableRows::Rows(rows)))
                    &&& counted_row_views(rows@) == rows_of_match(
                        extracted(regex_captures_of(a.pattern(), datums[0]@->String_0)),
                    )
                },
                TableFunc::CsvExtract(n_cols) => {
                    &&& out matches Ok(Some(TableRows::Rows(rows)))
                    &&& counted_row_views(rows@) == rows_of_texts(
                        selected_records(csv_records_of(datums[0]@->String_0), *n_cols),
                    )
                },
                TableFunc::GenerateSeriesInt32 => if datums[2]@->Int32_0 == 0 {
                    refuses_zero_step(out)
                } else {
                    out matches Ok(Some(TableRows::Series { series, wide })) && !wide && series
                        == (RangeStepInclusive {
                        state: datums[0]@->Int32_0 as i64,
                        stop: datums[1]@->Int32_0 as i64,
                        step: datums[2]@->Int32_0 as i64,
                        rev: datums[2]@->Int32_0 < 0,
                        done: false,
                        lowest: i32::MIN as i64,
                        highest: i32::MAX as i64,
                    })
                },
                TableFunc::GenerateSeriesInt64 => if datums[2]@->Int64_0 == 0 {
                    refuses_zero_step(out)
                } else {
                    out matches Ok(Some(TableRows::Series { series, wide })) && wide && series
                        == (RangeStepInclusive {
                        state: datums[0]@->Int64_0,
                        stop: datums[1]@->Int64_0,
                        step: datums[2]@->Int64_0,
                        rev: datums[2]@->Int64_0 < 0,
                        done: false,
                        lowest: i64::MIN,
                        highest: i64::MAX,
                    })
                },
                TableFunc::GenerateSeriesTimestamp => if datums[2]@->Interval_0.spec_as_microseconds()
                    == 0 {
                    refuses_zero_step(out)
                } else {
                    out matches Ok(Some(TableRows::TimestampSeries { series, with_zone }))
                        && !with_zone && series == (TimestampRangeStepInclusive {
                        state: datums[0]@->Timestamp_0,
                        stop: datums[1]@->Timestamp_0,
                        step: datums[2]@->Interval_0,
                        rev: datums[2]@->Interval_0.spec_as_microseconds() < 0,
                        done: false,
                    })
                },
                TableFunc::GenerateSeriesTimestampTz => if datums[2]@->Interval_0.spec_as_microseconds()
                    == 0 {
                    refuses_zero_step(out)
                } else {
                    out matches Ok(Some(TableRows::TimestampSeries { series, with_zone }))
                        && with_zone && series == (TimestampRangeStepInclusive {
                        state: datums[0]@->TimestampTz_0,
                        stop: datums[1]@->TimestampTz_0,
                        step: datums[2]@->Interval_0,
                        rev: datums[2]@->Interval_0.spec_as_microseconds() < 0,
                        done: false,
                    })
                },
                TableFunc::GenerateSubscriptsArray => if datums[1]@->Int32_0 != 1 {
                    out matches Ok(Some(TableRows::Rows(rows))) && rows@.len() == 0
                } else if datums[0]@->Array_0.len() > i32::MAX {
                    out matches Err(EvalError::Int32OutOfRange)
                } else {
                    out matches Ok(Some(TableRows::Series { series, wide })) && !wide && series
                        == (RangeStepInclusive {
                        state: 1,
                        stop: datums[0]@->Array_0.len() as i64,
                        step: 1,
                        rev: false,
                        done: false,
                        lowest: i32::MIN as i64,
                        highest: i32::MAX as i64,
                    })
                },
                TableFunc::Repeat => {
                    &&& out matches Ok(Some(TableRows::Rows(rows)))
                    &&& counted_row_views(rows@) == if datums[0]@->Int64_0 == 0 {
                        Seq::<(Seq<DatumView>, int)>::empty()
                    } else {
                        seq![(Seq::<DatumView>::empty(), datums[0]@->Int64_0 as int)]
                    }
                },
                TableFunc::UnnestArray { .. } => {
                    &&& out matches Ok(Some(TableRows::Rows(rows)))
                    &&& counted_row_views(rows@) == rows_of_one(datums[0]@->Array_0)
                },
                TableFunc::UnnestList { .. } => {
                    &&& out matches Ok(Some(TableRows::Rows(rows)))
                    &&& counted_row_views(rows@) == rows_of_one(datums[0]@->List_0)
                },
                TableFunc::JsonbArrayElements { .. } => {
                    &&& out matches Ok(Some(TableRows::Rows(rows)))
                    &&& counted_row_views(rows@) == match datums[0]@ {
                        DatumView::List(elements) => rows_of_one(elements),
                        _ => Seq::empty(),
                    }
                },
                TableFunc::JsonbEach { .. } => {
                    &&& out matches Ok(Some(TableRows::Rows(rows)))
                    &&& counted_row_views(rows@) == rows_of_entries(entries_of(datums[0]@))
                },
                TableFunc::JsonbObjectKeys => {
                    &&& out matches Ok(Some(TableRows::Rows(rows)))
                    &&& counted_row_views(rows@) == rows_of_keys(entries_of(datums[0]@))
                },
                TableFunc::Wrap { width, .. } => {
                    &&& out matches Ok(Some(TableRows::Rows(rows)))
                    &&& counted_row_views(rows@) == wrapped(datum_views(datums), *width as int)
                },
                _ => out matches Ok(None),
            }
        }
    }

    /// Evaluates the function on `datums`, if it is one of those that are
    /// evaluated here.
    pub fn eval(&self, datums: &Vec<Datum>) -> (out: Result<Option<TableRows>, EvalError>)
        requires
            self.takes(datums@),
        ensures
            self.is_result(datums@, out),
    {
        if self.empty_on_null_input() && has_null(datums) {
            return Ok(Some(TableRows::Rows(Vec::new())));
        }
        match self {
            TableFunc::JsonbEach { stringify } => {
                if *stringify {
                    return Ok(None);
                }
            },
            TableFunc::JsonbArrayElements { stringify } => {
                if *stringify {
                    return Ok(None);
                }
            },
            _ => {},
        }
        match self {
            TableFunc::RegexpExtract(a) => {
                let mut rows: Vec<(Vec<Datum>, i64)> = Vec::new();
                match &datums[0] {
                    Datum::String(text) => {
                        match regexp_extract(text.as_str(), a) {
                            Some(fields) => {
                                let mut row: Vec<Datum> = Vec::new();
                                let mut k: usize = 0;
                                while k < fields.len()
                                    invariant
                                        k <= fields.len(),
                                        row@.len() == k,
                                        forall|j: int|
                                            0 <= j < k ==> (#[trigger] row@[j])@ == field_datum(
                                                text_view(fields@[j]),
                                            ),
                                    decreases fields.len() - k,
                                {
                                    match &fields[k] {
                                        Some(field) => {
                                            row.push(Datum::String(field.clone()));
                                        },
                                        None => {
                                            row.push(Datum::Null);
                                        },
                                    }
                                    k = k + 1;
                                }
                                assert(datum_views(row@) =~= text_views(fields@).map_values(
                                    |f: Option<Seq<char>>| field_datum(f),
                                ));
                                rows.push((row, 1));
                                assert(counted_row_views(rows@) =~= rows_of_match(
                                    match_view(Some(fields)),
                                ));
                            },
                            None => {
                                assert(counted_row_views(rows@) =~= rows_of_match(None));
                            },
                        }
                    },
                    _ => {},
                }
                Ok(Some(TableRows::Rows(rows)))
            },
            TableFunc::CsvExtract(n_cols) => match &datums[0] {
                Datum::String(text) => Ok(
                    Some(TableRows::Rows(text_rows(csv_extract(text.as_str(), *n_cols)))),
                ),
                _ => Ok(None),
            },
            TableFunc::GenerateSeriesInt32 => match (&datums[0], &datums[1], &datums[2]) {
                (Datum::Int32(start), Datum::Int32(stop), Datum::Int32(step)) => {
                    match generate_series_int32(*start, *stop, *step) {
                        Ok(series) => Ok(Some(TableRows::Series { series, wide: false })),
                        Err(e) => Err(e),
                    }
                },
                _ => Ok(None),
            },
            TableFunc::GenerateSeriesInt64 => match (&datums[0], &datums[1], &datums[2]) {
                (Datum::Int64(start), Datum::Int64(stop), Datum::Int64(step)) => {
                    match generate_series_int64(*start, *stop, *step) {
                        Ok(series) => Ok(Some(TableRows::Series { series, wide: true })),
                        Err(e) => Err(e),
                    }
                },
                _ => Ok(None),
            },
            TableFunc::GenerateSeriesTimestamp => match (&datums[0], &datums[1], &datums[2]) {
                (Datum::Timestamp(start), Datum::Timestamp(stop), Datum::Interval(step)) => {
                    match generate_series_ts(*start, *stop, *step) {
                        Ok(series) => Ok(
                            Some(TableRows::TimestampSeries { series, with_zone: false }),
                        ),
                        Err(e) => Err(e),
                    }
                },
                _ => Ok(None),
            },
            TableFunc::GenerateSeriesTimestampTz => match (&datums[0], &datums[1], &datums[2]) {
                (Datum::TimestampTz(start), Datum::TimestampTz(stop), Datum::Interval(step)) => {
                    match generate_series_ts(*start, *stop, *step) {
                        Ok(series) => Ok(
                            Some(TableRows::TimestampSeries { series, with_zone: true }),
                        ),
                        Err(e) => Err(e),
                    }
                },
                _ => Ok(None),
            },
            TableFunc::GenerateSubscriptsArray => match &datums[1] {
                Datum::Int32(dim) => {
                    proof {
                        assert(datums@[0]@ is Array);
                        assert(datums@[0] is Array);
                        lemma_view_of_elements(datums@[0]->Array_0);
                    }
                    match generate_subscripts_array(&datums[0], *dim) {
                        Ok(Some(series)) => Ok(Some(TableRows::Series { series, wide: false })),
                        Ok(None) => Ok(Some(TableRows::Rows(Vec::new()))),
                        Err(e) => Err(e),
                    }
                },
                _ => Ok(None),
            },
            TableFunc::Repeat => match &datums[0] {
                Datum::Int64(n) => {
                    let mut rows: Vec<(Vec<Datum>, i64)> = Vec::new();
                    match repeat(*n) {
                        Some(times) => {
                            rows.push((Vec::new(), times));
                            assert(datum_views(rows@[0].0@) =~= Seq::<DatumView>::empty());
                            assert(counted_row_views(rows@) =~= seq![
                                (Seq::<DatumView>::empty(), *n as int),
                            ]);
                        },
                        None => {
                            assert(counted_row_views(rows@) =~= Seq::<
                                (Seq<DatumView>, int),
                            >::empty());
                        },
                    }
                    Ok(Some(TableRows::Rows(rows)))
                },
                _ => Ok(None),
            },
            TableFunc::UnnestArray { .. } => Ok(Some(TableRows::Rows(unnest_array(&datums[0])))),
            TableFunc::UnnestList { .. } => Ok(Some(TableRows::Rows(unnest_list(&datums[0])))),
            TableFunc::JsonbArrayElements { .. } => Ok(
                Some(TableRows::Rows(jsonb_array_elements(&datums[0]))),
            ),
            TableFunc::JsonbEach { .. } => Ok(Some(TableRows::Rows(jsonb_each(&datums[0])))),
            TableFunc::JsonbObjectKeys => Ok(Some(TableRows::Rows(jsonb_object_keys(&datums[0])))),
            TableFunc::Wrap { width, .. } => Ok(Some(TableRows::Rows(wrap(datums, *width)))),
            _ => Ok(None),
        }
    }
}

/// The timestamp that `chrono` gives for the timestamp `micros` and the
/// number of months `months` added to it, if it gives one. Timestamps are
/// in microseconds since the beginning of 1970.
pub uninterp spec fn months_added(micros: i64, months: u32) -> Option<i64>;

/// The timestamp that `chrono` gives for the timestamp `micros` and the
/// number of months `months` taken off it, if it gives one.
pub uninterp spec fn months_taken(micros: i64, months: u32) -> Option<i64>;

/// The first timestamp that `chrono` can tell: the beginning of the first
/// day of the year 262144 BCE.
pub const FIRST_TIMESTAMP: i64 = -8_334_601_228_800_000_000;

/// The last timestamp that `chrono` can tell: the last microsecond of the
/// last day of the year 262142 CE.
pub const LAST_TIMESTAMP: i64 = 8_210_266_876_799_999_999;

/// Whether `micros` is a timestamp that `chrono` can tell.
pub open spec fn can_be_told(micros: int) -> bool {
    FIRST_TIMESTAMP <= micros <= LAST_TIMESTAMP
}

/// The timestamp `micros` with the number of microseconds `delta` added to
/// it, if both are timestamps that can be told.
pub open spec fn micros_added(micros: i64, delta: i64) -> Option<i64> {
    if can_be_told(micros as int) && can_be_told(micros + delta) {
        Some((micros + delta) as i64)
    } else {
        None
    }
}

/// Adds `months` months to the timestamp `micros` with
/// `chrono::NaiveDateTime::checked_add_months`.
///
/// The contract only names the outcome: what comes out depends on the two
/// numbers alone. There is none if either timestamp is outside the range of
/// dates that `chrono` can tell.
#[verifier::external_body]
fn add_months(micros: i64, months: u32) -> (sum: Option<i64>)
    ensures
        sum == months_added(micros, months),
{
    chrono::DateTime::from_timestamp_micros(micros)?
        .naive_utc()
        .checked_add_months(chrono::Months::new(months))
        .map(|time| time.and_utc().timestamp_micros())
}

/// Takes `months` months off the timestamp `micros` with
/// `chrono::NaiveDateTime::checked_sub_months`.
///
/// The contract only names the outcome: what comes out depends on the two
/// numbers alone. There is none if either timestamp is outside the range of
/// dates that `chrono` can tell.
#[verifier::external_body]
fn sub_months(micros: i64, months: u32) -> (difference: Option<i64>)
    ensures
        difference == months_taken(micros, months),
{
    chrono::DateTime::from_timestamp_micros(micros)?
        .naive_utc()
        .checked_sub_months(chrono::Months::new(months))
        .map(|time| time.and_utc().timestamp_micros())
}

/// Adds `delta` microseconds to the timestamp `micros` with
/// `chrono::NaiveDateTime::checked_add_signed`.
///
/// The contract claims that the sum comes out, and that there is none if
/// and only if the timestamp or the sum is outside the range of dates that
/// `chrono` can tell, which `chrono::NaiveDate::MIN` and `MAX` bound.
#[verifier::external_body]
fn add_micros(micros: i64, delta: i64) -> (sum: Option<i64>)
    ensures
        sum == micros_added(micros, delta),
{
    chrono::DateTime::from_timestamp_micros(micros)?
        .naive_utc()
        .checked_add_signed(chrono::TimeDelta::microseconds(delta))
        .map(|time| time.and_utc().timestamp_micros())
}

/// The timestamp `micros` moved by `months` months: forward if the number
/// is positive, back if it is negative.
pub open spec fn months_moved(micros: i64, months: i32) -> Option<i64> {
    if months >= 0 {
        months_added(micros, months as u32)
    } else {
        months_taken(micros, (-months) as u32)
    }
}

/// Moves the timestamp `micros` by `months` months: forward if the number
/// is positive, back if it is negative.
pub fn add_timestamp_months(micros: i64, months: i32) -> (moved: Option<i64>)
    ensures
        moved == months_moved(micros, months),
{
    if months >= 0 {
        add_months(micros, months as u32)
    } else {
        sub_months(micros, (-(months as i64)) as u32)
    }
}

/// The timestamps from `state` to `stop`, both included, in steps of
/// `step`, as far as they are dates that can be told.
#[derive(Clone, Copy, Debug, PartialEq, Eq, Structural)]
pub struct TimestampRangeStepInclusive {
    /// The timestamp to give next.
    pub state: i64,
    /// The timestamp at which to stop.
    pub stop: i64,
    /// The span between one timestamp and the next.
    pub step: Interval,
    /// Whether the timestamps go back in time.
    pub rev: bool,
    /// Whether the timestamp that followed the last one given could not be
    /// told.
    pub done: bool,
}

impl TimestampRangeStepInclusive {
    /// Whether the series has a timestamp left to give.
    pub open spec fn has_next(self) -> bool {
        !self.done && if self.rev {
            self.state >= self.stop
        } else {
            self.state <= self.stop
        }
    }

    /// The timestamp that follows `state` at the distance of `step`: the
    /// months, if there are any, are added first and the microseconds to
    /// what that gives.
    pub open spec fn following(state: i64, step: Interval) -> Option<i64> {
        if step.months == 0 {
            micros_added(state, step.micros)
        } else {
            match months_moved(state, step.months) {
                Some(moved) => micros_added(moved, step.micros),
                None => None,
            }
        }
    }

    /// The series after it has given its next timestamp.
    pub open spec fn advanced(self) -> TimestampRangeStepInclusive {
        match Self::following(self.state, self.step) {
            Some(state) => TimestampRangeStepInclusive { state, ..self },
            None => TimestampRangeStepInclusive { done: true, ..self },
        }
    }

    /// Gives the next timestamp of the series, if there is one left.
    pub fn next(&mut self) -> (timestamp: Option<i64>)
        ensures
            old(self).has_next() ==> timestamp == Some(old(self).state) && *final(self) == old(
                self,
            ).advanced(),
            !old(self).has_next() ==> timestamp is None && *final(self) == *old(self),
    {
        if !self.done && ((self.rev && self.state >= self.stop) || (!self.rev && self.state
            <= self.stop)) {
            let result = self.state;
            let moved = if self.step.months == 0 {
                Some(self.state)
            } else {
                add_timestamp_months(self.state, self.step.months)
            };
            match moved {
                Some(moved) => match add_micros(moved, self.step.micros) {
                    Some(state) => {
                        self.state = state;
                    },
                    None => {
                        self.done = true;
                    },
                },
                None => {
                    self.done = true;
                },
            }
            Some(result)
        } else {
            None
        }
    }
}

/// A series whose step has no months gives timestamps that are as many
/// microseconds apart as the step has, for as long as timestamps are left,
/// and none that cannot be told.
pub proof fn lemma_timestamp_series_counts_in_steps(series: TimestampRangeStepInclusive)
    requires
        series.step.months == 0,
        series.has_next(),
        series.advanced().has_next(),
    ensures
        series.advanced().state == series.state + series.step.micros,
        can_be_told(series.advanced().state as int),
{
}

/// The timestamps from `start` to `stop`, both included, in steps of
/// `step`; refused if the step, a month taken as thirty days, is zero.
pub fn generate_series_ts(start: i64, stop: i64, step: Interval) -> (result: Result<
    TimestampRangeStepInclusive,
    EvalError,
>)
    ensures
        match result {
            Ok(series) => step.spec_as_microseconds() != 0 && series
                == (TimestampRangeStepInclusive {
                state: start,
                stop,
                step,
                rev: step.spec_as_microseconds() < 0,
                done: false,
            }),
            Err(e) => {
                &&& step.spec_as_microseconds() == 0
                &&& e matches EvalError::InvalidParameterValue(message)
                &&& message@ == "step size cannot equal zero"@
            },
        },
{
    let normalized_step = step.as_microseconds();
    if normalized_step == 0 {
        return Err(EvalError::InvalidParameterValue(String::from_str("step size cannot equal zero")));
    }
    Ok(
        TimestampRangeStepInclusive {
            state: start,
            stop,
            step,
            rev: normalized_step < 0,
            done: false,
        },
    )
}

} // verus!
