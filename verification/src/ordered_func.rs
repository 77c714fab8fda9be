//! Aggregations over ordered input.
//!
//! Each row of input is a list: its first element is what is aggregated,
//! the others are what the input is ordered by. The functions here take the
//! rows in order; putting them in order is for the caller.

use vstd::prelude::*;
use vstd::utf8::{encode_utf8, encode_utf8_decode_utf8};
use crate::func::{
    are_rows, bytes_le, expr, expr_of, exprs_of, is_row, lemma_text_le_is_total_order, order_of,
    text_le,
};
use crate::repr::{
    clone_datums, datum_views, entry_views, lemma_view_of_elements, lemma_view_of_entries,
    same_values, Datum, DatumView,
};

verus! {

/// The values among `exprs` that are not null, in order.
pub open spec fn without_nulls(exprs: Seq<DatumView>) -> Seq<DatumView>
    decreases exprs.len(),
{
    if exprs.len() == 0 {
        Seq::empty()
    } else if exprs.last() is Null {
        without_nulls(exprs.drop_last())
    } else {
        without_nulls(exprs.drop_last()).push(exprs.last())
    }
}

/// The elements of the list or of the array that `datum` is.
pub open spec fn elements_of(datum: DatumView) -> Seq<DatumView> {
    match datum {
        DatumView::List(elements) => elements,
        DatumView::Array(elements) => elements,
        _ => Seq::empty(),
    }
}

/// The elements of each of `exprs`, one after the other.
pub open spec fn concatenated(exprs: Seq<DatumView>) -> Seq<DatumView>
    decreases exprs.len(),
{
    if exprs.len() == 0 {
        Seq::empty()
    } else {
        concatenated(exprs.drop_last()) + elements_of(exprs.last())
    }
}

/// Collects what the rows `datums` hold into a list, in the order of the
/// rows, leaving nulls out.
pub fn jsonb_agg(datums: &Vec<Datum>) -> (out: Datum)
    requires
        are_rows(datums@),
    ensures
        out@ == DatumView::List(without_nulls(exprs_of(datum_views(datums@)))),
{
    let mut kept: Vec<Datum> = Vec::new();
    let mut i: usize = 0;
    let ghost all = exprs_of(datum_views(datums@));
    assert(all.subrange(0, 0) =~= Seq::<DatumView>::empty());
    while i < datums.len()
        invariant
            i <= datums.len(),
            are_rows(datums@),
            all == exprs_of(datum_views(datums@)),
            datum_views(kept@) == without_nulls(all.subrange(0, i as int)),
        decreases datums.len() - i,
    {
        proof {
            let upto = all.subrange(0, i + 1);
            assert(upto.drop_last() =~= all.subrange(0, i as int));
            assert(upto.last() == expr_of(datums@[i as int]@));
        }
        let ghost before = datum_views(kept@);
        let e = expr(&datums[i]);
        if !e.is_null() {
            kept.push(e.clone());
            assert(datum_views(kept@) =~= before.push(e@));
        }
        i = i + 1;
    }
    assert(all.subrange(0, i as int) =~= all);
    proof {
        lemma_view_of_elements(kept);
    }
    Datum::List(kept)
}

/// The elements of what each of the rows `datums` holds, one after the
/// other, where each row holds a list if `lists` is set and an array
/// otherwise.
fn concatenate(datums: &Vec<Datum>, lists: bool) -> (elements: Vec<Datum>)
    requires
        are_rows(datums@),
        forall|i: int|
            0 <= i < datums@.len() ==> if lists {
                expr_of((#[trigger] datums@[i])@) is List
            } else {
                expr_of(datums@[i]@) is Array
            },
    ensures
        datum_views(elements@) == concatenated(exprs_of(datum_views(datums@))),
{
    let mut elements: Vec<Datum> = Vec::new();
    let mut i: usize = 0;
    let ghost all = exprs_of(datum_views(datums@));
    assert(all.subrange(0, 0) =~= Seq::<DatumView>::empty());
    while i < datums.len()
        invariant
            i <= datums.len(),
            are_rows(datums@),
            forall|i: int|
                0 <= i < datums@.len() ==> if lists {
                    expr_of((#[trigger] datums@[i])@) is List
                } else {
                    expr_of(datums@[i]@) is Array
                },
            all == exprs_of(datum_views(datums@)),
            datum_views(elements@) == concatenated(all.subrange(0, i as int)),
        decreases datums.len() - i,
    {
        proof {
            let upto = all.subrange(0, i + 1);
            assert(upto.drop_last() =~= all.subrange(0, i as int));
            assert(upto.last() == expr_of(datums@[i as int]@));
        }
        let ghost before = datum_views(elements@);
        let e = expr(&datums[i]);
        let mut more = if lists {
            clone_datums(e.unwrap_list())
        } else {
            clone_datums(e.unwrap_array())
        };
        let ghost added = datum_views(more@);
        elements.append(&mut more);
        assert(datum_views(elements@) =~= before + added);
        i = i + 1;
    }
    assert(all.subrange(0, i as int) =~= all);
    elements
}

/// Whether what each of the rows `datums` holds is a list.
pub open spec fn hold_lists(datums: Seq<Datum>) -> bool {
    forall|i: int|
        0 <= i < datums.len() ==> is_row((#[trigger] datums[i])@) && expr_of(datums[i]@) is List
}

/// Whether what each of the rows `datums` holds is an array.
pub open spec fn hold_arrays(datums: Seq<Datum>) -> bool {
    forall|i: int|
        0 <= i < datums.len() ==> is_row((#[trigger] datums[i])@) && expr_of(datums[i]@) is Array
}

/// Concatenates the lists that the rows `datums` hold, in the order of the
/// rows.
pub fn list_concat(datums: &Vec<Datum>) -> (out: Datum)
    requires
        hold_lists(datums@),
    ensures
        out@ == DatumView::List(concatenated(exprs_of(datum_views(datums@)))),
{
    let elements = concatenate(datums, true);
    proof {
        lemma_view_of_elements(elements);
    }
    Datum::List(elements)
}

/// Concatenates the arrays that the rows `datums` hold, in the order of the
/// rows.
pub fn array_concat(datums: &Vec<Datum>) -> (out: Datum)
    requires
        hold_arrays(datums@),
    ensures
        out@ == DatumView::Array(concatenated(exprs_of(datum_views(datums@)))),
{
    let elements = concatenate(datums, false);
    proof {
        lemma_view_of_elements(elements);
    }
    Datum::Array(elements)
}

/// The list of the two values `first` and `second`.
pub open spec fn pair_of(first: DatumView, second: DatumView) -> DatumView {
    DatumView::List(seq![first, second])
}

/// The list of the two values `first` and `second`.
fn pair(first: Datum, second: Datum) -> (out: Datum)
    ensures
        out@ == pair_of(first@, second@),
{
    let mut elements: Vec<Datum> = Vec::new();
    elements.push(first);
    elements.push(second);
    proof {
        lemma_view_of_elements(elements);
        assert(datum_views(elements@) =~= seq![first@, second@]);
    }
    Datum::List(elements)
}

/// The records `records`, each paired with its number, counted from one.
pub open spec fn numbered(records: Seq<DatumView>) -> Seq<DatumView> {
    Seq::new(records.len(), |i: int| pair_of(DatumView::Int64((i + 1) as i64), records[i]))
}

/// Numbers the records of the lists that the rows `datums` hold, in the
/// order of the rows and from one: gives the list of the pairs of a number
/// and its record.
pub fn row_number(datums: &Vec<Datum>) -> (out: Datum)
    requires
        hold_lists(datums@),
        concatenated(exprs_of(datum_views(datums@))).len() <= i64::MAX,
    ensures
        out@ == DatumView::List(numbered(concatenated(exprs_of(datum_views(datums@))))),
{
    let mut records = concatenate(datums, true);
    let ghost all = datum_views(records@);
    let mut pairs: Vec<Datum> = Vec::new();
    let mut i: usize = 0;
    while i < records.len()
        invariant
            i <= records@.len(),
            records@.len() == all.len(),
            all.len() <= i64::MAX,
            pairs@.len() == i,
            forall|j: int| i <= j < records@.len() ==> (#[trigger] records@[j])@ == all[j],
            forall|j: int| 0 <= j < i ==> (#[trigger] pairs@[j])@ == numbered(all)[j],
        decreases records@.len() - i,
    {
        let mut record = Datum::Null;
        assert(records@[i as int]@ == all[i as int]);
        core::mem::swap(&mut record, &mut records[i]);
        pairs.push(pair(Datum::Int64((i + 1) as i64), record));
        i = i + 1;
    }
    proof {
        lemma_view_of_elements(pairs);
        assert(datum_views(pairs@) =~= numbered(all));
    }
    Datum::List(pairs)
}

/// The records of the lists that the rows `datums` hold, in the order of
/// the rows, each with what its row is ordered by.
pub open spec fn ordered_records(datums: Seq<DatumView>) -> Seq<(DatumView, Seq<DatumView>)>
    decreases datums.len(),
{
    if datums.len() == 0 {
        Seq::empty()
    } else {
        ordered_records(datums.drop_last()) + elements_of(expr_of(datums.last())).map_values(
            |record: DatumView| (record, order_of(datums.last())),
        )
    }
}

/// The rank of the record at place `i`: one for the first record, and for
/// every other the rank of the record before it, or that rank and one if
/// the two are not ordered alike.
pub open spec fn dense_rank_of(records: Seq<(DatumView, Seq<DatumView>)>, i: int) -> int
    decreases i,
{
    if i <= 0 {
        1
    } else if records[i].1 == records[i - 1].1 {
        dense_rank_of(records, i - 1)
    } else {
        dense_rank_of(records, i - 1) + 1
    }
}

/// The records `records`, each paired with its rank.
pub open spec fn ranked(records: Seq<(DatumView, Seq<DatumView>)>) -> Seq<DatumView> {
    Seq::new(
        records.len(),
        |i: int| pair_of(DatumView::Int64(dense_rank_of(records, i) as i64), records[i].0),
    )
}

/// No rank is less than one or greater than the number of records up to
/// the place that it is the rank of.
pub proof fn lemma_dense_rank_bounds(records: Seq<(DatumView, Seq<DatumView>)>, i: int)
    requires
        0 <= i,
    ensures
        1 <= dense_rank_of(records, i) <= i + 1,
    decreases i,
{
    if i > 0 {
        lemma_dense_rank_bounds(records, i - 1);
    }
}

/// What the row `datum` is ordered by.
fn order_row(datum: &Datum) -> (order: Vec<Datum>)
    requires
        is_row(datum@),
    ensures
        datum_views(order@) == order_of(datum@),
{
    let elements = datum.unwrap_list();
    let mut order: Vec<Datum> = Vec::new();
    let mut k: usize = 1;
    while k < elements.len()
        invariant
            1 <= k <= elements@.len(),
            order@.len() == k - 1,
            forall|j: int| 0 <= j < order@.len() ==> (#[trigger] order@[j])@ == elements@[j + 1]@,
        decreases elements@.len() - k,
    {
        order.push(elements[k].clone());
        k = k + 1;
    }
    assert(datum_views(order@) =~= datum_views(elements@).subrange(
        1,
        datum_views(elements@).len() as int,
    ));
    order
}

/// Ranks the records of the lists that the rows `datums` hold, in the
/// order of the rows: the first record has rank one, and the rank grows by
/// one wherever a record is not ordered like the one before it. Gives the
/// list of the pairs of a rank and its record.
pub fn dense_rank(datums: &Vec<Datum>) -> (out: Datum)
    requires
        hold_lists(datums@),
        ordered_records(datum_views(datums@)).len() <= i64::MAX,
    ensures
        out@ == DatumView::List(ranked(ordered_records(datum_views(datums@)))),
{
    let ghost rows = datum_views(datums@);
    let ghost all = ordered_records(rows);
    let mut pairs: Vec<Datum> = Vec::new();
    let mut previous: Option<Vec<Datum>> = None;
    let mut rank: i64 = 1;
    let mut i: usize = 0;
    assert(rows.subrange(0, 0) =~= Seq::<DatumView>::empty());
    while i < datums.len()
        invariant
            i <= datums.len(),
            hold_lists(datums@),
            rows == datum_views(datums@),
            all == ordered_records(rows),
            all.len() <= i64::MAX,
            ordered_records(rows.subrange(0, i as int)).len() <= all.len(),
            datum_views(pairs@) == ranked(all).subrange(
                0,
                ordered_records(rows.subrange(0, i as int)).len() as int,
            ),
            pairs@.len() == ordered_records(rows.subrange(0, i as int)).len(),
            ordered_records(rows.subrange(0, i as int)) == all.subrange(
                0,
                ordered_records(rows.subrange(0, i as int)).len() as int,
            ),
            match previous {
                None => pairs@.len() == 0,
                Some(order) => pairs@.len() > 0 && datum_views(order@) == all[pairs@.len() - 1].1
                    && rank == dense_rank_of(all, pairs@.len() - 1),
            },
            previous is None ==> rank == 1,
        decreases datums.len() - i,
    {
        let ghost done = ordered_records(rows.subrange(0, i as int));
        proof {
            let upto = rows.subrange(0, i + 1);
            assert(upto.drop_last() =~= rows.subrange(0, i as int));
            assert(upto.last() == datums@[i as int]@);
            lemma_ordered_records_prefix(rows, i + 1);
        }
        let ghost next = ordered_records(rows.subrange(0, i + 1));
        let records = expr(&datums[i]).unwrap_list();
        let order = order_row(&datums[i]);
        let mut k: usize = 0;
        while k < records.len()
            invariant
                k <= records@.len(),
                done.len() + records@.len() == next.len(),
                next.len() <= all.len(),
                all.len() <= i64::MAX,
                next == all.subrange(0, next.len() as int),
                forall|j: int|
                    0 <= j < records@.len() ==> (#[trigger] next[done.len() + j]) == (
                        records@[j]@,
                        datum_views(order@),
                    ),
                datum_views(pairs@) == ranked(all).subrange(0, done.len() + k),
                pairs@.len() == done.len() + k,
                match previous {
                    None => pairs@.len() == 0,
                    Some(kept) => pairs@.len() > 0 && datum_views(kept@) == all[pairs@.len() - 1].1
                        && rank == dense_rank_of(all, pairs@.len() - 1),
                },
                previous is None ==> rank == 1,
            decreases records@.len() - k,
        {
            let ghost at = done.len() + k;
            let ghost before = datum_views(pairs@);
            proof {
                assert(at < next.len());
                assert(all[at] == next[at]);
                assert(next[done.len() + k] == (records@[k as int]@, datum_views(order@)));
                assert(all[at].1 == datum_views(order@));
                lemma_dense_rank_bounds(all, at);
                if at > 0 {
                    lemma_dense_rank_bounds(all, at - 1);
                    assert(previous is Some);
                }
            }
            match &previous {
                Some(kept) => {
                    if !same_values(kept, &order) {
                        rank = rank + 1;
                    }
                },
                None => {},
            }
            assert(rank == dense_rank_of(all, at));
            pairs.push(pair(Datum::Int64(rank), records[k].clone()));
            previous = Some(clone_datums(&order));
            assert(datum_views(pairs@) =~= before.push(ranked(all)[at]));
            assert(datum_views(pairs@) =~= ranked(all).subrange(0, at + 1));
            k = k + 1;
        }
        i = i + 1;
    }
    assert(rows.subrange(0, i as int) =~= rows);
    proof {
        lemma_view_of_elements(pairs);
        assert(datum_views(pairs@) =~= ranked(all));
    }
    Datum::List(pairs)
}

/// The records of the first `n` rows are the first of the records of all
/// rows, and those of the `n`-th row follow those of the rows before it.
proof fn lemma_ordered_records_prefix(rows: Seq<DatumView>, n: int)
    requires
        1 <= n <= rows.len(),
    ensures
        ordered_records(rows.subrange(0, n)).len() <= ordered_records(rows).len(),
        ordered_records(rows.subrange(0, n)) == ordered_records(rows).subrange(
            0,
            ordered_records(rows.subrange(0, n)).len() as int,
        ),
        ordered_records(rows.subrange(0, n)).len() == ordered_records(rows.subrange(0, n - 1)).len()
            + elements_of(expr_of(rows[n - 1])).len(),
        forall|j: int|
            0 <= j < elements_of(expr_of(rows[n - 1])).len() ==> #[trigger] ordered_records(
                rows.subrange(0, n),
            )[ordered_records(rows.subrange(0, n - 1)).len() + j] == (
                elements_of(expr_of(rows[n - 1]))[j],
                order_of(rows[n - 1]),
            ),
    decreases rows.len() - n,
{
    let upto = rows.subrange(0, n);
    assert(upto.drop_last() =~= rows.subrange(0, n - 1));
    assert(upto.last() == rows[n - 1]);
    if n < rows.len() {
        lemma_ordered_records_prefix(rows, n + 1);
        let more = rows.subrange(0, n + 1);
        assert(more.drop_last() =~= upto);
        assert(ordered_records(upto) =~= ordered_records(more).subrange(
            0,
            ordered_records(upto).len() as int,
        ));
        assert(ordered_records(upto) =~= ordered_records(rows).subrange(
            0,
            ordered_records(upto).len() as int,
        ));
    } else {
        assert(upto =~= rows);
        assert(ordered_records(rows) =~= ordered_records(rows).subrange(
            0,
            ordered_records(rows).len() as int,
        ));
    }
}

/// Whether `datum` is a row of input of `lag`: it holds a list of a record
/// and of the arguments of `lag` for the record, which are a list of a
/// value, of an offset that is null or a 32-bit integer, and of a default.
pub open spec fn is_lag_row(datum: DatumView) -> bool {
    &&& is_row(datum)
    &&& expr_of(datum) matches DatumView::List(pair)
    &&& pair.len() >= 2
    &&& pair[1] matches DatumView::List(args)
    &&& args.len() >= 3
    &&& (args[1] is Null || args[1] is Int32)
}

/// The record of a row of input of `lag`.
pub open spec fn lag_record(datum: DatumView) -> DatumView {
    elements_of(expr_of(datum))[0]
}

/// The arguments of `lag` for the record of a row of input.
pub open spec fn lag_args(datum: DatumView) -> Seq<DatumView> {
    elements_of(elements_of(expr_of(datum))[1])
}

/// What `lag` gives for the record at place `i`: null if the offset of the
/// record is null; else the value of the record that stands the offset
/// before it, or the default of the record if there is no such record.
pub open spec fn lagged(datums: Seq<DatumView>, i: int) -> DatumView {
    match lag_args(datums[i])[1] {
        DatumView::Int32(offset) => if 0 <= i - offset < datums.len() {
            lag_args(datums[i - offset])[0]
        } else {
            lag_args(datums[i])[2]
        },
        _ => DatumView::Null,
    }
}

/// The pairs of what `lag` gives for a record and of the record, in the
/// order of the rows.
pub open spec fn lag_pairs(datums: Seq<DatumView>) -> Seq<DatumView> {
    Seq::new(datums.len(), |i: int| pair_of(lagged(datums, i), lag_record(datums[i])))
}

/// Whether each of `datums` is a row of input of `lag`.
pub open spec fn are_lag_rows(datums: Seq<Datum>) -> bool {
    forall|i: int| 0 <= i < datums.len() ==> is_lag_row((#[trigger] datums[i])@)
}

/// The record of the row `datum` and the arguments of `lag` for it.
fn lag_parts(datum: &Datum) -> (parts: (&Datum, &Vec<Datum>))
    requires
        is_lag_row(datum@),
    ensures
        parts.0@ == lag_record(datum@),
        datum_views(parts.1@) == lag_args(datum@),
        parts.1@.len() >= 3,
        parts.1@[0]@ == lag_args(datum@)[0],
        parts.1@[1]@ == lag_args(datum@)[1],
        parts.1@[2]@ == lag_args(datum@)[2],
{
    let pair = expr(datum).unwrap_list();
    assert(datum_views(pair@)[0] == pair@[0]@);
    assert(datum_views(pair@)[1] == pair@[1]@);
    let args = pair[1].unwrap_list();
    assert(datum_views(args@)[0] == args@[0]@);
    assert(datum_views(args@)[1] == args@[1]@);
    assert(datum_views(args@)[2] == args@[2]@);
    (&pair[0], args)
}

/// Looks back from each record of the rows `datums`, in the order of the
/// rows: gives the list of the pairs of what was found and of the record.
/// For a record whose offset is null nothing is looked for, and null is
/// what was found; for any other, the value of the record that stands the
/// offset before it is what was found, or the default of the record if
/// there is no such record.
pub fn lag(datums: &Vec<Datum>) -> (out: Datum)
    requires
        are_lag_rows(datums@),
    ensures
        out@ == DatumView::List(lag_pairs(datum_views(datums@))),
{
    let ghost rows = datum_views(datums@);
    let mut result: Vec<Datum> = Vec::new();
    let mut i: usize = 0;
    while i < datums.len()
        invariant
            i <= datums.len(),
            are_lag_rows(datums@),
            rows == datum_views(datums@),
            result@.len() == i,
            forall|j: int| 0 <= j < i ==> (#[trigger] result@[j])@ == lag_pairs(rows)[j],
        decreases datums.len() - i,
    {
        assert(is_lag_row(datums@[i as int]@));
        let (record, args) = lag_parts(&datums[i]);
        let found = match &args[1] {
            Datum::Int32(offset) => {
                let at: i128 = i as i128 - *offset as i128;
                if 0 <= at && at < datums.len() as i128 {
                    assert(is_lag_row(datums@[at as int]@));
                    let (_, other) = lag_parts(&datums[at as usize]);
                    other[0].clone()
                } else {
                    args[2].clone()
                }
            },
            _ => Datum::Null,
        };
        assert(found@ == lagged(rows, i as int));
        result.push(pair(found, record.clone()));
        i = i + 1;
    }
    proof {
        lemma_view_of_elements(result);
        assert(datum_views(result@) =~= lag_pairs(rows));
    }
    Datum::List(result)
}

/// The key and the value that `expr` adds to a JSON object, if it adds
/// any: a list whose first element is a text adds its second element under
/// that text.
pub open spec fn keyed_value(expr: DatumView) -> Option<(Seq<char>, DatumView)> {
    match expr {
        DatumView::List(items) => if items.len() >= 2 {
            match items[0] {
                DatumView::String(key) => Some((key, items[1])),
                _ => None,
            }
        } else {
            None
        },
        _ => None,
    }
}

/// Whether `expr` is of the shape that `jsonb_object_agg` takes: null, or
/// a list of at least two elements, the first of which is null or a text.
pub open spec fn is_keyed(expr: DatumView) -> bool {
    expr is Null || (expr matches DatumView::List(items) && items.len() >= 2 && (items[0] is Null
        || items[0] is String))
}

/// Whether `jsonb_object_agg` takes the rows `datums`.
pub open spec fn are_keyed(datums: Seq<Datum>) -> bool {
    forall|i: int|
        0 <= i < datums.len() ==> is_row((#[trigger] datums[i])@) && is_keyed(expr_of(datums[i]@))
}

/// The entries `entries`, which are in the order of their keys, with
/// `value` under `key`: in the place of the value that was under `key`, if
/// there was one, and else where the order of the keys puts it.
pub open spec fn dict_put(
    entries: Seq<(Seq<char>, DatumView)>,
    key: Seq<char>,
    value: DatumView,
) -> Seq<(Seq<char>, DatumView)>
    decreases entries.len(),
{
    if entries.len() == 0 {
        seq![(key, value)]
    } else if entries.last().0 == key {
        entries.drop_last().push((key, value))
    } else if text_le(encode_utf8(entries.last().0), encode_utf8(key)) {
        entries.push((key, value))
    } else {
        dict_put(entries.drop_last(), key, value).push(entries.last())
    }
}

/// The entries of the JSON object that `exprs` add up to: each key once,
/// in the order of the keys, with the value that was added last under it.
pub open spec fn dict_of(exprs: Seq<DatumView>) -> Seq<(Seq<char>, DatumView)>
    decreases exprs.len(),
{
    if exprs.len() == 0 {
        Seq::empty()
    } else {
        match keyed_value(exprs.last()) {
            Some((key, value)) => dict_put(dict_of(exprs.drop_last()), key, value),
            None => dict_of(exprs.drop_last()),
        }
    }
}

/// Puts `value` under `key` into `entries`, which are in the order of
/// their keys.
fn put(entries: &mut Vec<(String, Datum)>, key: String, value: Datum)
    ensures
        entry_views(final(entries)@) == dict_put(entry_views(old(entries)@), key@, value@),
{
    let ghost all = entry_views(entries@);
    let mut i: usize = entries.len();
    assert(all.subrange(0, i as int) =~= all);
    assert(all.subrange(i as int, all.len() as int) =~= Seq::<(Seq<char>, DatumView)>::empty());
    while i > 0 && !(entries[i - 1].0 == key) && !bytes_le(
        entries[i - 1].0.as_str().as_bytes(),
        key.as_str().as_bytes(),
    )
        invariant
            i <= entries@.len(),
            entries@ == old(entries)@,
            all == entry_views(entries@),
            dict_put(all, key@, value@) == dict_put(all.subrange(0, i as int), key@, value@)
                + all.subrange(i as int, all.len() as int),
        decreases i,
    {
        proof {
            let upto = all.subrange(0, i as int);
            assert(upto.last() == all[i - 1]);
            assert(upto.drop_last() =~= all.subrange(0, i - 1));
            assert(dict_put(upto, key@, value@) == dict_put(upto.drop_last(), key@, value@).push(
                upto.last(),
            ));
            assert(dict_put(upto.drop_last(), key@, value@).push(upto.last()) + all.subrange(
                i as int,
                all.len() as int,
            ) =~= dict_put(upto.drop_last(), key@, value@) + all.subrange(
                i - 1,
                all.len() as int,
            ));
        }
        i = i - 1;
    }
    proof {
        let upto = all.subrange(0, i as int);
        if i > 0 {
            assert(upto.last() == all[i - 1]);
            assert(upto.drop_last() =~= all.subrange(0, i - 1));
        }
    }
    if i > 0 && entries[i - 1].0 == key {
        entries[i - 1].1 = value;
        assert(entry_views(entries@) =~= all.subrange(0, i - 1).push((key@, value@)) + all.subrange(
            i as int,
            all.len() as int,
        ));
    } else {
        entries.insert(i, (key, value));
        assert(entry_views(entries@) =~= all.subrange(0, i as int).push((key@, value@))
            + all.subrange(i as int, all.len() as int));
    }
}

/// Builds a JSON object of what the rows `datums` add, in the order of the
/// rows: each key once, in the order of the keys, with the value that was
/// added last under it. Rows that hold null or a null key add nothing.
pub fn jsonb_object_agg(datums: &Vec<Datum>) -> (out: Datum)
    requires
        are_keyed(datums@),
    ensures
        out@ == DatumView::Dict(dict_of(exprs_of(datum_views(datums@)))),
{
    let mut entries: Vec<(String, Datum)> = Vec::new();
    let mut i: usize = 0;
    let ghost all = exprs_of(datum_views(datums@));
    assert(all.subrange(0, 0) =~= Seq::<DatumView>::empty());
    assert(entry_views(entries@) =~= Seq::<(Seq<char>, DatumView)>::empty());
    while i < datums.len()
        invariant
            i <= datums.len(),
            are_keyed(datums@),
            all == exprs_of(datum_views(datums@)),
            entry_views(entries@) == dict_of(all.subrange(0, i as int)),
        decreases datums.len() - i,
    {
        proof {
            let upto = all.subrange(0, i + 1);
            assert(upto.drop_last() =~= all.subrange(0, i as int));
            assert(upto.last() == expr_of(datums@[i as int]@));
            assert(is_keyed(expr_of(datums@[i as int]@)));
        }
        let e = expr(&datums[i]);
        if !e.is_null() {
            let items = e.unwrap_list();
            assert(datum_views(items@)[0] == items@[0]@);
            assert(datum_views(items@)[1] == items@[1]@);
            match &items[0] {
                Datum::String(key) => {
                    put(&mut entries, key.clone(), items[1].clone());
                },
                _ => {},
            }
        }
        i = i + 1;
    }
    assert(all.subrange(0, i as int) =~= all);
    proof {
        lemma_view_of_entries(entries);
    }
    Datum::Dict(entries)
}

/// Whether the entries `entries` are in the order of their keys, and no
/// two of them have the same key.
pub open spec fn in_key_order(entries: Seq<(Seq<char>, DatumView)>) -> bool {
    forall|i: int, j: int|
        0 <= i < j < entries.len() ==> (#[trigger] entries[i]).0 != (#[trigger] entries[j]).0
            && text_le(encode_utf8(entries[i].0), encode_utf8(entries[j].0))
}

/// Whether `entries` holds `value` under `key`.
pub open spec fn holds_entry(
    entries: Seq<(Seq<char>, DatumView)>,
    key: Seq<char>,
    value: DatumView,
) -> bool {
    exists|i: int| 0 <= i < entries.len() && #[trigger] entries[i] == (key, value)
}

/// Putting a value under a key keeps the entries in the order of their
/// keys, holds the value under the key, and keeps every entry under another
/// key as it was.
pub proof fn lemma_dict_put(
    entries: Seq<(Seq<char>, DatumView)>,
    key: Seq<char>,
    value: DatumView,
    other: Seq<char>,
    other_value: DatumView,
)
    requires
        in_key_order(entries),
    ensures
        in_key_order(dict_put(entries, key, value)),
        holds_entry(dict_put(entries, key, value), key, value),
        other != key ==> holds_entry(dict_put(entries, key, value), other, other_value)
            == holds_entry(entries, other, other_value),
        forall|i: int|
            0 <= i < dict_put(entries, key, value).len() ==> (#[trigger] dict_put(
                entries,
                key,
                value,
            )[i]).0 == key || holds_entry(entries, dict_put(entries, key, value)[i].0, dict_put(
                entries,
                key,
                value,
            )[i].1),
    decreases entries.len(),
{
    let after = dict_put(entries, key, value);
    let n = entries.len() as int;
    if n == 0 {
        assert(after[0] == (key, value));
    } else if entries.last().0 == key {
        assert(after[n - 1] == (key, value));
        assert forall|i: int, j: int| 0 <= i < j < after.len() implies (#[trigger] after[i]).0 != (
        #[trigger] after[j]).0 && text_le(encode_utf8(after[i].0), encode_utf8(after[j].0)) by {
            assert(after[i].0 == entries[i].0);
            assert(after[j].0 == entries[j].0);
        }
        if other != key {
            if holds_entry(entries, other, other_value) {
                let i = choose|i: int| 0 <= i < n && #[trigger] entries[i] == (other, other_value);
                assert(after[i] == (other, other_value));
            }
            if holds_entry(after, other, other_value) {
                let i = choose|i: int|
                    0 <= i < after.len() && #[trigger] after[i] == (other, other_value);
                assert(entries[i] == (other, other_value));
            }
        }
        assert forall|i: int| 0 <= i < after.len() implies (#[trigger] after[i]).0 == key
            || holds_entry(entries, after[i].0, after[i].1) by {
            if i < n - 1 {
                assert(entries[i] == after[i]);
            }
        }
    } else if text_le(encode_utf8(entries.last().0), encode_utf8(key)) {
        assert(after[n] == (key, value));
        assert forall|i: int, j: int| 0 <= i < j < after.len() implies (#[trigger] after[i]).0 != (
        #[trigger] after[j]).0 && text_le(encode_utf8(after[i].0), encode_utf8(after[j].0)) by {
            assert(after[i] == entries[i]);
            if j < n {
                assert(after[j] == entries[j]);
            } else {
                lemma_text_le_is_total_order(
                    encode_utf8(entries[i].0),
                    encode_utf8(entries[n - 1].0),
                    encode_utf8(key),
                );
                if i < n - 1 {
                    assert(entries[i].0 != entries[n - 1].0);
                }
                if entries[i].0 == key {
                    lemma_text_le_is_total_order(
                        encode_utf8(entries[n - 1].0),
                        encode_utf8(key),
                        encode_utf8(key),
                    );
                    encode_utf8_decode_utf8(entries[n - 1].0);
                    encode_utf8_decode_utf8(key);
                }
            }
        }
        if other != key {
            if holds_entry(entries, other, other_value) {
                let i = choose|i: int| 0 <= i < n && #[trigger] entries[i] == (other, other_value);
                assert(after[i] == (other, other_value));
            }
            if holds_entry(after, other, other_value) {
                let i = choose|i: int|
                    0 <= i < after.len() && #[trigger] after[i] == (other, other_value);
                assert(entries[i] == (other, other_value));
            }
        }
        assert forall|i: int| 0 <= i < after.len() implies (#[trigger] after[i]).0 == key
            || holds_entry(entries, after[i].0, after[i].1) by {
            if i < n {
                assert(entries[i] == after[i]);
            }
        }
    } else {
        let init = entries.drop_last();
        let last = entries.last();
        assert forall|i: int, j: int| 0 <= i < j < init.len() implies (#[trigger] init[i]).0 != (
        #[trigger] init[j]).0 && text_le(encode_utf8(init[i].0), encode_utf8(init[j].0)) by {
            assert(init[i] == entries[i]);
            assert(init[j] == entries[j]);
        }
        lemma_dict_put(init, key, value, other, other_value);
        let mid = dict_put(init, key, value);
        assert(after == mid.push(last));
        lemma_text_le_is_total_order(encode_utf8(last.0), encode_utf8(key), encode_utf8(key));
        assert forall|i: int, j: int| 0 <= i < j < after.len() implies (#[trigger] after[i]).0 != (
        #[trigger] after[j]).0 && text_le(encode_utf8(after[i].0), encode_utf8(after[j].0)) by {
            if j < mid.len() {
                assert(after[i] == mid[i]);
                assert(after[j] == mid[j]);
            } else {
                assert(after[i] == mid[i]);
                if mid[i].0 != key {
                    assert(holds_entry(init, mid[i].0, mid[i].1));
                    let k = choose|k: int|
                        0 <= k < init.len() && #[trigger] init[k] == (mid[i].0, mid[i].1);
                    assert(entries[k] == init[k]);
                    assert(entries[k].0 != entries[n - 1].0);
                }
            }
        }
        let at = choose|i: int| 0 <= i < mid.len() && #[trigger] mid[i] == (key, value);
        assert(after[at] == (key, value));
        if other != key {
            if holds_entry(entries, other, other_value) {
                let i = choose|i: int| 0 <= i < n && #[trigger] entries[i] == (other, other_value);
                if i < n - 1 {
                    assert(init[i] == (other, other_value));
                    let k = choose|k: int|
                        0 <= k < mid.len() && #[trigger] mid[k] == (other, other_value);
                    assert(after[k] == (other, other_value));
                } else {
                    assert(after[mid.len() as int] == (other, other_value));
                }
            }
            if holds_entry(after, other, other_value) {
                let i = choose|i: int|
                    0 <= i < after.len() && #[trigger] after[i] == (other, other_value);
                if i < mid.len() {
                    assert(mid[i] == (other, other_value));
                    let k = choose|k: int|
                        0 <= k < init.len() && #[trigger] init[k] == (other, other_value);
                    assert(entries[k] == (other, other_value));
                } else {
                    assert(entries[n - 1] == (other, other_value));
                }
            }
        }
        assert forall|i: int| 0 <= i < after.len() implies (#[trigger] after[i]).0 == key
            || holds_entry(entries, after[i].0, after[i].1) by {
            if i < mid.len() {
                assert(after[i] == mid[i]);
                if mid[i].0 != key {
                    let k = choose|k: int|
                        0 <= k < init.len() && #[trigger] init[k] == (mid[i].0, mid[i].1);
                    assert(entries[k] == init[k]);
                }
            } else {
                assert(entries[n - 1] == after[i]);
            }
        }
    }
}

/// The entries of the JSON object that values add up to are in the order
/// of their keys, and no two of them have the same key.
pub proof fn lemma_dict_of_in_key_order(exprs: Seq<DatumView>)
    ensures
        in_key_order(dict_of(exprs)),
    decreases exprs.len(),
{
    if exprs.len() > 0 {
        lemma_dict_of_in_key_order(exprs.drop_last());
        match keyed_value(exprs.last()) {
            Some((key, value)) => {
                lemma_dict_put(dict_of(exprs.drop_last()), key, value, key, value);
            },
            None => {},
        }
    }
}

} // verus!
