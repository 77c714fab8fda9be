//! The types of the values that functions take and give.

use vstd::prelude::*;
use crate::ids::GlobalId;

verus! {

/// The type of a value that is not null.
#[derive(Debug, PartialEq, Eq)]
pub enum ScalarType {
    Bool,
    Int16,
    Int32,
    Int64,
    Float32,
    Float64,
    /// A decimal number with at most `max_scale` digits after the point, if
    /// a bound is set.
    Numeric { max_scale: Option<u8> },
    Date,
    Time,
    Timestamp,
    TimestampTz,
    Interval,
    Bytes,
    String,
    Jsonb,
    Uuid,
    /// An array of values of one type, of any number of dimensions.
    Array(Box<ScalarType>),
    /// A list of values of one type.
    List { element_type: Box<ScalarType>, custom_id: Option<GlobalId> },
    /// A record of named fields.
    Record {
        fields: Vec<(String, ColumnType)>,
        custom_id: Option<GlobalId>,
        custom_name: Option<String>,
    },
    /// A map from texts to values of one type.
    Mapping { value_type: Box<ScalarType>, custom_id: Option<GlobalId> },
}

/// The type of a column: the type of its values, and whether a value may be
/// null.
#[derive(Debug, PartialEq, Eq)]
pub struct ColumnType {
    pub scalar_type: ScalarType,
    pub nullable: bool,
}

impl ScalarType {
    /// The type of a column of values of this type.
    pub fn nullable(self, nullable: bool) -> (column: ColumnType)
        ensures
            column == (ColumnType { scalar_type: self, nullable }),
    {
        ColumnType { scalar_type: self, nullable }
    }
}

/// The type of a relation: the types of its columns, and the sets of
/// columns by which a row is known.
#[derive(Debug, PartialEq, Eq)]
pub struct RelationType {
    pub column_types: Vec<ColumnType>,
    pub keys: Vec<Vec<usize>>,
}

/// The columns of each key of a sequence of keys.
pub open spec fn key_views(keys: Seq<Vec<usize>>) -> Seq<Seq<usize>> {
    keys.map_values(|key: Vec<usize>| key@)
}

impl RelationType {
    /// The relation with the given columns and no key.
    pub fn new(column_types: Vec<ColumnType>) -> (relation: RelationType)
        ensures
            relation.column_types == column_types,
            relation.keys@.len() == 0,
    {
        RelationType { column_types, keys: Vec::new() }
    }

    /// The relation with the given keys in the place of those it had.
    pub fn with_keys(self, keys: Vec<Vec<usize>>) -> (relation: RelationType)
        ensures
            relation.column_types == self.column_types,
            relation.keys == keys,
    {
        RelationType { column_types: self.column_types, keys }
    }

    /// The number of columns.
    pub fn arity(&self) -> (n: usize)
        ensures
            n == self.column_types@.len(),
    {
        self.column_types.len()
    }
}

/// A span of time: a number of months, and a number of microseconds on top
/// of them.
#[derive(Clone, Copy, Debug, PartialEq, Eq, Structural)]
pub struct Interval {
    pub months: i32,
    pub micros: i64,
}

impl Interval {
    /// The length of the span in microseconds, a month taken as thirty
    /// days.
    pub open spec fn spec_as_microseconds(self) -> int {
        self.months * 30 * 86_400_000_000 + self.micros
    }

    /// The length of the span in microseconds, a month taken as thirty
    /// days.
    pub fn as_microseconds(&self) -> (micros: i128)
        ensures
            micros == self.spec_as_microseconds(),
    {
        self.months as i128 * 30 * 86_400_000_000 + self.micros as i128
    }
}

/// A value.
#[derive(Debug, PartialEq, Eq)]
pub enum Datum {
    /// The unknown value.
    Null,
    False,
    True,
    Int16(i16),
    Int32(i32),
    Int64(i64),
    /// A decimal number without digits after the point.
    Numeric(i128),
    /// A date, as the number of days since the first day of 1970.
    Date(i32),
    /// A time of a day without a time zone, as the number of microseconds
    /// since the beginning of 1970.
    Timestamp(i64),
    /// A moment, as the number of microseconds since the beginning of 1970
    /// in UTC.
    TimestampTz(i64),
    Interval(Interval),
    String(String),
    /// An array of values, in the order of its elements.
    Array(Vec<Datum>),
    /// A list of values.
    List(Vec<Datum>),
    /// Values by the texts that they are known by, which are their keys.
    Dict(Vec<(String, Datum)>),
    /// A placeholder for a value that is never looked at.
    Dummy,
}

/// The mathematical value of a [`Datum`].
pub enum DatumView {
    Null,
    False,
    True,
    Int16(i16),
    Int32(i32),
    Int64(i64),
    Numeric(i128),
    Date(i32),
    Timestamp(i64),
    TimestampTz(i64),
    Interval(Interval),
    String(Seq<char>),
    Array(Seq<DatumView>),
    List(Seq<DatumView>),
    Dict(Seq<(Seq<char>, DatumView)>),
    Dummy,
}

impl Datum {
    /// The mathematical value of the datum.
    pub open spec fn value(self) -> DatumView
        decreases self,
    {
        match self {
            Datum::Null => DatumView::Null,
            Datum::False => DatumView::False,
            Datum::True => DatumView::True,
            Datum::Int16(v) => DatumView::Int16(v),
            Datum::Int32(v) => DatumView::Int32(v),
            Datum::Int64(v) => DatumView::Int64(v),
            Datum::Numeric(v) => DatumView::Numeric(v),
            Datum::Date(v) => DatumView::Date(v),
            Datum::Timestamp(v) => DatumView::Timestamp(v),
            Datum::TimestampTz(v) => DatumView::TimestampTz(v),
            Datum::Interval(v) => DatumView::Interval(v),
            Datum::String(text) => DatumView::String(text@),
            Datum::Array(elements) => DatumView::Array(
                Seq::new(
                    elements@.len(),
                    |i: int|
                        if 0 <= i < elements@.len() {
                            elements@[i].value()
                        } else {
                            DatumView::Null
                        },
                ),
            ),
            Datum::List(elements) => DatumView::List(
                Seq::new(
                    elements@.len(),
                    |i: int|
                        if 0 <= i < elements@.len() {
                            elements@[i].value()
                        } else {
                            DatumView::Null
                        },
                ),
            ),
            Datum::Dict(entries) => DatumView::Dict(
                Seq::new(
                    entries@.len(),
                    |i: int|
                        if 0 <= i < entries@.len() {
                            (entries@[i].0@, entries@[i].1.value())
                        } else {
                            (Seq::empty(), DatumView::Null)
                        },
                ),
            ),
            Datum::Dummy => DatumView::Dummy,
        }
    }
}

impl View for Datum {
    type V = DatumView;

    open spec fn view(&self) -> DatumView {
        self.value()
    }
}

/// The values of a sequence of datums.
pub open spec fn datum_views(datums: Seq<Datum>) -> Seq<DatumView> {
    datums.map_values(|d: Datum| d@)
}

/// The keys and the values of a sequence of entries.
pub open spec fn entry_views(entries: Seq<(String, Datum)>) -> Seq<(Seq<char>, DatumView)> {
    entries.map_values(|e: (String, Datum)| (e.0@, e.1@))
}

/// The value of a dictionary is the dictionary of the keys and of the
/// values of its entries.
pub proof fn lemma_view_of_entries(entries: Vec<(String, Datum)>)
    ensures
        Datum::Dict(entries)@ == DatumView::Dict(entry_views(entries@)),
{
    let dict = Datum::Dict(entries)@;
    let views = entry_views(entries@);
    assert(dict is Dict);
    assert(dict->Dict_0.len() == views.len());
    assert forall|i: int| 0 <= i < views.len() implies dict->Dict_0[i] == views[i] by {
        assert(views[i] == (entries@[i].0@, entries@[i].1@));
    }
    assert(dict->Dict_0 =~= views);
}

/// The value of an array is the array of the values of its elements, and
/// so for a list.
pub proof fn lemma_view_of_elements(elements: Vec<Datum>)
    ensures
        Datum::Array(elements)@ == DatumView::Array(datum_views(elements@)),
        Datum::List(elements)@ == DatumView::List(datum_views(elements@)),
{
    let array = Datum::Array(elements)@;
    let list = Datum::List(elements)@;
    let views = datum_views(elements@);
    assert(array is Array && list is List);
    assert(array->Array_0.len() == views.len());
    assert(list->List_0.len() == views.len());
    assert forall|i: int| 0 <= i < views.len() implies array->Array_0[i] == views[i]
        && list->List_0[i] == views[i] by {
        assert(views[i] == elements@[i]@);
    }
    assert(array->Array_0 =~= views);
    assert(list->List_0 =~= views);
}

/// A copy of each of `datums`.
pub fn clone_datums(datums: &Vec<Datum>) -> (copy: Vec<Datum>)
    ensures
        datum_views(copy@) == datum_views(datums@),
    decreases datums,
{
    let mut copy: Vec<Datum> = Vec::new();
    let mut i: usize = 0;
    while i < datums.len()
        invariant
            i <= datums@.len(),
            copy@.len() == i,
            forall|j: int| 0 <= j < i ==> (#[trigger] copy@[j])@ == datums@[j]@,
        decreases datums@.len() - i,
    {
        proof {
            vstd::std_specs::vec::axiom_vec_index_decreases(*datums, i as int);
            assert(decreases_to!(*datums => (*datums)[i as int]));
        }
        copy.push(datums[i].clone());
        i = i + 1;
    }
    assert(datum_views(copy@) =~= datum_views(datums@));
    copy
}

impl Clone for Datum {
    fn clone(&self) -> (copy: Datum)
        ensures
            copy@ == self@,
        decreases self,
    {
        match self {
            Datum::Null => Datum::Null,
            Datum::False => Datum::False,
            Datum::True => Datum::True,
            Datum::Int16(v) => Datum::Int16(*v),
            Datum::Int32(v) => Datum::Int32(*v),
            Datum::Int64(v) => Datum::Int64(*v),
            Datum::Numeric(v) => Datum::Numeric(*v),
            Datum::Date(v) => Datum::Date(*v),
            Datum::Timestamp(v) => Datum::Timestamp(*v),
            Datum::TimestampTz(v) => Datum::TimestampTz(*v),
            Datum::Interval(v) => Datum::Interval(*v),
            Datum::String(text) => Datum::String(text.clone()),
            Datum::Array(elements) => {
                proof {
                    assert(self is Array && self->Array_0 == *elements);
                    assert(decreases_to!(*self => self->Array_0));
                    lemma_view_of_elements(*elements);
                }
                let copy = clone_datums(elements);
                proof {
                    lemma_view_of_elements(copy);
                }
                Datum::Array(copy)
            },
            Datum::List(elements) => {
                proof {
                    assert(self is List && self->List_0 == *elements);
                    assert(decreases_to!(*self => self->List_0));
                    lemma_view_of_elements(*elements);
                }
                let copy = clone_datums(elements);
                proof {
                    lemma_view_of_elements(copy);
                }
                Datum::List(copy)
            },
            Datum::Dict(entries) => {
                proof {
                    assert(self is Dict && self->Dict_0 == *entries);
                    assert(decreases_to!(*self => self->Dict_0));
                    lemma_view_of_entries(*entries);
                }
                let copy = clone_entries(entries);
                proof {
                    lemma_view_of_entries(copy);
                }
                Datum::Dict(copy)
            },
            Datum::Dummy => Datum::Dummy,
        }
    }
}

/// A copy of each of `entries`.
pub fn clone_entries(entries: &Vec<(String, Datum)>) -> (copy: Vec<(String, Datum)>)
    ensures
        entry_views(copy@) == entry_views(entries@),
    decreases entries,
{
    let mut copy: Vec<(String, Datum)> = Vec::new();
    let mut i: usize = 0;
    while i < entries.len()
        invariant
            i <= entries@.len(),
            copy@.len() == i,
            forall|j: int|
                0 <= j < i ==> (#[trigger] copy@[j]).0@ == entries@[j].0@ && copy@[j].1@
                    == entries@[j].1@,
        decreases entries@.len() - i,
    {
        proof {
            vstd::std_specs::vec::axiom_vec_index_decreases(*entries, i as int);
            assert(decreases_to!(*entries => (*entries)[i as int]));
            assert(decreases_to!((*entries)[i as int] => (*entries)[i as int].1));
        }
        copy.push((entries[i].0.clone(), entries[i].1.clone()));
        i = i + 1;
    }
    assert(entry_views(copy@) =~= entry_views(entries@));
    copy
}

impl Datum {
    /// Whether the value is the unknown value.
    pub fn is_null(&self) -> (b: bool)
        ensures
            b == (self is Null),
    {
        match self {
            Datum::Null => true,
            _ => false,
        }
    }

    /// The elements of the list that the datum is.
    pub fn unwrap_list(&self) -> (elements: &Vec<Datum>)
        requires
            self@ is List,
        ensures
            datum_views(elements@) == self@->List_0,
    {
        match self {
            Datum::List(elements) => {
                proof {
                    lemma_view_of_elements(*elements);
                }
                elements
            },
            _ => vstd::pervasive::unreached(),
        }
    }

    /// The elements of the array that the datum is.
    pub fn unwrap_array(&self) -> (elements: &Vec<Datum>)
        requires
            self@ is Array,
        ensures
            datum_views(elements@) == self@->Array_0,
    {
        match self {
            Datum::Array(elements) => {
                proof {
                    lemma_view_of_elements(*elements);
                }
                elements
            },
            _ => vstd::pervasive::unreached(),
        }
    }

    /// The array without elements.
    pub fn empty_array() -> (d: Datum)
        ensures
            d matches Datum::Array(elements) && elements@.len() == 0,
    {
        Datum::Array(Vec::new())
    }

    /// The list without elements.
    pub fn empty_list() -> (d: Datum)
        ensures
            d matches Datum::List(elements) && elements@.len() == 0,
    {
        Datum::List(Vec::new())
    }
}

/// Whether the values of `a` and `b` are the same, element by element.
pub fn same_values(a: &Vec<Datum>, b: &Vec<Datum>) -> (same: bool)
    ensures
        same == (datum_views(a@) == datum_views(b@)),
    decreases a,
{
    if a.len() != b.len() {
        assert(datum_views(a@).len() != datum_views(b@).len());
        return false;
    }
    let mut i: usize = 0;
    while i < a.len()
        invariant
            i <= a@.len(),
            a@.len() == b@.len(),
            forall|j: int| 0 <= j < i ==> (#[trigger] a@[j])@ == b@[j]@,
        decreases a@.len() - i,
    {
        proof {
            vstd::std_specs::vec::axiom_vec_index_decreases(*a, i as int);
            assert(decreases_to!(*a => (*a)[i as int]));
        }
        if !a[i].same_value(&b[i]) {
            assert(datum_views(a@)[i as int] != datum_views(b@)[i as int]);
            return false;
        }
        i = i + 1;
    }
    assert(datum_views(a@) =~= datum_views(b@));
    true
}

impl Datum {
    /// Whether the datum and `other` have the same value.
    pub fn same_value(&self, other: &Datum) -> (same: bool)
        ensures
            same == (self@ == other@),
        decreases self,
    {
        match (self, other) {
            (Datum::Null, Datum::Null) => true,
            (Datum::False, Datum::False) => true,
            (Datum::True, Datum::True) => true,
            (Datum::Int16(a), Datum::Int16(b)) => *a == *b,
            (Datum::Int32(a), Datum::Int32(b)) => *a == *b,
            (Datum::Int64(a), Datum::Int64(b)) => *a == *b,
            (Datum::Numeric(a), Datum::Numeric(b)) => *a == *b,
            (Datum::Date(a), Datum::Date(b)) => *a == *b,
            (Datum::Timestamp(a), Datum::Timestamp(b)) => *a == *b,
            (Datum::TimestampTz(a), Datum::TimestampTz(b)) => *a == *b,
            (Datum::Interval(a), Datum::Interval(b)) => a.months == b.months && a.micros
                == b.micros,
            (Datum::String(a), Datum::String(b)) => *a == *b,
            (Datum::Array(a), Datum::Array(b)) => {
                proof {
                    assert(self is Array && self->Array_0 == *a);
                    assert(decreases_to!(*self => self->Array_0));
                    lemma_view_of_elements(*a);
                    lemma_view_of_elements(*b);
                }
                same_values(a, b)
            },
            (Datum::List(a), Datum::List(b)) => {
                proof {
                    assert(self is List && self->List_0 == *a);
                    assert(decreases_to!(*self => self->List_0));
                    lemma_view_of_elements(*a);
                    lemma_view_of_elements(*b);
                }
                same_values(a, b)
            },
            (Datum::Dict(a), Datum::Dict(b)) => {
                proof {
                    assert(self is Dict && self->Dict_0 == *a);
                    assert(decreases_to!(*self => self->Dict_0));
                    lemma_view_of_entries(*a);
                    lemma_view_of_entries(*b);
                }
                same_entries(a, b)
            },
            (Datum::Dummy, Datum::Dummy) => true,
            _ => false,
        }
    }

    /// The entries of the dictionary that the datum is.
    pub fn unwrap_dict(&self) -> (entries: &Vec<(String, Datum)>)
        requires
            self@ is Dict,
        ensures
            entry_views(entries@) == self@->Dict_0,
    {
        match self {
            Datum::Dict(entries) => {
                proof {
                    lemma_view_of_entries(*entries);
                }
                entries
            },
            _ => vstd::pervasive::unreached(),
        }
    }
}

/// Whether the keys and the values of `a` and `b` are the same, entry by
/// entry.
pub fn same_entries(a: &Vec<(String, Datum)>, b: &Vec<(String, Datum)>) -> (same: bool)
    ensures
        same == (entry_views(a@) == entry_views(b@)),
    decreases a,
{
    if a.len() != b.len() {
        assert(entry_views(a@).len() != entry_views(b@).len());
        return false;
    }
    let mut i: usize = 0;
    while i < a.len()
        invariant
            i <= a@.len(),
            a@.len() == b@.len(),
            forall|j: int|
                0 <= j < i ==> (#[trigger] a@[j]).0@ == b@[j].0@ && a@[j].1@ == b@[j].1@,
        decreases a@.len() - i,
    {
        proof {
            vstd::std_specs::vec::axiom_vec_index_decreases(*a, i as int);
            assert(decreases_to!(*a => (*a)[i as int]));
            assert(decreases_to!((*a)[i as int] => (*a)[i as int].1));
        }
        if !(a[i].0 == b[i].0) || !a[i].1.same_value(&b[i].1) {
            assert(entry_views(a@)[i as int] != entry_views(b@)[i as int]);
            return false;
        }
        i = i + 1;
    }
    assert(entry_views(a@) =~= entry_views(b@));
    true
}

} // verus!
