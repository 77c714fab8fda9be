//! The minimal command log of a rehydrating client.
//!
//! The log holds what a backend must be told to reach the state it was in:
//! the spec of every live collection and, for each, the frontier up to which
//! it may have been compacted. Specs stand in the order in which their
//! collections were first installed.
//!
//! Installing a spec and allowing a compaction are kept apart: only a
//! compaction moves a `since`. A compaction that is allowed before its
//! collection is installed is remembered until the collection is.

use vstd::prelude::*;
use crate::command::{spec_views, CollectionSpec, CollectionSpecView, Command, CommandView};
use crate::frontier::Frontier;
use crate::ids::GlobalId;

verus! {

/// The kind of backend that a client talks to.
#[derive(Clone, Copy, Debug, PartialEq, Eq, Structural)]
pub enum BackendKind {
    /// The backend ingests sources.
    Storage,
    /// The backend runs dataflows.
    Compute,
}

/// One live collection in the log.
#[derive(Debug, PartialEq, Eq)]
pub struct LogEntry {
    /// What was last installed for the collection.
    pub spec: CollectionSpec,
    /// The join of every frontier to which the collection was allowed to
    /// compact.
    pub since: Frontier,
}

/// The mathematical value of a [`LogEntry`].
pub struct LogEntryView {
    pub spec: CollectionSpecView,
    pub since: Frontier,
}

impl View for LogEntry {
    type V = LogEntryView;

    open spec fn view(&self) -> LogEntryView {
        LogEntryView { spec: self.spec@, since: self.since }
    }
}

/// Whether some entry is about `id`.
pub open spec fn contains_id(entries: Seq<LogEntryView>, id: GlobalId) -> bool {
    exists|i: int| 0 <= i < entries.len() && (#[trigger] entries[i]).spec.id == id
}

/// The place of an entry about `id`.
pub open spec fn index_of(entries: Seq<LogEntryView>, id: GlobalId) -> int {
    choose|i: int| 0 <= i < entries.len() && (#[trigger] entries[i]).spec.id == id
}

/// The invariant of the entries of a log: no collection has two entries,
/// and no entry has been compacted to the empty frontier.
pub open spec fn held_wf(entries: Seq<LogEntryView>) -> bool {
    &&& forall|i: int, j: int|
        0 <= i < j < entries.len() ==> (#[trigger] entries[i]).spec.id != (
        #[trigger] entries[j]).spec.id
    &&& forall|i: int| 0 <= i < entries.len() ==> (#[trigger] entries[i]).since != Frontier::Empty
}

/// The invariant of collections that are compacted to their `as_of` when
/// they are installed, and installed once: that of the entries of a log,
/// and no entry's `since` is before the `as_of` of its spec.
pub open spec fn entries_wf(entries: Seq<LogEntryView>) -> bool {
    &&& held_wf(entries)
    &&& forall|i: int|
        0 <= i < entries.len() ==> Frontier::At((#[trigger] entries[i]).spec.as_of).le(
            entries[i].since,
        )
}

/// The entries after `spec` is installed: a known collection has its spec
/// replaced and keeps its `since`; a new one gets an entry at the end,
/// compacted to `since`.
pub open spec fn install_one(
    entries: Seq<LogEntryView>,
    spec: CollectionSpecView,
    since: Frontier,
) -> Seq<LogEntryView> {
    if contains_id(entries, spec.id) {
        let i = index_of(entries, spec.id);
        entries.update(i, LogEntryView { spec, since: entries[i].since })
    } else {
        entries.push(LogEntryView { spec, since })
    }
}

/// The entries after the collection `id` is allowed to compact to
/// `frontier`: the empty frontier retires the collection; any other is
/// joined into its `since`. A collection that has no entry leaves the
/// entries as they are.
pub open spec fn compact_one(entries: Seq<LogEntryView>, id: GlobalId, frontier: Frontier) -> Seq<
    LogEntryView,
> {
    if contains_id(entries, id) {
        let i = index_of(entries, id);
        if frontier == Frontier::Empty {
            entries.remove(i)
        } else {
            entries.update(
                i,
                LogEntryView { spec: entries[i].spec, since: entries[i].since.spec_join(frontier) },
            )
        }
    } else {
        entries
    }
}

/// The specs of the entries, in order.
pub open spec fn live_specs(entries: Seq<LogEntryView>) -> Seq<CollectionSpecView> {
    entries.map_values(|e: LogEntryView| e.spec)
}

/// The `since` of each entry, in order.
pub open spec fn recorded_sinces(entries: Seq<LogEntryView>) -> Seq<(GlobalId, Frontier)> {
    entries.map_values(|e: LogEntryView| (e.spec.id, e.since))
}

/// In a well-formed log the place of a collection is unique.
pub proof fn lemma_index_of_unique(entries: Seq<LogEntryView>, i: int)
    requires
        held_wf(entries),
        0 <= i < entries.len(),
    ensures
        contains_id(entries, entries[i].spec.id),
        index_of(entries, entries[i].spec.id) == i,
{
    let id = entries[i].spec.id;
    let j = index_of(entries, id);
    assert(0 <= j < entries.len() && entries[j].spec.id == id);
    if i < j {
        assert(entries[i].spec.id != entries[j].spec.id);
    }
    if j < i {
        assert(entries[j].spec.id != entries[i].spec.id);
    }
}

/// Installing a spec keeps the entries well formed.
pub proof fn lemma_install_one_wf(
    entries: Seq<LogEntryView>,
    spec: CollectionSpecView,
    since: Frontier,
)
    requires
        held_wf(entries),
        since != Frontier::Empty,
    ensures
        held_wf(install_one(entries, spec, since)),
        contains_id(install_one(entries, spec, since), spec.id),
        entries_wf(entries) && !contains_id(entries, spec.id) && Frontier::At(spec.as_of).le(since)
            ==> entries_wf(install_one(entries, spec, since)),
{
    let after = install_one(entries, spec, since);
    if contains_id(entries, spec.id) {
        let i = index_of(entries, spec.id);
        assert(after[i].spec.id == spec.id);
        assert forall|a: int, b: int| 0 <= a < b < after.len() implies (#[trigger] after[a]).spec.id
            != (#[trigger] after[b]).spec.id by {
            assert(after[a].spec.id == entries[a].spec.id);
            assert(after[b].spec.id == entries[b].spec.id);
        }
        assert forall|a: int| 0 <= a < after.len() implies (#[trigger] after[a]).since
            != Frontier::Empty by {
            assert(after[a].since == entries[a].since);
        }
    } else {
        let n = entries.len() as int;
        assert(after[n].spec.id == spec.id);
        assert forall|a: int, b: int| 0 <= a < b < after.len() implies (#[trigger] after[a]).spec.id
            != (#[trigger] after[b]).spec.id by {
            assert(after[a] == entries[a]);
            if b < n {
                assert(after[b] == entries[b]);
            }
        }
        assert forall|a: int| 0 <= a < after.len() implies (#[trigger] after[a]).since
            != Frontier::Empty by {
            if a < n {
                assert(after[a] == entries[a]);
            }
        }
        if entries_wf(entries) && Frontier::At(spec.as_of).le(since) {
            assert forall|a: int| 0 <= a < after.len() implies Frontier::At(
                (#[trigger] after[a]).spec.as_of,
            ).le(after[a].since) by {
                if a < n {
                    assert(after[a] == entries[a]);
                }
            }
        }
    }
}

/// Allowing a compaction keeps the entries well formed.
pub proof fn lemma_compact_one_wf(entries: Seq<LogEntryView>, id: GlobalId, frontier: Frontier)
    requires
        held_wf(entries),
    ensures
        held_wf(compact_one(entries, id, frontier)),
        entries_wf(entries) ==> entries_wf(compact_one(entries, id, frontier)),
        frontier == Frontier::Empty ==> !contains_id(compact_one(entries, id, frontier), id),
{
    let after = compact_one(entries, id, frontier);
    if contains_id(entries, id) {
        let i = index_of(entries, id);
        if frontier == Frontier::Empty {
            assert forall|a: int, b: int| 0 <= a < b < after.len() implies (
            #[trigger] after[a]).spec.id != (#[trigger] after[b]).spec.id by {
                let a0 = if a < i { a } else { a + 1 };
                let b0 = if b < i { b } else { b + 1 };
                assert(after[a] == entries[a0]);
                assert(after[b] == entries[b0]);
            }
            assert forall|a: int| 0 <= a < after.len() implies (#[trigger] after[a]).since
                != Frontier::Empty by {
                let a0 = if a < i { a } else { a + 1 };
                assert(after[a] == entries[a0]);
            }
            if entries_wf(entries) {
                assert forall|a: int| 0 <= a < after.len() implies Frontier::At(
                    (#[trigger] after[a]).spec.as_of,
                ).le(after[a].since) by {
                    let a0 = if a < i { a } else { a + 1 };
                    assert(after[a] == entries[a0]);
                }
            }
            if contains_id(after, id) {
                let k = index_of(after, id);
                let k0 = if k < i { k } else { k + 1 };
                assert(after[k] == entries[k0]);
                lemma_index_of_unique(entries, k0);
            }
        } else {
            assert forall|a: int, b: int| 0 <= a < b < after.len() implies (
            #[trigger] after[a]).spec.id != (#[trigger] after[b]).spec.id by {
                assert(after[a].spec.id == entries[a].spec.id);
                assert(after[b].spec.id == entries[b].spec.id);
            }
            assert forall|a: int| 0 <= a < after.len() implies (#[trigger] after[a]).since
                != Frontier::Empty by {
                if a != i {
                    assert(after[a] == entries[a]);
                } else {
                    assert(entries[i].since != Frontier::Empty);
                }
            }
            if entries_wf(entries) {
                assert forall|a: int| 0 <= a < after.len() implies Frontier::At(
                    (#[trigger] after[a]).spec.as_of,
                ).le(after[a].since) by {
                    if a != i {
                        assert(after[a] == entries[a]);
                    } else {
                        assert(entries[i].since != Frontier::Empty);
                        assert(Frontier::At(entries[i].spec.as_of).le(entries[i].since));
                    }
                }
            }
        }
    }
}

/// Allowing a collection to compact to one frontier and then to another
/// leaves the log as allowing it to compact to their join does.
pub proof fn lemma_compaction_joins(
    entries: Seq<LogEntryView>,
    id: GlobalId,
    first: Frontier,
    second: Frontier,
)
    requires
        held_wf(entries),
    ensures
        compact_one(compact_one(entries, id, first), id, second) == compact_one(
            entries,
            id,
            first.spec_join(second),
        ),
{
    let once = compact_one(entries, id, first);
    lemma_compact_one_wf(entries, id, first);
    if contains_id(entries, id) {
        let i = index_of(entries, id);
        if first != Frontier::Empty {
            assert(once[i].spec.id == id);
            lemma_index_of_unique(once, i);
            if second != Frontier::Empty {
                assert(compact_one(once, id, second) =~= compact_one(
                    entries,
                    id,
                    first.spec_join(second),
                ));
            } else {
                assert(compact_one(once, id, second) =~= compact_one(
                    entries,
                    id,
                    first.spec_join(second),
                ));
            }
        }
    }
}

/// The `since` that `entries` records for the collection `id`.
pub open spec fn since_of(entries: Seq<LogEntryView>, id: GlobalId) -> Frontier {
    entries[index_of(entries, id)].since
}

/// Whether every collection of `before` that `after` still holds has in
/// `after` a `since` that is at or beyond the one it had in `before`.
pub open spec fn since_never_regresses(before: Seq<LogEntryView>, after: Seq<LogEntryView>) -> bool {
    forall|id: GlobalId|
        contains_id(before, id) && #[trigger] contains_id(after, id) ==> since_of(before, id).le(
            since_of(after, id),
        )
}

/// Installing a spec keeps every collection and moves no `since`.
pub proof fn lemma_install_one_advances(
    entries: Seq<LogEntryView>,
    spec: CollectionSpecView,
    since: Frontier,
)
    requires
        held_wf(entries),
        since != Frontier::Empty,
    ensures
        forall|id: GlobalId|
            contains_id(entries, id) ==> (#[trigger] contains_id(
                install_one(entries, spec, since),
                id,
            )) && since_of(entries, id) == since_of(install_one(entries, spec, since), id),
{
    let after = install_one(entries, spec, since);
    lemma_install_one_wf(entries, spec, since);
    assert forall|id: GlobalId| contains_id(entries, id) implies (#[trigger] contains_id(after, id))
        && since_of(entries, id) == since_of(after, id) by {
        let i = index_of(entries, id);
        assert(after[i].spec.id == id);
        lemma_index_of_unique(after, i);
    }
}

/// Allowing a compaction adds no collection and moves no `since` back.
pub proof fn lemma_compact_one_advances(entries: Seq<LogEntryView>, id: GlobalId, frontier: Frontier)
    requires
        held_wf(entries),
    ensures
        forall|other: GlobalId| #[trigger]
            contains_id(compact_one(entries, id, frontier), other) ==> contains_id(entries, other)
                && since_of(entries, other).le(since_of(compact_one(entries, id, frontier), other)),
{
    let after = compact_one(entries, id, frontier);
    lemma_compact_one_wf(entries, id, frontier);
    assert forall|other: GlobalId| #[trigger] contains_id(after, other) implies contains_id(
        entries,
        other,
    ) && since_of(entries, other).le(since_of(after, other)) by {
        let k = index_of(after, other);
        if contains_id(entries, id) {
            let i = index_of(entries, id);
            let k0 = if frontier == Frontier::Empty && k >= i {
                k + 1
            } else {
                k
            };
            assert(entries[k0].spec.id == other);
            lemma_index_of_unique(entries, k0);
        } else {
            assert(entries[k].spec.id == other);
        }
    }
}

/// The entry of `entries` about the collection `id`.
pub open spec fn entry_of(entries: Seq<LogEntryView>, id: GlobalId) -> LogEntryView {
    entries[index_of(entries, id)]
}

/// Whether no collection has been compacted beyond a collection that reads
/// it: for every collection and each of its inputs that is among the
/// collections, the `since` of the input is at or before its own.
pub open spec fn respects_inputs(entries: Seq<LogEntryView>) -> bool {
    forall|d: int, k: int|
        0 <= d < entries.len() && 0 <= k < entries[d].spec.inputs.len() && contains_id(
            entries,
            #[trigger] entries[d].spec.inputs[k],
        ) ==> since_of(entries, entries[d].spec.inputs[k]).le(entries[d].since)
}

/// What allowing one compaction does to each collection: the collection
/// that is compacted is dropped, if the frontier is empty, or else has the
/// frontier joined into its `since`; every other collection stays as it is.
pub proof fn lemma_compact_one_by_id(
    entries: Seq<LogEntryView>,
    id: GlobalId,
    frontier: Frontier,
    other: GlobalId,
)
    requires
        held_wf(entries),
    ensures
        other != id || !contains_id(entries, id) ==> contains_id(
            compact_one(entries, id, frontier),
            other,
        ) == contains_id(entries, other) && (contains_id(entries, other) ==> entry_of(
            compact_one(entries, id, frontier),
            other,
        ) == entry_of(entries, other)),
        contains_id(entries, id) && frontier == Frontier::Empty ==> !contains_id(
            compact_one(entries, id, frontier),
            id,
        ),
        contains_id(entries, id) && frontier != Frontier::Empty ==> contains_id(
            compact_one(entries, id, frontier),
            id,
        ) && entry_of(compact_one(entries, id, frontier), id) == (LogEntryView {
            spec: entry_of(entries, id).spec,
            since: entry_of(entries, id).since.spec_join(frontier),
        }),
{
    let after = compact_one(entries, id, frontier);
    lemma_compact_one_wf(entries, id, frontier);
    if contains_id(entries, id) {
        let i = index_of(entries, id);
        if frontier != Frontier::Empty {
            assert(after[i].spec.id == id);
            lemma_index_of_unique(after, i);
        }
        if other != id {
            if contains_id(entries, other) {
                let k = index_of(entries, other);
                let k1 = if frontier == Frontier::Empty && k > i {
                    k - 1
                } else {
                    k
                };
                assert(after[k1] == entries[k]);
                lemma_index_of_unique(after, k1);
            }
            if contains_id(after, other) {
                let k = index_of(after, other);
                let k0 = if frontier == Frontier::Empty && k >= i {
                    k + 1
                } else {
                    k
                };
                assert(entries[k0].spec.id == other);
            }
        }
    }
}

/// What installing one spec does to each collection: the collection of the
/// spec has the spec, with the `since` that it had if it was known and with
/// `since` if it is new; every other collection stays as it is.
pub proof fn lemma_install_one_by_id(
    entries: Seq<LogEntryView>,
    spec: CollectionSpecView,
    since: Frontier,
    other: GlobalId,
)
    requires
        held_wf(entries),
        since != Frontier::Empty,
    ensures
        contains_id(install_one(entries, spec, since), other) == (contains_id(entries, other)
            || other == spec.id),
        other != spec.id && contains_id(entries, other) ==> entry_of(
            install_one(entries, spec, since),
            other,
        ) == entry_of(entries, other),
        entry_of(install_one(entries, spec, since), spec.id) == (LogEntryView {
            spec,
            since: if contains_id(entries, spec.id) {
                entry_of(entries, spec.id).since
            } else {
                since
            },
        }),
{
    let after = install_one(entries, spec, since);
    lemma_install_one_wf(entries, spec, since);
    let n = entries.len() as int;
    if contains_id(entries, spec.id) {
        let i = index_of(entries, spec.id);
        assert(after[i].spec.id == spec.id);
        lemma_index_of_unique(after, i);
        if contains_id(entries, other) {
            let k = index_of(entries, other);
            assert(after[k].spec.id == other);
            lemma_index_of_unique(after, k);
        }
        if contains_id(after, other) {
            let k = index_of(after, other);
            assert(entries[k].spec.id == other || other == spec.id);
        }
    } else {
        assert(after[n].spec.id == spec.id);
        lemma_index_of_unique(after, n);
        if contains_id(entries, other) {
            let k = index_of(entries, other);
            assert(after[k] == entries[k]);
            lemma_index_of_unique(after, k);
        }
        if contains_id(after, other) {
            let k = index_of(after, other);
            if k < n {
                assert(entries[k].spec.id == other);
            }
        }
    }
}

/// What installing one spec under an unused identifier does to each
/// collection: the new collection is compacted to `since`; every other
/// collection stays as it is.
pub proof fn lemma_install_new_by_id(
    entries: Seq<LogEntryView>,
    spec: CollectionSpecView,
    since: Frontier,
    other: GlobalId,
)
    requires
        held_wf(entries),
        since != Frontier::Empty,
        !contains_id(entries, spec.id),
    ensures
        contains_id(install_one(entries, spec, since), other) == (contains_id(entries, other)
            || other == spec.id),
        contains_id(entries, other) ==> entry_of(install_one(entries, spec, since), other)
            == entry_of(entries, other),
        entry_of(install_one(entries, spec, since), spec.id) == (LogEntryView { spec, since }),
{
    lemma_install_one_by_id(entries, spec, since, other);
}

/// Whether a compaction is remembered for the collection `id`.
pub open spec fn early_contains(early: Seq<(GlobalId, Frontier)>, id: GlobalId) -> bool {
    exists|i: int| 0 <= i < early.len() && (#[trigger] early[i]).0 == id
}

/// The place at which a compaction is remembered for the collection `id`.
pub open spec fn early_index(early: Seq<(GlobalId, Frontier)>, id: GlobalId) -> int {
    choose|i: int| 0 <= i < early.len() && (#[trigger] early[i]).0 == id
}

/// The invariant of what is remembered of collections that are not
/// installed yet: each collection once, and none closed.
pub open spec fn early_wf(early: Seq<(GlobalId, Frontier)>) -> bool {
    &&& forall|i: int, j: int|
        0 <= i < j < early.len() ==> (#[trigger] early[i]).0 != (#[trigger] early[j]).0
    &&& forall|i: int| 0 <= i < early.len() ==> (#[trigger] early[i]).1 != Frontier::Empty
}

/// The frontier to which the collection `id` was allowed to compact before
/// it was installed: what is remembered for it, or the least frontier if
/// nothing is.
pub open spec fn early_since(early: Seq<(GlobalId, Frontier)>, id: GlobalId) -> Frontier {
    if early_contains(early, id) {
        early[early_index(early, id)].1
    } else {
        Frontier::At(0)
    }
}

/// What is remembered without what is remembered for the collection `id`.
pub open spec fn early_without(early: Seq<(GlobalId, Frontier)>, id: GlobalId) -> Seq<
    (GlobalId, Frontier),
> {
    if early_contains(early, id) {
        early.remove(early_index(early, id))
    } else {
        early
    }
}

/// What is remembered after the collection `id`, which is not installed,
/// is allowed to compact to `frontier`: the frontier is joined into what is
/// remembered for the collection, or remembered at the end.
pub open spec fn early_joined(
    early: Seq<(GlobalId, Frontier)>,
    id: GlobalId,
    frontier: Frontier,
) -> Seq<(GlobalId, Frontier)> {
    if early_contains(early, id) {
        let i = early_index(early, id);
        early.update(i, (id, early[i].1.spec_join(frontier)))
    } else {
        early.push((id, frontier))
    }
}

/// The place at which a compaction is remembered for a collection is
/// unique.
pub proof fn lemma_early_index_unique(early: Seq<(GlobalId, Frontier)>, i: int)
    requires
        early_wf(early),
        0 <= i < early.len(),
    ensures
        early_contains(early, early[i].0),
        early_index(early, early[i].0) == i,
{
    let id = early[i].0;
    let j = early_index(early, id);
    assert(0 <= j < early.len() && early[j].0 == id);
    if i < j {
        assert(early[i].0 != early[j].0);
    }
    if j < i {
        assert(early[j].0 != early[i].0);
    }
}

/// Forgetting what is remembered for one collection leaves what is
/// remembered for the others.
pub proof fn lemma_early_without(early: Seq<(GlobalId, Frontier)>, id: GlobalId)
    requires
        early_wf(early),
    ensures
        early_wf(early_without(early, id)),
        !early_contains(early_without(early, id), id),
        forall|k: int|
            0 <= k < early_without(early, id).len() ==> early_contains(
                early,
                (#[trigger] early_without(early, id)[k]).0,
            ),
        !early_contains(early, id) ==> early_without(early, id) == early,
{
    let after = early_without(early, id);
    if early_contains(early, id) {
        let i = early_index(early, id);
        assert forall|k: int| 0 <= k < after.len() implies #[trigger] after[k] == early[if k < i {
            k
        } else {
            k + 1
        }] by {}
        assert forall|a: int, b: int| 0 <= a < b < after.len() implies (#[trigger] after[a]).0 != (
        #[trigger] after[b]).0 by {
            let a0 = if a < i { a } else { a + 1 };
            let b0 = if b < i { b } else { b + 1 };
            assert(after[a] == early[a0]);
            assert(after[b] == early[b0]);
        }
        assert forall|k: int| 0 <= k < after.len() implies (#[trigger] after[k]).1
            != Frontier::Empty && early_contains(early, after[k].0) && after[k].0 != id by {
            let k0 = if k < i { k } else { k + 1 };
            assert(after[k] == early[k0]);
            if k0 < i {
                assert(early[k0].0 != early[i].0);
            } else {
                assert(early[i].0 != early[k0].0);
            }
        }
    }
}

/// Joining a frontier into what is remembered for one collection leaves
/// what is remembered for the others.
pub proof fn lemma_early_joined(early: Seq<(GlobalId, Frontier)>, id: GlobalId, frontier: Frontier)
    requires
        early_wf(early),
        frontier != Frontier::Empty,
    ensures
        early_wf(early_joined(early, id, frontier)),
        early_contains(early_joined(early, id, frontier), id),
        early_since(early_joined(early, id, frontier), id) == if early_contains(early, id) {
            early_since(early, id).spec_join(frontier)
        } else {
            frontier
        },
        early_index(early_joined(early, id, frontier), id) == if early_contains(early, id) {
            early_index(early, id)
        } else {
            early.len() as int
        },
        forall|k: int|
            0 <= k < early_joined(early, id, frontier).len() ==> (#[trigger] early_joined(
                early,
                id,
                frontier,
            )[k]).0 == id || early_contains(early, early_joined(early, id, frontier)[k].0),
{
    let after = early_joined(early, id, frontier);
    if early_contains(early, id) {
        let i = early_index(early, id);
        assert(early[i].1 != Frontier::Empty);
        assert(after[i].0 == id);
        assert forall|a: int, b: int| 0 <= a < b < after.len() implies (#[trigger] after[a]).0 != (
        #[trigger] after[b]).0 by {
            assert(after[a].0 == early[a].0);
            assert(after[b].0 == early[b].0);
        }
        assert forall|k: int| 0 <= k < after.len() implies (#[trigger] after[k]).1
            != Frontier::Empty && (after[k].0 == id || early_contains(early, after[k].0)) by {
            if k != i {
                assert(after[k] == early[k]);
            }
        }
        lemma_early_index_unique(after, i);
    } else {
        let n = early.len() as int;
        assert(after[n].0 == id);
        assert forall|a: int, b: int| 0 <= a < b < after.len() implies (#[trigger] after[a]).0 != (
        #[trigger] after[b]).0 by {
            assert(after[a] == early[a]);
            if b < n {
                assert(after[b] == early[b]);
            }
        }
        assert forall|k: int| 0 <= k < after.len() implies (#[trigger] after[k]).1
            != Frontier::Empty && (after[k].0 == id || early_contains(early, after[k].0)) by {
            if k < n {
                assert(after[k] == early[k]);
            }
        }
        lemma_early_index_unique(after, n);
    }
}

/// The mathematical value of a [`CommandLog`].
pub struct LogView {
    /// The live collections with their `since`, in the order in which they
    /// were first installed.
    pub entries: Seq<LogEntryView>,
    /// The frontiers to which collections were allowed to compact that are
    /// not installed yet, in the order in which they were first heard of.
    pub early: Seq<(GlobalId, Frontier)>,
}

impl LogView {
    /// The log that holds nothing.
    pub open spec fn empty() -> LogView {
        LogView { entries: Seq::empty(), early: Seq::empty() }
    }

    /// The invariant of a log: its entries are well formed, and so is what
    /// it remembers of collections that are not installed, none of which
    /// has an entry.
    pub open spec fn wf(self) -> bool {
        &&& held_wf(self.entries)
        &&& early_wf(self.early)
        &&& forall|k: int|
            0 <= k < self.early.len() ==> !contains_id(self.entries, (#[trigger] self.early[k]).0)
    }

    /// The log after `spec` is installed. A known collection has its spec
    /// replaced and keeps its `since`. A new one gets an entry at the end,
    /// with the frontier to which it was allowed to compact before.
    pub open spec fn installed(self, spec: CollectionSpecView) -> LogView {
        LogView {
            entries: install_one(self.entries, spec, early_since(self.early, spec.id)),
            early: early_without(self.early, spec.id),
        }
    }

    /// The log after each of `specs` is installed, in order.
    pub open spec fn installed_all(self, specs: Seq<CollectionSpecView>) -> LogView
        decreases specs.len(),
    {
        if specs.len() == 0 {
            self
        } else {
            self.installed_all(specs.drop_last()).installed(specs.last())
        }
    }

    /// The log after the collection `id` is allowed to compact to
    /// `frontier`. The empty frontier closes the collection: nothing is kept
    /// of it. Any other frontier is joined into the `since` of the
    /// collection, or into what is remembered of it until it is installed.
    pub open spec fn compacted(self, id: GlobalId, frontier: Frontier) -> LogView {
        if contains_id(self.entries, id) || frontier == Frontier::Empty {
            LogView {
                entries: compact_one(self.entries, id, frontier),
                early: early_without(self.early, id),
            }
        } else {
            LogView { entries: self.entries, early: early_joined(self.early, id, frontier) }
        }
    }

    /// The log after each of `frontiers` is allowed, in order.
    pub open spec fn compacted_all(self, frontiers: Seq<(GlobalId, Frontier)>) -> LogView
        decreases frontiers.len(),
    {
        if frontiers.len() == 0 {
            self
        } else {
            self.compacted_all(frontiers.drop_last()).compacted(
                frontiers.last().0,
                frontiers.last().1,
            )
        }
    }
}

/// The log of a backend of kind `kind` after it has absorbed `command`.
///
/// An install command of the backend's own kind installs its specs; a
/// compaction command compacts; dropping the instance leaves nothing to
/// maintain. Every other command leaves the log as it is.
pub open spec fn absorbed(kind: BackendKind, log: LogView, command: CommandView) -> LogView {
    match command {
        CommandView::IngestSources(specs) => if kind == BackendKind::Storage {
            log.installed_all(specs)
        } else {
            log
        },
        CommandView::CreateDataflows(specs) => if kind == BackendKind::Compute {
            log.installed_all(specs)
        } else {
            log
        },
        CommandView::AllowCompaction(frontiers) => log.compacted_all(frontiers),
        CommandView::DropInstance => LogView::empty(),
        _ => log,
    }
}

/// Installing a spec keeps the log well formed; the log then holds the
/// collection and remembers nothing else of it.
pub proof fn lemma_installed_wf(log: LogView, spec: CollectionSpecView)
    requires
        log.wf(),
    ensures
        log.installed(spec).wf(),
        contains_id(log.installed(spec).entries, spec.id),
        entry_of(log.installed(spec).entries, spec.id).spec == spec,
        !early_contains(log.installed(spec).early, spec.id),
        early_since(log.early, spec.id) != Frontier::Empty,
{
    let after = log.installed(spec);
    let since = early_since(log.early, spec.id);
    if early_contains(log.early, spec.id) {
        let i = early_index(log.early, spec.id);
        assert(log.early[i].1 != Frontier::Empty);
    }
    lemma_install_one_wf(log.entries, spec, since);
    lemma_install_one_by_id(log.entries, spec, since, spec.id);
    lemma_early_without(log.early, spec.id);
    assert forall|k: int| 0 <= k < after.early.len() implies !contains_id(
        after.entries,
        (#[trigger] after.early[k]).0,
    ) by {
        let other = after.early[k].0;
        assert(early_contains(log.early, other));
        let k0 = early_index(log.early, other);
        assert(!contains_id(log.entries, log.early[k0].0));
        assert(other != spec.id) by {
            if other == spec.id {
                assert(early_contains(after.early, spec.id));
            }
        }
        lemma_install_one_by_id(log.entries, spec, since, other);
    }
}

/// Allowing a compaction keeps the log well formed.
pub proof fn lemma_compacted_wf(log: LogView, id: GlobalId, frontier: Frontier)
    requires
        log.wf(),
    ensures
        log.compacted(id, frontier).wf(),
{
    let after = log.compacted(id, frontier);
    if contains_id(log.entries, id) || frontier == Frontier::Empty {
        lemma_compact_one_wf(log.entries, id, frontier);
        lemma_compact_one_advances(log.entries, id, frontier);
        lemma_early_without(log.early, id);
        assert forall|k: int| 0 <= k < after.early.len() implies !contains_id(
            after.entries,
            (#[trigger] after.early[k]).0,
        ) by {
            let other = after.early[k].0;
            assert(early_contains(log.early, other));
            let k0 = early_index(log.early, other);
            assert(!contains_id(log.entries, log.early[k0].0));
            if contains_id(after.entries, other) {
                assert(contains_id(log.entries, other));
            }
        }
    } else {
        lemma_early_joined(log.early, id, frontier);
        assert forall|k: int| 0 <= k < after.early.len() implies !contains_id(
            after.entries,
            (#[trigger] after.early[k]).0,
        ) by {
            let other = after.early[k].0;
            if other != id {
                assert(early_contains(log.early, other));
                let k0 = early_index(log.early, other);
                assert(!contains_id(log.entries, log.early[k0].0));
            }
        }
    }
}

/// Installing specs keeps the log well formed.
pub proof fn lemma_installed_all_wf(log: LogView, specs: Seq<CollectionSpecView>)
    requires
        log.wf(),
    ensures
        log.installed_all(specs).wf(),
    decreases specs.len(),
{
    if specs.len() > 0 {
        lemma_installed_all_wf(log, specs.drop_last());
        lemma_installed_wf(log.installed_all(specs.drop_last()), specs.last());
    }
}

/// Allowing compactions keeps the log well formed.
pub proof fn lemma_compacted_all_wf(log: LogView, frontiers: Seq<(GlobalId, Frontier)>)
    requires
        log.wf(),
    ensures
        log.compacted_all(frontiers).wf(),
    decreases frontiers.len(),
{
    if frontiers.len() > 0 {
        lemma_compacted_all_wf(log, frontiers.drop_last());
        lemma_compacted_wf(
            log.compacted_all(frontiers.drop_last()),
            frontiers.last().0,
            frontiers.last().1,
        );
    }
}

/// Whatever command a log absorbs, it stays well formed.
pub proof fn lemma_absorbed_wf(kind: BackendKind, log: LogView, command: CommandView)
    requires
        log.wf(),
    ensures
        absorbed(kind, log, command).wf(),
{
    match command {
        CommandView::IngestSources(specs) => {
            lemma_installed_all_wf(log, specs);
        },
        CommandView::CreateDataflows(specs) => {
            lemma_installed_all_wf(log, specs);
        },
        CommandView::AllowCompaction(frontiers) => {
            lemma_compacted_all_wf(log, frontiers);
        },
        _ => {},
    }
}

proof fn lemma_installed_all_singleton(log: LogView, spec: CollectionSpecView)
    ensures
        log.installed_all(seq![spec]) == log.installed(spec),
{
    let specs = seq![spec];
    assert(specs.drop_last() =~= Seq::<CollectionSpecView>::empty());
    assert(log.installed_all(specs.drop_last()) == log);
    assert(specs.last() == spec);
}

proof fn lemma_compacted_all_singleton(log: LogView, id: GlobalId, frontier: Frontier)
    ensures
        log.compacted_all(seq![(id, frontier)]) == log.compacted(id, frontier),
{
    let frontiers = seq![(id, frontier)];
    assert(frontiers.drop_last() =~= Seq::<(GlobalId, Frontier)>::empty());
    assert(log.compacted_all(frontiers.drop_last()) == log);
    assert(frontiers.last() == (id, frontier));
}

/// Installing the same spec a second time leaves the log as the first
/// installation left it.
pub proof fn lemma_install_is_idempotent(log: LogView, spec: CollectionSpecView)
    requires
        log.wf(),
    ensures
        log.installed(spec).installed(spec) == log.installed(spec),
{
    let once = log.installed(spec);
    let twice = once.installed(spec);
    lemma_installed_wf(log, spec);
    lemma_early_without(once.early, spec.id);
    let i = index_of(once.entries, spec.id);
    assert(0 <= i < once.entries.len() && once.entries[i].spec.id == spec.id);
    assert(once.entries[i].spec == spec);
    assert(twice.entries =~= once.entries);
    assert(twice.early =~= once.early);
}

/// Absorbing the installation of one spec twice leaves the log as absorbing
/// it once does, for a backend of either kind.
pub proof fn lemma_absorb_install_is_idempotent(
    kind: BackendKind,
    log: LogView,
    spec: CollectionSpecView,
)
    requires
        log.wf(),
    ensures
        absorbed(kind, absorbed(kind, log, CommandView::IngestSources(seq![spec])),
            CommandView::IngestSources(seq![spec])) == absorbed(
            kind,
            log,
            CommandView::IngestSources(seq![spec]),
        ),
        absorbed(kind, absorbed(kind, log, CommandView::CreateDataflows(seq![spec])),
            CommandView::CreateDataflows(seq![spec])) == absorbed(
            kind,
            log,
            CommandView::CreateDataflows(seq![spec]),
        ),
{
    lemma_install_is_idempotent(log, spec);
    lemma_installed_all_singleton(log, spec);
    lemma_installed_all_singleton(log.installed(spec), spec);
}

/// Whether none of the specs after place `k` and before place `n` is about
/// the collection that the spec at `k` is about.
spec fn is_last_about(specs: Seq<CollectionSpecView>, k: int, n: int) -> bool {
    forall|j: int| k < j < n ==> (#[trigger] specs[j]).id != specs[k].id
}

/// Whether the log holds what installing the spec at place `k` leaves
/// behind: an entry about its collection, with this very spec if no later
/// spec is about the collection, and nothing remembered beside it.
spec fn holds_installed(log: LogView, specs: Seq<CollectionSpecView>, k: int) -> bool {
    &&& contains_id(log.entries, specs[k].id)
    &&& !early_contains(log.early, specs[k].id)
    &&& is_last_about(specs, k, specs.len() as int) ==> entry_of(log.entries, specs[k].id).spec
        == specs[k]
}

/// Whether the log holds what installing each of `specs` leaves behind.
spec fn holds_all_installed(log: LogView, specs: Seq<CollectionSpecView>) -> bool {
    forall|k: int| 0 <= k < specs.len() ==> #[trigger] holds_installed(log, specs, k)
}

/// A log into which `specs` were installed holds what each of them leaves
/// behind.
proof fn lemma_installed_are_held(log: LogView, specs: Seq<CollectionSpecView>)
    requires
        log.wf(),
    ensures
        log.installed_all(specs).wf(),
        holds_all_installed(log.installed_all(specs), specs),
    decreases specs.len(),
{
    if specs.len() > 0 {
        let earlier = specs.drop_last();
        let spec = specs.last();
        let before = log.installed_all(earlier);
        let after = before.installed(spec);
        let n = specs.len() as int;
        lemma_installed_are_held(log, earlier);
        lemma_installed_wf(before, spec);
        lemma_early_without(before.early, spec.id);
        assert forall|k: int| 0 <= k < n implies #[trigger] holds_installed(after, specs, k) by {
            let since = early_since(before.early, spec.id);
            lemma_install_one_by_id(before.entries, spec, since, specs[k].id);
            if k < n - 1 {
                assert(holds_installed(before, earlier, k));
                assert(earlier[k] == specs[k]);
                if early_contains(after.early, specs[k].id) {
                    let q = early_index(after.early, specs[k].id);
                    assert(early_contains(before.early, after.early[q].0));
                }
                if specs[k].id == spec.id {
                    assert(specs[n - 1].id == specs[k].id);
                    assert(!is_last_about(specs, k, n));
                } else if is_last_about(specs, k, n) {
                    assert forall|j: int| k < j < n - 1 implies (#[trigger] earlier[j]).id
                        != earlier[k].id by {
                        assert(earlier[j] == specs[j]);
                    }
                    assert(is_last_about(earlier, k, n - 1));
                }
            } else {
                assert(specs[k] == spec);
            }
        }
    }
}

/// Whether the entry at place `i` of `again` has the spec at place `k`,
/// which is about its collection and the last about it before place `n`.
spec fn has_spec_of(
    held: Seq<LogEntryView>,
    again: Seq<LogEntryView>,
    specs: Seq<CollectionSpecView>,
    n: int,
    i: int,
    k: int,
) -> bool {
    &&& 0 <= k < n
    &&& specs[k].id == held[i].spec.id
    &&& again[i].spec == specs[k]
    &&& is_last_about(specs, k, n)
}

/// Whether the entry at place `i` of `again` is what installing the first
/// `n` of `specs` once more makes of the entry at place `i` of `held`: it is
/// about the same collection, compacted as far, and has the spec that it
/// had or the last of those specs that is about its collection.
spec fn is_reinstalled(
    held: Seq<LogEntryView>,
    again: Seq<LogEntryView>,
    specs: Seq<CollectionSpecView>,
    n: int,
    i: int,
) -> bool {
    &&& again[i].spec.id == held[i].spec.id
    &&& again[i].since == held[i].since
    &&& again[i].spec == held[i].spec || exists|k: int|
        #[trigger] has_spec_of(held, again, specs, n, i, k)
}

/// Installing the first `n` of `specs` into a log that holds what each of
/// them leaves behind changes no entry but for its spec.
proof fn lemma_reinstalled(held: LogView, specs: Seq<CollectionSpecView>, n: int)
    requires
        held.wf(),
        holds_all_installed(held, specs),
        0 <= n <= specs.len(),
    ensures
        held.installed_all(specs.subrange(0, n)).wf(),
        held.installed_all(specs.subrange(0, n)).early == held.early,
        held.installed_all(specs.subrange(0, n)).entries.len() == held.entries.len(),
        forall|i: int|
            0 <= i < held.entries.len() ==> #[trigger] is_reinstalled(
                held.entries,
                held.installed_all(specs.subrange(0, n)).entries,
                specs,
                n,
                i,
            ),
    decreases n,
{
    let again = held.installed_all(specs.subrange(0, n));
    if n > 0 {
        let spec = specs[n - 1];
        assert(specs.subrange(0, n).drop_last() =~= specs.subrange(0, n - 1));
        assert(specs.subrange(0, n).last() == spec);
        let before = held.installed_all(specs.subrange(0, n - 1));
        lemma_reinstalled(held, specs, n - 1);
        lemma_installed_wf(before, spec);
        assert(again == before.installed(spec));
        assert(holds_installed(held, specs, n - 1));
        lemma_early_without(before.early, spec.id);
        let p = index_of(held.entries, spec.id);
        assert(0 <= p < held.entries.len() && held.entries[p].spec.id == spec.id);
        assert(is_reinstalled(held.entries, before.entries, specs, n - 1, p));
        assert(before.entries[p].spec.id == spec.id);
        lemma_index_of_unique(before.entries, p);
        assert forall|i: int| 0 <= i < held.entries.len() implies #[trigger] is_reinstalled(
            held.entries,
            again.entries,
            specs,
            n,
            i,
        ) by {
            assert(is_reinstalled(held.entries, before.entries, specs, n - 1, i));
            if i == p {
                assert(has_spec_of(held.entries, again.entries, specs, n, i, n - 1));
            } else {
                assert(again.entries[i] == before.entries[i]);
                if again.entries[i].spec != held.entries[i].spec {
                    let k = choose|k: int| #[trigger]
                        has_spec_of(held.entries, before.entries, specs, n - 1, i, k);
                    if i < p {
                        assert(held.entries[i].spec.id != held.entries[p].spec.id);
                    } else {
                        assert(held.entries[p].spec.id != held.entries[i].spec.id);
                    }
                    assert(has_spec_of(held.entries, again.entries, specs, n, i, k));
                }
            }
        }
    } else {
        assert(specs.subrange(0, 0) =~= Seq::<CollectionSpecView>::empty());
        assert forall|i: int| 0 <= i < held.entries.len() implies #[trigger] is_reinstalled(
            held.entries,
            again.entries,
            specs,
            n,
            i,
        ) by {}
    }
}

/// Installing the same specs a second time leaves the log as the first
/// installation left it, however many specs there are and whatever
/// collections they are about.
pub proof fn lemma_install_all_is_idempotent(log: LogView, specs: Seq<CollectionSpecView>)
    requires
        log.wf(),
    ensures
        log.installed_all(specs).installed_all(specs) == log.installed_all(specs),
{
    let once = log.installed_all(specs);
    let n = specs.len() as int;
    lemma_installed_are_held(log, specs);
    lemma_reinstalled(once, specs, n);
    assert(specs.subrange(0, n) =~= specs);
    let twice = once.installed_all(specs);
    assert forall|i: int| 0 <= i < once.entries.len() implies twice.entries[i]
        == once.entries[i] by {
        assert(is_reinstalled(once.entries, twice.entries, specs, n, i));
        if twice.entries[i].spec != once.entries[i].spec {
            let k = choose|k: int| #[trigger]
                has_spec_of(once.entries, twice.entries, specs, n, i, k);
            assert(holds_installed(once, specs, k));
            lemma_index_of_unique(once.entries, i);
        }
    }
    assert(twice.entries =~= once.entries);
}

/// Absorbing the same install command twice leaves the log as absorbing it
/// once does, for a backend of either kind and a command of either kind.
pub proof fn lemma_absorb_installs_is_idempotent(
    kind: BackendKind,
    log: LogView,
    specs: Seq<CollectionSpecView>,
)
    requires
        log.wf(),
    ensures
        absorbed(kind, absorbed(kind, log, CommandView::IngestSources(specs)),
            CommandView::IngestSources(specs)) == absorbed(
            kind,
            log,
            CommandView::IngestSources(specs),
        ),
        absorbed(kind, absorbed(kind, log, CommandView::CreateDataflows(specs)),
            CommandView::CreateDataflows(specs)) == absorbed(
            kind,
            log,
            CommandView::CreateDataflows(specs),
        ),
{
    lemma_install_all_is_idempotent(log, specs);
}

/// Allowing a collection to compact to one frontier and then to another
/// leaves the live collections and their `since` as allowing it to compact
/// to their join does. The whole log is left the same too, unless the first
/// frontier closes the collection and the second does not: what is allowed
/// of a closed collection is remembered as of a collection not yet
/// installed.
pub proof fn lemma_compacted_joins(log: LogView, id: GlobalId, first: Frontier, second: Frontier)
    requires
        log.wf(),
    ensures
        log.compacted(id, first).compacted(id, second).entries == log.compacted(
            id,
            first.spec_join(second),
        ).entries,
        first != Frontier::Empty || second == Frontier::Empty ==> log.compacted(
            id,
            first,
        ).compacted(id, second) == log.compacted(id, first.spec_join(second)),
{
    let once = log.compacted(id, first);
    let twice = once.compacted(id, second);
    let joined = log.compacted(id, first.spec_join(second));
    lemma_compacted_wf(log, id, first);
    lemma_compaction_joins(log.entries, id, first, second);
    lemma_compact_one_by_id(log.entries, id, first, id);
    lemma_early_without(log.early, id);
    lemma_early_without(once.early, id);
    if contains_id(log.entries, id) {
        if early_contains(log.early, id) {
            let k = early_index(log.early, id);
            assert(!contains_id(log.entries, log.early[k].0));
        }
        assert(twice.entries =~= joined.entries);
        if first != Frontier::Empty || second == Frontier::Empty {
            assert(twice.early =~= joined.early);
        }
    } else if first == Frontier::Empty {
        assert(twice.entries =~= joined.entries);
        if second == Frontier::Empty {
            assert(twice.early =~= joined.early);
        }
    } else {
        lemma_early_joined(log.early, id, first);
        assert(twice.entries =~= joined.entries);
        if second == Frontier::Empty {
            if early_contains(log.early, id) {
                let k = early_index(log.early, id);
                assert(once.early.remove(k) =~= log.early.remove(k));
            } else {
                assert(once.early.remove(log.early.len() as int) =~= log.early);
            }
            assert(twice.early =~= joined.early);
        } else {
            if early_contains(log.early, id) {
                let k = early_index(log.early, id);
                assert(log.early[k].1 != Frontier::Empty);
            }
            assert(twice.early =~= joined.early);
        }
    }
}

/// Absorbing two compaction commands for one collection leaves the live
/// collections and their `since` as absorbing one command with the join of
/// their frontiers does, and the whole log too unless the first frontier
/// is empty and the second is not.
pub proof fn lemma_absorb_compaction_joins(
    kind: BackendKind,
    log: LogView,
    id: GlobalId,
    first: Frontier,
    second: Frontier,
)
    requires
        log.wf(),
    ensures
        absorbed(
            kind,
            absorbed(kind, log, CommandView::AllowCompaction(seq![(id, first)])),
            CommandView::AllowCompaction(seq![(id, second)]),
        ).entries == absorbed(
            kind,
            log,
            CommandView::AllowCompaction(seq![(id, first.spec_join(second))]),
        ).entries,
        first != Frontier::Empty || second == Frontier::Empty ==> absorbed(
            kind,
            absorbed(kind, log, CommandView::AllowCompaction(seq![(id, first)])),
            CommandView::AllowCompaction(seq![(id, second)]),
        ) == absorbed(
            kind,
            log,
            CommandView::AllowCompaction(seq![(id, first.spec_join(second))]),
        ),
{
    lemma_compacted_joins(log, id, first, second);
    lemma_compacted_all_singleton(log, id, first);
    lemma_compacted_all_singleton(log.compacted(id, first), id, second);
    lemma_compacted_all_singleton(log, id, first.spec_join(second));
}

/// Installing a spec and allowing the collection of the spec to compact can
/// be done in either order: a compaction that comes first is remembered
/// until the collection is installed.
proof fn lemma_compaction_commutes_with_own_install(
    log: LogView,
    spec: CollectionSpecView,
    frontier: Frontier,
)
    requires
        log.wf(),
        frontier != Frontier::Empty,
    ensures
        log.installed(spec).compacted(spec.id, frontier) == log.compacted(
            spec.id,
            frontier,
        ).installed(spec),
{
    let id = spec.id;
    let first = log.installed(spec);
    let left = first.compacted(id, frontier);
    let second = log.compacted(id, frontier);
    let right = second.installed(spec);
    lemma_installed_wf(log, spec);
    lemma_compacted_wf(log, id, frontier);
    lemma_installed_wf(second, spec);
    lemma_early_without(log.early, id);
    lemma_early_without(first.early, id);
    lemma_early_without(second.early, id);
    let i = index_of(first.entries, id);
    assert(0 <= i < first.entries.len() && first.entries[i].spec.id == id);
    if contains_id(log.entries, id) {
        let i0 = index_of(log.entries, id);
        assert(first.entries[i0].spec.id == id);
        lemma_index_of_unique(first.entries, i0);
        assert(second.entries[i0].spec.id == id);
        lemma_index_of_unique(second.entries, i0);
        if early_contains(log.early, id) {
            let k = early_index(log.early, id);
            assert(!contains_id(log.entries, log.early[k].0));
        }
        assert(left.entries =~= right.entries);
        assert(left.early =~= right.early);
    } else {
        let n = log.entries.len() as int;
        assert(first.entries[n].spec.id == id);
        lemma_index_of_unique(first.entries, n);
        lemma_early_joined(log.early, id, frontier);
        if early_contains(log.early, id) {
            let k = early_index(log.early, id);
            assert(log.early[k].1 != Frontier::Empty);
            assert(second.early.remove(k) =~= log.early.remove(k));
        } else {
            assert(second.early.remove(log.early.len() as int) =~= log.early);
        }
        assert(left.entries =~= right.entries);
        assert(left.early =~= right.early);
    }
}

/// Installing a spec and allowing another collection to compact can be done
/// in either order.
proof fn lemma_compaction_commutes_with_other_install(
    log: LogView,
    spec: CollectionSpecView,
    id: GlobalId,
    frontier: Frontier,
)
    requires
        log.wf(),
        frontier != Frontier::Empty,
        id != spec.id,
    ensures
        log.installed(spec).compacted(id, frontier) == log.compacted(id, frontier).installed(spec),
{
    let sid = spec.id;
    let since = early_since(log.early, sid);
    let first = log.installed(spec);
    let left = first.compacted(id, frontier);
    let second = log.compacted(id, frontier);
    let right = second.installed(spec);
    lemma_installed_wf(log, spec);
    lemma_compacted_wf(log, id, frontier);
    lemma_install_one_by_id(log.entries, spec, since, id);
    lemma_compact_one_by_id(log.entries, id, frontier, sid);
    lemma_early_without(log.early, sid);
    lemma_early_without(log.early, id);
    if contains_id(log.entries, id) {
        let j = index_of(log.entries, id);
        assert(0 <= j < log.entries.len() && log.entries[j].spec.id == id);
        if early_contains(log.early, id) {
            let k = early_index(log.early, id);
            assert(!contains_id(log.entries, log.early[k].0));
        }
        if early_contains(first.early, id) {
            let k = early_index(first.early, id);
            assert(early_contains(log.early, first.early[k].0));
        }
        lemma_early_without(first.early, id);
        assert(second.early == log.early);
        assert(left.early =~= right.early);
        assert(first.entries[j].spec.id == id);
        lemma_index_of_unique(first.entries, j);
        if contains_id(log.entries, sid) {
            let i = index_of(log.entries, sid);
            assert(0 <= i < log.entries.len() && log.entries[i].spec.id == sid);
            assert(second.entries[i].spec.id == sid);
            lemma_index_of_unique(second.entries, i);
            assert(left.entries =~= right.entries);
        } else {
            assert(left.entries =~= right.entries);
        }
    } else {
        lemma_early_joined(log.early, id, frontier);
        lemma_early_joined(first.early, id, frontier);
        lemma_early_without(second.early, sid);
        assert(left.entries == first.entries);
        assert(second.entries == log.entries);
        if early_contains(log.early, sid) {
            let a = early_index(log.early, sid);
            assert(0 <= a < log.early.len() && log.early[a].0 == sid);
            assert(second.early[a].0 == sid);
            lemma_early_index_unique(second.early, a);
            assert(second.early[a].1 == log.early[a].1);
            if early_contains(log.early, id) {
                let b = early_index(log.early, id);
                assert(0 <= b < log.early.len() && log.early[b].0 == id);
                let moved = if b < a {
                    b
                } else {
                    b - 1
                };
                assert(first.early[moved] == log.early[b]);
                lemma_early_index_unique(first.early, moved);
                assert(left.early =~= right.early);
            } else {
                if early_contains(first.early, id) {
                    let k = early_index(first.early, id);
                    assert(early_contains(log.early, first.early[k].0));
                }
                assert(left.early =~= right.early);
            }
        } else {
            assert(first.early == log.early);
            if early_contains(second.early, sid) {
                let k = early_index(second.early, sid);
                assert(second.early[k].0 == id || early_contains(log.early, second.early[k].0));
            }
            assert(left.early =~= right.early);
        }
        assert(early_since(second.early, sid) == since);
        assert(left.entries =~= right.entries);
    }
}

/// Installing a spec and allowing a collection to compact can be done in
/// either order, whether the collection is that of the spec or another: a
/// compaction that comes before its collection is installed is remembered
/// until the collection is.
pub proof fn lemma_compaction_commutes_with_install(
    log: LogView,
    spec: CollectionSpecView,
    id: GlobalId,
    frontier: Frontier,
)
    requires
        log.wf(),
        frontier != Frontier::Empty,
    ensures
        log.installed(spec).compacted(id, frontier) == log.compacted(id, frontier).installed(spec),
{
    if id == spec.id {
        lemma_compaction_commutes_with_own_install(log, spec, frontier);
    } else {
        lemma_compaction_commutes_with_other_install(log, spec, id, frontier);
    }
}

/// Installing specs keeps every collection and moves no `since`.
proof fn lemma_installed_all_advances(log: LogView, specs: Seq<CollectionSpecView>)
    requires
        log.wf(),
    ensures
        forall|id: GlobalId|
            contains_id(log.entries, id) ==> (#[trigger] contains_id(
                log.installed_all(specs).entries,
                id,
            )) && since_of(log.entries, id) == since_of(log.installed_all(specs).entries, id),
    decreases specs.len(),
{
    if specs.len() > 0 {
        let mid = log.installed_all(specs.drop_last());
        lemma_installed_all_advances(log, specs.drop_last());
        lemma_installed_all_wf(log, specs.drop_last());
        lemma_installed_wf(mid, specs.last());
        lemma_install_one_advances(
            mid.entries,
            specs.last(),
            early_since(mid.early, specs.last().id),
        );
        let after = log.installed_all(specs);
        assert forall|id: GlobalId| contains_id(log.entries, id) implies (#[trigger] contains_id(
            after.entries,
            id,
        )) && since_of(log.entries, id) == since_of(after.entries, id) by {
            assert(contains_id(mid.entries, id));
            assert(contains_id(
                install_one(mid.entries, specs.last(), early_since(mid.early, specs.last().id)),
                id,
            ));
        }
    }
}

/// Allowing compactions adds no collection and moves no `since` back.
proof fn lemma_compacted_all_advances(log: LogView, frontiers: Seq<(GlobalId, Frontier)>)
    requires
        log.wf(),
    ensures
        forall|other: GlobalId| #[trigger]
            contains_id(log.compacted_all(frontiers).entries, other) ==> contains_id(
                log.entries,
                other,
            ) && since_of(log.entries, other).le(
                since_of(log.compacted_all(frontiers).entries, other),
            ),
    decreases frontiers.len(),
{
    if frontiers.len() > 0 {
        let mid = log.compacted_all(frontiers.drop_last());
        lemma_compacted_all_advances(log, frontiers.drop_last());
        lemma_compacted_all_wf(log, frontiers.drop_last());
        lemma_compact_one_advances(mid.entries, frontiers.last().0, frontiers.last().1);
        let after = log.compacted_all(frontiers);
        assert forall|other: GlobalId| #[trigger] contains_id(after.entries, other) implies contains_id(
            log.entries,
            other,
        ) && since_of(log.entries, other).le(since_of(after.entries, other)) by {
            assert(after.entries == mid.entries || after.entries == compact_one(
                mid.entries,
                frontiers.last().0,
                frontiers.last().1,
            ));
            assert(contains_id(
                compact_one(mid.entries, frontiers.last().0, frontiers.last().1),
                other,
            ));
            assert(contains_id(mid.entries, other));
        }
    }
}

/// Whatever command a log absorbs, the `since` that it records for a
/// collection never moves back while the log holds the collection, and an
/// install command moves none.
pub proof fn lemma_absorbed_since_never_regresses(
    kind: BackendKind,
    log: LogView,
    command: CommandView,
)
    requires
        log.wf(),
    ensures
        since_never_regresses(log.entries, absorbed(kind, log, command).entries),
        command is IngestSources || command is CreateDataflows ==> forall|id: GlobalId|
            contains_id(log.entries, id) ==> (#[trigger] contains_id(
                absorbed(kind, log, command).entries,
                id,
            )) && since_of(log.entries, id) == since_of(absorbed(kind, log, command).entries, id),
{
    match command {
        CommandView::IngestSources(specs) => {
            lemma_installed_all_advances(log, specs);
        },
        CommandView::CreateDataflows(specs) => {
            lemma_installed_all_advances(log, specs);
        },
        CommandView::AllowCompaction(frontiers) => {
            lemma_compacted_all_advances(log, frontiers);
        },
        CommandView::DropInstance => {
            assert forall|id: GlobalId| !contains_id(Seq::<LogEntryView>::empty(), id) by {}
        },
        _ => {},
    }
}

/// The live collections of one backend with their `since`, in the order in
/// which they were first installed.
#[derive(Debug)]
pub struct CollectionTable {
    kind: BackendKind,
    entries: Vec<LogEntry>,
}

impl View for CollectionTable {
    type V = Seq<LogEntryView>;

    closed spec fn view(&self) -> Seq<LogEntryView> {
        self.entries@.map_values(|e: LogEntry| e@)
    }
}

impl CollectionTable {
    /// The kind of backend that the collections are kept for.
    pub closed spec fn spec_kind(&self) -> BackendKind {
        self.kind
    }

    /// The invariant of the collections.
    pub open spec fn wf(&self) -> bool {
        held_wf(self@)
    }

    /// No collections.
    pub fn new(kind: BackendKind) -> (table: CollectionTable)
        ensures
            table.wf(),
            table.spec_kind() == kind,
            table@ == Seq::<LogEntryView>::empty(),
    {
        let table = CollectionTable { kind, entries: Vec::new() };
        assert(table@ =~= Seq::<LogEntryView>::empty());
        table
    }

    /// The kind of backend that the collections are kept for.
    pub fn kind(&self) -> (kind: BackendKind)
        ensures
            kind == self.spec_kind(),
    {
        self.kind
    }

    /// The number of collections.
    pub fn len(&self) -> (n: usize)
        ensures
            n == self@.len(),
    {
        self.entries.len()
    }

    /// The entry at place `i`.
    pub fn entry(&self, i: usize) -> (entry: &LogEntry)
        requires
            i < self@.len(),
        ensures
            entry@ == self@[i as int],
    {
        &self.entries[i]
    }

    /// The place of the entry about `id`, if there is one.
    pub fn position(&self, id: GlobalId) -> (place: Option<usize>)
        requires
            self.wf(),
        ensures
            match place {
                Some(i) => contains_id(self@, id) && i == index_of(self@, id),
                None => !contains_id(self@, id),
            },
    {
        let mut i: usize = 0;
        while i < self.entries.len()
            invariant
                i <= self.entries.len(),
                self.wf(),
                forall|j: int| 0 <= j < i ==> (#[trigger] self@[j]).spec.id != id,
            decreases self.entries.len() - i,
        {
            if self.entries[i].spec.id == id {
                proof {
                    assert(self@[i as int].spec.id == id);
                    lemma_index_of_unique(self@, i as int);
                }
                return Some(i);
            }
            assert(self@[i as int].spec.id != id);
            i = i + 1;
        }
        None
    }

    /// The frontier up to which `id` may have been compacted, if the
    /// collection is held.
    pub fn since(&self, id: GlobalId) -> (since: Option<Frontier>)
        requires
            self.wf(),
        ensures
            match since {
                Some(f) => contains_id(self@, id) && f == self@[index_of(self@, id)].since,
                None => !contains_id(self@, id),
            },
    {
        match self.position(id) {
            Some(i) => Some(self.entries[i].since),
            None => None,
        }
    }

    /// Records that `spec` was installed. A collection that is held has its
    /// spec replaced and keeps its `since`; a new one starts compacted to
    /// `since`.
    pub fn install(&mut self, spec: CollectionSpec, since: Frontier)
        requires
            old(self).wf(),
            since != Frontier::Empty,
        ensures
            final(self).wf(),
            final(self).spec_kind() == old(self).spec_kind(),
            final(self)@ == install_one(old(self)@, spec@, since),
    {
        proof {
            lemma_install_one_wf(self@, spec@, since);
        }
        match self.position(spec.id) {
            Some(i) => {
                self.entries[i].spec = spec;
                assert(self@ =~= install_one(old(self)@, spec@, since));
            },
            None => {
                self.entries.push(LogEntry { spec, since });
                assert(self@ =~= install_one(old(self)@, spec@, since));
            },
        }
    }

    /// Records that the collection `id` may compact to `frontier`.
    pub fn allow_compaction(&mut self, id: GlobalId, frontier: Frontier)
        requires
            old(self).wf(),
        ensures
            final(self).wf(),
            final(self).spec_kind() == old(self).spec_kind(),
            final(self)@ == compact_one(old(self)@, id, frontier),
    {
        proof {
            lemma_compact_one_wf(self@, id, frontier);
        }
        match self.position(id) {
            Some(i) => {
                if frontier.is_empty() {
                    self.entries.remove(i);
                    assert(self@ =~= compact_one(old(self)@, id, frontier));
                } else {
                    let since = self.entries[i].since.join(&frontier);
                    self.entries[i].since = since;
                    assert(self@ =~= compact_one(old(self)@, id, frontier));
                }
            },
            None => {},
        }
    }

    /// The two commands that bring a freshly connected backend to the state
    /// that the collections describe: one that installs every spec, and one
    /// that allows every collection to compact to its `since`.
    pub fn rehydration_commands(&self) -> (commands: (Command, Command))
        ensures
            commands.0@ == match self.spec_kind() {
                BackendKind::Storage => CommandView::IngestSources(live_specs(self@)),
                BackendKind::Compute => CommandView::CreateDataflows(live_specs(self@)),
            },
            commands.1@ == CommandView::AllowCompaction(recorded_sinces(self@)),
    {
        let mut specs: Vec<CollectionSpec> = Vec::new();
        let mut sinces: Vec<(GlobalId, Frontier)> = Vec::new();
        let mut k: usize = 0;
        while k < self.entries.len()
            invariant
                k <= self.entries.len(),
                specs@.len() == k,
                sinces@.len() == k,
                forall|j: int| 0 <= j < k ==> (#[trigger] specs@[j])@ == self@[j].spec,
                forall|j: int|
                    0 <= j < k ==> #[trigger] sinces@[j] == (self@[j].spec.id, self@[j].since),
            decreases self.entries.len() - k,
        {
            specs.push(self.entries[k].spec.clone());
            sinces.push((self.entries[k].spec.id, self.entries[k].since));
            k = k + 1;
        }
        assert(spec_views(specs@) =~= live_specs(self@));
        assert(sinces@ =~= recorded_sinces(self@));
        let install = match self.kind {
            BackendKind::Storage => Command::IngestSources(specs),
            BackendKind::Compute => Command::CreateDataflows(specs),
        };
        (install, Command::AllowCompaction(sinces))
    }
}

impl Clone for CollectionTable {
    fn clone(&self) -> (copy: CollectionTable)
        ensures
            copy@ == self@,
            copy.spec_kind() == self.spec_kind(),
    {
        let mut entries: Vec<LogEntry> = Vec::new();
        let mut k: usize = 0;
        while k < self.entries.len()
            invariant
                k <= self.entries.len(),
                entries@.len() == k,
                forall|j: int| 0 <= j < k ==> (#[trigger] entries@[j])@ == self@[j],
            decreases self.entries.len() - k,
        {
            entries.push(
                LogEntry { spec: self.entries[k].spec.clone(), since: self.entries[k].since },
            );
            k = k + 1;
        }
        let copy = CollectionTable { kind: self.kind, entries };
        assert(copy@ =~= self@);
        copy
    }
}

/// The minimal command log of one backend.
#[derive(Debug)]
pub struct CommandLog {
    table: CollectionTable,
    early: Vec<(GlobalId, Frontier)>,
}

impl View for CommandLog {
    type V = LogView;

    closed spec fn view(&self) -> LogView {
        LogView { entries: self.table@, early: self.early@ }
    }
}

impl CommandLog {
    /// The kind of backend that the log is kept for.
    pub closed spec fn spec_kind(&self) -> BackendKind {
        self.table.spec_kind()
    }

    /// The invariant of the log.
    pub open spec fn wf(&self) -> bool {
        self@.wf()
    }

    /// A log that holds nothing.
    pub fn new(kind: BackendKind) -> (log: CommandLog)
        ensures
            log.wf(),
            log.spec_kind() == kind,
            log@ == LogView::empty(),
    {
        let log = CommandLog { table: CollectionTable::new(kind), early: Vec::new() };
        assert(log@.early =~= Seq::<(GlobalId, Frontier)>::empty());
        log
    }

    /// The log that holds the collections of `table` and remembers nothing
    /// else.
    pub fn of_table(table: CollectionTable) -> (log: CommandLog)
        requires
            table.wf(),
        ensures
            log.wf(),
            log.spec_kind() == table.spec_kind(),
            log@ == (LogView { entries: table@, early: Seq::empty() }),
    {
        let log = CommandLog { table, early: Vec::new() };
        assert(log@.early =~= Seq::<(GlobalId, Frontier)>::empty());
        log
    }

    /// The kind of backend that the log is kept for.
    pub fn kind(&self) -> (kind: BackendKind)
        ensures
            kind == self.spec_kind(),
    {
        self.table.kind()
    }

    /// The number of live collections.
    pub fn len(&self) -> (n: usize)
        ensures
            n == self@.entries.len(),
    {
        self.table.len()
    }

    /// The entry at place `i`.
    pub fn entry(&self, i: usize) -> (entry: &LogEntry)
        requires
            i < self@.entries.len(),
        ensures
            entry@ == self@.entries[i as int],
    {
        self.table.entry(i)
    }

    /// The place of the entry about `id`, if there is one.
    pub fn position(&self, id: GlobalId) -> (place: Option<usize>)
        requires
            self.wf(),
        ensures
            match place {
                Some(i) => contains_id(self@.entries, id) && i == index_of(self@.entries, id),
                None => !contains_id(self@.entries, id),
            },
    {
        self.table.position(id)
    }

    /// The frontier up to which `id` may have been compacted, if the log
    /// holds the collection.
    pub fn since(&self, id: GlobalId) -> (since: Option<Frontier>)
        requires
            self.wf(),
        ensures
            match since {
                Some(f) => contains_id(self@.entries, id) && f == since_of(self@.entries, id),
                None => !contains_id(self@.entries, id),
            },
    {
        self.table.since(id)
    }

    /// The place at which a compaction is remembered for the collection
    /// `id`, which is not installed, if one is.
    fn early_position(&self, id: GlobalId) -> (place: Option<usize>)
        requires
            self.wf(),
        ensures
            match place {
                Some(i) => early_contains(self@.early, id) && i == early_index(self@.early, id),
                None => !early_contains(self@.early, id),
            },
    {
        let mut i: usize = 0;
        while i < self.early.len()
            invariant
                i <= self.early.len(),
                self.wf(),
                forall|j: int| 0 <= j < i ==> (#[trigger] self.early@[j]).0 != id,
            decreases self.early.len() - i,
        {
            if self.early[i].0 == id {
                proof {
                    assert(self@.early[i as int].0 == id);
                    lemma_early_index_unique(self@.early, i as int);
                }
                return Some(i);
            }
            i = i + 1;
        }
        None
    }

    /// The frontier to which the collection `id` was allowed to compact
    /// before it was installed, if the log remembers one.
    pub fn remembered(&self, id: GlobalId) -> (since: Option<Frontier>)
        requires
            self.wf(),
        ensures
            match since {
                Some(f) => early_contains(self@.early, id) && f == early_since(self@.early, id),
                None => !early_contains(self@.early, id),
            },
    {
        match self.early_position(id) {
            Some(i) => Some(self.early[i].1),
            None => None,
        }
    }

    /// Records that `spec` was installed.
    pub fn install(&mut self, spec: CollectionSpec)
        requires
            old(self).wf(),
        ensures
            final(self).wf(),
            final(self).spec_kind() == old(self).spec_kind(),
            final(self)@ == old(self)@.installed(spec@),
    {
        proof {
            lemma_installed_wf(self@, spec@);
        }
        let since = match self.early_position(spec.id) {
            Some(i) => {
                let since = self.early[i].1;
                self.early.remove(i);
                since
            },
            None => Frontier::minimum(),
        };
        self.table.install(spec, since);
        assert(self@.early =~= old(self)@.installed(spec@).early);
    }

    /// Records that the collection `id` may compact to `frontier`.
    pub fn allow_compaction(&mut self, id: GlobalId, frontier: Frontier)
        requires
            old(self).wf(),
        ensures
            final(self).wf(),
            final(self).spec_kind() == old(self).spec_kind(),
            final(self)@ == old(self)@.compacted(id, frontier),
    {
        proof {
            lemma_compacted_wf(self@, id, frontier);
        }
        let known = self.table.position(id).is_some();
        if known || frontier.is_empty() {
            self.table.allow_compaction(id, frontier);
            match self.early_position(id) {
                Some(i) => {
                    self.early.remove(i);
                },
                None => {},
            }
            assert(self@.early =~= old(self)@.compacted(id, frontier).early);
        } else {
            match self.early_position(id) {
                Some(i) => {
                    let since = self.early[i].1.join(&frontier);
                    self.early[i] = (id, since);
                },
                None => {
                    self.early.push((id, frontier));
                },
            }
            assert(self@.early =~= old(self)@.compacted(id, frontier).early);
        }
    }

    /// Records what `command` changes in the state that the backend must be
    /// brought back to. A transient command changes nothing.
    pub fn absorb_command(&mut self, command: &Command)
        requires
            old(self).wf(),
        ensures
            final(self).wf(),
            final(self).spec_kind() == old(self).spec_kind(),
            final(self)@ == absorbed(old(self).spec_kind(), old(self)@, command@),
            !command@.is_stateful() ==> final(self)@ == old(self)@,
    {
        match command {
            Command::IngestSources(specs) => {
                if self.kind() == BackendKind::Storage {
                    self.install_each(specs);
                }
            },
            Command::CreateDataflows(specs) => {
                if self.kind() == BackendKind::Compute {
                    self.install_each(specs);
                }
            },
            Command::AllowCompaction(frontiers) => {
                let mut k: usize = 0;
                assert(frontiers@.subrange(0, 0) =~= Seq::<(GlobalId, Frontier)>::empty());
                while k < frontiers.len()
                    invariant
                        k <= frontiers.len(),
                        self.wf(),
                        self.spec_kind() == old(self).spec_kind(),
                        self@ == old(self)@.compacted_all(frontiers@.subrange(0, k as int)),
                    decreases frontiers.len() - k,
                {
                    let (id, frontier) = frontiers[k];
                    self.allow_compaction(id, frontier);
                    proof {
                        let upto = frontiers@.subrange(0, k + 1);
                        assert(upto.drop_last() =~= frontiers@.subrange(0, k as int));
                        assert(upto.last() == frontiers@[k as int]);
                    }
                    k = k + 1;
                }
                assert(frontiers@.subrange(0, k as int) =~= frontiers@);
            },
            Command::DropInstance => {
                self.table = CollectionTable::new(self.table.kind());
                self.early = Vec::new();
                assert(self@.early =~= Seq::<(GlobalId, Frontier)>::empty());
            },
            _ => {},
        }
    }

    /// Records that each of `specs` was installed, in order.
    fn install_each(&mut self, specs: &Vec<CollectionSpec>)
        requires
            old(self).wf(),
        ensures
            final(self).wf(),
            final(self).spec_kind() == old(self).spec_kind(),
            final(self)@ == old(self)@.installed_all(spec_views(specs@)),
    {
        let mut k: usize = 0;
        assert(spec_views(specs@).subrange(0, 0) =~= Seq::<CollectionSpecView>::empty());
        while k < specs.len()
            invariant
                k <= specs.len(),
                self.wf(),
                self.spec_kind() == old(self).spec_kind(),
                self@ == old(self)@.installed_all(spec_views(specs@).subrange(0, k as int)),
            decreases specs.len() - k,
        {
            self.install(specs[k].clone());
            proof {
                let upto = spec_views(specs@).subrange(0, k + 1);
                assert(upto.drop_last() =~= spec_views(specs@).subrange(0, k as int));
                assert(upto.last() == specs@[k as int]@);
            }
            k = k + 1;
        }
        assert(spec_views(specs@).subrange(0, k as int) =~= spec_views(specs@));
    }

    /// The two commands that bring a freshly connected backend to the state
    /// that the log describes: one that installs every live spec, and one
    /// that allows every live collection to compact to its `since`. What is
    /// remembered of collections that are not installed is not sent.
    pub fn rehydration_commands(&self) -> (commands: (Command, Command))
        ensures
            commands.0@ == match self.spec_kind() {
                BackendKind::Storage => CommandView::IngestSources(live_specs(self@.entries)),
                BackendKind::Compute => CommandView::CreateDataflows(live_specs(self@.entries)),
            },
            commands.1@ == CommandView::AllowCompaction(recorded_sinces(self@.entries)),
    {
        self.table.rehydration_commands()
    }
}

impl Clone for CommandLog {
    fn clone(&self) -> (copy: CommandLog)
        ensures
            copy@ == self@,
            copy.spec_kind() == self.spec_kind(),
    {
        let mut early: Vec<(GlobalId, Frontier)> = Vec::new();
        let mut k: usize = 0;
        while k < self.early.len()
            invariant
                k <= self.early.len(),
                early@.len() == k,
                forall|j: int| 0 <= j < k ==> #[trigger] early@[j] == self.early@[j],
            decreases self.early.len() - k,
        {
            early.push(self.early[k]);
            k = k + 1;
        }
        assert(early@ =~= self.early@);
        CommandLog { table: self.table.clone(), early }
    }
}

} // verus!
