//! Identifiers shared by every layer of the controller.

use vstd::prelude::*;

verus! {

/// A point in the totally ordered time domain of the dataflows.
pub type Timestamp = u64;

/// Names a persistent object: a source, a view, an index or a sink.
pub type GlobalId = u64;

/// Names a compute instance (a cluster).
pub type ComputeInstanceId = u64;

/// Names one replica within a compute instance.
pub type ReplicaId = u64;

/// Names one process within a replica.
pub type ProcessId = i64;

/// Names one peek; the 128 bits of a UUID.
pub type PeekUuid = u128;

/// Wall-clock time in milliseconds since the Unix epoch.
pub type WallTime = i64;

/// The sequence `ids` without every occurrence of `id`.
pub open spec fn without(ids: Seq<u64>, id: u64) -> Seq<u64>
    decreases ids.len(),
{
    if ids.len() == 0 {
        ids
    } else if ids.last() == id {
        without(ids.drop_last(), id)
    } else {
        without(ids.drop_last(), id).push(ids.last())
    }
}

/// What is left of `ids` without `id` is what `ids` holds other than `id`.
pub proof fn lemma_without(ids: Seq<u64>, id: u64, other: u64)
    ensures
        without(ids, id).contains(other) <==> ids.contains(other) && other != id,
        without(ids, id).len() <= ids.len(),
    decreases ids.len(),
{
    if ids.len() > 0 {
        let init = ids.drop_last();
        lemma_without(init, id, other);
        if ids.contains(other) {
            let i = choose|i: int| 0 <= i < ids.len() && ids[i] == other;
            if i < init.len() {
                assert(init[i] == other);
            }
        }
        if init.contains(other) {
            let i = choose|i: int| 0 <= i < init.len() && init[i] == other;
            assert(ids[i] == other);
        }
        if ids.last() != id {
            let rest = without(init, id);
            let all = rest.push(ids.last());
            assert(all[rest.len() as int] == ids.last());
            if rest.contains(other) {
                let i = choose|i: int| 0 <= i < rest.len() && rest[i] == other;
                assert(all[i] == other);
            }
            if all.contains(other) {
                let i = choose|i: int| 0 <= i < all.len() && all[i] == other;
                if i < rest.len() {
                    assert(rest[i] == other);
                }
            }
            assert(ids[ids.len() - 1] == ids.last());
        }
    }
}

/// Whether `ids` holds `id`.
pub fn holds_id(ids: &Vec<u64>, id: u64) -> (b: bool)
    ensures
        b == ids@.contains(id),
{
    let mut k: usize = 0;
    while k < ids.len()
        invariant
            k <= ids.len(),
            forall|j: int| 0 <= j < k ==> ids@[j] != id,
        decreases ids.len() - k,
    {
        if ids[k] == id {
            return true;
        }
        k = k + 1;
    }
    false
}

/// A copy of `ids` without every occurrence of `id`.
pub fn remove_id(ids: &Vec<u64>, id: u64) -> (rest: Vec<u64>)
    ensures
        rest@ == without(ids@, id),
{
    let mut rest: Vec<u64> = Vec::new();
    let mut k: usize = 0;
    assert(ids@.subrange(0, 0) =~= Seq::<u64>::empty());
    while k < ids.len()
        invariant
            k <= ids.len(),
            rest@ == without(ids@.subrange(0, k as int), id),
        decreases ids.len() - k,
    {
        proof {
            let upto = ids@.subrange(0, k + 1);
            assert(upto.drop_last() =~= ids@.subrange(0, k as int));
            assert(upto.last() == ids@[k as int]);
        }
        if ids[k] != id {
            rest.push(ids[k]);
        }
        k = k + 1;
    }
    assert(ids@.subrange(0, k as int) =~= ids@);
    rest
}

} // verus!
