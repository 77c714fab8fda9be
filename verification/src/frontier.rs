//! Frontiers: antichains over the totally ordered time domain.
//!
//! In a total order no two distinct times are incomparable, so an antichain
//! holds at most one time. A frontier is therefore either empty, which means
//! that no time remains beyond it, or the single least time that it admits.

use vstd::prelude::*;
use crate::ids::Timestamp;

verus! {

/// An antichain of timestamps.
#[derive(Clone, Copy, Debug, PartialEq, Eq, Structural)]
pub enum Frontier {
    /// The empty antichain: no time is at or beyond this frontier.
    Empty,
    /// The antichain whose only element is the given time.
    At(Timestamp),
}

impl Frontier {
    /// The elements of the antichain, least first.
    pub open spec fn spec_elements(self) -> Seq<Timestamp> {
        match self {
            Frontier::Empty => Seq::empty(),
            Frontier::At(t) => seq![t],
        }
    }

    /// Whether some element of the frontier is less than or equal to `time`.
    pub open spec fn spec_less_equal(self, time: Timestamp) -> bool {
        match self {
            Frontier::Empty => false,
            Frontier::At(t) => t <= time,
        }
    }

    /// Whether some element of the frontier is strictly less than `time`.
    pub open spec fn spec_less_than(self, time: Timestamp) -> bool {
        match self {
            Frontier::Empty => false,
            Frontier::At(t) => t < time,
        }
    }

    /// The order on frontiers: `self` is at or before `other` when every time
    /// that `other` admits is also admitted by `self`.
    pub open spec fn le(self, other: Frontier) -> bool {
        match other {
            Frontier::Empty => true,
            Frontier::At(t) => self.spec_less_equal(t),
        }
    }

    /// The least upper bound of two frontiers.
    pub open spec fn spec_join(self, other: Frontier) -> Frontier {
        match (self, other) {
            (Frontier::At(a), Frontier::At(b)) => Frontier::At(if a >= b { a } else { b }),
            _ => Frontier::Empty,
        }
    }

    /// The greatest lower bound of two frontiers.
    pub open spec fn spec_meet(self, other: Frontier) -> Frontier {
        match (self, other) {
            (Frontier::Empty, _) => other,
            (_, Frontier::Empty) => self,
            (Frontier::At(a), Frontier::At(b)) => Frontier::At(if a <= b { a } else { b }),
        }
    }

    /// The empty frontier.
    pub fn new() -> (f: Frontier)
        ensures
            f == Frontier::Empty,
    {
        Frontier::Empty
    }

    /// The frontier whose only element is `time`.
    pub fn from_elem(time: Timestamp) -> (f: Frontier)
        ensures
            f == Frontier::At(time),
    {
        Frontier::At(time)
    }

    /// The frontier that admits every time.
    pub fn minimum() -> (f: Frontier)
        ensures
            f == Frontier::At(0),
            forall|g: Frontier| f.le(g),
    {
        Frontier::At(0)
    }

    /// The elements of the antichain.
    pub fn elements(&self) -> (v: Vec<Timestamp>)
        ensures
            v@ == self.spec_elements(),
    {
        let mut v: Vec<Timestamp> = Vec::new();
        match self {
            Frontier::Empty => {},
            Frontier::At(t) => {
                v.push(*t);
            },
        }
        assert(v@ =~= self.spec_elements());
        v
    }

    /// Whether the frontier has no element.
    pub fn is_empty(&self) -> (b: bool)
        ensures
            b == (*self == Frontier::Empty),
            b == (self.spec_elements().len() == 0),
    {
        match self {
            Frontier::Empty => true,
            Frontier::At(_) => false,
        }
    }

    /// Whether `time` is at or beyond the frontier.
    pub fn less_equal(&self, time: Timestamp) -> (b: bool)
        ensures
            b == self.spec_less_equal(time),
    {
        match self {
            Frontier::Empty => false,
            Frontier::At(t) => *t <= time,
        }
    }

    /// Whether `time` is strictly beyond the frontier.
    pub fn less_than(&self, time: Timestamp) -> (b: bool)
        ensures
            b == self.spec_less_than(time),
    {
        match self {
            Frontier::Empty => false,
            Frontier::At(t) => *t < time,
        }
    }

    /// Whether `self` is at or before `other` in the order on frontiers.
    pub fn precedes(&self, other: &Frontier) -> (b: bool)
        ensures
            b == self.le(*other),
    {
        match other {
            Frontier::Empty => true,
            Frontier::At(t) => self.less_equal(*t),
        }
    }

    /// The least upper bound of `self` and `other`.
    pub fn join(&self, other: &Frontier) -> (f: Frontier)
        ensures
            f == self.spec_join(*other),
    {
        match (self, other) {
            (Frontier::At(a), Frontier::At(b)) => {
                if *a >= *b {
                    Frontier::At(*a)
                } else {
                    Frontier::At(*b)
                }
            },
            _ => Frontier::Empty,
        }
    }

    /// The greatest lower bound of `self` and `other`.
    pub fn meet(&self, other: &Frontier) -> (f: Frontier)
        ensures
            f == self.spec_meet(*other),
    {
        match (self, other) {
            (Frontier::Empty, _) => *other,
            (_, Frontier::Empty) => *self,
            (Frontier::At(a), Frontier::At(b)) => {
                if *a <= *b {
                    Frontier::At(*a)
                } else {
                    Frontier::At(*b)
                }
            },
        }
    }
}

/// The greatest lower bound of a sequence of frontiers; the empty frontier,
/// which is the greatest of all, when the sequence is empty.
pub open spec fn meet_all(frontiers: Seq<Frontier>) -> Frontier
    decreases frontiers.len(),
{
    if frontiers.len() == 0 {
        Frontier::Empty
    } else {
        meet_all(frontiers.drop_last()).spec_meet(frontiers.last())
    }
}

/// The order on frontiers is reflexive, antisymmetric and transitive.
pub proof fn lemma_le_is_partial_order(a: Frontier, b: Frontier, c: Frontier)
    ensures
        a.le(a),
        a.le(b) && b.le(a) ==> a == b,
        a.le(b) && b.le(c) ==> a.le(c),
{
}

/// Any two frontiers are comparable, because time is totally ordered.
pub proof fn lemma_le_is_total(a: Frontier, b: Frontier)
    ensures
        a.le(b) || b.le(a),
{
}

/// The join is the least frontier that is at or beyond both arguments.
pub proof fn lemma_join_is_least_upper_bound(a: Frontier, b: Frontier, c: Frontier)
    ensures
        a.le(a.spec_join(b)),
        b.le(a.spec_join(b)),
        a.le(c) && b.le(c) ==> a.spec_join(b).le(c),
{
}

/// The meet is the greatest frontier that is at or before both arguments.
pub proof fn lemma_meet_is_greatest_lower_bound(a: Frontier, b: Frontier, c: Frontier)
    ensures
        a.spec_meet(b).le(a),
        a.spec_meet(b).le(b),
        c.le(a) && c.le(b) ==> c.le(a.spec_meet(b)),
{
}

/// Join and meet are idempotent, commutative and associative, and each
/// absorbs the other.
pub proof fn lemma_lattice_laws(a: Frontier, b: Frontier, c: Frontier)
    ensures
        a.spec_join(a) == a,
        a.spec_meet(a) == a,
        a.spec_join(b) == b.spec_join(a),
        a.spec_meet(b) == b.spec_meet(a),
        a.spec_join(b).spec_join(c) == a.spec_join(b.spec_join(c)),
        a.spec_meet(b).spec_meet(c) == a.spec_meet(b.spec_meet(c)),
        a.spec_join(a.spec_meet(b)) == a,
        a.spec_meet(a.spec_join(b)) == a,
        a.le(b) <==> a.spec_join(b) == b,
        a.le(b) <==> a.spec_meet(b) == a,
{
}

/// The meet of a sequence is at or before each of its members, and is the
/// greatest frontier with that property.
pub proof fn lemma_meet_all_is_greatest_lower_bound(frontiers: Seq<Frontier>, bound: Frontier)
    ensures
        forall|i: int| 0 <= i < frontiers.len() ==> meet_all(frontiers).le(#[trigger] frontiers[i]),
        (forall|i: int| 0 <= i < frontiers.len() ==> bound.le(#[trigger] frontiers[i]))
            ==> bound.le(meet_all(frontiers)),
    decreases frontiers.len(),
{
    if frontiers.len() > 0 {
        let init = frontiers.drop_last();
        lemma_meet_all_is_greatest_lower_bound(init, bound);
        assert forall|i: int| 0 <= i < frontiers.len() implies meet_all(frontiers).le(
            #[trigger] frontiers[i],
        ) by {
            if i < init.len() {
                assert(init[i] == frontiers[i]);
                assert(meet_all(init).le(init[i]));
            }
        }
        if forall|i: int| 0 <= i < frontiers.len() ==> bound.le(#[trigger] frontiers[i]) {
            assert forall|i: int| 0 <= i < init.len() implies bound.le(#[trigger] init[i]) by {
                assert(init[i] == frontiers[i]);
            }
            assert(bound.le(frontiers.last()));
        }
    }
}

/// The meet of a sequence does not depend on the order of its members: it is
/// the empty frontier when every member is empty, and otherwise the least
/// time that any member holds.
pub proof fn lemma_meet_all_is_least_member(frontiers: Seq<Frontier>)
    ensures
        meet_all(frontiers) == Frontier::Empty <==> forall|i: int|
            0 <= i < frontiers.len() ==> #[trigger] frontiers[i] == Frontier::Empty,
        meet_all(frontiers) != Frontier::Empty ==> exists|i: int|
            0 <= i < frontiers.len() && #[trigger] frontiers[i] == meet_all(frontiers),
    decreases frontiers.len(),
{
    if frontiers.len() > 0 {
        let init = frontiers.drop_last();
        lemma_meet_all_is_least_member(init);
        let last = frontiers.len() - 1;
        if meet_all(frontiers) == Frontier::Empty {
            assert forall|i: int| 0 <= i < frontiers.len() implies #[trigger] frontiers[i]
                == Frontier::Empty by {
                if i < init.len() {
                    assert(init[i] == frontiers[i]);
                }
            }
        } else {
            if meet_all(frontiers) == frontiers[last] {
                assert(0 <= last < frontiers.len() && frontiers[last] == meet_all(frontiers));
            } else {
                assert(meet_all(init) == meet_all(frontiers));
                let i = choose|i: int| 0 <= i < init.len() && #[trigger] init[i] == meet_all(init);
                assert(frontiers[i] == init[i]);
            }
        }
        if forall|i: int| 0 <= i < frontiers.len() ==> #[trigger] frontiers[i] == Frontier::Empty {
            assert forall|i: int| 0 <= i < init.len() implies #[trigger] init[i]
                == Frontier::Empty by {
                assert(init[i] == frontiers[i]);
            }
            assert(frontiers[last] == Frontier::Empty);
        }
    }
}

/// The least upper bound of a sequence of frontiers; the frontier at the
/// least time, which is the least of all, when the sequence is empty.
pub open spec fn join_all(frontiers: Seq<Frontier>) -> Frontier
    decreases frontiers.len(),
{
    if frontiers.len() == 0 {
        Frontier::At(0)
    } else {
        join_all(frontiers.drop_last()).spec_join(frontiers.last())
    }
}

/// The join of a sequence is at or beyond each of its members, and is the
/// least frontier with that property.
pub proof fn lemma_join_all_is_least_upper_bound(frontiers: Seq<Frontier>, bound: Frontier)
    ensures
        forall|i: int| 0 <= i < frontiers.len() ==> (#[trigger] frontiers[i]).le(join_all(frontiers)),
        (forall|i: int| 0 <= i < frontiers.len() ==> (#[trigger] frontiers[i]).le(bound))
            ==> join_all(frontiers).le(bound),
    decreases frontiers.len(),
{
    if frontiers.len() > 0 {
        let init = frontiers.drop_last();
        lemma_join_all_is_least_upper_bound(init, bound);
        assert forall|i: int| 0 <= i < frontiers.len() implies (#[trigger] frontiers[i]).le(
            join_all(frontiers),
        ) by {
            if i < init.len() {
                assert(init[i] == frontiers[i]);
                assert(init[i].le(join_all(init)));
            }
        }
        if forall|i: int| 0 <= i < frontiers.len() ==> (#[trigger] frontiers[i]).le(bound) {
            assert forall|i: int| 0 <= i < init.len() implies (#[trigger] init[i]).le(bound) by {
                assert(init[i] == frontiers[i]);
            }
            assert(frontiers.last().le(bound));
        }
    }
}

/// Whether `time` is the least of `times`.
pub open spec fn is_least(times: Seq<Timestamp>, time: Timestamp) -> bool {
    times.contains(time) && forall|i: int| 0 <= i < times.len() ==> time <= #[trigger] times[i]
}

/// Builds the antichain of `times` with `timely::progress::Antichain::from`
/// and takes its one element out with `Antichain::into_option`.
///
/// The contract claims what the source of `from` shows for a total order:
/// it inserts the times one by one, an insertion evicts every element that
/// is not less than the new one and is refused if an element is less than
/// or equal to it, so that what is left is the least of the times, or
/// nothing if there were none.
#[verifier::external_body]
fn least_element(times: Vec<Timestamp>) -> (least: Option<Timestamp>)
    ensures
        match least {
            Some(time) => is_least(times@, time),
            None => times@.len() == 0,
        },
{
    timely::progress::Antichain::from(times).into_option()
}

impl Frontier {
    /// The antichain of `times`: the frontier at the least of them, or the
    /// empty frontier if there are none.
    pub fn from_elements(times: Vec<Timestamp>) -> (f: Frontier)
        ensures
            match f {
                Frontier::At(time) => is_least(times@, time),
                Frontier::Empty => times@.len() == 0,
            },
    {
        match least_element(times) {
            Some(time) => Frontier::At(time),
            None => Frontier::Empty,
        }
    }
}

/// A sequence of times has at most one least element, so that the frontier
/// of a sequence of times is determined by them.
pub proof fn lemma_least_is_unique(times: Seq<Timestamp>, a: Timestamp, b: Timestamp)
    requires
        is_least(times, a),
        is_least(times, b),
    ensures
        a == b,
{
    let i = choose|i: int| 0 <= i < times.len() && times[i] == a;
    let j = choose|j: int| 0 <= j < times.len() && times[j] == b;
    assert(a <= times[j]);
    assert(b <= times[i]);
}

} // verus!
