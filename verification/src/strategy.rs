//! Building blocks for generators of test values.
//!
//! A generator draws plain values at random and hands them to one of these
//! functions, which builds the value under test from them. Whatever is drawn,
//! what is built is a valid value of its type.

use vstd::prelude::*;
use crate::frontier::{is_least, Frontier};
use crate::ids::Timestamp;

verus! {

/// A version number of three parts, without pre-release or build metadata.
#[derive(Clone, Copy, Debug, PartialEq, Eq, Structural)]
pub struct Version {
    pub major: u64,
    pub minor: u64,
    pub patch: u64,
}

/// The version `major.minor.patch`.
pub fn version_strategy(major: u64, minor: u64, patch: u64) -> (version: Version)
    ensures
        version == (Version { major, minor, patch }),
{
    Version { major, minor, patch }
}

/// The antichain of the times drawn: the frontier at the least of them, or
/// the empty frontier if none was drawn.
pub fn antichain_strategy(times: Vec<Timestamp>) -> (frontier: Frontier)
    ensures
        match frontier {
            Frontier::At(time) => is_least(times@, time),
            Frontier::Empty => times@.len() == 0,
        },
{
    Frontier::from_elements(times)
}

/// An interval of times and the time from which it may be observed.
#[derive(Clone, Copy, Debug, PartialEq, Eq, Structural)]
pub struct Description {
    lower: Frontier,
    upper: Frontier,
    since: Frontier,
}

impl Description {
    /// The lower frontier of the interval.
    pub closed spec fn spec_lower(&self) -> Frontier {
        self.lower
    }

    /// The upper frontier of the interval.
    pub closed spec fn spec_upper(&self) -> Frontier {
        self.upper
    }

    /// The frontier from which the interval may be observed.
    pub closed spec fn spec_since(&self) -> Frontier {
        self.since
    }

    /// The invariant of a description: its lower frontier is not empty.
    pub closed spec fn wf(&self) -> bool {
        self.lower != Frontier::Empty
    }

    /// The description of the interval from `lower` to `upper`, observed
    /// from `since`, if `lower` is not empty.
    pub fn new(lower: Frontier, upper: Frontier, since: Frontier) -> (description: Option<
        Description,
    >)
        ensures
            match description {
                Some(d) => {
                    &&& lower != Frontier::Empty
                    &&& d.wf()
                    &&& d.spec_lower() == lower
                    &&& d.spec_upper() == upper
                    &&& d.spec_since() == since
                },
                None => lower == Frontier::Empty,
            },
    {
        if lower.is_empty() {
            None
        } else {
            Some(Description { lower, upper, since })
        }
    }

    /// The lower frontier of the interval.
    pub fn lower(&self) -> (f: Frontier)
        ensures
            f == self.spec_lower(),
    {
        self.lower
    }

    /// The upper frontier of the interval.
    pub fn upper(&self) -> (f: Frontier)
        ensures
            f == self.spec_upper(),
    {
        self.upper
    }

    /// The frontier from which the interval may be observed.
    pub fn since(&self) -> (f: Frontier)
        ensures
            f == self.spec_since(),
    {
        self.since
    }
}

/// The description whose three frontiers are the antichains of the times
/// drawn for each, if a time was drawn for the lower frontier.
pub fn description_strategy(
    lower: Vec<Timestamp>,
    upper: Vec<Timestamp>,
    since: Vec<Timestamp>,
) -> (description: Option<Description>)
    ensures
        match description {
            Some(d) => {
                &&& d.wf()
                &&& d.spec_lower() matches Frontier::At(time) && is_least(lower@, time)
                &&& match d.spec_upper() {
                    Frontier::At(time) => is_least(upper@, time),
                    Frontier::Empty => upper@.len() == 0,
                }
                &&& match d.spec_since() {
                    Frontier::At(time) => is_least(since@, time),
                    Frontier::Empty => since@.len() == 0,
                }
            },
            None => lower@.len() == 0,
        },
{
    Description::new(
        Frontier::from_elements(lower),
        Frontier::from_elements(upper),
        Frontier::from_elements(since),
    )
}

} // verus!
