//! The order of processes by their usage: processor first, then memory.

use vstd::prelude::*;
use std::cmp::Ordering;
use crate::container::Process;

verus! {

/// How two processes compare: by processor usage, and where that is equal,
/// by memory usage.
pub open spec fn usage_ordering(a: Process, b: Process) -> Ordering {
    if a.cpu_key < b.cpu_key {
        Ordering::Less
    } else if a.cpu_key > b.cpu_key {
        Ordering::Greater
    } else if a.memory_key < b.memory_key {
        Ordering::Less
    } else if a.memory_key > b.memory_key {
        Ordering::Greater
    } else {
        Ordering::Equal
    }
}

/// The ordering of `b` against `a`, given that of `a` against `b`.
pub open spec fn flipped(o: Ordering) -> Ordering {
    match o {
        Ordering::Less => Ordering::Greater,
        Ordering::Equal => Ordering::Equal,
        Ordering::Greater => Ordering::Less,
    }
}

/// `a` ranks strictly before `b`.
pub open spec fn ranks_before(a: Process, b: Process) -> bool {
    usage_ordering(a, b) == Ordering::Less
}

/// `a` and `b` rank level.
pub open spec fn ranks_level(a: Process, b: Process) -> bool {
    usage_ordering(a, b) == Ordering::Equal
}

impl Process {
    /// Compares two processes by processor usage, then by memory usage.
    pub fn cmp(&self, other: &Self) -> (r: Ordering)
        ensures
            r == usage_ordering(*self, *other),
    {
        if self.cpu_key < other.cpu_key {
            Ordering::Less
        } else if self.cpu_key > other.cpu_key {
            Ordering::Greater
        } else if self.memory_key < other.memory_key {
            Ordering::Less
        } else if self.memory_key > other.memory_key {
            Ordering::Greater
        } else {
            Ordering::Equal
        }
    }

    /// The comparison of `cmp`; every two processes are comparable.
    pub fn partial_cmp(&self, other: &Self) -> (r: Option<Ordering>)
        ensures
            r == Some(usage_ordering(*self, *other)),
    {
        Some(self.cmp(other))
    }
}

/// Every process compares equal to itself.
pub proof fn lemma_usage_reflexive(a: Process)
    ensures
        usage_ordering(a, a) == Ordering::Equal,
{
}

/// Comparing the other way round flips the result.
pub proof fn lemma_usage_antisymmetric(a: Process, b: Process)
    ensures
        usage_ordering(b, a) == flipped(usage_ordering(a, b)),
{
}

/// Two processes compare equal exactly when both usages are equal.
pub proof fn lemma_usage_equal(a: Process, b: Process)
    ensures
        usage_ordering(a, b) == Ordering::Equal <==> (a.cpu_key == b.cpu_key && a.memory_key
            == b.memory_key),
{
}

/// The order is transitive, strictly and not.
pub proof fn lemma_usage_transitive(a: Process, b: Process, c: Process)
    ensures
        usage_ordering(a, b) == Ordering::Less && usage_ordering(b, c) == Ordering::Less
            ==> usage_ordering(a, c) == Ordering::Less,
        usage_ordering(a, b) != Ordering::Greater && usage_ordering(b, c) != Ordering::Greater
            ==> usage_ordering(a, c) != Ordering::Greater,
{
}


/// Processor usage decides first, and memory usage only between processes
/// of equal processor usage.
pub proof fn lemma_usage_lexicographic(a: Process, b: Process)
    ensures
        ranks_before(a, b) <==> (a.cpu_key < b.cpu_key || (a.cpu_key == b.cpu_key && a.memory_key
            < b.memory_key)),
        ranks_level(a, b) <==> (a.cpu_key == b.cpu_key && a.memory_key == b.memory_key),
{
}

} // verus!
