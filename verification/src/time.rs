//! Modification times and the tolerance in comparing them.

use vstd::prelude::*;

verus! {

/// A point in time: whole seconds since the Unix epoch, and the nanoseconds past them.
#[derive(Debug, Clone, Copy, PartialEq, Eq, Structural)]
pub struct Timestamp {
    pub secs: i64,
    pub nanos: u32,
}

impl View for Timestamp {
    type V = int;

    /// Nanoseconds since the Unix epoch.
    open spec fn view(&self) -> int {
        self.secs * 1_000_000_000 + self.nanos
    }
}

/// A length of time: whole seconds, and the nanoseconds past them.
#[derive(Debug, Clone, Copy, PartialEq, Eq, Structural)]
pub struct Span {
    pub secs: u64,
    pub nanos: u32,
}

impl View for Span {
    type V = int;

    /// The length in nanoseconds.
    open spec fn view(&self) -> int {
        self.secs * 1_000_000_000 + self.nanos
    }
}

/// A file modified at `source` is newer than one modified at `target` by more than `tolerance`.
pub open spec fn newer(source: int, target: int, tolerance: int) -> bool {
    source - target > tolerance
}

/// Whether the source was modified later than the target by more than the tolerance. A source
/// that is older, or as old, is not newer under any tolerance.
pub fn is_newer_than_with_tolerance(
    source_mtime: Timestamp,
    target_mtime: Timestamp,
    tolerance: Span,
) -> (r: bool)
    ensures
        r == newer(source_mtime@, target_mtime@, tolerance@),
        r == ((source_mtime.secs - target_mtime.secs) * 1_000_000_000 + source_mtime.nanos
            - target_mtime.nanos > tolerance.secs * 1_000_000_000 + tolerance.nanos),
        source_mtime@ <= target_mtime@ ==> !r,
{
    let source: i128 = source_mtime.secs as i128 * 1_000_000_000 + source_mtime.nanos as i128;
    let target: i128 = target_mtime.secs as i128 * 1_000_000_000 + target_mtime.nanos as i128;
    let span: i128 = tolerance.secs as i128 * 1_000_000_000 + tolerance.nanos as i128;
    source - target > span
}

/// A file never counts as newer than a copy of it that carries the same time.
pub proof fn law_same_time_is_not_newer(time: int, tolerance: Span)
    ensures
        !newer(time, time, tolerance@),
{
}

/// A file newer under one tolerance is newer under every smaller one.
pub proof fn law_tolerance_is_monotone(source: int, target: int, wide: Span, narrow: Span)
    requires
        newer(source, target, wide@),
        narrow@ <= wide@,
    ensures
        newer(source, target, narrow@),
{
}

/// A file is newer exactly when its time, in nanoseconds, is past the other's by more than the
/// tolerance.
pub proof fn law_newer_by_arithmetic(source: Timestamp, target: Timestamp, tolerance: Span)
    ensures
        newer(source@, target@, tolerance@) <==> (source.secs - target.secs) * 1_000_000_000
            + source.nanos - target.nanos > tolerance.secs * 1_000_000_000 + tolerance.nanos,
{
}

/// Moving both times by as much changes nothing, and of two files at most one is newer.
pub proof fn law_newer_goes_by_the_difference(source: int, target: int, shift: int, tolerance: Span)
    ensures
        newer(source + shift, target + shift, tolerance@) == newer(source, target, tolerance@),
        newer(source, target, tolerance@) ==> source > target && !newer(target, source, tolerance@),
        source > target + tolerance@ ==> newer(source, target, tolerance@),
{
}

} // verus!
