use vstd::prelude::*;
use crate::movement::{Movements, count_pushes};

verus! {

/// What to do with a stored best solution when a new solution comes in.
#[derive(Clone, Copy, PartialEq, Eq, Debug, Structural)]
pub enum RecordChange {
    /// No solution is stored yet: store the new one.
    Insert,
    /// The new solution is better: replace the stored one.
    Replace,
    /// The stored solution is at least as good: keep it.
    Keep,
}

/// The change to the stored solution with the fewest moves.
pub open spec fn move_record_change(new_moves: int, best_moves: Option<int>) -> RecordChange {
    match best_moves {
        None => RecordChange::Insert,
        Some(b) => if new_moves < b {
            RecordChange::Replace
        } else {
            RecordChange::Keep
        },
    }
}

/// What to do with the stored best-move solution: insert the new solution
/// where none is stored, replace it where the new one has fewer moves, keep it
/// otherwise.
pub fn best_move_change(solution: &Movements, best: Option<&Movements>) -> (r: RecordChange)
    ensures
        r == move_record_change(
            solution@.len() as int,
            match best {
                Some(b) => Some(b@.len() as int),
                None => None,
            },
        ),
{
    match best {
        None => RecordChange::Insert,
        Some(b) => if solution.move_count() < b.move_count() {
            RecordChange::Replace
        } else {
            RecordChange::Keep
        },
    }
}

/// What to do with the stored best-push solution: insert the new solution
/// where none is stored, replace it where the new one has fewer pushes, keep
/// it otherwise.
pub fn best_push_change(solution: &Movements, best: Option<&Movements>) -> (r: RecordChange)
    ensures
        r == move_record_change(
            count_pushes(solution@) as int,
            match best {
                Some(b) => Some(count_pushes(b@) as int),
                None => None,
            },
        ),
{
    match best {
        None => RecordChange::Insert,
        Some(b) => if solution.push_count() < b.push_count() {
            RecordChange::Replace
        } else {
            RecordChange::Keep
        },
    }
}

/// The count of the stored solution after a change.
pub open spec fn kept_count(new_count: int, best: Option<int>, change: RecordChange) -> Option<int> {
    match change {
        RecordChange::Insert => Some(new_count),
        RecordChange::Replace => Some(new_count),
        RecordChange::Keep => best,
    }
}

/// Storing solutions keeps the best: after the change that a new solution
/// brings, a solution is stored, and its count is no larger than that of the
/// new solution nor than that of the one stored before.
pub proof fn law_record_keeps_the_best(new_count: int, best: Option<int>)
    ensures
        kept_count(new_count, best, move_record_change(new_count, best)) matches Some(k) && k <= new_count
            && (best matches Some(b) ==> k <= b),
{
}

} // verus!
