use vstd::prelude::*;
use crate::vector::Vector2;
use crate::direction::{Direction, step};

verus! {

/// Whether two cells share a side.
pub open spec fn adjacent(a: Vector2, b: Vector2) -> bool {
    ||| a.x == b.x && (a.y - b.y == 1 || b.y - a.y == 1)
    ||| a.y == b.y && (a.x - b.x == 1 || b.x - a.x == 1)
}

/// The cells reached from `start` in at most `n` steps through open cells.
pub open spec fn reach_within(open: spec_fn(Vector2) -> bool, start: Vector2, n: nat) -> Set<
    Vector2,
>
    decreases n,
{
    if n == 0 {
        set![start]
    } else {
        let r = reach_within(open, start, (n - 1) as nat);
        Set::new(
            |p: Vector2|
                r.contains(p) || (open(p) && exists|q: Vector2| #[trigger]
                    r.contains(q) && adjacent(q, p)),
        )
    }
}

/// Whether `p` can be reached from `start` by steps between adjacent cells,
/// every cell after `start` being open.
pub open spec fn reachable(open: spec_fn(Vector2) -> bool, start: Vector2, p: Vector2) -> bool {
    exists|n: nat| #[trigger] reach_within(open, start, n).contains(p)
}

/// The start is reachable.
pub proof fn lemma_reachable_start(open: spec_fn(Vector2) -> bool, start: Vector2)
    ensures
        reachable(open, start, start),
{
    assert(reach_within(open, start, 0).contains(start));
}

/// One more step from a reachable cell into an open cell is reachable.
pub proof fn lemma_reachable_step(
    open: spec_fn(Vector2) -> bool,
    start: Vector2,
    q: Vector2,
    p: Vector2,
)
    requires
        reachable(open, start, q),
        adjacent(q, p),
        open(p),
    ensures
        reachable(open, start, p),
{
    let n = choose|n: nat| #[trigger] reach_within(open, start, n).contains(q);
    assert(reach_within(open, start, n + 1).contains(p));
}

/// Every reachable cell other than the start is open.
pub proof fn lemma_reachable_open(open: spec_fn(Vector2) -> bool, start: Vector2, p: Vector2)
    requires
        reachable(open, start, p),
        p != start,
    ensures
        open(p),
{
    let n = choose|n: nat| #[trigger] reach_within(open, start, n).contains(p);
    lemma_reach_within_open(open, start, n, p);
}

proof fn lemma_reach_within_open(
    open: spec_fn(Vector2) -> bool,
    start: Vector2,
    n: nat,
    p: Vector2,
)
    requires
        reach_within(open, start, n).contains(p),
        p != start,
    ensures
        open(p),
    decreases n,
{
    if n > 0 {
        let r = reach_within(open, start, (n - 1) as nat);
        if r.contains(p) {
            lemma_reach_within_open(open, start, (n - 1) as nat, p);
        }
    }
}

/// A set that holds the start and every open cell next to one of its cells
/// holds every reachable cell.
pub proof fn lemma_closed_contains_reachable(
    open: spec_fn(Vector2) -> bool,
    start: Vector2,
    f: Set<Vector2>,
    p: Vector2,
)
    requires
        f.contains(start),
        forall|q: Vector2, r: Vector2| #[trigger]
            f.contains(q) && adjacent(q, r) && open(r) ==> #[trigger] f.contains(r),
        reachable(open, start, p),
    ensures
        f.contains(p),
{
    let n = choose|n: nat| #[trigger] reach_within(open, start, n).contains(p);
    lemma_closed_contains_within(open, start, f, n);
}

proof fn lemma_closed_contains_within(
    open: spec_fn(Vector2) -> bool,
    start: Vector2,
    f: Set<Vector2>,
    n: nat,
)
    requires
        f.contains(start),
        forall|q: Vector2, r: Vector2| #[trigger]
            f.contains(q) && adjacent(q, r) && open(r) ==> #[trigger] f.contains(r),
    ensures
        reach_within(open, start, n).subset_of(f),
    decreases n,
{
    if n > 0 {
        lemma_closed_contains_within(open, start, f, (n - 1) as nat);
        let r = reach_within(open, start, (n - 1) as nat);
        assert forall|p: Vector2| reach_within(open, start, n).contains(p) implies f.contains(
            p,
        ) by {
            if !r.contains(p) {
                let q = choose|q: Vector2| #[trigger] r.contains(q) && adjacent(q, p);
                assert(f.contains(q));
            }
        }
    }
}

/// A cell next to `q` is one step from `q` in some direction.
pub proof fn lemma_adjacent_step(q: Vector2, p: Vector2)
    requires
        adjacent(q, p),
        i32::MIN < q.x < i32::MAX,
        i32::MIN < q.y < i32::MAX,
    ensures
        p == step(q, Direction::Up) || p == step(q, Direction::Down) || p == step(
            q,
            Direction::Left,
        ) || p == step(q, Direction::Right),
{
}

/// A step moves to an adjacent cell.
pub proof fn lemma_step_adjacent(q: Vector2, d: Direction)
    requires
        i32::MIN < q.x < i32::MAX,
        i32::MIN < q.y < i32::MAX,
    ensures
        adjacent(q, step(q, d)),
{
}

/// The number of `false` entries.
pub open spec fn count_false(s: Seq<bool>) -> nat
    decreases s.len(),
{
    if s.len() == 0 {
        0
    } else {
        count_false(s.drop_last()) + if s.last() { 0nat } else { 1nat }
    }
}

/// Turning a `false` entry into `true` lowers the count by one.
pub proof fn lemma_count_false_update(s: Seq<bool>, i: int)
    requires
        0 <= i < s.len(),
        !s[i],
    ensures
        count_false(s.update(i, true)) + 1 == count_false(s),
    decreases s.len(),
{
    let t = s.update(i, true);
    if i == s.len() - 1 {
        assert(t.drop_last() == s.drop_last());
    } else {
        assert(t.drop_last() == s.drop_last().update(i, true));
        lemma_count_false_update(s.drop_last(), i);
    }
}

} // verus!
