use vstd::prelude::*;
use crate::vector::Vector2;

verus! {

/// Whether `p` is in `v`.
pub fn contains_position(v: &Vec<Vector2>, p: &Vector2) -> (r: bool)
    ensures
        r == v@.contains(*p),
{
    let mut i: usize = 0;
    while i < v.len()
        invariant
            i <= v@.len(),
            forall|k: int| 0 <= k < i ==> v@[k] != *p,
        decreases v@.len() - i,
    {
        if v[i] == *p {
            assert(v@[i as int] == *p);
            return true;
        }
        i = i + 1;
    }
    false
}

/// Removes `p` from a list of distinct positions that holds it.
pub fn remove_position(v: &mut Vec<Vector2>, p: &Vector2)
    requires
        old(v)@.no_duplicates(),
        old(v)@.contains(*p),
    ensures
        final(v)@.no_duplicates(),
        final(v)@.to_set() == old(v)@.to_set().remove(*p),
        final(v)@.len() == old(v)@.len() - 1,
        forall|q: Vector2| #[trigger] final(v)@.contains(q) <==> (old(v)@.contains(q) && q != *p),
{
    let ghost s = v@;
    let mut i: usize = 0;
    while i < v.len() && v[i] != *p
        invariant
            v@ == s,
            i <= v@.len(),
            s.contains(*p),
            forall|k: int| 0 <= k < i ==> s[k] != *p,
        decreases v@.len() - i,
    {
        i = i + 1;
    }
    proof {
        if i == v.len() {
            let k = choose|k: int| 0 <= k < s.len() && s[k] == *p;
            assert(false);
        }
    }
    v.remove(i);
    proof {
        let r = v@;
        assert(r == s.remove(i as int));
        assert forall|q: Vector2| #[trigger] r.contains(q) <==> (s.contains(q) && q != *p) by {
            if r.contains(q) {
                let k = choose|k: int| 0 <= k < r.len() && r[k] == q;
                if k < i {
                    assert(s[k] == q);
                } else {
                    assert(s[k + 1] == q);
                }
            }
            if s.contains(q) && q != *p {
                let k = choose|k: int| 0 <= k < s.len() && s[k] == q;
                if k < i {
                    assert(r[k] == q);
                } else {
                    assert(k != i);
                    assert(r[k - 1] == q);
                }
            }
        }
        assert(r.to_set() =~= s.to_set().remove(*p));
    }
}

/// Pushing a new position keeps the positions distinct.
pub proof fn lemma_push_distinct(s: Seq<Vector2>, p: Vector2)
    requires
        s.no_duplicates(),
        !s.contains(p),
    ensures
        s.push(p).no_duplicates(),
        s.push(p).to_set() == s.to_set().insert(p),
        forall|q: Vector2| #[trigger] s.push(p).contains(q) <==> (s.contains(q) || q == p),
{
    assert forall|q: Vector2| #[trigger] s.push(p).contains(q) <==> (s.contains(q) || q == p) by {
        if s.push(p).contains(q) {
            let k = choose|k: int| 0 <= k < s.push(p).len() && s.push(p)[k] == q;
            if k < s.len() {
                assert(s[k] == q);
            }
        }
        if s.contains(q) {
            let k = choose|k: int| 0 <= k < s.len() && s[k] == q;
            assert(s.push(p)[k] == q);
        }
        if q == p {
            assert(s.push(p)[s.len() as int] == q);
        }
    }
    assert(s.push(p).to_set() =~= s.to_set().insert(p));
}

} // verus!
