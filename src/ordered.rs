//! Ascending sequences of identifiers and the sets they list.
use vstd::prelude::*;

verus! {

/// Each element is at most the next one (duplicates allowed).
pub open spec fn nondecreasing(s: Seq<u32>) -> bool {
    forall|p: int, q: int| 0 <= p <= q < s.len() ==> s[p] <= s[q]
}

/// Each element is below the next one (no duplicates).
pub open spec fn strictly_ascending(s: Seq<u32>) -> bool {
    forall|p: int, q: int| 0 <= p < q < s.len() ==> s[p] < s[q]
}

/// The values of `s`, each exactly once, in ascending order.
pub open spec fn ascending_list(s: Set<u32>) -> Seq<u32> {
    choose|r: Seq<u32>| strictly_ascending(r) && r.to_set() == s
}

/// Two ascending sequences that hold the same values are the same sequence.
pub proof fn lemma_ascending_unique(r1: Seq<u32>, r2: Seq<u32>)
    requires
        strictly_ascending(r1),
        strictly_ascending(r2),
        r1.to_set() == r2.to_set(),
    ensures
        r1 == r2,
    decreases r1.len(),
{
    if r1.len() == 0 {
        if r2.len() > 0 {
            assert(r2.to_set().contains(r2[0]));
        }
    } else if r2.len() == 0 {
        assert(r1.to_set().contains(r1[0]));
    } else {
        assert(r1.to_set().contains(r1[0]));
        assert(r2.to_set().contains(r2[0]));
        let k = choose|k: int| 0 <= k < r2.len() && r2[k] == r1[0];
        let m = choose|m: int| 0 <= m < r1.len() && r1[m] == r2[0];
        assert(r1[0] == r2[0]);
        let t1 = r1.drop_first();
        let t2 = r2.drop_first();
        assert forall|x: u32| t1.to_set().contains(x) implies t2.to_set().contains(x) by {
            let p = choose|p: int| 0 <= p < t1.len() && t1[p] == x;
            assert(r1[p + 1] == x);
            assert(r2.to_set().contains(x));
            let q = choose|q: int| 0 <= q < r2.len() && r2[q] == x;
            assert(q != 0);
            assert(t2[q - 1] == x);
        }
        assert forall|x: u32| t2.to_set().contains(x) implies t1.to_set().contains(x) by {
            let p = choose|p: int| 0 <= p < t2.len() && t2[p] == x;
            assert(r2[p + 1] == x);
            assert(r1.to_set().contains(x));
            let q = choose|q: int| 0 <= q < r1.len() && r1[q] == x;
            assert(q != 0);
            assert(t1[q - 1] == x);
        }
        assert(t1.to_set() =~= t2.to_set());
        lemma_ascending_unique(t1, t2);
        assert(r1 =~= seq![r1[0]] + t1);
        assert(r2 =~= seq![r2[0]] + t2);
    }
}

/// Appending a value adds exactly that value to the set of values.
pub proof fn lemma_push_to_set(s: Seq<u32>, x: u32)
    ensures
        s.push(x).to_set() == s.to_set().insert(x),
{
    let t = s.push(x);
    assert forall|y: u32| t.to_set().contains(y) implies s.to_set().insert(x).contains(y) by {
        let p = choose|p: int| 0 <= p < t.len() && t[p] == y;
        if p < s.len() {
            assert(s[p] == y);
        }
    }
    assert forall|y: u32| s.to_set().insert(x).contains(y) implies t.to_set().contains(y) by {
        if y == x {
            assert(t[s.len() as int] == y);
        } else {
            let p = choose|p: int| 0 <= p < s.len() && s[p] == y;
            assert(t[p] == y);
        }
    }
    assert(t.to_set() =~= s.to_set().insert(x));
}

/// An ascending sequence is the ascending listing of its own values.
pub proof fn lemma_is_ascending_list(r: Seq<u32>)
    requires
        strictly_ascending(r),
    ensures
        ascending_list(r.to_set()) == r,
{
    let l = ascending_list(r.to_set());
    assert(strictly_ascending(l) && l.to_set() == r.to_set());
    lemma_ascending_unique(l, r);
}

} // verus!
