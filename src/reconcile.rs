//! Union and difference of two ascending identifier lists.
use vstd::prelude::*;
use crate::ordered::{ascending_list, lemma_is_ascending_list, lemma_push_to_set, nondecreasing, strictly_ascending};

verus! {

/// The ascending, duplicate-free union of the values of `a` and `b`.
pub open spec fn merged(a: Seq<u32>, b: Seq<u32>) -> Seq<u32> {
    ascending_list(a.to_set().union(b.to_set()))
}

/// The values of `incoming` absent from `existing`, ascending and duplicate-free.
pub open spec fn added(existing: Seq<u32>, incoming: Seq<u32>) -> Seq<u32> {
    ascending_list(incoming.to_set().difference(existing.to_set()))
}

/// Merges two ascending lists into the ascending list of every distinct value
/// found in either. On unsorted input the result is unspecified.
pub fn merge_sorted_unique_u32(existing: Vec<u32>, incoming: Vec<u32>) -> (out: Vec<u32>)
    ensures
        nondecreasing(existing@) && nondecreasing(incoming@) ==> {
            &&& strictly_ascending(out@)
            &&& forall|x: u32| out@.contains(x) <==> (existing@.contains(x) || incoming@.contains(x))
            &&& out@ == merged(existing@, incoming@)
        },
{
    let ghost a = existing@;
    let ghost b = incoming@;
    let ghost ok = nondecreasing(a) && nondecreasing(b);
    let mut out: Vec<u32> = Vec::new();
    let mut i: usize = 0;
    let mut j: usize = 0;
    let mut last: u32 = 0;
    let mut has_last = false;

    while i < existing.len() || j < incoming.len()
        invariant
            a == existing@,
            b == incoming@,
            ok == (nondecreasing(a) && nondecreasing(b)),
            i <= a.len(),
            j <= b.len(),
            has_last == (out@.len() > 0),
            has_last ==> last == out@.last(),
            ok ==> strictly_ascending(out@),
            ok ==> out@.to_set() == a.take(i as int).to_set().union(b.take(j as int).to_set()),
            ok && has_last && i < a.len() ==> last <= a[i as int],
            ok && has_last && j < b.len() ==> last <= b[j as int],
        decreases a.len() - i + b.len() - j,
    {
        let next: u32;
        let ghost i0 = i;
        let ghost j0 = j;
        if j >= incoming.len() {
            next = existing[i];
            i += 1;
        } else if i >= existing.len() {
            next = incoming[j];
            j += 1;
        } else {
            let x = existing[i];
            let y = incoming[j];
            if x <= y {
                next = x;
                i += 1;
            } else {
                next = y;
                j += 1;
            }
        }
        proof {
            if ok {
                if i < a.len() {
                    if i > i0 {
                        assert(a[i0 as int] <= a[i as int]);
                    }
                    assert(next <= a[i as int]);
                }
                if j < b.len() {
                    if j > j0 {
                        assert(b[j0 as int] <= b[j as int]);
                    }
                    assert(next <= b[j as int]);
                }
                assert(a.take(i as int).to_set().union(b.take(j as int).to_set()) =~= a.take(
                    i0 as int,
                ).to_set().union(b.take(j0 as int).to_set()).insert(next)) by {
                    if i > i0 {
                        assert(a.take(i as int) =~= a.take(i0 as int).push(next));
                        assert(b.take(j as int) =~= b.take(j0 as int));
                    } else {
                        assert(b.take(j as int) =~= b.take(j0 as int).push(next));
                        assert(a.take(i as int) =~= a.take(i0 as int));
                    }
                    if i > i0 {
                        lemma_push_to_set(a.take(i0 as int), next);
                    } else {
                        lemma_push_to_set(b.take(j0 as int), next);
                    }
                }
            }
        }
        if has_last && next == last {
            proof {
                if ok {
                    assert(out@.to_set().contains(next)) by {
                        assert(out@[out@.len() - 1] == next);
                    }
                    assert(out@.to_set().insert(next) =~= out@.to_set());
                }
            }
        } else {
            let ghost prev = out@;
            out.push(next);
            last = next;
            has_last = true;
            proof {
                if ok {
                    assert(out@.to_set() =~= prev.to_set().insert(next)) by {
                        assert(out@ =~= prev.push(next));
                        lemma_push_to_set(prev, next);
                    }
                }
            }
        }
    }
    proof {
        if ok {
            assert(a.take(a.len() as int) =~= a);
            assert(b.take(b.len() as int) =~= b);
            lemma_is_ascending_list(out@);
            assert(out@.to_set() == a.to_set().union(b.to_set()));
            assert forall|x: u32| out@.contains(x) <==> (a.contains(x) || b.contains(x)) by {
                assert(out@.to_set().contains(x) == out@.contains(x));
                assert(a.to_set().contains(x) == a.contains(x));
                assert(b.to_set().contains(x) == b.contains(x));
            }
        }
    }
    out
}

/// What the diff scan has established after reading `existing[..i]` and
/// `incoming[..j]` of ascending inputs, having emitted `out`.
pub open spec fn diff_scan(a: Seq<u32>, b: Seq<u32>, i: int, j: int, out: Seq<u32>) -> bool {
    &&& j < b.len() ==> forall|k: int| 0 <= k < i ==> a[k] <= b[j]
    &&& j < b.len() && (j == 0 || b[j] != b[j - 1]) ==> forall|k: int| 0 <= k < i ==> a[k] < b[j]
    &&& strictly_ascending(out)
    &&& out.len() > 0 ==> j > 0 && out.last() <= b[j - 1]
    &&& out.to_set() == b.take(j).to_set().difference(a.to_set())
}

/// Reading `incoming[j]` while it repeats the previous element, or is
/// present in `existing`, leaves what was emitted unchanged.
proof fn lemma_diff_take_known(a: Seq<u32>, b: Seq<u32>, j: int, out: Seq<u32>)
    requires
        0 <= j < b.len(),
        out.to_set() == b.take(j).to_set().difference(a.to_set()),
        (j > 0 && b[j] == b[j - 1]) || a.contains(b[j]),
    ensures
        out.to_set() == b.take(j + 1).to_set().difference(a.to_set()),
{
    assert(b.take(j + 1) =~= b.take(j).push(b[j]));
    lemma_push_to_set(b.take(j), b[j]);
    if j > 0 && b[j] == b[j - 1] {
        assert(b.take(j)[j - 1] == b[j]);
        assert(b.take(j).to_set().contains(b[j]));
        assert(b.take(j).to_set().insert(b[j]) =~= b.take(j).to_set());
    } else {
        assert(a.to_set().contains(b[j]));
        assert(b.take(j).to_set().insert(b[j]).difference(a.to_set()) =~= b.take(
            j,
        ).to_set().difference(a.to_set()));
    }
}

/// Emitting `incoming[j]`, fresh and absent from `existing`, keeps the scan's facts.
proof fn lemma_diff_emit(a: Seq<u32>, b: Seq<u32>, i: int, j: int, out: Seq<u32>)
    requires
        nondecreasing(a),
        nondecreasing(b),
        0 <= i <= a.len(),
        0 <= j < b.len(),
        j == 0 || b[j] != b[j - 1],
        !a.contains(b[j]),
        diff_scan(a, b, i, j, out),
    ensures
        diff_scan(a, b, i, j + 1, out.push(b[j])),
{
    let o2 = out.push(b[j]);
    if out.len() > 0 {
        assert(b[j - 1] <= b[j]);
    }
    assert forall|p: int, q: int| 0 <= p < q < o2.len() implies o2[p] < o2[q] by {
        if q < out.len() {
            assert(out[p] < out[q]);
        } else if p < out.len() - 1 {
            assert(out[p] < out[out.len() - 1]);
        }
    }
    assert(b.take(j + 1) =~= b.take(j).push(b[j]));
    lemma_push_to_set(b.take(j), b[j]);
    lemma_push_to_set(out, b[j]);
    assert(!a.to_set().contains(b[j]));
    assert(o2.to_set() =~= b.take(j + 1).to_set().difference(a.to_set()));
    if j + 1 < b.len() {
        assert(b[j] <= b[j + 1]);
        assert forall|k: int| 0 <= k < i implies a[k] < b[j + 1] by {
            assert(a[k] < b[j]);
        }
    }
}

/// Lists the values of `incoming` that `existing` lacks, ascending and without
/// repeats. On unsorted input the result is unspecified.
pub fn diff_sorted_unique_u32(existing: Vec<u32>, incoming: Vec<u32>) -> (out: Vec<u32>)
    ensures
        nondecreasing(existing@) && nondecreasing(incoming@) ==> {
            &&& strictly_ascending(out@)
            &&& forall|x: u32| out@.contains(x) <==> (incoming@.contains(x) && !existing@.contains(x))
            &&& out@ == added(existing@, incoming@)
        },
{
    let ghost a = existing@;
    let ghost b = incoming@;
    let ghost ok = nondecreasing(a) && nondecreasing(b);
    let mut out: Vec<u32> = Vec::new();
    let mut i: usize = 0;
    let mut j: usize = 0;
    // The previous element read from each side, to skip its repeats.
    let mut last_a: u32 = 0;
    let mut has_last_a = false;
    let mut last_b: u32 = 0;
    let mut has_last_b = false;
    proof {
        assert(out@.to_set() =~= b.take(0).to_set().difference(a.to_set()));
    }

    while i < existing.len() && j < incoming.len()
        invariant
            a == existing@,
            b == incoming@,
            ok == (nondecreasing(a) && nondecreasing(b)),
            i <= a.len(),
            j <= b.len(),
            has_last_a == (i > 0),
            has_last_a ==> last_a == a[i - 1],
            has_last_b == (j > 0),
            has_last_b ==> last_b == b[j - 1],
            ok ==> diff_scan(a, b, i as int, j as int, out@),
        decreases a.len() - i + b.len() - j,
    {
        let x = existing[i];
        let y = incoming[j];
        if has_last_a && x == last_a {
            proof {
                if ok && j < b.len() {
                    assert forall|k: int| 0 <= k < i + 1 implies a[k] <= b[j as int] && ((j == 0
                        || b[j as int] != b[j - 1]) ==> a[k] < b[j as int]) by {
                        if k == i {
                            assert(a[k] == a[k - 1]);
                        }
                    }
                }
            }
            i += 1;
        } else if has_last_b && y == last_b {
            proof {
                if ok {
                    lemma_diff_take_known(a, b, j as int, out@);
                    if j + 1 < b.len() {
                        assert(b[j as int] <= b[j + 1]);
                    }
                }
            }
            j += 1;
        } else if x == y {
            proof {
                if ok {
                    assert(a.contains(b[j as int]));
                    lemma_diff_take_known(a, b, j as int, out@);
                    assert forall|k: int| 0 <= k <= i implies a[k] <= b[j as int] by {
                        assert(a[k] <= a[i as int]);
                    }
                    if j + 1 < b.len() {
                        assert(b[j as int] <= b[j + 1]);
                    }
                    if out@.len() > 0 {
                        assert(b[j - 1] <= b[j as int]);
                    }
                }
            }
            last_a = x;
            has_last_a = true;
            i += 1;
            last_b = y;
            has_last_b = true;
            j += 1;
        } else if x < y {
            proof {
                if ok {
                    assert forall|k: int| 0 <= k <= i implies a[k] < b[j as int] by {
                        assert(a[k] <= a[i as int]);
                    }
                }
            }
            last_a = x;
            has_last_a = true;
            i += 1;
        } else {
            proof {
                if ok {
                    assert(!a.contains(y)) by {
                        if a.contains(y) {
                            let k = choose|k: int| 0 <= k < a.len() && a[k] == y;
                            if k >= i {
                                assert(a[i as int] <= a[k]);
                            }
                        }
                    }
                    lemma_diff_emit(a, b, i as int, j as int, out@);
                }
            }
            out.push(y);
            last_b = y;
            has_last_b = true;
            j += 1;
        }
    }

    while j < incoming.len()
        invariant
            a == existing@,
            b == incoming@,
            ok == (nondecreasing(a) && nondecreasing(b)),
            i <= a.len(),
            j <= b.len(),
            j < b.len() ==> i == a.len(),
            has_last_b == (j > 0),
            has_last_b ==> last_b == b[j - 1],
            ok ==> diff_scan(a, b, i as int, j as int, out@),
        decreases b.len() - j,
    {
        let y = incoming[j];
        if has_last_b && y == last_b {
            proof {
                if ok {
                    lemma_diff_take_known(a, b, j as int, out@);
                    if j + 1 < b.len() {
                        assert(b[j as int] <= b[j + 1]);
                    }
                }
            }
            j += 1;
        } else {
            proof {
                if ok {
                    assert(!a.contains(y)) by {
                        if a.contains(y) {
                            let k = choose|k: int| 0 <= k < a.len() && a[k] == y;
                            assert(a[k] < b[j as int]);
                        }
                    }
                    lemma_diff_emit(a, b, i as int, j as int, out@);
                }
            }
            out.push(y);
            last_b = y;
            has_last_b = true;
            j += 1;
        }
    }
    proof {
        if ok {
            assert(b.take(b.len() as int) =~= b);
            lemma_is_ascending_list(out@);
            assert forall|x: u32| out@.contains(x) <==> (b.contains(x) && !a.contains(x)) by {
                assert(out@.to_set().contains(x) == out@.contains(x));
                assert(a.to_set().contains(x) == a.contains(x));
                assert(b.to_set().contains(x) == b.contains(x));
            }
        }
    }
    out
}

/// Computes the merge and the diff of the same two lists in one call: the
/// pair holds exactly what the two separate calls return.
pub fn merge_and_diff_sorted_unique_u32(existing: Vec<u32>, incoming: Vec<u32>) -> (r: (
    Vec<u32>,
    Vec<u32>,
))
    ensures
        nondecreasing(existing@) && nondecreasing(incoming@) ==> {
            &&& r.0@ == merged(existing@, incoming@)
            &&& r.1@ == added(existing@, incoming@)
        },
{
    let merged_ids = merge_sorted_unique_u32(existing.clone(), incoming.clone());
    let added_ids = diff_sorted_unique_u32(existing, incoming);
    (merged_ids, added_ids)
}

/// Merging is commutative: the order of the two lists does not matter.
pub proof fn lemma_merge_commutative(a: Seq<u32>, b: Seq<u32>)
    ensures
        merged(a, b) == merged(b, a),
{
    assert(a.to_set().union(b.to_set()) =~= b.to_set().union(a.to_set()));
}

/// A list adds nothing to itself: the diff of a list against itself is empty,
/// repeats included.
pub proof fn lemma_diff_self_empty(a: Seq<u32>)
    ensures
        added(a, a) == Seq::<u32>::empty(),
{
    let e = Seq::<u32>::empty();
    lemma_is_ascending_list(e);
    assert(e.to_set() =~= a.to_set().difference(a.to_set()));
}

} // verus!
