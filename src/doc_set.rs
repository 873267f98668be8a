use vstd::prelude::*;

use crate::posting::DocId;

verus! {

/// Doc ids in strictly increasing order.
pub open spec fn sorted_docs(s: Seq<DocId>) -> bool {
    forall|i: int, j: int| 0 <= i < j < s.len() ==> s[i] < s[j]
}

pub proof fn lemma_push_contains<A>(s: Seq<A>, x: A)
    ensures
        forall|d: A| s.push(x).contains(d) <==> s.contains(d) || d == x,
{
    assert forall|d: A| s.push(x).contains(d) <==> s.contains(d) || d == x by {
        if s.push(x).contains(d) && d != x {
            let k = choose|k: int| 0 <= k < s.push(x).len() && s.push(x)[k] == d;
            assert(s[k] == d);
        }
        if s.contains(d) {
            let k = choose|k: int| 0 <= k < s.len() && s[k] == d;
            assert(s.push(x)[k] == d);
        }
        if d == x {
            assert(s.push(x)[s.len() as int] == d);
        }
    }
}

/// The first index from `lo` on whose doc id is at least `t`.
pub fn seek(a: &Vec<DocId>, lo: usize, t: DocId) -> (r: usize)
    requires
        sorted_docs(a@),
        lo <= a@.len(),
    ensures
        lo <= r <= a@.len(),
        forall|i: int| lo <= i < r ==> a@[i] < t,
        r < a@.len() ==> a@[r as int] >= t,
{
    let mut l = lo;
    let mut h = a.len();
    while l < h
        invariant
            lo <= l <= h <= a@.len(),
            sorted_docs(a@),
            forall|i: int| lo <= i < l ==> a@[i] < t,
            forall|i: int| h <= i < a@.len() ==> a@[i] >= t,
        decreases h - l,
    {
        let mid = l + (h - l) / 2;
        if a[mid] < t {
            l = mid + 1;
        } else {
            h = mid;
        }
    }
    l
}

/// Whether `t` is in `a`, and the first index from `lo` on whose doc id is
/// at least `t`; every doc id before `lo` must be below `t`.
fn find_from(a: &Vec<DocId>, lo: usize, t: DocId) -> (r: (bool, usize))
    requires
        sorted_docs(a@),
        lo <= a@.len(),
        forall|i: int| 0 <= i < lo ==> a@[i] < t,
    ensures
        r.0 == a@.contains(t),
        lo <= r.1 <= a@.len(),
        forall|i: int| 0 <= i < r.1 ==> a@[i] < t,
        r.1 < a@.len() ==> a@[r.1 as int] >= t,
{
    let j = seek(a, lo, t);
    let found = j < a.len() && a[j] == t;
    proof {
        if !found && a@.contains(t) {
            let k = choose|k: int| 0 <= k < a@.len() && a@[k] == t;
            if k < j {
            } else if k > j {
                assert(a@[j as int] < a@[k]);
            }
        }
    }
    (found, j)
}

/// Doc ids in both `a` and `b`.
pub fn intersect(a: &Vec<DocId>, b: &Vec<DocId>) -> (r: Vec<DocId>)
    requires
        sorted_docs(a@),
        sorted_docs(b@),
    ensures
        sorted_docs(r@),
        forall|d: DocId| r@.contains(d) <==> a@.contains(d) && b@.contains(d),
{
    let mut r: Vec<DocId> = Vec::new();
    let mut i: usize = 0;
    let mut j: usize = 0;
    while i < a.len()
        invariant
            i <= a@.len(),
            j <= b@.len(),
            sorted_docs(a@),
            sorted_docs(b@),
            sorted_docs(r@),
            forall|k: int| 0 <= k < j ==> i < a@.len() ==> b@[k] < a@[i as int],
            forall|k: int| 0 <= k < r@.len() ==> i < a@.len() ==> r@[k] < a@[i as int],
            forall|d: DocId| r@.contains(d) <==> a@.take(i as int).contains(d) && b@.contains(d),
        decreases a@.len() - i,
    {
        let t = a[i];
        let (found, nj) = find_from(b, j, t);
        let ghost r0 = r@;
        if found {
            r.push(t);
        }
        j = nj;
        proof {
            assert(a@.take(i + 1) =~= a@.take(i as int).push(t));
            lemma_push_contains(a@.take(i as int), t);
            lemma_push_contains(r0, t);
            assert forall|d: DocId| r@.contains(d) <==> a@.take(i + 1).contains(d) && b@.contains(d) by {
                assert(a@.take(i + 1).contains(d) <==> a@.take(i as int).contains(d) || d == t);
                assert(r0.contains(d) <==> a@.take(i as int).contains(d) && b@.contains(d));
                if found {
                    assert(r@ == r0.push(t));
                } else {
                    assert(r@ == r0);
                }
            }
            if i + 1 < a@.len() {
                assert(a@[i as int] < a@[i + 1]);
            }
        }
        i = i + 1;
    }
    assert(a@.take(i as int) =~= a@);
    r
}

/// Doc ids in `a` but not in `b`.
pub fn difference(a: &Vec<DocId>, b: &Vec<DocId>) -> (r: Vec<DocId>)
    requires
        sorted_docs(a@),
        sorted_docs(b@),
    ensures
        sorted_docs(r@),
        forall|d: DocId| r@.contains(d) <==> a@.contains(d) && !b@.contains(d),
{
    let mut r: Vec<DocId> = Vec::new();
    let mut i: usize = 0;
    let mut j: usize = 0;
    while i < a.len()
        invariant
            i <= a@.len(),
            j <= b@.len(),
            sorted_docs(a@),
            sorted_docs(b@),
            sorted_docs(r@),
            forall|k: int| 0 <= k < j ==> i < a@.len() ==> b@[k] < a@[i as int],
            forall|k: int| 0 <= k < r@.len() ==> i < a@.len() ==> r@[k] < a@[i as int],
            forall|d: DocId| r@.contains(d) <==> a@.take(i as int).contains(d) && !b@.contains(d),
        decreases a@.len() - i,
    {
        let t = a[i];
        let (found, nj) = find_from(b, j, t);
        let ghost r0 = r@;
        if !found {
            r.push(t);
        }
        j = nj;
        proof {
            assert(a@.take(i + 1) =~= a@.take(i as int).push(t));
            lemma_push_contains(a@.take(i as int), t);
            lemma_push_contains(r0, t);
            assert forall|d: DocId| r@.contains(d) <==> a@.take(i + 1).contains(d) && !b@.contains(d) by {
                assert(a@.take(i + 1).contains(d) <==> a@.take(i as int).contains(d) || d == t);
                assert(r0.contains(d) <==> a@.take(i as int).contains(d) && !b@.contains(d));
                if !found {
                    assert(r@ == r0.push(t));
                } else {
                    assert(r@ == r0);
                }
            }
            if i + 1 < a@.len() {
                assert(a@[i as int] < a@[i + 1]);
            }
        }
        i = i + 1;
    }
    assert(a@.take(i as int) =~= a@);
    r
}

/// Doc ids in `a` or in `b`.
pub fn union(a: &Vec<DocId>, b: &Vec<DocId>) -> (r: Vec<DocId>)
    requires
        sorted_docs(a@),
        sorted_docs(b@),
    ensures
        sorted_docs(r@),
        forall|d: DocId| r@.contains(d) <==> a@.contains(d) || b@.contains(d),
{
    let mut r: Vec<DocId> = Vec::new();
    let mut i: usize = 0;
    let mut j: usize = 0;
    while i < a.len() || j < b.len()
        invariant
            i <= a@.len(),
            j <= b@.len(),
            sorted_docs(a@),
            sorted_docs(b@),
            sorted_docs(r@),
            forall|k: int| 0 <= k < r@.len() ==> i < a@.len() ==> r@[k] < a@[i as int],
            forall|k: int| 0 <= k < r@.len() ==> j < b@.len() ==> r@[k] < b@[j as int],
            forall|d: DocId| r@.contains(d) <==> a@.take(i as int).contains(d) || b@.take(j as int).contains(d),
        decreases a@.len() - i + b@.len() - j,
    {
        let ghost r0 = r@;
        let ghost i0 = i;
        let ghost j0 = j;
        let t;
        if j >= b.len() || (i < a.len() && a[i] < b[j]) {
            t = a[i];
            i = i + 1;
        } else if i >= a.len() || b[j] < a[i] {
            t = b[j];
            j = j + 1;
        } else {
            t = a[i];
            i = i + 1;
            j = j + 1;
        }
        r.push(t);
        proof {
            assert(a@.take(i as int) =~= if i > i0 { a@.take(i0 as int).push(a@[i0 as int]) } else { a@.take(i0 as int) });
            assert(b@.take(j as int) =~= if j > j0 { b@.take(j0 as int).push(b@[j0 as int]) } else { b@.take(j0 as int) });
            lemma_push_contains(r0, t);
            if i > i0 {
                lemma_push_contains(a@.take(i0 as int), a@[i0 as int]);
            }
            if j > j0 {
                lemma_push_contains(b@.take(j0 as int), b@[j0 as int]);
            }
            assert forall|d: DocId| r@.contains(d) <==> a@.take(i as int).contains(d) || b@.take(j as int).contains(d) by {
                assert(r0.contains(d) <==> a@.take(i0 as int).contains(d) || b@.take(j0 as int).contains(d));
                assert(r@ == r0.push(t));
                if i > i0 {
                    assert(a@.take(i as int).contains(d) <==> a@.take(i0 as int).contains(d) || d == a@[i0 as int]);
                }
                if j > j0 {
                    assert(b@.take(j as int).contains(d) <==> b@.take(j0 as int).contains(d) || d == b@[j0 as int]);
                }
            }
            if i < a@.len() && i > i0 {
                assert(a@[i0 as int] < a@[i as int]);
            }
            if j < b@.len() && j > j0 {
                assert(b@[j0 as int] < b@[j as int]);
            }
        }
    }
    assert(a@.take(i as int) =~= a@);
    assert(b@.take(j as int) =~= b@);
    r
}

} // verus!
