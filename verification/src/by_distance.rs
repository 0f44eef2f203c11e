//! Stable ordering of chunk coordinates by their distance to the camera's chunk.
use vstd::prelude::*;

verus! {

broadcast use vstd::seq_lib::group_to_multiset_ensures;

/// Squared Euclidean distance between two chunk coordinates.
pub open spec fn sq_dist(c: (i32, i32), cam: (i32, i32)) -> int {
    (c.0 - cam.0) * (c.0 - cam.0) + (c.1 - cam.1) * (c.1 - cam.1)
}

/// `s` is ordered by non-decreasing distance to `cam`.
pub open spec fn sorted_by_dist(s: Seq<(i32, i32)>, cam: (i32, i32)) -> bool {
    forall|i: int, j: int| 0 <= i < j < s.len() ==> sq_dist(s[i], cam) <= sq_dist(s[j], cam)
}

/// `x` inserted into `s` just after the last of the trailing entries that are
/// no farther from `cam` than `x` is (the step of a stable insertion sort).
pub open spec fn insert_by_dist(s: Seq<(i32, i32)>, x: (i32, i32), cam: (i32, i32)) -> Seq<(i32, i32)>
    decreases s.len(),
{
    if s.len() == 0 {
        seq![x]
    } else if sq_dist(s.last(), cam) <= sq_dist(x, cam) {
        s.push(x)
    } else {
        insert_by_dist(s.drop_last(), x, cam).push(s.last())
    }
}

/// `s` stably sorted by distance to `cam`: entries at equal distance keep
/// their relative order.
pub open spec fn sort_by_dist(s: Seq<(i32, i32)>, cam: (i32, i32)) -> Seq<(i32, i32)>
    decreases s.len(),
{
    if s.len() == 0 {
        s
    } else {
        insert_by_dist(sort_by_dist(s.drop_last(), cam), s.last(), cam)
    }
}

proof fn lemma_insert_at(s: Seq<(i32, i32)>, x: (i32, i32), cam: (i32, i32), p: int)
    requires
        0 <= p <= s.len(),
        forall|i: int| p <= i < s.len() ==> sq_dist(s[i], cam) > sq_dist(x, cam),
        p > 0 ==> sq_dist(s[p - 1], cam) <= sq_dist(x, cam),
    ensures
        insert_by_dist(s, x, cam) == s.insert(p, x),
    decreases s.len(),
{
    if s.len() == 0 {
        assert(s.insert(p, x) =~= seq![x]);
    } else if sq_dist(s.last(), cam) <= sq_dist(x, cam) {
        assert(p == s.len());
        assert(s.insert(p, x) =~= s.push(x));
    } else {
        lemma_insert_at(s.drop_last(), x, cam, p);
        assert(s.insert(p, x) =~= s.drop_last().insert(p, x).push(s.last()));
    }
}

proof fn lemma_insert_by_dist(s: Seq<(i32, i32)>, x: (i32, i32), cam: (i32, i32))
    ensures
        insert_by_dist(s, x, cam).len() == s.len() + 1,
        insert_by_dist(s, x, cam).to_multiset() =~= s.to_multiset().insert(x),
        forall|y: (i32, i32)| #[trigger] insert_by_dist(s, x, cam).contains(y) <==> (y == x || s.contains(y)),
        sorted_by_dist(s, cam) ==> sorted_by_dist(insert_by_dist(s, x, cam), cam),
        s.no_duplicates() && !s.contains(x) ==> insert_by_dist(s, x, cam).no_duplicates(),
    decreases s.len(),
{
    let r = insert_by_dist(s, x, cam);
    if s.len() == 0 {
        assert(r =~= seq![x]);
        assert(seq![x] =~= Seq::<(i32, i32)>::empty().push(x));
        assert(forall|y: (i32, i32)| r.contains(y) <==> y == x) by {
            assert forall|y: (i32, i32)| r.contains(y) implies y == x by {
                let k = choose|k: int| 0 <= k < r.len() && r[k] == y;
            }
            assert(r[0] == x);
        }
    } else if sq_dist(s.last(), cam) <= sq_dist(x, cam) {
        assert forall|y: (i32, i32)| #[trigger] r.contains(y) <==> (y == x || s.contains(y)) by {
            if r.contains(y) {
                let k = choose|k: int| 0 <= k < r.len() && r[k] == y;
                if k < s.len() {
                    assert(s[k] == y);
                }
            }
            if s.contains(y) {
                let k = choose|k: int| 0 <= k < s.len() && s[k] == y;
                assert(r[k] == y);
            }
            if y == x {
                assert(r[s.len() as int] == x);
            }
        }
    } else {
        let d = s.drop_last();
        let l = s.last();
        lemma_insert_by_dist(d, x, cam);
        let rd = insert_by_dist(d, x, cam);
        assert(s =~= d.push(l));
        assert forall|y: (i32, i32)| #[trigger] r.contains(y) <==> (y == x || s.contains(y)) by {
            if r.contains(y) {
                let k = choose|k: int| 0 <= k < r.len() && r[k] == y;
                if k < rd.len() {
                    assert(rd[k] == y);
                    assert(rd.contains(y));
                    if y != x {
                        assert(d.contains(y));
                        let m = choose|m: int| 0 <= m < d.len() && d[m] == y;
                        assert(s[m] == y);
                    }
                } else {
                    assert(y == l);
                    assert(s[s.len() - 1] == y);
                }
            }
            if y == x {
                assert(rd.contains(x));
                let m = choose|m: int| 0 <= m < rd.len() && rd[m] == x;
                assert(r[m] == x);
            }
            if s.contains(y) {
                let m = choose|m: int| 0 <= m < s.len() && s[m] == y;
                if m < d.len() {
                    assert(d[m] == y);
                    assert(rd.contains(y));
                    let q = choose|q: int| 0 <= q < rd.len() && rd[q] == y;
                    assert(r[q] == y);
                } else {
                    assert(r[r.len() - 1] == y);
                }
            }
        }
        if sorted_by_dist(s, cam) {
            assert(sorted_by_dist(d, cam));
            assert forall|i: int, j: int| 0 <= i < j < r.len() implies sq_dist(r[i], cam) <= sq_dist(r[j], cam) by {
                if j == r.len() - 1 {
                    assert(r[j] == l);
                    assert(rd.contains(r[i])) by {
                        assert(rd[i] == r[i]);
                    }
                    if r[i] != x {
                        assert(d.contains(r[i]));
                        let m = choose|m: int| 0 <= m < d.len() && d[m] == r[i];
                        assert(s[m] == r[i]);
                    }
                } else {
                    assert(r[i] == rd[i]);
                    assert(r[j] == rd[j]);
                }
            }
        }
        if s.no_duplicates() && !s.contains(x) {
            assert(d.no_duplicates());
            assert(!d.contains(x)) by {
                if d.contains(x) {
                    let m = choose|m: int| 0 <= m < d.len() && d[m] == x;
                    assert(s[m] == x);
                }
            }
            assert(!rd.contains(l)) by {
                if rd.contains(l) {
                    if l != x {
                        assert(d.contains(l));
                        let m = choose|m: int| 0 <= m < d.len() && d[m] == l;
                        assert(s[m] == s[s.len() - 1]);
                    } else {
                        assert(s[s.len() - 1] == x);
                    }
                }
            }
            assert forall|i: int, j: int| 0 <= i < r.len() && 0 <= j < r.len() && i != j implies r[i] != r[j] by {
                if i == r.len() - 1 {
                    assert(rd[j] == r[j]);
                } else if j == r.len() - 1 {
                    assert(rd[i] == r[i]);
                } else {
                    assert(rd[i] == r[i]);
                    assert(rd[j] == r[j]);
                }
            }
        }
    }
}

/// Sorting by distance yields the same entries, each as often as before,
/// ordered by non-decreasing distance; it keeps a duplicate-free sequence
/// duplicate-free.
pub proof fn lemma_sort_by_dist(s: Seq<(i32, i32)>, cam: (i32, i32))
    ensures
        sort_by_dist(s, cam).len() == s.len(),
        sort_by_dist(s, cam).to_multiset() =~= s.to_multiset(),
        forall|y: (i32, i32)| #[trigger] sort_by_dist(s, cam).contains(y) <==> s.contains(y),
        sorted_by_dist(sort_by_dist(s, cam), cam),
        s.no_duplicates() ==> sort_by_dist(s, cam).no_duplicates(),
    decreases s.len(),
{
    if s.len() == 0 {
    } else {
        let d = s.drop_last();
        let l = s.last();
        assert(s =~= d.push(l));
        lemma_sort_by_dist(d, cam);
        let sd = sort_by_dist(d, cam);
        lemma_insert_by_dist(sd, l, cam);
        assert forall|y: (i32, i32)| #[trigger] sort_by_dist(s, cam).contains(y) <==> s.contains(y) by {
            if s.contains(y) && y != l {
                let m = choose|m: int| 0 <= m < s.len() && s[m] == y;
                assert(d[m] == y);
                assert(d.contains(y));
            }
            if d.contains(y) {
                let m = choose|m: int| 0 <= m < d.len() && d[m] == y;
                assert(s[m] == y);
            }
            if y == l {
                assert(s[s.len() - 1] == y);
            }
        }
        if s.no_duplicates() {
            assert(d.no_duplicates());
            assert(!sd.contains(l)) by {
                if d.contains(l) {
                    let m = choose|m: int| 0 <= m < d.len() && d[m] == l;
                    assert(s[m] == s[s.len() - 1]);
                }
            }
        }
    }
}

proof fn insert_position(s: Seq<(i32, i32)>, x: (i32, i32), cam: (i32, i32)) -> (p: int)
    ensures
        0 <= p <= s.len(),
        insert_by_dist(s, x, cam) == s.insert(p, x),
        forall|i: int| p <= i < s.len() ==> sq_dist(s[i], cam) > sq_dist(x, cam),
    decreases s.len(),
{
    if s.len() == 0 {
        assert(s.insert(0, x) =~= seq![x]);
        0
    } else if sq_dist(s.last(), cam) <= sq_dist(x, cam) {
        assert(s.insert(s.len() as int, x) =~= s.push(x));
        s.len() as int
    } else {
        let p = insert_position(s.drop_last(), x, cam);
        assert(s.insert(p, x) =~= s.drop_last().insert(p, x).push(s.last()));
        assert forall|i: int| p <= i < s.len() implies sq_dist(s[i], cam) > sq_dist(x, cam) by {
            if i < s.len() - 1 {
                assert(s.drop_last()[i] == s[i]);
            }
        }
        p
    }
}

/// Sorting by distance is stable: of two chunks at equal distance, the one
/// that came first still comes first.
pub proof fn lemma_sort_by_dist_stable(s: Seq<(i32, i32)>, cam: (i32, i32))
    requires
        s.no_duplicates(),
    ensures
        forall|a: int, b: int, i: int, j: int|
            0 <= a < b < s.len() && 0 <= i < sort_by_dist(s, cam).len() && 0 <= j < sort_by_dist(s, cam).len()
                && #[trigger] sort_by_dist(s, cam)[i] == #[trigger] s[a] && #[trigger] sort_by_dist(s, cam)[j] == #[trigger] s[b]
                && sq_dist(s[a], cam) == sq_dist(s[b], cam) ==> i < j,
    decreases s.len(),
{
    if s.len() > 0 {
        let d = s.drop_last();
        let l = s.last();
        assert(d.no_duplicates()) by {
            assert forall|a: int, b: int| 0 <= a < d.len() && 0 <= b < d.len() && a != b implies d[a] != d[b] by {
                assert(s[a] == d[a] && s[b] == d[b]);
            }
        }
        lemma_sort_by_dist_stable(d, cam);
        lemma_sort_by_dist(d, cam);
        let sd = sort_by_dist(d, cam);
        let out = sort_by_dist(s, cam);
        let p = insert_position(sd, l, cam);
        assert(out == sd.insert(p, l));
        assert forall|a: int, b: int, i: int, j: int|
            0 <= a < b < s.len() && 0 <= i < out.len() && 0 <= j < out.len() && #[trigger] out[i] == #[trigger] s[a]
                && #[trigger] out[j] == #[trigger] s[b] && sq_dist(s[a], cam) == sq_dist(s[b], cam) implies i < j by {
            assert(s[a] != l) by {
                assert(s[s.len() - 1] == l);
            }
            assert(i != p);
            if b < s.len() - 1 {
                assert(s[b] != l) by {
                    assert(s[s.len() - 1] == l);
                }
                assert(j != p);
                let i2 = if i < p { i } else { i - 1 };
                let j2 = if j < p { j } else { j - 1 };
                assert(sd[i2] == out[i]);
                assert(sd[j2] == out[j]);
                assert(d[a] == s[a] && d[b] == s[b]);
                assert(i2 < j2);
            } else {
                assert(out[j] == l);
                if j != p {
                    let j2 = if j < p { j } else { j - 1 };
                    assert(sd[j2] == l);
                    assert(sd.contains(l));
                    let m = choose|m: int| 0 <= m < d.len() && d[m] == l;
                    assert(s[m] == s[s.len() - 1]);
                }
                if i > p {
                    assert(sd[i - 1] == out[i]);
                }
            }
        }
    }
}

/// The squared distance of a chunk whose squared distance fits in an `i32`.
pub fn dist_key(c: (i32, i32), cam: (i32, i32)) -> (key: i32)
    requires
        sq_dist(c, cam) <= i32::MAX,
    ensures
        key == sq_dist(c, cam),
{
    let ghost gx: int = c.0 - cam.0;
    let ghost gz: int = c.1 - cam.1;
    assert(gx * gx >= 0 && gz * gz >= 0) by (nonlinear_arith);
    assert(-46341 < gx < 46341) by (nonlinear_arith)
        requires
            gx * gx <= i32::MAX,
    ;
    assert(-46341 < gz < 46341) by (nonlinear_arith)
        requires
            gz * gz <= i32::MAX,
    ;
    let dx = c.0 - cam.0;
    let dz = c.1 - cam.1;
    dx * dx + dz * dz
}

/// Inserts `x` into `v` as one step of a stable insertion sort by distance.
fn insert_sorted(v: &mut Vec<(i32, i32)>, x: (i32, i32), cam: (i32, i32))
    requires
        forall|i: int| 0 <= i < old(v).len() ==> sq_dist(#[trigger] old(v)@[i], cam) <= i32::MAX,
        sq_dist(x, cam) <= i32::MAX,
    ensures
        final(v)@ == insert_by_dist(old(v)@, x, cam),
{
    let kx = dist_key(x, cam);
    let mut p: usize = v.len();
    while p > 0 && dist_key(v[p - 1], cam) > kx
        invariant
            v@ == old(v)@,
            0 <= p <= v.len(),
            kx == sq_dist(x, cam),
            forall|i: int| 0 <= i < v.len() ==> sq_dist(#[trigger] v@[i], cam) <= i32::MAX,
            forall|i: int| p <= i < v.len() ==> sq_dist(v@[i], cam) > kx,
        decreases p,
    {
        p = p - 1;
    }
    proof {
        lemma_insert_at(v@, x, cam, p as int);
    }
    v.insert(p, x);
}

/// Returns `items` stably sorted by distance to `cam`, nearest first.
pub fn sort_by_distance(items: &Vec<(i32, i32)>, cam: (i32, i32)) -> (sorted: Vec<(i32, i32)>)
    requires
        forall|i: int| 0 <= i < items.len() ==> sq_dist(#[trigger] items@[i], cam) <= i32::MAX,
    ensures
        sorted@ == sort_by_dist(items@, cam),
{
    let mut out: Vec<(i32, i32)> = Vec::new();
    let mut k: usize = 0;
    while k < items.len()
        invariant
            0 <= k <= items.len(),
            forall|i: int| 0 <= i < items.len() ==> sq_dist(#[trigger] items@[i], cam) <= i32::MAX,
            out@ == sort_by_dist(items@.take(k as int), cam),
        decreases items.len() - k,
    {
        proof {
            lemma_sort_by_dist(items@.take(k as int), cam);
            assert forall|i: int| 0 <= i < out.len() implies sq_dist(#[trigger] out@[i], cam) <= i32::MAX by {
                assert(out@.contains(out@[i]));
                assert(items@.take(k as int).contains(out@[i]));
                let m = choose|m: int| 0 <= m < k && items@.take(k as int)[m] == out@[i];
                assert(items@[m] == out@[i]);
            }
            assert(items@.take(k + 1).drop_last() =~= items@.take(k as int));
        }
        insert_sorted(&mut out, items[k], cam);
        k = k + 1;
    }
    assert(items@.take(items.len() as int) =~= items@);
    out
}

} // verus!
