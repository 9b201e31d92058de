use vstd::prelude::*;

use crate::config::{LinkView, PrefixedLink};

verus! {

/// The plain values of a list of records.
pub open spec fn views(s: Seq<PrefixedLink>) -> Seq<LinkView> {
    s.map_values(|l: PrefixedLink| l@)
}

/// Records in ascending order of sequence number.
pub open spec fn sorted_by_index(s: Seq<LinkView>) -> bool {
    forall|i: int, j: int| 0 <= i < j < s.len() ==> s[i].1 <= s[j].1
}

/// Where a record with sequence number `k` goes in a sorted list: after
/// every record whose number is not greater.
pub open spec fn insert_pos(s: Seq<LinkView>, k: u64) -> nat
    decreases s.len(),
{
    if s.len() == 0 {
        0
    } else if s.last().1 > k {
        insert_pos(s.drop_last(), k)
    } else {
        s.len()
    }
}

pub open spec fn insert_sorted(s: Seq<LinkView>, x: LinkView) -> Seq<LinkView> {
    s.insert(insert_pos(s, x.1) as int, x)
}

/// The stable sort by sequence number: records with equal numbers keep
/// their order.
pub open spec fn sort_by_index(s: Seq<LinkView>) -> Seq<LinkView>
    decreases s.len(),
{
    if s.len() == 0 {
        s
    } else {
        insert_sorted(sort_by_index(s.drop_last()), s.last())
    }
}

/// The list without consecutive duplicates: of each run of equal records,
/// one stays.
pub open spec fn dedup_adjacent(s: Seq<LinkView>) -> Seq<LinkView>
    decreases s.len(),
{
    if s.len() <= 1 {
        s
    } else if s.last() == s[s.len() - 2] {
        dedup_adjacent(s.drop_last())
    } else {
        dedup_adjacent(s.drop_last()).push(s.last())
    }
}

/// The merged roster of two sources.
pub open spec fn merged(a: Seq<LinkView>, b: Seq<LinkView>) -> Seq<LinkView> {
    dedup_adjacent(sort_by_index(a + b))
}

pub open spec fn no_adjacent_duplicates(s: Seq<LinkView>) -> bool {
    forall|i: int| 0 <= i < s.len() - 1 ==> #[trigger] s[i] != s[i + 1]
}

proof fn lemma_insert_pos(s: Seq<LinkView>, k: u64)
    requires
        sorted_by_index(s),
    ensures
        insert_pos(s, k) <= s.len(),
        forall|j: int| 0 <= j < insert_pos(s, k) ==> s[j].1 <= k,
        forall|j: int| insert_pos(s, k) <= j < s.len() ==> s[j].1 > k,
    decreases s.len(),
{
    if s.len() > 0 && s.last().1 > k {
        let p = s.drop_last();
        assert(sorted_by_index(p));
        lemma_insert_pos(p, k);
        assert forall|j: int| 0 <= j < insert_pos(s, k) implies s[j].1 <= k by {
            assert(s[j] == p[j]);
        }
        assert forall|j: int| insert_pos(s, k) <= j < s.len() implies s[j].1 > k by {
            if j < p.len() {
                assert(s[j] == p[j]);
            }
        }
    } else if s.len() > 0 {
        assert forall|j: int| 0 <= j < s.len() implies s[j].1 <= k by {
            if j < s.len() - 1 {
                assert(s[j].1 <= s[s.len() - 1].1);
            }
        }
    }
}

proof fn lemma_insert_contains(s: Seq<LinkView>, i: int, x: LinkView, y: LinkView)
    requires
        0 <= i <= s.len(),
    ensures
        s.insert(i, x).contains(y) <==> (y == x || s.contains(y)),
{
    let t = s.insert(i, x);
    {
        if t.contains(y) {
            let j = choose|j: int| 0 <= j < t.len() && t[j] == y;
            if j < i {
                assert(s[j] == y);
            } else if j > i {
                assert(s[j - 1] == y);
            }
        }
        if y == x {
            assert(t[i] == y);
        }
        if s.contains(y) {
            let j = choose|j: int| 0 <= j < s.len() && s[j] == y;
            if j < i {
                assert(t[j] == y);
            } else {
                assert(t[j + 1] == y);
            }
        }
    }
}

/// The stable sort is sorted and holds the same records as its input.
pub proof fn lemma_sort_by_index(s: Seq<LinkView>)
    ensures
        sorted_by_index(sort_by_index(s)),
        sort_by_index(s).len() == s.len(),
        forall|y: LinkView| sort_by_index(s).contains(y) <==> s.contains(y),
    decreases s.len(),
{
    if s.len() > 0 {
        let p = s.drop_last();
        let x = s.last();
        lemma_sort_by_index(p);
        let q = sort_by_index(p);
        lemma_insert_pos(q, x.1);
        let k = insert_pos(q, x.1) as int;
        let t = q.insert(k, x);
        assert(sort_by_index(s) == t);
        assert forall|i: int, j: int| 0 <= i < j < t.len() implies t[i].1 <= t[j].1 by {
            if j < k {
            } else if j == k {
            } else if i < k {
            } else if i == k {
            } else {
            }
        }
        assert forall|y: LinkView| s.contains(y) <==> (y == x || p.contains(y)) by {
            if s.contains(y) && y != x {
                let j = choose|j: int| 0 <= j < s.len() && s[j] == y;
                assert(p[j] == y);
            }
            if y == x {
                assert(s[s.len() - 1] == y);
            }
            if p.contains(y) {
                let j = choose|j: int| 0 <= j < p.len() && p[j] == y;
                assert(s[j] == y);
            }
        }
        assert forall|y: LinkView| t.contains(y) <==> s.contains(y) by {
            lemma_insert_contains(q, k, x, y);
            assert(q.contains(y) <==> p.contains(y));
        }
    }
}

/// Dropping consecutive duplicates keeps the order, the records present,
/// and leaves no two neighbours equal.
pub proof fn lemma_dedup_adjacent(s: Seq<LinkView>)
    ensures
        sorted_by_index(s) ==> sorted_by_index(dedup_adjacent(s)),
        forall|y: LinkView| dedup_adjacent(s).contains(y) <==> s.contains(y),
        no_adjacent_duplicates(dedup_adjacent(s)),
        s.len() > 0 ==> dedup_adjacent(s).len() > 0 && dedup_adjacent(s).last() == s.last(),
    decreases s.len(),
{
    if s.len() > 1 {
        let p = s.drop_last();
        let x = s.last();
        lemma_dedup_adjacent(p);
        let d = dedup_adjacent(p);
        assert(p.last() == s[s.len() - 2]);
        assert forall|y: LinkView| s.contains(y) <==> (y == x || p.contains(y)) by {
            if s.contains(y) && y != x {
                let j = choose|j: int| 0 <= j < s.len() && s[j] == y;
                assert(p[j] == y);
            }
            if y == x {
                assert(s[s.len() - 1] == y);
            }
            if p.contains(y) {
                let j = choose|j: int| 0 <= j < p.len() && p[j] == y;
                assert(s[j] == y);
            }
        }
        if x == s[s.len() - 2] {
            assert(p.contains(x)) by {
                assert(p[p.len() - 1] == x);
            }
        } else {
            let t = d.push(x);
            assert forall|y: LinkView| t.contains(y) <==> (y == x || d.contains(y)) by {
                if t.contains(y) && y != x {
                    let j = choose|j: int| 0 <= j < t.len() && t[j] == y;
                    assert(d[j] == y);
                }
                if y == x {
                    assert(t[t.len() - 1] == y);
                }
                if d.contains(y) {
                    let j = choose|j: int| 0 <= j < d.len() && d[j] == y;
                    assert(t[j] == y);
                }
            }
            if sorted_by_index(s) {
                assert(sorted_by_index(p));
                assert forall|i: int, j: int| 0 <= i < j < t.len() implies t[i].1 <= t[j].1 by {
                    if j == t.len() - 1 {
                        assert(d.contains(t[i]));
                        let m = choose|m: int| 0 <= m < p.len() && p[m] == t[i];
                    }
                }
            }
        }
    } else if s.len() == 1 {
        assert(s.last() == s[0]);
    }
}

/// Stable insertion sort by sequence number.
pub fn sort_links(v: &Vec<PrefixedLink>) -> (r: Vec<PrefixedLink>)
    ensures
        views(r@) == sort_by_index(views(v@)),
{
    let mut out: Vec<PrefixedLink> = Vec::new();
    let mut i: usize = 0;
    while i < v.len()
        invariant
            0 <= i <= v@.len(),
            views(out@) == sort_by_index(views(v@).subrange(0, i as int)),
        decreases v@.len() - i,
    {
        let x = v[i].duplicate();
        let k = x.index;
        let mut j: usize = out.len();
        assert(views(out@).subrange(0, j as int) =~= views(out@));
        while j > 0 && out[j - 1].index > k
            invariant
                0 <= j <= out@.len(),
                insert_pos(views(out@), k) == insert_pos(views(out@).subrange(0, j as int), k),
            decreases j,
        {
            assert(views(out@).subrange(0, j - 1) =~= views(out@).subrange(0, j as int).drop_last());
            j -= 1;
        }
        assert(insert_pos(views(out@).subrange(0, j as int), k) == j);
        let ghost before = out@;
        out.insert(j, x);
        proof {
            let w = views(v@).subrange(0, i + 1);
            assert(w.drop_last() =~= views(v@).subrange(0, i as int));
            assert(w.last() == v@[i as int]@);
            assert(views(out@) =~= views(before).insert(j as int, x@));
        }
        i += 1;
    }
    assert(views(v@).subrange(0, v@.len() as int) =~= views(v@));
    out
}

/// Drops consecutive duplicate records.
pub fn dedup_links(v: &Vec<PrefixedLink>) -> (r: Vec<PrefixedLink>)
    ensures
        views(r@) == dedup_adjacent(views(v@)),
{
    let mut out: Vec<PrefixedLink> = Vec::new();
    let mut i: usize = 0;
    while i < v.len()
        invariant
            0 <= i <= v@.len(),
            views(out@) == dedup_adjacent(views(v@).subrange(0, i as int)),
            i > 0 ==> out@.len() > 0 && out@.last()@ == v@[i - 1]@,
            i == 0 ==> out@.len() == 0,
        decreases v@.len() - i,
    {
        let ghost w = views(v@).subrange(0, i + 1);
        proof {
            assert(w.drop_last() =~= views(v@).subrange(0, i as int));
            assert(w.last() == v@[i as int]@);
            if i > 0 {
                assert(w[w.len() - 2] == v@[i - 1]@);
            }
        }
        let keep = if i == 0 {
            true
        } else {
            !out[out.len() - 1].same_as(&v[i])
        };
        if keep {
            let ghost before = out@;
            out.push(v[i].duplicate());
            assert(views(out@) =~= views(before).push(v@[i as int]@));
        }
        i += 1;
    }
    assert(views(v@).subrange(0, v@.len() as int) =~= views(v@));
    out
}

} // verus!

verus! {

/// The merged roster is sorted by sequence number, holds exactly the records
/// of its two sources, and has no two equal neighbours.
pub proof fn lemma_merged(a: Seq<LinkView>, b: Seq<LinkView>)
    ensures
        sorted_by_index(merged(a, b)),
        forall|y: LinkView| merged(a, b).contains(y) <==> (a + b).contains(y),
        no_adjacent_duplicates(merged(a, b)),
{
    lemma_sort_by_index(a + b);
    lemma_dedup_adjacent(sort_by_index(a + b));
}

/// A record that both sources hold, and that no other record of the same
/// sequence number competes with, stands in the merged roster exactly once.
pub proof fn lemma_merged_once(a: Seq<LinkView>, b: Seq<LinkView>, r: LinkView)
    requires
        a.contains(r),
        b.contains(r),
        forall|y: LinkView| (a + b).contains(y) && y.1 == r.1 ==> y == r,
    ensures
        exists|i: int| 0 <= i < merged(a, b).len() && merged(a, b)[i] == r,
        forall|i: int, j: int|
            0 <= i < merged(a, b).len() && 0 <= j < merged(a, b).len() && merged(a, b)[i] == r
                && merged(a, b)[j] == r ==> i == j,
{
    lemma_merged(a, b);
    let m = merged(a, b);
    let ai = choose|i: int| 0 <= i < a.len() && a[i] == r;
    assert((a + b)[ai] == r);
    assert(m.contains(r));
    assert forall|i: int, j: int|
        0 <= i < m.len() && 0 <= j < m.len() && m[i] == r && m[j] == r implies i == j by {
        if i != j {
            let (lo, hi) = if i < j {
                (i, j)
            } else {
                (j, i)
            };
            let y = m[lo + 1];
            assert(m.contains(y));
            assert(r.1 <= y.1 && y.1 <= m[hi].1);
            assert(y == r);
            assert(m[lo] != m[lo + 1]);
        }
    }
}

} // verus!
