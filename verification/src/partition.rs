//! Partitions of a number into positive parts, built from the partitions of
//! smaller numbers and kept in a table from number to its partitions.

use vstd::prelude::*;
use std::collections::HashMap;

verus! {

broadcast use vstd::std_specs::hash::group_hash_axioms;

/// The sum of the parts.
pub open spec fn total(p: Seq<u64>) -> int
    decreases p.len(),
{
    if p.len() == 0 {
        0
    } else {
        total(p.drop_last()) + p.last()
    }
}

/// The parts never decrease from left to right.
pub open spec fn ascending(p: Seq<u64>) -> bool {
    forall|a: int, b: int| 0 <= a < b < p.len() ==> p[a] <= p[b]
}

/// `p` lists the parts of a partition of `j` in ascending order.
pub open spec fn is_partition(p: Seq<u64>, j: int) -> bool {
    &&& ascending(p)
    &&& forall|i: int| 0 <= i < p.len() ==> p[i] >= 1
    &&& total(p) == j
}

/// What the table holds for `j`: the partitions of `j`, each as its ascending
/// list of parts; for zero, the one list `[0]`.
pub open spec fn table_entry(j: int) -> Set<Seq<u64>> {
    if j == 0 {
        set![seq![0u64]]
    } else {
        Set::new(|p: Seq<u64>| is_partition(p, j))
    }
}

/// The lists of parts held by a vector of vectors.
pub open spec fn lists_view(v: Seq<Vec<u64>>) -> Seq<Seq<u64>> {
    v.map_values(|x: Vec<u64>| x@)
}

/// Every positive number in the table maps to its partitions, each listed once.
pub open spec fn table_wf(pmap: Map<u64, Vec<Vec<u64>>>) -> bool {
    forall|j: u64|
        #[trigger] pmap.contains_key(j) && j >= 1 ==> {
            &&& lists_view(pmap[j]@).no_duplicates()
            &&& lists_view(pmap[j]@).to_set() == table_entry(j as int)
        }
}

/// The ascending merge of two ascending lists.
pub open spec fn merged(a: Seq<u64>, b: Seq<u64>) -> Seq<u64>
    decreases a.len() + b.len(),
{
    if a.len() == 0 {
        b
    } else if b.len() == 0 {
        a
    } else if a[0] <= b[0] {
        seq![a[0]] + merged(a.drop_first(), b)
    } else {
        seq![b[0]] + merged(a, b.drop_first())
    }
}

proof fn lemma_total_first(p: Seq<u64>)
    requires
        p.len() > 0,
    ensures
        total(p) == p[0] + total(p.drop_first()),
    decreases p.len(),
{
    if p.len() > 1 {
        lemma_total_first(p.drop_last());
        assert(p.drop_last().drop_first() =~= p.drop_first().drop_last());
        assert(p.drop_first().last() == p.last());
        assert(total(p.drop_first()) == total(p.drop_first().drop_last()) + p.drop_first().last());
    } else {
        assert(p.drop_first().len() == 0);
        assert(p.drop_last().len() == 0);
        assert(total(p.drop_first()) == 0);
        assert(total(p.drop_last()) == 0);
        assert(p.last() == p[0]);
    }
}

proof fn lemma_merged_props(a: Seq<u64>, b: Seq<u64>)
    requires
        ascending(a),
        ascending(b),
    ensures
        ascending(merged(a, b)),
        merged(a, b).len() == a.len() + b.len(),
        total(merged(a, b)) == total(a) + total(b),
        forall|i: int|
            0 <= i < merged(a, b).len() ==> (exists|x: int|
                0 <= x < a.len() && #[trigger] merged(a, b)[i] == a[x]) || (exists|y: int|
                0 <= y < b.len() && merged(a, b)[i] == b[y]),
        merged(a, b).len() > 0 ==> (a.len() > 0 && merged(a, b)[0] == a[0]) || (b.len() > 0
            && merged(a, b)[0] == b[0]),
    decreases a.len() + b.len(),
{
    let m = merged(a, b);
    if a.len() == 0 {
        assert(total(a) == 0);
        assert forall|i: int| 0 <= i < m.len() implies (exists|x: int|
            0 <= x < a.len() && #[trigger] m[i] == a[x]) || (exists|y: int|
            0 <= y < b.len() && m[i] == b[y]) by {
            assert(m[i] == b[i]);
        }
    } else if b.len() == 0 {
        assert(total(b) == 0);
        assert forall|i: int| 0 <= i < m.len() implies (exists|x: int|
            0 <= x < a.len() && #[trigger] m[i] == a[x]) || (exists|y: int|
            0 <= y < b.len() && m[i] == b[y]) by {
            assert(m[i] == a[i]);
        }
    } else if a[0] <= b[0] {
        let a1 = a.drop_first();
        lemma_merged_props(a1, b);
        let rest = merged(a1, b);
        lemma_total_first(a);
        lemma_total_first(m);
        assert(m.drop_first() =~= rest);
        assert forall|i: int| 0 <= i < m.len() implies (exists|x: int|
            0 <= x < a.len() && #[trigger] m[i] == a[x]) || (exists|y: int|
            0 <= y < b.len() && m[i] == b[y]) by {
            if i == 0 {
                assert(m[0] == a[0]);
            } else {
                assert(m[i] == rest[i - 1]);
                if exists|x: int| 0 <= x < a1.len() && rest[i - 1] == a1[x] {
                    let x = choose|x: int| 0 <= x < a1.len() && rest[i - 1] == a1[x];
                    assert(m[i] == a[x + 1]);
                }
            }
        }
        assert forall|p: int, q: int| 0 <= p < q < m.len() implies m[p] <= m[q] by {
            if p == 0 {
                assert(m[q] == rest[q - 1]);
                if exists|x: int| 0 <= x < a1.len() && rest[q - 1] == a1[x] {
                    let x = choose|x: int| 0 <= x < a1.len() && rest[q - 1] == a1[x];
                    assert(a1[x] == a[x + 1]);
                } else {
                    let y = choose|y: int| 0 <= y < b.len() && rest[q - 1] == b[y];
                    assert(b[0] <= b[y]);
                }
            } else {
                assert(m[p] == rest[p - 1]);
                assert(m[q] == rest[q - 1]);
            }
        }
    } else {
        let b1 = b.drop_first();
        lemma_merged_props(a, b1);
        let rest = merged(a, b1);
        lemma_total_first(b);
        lemma_total_first(m);
        assert(m.drop_first() =~= rest);
        assert forall|i: int| 0 <= i < m.len() implies (exists|x: int|
            0 <= x < a.len() && #[trigger] m[i] == a[x]) || (exists|y: int|
            0 <= y < b.len() && m[i] == b[y]) by {
            if i == 0 {
                assert(m[0] == b[0]);
            } else {
                assert(m[i] == rest[i - 1]);
                if exists|y: int| 0 <= y < b1.len() && rest[i - 1] == b1[y] {
                    let y = choose|y: int| 0 <= y < b1.len() && rest[i - 1] == b1[y];
                    assert(m[i] == b[y + 1]);
                }
            }
        }
        assert forall|p: int, q: int| 0 <= p < q < m.len() implies m[p] <= m[q] by {
            if p == 0 {
                assert(m[q] == rest[q - 1]);
                if exists|y: int| 0 <= y < b1.len() && rest[q - 1] == b1[y] {
                    let y = choose|y: int| 0 <= y < b1.len() && rest[q - 1] == b1[y];
                    assert(b1[y] == b[y + 1]);
                } else {
                    let x = choose|x: int| 0 <= x < a.len() && rest[q - 1] == a[x];
                    assert(a[0] <= a[x]);
                }
            } else {
                assert(m[p] == rest[p - 1]);
                assert(m[q] == rest[q - 1]);
            }
        }
    }
}

/// The ascending merge of two ascending lists of parts.
fn merge(a: &Vec<u64>, b: &Vec<u64>) -> (m: Vec<u64>)
    ensures
        m@ == merged(a@, b@),
{
    let mut out: Vec<u64> = Vec::new();
    let mut i: usize = 0;
    let mut j: usize = 0;
    assert(a@.skip(0) =~= a@);
    assert(b@.skip(0) =~= b@);
    assert(out@ + merged(a@, b@) =~= merged(a@, b@));
    while i < a.len() || j < b.len()
        invariant
            i <= a.len(),
            j <= b.len(),
            out@ + merged(a@.skip(i as int), b@.skip(j as int)) == merged(a@, b@),
        decreases a.len() - i + b.len() - j,
    {
        let ghost sa = a@.skip(i as int);
        let ghost sb = b@.skip(j as int);
        if i < a.len() && (j >= b.len() || a[i] <= b[j]) {
            proof {
                if sb.len() == 0 {
                    assert(merged(sa, sb) == sa);
                    assert(merged(sa.drop_first(), sb) == sa.drop_first());
                }
                assert(sa.drop_first() =~= a@.skip(i + 1));
                assert(out@.push(a[i as int]) + merged(a@.skip(i + 1), sb) =~= out@ + merged(sa, sb));
            }
            out.push(a[i]);
            i = i + 1;
        } else {
            proof {
                if sa.len() == 0 {
                    assert(merged(sa, sb) == sb);
                    assert(merged(sa, sb.drop_first()) == sb.drop_first());
                }
                assert(sb.drop_first() =~= b@.skip(j + 1));
                assert(out@.push(b[j as int]) + merged(sa, b@.skip(j + 1)) =~= out@ + merged(sa, sb));
            }
            out.push(b[j]);
            j = j + 1;
        }
    }
    proof {
        assert(a@.skip(i as int).len() == 0);
        assert(b@.skip(j as int).len() == 0);
        assert(out@ + merged(a@.skip(i as int), b@.skip(j as int)) =~= out@);
    }
    out
}

/// Whether two lists of parts are equal.
fn same_parts(a: &Vec<u64>, b: &Vec<u64>) -> (r: bool)
    ensures
        r == (a@ == b@),
{
    if a.len() != b.len() {
        return false;
    }
    let mut i: usize = 0;
    while i < a.len()
        invariant
            a.len() == b.len(),
            i <= a.len(),
            forall|j: int| 0 <= j < i ==> a@[j] == b@[j],
        decreases a.len() - i,
    {
        if a[i] != b[i] {
            return false;
        }
        i = i + 1;
    }
    assert(a@ =~= b@);
    true
}

/// Adds `v` to `set` unless a list equal to it is already there.
fn insert_list(set: &mut Vec<Vec<u64>>, v: Vec<u64>)
    requires
        lists_view(old(set)@).no_duplicates(),
    ensures
        lists_view(final(set)@).no_duplicates(),
        lists_view(final(set)@).to_set() == lists_view(old(set)@).to_set().insert(v@),
{
    let ghost before = lists_view(set@);
    let mut i: usize = 0;
    while i < set.len()
        invariant
            i <= set.len(),
            before == lists_view(set@),
            before.no_duplicates(),
            forall|j: int| 0 <= j < i ==> set@[j]@ != v@,
        decreases set.len() - i,
    {
        if same_parts(&set[i], &v) {
            proof {
                assert(before[i as int] == v@);
                assert(before.to_set().insert(v@) =~= before.to_set());
            }
            return;
        }
        i = i + 1;
    }
    set.push(v);
    proof {
        let after = lists_view(set@);
        assert(after =~= before.push(v@));
        assert(!before.contains(v@)) by {
            if before.contains(v@) {
                let j = choose|j: int| 0 <= j < before.len() && before[j] == v@;
                assert(set@[j]@ == v@);
            }
        }
        before.lemma_push_to_set_commute(v@);
        assert(after.no_duplicates()) by {
            assert forall|a: int, b: int| 0 <= a < b < after.len() implies after[a] != after[b] by {
                if b == after.len() - 1 {
                    assert(before[a] == after[a]);
                }
            }
        }
    }
}

/// The partitions of `n` that are merges of a partition of some `m` in
/// `1 ..= limit` and a partition of `n - m`, together with `[n]`.
spec fn built(n: int, limit: int) -> Set<Seq<u64>> {
    Set::new(
        |p: Seq<u64>|
            p == seq![n as u64] || exists|m: int, a: Seq<u64>, b: Seq<u64>|
                1 <= m <= limit && #[trigger] is_partition(a, m) && is_partition(b, n - m) && p
                    == #[trigger] merged(a, b),
    )
}

proof fn lemma_total_single(x: u64)
    ensures
        total(seq![x]) == x,
{
    assert(seq![x].drop_last() =~= Seq::<u64>::empty());
    assert(total(Seq::<u64>::empty()) == 0);
    assert(seq![x].last() == x);
}

/// Every partition of `n` is `[n]` or the merge of its least part with the rest.
proof fn lemma_built_complete(n: int)
    requires
        1 <= n <= u64::MAX,
    ensures
        built(n, n / 2) == table_entry(n),
{
    assert forall|p: Seq<u64>| built(n, n / 2).contains(p) implies table_entry(n).contains(p) by {
        if p == seq![n as u64] {
            lemma_total_single(n as u64);
        } else {
            let (m, a, b) = choose|m: int, a: Seq<u64>, b: Seq<u64>|
                1 <= m <= n / 2 && #[trigger] is_partition(a, m) && is_partition(b, n - m) && p
                    == #[trigger] merged(a, b);
            lemma_merged_props(a, b);
            assert forall|i: int| 0 <= i < p.len() implies p[i] >= 1 by {
                if exists|x: int| 0 <= x < a.len() && p[i] == a[x] {
                    let x = choose|x: int| 0 <= x < a.len() && p[i] == a[x];
                    assert(a[x] >= 1);
                } else {
                    let y = choose|y: int| 0 <= y < b.len() && p[i] == b[y];
                    assert(b[y] >= 1);
                }
            }
        }
    }
    assert forall|p: Seq<u64>| table_entry(n).contains(p) implies built(n, n / 2).contains(p) by {
        if p.len() == 0 {
            assert(total(p) == 0);
        } else if p.len() == 1 {
            lemma_total_single(p[0]);
            assert(p =~= seq![p[0]]);
            assert(p =~= seq![n as u64]);
        } else {
            let x = p[0];
            let a = seq![x];
            let b = p.drop_first();
            lemma_total_first(p);
            lemma_total_first(b);
            lemma_total_single(x);
            assert(x <= p[1]);
            assert(total(b.drop_first()) >= 0) by {
                lemma_total_nonneg(b.drop_first());
            }
            assert(2 * x <= n);
            assert(is_partition(a, x as int));
            assert(is_partition(b, n - x));
            assert(merged(a, b) =~= p) by {
                assert(a.drop_first() =~= Seq::<u64>::empty());
                assert(merged(a.drop_first(), b) == b);
                assert(a[0] <= b[0]);
            }
        }
    }
    assert(built(n, n / 2) =~= table_entry(n));
}

proof fn lemma_total_nonneg(p: Seq<u64>)
    ensures
        total(p) >= 0,
    decreases p.len(),
{
    if p.len() > 0 {
        lemma_total_nonneg(p.drop_last());
    }
}

/// Makes sure that the table holds the partitions of `n`, adding those of
/// smaller numbers that building them needs; entries already there are kept.
pub fn update_pmap(pmap: &mut HashMap<u64, Vec<Vec<u64>>>, n: u64)
    requires
        table_wf(old(pmap)@),
    ensures
        table_wf(final(pmap)@),
        final(pmap)@.contains_key(n),
        !old(pmap)@.contains_key(n) ==> lists_view(final(pmap)@[n]@).no_duplicates() && lists_view(
            final(pmap)@[n]@,
        ).to_set() == table_entry(n as int),
        final(pmap)@.dom() == if old(pmap)@.contains_key(n) {
            old(pmap)@.dom()
        } else {
            old(pmap)@.dom().union(Set::new(|j: u64| j == n || 1 <= j <= n))
        },
        forall|j: u64| #[trigger] old(pmap)@.contains_key(j) ==> final(pmap)@.contains_key(j)
            && final(pmap)@[j] == old(pmap)@[j],
    decreases n,
{
    if pmap.contains_key(&n) {
        return;
    }
    let mut vvec: Vec<Vec<u64>> = Vec::new();
    let mut single: Vec<u64> = Vec::new();
    single.push(n);
    insert_list(&mut vvec, single);
    if n == 0 {
        proof {
            assert(lists_view(vvec@).to_set() =~= table_entry(0));
        }
        pmap.insert(n, vvec);
        assert(pmap@.dom() =~= old(pmap)@.dom().union(Set::new(|j: u64| j == n || 1 <= j <= n)));
        return;
    }
    proof {
        assert(lists_view(vvec@).to_set() =~= built(n as int, 0));
    }
    let ghost start = pmap@;
    assert(start == old(pmap)@);
    let half = n / 2;
    let mut m: u64 = 1;
    while m <= half
        invariant
            1 <= n,
            half == n / 2,
            1 <= m <= half + 1,
            table_wf(pmap@),
            !pmap@.contains_key(n),
            forall|j: u64| #[trigger] pmap@.contains_key(j) ==> start.contains_key(j) || 1 <= j < n,
            forall|j: u64| (1 <= j < m || n - m < j < n) ==> #[trigger] pmap@.contains_key(j),
            forall|j: u64| #[trigger] start.contains_key(j) ==> pmap@.contains_key(j) && pmap@[j]
                == start[j],
            lists_view(vvec@).no_duplicates(),
            lists_view(vvec@).to_set() == built(n as int, m - 1),
        decreases half + 1 - m,
    {
        update_pmap(pmap, m);
        update_pmap(pmap, n - m);
        let ghost before_inner = lists_view(vvec@).to_set();
        let v1 = pmap.get(&m).unwrap();
        let v2 = pmap.get(&(n - m)).unwrap();
        assert(lists_view(v1@).to_set() == table_entry(m as int));
        assert(lists_view(v2@).to_set() == table_entry((n - m) as int));
        let mut ia: usize = 0;
        while ia < v1.len()
            invariant
                1 <= m <= n / 2,
                lists_view(v1@).to_set() == table_entry(m as int),
                lists_view(v2@).to_set() == table_entry((n - m) as int),
                ia <= v1.len(),
                lists_view(vvec@).no_duplicates(),
                lists_view(vvec@).to_set() == before_inner.union(
                    Set::new(
                        |p: Seq<u64>|
                            exists|x: int, y: int|
                                0 <= x < ia && 0 <= y < v2.len() && p == merged(
                                    #[trigger] v1@[x]@,
                                    #[trigger] v2@[y]@,
                                ),
                    ),
                ),
            decreases v1.len() - ia,
        {
            let mut ib: usize = 0;
            while ib < v2.len()
                invariant
                    ia < v1.len(),
                    ib <= v2.len(),
                    lists_view(vvec@).no_duplicates(),
                    lists_view(vvec@).to_set() == before_inner.union(
                        Set::new(
                            |p: Seq<u64>|
                                exists|x: int, y: int|
                                    ((0 <= x < ia && 0 <= y < v2.len()) || (x == ia && 0 <= y
                                        < ib)) && p == merged(
                                        #[trigger] v1@[x]@,
                                        #[trigger] v2@[y]@,
                                    ),
                        ),
                    ),
                decreases v2.len() - ib,
            {
                let combo = merge(&v1[ia], &v2[ib]);
                let ghost prev = lists_view(vvec@).to_set();
                insert_list(&mut vvec, combo);
                proof {
                    let pred_old = |p: Seq<u64>|
                        exists|x: int, y: int|
                            ((0 <= x < ia && 0 <= y < v2.len()) || (x == ia && 0 <= y < ib)) && p
                                == merged(#[trigger] v1@[x]@, #[trigger] v2@[y]@);
                    let pred_new = |p: Seq<u64>|
                        exists|x: int, y: int|
                            ((0 <= x < ia && 0 <= y < v2.len()) || (x == ia && 0 <= y < ib + 1))
                                && p == merged(#[trigger] v1@[x]@, #[trigger] v2@[y]@);
                    assert(Set::new(pred_new) =~= Set::new(pred_old).insert(
                        merged(v1@[ia as int]@, v2@[ib as int]@),
                    )) by {
                        assert forall|p: Seq<u64>| pred_new(p) implies Set::new(pred_old).insert(
                            merged(v1@[ia as int]@, v2@[ib as int]@),
                        ).contains(p) by {
                            let (x, y) = choose|x: int, y: int|
                                ((0 <= x < ia && 0 <= y < v2.len()) || (x == ia && 0 <= y < ib
                                    + 1)) && p == merged(#[trigger] v1@[x]@, #[trigger] v2@[y]@);
                            if x == ia && y == ib {
                            } else {
                                assert(pred_old(p));
                            }
                        }
                        assert forall|p: Seq<u64>|
                            Set::new(pred_old).insert(
                                merged(v1@[ia as int]@, v2@[ib as int]@),
                            ).contains(p) implies pred_new(p) by {
                            if p == merged(v1@[ia as int]@, v2@[ib as int]@) {
                                assert(((ia == ia && 0 <= ib < ib + 1)) && p == merged(
                                    v1@[ia as int]@,
                                    v2@[ib as int]@,
                                ));
                            } else {
                                let (x, y) = choose|x: int, y: int|
                                    ((0 <= x < ia && 0 <= y < v2.len()) || (x == ia && 0 <= y
                                        < ib)) && p == merged(
                                        #[trigger] v1@[x]@,
                                        #[trigger] v2@[y]@,
                                    );
                                assert(((0 <= x < ia && 0 <= y < v2.len()) || (x == ia && 0 <= y
                                    < ib + 1)) && p == merged(v1@[x]@, v2@[y]@));
                            }
                        }
                    }
                    assert(lists_view(vvec@).to_set() =~= before_inner.union(Set::new(pred_new)));
                }
                ib = ib + 1;
            }
            proof {
                assert(Set::new(
                    |p: Seq<u64>|
                        exists|x: int, y: int|
                            ((0 <= x < ia && 0 <= y < v2.len()) || (x == ia && 0 <= y < v2.len()))
                                && p == merged(#[trigger] v1@[x]@, #[trigger] v2@[y]@),
                ) =~= Set::new(
                    |p: Seq<u64>|
                        exists|x: int, y: int|
                            0 <= x < ia + 1 && 0 <= y < v2.len() && p == merged(
                                #[trigger] v1@[x]@,
                                #[trigger] v2@[y]@,
                            ),
                ));
            }
            ia = ia + 1;
        }
        proof {
            let lv1 = lists_view(v1@);
            let lv2 = lists_view(v2@);
            let added = Set::new(
                |p: Seq<u64>|
                    exists|x: int, y: int|
                        0 <= x < v1.len() && 0 <= y < v2.len() && p == merged(
                            #[trigger] v1@[x]@,
                            #[trigger] v2@[y]@,
                        ),
            );
            assert(built(n as int, m as int) =~= built(n as int, m - 1).union(added)) by {
                assert forall|p: Seq<u64>| built(n as int, m as int).contains(p) implies built(
                    n as int,
                    m - 1,
                ).union(added).contains(p) by {
                    if p != seq![n as u64] {
                        let (mm, a, b) = choose|mm: int, a: Seq<u64>, b: Seq<u64>|
                            1 <= mm <= m && #[trigger] is_partition(a, mm) && is_partition(
                                b,
                                n - mm,
                            ) && p == #[trigger] merged(a, b);
                        if mm < m {
                            assert(built(n as int, m - 1).contains(p));
                        } else {
                            assert(table_entry(m as int).contains(a));
                            assert(lv1.to_set().contains(a));
                            let x = choose|x: int| 0 <= x < lv1.len() && lv1[x] == a;
                            assert(table_entry((n - m) as int).contains(b));
                            assert(lv2.to_set().contains(b));
                            let y = choose|y: int| 0 <= y < lv2.len() && lv2[y] == b;
                            assert(v1@[x]@ == a && v2@[y]@ == b);
                            assert(added.contains(p));
                        }
                    }
                }
                assert forall|p: Seq<u64>| built(n as int, m - 1).union(added).contains(
                    p,
                ) implies built(n as int, m as int).contains(p) by {
                    if added.contains(p) {
                        let (x, y) = choose|x: int, y: int|
                            0 <= x < v1.len() && 0 <= y < v2.len() && p == merged(
                                #[trigger] v1@[x]@,
                                #[trigger] v2@[y]@,
                            );
                        assert(lv1[x] == v1@[x]@);
                        assert(lv1.to_set().contains(v1@[x]@));
                        assert(lv2[y] == v2@[y]@);
                        assert(lv2.to_set().contains(v2@[y]@));
                        assert(is_partition(v1@[x]@, m as int));
                        assert(is_partition(v2@[y]@, n - m));
                    } else if p != seq![n as u64] {
                        let (mm, a, b) = choose|mm: int, a: Seq<u64>, b: Seq<u64>|
                            1 <= mm <= m - 1 && #[trigger] is_partition(a, mm) && is_partition(
                                b,
                                n - mm,
                            ) && p == #[trigger] merged(a, b);
                        assert(1 <= mm <= m && is_partition(a, mm) && is_partition(b, n - mm) && p
                            == #[trigger] merged(a, b));
                    }
                }
            }
        }
        m = m + 1;
    }
    proof {
        lemma_built_complete(n as int);
    }
    pmap.insert(n, vvec);
    assert(pmap@.dom() =~= start.dom().union(Set::new(|j: u64| j == n || 1 <= j <= n)));
}

} // verus!
