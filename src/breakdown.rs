use crate::category::Key;
use vstd::prelude::*;

verus! {

/// A breakdown as seen by contracts: each entry's key text and amount.
pub open spec fn entries_view<K: Key>(e: Seq<(K, i64)>) -> Seq<(Seq<char>, int)> {
    e.map_values(|p: (K, i64)| (p.0.key(), p.1 as int))
}

pub open spec fn distinct_keys(v: Seq<(Seq<char>, int)>) -> bool {
    forall|i: int, j: int| 0 <= i < j < v.len() ==> v[i].0 != v[j].0
}

pub open spec fn has_key(v: Seq<(Seq<char>, int)>, k: Seq<char>) -> bool {
    exists|i: int| 0 <= i < v.len() && v[i].0 == k
}

/// `v` with `x` added to the entry keyed `k`, or with a new entry `(k, x)` at
/// the end when there is none.
pub open spec fn add_entry(v: Seq<(Seq<char>, int)>, k: Seq<char>, x: int) -> Seq<(Seq<char>, int)> {
    if has_key(v, k) {
        v.map_values(|e: (Seq<char>, int)| if e.0 == k { (e.0, e.1 + x) } else { e })
    } else {
        v.push((k, x))
    }
}

pub open spec fn fits(x: int) -> bool {
    i64::MIN <= x <= i64::MAX
}

/// Adding `x` to the entry keyed `k`, if there is one, stays within `i64`.
pub open spec fn room_for(v: Seq<(Seq<char>, int)>, k: Seq<char>, x: int) -> bool {
    forall|i: int| 0 <= i < v.len() && v[i].0 == k ==> fits(v[i].1 + x)
}

pub open spec fn sum_values(v: Seq<(Seq<char>, int)>) -> int
    decreases v.len(),
{
    if v.len() == 0 {
        0
    } else {
        sum_values(v.drop_last()) + v.last().1
    }
}

pub open spec fn sorted_desc(v: Seq<(Seq<char>, int)>) -> bool {
    forall|i: int, j: int| 0 <= i < j < v.len() ==> v[i].1 >= v[j].1
}

/// `x` placed after every entry of `q` whose amount is at least its own.
pub open spec fn insert_desc(q: Seq<(Seq<char>, int)>, x: (Seq<char>, int)) -> Seq<(Seq<char>, int)>
    decreases q.len(),
{
    if q.len() == 0 {
        seq![x]
    } else if q.last().1 >= x.1 {
        q.push(x)
    } else {
        insert_desc(q.drop_last(), x).push(q.last())
    }
}

/// Entries by non-increasing amount; equal amounts keep their order.
pub open spec fn sort_desc(v: Seq<(Seq<char>, int)>) -> Seq<(Seq<char>, int)>
    decreases v.len(),
{
    if v.len() == 0 {
        v
    } else {
        insert_desc(sort_desc(v.drop_last()), v.last())
    }
}

/// Adds `x` to the entry keyed like `key`, or appends a new entry for it.
pub fn add_to<K: Key>(entries: &mut Vec<(K, i64)>, key: &K, x: i64)
    requires
        distinct_keys(entries_view(old(entries)@)),
        room_for(entries_view(old(entries)@), key.key(), x as int),
    ensures
        entries_view(final(entries)@) == add_entry(entries_view(old(entries)@), key.key(), x as int),
        distinct_keys(entries_view(final(entries)@)),
{
    let ghost v0 = entries_view(entries@);
    let n = entries.len();
    let mut i: usize = 0;
    while i < n
        invariant
            n == entries@.len(),
            v0 == entries_view(entries@),
            v0 == entries_view(old(entries)@),
            distinct_keys(v0),
            room_for(v0, key.key(), x as int),
            i <= n,
            forall|j: int| 0 <= j < i ==> (#[trigger] entries@[j]).0.key() != key.key(),
        decreases n - i,
    {
        if entries[i].0.same_key(key) {
            assert(v0[i as int].0 == key.key());
            let s = entries[i].1 + x;
            entries[i].1 = s;
            proof {
                assert(has_key(v0, key.key()));
                assert(entries_view(entries@) =~= add_entry(v0, key.key(), x as int));
            }
            return;
        }
        i += 1;
    }
    entries.push((key.copy_key(), x));
    proof {
        assert(!has_key(v0, key.key())) by {
            if has_key(v0, key.key()) {
                let c = choose|c: int| 0 <= c < v0.len() && v0[c].0 == key.key();
                assert(entries@[c].0.key() != key.key());
            }
        }
        assert(entries_view(entries@) =~= v0.push((key.key(), x as int)));
    }
}

/// Adding `x` to one entry adds `x` to the sum of all entries.
pub proof fn lemma_add_entry_sum(v: Seq<(Seq<char>, int)>, k: Seq<char>, x: int)
    requires
        distinct_keys(v),
    ensures
        sum_values(add_entry(v, k, x)) == sum_values(v) + x,
{
    if has_key(v, k) {
        let i = choose|i: int| 0 <= i < v.len() && v[i].0 == k;
        lemma_update_sum(v, i, (k, v[i].1 + x));
        assert(add_entry(v, k, x) =~= v.update(i, (k, v[i].1 + x)));
    } else {
        assert(v.push((k, x)).drop_last() =~= v);
        assert(add_entry(v, k, x) == v.push((k, x)));
        assert(sum_values(v.push((k, x))) == sum_values(v.push((k, x)).drop_last()) + x);
    }
}

proof fn lemma_update_sum(v: Seq<(Seq<char>, int)>, i: int, e: (Seq<char>, int))
    requires
        0 <= i < v.len(),
    ensures
        sum_values(v.update(i, e)) == sum_values(v) - v[i].1 + e.1,
    decreases v.len(),
{
    let u = v.update(i, e);
    if i == v.len() - 1 {
        assert(u.drop_last() =~= v.drop_last());
    } else {
        lemma_update_sum(v.drop_last(), i, e);
        assert(u.drop_last() =~= v.drop_last().update(i, e));
    }
}

proof fn lemma_insert_desc_facts(q: Seq<(Seq<char>, int)>, x: (Seq<char>, int))
    ensures
        sum_values(insert_desc(q, x)) == sum_values(q) + x.1,
        insert_desc(q, x).len() == q.len() + 1,
        sorted_desc(q) ==> sorted_desc(insert_desc(q, x)),
        forall|e| #[trigger] insert_desc(q, x).contains(e) <==> (q.contains(e) || e == x),
    decreases q.len(),
{
    if q.len() == 0 {
        assert(seq![x].drop_last() =~= q);
        assert(seq![x][0] == x);
    } else if q.last().1 >= x.1 {
        assert(q.push(x).drop_last() =~= q);
        assert forall|e| q.push(x).contains(e) <==> (q.contains(e) || e == x) by {
            if q.contains(e) {
                let j = choose|j: int| 0 <= j < q.len() && q[j] == e;
                assert(q.push(x)[j] == e);
            }
            if e == x {
                assert(q.push(x)[q.len() as int] == e);
            }
        }
    } else {
        let p = q.drop_last();
        lemma_insert_desc_facts(p, x);
        let r = insert_desc(p, x);
        assert(r.push(q.last()).drop_last() =~= r);
        assert(p.push(q.last()) =~= q);
        assert forall|e| r.push(q.last()).contains(e) <==> (q.contains(e) || e == x) by {
            let rp = r.push(q.last());
            if q.contains(e) || e == x {
                if e == x || p.contains(e) {
                    assert(r.contains(e));
                    let jr = choose|jr: int| 0 <= jr < r.len() && r[jr] == e;
                    assert(rp[jr] == e);
                } else {
                    let j = choose|j: int| 0 <= j < q.len() && q[j] == e;
                    if j < p.len() {
                        assert(p[j] == e);
                    }
                    assert(j == q.len() - 1);
                    assert(rp[r.len() as int] == e);
                }
            }
            if rp.contains(e) {
                let j = choose|j: int| 0 <= j < rp.len() && rp[j] == e;
                if j < r.len() {
                    assert(r[j] == e);
                    assert(r.contains(e));
                    if p.contains(e) {
                        let jj = choose|jj: int| 0 <= jj < p.len() && p[jj] == e;
                        assert(q[jj] == e);
                    }
                } else {
                    assert(q[q.len() - 1] == e);
                }
            }
        }
        if sorted_desc(q) {
            assert forall|i: int, j: int|
                0 <= i < j < r.len() + 1 implies r.push(q.last())[i].1 >= r.push(
                q.last(),
            )[j].1 by {
                if j == r.len() {
                    // every entry of r comes from p or is x, and both are at
                    // least q's last amount
                    let e = r[i];
                    assert(r.contains(e));
                    if p.contains(e) {
                        let jj = choose|jj: int| 0 <= jj < p.len() && p[jj] == e;
                        assert(q[jj] == e);
                    }
                }
            }
        }
    }
}

/// Sorting keeps the sum of the amounts, the entries and their number, and
/// leaves them in non-increasing order.
pub proof fn lemma_sort_desc_facts(v: Seq<(Seq<char>, int)>)
    ensures
        sum_values(sort_desc(v)) == sum_values(v),
        sort_desc(v).len() == v.len(),
        sorted_desc(sort_desc(v)),
        forall|e| #[trigger] sort_desc(v).contains(e) <==> v.contains(e),
    decreases v.len(),
{
    if v.len() > 0 {
        let p = v.drop_last();
        lemma_sort_desc_facts(p);
        lemma_insert_desc_facts(sort_desc(p), v.last());
        assert forall|e| sort_desc(v).contains(e) <==> v.contains(e) by {
            if v.contains(e) {
                let j = choose|j: int| 0 <= j < v.len() && v[j] == e;
                if j < p.len() {
                    assert(p[j] == e);
                }
            }
            if p.contains(e) {
                let j = choose|j: int| 0 <= j < p.len() && p[j] == e;
                assert(v[j] == e);
            }
        }
    }
}

/// Inserting at the first position whose amount is below `x`'s is what
/// `insert_desc` does.
proof fn lemma_insert_at(q: Seq<(Seq<char>, int)>, x: (Seq<char>, int), p: int)
    requires
        0 <= p <= q.len(),
        forall|j: int| 0 <= j < p ==> q[j].1 >= x.1,
        forall|j: int| p <= j < q.len() ==> q[j].1 < x.1,
    ensures
        insert_desc(q, x) == q.insert(p, x),
    decreases q.len(),
{
    if q.len() == 0 {
        assert(q.insert(p, x) =~= seq![x]);
    } else if q.last().1 >= x.1 {
        assert(p == q.len());
        assert(q.insert(p, x) =~= q.push(x));
    } else {
        lemma_insert_at(q.drop_last(), x, p);
        assert(q.drop_last().insert(p, x).push(q.last()) =~= q.insert(p, x));
    }
}

/// The entries ordered by non-increasing amount, equal amounts in the order
/// they come in.
pub fn sort_entries<K: Key>(v: Vec<(K, i64)>) -> (r: Vec<(K, i64)>)
    ensures
        entries_view(r@) == sort_desc(entries_view(v@)),
{
    let ghost v0 = v@;
    let mut rest = v;
    let mut out: Vec<(K, i64)> = Vec::new();
    let n = rest.len();
    let mut k: usize = 0;
    while k < n
        invariant
            n == v0.len(),
            k <= n,
            rest@ == v0.subrange(k as int, n as int),
            entries_view(out@) == sort_desc(entries_view(v0.subrange(0, k as int))),
            sorted_desc(entries_view(out@)),
        decreases n - k,
    {
        let x = rest.remove(0);
        let ghost q = entries_view(out@);
        let ghost xv = (x.0.key(), x.1 as int);
        let mut p = out.len();
        while p > 0 && out[p - 1].1 < x.1
            invariant
                p <= out@.len(),
                q == entries_view(out@),
                sorted_desc(q),
                xv.1 == x.1,
                forall|j: int| p <= j < q.len() ==> q[j].1 < xv.1,
            decreases p,
        {
            p -= 1;
        }
        proof {
            if p > 0 {
                assert(q[p - 1].1 >= xv.1);
            }
            lemma_insert_at(q, xv, p as int);
            let s = entries_view(v0.subrange(0, k as int + 1));
            assert(s.drop_last() =~= entries_view(v0.subrange(0, k as int)));
            assert(v0[k as int] == x);
            assert(s.last() == xv);
            lemma_sort_desc_facts(s);
        }
        out.insert(p, x);
        proof {
            assert(entries_view(out@) =~= q.insert(p as int, xv));
        }
        k += 1;
    }
    proof {
        assert(v0.subrange(0, n as int) =~= v0);
    }
    out
}

} // verus!
