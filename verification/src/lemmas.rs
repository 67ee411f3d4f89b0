//! Lemmas about the model's first-index lookups and bucket operations.

use vstd::prelude::*;

use crate::records::{KeyV, RecordV};
use crate::model::{find_idx, prim_pred, hist_pred, bkt_pred, key_pred, prim_idx, prim_has, prim_get, prim_keys_distinct, buckets_wf, bucket_add, bucket_remove, bucket_of, in_bucket, hist_idx, hist_has, hist_get, hist_set, bkt_idx, has_bucket, key_idx};

verus! {

/// `find_idx` returns the first index satisfying `p`, or `-1` when no
/// index does.
pub proof fn lemma_find_idx<T>(s: Seq<T>, p: spec_fn(T) -> bool)
    ensures
        find_idx(s, p) >= 0 ==> 0 <= find_idx(s, p) < s.len() && p(s[find_idx(s, p)]) && (forall|
            j: int,
        |
            0 <= j < find_idx(s, p) ==> !p(s[j])),
        find_idx(s, p) < 0 ==> forall|j: int| 0 <= j < s.len() ==> !p(s[j]),
    decreases s.len(),
{
    if s.len() > 0 && !p(s[0]) {
        lemma_find_idx(s.drop_first(), p);
        let r = find_idx(s.drop_first(), p);
        if r >= 0 {
            assert(s[r + 1] == s.drop_first()[r]);
            assert forall|j: int| 0 <= j < r + 1 implies !p(s[j]) by {
                if j > 0 {
                    assert(s[j] == s.drop_first()[j - 1]);
                }
            }
        } else {
            assert forall|j: int| 0 <= j < s.len() implies !p(s[j]) by {
                if j > 0 {
                    assert(s[j] == s.drop_first()[j - 1]);
                }
            }
        }
    }
}

/// Two pointwise-matching sequences have the same `find_idx`.
pub proof fn lemma_find_idx_same<T>(s1: Seq<T>, s2: Seq<T>, p: spec_fn(T) -> bool)
    requires
        s1.len() == s2.len(),
        forall|j: int| 0 <= j < s1.len() ==> (p(#[trigger] s1[j]) <==> p(#[trigger] s2[j])),
    ensures
        find_idx(s1, p) == find_idx(s2, p),
{
    lemma_find_idx(s1, p);
    lemma_find_idx(s2, p);
    let i1 = find_idx(s1, p);
    let i2 = find_idx(s2, p);
    if i1 >= 0 && i2 >= 0 {
        if i1 < i2 {
            assert(!p(s2[i1]));
        } else if i2 < i1 {
            assert(!p(s1[i2]));
        }
    } else if i1 >= 0 {
        assert(!p(s2[i1]));
    } else if i2 >= 0 {
        assert(!p(s1[i2]));
    }
}

/// `find_idx` over a pushed sequence: the first match of the prefix wins;
/// the new last element only matters when the prefix has no match.
pub proof fn lemma_find_idx_push<T>(s: Seq<T>, p: spec_fn(T) -> bool, x: T)
    ensures
        find_idx(s, p) >= 0 ==> find_idx(s.push(x), p) == find_idx(s, p),
        find_idx(s, p) < 0 && p(x) ==> find_idx(s.push(x), p) == s.len(),
        find_idx(s, p) < 0 && !p(x) ==> find_idx(s.push(x), p) < 0,
{
    lemma_find_idx(s, p);
    lemma_find_idx(s.push(x), p);
    let i1 = find_idx(s, p);
    let i2 = find_idx(s.push(x), p);
    assert(forall|j: int| 0 <= j < s.len() ==> s.push(x)[j] == s[j]);
    assert(s.push(x)[s.len() as int] == x);
    if i1 >= 0 {
        if i2 < 0 {
            assert(!p(s.push(x)[i1]));
        } else if i2 < i1 {
            assert(!p(s[i2]));
        } else if i1 < i2 {
            assert(!p(s.push(x)[i1]));
        }
    } else {
        if p(x) {
            if i2 < 0 {
                assert(!p(s.push(x)[s.len() as int]));
            } else {
                if i2 < s.len() {
                    assert(!p(s[i2]));
                }
            }
        } else {
            if i2 >= 0 {
                if i2 < s.len() {
                    assert(!p(s[i2]));
                } else {
                    assert(!p(x));
                }
            }
        }
    }
}

// ---------------------------------------------------------------------
// Primary store lookups
// ---------------------------------------------------------------------

/// Characterizes `prim_idx`: the first entry holding `k`.
pub proof fn lemma_prim(ps: Seq<(KeyV, RecordV)>, k: KeyV)
    ensures
        prim_has(ps, k) ==> {
            let i = prim_idx(ps, k);
            0 <= i < ps.len() && ps[i].0 == k && (forall|j: int|
                0 <= j < i ==> (#[trigger] ps[j]).0 != k)
        },
        !prim_has(ps, k) ==> forall|j: int| 0 <= j < ps.len() ==> (#[trigger] ps[j]).0 != k,
        prim_has(ps, k) <==> exists|j: int| 0 <= j < ps.len() && (#[trigger] ps[j]).0 == k,
{
    let p = prim_pred(k);
    lemma_find_idx(ps, p);
    let i = prim_idx(ps, k);
    if i >= 0 {
        assert(p(ps[i]));
        assert forall|j: int| 0 <= j < i implies (#[trigger] ps[j]).0 != k by {
            assert(!p(ps[j]));
        }
    } else {
        assert forall|j: int| 0 <= j < ps.len() implies (#[trigger] ps[j]).0 != k by {
            assert(!p(ps[j]));
        }
    }
    if exists|j: int| 0 <= j < ps.len() && (#[trigger] ps[j]).0 == k {
        let j = choose|j: int| 0 <= j < ps.len() && (#[trigger] ps[j]).0 == k;
        assert(p(ps[j]));
    }
}

/// Replacing the record at `k`'s entry: `k` keeps its position and gets
/// the new record; every other key resolves as before.
pub proof fn lemma_prim_update(ps: Seq<(KeyV, RecordV)>, k: KeyV, r: RecordV)
    requires
        prim_has(ps, k),
    ensures
        ({
            let ps2 = ps.update(prim_idx(ps, k), (k, r));
            &&& ps2.len() == ps.len()
            &&& prim_idx(ps2, k) == prim_idx(ps, k)
            &&& prim_has(ps2, k)
            &&& prim_get(ps2, k) == r
            &&& forall|k2: KeyV|
                k2 != k ==> (prim_has(ps2, k2) == prim_has(ps, k2) && prim_idx(ps2, k2) == prim_idx(
                    ps,
                    k2,
                ))
            &&& forall|k2: KeyV|
                k2 != k && prim_has(ps, k2) ==> prim_get(ps2, k2) == prim_get(ps, k2)
            &&& prim_keys_distinct(ps) ==> prim_keys_distinct(ps2)
        }),
{
    let i = prim_idx(ps, k);
    lemma_prim(ps, k);
    let ps2 = ps.update(i, (k, r));
    assert forall|k2: KeyV| true implies prim_idx(ps2, k2) == prim_idx(ps, k2) by {
        let p = prim_pred(k2);
        assert forall|j: int| 0 <= j < ps.len() implies (p(#[trigger] ps[j]) <==> p(
            #[trigger] ps2[j],
        )) by {
            if j == i {
                assert(ps[i].0 == k && ps2[i].0 == k);
            } else {
                assert(ps2[j] == ps[j]);
            }
        }
        lemma_find_idx_same(ps, ps2, p);
    }
    lemma_prim(ps2, k);
    assert forall|k2: KeyV| k2 != k && prim_has(ps, k2) implies prim_get(ps2, k2) == prim_get(
        ps,
        k2,
    ) by {
        lemma_prim(ps, k2);
        assert(ps[prim_idx(ps, k2)].0 == k2);
        assert(prim_idx(ps, k2) != i);
    }
}

/// Appending an entry for a fresh key: the new key resolves to the new
/// record at the end; every other key resolves as before.
pub proof fn lemma_prim_push(ps: Seq<(KeyV, RecordV)>, k: KeyV, r: RecordV)
    requires
        !prim_has(ps, k),
    ensures
        ({
            let ps2 = ps.push((k, r));
            &&& ps2.len() == ps.len() + 1
            &&& prim_has(ps2, k)
            &&& prim_idx(ps2, k) == ps.len()
            &&& prim_get(ps2, k) == r
            &&& forall|k2: KeyV|
                k2 != k ==> (prim_has(ps2, k2) == prim_has(ps, k2) && prim_idx(ps2, k2) == prim_idx(
                    ps,
                    k2,
                ))
            &&& forall|k2: KeyV|
                k2 != k && prim_has(ps, k2) ==> prim_get(ps2, k2) == prim_get(ps, k2)
            &&& prim_keys_distinct(ps) ==> prim_keys_distinct(ps2)
        }),
{
    let ps2 = ps.push((k, r));
    lemma_prim(ps, k);
    let pk = prim_pred(k);
    assert(pk((k, r)));
    lemma_find_idx_push(ps, pk, (k, r));
    lemma_prim(ps2, k);
    assert forall|k2: KeyV| k2 != k implies prim_idx(ps2, k2) == prim_idx(ps, k2) by {
        let p = prim_pred(k2);
        assert(!p((k, r)));
        lemma_find_idx_push(ps, p, (k, r));
    }
    assert forall|k2: KeyV| k2 != k && prim_has(ps, k2) implies prim_get(ps2, k2) == prim_get(
        ps,
        k2,
    ) by {
        lemma_prim(ps, k2);
    }
    if prim_keys_distinct(ps) {
        assert forall|i: int, j: int| 0 <= i < j < ps2.len() implies (#[trigger] ps2[i]).0
            != (#[trigger] ps2[j]).0 by {
            if j == ps.len() {
                lemma_prim(ps, k);
            }
        }
    }
}

// ---------------------------------------------------------------------
// Previous-owner store
// ---------------------------------------------------------------------

/// Characterizes `hist_idx`: the first entry holding `k`.
pub proof fn lemma_hist(hs: Seq<(KeyV, Seq<char>)>, k: KeyV)
    ensures
        hist_has(hs, k) ==> {
            let i = hist_idx(hs, k);
            0 <= i < hs.len() && hs[i].0 == k && (forall|j: int|
                0 <= j < i ==> (#[trigger] hs[j]).0 != k)
        },
        !hist_has(hs, k) ==> forall|j: int| 0 <= j < hs.len() ==> (#[trigger] hs[j]).0 != k,
        hist_has(hs, k) <==> exists|j: int| 0 <= j < hs.len() && (#[trigger] hs[j]).0 == k,
{
    let p = hist_pred(k);
    lemma_find_idx(hs, p);
    let i = hist_idx(hs, k);
    if i >= 0 {
        assert(p(hs[i]));
        assert forall|j: int| 0 <= j < i implies (#[trigger] hs[j]).0 != k by {
            assert(!p(hs[j]));
        }
    } else {
        assert forall|j: int| 0 <= j < hs.len() implies (#[trigger] hs[j]).0 != k by {
            assert(!p(hs[j]));
        }
    }
    if exists|j: int| 0 <= j < hs.len() && (#[trigger] hs[j]).0 == k {
        let j = choose|j: int| 0 <= j < hs.len() && (#[trigger] hs[j]).0 == k;
        assert(p(hs[j]));
    }
}

/// `hist_set` records the owner for `k` and leaves every other key's
/// entry as it was.
pub proof fn lemma_hist_set(hs: Seq<(KeyV, Seq<char>)>, k: KeyV, owner: Seq<char>)
    ensures
        ({
            let hs2 = hist_set(hs, k, owner);
            &&& hist_has(hs2, k)
            &&& hist_get(hs2, k) == owner
            &&& forall|k2: KeyV|
                k2 != k ==> (hist_has(hs2, k2) == hist_has(hs, k2) && hist_idx(hs2, k2) == hist_idx(
                    hs,
                    k2,
                ))
            &&& forall|k2: KeyV|
                k2 != k && hist_has(hs, k2) ==> hist_get(hs2, k2) == hist_get(hs, k2)
        }),
{
    let i = hist_idx(hs, k);
    let pk = hist_pred(k);
    lemma_find_idx(hs, pk);
    let hs2 = hist_set(hs, k, owner);
    if i >= 0 {
        assert(pk(hs[i]));
        assert forall|k2: KeyV| true implies hist_idx(hs2, k2) == hist_idx(hs, k2) by {
            let p = hist_pred(k2);
            assert forall|j: int| 0 <= j < hs.len() implies (p(#[trigger] hs[j]) <==> p(
                #[trigger] hs2[j],
            )) by {
                if j == i {
                    assert(hs[i].0 == k && hs2[i].0 == k);
                } else {
                    assert(hs2[j] == hs[j]);
                }
            }
            lemma_find_idx_same(hs, hs2, p);
        }
        lemma_hist(hs2, k);
        assert(hs2[hist_idx(hs2, k)].1 == owner);
        assert forall|k2: KeyV| k2 != k && hist_has(hs, k2) implies hist_get(hs2, k2) == hist_get(
            hs,
            k2,
        ) by {
            lemma_hist(hs, k2);
            assert(hs[hist_idx(hs, k2)].0 == k2);
            assert(hist_idx(hs, k2) != i);
        }
    } else {
        assert(pk((k, owner)));
        lemma_find_idx_push(hs, pk, (k, owner));
        assert forall|k2: KeyV| k2 != k implies hist_idx(hs2, k2) == hist_idx(hs, k2) by {
            let p = hist_pred(k2);
            assert(!p((k, owner)));
            lemma_find_idx_push(hs, p, (k, owner));
        }
        assert forall|k2: KeyV| k2 != k && hist_has(hs, k2) implies hist_get(hs2, k2) == hist_get(
            hs,
            k2,
        ) by {
            lemma_hist(hs, k2);
        }
    }
}

// ---------------------------------------------------------------------
// Buckets
// ---------------------------------------------------------------------

/// Characterizes `bkt_idx`: the first bucket with the name.
pub proof fn lemma_bkt(bs: Seq<(Seq<char>, Seq<KeyV>)>, name: Seq<char>)
    ensures
        has_bucket(bs, name) ==> {
            let i = bkt_idx(bs, name);
            0 <= i < bs.len() && bs[i].0 == name && (forall|j: int|
                0 <= j < i ==> (#[trigger] bs[j]).0 != name)
        },
        !has_bucket(bs, name) ==> forall|j: int|
            0 <= j < bs.len() ==> (#[trigger] bs[j]).0 != name,
        has_bucket(bs, name) <==> exists|j: int|
            0 <= j < bs.len() && (#[trigger] bs[j]).0 == name,
{
    let p = bkt_pred(name);
    lemma_find_idx(bs, p);
    let i = bkt_idx(bs, name);
    if i >= 0 {
        assert(p(bs[i]));
        assert forall|j: int| 0 <= j < i implies (#[trigger] bs[j]).0 != name by {
            assert(!p(bs[j]));
        }
    } else {
        assert forall|j: int| 0 <= j < bs.len() implies (#[trigger] bs[j]).0 != name by {
            assert(!p(bs[j]));
        }
    }
    if exists|j: int| 0 <= j < bs.len() && (#[trigger] bs[j]).0 == name {
        let j = choose|j: int| 0 <= j < bs.len() && (#[trigger] bs[j]).0 == name;
        assert(p(bs[j]));
    }
}

/// Taking an element out and putting another back at the same position
/// is an update.
pub proof fn lemma_remove_insert<T>(s: Seq<T>, i: int, x: T)
    requires
        0 <= i < s.len(),
    ensures
        s.remove(i).insert(i, x) == s.update(i, x),
{
    s.remove_ensures(i);
    s.remove(i).insert_ensures(i, x);
    let s2 = s.remove(i).insert(i, x);
    assert forall|j: int| 0 <= j < s.len() implies s2[j] == s.update(i, x)[j] by {
        if j < i {
            assert(s2[j] == s.remove(i)[j]);
        } else if j > i {
            assert(s2[j] == s.remove(i)[j - 1]);
        }
    }
    assert(s2 =~= s.update(i, x));
}

/// Membership in a pushed sequence.
pub proof fn lemma_push_contains<T>(s: Seq<T>, x: T, y: T)
    ensures
        s.push(x).contains(y) <==> s.contains(y) || y == x,
{
    if s.contains(y) {
        let i = choose|i: int| 0 <= i < s.len() && s[i] == y;
        assert(s.push(x)[i] == y);
    }
    assert(s.push(x)[s.len() as int] == x);
    if s.push(x).contains(y) && y != x {
        let i = choose|i: int| 0 <= i < s.push(x).len() && s.push(x)[i] == y;
        assert(i < s.len());
        assert(s[i] == y);
    }
}

/// Membership after removing index `j` from a duplicate-free sequence.
pub proof fn lemma_remove_contains(ks: Seq<KeyV>, j: int, y: KeyV)
    requires
        crate::model::distinct_keys(ks),
        0 <= j < ks.len(),
    ensures
        ks.remove(j).contains(y) <==> ks.contains(y) && y != ks[j],
{
    ks.remove_ensures(j);
    let ks2 = ks.remove(j);
    if ks2.contains(y) {
        let i = choose|i: int| 0 <= i < ks2.len() && ks2[i] == y;
        if i < j {
            assert(ks[i] == y);
            assert(ks[i] != ks[j]);
        } else {
            assert(ks[i + 1] == y);
            assert(ks[i + 1] != ks[j]);
        }
    }
    if ks.contains(y) && y != ks[j] {
        let i = choose|i: int| 0 <= i < ks.len() && ks[i] == y;
        if i < j {
            assert(ks2[i] == y);
        } else {
            assert(i > j);
            assert(ks2[i - 1] == y);
        }
    }
}

/// Removing one index keeps a duplicate-free sequence duplicate-free.
pub proof fn lemma_remove_distinct(ks: Seq<KeyV>, j: int)
    requires
        crate::model::distinct_keys(ks),
        0 <= j < ks.len(),
    ensures
        crate::model::distinct_keys(ks.remove(j)),
{
    ks.remove_ensures(j);
    let ks2 = ks.remove(j);
    assert forall|a: int, b: int| 0 <= a < b < ks2.len() implies ks2[a] != ks2[b] by {
        let a0 = if a < j { a } else { a + 1 };
        let b0 = if b < j { b } else { b + 1 };
        assert(ks2[a] == ks[a0]);
        assert(ks2[b] == ks[b0]);
    }
}

/// `bucket_add` puts `k` into the bucket named `name` and touches nothing
/// else: bucket names, every other bucket's contents, and the other keys
/// of `name`'s bucket all stay as they were.
pub proof fn lemma_bucket_add(bs: Seq<(Seq<char>, Seq<KeyV>)>, name: Seq<char>, k: KeyV)
    requires
        buckets_wf(bs),
    ensures
        ({
            let bs2 = bucket_add(bs, name, k);
            &&& buckets_wf(bs2)
            &&& in_bucket(bs2, name, k)
            &&& forall|n2: Seq<char>|
                has_bucket(bs2, n2) <==> has_bucket(bs, n2) || n2 == name
            &&& forall|n2: Seq<char>, k2: KeyV|
                in_bucket(bs2, n2, k2) <==> (in_bucket(bs, n2, k2) || (n2 == name && k2 == k))
            &&& forall|n2: Seq<char>|
                n2 != name && has_bucket(bs, n2) ==> bucket_of(bs2, n2) == bucket_of(bs, n2)
            &&& has_bucket(bs, name) && !bucket_of(bs, name).contains(k) ==> bucket_of(bs2, name)
                == bucket_of(bs, name).push(k)
            &&& has_bucket(bs, name) && bucket_of(bs, name).contains(k) ==> bs2 == bs
            &&& !has_bucket(bs, name) ==> bucket_of(bs2, name) == seq![k]
        }),
{
    let i = bkt_idx(bs, name);
    lemma_bkt(bs, name);
    let bs2 = bucket_add(bs, name, k);
    if i < 0 {
        let nb = (name, seq![k]);
        assert(bkt_pred(name)(nb));
        lemma_find_idx_push(bs, bkt_pred(name), nb);
        lemma_bkt(bs2, name);
        assert(bkt_idx(bs2, name) == bs.len());
        assert(bucket_of(bs2, name) == seq![k]);
        assert(seq![k][0] == k);
        assert(bucket_of(bs2, name).contains(k));
        assert forall|n2: Seq<char>| n2 != name implies bkt_idx(bs2, n2) == bkt_idx(bs, n2) by {
            assert(!bkt_pred(n2)(nb));
            lemma_find_idx_push(bs, bkt_pred(n2), nb);
        }
        assert forall|n2: Seq<char>| n2 != name && has_bucket(bs, n2) implies bucket_of(bs2, n2)
            == bucket_of(bs, n2) by {
            lemma_bkt(bs, n2);
        }
        assert(buckets_wf(bs2)) by {
            assert forall|a: int, b: int| 0 <= a < b < bs2.len() implies (#[trigger] bs2[a]).0
                != (#[trigger] bs2[b]).0 by {
                if b == bs.len() {
                    assert(bs[a].0 != name);
                }
            }
            assert forall|a: int| 0 <= a < bs2.len() implies crate::model::distinct_keys(
                (#[trigger] bs2[a]).1,
            ) by {
                if a < bs.len() {
                    assert(bs2[a].1 == bs[a].1);
                }
            }
        }
        assert forall|n2: Seq<char>, k2: KeyV| true implies (in_bucket(bs2, n2, k2) <==> (in_bucket(
            bs,
            n2,
            k2,
        ) || (n2 == name && k2 == k))) by {
            if n2 == name {
                assert(!has_bucket(bs, name));
                if k2 != k {
                    assert(!seq![k].contains(k2)) by {
                        if seq![k].contains(k2) {
                            let ix = choose|ix: int| 0 <= ix < 1 && seq![k][ix] == k2;
                            assert(seq![k][0] == k);
                        }
                    }
                }
            } else {
                if has_bucket(bs, n2) {
                    lemma_bkt(bs, n2);
                    assert(bucket_of(bs2, n2) == bucket_of(bs, n2));
                }
            }
        }
    } else if bs[i].1.contains(k) {
        assert(bs2 == bs);
        assert(in_bucket(bs, name, k));
    } else {
        let nb = (bs[i].0, bs[i].1.push(k));
        assert(bs2 == bs.update(i, nb));
        assert forall|n2: Seq<char>| true implies bkt_idx(bs2, n2) == bkt_idx(bs, n2) by {
            let p = bkt_pred(n2);
            assert forall|j: int| 0 <= j < bs.len() implies (p(#[trigger] bs[j]) <==> p(
                #[trigger] bs2[j],
            )) by {
                if j == i {
                    assert(bs2[i].0 == bs[i].0);
                } else {
                    assert(bs2[j] == bs[j]);
                }
            }
            lemma_find_idx_same(bs, bs2, p);
        }
        assert(bucket_of(bs2, name) == bs[i].1.push(k));
        lemma_push_contains(bs[i].1, k, k);
        assert forall|n2: Seq<char>| n2 != name && has_bucket(bs, n2) implies bucket_of(bs2, n2)
            == bucket_of(bs, n2) by {
            lemma_bkt(bs, n2);
            assert(bs[bkt_idx(bs, n2)].0 == n2);
            assert(bkt_idx(bs, n2) != i);
        }
        assert(buckets_wf(bs2)) by {
            assert forall|a: int, b: int| 0 <= a < b < bs2.len() implies (#[trigger] bs2[a]).0
                != (#[trigger] bs2[b]).0 by {
                assert(bs2[a].0 == bs[a].0);
                assert(bs2[b].0 == bs[b].0);
            }
            assert forall|a: int| 0 <= a < bs2.len() implies crate::model::distinct_keys(
                (#[trigger] bs2[a]).1,
            ) by {
                if a == i {
                    assert(crate::model::distinct_keys(bs[i].1));
                    assert forall|x: int, y: int|
                        0 <= x < y < bs2[i].1.len() implies bs2[i].1[x] != bs2[i].1[y] by {
                        if y == bs[i].1.len() {
                            assert(bs2[i].1[x] == bs[i].1[x]);
                            assert(bs[i].1.contains(bs[i].1[x]));
                        }
                    }
                } else {
                    assert(bs2[a].1 == bs[a].1);
                }
            }
        }
        assert forall|n2: Seq<char>, k2: KeyV| true implies (in_bucket(bs2, n2, k2) <==> (in_bucket(
            bs,
            n2,
            k2,
        ) || (n2 == name && k2 == k))) by {
            if n2 == name {
                lemma_push_contains(bs[i].1, k, k2);
            } else {
                if has_bucket(bs, n2) {
                    assert(bucket_of(bs2, n2) == bucket_of(bs, n2));
                }
            }
        }
    }
}

/// `bucket_remove` takes `k` out of the bucket named `name` and touches
/// nothing else; the bucket itself stays, even when it becomes empty.
pub proof fn lemma_bucket_remove(bs: Seq<(Seq<char>, Seq<KeyV>)>, name: Seq<char>, k: KeyV)
    requires
        buckets_wf(bs),
    ensures
        ({
            let bs2 = bucket_remove(bs, name, k);
            &&& buckets_wf(bs2)
            &&& forall|n2: Seq<char>| has_bucket(bs2, n2) <==> has_bucket(bs, n2)
            &&& forall|n2: Seq<char>, k2: KeyV|
                in_bucket(bs2, n2, k2) <==> (in_bucket(bs, n2, k2) && !(n2 == name && k2 == k))
            &&& forall|n2: Seq<char>|
                n2 != name && has_bucket(bs, n2) ==> bucket_of(bs2, n2) == bucket_of(bs, n2)
            &&& in_bucket(bs, name, k) ==> bucket_of(bs2, name) == bucket_of(bs, name).remove(
                key_idx(bucket_of(bs, name), k),
            )
            &&& !in_bucket(bs, name, k) ==> bs2 == bs
        }),
{
    let i = bkt_idx(bs, name);
    lemma_bkt(bs, name);
    let bs2 = bucket_remove(bs, name, k);
    if i < 0 {
        assert(bs2 == bs);
        assert(!in_bucket(bs, name, k));
    } else {
        let j = key_idx(bs[i].1, k);
        lemma_key(bs[i].1, k);
        if j < 0 {
            assert(bs2 == bs);
            assert(!bs[i].1.contains(k));
            assert(!in_bucket(bs, name, k));
        } else {
            assert(bs[i].1.contains(k));
            assert(in_bucket(bs, name, k));
            let nb = (bs[i].0, bs[i].1.remove(j));
            assert(bs2 == bs.update(i, nb));
            assert forall|n2: Seq<char>| true implies bkt_idx(bs2, n2) == bkt_idx(bs, n2) by {
                let p = bkt_pred(n2);
                assert forall|jj: int| 0 <= jj < bs.len() implies (p(#[trigger] bs[jj]) <==> p(
                    #[trigger] bs2[jj],
                )) by {
                    if jj == i {
                        assert(bs2[i].0 == bs[i].0);
                    } else {
                        assert(bs2[jj] == bs[jj]);
                    }
                }
                lemma_find_idx_same(bs, bs2, p);
            }
            assert(bucket_of(bs2, name) == bs[i].1.remove(j));
            assert forall|n2: Seq<char>| n2 != name && has_bucket(bs, n2) implies bucket_of(
                bs2,
                n2,
            ) == bucket_of(bs, n2) by {
                lemma_bkt(bs, n2);
                assert(bs[bkt_idx(bs, n2)].0 == n2);
                assert(bkt_idx(bs, n2) != i);
            }
            assert(crate::model::distinct_keys(bs[i].1));
            lemma_remove_distinct(bs[i].1, j);
            assert(buckets_wf(bs2)) by {
                assert forall|a: int, b: int| 0 <= a < b < bs2.len() implies (#[trigger] bs2[a]).0
                    != (#[trigger] bs2[b]).0 by {
                    assert(bs2[a].0 == bs[a].0);
                    assert(bs2[b].0 == bs[b].0);
                }
                assert forall|a: int| 0 <= a < bs2.len() implies crate::model::distinct_keys(
                    (#[trigger] bs2[a]).1,
                ) by {
                    if a != i {
                        assert(bs2[a].1 == bs[a].1);
                    }
                }
            }
            assert forall|n2: Seq<char>, k2: KeyV| true implies (in_bucket(bs2, n2, k2) <==> (
            in_bucket(bs, n2, k2) && !(n2 == name && k2 == k))) by {
                if n2 == name {
                    assert(bs[i].1[j] == k);
                    lemma_remove_contains(bs[i].1, j, k2);
                } else {
                    if has_bucket(bs, n2) {
                        assert(bucket_of(bs2, n2) == bucket_of(bs, n2));
                    }
                }
            }
        }
    }
}

/// Characterizes `key_idx` within one bucket.
pub proof fn lemma_key(ks: Seq<KeyV>, k: KeyV)
    ensures
        key_idx(ks, k) >= 0 ==> {
            let i = key_idx(ks, k);
            0 <= i < ks.len() && ks[i] == k && (forall|j: int| 0 <= j < i ==> ks[j] != k)
        },
        key_idx(ks, k) >= 0 <==> ks.contains(k),
{
    let p = key_pred(k);
    lemma_find_idx(ks, p);
    let i = key_idx(ks, k);
    if i >= 0 {
        assert(p(ks[i]));
        assert forall|j: int| 0 <= j < i implies ks[j] != k by {
            assert(!p(ks[j]));
        }
    }
    if ks.contains(k) {
        let j = choose|j: int| 0 <= j < ks.len() && ks[j] == k;
        assert(p(ks[j]));
    }
}

} // verus!
