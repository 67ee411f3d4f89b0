//! The laws of the oracle, proved of the model's transitions: the
//! consistency invariant is preserved by every operation, ingestion of a
//! repeated fact is a no-op, the previous-owner store tracks exactly the
//! displaced owner, a full page lists the whole store, and composite keys
//! are collision-free.

use vstd::prelude::*;

use crate::records::{KeyV, RecordV};
use crate::model::{OracleV, key_of, prim_idx, prim_has, prim_get, prim_records, prim_keys_distinct, buckets_wf, bucket_add, bucket_remove, bucket_of, in_bucket, has_bucket, bkt_idx, hist_has, hist_get, hist_set, ingest_one, ingest_batch, set_owner_one, resolve_keys, records_of_keys, bucket_page, primary_indexed, contract_buckets_sound, owner_buckets_sound, wf, paginate};
use crate::lemmas::{lemma_prim, lemma_prim_update, lemma_prim_push, lemma_hist_set, lemma_bkt, lemma_bucket_add, lemma_bucket_remove};

verus! {

/// A bucket is found under its own name: under well-formedness, the
/// bucket at position `i` is the one that lookups for its name return.
pub proof fn lemma_bucket_self(bs: Seq<(Seq<char>, Seq<KeyV>)>, i: int)
    requires
        buckets_wf(bs),
        0 <= i < bs.len(),
    ensures
        bkt_idx(bs, bs[i].0) == i,
        has_bucket(bs, bs[i].0),
        bucket_of(bs, bs[i].0) == bs[i].1,
{
    lemma_bkt(bs, bs[i].0);
    assert(has_bucket(bs, bs[i].0));
    let idx = bkt_idx(bs, bs[i].0);
    if idx < i {
        assert(bs[idx].0 != bs[i].0);
    }
}

/// The empty state is well-formed.
pub proof fn lemma_empty_wf()
    ensures
        wf(
            OracleV {
                token_by_id: Seq::empty(),
                previous_owner_of_token: Seq::empty(),
                tokens_by_contract: Seq::empty(),
                tokens_by_owner: Seq::empty(),
            },
        ),
{
}

/// Ingesting one fact preserves the consistency invariant.
pub proof fn lemma_ingest_one_wf(s: OracleV, contract: Seq<char>, r: RecordV)
    requires
        wf(s),
    ensures
        wf(ingest_one(s, contract, r)),
{
    let k = key_of(contract, r.token_id);
    let ps = s.token_by_id;
    let bc = s.tokens_by_contract;
    let bo = s.tokens_by_owner;
    let s2 = ingest_one(s, contract, r);
    lemma_prim(ps, k);
    if prim_has(ps, k) {
        let prev = prim_get(ps, k);
        if prev.owner_id == r.owner_id {
        } else {
            let i = prim_idx(ps, k);
            let ps2 = ps.update(i, (k, r));
            lemma_prim_update(ps, k, r);
            lemma_bucket_add(bc, contract, k);
            let bc2 = bucket_add(bc, contract, k);
            lemma_bucket_remove(bo, prev.owner_id, k);
            let bo1 = bucket_remove(bo, prev.owner_id, k);
            lemma_bucket_add(bo1, r.owner_id, k);
            let bo2 = bucket_add(bo1, r.owner_id, k);
            // only the entry at i changed, and no other entry holds k
            assert forall|j: int| 0 <= j < ps.len() && j != i implies (#[trigger] ps[j]).0
                != k by {
                if j < i {
                    assert(ps[j].0 != k);
                } else {
                    assert(ps[i].0 == k);
                }
            }
            assert(primary_indexed(s2)) by {
                assert forall|j: int| 0 <= j < ps2.len() implies {
                    let kj = (#[trigger] ps2[j]).0;
                    in_bucket(bc2, kj.nft_contract_id, kj) && in_bucket(
                        bo2,
                        ps2[j].1.owner_id,
                        kj,
                    )
                } by {
                    if j == i {
                        assert(ps2[j].0 == k);
                        assert(ps2[j].1 == r);
                        assert(in_bucket(bc2, contract, k));
                        assert(in_bucket(bo2, r.owner_id, k));
                    } else {
                        assert(ps2[j] == ps[j]);
                        let kj = ps[j].0;
                        assert(kj != k);
                        assert(in_bucket(bc, kj.nft_contract_id, kj));
                        assert(in_bucket(bo, ps[j].1.owner_id, kj));
                        assert(in_bucket(bo1, ps[j].1.owner_id, kj));
                    }
                }
            }
            assert(contract_buckets_sound(s2)) by {
                assert forall|a: int, b: int|
                    0 <= a < bc2.len() && 0 <= b < (#[trigger] bc2[a]).1.len() implies {
                    let k2 = #[trigger] bc2[a].1[b];
                    prim_has(ps2, k2) && k2.nft_contract_id == bc2[a].0
                } by {
                    let k2 = bc2[a].1[b];
                    let n2 = bc2[a].0;
                    lemma_bucket_self(bc2, a);
                    assert(bc2[a].1.contains(k2));
                    assert(in_bucket(bc2, n2, k2));
                    if in_bucket(bc, n2, k2) {
                        lemma_bkt(bc, n2);
                        let ai = bkt_idx(bc, n2);
                        let ks = bucket_of(bc, n2);
                        let bi = choose|bi: int| 0 <= bi < ks.len() && ks[bi] == k2;
                        assert(bc[ai].1[bi] == k2);
                        assert(prim_has(ps, k2) && k2.nft_contract_id == n2);
                    } else {
                        assert(n2 == contract && k2 == k);
                    }
                }
            }
            assert(owner_buckets_sound(s2)) by {
                assert forall|a: int, b: int|
                    0 <= a < bo2.len() && 0 <= b < (#[trigger] bo2[a]).1.len() implies {
                    let k2 = #[trigger] bo2[a].1[b];
                    prim_has(ps2, k2) && prim_get(ps2, k2).owner_id == bo2[a].0
                } by {
                    let k2 = bo2[a].1[b];
                    let n2 = bo2[a].0;
                    lemma_bucket_self(bo2, a);
                    assert(bo2[a].1.contains(k2));
                    assert(in_bucket(bo2, n2, k2));
                    if n2 == r.owner_id && k2 == k {
                        assert(prim_get(ps2, k) == r);
                    } else {
                        assert(in_bucket(bo1, n2, k2));
                        assert(in_bucket(bo, n2, k2) && !(n2 == prev.owner_id && k2 == k));
                        lemma_bkt(bo, n2);
                        let ai = bkt_idx(bo, n2);
                        let ks = bucket_of(bo, n2);
                        let bi = choose|bi: int| 0 <= bi < ks.len() && ks[bi] == k2;
                        assert(bo[ai].1[bi] == k2);
                        assert(prim_has(ps, k2) && prim_get(ps, k2).owner_id == n2);
                        if k2 == k {
                            assert(n2 == prev.owner_id);
                        }
                        assert(k2 != k);
                        assert(prim_get(ps2, k2) == prim_get(ps, k2));
                    }
                }
            }
        }
    } else {
        let ps2 = ps.push((k, r));
        lemma_prim_push(ps, k, r);
        lemma_bucket_add(bc, contract, k);
        let bc2 = bucket_add(bc, contract, k);
        lemma_bucket_add(bo, r.owner_id, k);
        let bo2 = bucket_add(bo, r.owner_id, k);
        assert(primary_indexed(s2)) by {
            assert forall|j: int| 0 <= j < ps2.len() implies {
                let kj = (#[trigger] ps2[j]).0;
                in_bucket(bc2, kj.nft_contract_id, kj) && in_bucket(bo2, ps2[j].1.owner_id, kj)
            } by {
                if j == ps.len() {
                    assert(ps2[j].0 == k);
                    assert(ps2[j].1 == r);
                } else {
                    assert(ps2[j] == ps[j]);
                    assert(in_bucket(bc, ps[j].0.nft_contract_id, ps[j].0));
                    assert(in_bucket(bo, ps[j].1.owner_id, ps[j].0));
                }
            }
        }
        assert(contract_buckets_sound(s2)) by {
            assert forall|a: int, b: int|
                0 <= a < bc2.len() && 0 <= b < (#[trigger] bc2[a]).1.len() implies {
                let k2 = #[trigger] bc2[a].1[b];
                prim_has(ps2, k2) && k2.nft_contract_id == bc2[a].0
            } by {
                let k2 = bc2[a].1[b];
                let n2 = bc2[a].0;
                lemma_bucket_self(bc2, a);
                assert(bc2[a].1.contains(k2));
                assert(in_bucket(bc2, n2, k2));
                if in_bucket(bc, n2, k2) {
                    lemma_bkt(bc, n2);
                    let ai = bkt_idx(bc, n2);
                    let ks = bucket_of(bc, n2);
                    let bi = choose|bi: int| 0 <= bi < ks.len() && ks[bi] == k2;
                    assert(bc[ai].1[bi] == k2);
                    assert(prim_has(ps, k2) && k2.nft_contract_id == n2);
                    assert(k2 != k);
                } else {
                    assert(n2 == contract && k2 == k);
                }
            }
        }
        assert(owner_buckets_sound(s2)) by {
            assert forall|a: int, b: int|
                0 <= a < bo2.len() && 0 <= b < (#[trigger] bo2[a]).1.len() implies {
                let k2 = #[trigger] bo2[a].1[b];
                prim_has(ps2, k2) && prim_get(ps2, k2).owner_id == bo2[a].0
            } by {
                let k2 = bo2[a].1[b];
                let n2 = bo2[a].0;
                lemma_bucket_self(bo2, a);
                assert(bo2[a].1.contains(k2));
                assert(in_bucket(bo2, n2, k2));
                if in_bucket(bo, n2, k2) {
                    lemma_bkt(bo, n2);
                    let ai = bkt_idx(bo, n2);
                    let ks = bucket_of(bo, n2);
                    let bi = choose|bi: int| 0 <= bi < ks.len() && ks[bi] == k2;
                    assert(bo[ai].1[bi] == k2);
                    assert(prim_has(ps, k2) && prim_get(ps, k2).owner_id == n2);
                    assert(k2 != k);
                    assert(prim_get(ps2, k2) == prim_get(ps, k2));
                } else {
                    assert(n2 == r.owner_id && k2 == k);
                    assert(prim_get(ps2, k) == r);
                }
            }
        }
    }
}

/// Ingesting a whole batch preserves the consistency invariant.
pub proof fn lemma_ingest_batch_wf(s: OracleV, contract: Seq<char>, rs: Seq<RecordV>)
    requires
        wf(s),
    ensures
        wf(ingest_batch(s, contract, rs)),
    decreases rs.len(),
{
    if rs.len() > 0 {
        lemma_ingest_batch_wf(s, contract, rs.drop_last());
        lemma_ingest_one_wf(ingest_batch(s, contract, rs.drop_last()), contract, rs.last());
    }
}

/// Updating one token's owner preserves the consistency invariant.
pub proof fn lemma_set_owner_one_wf(
    s: OracleV,
    contract: Seq<char>,
    token_id: Seq<char>,
    new_owner: Seq<char>,
)
    requires
        wf(s),
    ensures
        wf(set_owner_one(s, contract, token_id, new_owner)),
{
    let k = key_of(contract, token_id);
    let ps = s.token_by_id;
    let bc = s.tokens_by_contract;
    let bo = s.tokens_by_owner;
    let s2 = set_owner_one(s, contract, token_id, new_owner);
    lemma_prim(ps, k);
    if prim_has(ps, k) {
        let prev = prim_get(ps, k);
        if prev.owner_id == new_owner {
        } else {
            let r = RecordV { owner_id: new_owner, ..prev };
            let i = prim_idx(ps, k);
            let ps2 = ps.update(i, (k, r));
            lemma_prim_update(ps, k, r);
            lemma_bucket_remove(bo, prev.owner_id, k);
            let bo1 = bucket_remove(bo, prev.owner_id, k);
            lemma_bucket_add(bo1, new_owner, k);
            let bo2 = bucket_add(bo1, new_owner, k);
            assert forall|j: int| 0 <= j < ps.len() && j != i implies (#[trigger] ps[j]).0
                != k by {
                if j < i {
                    assert(ps[j].0 != k);
                } else {
                    assert(ps[i].0 == k);
                }
            }
            assert(primary_indexed(s2)) by {
                assert forall|j: int| 0 <= j < ps2.len() implies {
                    let kj = (#[trigger] ps2[j]).0;
                    in_bucket(bc, kj.nft_contract_id, kj) && in_bucket(bo2, ps2[j].1.owner_id, kj)
                } by {
                    if j == i {
                        assert(ps2[j].0 == k);
                        assert(ps2[j].1 == r);
                        assert(in_bucket(bc, k.nft_contract_id, k));
                        assert(in_bucket(bo2, new_owner, k));
                    } else {
                        assert(ps2[j] == ps[j]);
                        let kj = ps[j].0;
                        assert(kj != k);
                        assert(in_bucket(bc, kj.nft_contract_id, kj));
                        assert(in_bucket(bo, ps[j].1.owner_id, kj));
                        assert(in_bucket(bo1, ps[j].1.owner_id, kj));
                    }
                }
            }
            assert(contract_buckets_sound(s2)) by {
                assert forall|a: int, b: int|
                    0 <= a < bc.len() && 0 <= b < (#[trigger] bc[a]).1.len() implies {
                    let k2 = #[trigger] bc[a].1[b];
                    prim_has(ps2, k2) && k2.nft_contract_id == bc[a].0
                } by {
                    assert(prim_has(ps, bc[a].1[b]) && bc[a].1[b].nft_contract_id == bc[a].0);
                }
            }
            assert(owner_buckets_sound(s2)) by {
                assert forall|a: int, b: int|
                    0 <= a < bo2.len() && 0 <= b < (#[trigger] bo2[a]).1.len() implies {
                    let k2 = #[trigger] bo2[a].1[b];
                    prim_has(ps2, k2) && prim_get(ps2, k2).owner_id == bo2[a].0
                } by {
                    let k2 = bo2[a].1[b];
                    let n2 = bo2[a].0;
                    lemma_bucket_self(bo2, a);
                    assert(bo2[a].1.contains(k2));
                    assert(in_bucket(bo2, n2, k2));
                    if n2 == new_owner && k2 == k {
                        assert(prim_get(ps2, k) == r);
                    } else {
                        assert(in_bucket(bo1, n2, k2));
                        assert(in_bucket(bo, n2, k2) && !(n2 == prev.owner_id && k2 == k));
                        lemma_bkt(bo, n2);
                        let ai = bkt_idx(bo, n2);
                        let ks = bucket_of(bo, n2);
                        let bi = choose|bi: int| 0 <= bi < ks.len() && ks[bi] == k2;
                        assert(bo[ai].1[bi] == k2);
                        assert(prim_has(ps, k2) && prim_get(ps, k2).owner_id == n2);
                        if k2 == k {
                            assert(n2 == prev.owner_id);
                        }
                        assert(k2 != k);
                        assert(prim_get(ps2, k2) == prim_get(ps, k2));
                    }
                }
            }
        }
    }
}

/// A primary entry is found under its own key: under distinctness, the
/// entry at position `j` is the one that lookups for its key return.
pub proof fn lemma_prim_self(ps: Seq<(KeyV, RecordV)>, j: int)
    requires
        prim_keys_distinct(ps),
        0 <= j < ps.len(),
    ensures
        prim_idx(ps, ps[j].0) == j,
        prim_has(ps, ps[j].0),
        prim_get(ps, ps[j].0) == ps[j].1,
{
    lemma_prim(ps, ps[j].0);
    assert(prim_has(ps, ps[j].0));
    let idx = prim_idx(ps, ps[j].0);
    if idx < j {
        assert(ps[idx].0 != ps[j].0);
    }
}

/// Composite keys are collision-free: two (contract, token) pairs give
/// equal keys exactly when both components agree.
pub proof fn lemma_key_of_collision_free(
    c1: Seq<char>,
    t1: Seq<char>,
    c2: Seq<char>,
    t2: Seq<char>,
)
    ensures
        key_of(c1, t1) == key_of(c2, t2) <==> (c1 == c2 && t1 == t2),
{
    if c1 == c2 && t1 == t2 {
        assert(key_of(c1, t1) =~= key_of(c2, t2));
    }
}

/// Ingesting the same fact twice leaves the state of the first ingestion
/// unchanged: the second time, the fact repeats the current owner and is
/// dropped whole.
pub proof fn lemma_ingest_idempotent(s: OracleV, contract: Seq<char>, r: RecordV)
    requires
        wf(s),
    ensures
        ingest_one(ingest_one(s, contract, r), contract, r) == ingest_one(s, contract, r),
{
    let k = key_of(contract, r.token_id);
    let ps = s.token_by_id;
    let s1 = ingest_one(s, contract, r);
    if prim_has(ps, k) {
        let prev = prim_get(ps, k);
        if prev.owner_id == r.owner_id {
        } else {
            lemma_prim_update(ps, k, r);
            assert(prim_get(s1.token_by_id, k) == r);
        }
    } else {
        lemma_prim_push(ps, k, r);
        assert(prim_get(s1.token_by_id, k) == r);
    }
}

/// The call-level form of idempotence: a batch of the one fact, ingested
/// twice in separate calls, equals that batch ingested once.
pub proof fn lemma_ingest_call_idempotent(s: OracleV, contract: Seq<char>, r: RecordV)
    requires
        wf(s),
    ensures
        ingest_batch(ingest_batch(s, contract, seq![r]), contract, seq![r]) == ingest_batch(
            s,
            contract,
            seq![r],
        ),
{
    reveal_with_fuel(ingest_batch, 2);
    assert(seq![r].len() == 1);
    assert(seq![r].last() == r);
    assert(seq![r].drop_last().len() == 0);
    assert(ingest_batch(s, contract, seq![r].drop_last()) == s);
    assert(ingest_batch(s, contract, seq![r]) == ingest_one(s, contract, r));
    let s1 = ingest_one(s, contract, r);
    assert(ingest_batch(s1, contract, seq![r]) == ingest_one(s1, contract, r));
    lemma_ingest_idempotent(s, contract, r);
}

/// Index consistency, unpacked from the invariant: every key of the
/// primary store sits in its contract's bucket and in its current owner's
/// bucket, and in no other owner's.
pub proof fn lemma_index_consistency(s: OracleV)
    requires
        wf(s),
    ensures
        forall|j: int|
            0 <= j < s.token_by_id.len() ==> {
                let k = (#[trigger] s.token_by_id[j]).0;
                in_bucket(s.tokens_by_contract, k.nft_contract_id, k) && in_bucket(
                    s.tokens_by_owner,
                    s.token_by_id[j].1.owner_id,
                    k,
                )
            },
        forall|j: int, o: Seq<char>|
            0 <= j < s.token_by_id.len() && #[trigger] in_bucket(
                s.tokens_by_owner,
                o,
                s.token_by_id[j].0,
            ) ==> o == s.token_by_id[j].1.owner_id,
        forall|j: int, c: Seq<char>|
            0 <= j < s.token_by_id.len() && #[trigger] in_bucket(
                s.tokens_by_contract,
                c,
                s.token_by_id[j].0,
            ) ==> c == s.token_by_id[j].0.nft_contract_id,
{
    let bc = s.tokens_by_contract;
    assert forall|j: int, c: Seq<char>|
        0 <= j < s.token_by_id.len() && #[trigger] in_bucket(
            bc,
            c,
            s.token_by_id[j].0,
        ) implies c == s.token_by_id[j].0.nft_contract_id by {
        let k = s.token_by_id[j].0;
        lemma_bkt(bc, c);
        let a = bkt_idx(bc, c);
        let ks = bucket_of(bc, c);
        let b = choose|b: int| 0 <= b < ks.len() && ks[b] == k;
        assert(bc[a].1[b] == k);
    }
    let bo = s.tokens_by_owner;
    assert forall|j: int, o: Seq<char>|
        0 <= j < s.token_by_id.len() && #[trigger] in_bucket(
            bo,
            o,
            s.token_by_id[j].0,
        ) implies o == s.token_by_id[j].1.owner_id by {
        let k = s.token_by_id[j].0;
        lemma_bkt(bo, o);
        let a = bkt_idx(bo, o);
        let ks = bucket_of(bo, o);
        let b = choose|b: int| 0 <= b < ks.len() && ks[b] == k;
        assert(bo[a].1[b] == k);
        assert(prim_get(s.token_by_id, k).owner_id == o);
        lemma_prim_self(s.token_by_id, j);
    }
}

/// After a change of owner, the previous-owner store holds exactly the
/// displaced owner for that key, the record carries the new owner, and no
/// other key's previous-owner entry moves.
pub proof fn lemma_previous_owner_tracks(s: OracleV, contract: Seq<char>, r: RecordV)
    requires
        wf(s),
        prim_has(s.token_by_id, key_of(contract, r.token_id)),
        prim_get(s.token_by_id, key_of(contract, r.token_id)).owner_id != r.owner_id,
    ensures
        ({
            let k = key_of(contract, r.token_id);
            let s2 = ingest_one(s, contract, r);
            &&& prim_has(s2.token_by_id, k)
            &&& hist_has(s2.previous_owner_of_token, k)
            &&& hist_get(s2.previous_owner_of_token, k) == prim_get(s.token_by_id, k).owner_id
            &&& prim_get(s2.token_by_id, k) == r
            &&& forall|k2: KeyV|
                k2 != k ==> (hist_has(s2.previous_owner_of_token, k2) == hist_has(
                    s.previous_owner_of_token,
                    k2,
                ) && (hist_has(s.previous_owner_of_token, k2) ==> hist_get(
                    s2.previous_owner_of_token,
                    k2,
                ) == hist_get(s.previous_owner_of_token, k2)))
        }),
{
    let k = key_of(contract, r.token_id);
    let prev = prim_get(s.token_by_id, k);
    lemma_prim_update(s.token_by_id, k, r);
    lemma_hist_set(s.previous_owner_of_token, k, prev.owner_id);
}

/// Two successive changes of owner: the previous-owner entry follows one
/// step behind, never further.
pub proof fn lemma_history_two_changes(s: OracleV, contract: Seq<char>, r1: RecordV, r2: RecordV)
    requires
        wf(s),
        r1.token_id == r2.token_id,
        prim_has(s.token_by_id, key_of(contract, r1.token_id)),
        prim_get(s.token_by_id, key_of(contract, r1.token_id)).owner_id != r1.owner_id,
        r1.owner_id != r2.owner_id,
    ensures
        ({
            let k = key_of(contract, r1.token_id);
            let s1 = ingest_one(s, contract, r1);
            let s2 = ingest_one(s1, contract, r2);
            &&& hist_get(s1.previous_owner_of_token, k) == prim_get(s.token_by_id, k).owner_id
            &&& hist_get(s2.previous_owner_of_token, k) == r1.owner_id
        }),
{
    let k = key_of(contract, r1.token_id);
    let s1 = ingest_one(s, contract, r1);
    lemma_previous_owner_tracks(s, contract, r1);
    lemma_ingest_one_wf(s, contract, r1);
    assert(key_of(contract, r2.token_id) == k);
    lemma_previous_owner_tracks(s1, contract, r2);
}

/// When every key of a sequence has a record, resolution skips nothing:
/// it returns exactly the records of those keys, in order.
pub proof fn lemma_resolve_all_present(ps: Seq<(KeyV, RecordV)>, ks: Seq<KeyV>)
    requires
        forall|j: int| 0 <= j < ks.len() ==> prim_has(ps, #[trigger] ks[j]),
    ensures
        resolve_keys(ps, ks) == records_of_keys(ps, ks),
        resolve_keys(ps, ks).len() == ks.len(),
    decreases ks.len(),
{
    if ks.len() == 0 {
        assert(resolve_keys(ps, ks) =~= records_of_keys(ps, ks));
    } else {
        assert forall|j: int| 0 <= j < ks.drop_last().len() implies prim_has(
            ps,
            #[trigger] ks.drop_last()[j],
        ) by {
            assert(ks.drop_last()[j] == ks[j]);
        }
        lemma_resolve_all_present(ps, ks.drop_last());
        assert(ks.last() == ks[ks.len() - 1]);
        assert forall|j: int| 0 <= j < ks.len() implies resolve_keys(ps, ks)[j] == records_of_keys(
            ps,
            ks,
        )[j] by {
            if j < ks.len() - 1 {
                assert(resolve_keys(ps, ks)[j] == records_of_keys(ps, ks.drop_last())[j]);
                assert(ks.drop_last()[j] == ks[j]);
            }
        }
        assert(resolve_keys(ps, ks) =~= records_of_keys(ps, ks));
    }
}

/// A full page over one bucket returns a record for every key of that
/// bucket, in the bucket's order, provided each key has a record.
pub proof fn lemma_bucket_page_complete(
    ps: Seq<(KeyV, RecordV)>,
    bs: Seq<(Seq<char>, Seq<KeyV>)>,
    name: Seq<char>,
    n: u64,
)
    requires
        has_bucket(bs, name),
        bucket_of(bs, name).len() <= n,
        forall|j: int|
            0 <= j < bucket_of(bs, name).len() ==> prim_has(ps, #[trigger] bucket_of(bs, name)[j]),
    ensures
        bucket_page(ps, bs, name, Some(0u128), Some(n)) == records_of_keys(
            ps,
            bucket_of(bs, name),
        ),
        bucket_page(ps, bs, name, Some(0u128), Some(n)).len() == bucket_of(bs, name).len(),
{
    let ks = bucket_of(bs, name);
    assert(paginate(ks, Some(0u128), Some(n)) =~= ks);
    lemma_resolve_all_present(ps, ks);
}

/// Under the invariant, a full listing by issuing contract loses no key:
/// every key of the contract's bucket resolves to a record.
pub proof fn lemma_issuer_listing_complete(s: OracleV, name: Seq<char>, n: u64)
    requires
        wf(s),
        has_bucket(s.tokens_by_contract, name),
        bucket_of(s.tokens_by_contract, name).len() <= n,
    ensures
        bucket_page(s.token_by_id, s.tokens_by_contract, name, Some(0u128), Some(n))
            == records_of_keys(s.token_by_id, bucket_of(s.tokens_by_contract, name)),
        bucket_page(s.token_by_id, s.tokens_by_contract, name, Some(0u128), Some(n)).len()
            == bucket_of(s.tokens_by_contract, name).len(),
{
    let bs = s.tokens_by_contract;
    let ks = bucket_of(bs, name);
    lemma_bkt(bs, name);
    let a = bkt_idx(bs, name);
    assert forall|j: int| 0 <= j < ks.len() implies prim_has(s.token_by_id, #[trigger] ks[j]) by {
        assert(bs[a].1[j] == ks[j]);
    }
    lemma_bucket_page_complete(s.token_by_id, bs, name, n);
}

/// Under the invariant, a full listing by owner loses no key: every key
/// of the owner's bucket resolves to a record.
pub proof fn lemma_owner_listing_complete(s: OracleV, name: Seq<char>, n: u64)
    requires
        wf(s),
        has_bucket(s.tokens_by_owner, name),
        bucket_of(s.tokens_by_owner, name).len() <= n,
    ensures
        bucket_page(s.token_by_id, s.tokens_by_owner, name, Some(0u128), Some(n))
            == records_of_keys(s.token_by_id, bucket_of(s.tokens_by_owner, name)),
        bucket_page(s.token_by_id, s.tokens_by_owner, name, Some(0u128), Some(n)).len()
            == bucket_of(s.tokens_by_owner, name).len(),
{
    let bs = s.tokens_by_owner;
    let ks = bucket_of(bs, name);
    lemma_bkt(bs, name);
    let a = bkt_idx(bs, name);
    assert forall|j: int| 0 <= j < ks.len() implies prim_has(s.token_by_id, #[trigger] ks[j]) by {
        assert(bs[a].1[j] == ks[j]);
    }
    lemma_bucket_page_complete(s.token_by_id, bs, name, n);
}

/// Pagination completeness: a page that starts at the beginning and whose
/// limit covers the whole store returns every record, in insertion order;
/// under the invariant, no key appears twice among them.
pub proof fn lemma_pagination_complete(s: OracleV, n: u64)
    requires
        wf(s),
        s.token_by_id.len() <= n,
    ensures
        paginate(prim_records(s.token_by_id), Some(0u128), Some(n)) == prim_records(s.token_by_id),
        prim_keys_distinct(s.token_by_id),
{
    let q = prim_records(s.token_by_id);
    if q.len() == 0 {
        assert(paginate(q, Some(0u128), Some(n)) =~= q);
    } else {
        assert(paginate(q, Some(0u128), Some(n)) =~= q);
    }
}

} // verus!
