//! Mathematical model of the oracle's state and of its transitions.
//!
//! The state is four sequences: the primary record store (insertion
//! order), the previous-owner store, and the two secondary indexes, each a
//! sequence of named buckets of composite keys.  The ingestion and
//! owner-update transitions are spec functions over this model; the
//! executable engine's contracts state that it steps exactly by them.

use vstd::prelude::*;

use crate::records::{KeyV, RecordV};

verus! {

/// First index of an element satisfying `p`, or `-1` if there is none.
pub open spec fn find_idx<T>(s: Seq<T>, p: spec_fn(T) -> bool) -> int
    decreases s.len(),
{
    if s.len() == 0 {
        -1
    } else if p(s[0]) {
        0
    } else {
        let r = find_idx(s.drop_first(), p);
        if r < 0 {
            -1
        } else {
            r + 1
        }
    }
}

/// The state of the oracle: primary store, previous-owner store, and the
/// two secondary indexes.
#[verifier::ext_equal]
pub ghost struct OracleV {
    /// Record per composite key, in insertion order.
    pub token_by_id: Seq<(KeyV, RecordV)>,
    /// Most recent previous owner per composite key.
    pub previous_owner_of_token: Seq<(KeyV, Seq<char>)>,
    /// Buckets of composite keys, one per issuing contract.
    pub tokens_by_contract: Seq<(Seq<char>, Seq<KeyV>)>,
    /// Buckets of composite keys, one per current owner.
    pub tokens_by_owner: Seq<(Seq<char>, Seq<KeyV>)>,
}

/// The composite key of token `token_id` issued by `contract`.
pub open spec fn key_of(nft_contract_id: Seq<char>, token_id: Seq<char>) -> KeyV {
    KeyV { token_id: token_id, nft_contract_id: nft_contract_id }
}

// ---------------------------------------------------------------------
// Primary store
// ---------------------------------------------------------------------

/// Predicate for an entry of the primary store holding key `k`.
pub open spec fn prim_pred(k: KeyV) -> spec_fn((KeyV, RecordV)) -> bool {
    |e: (KeyV, RecordV)| e.0 == k
}

pub open spec fn prim_idx(ps: Seq<(KeyV, RecordV)>, k: KeyV) -> int {
    find_idx(ps, prim_pred(k))
}

pub open spec fn prim_has(ps: Seq<(KeyV, RecordV)>, k: KeyV) -> bool {
    prim_idx(ps, k) >= 0
}

pub open spec fn prim_get(ps: Seq<(KeyV, RecordV)>, k: KeyV) -> RecordV {
    ps[prim_idx(ps, k)].1
}

/// The records of the primary store, in insertion order.
pub open spec fn prim_records(ps: Seq<(KeyV, RecordV)>) -> Seq<RecordV> {
    ps.map_values(|e: (KeyV, RecordV)| e.1)
}

// ---------------------------------------------------------------------
// Previous-owner store
// ---------------------------------------------------------------------

/// Predicate for an entry of the previous-owner store holding key `k`.
pub open spec fn hist_pred(k: KeyV) -> spec_fn((KeyV, Seq<char>)) -> bool {
    |e: (KeyV, Seq<char>)| e.0 == k
}

pub open spec fn hist_idx(hs: Seq<(KeyV, Seq<char>)>, k: KeyV) -> int {
    find_idx(hs, hist_pred(k))
}

pub open spec fn hist_has(hs: Seq<(KeyV, Seq<char>)>, k: KeyV) -> bool {
    hist_idx(hs, k) >= 0
}

pub open spec fn hist_get(hs: Seq<(KeyV, Seq<char>)>, k: KeyV) -> Seq<char> {
    hs[hist_idx(hs, k)].1
}

/// Sets the previous owner recorded for `k` to `owner`, overwriting any
/// earlier entry: only the immediately preceding owner is retained.
pub open spec fn hist_set(hs: Seq<(KeyV, Seq<char>)>, k: KeyV, owner: Seq<char>) -> Seq<
    (KeyV, Seq<char>),
> {
    let i = hist_idx(hs, k);
    if i >= 0 {
        hs.update(i, (k, owner))
    } else {
        hs.push((k, owner))
    }
}

// ---------------------------------------------------------------------
// Secondary indexes: named buckets of keys
// ---------------------------------------------------------------------

/// Predicate for a bucket named `name`.
pub open spec fn bkt_pred(name: Seq<char>) -> spec_fn((Seq<char>, Seq<KeyV>)) -> bool {
    |b: (Seq<char>, Seq<KeyV>)| b.0 == name
}

pub open spec fn bkt_idx(bs: Seq<(Seq<char>, Seq<KeyV>)>, name: Seq<char>) -> int {
    find_idx(bs, bkt_pred(name))
}

pub open spec fn has_bucket(bs: Seq<(Seq<char>, Seq<KeyV>)>, name: Seq<char>) -> bool {
    bkt_idx(bs, name) >= 0
}

pub open spec fn bucket_of(bs: Seq<(Seq<char>, Seq<KeyV>)>, name: Seq<char>) -> Seq<KeyV> {
    bs[bkt_idx(bs, name)].1
}

pub open spec fn in_bucket(bs: Seq<(Seq<char>, Seq<KeyV>)>, name: Seq<char>, k: KeyV) -> bool {
    has_bucket(bs, name) && bucket_of(bs, name).contains(k)
}

/// Predicate for an occurrence of key `k` in a bucket.
pub open spec fn key_pred(k: KeyV) -> spec_fn(KeyV) -> bool {
    |x: KeyV| x == k
}

pub open spec fn key_idx(ks: Seq<KeyV>, k: KeyV) -> int {
    find_idx(ks, key_pred(k))
}

/// Adds `k` to the bucket named `name`, creating the bucket if needed;
/// a no-op when the bucket already holds `k`.  The bucket keeps its
/// position, and a new bucket goes to the end.
pub open spec fn bucket_add(bs: Seq<(Seq<char>, Seq<KeyV>)>, name: Seq<char>, k: KeyV) -> Seq<
    (Seq<char>, Seq<KeyV>),
> {
    let i = bkt_idx(bs, name);
    if i < 0 {
        bs.push((name, seq![k]))
    } else if bs[i].1.contains(k) {
        bs
    } else {
        bs.update(i, (bs[i].0, bs[i].1.push(k)))
    }
}

/// Removes `k` from the bucket named `name`, if that bucket exists and
/// holds it.  The bucket itself stays, even when it becomes empty.
pub open spec fn bucket_remove(bs: Seq<(Seq<char>, Seq<KeyV>)>, name: Seq<char>, k: KeyV) -> Seq<
    (Seq<char>, Seq<KeyV>),
> {
    let i = bkt_idx(bs, name);
    if i < 0 {
        bs
    } else {
        let j = key_idx(bs[i].1, k);
        if j < 0 {
            bs
        } else {
            bs.update(i, (bs[i].0, bs[i].1.remove(j)))
        }
    }
}

// ---------------------------------------------------------------------
// Transitions
// ---------------------------------------------------------------------

/// Applies one ownership fact for a token of `contract`.
///
/// A fact for an unknown key inserts the record and indexes it under its
/// contract and its owner.  A fact repeating the current owner is dropped
/// whole (its metadata and approvals too).  A fact with a different owner
/// records the displaced owner as the previous one, moves the key from
/// the old owner's bucket to the new owner's, and replaces the record in
/// place.
pub open spec fn ingest_one(s: OracleV, contract: Seq<char>, r: RecordV) -> OracleV {
    let k = key_of(contract, r.token_id);
    if prim_has(s.token_by_id, k) {
        let prev = prim_get(s.token_by_id, k);
        if prev.owner_id == r.owner_id {
            s
        } else {
            OracleV {
                token_by_id: s.token_by_id.update(prim_idx(s.token_by_id, k), (k, r)),
                previous_owner_of_token: hist_set(s.previous_owner_of_token, k, prev.owner_id),
                tokens_by_contract: bucket_add(s.tokens_by_contract, contract, k),
                tokens_by_owner: bucket_add(
                    bucket_remove(s.tokens_by_owner, prev.owner_id, k),
                    r.owner_id,
                    k,
                ),
            }
        }
    } else {
        OracleV {
            token_by_id: s.token_by_id.push((k, r)),
            previous_owner_of_token: s.previous_owner_of_token,
            tokens_by_contract: bucket_add(s.tokens_by_contract, contract, k),
            tokens_by_owner: bucket_add(s.tokens_by_owner, r.owner_id, k),
        }
    }
}

/// Applies a batch of ownership facts for one contract, independently and
/// in input order.
pub open spec fn ingest_batch(s: OracleV, contract: Seq<char>, rs: Seq<RecordV>) -> OracleV
    decreases rs.len(),
{
    if rs.len() == 0 {
        s
    } else {
        ingest_one(ingest_batch(s, contract, rs.drop_last()), contract, rs.last())
    }
}

/// Moves one known token to a new owner, keeping its metadata and
/// approvals; a no-op for an unknown key or an unchanged owner.  The
/// contract index is untouched: the key is already in its contract's
/// bucket.
pub open spec fn set_owner_one(
    s: OracleV,
    contract: Seq<char>,
    token_id: Seq<char>,
    new_owner: Seq<char>,
) -> OracleV {
    let k = key_of(contract, token_id);
    if !prim_has(s.token_by_id, k) {
        s
    } else {
        let prev = prim_get(s.token_by_id, k);
        if prev.owner_id == new_owner {
            s
        } else {
            OracleV {
                token_by_id: s.token_by_id.update(
                    prim_idx(s.token_by_id, k),
                    (k, RecordV { owner_id: new_owner, ..prev }),
                ),
                previous_owner_of_token: hist_set(s.previous_owner_of_token, k, prev.owner_id),
                tokens_by_contract: s.tokens_by_contract,
                tokens_by_owner: bucket_add(
                    bucket_remove(s.tokens_by_owner, prev.owner_id, k),
                    new_owner,
                    k,
                ),
            }
        }
    }
}

// ---------------------------------------------------------------------
// Queries
// ---------------------------------------------------------------------

/// Start of a page: the given index, defaulting to the beginning.
pub open spec fn page_start(from_index: Option<u128>) -> int {
    match from_index {
        Some(v) => v as int,
        None => 0,
    }
}

/// Size of a page: the given limit, defaulting to no bound (no sequence
/// held by the engine can be longer than `usize::MAX`).
pub open spec fn page_limit(limit: Option<u64>) -> int {
    match limit {
        Some(v) => v as int,
        None => usize::MAX as int,
    }
}

/// The page of `s` that skips `page_start` elements and then takes up to
/// `page_limit` of them.
pub open spec fn paginate<T>(s: Seq<T>, from_index: Option<u128>, limit: Option<u64>) -> Seq<T> {
    let start = page_start(from_index);
    let lim = page_limit(limit);
    if start >= s.len() {
        Seq::empty()
    } else {
        s.subrange(start, if start + lim <= s.len() { start + lim } else { s.len() as int })
    }
}

/// Resolves a sequence of keys through the primary store, in order,
/// silently skipping any key without a record.
pub open spec fn resolve_keys(ps: Seq<(KeyV, RecordV)>, ks: Seq<KeyV>) -> Seq<RecordV>
    decreases ks.len(),
{
    if ks.len() == 0 {
        Seq::empty()
    } else {
        let rest = resolve_keys(ps, ks.drop_last());
        if prim_has(ps, ks.last()) {
            rest.push(prim_get(ps, ks.last()))
        } else {
            rest
        }
    }
}

/// What a listing over a named bucket returns: the page of the bucket's
/// key sequence, each key resolved through the primary store; an absent
/// bucket yields the empty sequence, not an error.
pub open spec fn bucket_page(
    ps: Seq<(KeyV, RecordV)>,
    bs: Seq<(Seq<char>, Seq<KeyV>)>,
    name: Seq<char>,
    from_index: Option<u128>,
    limit: Option<u64>,
) -> Seq<RecordV> {
    if has_bucket(bs, name) {
        resolve_keys(ps, paginate(bucket_of(bs, name), from_index, limit))
    } else {
        Seq::empty()
    }
}

/// A sequence of keys, each resolved through the primary store.
pub open spec fn records_of_keys(ps: Seq<(KeyV, RecordV)>, ks: Seq<KeyV>) -> Seq<RecordV> {
    ks.map_values(|k: KeyV| prim_get(ps, k))
}

// ---------------------------------------------------------------------
// Well-formedness
// ---------------------------------------------------------------------

pub open spec fn distinct_keys(ks: Seq<KeyV>) -> bool {
    forall|i: int, j: int| 0 <= i < j < ks.len() ==> ks[i] != ks[j]
}

/// No composite key appears twice in the primary store.
pub open spec fn prim_keys_distinct(ps: Seq<(KeyV, RecordV)>) -> bool {
    forall|i: int, j: int| 0 <= i < j < ps.len() ==> (#[trigger] ps[i]).0 != (#[trigger] ps[j]).0
}

/// No two buckets share a name, and no bucket holds a key twice.
pub open spec fn buckets_wf(bs: Seq<(Seq<char>, Seq<KeyV>)>) -> bool {
    (forall|i: int, j: int|
        0 <= i < j < bs.len() ==> (#[trigger] bs[i]).0 != (#[trigger] bs[j]).0) && (forall|i: int|
        0 <= i < bs.len() ==> distinct_keys((#[trigger] bs[i]).1))
}

/// Every key of the primary store is indexed under its contract and under
/// its record's current owner.
pub open spec fn primary_indexed(s: OracleV) -> bool {
    forall|i: int|
        0 <= i < s.token_by_id.len() ==> {
            let k = (#[trigger] s.token_by_id[i]).0;
            in_bucket(s.tokens_by_contract, k.nft_contract_id, k) && in_bucket(
                s.tokens_by_owner,
                s.token_by_id[i].1.owner_id,
                k,
            )
        }
}

/// Every key in a contract bucket has a record and names that contract.
pub open spec fn contract_buckets_sound(s: OracleV) -> bool {
    forall|i: int, j: int|
        0 <= i < s.tokens_by_contract.len() && 0 <= j < (#[trigger] s.tokens_by_contract[i]).1.len()
            ==> {
            let k = #[trigger] s.tokens_by_contract[i].1[j];
            prim_has(s.token_by_id, k) && k.nft_contract_id == s.tokens_by_contract[i].0
        }
}

/// Every key in an owner bucket has a record whose current owner is that
/// bucket's owner; so a key sits in no bucket but its owner's.
pub open spec fn owner_buckets_sound(s: OracleV) -> bool {
    forall|i: int, j: int|
        0 <= i < s.tokens_by_owner.len() && 0 <= j < (#[trigger] s.tokens_by_owner[i]).1.len()
            ==> {
            let k = #[trigger] s.tokens_by_owner[i].1[j];
            prim_has(s.token_by_id, k) && prim_get(s.token_by_id, k).owner_id
                == s.tokens_by_owner[i].0
        }
}

/// Mutual consistency of the four structures; established by the empty
/// state and preserved by every transition.
pub open spec fn wf(s: OracleV) -> bool {
    &&& prim_keys_distinct(s.token_by_id)
    &&& buckets_wf(s.tokens_by_contract)
    &&& buckets_wf(s.tokens_by_owner)
    &&& primary_indexed(s)
    &&& contract_buckets_sound(s)
    &&& owner_buckets_sound(s)
}

} // verus!
