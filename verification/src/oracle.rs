//! The oracle engine: the four stores, and the ingestion side that
//! mutates them.  Every mutating operation steps exactly by the model's
//! transition functions and preserves the consistency invariant.

use vstd::prelude::*;

use crate::records::{KeyV, RecordV, TokenKey, TokenInput, key_eq};
use crate::model::{OracleV, key_of, prim_idx, prim_has, prim_get, hist_idx, hist_has, hist_set, bkt_idx, has_bucket, bucket_of, key_idx, bucket_add, bucket_remove, ingest_one, ingest_batch, set_owner_one, wf};
use crate::lemmas::{lemma_prim, lemma_hist, lemma_bkt, lemma_key, lemma_remove_insert};
use crate::laws::{lemma_empty_wf, lemma_ingest_batch_wf, lemma_set_owner_one_wf};

verus! {

/// View of a bucket's key list.
pub open spec fn keys_view(ks: Seq<TokenKey>) -> Seq<KeyV> {
    ks.map_values(|k: TokenKey| k@)
}

/// View of a secondary index.
pub open spec fn buckets_view(bs: Seq<(String, Vec<TokenKey>)>) -> Seq<(Seq<char>, Seq<KeyV>)> {
    bs.map_values(|b: (String, Vec<TokenKey>)| (b.0@, keys_view(b.1@)))
}

/// View of the primary store.
pub open spec fn primary_view(ps: Seq<(TokenKey, TokenInput)>) -> Seq<(KeyV, RecordV)> {
    ps.map_values(|e: (TokenKey, TokenInput)| (e.0@, e.1@))
}

/// View of the previous-owner store.
pub open spec fn hist_view(hs: Seq<(TokenKey, String)>) -> Seq<(KeyV, Seq<char>)> {
    hs.map_values(|e: (TokenKey, String)| (e.0@, e.1@))
}

/// View of a batch of ownership facts.
pub open spec fn records_view(ts: Seq<TokenInput>) -> Seq<RecordV> {
    ts.map_values(|t: TokenInput| t@)
}

/// The ownership-indexing oracle: a primary record store in insertion
/// order, the previous-owner store, and two derived secondary indexes
/// that every mutation keeps consistent with the primary store.
pub struct Oracle {
    pub token_by_id_map: Vec<(TokenKey, TokenInput)>,
    pub previous_owner_of_token_map: Vec<(TokenKey, String)>,
    pub tokens_by_contract_map: Vec<(String, Vec<TokenKey>)>,
    pub tokens_by_owner_map: Vec<(String, Vec<TokenKey>)>,
}

impl View for Oracle {
    type V = OracleV;

    open spec fn view(&self) -> OracleV {
        OracleV {
            token_by_id: primary_view(self.token_by_id_map@),
            previous_owner_of_token: hist_view(self.previous_owner_of_token_map@),
            tokens_by_contract: buckets_view(self.tokens_by_contract_map@),
            tokens_by_owner: buckets_view(self.tokens_by_owner_map@),
        }
    }
}

/// First position of `key` in the primary store, if any.
pub(crate) fn find_primary(ps: &Vec<(TokenKey, TokenInput)>, key: &TokenKey) -> (r: Option<usize>)
    ensures
        match r {
            Some(i) => i < ps@.len() && i as int == prim_idx(primary_view(ps@), key@),
            None => !prim_has(primary_view(ps@), key@),
        },
{
    let ghost pv = primary_view(ps@);
    let mut i: usize = 0;
    while i < ps.len()
        invariant
            i <= ps@.len(),
            pv == primary_view(ps@),
            forall|j: int| 0 <= j < i ==> (#[trigger] pv[j]).0 != key@,
        decreases ps@.len() - i,
    {
        let e = &ps[i];
        if key_eq(&e.0, key) {
            proof {
                assert(pv[i as int].0 == key@);
                lemma_prim(pv, key@);
                let idx = prim_idx(pv, key@);
                if idx < i {
                    assert(pv[idx].0 == key@);
                }
            }
            return Some(i);
        }
        proof {
            assert(pv[i as int].0 == ps@[i as int].0@);
        }
        i += 1;
    }
    proof {
        lemma_prim(pv, key@);
        if prim_has(pv, key@) {
            assert(pv[prim_idx(pv, key@)].0 == key@);
        }
    }
    None
}

/// First position of `key` in the previous-owner store, if any.
pub(crate) fn find_hist(hs: &Vec<(TokenKey, String)>, key: &TokenKey) -> (r: Option<usize>)
    ensures
        match r {
            Some(i) => i < hs@.len() && i as int == hist_idx(hist_view(hs@), key@),
            None => !hist_has(hist_view(hs@), key@),
        },
{
    let ghost hv = hist_view(hs@);
    let mut i: usize = 0;
    while i < hs.len()
        invariant
            i <= hs@.len(),
            hv == hist_view(hs@),
            forall|j: int| 0 <= j < i ==> (#[trigger] hv[j]).0 != key@,
        decreases hs@.len() - i,
    {
        let e = &hs[i];
        if key_eq(&e.0, key) {
            proof {
                assert(hv[i as int].0 == key@);
                lemma_hist(hv, key@);
                let idx = hist_idx(hv, key@);
                if idx < i {
                    assert(hv[idx].0 == key@);
                }
            }
            return Some(i);
        }
        proof {
            assert(hv[i as int].0 == hs@[i as int].0@);
        }
        i += 1;
    }
    proof {
        lemma_hist(hv, key@);
        if hist_has(hv, key@) {
            assert(hv[hist_idx(hv, key@)].0 == key@);
        }
    }
    None
}

/// First position of the bucket named `name`, if any.
pub(crate) fn find_bucket(bs: &Vec<(String, Vec<TokenKey>)>, name: &String) -> (r: Option<usize>)
    ensures
        match r {
            Some(i) => i < bs@.len() && i as int == bkt_idx(buckets_view(bs@), name@),
            None => !has_bucket(buckets_view(bs@), name@),
        },
{
    let ghost bv = buckets_view(bs@);
    let mut i: usize = 0;
    while i < bs.len()
        invariant
            i <= bs@.len(),
            bv == buckets_view(bs@),
            forall|j: int| 0 <= j < i ==> (#[trigger] bv[j]).0 != name@,
        decreases bs@.len() - i,
    {
        let e = &bs[i];
        if e.0 == *name {
            proof {
                assert(bv[i as int].0 == name@);
                lemma_bkt(bv, name@);
                let idx = bkt_idx(bv, name@);
                if idx < i {
                    assert(bv[idx].0 == name@);
                }
            }
            return Some(i);
        }
        proof {
            assert(bv[i as int].0 == bs@[i as int].0@);
        }
        i += 1;
    }
    proof {
        lemma_bkt(bv, name@);
        if has_bucket(bv, name@) {
            assert(bv[bkt_idx(bv, name@)].0 == name@);
        }
    }
    None
}

/// First position of `key` in a bucket's key list, if any.
fn find_key(ks: &Vec<TokenKey>, key: &TokenKey) -> (r: Option<usize>)
    ensures
        match r {
            Some(i) => i < ks@.len() && i as int == key_idx(keys_view(ks@), key@),
            None => key_idx(keys_view(ks@), key@) < 0,
        },
{
    let ghost kv = keys_view(ks@);
    let mut i: usize = 0;
    while i < ks.len()
        invariant
            i <= ks@.len(),
            kv == keys_view(ks@),
            forall|j: int| 0 <= j < i ==> #[trigger] kv[j] != key@,
        decreases ks@.len() - i,
    {
        let e = &ks[i];
        if key_eq(e, key) {
            proof {
                assert(kv[i as int] == key@);
                lemma_key(kv, key@);
                let idx = key_idx(kv, key@);
                if idx < i {
                    assert(kv[idx] == key@);
                }
            }
            return Some(i);
        }
        proof {
            assert(kv[i as int] == ks@[i as int]@);
        }
        i += 1;
    }
    proof {
        lemma_key(kv, key@);
        if key_idx(kv, key@) >= 0 {
            assert(kv[key_idx(kv, key@)] == key@);
        }
    }
    None
}

/// Adds `key` to the bucket named `name`, creating the bucket if needed;
/// a no-op when the bucket already holds it.
fn add_to_bucket(bs: &mut Vec<(String, Vec<TokenKey>)>, name: &String, key: &TokenKey)
    ensures
        buckets_view(final(bs)@) == bucket_add(buckets_view(old(bs)@), name@, key@),
{
    let ghost bv = buckets_view(bs@);
    match find_bucket(bs, name) {
        None => {
            let mut ks: Vec<TokenKey> = Vec::new();
            ks.push(key.clone());
            proof {
                assert(keys_view(ks@) =~= seq![key@]);
            }
            bs.push((name.clone(), ks));
            proof {
                assert(buckets_view(bs@) =~~= bv.push((name@, seq![key@])));
                assert(buckets_view(bs@) =~~= bucket_add(bv, name@, key@));
            }
        },
        Some(i) => {
            let present = {
                let b = &bs[i];
                find_key(&b.1, key)
            };
            proof {
                assert(bv[i as int].1 == keys_view(bs@[i as int].1@));
            }
            match present {
                Some(_) => {
                    proof {
                        lemma_key(bv[i as int].1, key@);
                        assert(bucket_of(bv, name@).contains(key@));
                        assert(bucket_add(bv, name@, key@) == bv);
                    }
                },
                None => {
                    proof {
                        lemma_key(bv[i as int].1, key@);
                        assert(!bucket_of(bv, name@).contains(key@));
                    }
                    let mut b = bs.remove(i);
                    b.1.push(key.clone());
                    let ghost nb = (b.0@, keys_view(b.1@));
                    bs.insert(i, b);
                    proof {
                        lemma_remove_insert(old(bs)@, i as int, bs@[i as int]);
                        assert(bs@ == old(bs)@.update(i as int, bs@[i as int]));
                        assert(keys_view(bs@[i as int].1@) =~= bv[i as int].1.push(key@));
                        assert(buckets_view(bs@) =~~= bv.update(
                            i as int,
                            (bv[i as int].0, bv[i as int].1.push(key@)),
                        ));
                        assert(buckets_view(bs@) =~~= bucket_add(bv, name@, key@));
                    }
                },
            }
        },
    }
}

/// Removes `key` from the bucket named `name`, if that bucket exists and
/// holds it; the bucket itself stays.
fn remove_from_bucket(bs: &mut Vec<(String, Vec<TokenKey>)>, name: &String, key: &TokenKey)
    ensures
        buckets_view(final(bs)@) == bucket_remove(buckets_view(old(bs)@), name@, key@),
{
    let ghost bv = buckets_view(bs@);
    match find_bucket(bs, name) {
        None => {
            proof {
                assert(bucket_remove(bv, name@, key@) == bv);
            }
        },
        Some(i) => {
            let at = {
                let b = &bs[i];
                find_key(&b.1, key)
            };
            proof {
                assert(bv[i as int].1 == keys_view(bs@[i as int].1@));
            }
            match at {
                None => {
                    proof {
                        assert(bucket_remove(bv, name@, key@) == bv);
                    }
                },
                Some(j) => {
                    let mut b = bs.remove(i);
                    b.1.remove(j);
                    bs.insert(i, b);
                    proof {
                        lemma_remove_insert(old(bs)@, i as int, bs@[i as int]);
                        assert(bs@ == old(bs)@.update(i as int, bs@[i as int]));
                        old(bs)@[i as int].1@.remove_ensures(j as int);
                        bv[i as int].1.remove_ensures(j as int);
                        assert(keys_view(bs@[i as int].1@) =~= bv[i as int].1.remove(j as int));
                        assert(buckets_view(bs@) =~~= bv.update(
                            i as int,
                            (bv[i as int].0, bv[i as int].1.remove(j as int)),
                        ));
                        assert(buckets_view(bs@) =~~= bucket_remove(bv, name@, key@));
                    }
                },
            }
        },
    }
}

/// Sets the previous owner recorded for `key`, overwriting any earlier
/// entry.
fn hist_put(hs: &mut Vec<(TokenKey, String)>, key: &TokenKey, owner: &String)
    ensures
        hist_view(final(hs)@) == hist_set(hist_view(old(hs)@), key@, owner@),
{
    let ghost hv = hist_view(hs@);
    match find_hist(hs, key) {
        None => {
            hs.push((key.clone(), owner.clone()));
            proof {
                assert(hist_view(hs@) =~~= hv.push((key@, owner@)));
            }
        },
        Some(i) => {
            let _ = hs.remove(i);
            hs.insert(i, (key.clone(), owner.clone()));
            proof {
                lemma_remove_insert(old(hs)@, i as int, hs@[i as int]);
                assert(hs@ == old(hs)@.update(i as int, hs@[i as int]));
                assert(hist_view(hs@) =~~= hv.update(i as int, (key@, owner@)));
                assert(hist_view(hs@) =~~= hist_set(hv, key@, owner@));
            }
        },
    }
}

impl Oracle {
    /// A fresh oracle with all four stores empty.
    pub fn new() -> (r: Self)
        ensures
            r@ == (OracleV {
                token_by_id: Seq::empty(),
                previous_owner_of_token: Seq::empty(),
                tokens_by_contract: Seq::empty(),
                tokens_by_owner: Seq::empty(),
            }),
            wf(r@),
    {
        let r = Oracle {
            token_by_id_map: Vec::new(),
            previous_owner_of_token_map: Vec::new(),
            tokens_by_contract_map: Vec::new(),
            tokens_by_owner_map: Vec::new(),
        };
        proof {
            assert(r@.token_by_id =~= Seq::<(KeyV, RecordV)>::empty());
            assert(r@.previous_owner_of_token =~= Seq::<(KeyV, Seq<char>)>::empty());
            assert(r@.tokens_by_contract =~= Seq::<(Seq<char>, Seq<KeyV>)>::empty());
            assert(r@.tokens_by_owner =~= Seq::<(Seq<char>, Seq<KeyV>)>::empty());
            lemma_empty_wf();
        }
        r
    }

    /// The composite key of `token_id` issued by `nft_contract_id`: the
    /// two identifiers, paired without loss.
    pub fn get_token_input_key(&self, nft_contract_id: String, token_id: String) -> (r: TokenKey)
        ensures
            r@ == key_of(nft_contract_id@, token_id@),
    {
        TokenKey { token_id, nft_contract_id }
    }

    /// The shared owner-change resolver.  When the stored owner equals
    /// `owner_id` it reports `false` and touches nothing; otherwise it
    /// records the stored owner as the previous one, detaches the key
    /// from that owner's bucket, and reports `true`.  The caller persists
    /// the new record and attaches the key to the new owner's bucket.
    pub fn update_owner_of_token(
        &mut self,
        owner_id: &String,
        key: &TokenKey,
        previous_token: &TokenInput,
    ) -> (changed: bool)
        ensures
            changed == (previous_token@.owner_id != owner_id@),
            !changed ==> final(self)@ == old(self)@,
            changed ==> final(self)@ == (OracleV {
                previous_owner_of_token: hist_set(
                    old(self)@.previous_owner_of_token,
                    key@,
                    previous_token@.owner_id,
                ),
                tokens_by_owner: bucket_remove(
                    old(self)@.tokens_by_owner,
                    previous_token@.owner_id,
                    key@,
                ),
                ..old(self)@
            }),
    {
        if previous_token.owner_id != *owner_id {
            hist_put(&mut self.previous_owner_of_token_map, key, &previous_token.owner_id);
            remove_from_bucket(&mut self.tokens_by_owner_map, &previous_token.owner_id, key);
            true
        } else {
            false
        }
    }

    /// Attaches `key` to `owner_id`'s bucket, creating the bucket if
    /// needed.
    pub fn map_token_by_owner(&mut self, key: &TokenKey, owner_id: &String)
        ensures
            final(self)@ == (OracleV {
                tokens_by_owner: bucket_add(old(self)@.tokens_by_owner, owner_id@, key@),
                ..old(self)@
            }),
    {
        add_to_bucket(&mut self.tokens_by_owner_map, owner_id, key);
    }

    /// Ingests a batch of ownership facts for the tokens of one
    /// contract, independently and in input order: an empty batch is a
    /// no-op; a fact repeating the current owner is dropped whole; any
    /// other fact is applied to all four stores as one step.
    pub fn consume_tokens(&mut self, nft_contract_id: String, tokens: Vec<TokenInput>)
        ensures
            final(self)@ == ingest_batch(
                old(self)@,
                nft_contract_id@,
                records_view(tokens@),
            ),
            wf(old(self)@) ==> wf(final(self)@),
    {
        let ghost s0 = self@;
        let ghost c = nft_contract_id@;
        let ghost rvs = records_view(tokens@);
        proof {
            if wf(s0) {
                lemma_ingest_batch_wf(s0, c, rvs);
            }
        }
        if tokens.len() == 0 {
            return;
        }
        let mut idx: usize = 0;
        while idx < tokens.len()
            invariant
                idx <= tokens@.len(),
                rvs == records_view(tokens@),
                rvs.len() == tokens@.len(),
                c == nft_contract_id@,
                self@ == ingest_batch(s0, c, rvs.take(idx as int)),
            decreases tokens@.len() - idx,
        {
            let ghost s_before = self@;
            let token_input = {
                let t = &tokens[idx];
                t.clone()
            };
            let owner = token_input.owner_id.clone();
            let key = self.get_token_input_key(
                nft_contract_id.clone(),
                token_input.token_id.clone(),
            );
            proof {
                assert(rvs[idx as int] == tokens@[idx as int]@);
                assert(token_input@ == rvs[idx as int]);
                assert(key@ == key_of(c, rvs[idx as int].token_id));
            }
            let ghost rv = rvs[idx as int];
            let found = find_primary(&self.token_by_id_map, &key);
            let mut skipped = false;
            match found {
                Some(i) => {
                    let previous_token = {
                        let e = &self.token_by_id_map[i];
                        e.1.clone()
                    };
                    proof {
                        assert(previous_token@ == s_before.token_by_id[i as int].1);
                        assert(prim_get(s_before.token_by_id, key@) == previous_token@);
                    }
                    if !self.update_owner_of_token(&owner, &key, &previous_token) {
                        skipped = true;
                        proof {
                            assert(ingest_one(s_before, c, rv) == s_before);
                        }
                    } else {
                        let ghost ps1 = self.token_by_id_map@;
                        let _ = self.token_by_id_map.remove(i);
                        self.token_by_id_map.insert(i, (key.clone(), token_input));
                        proof {
                            lemma_remove_insert(ps1, i as int, self.token_by_id_map@[i as int]);
                            assert(self.token_by_id_map@ == ps1.update(
                                i as int,
                                self.token_by_id_map@[i as int],
                            ));
                            assert(primary_view(self.token_by_id_map@) =~~= s_before.token_by_id
                                .update(i as int, (key@, rv)));
                        }
                        add_to_bucket(&mut self.tokens_by_contract_map, &nft_contract_id, &key);
                        self.map_token_by_owner(&key, &owner);
                        proof {
                            let s2 = ingest_one(s_before, c, rv);
                            assert(self@.token_by_id == s2.token_by_id);
                            assert(self@.previous_owner_of_token == s2.previous_owner_of_token);
                            assert(self@.tokens_by_contract == s2.tokens_by_contract);
                            assert(self@.tokens_by_owner == s2.tokens_by_owner);
                            assert(self@ == s2);
                        }
                    }
                },
                None => {
                    self.token_by_id_map.push((key.clone(), token_input));
                    proof {
                        assert(primary_view(self.token_by_id_map@) =~~= s_before.token_by_id.push(
                            (key@, rv),
                        ));
                    }
                    add_to_bucket(&mut self.tokens_by_contract_map, &nft_contract_id, &key);
                    self.map_token_by_owner(&key, &owner);
                    proof {
                        let s2 = ingest_one(s_before, c, rv);
                        assert(self@.token_by_id == s2.token_by_id);
                        assert(self@.previous_owner_of_token == s2.previous_owner_of_token);
                        assert(self@.tokens_by_contract == s2.tokens_by_contract);
                        assert(self@.tokens_by_owner == s2.tokens_by_owner);
                        assert(self@ == s2);
                    }
                },
            }
            proof {
                if skipped {
                    assert(self@ == ingest_one(s_before, c, rv));
                }
                let taken = rvs.take(idx + 1);
                assert(taken.drop_last() =~= rvs.take(idx as int));
                assert(taken.last() == rv);
                assert(ingest_batch(s0, c, taken) == ingest_one(
                    ingest_batch(s0, c, taken.drop_last()),
                    c,
                    taken.last(),
                ));
                assert(self@ == ingest_batch(s0, c, taken));
            }
            idx += 1;
        }
        proof {
            assert(rvs.take(tokens@.len() as int) =~= rvs);
        }
    }

    /// Moves one known token to a new owner, keeping its metadata and
    /// approvals: the resolver records the displaced owner and detaches
    /// the key from its bucket, then the record is rewritten and the key
    /// attached to the new owner's bucket.  A no-op for an unknown key or
    /// an unchanged owner.
    pub fn nft_update_owner_of_token(
        &mut self,
        nft_contract_id: String,
        token_id: String,
        owner_id: String,
    )
        ensures
            final(self)@ == set_owner_one(old(self)@, nft_contract_id@, token_id@, owner_id@),
            wf(old(self)@) ==> wf(final(self)@),
    {
        let ghost s0 = self@;
        let ghost c = nft_contract_id@;
        let ghost t = token_id@;
        let ghost o = owner_id@;
        proof {
            if wf(s0) {
                lemma_set_owner_one_wf(s0, c, t, o);
            }
        }
        let key = self.get_token_input_key(nft_contract_id, token_id);
        match find_primary(&self.token_by_id_map, &key) {
            None => {},
            Some(i) => {
                let mut previous_token = {
                    let e = &self.token_by_id_map[i];
                    e.1.clone()
                };
                proof {
                    assert(previous_token@ == s0.token_by_id[i as int].1);
                    assert(prim_get(s0.token_by_id, key@) == previous_token@);
                }
                if self.update_owner_of_token(&owner_id, &key, &previous_token) {
                    let ghost prev = previous_token@;
                    previous_token.owner_id = owner_id.clone();
                    proof {
                        assert(previous_token@ =~= RecordV { owner_id: o, ..prev });
                    }
                    let ghost ps1 = self.token_by_id_map@;
                    let _ = self.token_by_id_map.remove(i);
                    self.token_by_id_map.insert(i, (key.clone(), previous_token));
                    proof {
                        lemma_remove_insert(ps1, i as int, self.token_by_id_map@[i as int]);
                        assert(self.token_by_id_map@ == ps1.update(
                            i as int,
                            self.token_by_id_map@[i as int],
                        ));
                        assert(primary_view(self.token_by_id_map@) =~~= s0.token_by_id.update(
                            i as int,
                            (key@, RecordV { owner_id: o, ..prev }),
                        ));
                    }
                    self.map_token_by_owner(&key, &owner_id);
                    proof {
                        let s2 = set_owner_one(s0, c, t, o);
                        assert(self@.token_by_id == s2.token_by_id);
                        assert(self@.previous_owner_of_token == s2.previous_owner_of_token);
                        assert(self@.tokens_by_contract == s2.tokens_by_contract);
                        assert(self@.tokens_by_owner == s2.tokens_by_owner);
                        assert(self@ == s2);
                    }
                } else {
                    proof {
                        assert(set_owner_one(s0, c, t, o) == s0);
                    }
                }
            },
        }
    }
}

} // verus!
