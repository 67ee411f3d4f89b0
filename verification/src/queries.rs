//! The read-only query side of the oracle: paginated listings over the
//! primary store and over the two secondary indexes, and the
//! previous-owner lookup.  Queries never mutate the stores.

use vstd::prelude::*;

use crate::records::{TokenKey, TokenInput};
use crate::model::{key_of, prim_records, prim_get, hist_has, hist_get, has_bucket, bucket_of, paginate, page_start, page_limit, resolve_keys, bucket_page};
use crate::oracle::{Oracle, hist_view, keys_view, records_view, find_primary, find_hist, find_bucket};

verus! {

impl Oracle {
    /// Resolves the optional pagination arguments: the start index
    /// defaults to the beginning, the limit to no bound, clamped to what
    /// a count can be.
    pub fn start_limit_paginate(&self, from_index: Option<u128>, limit: Option<u64>) -> (r: (
        u128,
        usize,
    ))
        ensures
            r.0 as int == page_start(from_index),
            r.1 as int == if page_limit(limit) <= usize::MAX as int {
                page_limit(limit)
            } else {
                usize::MAX as int
            },
    {
        let start: u128 = match from_index {
            Some(v) => v,
            None => 0,
        };
        let lim: usize = match limit {
            Some(v) => {
                if v <= usize::MAX as u64 {
                    v as usize
                } else {
                    usize::MAX
                }
            },
            None => usize::MAX,
        };
        (start, lim)
    }

    /// The public representation of one stored record: a full copy of
    /// it.
    pub fn parse_token_input_to_token(&self, token_input: &TokenInput) -> (r: TokenInput)
        ensures
            r@ == token_input@,
    {
        token_input.clone()
    }

    /// Lists the whole primary store, in insertion order, paginated.
    pub fn nft_tokens(&self, from_index: Option<u128>, limit: Option<u64>) -> (r: Vec<TokenInput>)
        ensures
            records_view(r@) == paginate(prim_records(self@.token_by_id), from_index, limit),
    {
        let ghost q = prim_records(self@.token_by_id);
        let (start128, lim) = self.start_limit_paginate(from_index, limit);
        let mut out: Vec<TokenInput> = Vec::new();
        let n = self.token_by_id_map.len();
        if start128 >= n as u128 {
            proof {
                assert(records_view(out@) =~= paginate(q, from_index, limit));
            }
            return out;
        }
        let start = start128 as usize;
        let mut i: usize = start;
        while i < n && i - start < lim
            invariant
                start <= i <= n,
                n == self.token_by_id_map@.len(),
                i - start <= lim,
                q == prim_records(self@.token_by_id),
                records_view(out@) == q.subrange(start as int, i as int),
            decreases n - i,
        {
            let rec = {
                let e = &self.token_by_id_map[i];
                e.1.clone()
            };
            proof {
                assert(rec@ == q[i as int]);
                assert(q.subrange(start as int, i + 1) =~= q.subrange(start as int, i as int).push(
                    q[i as int],
                ));
            }
            out.push(rec);
            proof {
                assert(records_view(out@) =~= q.subrange(start as int, i + 1));
            }
            i += 1;
        }
        proof {
            let st = start as int;
            let lm = page_limit(limit);
            let end = if st + lm <= q.len() {
                st + lm
            } else {
                q.len() as int
            };
            assert(records_view(out@) =~= q.subrange(st, end));
        }
        out
    }

    /// The owner a token had immediately before its current one; absent
    /// when the token has never changed owner (or was never ingested).
    pub fn nft_previous_owner(&self, nft_contract_id: String, token_id: String) -> (r: Option<
        String,
    >)
        ensures
            ({
                let k = key_of(nft_contract_id@, token_id@);
                match r {
                    Some(o) => hist_has(self@.previous_owner_of_token, k) && o@ == hist_get(
                        self@.previous_owner_of_token,
                        k,
                    ),
                    None => !hist_has(self@.previous_owner_of_token, k),
                }
            }),
    {
        let key = self.get_token_input_key(nft_contract_id, token_id);
        match find_hist(&self.previous_owner_of_token_map, &key) {
            None => None,
            Some(i) => {
                let o = {
                    let e = &self.previous_owner_of_token_map[i];
                    e.1.clone()
                };
                proof {
                    assert(hist_view(self.previous_owner_of_token_map@)[i as int].1 == o@);
                }
                Some(o)
            },
        }
    }

    /// Resolves a page of composite keys through the primary store, in
    /// order, silently skipping any key without a record.
    pub fn get_tokens_by_values(
        &self,
        token_keys: &Vec<TokenKey>,
        from_index: Option<u128>,
        limit: Option<u64>,
    ) -> (r: Vec<TokenInput>)
        ensures
            records_view(r@) == resolve_keys(
                self@.token_by_id,
                paginate(keys_view(token_keys@), from_index, limit),
            ),
    {
        let ghost pv = self@.token_by_id;
        let ghost kv = keys_view(token_keys@);
        let (start128, lim) = self.start_limit_paginate(from_index, limit);
        let mut out: Vec<TokenInput> = Vec::new();
        let n = token_keys.len();
        if start128 >= n as u128 {
            proof {
                assert(paginate(kv, from_index, limit) =~= Seq::<crate::records::KeyV>::empty());
                assert(records_view(out@) =~= resolve_keys(pv, paginate(kv, from_index, limit)));
            }
            return out;
        }
        let start = start128 as usize;
        let mut i: usize = start;
        while i < n && i - start < lim
            invariant
                start <= i <= n,
                n == token_keys@.len(),
                i - start <= lim,
                pv == self@.token_by_id,
                kv == keys_view(token_keys@),
                records_view(out@) == resolve_keys(pv, kv.subrange(start as int, i as int)),
            decreases n - i,
        {
            let kref = &token_keys[i];
            proof {
                assert(kref@ == kv[i as int]);
                assert(kv.subrange(start as int, i + 1).drop_last() =~= kv.subrange(
                    start as int,
                    i as int,
                ));
                assert(kv.subrange(start as int, i + 1).last() == kv[i as int]);
            }
            match find_primary(&self.token_by_id_map, kref) {
                Some(pi) => {
                    let rec = {
                        let e = &self.token_by_id_map[pi];
                        e.1.clone()
                    };
                    proof {
                        assert(rec@ == pv[pi as int].1);
                        assert(rec@ == prim_get(pv, kv[i as int]));
                    }
                    out.push(rec);
                    proof {
                        assert(records_view(out@) =~= resolve_keys(
                            pv,
                            kv.subrange(start as int, i + 1),
                        ));
                    }
                },
                None => {
                    proof {
                        assert(records_view(out@) =~= resolve_keys(
                            pv,
                            kv.subrange(start as int, i + 1),
                        ));
                    }
                },
            }
            i += 1;
        }
        proof {
            let st = start as int;
            let lm = page_limit(limit);
            let end = if st + lm <= kv.len() {
                st + lm
            } else {
                kv.len() as int
            };
            assert(kv.subrange(st, i as int) =~= paginate(kv, from_index, limit));
        }
        out
    }

    /// Lists the tokens issued by one contract, paginated; an issuer
    /// never ingested yields the empty sequence, not an error.
    pub fn nft_token_for_contract(
        &self,
        account_id: String,
        from_index: Option<u128>,
        limit: Option<u64>,
    ) -> (r: Vec<TokenInput>)
        ensures
            records_view(r@) == bucket_page(
                self@.token_by_id,
                self@.tokens_by_contract,
                account_id@,
                from_index,
                limit,
            ),
            !has_bucket(self@.tokens_by_contract, account_id@) ==> r@.len() == 0,
    {
        match find_bucket(&self.tokens_by_contract_map, &account_id) {
            None => {
                let tokens: Vec<TokenInput> = Vec::new();
                proof {
                    assert(records_view(tokens@) =~= Seq::<crate::records::RecordV>::empty());
                }
                tokens
            },
            Some(i) => {
                let token_keys = &self.tokens_by_contract_map[i].1;
                proof {
                    assert(keys_view(token_keys@) == bucket_of(
                        self@.tokens_by_contract,
                        account_id@,
                    ));
                }
                self.get_tokens_by_values(token_keys, from_index, limit)
            },
        }
    }

    /// Lists the tokens currently owned by one account, across all
    /// contracts, paginated; an owner never seen yields the empty
    /// sequence, not an error.
    pub fn nft_tokens_for_owner(
        &self,
        account_id: String,
        from_index: Option<u128>,
        limit: Option<u64>,
    ) -> (r: Vec<TokenInput>)
        ensures
            records_view(r@) == bucket_page(
                self@.token_by_id,
                self@.tokens_by_owner,
                account_id@,
                from_index,
                limit,
            ),
            !has_bucket(self@.tokens_by_owner, account_id@) ==> r@.len() == 0,
    {
        match find_bucket(&self.tokens_by_owner_map, &account_id) {
            None => {
                let tokens: Vec<TokenInput> = Vec::new();
                proof {
                    assert(records_view(tokens@) =~= Seq::<crate::records::RecordV>::empty());
                }
                tokens
            },
            Some(i) => {
                let token_keys = &self.tokens_by_owner_map[i].1;
                proof {
                    assert(keys_view(token_keys@) == bucket_of(self@.tokens_by_owner, account_id@));
                }
                self.get_tokens_by_values(token_keys, from_index, limit)
            },
        }
    }
}

} // verus!
