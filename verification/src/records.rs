//! The data carried for one token: its composite key and its stored record.

use vstd::prelude::*;

verus! {

/// Mathematical view of a composite key: the pair of identifiers that
/// uniquely names a token across all issuing contracts.
#[verifier::ext_equal]
pub ghost struct KeyV {
    pub token_id: Seq<char>,
    pub nft_contract_id: Seq<char>,
}

/// Mathematical view of one stored ownership record.
#[verifier::ext_equal]
pub ghost struct RecordV {
    pub token_id: Seq<char>,
    pub owner_id: Seq<char>,
    pub metadata: Option<Seq<u8>>,
    pub approved_account_ids: Option<Seq<(Seq<char>, u64)>>,
}

/// Composite key pairing an issuing contract with one of its tokens.
///
/// The two components stay separate instead of being concatenated into one
/// string, so the pairing is collision-free: two distinct
/// (contract, token) pairs never produce equal keys, whatever characters
/// the identifiers contain.
pub struct TokenKey {
    pub token_id: String,
    pub nft_contract_id: String,
}

impl View for TokenKey {
    type V = KeyV;

    open spec fn view(&self) -> KeyV {
        KeyV { token_id: self.token_id@, nft_contract_id: self.nft_contract_id@ }
    }
}

impl Clone for TokenKey {
    fn clone(&self) -> (r: Self)
        ensures
            r == *self,
    {
        TokenKey { token_id: self.token_id.clone(), nft_contract_id: self.nft_contract_id.clone() }
    }
}

/// Compares two composite keys by their components.
pub fn key_eq(a: &TokenKey, b: &TokenKey) -> (r: bool)
    ensures
        r == (a@ == b@),
{
    let same = a.token_id == b.token_id && a.nft_contract_id == b.nft_contract_id;
    proof {
        if same {
            assert(a@ =~= b@);
        }
    }
    same
}

/// One ownership fact: a token, its current owner, and the opaque payload
/// (metadata blob and approval list) carried along with it.  Records are
/// immutable except via full replacement on ingestion.
pub struct TokenInput {
    pub token_id: String,
    pub owner_id: String,
    pub metadata: Option<Vec<u8>>,
    pub approved_account_ids: Option<Vec<(String, u64)>>,
}

impl View for TokenInput {
    type V = RecordV;

    open spec fn view(&self) -> RecordV {
        RecordV {
            token_id: self.token_id@,
            owner_id: self.owner_id@,
            metadata: match self.metadata {
                Some(m) => Some(m@),
                None => None,
            },
            approved_account_ids: match self.approved_account_ids {
                Some(v) => Some(v@.map_values(|p: (String, u64)| (p.0@, p.1))),
                None => None,
            },
        }
    }
}

fn clone_bytes(v: &Vec<u8>) -> (r: Vec<u8>)
    ensures
        r@ == v@,
{
    let mut r: Vec<u8> = Vec::new();
    let mut i: usize = 0;
    while i < v.len()
        invariant
            i <= v.len(),
            r@ == v@.take(i as int),
        decreases v.len() - i,
    {
        r.push(v[i]);
        proof {
            assert(v@.take(i + 1) =~= v@.take(i as int).push(v@[i as int]));
        }
        i += 1;
    }
    proof {
        assert(v@.take(v.len() as int) =~= v@);
    }
    r
}

fn clone_approvals(v: &Vec<(String, u64)>) -> (r: Vec<(String, u64)>)
    ensures
        r@ == v@,
{
    let mut r: Vec<(String, u64)> = Vec::new();
    let mut i: usize = 0;
    while i < v.len()
        invariant
            i <= v.len(),
            r@ == v@.take(i as int),
        decreases v.len() - i,
    {
        let p = (v[i].0.clone(), v[i].1);
        proof {
            assert(p == v@[i as int]);
            assert(v@.take(i + 1) =~= v@.take(i as int).push(v@[i as int]));
        }
        r.push(p);
        i += 1;
    }
    proof {
        assert(v@.take(v.len() as int) =~= v@);
    }
    r
}

impl Clone for TokenInput {
    fn clone(&self) -> (r: Self)
        ensures
            r@ == self@,
    {
        let metadata = match &self.metadata {
            Some(m) => Some(clone_bytes(m)),
            None => None,
        };
        let approved_account_ids = match &self.approved_account_ids {
            Some(v) => Some(clone_approvals(v)),
            None => None,
        };
        TokenInput {
            token_id: self.token_id.clone(),
            owner_id: self.owner_id.clone(),
            metadata,
            approved_account_ids,
        }
    }
}

/// Names under which a storage collaborator persists each of the oracle's
/// four structures between calls; the per-bucket variants carry the hash
/// of the bucket's contract or account identifier.
pub enum StorageKeys {
    TokenByIDMap,
    PreviousOwnerOfTokenMap,
    TokensByContractMap,
    TokensByContractMapSet { contract_hash: Vec<u8> },
    TokensByOwnerMap,
    TokensByOwnerMapSet { account_hash: Vec<u8> },
}

} // verus!
