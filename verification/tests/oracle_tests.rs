use nft_oracle::{Oracle, TokenInput};

fn fact(token_id: &str, owner_id: &str) -> TokenInput {
    TokenInput {
        token_id: token_id.to_string(),
        owner_id: owner_id.to_string(),
        metadata: None,
        approved_account_ids: None,
    }
}

fn fact_with_payload(token_id: &str, owner_id: &str, blob: Vec<u8>) -> TokenInput {
    TokenInput {
        token_id: token_id.to_string(),
        owner_id: owner_id.to_string(),
        metadata: Some(blob),
        approved_account_ids: Some(vec![("approved.near".to_string(), 7u64)]),
    }
}

fn owned_ids(oracle: &Oracle, account: &str) -> Vec<String> {
    oracle
        .nft_tokens_for_owner(account.to_string(), None, None)
        .into_iter()
        .map(|t| t.token_id)
        .collect()
}

#[test]
fn scenario_ingest_then_transfer() {
    let mut oracle = Oracle::new();
    oracle.consume_tokens("issuerX".to_string(), vec![fact("1", "alice")]);
    assert_eq!(oracle.nft_previous_owner("issuerX".to_string(), "1".to_string()), None);

    oracle.consume_tokens("issuerX".to_string(), vec![fact("1", "bob")]);
    assert_eq!(
        oracle.nft_previous_owner("issuerX".to_string(), "1".to_string()),
        Some("alice".to_string())
    );
    assert!(!owned_ids(&oracle, "alice").contains(&"1".to_string()));
    assert!(owned_ids(&oracle, "bob").contains(&"1".to_string()));
    let by_issuer = oracle.nft_token_for_contract("issuerX".to_string(), None, None);
    assert_eq!(by_issuer.len(), 1);
    assert_eq!(by_issuer[0].token_id, "1");
    assert_eq!(by_issuer[0].owner_id, "bob");
}

#[test]
fn ingesting_same_fact_twice_changes_nothing() {
    let mut once = Oracle::new();
    once.consume_tokens("sys".to_string(), vec![fact("t", "alice")]);

    let mut twice = Oracle::new();
    twice.consume_tokens("sys".to_string(), vec![fact("t", "alice")]);
    twice.consume_tokens("sys".to_string(), vec![fact("t", "alice")]);

    let a = once.nft_tokens(None, None);
    let b = twice.nft_tokens(None, None);
    assert_eq!(a.len(), 1);
    assert_eq!(b.len(), 1);
    assert_eq!(a[0].token_id, b[0].token_id);
    assert_eq!(a[0].owner_id, b[0].owner_id);
    assert_eq!(owned_ids(&once, "alice"), owned_ids(&twice, "alice"));
    assert_eq!(
        once.nft_previous_owner("sys".to_string(), "t".to_string()),
        twice.nft_previous_owner("sys".to_string(), "t".to_string())
    );
    assert_eq!(
        twice.nft_token_for_contract("sys".to_string(), None, None).len(),
        1
    );
}

#[test]
fn reingestion_with_unchanged_owner_drops_payload_update() {
    let mut oracle = Oracle::new();
    oracle.consume_tokens("sys".to_string(), vec![fact("t", "alice")]);
    // same owner again, now with metadata and approvals: dropped whole
    oracle.consume_tokens(
        "sys".to_string(),
        vec![fact_with_payload("t", "alice", vec![1, 2, 3])],
    );
    let all = oracle.nft_tokens(None, None);
    assert_eq!(all.len(), 1);
    assert_eq!(all[0].metadata, None);
    assert_eq!(all[0].approved_account_ids, None);
}

#[test]
fn payload_is_kept_on_first_ingestion_and_replaced_on_owner_change() {
    let mut oracle = Oracle::new();
    oracle.consume_tokens(
        "sys".to_string(),
        vec![fact_with_payload("t", "alice", vec![9])],
    );
    let all = oracle.nft_tokens(None, None);
    assert_eq!(all[0].metadata, Some(vec![9]));
    assert_eq!(
        all[0].approved_account_ids,
        Some(vec![("approved.near".to_string(), 7u64)])
    );

    oracle.consume_tokens(
        "sys".to_string(),
        vec![fact_with_payload("t", "bob", vec![4, 2])],
    );
    let all = oracle.nft_tokens(None, None);
    assert_eq!(all.len(), 1);
    assert_eq!(all[0].owner_id, "bob");
    assert_eq!(all[0].metadata, Some(vec![4, 2]));
}

#[test]
fn history_keeps_only_the_immediately_preceding_owner() {
    let mut oracle = Oracle::new();
    oracle.consume_tokens("sys".to_string(), vec![fact("t", "a")]);
    oracle.consume_tokens("sys".to_string(), vec![fact("t", "b")]);
    assert_eq!(
        oracle.nft_previous_owner("sys".to_string(), "t".to_string()),
        Some("a".to_string())
    );
    oracle.consume_tokens("sys".to_string(), vec![fact("t", "c")]);
    assert_eq!(
        oracle.nft_previous_owner("sys".to_string(), "t".to_string()),
        Some("b".to_string())
    );
}

#[test]
fn full_page_lists_every_token_once_in_insertion_order() {
    let mut oracle = Oracle::new();
    oracle.consume_tokens(
        "sys".to_string(),
        vec![fact("1", "a"), fact("2", "b"), fact("3", "a")],
    );
    let total = 3u64;
    let all = oracle.nft_tokens(Some(0), Some(total));
    assert_eq!(all.len(), 3);
    let ids: Vec<String> = all.into_iter().map(|t| t.token_id).collect();
    assert_eq!(ids, vec!["1".to_string(), "2".to_string(), "3".to_string()]);
}

#[test]
fn pagination_edges() {
    let mut oracle = Oracle::new();
    oracle.consume_tokens(
        "sys".to_string(),
        vec![fact("1", "a"), fact("2", "b"), fact("3", "c")],
    );
    // a window in the middle
    let page = oracle.nft_tokens(Some(1), Some(1));
    assert_eq!(page.len(), 1);
    assert_eq!(page[0].token_id, "2");
    // start beyond the end: empty
    assert_eq!(oracle.nft_tokens(Some(10), None).len(), 0);
    // start at the end: empty
    assert_eq!(oracle.nft_tokens(Some(3), None).len(), 0);
    // limit of zero: empty
    assert_eq!(oracle.nft_tokens(None, Some(0)).len(), 0);
    // limit past the end: all that remains
    let tail = oracle.nft_tokens(Some(2), Some(100));
    assert_eq!(tail.len(), 1);
    assert_eq!(tail[0].token_id, "3");
    // no arguments: everything
    assert_eq!(oracle.nft_tokens(None, None).len(), 3);
    // the same windows over a bucket listing
    let page = oracle.nft_token_for_contract("sys".to_string(), Some(1), Some(1));
    assert_eq!(page.len(), 1);
    assert_eq!(page[0].token_id, "2");
    assert_eq!(
        oracle.nft_token_for_contract("sys".to_string(), Some(10), None).len(),
        0
    );
}

#[test]
fn unknown_issuer_and_owner_list_empty() {
    let oracle = Oracle::new();
    assert_eq!(
        oracle.nft_token_for_contract("nobody".to_string(), None, None).len(),
        0
    );
    assert_eq!(
        oracle.nft_tokens_for_owner("nobody".to_string(), None, None).len(),
        0
    );
    let mut oracle = Oracle::new();
    oracle.consume_tokens("sys".to_string(), vec![fact("1", "a")]);
    assert_eq!(
        oracle.nft_token_for_contract("other".to_string(), None, None).len(),
        0
    );
}

#[test]
fn empty_batch_is_a_no_op() {
    let mut oracle = Oracle::new();
    oracle.consume_tokens("sys".to_string(), vec![]);
    assert_eq!(oracle.nft_tokens(None, None).len(), 0);
    assert_eq!(
        oracle.nft_token_for_contract("sys".to_string(), None, None).len(),
        0
    );
}

#[test]
fn set_owner_moves_token_between_buckets() {
    let mut oracle = Oracle::new();
    oracle.consume_tokens("sys".to_string(), vec![fact("t", "alice")]);
    oracle.nft_update_owner_of_token("sys".to_string(), "t".to_string(), "bob".to_string());
    assert_eq!(owned_ids(&oracle, "alice").len(), 0);
    assert_eq!(owned_ids(&oracle, "bob"), vec!["t".to_string()]);
    assert_eq!(
        oracle.nft_previous_owner("sys".to_string(), "t".to_string()),
        Some("alice".to_string())
    );
    // payload untouched by an owner update
    let all = oracle.nft_tokens(None, None);
    assert_eq!(all[0].metadata, None);
}

#[test]
fn set_owner_of_unknown_token_is_a_no_op() {
    let mut oracle = Oracle::new();
    oracle.nft_update_owner_of_token("sys".to_string(), "t".to_string(), "bob".to_string());
    assert_eq!(oracle.nft_tokens(None, None).len(), 0);
    assert_eq!(oracle.nft_previous_owner("sys".to_string(), "t".to_string()), None);
}

#[test]
fn set_owner_to_the_same_owner_changes_nothing() {
    let mut oracle = Oracle::new();
    oracle.consume_tokens("sys".to_string(), vec![fact("t", "alice")]);
    oracle.nft_update_owner_of_token("sys".to_string(), "t".to_string(), "alice".to_string());
    assert_eq!(oracle.nft_previous_owner("sys".to_string(), "t".to_string()), None);
    assert_eq!(owned_ids(&oracle, "alice"), vec!["t".to_string()]);
}

#[test]
fn ambiguous_identifier_pairs_stay_distinct() {
    // under a naive "token:contract" concatenation these two facts would
    // collide on "x:y:z"; the structured key keeps them apart
    let mut oracle = Oracle::new();
    oracle.consume_tokens("z".to_string(), vec![fact("x:y", "alice")]);
    oracle.consume_tokens("y:z".to_string(), vec![fact("x", "bob")]);
    assert_eq!(oracle.nft_tokens(None, None).len(), 2);
    let a = oracle.nft_token_for_contract("z".to_string(), None, None);
    assert_eq!(a.len(), 1);
    assert_eq!(a[0].owner_id, "alice");
    let b = oracle.nft_token_for_contract("y:z".to_string(), None, None);
    assert_eq!(b.len(), 1);
    assert_eq!(b[0].owner_id, "bob");
    assert_eq!(oracle.nft_previous_owner("z".to_string(), "x:y".to_string()), None);
}

#[test]
fn one_owner_across_several_contracts() {
    let mut oracle = Oracle::new();
    oracle.consume_tokens("sys1".to_string(), vec![fact("t", "alice")]);
    oracle.consume_tokens("sys2".to_string(), vec![fact("t", "alice")]);
    let mine = owned_ids(&oracle, "alice");
    assert_eq!(mine, vec!["t".to_string(), "t".to_string()]);
    assert_eq!(
        oracle.nft_token_for_contract("sys1".to_string(), None, None).len(),
        1
    );
    assert_eq!(
        oracle.nft_token_for_contract("sys2".to_string(), None, None).len(),
        1
    );
}

#[test]
fn transfer_back_and_forth_tracks_one_step_of_history() {
    let mut oracle = Oracle::new();
    oracle.consume_tokens("sys".to_string(), vec![fact("t", "a")]);
    oracle.nft_update_owner_of_token("sys".to_string(), "t".to_string(), "b".to_string());
    oracle.nft_update_owner_of_token("sys".to_string(), "t".to_string(), "a".to_string());
    assert_eq!(
        oracle.nft_previous_owner("sys".to_string(), "t".to_string()),
        Some("b".to_string())
    );
    assert_eq!(owned_ids(&oracle, "a"), vec!["t".to_string()]);
    assert_eq!(owned_ids(&oracle, "b").len(), 0);
}

#[test]
fn batch_applies_in_input_order() {
    let mut oracle = Oracle::new();
    // the same token appears twice in one batch: both facts apply, in order
    oracle.consume_tokens(
        "sys".to_string(),
        vec![fact("t", "a"), fact("t", "b")],
    );
    let all = oracle.nft_tokens(None, None);
    assert_eq!(all.len(), 1);
    assert_eq!(all[0].owner_id, "b");
    assert_eq!(
        oracle.nft_previous_owner("sys".to_string(), "t".to_string()),
        Some("a".to_string())
    );
}
