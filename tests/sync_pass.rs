use blocklist_sync::sync::{
    decimal_string, plan_batches, policy_traffic, total_items, PassOutcome, Phase, RemoteChunk,
    RemotePolicy, SyncAction, SyncEvent, SyncPass,
};

const LISTS: &str = "[Block List]";
const POLICY: &str = "[Block List] Block Ads";

fn domains(n: usize) -> Vec<String> {
    (0..n).map(|i| format!("d{:05}.example.com", i)).collect()
}

fn chunk(id: &str, name: &str, count: u64) -> RemoteChunk {
    RemoteChunk { id: Some(id.to_string()), name: Some(name.to_string()), item_count: Some(count) }
}

fn policy(id: &str, name: &str) -> RemotePolicy {
    RemotePolicy { id: Some(id.to_string()), name: Some(name.to_string()) }
}

fn pass(n: usize) -> SyncPass {
    SyncPass::new(domains(n), LISTS.to_string(), POLICY.to_string())
}

#[test]
fn equal_count_is_a_no_op() {
    let mut p = pass(1500);
    let listing = vec![
        chunk("a", "[Block List] 0", 1000),
        chunk("b", "[Block List] 1", 500),
        chunk("c", "Someone else's list", 7),
    ];
    let a = p.step(SyncEvent::ChunksListed { chunks: Some(listing) });
    assert!(matches!(a, SyncAction::Finish { outcome: PassOutcome::UpToDate }));
    assert_eq!(p.phase, Phase::Done);
    for e in [SyncEvent::ChunksDeleted, SyncEvent::PolicyWritten, SyncEvent::ChunksCreated { ids: vec![] }] {
        let a = p.step(e);
        assert!(matches!(a, SyncAction::Finish { outcome: PassOutcome::UpToDate }));
    }
}

#[test]
fn missing_listing_needs_update() {
    let mut p = pass(0);
    let a = p.step(SyncEvent::ChunksListed { chunks: None });
    assert!(matches!(a, SyncAction::ListPolicies));
    assert_eq!(p.phase, Phase::ClearingPolicy);
}

#[test]
fn plan_of_2500_domains() {
    let d = domains(2500);
    let b = plan_batches("[Block List]", &d);
    assert_eq!(b.len(), 3);
    assert_eq!(b[0].items.len(), 1000);
    assert_eq!(b[1].items.len(), 1000);
    assert_eq!(b[2].items.len(), 500);
    assert_eq!(b[0].name, "[Block List] 0");
    assert_eq!(b[2].name, "[Block List] 2");
    assert_eq!(b[1].items[0], d[1000]);
    assert_eq!(b[2].items[499], d[2499]);
    assert!(plan_batches("p", &Vec::new()).is_empty());
}

#[test]
fn full_pass_with_partial_creation_drifts() {
    let mut p = pass(2500);
    let listing = vec![chunk("old0", "[Block List] 0", 1000), chunk("old1", "[Block List] 1", 10)];
    let a = p.step(SyncEvent::ChunksListed { chunks: Some(listing) });
    assert!(matches!(a, SyncAction::ListPolicies));
    let a = p.step(SyncEvent::PoliciesListed { policies: Some(vec![policy("pol", POLICY)]) });
    match a {
        SyncAction::DeletePolicy { id } => assert_eq!(id, "pol"),
        _ => panic!("expected the policy to be deleted"),
    }
    let a = p.step(SyncEvent::PolicyDeleted);
    match a {
        SyncAction::DeleteChunks { ids } => assert_eq!(ids, vec!["old0".to_string(), "old1".to_string()]),
        _ => panic!("expected the lists to be deleted"),
    }
    let a = p.step(SyncEvent::ChunksDeleted);
    match a {
        SyncAction::CreateChunks { batches } => {
            let sizes: Vec<usize> = batches.iter().map(|b| b.items.len()).collect();
            assert_eq!(sizes, vec![1000, 1000, 500]);
        }
        _ => panic!("expected lists to be created"),
    }
    let a = p.step(SyncEvent::ChunksCreated {
        ids: vec![Some("n0".to_string()), None, Some("n2".to_string())],
    });
    assert!(matches!(a, SyncAction::ListPolicies));
    let a = p.step(SyncEvent::PoliciesListed { policies: Some(vec![]) });
    match a {
        SyncAction::CreatePolicy { name, traffic } => {
            assert_eq!(name, POLICY);
            assert_eq!(traffic, "any(dns.domains[*] in $n0) or any(dns.domains[*] in $n2)");
        }
        _ => panic!("expected a policy to be created"),
    }
    let a = p.step(SyncEvent::PolicyWritten);
    match a {
        SyncAction::Finish { outcome } => {
            assert_eq!(outcome, PassOutcome::Drifted { created: 2, expected: 3 });
        }
        _ => panic!("expected the pass to end"),
    }
}

#[test]
fn converged_pass_updates_the_policy() {
    let mut p = pass(3);
    p.step(SyncEvent::ChunksListed { chunks: Some(vec![]) });
    let a = p.step(SyncEvent::PoliciesListed { policies: None });
    match a {
        SyncAction::DeleteChunks { ids } => assert!(ids.is_empty()),
        _ => panic!("expected the lists to be deleted"),
    }
    p.step(SyncEvent::ChunksDeleted);
    p.step(SyncEvent::ChunksCreated { ids: vec![Some("only".to_string())] });
    let a = p.step(SyncEvent::PoliciesListed {
        policies: Some(vec![policy("other", "Unrelated"), policy("pol", POLICY)]),
    });
    match a {
        SyncAction::UpdatePolicy { id, name, traffic } => {
            assert_eq!(id, "pol");
            assert_eq!(name, POLICY);
            assert_eq!(traffic, "any(dns.domains[*] in $only)");
        }
        _ => panic!("expected the policy to be updated"),
    }
    let a = p.step(SyncEvent::PolicyWritten);
    assert!(matches!(a, SyncAction::Finish { outcome: PassOutcome::Converged { created: 1 } }));
}

#[test]
fn two_policies_are_a_conflict() {
    let mut p = pass(1);
    p.step(SyncEvent::ChunksListed { chunks: None });
    p.step(SyncEvent::PoliciesListed { policies: None });
    p.step(SyncEvent::ChunksDeleted);
    p.step(SyncEvent::ChunksCreated { ids: vec![Some("x".to_string())] });
    let a = p.step(SyncEvent::PoliciesListed {
        policies: Some(vec![policy("first", POLICY), policy("second", POLICY)]),
    });
    assert!(matches!(a, SyncAction::Finish { outcome: PassOutcome::PolicyConflict { found: 2 } }));
}

#[test]
fn unexpected_event_is_ignored() {
    let mut p = pass(1);
    let a = p.step(SyncEvent::PolicyWritten);
    assert!(matches!(a, SyncAction::Ignore));
    assert_eq!(p.phase, Phase::Fetching);
}

#[test]
fn totals_count_only_prefixed_lists() {
    let listing = vec![
        chunk("a", "[Block List] 0", 1000),
        RemoteChunk { id: Some("b".to_string()), name: None, item_count: Some(5) },
        RemoteChunk { id: None, name: Some("[Block List] 1".to_string()), item_count: None },
        chunk("c", "[Block List] 2", u64::MAX),
        chunk("d", "[Block List] 3", u64::MAX),
    ];
    assert_eq!(total_items(&listing, LISTS), 1000 + 2 * (u64::MAX as u128));
}

#[test]
fn decimal_names() {
    assert_eq!(decimal_string(0), "0");
    assert_eq!(decimal_string(7), "7");
    assert_eq!(decimal_string(1234), "1234");
    assert_eq!(decimal_string(1000000), "1000000");
}

#[test]
fn traffic_of_no_lists_is_empty() {
    assert_eq!(policy_traffic(&Vec::new()), "");
}

#[test]
fn outcome_messages() {
    assert_eq!(
        PassOutcome::Drifted { created: 2, expected: 3 }.message(),
        "Not all lists are added, 2/3"
    );
    assert_eq!(PassOutcome::UpToDate.message(), "No need to update.");
    assert_eq!(PassOutcome::Converged { created: 12 }.message(), "Done: 12 lists created.");
    assert_eq!(
        PassOutcome::PolicyConflict { found: 2 }.message(),
        "More than one firewall policy found: 2"
    );
    assert!(PassOutcome::UpToDate.is_success());
    assert!(!PassOutcome::Drifted { created: 2, expected: 3 }.is_success());
}
