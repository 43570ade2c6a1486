use anemoi::decisions::{Decision, DecisionAction, DecisionScore, Explanation};
use anemoi::ids::RequestId;
use anemoi::telemetry::{normalize_limit, InMemoryDecisionLog};

fn decision(id: u128, summary: &str) -> Decision {
    Decision {
        id: uuid::Uuid::from_u128(id),
        request_id: RequestId(format!("req-{id}")),
        action: DecisionAction::Deny,
        selected_model: None,
        selected_runtime: None,
        selected_group: None,
        background_model: None,
        score: DecisionScore { total: 0, contributions: Vec::new() },
        explanation: Explanation {
            summary: summary.to_string(),
            reasons: Vec::new(),
            rejected_options: Vec::new(),
        },
        created_at: 0,
    }
}

#[test]
fn normalize_limit_clamps_between_one_and_five_hundred() {
    assert_eq!(normalize_limit(0), 1);
    assert_eq!(normalize_limit(1), 1);
    assert_eq!(normalize_limit(50), 50);
    assert_eq!(normalize_limit(500), 500);
    assert_eq!(normalize_limit(501), 500);
    assert_eq!(normalize_limit(usize::MAX), 500);
}

#[test]
fn recorded_decision_is_found_by_id() {
    let mut log = InMemoryDecisionLog::new();
    assert!(log.get_decision(&uuid::Uuid::from_u128(1)).is_none());
    log.record_decision(decision(1, "first"));
    let found = log.get_decision(&uuid::Uuid::from_u128(1)).expect("recorded");
    assert_eq!(found.explanation.summary, "first");
    assert!(log.get_decision(&uuid::Uuid::from_u128(2)).is_none());
}

#[test]
fn re_recording_replaces_in_place_and_keeps_first_seen_order() {
    let mut log = InMemoryDecisionLog::new();
    log.record_decision(decision(1, "one"));
    log.record_decision(decision(2, "two"));
    log.record_decision(decision(1, "one again"));
    let listed = log.list_decisions();
    assert_eq!(listed.len(), 2);
    assert_eq!(listed[0].id, uuid::Uuid::from_u128(1));
    assert_eq!(listed[0].explanation.summary, "one again");
    assert_eq!(listed[1].id, uuid::Uuid::from_u128(2));
    assert_eq!(
        log.get_decision(&uuid::Uuid::from_u128(1)).expect("one").explanation.summary,
        "one again"
    );
}
