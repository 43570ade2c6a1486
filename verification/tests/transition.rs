use anemoi::ids::{ModelId, ResidencyGroupId, RuntimeId};
use anemoi::policy::transition::{TransitionCoordinator, TransitionPath, TransitionRequest};
fn req(instance: &str, model: &str) -> TransitionRequest {
    TransitionRequest {
        runtime_id: RuntimeId("rt".to_string()),
        residency_group_id: ResidencyGroupId("grp".to_string()),
        desired_model: ModelId(model.to_string()),
        owner_instance: instance.to_string(),
        priority: 5,
        latency_budget_ms: Some(1500),
        interactive: true,
        background: false,
        runtime_available: true,
        hot_compatible_model: None,
    }
}

#[test]
fn same_model_request_joins_existing_transition() {
    let mut coord = TransitionCoordinator::new(10_000);
    let started = coord.request_transition(req("inst-a", "qwen9b"), 0);
    let first_token = match started.path {
        TransitionPath::Started { fencing_token } => fencing_token,
        other => panic!("expected Started, got {other:?}"),
    };

    // A second instance asking for the same model joins instead of starting
    // duplicate work, and reuses the same fencing token.
    let joined = coord.request_transition(req("inst-b", "qwen9b"), 100);
    assert_eq!(
        joined.path,
        TransitionPath::Joined {
            fencing_token: first_token
        }
    );
    // Still exactly one active transition, owned by the first instance.
    assert_eq!(
        coord
            .active_transition(&RuntimeId("rt".to_string()))
            .unwrap()
            .owner_instance,
        "inst-a"
    );
}

#[test]
fn conflicting_models_pick_deterministic_winner() {
    // Lower-priority incoming loses to the higher-priority active owner.
    let mut coord = TransitionCoordinator::new(10_000);
    let mut high = req("inst-a", "qwen9b");
    high.priority = 9;
    coord.request_transition(high, 0);

    let mut low = req("inst-b", "gemma-4-e4b-it");
    low.priority = 1;
    let decision = coord.request_transition(low, 100);
    assert_eq!(
        decision.path,
        TransitionPath::Rejected {
            winner_instance: "inst-a".to_string()
        }
    );
    // The active model/profile is unchanged.
    assert_eq!(
        coord
            .active_transition(&RuntimeId("rt".to_string()))
            .unwrap()
            .desired_model,
        ModelId("qwen9b".to_string())
    );

    // The reverse order yields the same winner: arbitration depends on policy
    // inputs, not arrival order.
    let mut coord2 = TransitionCoordinator::new(10_000);
    let mut low2 = req("inst-b", "gemma-4-e4b-it");
    low2.priority = 1;
    coord2.request_transition(low2, 0);
    let mut high2 = req("inst-a", "qwen9b");
    high2.priority = 9;
    let decision2 = coord2.request_transition(high2, 100);
    match &decision2.path {
        TransitionPath::TookOver { previous_owner, .. } => {
            assert_eq!(previous_owner.as_str(), "inst-b");
        }
        other => {
            panic!("higher-priority request must take over regardless of order, got {other:?}")
        }
    }
    assert_eq!(
        coord2
            .active_transition(&RuntimeId("rt".to_string()))
            .unwrap()
            .desired_model,
        ModelId("qwen9b".to_string())
    );
}

#[test]
fn interactive_collision_falls_back_to_hot_worker() {
    let mut coord = TransitionCoordinator::new(10_000);
    // inst-a is cold-loading a large model.
    coord.request_transition(req("inst-a", "qwen3.5-122b-a10b-mtp"), 0);

    // inst-b wants a different model but is interactive with a hot compatible
    // worker available — continuity serves the hot worker now.
    let mut interactive = req("inst-b", "gemma-4-e4b-it");
    interactive.hot_compatible_model = Some(ModelId("qwen9b".to_string()));
    let decision = coord.request_transition(interactive, 50);
    assert_eq!(
        decision.path,
        TransitionPath::ServedHot {
            model: ModelId("qwen9b".to_string())
        }
    );
    // The in-flight cold-load is left undisturbed.
    assert_eq!(
        coord
            .active_transition(&RuntimeId("rt".to_string()))
            .unwrap()
            .owner_instance,
        "inst-a"
    );
    assert!(!decision.rejected.is_empty());
}

#[test]
fn background_stage_allowed_when_no_active_transition() {
    let mut coord = TransitionCoordinator::new(10_000);
    let mut bg = req("inst-a", "qwen3.6-27b-mtp");
    bg.background = true;
    bg.interactive = false;
    let decision = coord.request_transition(bg, 0);
    assert!(
        matches!(decision.path, TransitionPath::Staged { .. }),
        "background stage with no conflict should be scheduled, got {:?}",
        decision.path
    );
}

#[test]
fn background_stage_blocked_by_active_conflicting_transition() {
    let mut coord = TransitionCoordinator::new(10_000);
    coord.request_transition(req("inst-a", "qwen9b"), 0);

    let mut bg = req("inst-b", "gemma-4-e4b-it");
    bg.background = true;
    bg.interactive = false;
    let decision = coord.request_transition(bg, 100);
    assert_eq!(
        decision.path,
        TransitionPath::Rejected {
            winner_instance: "inst-a".to_string()
        }
    );
    // The active owner's transition is preserved (lease not violated).
    assert_eq!(
        coord
            .active_transition(&RuntimeId("rt".to_string()))
            .unwrap()
            .desired_model,
        ModelId("qwen9b".to_string())
    );
}

#[test]
fn expired_owner_lease_is_taken_over_with_new_fencing_token() {
    let mut coord = TransitionCoordinator::new(1_000);
    let started = coord.request_transition(req("inst-a", "qwen9b"), 0);
    let first_token = match started.path {
        TransitionPath::Started { fencing_token } => fencing_token,
        other => panic!("expected Started, got {other:?}"),
    };

    // After the lease TTL, inst-b takes over; the fencing token advances.
    let decision = coord.request_transition(req("inst-b", "qwen9b"), 1_500);
    match decision.path {
        TransitionPath::TookOver {
            fencing_token,
            previous_owner,
        } => {
            assert_eq!(previous_owner, "inst-a");
            assert!(
                fencing_token > first_token,
                "take-over must advance the fencing token ({fencing_token} > {first_token})"
            );
        }
        other => panic!("expected TookOver, got {other:?}"),
    }
    assert_eq!(
        coord
            .active_transition(&RuntimeId("rt".to_string()))
            .unwrap()
            .owner_instance,
        "inst-b"
    );
}

#[test]
fn stale_owner_cannot_complete_after_takeover() {
    let mut coord = TransitionCoordinator::new(1_000);
    let started = coord.request_transition(req("inst-a", "qwen9b"), 0);
    let stale_token = match started.path {
        TransitionPath::Started { fencing_token } => fencing_token,
        other => panic!("expected Started, got {other:?}"),
    };

    let taken = coord.request_transition(req("inst-b", "qwen9b"), 2_000);
    let new_token = match taken.path {
        TransitionPath::TookOver { fencing_token, .. } => fencing_token,
        other => panic!("expected TookOver, got {other:?}"),
    };

    // The fenced-off first owner cannot complete with its stale token.
    let rt = RuntimeId("rt".to_string());
    assert!(
        !coord.complete(&rt, stale_token),
        "a stale fencing token must not complete the taken-over transition"
    );
    assert!(
        coord.active_transition(&rt).is_some(),
        "the new owner's transition must survive the stale completion attempt"
    );
    // The current owner can complete with the new token.
    assert!(coord.complete(&rt, new_token));
    assert!(coord.active_transition(&rt).is_none());
}

#[test]
fn serving_lease_protects_active_transition_from_preemption() {
    let mut coord = TransitionCoordinator::new(10_000);
    // inst-a holds a low-priority transition but is actively serving.
    let mut low = req("inst-a", "qwen9b");
    low.priority = 1;
    coord.request_transition(low, 0);
    assert!(coord.acquire_serving_lease(&RuntimeId("rt".to_string())));

    // A higher-priority interactive request without a hot fallback would
    // normally win, but the serving lease protects the active transition.
    let mut high = req("inst-b", "gemma-4-e4b-it");
    high.priority = 9;
    let decision = coord.request_transition(high, 100);
    assert_eq!(
        decision.path,
        TransitionPath::Rejected {
            winner_instance: "inst-a".to_string()
        }
    );
}

#[test]
fn unavailable_runtime_request_is_rejected_deterministically() {
    let mut coord = TransitionCoordinator::new(10_000);
    let mut down = req("inst-a", "qwen9b");
    down.runtime_available = false;
    let decision = coord.request_transition(down, 0);
    assert_eq!(decision.path, TransitionPath::RuntimeUnavailable);
    assert!(
        coord
            .active_transition(&RuntimeId("rt".to_string()))
            .is_none(),
        "an unavailable runtime starts no transition"
    );
    assert!(!decision.rejected.is_empty());
}

#[test]
fn every_transition_decision_carries_explanation() {
    let mut coord = TransitionCoordinator::new(1_000);
    // Drive each path and assert all carry a reason and a recognizable code.
    let started = coord.request_transition(req("inst-a", "qwen9b"), 0);
    let joined = coord.request_transition(req("inst-b", "qwen9b"), 10);

    let mut hot = req("inst-c", "gemma-4-e4b-it");
    hot.hot_compatible_model = Some(ModelId("qwen9b".to_string()));
    let served_hot = coord.request_transition(hot, 20);

    let mut bg = req("inst-d", "gemma-4-e4b-it");
    bg.background = true;
    bg.interactive = false;
    let blocked = coord.request_transition(bg, 30);

    let took_over = coord.request_transition(req("inst-e", "minimax-256k"), 5_000);

    let mut down = req("inst-f", "qwen9b");
    down.runtime_available = false;
    let unavailable = coord.request_transition(down, 5_100);

    for decision in [
        &started,
        &joined,
        &served_hot,
        &blocked,
        &took_over,
        &unavailable,
    ] {
        assert!(
            decision.is_explained(),
            "every decision must carry a reason: {:?}",
            decision.path
        );
        assert!(
            decision
                .reasons
                .iter()
                .all(|r| r.code.starts_with("transition.")),
            "reason codes should be namespaced: {:?}",
            decision.reasons
        );
    }

    // Spot-check the paths actually exercised the distinct branches.
    assert!(matches!(started.path, TransitionPath::Started { .. }));
    assert!(matches!(joined.path, TransitionPath::Joined { .. }));
    assert!(matches!(served_hot.path, TransitionPath::ServedHot { .. }));
    assert!(matches!(blocked.path, TransitionPath::Rejected { .. }));
    assert!(matches!(took_over.path, TransitionPath::TookOver { .. }));
    assert_eq!(unavailable.path, TransitionPath::RuntimeUnavailable);
}

fn issued(path: &TransitionPath) -> Option<u64> {
    match path {
        TransitionPath::Started { fencing_token } | TransitionPath::Staged { fencing_token } => Some(*fencing_token),
        TransitionPath::TookOver { fencing_token, .. } => Some(*fencing_token),
        _ => None,
    }
}

#[test]
fn issued_fencing_tokens_increase_over_a_sequence_of_calls() {
    let mut coord = TransitionCoordinator::new(1_000);
    let mut tokens = Vec::new();
    let calls = [("inst-a", "m1", 0u64), ("inst-b", "m1", 10), ("inst-c", "m2", 20), ("inst-b", "m2", 2_000), ("inst-a", "m3", 5_000)];
    for (inst, model, now) in calls {
        let d = coord.request_transition(req(inst, model), now);
        if let Some(t) = issued(&d.path) {
            tokens.push(t);
            assert_eq!(coord.active_transition(&RuntimeId("rt".to_string())).unwrap().fencing_token, t);
        }
    }
    assert!(tokens.len() >= 3);
    assert!(tokens.windows(2).all(|w| w[0] < w[1]), "{tokens:?}");
}

#[test]
fn unavailable_runtime_is_answered_at_any_time() {
    let mut coord = TransitionCoordinator::new(10_000);
    let mut r = req("inst-a", "qwen9b");
    r.runtime_available = false;
    let d = coord.request_transition(r, u64::MAX);
    assert_eq!(d.path, TransitionPath::RuntimeUnavailable);
    assert_eq!(d.reasons.len(), 1);
    assert_eq!(d.rejected.len(), 1);
    assert!(coord.active_transition(&RuntimeId("rt".to_string())).is_none());
}
