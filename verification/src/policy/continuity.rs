//! Continuity staging: keep a hot worker serving now and stage a large cold
//! model in the background, unless the runtime's colocation matrix forbids
//! holding both.

use vstd::prelude::*;
use vstd::string::*;
use crate::config::ContinuityConfig;
use crate::decisions::{DecisionAction, DecisionReason, ScoreContribution, contributions_view, reasons_view};
use crate::types::{InferenceRequest, spec_can_colocate};
use crate::policy::scoring::{ScoredCandidate, ScoredView, spec_class_value, quality_score, fits_i32};
use crate::policy::floors::{spec_satisfies_floor, candidate_satisfies_floor, scored_view};
use crate::text::{decimal, push_u64, str_lt, lex_lt};

verus! {

/// Whether `a` ranks at least as high as `b` for staging: higher quality, or
/// equal quality and a model id that does not order before `b`'s.
pub open spec fn stage_key_ge(a: ScoredView, b: ScoredView) -> bool {
    let qa = spec_class_value(a.candidate.model_profile.parameter_class);
    let qb = spec_class_value(b.candidate.model_profile.parameter_class);
    qa > qb || (qa == qb && !lex_lt(a.candidate.model_id, b.candidate.model_id))
}

/// Whether `c` is an eligible cold load longer than the blank-wait limit.
pub open spec fn is_cold_large(c: ScoredView, floor: Option<(Seq<char>, int)>, max_wait: u64) -> bool {
    spec_satisfies_floor(c, floor) && c.candidate.action == DecisionAction::ColdLoad
        && c.candidate.load_estimate_ms > max_wait
}

/// The highest-ranking eligible large cold load; among equals, the last.
pub open spec fn cold_large_of(s: Seq<ScoredView>, floor: Option<(Seq<char>, int)>, max_wait: u64) -> Option<ScoredView>
    decreases s.len(),
{
    if s.len() == 0 {
        None
    } else {
        let prev = cold_large_of(s.drop_last(), floor, max_wait);
        let x = s.last();
        if is_cold_large(x, floor, max_wait) {
            match prev {
                None => Some(x),
                Some(b) => if stage_key_ge(x, b) { Some(x) } else { Some(b) },
            }
        } else {
            prev
        }
    }
}

/// Whether a candidate is hot or warm (a possible immediate fallback).
pub open spec fn is_hot_or_warm(c: ScoredView) -> bool {
    c.candidate.action == DecisionAction::ReuseHot || c.candidate.action == DecisionAction::PromoteWarm
}

/// The first hot or warm candidate.
pub open spec fn first_hot(s: Seq<ScoredView>) -> Option<ScoredView>
    decreases s.len(),
{
    if s.len() == 0 {
        None
    } else if is_hot_or_warm(s[0]) {
        Some(s[0])
    } else {
        first_hot(s.drop_first())
    }
}

/// The request's latency budget, unbounded when unset.
pub open spec fn budget_of(request: InferenceRequest) -> u64 {
    match request.latency_budget_ms { Some(b) => b, None => u64::MAX }
}

/// Whether policy wants to stage `cold` in the background: background loads
/// are allowed, a degraded response is preferred over silence, and the cold
/// load would overrun the latency budget.
pub open spec fn wants_stage(request: InferenceRequest, cont: ContinuityConfig, cold: ScoredView) -> bool {
    cont.background_load && cont.prefer_degraded_response_over_silence
        && budget_of(request) < cold.candidate.load_estimate_ms
}

/// Whether `fallback` and `cold` may be resident together: they target
/// different runtimes, the fallback's runtime has no matrix, or its matrix
/// admits the pair.
pub open spec fn colocation_admits(fallback: ScoredView, cold: ScoredView) -> bool {
    cold.candidate.runtime_id != fallback.candidate.runtime_id
        || match fallback.candidate.colocation {
            None => true,
            Some(l) => spec_can_colocate(l, fallback.candidate.model_id, cold.candidate.model_id),
        }
}

/// The reason recorded when staging.
pub open spec fn stage_detail(request: InferenceRequest, fallback: ScoredView, cold: ScoredView) -> Seq<char> {
    "selected hot "@ + fallback.candidate.model_id + " now and staged "@ + cold.candidate.model_id
        + " because cold load estimate "@ + decimal(cold.candidate.load_estimate_ms as nat)
        + "ms exceeded latency budget "@ + decimal(budget_of(request) as nat)
        + "ms and continuity policy prefers degraded response over silence"@
}

/// The reason recorded when the staged fallback is below the floor.
pub open spec fn degraded_detail(label: Seq<char>, fallback: ScoredView, cold: ScoredView) -> Seq<char> {
    "request required at least "@ + label + "; selected hot "@ + fallback.candidate.model_id + " ("@
        + fallback.candidate.model_profile.parameter_class + ") only as an immediate fallback while staging qualifying "@
        + cold.candidate.model_id + " ("@ + cold.candidate.model_profile.parameter_class + ")"@
}

/// The reason recorded when the colocation matrix blocks staging.
pub open spec fn blocked_detail(fallback: ScoredView, cold: ScoredView, best: ScoredView) -> Seq<char> {
    "did not stage "@ + cold.candidate.model_id + " alongside "@ + fallback.candidate.model_id
        + " for background load because the "@ + fallback.candidate.runtime_id
        + " colocation matrix does not admit them as co-resident; serving "@ + best.candidate.model_id
        + " alone preserves the hot worker"@
}

/// The fallback turned into a background-staging decision.
pub open spec fn staged_view(request: InferenceRequest, fallback: ScoredView, cold: ScoredView, floor: Option<(Seq<char>, int)>) -> ScoredView {
    let s = ScoredView {
        action: DecisionAction::StageBackground,
        background_model: Some(cold.candidate.model_id),
        reasons: fallback.reasons.push(("continuity.stage_background"@, stage_detail(request, fallback, cold), 50i32)),
        contributions: fallback.contributions.push(("continuity background staging"@, 50i32)),
        total: (fallback.total + 50) as i32,
        ..fallback
    };
    match floor {
        Some((label, minimum)) => if spec_class_value(fallback.candidate.model_profile.parameter_class) < minimum {
            ScoredView {
                reasons: s.reasons.push(("quality_floor.degraded_fallback"@, degraded_detail(label, fallback, cold), -25i32)),
                contributions: s.contributions.push(("quality floor degraded fallback"@, -25i32)),
                total: (s.total - 25) as i32,
                ..s
            }
        } else {
            s
        },
        None => s,
    }
}

/// The candidate selected after continuity staging: the first hot or warm
/// candidate staged alongside the best large cold load when policy wants
/// staging and colocation admits it; `best` with a recorded explanation when
/// colocation blocks it; otherwise `best` unchanged.
pub open spec fn spec_continuity(
    request: InferenceRequest,
    candidates: Seq<ScoredView>,
    best: ScoredView,
    cont: ContinuityConfig,
    floor: Option<(Seq<char>, int)>,
) -> ScoredView {
    match (cold_large_of(candidates, floor, cont.max_blank_wait_ms), first_hot(candidates)) {
        (Some(cold), Some(fb)) => if wants_stage(request, cont, cold) && colocation_admits(fb, cold) {
            staged_view(request, fb, cold, floor)
        } else if wants_stage(request, cont, cold) {
            ScoredView {
                reasons: best.reasons.push(("continuity.stage_blocked_colocation"@, blocked_detail(fb, cold, best), 0i32)),
                ..best
            }
        } else {
            best
        },
        _ => best,
    }
}

/// Whether the staging arithmetic stays within `i32`.
pub open spec fn continuity_fits(
    request: InferenceRequest,
    candidates: Seq<ScoredView>,
    cont: ContinuityConfig,
    floor: Option<(Seq<char>, int)>,
) -> bool {
    match (cold_large_of(candidates, floor, cont.max_blank_wait_ms), first_hot(candidates)) {
        (Some(cold), Some(fb)) => wants_stage(request, cont, cold) && colocation_admits(fb, cold)
            ==> fits_i32(fb.total + 50),
        _ => true,
    }
}

fn key_ge(a: &ScoredCandidate, b: &ScoredCandidate) -> (r: bool)
    ensures
        r == stage_key_ge(a@, b@),
{
    let qa = quality_score(&a.candidate.model_profile);
    let qb = quality_score(&b.candidate.model_profile);
    qa > qb || (qa == qb && !str_lt(a.candidate.model_id.as_str(), b.candidate.model_id.as_str()))
}

fn find_cold_large(candidates: &Vec<ScoredCandidate>, floor: Option<&(String, i32)>, max_wait: u64) -> (r: Option<usize>)
    ensures
        match r {
            Some(i) => i < candidates@.len() && cold_large_of(scored_view(candidates@),
                match floor { Some(f) => Some((f.0@, f.1 as int)), None => None }, max_wait) == Some(candidates@[i as int]@),
            None => cold_large_of(scored_view(candidates@),
                match floor { Some(f) => Some((f.0@, f.1 as int)), None => None }, max_wait) is None,
        },
{
    let ghost fl = match floor { Some(f) => Some((f.0@, f.1 as int)), None => None };
    let mut best: Option<usize> = None;
    let mut i: usize = 0;
    while i < candidates.len()
        invariant
            0 <= i <= candidates@.len(),
            fl == match floor { Some(f) => Some((f.0@, f.1 as int)), None => None::<(Seq<char>, int)> },
            match best {
                Some(b) => b < i && cold_large_of(scored_view(candidates@).take(i as int), fl, max_wait) == Some(candidates@[b as int]@),
                None => cold_large_of(scored_view(candidates@).take(i as int), fl, max_wait) is None,
            },
        decreases candidates@.len() - i,
    {
        let c = &candidates[i];
        assert(scored_view(candidates@).take(i as int + 1).drop_last() =~= scored_view(candidates@).take(i as int));
        assert(scored_view(candidates@).take(i as int + 1).last() == c@);
        if candidate_satisfies_floor(c, floor) && c.candidate.action == DecisionAction::ColdLoad
            && c.candidate.load_estimate_ms > max_wait {
            best = match best {
                None => Some(i),
                Some(b) => if key_ge(c, &candidates[b]) { Some(i) } else { Some(b) },
            };
        }
        i = i + 1;
    }
    assert(scored_view(candidates@).take(candidates@.len() as int) =~= scored_view(candidates@));
    best
}

fn find_first_hot(candidates: &Vec<ScoredCandidate>) -> (r: Option<usize>)
    ensures
        match r {
            Some(i) => i < candidates@.len() && first_hot(scored_view(candidates@)) == Some(candidates@[i as int]@),
            None => first_hot(scored_view(candidates@)) is None,
        },
{
    let mut i: usize = 0;
    assert(scored_view(candidates@).skip(0) =~= scored_view(candidates@));
    while i < candidates.len()
        invariant
            0 <= i <= candidates@.len(),
            first_hot(scored_view(candidates@)) == first_hot(scored_view(candidates@).skip(i as int)),
        decreases candidates@.len() - i,
    {
        assert(scored_view(candidates@).skip(i as int).drop_first() =~= scored_view(candidates@).skip(i as int + 1));
        assert(scored_view(candidates@).skip(i as int)[0] == candidates@[i as int]@);
        let a = candidates[i].candidate.action;
        if a == DecisionAction::ReuseHot || a == DecisionAction::PromoteWarm {
            return Some(i);
        }
        i = i + 1;
    }
    None
}

/// Applies continuity staging to `best` (see [`spec_continuity`]).
pub fn apply_continuity_staging(
    request: &InferenceRequest,
    candidates: &Vec<ScoredCandidate>,
    best: ScoredCandidate,
    continuity: &ContinuityConfig,
    floor: Option<&(String, i32)>,
) -> (r: ScoredCandidate)
    requires
        continuity_fits(*request, scored_view(candidates@), *continuity,
            match floor { Some(f) => Some((f.0@, f.1 as int)), None => None }),
    ensures
        r@ == spec_continuity(*request, scored_view(candidates@), best@, *continuity,
            match floor { Some(f) => Some((f.0@, f.1 as int)), None => None }),
{
    let cold_i = find_cold_large(candidates, floor, continuity.max_blank_wait_ms);
    let hot_i = find_first_hot(candidates);
    let (ci, fi) = match (cold_i, hot_i) {
        (Some(c), Some(f)) => (c, f),
        _ => return best,
    };
    let cold = &candidates[ci];
    let fallback = &candidates[fi];
    let budget = match request.latency_budget_ms { Some(b) => b, None => u64::MAX };
    let wants = continuity.background_load && continuity.prefer_degraded_response_over_silence
        && budget < cold.candidate.load_estimate_ms;
    let admits = !cold.candidate.runtime_id.same(&fallback.candidate.runtime_id)
        || match &fallback.candidate.colocation {
            None => true,
            Some(constraints) => constraints.can_colocate(&fallback.candidate.model_id, &cold.candidate.model_id),
        };
    proof {
        if cold@.candidate.runtime_id != fallback@.candidate.runtime_id {
            assert(cold.candidate.runtime_id@ != fallback.candidate.runtime_id@);
        }
    }
    if wants && admits {
        let mut staged = fallback.clone();
        staged.action = DecisionAction::StageBackground;
        staged.background_model = Some(cold.candidate.model_id.clone());
        let mut d = String::from_str("selected hot ");
        d.append(fallback.candidate.model_id.as_str());
        d.append(" now and staged ");
        d.append(cold.candidate.model_id.as_str());
        d.append(" because cold load estimate ");
        push_u64(&mut d, cold.candidate.load_estimate_ms);
        d.append("ms exceeded latency budget ");
        push_u64(&mut d, budget);
        d.append("ms and continuity policy prefers degraded response over silence");
        let r1 = DecisionReason { code: String::from_str("continuity.stage_background"), detail: d, impact: 50 };
        let c1 = ScoreContribution { label: String::from_str("continuity background staging"), value: 50 };
        let ghost r0 = staged.reasons@;
        let ghost c0 = staged.score.contributions@;
        staged.reasons.push(r1);
        staged.score.contributions.push(c1);
        staged.score.total = staged.score.total + 50;
        assert(reasons_view(r0.push(r1)) =~= reasons_view(r0).push(r1@));
        assert(contributions_view(c0.push(c1)) =~= contributions_view(c0).push(c1@));
        if let Some(f) = floor {
            let fallback_class = quality_score(&staged.candidate.model_profile);
            if fallback_class < f.1 {
                let mut d = String::from_str("request required at least ");
                d.append(f.0.as_str());
                d.append("; selected hot ");
                d.append(staged.candidate.model_id.as_str());
                d.append(" (");
                d.append(staged.candidate.model_profile.parameter_class.as_str());
                d.append(") only as an immediate fallback while staging qualifying ");
                d.append(cold.candidate.model_id.as_str());
                d.append(" (");
                d.append(cold.candidate.model_profile.parameter_class.as_str());
                d.append(")");
                let r2 = DecisionReason { code: String::from_str("quality_floor.degraded_fallback"), detail: d, impact: -25 };
                let c2 = ScoreContribution { label: String::from_str("quality floor degraded fallback"), value: -25 };
                let ghost r0 = staged.reasons@;
                let ghost c0 = staged.score.contributions@;
                staged.reasons.push(r2);
                staged.score.contributions.push(c2);
                staged.score.total = staged.score.total - 25;
                assert(reasons_view(r0.push(r2)) =~= reasons_view(r0).push(r2@));
                assert(contributions_view(c0.push(c2)) =~= contributions_view(c0).push(c2@));
            }
        }
        staged
    } else {
        let mut best = best;
        if wants {
            let mut d = String::from_str("did not stage ");
            d.append(cold.candidate.model_id.as_str());
            d.append(" alongside ");
            d.append(fallback.candidate.model_id.as_str());
            d.append(" for background load because the ");
            d.append(fallback.candidate.runtime_id.as_str());
            d.append(" colocation matrix does not admit them as co-resident; serving ");
            d.append(best.candidate.model_id.as_str());
            d.append(" alone preserves the hot worker");
            let r1 = DecisionReason { code: String::from_str("continuity.stage_blocked_colocation"), detail: d, impact: 0 };
            let ghost r0 = best.reasons@;
            best.reasons.push(r1);
            assert(reasons_view(r0.push(r1)) =~= reasons_view(r0).push(r1@));
        }
        best
    }
}

} // verus!
