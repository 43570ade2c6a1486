//! The scheduler: candidate generation and the decision for a request.

use vstd::prelude::*;
use vstd::string::*;
use crate::ids::{ModelId, RuntimeId, ResidencyGroupId, DomainId};
use crate::types::{InferenceRequest, RuntimeSnapshot, ModelProfileView, model_ids_view, ResidencyState};
use crate::decisions::{
    Decision, DecisionAction, DecisionReason, DecisionScore, Explanation, RejectedOption,
    rejected_view, reasons_view, contributions_view, DecisionStamp,
};
use crate::config::{
    AnemoiConfig, DomainConfig, find_entry, lookup, profile_of, ModelProfileConfig, IdKey,
};
use crate::policy::candidates::{
    Candidate, CandidateSet, CandidateView, candidates_view, generate_candidate, spec_candidate,
};
use crate::policy::profile_utils::{synthesize_profile, spec_synthesized_profile};
use crate::policy::scoring::{
    ScoredCandidate, ScoredView, PressureReason, score_candidate, spec_scored, score_fits,
    pressure_view, quality_floor_value, spec_floor, context_window_rejection,
    spec_context_rejection,
};
use crate::policy::floors::{
    spec_satisfies_floor, candidate_satisfies_floor, scored_view, quality_floor_rejections,
    spec_floor_rejections, combine_rejected,
};
use crate::policy::continuity::{apply_continuity_staging, spec_continuity, continuity_fits};
use crate::policy::candidates::{deny_view, deny_decision};
use crate::policy::ranking::{
    sort_desc, first_eligible, insert_sorted, find_first_eligible, lemma_sort_members,
    lemma_first_eligible_member,
};
use crate::policy::scoring::{selection_view, contribution_total, law_score_total_is_sum_of_contributions, spec_class_value, fits_i32};
use crate::policy::continuity::{first_hot, is_hot_or_warm, cold_large_of, wants_stage, colocation_admits, staged_view};
use crate::policy::ranking::{law_best_is_highest_eligible, law_tie_goes_to_first_generated, has_total};
use crate::decisions::DecisionView;

verus! {

/// Why a request cannot be scheduled at all.
#[derive(Debug, PartialEq, Eq)]
pub enum PolicyError {
    /// The request names a domain the configuration does not define.
    UnknownDomain(DomainId),
    /// The domain has neither rosters nor a live roster.
    EmptyRoster(DomainId),
    /// The domain's live roster names a runtime with no snapshot.
    LiveRosterRuntimeMissing(DomainId, RuntimeId),
}

/// A rejected option as (model, runtime, reason).
pub type RejView = (Option<Seq<char>>, Option<Seq<char>>, Seq<char>);

/// The first snapshot of `runtime` that is available.
pub open spec fn find_available(snaps: Seq<RuntimeSnapshot>, runtime: Seq<char>) -> Option<RuntimeSnapshot>
    decreases snaps.len(),
{
    if snaps.len() == 0 {
        None
    } else if snaps[0].runtime_id@ == runtime && snaps[0].available {
        Some(snaps[0])
    } else {
        find_available(snaps.drop_first(), runtime)
    }
}

/// The first snapshot of `runtime`, available or not.
pub open spec fn find_snapshot(snaps: Seq<RuntimeSnapshot>, runtime: Seq<char>) -> Option<RuntimeSnapshot>
    decreases snaps.len(),
{
    if snaps.len() == 0 {
        None
    } else if snaps[0].runtime_id@ == runtime {
        Some(snaps[0])
    } else {
        find_snapshot(snaps.drop_first(), runtime)
    }
}

/// The candidates of a profile: one per supported runtime (in order) that
/// has an available snapshot.
pub open spec fn runtime_cands(
    group_id: Seq<char>,
    keep_hot: bool,
    profile: ModelProfileView,
    runtimes: Seq<Seq<char>>,
    snaps: Seq<RuntimeSnapshot>,
) -> Seq<CandidateView>
    decreases runtimes.len(),
{
    if runtimes.len() == 0 {
        Seq::empty()
    } else {
        let prev = runtime_cands(group_id, keep_hot, profile, runtimes.drop_last(), snaps);
        match find_available(snaps, runtimes.last()) {
            Some(s) => prev.push(spec_candidate(group_id, keep_hot, profile, runtimes.last(), s)),
            None => prev,
        }
    }
}

/// What one roster model contributes: its candidates, or why it was
/// rejected (no profile, context window too small, or no available runtime).
pub open spec fn model_out(
    config: AnemoiConfig,
    request: InferenceRequest,
    snaps: Seq<RuntimeSnapshot>,
    group_id: Seq<char>,
    keep_hot: bool,
    m: Seq<char>,
) -> (Seq<CandidateView>, Seq<RejView>) {
    match lookup(config.models@, m) {
        None => (Seq::empty(), seq![(Some(m), None, "model is referenced by a residency group but has no profile"@)]),
        Some(pc) => {
            let p = profile_of(pc@, m);
            match spec_context_rejection(request, p) {
                Some(reason) => (Seq::empty(), seq![(Some(m), None, reason)]),
                None => {
                    let cs = runtime_cands(group_id, keep_hot, p, p.supported_runtimes, snaps);
                    if cs.len() == 0 {
                        (Seq::empty(), seq![(Some(m), None, "no supported runtime is currently available"@)])
                    } else {
                        (cs, Seq::empty())
                    }
                },
            }
        },
    }
}

/// The output of a group's models, in order.
pub open spec fn group_out(
    config: AnemoiConfig,
    request: InferenceRequest,
    snaps: Seq<RuntimeSnapshot>,
    group_id: Seq<char>,
    keep_hot: bool,
    models: Seq<Seq<char>>,
) -> (Seq<CandidateView>, Seq<RejView>)
    decreases models.len(),
{
    if models.len() == 0 {
        (Seq::empty(), Seq::empty())
    } else {
        let prev = group_out(config, request, snaps, group_id, keep_hot, models.drop_last());
        let cur = model_out(config, request, snaps, group_id, keep_hot, models.last());
        (prev.0 + cur.0, prev.1 + cur.1)
    }
}

/// The output of a domain's rosters, in order; unknown group ids add nothing.
pub open spec fn rosters_out(
    config: AnemoiConfig,
    request: InferenceRequest,
    snaps: Seq<RuntimeSnapshot>,
    rosters: Seq<Seq<char>>,
) -> (Seq<CandidateView>, Seq<RejView>)
    decreases rosters.len(),
{
    if rosters.len() == 0 {
        (Seq::empty(), Seq::empty())
    } else {
        let prev = rosters_out(config, request, snaps, rosters.drop_last());
        match lookup(config.residency_groups@, rosters.last()) {
            Some(g) => {
                let cur = group_out(config, request, snaps, rosters.last(), g.keep_hot, model_ids_view(g.models@));
                (prev.0 + cur.0, prev.1 + cur.1)
            },
            None => prev,
        }
    }
}

/// The candidates of a live roster: every configured model of the runtime,
/// with a synthesised profile, unless its context window is too small.
pub open spec fn live_cands(
    request: InferenceRequest,
    snap: RuntimeSnapshot,
    live: Seq<char>,
    models: Seq<Seq<char>>,
) -> Seq<CandidateView>
    decreases models.len(),
{
    if models.len() == 0 {
        Seq::empty()
    } else {
        let prev = live_cands(request, snap, live, models.drop_last());
        let p = spec_synthesized_profile(models.last(), live);
        if spec_context_rejection(request, p) is Some {
            prev
        } else {
            prev.push(spec_candidate("live"@, false, p, live, snap))
        }
    }
}

/// The candidates and rejected options generated for `request`, or why none
/// can be: an unknown domain, a domain without rosters, or a live roster
/// whose runtime has no snapshot.
pub open spec fn spec_generate(
    config: AnemoiConfig,
    request: InferenceRequest,
    snaps: Seq<RuntimeSnapshot>,
) -> Result<(Seq<CandidateView>, Seq<RejView>), PolicyError> {
    match lookup(config.domains@, request.domain@) {
        None => Err(PolicyError::UnknownDomain(request.domain)),
        Some(domain) => match domain.live_roster {
            Some(live) => match find_snapshot(snaps, live@) {
                None => Err(PolicyError::LiveRosterRuntimeMissing(request.domain, live)),
                Some(s) => if !s.available {
                    Ok((Seq::empty(), seq![(None, Some(live@), "live_roster runtime "@ + live@ + " is not available"@)]))
                } else {
                    Ok((live_cands(request, s, live@, model_ids_view(s.configured_models@)), Seq::empty()))
                },
            },
            None => if domain.rosters@.len() == 0 {
                Err(PolicyError::EmptyRoster(request.domain))
            } else {
                Ok(rosters_out(config, request, snaps, crate::types::group_ids_view(domain.rosters@)))
            },
        },
    }
}

/// The scheduler, built over a configuration.
#[derive(Debug)]
pub struct Scheduler {
    config: AnemoiConfig,
}

fn find_available_index(snaps: &[RuntimeSnapshot], runtime: &RuntimeId) -> (r: Option<usize>)
    ensures
        match r {
            Some(i) => i < snaps@.len() && find_available(snaps@, runtime@) == Some(snaps@[i as int]),
            None => find_available(snaps@, runtime@) is None,
        },
{
    let mut i: usize = 0;
    assert(snaps@.skip(0) =~= snaps@);
    while i < snaps.len()
        invariant
            0 <= i <= snaps@.len(),
            find_available(snaps@, runtime@) == find_available(snaps@.skip(i as int), runtime@),
        decreases snaps@.len() - i,
    {
        assert(snaps@.skip(i as int).drop_first() =~= snaps@.skip(i as int + 1));
        assert(snaps@.skip(i as int)[0] == snaps@[i as int]);
        if snaps[i].runtime_id.same(runtime) && snaps[i].available {
            return Some(i);
        }
        i = i + 1;
    }
    None
}

fn find_snapshot_index(snaps: &[RuntimeSnapshot], runtime: &RuntimeId) -> (r: Option<usize>)
    ensures
        match r {
            Some(i) => i < snaps@.len() && find_snapshot(snaps@, runtime@) == Some(snaps@[i as int]),
            None => find_snapshot(snaps@, runtime@) is None,
        },
{
    let mut i: usize = 0;
    assert(snaps@.skip(0) =~= snaps@);
    while i < snaps.len()
        invariant
            0 <= i <= snaps@.len(),
            find_snapshot(snaps@, runtime@) == find_snapshot(snaps@.skip(i as int), runtime@),
        decreases snaps@.len() - i,
    {
        assert(snaps@.skip(i as int).drop_first() =~= snaps@.skip(i as int + 1));
        assert(snaps@.skip(i as int)[0] == snaps@[i as int]);
        if snaps[i].runtime_id.same(runtime) {
            return Some(i);
        }
        i = i + 1;
    }
    None
}

fn runtime_candidates(
    group_id: &ResidencyGroupId,
    keep_hot: bool,
    profile: &crate::types::ModelProfile,
    snaps: &[RuntimeSnapshot],
) -> (r: Vec<Candidate>)
    ensures
        candidates_view(r@) == runtime_cands(group_id@, keep_hot, profile@, profile@.supported_runtimes, snaps@),
{
    let mut out: Vec<Candidate> = Vec::new();
    let mut i: usize = 0;
    let ghost rts = profile@.supported_runtimes;
    while i < profile.supported_runtimes.len()
        invariant
            0 <= i <= profile.supported_runtimes@.len(),
            rts == profile@.supported_runtimes,
            rts.len() == profile.supported_runtimes@.len(),
            candidates_view(out@) == runtime_cands(group_id@, keep_hot, profile@, rts.take(i as int), snaps@),
        decreases profile.supported_runtimes@.len() - i,
    {
        let rid = &profile.supported_runtimes[i];
        assert(rts.take(i as int + 1).drop_last() =~= rts.take(i as int));
        assert(rts.take(i as int + 1).last() == rid@);
        match find_available_index(snaps, rid) {
            Some(k) => {
                let c = generate_candidate(group_id, keep_hot, profile, rid, &snaps[k]);
                let ghost before = out@;
                out.push(c);
                assert(candidates_view(out@) =~= candidates_view(before).push(c@));
            },
            None => {},
        }
        i = i + 1;
    }
    assert(rts.take(rts.len() as int) =~= rts);
    out
}

impl Scheduler {
    /// The configuration the scheduler was built over.
    pub closed spec fn spec_config(&self) -> AnemoiConfig {
        self.config
    }

    /// A scheduler over `config`.
    pub fn new(config: AnemoiConfig) -> (r: Scheduler)
        ensures
            r.spec_config() == config,
    {
        Scheduler { config }
    }

    fn model_candidates(
        &self,
        request: &InferenceRequest,
        snaps: &[RuntimeSnapshot],
        group_id: &ResidencyGroupId,
        keep_hot: bool,
        model_id: &ModelId,
    ) -> (r: (Vec<Candidate>, Vec<RejectedOption>))
        ensures
            candidates_view(r.0@) == model_out(self.config, *request, snaps@, group_id@, keep_hot, model_id@).0,
            rejected_view(r.1@) == model_out(self.config, *request, snaps@, group_id@, keep_hot, model_id@).1,
    {
        let idx = find_entry(&self.config.models, model_id.key());
        let k = match idx {
            None => {
                let o = RejectedOption {
                    model_id: Some(model_id.clone()),
                    runtime_id: None,
                    reason: String::from_str("model is referenced by a residency group but has no profile"),
                };
                let rej = vec![o];
                assert(rejected_view(rej@) =~= seq![o@]);
                let none: Vec<Candidate> = Vec::new();
                assert(candidates_view(none@) =~= Seq::<CandidateView>::empty());
                return (none, rej);
            },
            Some(k) => k,
        };
        let entry = &self.config.models[k];
        let profile = entry.1.clone().into_profile(entry.0.clone());
        assert(profile@ == profile_of(entry.1@, model_id@));
        match context_window_rejection(request, &profile) {
            Some(reason) => {
                let o = RejectedOption { model_id: Some(model_id.clone()), runtime_id: None, reason };
                let rej = vec![o];
                assert(rejected_view(rej@) =~= seq![o@]);
                let none: Vec<Candidate> = Vec::new();
                assert(candidates_view(none@) =~= Seq::<CandidateView>::empty());
                return (none, rej);
            },
            None => {},
        }
        let cs = runtime_candidates(group_id, keep_hot, &profile, snaps);
        if cs.len() == 0 {
            let o = RejectedOption {
                model_id: Some(model_id.clone()),
                runtime_id: None,
                reason: String::from_str("no supported runtime is currently available"),
            };
            let rej = vec![o];
            assert(rejected_view(rej@) =~= seq![o@]);
            let none: Vec<Candidate> = Vec::new();
            assert(candidates_view(none@) =~= Seq::<CandidateView>::empty());
            (none, rej)
        } else {
            let none: Vec<RejectedOption> = Vec::new();
            assert(rejected_view(none@) =~= Seq::<RejView>::empty());
            (cs, none)
        }
    }

    fn group_candidates(
        &self,
        request: &InferenceRequest,
        snaps: &[RuntimeSnapshot],
        group_id: &ResidencyGroupId,
        keep_hot: bool,
        models: &Vec<ModelId>,
        cands: &mut Vec<Candidate>,
        rej: &mut Vec<RejectedOption>,
    )
        ensures
            candidates_view(final(cands)@) == candidates_view(old(cands)@)
                + group_out(self.config, *request, snaps@, group_id@, keep_hot, model_ids_view(models@)).0,
            rejected_view(final(rej)@) == rejected_view(old(rej)@)
                + group_out(self.config, *request, snaps@, group_id@, keep_hot, model_ids_view(models@)).1,
    {
        let ghost c0 = candidates_view(cands@);
        let ghost r0 = rejected_view(rej@);
        let ghost ms = model_ids_view(models@);
        let mut i: usize = 0;
        while i < models.len()
            invariant
                0 <= i <= models@.len(),
                ms == model_ids_view(models@),
                candidates_view(cands@) == c0 + group_out(self.config, *request, snaps@, group_id@, keep_hot, ms.take(i as int)).0,
                rejected_view(rej@) == r0 + group_out(self.config, *request, snaps@, group_id@, keep_hot, ms.take(i as int)).1,
            decreases models@.len() - i,
        {
            assert(ms.take(i as int + 1).drop_last() =~= ms.take(i as int));
            assert(ms.take(i as int + 1).last() == models@[i as int]@);
            let (mut cs, mut rs) = self.model_candidates(request, snaps, group_id, keep_hot, &models[i]);
            let ghost cb = cands@;
            let ghost rb = rej@;
            let ghost csv = cs@;
            let ghost rsv = rs@;
            cands.append(&mut cs);
            rej.append(&mut rs);
            assert(candidates_view(cands@) =~= candidates_view(cb) + candidates_view(csv));
            assert(rejected_view(rej@) =~= rejected_view(rb) + rejected_view(rsv));
            i = i + 1;
        }
        assert(ms.take(models@.len() as int) =~= ms);
    }

    fn static_candidates(
        &self,
        request: &InferenceRequest,
        snaps: &[RuntimeSnapshot],
        rosters: &Vec<ResidencyGroupId>,
    ) -> (r: CandidateSet)
        ensures
            candidates_view(r.candidates@) == rosters_out(self.config, *request, snaps@, crate::types::group_ids_view(rosters@)).0,
            rejected_view(r.rejected_options@) == rosters_out(self.config, *request, snaps@, crate::types::group_ids_view(rosters@)).1,
    {
        let ghost rs = crate::types::group_ids_view(rosters@);
        let mut cands: Vec<Candidate> = Vec::new();
        let mut rej: Vec<RejectedOption> = Vec::new();
        assert(candidates_view(cands@) =~= Seq::<CandidateView>::empty());
        assert(rejected_view(rej@) =~= Seq::<RejView>::empty());
        let mut i: usize = 0;
        while i < rosters.len()
            invariant
                0 <= i <= rosters@.len(),
                rs == crate::types::group_ids_view(rosters@),
                candidates_view(cands@) == rosters_out(self.config, *request, snaps@, rs.take(i as int)).0,
                rejected_view(rej@) == rosters_out(self.config, *request, snaps@, rs.take(i as int)).1,
            decreases rosters@.len() - i,
        {
            assert(rs.take(i as int + 1).drop_last() =~= rs.take(i as int));
            assert(rs.take(i as int + 1).last() == rosters@[i as int]@);
            let gid = &rosters[i];
            match find_entry(&self.config.residency_groups, gid.key()) {
                Some(k) => {
                    let g = &self.config.residency_groups[k].1;
                    self.group_candidates(request, snaps, gid, g.keep_hot, &g.models, &mut cands, &mut rej);
                },
                None => {},
            }
            i = i + 1;
        }
        assert(rs.take(rosters@.len() as int) =~= rs);
        CandidateSet { candidates: cands, rejected_options: rej }
    }

    fn live_candidates(
        request: &InferenceRequest,
        snap: &RuntimeSnapshot,
        live: &RuntimeId,
    ) -> (r: Vec<Candidate>)
        ensures
            candidates_view(r@) == live_cands(*request, *snap, live@, model_ids_view(snap.configured_models@)),
    {
        let ghost ms = model_ids_view(snap.configured_models@);
        let live_group = ResidencyGroupId(String::from_str("live"));
        let mut out: Vec<Candidate> = Vec::new();
        let mut i: usize = 0;
        while i < snap.configured_models.len()
            invariant
                0 <= i <= snap.configured_models@.len(),
                ms == model_ids_view(snap.configured_models@),
                live_group@ == "live"@,
                candidates_view(out@) == live_cands(*request, *snap, live@, ms.take(i as int)),
            decreases snap.configured_models@.len() - i,
        {
            assert(ms.take(i as int + 1).drop_last() =~= ms.take(i as int));
            assert(ms.take(i as int + 1).last() == snap.configured_models@[i as int]@);
            let profile = synthesize_profile(&snap.configured_models[i], live);
            if context_window_rejection(request, &profile).is_none() {
                let c = generate_candidate(&live_group, false, &profile, live, snap);
                let ghost before = out@;
                out.push(c);
                assert(candidates_view(out@) =~= candidates_view(before).push(c@));
            }
            i = i + 1;
        }
        assert(ms.take(snap.configured_models@.len() as int) =~= ms);
        out
    }

    /// The candidates for `request` and the options rejected on the way (see
    /// [`spec_generate`]).
    pub fn generate_candidates(&self, request: &InferenceRequest, snapshots: &[RuntimeSnapshot]) -> (r: Result<CandidateSet, PolicyError>)
        ensures
            match spec_generate(self.spec_config(), *request, snapshots@) {
                Ok((cs, rs)) => r is Ok && candidates_view(r->Ok_0.candidates@) == cs
                    && rejected_view(r->Ok_0.rejected_options@) == rs,
                Err(e) => r == Err::<CandidateSet, PolicyError>(e),
            },
    {
        let di = match find_entry(&self.config.domains, request.domain.key()) {
            None => return Err(PolicyError::UnknownDomain(request.domain.clone())),
            Some(di) => di,
        };
        let domain = &self.config.domains[di].1;
        if let Some(live) = &domain.live_roster {
            let si = match find_snapshot_index(snapshots, live) {
                None => return Err(PolicyError::LiveRosterRuntimeMissing(request.domain.clone(), live.clone())),
                Some(si) => si,
            };
            let snap = &snapshots[si];
            if !snap.available {
                let mut reason = String::from_str("live_roster runtime ");
                reason.append(live.as_str());
                reason.append(" is not available");
                let o = RejectedOption { model_id: None, runtime_id: Some(live.clone()), reason };
                let rej = vec![o];
                assert(rejected_view(rej@) =~= seq![o@]);
                let none: Vec<Candidate> = Vec::new();
                assert(candidates_view(none@) =~= Seq::<CandidateView>::empty());
                return Ok(CandidateSet { candidates: none, rejected_options: rej });
            }
            let cands = Self::live_candidates(request, snap, live);
            let none: Vec<RejectedOption> = Vec::new();
            assert(rejected_view(none@) =~= Seq::<RejView>::empty());
            return Ok(CandidateSet { candidates: cands, rejected_options: none });
        }
        if domain.rosters.len() == 0 {
            return Err(PolicyError::EmptyRoster(request.domain.clone()));
        }
        Ok(self.static_candidates(request, snapshots, &domain.rosters))
    }
}

// ---------------------------------------------------------------------------
// Ranking and the decision.

/// The pressure reasons assessed for candidate `i`: the `i`-th assessment,
/// or none where there is no such entry.
pub open spec fn pressure_at(pressure: Seq<Vec<PressureReason>>, i: int) -> Seq<(Seq<char>, i32, Seq<char>)> {
    if 0 <= i < pressure.len() {
        pressure_view(pressure[i]@)
    } else {
        Seq::empty()
    }
}

/// The candidates scored, in generation order.
pub open spec fn scored_all(
    request: InferenceRequest,
    cands: Seq<CandidateView>,
    keep_small_worker_hot: bool,
    pressure: Seq<Vec<PressureReason>>,
) -> Seq<ScoredView> {
    Seq::new(cands.len(), |i: int| spec_scored(request, cands[i], keep_small_worker_hot, pressure_at(pressure, i)))
}

/// Whether every candidate can be scored within `i32` arithmetic.
pub open spec fn scores_fit(
    request: InferenceRequest,
    cands: Seq<CandidateView>,
    keep_small_worker_hot: bool,
    pressure: Seq<Vec<PressureReason>>,
) -> bool {
    forall|i: int| 0 <= i < cands.len() ==> score_fits(request, #[trigger] cands[i], keep_small_worker_hot, pressure_at(pressure, i))
}

/// The ranked candidates of a request: scored and sorted by descending total.
pub open spec fn ranked(
    config: AnemoiConfig,
    request: InferenceRequest,
    cands: Seq<CandidateView>,
    pressure: Seq<Vec<PressureReason>>,
) -> Seq<ScoredView> {
    sort_desc(scored_all(request, cands, config.continuity.keep_small_worker_hot, pressure))
}

/// The decision for `request`. The candidates are scored and ranked by
/// descending total; the first that meets the quality floor is the best.
/// Without one the request is denied; otherwise continuity staging may
/// replace it. The rejected options are those of generation followed by the
/// candidates below the floor, other than the selected model.
pub open spec fn spec_decide(
    config: AnemoiConfig,
    request: InferenceRequest,
    snaps: Seq<RuntimeSnapshot>,
    pressure: Seq<Vec<PressureReason>>,
) -> Result<DecisionView, PolicyError> {
    match spec_generate(config, request, snaps) {
        Err(e) => Err(e),
        Ok((cs, rs)) => {
            let sorted = ranked(config, request, cs, pressure);
            let floor = spec_floor(request);
            match first_eligible(sorted, floor) {
                None => Ok(deny_view(request, rs + spec_floor_rejections(sorted, floor, None))),
                Some(best) => {
                    let sel = spec_continuity(request, sorted, best, config.continuity, floor);
                    Ok(selection_view(request, sel, rs + spec_floor_rejections(sorted, floor, Some(sel.candidate.model_id))))
                },
            }
        },
    }
}

/// Whether deciding stays within `i32` arithmetic: every candidate's score,
/// and the staging bonus where staging happens.
pub open spec fn decide_fits(
    config: AnemoiConfig,
    request: InferenceRequest,
    snaps: Seq<RuntimeSnapshot>,
    pressure: Seq<Vec<PressureReason>>,
) -> bool {
    match spec_generate(config, request, snaps) {
        Err(_) => true,
        Ok((cs, _)) => scores_fit(request, cs, config.continuity.keep_small_worker_hot, pressure)
            && continuity_fits(request, ranked(config, request, cs, pressure), config.continuity, spec_floor(request)),
    }
}

impl Scheduler {
    /// Scores the candidates and ranks them by descending total.
    fn rank(
        &self,
        request: &InferenceRequest,
        cands: &Vec<Candidate>,
        pressure: &Vec<Vec<PressureReason>>,
    ) -> (r: Vec<ScoredCandidate>)
        requires
            scores_fit(*request, candidates_view(cands@), self.config.continuity.keep_small_worker_hot, pressure@),
        ensures
            scored_view(r@) == ranked(self.config, *request, candidates_view(cands@), pressure@),
    {
        let kswh = self.config.continuity.keep_small_worker_hot;
        let ghost all = scored_all(*request, candidates_view(cands@), kswh, pressure@);
        let none: Vec<PressureReason> = Vec::new();
        let mut sorted: Vec<ScoredCandidate> = Vec::new();
        assert(scored_view(sorted@) =~= sort_desc(all.take(0)));
        let mut i: usize = 0;
        while i < cands.len()
            invariant
                0 <= i <= cands@.len(),
                kswh == self.config.continuity.keep_small_worker_hot,
                all == scored_all(*request, candidates_view(cands@), kswh, pressure@),
                none@.len() == 0,
                scores_fit(*request, candidates_view(cands@), kswh, pressure@),
                scored_view(sorted@) == sort_desc(all.take(i as int)),
            decreases cands@.len() - i,
        {
            let p = if i < pressure.len() { &pressure[i] } else { &none };
            assert(pressure_view(p@) =~= pressure_at(pressure@, i as int));
            assert(candidates_view(cands@)[i as int] == cands@[i as int]@);
            let sc = score_candidate(request, &cands[i], kswh, p);
            assert(all.take(i as int + 1).drop_last() =~= all.take(i as int));
            assert(all.take(i as int + 1).last() == sc@);
            insert_sorted(&mut sorted, sc);
            i = i + 1;
        }
        assert(all.take(cands@.len() as int) =~= all);
        sorted
    }
}

/// Whether an action is one that generation derives from observed residency:
/// reuse, promotion, cold load or deferral.
pub open spec fn is_observed_action(a: DecisionAction) -> bool {
    a == DecisionAction::ReuseHot || a == DecisionAction::PromoteWarm || a == DecisionAction::ColdLoad
        || a == DecisionAction::Defer
}

/// Whether every candidate of `cs` carries an observed action.
pub open spec fn all_observed(cs: Seq<CandidateView>) -> bool {
    forall|i: int| 0 <= i < cs.len() ==> is_observed_action((#[trigger] cs[i]).action)
}

proof fn lemma_runtime_cands_unstaged(
    group_id: Seq<char>,
    keep_hot: bool,
    profile: ModelProfileView,
    runtimes: Seq<Seq<char>>,
    snaps: Seq<RuntimeSnapshot>,
)
    ensures
        all_observed(runtime_cands(group_id, keep_hot, profile, runtimes, snaps)),
    decreases runtimes.len(),
{
    if runtimes.len() > 0 {
        lemma_runtime_cands_unstaged(group_id, keep_hot, profile, runtimes.drop_last(), snaps);
    }
}

proof fn lemma_group_out_unstaged(
    config: AnemoiConfig,
    request: InferenceRequest,
    snaps: Seq<RuntimeSnapshot>,
    group_id: Seq<char>,
    keep_hot: bool,
    models: Seq<Seq<char>>,
)
    ensures
        all_observed(group_out(config, request, snaps, group_id, keep_hot, models).0),
    decreases models.len(),
{
    if models.len() > 0 {
        lemma_group_out_unstaged(config, request, snaps, group_id, keep_hot, models.drop_last());
        let m = models.last();
        match lookup(config.models@, m) {
            Some(pc) => {
                let p = profile_of(pc@, m);
                lemma_runtime_cands_unstaged(group_id, keep_hot, p, p.supported_runtimes, snaps);
            },
            None => {},
        }
        let prev = group_out(config, request, snaps, group_id, keep_hot, models.drop_last()).0;
        let cur = model_out(config, request, snaps, group_id, keep_hot, m).0;
        assert forall|i: int| 0 <= i < (prev + cur).len() implies is_observed_action((#[trigger] (prev + cur)[i]).action) by {
            if i >= prev.len() {
                assert((prev + cur)[i] == cur[i - prev.len()]);
            }
        }
    }
}

proof fn lemma_rosters_out_unstaged(
    config: AnemoiConfig,
    request: InferenceRequest,
    snaps: Seq<RuntimeSnapshot>,
    rosters: Seq<Seq<char>>,
)
    ensures
        all_observed(rosters_out(config, request, snaps, rosters).0),
    decreases rosters.len(),
{
    if rosters.len() > 0 {
        lemma_rosters_out_unstaged(config, request, snaps, rosters.drop_last());
        match lookup(config.residency_groups@, rosters.last()) {
            Some(g) => {
                let models = model_ids_view(g.models@);
                lemma_group_out_unstaged(config, request, snaps, rosters.last(), g.keep_hot, models);
                let prev = rosters_out(config, request, snaps, rosters.drop_last()).0;
                let cur = group_out(config, request, snaps, rosters.last(), g.keep_hot, models).0;
                assert forall|i: int| 0 <= i < (prev + cur).len() implies is_observed_action((#[trigger] (prev + cur)[i]).action) by {
                    if i >= prev.len() {
                        assert((prev + cur)[i] == cur[i - prev.len()]);
                    }
                }
            },
            None => {},
        }
    }
}

proof fn lemma_live_cands_unstaged(
    request: InferenceRequest,
    snap: RuntimeSnapshot,
    live: Seq<char>,
    models: Seq<Seq<char>>,
)
    ensures
        all_observed(live_cands(request, snap, live, models)),
    decreases models.len(),
{
    if models.len() > 0 {
        lemma_live_cands_unstaged(request, snap, live, models.drop_last());
    }
}

/// Candidate generation never proposes background staging itself: only
/// continuity staging does.
proof fn lemma_generate_unstaged(config: AnemoiConfig, request: InferenceRequest, snaps: Seq<RuntimeSnapshot>)
    ensures
        match spec_generate(config, request, snaps) {
            Ok((cs, _)) => all_observed(cs),
            Err(_) => true,
        },
{
    match lookup(config.domains@, request.domain@) {
        None => {},
        Some(domain) => match domain.live_roster {
            Some(live) => match find_snapshot(snaps, live@) {
                Some(s) => {
                    lemma_live_cands_unstaged(request, s, live@, model_ids_view(s.configured_models@));
                },
                None => {},
            },
            None => {
                lemma_rosters_out_unstaged(config, request, snaps, crate::types::group_ids_view(domain.rosters@));
            },
        },
    }
}

/// Whether a candidate's action is the one its model's observed residency
/// calls for: reuse exactly when the model is hot on the GPU or serving,
/// promotion exactly when it is warm, partially loaded or loading, a cold
/// load exactly when it is cold or failed, and deferral exactly when it is
/// draining or being evicted; reuse and deferral load nothing, a cold load
/// takes the profile's cold-load estimate (30 s when unknown) and a promotion
/// a third of it (of 10 s when unknown).
pub open spec fn action_follows_residency(c: CandidateView) -> bool {
    let st = c.residency_state;
    &&& (c.action == DecisionAction::ReuseHot <==> (st == ResidencyState::HotGpu || st == ResidencyState::Serving))
    &&& (c.action == DecisionAction::PromoteWarm <==> (st == ResidencyState::WarmCpu || st == ResidencyState::Partial
        || st == ResidencyState::Loading))
    &&& (c.action == DecisionAction::ColdLoad <==> (st == ResidencyState::Cold || st == ResidencyState::Failed))
    &&& (c.action == DecisionAction::Defer <==> (st == ResidencyState::Draining || st == ResidencyState::Evicting))
    &&& (c.action == DecisionAction::ReuseHot || c.action == DecisionAction::Defer ==> c.load_estimate_ms == 0)
    &&& (c.action == DecisionAction::ColdLoad ==> c.load_estimate_ms
        == match c.model_profile.cold_load_estimate_ms { Some(x) => x, None => 30_000u64 })
    &&& (c.action == DecisionAction::PromoteWarm ==> c.load_estimate_ms
        == (match c.model_profile.cold_load_estimate_ms { Some(x) => x, None => 10_000u64 }) / 3)
}

/// Whether every candidate of `cs` carries the action its residency calls for.
pub open spec fn all_follow_residency(cs: Seq<CandidateView>) -> bool {
    forall|i: int| 0 <= i < cs.len() ==> action_follows_residency(#[trigger] cs[i])
}

proof fn lemma_runtime_cands_follow_residency(
    group_id: Seq<char>,
    keep_hot: bool,
    profile: ModelProfileView,
    runtimes: Seq<Seq<char>>,
    snaps: Seq<RuntimeSnapshot>,
)
    ensures
        all_follow_residency(runtime_cands(group_id, keep_hot, profile, runtimes, snaps)),
    decreases runtimes.len(),
{
    if runtimes.len() > 0 {
        lemma_runtime_cands_follow_residency(group_id, keep_hot, profile, runtimes.drop_last(), snaps);
    }
}

proof fn lemma_group_out_follow_residency(
    config: AnemoiConfig,
    request: InferenceRequest,
    snaps: Seq<RuntimeSnapshot>,
    group_id: Seq<char>,
    keep_hot: bool,
    models: Seq<Seq<char>>,
)
    ensures
        all_follow_residency(group_out(config, request, snaps, group_id, keep_hot, models).0),
    decreases models.len(),
{
    if models.len() > 0 {
        lemma_group_out_follow_residency(config, request, snaps, group_id, keep_hot, models.drop_last());
        let m = models.last();
        match lookup(config.models@, m) {
            Some(pc) => {
                let p = profile_of(pc@, m);
                lemma_runtime_cands_follow_residency(group_id, keep_hot, p, p.supported_runtimes, snaps);
            },
            None => {},
        }
        let prev = group_out(config, request, snaps, group_id, keep_hot, models.drop_last()).0;
        let cur = model_out(config, request, snaps, group_id, keep_hot, m).0;
        assert forall|i: int| 0 <= i < (prev + cur).len() implies action_follows_residency(#[trigger] (prev + cur)[i]) by {
            if i >= prev.len() {
                assert((prev + cur)[i] == cur[i - prev.len()]);
            }
        }
    }
}

proof fn lemma_rosters_out_follow_residency(
    config: AnemoiConfig,
    request: InferenceRequest,
    snaps: Seq<RuntimeSnapshot>,
    rosters: Seq<Seq<char>>,
)
    ensures
        all_follow_residency(rosters_out(config, request, snaps, rosters).0),
    decreases rosters.len(),
{
    if rosters.len() > 0 {
        lemma_rosters_out_follow_residency(config, request, snaps, rosters.drop_last());
        match lookup(config.residency_groups@, rosters.last()) {
            Some(g) => {
                let models = model_ids_view(g.models@);
                lemma_group_out_follow_residency(config, request, snaps, rosters.last(), g.keep_hot, models);
                let prev = rosters_out(config, request, snaps, rosters.drop_last()).0;
                let cur = group_out(config, request, snaps, rosters.last(), g.keep_hot, models).0;
                assert forall|i: int| 0 <= i < (prev + cur).len() implies action_follows_residency(#[trigger] (prev + cur)[i]) by {
                    if i >= prev.len() {
                        assert((prev + cur)[i] == cur[i - prev.len()]);
                    }
                }
            },
            None => {},
        }
    }
}

proof fn lemma_live_cands_follow_residency(
    request: InferenceRequest,
    snap: RuntimeSnapshot,
    live: Seq<char>,
    models: Seq<Seq<char>>,
)
    ensures
        all_follow_residency(live_cands(request, snap, live, models)),
    decreases models.len(),
{
    if models.len() > 0 {
        lemma_live_cands_follow_residency(request, snap, live, models.drop_last());
    }
}

proof fn lemma_generate_follow_residency(config: AnemoiConfig, request: InferenceRequest, snaps: Seq<RuntimeSnapshot>)
    ensures
        match spec_generate(config, request, snaps) {
            Ok((cs, _)) => all_follow_residency(cs),
            Err(_) => true,
        },
{
    match lookup(config.domains@, request.domain@) {
        None => {},
        Some(domain) => match domain.live_roster {
            Some(live) => match find_snapshot(snaps, live@) {
                Some(s) => {
                    lemma_live_cands_follow_residency(request, s, live@, model_ids_view(s.configured_models@));
                },
                None => {},
            },
            None => {
                lemma_rosters_out_follow_residency(config, request, snaps, crate::types::group_ids_view(domain.rosters@));
            },
        },
    }
}


/// Every generated candidate's action follows its model's observed
/// residency (see [`action_follows_residency`]): a model being drained or
/// evicted is deferred and never reused, and only a model hot on the GPU or
/// serving is reused.
pub proof fn law_candidate_action_follows_residency(config: AnemoiConfig, request: InferenceRequest, snaps: Seq<RuntimeSnapshot>)
    ensures
        match spec_generate(config, request, snaps) {
            Ok((cs, _)) => all_follow_residency(cs),
            Err(_) => true,
        },
{
    lemma_generate_follow_residency(config, request, snaps);
}

/// Whether a scored candidate that stages in the background names what it stages.
pub open spec fn names_staged(v: ScoredView) -> bool {
    v.action == DecisionAction::StageBackground ==> v.background_model is Some
}

/// The best candidate of a decision is never itself a background staging,
/// so the staged selection, or the best, names whatever it stages.
proof fn lemma_selection_names_staged(
    config: AnemoiConfig,
    request: InferenceRequest,
    cs: Seq<CandidateView>,
    pressure: Seq<Vec<PressureReason>>,
    best: ScoredView,
)
    requires
        all_observed(cs),
        ranked(config, request, cs, pressure).contains(best),
    ensures
        names_staged(spec_continuity(request, ranked(config, request, cs, pressure), best, config.continuity, spec_floor(request))),
{
    let all = scored_all(request, cs, config.continuity.keep_small_worker_hot, pressure);
    lemma_sort_members(all, best);
    let k = choose|k: int| 0 <= k < all.len() && all[k] == best;
    assert(best.action == cs[k].action);
    assert(best.background_model is None);
}

impl Scheduler {
    /// Decides how to serve `request` given the runtimes' snapshots (see
    /// [`spec_decide`]). `pressure[i]` holds the pressure model's reasons for
    /// the `i`-th generated candidate; a missing entry counts as no reasons.
    /// The decision carries the identifier and time of `stamp`.
    pub fn decide(
        &self,
        request: &InferenceRequest,
        snapshots: &[RuntimeSnapshot],
        pressure: &Vec<Vec<PressureReason>>,
        stamp: DecisionStamp,
    ) -> (r: Result<Decision, PolicyError>)
        requires
            decide_fits(self.spec_config(), *request, snapshots@, pressure@),
        ensures
            match spec_decide(self.spec_config(), *request, snapshots@, pressure@) {
                Ok(d) => r is Ok && r->Ok_0@ == d && r->Ok_0.id == stamp.id && r->Ok_0.created_at == stamp.created_at,
                Err(e) => r == Err::<Decision, PolicyError>(e),
            },
    {
        let generated = match self.generate_candidates(request, snapshots) {
            Ok(g) => g,
            Err(e) => return Err(e),
        };
        proof {
            lemma_generate_unstaged(self.config, *request, snapshots@);
        }
        let sorted = self.rank(request, &generated.candidates, pressure);
        let floor = quality_floor_value(request);
        let fr: Option<&(String, i32)> = match &floor { Some(f) => Some(f), None => None };
        let ghost fl = spec_floor(*request);
        assert(fl == match fr { Some(f) => Some((f.0@, f.1 as int)), None => None::<(Seq<char>, int)> });
        let best = match find_first_eligible(&sorted, fr) {
            None => {
                let below = quality_floor_rejections(&sorted, fr, None);
                let ghost g = rejected_view(generated.rejected_options@);
                let ghost b = rejected_view(below@);
                let rejected = combine_rejected(generated.rejected_options, below);
                assert(rejected_view(rejected@) =~= g + b);
                return Ok(deny_decision(request, rejected, stamp));
            },
            Some(k) => sorted[k].clone(),
        };
        proof {
            lemma_first_eligible_member(scored_view(sorted@), fl);
            lemma_selection_names_staged(self.config, *request, candidates_view(generated.candidates@), pressure@, best@);
        }
        let selected = apply_continuity_staging(request, &sorted, best, &self.config.continuity, fr);
        let below = quality_floor_rejections(&sorted, fr, Some(&selected.candidate.model_id));
        let ghost g = rejected_view(generated.rejected_options@);
        let ghost b = rejected_view(below@);
        let rejected = combine_rejected(generated.rejected_options, below);
        assert(rejected_view(rejected@) =~= g + b);
        Ok(selected.into_decision(request, rejected, stamp))
    }
}

// ---------------------------------------------------------------------------
// Laws of the decision.

/// Whether no candidate meets the floor; without a floor, whether there is
/// no candidate at all.
pub open spec fn nothing_meets_floor(cs: Seq<CandidateView>, floor: Option<(Seq<char>, int)>) -> bool {
    forall|i: int| 0 <= i < cs.len() ==> match floor {
        Some((_, minimum)) => spec_class_value((#[trigger] cs[i]).model_profile.parameter_class) < minimum,
        None => false,
    }
}

proof fn lemma_scored_member(
    config: AnemoiConfig,
    request: InferenceRequest,
    cs: Seq<CandidateView>,
    pressure: Seq<Vec<PressureReason>>,
    x: ScoredView,
)
    requires
        ranked(config, request, cs, pressure).contains(x),
    ensures
        exists|k: int| 0 <= k < cs.len() && x == spec_scored(request, cs[k], config.continuity.keep_small_worker_hot, pressure_at(pressure, k)),
{
    let all = scored_all(request, cs, config.continuity.keep_small_worker_hot, pressure);
    lemma_sort_members(all, x);
    let k = choose|k: int| 0 <= k < all.len() && all[k] == x;
    assert(x == spec_scored(request, cs[k], config.continuity.keep_small_worker_hot, pressure_at(pressure, k)));
}

proof fn lemma_first_hot_member(s: Seq<ScoredView>)
    ensures
        match first_hot(s) {
            Some(f) => s.contains(f),
            None => true,
        },
    decreases s.len(),
{
    if s.len() > 0 && !is_hot_or_warm(s[0]) {
        lemma_first_hot_member(s.drop_first());
        match first_hot(s.drop_first()) {
            Some(f) => {
                let k = choose|k: int| 0 <= k < s.drop_first().len() && s.drop_first()[k] == f;
                assert(s[k + 1] == f);
            },
            None => {},
        }
    } else if s.len() > 0 {
        assert(s[0] == s[0]);
    }
}

/// A request is denied exactly when none of its candidates meets the
/// requested quality floor (without a floor: when it has no candidate).
pub proof fn law_denied_exactly_when_nothing_meets_floor(
    config: AnemoiConfig,
    request: InferenceRequest,
    snaps: Seq<RuntimeSnapshot>,
    pressure: Seq<Vec<PressureReason>>,
)
    ensures
        match spec_generate(config, request, snaps) {
            Ok((cs, _)) => spec_decide(config, request, snaps, pressure) is Ok
                && (spec_decide(config, request, snaps, pressure)->Ok_0.action == DecisionAction::Deny
                    <==> nothing_meets_floor(cs, spec_floor(request))),
            Err(e) => spec_decide(config, request, snaps, pressure) == Err::<DecisionView, PolicyError>(e),
        },
{
    match spec_generate(config, request, snaps) {
        Ok((cs, rs)) => {
            let kswh = config.continuity.keep_small_worker_hot;
            let all = scored_all(request, cs, kswh, pressure);
            let floor = spec_floor(request);
            lemma_generate_unstaged(config, request, snaps);
            law_best_is_highest_eligible(all, floor);
            match first_eligible(sort_desc(all), floor) {
                Some(b) => {
                    let k = choose|k: int| 0 <= k < all.len() && all[k] == b;
                    assert(all[k].candidate == cs[k]);
                    assert(is_observed_action(cs[k].action));
                    assert(!nothing_meets_floor(cs, floor)) by {
                        if nothing_meets_floor(cs, floor) {
                            assert(match floor {
                                Some((_, minimum)) => spec_class_value(cs[k].model_profile.parameter_class) < minimum,
                                None => false,
                            });
                        }
                    }
                },
                None => {
                    assert forall|i: int| 0 <= i < cs.len() implies match floor {
                        Some((_, minimum)) => spec_class_value((#[trigger] cs[i]).model_profile.parameter_class) < minimum,
                        None => false,
                    } by {
                        assert(all[i].candidate == cs[i]);
                        assert(!spec_satisfies_floor(all[i], floor));
                    }
                },
            }
        },
        Err(_) => {},
    }
}

/// A decision's score adds up: its total is the sum of the values of its
/// contributions, continuity staging included.
pub proof fn law_decision_total_is_sum_of_contributions(
    config: AnemoiConfig,
    request: InferenceRequest,
    snaps: Seq<RuntimeSnapshot>,
    pressure: Seq<Vec<PressureReason>>,
)
    requires
        decide_fits(config, request, snaps, pressure),
    ensures
        match spec_decide(config, request, snaps, pressure) {
            Ok(d) => d.total == contribution_total(d.contributions),
            Err(_) => true,
        },
{
    match spec_generate(config, request, snaps) {
        Ok((cs, rs)) => {
            let kswh = config.continuity.keep_small_worker_hot;
            let sorted = ranked(config, request, cs, pressure);
            let floor = spec_floor(request);
            lemma_first_eligible_member(sorted, floor);
            match first_eligible(sorted, floor) {
                Some(b) => {
                    lemma_scored_member(config, request, cs, pressure, b);
                    let k = choose|k: int| 0 <= k < cs.len() && b == spec_scored(request, cs[k], kswh, pressure_at(pressure, k));
                    law_score_total_is_sum_of_contributions(request, cs[k], kswh, pressure_at(pressure, k));
                    match (cold_large_of(sorted, floor, config.continuity.max_blank_wait_ms), first_hot(sorted)) {
                        (Some(cold), Some(fb)) => {
                            if wants_stage(request, config.continuity, cold) && colocation_admits(fb, cold) {
                                lemma_first_hot_member(sorted);
                                lemma_scored_member(config, request, cs, pressure, fb);
                                let j = choose|j: int| 0 <= j < cs.len() && fb == spec_scored(request, cs[j], kswh, pressure_at(pressure, j));
                                law_score_total_is_sum_of_contributions(request, cs[j], kswh, pressure_at(pressure, j));
                                let st = staged_view(request, fb, cold, floor);
                                let c1 = fb.contributions.push(("continuity background staging"@, 50i32));
                                assert(c1.drop_last() =~= fb.contributions);
                                assert(contribution_total(c1) == contribution_total(fb.contributions) + 50);
                                assert(fits_i32(fb.total + 50));
                                let c2 = c1.push(("quality floor degraded fallback"@, -25i32));
                                assert(c2.drop_last() =~= c1);
                                assert(contribution_total(c2) == contribution_total(c1) - 25);
                            }
                        },
                        _ => {},
                    }
                },
                None => {
                    assert(contribution_total(Seq::<(Seq<char>, i32)>::empty()) == 0);
                },
            }
        },
        Err(_) => {},
    }
}

/// Every decision is explained: it carries a summary and at least one reason.
pub proof fn law_every_decision_is_explained(
    config: AnemoiConfig,
    request: InferenceRequest,
    snaps: Seq<RuntimeSnapshot>,
    pressure: Seq<Vec<PressureReason>>,
)
    ensures
        match spec_decide(config, request, snaps, pressure) {
            Ok(d) => d.reasons.len() > 0 && d.summary.len() > 0,
            Err(_) => true,
        },
{
    reveal_strlit("Selected ");
    reveal_strlit("No runnable model candidate was available.");
    match spec_generate(config, request, snaps) {
        Ok((cs, rs)) => {
            let kswh = config.continuity.keep_small_worker_hot;
            let sorted = ranked(config, request, cs, pressure);
            let floor = spec_floor(request);
            lemma_first_eligible_member(sorted, floor);
            match first_eligible(sorted, floor) {
                Some(b) => {
                    lemma_scored_member(config, request, cs, pressure, b);
                    let k = choose|k: int| 0 <= k < cs.len() && b == spec_scored(request, cs[k], kswh, pressure_at(pressure, k));
                    let all = crate::policy::scoring::spec_contributions(request, cs[k], kswh, pressure_at(pressure, k));
                    assert(all.len() >= 3);
                    assert(b.reasons.len() == all.len());
                    match (cold_large_of(sorted, floor, config.continuity.max_blank_wait_ms), first_hot(sorted)) {
                        (Some(cold), Some(fb)) => {
                            if wants_stage(request, config.continuity, cold) && colocation_admits(fb, cold) {
                                assert(staged_view(request, fb, cold, floor).reasons.len() > 0);
                            }
                        },
                        _ => {},
                    }
                },
                None => {},
            }
        },
        Err(_) => {},
    }
}

/// At `decide`, a tie on total goes to generation order: the best candidate
/// (before continuity staging is considered) is the first generated
/// candidate that meets the floor among those sharing its total.
pub proof fn law_decide_tie_breaks_on_generation_order(
    config: AnemoiConfig,
    request: InferenceRequest,
    snaps: Seq<RuntimeSnapshot>,
    pressure: Seq<Vec<PressureReason>>,
)
    ensures
        match spec_generate(config, request, snaps) {
            Ok((cs, _)) => match first_eligible(ranked(config, request, cs, pressure), spec_floor(request)) {
                Some(b) => first_eligible(
                    scored_all(request, cs, config.continuity.keep_small_worker_hot, pressure).filter(has_total(b.total)),
                    spec_floor(request),
                ) == Some(b),
                None => true,
            },
            Err(_) => true,
        },
{
    match spec_generate(config, request, snaps) {
        Ok((cs, _)) => {
            law_tie_goes_to_first_generated(
                scored_all(request, cs, config.continuity.keep_small_worker_hot, pressure),
                spec_floor(request),
            );
        },
        Err(_) => {},
    }
}

/// The decided model follows the same tie rule: unless continuity staging
/// serves a hot fallback while a larger model stages in the background, the
/// selected model is the best candidate's, which is the first generated
/// candidate meeting the floor among those sharing its total. The decision is
/// a function of the configuration and the inputs, so repeated calls select
/// the same model.
pub proof fn law_decided_model_breaks_ties_on_generation_order(
    config: AnemoiConfig,
    request: InferenceRequest,
    snaps: Seq<RuntimeSnapshot>,
    pressure: Seq<Vec<PressureReason>>,
)
    ensures
        match spec_generate(config, request, snaps) {
            Ok((cs, _)) => match first_eligible(ranked(config, request, cs, pressure), spec_floor(request)) {
                Some(b) => {
                    &&& first_eligible(
                        scored_all(request, cs, config.continuity.keep_small_worker_hot, pressure).filter(has_total(b.total)),
                        spec_floor(request),
                    ) == Some(b)
                    &&& spec_decide(config, request, snaps, pressure) matches Ok(d)
                        && (d.action != DecisionAction::StageBackground ==> d.selected_model == Some(b.candidate.model_id))
                },
                None => spec_decide(config, request, snaps, pressure) matches Ok(d) && d.action == DecisionAction::Deny,
            },
            Err(_) => true,
        },
{
    law_decide_tie_breaks_on_generation_order(config, request, snaps, pressure);
    match spec_generate(config, request, snaps) {
        Ok((cs, _)) => {
            let sorted = ranked(config, request, cs, pressure);
            let floor = spec_floor(request);
            match first_eligible(sorted, floor) {
                Some(b) => {
                    let sel = spec_continuity(request, sorted, b, config.continuity, floor);
                    assert(sel.action != DecisionAction::StageBackground ==> sel.candidate == b.candidate);
                },
                None => {},
            }
        },
        Err(_) => {},
    }
}

proof fn lemma_cold_large_member(s: Seq<ScoredView>, floor: Option<(Seq<char>, int)>, max_wait: u64)
    ensures
        cold_large_of(s, floor, max_wait) matches Some(c) ==> s.contains(c),
    decreases s.len(),
{
    if s.len() > 0 {
        lemma_cold_large_member(s.drop_last(), floor, max_wait);
        match cold_large_of(s.drop_last(), floor, max_wait) {
            Some(b) => {
                let k = choose|k: int| 0 <= k < s.drop_last().len() && s.drop_last()[k] == b;
                assert(s[k] == b);
            },
            None => {},
        }
        assert(s[s.len() - 1] == s.last());
    }
}

proof fn lemma_ranked_member(
    config: AnemoiConfig,
    request: InferenceRequest,
    cs: Seq<CandidateView>,
    pressure: Seq<Vec<PressureReason>>,
    x: ScoredView,
)
    requires
        ranked(config, request, cs, pressure).contains(x),
    ensures
        exists|k: int| 0 <= k < cs.len() && x.candidate == cs[k] && x.action == cs[k].action
            && x.background_model is None,
{
    let all = scored_all(request, cs, config.continuity.keep_small_worker_hot, pressure);
    lemma_sort_members(all, x);
    let k = choose|k: int| 0 <= k < all.len() && all[k] == x;
    assert(x.candidate == cs[k]);
}

/// Background staging needs the operator's consent and a real wait: a
/// decision stages a model in the background (or names one) only when
/// background loads are allowed, a degraded response is preferred over
/// silence, and the staged model is a generated candidate whose load
/// estimate exceeds the request's latency budget. In particular, with
/// `prefer_degraded_response_over_silence` off no decision stages anything.
pub proof fn law_background_staging_needs_consent(
    config: AnemoiConfig,
    request: InferenceRequest,
    snaps: Seq<RuntimeSnapshot>,
    pressure: Seq<Vec<PressureReason>>,
)
    ensures
        match spec_generate(config, request, snaps) {
            Ok((cs, _)) => match spec_decide(config, request, snaps, pressure) {
                Ok(d) => (d.action == DecisionAction::StageBackground || d.background_model is Some) ==> {
                    &&& config.continuity.background_load
                    &&& config.continuity.prefer_degraded_response_over_silence
                    &&& d.action == DecisionAction::StageBackground
                    &&& exists|i: int| 0 <= i < cs.len() && d.background_model == Some(cs[i].model_id)
                        && (request.latency_budget_ms matches Some(b) && b < cs[i].load_estimate_ms)
                },
                Err(_) => true,
            },
            Err(_) => true,
        },
{
    match spec_generate(config, request, snaps) {
        Ok((cs, _)) => {
            lemma_generate_unstaged(config, request, snaps);
            let sorted = ranked(config, request, cs, pressure);
            let floor = spec_floor(request);
            lemma_first_eligible_member(sorted, floor);
            match first_eligible(sorted, floor) {
                None => {},
                Some(best) => {
                    lemma_ranked_member(config, request, cs, pressure, best);
                    let kb = choose|k: int| 0 <= k < cs.len() && best.candidate == cs[k] && best.action == cs[k].action
                        && best.background_model is None;
                    assert(is_observed_action(cs[kb].action));
                    let cont = config.continuity;
                    lemma_cold_large_member(sorted, floor, cont.max_blank_wait_ms);
                    match (cold_large_of(sorted, floor, cont.max_blank_wait_ms), first_hot(sorted)) {
                        (Some(cold), Some(fb)) => {
                            lemma_ranked_member(config, request, cs, pressure, cold);
                            let k = choose|k: int| 0 <= k < cs.len() && cold.candidate == cs[k] && cold.action == cs[k].action
                                && cold.background_model is None;
                            if wants_stage(request, cont, cold) && colocation_admits(fb, cold) {
                                assert(cs[k].model_id == cold.candidate.model_id);
                            }
                        },
                        _ => {},
                    }
                },
            }
        },
        Err(_) => {},
    }
}

} // verus!
