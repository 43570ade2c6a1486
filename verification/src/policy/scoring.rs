//! Scoring of candidates, and the quality-floor and context-window rules.

use vstd::prelude::*;
use vstd::string::*;
use crate::ids::{ModelId, RuntimeId};
use crate::types::{ModelProfile, ModelProfileView, RuntimeMemorySnapshot, ResidencyState};
use crate::decisions::{
    Decision, DecisionAction, DecisionReason, DecisionScore, DecisionView, Explanation,
    ScoreContribution, RejectedOption, reasons_view, contributions_view, rejected_view,
    DecisionStamp,
};
use crate::types::InferenceRequest;
use crate::policy::candidates::{Candidate, CandidateView};
use crate::text::{
    is_digit, char_is_digit, chars_of, digits_value, all_digits, parse_digits, decimal, push_u64,
};

verus! {

// ---------------------------------------------------------------------------
// Parameter classes and quality.

/// The digits of `s`, in order, with every other character dropped.
pub open spec fn digits_only(s: Seq<char>) -> Seq<char>
    decreases s.len(),
{
    if s.len() == 0 {
        Seq::empty()
    } else if is_digit(s.last()) {
        digits_only(s.drop_last()).push(s.last())
    } else {
        digits_only(s.drop_last())
    }
}

proof fn lemma_digits_only_all_digits(s: Seq<char>)
    ensures
        all_digits(digits_only(s)),
    decreases s.len(),
{
    if s.len() > 0 {
        lemma_digits_only_all_digits(s.drop_last());
    }
}

/// The numeric value of a parameter class such as `35b`: all its digits read
/// as one number, clamped to 1..=100; 1 when there are no digits or the
/// number does not fit an `i32`.
pub open spec fn spec_class_value(s: Seq<char>) -> int {
    let d = digits_only(s);
    if d.len() == 0 || digits_value(d) > 2147483647 {
        1
    } else if digits_value(d) < 1 {
        1
    } else if digits_value(d) > 100 {
        100
    } else {
        digits_value(d) as int
    }
}

/// The numeric value of a parameter class (see [`spec_class_value`]).
pub fn parameter_class_value(parameter_class: &str) -> (r: i32)
    ensures
        r == spec_class_value(parameter_class@),
{
    let v = chars_of(parameter_class);
    let mut d: Vec<char> = Vec::new();
    let mut i: usize = 0;
    while i < v.len()
        invariant
            v@ == parameter_class@,
            0 <= i <= v@.len(),
            d@ == digits_only(v@.take(i as int)),
        decreases v@.len() - i,
    {
        assert(v@.take(i as int + 1).drop_last() =~= v@.take(i as int));
        if char_is_digit(v[i]) {
            d.push(v[i]);
        }
        i = i + 1;
    }
    assert(v@.take(v@.len() as int) =~= v@);
    proof { lemma_digits_only_all_digits(v@); }
    if d.len() == 0 {
        return 1;
    }
    assert(d@.subrange(0, d@.len() as int) =~= d@);
    match parse_digits(&d, 0, d.len(), 2147483647) {
        None => 1,
        Some(x) => {
            if x < 1 {
                1
            } else if x > 100 {
                100
            } else {
                x as i32
            }
        },
    }
}

/// The quality of a model: the value of its parameter class.
pub fn quality_score(model: &ModelProfile) -> (r: i32)
    ensures
        r == spec_class_value(model@.parameter_class),
{
    parameter_class_value(model.parameter_class.as_str())
}

/// The requested quality floor: its label and numeric value.
pub open spec fn spec_floor(request: InferenceRequest) -> Option<(Seq<char>, int)> {
    match request.quality_floor {
        Some(f) => match f.minimum_parameter_class {
            Some(c) => Some((c@, spec_class_value(c@))),
            None => None,
        },
        None => None,
    }
}

/// The requested quality floor, if any: its label and numeric value.
pub fn quality_floor_value(request: &InferenceRequest) -> (r: Option<(String, i32)>)
    ensures
        match r {
            Some((label, v)) => spec_floor(*request) == Some((label@, v as int)),
            None => spec_floor(*request) is None,
        },
{
    match &request.quality_floor {
        Some(f) => match &f.minimum_parameter_class {
            Some(c) => Some((c.clone(), parameter_class_value(c.as_str()))),
            None => None,
        },
        None => None,
    }
}

// ---------------------------------------------------------------------------
// Context windows.

/// The tokens a request needs: its prompt estimate plus its output budget
/// (saturating), or `None` when the prompt size is unknown.
pub open spec fn spec_required_tokens(request: InferenceRequest) -> Option<u32> {
    match request.prompt_tokens_estimate {
        Some(p) => {
            let out: u32 = match request.max_output_tokens { Some(m) => m, None => 0 };
            Some(if p + out > u32::MAX { u32::MAX } else { (p + out) as u32 })
        },
        None => None,
    }
}

/// The tokens a request needs (see [`spec_required_tokens`]).
pub fn request_required_tokens(request: &InferenceRequest) -> (r: Option<u32>)
    ensures
        r == spec_required_tokens(*request),
{
    match request.prompt_tokens_estimate {
        Some(p) => {
            let out = match request.max_output_tokens { Some(m) => m, None => 0 };
            Some(p.saturating_add(out))
        },
        None => None,
    }
}

/// `(required, available)` when both are known and the request fits.
pub open spec fn spec_context_fit(request: InferenceRequest, model: ModelProfileView) -> Option<(u32, u32)> {
    match (spec_required_tokens(request), model.context_window) {
        (Some(req), Some(avail)) => if req <= avail { Some((req, avail)) } else { None },
        _ => None,
    }
}

/// `(required, available)` when both are known and the request fits.
pub fn context_window_fit(request: &InferenceRequest, model: &ModelProfile) -> (r: Option<(u32, u32)>)
    ensures
        r == spec_context_fit(*request, model@),
{
    let required = match request_required_tokens(request) { Some(x) => x, None => return None };
    let available = match model.context_window { Some(x) => x, None => return None };
    if required <= available { Some((required, available)) } else { None }
}

/// Why a model's context window is too small for a request, if it is.
pub open spec fn spec_context_rejection(request: InferenceRequest, model: ModelProfileView) -> Option<Seq<char>> {
    match (spec_required_tokens(request), model.context_window) {
        (Some(req), Some(avail)) => if req > avail {
            Some("request requires "@ + decimal(req as nat) + " token(s) but "@ + model.id
                + " context window is "@ + decimal(avail as nat) + " token(s)"@)
        } else {
            None
        },
        _ => None,
    }
}

/// Why a model's context window is too small for a request, if it is.
pub fn context_window_rejection(request: &InferenceRequest, model: &ModelProfile) -> (r: Option<String>)
    ensures
        match r {
            Some(s) => spec_context_rejection(*request, model@) == Some(s@),
            None => spec_context_rejection(*request, model@) is None,
        },
{
    let required = match request_required_tokens(request) { Some(x) => x, None => return None };
    let available = match model.context_window { Some(x) => x, None => return None };
    if required > available {
        let mut s = String::from_str("request requires ");
        push_u64(&mut s, required as u64);
        s.append(" token(s) but ");
        s.append(model.id.as_str());
        s.append(" context window is ");
        push_u64(&mut s, available as u64);
        s.append(" token(s)");
        Some(s)
    } else {
        None
    }
}

// ---------------------------------------------------------------------------
// Pressure contributions.

/// What the pressure model is asked about a candidate.
#[derive(Debug, PartialEq, Eq, Structural, Clone, Copy)]
pub struct PressureInputs {
    pub memory: RuntimeMemorySnapshot,
    pub vram_required_mb: Option<u64>,
    pub ram_required_mb: Option<u64>,
    pub is_cold_load: bool,
    pub active_request_count: usize,
}

/// One reason of a pressure assessment; it becomes a score contribution.
#[derive(Debug, PartialEq, Eq)]
pub struct PressureReason {
    pub code: String,
    pub impact: i32,
    pub detail: String,
}

impl View for PressureReason {
    type V = (Seq<char>, i32, Seq<char>);

    open spec fn view(&self) -> (Seq<char>, i32, Seq<char>) {
        (self.code@, self.impact, self.detail@)
    }
}

/// The pressure inputs of a candidate.
pub open spec fn spec_pressure_inputs(c: CandidateView) -> PressureInputs {
    PressureInputs {
        memory: c.runtime_memory,
        vram_required_mb: c.model_profile.vram_required_mb,
        ram_required_mb: c.model_profile.ram_required_mb,
        is_cold_load: c.action == DecisionAction::ColdLoad,
        active_request_count: c.active_request_count,
    }
}

/// The pressure inputs of a candidate: its runtime's memory, the model's
/// requirements, whether it is a cold load, and the runtime's active count.
pub fn pressure_inputs(candidate: &Candidate) -> (r: PressureInputs)
    ensures
        r == spec_pressure_inputs(candidate@),
{
    PressureInputs {
        memory: candidate.runtime_memory,
        vram_required_mb: candidate.model_profile.vram_required_mb,
        ram_required_mb: candidate.model_profile.ram_required_mb,
        is_cold_load: candidate.action == DecisionAction::ColdLoad,
        active_request_count: candidate.active_request_count,
    }
}

// ---------------------------------------------------------------------------
// Scoring.

/// A scored candidate.
#[derive(Debug)]
pub struct ScoredCandidate {
    pub action: DecisionAction,
    pub candidate: Candidate,
    pub background_model: Option<ModelId>,
    pub score: DecisionScore,
    pub reasons: Vec<DecisionReason>,
}

/// The mathematical content of a [`ScoredCandidate`].
pub struct ScoredView {
    pub action: DecisionAction,
    pub candidate: CandidateView,
    pub background_model: Option<Seq<char>>,
    pub total: i32,
    pub contributions: Seq<(Seq<char>, i32)>,
    pub reasons: Seq<(Seq<char>, Seq<char>, i32)>,
}

impl View for ScoredCandidate {
    type V = ScoredView;

    open spec fn view(&self) -> ScoredView {
        ScoredView {
            action: self.action,
            candidate: self.candidate@,
            background_model: match self.background_model { Some(m) => Some(m@), None => None },
            total: self.score.total,
            contributions: contributions_view(self.score.contributions@),
            reasons: reasons_view(self.reasons@),
        }
    }
}

/// Clones contributions.
pub fn clone_contributions(v: &Vec<ScoreContribution>) -> (r: Vec<ScoreContribution>)
    ensures
        r@ == v@,
{
    let r = v.clone();
    proof {
        assert forall|i: int| 0 <= i < r@.len() implies r@[i] == v@[i] by {
            assert(cloned(v@[i], r@[i]));
        }
        assert(r@ =~= v@);
    }
    r
}

/// Clones reasons.
pub fn clone_reasons(v: &Vec<DecisionReason>) -> (r: Vec<DecisionReason>)
    ensures
        r@ == v@,
{
    let r = v.clone();
    proof {
        assert forall|i: int| 0 <= i < r@.len() implies r@[i] == v@[i] by {
            assert(cloned(v@[i], r@[i]));
        }
        assert(r@ =~= v@);
    }
    r
}

/// Clones rejected options.
pub fn clone_rejected(v: &Vec<RejectedOption>) -> (r: Vec<RejectedOption>)
    ensures
        r@ == v@,
{
    let r = v.clone();
    proof {
        assert forall|i: int| 0 <= i < r@.len() implies r@[i] == v@[i] by {
            assert(cloned(v@[i], r@[i]));
        }
        assert(r@ =~= v@);
    }
    r
}

impl Clone for ScoredCandidate {
    fn clone(&self) -> (r: Self)
        ensures
            r@ == self@,
    {
        ScoredCandidate {
            action: self.action,
            candidate: self.candidate.clone(),
            background_model: match &self.background_model { Some(m) => Some(m.clone()), None => None },
            score: DecisionScore { total: self.score.total, contributions: clone_contributions(&self.score.contributions) },
            reasons: clone_reasons(&self.reasons),
        }
    }
}

/// A contribution: label, value and explanation.
pub type Contribution = (Seq<char>, int, Seq<char>);

/// The load penalty of a candidate: minus its load estimate in whole seconds.
pub open spec fn load_penalty(c: CandidateView) -> int {
    -(((c.load_estimate_ms / 1000) as i32) as int)
}

/// The latency-budget adjustment: 10 when the load fits the budget, else
/// minus the overshoot in half seconds.
pub open spec fn latency_adjustment(c: CandidateView, budget: u64) -> int {
    if c.load_estimate_ms > budget {
        -((((c.load_estimate_ms - budget) / 500) as i32) as int)
    } else {
        10
    }
}

/// The base contributions: quality, residency and load penalty.
pub open spec fn base_part(c: CandidateView) -> Seq<Contribution> {
    let m = c.model_profile;
    seq![
        ("quality"@, spec_class_value(m.parameter_class), m.id + " satisfies the configured roster quality target"@),
        ("residency"@, c.residency_state.spec_reuse_bonus(), m.id + " is currently "@ + c.residency_state.spec_name()),
        ("load_penalty"@, load_penalty(c), "estimated load cost is "@ + decimal(c.load_estimate_ms as nat) + "ms"@),
    ]
}

/// The latency-budget contribution, when the request sets a budget.
pub open spec fn latency_part(request: InferenceRequest, c: CandidateView) -> Seq<Contribution> {
    match request.latency_budget_ms {
        Some(b) => seq![("latency_budget"@, latency_adjustment(c, b), "latency budget is "@ + decimal(b as nat) + "ms"@)],
        None => Seq::empty(),
    }
}

/// The context-window contribution, when the request is known to fit.
pub open spec fn fit_part(request: InferenceRequest, c: CandidateView) -> Seq<Contribution> {
    let m = c.model_profile;
    match spec_context_fit(request, m) {
        Some((req, avail)) => seq![("context_window.fit"@, 10int, "request requires "@ + decimal(req as nat)
            + " token(s) and "@ + m.id + " provides a "@ + decimal(avail as nat) + " token context window"@)],
        None => Seq::empty(),
    }
}

/// The pressure reasons as contributions.
pub open spec fn pressure_part(pressure: Seq<(Seq<char>, i32, Seq<char>)>) -> Seq<Contribution> {
    pressure.map_values(|p: (Seq<char>, i32, Seq<char>)| (p.0, p.1 as int, p.2))
}

/// The continuity contribution, for keep-hot groups or when continuity keeps
/// a small worker hot.
pub open spec fn continuity_part(c: CandidateView, keep_small_worker_hot: bool) -> Seq<Contribution> {
    if c.group_keep_hot || keep_small_worker_hot {
        seq![("continuity"@, 20int, c.model_profile.id + " belongs to a continuity-friendly residency group"@)]
    } else {
        Seq::empty()
    }
}

/// The streaming-capability note, worth nothing, when capability is known.
pub open spec fn streaming_part(c: CandidateView) -> Seq<Contribution> {
    let m = c.model_profile;
    match m.supports_streaming {
        Some(true) => seq![("streaming_capability"@, 0int, m.id + " supports streaming responses"@)],
        Some(false) => seq![("streaming_capability"@, 0int, m.id + " does not support streaming responses"@)],
        None => Seq::empty(),
    }
}

/// The contributions scoring a candidate, in order: quality, residency, load
/// penalty, latency budget (when one is set), context-window fit (when
/// known to fit), the pressure reasons, continuity, and streaming capability.
pub open spec fn spec_contributions(
    request: InferenceRequest,
    c: CandidateView,
    keep_small_worker_hot: bool,
    pressure: Seq<(Seq<char>, i32, Seq<char>)>,
) -> Seq<Contribution> {
    base_part(c) + latency_part(request, c) + fit_part(request, c) + pressure_part(pressure)
        + continuity_part(c, keep_small_worker_hot) + streaming_part(c)
}

/// The sum of the values of `s`.
pub open spec fn sum_values(s: Seq<Contribution>) -> int
    decreases s.len(),
{
    if s.len() == 0 { 0 } else { sum_values(s.drop_last()) + s.last().1 }
}

/// Whether a value fits an `i32`.
pub open spec fn fits_i32(x: int) -> bool {
    i32::MIN <= x <= i32::MAX
}

/// Whether scoring can add up `s` in an `i32`: every running total fits.
pub open spec fn sums_fit(s: Seq<Contribution>) -> bool {
    forall|k: int| 0 <= k <= s.len() ==> fits_i32(#[trigger] sum_values(s.take(k)))
}

/// Whether scoring a candidate stays within `i32` arithmetic: the negated
/// load and latency penalties are representable and every running total of
/// the contributions fits.
pub open spec fn score_fits(
    request: InferenceRequest,
    c: CandidateView,
    keep_small_worker_hot: bool,
    pressure: Seq<(Seq<char>, i32, Seq<char>)>,
) -> bool {
    &&& (c.load_estimate_ms / 1000) as i32 != i32::MIN
    &&& match request.latency_budget_ms {
            Some(b) => c.load_estimate_ms > b ==> ((c.load_estimate_ms - b) / 500) as i32 != i32::MIN,
            None => true,
        }
    &&& sums_fit(spec_contributions(request, c, keep_small_worker_hot, pressure))
}

/// The contributions as score entries.
pub open spec fn as_score_entries(s: Seq<Contribution>) -> Seq<(Seq<char>, i32)> {
    s.map_values(|x: Contribution| (x.0, x.1 as i32))
}

/// The contributions as reasons.
pub open spec fn as_reasons(s: Seq<Contribution>) -> Seq<(Seq<char>, Seq<char>, i32)> {
    s.map_values(|x: Contribution| (x.0, x.2, x.1 as i32))
}

/// The pressure reasons as contributions' source triples.
pub open spec fn pressure_view(p: Seq<PressureReason>) -> Seq<(Seq<char>, i32, Seq<char>)> {
    p.map_values(|r: PressureReason| r@)
}

/// The scored view of a candidate.
pub open spec fn spec_scored(
    request: InferenceRequest,
    c: CandidateView,
    keep_small_worker_hot: bool,
    pressure: Seq<(Seq<char>, i32, Seq<char>)>,
) -> ScoredView {
    let s = spec_contributions(request, c, keep_small_worker_hot, pressure);
    ScoredView {
        action: c.action,
        candidate: c,
        background_model: None,
        total: sum_values(s) as i32,
        contributions: as_score_entries(s),
        reasons: as_reasons(s),
    }
}

struct Acc {
    score: DecisionScore,
    reasons: Vec<DecisionReason>,
}

/// Whether `acc` holds exactly the first `k` contributions of `all`.
spec fn acc_holds(acc: Acc, all: Seq<Contribution>, k: int) -> bool {
    &&& 0 <= k <= all.len()
    &&& contributions_view(acc.score.contributions@) == as_score_entries(all.take(k))
    &&& reasons_view(acc.reasons@) == as_reasons(all.take(k))
    &&& acc.score.total == sum_values(all.take(k))
}

/// Adds contribution `k` of `all` to a score and its reasons.
fn push(acc: &mut Acc, label: &str, value: i32, detail: String, Ghost(all): Ghost<Seq<Contribution>>, Ghost(k): Ghost<int>)
    requires
        acc_holds(*old(acc), all, k),
        k < all.len(),
        all[k] == (label@, value as int, detail@),
        sums_fit(all),
    ensures
        acc_holds(*final(acc), all, k + 1),
{
    assert(fits_i32(sum_values(all.take(k + 1))));
    assert(all.take(k + 1).drop_last() =~= all.take(k));
    let ghost old_c = acc.score.contributions@;
    let ghost old_r = acc.reasons@;
    acc.score.total = acc.score.total + value;
    let c = ScoreContribution { label: String::from_str(label), value };
    let r = DecisionReason { code: String::from_str(label), detail, impact: value };
    acc.score.contributions.push(c);
    acc.reasons.push(r);
    assert(contributions_view(old_c.push(c)) =~= contributions_view(old_c).push(c@));
    assert(as_score_entries(all.take(k + 1)) =~= as_score_entries(all.take(k)).push((label@, value)));
    assert(reasons_view(old_r.push(r)) =~= reasons_view(old_r).push(r@));
    assert(as_reasons(all.take(k + 1)) =~= as_reasons(all.take(k)).push((label@, detail@, value)));
}

/// Scores `candidate` for `request`. `pressure` is the pressure model's
/// assessment of the candidate's pressure inputs; its reasons join the
/// contributions in order.
pub fn score_candidate(
    request: &InferenceRequest,
    candidate: &Candidate,
    keep_small_worker_hot: bool,
    pressure: &Vec<PressureReason>,
) -> (r: ScoredCandidate)
    requires
        score_fits(*request, candidate@, keep_small_worker_hot, pressure_view(pressure@)),
    ensures
        r@ == spec_scored(*request, candidate@, keep_small_worker_hot, pressure_view(pressure@)),
{
    let ghost cv = candidate@;
    let ghost all = spec_contributions(*request, cv, keep_small_worker_hot, pressure_view(pressure@));
    let ghost o1: int = base_part(cv).len() as int;
    let ghost o2: int = o1 + latency_part(*request, cv).len();
    let ghost o3: int = o2 + fit_part(*request, cv).len();
    let ghost o4: int = o3 + pressure_part(pressure_view(pressure@)).len();
    let ghost o5: int = o4 + continuity_part(cv, keep_small_worker_hot).len();
    assert(all =~= base_part(cv) + latency_part(*request, cv) + fit_part(*request, cv)
        + pressure_part(pressure_view(pressure@)) + continuity_part(cv, keep_small_worker_hot) + streaming_part(cv));
    let mut acc = Acc { score: DecisionScore { total: 0, contributions: Vec::new() }, reasons: Vec::new() };
    assert(contributions_view(acc.score.contributions@) =~= as_score_entries(all.take(0)));
    assert(reasons_view(acc.reasons@) =~= as_reasons(all.take(0)));
    let ghost lat = latency_part(*request, cv);
    let ghost fit = fit_part(*request, cv);
    let ghost press = pressure_part(pressure_view(pressure@));
    let ghost tail = continuity_part(cv, keep_small_worker_hot) + streaming_part(cv);
    assert(all =~= base_part(cv) + lat + fit + press + tail);
    assert(all.take(3) =~= base_part(cv));
    assert(all.subrange(o1, o2) =~= lat);
    assert(all.subrange(o2, o3) =~= fit);
    assert(all.subrange(o4, all.len() as int) =~= tail);
    assert forall|t: int| 0 <= t < pressure@.len() implies all[o3 + t] == (pressure@[t].code@, pressure@[t].impact as int, pressure@[t].detail@) by {
        assert(all[o3 + t] == press[t]);
    }
    let mut acc = base_contributions(acc, candidate, Ghost(all));
    let mut acc = optional_contributions(acc, request, candidate, Ghost(all), Ghost(o1));
    let ghost mut k: int = o3;
    let mut j: usize = 0;
    while j < pressure.len()
        invariant
            all == spec_contributions(*request, cv, keep_small_worker_hot, pressure_view(pressure@)),
            sums_fit(all),
            0 <= j <= pressure@.len(),
            k == o3 + j,
            o4 == o3 + pressure@.len(),
            o4 <= all.len(),
            forall|t: int| 0 <= t < pressure@.len() ==> all[o3 + t] == (pressure@[t].code@, pressure@[t].impact as int, pressure@[t].detail@),
            acc_holds(acc, all, k),
        decreases pressure@.len() - j,
    {
        let p = &pressure[j];
        push(&mut acc, p.code.as_str(), p.impact, p.detail.clone(), Ghost(all), Ghost(k));
        proof { k = k + 1; }
        j = j + 1;
    }
    let acc = tail_contributions(acc, candidate, keep_small_worker_hot, Ghost(all), Ghost(o4));
    assert(all.take(all.len() as int) =~= all);
    ScoredCandidate {
        action: candidate.action,
        candidate: candidate.clone(),
        background_model: None,
        score: acc.score,
        reasons: acc.reasons,
    }
}

fn base_contributions(acc: Acc, candidate: &Candidate, Ghost(all): Ghost<Seq<Contribution>>) -> (r: Acc)
    requires
        acc_holds(acc, all, 0),
        sums_fit(all),
        all.len() >= 3,
        all.take(3) == base_part(candidate@),
        (candidate@.load_estimate_ms / 1000) as i32 != i32::MIN,
    ensures
        acc_holds(r, all, 3),
{
    let mut acc = acc;
    let model = &candidate.model_profile;
    let state = candidate.residency_state;
    assert(all[0] == all.take(3)[0]);
    assert(all[1] == all.take(3)[1]);
    assert(all[2] == all.take(3)[2]);
    let mut d = String::new();
    d.append(model.id.as_str());
    d.append(" satisfies the configured roster quality target");
    push(&mut acc, "quality", quality_score(model), d, Ghost(all), Ghost(0));
    let mut d = String::new();
    d.append(model.id.as_str());
    d.append(" is currently ");
    d.append(state.name());
    push(&mut acc, "residency", state.reuse_bonus(), d, Ghost(all), Ghost(1));
    let mut d = String::from_str("estimated load cost is ");
    push_u64(&mut d, candidate.load_estimate_ms);
    d.append("ms");
    let secs = (candidate.load_estimate_ms / 1000) as i32;
    push(&mut acc, "load_penalty", -secs, d, Ghost(all), Ghost(2));
    acc
}

fn optional_contributions(acc: Acc, request: &InferenceRequest, candidate: &Candidate, Ghost(all): Ghost<Seq<Contribution>>, Ghost(o1): Ghost<int>) -> (r: Acc)
    requires
        acc_holds(acc, all, o1),
        sums_fit(all),
        o1 + latency_part(*request, candidate@).len() + fit_part(*request, candidate@).len() <= all.len(),
        all.subrange(o1, o1 + latency_part(*request, candidate@).len()) == latency_part(*request, candidate@),
        all.subrange(o1 + latency_part(*request, candidate@).len(),
            o1 + latency_part(*request, candidate@).len() + fit_part(*request, candidate@).len()) == fit_part(*request, candidate@),
        match request.latency_budget_ms {
            Some(b) => candidate@.load_estimate_ms > b ==> ((candidate@.load_estimate_ms - b) / 500) as i32 != i32::MIN,
            None => true,
        },
    ensures
        acc_holds(r, all, o1 + latency_part(*request, candidate@).len() + fit_part(*request, candidate@).len()),
{
    let mut acc = acc;
    let model = &candidate.model_profile;
    let ghost mut k: int = o1;
    if let Some(budget) = request.latency_budget_ms {
        assert(all[k] == all.subrange(o1, o1 + 1)[0]);
        let penalty = if candidate.load_estimate_ms > budget {
            -(((candidate.load_estimate_ms - budget) / 500) as i32)
        } else {
            10
        };
        let mut d = String::from_str("latency budget is ");
        push_u64(&mut d, budget);
        d.append("ms");
        push(&mut acc, "latency_budget", penalty, d, Ghost(all), Ghost(k));
        proof { k = k + 1; }
    }
    if let Some((required, available)) = context_window_fit(request, model) {
        assert(all[k] == all.subrange(k, k + 1)[0]);
        let mut d = String::from_str("request requires ");
        push_u64(&mut d, required as u64);
        d.append(" token(s) and ");
        d.append(model.id.as_str());
        d.append(" provides a ");
        push_u64(&mut d, available as u64);
        d.append(" token context window");
        push(&mut acc, "context_window.fit", 10, d, Ghost(all), Ghost(k));
        proof { k = k + 1; }
    }
    acc
}

fn tail_contributions(acc: Acc, candidate: &Candidate, keep_small_worker_hot: bool, Ghost(all): Ghost<Seq<Contribution>>, Ghost(o4): Ghost<int>) -> (r: Acc)
    requires
        acc_holds(acc, all, o4),
        sums_fit(all),
        o4 + continuity_part(candidate@, keep_small_worker_hot).len() + streaming_part(candidate@).len() == all.len(),
        all.subrange(o4, all.len() as int) == continuity_part(candidate@, keep_small_worker_hot) + streaming_part(candidate@),
    ensures
        acc_holds(r, all, all.len() as int),
{
    let mut acc = acc;
    let model = &candidate.model_profile;
    let ghost mut k: int = o4;
    if candidate.group_keep_hot || keep_small_worker_hot {
        assert(all[k] == all.subrange(o4, all.len() as int)[0]);
        let mut d = String::new();
        d.append(model.id.as_str());
        d.append(" belongs to a continuity-friendly residency group");
        push(&mut acc, "continuity", 20, d, Ghost(all), Ghost(k));
        proof { k = k + 1; }
    }
    if let Some(supports) = model.supports_streaming {
        assert(all[k] == all.subrange(o4, all.len() as int)[k - o4]);
        let mut d = String::new();
        d.append(model.id.as_str());
        if supports {
            d.append(" supports streaming responses");
        } else {
            d.append(" does not support streaming responses");
        }
        push(&mut acc, "streaming_capability", 0, d, Ghost(all), Ghost(k));
        proof { k = k + 1; }
    }
    acc
}

/// The summary of a selection: the staged model too for background staging,
/// the action's name otherwise.
pub open spec fn summary_of(s: ScoredView) -> Seq<char> {
    match s.background_model {
        Some(bg) => if s.action == DecisionAction::StageBackground {
            "Selected "@ + s.candidate.model_id + " via "@ + s.candidate.runtime_id + " and staged "@ + bg
                + " to avoid an interactive cold-load wait."@
        } else {
            "Selected "@ + s.candidate.model_id + " via "@ + s.candidate.runtime_id + " with action "@
                + s.action.spec_name() + "."@
        },
        None => "Selected "@ + s.candidate.model_id + " via "@ + s.candidate.runtime_id + " with action "@
            + s.action.spec_name() + "."@,
    }
}

/// The decision selecting `s` for `request`.
pub open spec fn selection_view(
    request: InferenceRequest,
    s: ScoredView,
    rejected: Seq<(Option<Seq<char>>, Option<Seq<char>>, Seq<char>)>,
) -> DecisionView {
    DecisionView {
        request_id: request.id@,
        action: s.action,
        selected_model: Some(s.candidate.model_id),
        selected_runtime: Some(s.candidate.runtime_id),
        selected_group: Some(s.candidate.group_id),
        background_model: s.background_model,
        total: s.total,
        contributions: s.contributions,
        summary: summary_of(s),
        reasons: s.reasons,
        rejected_options: rejected,
    }
}

impl ScoredCandidate {
    /// The decision selecting this candidate (see [`selection_view`]). A
    /// background-staging candidate must name the model it stages.
    pub fn into_decision(self, request: &InferenceRequest, rejected_options: Vec<RejectedOption>, stamp: DecisionStamp) -> (r: Decision)
        requires
            self.action == DecisionAction::StageBackground ==> self.background_model is Some,
        ensures
            r@ == selection_view(*request, self@, rejected_view(rejected_options@)),
            r.id == stamp.id,
            r.created_at == stamp.created_at,
    {
        let mut summary = String::from_str("Selected ");
        summary.append(self.candidate.model_id.as_str());
        summary.append(" via ");
        summary.append(self.candidate.runtime_id.as_str());
        match &self.background_model {
            Some(bg) => if self.action == DecisionAction::StageBackground {
                summary.append(" and staged ");
                summary.append(bg.as_str());
                summary.append(" to avoid an interactive cold-load wait.");
            } else {
                summary.append(" with action ");
                summary.append(self.action.name());
                summary.append(".");
            },
            None => {
                summary.append(" with action ");
                summary.append(self.action.name());
                summary.append(".");
            },
        }
        Decision {
            id: stamp.id,
            request_id: request.id.clone(),
            action: self.action,
            selected_model: Some(self.candidate.model_id),
            selected_runtime: Some(self.candidate.runtime_id),
            selected_group: Some(self.candidate.group_id),
            background_model: self.background_model,
            score: self.score,
            explanation: Explanation { summary, reasons: self.reasons, rejected_options },
            created_at: stamp.created_at,
        }
    }
}

/// The sum of the values of a score's contributions.
pub open spec fn contribution_total(s: Seq<(Seq<char>, i32)>) -> int
    decreases s.len(),
{
    if s.len() == 0 { 0 } else { contribution_total(s.drop_last()) + s.last().1 }
}

/// Whether every value of `s` fits an `i32`.
pub open spec fn values_fit(s: Seq<Contribution>) -> bool {
    forall|k: int| 0 <= k < s.len() ==> fits_i32(#[trigger] s[k].1)
}

proof fn lemma_values_fit_concat(a: Seq<Contribution>, b: Seq<Contribution>)
    requires
        values_fit(a),
        values_fit(b),
    ensures
        values_fit(a + b),
{
    assert forall|k: int| 0 <= k < (a + b).len() implies fits_i32(#[trigger] (a + b)[k].1) by {
        if k < a.len() {
            assert((a + b)[k] == a[k]);
        } else {
            assert((a + b)[k] == b[k - a.len()]);
        }
    }
}

proof fn lemma_contribution_values_fit(
    request: InferenceRequest,
    c: CandidateView,
    keep_small_worker_hot: bool,
    pressure: Seq<(Seq<char>, i32, Seq<char>)>,
)
    requires
        score_fits(request, c, keep_small_worker_hot, pressure),
    ensures
        values_fit(spec_contributions(request, c, keep_small_worker_hot, pressure)),
{
    let b = base_part(c);
    assert(fits_i32(b[0].1) && fits_i32(b[1].1) && fits_i32(b[2].1));
    let l = latency_part(request, c);
    let f = fit_part(request, c);
    let p = pressure_part(pressure);
    assert forall|k: int| 0 <= k < p.len() implies fits_i32(#[trigger] p[k].1) by {
        assert(p[k].1 == pressure[k].1 as int);
    }
    let n = continuity_part(c, keep_small_worker_hot);
    let st = streaming_part(c);
    lemma_values_fit_concat(b, l);
    lemma_values_fit_concat(b + l, f);
    lemma_values_fit_concat(b + l + f, p);
    lemma_values_fit_concat(b + l + f + p, n);
    lemma_values_fit_concat(b + l + f + p + n, st);
}

proof fn lemma_entries_total(s: Seq<Contribution>)
    requires
        values_fit(s),
    ensures
        contribution_total(as_score_entries(s)) == sum_values(s),
    decreases s.len(),
{
    if s.len() > 0 {
        assert(as_score_entries(s).drop_last() =~= as_score_entries(s.drop_last()));
        assert(values_fit(s.drop_last())) by {
            assert forall|k: int| 0 <= k < s.drop_last().len() implies fits_i32(#[trigger] s.drop_last()[k].1) by {
                assert(s.drop_last()[k] == s[k]);
            }
        }
        lemma_entries_total(s.drop_last());
        assert(fits_i32(s[s.len() - 1].1));
    }
}

/// A score adds up: its total is the sum of the values of its contributions.
pub proof fn law_score_total_is_sum_of_contributions(
    request: InferenceRequest,
    c: CandidateView,
    keep_small_worker_hot: bool,
    pressure: Seq<(Seq<char>, i32, Seq<char>)>,
)
    requires
        score_fits(request, c, keep_small_worker_hot, pressure),
    ensures
        spec_scored(request, c, keep_small_worker_hot, pressure).total
            == contribution_total(spec_scored(request, c, keep_small_worker_hot, pressure).contributions),
{
    let all = spec_contributions(request, c, keep_small_worker_hot, pressure);
    lemma_contribution_values_fit(request, c, keep_small_worker_hot, pressure);
    lemma_entries_total(all);
    assert(all.take(all.len() as int) =~= all);
    assert(fits_i32(sum_values(all.take(all.len() as int))));
}

} // verus!
