//! Coordination of concurrent residency transitions.
//!
//! Concurrent requests may ask for incompatible residency states of one
//! runtime. The coordinator arbitrates them: a request is served now, joined
//! to work already in flight, degraded to a hot worker, staged, rejected, or
//! takes over an expired (or out-ranked) owner. It only keeps a lease table;
//! it never loads anything.
//!
//! Each active transition carries its owner, a fencing token and a lease
//! expiry. Tokens come from a monotonic counter, so a take-over always hands
//! out a token no earlier owner holds, and a stale owner's completion is
//! refused.

use vstd::prelude::*;
use vstd::string::*;
use crate::ids::{ModelId, RuntimeId, ResidencyGroupId};
use crate::decisions::{DecisionReason, RejectedOption};
use crate::text::{decimal, push_u64, str_lt, lex_lt};

verus! {

/// A request to bring a runtime's residency to `desired_model`.
#[derive(Debug)]
pub struct TransitionRequest {
    pub runtime_id: RuntimeId,
    pub residency_group_id: ResidencyGroupId,
    pub desired_model: ModelId,
    /// The instance making the request.
    pub owner_instance: String,
    /// Higher priority wins a conflict.
    pub priority: u32,
    pub latency_budget_ms: Option<u64>,
    /// Interactive requests outrank background ones at equal priority.
    pub interactive: bool,
    /// True for a background pre-stage rather than an immediate need.
    pub background: bool,
    /// Whether the target runtime is currently available.
    pub runtime_available: bool,
    /// A hot, policy-compatible worker the caller may fall back to.
    pub hot_compatible_model: Option<ModelId>,
}

/// An in-flight transition that owns a runtime under a fenced lease.
#[derive(Debug, PartialEq, Eq)]
pub struct ActiveTransition {
    pub runtime_id: RuntimeId,
    pub residency_group_id: ResidencyGroupId,
    pub desired_model: ModelId,
    pub owner_instance: String,
    /// Issued from the coordinator's monotonic counter.
    pub fencing_token: u64,
    pub lease_expires_at_ms: u64,
    /// Serving leases held against this transition; while any is held the
    /// transition cannot be preempted.
    pub serving_leases: u32,
    /// The priority of the request that installed this transition.
    pub priority: u32,
    /// Whether that request was interactive.
    pub interactive: bool,
}

impl Clone for ActiveTransition {
    fn clone(&self) -> (r: Self)
        ensures
            r == *self,
    {
        ActiveTransition {
            runtime_id: self.runtime_id.clone(),
            residency_group_id: self.residency_group_id.clone(),
            desired_model: self.desired_model.clone(),
            owner_instance: self.owner_instance.clone(),
            fencing_token: self.fencing_token,
            lease_expires_at_ms: self.lease_expires_at_ms,
            serving_leases: self.serving_leases,
            priority: self.priority,
            interactive: self.interactive,
        }
    }
}

/// The arbitration outcome for a transition request.
#[derive(Debug, PartialEq, Eq)]
pub enum TransitionPath {
    /// Joined a transition already loading the same model.
    Joined { fencing_token: u64 },
    /// Started a new transition; the requester owns it.
    Started { fencing_token: u64 },
    /// Scheduled a background stage; the requester owns it.
    Staged { fencing_token: u64 },
    /// Took over an expired or out-ranked owner's transition.
    TookOver { fencing_token: u64, previous_owner: String },
    /// Served an already-hot compatible worker instead of waiting.
    ServedHot { model: ModelId },
    /// Lost a conflict to another owner.
    Rejected { winner_instance: String },
    /// The runtime is unavailable.
    RuntimeUnavailable,
}

/// A transition decision: the path plus reasons and rejected options.
#[derive(Debug, PartialEq, Eq)]
pub struct TransitionDecision {
    pub path: TransitionPath,
    pub reasons: Vec<DecisionReason>,
    pub rejected: Vec<RejectedOption>,
}

impl TransitionDecision {
    /// True when at least one reason is recorded.
    pub fn is_explained(&self) -> (r: bool)
        ensures
            r == (self.reasons@.len() > 0),
    {
        self.reasons.len() > 0
    }
}

/// Whether `r` is the zero-impact reason with the given code and detail.
pub open spec fn is_reason(r: DecisionReason, code: Seq<char>, detail: Seq<char>) -> bool {
    r.code@ == code && r.detail@ == detail && r.impact == 0
}

/// Whether `o` names `model` on `runtime` with the given reason text.
pub open spec fn is_rejection(o: RejectedOption, model: Seq<char>, runtime: Seq<char>, reason: Seq<char>) -> bool {
    &&& o.model_id matches Some(m) && m@ == model
    &&& o.runtime_id matches Some(r) && r@ == runtime
    &&& o.reason@ == reason
}

fn reason(code: &str, detail: String) -> (r: DecisionReason)
    ensures
        is_reason(r, code@, detail@),
{
    DecisionReason { code: String::from_str(code), detail, impact: 0 }
}

fn rejection(model: &ModelId, runtime: &RuntimeId, reason: String) -> (r: RejectedOption)
    ensures
        is_rejection(r, model@, runtime@, reason@),
{
    RejectedOption { model_id: Some(model.clone()), runtime_id: Some(runtime.clone()), reason }
}

/// The abstract state of a coordinator: its lease length, the active
/// transition of each runtime (keyed by runtime id), and the next token.
pub struct CoordinatorView {
    pub lease_ttl_ms: u64,
    pub active: Map<Seq<char>, ActiveTransition>,
    pub next_fencing_token: u64,
}

/// Coordinates residency transitions for a set of runtimes. At most one
/// transition owns a runtime at a time.
#[derive(Debug)]
pub struct TransitionCoordinator {
    lease_ttl_ms: u64,
    active: Vec<ActiveTransition>,
    next_fencing_token: u64,
}

/// The map from runtime id to the entry of `active` for it.
pub open spec fn entries_map(active: Seq<ActiveTransition>) -> Map<Seq<char>, ActiveTransition> {
    Map::new(
        |k: Seq<char>| exists|i: int| 0 <= i < active.len() && (#[trigger] active[i]).runtime_id@ == k,
        |k: Seq<char>| active[choose|i: int| 0 <= i < active.len() && (#[trigger] active[i]).runtime_id@ == k],
    )
}

/// No runtime id occurs twice.
pub open spec fn unique_runtimes(active: Seq<ActiveTransition>) -> bool {
    forall|i: int, j: int|
        0 <= i < active.len() && 0 <= j < active.len() && i != j
            ==> (#[trigger] active[i]).runtime_id@ != (#[trigger] active[j]).runtime_id@
}

proof fn lemma_entry_at(active: Seq<ActiveTransition>, i: int)
    requires
        unique_runtimes(active),
        0 <= i < active.len(),
    ensures
        entries_map(active).contains_key(active[i].runtime_id@),
        entries_map(active)[active[i].runtime_id@] == active[i],
{
    let k = active[i].runtime_id@;
    assert(active[i].runtime_id@ == k);
    let j = choose|j: int| 0 <= j < active.len() && (#[trigger] active[j]).runtime_id@ == k;
    assert(i == j);
}

proof fn lemma_no_entry(active: Seq<ActiveTransition>, k: Seq<char>)
    requires
        forall|i: int| 0 <= i < active.len() ==> (#[trigger] active[i]).runtime_id@ != k,
    ensures
        !entries_map(active).contains_key(k),
{
}

proof fn lemma_push_entry(active: Seq<ActiveTransition>, t: ActiveTransition)
    requires
        unique_runtimes(active),
        !entries_map(active).contains_key(t.runtime_id@),
    ensures
        unique_runtimes(active.push(t)),
        entries_map(active.push(t)) == entries_map(active).insert(t.runtime_id@, t),
{
    let s = active.push(t);
    assert forall|i: int| 0 <= i < active.len() implies (#[trigger] active[i]).runtime_id@ != t.runtime_id@ by {
        if active[i].runtime_id@ == t.runtime_id@ {
            assert(entries_map(active).contains_key(t.runtime_id@));
        }
    }
    assert(unique_runtimes(s));
    assert forall|k: Seq<char>| #[trigger] entries_map(s).contains_key(k) == entries_map(active).insert(t.runtime_id@, t).contains_key(k) by {
        if k == t.runtime_id@ {
            assert(s[active.len() as int].runtime_id@ == k);
        } else if entries_map(active).contains_key(k) {
            let i = choose|i: int| 0 <= i < active.len() && (#[trigger] active[i]).runtime_id@ == k;
            assert(s[i].runtime_id@ == k);
        }
    }
    assert forall|k: Seq<char>| #[trigger] entries_map(s).contains_key(k) implies entries_map(s)[k] == entries_map(active).insert(t.runtime_id@, t)[k] by {
        if k == t.runtime_id@ {
            lemma_entry_at(s, active.len() as int);
        } else {
            let i = choose|i: int| 0 <= i < s.len() && (#[trigger] s[i]).runtime_id@ == k;
            assert(i < active.len());
            lemma_entry_at(s, i);
            lemma_entry_at(active, i);
        }
    }
    assert(entries_map(s) =~= entries_map(active).insert(t.runtime_id@, t));
}

proof fn lemma_update_entry(active: Seq<ActiveTransition>, i: int, t: ActiveTransition)
    requires
        unique_runtimes(active),
        0 <= i < active.len(),
        t.runtime_id@ == active[i].runtime_id@,
    ensures
        unique_runtimes(active.update(i, t)),
        entries_map(active.update(i, t)) == entries_map(active).insert(t.runtime_id@, t),
{
    let s = active.update(i, t);
    assert(unique_runtimes(s));
    lemma_entry_at(active, i);
    assert forall|k: Seq<char>| #[trigger] entries_map(s).contains_key(k) == entries_map(active).insert(t.runtime_id@, t).contains_key(k) by {
        if entries_map(active).contains_key(k) {
            let j = choose|j: int| 0 <= j < active.len() && (#[trigger] active[j]).runtime_id@ == k;
            assert(s[j].runtime_id@ == k);
        }
        if entries_map(s).contains_key(k) {
            let j = choose|j: int| 0 <= j < s.len() && (#[trigger] s[j]).runtime_id@ == k;
            assert(active[j].runtime_id@ == k);
        }
    }
    assert forall|k: Seq<char>| #[trigger] entries_map(s).contains_key(k) implies entries_map(s)[k] == entries_map(active).insert(t.runtime_id@, t)[k] by {
        let j = choose|j: int| 0 <= j < s.len() && (#[trigger] s[j]).runtime_id@ == k;
        lemma_entry_at(s, j);
        if j != i {
            lemma_entry_at(active, j);
        }
    }
    assert(entries_map(s) =~= entries_map(active).insert(t.runtime_id@, t));
}

proof fn lemma_remove_entry(active: Seq<ActiveTransition>, i: int)
    requires
        unique_runtimes(active),
        0 <= i < active.len(),
    ensures
        unique_runtimes(active.remove(i)),
        entries_map(active.remove(i)) == entries_map(active).remove(active[i].runtime_id@),
{
    let s = active.remove(i);
    let key = active[i].runtime_id@;
    assert forall|a: int, b: int| 0 <= a < s.len() && 0 <= b < s.len() && a != b
        implies (#[trigger] s[a]).runtime_id@ != (#[trigger] s[b]).runtime_id@ by {
        let a2 = if a < i { a } else { a + 1 };
        let b2 = if b < i { b } else { b + 1 };
        assert(s[a] == active[a2]);
        assert(s[b] == active[b2]);
    }
    assert forall|k: Seq<char>| #[trigger] entries_map(s).contains_key(k) == entries_map(active).remove(key).contains_key(k) by {
        if entries_map(s).contains_key(k) {
            let j = choose|j: int| 0 <= j < s.len() && (#[trigger] s[j]).runtime_id@ == k;
            let j2 = if j < i { j } else { j + 1 };
            assert(s[j] == active[j2]);
            assert(active[j2].runtime_id@ == k);
            assert(j2 != i);
        }
        if entries_map(active).contains_key(k) && k != key {
            let j = choose|j: int| 0 <= j < active.len() && (#[trigger] active[j]).runtime_id@ == k;
            assert(j != i);
            let j2 = if j < i { j } else { j - 1 };
            assert(s[j2] == active[j]);
        }
    }
    assert forall|k: Seq<char>| #[trigger] entries_map(s).contains_key(k) implies entries_map(s)[k] == entries_map(active).remove(key)[k] by {
        let j = choose|j: int| 0 <= j < s.len() && (#[trigger] s[j]).runtime_id@ == k;
        let j2 = if j < i { j } else { j + 1 };
        assert(s[j] == active[j2]);
        lemma_entry_at(s, j);
        lemma_entry_at(active, j2);
    }
    assert(entries_map(s) =~= entries_map(active).remove(key));
}

/// The transition `req` would install at `now_ms` with `token`.
pub open spec fn installed(req: TransitionRequest, now_ms: u64, ttl: u64, token: u64) -> ActiveTransition {
    ActiveTransition {
        runtime_id: req.runtime_id,
        residency_group_id: req.residency_group_id,
        desired_model: req.desired_model,
        owner_instance: req.owner_instance,
        fencing_token: token,
        lease_expires_at_ms: (now_ms + ttl) as u64,
        serving_leases: 0,
        priority: req.priority,
        interactive: req.interactive,
    }
}

/// Deterministic conflict winner: does `incoming` preempt `active`? Serving
/// leases protect the active transition absolutely; the same owner always
/// wins its own runtime; then higher priority, then interactive over
/// background, then the lexicographically smaller instance id.
pub open spec fn spec_incoming_wins(incoming: TransitionRequest, active: ActiveTransition) -> bool {
    if active.serving_leases > 0 {
        false
    } else if incoming.owner_instance@ == active.owner_instance@ {
        true
    } else if incoming.priority > active.priority {
        true
    } else if incoming.priority < active.priority {
        false
    } else if incoming.interactive && !active.interactive {
        true
    } else if !incoming.interactive && active.interactive {
        false
    } else {
        lex_lt(incoming.owner_instance@, active.owner_instance@)
    }
}

/// How a request is resolved against the state of its runtime.
pub enum Outcome {
    Unavailable,
    Fresh,
    TakeOverExpired,
    Join,
    ServeHot,
    StageBlocked,
    TakeOverWon,
    Lose,
}

/// The resolution of `req` at `now_ms` against coordinator state `v`.
pub open spec fn outcome(v: CoordinatorView, req: TransitionRequest, now_ms: u64) -> Outcome {
    if !req.runtime_available {
        Outcome::Unavailable
    } else if !v.active.contains_key(req.runtime_id@) {
        Outcome::Fresh
    } else {
        let a = v.active[req.runtime_id@];
        if now_ms >= a.lease_expires_at_ms {
            Outcome::TakeOverExpired
        } else if a.desired_model@ == req.desired_model@ {
            Outcome::Join
        } else if req.interactive && req.hot_compatible_model is Some {
            Outcome::ServeHot
        } else if req.background {
            Outcome::StageBlocked
        } else if spec_incoming_wins(req, a) {
            Outcome::TakeOverWon
        } else {
            Outcome::Lose
        }
    }
}

/// Whether resolving `req` at `now_ms` installs it under a new token: a
/// fresh start or a take-over.
pub open spec fn installs(v: CoordinatorView, req: TransitionRequest, now_ms: u64) -> bool {
    match outcome(v, req, now_ms) {
        Outcome::Fresh | Outcome::TakeOverExpired | Outcome::TakeOverWon => true,
        _ => false,
    }
}

/// Whether installing `req` at `now_ms` fits the machine: the next token
/// can be issued and the lease end is representable.
pub open spec fn install_fits(v: CoordinatorView, now_ms: u64) -> bool {
    v.next_fencing_token < u64::MAX && now_ms + v.lease_ttl_ms <= u64::MAX
}

/// The coordinator state after resolving `req` at `now_ms`: a fresh start or
/// a take-over installs the request under the next token; every other
/// outcome leaves the state unchanged.
pub open spec fn spec_after(v: CoordinatorView, req: TransitionRequest, now_ms: u64) -> CoordinatorView {
    match outcome(v, req, now_ms) {
        Outcome::Fresh | Outcome::TakeOverExpired | Outcome::TakeOverWon => CoordinatorView {
            lease_ttl_ms: v.lease_ttl_ms,
            active: v.active.insert(req.runtime_id@, installed(req, now_ms, v.lease_ttl_ms, v.next_fencing_token)),
            next_fencing_token: (v.next_fencing_token + 1) as u64,
        },
        _ => v,
    }
}

/// The path chosen for `req` at `now_ms`.
pub open spec fn spec_path(v: CoordinatorView, req: TransitionRequest, now_ms: u64) -> TransitionPath {
    let token = v.next_fencing_token;
    match outcome(v, req, now_ms) {
        Outcome::Unavailable => TransitionPath::RuntimeUnavailable,
        Outcome::Fresh => if req.background {
            TransitionPath::Staged { fencing_token: token }
        } else {
            TransitionPath::Started { fencing_token: token }
        },
        Outcome::TakeOverExpired | Outcome::TakeOverWon => TransitionPath::TookOver {
            fencing_token: token,
            previous_owner: v.active[req.runtime_id@].owner_instance,
        },
        Outcome::Join => TransitionPath::Joined { fencing_token: v.active[req.runtime_id@].fencing_token },
        Outcome::ServeHot => TransitionPath::ServedHot { model: req.hot_compatible_model->0 },
        Outcome::StageBlocked | Outcome::Lose => TransitionPath::Rejected {
            winner_instance: v.active[req.runtime_id@].owner_instance,
        },
    }
}

/// The reason code recorded for each outcome.
pub open spec fn spec_code(v: CoordinatorView, req: TransitionRequest, now_ms: u64) -> Seq<char> {
    match outcome(v, req, now_ms) {
        Outcome::Unavailable => "transition.runtime_unavailable"@,
        Outcome::Fresh => if req.background { "transition.staged"@ } else { "transition.started"@ },
        Outcome::TakeOverExpired | Outcome::TakeOverWon => "transition.took_over"@,
        Outcome::Join => "transition.joined"@,
        Outcome::ServeHot => "transition.served_hot"@,
        Outcome::StageBlocked => "transition.stage_blocked"@,
        Outcome::Lose => "transition.rejected"@,
    }
}

/// Why a take-over happened.
pub open spec fn take_over_why(v: CoordinatorView, req: TransitionRequest, now_ms: u64) -> Seq<char> {
    if outcome(v, req, now_ms) == Outcome::TakeOverExpired {
        "owner lease expired"@
    } else {
        "won the conflict on policy inputs"@
    }
}

/// The note on serving leases appended to a lost conflict.
pub open spec fn serving_note(a: ActiveTransition) -> Seq<char> {
    if a.serving_leases > 0 {
        " ("@ + decimal(a.serving_leases as nat) + " active serving lease(s) protect it from preemption)"@
    } else {
        Seq::empty()
    }
}

/// The detail text recorded for each outcome.
pub open spec fn spec_detail(v: CoordinatorView, req: TransitionRequest, now_ms: u64) -> Seq<char> {
    let owner = req.owner_instance@;
    let rt = req.runtime_id@;
    let model = req.desired_model@;
    let token = decimal(v.next_fencing_token as nat);
    let a = v.active[rt];
    match outcome(v, req, now_ms) {
        Outcome::Unavailable => "runtime "@ + rt + " is unavailable; "@ + owner + " cannot transition to "@ + model + " now"@,
        Outcome::Fresh => if req.background {
            owner + " staged background load of "@ + model + " on "@ + rt
                + " (no transition in flight); fencing token "@ + token
        } else {
            owner + " started transition of "@ + rt + " to "@ + model + "; fencing token "@ + token
        },
        Outcome::TakeOverExpired | Outcome::TakeOverWon => owner + " took over "@ + rt + " from "@
            + a.owner_instance@ + " ("@ + take_over_why(v, req, now_ms) + "); previous fencing token "@
            + decimal(a.fencing_token as nat) + " fenced off, new token "@ + token,
        Outcome::Join => owner + " joined the in-flight transition of "@ + rt + " to "@ + model
            + " owned by "@ + a.owner_instance@ + " (fencing token "@ + decimal(a.fencing_token as nat)
            + "); no duplicate load started"@,
        Outcome::ServeHot => owner + " served hot worker "@ + req.hot_compatible_model->0@
            + " now instead of waiting on "@ + a.owner_instance@ + "'s in-flight load of "@
            + a.desired_model@ + " on "@ + rt + " (continuity over a blank wait)"@,
        Outcome::StageBlocked => "background stage of "@ + model + " on "@ + rt + " blocked: "@
            + a.owner_instance@ + " holds an in-flight transition to "@ + a.desired_model@
            + " (fencing token "@ + decimal(a.fencing_token as nat) + ")"@,
        Outcome::Lose => owner + "'s request for "@ + model + " on "@ + rt + " lost to "@
            + a.owner_instance@ + "'s in-flight transition to "@ + a.desired_model@ + serving_note(a),
    }
}

/// The options rejected for each outcome, as (model, runtime, reason).
pub open spec fn spec_rejected(v: CoordinatorView, req: TransitionRequest, now_ms: u64) -> Seq<(Seq<char>, Seq<char>, Seq<char>)> {
    let rt = req.runtime_id@;
    let model = req.desired_model@;
    let a = v.active[rt];
    match outcome(v, req, now_ms) {
        Outcome::Unavailable => seq![(model, rt, "target runtime is unavailable"@)],
        Outcome::Fresh | Outcome::Join => Seq::empty(),
        Outcome::TakeOverExpired | Outcome::TakeOverWon => seq![(a.desired_model@, rt,
            "previous owner "@ + a.owner_instance@ + " "@ + take_over_why(v, req, now_ms))],
        Outcome::ServeHot => seq![(model, rt, "would collide with "@ + a.owner_instance@
            + "'s in-flight transition to "@ + a.desired_model@ + "; served hot "@
            + req.hot_compatible_model->0@ + " instead"@)],
        Outcome::StageBlocked => seq![(model, rt, "active transition to "@ + a.desired_model@
            + " owned by "@ + a.owner_instance@ + " must not be displaced by a background stage"@)],
        Outcome::Lose => seq![(model, rt, "conflicting transition to "@ + a.desired_model@
            + " owned by "@ + a.owner_instance@ + " won on policy inputs"@)],
    }
}

/// Whether `d` is exactly the decision the specification gives for `req`.
pub open spec fn decision_matches(d: TransitionDecision, v: CoordinatorView, req: TransitionRequest, now_ms: u64) -> bool {
    &&& d.path == spec_path(v, req, now_ms)
    &&& d.reasons@.len() == 1
    &&& is_reason(d.reasons@[0], spec_code(v, req, now_ms), spec_detail(v, req, now_ms))
    &&& d.rejected@.len() == spec_rejected(v, req, now_ms).len()
    &&& forall|i: int| 0 <= i < d.rejected@.len() ==> is_rejection(#[trigger] d.rejected@[i],
            spec_rejected(v, req, now_ms)[i].0, spec_rejected(v, req, now_ms)[i].1,
            spec_rejected(v, req, now_ms)[i].2)
}

impl View for TransitionCoordinator {
    type V = CoordinatorView;

    closed spec fn view(&self) -> CoordinatorView {
        CoordinatorView {
            lease_ttl_ms: self.lease_ttl_ms,
            active: entries_map(self.active@),
            next_fencing_token: self.next_fencing_token,
        }
    }
}

impl TransitionCoordinator {
    /// The coordinator's internal invariant: one entry per runtime, every
    /// issued token below the next one, and the counter positive.
    pub closed spec fn wf(&self) -> bool {
        &&& unique_runtimes(self.active@)
        &&& self.next_fencing_token >= 1
        &&& forall|i: int| 0 <= i < self.active@.len() ==> (#[trigger] self.active@[i]).fencing_token < self.next_fencing_token
    }

    /// Every active transition holds a token below the next one to issue.
    pub proof fn lemma_tokens_below_next(&self)
        requires
            self.wf(),
        ensures
            self@.next_fencing_token >= 1,
            forall|k: Seq<char>| #[trigger] self@.active.contains_key(k)
                ==> self@.active[k].fencing_token < self@.next_fencing_token && self@.active[k].runtime_id@ == k,
    {
        assert forall|k: Seq<char>| #[trigger] self@.active.contains_key(k)
            implies self@.active[k].fencing_token < self@.next_fencing_token && self@.active[k].runtime_id@ == k by {
            let i = choose|i: int| 0 <= i < self.active@.len() && (#[trigger] self.active@[i]).runtime_id@ == k;
            lemma_entry_at(self.active@, i);
        }
    }

    /// A coordinator with no active transitions and leases of `lease_ttl_ms`.
    pub fn new(lease_ttl_ms: u64) -> (r: TransitionCoordinator)
        ensures
            r.wf(),
            r@.lease_ttl_ms == lease_ttl_ms,
            r@.active == Map::<Seq<char>, ActiveTransition>::empty(),
            r@.next_fencing_token == 1,
    {
        let r = TransitionCoordinator { lease_ttl_ms, active: Vec::new(), next_fencing_token: 1 };
        assert(entries_map(r.active@) =~= Map::<Seq<char>, ActiveTransition>::empty());
        r
    }

    fn find(&self, runtime_id: &RuntimeId) -> (r: Option<usize>)
        requires
            self.wf(),
        ensures
            match r {
                Some(i) => i < self.active@.len() && self.active@[i as int].runtime_id@ == runtime_id@
                    && self@.active.contains_key(runtime_id@)
                    && self@.active[runtime_id@] == self.active@[i as int],
                None => !self@.active.contains_key(runtime_id@),
            },
    {
        let mut i: usize = 0;
        while i < self.active.len()
            invariant
                self.wf(),
                0 <= i <= self.active@.len(),
                forall|j: int| 0 <= j < i ==> (#[trigger] self.active@[j]).runtime_id@ != runtime_id@,
            decreases self.active@.len() - i,
        {
            if self.active[i].runtime_id.same(runtime_id) {
                proof { lemma_entry_at(self.active@, i as int); }
                return Some(i);
            }
            i = i + 1;
        }
        proof { lemma_no_entry(self.active@, runtime_id@); }
        None
    }

    /// The active transition for a runtime, if any (regardless of expiry).
    pub fn active_transition(&self, runtime_id: &RuntimeId) -> (r: Option<&ActiveTransition>)
        requires
            self.wf(),
        ensures
            match r {
                Some(a) => self@.active.contains_key(runtime_id@) && *a == self@.active[runtime_id@],
                None => !self@.active.contains_key(runtime_id@),
            },
    {
        match self.find(runtime_id) {
            Some(i) => Some(&self.active[i]),
            None => None,
        }
    }

    fn issue_token(&mut self) -> (token: u64)
        requires
            old(self).wf(),
            old(self).next_fencing_token < u64::MAX,
        ensures
            final(self).wf(),
            token == old(self).next_fencing_token,
            final(self).next_fencing_token == token + 1,
            final(self).active@ == old(self).active@,
            final(self).lease_ttl_ms == old(self).lease_ttl_ms,
    {
        let token = self.next_fencing_token;
        self.next_fencing_token = self.next_fencing_token + 1;
        token
    }

    fn install(&mut self, req: &TransitionRequest, now_ms: u64) -> (token: u64)
        requires
            old(self).wf(),
            old(self).next_fencing_token < u64::MAX,
            now_ms + old(self).lease_ttl_ms <= u64::MAX,
        ensures
            final(self).wf(),
            token == old(self)@.next_fencing_token,
            final(self)@ == (CoordinatorView {
                lease_ttl_ms: old(self)@.lease_ttl_ms,
                active: old(self)@.active.insert(req.runtime_id@,
                    installed(*req, now_ms, old(self)@.lease_ttl_ms, token)),
                next_fencing_token: (token + 1) as u64,
            }),
    {
        let idx = self.find(&req.runtime_id);
        let fencing_token = self.issue_token();
        let t = ActiveTransition {
            runtime_id: req.runtime_id.clone(),
            residency_group_id: req.residency_group_id.clone(),
            desired_model: req.desired_model.clone(),
            owner_instance: req.owner_instance.clone(),
            fencing_token,
            lease_expires_at_ms: now_ms + self.lease_ttl_ms,
            serving_leases: 0,
            priority: req.priority,
            interactive: req.interactive,
        };
        let ghost before = self.active@;
        match idx {
            Some(i) => {
                proof { lemma_update_entry(before, i as int, t); }
                self.active.set(i, t);
            },
            None => {
                proof { lemma_push_entry(before, t); }
                self.active.push(t);
            },
        }
        proof {
            assert forall|i: int| 0 <= i < self.active@.len() implies (#[trigger] self.active@[i]).fencing_token < self.next_fencing_token by {
                if i < before.len() && self.active@[i] == before[i] {
                } else {
                }
            }
        }
        fencing_token
    }

    /// Arbitrates a transition request against the active transition of its
    /// runtime. Only the lease table changes; no load is performed.
    pub fn request_transition(&mut self, req: TransitionRequest, now_ms: u64) -> (r: TransitionDecision)
        requires
            old(self).wf(),
            installs(old(self)@, req, now_ms) ==> install_fits(old(self)@, now_ms),
        ensures
            final(self).wf(),
            final(self)@ == spec_after(old(self)@, req, now_ms),
            decision_matches(r, old(self)@, req, now_ms),
    {
        let ghost v = self@;
        if !req.runtime_available {
            let mut d = String::from_str("runtime ");
            d.append(req.runtime_id.as_str());
            d.append(" is unavailable; ");
            d.append(req.owner_instance.as_str());
            d.append(" cannot transition to ");
            d.append(req.desired_model.as_str());
            d.append(" now");
            let reasons = vec![reason("transition.runtime_unavailable", d)];
            let rejected = vec![rejection(&req.desired_model, &req.runtime_id, String::from_str("target runtime is unavailable"))];
            return TransitionDecision { path: TransitionPath::RuntimeUnavailable, reasons, rejected };
        }
        match self.find(&req.runtime_id) {
            None => self.start_fresh(req, now_ms),
            Some(i) => {
                let active = self.active[i].clone();
                if now_ms >= active.lease_expires_at_ms {
                    self.take_over(req, now_ms, &active, true)
                } else if active.desired_model.same(&req.desired_model) {
                    self.join(req, &active)
                } else {
                    self.resolve_conflict(req, now_ms, &active)
                }
            },
        }
    }

    fn start_fresh(&mut self, req: TransitionRequest, now_ms: u64) -> (r: TransitionDecision)
        requires
            old(self).wf(),
            old(self)@.next_fencing_token < u64::MAX,
            now_ms + old(self)@.lease_ttl_ms <= u64::MAX,
            req.runtime_available,
            !old(self)@.active.contains_key(req.runtime_id@),
        ensures
            final(self).wf(),
            final(self)@ == spec_after(old(self)@, req, now_ms),
            decision_matches(r, old(self)@, req, now_ms),
    {
        let token = self.install(&req, now_ms);
        let mut d = String::new();
        let path;
        let code;
        if req.background {
            d.append(req.owner_instance.as_str());
            d.append(" staged background load of ");
            d.append(req.desired_model.as_str());
            d.append(" on ");
            d.append(req.runtime_id.as_str());
            d.append(" (no transition in flight); fencing token ");
            push_u64(&mut d, token);
            path = TransitionPath::Staged { fencing_token: token };
            code = "transition.staged";
        } else {
            d.append(req.owner_instance.as_str());
            d.append(" started transition of ");
            d.append(req.runtime_id.as_str());
            d.append(" to ");
            d.append(req.desired_model.as_str());
            d.append("; fencing token ");
            push_u64(&mut d, token);
            path = TransitionPath::Started { fencing_token: token };
            code = "transition.started";
        }
        let reasons = vec![reason(code, d)];
        TransitionDecision { path, reasons, rejected: Vec::new() }
    }

    fn join(&self, req: TransitionRequest, active: &ActiveTransition) -> (r: TransitionDecision)
        requires
            self.wf(),
            req.runtime_available,
            self@.active.contains_key(req.runtime_id@),
            *active == self@.active[req.runtime_id@],
            outcome(self@, req, 0) != Outcome::Unavailable,
        ensures
            forall|now_ms: u64| outcome(self@, req, now_ms) == Outcome::Join ==> decision_matches(r, self@, req, now_ms),
    {
        let mut d = String::new();
        d.append(req.owner_instance.as_str());
        d.append(" joined the in-flight transition of ");
        d.append(req.runtime_id.as_str());
        d.append(" to ");
        d.append(req.desired_model.as_str());
        d.append(" owned by ");
        d.append(active.owner_instance.as_str());
        d.append(" (fencing token ");
        push_u64(&mut d, active.fencing_token);
        d.append("); no duplicate load started");
        let reasons = vec![reason("transition.joined", d)];
        TransitionDecision { path: TransitionPath::Joined { fencing_token: active.fencing_token }, reasons, rejected: Vec::new() }
    }

    fn take_over(&mut self, req: TransitionRequest, now_ms: u64, previous: &ActiveTransition, expired: bool) -> (r: TransitionDecision)
        requires
            old(self).wf(),
            old(self)@.next_fencing_token < u64::MAX,
            now_ms + old(self)@.lease_ttl_ms <= u64::MAX,
            old(self)@.active.contains_key(req.runtime_id@),
            *previous == old(self)@.active[req.runtime_id@],
            outcome(old(self)@, req, now_ms) == (if expired { Outcome::TakeOverExpired } else { Outcome::TakeOverWon }),
        ensures
            final(self).wf(),
            final(self)@ == spec_after(old(self)@, req, now_ms),
            decision_matches(r, old(self)@, req, now_ms),
    {
        let why = if expired { "owner lease expired" } else { "won the conflict on policy inputs" };
        let previous_owner = previous.owner_instance.clone();
        let token = self.install(&req, now_ms);
        let mut d = String::new();
        d.append(req.owner_instance.as_str());
        d.append(" took over ");
        d.append(req.runtime_id.as_str());
        d.append(" from ");
        d.append(previous_owner.as_str());
        d.append(" (");
        d.append(why);
        d.append("); previous fencing token ");
        push_u64(&mut d, previous.fencing_token);
        d.append(" fenced off, new token ");
        push_u64(&mut d, token);
        let mut because = String::from_str("previous owner ");
        because.append(previous_owner.as_str());
        because.append(" ");
        because.append(why);
        let reasons = vec![reason("transition.took_over", d)];
        let rejected = vec![rejection(&previous.desired_model, &req.runtime_id, because)];
        TransitionDecision {
            path: TransitionPath::TookOver { fencing_token: token, previous_owner },
            reasons,
            rejected,
        }
    }

    fn resolve_conflict(&mut self, req: TransitionRequest, now_ms: u64, active: &ActiveTransition) -> (r: TransitionDecision)
        requires
            old(self).wf(),
            installs(old(self)@, req, now_ms) ==> install_fits(old(self)@, now_ms),
            req.runtime_available,
            old(self)@.active.contains_key(req.runtime_id@),
            *active == old(self)@.active[req.runtime_id@],
            now_ms < active.lease_expires_at_ms,
            active.desired_model@ != req.desired_model@,
        ensures
            final(self).wf(),
            final(self)@ == spec_after(old(self)@, req, now_ms),
            decision_matches(r, old(self)@, req, now_ms),
    {
        if req.interactive && req.hot_compatible_model.is_some() {
            let hot = match &req.hot_compatible_model { Some(h) => h.clone(), None => req.desired_model.clone() };
            let mut d = String::new();
            d.append(req.owner_instance.as_str());
            d.append(" served hot worker ");
            d.append(hot.as_str());
            d.append(" now instead of waiting on ");
            d.append(active.owner_instance.as_str());
            d.append("'s in-flight load of ");
            d.append(active.desired_model.as_str());
            d.append(" on ");
            d.append(req.runtime_id.as_str());
            d.append(" (continuity over a blank wait)");
            let mut because = String::from_str("would collide with ");
            because.append(active.owner_instance.as_str());
            because.append("'s in-flight transition to ");
            because.append(active.desired_model.as_str());
            because.append("; served hot ");
            because.append(hot.as_str());
            because.append(" instead");
            let reasons = vec![reason("transition.served_hot", d)];
            let rejected = vec![rejection(&req.desired_model, &req.runtime_id, because)];
            return TransitionDecision { path: TransitionPath::ServedHot { model: hot }, reasons, rejected };
        }
        if req.background {
            let mut d = String::from_str("background stage of ");
            d.append(req.desired_model.as_str());
            d.append(" on ");
            d.append(req.runtime_id.as_str());
            d.append(" blocked: ");
            d.append(active.owner_instance.as_str());
            d.append(" holds an in-flight transition to ");
            d.append(active.desired_model.as_str());
            d.append(" (fencing token ");
            push_u64(&mut d, active.fencing_token);
            d.append(")");
            let mut because = String::from_str("active transition to ");
            because.append(active.desired_model.as_str());
            because.append(" owned by ");
            because.append(active.owner_instance.as_str());
            because.append(" must not be displaced by a background stage");
            let reasons = vec![reason("transition.stage_blocked", d)];
            let rejected = vec![rejection(&req.desired_model, &req.runtime_id, because)];
            return TransitionDecision {
                path: TransitionPath::Rejected { winner_instance: active.owner_instance.clone() },
                reasons,
                rejected,
            };
        }
        if incoming_wins(&req, active) {
            self.take_over(req, now_ms, active, false)
        } else {
            let mut d = String::new();
            d.append(req.owner_instance.as_str());
            d.append("'s request for ");
            d.append(req.desired_model.as_str());
            d.append(" on ");
            d.append(req.runtime_id.as_str());
            d.append(" lost to ");
            d.append(active.owner_instance.as_str());
            d.append("'s in-flight transition to ");
            d.append(active.desired_model.as_str());
            let mut note = String::new();
            if active.serving_leases > 0 {
                note.append(" (");
                push_u64(&mut note, active.serving_leases as u64);
                note.append(" active serving lease(s) protect it from preemption)");
            }
            assert(note@ == serving_note(*active));
            d.append(note.as_str());
            let mut because = String::from_str("conflicting transition to ");
            because.append(active.desired_model.as_str());
            because.append(" owned by ");
            because.append(active.owner_instance.as_str());
            because.append(" won on policy inputs");
            let reasons = vec![reason("transition.rejected", d)];
            let rejected = vec![rejection(&req.desired_model, &req.runtime_id, because)];
            TransitionDecision {
                path: TransitionPath::Rejected { winner_instance: active.owner_instance.clone() },
                reasons,
                rejected,
            }
        }
    }

    /// Records a serving lease against a runtime's active transition,
    /// protecting it from preemption. Returns false when there is none.
    pub fn acquire_serving_lease(&mut self, runtime_id: &RuntimeId) -> (r: bool)
        requires
            old(self).wf(),
            old(self)@.active.contains_key(runtime_id@) ==> old(self)@.active[runtime_id@].serving_leases < u32::MAX,
        ensures
            final(self).wf(),
            r == old(self)@.active.contains_key(runtime_id@),
            r ==> final(self)@ == (CoordinatorView {
                active: old(self)@.active.insert(runtime_id@, ActiveTransition {
                    serving_leases: (old(self)@.active[runtime_id@].serving_leases + 1) as u32,
                    ..old(self)@.active[runtime_id@]
                }),
                ..old(self)@
            }),
            !r ==> final(self)@ == old(self)@,
    {
        match self.find(runtime_id) {
            Some(i) => {
                let mut t = self.active[i].clone();
                t.serving_leases = t.serving_leases + 1;
                proof { lemma_update_entry(self.active@, i as int, t); }
                self.active.set(i, t);
                true
            },
            None => false,
        }
    }

    /// Releases a serving lease (saturating at zero).
    pub fn release_serving_lease(&mut self, runtime_id: &RuntimeId)
        requires
            old(self).wf(),
        ensures
            final(self).wf(),
            old(self)@.active.contains_key(runtime_id@) ==> final(self)@ == (CoordinatorView {
                active: old(self)@.active.insert(runtime_id@, ActiveTransition {
                    serving_leases: if old(self)@.active[runtime_id@].serving_leases > 0 {
                        (old(self)@.active[runtime_id@].serving_leases - 1) as u32
                    } else {
                        0
                    },
                    ..old(self)@.active[runtime_id@]
                }),
                ..old(self)@
            }),
            !old(self)@.active.contains_key(runtime_id@) ==> final(self)@ == old(self)@,
    {
        match self.find(runtime_id) {
            Some(i) => {
                let mut t = self.active[i].clone();
                t.serving_leases = if t.serving_leases > 0 { t.serving_leases - 1 } else { 0 };
                proof { lemma_update_entry(self.active@, i as int, t); }
                self.active.set(i, t);
            },
            None => {},
        }
    }

    /// Completes and clears the active transition of a runtime, but only for
    /// its current fencing token; a stale token is refused.
    pub fn complete(&mut self, runtime_id: &RuntimeId, fencing_token: u64) -> (r: bool)
        requires
            old(self).wf(),
        ensures
            final(self).wf(),
            r == (old(self)@.active.contains_key(runtime_id@)
                && old(self)@.active[runtime_id@].fencing_token == fencing_token),
            r ==> final(self)@ == (CoordinatorView { active: old(self)@.active.remove(runtime_id@), ..old(self)@ }),
            !r ==> final(self)@ == old(self)@,
    {
        match self.find(runtime_id) {
            Some(i) => {
                if self.active[i].fencing_token == fencing_token {
                    proof { lemma_remove_entry(self.active@, i as int); }
                    self.active.remove(i);
                    true
                } else {
                    false
                }
            },
            None => false,
        }
    }
}

/// Whether `incoming` preempts `active` (see [`spec_incoming_wins`]; the
/// arbitration laws are [`law_conflict_winner_is_order_independent`]).
pub fn incoming_wins(incoming: &TransitionRequest, active: &ActiveTransition) -> (r: bool)
    ensures
        r == spec_incoming_wins(*incoming, *active),
{
    if active.serving_leases > 0 {
        return false;
    }
    if incoming.owner_instance == active.owner_instance {
        return true;
    }
    if incoming.priority > active.priority {
        true
    } else if incoming.priority < active.priority {
        false
    } else if incoming.interactive && !active.interactive {
        true
    } else if !incoming.interactive && active.interactive {
        false
    } else {
        str_lt(incoming.owner_instance.as_str(), active.owner_instance.as_str())
    }
}

} // verus!

verus! {

/// Fencing: a take-over installs a token strictly greater than the token of
/// the transition it replaces, so the previous owner's token can no longer
/// complete the transition.
pub proof fn law_take_over_advances_token(c: &TransitionCoordinator, req: TransitionRequest, now_ms: u64)
    requires
        c.wf(),
        c@.next_fencing_token < u64::MAX,
        outcome(c@, req, now_ms) == Outcome::TakeOverExpired || outcome(c@, req, now_ms) == Outcome::TakeOverWon,
    ensures
        spec_after(c@, req, now_ms).active[req.runtime_id@].fencing_token
            > c@.active[req.runtime_id@].fencing_token,
        spec_after(c@, req, now_ms).active[req.runtime_id@].owner_instance == req.owner_instance,
{
    c.lemma_tokens_below_next();
}

/// Tokens are monotonic: resolving any request never lowers the next token,
/// and every token issued stays below it.
pub proof fn law_tokens_monotonic(c: &TransitionCoordinator, req: TransitionRequest, now_ms: u64)
    requires
        c.wf(),
        c@.next_fencing_token < u64::MAX,
    ensures
        spec_after(c@, req, now_ms).next_fencing_token >= c@.next_fencing_token,
        forall|k: Seq<char>| #[trigger] spec_after(c@, req, now_ms).active.contains_key(k)
            ==> spec_after(c@, req, now_ms).active[k].fencing_token < spec_after(c@, req, now_ms).next_fencing_token,
{
    c.lemma_tokens_below_next();
}

/// Only a fresh start or a take-over changes the lease table; joining,
/// serving hot, a blocked stage, a lost conflict and an unavailable runtime
/// leave it as it was.
pub proof fn law_non_installing_outcomes_keep_state(c: &TransitionCoordinator, req: TransitionRequest, now_ms: u64)
    requires
        c.wf(),
        !(outcome(c@, req, now_ms) == Outcome::Fresh || outcome(c@, req, now_ms) == Outcome::TakeOverExpired
            || outcome(c@, req, now_ms) == Outcome::TakeOverWon),
    ensures
        spec_after(c@, req, now_ms) == c@,
{
}

/// Joining reuses the fencing token of the in-flight transition: a second
/// request for the model already being loaded starts no duplicate work.
pub proof fn law_join_reuses_token(c: &TransitionCoordinator, req: TransitionRequest, now_ms: u64)
    requires
        c.wf(),
        req.runtime_available,
        c@.active.contains_key(req.runtime_id@),
        now_ms < c@.active[req.runtime_id@].lease_expires_at_ms,
        c@.active[req.runtime_id@].desired_model@ == req.desired_model@,
    ensures
        spec_path(c@, req, now_ms) == (TransitionPath::Joined { fencing_token: c@.active[req.runtime_id@].fencing_token }),
        spec_after(c@, req, now_ms) == c@,
{
}

/// A serving lease protects an unexpired transition: no conflicting request
/// takes it over before the lease expires.
pub proof fn law_serving_lease_blocks_preemption(c: &TransitionCoordinator, req: TransitionRequest, now_ms: u64)
    requires
        c.wf(),
        c@.active.contains_key(req.runtime_id@),
        c@.active[req.runtime_id@].serving_leases > 0,
        now_ms < c@.active[req.runtime_id@].lease_expires_at_ms,
    ensures
        outcome(c@, req, now_ms) != Outcome::TakeOverWon,
        outcome(c@, req, now_ms) != Outcome::TakeOverExpired,
{
}

/// Every transition decision is explained by exactly one reason whose code
/// lies in the `transition.` namespace.
pub proof fn law_every_decision_explained(d: TransitionDecision, v: CoordinatorView, req: TransitionRequest, now_ms: u64)
    requires
        decision_matches(d, v, req, now_ms),
    ensures
        d.reasons@.len() == 1,
        d.reasons@[0].code@.take(11) == "transition."@,
        d.rejected@.len() > 0 <==> (d.path is Rejected || d.path is ServedHot || d.path is TookOver
            || d.path is RuntimeUnavailable),
{
    reveal_strlit("transition.");
    reveal_strlit("transition.runtime_unavailable");
    reveal_strlit("transition.staged");
    reveal_strlit("transition.started");
    reveal_strlit("transition.took_over");
    reveal_strlit("transition.joined");
    reveal_strlit("transition.served_hot");
    reveal_strlit("transition.stage_blocked");
    reveal_strlit("transition.rejected");
    assert(d.reasons@[0].code@.take(11) =~= "transition."@);
}

/// Arbitration does not depend on arrival order: for two requests from
/// different instances, neither holding a serving lease, exactly one wins
/// against the other's installed transition. A transition that holds a
/// serving lease is never out-ranked.
pub proof fn law_conflict_winner_is_order_independent(
    a: TransitionRequest,
    b: TransitionRequest,
    now_ms: u64,
    ttl: u64,
    token: u64,
    held: ActiveTransition,
)
    requires
        a.owner_instance@ != b.owner_instance@,
    ensures
        spec_incoming_wins(a, installed(b, now_ms, ttl, token))
            != spec_incoming_wins(b, installed(a, now_ms, ttl, token)),
        held.serving_leases > 0 ==> !spec_incoming_wins(a, held),
{
    crate::text::lemma_lex_lt_trichotomy(a.owner_instance@, b.owner_instance@);
}

/// The token a path issues: a start, a stage or a take-over issues one;
/// joining reuses the active token and the other paths issue none.
pub open spec fn issued_token(p: TransitionPath) -> Option<u64> {
    match p {
        TransitionPath::Started { fencing_token } => Some(fencing_token),
        TransitionPath::Staged { fencing_token } => Some(fencing_token),
        TransitionPath::TookOver { fencing_token, .. } => Some(fencing_token),
        _ => None,
    }
}

/// The coordinator state before the `k`-th of the `calls` (request and
/// time), each resolved in turn from `v`.
pub open spec fn state_before(v: CoordinatorView, calls: Seq<(TransitionRequest, u64)>, k: nat) -> CoordinatorView
    decreases k,
{
    if k == 0 || k > calls.len() {
        v
    } else {
        let p = state_before(v, calls, (k - 1) as nat);
        spec_after(p, calls[k - 1].0, calls[k - 1].1)
    }
}

/// The path the `k`-th call takes.
pub open spec fn path_of_call(v: CoordinatorView, calls: Seq<(TransitionRequest, u64)>, k: nat) -> TransitionPath {
    spec_path(state_before(v, calls, k), calls[k as int].0, calls[k as int].1)
}

proof fn lemma_issue_step(v: CoordinatorView, calls: Seq<(TransitionRequest, u64)>, k: nat)
    requires
        k < calls.len(),
        v.next_fencing_token + calls.len() <= u64::MAX,
        state_before(v, calls, k).next_fencing_token <= v.next_fencing_token + k,
    ensures
        state_before(v, calls, k + 1).next_fencing_token == (if issued_token(path_of_call(v, calls, k)) is Some {
            state_before(v, calls, k).next_fencing_token + 1
        } else {
            state_before(v, calls, k).next_fencing_token as int
        }),
        issued_token(path_of_call(v, calls, k)) matches Some(t) ==> t == state_before(v, calls, k).next_fencing_token,
{
}

proof fn lemma_next_bounds(v: CoordinatorView, calls: Seq<(TransitionRequest, u64)>, a: nat, b: nat)
    requires
        a <= b <= calls.len(),
        v.next_fencing_token + calls.len() <= u64::MAX,
    ensures
        state_before(v, calls, b).next_fencing_token <= v.next_fencing_token + b,
        state_before(v, calls, a).next_fencing_token <= state_before(v, calls, b).next_fencing_token,
    decreases b,
{
    if b > 0 {
        if a < b {
            lemma_next_bounds(v, calls, a, (b - 1) as nat);
        } else {
            lemma_next_bounds(v, calls, (b - 1) as nat, (b - 1) as nat);
        }
        lemma_issue_step(v, calls, (b - 1) as nat);
    }
}

/// Fencing tokens strictly increase over a sequence of calls and are never
/// reused: of any two calls that issue a token (a start, a stage or a
/// take-over), the later one issues the larger token. Each issued token is
/// the one the installed transition then holds; a join carries the active
/// transition's token, and a call that issues none (join, serve hot,
/// rejection, unavailable runtime) leaves the state as it was. (The counter is assumed not
/// to run past `u64::MAX` over the sequence.)
pub proof fn law_issued_tokens_increase(
    v: CoordinatorView,
    calls: Seq<(TransitionRequest, u64)>,
    i: nat,
    j: nat,
)
    requires
        i < j < calls.len(),
        v.next_fencing_token + calls.len() <= u64::MAX,
    ensures
        issued_token(path_of_call(v, calls, i)) matches Some(ti) ==>
            issued_token(path_of_call(v, calls, j)) matches Some(tj) ==> ti < tj,
        issued_token(path_of_call(v, calls, i)) matches Some(ti) ==>
            state_before(v, calls, i + 1).active[calls[i as int].0.runtime_id@].fencing_token == ti,
        path_of_call(v, calls, j) matches TransitionPath::Joined { fencing_token: tj } ==>
            tj == state_before(v, calls, j).active[calls[j as int].0.runtime_id@].fencing_token
                && state_before(v, calls, j + 1) == state_before(v, calls, j),
        issued_token(path_of_call(v, calls, j)) is None ==> state_before(v, calls, j + 1) == state_before(v, calls, j),
{
    lemma_next_bounds(v, calls, i, i);
    lemma_next_bounds(v, calls, i + 1, j);
    lemma_next_bounds(v, calls, j, j);
    lemma_issue_step(v, calls, i);
    lemma_issue_step(v, calls, j);
}

/// The tokens that the first `n` of the `calls` issue, in call order.
pub open spec fn issued_tokens(v: CoordinatorView, calls: Seq<(TransitionRequest, u64)>, n: nat) -> Seq<u64>
    decreases n,
{
    if n == 0 || n > calls.len() {
        Seq::empty()
    } else {
        let prev = issued_tokens(v, calls, (n - 1) as nat);
        match issued_token(path_of_call(v, calls, (n - 1) as nat)) {
            Some(t) => prev.push(t),
            None => prev,
        }
    }
}

proof fn lemma_issued_tokens(v: CoordinatorView, calls: Seq<(TransitionRequest, u64)>, n: nat)
    requires
        n <= calls.len(),
        v.next_fencing_token + calls.len() <= u64::MAX,
    ensures
        forall|a: int, b: int| 0 <= a < b < issued_tokens(v, calls, n).len()
            ==> issued_tokens(v, calls, n)[a] < issued_tokens(v, calls, n)[b],
        forall|a: int| 0 <= a < issued_tokens(v, calls, n).len()
            ==> issued_tokens(v, calls, n)[a] < state_before(v, calls, n).next_fencing_token,
    decreases n,
{
    if n > 0 {
        let m = (n - 1) as nat;
        lemma_issued_tokens(v, calls, m);
        lemma_next_bounds(v, calls, m, m);
        lemma_issue_step(v, calls, m);
        let prev = issued_tokens(v, calls, m);
        let nx = state_before(v, calls, m).next_fencing_token;
        match issued_token(path_of_call(v, calls, m)) {
            Some(t) => {
                let cur = prev.push(t);
                assert(issued_tokens(v, calls, n) == cur);
                assert(t == nx);
                assert(state_before(v, calls, n).next_fencing_token == nx + 1);
                assert forall|a: int, b: int| 0 <= a < b < cur.len() implies cur[a] < cur[b] by {
                    assert(cur[a] == prev[a]);
                    if b < prev.len() {
                        assert(cur[b] == prev[b]);
                    }
                }
                assert forall|a: int| 0 <= a < cur.len() implies cur[a] < state_before(v, calls, n).next_fencing_token by {
                    if a < prev.len() {
                        assert(cur[a] == prev[a]);
                    }
                }
            },
            None => {
                assert(issued_tokens(v, calls, n) == prev);
                assert(state_before(v, calls, n).next_fencing_token == nx);
            },
        }
    }
}

/// Over a whole sequence of calls on one coordinator, the tokens issued (by
/// starts, stages and take-overs, in call order) strictly increase: no token
/// is ever issued twice. (The counter is assumed not to run past `u64::MAX`
/// over the sequence.)
pub proof fn law_issued_token_sequence_increases(v: CoordinatorView, calls: Seq<(TransitionRequest, u64)>)
    requires
        v.next_fencing_token + calls.len() <= u64::MAX,
    ensures
        forall|a: int, b: int| 0 <= a < b < issued_tokens(v, calls, calls.len()).len()
            ==> issued_tokens(v, calls, calls.len())[a] < issued_tokens(v, calls, calls.len())[b],
{
    lemma_issued_tokens(v, calls, calls.len());
}

/// Priority decides a conflict between instances: against an unexpired
/// transition for another model, owned by another instance and holding no
/// serving lease, a request that neither stages in the background nor can
/// be served by a hot fallback takes the runtime over when its priority is
/// strictly higher (under the next token, as its owner), and is rejected in
/// favour of the active owner, leaving everything as it was, when its
/// priority is strictly lower.
pub proof fn law_higher_priority_takes_over(v: CoordinatorView, req: TransitionRequest, now_ms: u64)
    requires
        req.runtime_available,
        v.active.contains_key(req.runtime_id@),
        now_ms < v.active[req.runtime_id@].lease_expires_at_ms,
        v.active[req.runtime_id@].serving_leases == 0,
        v.active[req.runtime_id@].owner_instance@ != req.owner_instance@,
        v.active[req.runtime_id@].desired_model@ != req.desired_model@,
        !req.background,
        !(req.interactive && req.hot_compatible_model is Some),
    ensures
        req.priority > v.active[req.runtime_id@].priority ==> {
            &&& spec_path(v, req, now_ms) == (TransitionPath::TookOver {
                fencing_token: v.next_fencing_token,
                previous_owner: v.active[req.runtime_id@].owner_instance,
            })
            &&& spec_after(v, req, now_ms).active[req.runtime_id@].owner_instance == req.owner_instance
            &&& spec_after(v, req, now_ms).active[req.runtime_id@].desired_model == req.desired_model
        },
        req.priority < v.active[req.runtime_id@].priority ==> {
            &&& spec_path(v, req, now_ms) == (TransitionPath::Rejected {
                winner_instance: v.active[req.runtime_id@].owner_instance,
            })
            &&& spec_after(v, req, now_ms) == v
        },
{
}

/// The rest of conflict arbitration, on the same footing as
/// [`law_higher_priority_takes_over`]: a request from the active owner's own
/// instance takes over; at equal priority an interactive request beats a
/// non-interactive owner and loses to an interactive owner when it is not
/// interactive itself; otherwise the lexicographically smaller instance id
/// wins. A serving lease blocks any take-over.
pub proof fn law_conflict_tie_breaks(v: CoordinatorView, req: TransitionRequest, now_ms: u64)
    requires
        req.runtime_available,
        v.active.contains_key(req.runtime_id@),
        now_ms < v.active[req.runtime_id@].lease_expires_at_ms,
        v.active[req.runtime_id@].desired_model@ != req.desired_model@,
        !req.background,
        !(req.interactive && req.hot_compatible_model is Some),
    ensures
        v.active[req.runtime_id@].serving_leases > 0 ==> spec_path(v, req, now_ms) is Rejected && spec_after(v, req, now_ms) == v,
        v.active[req.runtime_id@].serving_leases == 0 && v.active[req.runtime_id@].owner_instance@ == req.owner_instance@
            ==> spec_path(v, req, now_ms) is TookOver,
        ({
            let a = v.active[req.runtime_id@];
            a.serving_leases == 0 && a.owner_instance@ != req.owner_instance@ && req.priority == a.priority ==> {
                &&& (req.interactive && !a.interactive ==> spec_path(v, req, now_ms) is TookOver)
                &&& (!req.interactive && a.interactive ==> spec_path(v, req, now_ms) is Rejected)
                &&& (req.interactive == a.interactive ==>
                    (spec_path(v, req, now_ms) is TookOver <==> lex_lt(req.owner_instance@, a.owner_instance@)))
            }
        }),
{
}

} // verus!
