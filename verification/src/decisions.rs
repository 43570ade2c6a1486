use vstd::prelude::*;
use crate::ids::{ModelId, RuntimeId, ResidencyGroupId, RequestId};

verus! {

/// `uuid::Uuid`, carried opaquely as a decision or plan identifier.
#[verifier::external_type_specification]
#[verifier::external_body]
pub struct ExUuid(uuid::Uuid);

/// `uuid::Uuid`'s `==`: `Uuid` derives `PartialEq` over its sixteen bytes,
/// which are all there is to it, so two identifiers compare equal exactly
/// when they are the same value.
#[verifier::external_body]
pub(crate) fn same_uuid(a: &uuid::Uuid, b: &uuid::Uuid) -> (r: bool)
    ensures
        r == (*a == *b),
{
    a == b
}

/// What a decision is stamped with: a fresh identifier and the time it is
/// made, in milliseconds since the Unix epoch. The caller draws both (from a
/// random source and the clock) and hands them in.
#[derive(Debug)]
pub struct DecisionStamp {
    pub id: uuid::Uuid,
    pub created_at: i64,
}

/// The scheduling action a decision takes.
#[derive(Debug, PartialEq, Eq, Structural, Clone, Copy)]
pub enum DecisionAction {
    ReuseHot,
    PromoteWarm,
    ColdLoad,
    StageBackground,
    Downgrade,
    Defer,
    Deny,
}

impl DecisionAction {
    /// The variant name, as `{:?}` renders it.
    pub open spec fn spec_name(self) -> Seq<char> {
        match self {
            DecisionAction::ReuseHot => "ReuseHot"@,
            DecisionAction::PromoteWarm => "PromoteWarm"@,
            DecisionAction::ColdLoad => "ColdLoad"@,
            DecisionAction::StageBackground => "StageBackground"@,
            DecisionAction::Downgrade => "Downgrade"@,
            DecisionAction::Defer => "Defer"@,
            DecisionAction::Deny => "Deny"@,
        }
    }

    /// The variant name, as `{:?}` renders it.
    pub fn name(&self) -> (r: &'static str)
        ensures
            r@ == self.spec_name(),
    {
        match self {
            DecisionAction::ReuseHot => "ReuseHot",
            DecisionAction::PromoteWarm => "PromoteWarm",
            DecisionAction::ColdLoad => "ColdLoad",
            DecisionAction::StageBackground => "StageBackground",
            DecisionAction::Downgrade => "Downgrade",
            DecisionAction::Defer => "Defer",
            DecisionAction::Deny => "Deny",
        }
    }
}

/// One labelled contribution to a decision score.
#[derive(Debug, PartialEq, Eq)]
pub struct ScoreContribution {
    pub label: String,
    pub value: i32,
}

impl View for ScoreContribution {
    type V = (Seq<char>, i32);

    open spec fn view(&self) -> (Seq<char>, i32) {
        (self.label@, self.value)
    }
}

impl Clone for ScoreContribution {
    fn clone(&self) -> (r: Self)
        ensures
            r == *self,
    {
        ScoreContribution { label: self.label.clone(), value: self.value }
    }
}

/// A decision score: the total and the contributions that make it up.
#[derive(Debug, PartialEq, Eq)]
pub struct DecisionScore {
    pub total: i32,
    pub contributions: Vec<ScoreContribution>,
}

/// One reason recorded in an explanation.
#[derive(Debug, PartialEq, Eq)]
pub struct DecisionReason {
    pub code: String,
    pub detail: String,
    pub impact: i32,
}

impl View for DecisionReason {
    type V = (Seq<char>, Seq<char>, i32);

    open spec fn view(&self) -> (Seq<char>, Seq<char>, i32) {
        (self.code@, self.detail@, self.impact)
    }
}

/// The views of a sequence of reasons.
pub open spec fn reasons_view(s: Seq<DecisionReason>) -> Seq<(Seq<char>, Seq<char>, i32)> {
    s.map_values(|r: DecisionReason| r@)
}

/// The views of a sequence of contributions.
pub open spec fn contributions_view(s: Seq<ScoreContribution>) -> Seq<(Seq<char>, i32)> {
    s.map_values(|r: ScoreContribution| r@)
}

/// The views of a sequence of rejected options.
pub open spec fn rejected_view(s: Seq<RejectedOption>) -> Seq<(Option<Seq<char>>, Option<Seq<char>>, Seq<char>)> {
    s.map_values(|r: RejectedOption| r@)
}

impl Clone for DecisionReason {
    fn clone(&self) -> (r: Self)
        ensures
            r == *self,
    {
        DecisionReason { code: self.code.clone(), detail: self.detail.clone(), impact: self.impact }
    }
}

/// An option that was considered and rejected, with why.
#[derive(Debug, PartialEq, Eq)]
pub struct RejectedOption {
    pub model_id: Option<ModelId>,
    pub runtime_id: Option<RuntimeId>,
    pub reason: String,
}

/// The view of an optional model id.
pub open spec fn opt_model_view(m: Option<ModelId>) -> Option<Seq<char>> {
    match m { Some(x) => Some(x@), None => None }
}

/// The view of an optional runtime id.
pub open spec fn opt_runtime_view(m: Option<RuntimeId>) -> Option<Seq<char>> {
    match m { Some(x) => Some(x@), None => None }
}

impl View for RejectedOption {
    type V = (Option<Seq<char>>, Option<Seq<char>>, Seq<char>);

    open spec fn view(&self) -> (Option<Seq<char>>, Option<Seq<char>>, Seq<char>) {
        (opt_model_view(self.model_id), opt_runtime_view(self.runtime_id), self.reason@)
    }
}

impl Clone for RejectedOption {
    fn clone(&self) -> (r: Self)
        ensures
            r == *self,
    {
        RejectedOption {
            model_id: match &self.model_id { Some(m) => Some(m.clone()), None => None },
            runtime_id: match &self.runtime_id { Some(m) => Some(m.clone()), None => None },
            reason: self.reason.clone(),
        }
    }
}

/// The explanation of a decision.
#[derive(Debug, PartialEq, Eq)]
pub struct Explanation {
    pub summary: String,
    pub reasons: Vec<DecisionReason>,
    pub rejected_options: Vec<RejectedOption>,
}

/// A scheduling decision.
#[derive(Debug, PartialEq, Eq)]
pub struct Decision {
    pub id: uuid::Uuid,
    pub request_id: RequestId,
    pub action: DecisionAction,
    pub selected_model: Option<ModelId>,
    pub selected_runtime: Option<RuntimeId>,
    pub selected_group: Option<ResidencyGroupId>,
    pub background_model: Option<ModelId>,
    pub score: DecisionScore,
    pub explanation: Explanation,
    /// Creation time in milliseconds since the Unix epoch.
    pub created_at: i64,
}

/// The mathematical content of a [`Decision`]: everything but its random
/// identifier and its creation time.
pub struct DecisionView {
    pub request_id: Seq<char>,
    pub action: DecisionAction,
    pub selected_model: Option<Seq<char>>,
    pub selected_runtime: Option<Seq<char>>,
    pub selected_group: Option<Seq<char>>,
    pub background_model: Option<Seq<char>>,
    pub total: i32,
    pub contributions: Seq<(Seq<char>, i32)>,
    pub summary: Seq<char>,
    pub reasons: Seq<(Seq<char>, Seq<char>, i32)>,
    pub rejected_options: Seq<(Option<Seq<char>>, Option<Seq<char>>, Seq<char>)>,
}

impl View for Decision {
    type V = DecisionView;

    open spec fn view(&self) -> DecisionView {
        DecisionView {
            request_id: self.request_id@,
            action: self.action,
            selected_model: opt_model_view(self.selected_model),
            selected_runtime: opt_runtime_view(self.selected_runtime),
            selected_group: match self.selected_group { Some(g) => Some(g@), None => None },
            background_model: opt_model_view(self.background_model),
            total: self.score.total,
            contributions: contributions_view(self.score.contributions@),
            summary: self.explanation.summary@,
            reasons: reasons_view(self.explanation.reasons@),
            rejected_options: rejected_view(self.explanation.rejected_options@),
        }
    }
}

/// The kind of a runtime action.
#[derive(Debug, PartialEq, Eq, Structural, Clone, Copy)]
pub enum ActionKind {
    Load,
    Unload,
    Keep,
    Stage,
    Defer,
    Deny,
    NoOp,
}

/// One action against a runtime.
#[derive(Debug, PartialEq, Eq)]
pub struct RuntimeAction {
    pub kind: ActionKind,
    pub runtime_id: RuntimeId,
    pub model_id: Option<ModelId>,
    pub is_foreground: bool,
    pub is_mutating: bool,
    pub reason: String,
    pub expected_cost_ms: Option<u64>,
}

/// The actions a decision implies.
#[derive(Debug, PartialEq, Eq)]
pub struct ActionPlan {
    pub decision_id: uuid::Uuid,
    pub actions: Vec<RuntimeAction>,
    pub dry_run: bool,
}

/// Whether `a` is a load with the given foreground flag.
pub open spec fn is_load_with(a: RuntimeAction, foreground: bool) -> bool {
    a.kind == ActionKind::Load && a.is_foreground == foreground
}

/// The index of the first action satisfying `is_load_with(_, foreground)`.
pub open spec fn first_load_index(actions: Seq<RuntimeAction>, foreground: bool) -> Option<int> {
    if exists|i: int| 0 <= i < actions.len() && is_load_with(#[trigger] actions[i], foreground) {
        Some(choose|i: int| 0 <= i < actions.len() && is_load_with(#[trigger] actions[i], foreground)
            && forall|j: int| 0 <= j < i ==> !is_load_with(#[trigger] actions[j], foreground))
    } else {
        None
    }
}

impl ActionPlan {
    /// An empty plan for `decision_id`.
    pub fn new(decision_id: uuid::Uuid, dry_run: bool) -> (r: ActionPlan)
        ensures
            r.decision_id == decision_id,
            r.actions@.len() == 0,
            r.dry_run == dry_run,
    {
        ActionPlan { decision_id, actions: Vec::new(), dry_run }
    }

    /// Appends a mutating load of `model_id`.
    pub fn add_load(
        &mut self,
        runtime_id: RuntimeId,
        model_id: ModelId,
        is_foreground: bool,
        reason: String,
        expected_cost_ms: Option<u64>,
    )
        ensures
            final(self).decision_id == old(self).decision_id,
            final(self).dry_run == old(self).dry_run,
            final(self).actions@ == old(self).actions@.push(RuntimeAction {
                kind: ActionKind::Load,
                runtime_id,
                model_id: Some(model_id),
                is_foreground,
                is_mutating: true,
                reason,
                expected_cost_ms,
            }),
    {
        self.actions.push(RuntimeAction {
            kind: ActionKind::Load,
            runtime_id,
            model_id: Some(model_id),
            is_foreground,
            is_mutating: true,
            reason,
            expected_cost_ms,
        });
    }

    /// Appends a mutating foreground unload of `model_id`.
    pub fn add_unload(&mut self, runtime_id: RuntimeId, model_id: ModelId, reason: String)
        ensures
            final(self).decision_id == old(self).decision_id,
            final(self).dry_run == old(self).dry_run,
            final(self).actions@ == old(self).actions@.push(RuntimeAction {
                kind: ActionKind::Unload,
                runtime_id,
                model_id: Some(model_id),
                is_foreground: true,
                is_mutating: true,
                reason,
                expected_cost_ms: None,
            }),
    {
        self.actions.push(RuntimeAction {
            kind: ActionKind::Unload,
            runtime_id,
            model_id: Some(model_id),
            is_foreground: true,
            is_mutating: true,
            reason,
            expected_cost_ms: None,
        });
    }

    /// Appends a non-mutating background no-op.
    pub fn add_noop(&mut self, runtime_id: RuntimeId, reason: String)
        ensures
            final(self).decision_id == old(self).decision_id,
            final(self).dry_run == old(self).dry_run,
            final(self).actions@ == old(self).actions@.push(RuntimeAction {
                kind: ActionKind::NoOp,
                runtime_id,
                model_id: None,
                is_foreground: false,
                is_mutating: false,
                reason,
                expected_cost_ms: None,
            }),
    {
        self.actions.push(RuntimeAction {
            kind: ActionKind::NoOp,
            runtime_id,
            model_id: None,
            is_foreground: false,
            is_mutating: false,
            reason,
            expected_cost_ms: None,
        });
    }

    fn find_load(&self, foreground: bool) -> (r: Option<&RuntimeAction>)
        ensures
            match first_load_index(self.actions@, foreground) {
                Some(i) => r == Some(&self.actions@[i]),
                None => r is None,
            },
    {
        let mut i: usize = 0;
        while i < self.actions.len()
            invariant
                0 <= i <= self.actions@.len(),
                forall|j: int| 0 <= j < i ==> !is_load_with(#[trigger] self.actions@[j], foreground),
            decreases self.actions@.len() - i,
        {
            let a = &self.actions[i];
            if a.kind == ActionKind::Load && a.is_foreground == foreground {
                proof {
                    let k = first_load_index(self.actions@, foreground)->0;
                    assert(is_load_with(self.actions@[i as int], foreground));
                    assert(first_load_index(self.actions@, foreground) is Some);
                    if k < i {
                        assert(!is_load_with(self.actions@[k], foreground));
                    } else if k > i {
                        assert(!is_load_with(self.actions@[i as int], foreground));
                    }
                }
                return Some(a);
            }
            i = i + 1;
        }
        None
    }

    /// The first foreground load action, if any.
    pub fn get_foreground_load(&self) -> (r: Option<&RuntimeAction>)
        ensures
            match first_load_index(self.actions@, true) {
                Some(i) => r == Some(&self.actions@[i]),
                None => r is None,
            },
    {
        self.find_load(true)
    }

    /// The first background load action, if any.
    pub fn get_background_load(&self) -> (r: Option<&RuntimeAction>)
        ensures
            match first_load_index(self.actions@, false) {
                Some(i) => r == Some(&self.actions@[i]),
                None => r is None,
            },
    {
        self.find_load(false)
    }

    /// Whether any action mutates a runtime.
    pub fn has_mutating_actions(&self) -> (r: bool)
        ensures
            r == exists|i: int| 0 <= i < self.actions@.len() && (#[trigger] self.actions@[i]).is_mutating,
    {
        let mut i: usize = 0;
        while i < self.actions.len()
            invariant
                0 <= i <= self.actions@.len(),
                forall|j: int| 0 <= j < i ==> !(#[trigger] self.actions@[j]).is_mutating,
            decreases self.actions@.len() - i,
        {
            if self.actions[i].is_mutating {
                return true;
            }
            i = i + 1;
        }
        false
    }
}

} // verus!
