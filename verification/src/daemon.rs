//! The holder of operator governance: the baseline configuration, the
//! current overrides, and the effective bundle derived from both.

use vstd::prelude::*;
use crate::config::{AnemoiConfig, AnemoiConfigView};
use crate::governance::{
    GovernanceOverrides, GovernanceOverridesView, GovernanceWarning, apply_overrides, spec_apply,
    validate_governance, spec_governance_warnings, warnings_view,
};
use crate::policy::scheduler::Scheduler;

verus! {

/// The effective configuration and a scheduler built over it.
#[derive(Debug)]
pub struct EffectiveBundle {
    pub config: AnemoiConfig,
    pub scheduler: Scheduler,
}

/// Builds the effective bundle of a baseline and its overrides.
pub fn build_bundle(baseline: &AnemoiConfig, overrides: &GovernanceOverrides) -> (r: EffectiveBundle)
    ensures
        r.config@ == spec_apply(baseline@, overrides@),
        r.scheduler.spec_config()@ == spec_apply(baseline@, overrides@),
{
    let config = apply_overrides(baseline, overrides);
    let scheduler = Scheduler::new(config.clone());
    EffectiveBundle { config, scheduler }
}

/// Why an operator governance edit was rejected; nothing changes.
#[derive(Debug, PartialEq, Eq)]
pub enum GovernanceError {
    NotFound(String),
    Conflict(String),
    Invalid(String),
    Persist(String),
}

impl GovernanceError {
    /// The human-readable message: the kind of rejection and its detail.
    pub fn message(&self) -> (r: String)
        ensures
            r@ == match self {
                GovernanceError::NotFound(s) => "not found: "@ + s@,
                GovernanceError::Conflict(s) => "conflict: "@ + s@,
                GovernanceError::Invalid(s) => "invalid: "@ + s@,
                GovernanceError::Persist(s) => "failed to persist governance overrides: "@ + s@,
            },
    {
        let (mut head, detail) = match self {
            GovernanceError::NotFound(s) => (String::from_str("not found: "), s),
            GovernanceError::Conflict(s) => (String::from_str("conflict: "), s),
            GovernanceError::Invalid(s) => (String::from_str("invalid: "), s),
            GovernanceError::Persist(s) => (String::from_str("failed to persist governance overrides: "), s),
        };
        head.append(detail.as_str());
        head
    }
}

/// Governance state: the baseline, the overrides, and the bundle derived
/// from them, which always equals the baseline with the overrides applied.
#[derive(Debug)]
pub struct Governance {
    baseline: AnemoiConfig,
    overrides: GovernanceOverrides,
    effective: EffectiveBundle,
}

impl Governance {
    /// The baseline configuration.
    pub closed spec fn spec_baseline(&self) -> AnemoiConfigView {
        self.baseline@
    }

    /// The baseline configuration as held; an edit is handed this value.
    pub closed spec fn spec_baseline_config(&self) -> AnemoiConfig {
        self.baseline
    }

    /// The current overrides.
    pub closed spec fn spec_overrides(&self) -> GovernanceOverridesView {
        self.overrides@
    }

    /// The effective configuration.
    pub closed spec fn spec_effective(&self) -> AnemoiConfig {
        self.effective.config
    }

    /// The effective bundle is the baseline with the overrides applied.
    pub closed spec fn wf(&self) -> bool {
        &&& self.effective.config@ == spec_apply(self.baseline@, self.overrides@)
        &&& self.effective.scheduler.spec_config()@ == self.effective.config@
    }

    /// A holder over `baseline` with `overrides` applied.
    pub fn new(baseline: AnemoiConfig, overrides: GovernanceOverrides) -> (r: Governance)
        ensures
            r.wf(),
            r.spec_baseline() == baseline@,
            r.spec_overrides() == overrides@,
    {
        let effective = build_bundle(&baseline, &overrides);
        Governance { baseline, overrides, effective }
    }

    /// The current effective bundle.
    pub fn effective(&self) -> (r: &EffectiveBundle)
        requires
            self.wf(),
        ensures
            r.config@ == spec_apply(self.spec_baseline(), self.spec_overrides()),
            r.config == self.spec_effective(),
            r.scheduler.spec_config()@ == r.config@,
    {
        &self.effective
    }

    /// A copy of the current overrides.
    pub fn overrides_snapshot(&self) -> (r: GovernanceOverrides)
        ensures
            r@ == self.spec_overrides(),
    {
        self.overrides.clone()
    }

    /// The baseline configuration, before overrides.
    pub fn baseline(&self) -> (r: &AnemoiConfig)
        ensures
            r@ == self.spec_baseline(),
    {
        &self.baseline
    }

    /// The advisory warnings of the current effective configuration.
    pub fn warnings(&self) -> (r: Vec<GovernanceWarning>)
        ensures
            warnings_view(r@) == spec_governance_warnings(self.spec_effective()),
    {
        validate_governance(&self.effective.config)
    }

    /// Installs accepted overrides: the effective bundle is rebuilt from the
    /// baseline at once, so the next decision sees them.
    pub fn commit(&mut self, candidate: GovernanceOverrides)
        ensures
            final(self).wf(),
            final(self).spec_baseline() == old(self).spec_baseline(),
            final(self).spec_overrides() == candidate@,
    {
        let bundle = build_bundle(&self.baseline, &candidate);
        self.overrides = candidate;
        self.effective = bundle;
    }
}

/// Committing overrides and reading the effective configuration back gives
/// the baseline with exactly those overrides applied, whatever was there
/// before.
pub proof fn law_commit_rebuilds_effective(before: Governance, after: Governance, candidate: GovernanceOverridesView)
    requires
        after.wf(),
        after.spec_baseline() == before.spec_baseline(),
        after.spec_overrides() == candidate,
    ensures
        after.spec_effective()@ == spec_apply(before.spec_baseline(), candidate),
{
}

impl Governance {
    /// Applies an edit transactionally: `f` edits a copy of the overrides and
    /// may reject the edit with an error, in which case nothing changes;
    /// otherwise the edited overrides are installed and the effective bundle
    /// rebuilt. The result is what `f` returned on a copy of the current
    /// overrides and the baseline.
    pub fn mutate<F>(&mut self, f: F) -> (r: Result<(), GovernanceError>)
        where
            F: FnOnce(&mut GovernanceOverrides, &AnemoiConfig) -> Result<(), GovernanceError>,
        requires
            old(self).wf(),
            forall|ov: &mut GovernanceOverrides, b: &AnemoiConfig| f.requires((ov, b)),
        ensures
            final(self).wf(),
            final(self).spec_baseline() == old(self).spec_baseline(),
            exists|edit: &mut GovernanceOverrides|
                {
                    &&& (*edit)@ == old(self).spec_overrides()
                    &&& f.ensures((edit, &old(self).spec_baseline_config()), r)
                    &&& r is Ok ==> final(self).spec_overrides() == (*final(edit))@
                },
            r is Err ==> final(self).spec_overrides() == old(self).spec_overrides()
                && final(self).spec_effective() == old(self).spec_effective(),
    {
        let mut candidate = self.overrides.clone();
        let res = f(&mut candidate, &self.baseline);
        if res.is_ok() {
            self.commit(candidate);
        }
        res
    }
}

} // verus!
