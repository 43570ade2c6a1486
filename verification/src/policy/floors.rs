//! Quality floors: which candidates meet a request's minimum model size, and
//! the options rejected for falling below it.

use vstd::prelude::*;
use vstd::string::*;
use crate::ids::ModelId;
use crate::decisions::{RejectedOption, rejected_view};
use crate::policy::scoring::{ScoredCandidate, ScoredView, spec_class_value, quality_score};

verus! {

/// Whether a scored candidate meets the floor (always, without one).
pub open spec fn spec_satisfies_floor(c: ScoredView, floor: Option<(Seq<char>, int)>) -> bool {
    match floor {
        Some((_, minimum)) => spec_class_value(c.candidate.model_profile.parameter_class) >= minimum,
        None => true,
    }
}

/// Whether a scored candidate meets the floor (always, without one).
pub fn candidate_satisfies_floor(candidate: &ScoredCandidate, floor: Option<&(String, i32)>) -> (r: bool)
    ensures
        r == spec_satisfies_floor(candidate@, match floor { Some(f) => Some((f.0@, f.1 as int)), None => None }),
{
    match floor {
        Some(f) => quality_score(&candidate.candidate.model_profile) >= f.1,
        None => true,
    }
}

/// The rejection recorded for a candidate below the floor `label`.
pub open spec fn floor_rejection(c: ScoredView, label: Seq<char>) -> (Option<Seq<char>>, Option<Seq<char>>, Seq<char>) {
    (Some(c.candidate.model_id), Some(c.candidate.runtime_id),
        c.candidate.model_id + " parameter class "@ + c.candidate.model_profile.parameter_class
            + " is below requested quality floor "@ + label)
}

/// The candidates, other than the selected model, that fall below the floor,
/// each as a rejected option; nothing without a floor.
pub open spec fn spec_floor_rejections(
    cands: Seq<ScoredView>,
    floor: Option<(Seq<char>, int)>,
    selected: Option<Seq<char>>,
) -> Seq<(Option<Seq<char>>, Option<Seq<char>>, Seq<char>)>
    decreases cands.len(),
{
    if cands.len() == 0 {
        Seq::empty()
    } else {
        let prev = spec_floor_rejections(cands.drop_last(), floor, selected);
        let c = cands.last();
        match floor {
            Some((label, minimum)) => if selected != Some(c.candidate.model_id)
                && spec_class_value(c.candidate.model_profile.parameter_class) < minimum {
                prev.push(floor_rejection(c, label))
            } else {
                prev
            },
            None => prev,
        }
    }
}

/// The views of scored candidates.
pub open spec fn scored_view(s: Seq<ScoredCandidate>) -> Seq<ScoredView> {
    s.map_values(|c: ScoredCandidate| c@)
}

/// Rejected options for the candidates below the floor (see
/// [`spec_floor_rejections`]).
pub fn quality_floor_rejections(
    candidates: &Vec<ScoredCandidate>,
    floor: Option<&(String, i32)>,
    selected_model: Option<&ModelId>,
) -> (r: Vec<RejectedOption>)
    ensures
        rejected_view(r@) == spec_floor_rejections(scored_view(candidates@),
            match floor { Some(f) => Some((f.0@, f.1 as int)), None => None },
            match selected_model { Some(m) => Some(m@), None => None }),
{
    let ghost fl = match floor { Some(f) => Some((f.0@, f.1 as int)), None => None };
    let ghost sel = match selected_model { Some(m) => Some(m@), None => None };
    let mut out: Vec<RejectedOption> = Vec::new();
    let (label, minimum) = match floor {
        Some(f) => (&f.0, f.1),
        None => {
            assert forall|n: int| 0 <= n <= candidates@.len() implies
                spec_floor_rejections(scored_view(candidates@).take(n), fl, sel).len() == 0 by {
                lemma_no_floor(scored_view(candidates@).take(n), sel);
            }
            assert(scored_view(candidates@).take(candidates@.len() as int) =~= scored_view(candidates@));
            return out;
        },
    };
    let mut i: usize = 0;
    while i < candidates.len()
        invariant
            0 <= i <= candidates@.len(),
            fl == Some((label@, minimum as int)),
            sel == match selected_model { Some(m) => Some(m@), None => None::<Seq<char>> },
            rejected_view(out@) == spec_floor_rejections(scored_view(candidates@).take(i as int), fl, sel),
        decreases candidates@.len() - i,
    {
        let c = &candidates[i];
        assert(scored_view(candidates@).take(i as int + 1).drop_last() =~= scored_view(candidates@).take(i as int));
        assert(scored_view(candidates@).take(i as int + 1).last() == c@);
        let is_selected = match selected_model { Some(m) => m.same(&c.candidate.model_id), None => false };
        if !is_selected && quality_score(&c.candidate.model_profile) < minimum {
            let mut reason = String::new();
            reason.append(c.candidate.model_id.as_str());
            reason.append(" parameter class ");
            reason.append(c.candidate.model_profile.parameter_class.as_str());
            reason.append(" is below requested quality floor ");
            reason.append(label.as_str());
            let o = RejectedOption {
                model_id: Some(c.candidate.model_id.clone()),
                runtime_id: Some(c.candidate.runtime_id.clone()),
                reason,
            };
            let ghost before = out@;
            out.push(o);
            assert(rejected_view(out@) =~= rejected_view(before).push(o@));
        }
        i = i + 1;
    }
    assert(scored_view(candidates@).take(candidates@.len() as int) =~= scored_view(candidates@));
    out
}

proof fn lemma_no_floor(cands: Seq<ScoredView>, sel: Option<Seq<char>>)
    ensures
        spec_floor_rejections(cands, None, sel).len() == 0,
    decreases cands.len(),
{
    if cands.len() > 0 {
        lemma_no_floor(cands.drop_last(), sel);
    }
}

/// `first` followed by `second`.
pub fn combine_rejected(first: Vec<RejectedOption>, second: Vec<RejectedOption>) -> (r: Vec<RejectedOption>)
    ensures
        r@ == first@ + second@,
{
    let mut first = first;
    let mut second = second;
    first.append(&mut second);
    first
}

} // verus!
