//! Profiles synthesised from model ids reported by a live runtime.

use vstd::prelude::*;
use vstd::string::*;
use crate::ids::{ModelId, RuntimeId};
use crate::types::{ModelProfile, ModelProfileView};
use crate::text::{is_digit, char_is_digit, chars_of, string_from_chars, spec_char_is_alphabetic, char_is_alphabetic};

verus! {

/// The end of the run of digits that starts at `i`.
pub open spec fn digit_run_end(s: Seq<char>, i: int) -> int
    decreases s.len() - i,
{
    if 0 <= i < s.len() && is_digit(s[i]) {
        digit_run_end(s, i + 1)
    } else {
        i
    }
}

pub(crate) proof fn lemma_digit_run_end(s: Seq<char>, i: int)
    requires
        0 <= i <= s.len(),
    ensures
        i <= digit_run_end(s, i) <= s.len(),
        0 <= i < s.len() && is_digit(s[i]) ==> digit_run_end(s, i) > i,
        forall|j: int| i <= j < digit_run_end(s, i) ==> is_digit(#[trigger] s[j]),
        digit_run_end(s, i) < s.len() ==> !is_digit(s[digit_run_end(s, i)]),
    decreases s.len() - i,
{
    if i < s.len() && is_digit(s[i]) {
        lemma_digit_run_end(s, i + 1);
    }
}

/// The digits of the first `NNb` (or `NNB`) token at or after `i`: the first
/// maximal run of digits immediately followed by `b` or `B`.
pub open spec fn class_digits_from(s: Seq<char>, i: int) -> Option<Seq<char>>
    decreases s.len() - i,
{
    if i < 0 || i >= s.len() {
        None
    } else if is_digit(s[i]) {
        let e = digit_run_end(s, i);
        if e <= i || e > s.len() {
            None
        } else if e < s.len() && (s[e] == 'b' || s[e] == 'B') {
            Some(s.subrange(i, e))
        } else {
            class_digits_from(s, e)
        }
    } else {
        class_digits_from(s, i + 1)
    }
}

/// The parameter class named in a model id: the first `NNb` token, written
/// with a lower-case `b`, or `unknown` when there is none.
pub open spec fn spec_parameter_class(id: Seq<char>) -> Seq<char> {
    match class_digits_from(id, 0) {
        Some(d) => d.push('b'),
        None => "unknown"@,
    }
}

/// The length of the leading run of alphabetic characters.
pub open spec fn alpha_prefix_len(s: Seq<char>, i: int) -> int
    decreases s.len() - i,
{
    if 0 <= i < s.len() && spec_char_is_alphabetic(s[i]) {
        alpha_prefix_len(s, i + 1)
    } else {
        i
    }
}

/// The family named in a model id: its leading alphabetic run, or `unknown`
/// when the id does not start with a letter.
pub open spec fn spec_family(id: Seq<char>) -> Seq<char> {
    let n = alpha_prefix_len(id, 0);
    if n <= 0 {
        "unknown"@
    } else {
        id.take(n)
    }
}

/// Scans `id` for the first `NNb` token and returns it as `"<digits>b"`, or
/// `"unknown"` when there is none.
pub fn extract_parameter_class(id: &str) -> (r: String)
    ensures
        r@ == spec_parameter_class(id@),
{
    let v = chars_of(id);
    let mut i: usize = 0;
    while i < v.len()
        invariant
            v@ == id@,
            0 <= i <= v@.len(),
            class_digits_from(v@, 0) == class_digits_from(v@, i as int),
        decreases v@.len() - i,
    {
        if char_is_digit(v[i]) {
            let start = i;
            proof { lemma_digit_run_end(v@, start as int); }
            while i < v.len() && char_is_digit(v[i])
                invariant
                    v@ == id@,
                    start <= i <= v@.len(),
                    digit_run_end(v@, start as int) == digit_run_end(v@, i as int),
                decreases v@.len() - i,
            {
                i = i + 1;
            }
            proof { lemma_digit_run_end(v@, start as int); }
            if i < v.len() && (v[i] == 'b' || v[i] == 'B') {
                let mut s = string_from_chars(&v, start, i);
                s.push('b');
                return s;
            }
        } else {
            i = i + 1;
        }
    }
    String::from_str("unknown")
}

/// The leading alphabetic run of `id`, or `"unknown"` when it is empty.
pub fn family_of(id: &str) -> (r: String)
    ensures
        r@ == spec_family(id@),
{
    let v = chars_of(id);
    let mut i: usize = 0;
    while i < v.len() && char_is_alphabetic(v[i])
        invariant
            v@ == id@,
            0 <= i <= v@.len(),
            alpha_prefix_len(v@, 0) == alpha_prefix_len(v@, i as int),
        decreases v@.len() - i,
    {
        i = i + 1;
    }
    if i == 0 {
        String::from_str("unknown")
    } else {
        let r = string_from_chars(&v, 0, i);
        assert(v@.subrange(0, i as int) =~= v@.take(i as int));
        r
    }
}

/// The profile synthesised for `model_id` reported by `runtime_id`.
pub open spec fn spec_synthesized_profile(model_id: Seq<char>, runtime_id: Seq<char>) -> ModelProfileView {
    ModelProfileView {
        id: model_id,
        family: spec_family(model_id),
        parameter_class: spec_parameter_class(model_id),
        context_window: None,
        vram_required_mb: None,
        ram_required_mb: None,
        cold_load_estimate_ms: None,
        supported_runtimes: seq![runtime_id],
        supports_streaming: Some(true),
    }
}

/// Builds a profile from a model id reported by a live runtime: family from
/// the leading letters, parameter class from the first `NNb` token, no
/// resource figures, streaming supported, and `runtime_id` as the only
/// supported runtime.
pub fn synthesize_profile(model_id: &ModelId, runtime_id: &RuntimeId) -> (r: ModelProfile)
    ensures
        r@ == spec_synthesized_profile(model_id@, runtime_id@),
        r.id == *model_id,
{
    let r = ModelProfile {
        id: model_id.clone(),
        family: family_of(model_id.as_str()),
        parameter_class: extract_parameter_class(model_id.as_str()),
        context_window: None,
        vram_required_mb: None,
        ram_required_mb: None,
        cold_load_estimate_ms: None,
        supports_streaming: Some(true),
        supported_runtimes: vec![runtime_id.clone()],
    };
    assert(r@.supported_runtimes =~= seq![runtime_id@]);
    r
}

} // verus!
