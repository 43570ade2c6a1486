//! Validation of a configuration: references resolve, rosters and groups are
//! not empty, runtimes name known adapters and, where the adapter needs one,
//! a base URL. Diagnostics come sorted by path, severity and message.

use vstd::prelude::*;
use vstd::string::*;
use crate::ids::{ModelId, RuntimeId, ResidencyGroupId, DomainId};
use crate::config::{
    AnemoiConfig, DomainConfig, ResidencyGroupConfig, ModelProfileConfig, RuntimeConfig,
    RuntimeResidentConfig, IdKey, has_key, is_first_entry, first_entry, find_entry,
    lemma_first_entry, known_runtime_adapters, is_known_runtime_adapter, first_of_key,
};
use crate::runtime::events::{index_of_from, lemma_index_of_from};
use crate::text::{
    lookup, chars_of, string_from_chars, push_str, decimal, push_u64, lex_lt, str_lt, str_eq, lemma_lex_lt_trichotomy, lemma_lex_lt_transitive,
};

verus! {

/// How serious a diagnostic is.
#[derive(Debug, PartialEq, Eq, Structural, Clone, Copy, PartialOrd, Ord)]
pub enum DiagnosticSeverity {
    Error,
    Warning,
}

/// One problem found in a configuration, located by its path.
#[derive(Debug, PartialEq, Eq)]
pub struct ConfigDiagnostic {
    pub path: String,
    pub severity: DiagnosticSeverity,
    pub message: String,
}

/// A diagnostic as (path, severity, message).
pub type DiagView = (Seq<char>, DiagnosticSeverity, Seq<char>);

impl View for ConfigDiagnostic {
    type V = DiagView;

    open spec fn view(&self) -> DiagView {
        (self.path@, self.severity, self.message@)
    }
}

impl Clone for ConfigDiagnostic {
    fn clone(&self) -> (r: Self)
        ensures
            r@ == self@,
    {
        ConfigDiagnostic { path: self.path.clone(), severity: self.severity, message: self.message.clone() }
    }
}

/// An error diagnostic at `path`.
pub open spec fn error_at(path: Seq<char>, message: Seq<char>) -> DiagView {
    (path, DiagnosticSeverity::Error, message)
}

impl ConfigDiagnostic {
    /// An error at `path` with `message`.
    pub fn error(path: &str, message: &str) -> (r: ConfigDiagnostic)
        ensures
            r@ == error_at(path@, message@),
    {
        ConfigDiagnostic {
            path: String::from_str(path),
            severity: DiagnosticSeverity::Error,
            message: String::from_str(message),
        }
    }
}

/// The views of a sequence of diagnostics.
pub open spec fn diags_view(s: Seq<ConfigDiagnostic>) -> Seq<DiagView> {
    s.map_values(|d: ConfigDiagnostic| d@)
}

/// A configuration that failed validation, with every diagnostic found.
#[derive(Debug, PartialEq, Eq)]
pub struct ConfigValidationError {
    pub diagnostics: Vec<ConfigDiagnostic>,
}

// ---------------------------------------------------------------------------
// What is reported.

/// The text of a sequence of identifiers.
pub open spec fn keys_view<R: View<V = Seq<char>>>(s: Seq<R>) -> Seq<Seq<char>> {
    s.map_values(|r: R| r@)
}

/// The path of the `i`-th element of the list at `prefix`, followed by `suffix`.
pub open spec fn index_path(prefix: Seq<char>, i: nat, suffix: Seq<char>) -> Seq<char> {
    prefix + "["@ + decimal(i) + "]"@ + suffix
}

/// One error for each of `ids` that `table` lacks: at the reference's index
/// in the list at `prefix`, saying which `what` is unknown.
pub open spec fn ref_diags<K: View<V = Seq<char>>, V>(
    table: Seq<(K, V)>,
    prefix: Seq<char>,
    suffix: Seq<char>,
    what: Seq<char>,
    ids: Seq<Seq<char>>,
) -> Seq<DiagView>
    decreases ids.len(),
{
    if ids.len() == 0 {
        Seq::empty()
    } else {
        let prev = ref_diags(table, prefix, suffix, what, ids.drop_last());
        if has_key(table, ids.last()) {
            prev
        } else {
            prev.push(error_at(index_path(prefix, (ids.len() - 1) as nat, suffix),
                "unknown "@ + what + " '"@ + ids.last() + "'"@))
        }
    }
}

/// The errors of one domain: no roster at all, and each unknown group.
pub open spec fn domain_diags(config: AnemoiConfig, id: Seq<char>, d: DomainConfig) -> Seq<DiagView> {
    (if d.rosters@.len() == 0 && d.live_roster is None {
        seq![error_at("domains."@ + id + ".rosters"@,
            "domain must reference at least one residency group or set live_roster"@)]
    } else {
        Seq::empty()
    }) + ref_diags(config.residency_groups@, "domains."@ + id + ".rosters"@, Seq::empty(),
        "residency group"@, keys_view(d.rosters@))
}

/// The errors of one residency group: no model at all, and each unknown model.
pub open spec fn group_diags(config: AnemoiConfig, id: Seq<char>, g: ResidencyGroupConfig) -> Seq<DiagView> {
    (if g.models@.len() == 0 {
        seq![error_at("residency_groups."@ + id + ".models"@,
            "residency group must reference at least one model"@)]
    } else {
        Seq::empty()
    }) + ref_diags(config.models@, "residency_groups."@ + id + ".models"@, Seq::empty(),
        "model"@, keys_view(g.models@))
}

/// The errors of one model profile: each unknown supported runtime.
pub open spec fn model_diags(config: AnemoiConfig, id: Seq<char>, m: ModelProfileConfig) -> Seq<DiagView> {
    ref_diags(config.runtimes@, "models."@ + id + ".supported_runtimes"@, Seq::empty(), "runtime"@,
        keys_view(m.supported_runtimes@))
}

/// The model ids of a runtime's declared residents.
pub open spec fn resident_ids(s: Seq<RuntimeResidentConfig>) -> Seq<Seq<char>> {
    s.map_values(|r: RuntimeResidentConfig| r.model_id@)
}

/// The errors of one runtime: an unknown adapter, a known adapter other
/// than `mock` without a base URL, and each declared resident whose model is
/// unknown.
pub open spec fn runtime_diags(config: AnemoiConfig, id: Seq<char>, r: RuntimeConfig) -> Seq<DiagView> {
    let known = known_runtime_adapters().contains(r.adapter@);
    (if !known {
        seq![error_at("runtimes."@ + id + ".adapter"@, "unknown runtime adapter '"@ + r.adapter@ + "'"@)]
    } else {
        Seq::empty()
    }) + (if known && r.adapter@ != "mock"@ && r.base_url is None {
        seq![error_at("runtimes."@ + id + ".base_url"@,
            "runtime adapter '"@ + r.adapter@ + "' requires a base_url"@)]
    } else {
        Seq::empty()
    }) + ref_diags(config.models@, "runtimes."@ + id + ".initial_residents"@, ".model_id"@, "model"@,
        resident_ids(r.initial_residents@))
}

/// The errors of the domains, entry by entry (an id that repeats counts once,
/// as its first entry).
pub open spec fn domains_diags(config: AnemoiConfig, entries: Seq<(DomainId, DomainConfig)>) -> Seq<DiagView>
    decreases entries.len(),
{
    if entries.len() == 0 {
        Seq::empty()
    } else {
        let prev = domains_diags(config, entries.drop_last());
        let e = entries.last();
        if is_first_entry(entries, e.0@, entries.len() - 1) {
            prev + domain_diags(config, e.0@, e.1)
        } else {
            prev
        }
    }
}

/// The errors of the residency groups, entry by entry.
pub open spec fn groups_diags(config: AnemoiConfig, entries: Seq<(ResidencyGroupId, ResidencyGroupConfig)>) -> Seq<DiagView>
    decreases entries.len(),
{
    if entries.len() == 0 {
        Seq::empty()
    } else {
        let prev = groups_diags(config, entries.drop_last());
        let e = entries.last();
        if is_first_entry(entries, e.0@, entries.len() - 1) {
            prev + group_diags(config, e.0@, e.1)
        } else {
            prev
        }
    }
}

/// The errors of the model profiles, entry by entry.
pub open spec fn models_diags(config: AnemoiConfig, entries: Seq<(ModelId, ModelProfileConfig)>) -> Seq<DiagView>
    decreases entries.len(),
{
    if entries.len() == 0 {
        Seq::empty()
    } else {
        let prev = models_diags(config, entries.drop_last());
        let e = entries.last();
        if is_first_entry(entries, e.0@, entries.len() - 1) {
            prev + model_diags(config, e.0@, e.1)
        } else {
            prev
        }
    }
}

/// The errors of the runtimes, entry by entry.
pub open spec fn runtimes_diags(config: AnemoiConfig, entries: Seq<(RuntimeId, RuntimeConfig)>) -> Seq<DiagView>
    decreases entries.len(),
{
    if entries.len() == 0 {
        Seq::empty()
    } else {
        let prev = runtimes_diags(config, entries.drop_last());
        let e = entries.last();
        if is_first_entry(entries, e.0@, entries.len() - 1) {
            prev + runtime_diags(config, e.0@, e.1)
        } else {
            prev
        }
    }
}

/// Every problem of a configuration, before sorting.
pub open spec fn diagnostics_of(config: AnemoiConfig) -> Seq<DiagView> {
    domains_diags(config, config.domains@) + groups_diags(config, config.residency_groups@)
        + models_diags(config, config.models@) + runtimes_diags(config, config.runtimes@)
}

// ---------------------------------------------------------------------------
// The order of the report.

/// The rank of a severity: errors first.
pub open spec fn severity_rank(s: DiagnosticSeverity) -> int {
    match s {
        DiagnosticSeverity::Error => 0,
        DiagnosticSeverity::Warning => 1,
    }
}

/// Whether `a` orders before `b`: by path, then severity, then message.
pub open spec fn diag_lt(a: DiagView, b: DiagView) -> bool {
    lex_lt(a.0, b.0) || (a.0 == b.0 && (severity_rank(a.1) < severity_rank(b.1)
        || (a.1 == b.1 && lex_lt(a.2, b.2))))
}

/// `x` placed into `sorted` after every diagnostic that does not order
/// after it.
pub open spec fn insert_diag(sorted: Seq<DiagView>, x: DiagView) -> Seq<DiagView>
    decreases sorted.len(),
{
    if sorted.len() == 0 {
        seq![x]
    } else if !diag_lt(x, sorted.last()) {
        sorted.push(x)
    } else {
        insert_diag(sorted.drop_last(), x).push(sorted.last())
    }
}

/// `s` sorted by path, severity and message.
pub open spec fn sort_diags(s: Seq<DiagView>) -> Seq<DiagView>
    decreases s.len(),
{
    if s.len() == 0 {
        Seq::empty()
    } else {
        insert_diag(sort_diags(s.drop_last()), s.last())
    }
}

/// The report of validating `config`: all its problems, sorted.
pub open spec fn spec_validate(config: AnemoiConfig) -> Seq<DiagView> {
    sort_diags(diagnostics_of(config))
}

// ---------------------------------------------------------------------------
// Checking.

fn push_error(out: &mut Vec<ConfigDiagnostic>, path: String, message: String)
    ensures
        diags_view(final(out)@) == diags_view(old(out)@).push(error_at(path@, message@)),
{
    let d = ConfigDiagnostic { path, severity: DiagnosticSeverity::Error, message };
    let ghost before = out@;
    out.push(d);
    assert(diags_view(out@) =~= diags_view(before).push(d@));
}

fn check_refs<K: IdKey, V, R: IdKey>(
    table: &Vec<(K, V)>,
    prefix: &str,
    suffix: &str,
    what: &str,
    ids: &Vec<R>,
    out: &mut Vec<ConfigDiagnostic>,
)
    ensures
        diags_view(final(out)@) == diags_view(old(out)@) + ref_diags(table@, prefix@, suffix@, what@, keys_view(ids@)),
{
    let ghost start = diags_view(out@);
    let ghost ks = keys_view(ids@);
    let mut i: usize = 0;
    assert(ref_diags(table@, prefix@, suffix@, what@, ks.take(0)) =~= Seq::<DiagView>::empty());
    assert(start + Seq::<DiagView>::empty() =~= start);
    while i < ids.len()
        invariant
            0 <= i <= ids@.len(),
            ks == keys_view(ids@),
            diags_view(out@) == start + ref_diags(table@, prefix@, suffix@, what@, ks.take(i as int)),
        decreases ids@.len() - i,
    {
        assert(ks.take(i as int + 1).drop_last() =~= ks.take(i as int));
        assert(ks.take(i as int + 1).last() == ids@[i as int]@);
        let id = &ids[i];
        if find_entry(table, id.key()).is_none() {
            let mut path = String::from_str(prefix);
            path.append("[");
            push_u64(&mut path, i as u64);
            path.append("]");
            path.append(suffix);
            let mut message = String::from_str("unknown ");
            message.append(what);
            message.append(" '");
            message.append(id.key());
            message.append("'");
            let ghost before = diags_view(out@);
            push_error(out, path, message);
            assert(diags_view(out@) =~= start + ref_diags(table@, prefix@, suffix@, what@, ks.take(i as int + 1)));
        }
        i = i + 1;
    }
    assert(ks.take(ids@.len() as int) =~= ks);
}

fn check_domains(config: &AnemoiConfig, out: &mut Vec<ConfigDiagnostic>)
    ensures
        diags_view(final(out)@) == diags_view(old(out)@) + domains_diags(*config, config.domains@),
{
    let ghost start = diags_view(out@);
    let ghost es = config.domains@;
    let mut i: usize = 0;
    assert(start + Seq::<DiagView>::empty() =~= start);
    assert(es.take(0).len() == 0);
    while i < config.domains.len()
        invariant
            0 <= i <= es.len(),
            es == config.domains@,
            diags_view(out@) == start + domains_diags(*config, es.take(i as int)),
        decreases es.len() - i,
    {
        let ghost t = es.take(i as int + 1);
        assert(t.drop_last() =~= es.take(i as int));
        assert(t.last() == es[i as int]);
        let first = first_of_key(&config.domains, i);
        if first {
            let e = &config.domains[i];
            let id = e.0.key();
            let ghost before = diags_view(out@);
            let ghost head: Seq<DiagView> = if e.1.rosters@.len() == 0 && e.1.live_roster is None {
                seq![error_at("domains."@ + e.0@ + ".rosters"@,
                    "domain must reference at least one residency group or set live_roster"@)]
            } else {
                Seq::empty()
            };
            if e.1.rosters.len() == 0 && e.1.live_roster.is_none() {
                let mut path = String::from_str("domains.");
                path.append(id);
                path.append(".rosters");
                push_error(out, path, String::from_str("domain must reference at least one residency group or set live_roster"));
                assert(diags_view(out@) =~= before + head);
            } else {
                assert(before + head =~= before);
            }
            let mut prefix = String::from_str("domains.");
            prefix.append(id);
            prefix.append(".rosters");
            check_refs(&config.residency_groups, prefix.as_str(), "", "residency group", &e.1.rosters, out);
            proof {
                reveal_strlit("");
                assert(""@ =~= Seq::<char>::empty());
            }
            assert(domain_diags(*config, e.0@, e.1) =~= head + ref_diags(config.residency_groups@, prefix@, ""@,
                "residency group"@, keys_view(e.1.rosters@)));
            assert(diags_view(out@) =~= start + domains_diags(*config, t));
        }
        i = i + 1;
    }
    assert(es.take(es.len() as int) =~= es);
}

fn check_groups(config: &AnemoiConfig, out: &mut Vec<ConfigDiagnostic>)
    ensures
        diags_view(final(out)@) == diags_view(old(out)@) + groups_diags(*config, config.residency_groups@),
{
    let ghost start = diags_view(out@);
    let ghost es = config.residency_groups@;
    let mut i: usize = 0;
    assert(start + Seq::<DiagView>::empty() =~= start);
    while i < config.residency_groups.len()
        invariant
            0 <= i <= es.len(),
            es == config.residency_groups@,
            diags_view(out@) == start + groups_diags(*config, es.take(i as int)),
        decreases es.len() - i,
    {
        let ghost t = es.take(i as int + 1);
        assert(t.drop_last() =~= es.take(i as int));
        assert(t.last() == es[i as int]);
        let first = first_of_key(&config.residency_groups, i);
        if first {
            let e = &config.residency_groups[i];
            let id = e.0.key();
            let ghost before = diags_view(out@);
            let ghost head: Seq<DiagView> = if e.1.models@.len() == 0 {
                seq![error_at("residency_groups."@ + e.0@ + ".models"@,
                    "residency group must reference at least one model"@)]
            } else {
                Seq::empty()
            };
            if e.1.models.len() == 0 {
                let mut path = String::from_str("residency_groups.");
                path.append(id);
                path.append(".models");
                push_error(out, path, String::from_str("residency group must reference at least one model"));
                assert(diags_view(out@) =~= before + head);
            } else {
                assert(before + head =~= before);
            }
            let mut prefix = String::from_str("residency_groups.");
            prefix.append(id);
            prefix.append(".models");
            check_refs(&config.models, prefix.as_str(), "", "model", &e.1.models, out);
            proof {
                reveal_strlit("");
                assert(""@ =~= Seq::<char>::empty());
            }
            assert(group_diags(*config, e.0@, e.1) =~= head + ref_diags(config.models@, prefix@, ""@,
                "model"@, keys_view(e.1.models@)));
            assert(diags_view(out@) =~= start + groups_diags(*config, t));
        }
        i = i + 1;
    }
    assert(es.take(es.len() as int) =~= es);
}

fn check_models(config: &AnemoiConfig, out: &mut Vec<ConfigDiagnostic>)
    ensures
        diags_view(final(out)@) == diags_view(old(out)@) + models_diags(*config, config.models@),
{
    let ghost start = diags_view(out@);
    let ghost es = config.models@;
    let mut i: usize = 0;
    assert(start + Seq::<DiagView>::empty() =~= start);
    while i < config.models.len()
        invariant
            0 <= i <= es.len(),
            es == config.models@,
            diags_view(out@) == start + models_diags(*config, es.take(i as int)),
        decreases es.len() - i,
    {
        let ghost t = es.take(i as int + 1);
        assert(t.drop_last() =~= es.take(i as int));
        assert(t.last() == es[i as int]);
        let first = first_of_key(&config.models, i);
        if first {
            let e = &config.models[i];
            let mut prefix = String::from_str("models.");
            prefix.append(e.0.key());
            prefix.append(".supported_runtimes");
            check_refs(&config.runtimes, prefix.as_str(), "", "runtime", &e.1.supported_runtimes, out);
            proof {
                reveal_strlit("");
                assert(""@ =~= Seq::<char>::empty());
            }
            assert(diags_view(out@) =~= start + models_diags(*config, t));
        }
        i = i + 1;
    }
    assert(es.take(es.len() as int) =~= es);
}

fn resident_model_ids(rs: &Vec<RuntimeResidentConfig>) -> (r: Vec<ModelId>)
    ensures
        keys_view(r@) == resident_ids(rs@),
{
    let mut out: Vec<ModelId> = Vec::new();
    let mut i: usize = 0;
    while i < rs.len()
        invariant
            0 <= i <= rs@.len(),
            keys_view(out@) == resident_ids(rs@).take(i as int),
        decreases rs@.len() - i,
    {
        let ghost before = out@;
        let m = rs[i].model_id.clone();
        out.push(m);
        assert(keys_view(out@) =~= keys_view(before).push(m@));
        assert(resident_ids(rs@).take(i as int + 1) =~= resident_ids(rs@).take(i as int).push(resident_ids(rs@)[i as int]));
        assert(keys_view(out@) =~= resident_ids(rs@).take(i as int + 1));
        i = i + 1;
    }
    assert(resident_ids(rs@).take(rs@.len() as int) =~= resident_ids(rs@));
    out
}

fn check_runtime(config: &AnemoiConfig, id: &RuntimeId, r: &RuntimeConfig, out: &mut Vec<ConfigDiagnostic>)
    ensures
        diags_view(final(out)@) == diags_view(old(out)@) + runtime_diags(*config, id@, *r),
{
    let ghost before = diags_view(out@);
    let known = is_known_runtime_adapter(r.adapter.as_str());
    let ghost h1: Seq<DiagView> = if !known {
        seq![error_at("runtimes."@ + id@ + ".adapter"@, "unknown runtime adapter '"@ + r.adapter@ + "'"@)]
    } else {
        Seq::empty()
    };
    if !known {
        let mut path = String::from_str("runtimes.");
        path.append(id.as_str());
        path.append(".adapter");
        let mut message = String::from_str("unknown runtime adapter '");
        message.append(r.adapter.as_str());
        message.append("'");
        push_error(out, path, message);
        assert(diags_view(out@) =~= before + h1);
    } else {
        assert(before + h1 =~= before);
    }
    let ghost mid = diags_view(out@);
    let is_mock = str_eq(r.adapter.as_str(), "mock");
    let ghost h2: Seq<DiagView> = if known && r.adapter@ != "mock"@ && r.base_url is None {
        seq![error_at("runtimes."@ + id@ + ".base_url"@,
            "runtime adapter '"@ + r.adapter@ + "' requires a base_url"@)]
    } else {
        Seq::empty()
    };
    if known && !is_mock && r.base_url.is_none() {
        let mut path = String::from_str("runtimes.");
        path.append(id.as_str());
        path.append(".base_url");
        let mut message = String::from_str("runtime adapter '");
        message.append(r.adapter.as_str());
        message.append("' requires a base_url");
        push_error(out, path, message);
        assert(diags_view(out@) =~= mid + h2);
    } else {
        assert(mid + h2 =~= mid);
    }
    let ids = resident_model_ids(&r.initial_residents);
    let mut prefix = String::from_str("runtimes.");
    prefix.append(id.as_str());
    prefix.append(".initial_residents");
    check_refs(&config.models, prefix.as_str(), ".model_id", "model", &ids, out);
    assert(runtime_diags(*config, id@, *r) =~= h1 + h2 + ref_diags(config.models@, prefix@, ".model_id"@,
        "model"@, keys_view(ids@)));
    assert(diags_view(out@) =~= before + runtime_diags(*config, id@, *r));
}

fn check_runtimes(config: &AnemoiConfig, out: &mut Vec<ConfigDiagnostic>)
    ensures
        diags_view(final(out)@) == diags_view(old(out)@) + runtimes_diags(*config, config.runtimes@),
{
    let ghost start = diags_view(out@);
    let ghost es = config.runtimes@;
    let mut i: usize = 0;
    assert(start + Seq::<DiagView>::empty() =~= start);
    while i < config.runtimes.len()
        invariant
            0 <= i <= es.len(),
            es == config.runtimes@,
            diags_view(out@) == start + runtimes_diags(*config, es.take(i as int)),
        decreases es.len() - i,
    {
        let ghost t = es.take(i as int + 1);
        assert(t.drop_last() =~= es.take(i as int));
        assert(t.last() == es[i as int]);
        let first = first_of_key(&config.runtimes, i);
        if first {
            let e = &config.runtimes[i];
            check_runtime(config, &e.0, &e.1, out);
            assert(diags_view(out@) =~= start + runtimes_diags(*config, t));
        }
        i = i + 1;
    }
    assert(es.take(es.len() as int) =~= es);
}

// ---------------------------------------------------------------------------
// Sorting the report.

proof fn lemma_diag_order(a: DiagView, b: DiagView, c: DiagView)
    ensures
        diag_lt(a, b) ==> !diag_lt(b, a),
        a != b ==> diag_lt(a, b) || diag_lt(b, a),
        diag_lt(a, b) && diag_lt(b, c) ==> diag_lt(a, c),
{
    lemma_lex_lt_trichotomy(a.0, b.0);
    lemma_lex_lt_trichotomy(b.0, c.0);
    lemma_lex_lt_trichotomy(a.0, c.0);
    lemma_lex_lt_trichotomy(a.2, b.2);
    lemma_lex_lt_trichotomy(b.2, c.2);
    if lex_lt(a.0, b.0) && lex_lt(b.0, c.0) {
        lemma_lex_lt_transitive(a.0, b.0, c.0);
    }
    if lex_lt(a.2, b.2) && lex_lt(b.2, c.2) {
        lemma_lex_lt_transitive(a.2, b.2, c.2);
    }
    if a != b && a.0 == b.0 && a.1 == b.1 {
        assert(a.2 != b.2);
    }
}

fn diag_less(a: &ConfigDiagnostic, b: &ConfigDiagnostic) -> (r: bool)
    ensures
        r == diag_lt(a@, b@),
{
    if str_lt(a.path.as_str(), b.path.as_str()) {
        return true;
    }
    if !str_eq(a.path.as_str(), b.path.as_str()) {
        return false;
    }
    let ra: u8 = match a.severity { DiagnosticSeverity::Error => 0, DiagnosticSeverity::Warning => 1 };
    let rb: u8 = match b.severity { DiagnosticSeverity::Error => 0, DiagnosticSeverity::Warning => 1 };
    if ra < rb {
        return true;
    }
    if ra != rb {
        return false;
    }
    assert(a.severity == b.severity);
    str_lt(a.message.as_str(), b.message.as_str())
}

proof fn lemma_insert_diag_at(sorted: Seq<DiagView>, x: DiagView, j: int)
    requires
        0 <= j <= sorted.len(),
        forall|k: int| j <= k < sorted.len() ==> diag_lt(x, #[trigger] sorted[k]),
        j > 0 ==> !diag_lt(x, sorted[j - 1]),
    ensures
        insert_diag(sorted, x) == sorted.insert(j, x),
    decreases sorted.len(),
{
    if sorted.len() == 0 {
        assert(sorted.insert(j, x) =~= seq![x]);
    } else if !diag_lt(x, sorted.last()) {
        if j < sorted.len() {
            assert(diag_lt(x, sorted[sorted.len() - 1]));
        }
        assert(sorted.insert(j, x) =~= sorted.push(x));
    } else {
        lemma_insert_diag_at(sorted.drop_last(), x, j);
        assert(sorted.drop_last().insert(j, x).push(sorted.last()) =~= sorted.insert(j, x));
    }
}

fn insert_diagnostic(out: &mut Vec<ConfigDiagnostic>, x: ConfigDiagnostic)
    ensures
        diags_view(final(out)@) == insert_diag(diags_view(old(out)@), x@),
{
    let ghost before = diags_view(out@);
    let mut j: usize = out.len();
    while j > 0 && diag_less(&x, &out[j - 1])
        invariant
            j <= out@.len(),
            before == diags_view(out@),
            forall|k: int| j <= k < out@.len() ==> diag_lt(x@, #[trigger] out@[k]@),
        decreases j,
    {
        j = j - 1;
    }
    proof {
        assert forall|k: int| j <= k < before.len() implies diag_lt(x@, #[trigger] before[k]) by {
            assert(before[k] == out@[k]@);
        }
        if j > 0 {
            assert(before[j - 1] == out@[j - 1]@);
        }
        lemma_insert_diag_at(before, x@, j as int);
    }
    let ghost xv = x@;
    out.insert(j, x);
    assert(diags_view(out@) =~= before.insert(j as int, xv));
}

fn sort_diagnostics(v: Vec<ConfigDiagnostic>) -> (r: Vec<ConfigDiagnostic>)
    ensures
        diags_view(r@) == sort_diags(diags_view(v@)),
{
    let ghost all = diags_view(v@);
    let mut sorted: Vec<ConfigDiagnostic> = Vec::new();
    assert(diags_view(sorted@) =~= sort_diags(all.take(0)));
    let mut i: usize = 0;
    while i < v.len()
        invariant
            0 <= i <= v@.len(),
            all == diags_view(v@),
            diags_view(sorted@) == sort_diags(all.take(i as int)),
        decreases v@.len() - i,
    {
        assert(all.take(i as int + 1).drop_last() =~= all.take(i as int));
        assert(all.take(i as int + 1).last() == v@[i as int]@);
        insert_diagnostic(&mut sorted, v[i].clone());
        i = i + 1;
    }
    assert(all.take(v@.len() as int) =~= all);
    sorted
}

/// Every problem of `config`, sorted by path, severity and message (see
/// [`spec_validate`]); empty exactly when the configuration is valid.
pub fn validate_config(config: &AnemoiConfig) -> (r: Vec<ConfigDiagnostic>)
    ensures
        diags_view(r@) == spec_validate(*config),
{
    let mut out: Vec<ConfigDiagnostic> = Vec::new();
    assert(diags_view(out@) =~= Seq::<DiagView>::empty());
    check_domains(config, &mut out);
    check_groups(config, &mut out);
    check_models(config, &mut out);
    check_runtimes(config, &mut out);
    assert(diags_view(out@) =~= diagnostics_of(*config));
    sort_diagnostics(out)
}

impl AnemoiConfig {
    /// Validates the configuration: `Ok` when there is no problem, otherwise
    /// the sorted diagnostics (see [`spec_validate`]).
    pub fn validate(&self) -> (r: Result<(), ConfigValidationError>)
        ensures
            match r {
                Ok(()) => spec_validate(*self).len() == 0,
                Err(e) => spec_validate(*self).len() > 0 && diags_view(e.diagnostics@) == spec_validate(*self),
            },
    {
        let diagnostics = validate_config(self);
        if diagnostics.len() == 0 {
            Ok(())
        } else {
            Err(ConfigValidationError { diagnostics })
        }
    }
}

/// The name of a severity, as `{:?}` renders it.
pub open spec fn severity_name(s: DiagnosticSeverity) -> Seq<char> {
    match s {
        DiagnosticSeverity::Error => "Error"@,
        DiagnosticSeverity::Warning => "Warning"@,
    }
}

/// The report of `diags`, one line per diagnostic after the heading.
pub open spec fn report_text(diags: Seq<DiagView>) -> Seq<char>
    decreases diags.len(),
{
    if diags.len() == 0 {
        "invalid Anemoi config"@
    } else {
        let d = diags.last();
        report_text(diags.drop_last()) + "\n- "@ + severity_name(d.1) + " "@ + d.0 + ": "@ + d.2
    }
}

impl ConfigValidationError {
    /// The human-readable report: a heading, then one line per diagnostic
    /// with its severity, path and message.
    pub fn message(&self) -> (r: String)
        ensures
            r@ == report_text(diags_view(self.diagnostics@)),
    {
        let ghost all = diags_view(self.diagnostics@);
        let mut text = String::from_str("invalid Anemoi config");
        let mut i: usize = 0;
        while i < self.diagnostics.len()
            invariant
                0 <= i <= self.diagnostics@.len(),
                all == diags_view(self.diagnostics@),
                text@ == report_text(all.take(i as int)),
            decreases self.diagnostics@.len() - i,
        {
            let d = &self.diagnostics[i];
            assert(all.take(i as int + 1).drop_last() =~= all.take(i as int));
            assert(all.take(i as int + 1).last() == d@);
            text.append("\n- ");
            match d.severity {
                DiagnosticSeverity::Error => text.append("Error"),
                DiagnosticSeverity::Warning => text.append("Warning"),
            }
            text.append(" ");
            text.append(d.path.as_str());
            text.append(": ");
            text.append(d.message.as_str());
            i = i + 1;
        }
        assert(all.take(self.diagnostics@.len() as int) =~= all);
        text
    }
}

// ---------------------------------------------------------------------------
// Laws of the report.

/// Whether no diagnostic of `s` orders before an earlier one.
pub open spec fn diags_sorted(s: Seq<DiagView>) -> bool {
    forall|i: int, j: int| 0 <= i < j < s.len() ==> !diag_lt(#[trigger] s[j], #[trigger] s[i])
}

proof fn lemma_insert_diag_members(sorted: Seq<DiagView>, x: DiagView, y: DiagView)
    ensures
        insert_diag(sorted, x).contains(y) ==> sorted.contains(y) || y == x,
    decreases sorted.len(),
{
    if sorted.len() > 0 && diag_lt(x, sorted.last()) {
        lemma_insert_diag_members(sorted.drop_last(), x, y);
        let r = insert_diag(sorted.drop_last(), x);
        if r.push(sorted.last()).contains(y) {
            let k = choose|k: int| 0 <= k < r.push(sorted.last()).len() && r.push(sorted.last())[k] == y;
            if k < r.len() {
                assert(r[k] == y);
                if sorted.drop_last().contains(y) {
                    let k2 = choose|k2: int| 0 <= k2 < sorted.drop_last().len() && sorted.drop_last()[k2] == y;
                    assert(sorted[k2] == y);
                }
            } else {
                assert(sorted[sorted.len() - 1] == y);
            }
        }
    } else if sorted.len() > 0 {
        if sorted.push(x).contains(y) {
            let k = choose|k: int| 0 <= k < sorted.push(x).len() && sorted.push(x)[k] == y;
            if k < sorted.len() {
                assert(sorted[k] == y);
            }
        }
    } else {
        if seq![x].contains(y) {
            let k = choose|k: int| 0 <= k < 1 && seq![x][k] == y;
        }
    }
}

proof fn lemma_insert_diag_sorted(sorted: Seq<DiagView>, x: DiagView)
    requires
        diags_sorted(sorted),
    ensures
        diags_sorted(insert_diag(sorted, x)),
    decreases sorted.len(),
{
    if sorted.len() == 0 {
    } else if !diag_lt(x, sorted.last()) {
        let r = sorted.push(x);
        let l = sorted.len() - 1;
        assert forall|i: int, j: int| 0 <= i < j < r.len() implies !diag_lt(#[trigger] r[j], #[trigger] r[i]) by {
            if j == sorted.len() {
                if i < l {
                    lemma_diag_order(sorted[i], sorted[l], x);
                    lemma_diag_order(x, sorted[l], sorted[i]);
                    lemma_diag_order(sorted[l], x, sorted[i]);
                    lemma_diag_order(sorted[i], x, sorted[l]);
                    assert(!diag_lt(sorted[l], sorted[i]));
                } else {
                    lemma_diag_order(x, sorted[l], x);
                }
            } else {
                assert(r[i] == sorted[i] && r[j] == sorted[j]);
            }
        }
    } else {
        let d = sorted.drop_last();
        let l = sorted.last();
        assert(diags_sorted(d)) by {
            assert forall|i: int, j: int| 0 <= i < j < d.len() implies !diag_lt(#[trigger] d[j], #[trigger] d[i]) by {
                assert(d[i] == sorted[i] && d[j] == sorted[j]);
            }
        }
        lemma_insert_diag_sorted(d, x);
        let r = insert_diag(d, x);
        assert forall|i: int, j: int| 0 <= i < j < r.push(l).len() implies !diag_lt(#[trigger] r.push(l)[j], #[trigger] r.push(l)[i]) by {
            if j == r.len() {
                let y = r[i];
                assert(r.contains(y));
                lemma_insert_diag_members(d, x, y);
                if d.contains(y) {
                    let k = choose|k: int| 0 <= k < d.len() && d[k] == y;
                    assert(sorted[k] == y);
                    assert(!diag_lt(sorted[sorted.len() - 1], sorted[k]));
                } else {
                    lemma_diag_order(x, l, x);
                }
            } else {
                assert(r.push(l)[i] == r[i] && r.push(l)[j] == r[j]);
            }
        }
    }
}

proof fn lemma_insert_diag_multiset(sorted: Seq<DiagView>, x: DiagView)
    ensures
        insert_diag(sorted, x).to_multiset() =~= sorted.to_multiset().insert(x),
    decreases sorted.len(),
{
    broadcast use vstd::seq_lib::group_to_multiset_ensures, vstd::multiset::group_multiset_axioms;
    if sorted.len() == 0 {
        assert(seq![x] =~= sorted.push(x));
    } else if !diag_lt(x, sorted.last()) {
    } else {
        lemma_insert_diag_multiset(sorted.drop_last(), x);
        assert(sorted =~= sorted.drop_last().push(sorted.last()));
    }
}

proof fn lemma_sort_diags(s: Seq<DiagView>)
    ensures
        diags_sorted(sort_diags(s)),
        sort_diags(s).to_multiset() =~= s.to_multiset(),
    decreases s.len(),
{
    broadcast use vstd::seq_lib::group_to_multiset_ensures, vstd::multiset::group_multiset_axioms;
    if s.len() > 0 {
        lemma_sort_diags(s.drop_last());
        lemma_insert_diag_sorted(sort_diags(s.drop_last()), s.last());
        lemma_insert_diag_multiset(sort_diags(s.drop_last()), s.last());
        assert(s =~= s.drop_last().push(s.last()));
    }
}

/// The report is ordered: by path, then severity, then message.
pub proof fn law_report_is_sorted(config: AnemoiConfig)
    ensures
        diags_sorted(spec_validate(config)),
{
    lemma_sort_diags(diagnostics_of(config));
}

/// The report holds every problem found, each as often as it was found.
pub proof fn law_report_is_complete(config: AnemoiConfig)
    ensures
        spec_validate(config).to_multiset() =~= diagnostics_of(config).to_multiset(),
{
    lemma_sort_diags(diagnostics_of(config));
}

/// Whether every diagnostic of `s` is an error.
pub open spec fn all_errors(s: Seq<DiagView>) -> bool {
    forall|i: int| 0 <= i < s.len() ==> (#[trigger] s[i]).1 == DiagnosticSeverity::Error
}

proof fn lemma_all_errors_add(a: Seq<DiagView>, b: Seq<DiagView>)
    requires
        all_errors(a),
        all_errors(b),
    ensures
        all_errors(a + b),
{
    assert forall|i: int| 0 <= i < (a + b).len() implies (#[trigger] (a + b)[i]).1 == DiagnosticSeverity::Error by {
        if i < a.len() {
            assert((a + b)[i] == a[i]);
        } else {
            assert((a + b)[i] == b[i - a.len()]);
        }
    }
}

proof fn lemma_ref_diags_errors<K: View<V = Seq<char>>, V>(
    table: Seq<(K, V)>,
    prefix: Seq<char>,
    suffix: Seq<char>,
    what: Seq<char>,
    ids: Seq<Seq<char>>,
)
    ensures
        all_errors(ref_diags(table, prefix, suffix, what, ids)),
    decreases ids.len(),
{
    if ids.len() > 0 {
        lemma_ref_diags_errors(table, prefix, suffix, what, ids.drop_last());
        let prev = ref_diags(table, prefix, suffix, what, ids.drop_last());
        if !has_key(table, ids.last()) {
            let x = error_at(index_path(prefix, (ids.len() - 1) as nat, suffix),
                "unknown "@ + what + " '"@ + ids.last() + "'"@);
            assert forall|i: int| 0 <= i < prev.push(x).len() implies (#[trigger] prev.push(x)[i]).1 == DiagnosticSeverity::Error by {
                if i < prev.len() {
                    assert(prev.push(x)[i] == prev[i]);
                }
            }
        }
    }
}

proof fn lemma_one_error(p: Seq<char>, m: Seq<char>)
    ensures
        all_errors(seq![error_at(p, m)]),
        all_errors(Seq::<DiagView>::empty()),
{
}

proof fn lemma_entry_diags_errors(config: AnemoiConfig)
    ensures
        forall|id: Seq<char>, d: DomainConfig| all_errors(#[trigger] domain_diags(config, id, d)),
        forall|id: Seq<char>, g: ResidencyGroupConfig| all_errors(#[trigger] group_diags(config, id, g)),
        forall|id: Seq<char>, m: ModelProfileConfig| all_errors(#[trigger] model_diags(config, id, m)),
        forall|id: Seq<char>, r: RuntimeConfig| all_errors(#[trigger] runtime_diags(config, id, r)),
{
    assert forall|id: Seq<char>, d: DomainConfig| all_errors(#[trigger] domain_diags(config, id, d)) by {
        lemma_one_error("domains."@ + id + ".rosters"@,
            "domain must reference at least one residency group or set live_roster"@);
        lemma_ref_diags_errors(config.residency_groups@, "domains."@ + id + ".rosters"@, Seq::empty(),
            "residency group"@, keys_view(d.rosters@));
        lemma_all_errors_add(
            if d.rosters@.len() == 0 && d.live_roster is None {
                seq![error_at("domains."@ + id + ".rosters"@,
                    "domain must reference at least one residency group or set live_roster"@)]
            } else {
                Seq::empty()
            },
            ref_diags(config.residency_groups@, "domains."@ + id + ".rosters"@, Seq::empty(),
                "residency group"@, keys_view(d.rosters@)));
    }
    assert forall|id: Seq<char>, g: ResidencyGroupConfig| all_errors(#[trigger] group_diags(config, id, g)) by {
        lemma_one_error("residency_groups."@ + id + ".models"@, "residency group must reference at least one model"@);
        lemma_ref_diags_errors(config.models@, "residency_groups."@ + id + ".models"@, Seq::empty(),
            "model"@, keys_view(g.models@));
        lemma_all_errors_add(
            if g.models@.len() == 0 {
                seq![error_at("residency_groups."@ + id + ".models"@,
                    "residency group must reference at least one model"@)]
            } else {
                Seq::empty()
            },
            ref_diags(config.models@, "residency_groups."@ + id + ".models"@, Seq::empty(),
                "model"@, keys_view(g.models@)));
    }
    assert forall|id: Seq<char>, m: ModelProfileConfig| all_errors(#[trigger] model_diags(config, id, m)) by {
        lemma_ref_diags_errors(config.runtimes@, "models."@ + id + ".supported_runtimes"@, Seq::empty(), "runtime"@,
            keys_view(m.supported_runtimes@));
    }
    assert forall|id: Seq<char>, r: RuntimeConfig| all_errors(#[trigger] runtime_diags(config, id, r)) by {
        let known = known_runtime_adapters().contains(r.adapter@);
        let a = if !known {
            seq![error_at("runtimes."@ + id + ".adapter"@, "unknown runtime adapter '"@ + r.adapter@ + "'"@)]
        } else {
            Seq::empty()
        };
        let b = if known && r.adapter@ != "mock"@ && r.base_url is None {
            seq![error_at("runtimes."@ + id + ".base_url"@,
                "runtime adapter '"@ + r.adapter@ + "' requires a base_url"@)]
        } else {
            Seq::empty()
        };
        let c = ref_diags(config.models@, "runtimes."@ + id + ".initial_residents"@, ".model_id"@, "model"@,
            resident_ids(r.initial_residents@));
        lemma_one_error("runtimes."@ + id + ".adapter"@, "unknown runtime adapter '"@ + r.adapter@ + "'"@);
        lemma_one_error("runtimes."@ + id + ".base_url"@, "runtime adapter '"@ + r.adapter@ + "' requires a base_url"@);
        lemma_ref_diags_errors(config.models@, "runtimes."@ + id + ".initial_residents"@, ".model_id"@, "model"@,
            resident_ids(r.initial_residents@));
        lemma_all_errors_add(a, b);
        lemma_all_errors_add(a + b, c);
    }
}

proof fn lemma_tables_errors(config: AnemoiConfig, n: int)
    requires
        0 <= n,
    ensures
        n <= config.domains@.len() ==> all_errors(domains_diags(config, config.domains@.take(n))),
        n <= config.residency_groups@.len() ==> all_errors(groups_diags(config, config.residency_groups@.take(n))),
        n <= config.models@.len() ==> all_errors(models_diags(config, config.models@.take(n))),
        n <= config.runtimes@.len() ==> all_errors(runtimes_diags(config, config.runtimes@.take(n))),
    decreases n,
{
    lemma_entry_diags_errors(config);
    if n > 0 {
        lemma_tables_errors(config, n - 1);
        if n <= config.domains@.len() {
            let e = config.domains@.take(n);
            assert(e.drop_last() =~= config.domains@.take(n - 1));
            lemma_all_errors_add(domains_diags(config, e.drop_last()), domain_diags(config, e.last().0@, e.last().1));
        }
        if n <= config.residency_groups@.len() {
            let e = config.residency_groups@.take(n);
            assert(e.drop_last() =~= config.residency_groups@.take(n - 1));
            lemma_all_errors_add(groups_diags(config, e.drop_last()), group_diags(config, e.last().0@, e.last().1));
        }
        if n <= config.models@.len() {
            let e = config.models@.take(n);
            assert(e.drop_last() =~= config.models@.take(n - 1));
            lemma_all_errors_add(models_diags(config, e.drop_last()), model_diags(config, e.last().0@, e.last().1));
        }
        if n <= config.runtimes@.len() {
            let e = config.runtimes@.take(n);
            assert(e.drop_last() =~= config.runtimes@.take(n - 1));
            lemma_all_errors_add(runtimes_diags(config, e.drop_last()), runtime_diags(config, e.last().0@, e.last().1));
        }
    } else {
        assert(config.domains@.take(0) =~= Seq::<(DomainId, DomainConfig)>::empty());
        assert(config.residency_groups@.take(0) =~= Seq::<(ResidencyGroupId, ResidencyGroupConfig)>::empty());
        assert(config.models@.take(0) =~= Seq::<(ModelId, ModelProfileConfig)>::empty());
        assert(config.runtimes@.take(0) =~= Seq::<(RuntimeId, RuntimeConfig)>::empty());
    }
}

proof fn lemma_ref_diags_paths<K: View<V = Seq<char>>, V>(
    table: Seq<(K, V)>,
    prefix: Seq<char>,
    suffix: Seq<char>,
    what: Seq<char>,
    ids: Seq<Seq<char>>,
)
    ensures
        forall|k: int| 0 <= k < ref_diags(table, prefix, suffix, what, ids).len() ==>
            exists|j: nat| (#[trigger] ref_diags(table, prefix, suffix, what, ids)[k]).0 == index_path(prefix, j, suffix),
    decreases ids.len(),
{
    if ids.len() > 0 {
        lemma_ref_diags_paths(table, prefix, suffix, what, ids.drop_last());
        let prev = ref_diags(table, prefix, suffix, what, ids.drop_last());
        let cur = ref_diags(table, prefix, suffix, what, ids);
        assert forall|k: int| 0 <= k < cur.len() implies exists|j: nat| (#[trigger] cur[k]).0 == index_path(prefix, j, suffix) by {
            if k < prev.len() {
                assert(cur[k] == prev[k]);
            } else {
                assert(cur[k].0 == index_path(prefix, (ids.len() - 1) as nat, suffix));
            }
        }
    }
}

/// Whether `adapter` is one of the runtime adapters a configuration may
/// name: `mock`, `ollama`, `llama_cpp`, `llama_server` or `llama_swap`.
pub open spec fn is_listed_adapter(adapter: Seq<char>) -> bool {
    adapter == "mock"@ || adapter == "ollama"@ || adapter == "llama_cpp"@ || adapter == "llama_server"@
        || adapter == "llama_swap"@
}

/// A runtime's adapter is reported as unknown exactly when it is not one of
/// `mock`, `ollama`, `llama_cpp`, `llama_server`, `llama_swap`: then the
/// runtime's first diagnostic says so at `runtimes.<id>.adapter`; otherwise
/// none of its diagnostics concerns that path.
pub proof fn law_unknown_adapter_reported_exactly(config: AnemoiConfig, id: Seq<char>, r: RuntimeConfig)
    ensures
        (exists|k: int| 0 <= k < runtime_diags(config, id, r).len()
            && (#[trigger] runtime_diags(config, id, r)[k]).0 == "runtimes."@ + id + ".adapter"@)
            <==> !is_listed_adapter(r.adapter@),
        !is_listed_adapter(r.adapter@) ==> runtime_diags(config, id, r)[0]
            == error_at("runtimes."@ + id + ".adapter"@, "unknown runtime adapter '"@ + r.adapter@ + "'"@),
        (exists|k: int| 0 <= k < runtime_diags(config, id, r).len()
            && (#[trigger] runtime_diags(config, id, r)[k]).0 == "runtimes."@ + id + ".base_url"@)
            <==> (is_listed_adapter(r.adapter@) && r.adapter@ != "mock"@ && r.base_url is None),
{
    reveal_strlit("runtimes.");
    reveal_strlit(".adapter");
    reveal_strlit(".base_url");
    reveal_strlit(".initial_residents");
    reveal_strlit(".model_id");
    reveal_strlit("mock");
    reveal_strlit("ollama");
    reveal_strlit("llama_cpp");
    reveal_strlit("llama_server");
    reveal_strlit("llama_swap");
    let known = known_runtime_adapters().contains(r.adapter@);
    assert(known <==> is_listed_adapter(r.adapter@)) by {
        let ks = known_runtime_adapters();
        if is_listed_adapter(r.adapter@) {
            if r.adapter@ == "mock"@ { assert(ks[0] == r.adapter@); }
            else if r.adapter@ == "ollama"@ { assert(ks[1] == r.adapter@); }
            else if r.adapter@ == "llama_cpp"@ { assert(ks[2] == r.adapter@); }
            else if r.adapter@ == "llama_server"@ { assert(ks[3] == r.adapter@); }
            else { assert(ks[4] == r.adapter@); }
        }
        if known {
            let k = choose|k: int| 0 <= k < ks.len() && ks[k] == r.adapter@;
        }
    }
    let ap = "runtimes."@ + id + ".adapter"@;
    let a = if !known {
        seq![error_at(ap, "unknown runtime adapter '"@ + r.adapter@ + "'"@)]
    } else {
        Seq::empty()
    };
    let bp = "runtimes."@ + id + ".base_url"@;
    let b = if known && r.adapter@ != "mock"@ && r.base_url is None {
        seq![error_at(bp, "runtime adapter '"@ + r.adapter@ + "' requires a base_url"@)]
    } else {
        Seq::empty()
    };
    let prefix = "runtimes."@ + id + ".initial_residents"@;
    let c = ref_diags(config.models@, prefix, ".model_id"@, "model"@, resident_ids(r.initial_residents@));
    let all = runtime_diags(config, id, r);
    assert(all == a + b + c);
    let l: int = id.len() as int + 10;
    assert(ap.len() > l && ap[l] == 'a');
    assert(bp.len() > l && bp[l] == 'b');
    assert(prefix.len() > l && prefix[l] == 'i');
    lemma_ref_diags_paths(config.models@, prefix, ".model_id"@, "model"@, resident_ids(r.initial_residents@));
    assert forall|k: int| a.len() + b.len() <= k < all.len() implies (#[trigger] all[k]).0 != ap && all[k].0 != bp by {
        assert(all[k] == c[k - a.len() - b.len()]);
        let j = choose|j: nat| c[k - a.len() - b.len()].0 == index_path(prefix, j, ".model_id"@);
        assert(index_path(prefix, j, ".model_id"@)[l] == prefix[l]);
    }
    if b.len() > 0 {
        assert(all[a.len() as int] == b[0]);
    }
    if a.len() > 0 {
        assert(all[0] == a[0]);
        assert(a[0].0 != bp);
    }
    if !known {
        assert(all[0] == a[0]);
        assert(all[0].0 == ap);
    } else {
        lemma_ref_diags_paths(config.models@, prefix, ".model_id"@, "model"@, resident_ids(r.initial_residents@));
        assert forall|k: int| 0 <= k < all.len() implies (#[trigger] all[k]).0 != ap by {
            if k < b.len() {
                assert(all[k] == b[k]);
                assert(all[k].0[l] == 'b');
            } else {
                assert(all[k] == c[k - b.len()]);
                let j = choose|j: nat| c[k - b.len()].0 == index_path(prefix, j, ".model_id"@);
                assert(index_path(prefix, j, ".model_id"@)[l] == prefix[l]);
            }
        }
    }
}

/// Validation reports only errors: every diagnostic has severity `Error`.
pub proof fn law_every_diagnostic_is_an_error(config: AnemoiConfig)
    ensures
        all_errors(spec_validate(config)),
{
    broadcast use vstd::seq_lib::group_to_multiset_ensures;
    lemma_tables_errors(config, config.domains@.len() as int);
    lemma_tables_errors(config, config.residency_groups@.len() as int);
    lemma_tables_errors(config, config.models@.len() as int);
    lemma_tables_errors(config, config.runtimes@.len() as int);
    assert(config.domains@.take(config.domains@.len() as int) =~= config.domains@);
    assert(config.residency_groups@.take(config.residency_groups@.len() as int) =~= config.residency_groups@);
    assert(config.models@.take(config.models@.len() as int) =~= config.models@);
    assert(config.runtimes@.take(config.runtimes@.len() as int) =~= config.runtimes@);
    let all = diagnostics_of(config);
    lemma_all_errors_add(domains_diags(config, config.domains@), groups_diags(config, config.residency_groups@));
    lemma_all_errors_add(domains_diags(config, config.domains@) + groups_diags(config, config.residency_groups@),
        models_diags(config, config.models@));
    lemma_all_errors_add(domains_diags(config, config.domains@) + groups_diags(config, config.residency_groups@)
        + models_diags(config, config.models@), runtimes_diags(config, config.runtimes@));
    law_report_is_complete(config);
    let r = spec_validate(config);
    assert forall|i: int| 0 <= i < r.len() implies (#[trigger] r[i]).1 == DiagnosticSeverity::Error by {
        assert(r.to_multiset().count(r[i]) > 0);
        assert(all.to_multiset().count(r[i]) > 0);
        assert(all.contains(r[i]));
        let j = choose|j: int| 0 <= j < all.len() && all[j] == r[i];
    }
}

} // verus!

verus! {

/// A character that may start a bare variable name: an ASCII letter or `_`.
pub open spec fn name_start(c: char) -> bool {
    ('A' <= c && c <= 'Z') || ('a' <= c && c <= 'z') || c == '_'
}

/// A character that may continue a bare variable name.
pub open spec fn name_char(c: char) -> bool {
    name_start(c) || ('0' <= c && c <= '9')
}

/// Where the run of name characters starting at `from` ends.
pub open spec fn name_end(s: Seq<char>, from: int) -> int
    decreases s.len() - from,
{
    if 0 <= from < s.len() && name_char(s[from]) {
        name_end(s, from + 1)
    } else {
        from
    }
}

/// Where the two-character sequence `a b` first occurs in `s` at or after
/// `from`.
pub open spec fn pair_from(s: Seq<char>, a: char, b: char, from: int) -> Option<int>
    decreases s.len() - from,
{
    if from < 0 || from + 1 >= s.len() {
        None
    } else if s[from] == a && s[from + 1] == b {
        Some(from)
    } else {
        pair_from(s, a, b, from + 1)
    }
}

/// The value of variable `name` in the environment `env`, if it is set.
pub open spec fn env_value(env: Seq<(String, String)>, name: Seq<char>) -> Option<Seq<char>> {
    match lookup(env, name) {
        Some(v) => Some(v@),
        None => None,
    }
}

/// Whether variable `name` is set to something non-empty.
pub open spec fn set_non_empty(env: Seq<(String, String)>, name: Seq<char>) -> bool {
    env_value(env, name) is Some && env_value(env, name)->0.len() > 0
}

/// What `${inner}` becomes: `${VAR:-default}` the value if set and
/// non-empty, else the default; `${VAR:+alt}` the alternative if set and
/// non-empty, else nothing; a plain `${VAR}` the value if set, else the
/// reference itself (`whole`), left as written.
pub open spec fn braced_value(inner: Seq<char>, whole: Seq<char>, env: Seq<(String, String)>) -> Seq<char> {
    match pair_from(inner, ':', '-', 0) {
        Some(k) => if set_non_empty(env, inner.take(k)) {
            env_value(env, inner.take(k))->0
        } else {
            inner.skip(k + 2)
        },
        None => match pair_from(inner, ':', '+', 0) {
            Some(k) => if set_non_empty(env, inner.take(k)) { inner.skip(k + 2) } else { Seq::empty() },
            None => match env_value(env, inner) {
                Some(v) => v,
                None => whole,
            },
        },
    }
}

/// What a bare `$VAR` becomes: the value if set, else the reference itself.
pub open spec fn bare_value(name: Seq<char>, whole: Seq<char>, env: Seq<(String, String)>) -> Seq<char> {
    match env_value(env, name) {
        Some(v) => v,
        None => whole,
    }
}

/// Whether a braced reference `${...}` starts at `i`, closed by a later `}`.
pub open spec fn braced_at(s: Seq<char>, i: int) -> bool {
    &&& 0 <= i && i + 1 < s.len()
    &&& s[i] == '$' && s[i + 1] == '{'
    &&& index_of_from(s, '}', i + 2) is Some
    &&& i + 2 <= index_of_from(s, '}', i + 2)->0 < s.len()
}

/// Whether a bare reference `$VAR` starts at `i`.
pub open spec fn bare_at(s: Seq<char>, i: int) -> bool {
    &&& 0 <= i && i + 1 < s.len()
    &&& s[i] == '$' && name_start(s[i + 1])
    &&& i + 2 <= name_end(s, i + 2) <= s.len()
}

/// `s` from `i` on with every reference expanded, in one left-to-right pass:
/// what a reference expands to is not scanned again.
pub open spec fn expand_from(s: Seq<char>, i: int, env: Seq<(String, String)>) -> Seq<char>
    decreases s.len() - i,
{
    if i < 0 || i >= s.len() {
        Seq::empty()
    } else if braced_at(s, i) {
        let c = index_of_from(s, '}', i + 2)->0;
        braced_value(s.subrange(i + 2, c), s.subrange(i, c + 1), env) + expand_from(s, c + 1, env)
    } else if bare_at(s, i) {
        let e = name_end(s, i + 2);
        bare_value(s.subrange(i + 1, e), s.subrange(i, e), env) + expand_from(s, e, env)
    } else {
        seq![s[i]] + expand_from(s, i + 1, env)
    }
}

/// `text` with its environment-variable references expanded.
pub open spec fn spec_expand_env_vars(text: Seq<char>, env: Seq<(String, String)>) -> Seq<char> {
    expand_from(text, 0, env)
}

proof fn lemma_index_of_from_range(s: Seq<char>, c: char, from: int)
    requires
        0 <= from,
    ensures
        index_of_from(s, c, from) is Some ==> from <= index_of_from(s, c, from)->0 < s.len()
            && s[index_of_from(s, c, from)->0] == c,
    decreases s.len() - from,
{
    if from < s.len() && s[from] != c {
        lemma_index_of_from_range(s, c, from + 1);
    }
}

proof fn lemma_name_end_range(s: Seq<char>, from: int)
    requires
        0 <= from <= s.len(),
    ensures
        from <= name_end(s, from) <= s.len(),
    decreases s.len() - from,
{
    if from < s.len() && name_char(s[from]) {
        lemma_name_end_range(s, from + 1);
    }
}

proof fn lemma_pair_from_range(s: Seq<char>, a: char, b: char, from: int)
    requires
        0 <= from,
    ensures
        pair_from(s, a, b, from) is Some ==> from <= pair_from(s, a, b, from)->0
            && pair_from(s, a, b, from)->0 + 1 < s.len(),
    decreases s.len() - from,
{
    if from + 1 < s.len() && !(s[from] == a && s[from + 1] == b) {
        lemma_pair_from_range(s, a, b, from + 1);
    }
}

/// Where `c` first occurs in `v` at or after `from`.
fn find_char_from(v: &Vec<char>, c: char, from: usize) -> (r: Option<usize>)
    requires
        from <= v@.len(),
    ensures
        match r {
            Some(x) => index_of_from(v@, c, from as int) == Some(x as int),
            None => index_of_from(v@, c, from as int) is None,
        },
{
    let mut i: usize = from;
    while i < v.len()
        invariant
            from <= i <= v@.len(),
            index_of_from(v@, c, from as int) == index_of_from(v@, c, i as int),
        decreases v@.len() - i,
    {
        if v[i] == c {
            return Some(i);
        }
        proof {
            lemma_index_of_from(v@, c, i as int, i as int + 1);
        }
        i = i + 1;
    }
    None
}

/// Whether `c` may continue a bare variable name.
fn is_name_char(c: char) -> (r: bool)
    ensures
        r == name_char(c),
{
    ('A' <= c && c <= 'Z') || ('a' <= c && c <= 'z') || c == '_' || ('0' <= c && c <= '9')
}

/// Where the run of name characters starting at `from` ends.
fn find_name_end(v: &Vec<char>, from: usize) -> (r: usize)
    requires
        from <= v@.len(),
    ensures
        r as int == name_end(v@, from as int),
{
    let mut i: usize = from;
    while i < v.len() && is_name_char(v[i])
        invariant
            from <= i <= v@.len(),
            name_end(v@, from as int) == name_end(v@, i as int),
        decreases v@.len() - i,
    {
        i = i + 1;
    }
    i
}

/// Where `a b` first occurs in `v`.
fn find_pair(v: &Vec<char>, a: char, b: char) -> (r: Option<usize>)
    ensures
        match r {
            Some(k) => pair_from(v@, a, b, 0) == Some(k as int),
            None => pair_from(v@, a, b, 0) is None,
        },
{
    let n = v.len();
    let mut i: usize = 0;
    while i < n && i + 1 < n
        invariant
            0 <= i <= v@.len(),
            n == v@.len(),
            pair_from(v@, a, b, 0) == pair_from(v@, a, b, i as int),
        decreases v@.len() - i,
    {
        if v[i] == a && v[i + 1] == b {
            return Some(i);
        }
        i = i + 1;
    }
    None
}

/// The value of variable `name` in `env`, if it is set.
fn env_lookup<'a>(env: &'a Vec<(String, String)>, name: &str) -> (r: Option<&'a String>)
    ensures
        match r {
            Some(v) => env_value(env@, name@) == Some(v@),
            None => env_value(env@, name@) is None,
        },
{
    crate::text::find_entry(env, name)
}

/// What `${inner}` expands to (see [`braced_value`]).
fn expand_braced(inner: &Vec<char>, whole: &Vec<char>, env: &Vec<(String, String)>) -> (r: String)
    ensures
        r@ == braced_value(inner@, whole@, env@),
{
    let n = inner.len();
    proof {
        lemma_pair_from_range(inner@, ':', '-', 0);
        lemma_pair_from_range(inner@, ':', '+', 0);
    }
    match find_pair(inner, ':', '-') {
        Some(k) => {
            let name = string_from_chars(inner, 0, k);
            let fallback = string_from_chars(inner, k + 2, n);
            proof {
                assert(inner@.subrange(0, k as int) =~= inner@.take(k as int));
                assert(inner@.subrange(k as int + 2, n as int) =~= inner@.skip(k as int + 2));
            }
            match env_lookup(env, name.as_str()) {
                Some(v) => {
                    if v.as_str().unicode_len() > 0 {
                        v.clone()
                    } else {
                        fallback
                    }
                },
                None => fallback,
            }
        },
        None => match find_pair(inner, ':', '+') {
            Some(k) => {
                let name = string_from_chars(inner, 0, k);
                let alt = string_from_chars(inner, k + 2, n);
                proof {
                    assert(inner@.subrange(0, k as int) =~= inner@.take(k as int));
                    assert(inner@.subrange(k as int + 2, n as int) =~= inner@.skip(k as int + 2));
                }
                match env_lookup(env, name.as_str()) {
                    Some(v) => {
                        if v.as_str().unicode_len() > 0 {
                            alt
                        } else {
                            String::new()
                        }
                    },
                    None => String::new(),
                }
            },
            None => {
                let name = string_from_chars(inner, 0, n);
                proof {
                    assert(inner@.subrange(0, n as int) =~= inner@);
                }
                match env_lookup(env, name.as_str()) {
                    Some(v) => v.clone(),
                    None => string_from_chars(whole, 0, whole.len()),
                }
            },
        },
    }
}

/// Expands environment-variable references in `text`, with `env` holding
/// the environment (each variable with its value):
/// - `${VAR}` and `$VAR` become the value of `VAR` (a bare name is an ASCII
///   letter or `_` followed by letters, digits and `_`);
/// - `${VAR:-default}` becomes the value if set and non-empty, else `default`;
/// - `${VAR:+alt}` becomes `alt` if `VAR` is set and non-empty, else nothing.
/// A plain `${VAR}` or `$VAR` whose variable is unset stays as written, so a
/// missing value shows in the parsed config instead of silently becoming
/// empty. Expansion is one left-to-right pass: no nesting, no `$$` escape.
pub fn expand_env_vars(text: &str, env: &Vec<(String, String)>) -> (r: String)
    ensures
        r@ == spec_expand_env_vars(text@, env@),
{
    let s = chars_of(text);
    let mut out = String::new();
    let mut i: usize = 0;
    while i < s.len()
        invariant
            0 <= i <= s@.len(),
            s@ == text@,
            spec_expand_env_vars(text@, env@) == out@ + expand_from(s@, i as int, env@),
        decreases s@.len() - i,
    {
        let mut close: Option<usize> = None;
        if s[i] == '$' && i + 1 < s.len() && s[i + 1] == '{' {
            close = find_char_from(&s, '}', i + 2);
            proof {
                lemma_index_of_from_range(s@, '}', i as int + 2);
            }
        }
        let ghost rest = expand_from(s@, i as int, env@);
        match close {
            Some(c) => {
                assert(braced_at(s@, i as int));
                let inner = chars_of(string_from_chars(&s, i + 2, c).as_str());
                let whole = chars_of(string_from_chars(&s, i, c + 1).as_str());
                let piece = expand_braced(&inner, &whole, env);
                let ghost before = out@;
                push_str(&mut out, piece.as_str());
                proof {
                    assert(inner@ == s@.subrange(i as int + 2, c as int));
                    assert(whole@ == s@.subrange(i as int, c as int + 1));
                    assert(rest == piece@ + expand_from(s@, c as int + 1, env@));
                    assert(before + rest =~= out@ + expand_from(s@, c as int + 1, env@));
                }
                i = c + 1;
            },
            None => {
                assert(!braced_at(s@, i as int));
                if s[i] == '$' && i + 1 < s.len() && (('A' <= s[i + 1] && s[i + 1] <= 'Z') || ('a' <= s[i + 1] && s[i + 1] <= 'z') || s[i + 1] == '_') {
                    let e = find_name_end(&s, i + 2);
                    proof {
                        lemma_name_end_range(s@, i as int + 2);
                    }
                    assert(bare_at(s@, i as int));
                    let name = string_from_chars(&s, i + 1, e);
                    let piece = match env_lookup(env, name.as_str()) {
                        Some(v) => v.clone(),
                        None => string_from_chars(&s, i, e),
                    };
                    assert(piece@ == bare_value(s@.subrange(i as int + 1, e as int), s@.subrange(i as int, e as int), env@));
                    let ghost before = out@;
                    push_str(&mut out, piece.as_str());
                    proof {
                        assert(rest == piece@ + expand_from(s@, e as int, env@));
                        assert(before + rest =~= out@ + expand_from(s@, e as int, env@));
                    }
                    i = e;
                } else {
                    assert(!bare_at(s@, i as int));
                    let ghost before = out@;
                    out.push(s[i]);
                    proof {
                        assert(rest == seq![s@[i as int]] + expand_from(s@, i as int + 1, env@));
                        assert(before + rest =~= out@ + expand_from(s@, i as int + 1, env@));
                    }
                    i = i + 1;
                }
            },
        }
    }
    out
}

/// Text that holds no `$` comes through expansion unchanged, whatever the
/// environment.
pub proof fn law_text_without_references_is_unchanged(text: Seq<char>, env: Seq<(String, String)>)
    requires
        forall|k: int| 0 <= k < text.len() ==> text[k] != '$',
    ensures
        spec_expand_env_vars(text, env) == text,
{
    lemma_expand_plain(text, 0, env);
    assert(text.skip(0) =~= text);
}

proof fn lemma_expand_plain(s: Seq<char>, i: int, env: Seq<(String, String)>)
    requires
        0 <= i <= s.len(),
        forall|k: int| 0 <= k < s.len() ==> s[k] != '$',
    ensures
        expand_from(s, i, env) == s.skip(i),
    decreases s.len() - i,
{
    if i < s.len() {
        lemma_expand_plain(s, i + 1, env);
        assert(s.skip(i) =~= seq![s[i]] + s.skip(i + 1));
    } else {
        assert(s.skip(i) =~= Seq::<char>::empty());
    }
}

} // verus!
