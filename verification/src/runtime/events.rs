//! llama-swap's `/api/events` stream: model process states, the
//! server-sent-event framing, and the residents a state table implies.

use vstd::prelude::*;
use vstd::string::*;
use crate::ids::ModelId;
use crate::types::{ModelResident, ResidencyState};
use crate::text::{chars_of, string_from_chars, str_eq, lex_lt, str_lt, lemma_lex_lt_trichotomy, lemma_lex_lt_transitive};
use crate::runtime::util::{normalize_model_id, spec_normalized_id};
use crate::utf8::{utf8_decode, decode_utf8};

verus! {

/// The process state of a model as llama-swap reports it; the lifecycle is
/// stopped, starting, ready, stopping, shutdown.
#[derive(Debug, PartialEq, Eq, Structural, Clone, Copy)]
pub enum LlamaSwapModelState {
    Stopped,
    Starting,
    Ready,
    Stopping,
    Shutdown,
}

/// The state named by a wire string, if any.
pub open spec fn spec_state_from_wire(raw: Seq<char>) -> Option<LlamaSwapModelState> {
    if raw == "stopped"@ {
        Some(LlamaSwapModelState::Stopped)
    } else if raw == "starting"@ {
        Some(LlamaSwapModelState::Starting)
    } else if raw == "ready"@ {
        Some(LlamaSwapModelState::Ready)
    } else if raw == "stopping"@ {
        Some(LlamaSwapModelState::Stopping)
    } else if raw == "shutdown"@ {
        Some(LlamaSwapModelState::Shutdown)
    } else {
        None
    }
}

impl LlamaSwapModelState {
    /// The state named by a wire string (`stopped`, `starting`, `ready`,
    /// `stopping`, `shutdown`), or `None` for anything else.
    pub fn from_wire(raw: &str) -> (r: Option<LlamaSwapModelState>)
        ensures
            r == spec_state_from_wire(raw@),
    {
        if str_eq(raw, "stopped") {
            Some(LlamaSwapModelState::Stopped)
        } else if str_eq(raw, "starting") {
            Some(LlamaSwapModelState::Starting)
        } else if str_eq(raw, "ready") {
            Some(LlamaSwapModelState::Ready)
        } else if str_eq(raw, "stopping") {
            Some(LlamaSwapModelState::Stopping)
        } else if str_eq(raw, "shutdown") {
            Some(LlamaSwapModelState::Shutdown)
        } else {
            None
        }
    }

    /// The residency of a model in this state: none when not loaded, loading
    /// while starting, hot on GPU when ready, draining while stopping.
    pub open spec fn spec_residency(self) -> Option<ResidencyState> {
        match self {
            LlamaSwapModelState::Stopped | LlamaSwapModelState::Shutdown => None,
            LlamaSwapModelState::Starting => Some(ResidencyState::Loading),
            LlamaSwapModelState::Ready => Some(ResidencyState::HotGpu),
            LlamaSwapModelState::Stopping => Some(ResidencyState::Draining),
        }
    }

    /// The residency of a model in this state (see [`Self::spec_residency`]).
    pub fn residency(self) -> (r: Option<ResidencyState>)
        ensures
            r == self.spec_residency(),
    {
        match self {
            LlamaSwapModelState::Stopped | LlamaSwapModelState::Shutdown => None,
            LlamaSwapModelState::Starting => Some(ResidencyState::Loading),
            LlamaSwapModelState::Ready => Some(ResidencyState::HotGpu),
            LlamaSwapModelState::Stopping => Some(ResidencyState::Draining),
        }
    }
}

// ---------------------------------------------------------------------------
// JSON payloads.

/// The members of a JSON object, as (key, value text): the value text is the
/// member's string value, `None` for a value that is not a string.
pub type Members = Seq<(Seq<char>, Option<Seq<char>>)>;

/// The members of the JSON object in `text`, in key order (a repeated key
/// keeps its last value); `None` when `text` is not a JSON object.
pub uninterp spec fn json_object_members(text: Seq<char>) -> Option<Members>;

/// The objects of the JSON array of objects in `text`, each as its members;
/// `None` when `text` is not a JSON array whose elements are all objects.
pub uninterp spec fn json_object_array(text: Seq<char>) -> Option<Seq<Members>>;

/// The view of parsed members.
pub open spec fn members_view(v: Seq<(String, Option<String>)>) -> Members {
    v.map_values(|m: (String, Option<String>)| (m.0@, match m.1 { Some(s) => Some(s@), None => None }))
}

/// Parses `text` as a JSON object (`serde_json::from_str` into a
/// `BTreeMap<String, serde_json::Value>`), keeping each member's string value.
/// Its result is named by [`json_object_members`].
#[verifier::external_body]
fn parse_json_object(text: &str) -> (r: Option<Vec<(String, Option<String>)>>)
    ensures
        match r {
            Some(v) => json_object_members(text@) == Some(members_view(v@)),
            None => json_object_members(text@) is None,
        },
{
    let m: std::collections::BTreeMap<String, serde_json::Value> = serde_json::from_str(text).ok()?;
    Some(m.into_iter().map(|(k, v)| (k, match v {
        serde_json::Value::String(s) => Some(s),
        _ => None,
    })).collect())
}

/// Parses `text` as a JSON array of objects (`serde_json::from_str` into a
/// `Vec<BTreeMap<String, serde_json::Value>>`), keeping each member's string
/// value. Its result is named by [`json_object_array`].
#[verifier::external_body]
fn parse_json_object_array(text: &str) -> (r: Option<Vec<Vec<(String, Option<String>)>>>)
    ensures
        match r {
            Some(v) => json_object_array(text@) == Some(v@.map_values(|o: Vec<(String, Option<String>)>| members_view(o@))),
            None => json_object_array(text@) is None,
        },
{
    let items: Vec<std::collections::BTreeMap<String, serde_json::Value>> = serde_json::from_str(text).ok()?;
    Some(items.into_iter().map(|m| m.into_iter().map(|(k, v)| (k, match v {
        serde_json::Value::String(s) => Some(s),
        _ => None,
    })).collect()).collect())
}

/// The string value of member `key`, when present and a string; absent
/// otherwise.
pub open spec fn member_text(members: Members, key: Seq<char>) -> Option<Option<Seq<char>>>
    decreases members.len(),
{
    if members.len() == 0 {
        None
    } else if members.last().0 == key {
        Some(members.last().1)
    } else {
        member_text(members.drop_last(), key)
    }
}

/// The `data` text of a `modelStatus` frame: present when the frame's `type`
/// is the string `modelStatus` and its `data` is a string.
pub open spec fn spec_frame_data(frame: Members) -> Option<Seq<char>> {
    match (member_text(frame, "type"@), member_text(frame, "data"@)) {
        (Some(Some(t)), Some(Some(d))) => if t == "modelStatus"@ { Some(d) } else { None },
        _ => None,
    }
}

/// The (model, state) pairs of the status entries, in order; an entry whose
/// state is not a known wire string is dropped. None when some entry lacks a
/// string `id` or `state`.
pub open spec fn spec_entry_states(entries: Seq<Members>) -> Option<Seq<(Seq<char>, LlamaSwapModelState)>>
    decreases entries.len(),
{
    if entries.len() == 0 {
        Some(Seq::empty())
    } else {
        match spec_entry_states(entries.drop_last()) {
            None => None,
            Some(prev) => {
                let e = entries.last();
                match (member_text(e, "id"@), member_text(e, "state"@)) {
                    (Some(Some(id)), Some(Some(st))) => match spec_state_from_wire(st) {
                        Some(s) => Some(prev.push((id, s))),
                        None => Some(prev),
                    },
                    _ => None,
                }
            },
        }
    }
}

/// The model states a `data:` payload carries: those of a `modelStatus`
/// frame, whose `data` is itself JSON text of the entries; none for other
/// frames or malformed payloads.
pub open spec fn spec_model_status(payload: Seq<char>) -> Option<Seq<(Seq<char>, LlamaSwapModelState)>> {
    match json_object_members(payload) {
        None => None,
        Some(frame) => match spec_frame_data(frame) {
            None => None,
            Some(data) => match json_object_array(data) {
                None => None,
                Some(entries) => spec_entry_states(entries),
            },
        },
    }
}

/// The view of parsed states.
pub open spec fn states_view(v: Seq<(String, LlamaSwapModelState)>) -> Seq<(Seq<char>, LlamaSwapModelState)> {
    v.map_values(|e: (String, LlamaSwapModelState)| (e.0@, e.1))
}

fn find_member<'a>(members: &'a Vec<(String, Option<String>)>, key: &str) -> (r: Option<&'a Option<String>>)
    ensures
        match r {
            Some(v) => member_text(members_view(members@), key@) == Some(match *v { Some(s) => Some(s@), None => None }),
            None => member_text(members_view(members@), key@) is None,
        },
{
    let ghost mv = members_view(members@);
    let mut i: usize = members.len();
    assert(mv.take(i as int) =~= mv);
    while i > 0
        invariant
            i <= members@.len(),
            mv == members_view(members@),
            member_text(mv, key@) == member_text(mv.take(i as int), key@),
        decreases i,
    {
        let ghost t = mv.take(i as int);
        assert(t.last() == mv[i - 1]);
        assert(t.drop_last() =~= mv.take(i - 1));
        if str_eq(members[i - 1].0.as_str(), key) {
            return Some(&members[i - 1].1);
        }
        i = i - 1;
    }
    None
}

/// The `data` text of a `modelStatus` frame (see [`spec_frame_data`]).
pub fn frame_data(frame: &Vec<(String, Option<String>)>) -> (r: Option<String>)
    ensures
        match r {
            Some(d) => spec_frame_data(members_view(frame@)) == Some(d@),
            None => spec_frame_data(members_view(frame@)) is None,
        },
{
    let kind = match find_member(frame, "type") {
        Some(Some(t)) => t,
        _ => return None,
    };
    let data = match find_member(frame, "data") {
        Some(Some(d)) => d,
        _ => return None,
    };
    if str_eq(kind.as_str(), "modelStatus") {
        Some(data.clone())
    } else {
        None
    }
}

proof fn lemma_entry_states_none(ev: Seq<Members>, n: int)
    requires
        0 <= n <= ev.len(),
        spec_entry_states(ev.take(n)) is None,
    ensures
        spec_entry_states(ev) is None,
    decreases ev.len() - n,
{
    if n < ev.len() {
        assert(ev.take(n + 1).drop_last() =~= ev.take(n));
        lemma_entry_states_none(ev, n + 1);
    } else {
        assert(ev.take(n) =~= ev);
    }
}

/// The states of parsed status entries (see [`spec_entry_states`]).
pub fn entry_states(entries: &Vec<Vec<(String, Option<String>)>>) -> (r: Option<Vec<(String, LlamaSwapModelState)>>)
    ensures
        match r {
            Some(v) => spec_entry_states(entries@.map_values(|o: Vec<(String, Option<String>)>| members_view(o@)))
                == Some(states_view(v@)),
            None => spec_entry_states(entries@.map_values(|o: Vec<(String, Option<String>)>| members_view(o@))) is None,
        },
{
    let ghost ev = entries@.map_values(|o: Vec<(String, Option<String>)>| members_view(o@));
    let mut out: Vec<(String, LlamaSwapModelState)> = Vec::new();
    let mut i: usize = 0;
    assert(states_view(out@) =~= Seq::<(Seq<char>, LlamaSwapModelState)>::empty());
    while i < entries.len()
        invariant
            0 <= i <= entries@.len(),
            ev == entries@.map_values(|o: Vec<(String, Option<String>)>| members_view(o@)),
            spec_entry_states(ev.take(i as int)) == Some(states_view(out@)),
        decreases entries@.len() - i,
    {
        assert(ev.take(i as int + 1).drop_last() =~= ev.take(i as int));
        assert(ev.take(i as int + 1).last() == members_view(entries@[i as int]@));
        let e = &entries[i];
        let id = match find_member(e, "id") {
            Some(Some(x)) => x,
            _ => {
                proof { lemma_entry_states_none(ev, i as int + 1); }
                return None;
            },
        };
        let st = match find_member(e, "state") {
            Some(Some(x)) => x,
            _ => {
                proof { lemma_entry_states_none(ev, i as int + 1); }
                return None;
            },
        };
        match LlamaSwapModelState::from_wire(st.as_str()) {
            Some(s) => {
                let ghost before = out@;
                out.push((id.clone(), s));
                assert(states_view(out@) =~= states_view(before).push((id@, s)));
            },
            None => {},
        }
        i = i + 1;
    }
    assert(ev.take(entries@.len() as int) =~= ev);
    Some(out)
}

/// The model states carried by one SSE `data:` payload (see
/// [`spec_model_status`]).
pub fn parse_model_status_payload(payload: &str) -> (r: Option<Vec<(String, LlamaSwapModelState)>>)
    ensures
        match r {
            Some(v) => spec_model_status(payload@) == Some(states_view(v@)),
            None => spec_model_status(payload@) is None,
        },
{
    let frame = match parse_json_object(payload) {
        Some(f) => f,
        None => return None,
    };
    let data = match frame_data(&frame) {
        Some(d) => d,
        None => return None,
    };
    let entries = match parse_json_object_array(data.as_str()) {
        Some(e) => e,
        None => return None,
    };
    entry_states(&entries)
}

// ---------------------------------------------------------------------------
// Server-sent events.

/// Where `c` first occurs in `s` at or after `from`.
pub open spec fn index_of_from(s: Seq<char>, c: char, from: int) -> Option<int>
    decreases s.len() - from,
{
    if from < 0 || from >= s.len() {
        None
    } else if s[from] == c {
        Some(from)
    } else {
        index_of_from(s, c, from + 1)
    }
}

/// A line without one trailing carriage return.
pub open spec fn strip_cr(l: Seq<char>) -> Seq<char> {
    if l.len() > 0 && l.last() == '\r' { l.drop_last() } else { l }
}

/// The lines of `s` as `str::lines` yields them: split at each line feed,
/// a carriage return before the feed dropped, and no empty line after a
/// final line feed.
pub open spec fn text_lines(s: Seq<char>) -> Seq<Seq<char>>
    decreases s.len(),
{
    if s.len() == 0 {
        Seq::empty()
    } else {
        match index_of_from(s, '\n', 0) {
            None => seq![s],
            Some(i) => {
                if 0 <= i < s.len() {
                    seq![strip_cr(s.take(i))] + text_lines(s.skip(i + 1))
                } else {
                    Seq::empty()
                }
            },
        }
    }
}

/// Whether `s` starts with `prefix`.
pub open spec fn starts_with(s: Seq<char>, prefix: Seq<char>) -> bool {
    s.len() >= prefix.len() && s.take(prefix.len() as int) == prefix
}

/// The payload of a `data:` line: after the field name, without one leading
/// space.
pub open spec fn data_value(line: Seq<char>) -> Seq<char> {
    let rest = line.skip(5);
    if rest.len() > 0 && rest[0] == ' ' { rest.skip(1) } else { rest }
}

/// The payloads of the `data:` lines, in order.
pub open spec fn data_lines(lines: Seq<Seq<char>>) -> Seq<Seq<char>>
    decreases lines.len(),
{
    if lines.len() == 0 {
        Seq::empty()
    } else {
        let prev = data_lines(lines.drop_last());
        if starts_with(lines.last(), "data:"@) { prev.push(data_value(lines.last())) } else { prev }
    }
}

/// Lines joined with line feeds.
pub open spec fn join_lines(ls: Seq<Seq<char>>) -> Seq<char>
    decreases ls.len(),
{
    if ls.len() == 0 {
        Seq::empty()
    } else if ls.len() == 1 {
        ls[0]
    } else {
        join_lines(ls.drop_last()) + "\n"@ + ls.last()
    }
}

/// The data of one event: its `data:` payloads joined with line feeds; none
/// without a `data:` line.
pub open spec fn spec_sse_data(event: Seq<char>) -> Option<Seq<char>> {
    let d = data_lines(text_lines(event));
    if d.len() == 0 { None } else { Some(join_lines(d)) }
}

pub(crate) proof fn lemma_index_of_from(s: Seq<char>, c: char, from: int, j: int)
    requires
        0 <= from <= j <= s.len(),
        forall|k: int| from <= k < j ==> s[k] != c,
    ensures
        index_of_from(s, c, from) == index_of_from(s, c, j),
    decreases j - from,
{
    if from < j {
        lemma_index_of_from(s, c, from + 1, j);
    }
}

pub(crate) proof fn lemma_index_of_skip(s: Seq<char>, c: char, pos: int, j: int)
    requires
        0 <= pos <= j <= s.len(),
        forall|k: int| pos <= k < j ==> s[k] != c,
    ensures
        index_of_from(s.skip(pos), c, j - pos) == match index_of_from(s, c, j) {
            Some(x) => Some(x - pos),
            None => None::<int>,
        },
    decreases s.len() - j,
{
    if j < s.len() && s[j] != c {
        lemma_index_of_skip(s, c, pos, j + 1);
    }
}

pub(crate) fn text_lines_exec(v: &Vec<char>) -> (r: Vec<Vec<char>>)
    ensures
        r@.map_values(|l: Vec<char>| l@) == text_lines(v@),
{
    let mut out: Vec<Vec<char>> = Vec::new();
    let mut pos: usize = 0;
    assert(v@.skip(0) =~= v@);
    while pos < v.len()
        invariant
            0 <= pos <= v@.len(),
            out@.map_values(|l: Vec<char>| l@) + text_lines(v@.skip(pos as int)) == text_lines(v@),
        decreases v@.len() - pos,
    {
        let ghost rest = v@.skip(pos as int);
        let mut j: usize = pos;
        while j < v.len() && v[j] != '\n'
            invariant
                pos <= j <= v@.len(),
                forall|k: int| pos <= k < j ==> v@[k] != '\n',
            decreases v@.len() - j,
        {
            j = j + 1;
        }
        proof {
            lemma_index_of_skip(v@, '\n', pos as int, pos as int);
            lemma_index_of_from(v@, '\n', pos as int, j as int);
        }
        let ghost before = out@.map_values(|l: Vec<char>| l@);
        let mut line: Vec<char> = Vec::new();
        let mut k: usize = pos;
        while k < j
            invariant
                pos <= k <= j <= v@.len(),
                line@ == v@.subrange(pos as int, k as int),
            decreases j - k,
        {
            line.push(v[k]);
            assert(line@ =~= v@.subrange(pos as int, k as int + 1));
            k = k + 1;
        }
        if j < v.len() {
            assert(rest.take(j - pos) =~= line@);
            if line.len() > 0 && line[line.len() - 1] == '\r' {
                line.pop();
            }
            assert(rest.skip(j - pos + 1) =~= v@.skip(j as int + 1));
            out.push(line);
            assert(out@.map_values(|l: Vec<char>| l@) =~= before.push(strip_cr(rest.take(j - pos))));
            assert(before.push(strip_cr(rest.take(j - pos))) + text_lines(v@.skip(j as int + 1))
                =~= before + (seq![strip_cr(rest.take(j - pos))] + text_lines(rest.skip(j - pos + 1))));
            pos = j + 1;
        } else {
            assert(line@ =~= rest);
            out.push(line);
            assert(out@.map_values(|l: Vec<char>| l@) =~= before.push(rest));
            assert(before.push(rest) =~= before + seq![rest]);
            assert(v@.skip(j as int).len() == 0);
            pos = j;
            assert(text_lines(v@.skip(pos as int)) =~= Seq::<Seq<char>>::empty());
            assert(out@.map_values(|l: Vec<char>| l@) + text_lines(v@.skip(pos as int)) =~= before + seq![rest]);
        }
    }
    assert(text_lines(v@.skip(pos as int)) =~= Seq::<Seq<char>>::empty());
    assert(out@.map_values(|l: Vec<char>| l@) =~= out@.map_values(|l: Vec<char>| l@) + text_lines(v@.skip(pos as int)));
    out
}

/// The data of one SSE event (see [`spec_sse_data`]).
pub fn sse_data_field(event: &str) -> (r: Option<String>)
    ensures
        match r {
            Some(d) => spec_sse_data(event@) == Some(d@),
            None => spec_sse_data(event@) is None,
        },
{
    let v = chars_of(event);
    let lines = text_lines_exec(&v);
    let ghost lv = lines@.map_values(|l: Vec<char>| l@);
    let prefix = chars_of("data:");
    proof { reveal_strlit("data:"); }
    let mut joined = String::new();
    let mut count: usize = 0;
    let mut i: usize = 0;
    while i < lines.len()
        invariant
            0 <= i <= lines@.len(),
            lv == lines@.map_values(|l: Vec<char>| l@),
            lv == text_lines(event@),
            prefix@ == "data:"@,
            "data:"@.len() == 5,
            count == data_lines(lv.take(i as int)).len(),
            count > 0 ==> joined@ == join_lines(data_lines(lv.take(i as int))),
            count == 0 ==> joined@ == Seq::<char>::empty(),
            count <= i,
        decreases lines@.len() - i,
    {
        assert(lv.take(i as int + 1).drop_last() =~= lv.take(i as int));
        assert(lv.take(i as int + 1).last() == lines@[i as int]@);
        let l = &lines[i];
        let mut is_data = l.len() >= 5;
        let mut k: usize = 0;
        while k < 5 && is_data
            invariant
                0 <= k <= 5,
                prefix@ == "data:"@,
                "data:"@.len() == 5,
                is_data ==> l@.len() >= 5 && forall|m: int| 0 <= m < k ==> l@[m] == prefix@[m],
                !is_data ==> !starts_with(l@, "data:"@),
            decreases 5 - k,
        {
            if l[k] != prefix[k] {
                is_data = false;
                assert(l@.take(5)[k as int] != "data:"@[k as int]);
            }
            k = k + 1;
        }
        if is_data {
            assert(l@.take(5) =~= "data:"@);
            let from: usize = if l.len() > 5 && l[5] == ' ' { 6 } else { 5 };
            let value = string_from_chars(l, from, l.len());
            assert(value@ =~= data_value(l@));
            let ghost before = joined@;
            if count > 0 {
                joined.append("\n");
            }
            joined.append(value.as_str());
            proof {
                if count == 0 {
                    assert(joined@ =~= value@);
                } else {
                    assert(joined@ =~= before + "\n"@ + value@);
                }
            }
            count = count + 1;
            proof {
                let d = data_lines(lv.take(i as int + 1));
                assert(d == data_lines(lv.take(i as int)).push(data_value(l@)));
                if count == 1 {
                    assert(d.len() == 1);
                } else {
                    assert(d.drop_last() =~= data_lines(lv.take(i as int)));
                }
            }
        }
        i = i + 1;
    }
    assert(lv.take(lines@.len() as int) =~= lv);
    if count == 0 { None } else { Some(joined) }
}

/// Whether `needle` occurs in `hay` at `i`.
pub open spec fn occurs_at(hay: Seq<u8>, needle: Seq<u8>, i: int) -> bool {
    0 <= i && i + needle.len() <= hay.len() && hay.subrange(i, i + needle.len()) == needle
}

/// The first position at or after `from` where `needle` occurs in `hay`.
pub open spec fn first_occurrence(hay: Seq<u8>, needle: Seq<u8>, from: int) -> Option<int>
    decreases hay.len() - from,
{
    if from < 0 || from >= hay.len() || from + needle.len() > hay.len() {
        None
    } else if occurs_at(hay, needle, from) {
        Some(from)
    } else {
        first_occurrence(hay, needle, from + 1)
    }
}

/// The first position where `needle` occurs in `haystack`. The needle must
/// not be empty.
pub fn find_subslice(haystack: &[u8], needle: &[u8]) -> (r: Option<usize>)
    requires
        needle@.len() > 0,
    ensures
        match r {
            Some(i) => first_occurrence(haystack@, needle@, 0) == Some(i as int),
            None => first_occurrence(haystack@, needle@, 0) is None,
        },
{
    let n = needle.len();
    if n > haystack.len() {
        return None;
    }
    let hl = haystack.len();
    let last = hl - n;
    let mut i: usize = 0;
    while i <= last
        invariant
            0 <= i <= last + 1,
            hl == haystack@.len(),
            n >= 1,
            n == needle@.len(),
            last + n == haystack@.len(),
            first_occurrence(haystack@, needle@, 0) == first_occurrence(haystack@, needle@, i as int),
        decreases last + 1 - i,
    {
        let mut j: usize = 0;
        let mut same = true;
        while j < n && same
            invariant
                0 <= j <= n,
                n == needle@.len(),
                hl == haystack@.len(),
                i <= last,
                last + n == haystack@.len(),
                i + n <= haystack@.len(),
                same ==> forall|k: int| 0 <= k < j ==> haystack@[i + k] == needle@[k],
                !same ==> !occurs_at(haystack@, needle@, i as int),
            decreases n - j,
        {
            if haystack[i + j] != needle[j] {
                same = false;
                assert(haystack@.subrange(i as int, i + n)[j as int] == haystack@[i + j]);
            }
            j = j + 1;
        }
        if same {
            assert(haystack@.subrange(i as int, i + n) =~= needle@);
            return Some(i);
        }
        i = i + 1;
    }
    None
}

/// The bytes of `s` without carriage returns.
pub open spec fn without_cr(s: Seq<u8>) -> Seq<u8>
    decreases s.len(),
{
    if s.len() == 0 {
        s
    } else if s.last() == 13u8 {
        without_cr(s.drop_last())
    } else {
        without_cr(s.drop_last()).push(s.last())
    }
}

/// The blank line that ends an event.
pub open spec fn event_delimiter() -> Seq<u8> {
    seq![10u8, 10u8]
}

/// The complete events at the front of `buf` (each without its delimiter),
/// and what is left after the last one.
pub open spec fn split_events(buf: Seq<u8>) -> (Seq<Seq<u8>>, Seq<u8>)
    decreases buf.len(),
{
    match first_occurrence(buf, event_delimiter(), 0) {
        Some(e) => if 0 <= e && e + 2 <= buf.len() {
            let rest = split_events(buf.skip(e + 2));
            (seq![buf.take(e)] + rest.0, rest.1)
        } else {
            (Seq::empty(), buf)
        },
        None => (Seq::empty(), buf),
    }
}

/// The model states one event carries: its text, its data, and the states
/// of a `modelStatus` frame; none at any failure.
pub open spec fn event_update(event: Seq<u8>) -> Option<Seq<(Seq<char>, LlamaSwapModelState)>> {
    match utf8_decode(event) {
        None => None,
        Some(text) => match spec_sse_data(text) {
            None => None,
            Some(payload) => spec_model_status(payload),
        },
    }
}

/// The updates of a sequence of events, in order, skipping events that carry
/// none.
pub open spec fn event_updates(events: Seq<Seq<u8>>) -> Seq<Seq<(Seq<char>, LlamaSwapModelState)>>
    decreases events.len(),
{
    if events.len() == 0 {
        Seq::empty()
    } else {
        match event_update(events[0]) {
            Some(u) => seq![u] + event_updates(events.drop_first()),
            None => event_updates(events.drop_first()),
        }
    }
}

/// Dropping carriage returns from a concatenation drops them from each part.
proof fn lemma_without_cr_concat(x: Seq<u8>, y: Seq<u8>)
    ensures
        without_cr(x + y) == without_cr(x) + without_cr(y),
    decreases y.len(),
{
    if y.len() == 0 {
        assert(x + y =~= x);
        assert(without_cr(x) + without_cr(y) =~= without_cr(x));
    } else {
        assert((x + y).drop_last() =~= x + y.drop_last());
        assert((x + y).last() == y.last());
        lemma_without_cr_concat(x, y.drop_last());
        if y.last() != 13u8 {
            assert(without_cr(x) + without_cr(y.drop_last()).push(y.last())
                =~= (without_cr(x) + without_cr(y.drop_last())).push(y.last()));
        }
    }
}

/// A delimiter found in `s` is found at the same place once more bytes follow.
proof fn lemma_first_occurrence_extends(s: Seq<u8>, t: Seq<u8>, from: int, e: int)
    requires
        0 <= from <= e,
        first_occurrence(s, event_delimiter(), from) == Some(e),
        e + 2 <= s.len(),
    ensures
        first_occurrence(s + t, event_delimiter(), from) == Some(e),
    decreases e - from,
{
    let st = s + t;
    lemma_first_occurrence_range(s, from + 1);
    assert(event_delimiter().len() == 2);
    assert(st.subrange(from, from + 2) =~= s.subrange(from, from + 2));
    assert(occurs_at(st, event_delimiter(), from) == occurs_at(s, event_delimiter(), from));
    if from < e {
        lemma_first_occurrence_extends(s, t, from + 1, e);
    }
}

/// The first occurrence, when there is one, lies within the bytes.
proof fn lemma_first_occurrence_range(s: Seq<u8>, from: int)
    requires
        0 <= from,
    ensures
        first_occurrence(s, event_delimiter(), from) is Some ==>
            from <= first_occurrence(s, event_delimiter(), from)->0
            && first_occurrence(s, event_delimiter(), from)->0 + 2 <= s.len(),
    decreases s.len() - from,
{
    if from < s.len() && from + 2 <= s.len() && !occurs_at(s, event_delimiter(), from) {
        lemma_first_occurrence_range(s, from + 1);
    }
}

/// Splitting `s + t` splits `s` first, then whatever `s` left over followed
/// by `t`.
proof fn lemma_split_events_concat(s: Seq<u8>, t: Seq<u8>)
    ensures
        split_events(s + t).0 == split_events(s).0 + split_events(split_events(s).1 + t).0,
        split_events(s + t).1 == split_events(split_events(s).1 + t).1,
    decreases s.len(),
{
    lemma_first_occurrence_range(s, 0);
    match first_occurrence(s, event_delimiter(), 0) {
        Some(e) => {
            lemma_first_occurrence_extends(s, t, 0, e);
            let st = s + t;
            assert(st.take(e) =~= s.take(e));
            assert(st.skip(e + 2) =~= s.skip(e + 2) + t);
            lemma_split_events_concat(s.skip(e + 2), t);
            let inner = split_events(s.skip(e + 2));
            assert(seq![s.take(e)] + (inner.0 + split_events(inner.1 + t).0)
                =~= (seq![s.take(e)] + inner.0) + split_events(inner.1 + t).0);
        },
        None => {
            assert(split_events(s).0 =~= Seq::<Seq<u8>>::empty());
            assert(Seq::<Seq<u8>>::empty() + split_events(s + t).0 =~= split_events(s + t).0);
        },
    }
}

/// The updates of two runs of events are those of each run, in order.
proof fn lemma_event_updates_concat(a: Seq<Seq<u8>>, b: Seq<Seq<u8>>)
    ensures
        event_updates(a + b) == event_updates(a) + event_updates(b),
    decreases a.len(),
{
    if a.len() == 0 {
        assert(a + b =~= b);
        assert(event_updates(a) + event_updates(b) =~= event_updates(b));
    } else {
        assert((a + b).drop_first() =~= a.drop_first() + b);
        assert((a + b)[0] == a[0]);
        lemma_event_updates_concat(a.drop_first(), b);
        match event_update(a[0]) {
            Some(u) => {
                assert(seq![u] + (event_updates(a.drop_first()) + event_updates(b))
                    =~= (seq![u] + event_updates(a.drop_first())) + event_updates(b));
            },
            None => {},
        }
    }
}

/// How a stream is cut into chunks does not matter: feeding `x` and then `y`
/// to a decoder holding `buf` yields, in order, the updates that feeding
/// `x + y` at once yields, and leaves the same bytes buffered.
pub proof fn law_chunking_does_not_matter(buf: Seq<u8>, x: Seq<u8>, y: Seq<u8>)
    ensures
        event_updates(split_events(buf + without_cr(x)).0)
            + event_updates(split_events(split_events(buf + without_cr(x)).1 + without_cr(y)).0)
            == event_updates(split_events(buf + without_cr(x + y)).0),
        split_events(split_events(buf + without_cr(x)).1 + without_cr(y)).1
            == split_events(buf + without_cr(x + y)).1,
{
    lemma_without_cr_concat(x, y);
    let s = buf + without_cr(x);
    assert(buf + without_cr(x + y) =~= s + without_cr(y));
    lemma_split_events_concat(s, without_cr(y));
    lemma_event_updates_concat(split_events(s).0, split_events(split_events(s).1 + without_cr(y)).0);
}

/// Incremental decoder of an SSE byte stream: bytes accumulate across chunks
/// until a blank line completes an event.
pub struct SseDecoder {
    buffer: Vec<u8>,
}

impl Default for SseDecoder {
    fn default() -> (r: Self)
        ensures
            r.spec_buffer().len() == 0,
    {
        SseDecoder { buffer: Vec::new() }
    }
}

impl SseDecoder {
    /// The bytes received and not yet part of a complete event.
    pub closed spec fn spec_buffer(&self) -> Seq<u8> {
        self.buffer@
    }

    /// Takes in a chunk: carriage returns are dropped, every event the
    /// chunk completes is decoded, and the updates they carry come back in
    /// order; an incomplete event stays buffered.
    pub fn push(&mut self, chunk: &[u8]) -> (r: Vec<Vec<(String, LlamaSwapModelState)>>)
        ensures
            final(self).spec_buffer() == split_events(old(self).spec_buffer() + without_cr(chunk@)).1,
            r@.map_values(|u: Vec<(String, LlamaSwapModelState)>| states_view(u@))
                == event_updates(split_events(old(self).spec_buffer() + without_cr(chunk@)).0),
    {
        let ghost start = self.buffer@;
        let mut i: usize = 0;
        while i < chunk.len()
            invariant
                0 <= i <= chunk@.len(),
                self.buffer@ == start + without_cr(chunk@.take(i as int)),
            decreases chunk@.len() - i,
        {
            assert(chunk@.take(i as int + 1).drop_last() =~= chunk@.take(i as int));
            if chunk[i] != 13u8 {
                self.buffer.push(chunk[i]);
                assert(self.buffer@ =~= start + without_cr(chunk@.take(i as int + 1)));
            }
            i = i + 1;
        }
        assert(chunk@.take(chunk@.len() as int) =~= chunk@);
        let ghost full = self.buffer@;
        let delim: [u8; 2] = [10u8, 10u8];
        assert(delim@ =~= event_delimiter());
        let mut updates: Vec<Vec<(String, LlamaSwapModelState)>> = Vec::new();
        let ghost done: Seq<Seq<u8>> = Seq::empty();
        assert(done + split_events(self.buffer@).0 =~= split_events(full).0);
        loop
            invariant
                delim@ == event_delimiter(),
                done + split_events(self.buffer@).0 == split_events(full).0,
                split_events(self.buffer@).1 == split_events(full).1,
                updates@.map_values(|u: Vec<(String, LlamaSwapModelState)>| states_view(u@)) == event_updates(done),
            ensures
                first_occurrence(self.buffer@, event_delimiter(), 0) is None,
                done + split_events(self.buffer@).0 == split_events(full).0,
                split_events(self.buffer@).1 == split_events(full).1,
                updates@.map_values(|u: Vec<(String, LlamaSwapModelState)>| states_view(u@)) == event_updates(done),
            decreases self.buffer@.len(),
        {
            let found = find_subslice(self.buffer.as_slice(), &delim);
            let end = match found {
                None => break,
                Some(e) => e,
            };
            proof {
                reveal_with_fuel(first_occurrence, 1);
            }
            let ghost buf = self.buffer@;
            assert(occurs_at(buf, event_delimiter(), end as int)) by {
                lemma_first_occurrence(buf, event_delimiter(), 0);
            }
            let blen = self.buffer.len();
            let mut event = self.buffer.split_off(end + 2);
            std::mem::swap(&mut event, &mut self.buffer);
            assert(self.buffer@ =~= buf.skip(end + 2));
            event.truncate(end);
            assert(event@ =~= buf.take(end as int));
            let ghost ev = event@;
            proof {
                lemma_event_updates_push(done, ev);
            }
            match decode_utf8(event.as_slice()) {
                Some(text) => match sse_data_field(text.as_str()) {
                    Some(payload) => match parse_model_status_payload(payload.as_str()) {
                        Some(update) => {
                            let ghost before = updates@.map_values(|u: Vec<(String, LlamaSwapModelState)>| states_view(u@));
                            let ghost uv = states_view(update@);
                            updates.push(update);
                            assert(updates@.map_values(|u: Vec<(String, LlamaSwapModelState)>| states_view(u@))
                                =~= before.push(uv));
                        },
                        None => {},
                    },
                    None => {},
                },
                None => {},
            }
            proof {
                done = done.push(ev);
                assert(done.drop_last() + (seq![ev] + split_events(self.buffer@).0) =~= done + split_events(self.buffer@).0);
            }
        }
        proof {
            lemma_no_occurrence_no_events(self.buffer@);
        }
        assert(done =~= split_events(full).0);
        updates
    }
}

proof fn lemma_first_occurrence(hay: Seq<u8>, needle: Seq<u8>, from: int)
    ensures
        match first_occurrence(hay, needle, from) {
            Some(i) => occurs_at(hay, needle, i) && from <= i,
            None => true,
        },
    decreases hay.len() - from,
{
    if !(from < 0 || from >= hay.len() || from + needle.len() > hay.len()) && !occurs_at(hay, needle, from) {
        lemma_first_occurrence(hay, needle, from + 1);
    }
}

proof fn lemma_no_occurrence_no_events(buf: Seq<u8>)
    requires
        first_occurrence(buf, event_delimiter(), 0) is None,
    ensures
        split_events(buf).0.len() == 0,
        split_events(buf).1 == buf,
{
}

proof fn lemma_event_updates_push(done: Seq<Seq<u8>>, ev: Seq<u8>)
    ensures
        event_updates(done.push(ev)) == event_updates(done) + match event_update(ev) {
            Some(u) => seq![u],
            None => Seq::empty(),
        },
    decreases done.len(),
{
    if done.len() == 0 {
        assert(done.push(ev).drop_first() =~= Seq::<Seq<u8>>::empty());
        assert(done.push(ev)[0] == ev);
        assert(event_updates(Seq::<Seq<u8>>::empty()) == Seq::<Seq<(Seq<char>, LlamaSwapModelState)>>::empty());
        match event_update(ev) {
            Some(u) => {
                assert(seq![u] + Seq::<Seq<(Seq<char>, LlamaSwapModelState)>>::empty() =~= seq![u]);
                assert(Seq::<Seq<(Seq<char>, LlamaSwapModelState)>>::empty() + seq![u] =~= seq![u]);
            },
            None => {
                assert(Seq::<Seq<(Seq<char>, LlamaSwapModelState)>>::empty() + Seq::<Seq<(Seq<char>, LlamaSwapModelState)>>::empty()
                    =~= Seq::<Seq<(Seq<char>, LlamaSwapModelState)>>::empty());
            },
        }
    } else {
        lemma_event_updates_push(done.drop_first(), ev);
        assert(done.push(ev).drop_first() =~= done.drop_first().push(ev));
        assert(done.push(ev)[0] == done[0]);
        let tail: Seq<Seq<(Seq<char>, LlamaSwapModelState)>> = match event_update(ev) {
            Some(u) => seq![u],
            None => Seq::empty(),
        };
        match event_update(done[0]) {
            Some(u0) => {
                assert(seq![u0] + (event_updates(done.drop_first()) + tail) =~= (seq![u0] + event_updates(done.drop_first())) + tail);
            },
            None => {},
        }
    }
}

// ---------------------------------------------------------------------------
// The model-state table.

/// A table of model states as (alias, state) pairs, later pairs winning.
pub open spec fn states_map(es: Seq<(Seq<char>, LlamaSwapModelState)>) -> Map<Seq<char>, LlamaSwapModelState>
    decreases es.len(),
{
    if es.len() == 0 {
        Map::empty()
    } else {
        states_map(es.drop_last()).insert(es.last().0, es.last().1)
    }
}

/// Whether no alias occurs twice.
pub open spec fn unique_names(es: Seq<(Seq<char>, LlamaSwapModelState)>) -> bool {
    forall|i: int, j: int| 0 <= i < j < es.len() ==> (#[trigger] es[i]).0 != (#[trigger] es[j]).0
}

/// The latest known process state of each model alias.
#[derive(Debug)]
pub struct ModelStates {
    entries: Vec<(String, LlamaSwapModelState)>,
}

impl View for ModelStates {
    type V = Map<Seq<char>, LlamaSwapModelState>;

    closed spec fn view(&self) -> Map<Seq<char>, LlamaSwapModelState> {
        states_map(states_view(self.entries@))
    }
}

proof fn lemma_states_map_facts(es: Seq<(Seq<char>, LlamaSwapModelState)>)
    requires
        unique_names(es),
    ensures
        states_map(es).dom().finite(),
        states_map(es).dom().len() == es.len(),
        forall|i: int| 0 <= i < es.len() ==> states_map(es).dom().contains(#[trigger] es[i].0)
            && states_map(es)[es[i].0] == es[i].1,
        forall|k: Seq<char>| states_map(es).dom().contains(k) ==> exists|i: int| 0 <= i < es.len() && (#[trigger] es[i]).0 == k,
    decreases es.len(),
{
    if es.len() > 0 {
        let d = es.drop_last();
        assert(unique_names(d)) by {
            assert forall|i: int, j: int| 0 <= i < j < d.len() implies (#[trigger] d[i]).0 != (#[trigger] d[j]).0 by {
                assert(d[i] == es[i] && d[j] == es[j]);
            }
        }
        lemma_states_map_facts(d);
        let l = es.last();
        assert(!states_map(d).dom().contains(l.0)) by {
            if states_map(d).dom().contains(l.0) {
                let i = choose|i: int| 0 <= i < d.len() && (#[trigger] d[i]).0 == l.0;
                assert(es[i].0 == es[es.len() - 1].0);
            }
        }
        assert forall|i: int| 0 <= i < es.len() implies states_map(es).dom().contains(#[trigger] es[i].0)
            && states_map(es)[es[i].0] == es[i].1 by {
            if i < es.len() - 1 {
                assert(es[i] == d[i]);
                assert(es[i].0 != l.0);
            }
        }
        assert forall|k: Seq<char>| states_map(es).dom().contains(k) implies exists|i: int| 0 <= i < es.len() && (#[trigger] es[i]).0 == k by {
            if k == l.0 {
                assert(es[es.len() - 1].0 == k);
            } else {
                let i = choose|i: int| 0 <= i < d.len() && (#[trigger] d[i]).0 == k;
                assert(es[i] == d[i]);
            }
        }
    }
}

/// The pairs of `es` whose alias is not `k`.
pub open spec fn drop_name(es: Seq<(Seq<char>, LlamaSwapModelState)>, k: Seq<char>) -> Seq<(Seq<char>, LlamaSwapModelState)>
    decreases es.len(),
{
    if es.len() == 0 {
        es
    } else {
        let p = drop_name(es.drop_last(), k);
        if es.last().0 == k { p } else { p.push(es.last()) }
    }
}

proof fn lemma_drop_name(es: Seq<(Seq<char>, LlamaSwapModelState)>, k: Seq<char>)
    requires
        unique_names(es),
    ensures
        states_map(drop_name(es, k)) == states_map(es).remove(k),
        unique_names(drop_name(es, k)),
        forall|a: int| 0 <= a < drop_name(es, k).len() ==> (#[trigger] drop_name(es, k)[a]).0 != k,
        forall|a: int| 0 <= a < drop_name(es, k).len() ==> exists|b: int| 0 <= b < es.len() && es[b] == #[trigger] drop_name(es, k)[a],
    decreases es.len(),
{
    if es.len() == 0 {
        assert(states_map(es).remove(k) =~= Map::<Seq<char>, LlamaSwapModelState>::empty());
    } else {
        let d = es.drop_last();
        let l = es.last();
        assert(unique_names(d)) by {
            assert forall|i: int, j: int| 0 <= i < j < d.len() implies (#[trigger] d[i]).0 != (#[trigger] d[j]).0 by {
                assert(d[i] == es[i] && d[j] == es[j]);
            }
        }
        lemma_drop_name(d, k);
        let p = drop_name(d, k);
        assert forall|a: int| 0 <= a < p.len() implies exists|b: int| 0 <= b < es.len() && es[b] == #[trigger] p[a] by {
            let b = choose|b: int| 0 <= b < d.len() && d[b] == p[a];
            assert(es[b] == d[b]);
        }
        assert(states_map(es) == states_map(d).insert(l.0, l.1));
        if l.0 == k {
            assert(drop_name(es, k) == p);
            assert(states_map(es).remove(k) =~= states_map(d).remove(k));
        } else {
            assert(drop_name(es, k) == p.push(l));
            assert(p.push(l).drop_last() =~= p);
            assert(p.push(l).last() == l);
            assert(states_map(p.push(l)) == states_map(p).insert(l.0, l.1));
            assert(states_map(es).remove(k) =~= states_map(d).remove(k).insert(l.0, l.1));
            let q = p.push(l);
            assert forall|a: int, c: int| 0 <= a < c < q.len() implies (#[trigger] q[a]).0 != (#[trigger] q[c]).0 by {
                if c == p.len() {
                    let b = choose|b: int| 0 <= b < d.len() && d[b] == p[a];
                    assert(es[b] == d[b]);
                    assert(q[a] == p[a]);
                } else {
                    assert(q[a] == p[a] && q[c] == p[c]);
                }
            }
            assert forall|a: int| 0 <= a < q.len() implies exists|b: int| 0 <= b < es.len() && es[b] == #[trigger] q[a] by {
                if a == p.len() {
                    assert(es[es.len() - 1] == q[a]);
                } else {
                    assert(q[a] == p[a]);
                    let b = choose|b: int| 0 <= b < es.len() && es[b] == p[a];
                }
            }
            assert forall|a: int| 0 <= a < q.len() implies (#[trigger] q[a]).0 != k by {
                if a < p.len() {
                    assert(q[a] == p[a]);
                }
            }
        }
    }
}

impl ModelStates {
    /// Whether every alias occurs once.
    pub closed spec fn wf(&self) -> bool {
        unique_names(states_view(self.entries@))
    }

    /// An empty table.
    pub fn new() -> (r: ModelStates)
        ensures
            r.wf(),
            r@ == Map::<Seq<char>, LlamaSwapModelState>::empty(),
    {
        let r = ModelStates { entries: Vec::new() };
        assert(states_view(r.entries@) =~= Seq::<(Seq<char>, LlamaSwapModelState)>::empty());
        r
    }

    /// The number of aliases in the table.
    pub fn len(&self) -> (r: usize)
        requires
            self.wf(),
        ensures
            r == self@.dom().len(),
    {
        proof { lemma_states_map_facts(states_view(self.entries@)); }
        self.entries.len()
    }

    /// The state of `name`, if known.
    pub fn get(&self, name: &str) -> (r: Option<LlamaSwapModelState>)
        requires
            self.wf(),
        ensures
            r == (if self@.dom().contains(name@) { Some(self@[name@]) } else { None::<LlamaSwapModelState> }),
    {
        let ghost es = states_view(self.entries@);
        proof { lemma_states_map_facts(es); }
        let mut i: usize = 0;
        while i < self.entries.len()
            invariant
                0 <= i <= self.entries@.len(),
                es == states_view(self.entries@),
                unique_names(es),
                forall|j: int| 0 <= j < i ==> (#[trigger] es[j]).0 != name@,
            decreases self.entries@.len() - i,
        {
            if str_eq(self.entries[i].0.as_str(), name) {
                proof { lemma_states_map_facts(es); }
                assert(es[i as int] == (self.entries@[i as int].0@, self.entries@[i as int].1));
                assert(states_map(es).dom().contains(es[i as int].0));
                return Some(self.entries[i].1);
            }
            i = i + 1;
        }
        proof {
            lemma_states_map_facts(es);
            if states_map(es).dom().contains(name@) {
                let j = choose|j: int| 0 <= j < es.len() && (#[trigger] es[j]).0 == name@;
                assert(es[j].0 != name@);
            }
        }
        None
    }

    /// The (alias, state) pairs, in storage order.
    pub closed spec fn spec_entries(&self) -> Seq<(Seq<char>, LlamaSwapModelState)> {
        states_view(self.entries@)
    }
}

/// Replaces the table with a full status snapshot: llama-swap pushes the
/// complete model set on every change, so the old entries are dropped, and
/// a repeated alias keeps its last state.
pub fn apply_model_status(cache: &mut ModelStates, entries: Vec<(String, LlamaSwapModelState)>)
    ensures
        final(cache).wf(),
        final(cache)@ == states_map(states_view(entries@)),
{
    let ghost ev = states_view(entries@);
    let mut out: Vec<(String, LlamaSwapModelState)> = Vec::new();
    let mut rest = entries;
    let n: usize = rest.len();
    let mut i: usize = 0;
    assert(states_view(out@) =~= Seq::<(Seq<char>, LlamaSwapModelState)>::empty());
    assert(rest@ =~= entries@.skip(0));
    while rest.len() > 0
        invariant
            0 <= i <= n,
            n == entries@.len(),
            ev == states_view(entries@),
            rest@ == entries@.skip(i as int),
            unique_names(states_view(out@)),
            states_map(states_view(out@)) == states_map(ev.take(i as int)),
        decreases rest@.len(),
    {
        let e = rest.remove(0);
        assert(e == entries@[i as int]);
        assert(rest@ =~= entries@.skip(i as int + 1));
        let ghost k = e.0@;
        let ghost before = states_view(out@);
        let mut kept: Vec<(String, LlamaSwapModelState)> = Vec::new();
        let mut rest_out = out;
        let m: usize = rest_out.len();
        let mut j: usize = 0;
        assert(states_view(kept@) =~= drop_name(before.take(0), k));
        while rest_out.len() > 0
            invariant
                0 <= j <= m,
                m == before.len(),
                states_view(rest_out@) == before.skip(j as int),
                states_view(kept@) == drop_name(before.take(j as int), k),
                k == e.0@,
            decreases rest_out@.len(),
        {
            let x = rest_out.remove(0);
            proof {
                assert(states_view(rest_out@) =~= before.skip(j as int + 1)) by {
                    assert(before.skip(j as int).drop_first() =~= before.skip(j as int + 1));
                }
                assert(before.skip(j as int)[0] == before[j as int]);
                assert(before.take(j as int + 1).drop_last() =~= before.take(j as int));
                assert(before.take(j as int + 1).last() == before[j as int]);
            }
            if !str_eq(x.0.as_str(), e.0.as_str()) {
                let ghost kb = states_view(kept@);
                let ghost xv = (x.0@, x.1);
                kept.push(x);
                assert(states_view(kept@) =~= kb.push(xv));
            }
            j = j + 1;
        }
        assert(before.take(m as int) =~= before);
        proof {
            lemma_drop_name(before, k);
        }
        let ghost kv = states_view(kept@);
        kept.push(e);
        out = kept;
        proof {
            assert(states_view(out@) =~= kv.push((k, ev[i as int].1)));
            assert(kv.push((k, ev[i as int].1)).drop_last() =~= kv);
            assert(ev.take(i as int + 1) =~= ev.take(i as int).push(ev[i as int]));
            assert(ev.take(i as int).push(ev[i as int]).drop_last() =~= ev.take(i as int));
            assert(ev[i as int].0 == k);
            assert(states_map(states_view(out@)) =~= states_map(before).remove(k).insert(k, ev[i as int].1));
            assert(states_map(ev.take(i as int + 1)) =~= states_map(ev.take(i as int)).insert(k, ev[i as int].1));
            assert(unique_names(states_view(out@))) by {
                let ov = states_view(out@);
                assert forall|a: int, b: int| 0 <= a < b < ov.len() implies (#[trigger] ov[a]).0 != (#[trigger] ov[b]).0 by {
                    if b == ov.len() - 1 {
                        assert(ov[a] == kv[a]);
                    } else {
                        assert(ov[a] == kv[a] && ov[b] == kv[b]);
                    }
                }
            }
        }
        i = i + 1;
    }
    assert(ev.take(n as int) =~= ev);
    cache.entries = out;
}

// ---------------------------------------------------------------------------
// Residents from states.

/// The resident a state table entry implies, as (model id, residency): none
/// when the model is not loaded or its alias normalizes to nothing.
pub open spec fn resident_of(e: (Seq<char>, LlamaSwapModelState)) -> Option<(Seq<char>, ResidencyState)> {
    match e.1.spec_residency() {
        None => None,
        Some(r) => {
            let id = spec_normalized_id(e.0);
            if id.len() == 0 { None } else { Some((id, r)) }
        },
    }
}

/// The residents the entries imply, in entry order.
pub open spec fn residents_in_order(es: Seq<(Seq<char>, LlamaSwapModelState)>) -> Seq<(Seq<char>, ResidencyState)>
    decreases es.len(),
{
    if es.len() == 0 {
        Seq::empty()
    } else {
        let prev = residents_in_order(es.drop_last());
        match resident_of(es.last()) {
            Some(r) => prev.push(r),
            None => prev,
        }
    }
}

/// `x` placed into `sorted` after every resident whose id does not order
/// after its id.
pub open spec fn insert_by_id(sorted: Seq<(Seq<char>, ResidencyState)>, x: (Seq<char>, ResidencyState)) -> Seq<(Seq<char>, ResidencyState)>
    decreases sorted.len(),
{
    if sorted.len() == 0 {
        seq![x]
    } else if !lex_lt(x.0, sorted.last().0) {
        sorted.push(x)
    } else {
        insert_by_id(sorted.drop_last(), x).push(sorted.last())
    }
}

/// Residents sorted by model id; equal ids keep their order.
pub open spec fn sort_by_id(s: Seq<(Seq<char>, ResidencyState)>) -> Seq<(Seq<char>, ResidencyState)>
    decreases s.len(),
{
    if s.len() == 0 { Seq::empty() } else { insert_by_id(sort_by_id(s.drop_last()), s.last()) }
}

/// The residents of a snapshot as (model id, residency).
pub open spec fn residents_view(s: Seq<ModelResident>) -> Seq<(Seq<char>, ResidencyState)> {
    s.map_values(|m: ModelResident| (m.model_id@, m.state))
}

proof fn lemma_insert_by_id_at(sorted: Seq<(Seq<char>, ResidencyState)>, x: (Seq<char>, ResidencyState), j: int)
    requires
        0 <= j <= sorted.len(),
        forall|k: int| j <= k < sorted.len() ==> lex_lt(x.0, (#[trigger] sorted[k]).0),
        j > 0 ==> !lex_lt(x.0, sorted[j - 1].0),
    ensures
        insert_by_id(sorted, x) == sorted.insert(j, x),
    decreases sorted.len(),
{
    if sorted.len() == 0 {
        assert(sorted.insert(j, x) =~= seq![x]);
    } else if !lex_lt(x.0, sorted.last().0) {
        if j < sorted.len() {
            assert(lex_lt(x.0, sorted[sorted.len() - 1].0));
        }
        assert(sorted.insert(j, x) =~= sorted.push(x));
    } else {
        lemma_insert_by_id_at(sorted.drop_last(), x, j);
        assert(sorted.drop_last().insert(j, x).push(sorted.last()) =~= sorted.insert(j, x));
    }
}

/// The residents a state table implies: loaded models only, ids normalized
/// (an alias that normalizes to nothing is dropped), sorted by model id,
/// with no memory figures or load time.
pub fn residents_from_states(states: &ModelStates) -> (r: Vec<ModelResident>)
    ensures
        residents_view(r@) == sort_by_id(residents_in_order(states.spec_entries())),
        forall|i: int| 0 <= i < r@.len() ==> (#[trigger] r@[i]).vram_mb is None && r@[i].ram_mb is None
            && r@[i].kv_cache_mb is None && r@[i].loaded_since is None,
{
    let ghost es = states.spec_entries();
    let mut out: Vec<ModelResident> = Vec::new();
    let mut i: usize = 0;
    assert(residents_view(out@) =~= sort_by_id(residents_in_order(es.take(0))));
    while i < states.entries.len()
        invariant
            0 <= i <= states.entries@.len(),
            es == states.spec_entries(),
            es == states_view(states.entries@),
            residents_view(out@) == sort_by_id(residents_in_order(es.take(i as int))),
            forall|k: int| 0 <= k < out@.len() ==> (#[trigger] out@[k]).vram_mb is None && out@[k].ram_mb is None
                && out@[k].kv_cache_mb is None && out@[k].loaded_since is None,
        decreases states.entries@.len() - i,
    {
        let e = &states.entries[i];
        assert(es.take(i as int + 1).drop_last() =~= es.take(i as int));
        assert(es.take(i as int + 1).last() == (e.0@, e.1));
        match e.1.residency() {
            None => {
                assert(resident_of((e.0@, e.1)) is None);
            },
            Some(state) => match normalize_model_id(e.0.as_str()) {
                Err(_) => {
                    assert(resident_of((e.0@, e.1)) is None);
                },
                Ok(model_id) => {
                    let m = ModelResident {
                        model_id,
                        state,
                        vram_mb: None,
                        ram_mb: None,
                        kv_cache_mb: None,
                        loaded_since: None,
                    };
                    let ghost before = residents_view(out@);
                    let mut j: usize = out.len();
                    while j > 0 && str_lt(m.model_id.as_str(), out[j - 1].model_id.as_str())
                        invariant
                            j <= out@.len(),
                            before == residents_view(out@),
                            forall|k: int| j <= k < out@.len() ==> lex_lt(m.model_id@, (#[trigger] out@[k]).model_id@),
                        decreases j,
                    {
                        j = j - 1;
                    }
                    proof {
                        assert forall|k: int| j <= k < before.len() implies lex_lt(m.model_id@, (#[trigger] before[k]).0) by {
                            assert(before[k] == (out@[k].model_id@, out@[k].state));
                        }
                        if j > 0 {
                            assert(before[j - 1] == (out@[j - 1].model_id@, out@[j - 1].state));
                        }
                        lemma_insert_by_id_at(before, (m.model_id@, m.state), j as int);
                    }
                    let ghost mv = (m.model_id@, m.state);
                    out.insert(j, m);
                    assert(residents_view(out@) =~= before.insert(j as int, mv));
                    proof {
                        let x = residents_in_order(es.take(i as int));
                        assert(resident_of((e.0@, e.1)) == Some(mv));
                        assert(residents_in_order(es.take(i as int + 1)) == x.push(mv));
                        assert(x.push(mv).drop_last() =~= x);
                        assert(sort_by_id(x.push(mv)) == insert_by_id(sort_by_id(x), mv));
                    }
                },
            },
        }
        i = i + 1;
    }
    assert(es.take(states.entries@.len() as int) =~= es);
    out
}

} // verus!

verus! {

/// Residents ordered by model id: no resident's id orders before an earlier
/// one's.
pub open spec fn sorted_by_id(s: Seq<(Seq<char>, ResidencyState)>) -> bool {
    forall|i: int, j: int| 0 <= i < j < s.len() ==> !lex_lt(#[trigger] s[j].0, #[trigger] s[i].0)
}

/// A residency that a loaded llama-swap model can have.
pub open spec fn loaded_residency(r: ResidencyState) -> bool {
    r == ResidencyState::Loading || r == ResidencyState::HotGpu || r == ResidencyState::Draining
}

proof fn lemma_not_lt_transitive(a: Seq<char>, b: Seq<char>, c: Seq<char>)
    requires
        !lex_lt(b, a),
        !lex_lt(c, b),
    ensures
        !lex_lt(c, a),
{
    if lex_lt(c, a) {
        lemma_lex_lt_trichotomy(a, b);
        if a != b {
            lemma_lex_lt_transitive(c, a, b);
        }
    }
}

proof fn lemma_insert_by_id_sorted(s: Seq<(Seq<char>, ResidencyState)>, x: (Seq<char>, ResidencyState))
    requires
        sorted_by_id(s),
    ensures
        sorted_by_id(insert_by_id(s, x)),
        insert_by_id(s, x).len() == s.len() + 1,
        forall|k: int| 0 <= k < insert_by_id(s, x).len() ==>
            (#[trigger] insert_by_id(s, x)[k]) == x || s.contains(insert_by_id(s, x)[k]),
    decreases s.len(),
{
    let r = insert_by_id(s, x);
    if s.len() == 0 {
    } else if !lex_lt(x.0, s.last().0) {
        assert forall|i: int, j: int| 0 <= i < j < r.len() implies !lex_lt(#[trigger] r[j].0, #[trigger] r[i].0) by {
            if j == s.len() {
                if i < s.len() - 1 {
                    lemma_not_lt_transitive(s[i].0, s[s.len() - 1].0, x.0);
                }
            }
        }
        assert forall|k: int| 0 <= k < r.len() implies (#[trigger] r[k]) == x || s.contains(r[k]) by {
            if k < s.len() {
                assert(r[k] == s[k]);
            }
        }
    } else {
        let p = s.drop_last();
        let last = s.last();
        assert(sorted_by_id(p)) by {
            assert forall|i: int, j: int| 0 <= i < j < p.len() implies !lex_lt(#[trigger] p[j].0, #[trigger] p[i].0) by {
                assert(p[i] == s[i] && p[j] == s[j]);
            }
        }
        lemma_insert_by_id_sorted(p, x);
        let q = insert_by_id(p, x);
        assert(r == q.push(last));
        lemma_lex_lt_trichotomy(x.0, last.0);
        assert forall|k: int| 0 <= k < q.len() implies !lex_lt(last.0, (#[trigger] q[k]).0) by {
            if q[k] == x {
            } else {
                assert(p.contains(q[k]));
                let m = choose|m: int| 0 <= m < p.len() && p[m] == q[k];
                assert(s[m] == p[m]);
                assert(!lex_lt(s[s.len() - 1].0, s[m].0));
            }
        }
        assert forall|i: int, j: int| 0 <= i < j < r.len() implies !lex_lt(#[trigger] r[j].0, #[trigger] r[i].0) by {
            if j == q.len() {
                assert(r[i] == q[i]);
            } else {
                assert(r[i] == q[i] && r[j] == q[j]);
            }
        }
        assert forall|k: int| 0 <= k < r.len() implies (#[trigger] r[k]) == x || s.contains(r[k]) by {
            if k < q.len() {
                assert(r[k] == q[k]);
                if q[k] != x {
                    assert(p.contains(q[k]));
                    let m = choose|m: int| 0 <= m < p.len() && p[m] == q[k];
                    assert(s[m] == p[m]);
                }
            } else {
                assert(s[s.len() - 1] == last);
            }
        }
    }
}

proof fn lemma_sort_by_id_sorted(s: Seq<(Seq<char>, ResidencyState)>)
    ensures
        sorted_by_id(sort_by_id(s)),
        forall|k: int| 0 <= k < sort_by_id(s).len() ==> s.contains(#[trigger] sort_by_id(s)[k]),
    decreases s.len(),
{
    if s.len() > 0 {
        let p = s.drop_last();
        lemma_sort_by_id_sorted(p);
        lemma_insert_by_id_sorted(sort_by_id(p), s.last());
        let r = sort_by_id(s);
        assert forall|k: int| 0 <= k < r.len() implies s.contains(#[trigger] r[k]) by {
            if r[k] == s.last() {
                assert(s[s.len() - 1] == r[k]);
            } else {
                assert(sort_by_id(p).contains(r[k]));
                let m = choose|m: int| 0 <= m < sort_by_id(p).len() && sort_by_id(p)[m] == r[k];
                assert(p.contains(r[k]));
                let n = choose|n: int| 0 <= n < p.len() && p[n] == r[k];
                assert(s[n] == p[n]);
            }
        }
    }
}

proof fn lemma_residents_in_order_loaded(es: Seq<(Seq<char>, LlamaSwapModelState)>)
    ensures
        forall|k: int| 0 <= k < residents_in_order(es).len() ==> loaded_residency((#[trigger] residents_in_order(es)[k]).1),
    decreases es.len(),
{
    if es.len() > 0 {
        let p = es.drop_last();
        lemma_residents_in_order_loaded(p);
        let prev = residents_in_order(p);
        match resident_of(es.last()) {
            Some(r) => {
                assert(loaded_residency(r.1));
                assert forall|k: int| 0 <= k < prev.push(r).len() implies loaded_residency((#[trigger] prev.push(r)[k]).1) by {
                    if k < prev.len() {
                        assert(prev.push(r)[k] == prev[k]);
                    }
                }
            },
            None => {},
        }
    }
}

/// The residents a state table implies come sorted by model id, and each is
/// loaded: loading, hot or draining, never a stopped or shut-down model.
pub proof fn law_residents_sorted_and_loaded(es: Seq<(Seq<char>, LlamaSwapModelState)>)
    ensures
        sorted_by_id(sort_by_id(residents_in_order(es))),
        forall|k: int| 0 <= k < sort_by_id(residents_in_order(es)).len() ==>
            loaded_residency((#[trigger] sort_by_id(residents_in_order(es))[k]).1),
{
    let rs = residents_in_order(es);
    lemma_sort_by_id_sorted(rs);
    lemma_residents_in_order_loaded(es);
    assert forall|k: int| 0 <= k < sort_by_id(rs).len() implies loaded_residency((#[trigger] sort_by_id(rs)[k]).1) by {
        assert(rs.contains(sort_by_id(rs)[k]));
        let m = choose|m: int| 0 <= m < rs.len() && rs[m] == sort_by_id(rs)[k];
        assert(loaded_residency(rs[m].1));
    }
}

} // verus!
