//! Identifiers and units reported by runtimes, and the errors of runtime
//! operations.

use vstd::prelude::*;
use vstd::string::*;
use crate::ids::{ModelId, RuntimeId};
use crate::text::{chars_of, string_from_chars};

verus! {

/// `reqwest::Error`, carried opaquely as the cause of a failed request.
#[verifier::external_type_specification]
#[verifier::external_body]
pub struct ExReqwestError(reqwest::Error);

/// Why a runtime operation failed.
#[derive(Debug)]
pub enum RuntimeError {
    /// The runtime is unavailable.
    Unavailable(RuntimeId),
    /// An HTTP request failed.
    Http(reqwest::Error),
    /// A URL, or an identifier the runtime reported, is unusable.
    Url(String),
    /// The runtime does not support the operation.
    Unsupported(&'static str),
    /// The runtime's own configuration could not be loaded.
    Config(String),
}

/// The text of an HTTP failure: `reqwest::Error`'s `Display` rendering.
/// What it says depends on the failure (an opaque outside value), so nothing
/// is stated of it.
#[verifier::external_body]
fn http_error_text(e: &reqwest::Error) -> String {
    e.to_string()
}

impl RuntimeError {
    /// The human-readable message: the kind of failure and its detail.
    pub fn message(&self) -> (r: String)
        ensures
            match self {
                RuntimeError::Unavailable(id) => r@ == "runtime "@ + id@ + " is unavailable"@,
                RuntimeError::Http(_) => "http request failed: "@.is_prefix_of(r@),
                RuntimeError::Url(s) => r@ == "invalid runtime url: "@ + s@,
                RuntimeError::Unsupported(s) => r@ == "runtime operation is not supported: "@ + s@,
                RuntimeError::Config(s) => r@ == "failed to load llama-swap config: "@ + s@,
            },
    {
        match self {
            RuntimeError::Unavailable(id) => {
                let mut m = String::from_str("runtime ");
                m.append(id.as_str());
                m.append(" is unavailable");
                m
            },
            RuntimeError::Http(e) => {
                let mut m = String::from_str("http request failed: ");
                let ghost head = m@;
                let t = http_error_text(e);
                m.append(t.as_str());
                assert(m@.subrange(0, head.len() as int) =~= head);
                m
            },
            RuntimeError::Url(s) => {
                let mut m = String::from_str("invalid runtime url: ");
                m.append(s.as_str());
                m
            },
            RuntimeError::Unsupported(s) => {
                let mut m = String::from_str("runtime operation is not supported: ");
                m.append(s);
                m
            },
            RuntimeError::Config(s) => {
                let mut m = String::from_str("failed to load llama-swap config: ");
                m.append(s.as_str());
                m
            },
        }
    }
}

/// Whole megabytes in a number of bytes (rounded down).
pub fn bytes_to_mb(bytes: u64) -> (r: u64)
    ensures
        r == bytes / 1024 / 1024,
{
    bytes / 1024 / 1024
}

/// Whether `c` separates directories in a reported path.
pub open spec fn is_separator(c: char) -> bool {
    c == '/' || c == '\\'
}

/// Where the last path segment of `s` starts: just after its last separator.
pub open spec fn leaf_start(s: Seq<char>) -> int
    decreases s.len(),
{
    if s.len() == 0 {
        0
    } else if is_separator(s.last()) {
        s.len() as int
    } else {
        leaf_start(s.drop_last())
    }
}

/// Whether `s` ends with `suffix`.
pub open spec fn ends_with(s: Seq<char>, suffix: Seq<char>) -> bool {
    s.len() >= suffix.len() && s.subrange(s.len() - suffix.len(), s.len() as int) == suffix
}

/// A model id as reported, normalized: its last path segment (after the last
/// `/` or `\`), without a `.gguf` or else `.bin` extension.
pub open spec fn spec_normalized_id(raw: Seq<char>) -> Seq<char> {
    let leaf = raw.subrange(leaf_start(raw), raw.len() as int);
    if ends_with(leaf, ".gguf"@) {
        leaf.take(leaf.len() - 5)
    } else if ends_with(leaf, ".bin"@) {
        leaf.take(leaf.len() - 4)
    } else {
        leaf
    }
}

/// `Debug` rendering of a string: `format!("{:?}", s)`, quoted and escaped.
pub uninterp spec fn spec_debug_text(s: Seq<char>) -> Seq<char>;

/// The `Debug` rendering of `s` (std's `{:?}` for `str`), as named by
/// [`spec_debug_text`].
#[verifier::external_body]
fn debug_text(s: &str) -> (r: String)
    ensures
        r@ == spec_debug_text(s@),
{
    format!("{:?}", s)
}

fn ends_with_exec(v: &Vec<char>, from: usize, suffix: &str) -> (r: bool)
    requires
        from <= v@.len(),
    ensures
        r == ends_with(v@.subrange(from as int, v@.len() as int), suffix@),
{
    let t = chars_of(suffix);
    let n = v.len() - from;
    if n < t.len() {
        return false;
    }
    let len = v.len();
    let start = len - t.len();
    let mut i: usize = 0;
    let ghost leaf = v@.subrange(from as int, v@.len() as int);
    while i < t.len()
        invariant
            0 <= i <= t@.len(),
            t@ == suffix@,
            start == v@.len() - t@.len(),
            len == v@.len(),
            t@.len() <= v@.len(),
            from <= start,
            leaf == v@.subrange(from as int, v@.len() as int),
            forall|j: int| 0 <= j < i ==> v@[start + j] == t@[j],
        decreases t@.len() - i,
    {
        if v[start + i] != t[i] {
            assert(leaf.subrange(leaf.len() - t@.len(), leaf.len() as int)[i as int] == v@[start + i]);
            return false;
        }
        i = i + 1;
    }
    assert(leaf.subrange(leaf.len() - t@.len(), leaf.len() as int) =~= t@);
    true
}

/// Normalizes a model id reported by a runtime (see [`spec_normalized_id`]).
/// An id that normalizes to nothing is malformed and rejected.
pub fn normalize_model_id(raw: &str) -> (r: Result<ModelId, RuntimeError>)
    ensures
        match r {
            Ok(id) => id@ == spec_normalized_id(raw@) && id@.len() > 0,
            Err(e) => spec_normalized_id(raw@).len() == 0
                && (e matches RuntimeError::Url(m) && m@ == "empty model id (raw: "@ + spec_debug_text(raw@) + ")"@),
        },
{
    let v = chars_of(raw);
    let mut start: usize = 0;
    let mut i: usize = 0;
    while i < v.len()
        invariant
            0 <= i <= v@.len(),
            v@ == raw@,
            start as int == leaf_start(v@.take(i as int)),
            start <= i,
        decreases v@.len() - i,
    {
        assert(v@.take(i as int + 1).drop_last() =~= v@.take(i as int));
        if v[i] == '/' || v[i] == '\\' {
            start = i + 1;
        }
        i = i + 1;
    }
    assert(v@.take(v@.len() as int) =~= v@);
    let ghost leaf = v@.subrange(start as int, v@.len() as int);
    let end: usize = if ends_with_exec(&v, start, ".gguf") {
        proof { reveal_strlit(".gguf"); }
        v.len() - 5
    } else if ends_with_exec(&v, start, ".bin") {
        proof { reveal_strlit(".bin"); }
        v.len() - 4
    } else {
        v.len()
    };
    assert(v@.subrange(start as int, end as int) =~= spec_normalized_id(raw@));
    if end == start {
        let mut m = String::from_str("empty model id (raw: ");
        let d = debug_text(raw);
        m.append(d.as_str());
        m.append(")");
        return Err(RuntimeError::Url(m));
    }
    Ok(ModelId(string_from_chars(&v, start, end)))
}

/// Where a forwarded chat completion goes; the token comes from the
/// environment at configuration load.
#[derive(Debug)]
pub struct ForwardTarget {
    pub base_url: String,
    pub auth_token: Option<String>,
}

proof fn lemma_leaf_start(s: Seq<char>)
    ensures
        0 <= leaf_start(s) <= s.len(),
        leaf_start(s) == 0 || s[leaf_start(s) - 1] == '/' || s[leaf_start(s) - 1] == '\\',
        forall|j: int| leaf_start(s) <= j < s.len() ==> s[j] != '/' && s[j] != '\\',
    decreases s.len(),
{
    if s.len() > 0 && !is_separator(s.last()) {
        lemma_leaf_start(s.drop_last());
        assert forall|j: int| leaf_start(s) <= j < s.len() implies s[j] != '/' && s[j] != '\\' by {
            if j < s.len() - 1 {
                assert(s[j] == s.drop_last()[j]);
            }
        }
    }
}

/// A normalized model id is the reported id's last path segment: the text
/// after its last `/` or `\` (or all of it when there is none), minus a
/// trailing `.gguf`, or else a trailing `.bin`. In particular it never
/// contains a separator.
pub proof fn law_normalized_id_is_last_segment(raw: Seq<char>)
    ensures
        forall|i: int| 0 <= i < spec_normalized_id(raw).len()
            ==> spec_normalized_id(raw)[i] != '/' && spec_normalized_id(raw)[i] != '\\',
        exists|k: int| {
            &&& 0 <= k <= raw.len()
            &&& (k == 0 || raw[k - 1] == '/' || raw[k - 1] == '\\')
            &&& (forall|j: int| k <= j < raw.len() ==> raw[j] != '/' && raw[j] != '\\')
            &&& if raw.skip(k).len() >= 5 && raw.skip(k).skip(raw.skip(k).len() - 5) == ".gguf"@ {
                spec_normalized_id(raw) + ".gguf"@ == raw.skip(k)
            } else if raw.skip(k).len() >= 4 && raw.skip(k).skip(raw.skip(k).len() - 4) == ".bin"@ {
                spec_normalized_id(raw) + ".bin"@ == raw.skip(k)
            } else {
                spec_normalized_id(raw) == raw.skip(k)
            }
        },
{
    reveal_strlit(".gguf");
    reveal_strlit(".bin");
    lemma_leaf_start(raw);
    let k = leaf_start(raw);
    let leaf = raw.subrange(k, raw.len() as int);
    assert(leaf =~= raw.skip(k));
    assert(leaf.skip(leaf.len() - 5) =~= leaf.subrange(leaf.len() - 5, leaf.len() as int));
    assert(leaf.skip(leaf.len() - 4) =~= leaf.subrange(leaf.len() - 4, leaf.len() as int));
    if ends_with(leaf, ".gguf"@) {
        assert(leaf.take(leaf.len() - 5) + ".gguf"@ =~= leaf);
    } else if ends_with(leaf, ".bin"@) {
        assert(leaf.take(leaf.len() - 4) + ".bin"@ =~= leaf);
    }
    let n = spec_normalized_id(raw);
    assert forall|i: int| 0 <= i < n.len() implies n[i] != '/' && n[i] != '\\' by {
        assert(n[i] == leaf[i]);
        assert(leaf[i] == raw[k + i]);
    }
}

} // verus!
