//! llama-swap's colocation matrix: which models may be GPU-resident together.
//!
//! A colocation set is written in a small expression language over model ids:
//! `&` joins models that load together, `|` separates alternatives, and
//! parentheses group. `(qwen4b | qwen2b) & gemma` admits the loadouts
//! `{qwen4b, gemma}` and `{qwen2b, gemma}`.

use vstd::prelude::*;
use crate::ids::ModelId;
use crate::text::{lookup, find_entry, chars_of, string_from_chars, str_eq, str_lt, lex_lt, is_whitespace, char_is_whitespace,
    lemma_lex_lt_transitive, lemma_lex_lt_trichotomy};
use crate::types::{ColocationConstraints, loadouts_view, spec_can_colocate, model_ids_view};

verus! {

/// A value in the matrix `vars` block: a numeric budget (`gpu: 24576`, total
/// VRAM in MB) or an alias for a model id used in set expressions
/// (`g31: gemma-4-31b-it`).
#[derive(Debug, Clone, PartialEq, Eq)]
pub enum MatrixVar {
    Uint(u64),
    String(String),
}

/// One named colocation set; `models` is an expression over model ids.
#[derive(Debug, Clone, PartialEq, Eq)]
pub struct ColocationSet {
    pub name: String,
    pub models: String,
}

/// The `matrix` block of a llama-swap config. `vars` and `evict_costs` are
/// kept as written, each key with its value; where a key repeats, its first
/// entry counts.
#[derive(Debug, Clone, PartialEq, Eq)]
pub struct LlamaSwapMatrixConfig {
    /// Numeric budgets and model-id aliases, by name.
    pub vars: Vec<(String, MatrixVar)>,
    /// Cold-load cost estimates in milliseconds, by model id or alias.
    pub evict_costs: Vec<(String, u64)>,
    /// The declared colocation sets, in order.
    pub sets: Vec<ColocationSet>,
}

impl Default for LlamaSwapMatrixConfig {
    fn default() -> (r: Self)
        ensures
            r.vars@.len() == 0,
            r.evict_costs@.len() == 0,
            r.sets@.len() == 0,
    {
        LlamaSwapMatrixConfig { vars: Vec::new(), evict_costs: Vec::new(), sets: Vec::new() }
    }
}

/// What an identifier in a set expression names: the model id that a string
/// var of that name aliases, or the identifier itself.
pub open spec fn resolve_alias(vars: Seq<(String, MatrixVar)>, id: Seq<char>) -> Seq<char> {
    match lookup(vars, id) {
        Some(MatrixVar::String(s)) => s@,
        _ => id,
    }
}

impl LlamaSwapMatrixConfig {
    /// The value of numeric var `key` (e.g. `gpu: 24576`); `None` when the var
    /// is absent or is an alias.
    pub fn numeric_var(&self, key: &str) -> (r: Option<u64>)
        ensures
            r == (match lookup(self.vars@, key@) {
                Some(MatrixVar::Uint(n)) => Some(n),
                _ => None,
            }),
    {
        match find_entry(&self.vars, key) {
            Some(MatrixVar::Uint(n)) => Some(*n),
            _ => None,
        }
    }

    /// The cold-load cost estimate recorded for `model`, if any.
    pub fn evict_cost(&self, model: &str) -> (r: Option<u64>)
        ensures
            r == lookup(self.evict_costs@, model@),
    {
        match find_entry(&self.evict_costs, model) {
            Some(c) => Some(*c),
            None => None,
        }
    }
}

} // verus!

verus! {

/// A token of a set expression.
#[derive(Debug)]
pub enum MatrixToken {
    Ident(String),
    And,
    Or,
    Open,
    Close,
}

/// A token as the grammar sees it.
pub enum TokenView {
    Ident(Seq<char>),
    And,
    Or,
    Open,
    Close,
}

impl View for MatrixToken {
    type V = TokenView;

    open spec fn view(&self) -> TokenView {
        match self {
            MatrixToken::Ident(s) => TokenView::Ident(s@),
            MatrixToken::And => TokenView::And,
            MatrixToken::Or => TokenView::Or,
            MatrixToken::Open => TokenView::Open,
            MatrixToken::Close => TokenView::Close,
        }
    }
}

/// The views of a token sequence.
pub open spec fn tokens_view(ts: Seq<MatrixToken>) -> Seq<TokenView> {
    ts.map_values(|t: MatrixToken| t@)
}

/// The operator token a character stands for, if it is one.
pub open spec fn operator_token(c: char) -> Option<TokenView> {
    if c == '&' {
        Some(TokenView::And)
    } else if c == '|' {
        Some(TokenView::Or)
    } else if c == '(' {
        Some(TokenView::Open)
    } else if c == ')' {
        Some(TokenView::Close)
    } else {
        None
    }
}

/// `ts` followed by the pending identifier, if one is pending.
pub open spec fn flush(ts: Seq<TokenView>, ident: Seq<char>) -> Seq<TokenView> {
    if ident.len() == 0 {
        ts
    } else {
        ts.push(TokenView::Ident(ident))
    }
}

/// The tokens completed after scanning `s`, and the identifier still pending.
/// An operator or white space ends the pending identifier; any other
/// character extends it.
pub open spec fn scan(s: Seq<char>) -> (Seq<TokenView>, Seq<char>)
    decreases s.len(),
{
    if s.len() == 0 {
        (Seq::empty(), Seq::empty())
    } else {
        let prev = scan(s.drop_last());
        let c = s.last();
        match operator_token(c) {
            Some(t) => (flush(prev.0, prev.1).push(t), Seq::empty()),
            None => if is_whitespace(c) {
                (flush(prev.0, prev.1), Seq::empty())
            } else {
                (prev.0, prev.1.push(c))
            },
        }
    }
}

/// The tokens of a set expression.
pub open spec fn spec_tokenize(s: Seq<char>) -> Seq<TokenView> {
    flush(scan(s).0, scan(s).1)
}

/// Splits a set expression into identifiers and the operators `&`, `|`, `(`
/// and `)`; white space separates identifiers.
pub fn tokenize_colocation_expr(expr: &str) -> (r: Vec<MatrixToken>)
    ensures
        tokens_view(r@) == spec_tokenize(expr@),
{
    let chars = chars_of(expr);
    let mut tokens: Vec<MatrixToken> = Vec::new();
    let mut ident: Vec<char> = Vec::new();
    let mut i: usize = 0;
    while i < chars.len()
        invariant
            0 <= i <= chars@.len(),
            chars@ == expr@,
            tokens_view(tokens@) == scan(chars@.take(i as int)).0,
            ident@ == scan(chars@.take(i as int)).1,
        decreases chars@.len() - i,
    {
        let ch = chars[i];
        proof {
            assert(chars@.take(i as int + 1).drop_last() =~= chars@.take(i as int));
            assert(chars@.take(i as int + 1).last() == ch);
        }
        let is_op = ch == '&' || ch == '|' || ch == '(' || ch == ')';
        if is_op || char_is_whitespace(ch) {
            if ident.len() > 0 {
                let name = string_from_chars(&ident, 0, ident.len());
                proof {
                    assert(ident@.subrange(0, ident@.len() as int) =~= ident@);
                }
                tokens.push(MatrixToken::Ident(name));
                proof {
                    assert(tokens_view(tokens@) =~= flush(scan(chars@.take(i as int)).0, scan(chars@.take(i as int)).1));
                }
            } else {
                proof {
                    assert(tokens_view(tokens@) =~= flush(scan(chars@.take(i as int)).0, scan(chars@.take(i as int)).1));
                }
            }
            if is_op {
                let t = if ch == '&' {
                    MatrixToken::And
                } else if ch == '|' {
                    MatrixToken::Or
                } else if ch == '(' {
                    MatrixToken::Open
                } else {
                    MatrixToken::Close
                };
                tokens.push(t);
                proof {
                    assert(tokens_view(tokens@) =~= scan(chars@.take(i as int + 1)).0);
                }
            }
            ident = Vec::new();
        } else {
            ident.push(ch);
        }
        i = i + 1;
    }
    proof {
        assert(chars@.take(chars@.len() as int) =~= chars@);
    }
    if ident.len() > 0 {
        let name = string_from_chars(&ident, 0, ident.len());
        proof {
            assert(ident@.subrange(0, ident@.len() as int) =~= ident@);
        }
        tokens.push(MatrixToken::Ident(name));
    }
    proof {
        assert(tokens_view(tokens@) =~= spec_tokenize(expr@));
    }
    tokens
}

} // verus!

verus! {

/// The texts of a sequence of names.
pub open spec fn names_view(v: Seq<String>) -> Seq<Seq<char>> {
    v.map_values(|s: String| s@)
}

/// Strictly increasing in lexicographic order: sorted, with no repeats.
pub open spec fn strictly_sorted(s: Seq<Seq<char>>) -> bool {
    forall|i: int, j: int| 0 <= i < j < s.len() ==> lex_lt(#[trigger] s[i], #[trigger] s[j])
}

/// The set of names a loadout holds.
pub open spec fn loadout_set(v: Seq<String>) -> Set<Seq<char>> {
    names_view(v).to_set()
}

/// Two strictly sorted sequences with the same elements are the same.
pub proof fn lemma_sorted_same_set(a: Seq<Seq<char>>, b: Seq<Seq<char>>)
    requires
        strictly_sorted(a),
        strictly_sorted(b),
        a.to_set() == b.to_set(),
    ensures
        a == b,
    decreases a.len(),
{
    if a.len() == 0 {
        if b.len() > 0 {
            assert(b.to_set().contains(b[0]));
        }
        assert(a =~= b);
    } else {
        assert(a.to_set().contains(a[0]));
        assert(b.contains(a[0]));
        let j = choose|j: int| 0 <= j < b.len() && b[j] == a[0];
        assert(b.to_set().contains(b[0]));
        assert(a.contains(b[0]));
        let k = choose|k: int| 0 <= k < a.len() && a[k] == b[0];
        if j > 0 {
            // b[0] < b[j] = a[0], while b[0] = a[k] is not below a[0].
            assert(lex_lt(b[0], b[j]));
            if k > 0 {
                assert(lex_lt(a[0], a[k]));
                lemma_lex_lt_transitive(a[0], a[k], a[0]);
            }
            lemma_lex_lt_trichotomy(a[0], a[0]);
        }
        assert(b.len() > 0 && b[0] == a[0]);
        let a1 = a.drop_first();
        let b1 = b.drop_first();
        assert forall|x: Seq<char>| a1.to_set().contains(x) implies b1.to_set().contains(x) by {
            let i = choose|i: int| 0 <= i < a1.len() && a1[i] == x;
            assert(a[i + 1] == x);
            assert(lex_lt(a[0], a[i + 1]));
            assert(a.to_set().contains(x));
            assert(b.contains(x));
            let m = choose|m: int| 0 <= m < b.len() && b[m] == x;
            if m == 0 {
                lemma_lex_lt_trichotomy(a[0], x);
            }
            assert(b1[m - 1] == x);
        }
        assert forall|x: Seq<char>| b1.to_set().contains(x) implies a1.to_set().contains(x) by {
            let i = choose|i: int| 0 <= i < b1.len() && b1[i] == x;
            assert(b[i + 1] == x);
            assert(lex_lt(b[0], b[i + 1]));
            assert(b.to_set().contains(x));
            assert(a.contains(x));
            let m = choose|m: int| 0 <= m < a.len() && a[m] == x;
            if m == 0 {
                lemma_lex_lt_trichotomy(b[0], x);
            }
            assert(a1[m - 1] == x);
        }
        assert(a1.to_set() =~= b1.to_set());
        lemma_sorted_same_set(a1, b1);
        assert(a =~= b) by {
            assert forall|i: int| 0 <= i < a.len() implies a[i] == b[i] by {
                if i > 0 {
                    assert(a[i] == a1[i - 1]);
                    assert(b[i] == b1[i - 1]);
                }
            }
        }
    }
}

/// Whether two loadouts hold the same names in the same order.
fn same_names(a: &Vec<String>, b: &Vec<String>) -> (r: bool)
    ensures
        r == (names_view(a@) == names_view(b@)),
{
    if a.len() != b.len() {
        proof {
            if names_view(a@) == names_view(b@) {
                assert(names_view(a@).len() == names_view(b@).len());
            }
        }
        return false;
    }
    let mut i: usize = 0;
    while i < a.len()
        invariant
            0 <= i <= a@.len(),
            a@.len() == b@.len(),
            forall|j: int| 0 <= j < i ==> a@[j]@ == b@[j]@,
        decreases a@.len() - i,
    {
        if !str_eq(a[i].as_str(), b[i].as_str()) {
            proof {
                if names_view(a@) == names_view(b@) {
                    assert(names_view(a@)[i as int] == names_view(b@)[i as int]);
                }
            }
            return false;
        }
        i = i + 1;
    }
    assert(names_view(a@) =~= names_view(b@));
    true
}

/// Appending a name appends its text.
proof fn lemma_names_push(v: Seq<String>, s: String)
    ensures
        names_view(v.push(s)) == names_view(v).push(s@),
{
    assert(names_view(v.push(s)) =~= names_view(v).push(s@));
}

/// Adds `x` to a sorted loadout, keeping it sorted and free of repeats.
fn insert_name(v: &Vec<String>, x: &String) -> (r: Vec<String>)
    requires
        strictly_sorted(names_view(v@)),
    ensures
        strictly_sorted(names_view(r@)),
        loadout_set(r@) == loadout_set(v@).insert(x@),
{
    let ghost nv = names_view(v@);
    let mut out: Vec<String> = Vec::new();
    let mut i: usize = 0;
    let mut below = true;
    while below && i < v.len()
        invariant
            0 <= i <= v@.len(),
            nv == names_view(v@),
            strictly_sorted(nv),
            names_view(out@) == nv.take(i as int),
            forall|j: int| 0 <= j < i ==> lex_lt(#[trigger] nv[j], x@),
            !below ==> i < v@.len() && !lex_lt(nv[i as int], x@),
        decreases v@.len() - i + (if below { 1int } else { 0int }),
    {
        if str_lt(v[i].as_str(), x.as_str()) {
            let c = v[i].clone();
            proof {
                lemma_names_push(out@, c);
                assert(nv.take(i as int + 1) =~= nv.take(i as int).push(nv[i as int]));
            }
            out.push(c);
            i = i + 1;
        } else {
            below = false;
        }
    }
    // Everything from `i` on is above `x`, unless `v[i]` is `x` itself.
    let present = i < v.len() && str_eq(v[i].as_str(), x.as_str());
    if !present {
        let c = x.clone();
        proof {
            lemma_names_push(out@, c);
        }
        out.push(c);
    }
    let ghost head = names_view(out@);
    let mut k: usize = i;
    while k < v.len()
        invariant
            0 <= i <= k <= v@.len(),
            nv == names_view(v@),
            head == (if present { nv.take(i as int) } else { nv.take(i as int).push(x@) }),
            names_view(out@) == head + nv.subrange(i as int, k as int),
        decreases v@.len() - k,
    {
        let c = v[k].clone();
        proof {
            lemma_names_push(out@, c);
            assert(head + nv.subrange(i as int, k as int + 1) =~= (head + nv.subrange(i as int, k as int)).push(nv[k as int]));
        }
        out.push(c);
        k = k + 1;
    }
    proof {
        let r = names_view(out@);
        assert(nv.subrange(i as int, nv.len() as int) =~= nv.skip(i as int));
        if present {
            assert(r =~= nv);
            assert(nv[i as int] == x@);
            assert(nv.to_set().insert(x@) =~= nv.to_set());
        } else {
            if i < nv.len() {
                lemma_lex_lt_trichotomy(nv[i as int], x@);
            }
            // `x` sits between the names below it and those above it.
            assert forall|j: int| i <= j < nv.len() implies lex_lt(x@, #[trigger] nv[j]) by {
                if j > i {
                    assert(lex_lt(nv[i as int], nv[j]));
                    lemma_lex_lt_transitive(x@, nv[i as int], nv[j]);
                }
            }
            let h = i as int + 1;
            assert(r.len() == nv.len() + 1);
            assert(forall|m: int| 0 <= m < i ==> r[m] == nv[m]);
            assert(r[i as int] == x@);
            assert(forall|m: int| h <= m < r.len() ==> r[m] == nv[m - 1]);
            assert forall|p: int, q: int| 0 <= p < q < r.len() implies lex_lt(#[trigger] r[p], #[trigger] r[q]) by {
                if q < i {
                    assert(r[p] == nv[p] && r[q] == nv[q]);
                } else if q == i {
                    assert(r[p] == nv[p]);
                } else if p < i {
                    assert(r[p] == nv[p] && r[q] == nv[q - 1]);
                    lemma_lex_lt_transitive(nv[p], x@, nv[q - 1]);
                } else if p == i {
                    assert(r[q] == nv[q - 1]);
                } else {
                    assert(r[p] == nv[p - 1] && r[q] == nv[q - 1]);
                }
            }
            assert forall|y: Seq<char>| r.contains(y) <==> nv.to_set().insert(x@).contains(y) by {
                if r.contains(y) {
                    let m = choose|m: int| 0 <= m < r.len() && r[m] == y;
                    if m < i {
                        assert(nv[m] == y);
                    } else if m > i {
                        assert(nv[m - 1] == y);
                    }
                }
                if nv.contains(y) {
                    let m = choose|m: int| 0 <= m < nv.len() && nv[m] == y;
                    if m < i {
                        assert(r[m] == y);
                    } else {
                        assert(r[m + 1] == y);
                    }
                }
                if y == x@ {
                    assert(r[i as int] == y);
                }
            }
            assert(r.to_set() =~= nv.to_set().insert(x@));
        }
    }
    out
}

} // verus!

verus! {

/// The names of each loadout in a list, in order.
pub open spec fn loadouts_names(v: Seq<Vec<String>>) -> Seq<Seq<Seq<char>>> {
    v.map_values(|l: Vec<String>| names_view(l@))
}

/// Every loadout in the list is strictly sorted.
pub open spec fn all_sorted(n: Seq<Seq<Seq<char>>>) -> bool {
    forall|i: int| 0 <= i < n.len() ==> strictly_sorted(#[trigger] n[i])
}

/// The sets of names of a list of loadouts.
pub open spec fn sets_of(n: Seq<Seq<Seq<char>>>) -> Seq<Set<Seq<char>>> {
    n.map_values(|l: Seq<Seq<char>>| l.to_set())
}

/// Each loadout of `l` joined with each of `r`, left-major.
pub open spec fn cross(l: Seq<Set<Seq<char>>>, r: Seq<Set<Seq<char>>>) -> Seq<Set<Seq<char>>>
    decreases l.len(),
{
    if l.len() == 0 {
        Seq::empty()
    } else {
        cross(l.drop_last(), r) + r.map_values(|s: Set<Seq<char>>| l.last().union(s))
    }
}

/// The `&` of two operands. An operand that yielded no loadout (nothing
/// parseable) leaves the other unchanged, so a malformed operand cannot erase
/// models.
pub open spec fn cross_union(l: Seq<Set<Seq<char>>>, r: Seq<Set<Seq<char>>>) -> Seq<Set<Seq<char>>> {
    if l.len() == 0 {
        r
    } else if r.len() == 0 {
        l
    } else {
        cross(l, r)
    }
}

/// A list of loadouts with repeats dropped, keeping first occurrences.
pub open spec fn dedup(s: Seq<Set<Seq<char>>>) -> Seq<Set<Seq<char>>>
    decreases s.len(),
{
    if s.len() == 0 {
        Seq::empty()
    } else {
        let d = dedup(s.drop_last());
        if d.contains(s.last()) {
            d
        } else {
            d.push(s.last())
        }
    }
}

/// A copy of a loadout.
fn copy_names(v: &Vec<String>) -> (r: Vec<String>)
    ensures
        names_view(r@) == names_view(v@),
{
    let mut out: Vec<String> = Vec::new();
    let mut i: usize = 0;
    while i < v.len()
        invariant
            0 <= i <= v@.len(),
            names_view(out@) == names_view(v@).take(i as int),
        decreases v@.len() - i,
    {
        let c = v[i].clone();
        proof {
            lemma_names_push(out@, c);
            assert(names_view(v@).take(i as int + 1) =~= names_view(v@).take(i as int).push(c@));
        }
        out.push(c);
        i = i + 1;
    }
    assert(names_view(v@).take(v@.len() as int) =~= names_view(v@));
    out
}

/// Appending a loadout appends its names.
proof fn lemma_loadouts_push(v: Seq<Vec<String>>, l: Vec<String>)
    ensures
        loadouts_names(v.push(l)) == loadouts_names(v).push(names_view(l@)),
{
    assert(loadouts_names(v.push(l)) =~= loadouts_names(v).push(names_view(l@)));
}

/// A copy of a list of loadouts.
fn copy_loadouts(v: &Vec<Vec<String>>) -> (r: Vec<Vec<String>>)
    ensures
        loadouts_names(r@) == loadouts_names(v@),
{
    let mut out: Vec<Vec<String>> = Vec::new();
    let mut i: usize = 0;
    while i < v.len()
        invariant
            0 <= i <= v@.len(),
            loadouts_names(out@) == loadouts_names(v@).take(i as int),
        decreases v@.len() - i,
    {
        let c = copy_names(&v[i]);
        proof {
            lemma_loadouts_push(out@, c);
            assert(loadouts_names(v@).take(i as int + 1) =~= loadouts_names(v@).take(i as int).push(names_view(c@)));
        }
        out.push(c);
        i = i + 1;
    }
    assert(loadouts_names(v@).take(v@.len() as int) =~= loadouts_names(v@));
    out
}

/// The union of two loadouts, sorted and free of repeats.
fn union_names(a: &Vec<String>, b: &Vec<String>) -> (r: Vec<String>)
    requires
        strictly_sorted(names_view(a@)),
    ensures
        strictly_sorted(names_view(r@)),
        loadout_set(r@) == loadout_set(a@).union(loadout_set(b@)),
{
    let mut acc = copy_names(a);
    let mut j: usize = 0;
    while j < b.len()
        invariant
            0 <= j <= b@.len(),
            strictly_sorted(names_view(acc@)),
            loadout_set(acc@) == loadout_set(a@).union(names_view(b@).take(j as int).to_set()),
        decreases b@.len() - j,
    {
        acc = insert_name(&acc, &b[j]);
        proof {
            assert(names_view(b@).take(j as int + 1).to_set() =~= names_view(b@).take(j as int).to_set().insert(b@[j as int]@)) by {
                assert(names_view(b@).take(j as int + 1) =~= names_view(b@).take(j as int).push(b@[j as int]@));
                names_view(b@).take(j as int).lemma_push_to_set_commute(b@[j as int]@);
            }
            assert(loadout_set(acc@) =~= loadout_set(a@).union(names_view(b@).take(j as int + 1).to_set()));
        }
        j = j + 1;
    }
    assert(names_view(b@).take(b@.len() as int) =~= names_view(b@));
    acc
}

/// The `&` of two lists of loadouts: every pairwise union, or the other list
/// where one is empty.
fn cross_union_loadouts(lhs: &Vec<Vec<String>>, rhs: &Vec<Vec<String>>) -> (r: Vec<Vec<String>>)
    requires
        all_sorted(loadouts_names(lhs@)),
        all_sorted(loadouts_names(rhs@)),
    ensures
        all_sorted(loadouts_names(r@)),
        sets_of(loadouts_names(r@)) == cross_union(sets_of(loadouts_names(lhs@)), sets_of(loadouts_names(rhs@))),
{
    let ghost ls = sets_of(loadouts_names(lhs@));
    let ghost rs = sets_of(loadouts_names(rhs@));
    if lhs.len() == 0 {
        return copy_loadouts(rhs);
    }
    if rhs.len() == 0 {
        return copy_loadouts(lhs);
    }
    let mut out: Vec<Vec<String>> = Vec::new();
    let mut i: usize = 0;
    while i < lhs.len()
        invariant
            0 <= i <= lhs@.len(),
            rhs@.len() > 0,
            ls == sets_of(loadouts_names(lhs@)),
            rs == sets_of(loadouts_names(rhs@)),
            all_sorted(loadouts_names(lhs@)),
            all_sorted(loadouts_names(out@)),
            sets_of(loadouts_names(out@)) == cross(ls.take(i as int), rs),
        decreases lhs@.len() - i,
    {
        let ghost before = sets_of(loadouts_names(out@));
        let mut j: usize = 0;
        assert(strictly_sorted(loadouts_names(lhs@)[i as int]));
        while j < rhs.len()
            invariant
                0 <= i < lhs@.len(),
                0 <= j <= rhs@.len(),
                ls == sets_of(loadouts_names(lhs@)),
                rs == sets_of(loadouts_names(rhs@)),
                strictly_sorted(names_view(lhs@[i as int]@)),
                all_sorted(loadouts_names(out@)),
                sets_of(loadouts_names(out@)) == before + rs.take(j as int).map_values(|s: Set<Seq<char>>| ls[i as int].union(s)),
            decreases rhs@.len() - j,
        {
            let u = union_names(&lhs[i], &rhs[j]);
            proof {
                lemma_loadouts_push(out@, u);
                assert(sets_of(loadouts_names(out@.push(u))) =~= sets_of(loadouts_names(out@)).push(loadout_set(u@)));
                assert(rs.take(j as int + 1).map_values(|s: Set<Seq<char>>| ls[i as int].union(s))
                    =~= rs.take(j as int).map_values(|s: Set<Seq<char>>| ls[i as int].union(s)).push(ls[i as int].union(rs[j as int])));
                assert(loadouts_names(out@.push(u)) == loadouts_names(out@).push(names_view(u@)));
            }
            out.push(u);
            j = j + 1;
        }
        proof {
            assert(ls.take(i as int + 1).drop_last() =~= ls.take(i as int));
            assert(rs.take(rs.len() as int) =~= rs);
        }
        i = i + 1;
    }
    proof {
        assert(ls.take(ls.len() as int) =~= ls);
    }
    out
}

/// Whether the list holds a loadout with the same names as `l`.
fn holds_loadout(v: &Vec<Vec<String>>, l: &Vec<String>) -> (r: bool)
    requires
        all_sorted(loadouts_names(v@)),
        strictly_sorted(names_view(l@)),
    ensures
        r == sets_of(loadouts_names(v@)).contains(loadout_set(l@)),
{
    let mut i: usize = 0;
    while i < v.len()
        invariant
            0 <= i <= v@.len(),
            all_sorted(loadouts_names(v@)),
            strictly_sorted(names_view(l@)),
            forall|j: int| 0 <= j < i ==> (#[trigger] sets_of(loadouts_names(v@))[j]) != loadout_set(l@),
        decreases v@.len() - i,
    {
        if same_names(&v[i], l) {
            assert(sets_of(loadouts_names(v@))[i as int] == loadout_set(l@));
            return true;
        }
        proof {
            assert(strictly_sorted(loadouts_names(v@)[i as int]));
            if sets_of(loadouts_names(v@))[i as int] == loadout_set(l@) {
                lemma_sorted_same_set(names_view(v@[i as int]@), names_view(l@));
            }
        }
        i = i + 1;
    }
    false
}

/// Drops repeated loadouts, keeping first occurrences.
fn dedup_loadouts(v: &Vec<Vec<String>>) -> (r: Vec<Vec<String>>)
    requires
        all_sorted(loadouts_names(v@)),
    ensures
        all_sorted(loadouts_names(r@)),
        sets_of(loadouts_names(r@)) == dedup(sets_of(loadouts_names(v@))),
{
    let ghost s = sets_of(loadouts_names(v@));
    let mut out: Vec<Vec<String>> = Vec::new();
    let mut i: usize = 0;
    while i < v.len()
        invariant
            0 <= i <= v@.len(),
            s == sets_of(loadouts_names(v@)),
            all_sorted(loadouts_names(v@)),
            all_sorted(loadouts_names(out@)),
            sets_of(loadouts_names(out@)) == dedup(s.take(i as int)),
        decreases v@.len() - i,
    {
        assert(strictly_sorted(loadouts_names(v@)[i as int]));
        proof {
            assert(s.take(i as int + 1).drop_last() =~= s.take(i as int));
        }
        if !holds_loadout(&out, &v[i]) {
            let c = copy_names(&v[i]);
            proof {
                lemma_loadouts_push(out@, c);
                assert(sets_of(loadouts_names(out@.push(c))) =~= sets_of(loadouts_names(out@)).push(loadout_set(c@)));
            }
            out.push(c);
        }
        i = i + 1;
    }
    proof {
        assert(s.take(s.len() as int) =~= s);
    }
    out
}

} // verus!

verus! {

/// Parses `and ( '|' and )*` from `pos`: the loadouts of every alternative,
/// and the position after them.
pub open spec fn p_or(ts: Seq<TokenView>, pos: int, vars: Seq<(String, MatrixVar)>) -> (Seq<Set<Seq<char>>>, int)
    decreases ts.len() - pos, 2int,
{
    let first = p_and(ts, pos, vars);
    if pos <= first.1 <= ts.len() {
        or_rest(ts, first.1, vars, first.0)
    } else {
        first
    }
}

/// The remaining `'|' and` alternatives from `pos`, added to `acc`.
pub open spec fn or_rest(ts: Seq<TokenView>, pos: int, vars: Seq<(String, MatrixVar)>, acc: Seq<Set<Seq<char>>>) -> (Seq<Set<Seq<char>>>, int)
    decreases ts.len() - pos, 1int,
{
    if 0 <= pos < ts.len() && ts[pos] is Or {
        let next = p_and(ts, pos + 1, vars);
        if pos < next.1 <= ts.len() {
            or_rest(ts, next.1, vars, acc + next.0)
        } else {
            (acc + next.0, next.1)
        }
    } else {
        (acc, pos)
    }
}

/// Parses `factor ( '&' factor )*` from `pos`.
pub open spec fn p_and(ts: Seq<TokenView>, pos: int, vars: Seq<(String, MatrixVar)>) -> (Seq<Set<Seq<char>>>, int)
    decreases ts.len() - pos, 1int,
{
    let first = p_factor(ts, pos, vars);
    if pos <= first.1 <= ts.len() {
        and_rest(ts, first.1, vars, first.0)
    } else {
        first
    }
}

/// The remaining `'&' factor` operands from `pos`, each crossed into `acc`.
pub open spec fn and_rest(ts: Seq<TokenView>, pos: int, vars: Seq<(String, MatrixVar)>, acc: Seq<Set<Seq<char>>>) -> (Seq<Set<Seq<char>>>, int)
    decreases ts.len() - pos, 0int,
{
    if 0 <= pos < ts.len() && ts[pos] is And {
        let next = p_factor(ts, pos + 1, vars);
        let joined = cross_union(acc, next.0);
        if pos < next.1 <= ts.len() {
            and_rest(ts, next.1, vars, joined)
        } else {
            (joined, next.1)
        }
    } else {
        (acc, pos)
    }
}

/// Parses an identifier or a parenthesised expression from `pos`; a missing
/// `)` is tolerated, and anything else yields no loadout.
pub open spec fn p_factor(ts: Seq<TokenView>, pos: int, vars: Seq<(String, MatrixVar)>) -> (Seq<Set<Seq<char>>>, int)
    decreases ts.len() - pos, 0int,
{
    if 0 <= pos < ts.len() {
        match ts[pos] {
            TokenView::Ident(id) => (seq![Set::empty().insert(resolve_alias(vars, id))], pos + 1),
            TokenView::Open => {
                let inner = p_or(ts, pos + 1, vars);
                if 0 <= inner.1 < ts.len() && ts[inner.1] is Close {
                    (inner.0, inner.1 + 1)
                } else {
                    inner
                }
            },
            _ => (Seq::empty(), pos),
        }
    } else {
        (Seq::empty(), pos)
    }
}

/// The model id that identifier `id` names under `vars`.
fn resolve(vars: &Vec<(String, MatrixVar)>, id: &String) -> (r: String)
    ensures
        r@ == resolve_alias(vars@, id@),
{
    match find_entry(vars, id.as_str()) {
        Some(MatrixVar::String(s)) => s.clone(),
        _ => id.clone(),
    }
}

/// Whether token `p` exists and is `|`.
fn is_or_at(tokens: &Vec<MatrixToken>, p: usize) -> (r: bool)
    ensures
        r == (p < tokens@.len() && tokens@[p as int]@ is Or),
{
    p < tokens.len() && match &tokens[p] {
        MatrixToken::Or => true,
        _ => false,
    }
}

/// Whether token `p` exists and is `&`.
fn is_and_at(tokens: &Vec<MatrixToken>, p: usize) -> (r: bool)
    ensures
        r == (p < tokens@.len() && tokens@[p as int]@ is And),
{
    p < tokens.len() && match &tokens[p] {
        MatrixToken::And => true,
        _ => false,
    }
}

/// Whether token `p` exists and is `)`.
fn is_close_at(tokens: &Vec<MatrixToken>, p: usize) -> (r: bool)
    ensures
        r == (p < tokens@.len() && tokens@[p as int]@ is Close),
{
    p < tokens.len() && match &tokens[p] {
        MatrixToken::Close => true,
        _ => false,
    }
}

/// Parses alternatives separated by `|` from `pos`; returns their loadouts
/// and the position after them.
fn parse_or(tokens: &Vec<MatrixToken>, pos: usize, vars: &Vec<(String, MatrixVar)>) -> (r: (Vec<Vec<String>>, usize))
    requires
        pos <= tokens@.len(),
    ensures
        pos <= r.1 <= tokens@.len(),
        all_sorted(loadouts_names(r.0@)),
        (sets_of(loadouts_names(r.0@)), r.1 as int) == p_or(tokens_view(tokens@), pos as int, vars@),
    decreases tokens@.len() - pos, 2int,
{
    let ghost ts = tokens_view(tokens@);
    let (mut loadouts, mut p) = parse_and(tokens, pos, vars);
    let ghost target = p_or(ts, pos as int, vars@);
    assert(or_rest(ts, p as int, vars@, sets_of(loadouts_names(loadouts@))) == target);
    while is_or_at(tokens, p)
        invariant
            pos <= p <= tokens@.len(),
            ts == tokens_view(tokens@),
            all_sorted(loadouts_names(loadouts@)),
            or_rest(ts, p as int, vars@, sets_of(loadouts_names(loadouts@))) == target,
        decreases tokens@.len() - p,
    {
        assert(ts[p as int] == tokens@[p as int]@);
        let n: usize = tokens.len();
        assert(p < n);
        let (more, next) = parse_and(tokens, p + 1, vars);
        let ghost acc = sets_of(loadouts_names(loadouts@));
        let mut more = more;
        proof {
            assert(loadouts_names(loadouts@ + more@) =~= loadouts_names(loadouts@) + loadouts_names(more@));
            assert(sets_of(loadouts_names(loadouts@) + loadouts_names(more@))
                =~= acc + sets_of(loadouts_names(more@)));
        }
        loadouts.append(&mut more);
        p = next;
    }
    assert(!(p < tokens@.len() && ts[p as int] is Or)) by {
        if p < tokens@.len() {
            assert(ts[p as int] == tokens@[p as int]@);
        }
    }
    (loadouts, p)
}

/// Parses operands joined by `&` from `pos`.
fn parse_and(tokens: &Vec<MatrixToken>, pos: usize, vars: &Vec<(String, MatrixVar)>) -> (r: (Vec<Vec<String>>, usize))
    requires
        pos <= tokens@.len(),
    ensures
        pos <= r.1 <= tokens@.len(),
        all_sorted(loadouts_names(r.0@)),
        (sets_of(loadouts_names(r.0@)), r.1 as int) == p_and(tokens_view(tokens@), pos as int, vars@),
    decreases tokens@.len() - pos, 1int,
{
    let ghost ts = tokens_view(tokens@);
    let (mut loadouts, mut p) = parse_factor(tokens, pos, vars);
    let ghost target = p_and(ts, pos as int, vars@);
    assert(and_rest(ts, p as int, vars@, sets_of(loadouts_names(loadouts@))) == target);
    while is_and_at(tokens, p)
        invariant
            pos <= p <= tokens@.len(),
            ts == tokens_view(tokens@),
            all_sorted(loadouts_names(loadouts@)),
            and_rest(ts, p as int, vars@, sets_of(loadouts_names(loadouts@))) == target,
        decreases tokens@.len() - p,
    {
        assert(ts[p as int] == tokens@[p as int]@);
        let n: usize = tokens.len();
        assert(p < n);
        let (rhs, next) = parse_factor(tokens, p + 1, vars);
        loadouts = cross_union_loadouts(&loadouts, &rhs);
        p = next;
    }
    assert(!(p < tokens@.len() && ts[p as int] is And)) by {
        if p < tokens@.len() {
            assert(ts[p as int] == tokens@[p as int]@);
        }
    }
    (loadouts, p)
}

/// Parses an identifier or a parenthesised expression from `pos`.
fn parse_factor(tokens: &Vec<MatrixToken>, pos: usize, vars: &Vec<(String, MatrixVar)>) -> (r: (Vec<Vec<String>>, usize))
    requires
        pos <= tokens@.len(),
    ensures
        pos <= r.1 <= tokens@.len(),
        all_sorted(loadouts_names(r.0@)),
        (sets_of(loadouts_names(r.0@)), r.1 as int) == p_factor(tokens_view(tokens@), pos as int, vars@),
    decreases tokens@.len() - pos, 0int,
{
    let ghost ts = tokens_view(tokens@);
    if pos >= tokens.len() {
        let empty: Vec<Vec<String>> = Vec::new();
        assert(sets_of(loadouts_names(empty@)) =~= Seq::<Set<Seq<char>>>::empty());
        return (empty, pos);
    }
    assert(ts[pos as int] == tokens@[pos as int]@);
    match &tokens[pos] {
        MatrixToken::Ident(id) => {
            let name = resolve(vars, id);
            let mut loadout: Vec<String> = Vec::new();
            loadout.push(name);
            let mut out: Vec<Vec<String>> = Vec::new();
            out.push(loadout);
            proof {
                assert(names_view(loadout@) =~= seq![name@]);
                assert(seq![name@].to_set() =~= Set::empty().insert(name@)) by {
                    assert(seq![name@].contains(name@) || seq![name@][0] == name@);
                }
                assert(loadouts_names(out@) =~= seq![names_view(loadout@)]);
                assert(sets_of(loadouts_names(out@)) =~= seq![Set::empty().insert(resolve_alias(vars@, id@))]);
            }
            (out, pos + 1)
        },
        MatrixToken::Open => {
            let (inner, p) = parse_or(tokens, pos + 1, vars);
            if is_close_at(tokens, p) {
                assert(ts[p as int] == tokens@[p as int]@);
                (inner, p + 1)
            } else {
                assert(!(p < tokens@.len() && ts[p as int] is Close)) by {
                    if p < tokens@.len() {
                        assert(ts[p as int] == tokens@[p as int]@);
                    }
                }
                (inner, p)
            }
        },
        _ => {
            let empty: Vec<Vec<String>> = Vec::new();
            assert(sets_of(loadouts_names(empty@)) =~= Seq::<Set<Seq<char>>>::empty());
            (empty, pos)
        },
    }
}

} // verus!

verus! {

/// The loadouts that a colocation set admits under `vars`: one per `|`
/// alternative of its expression, with repeats dropped. A malformed
/// expression admits none.
pub open spec fn set_loadouts(set: ColocationSet, vars: Seq<(String, MatrixVar)>) -> Seq<Set<Seq<char>>> {
    dedup(p_or(spec_tokenize(set.models@), 0, vars).0)
}

/// The loadouts of each declared set, set by set.
pub open spec fn loadouts_per_set(m: LlamaSwapMatrixConfig) -> Seq<Seq<Set<Seq<char>>>> {
    m.sets@.map_values(|s: ColocationSet| set_loadouts(s, m.vars@))
}

/// The loadouts of all sets, in order of declaration.
pub open spec fn all_loadouts(groups: Seq<Seq<Set<Seq<char>>>>) -> Seq<Set<Seq<char>>>
    decreases groups.len(),
{
    if groups.len() == 0 {
        Seq::empty()
    } else {
        all_loadouts(groups.drop_last()) + groups.last()
    }
}

/// Whether some loadout of some declared set holds both `a` and `b`.
pub open spec fn matrix_can_colocate(m: LlamaSwapMatrixConfig, a: Seq<char>, b: Seq<char>) -> bool {
    exists|i: int, k: int|
        0 <= i < loadouts_per_set(m).len() && 0 <= k < loadouts_per_set(m)[i].len()
            && (#[trigger] loadouts_per_set(m)[i][k]).contains(a) && loadouts_per_set(m)[i][k].contains(b)
}

/// The model ids of each loadout in a list.
pub open spec fn ids_loadouts(v: Seq<Vec<ModelId>>) -> Seq<Seq<Seq<char>>> {
    v.map_values(|l: Vec<ModelId>| model_ids_view(l@))
}

/// Whether the loadout holds the name `x`.
fn holds_name(v: &Vec<String>, x: &str) -> (r: bool)
    ensures
        r == loadout_set(v@).contains(x@),
{
    let mut i: usize = 0;
    while i < v.len()
        invariant
            0 <= i <= v@.len(),
            forall|j: int| 0 <= j < i ==> (#[trigger] names_view(v@)[j]) != x@,
        decreases v@.len() - i,
    {
        if str_eq(v[i].as_str(), x) {
            assert(names_view(v@)[i as int] == x@);
            return true;
        }
        i = i + 1;
    }
    false
}

/// The model ids of a loadout.
fn to_model_ids(v: &Vec<String>) -> (r: Vec<ModelId>)
    ensures
        model_ids_view(r@) == names_view(v@),
{
    let mut out: Vec<ModelId> = Vec::new();
    let mut i: usize = 0;
    while i < v.len()
        invariant
            0 <= i <= v@.len(),
            model_ids_view(out@) == names_view(v@).take(i as int),
        decreases v@.len() - i,
    {
        let id = ModelId(v[i].clone());
        proof {
            assert(model_ids_view(out@.push(id)) =~= model_ids_view(out@).push(id@));
            assert(names_view(v@).take(i as int + 1) =~= names_view(v@).take(i as int).push(v@[i as int]@));
        }
        out.push(id);
        i = i + 1;
    }
    assert(names_view(v@).take(v@.len() as int) =~= names_view(v@));
    out
}

impl ColocationSet {
    /// The loadouts this set admits, each sorted and free of repeats, with
    /// aliases in `vars` expanded.
    fn loadouts_with_vars(&self, vars: &Vec<(String, MatrixVar)>) -> (r: Vec<Vec<String>>)
        ensures
            all_sorted(loadouts_names(r@)),
            sets_of(loadouts_names(r@)) == set_loadouts(*self, vars@),
    {
        let tokens = tokenize_colocation_expr(self.models.as_str());
        let (loadouts, _end) = parse_or(&tokens, 0, vars);
        dedup_loadouts(&loadouts)
    }
}

impl LlamaSwapMatrixConfig {
    /// Whether `a` and `b` may be GPU-resident at the same time: some set
    /// admits a loadout holding both. Models joined only by `|` are
    /// alternatives and do not colocate on that account; aliases in `vars`
    /// are expanded.
    pub fn can_colocate(&self, a: &ModelId, b: &ModelId) -> (r: bool)
        ensures
            r == matrix_can_colocate(*self, a@, b@),
    {
        let ghost g = loadouts_per_set(*self);
        let mut i: usize = 0;
        while i < self.sets.len()
            invariant
                0 <= i <= self.sets@.len(),
                g == loadouts_per_set(*self),
                forall|p: int, k: int| 0 <= p < i && 0 <= k < g[p].len()
                    ==> !((#[trigger] g[p][k]).contains(a@) && g[p][k].contains(b@)),
            decreases self.sets@.len() - i,
        {
            let ls = self.sets[i].loadouts_with_vars(&self.vars);
            assert(g[i as int] == set_loadouts(self.sets@[i as int], self.vars@));
            let mut j: usize = 0;
            while j < ls.len()
                invariant
                    0 <= i < self.sets@.len(),
                    0 <= j <= ls@.len(),
                    g == loadouts_per_set(*self),
                    sets_of(loadouts_names(ls@)) == g[i as int],
                    forall|p: int, k: int| 0 <= p < i && 0 <= k < g[p].len()
                        ==> !((#[trigger] g[p][k]).contains(a@) && g[p][k].contains(b@)),
                    forall|k: int| 0 <= k < j ==> !((#[trigger] g[i as int][k]).contains(a@) && g[i as int][k].contains(b@)),
                decreases ls@.len() - j,
            {
                assert(g[i as int][j as int] == loadout_set(ls@[j as int]@));
                if holds_name(&ls[j], a.as_str()) && holds_name(&ls[j], b.as_str()) {
                    assert(g[i as int][j as int].contains(a@) && g[i as int][j as int].contains(b@));
                    return true;
                }
                j = j + 1;
            }
            i = i + 1;
        }
        false
    }

    /// The matrix in the runtime-agnostic form the scheduling policy reads:
    /// every loadout of every set, in order, each as model ids sorted without
    /// repeats.
    pub fn colocation_constraints(&self) -> (r: ColocationConstraints)
        ensures
            all_sorted(loadouts_view(r)),
            sets_of(loadouts_view(r)) == all_loadouts(loadouts_per_set(*self)),
    {
        let ghost g = loadouts_per_set(*self);
        let mut out: Vec<Vec<ModelId>> = Vec::new();
        let mut i: usize = 0;
        while i < self.sets.len()
            invariant
                0 <= i <= self.sets@.len(),
                g == loadouts_per_set(*self),
                all_sorted(ids_loadouts(out@)),
                sets_of(ids_loadouts(out@)) == all_loadouts(g.take(i as int)),
            decreases self.sets@.len() - i,
        {
            let ls = self.sets[i].loadouts_with_vars(&self.vars);
            let ghost before = sets_of(ids_loadouts(out@));
            let mut j: usize = 0;
            while j < ls.len()
                invariant
                    0 <= i < self.sets@.len(),
                    0 <= j <= ls@.len(),
                    all_sorted(loadouts_names(ls@)),
                    all_sorted(ids_loadouts(out@)),
                    sets_of(ids_loadouts(out@)) == before + sets_of(loadouts_names(ls@)).take(j as int),
                decreases ls@.len() - j,
            {
                let ids = to_model_ids(&ls[j]);
                proof {
                    assert(strictly_sorted(loadouts_names(ls@)[j as int]));
                    let nv = ids_loadouts(out@);
                    assert(ids_loadouts(out@.push(ids)) =~= nv.push(model_ids_view(ids@)));
                    assert(sets_of(nv.push(model_ids_view(ids@))) =~= sets_of(nv).push(model_ids_view(ids@).to_set()));
                    assert(sets_of(loadouts_names(ls@)).take(j as int + 1)
                        =~= sets_of(loadouts_names(ls@)).take(j as int).push(loadout_set(ls@[j as int]@)));
                }
                out.push(ids);
                j = j + 1;
            }
            proof {
                assert(g.take(i as int + 1).drop_last() =~= g.take(i as int));
                assert(sets_of(loadouts_names(ls@)).take(ls@.len() as int) =~= sets_of(loadouts_names(ls@)));
            }
            i = i + 1;
        }
        proof {
            assert(g.take(g.len() as int) =~= g);
        }
        ColocationConstraints { loadouts: out }
    }
}

/// A property holds of some loadout in the concatenated list exactly when it
/// holds of some loadout of some set.
proof fn lemma_all_loadouts_pair(g: Seq<Seq<Set<Seq<char>>>>, a: Seq<char>, b: Seq<char>)
    ensures
        (exists|m: int| 0 <= m < all_loadouts(g).len() && (#[trigger] all_loadouts(g)[m]).contains(a) && all_loadouts(g)[m].contains(b))
            <==> (exists|i: int, k: int| 0 <= i < g.len() && 0 <= k < g[i].len() && (#[trigger] g[i][k]).contains(a) && g[i][k].contains(b)),
    decreases g.len(),
{
    if g.len() > 0 {
        let h = g.drop_last();
        lemma_all_loadouts_pair(h, a, b);
        let all = all_loadouts(g);
        let ah = all_loadouts(h);
        assert(all == ah + g.last());
        if exists|m: int| 0 <= m < all.len() && (#[trigger] all[m]).contains(a) && all[m].contains(b) {
            let m = choose|m: int| 0 <= m < all.len() && (#[trigger] all[m]).contains(a) && all[m].contains(b);
            if m < ah.len() {
                assert(ah[m] == all[m]);
                let (i, k) = choose|i: int, k: int| 0 <= i < h.len() && 0 <= k < h[i].len() && (#[trigger] h[i][k]).contains(a) && h[i][k].contains(b);
                assert(g[i] == h[i]);
                assert(g[i][k].contains(a));
            } else {
                let k = m - ah.len();
                assert(g[g.len() - 1][k] == all[m]);
            }
        }
        if exists|i: int, k: int| 0 <= i < g.len() && 0 <= k < g[i].len() && (#[trigger] g[i][k]).contains(a) && g[i][k].contains(b) {
            let (i, k) = choose|i: int, k: int| 0 <= i < g.len() && 0 <= k < g[i].len() && (#[trigger] g[i][k]).contains(a) && g[i][k].contains(b);
            if i < h.len() {
                assert(h[i] == g[i]);
                assert(h[i][k].contains(a));
                let m = choose|m: int| 0 <= m < ah.len() && (#[trigger] ah[m]).contains(a) && ah[m].contains(b);
                assert(all[m] == ah[m]);
            } else {
                assert(all[ah.len() + k] == g[i][k]);
            }
        }
    }
}

/// The lowered constraints answer every colocation question as the matrix
/// itself does: a loadout list carrying the matrix's loadouts admits `a` with
/// `b` exactly when the matrix does.
pub proof fn law_constraints_agree_with_matrix(m: LlamaSwapMatrixConfig, n: Seq<Seq<Seq<char>>>, a: Seq<char>, b: Seq<char>)
    requires
        sets_of(n) == all_loadouts(loadouts_per_set(m)),
    ensures
        spec_can_colocate(n, a, b) == matrix_can_colocate(m, a, b),
{
    let g = loadouts_per_set(m);
    lemma_all_loadouts_pair(g, a, b);
    let all = all_loadouts(g);
    if spec_can_colocate(n, a, b) {
        let i = choose|i: int| 0 <= i < n.len() && #[trigger] n[i].contains(a) && n[i].contains(b);
        assert(all[i] == n[i].to_set());
        assert(all[i].contains(a) && all[i].contains(b));
    }
    if exists|q: int| 0 <= q < all.len() && (#[trigger] all[q]).contains(a) && all[q].contains(b) {
        let q = choose|q: int| 0 <= q < all.len() && (#[trigger] all[q]).contains(a) && all[q].contains(b);
        assert(all[q] == n[q].to_set());
        assert(n[q].contains(a) && n[q].contains(b));
    }
}

/// Colocation is symmetric: `a` may sit with `b` exactly when `b` may sit
/// with `a`.
pub proof fn law_colocation_is_symmetric(m: LlamaSwapMatrixConfig, a: Seq<char>, b: Seq<char>)
    ensures
        matrix_can_colocate(m, a, b) == matrix_can_colocate(m, b, a),
{
}

/// Each lowered loadout lists its models sorted and without repeats.
pub proof fn law_lowered_loadouts_are_sorted(m: LlamaSwapMatrixConfig, c: ColocationConstraints)
    requires
        all_sorted(loadouts_view(c)),
        sets_of(loadouts_view(c)) == all_loadouts(loadouts_per_set(m)),
    ensures
        forall|i: int| 0 <= i < loadouts_view(c).len() ==>
            (#[trigger] loadouts_view(c)[i]).no_duplicates() && loadouts_view(c)[i].to_set() == all_loadouts(loadouts_per_set(m))[i],
{
    assert forall|i: int| 0 <= i < loadouts_view(c).len() implies
        (#[trigger] loadouts_view(c)[i]).no_duplicates() && loadouts_view(c)[i].to_set() == all_loadouts(loadouts_per_set(m))[i] by {
        let l = loadouts_view(c)[i];
        assert(strictly_sorted(l));
        assert forall|p: int, q: int| 0 <= p < l.len() && 0 <= q < l.len() && p != q implies l[p] != l[q] by {
            if p < q {
                lemma_lex_lt_trichotomy(l[p], l[q]);
            } else {
                lemma_lex_lt_trichotomy(l[q], l[p]);
            }
        }
        assert(sets_of(loadouts_view(c))[i] == l.to_set());
    }
}

/// Whether the loadout `l` holds some model.
pub open spec fn has_member(l: Set<Seq<char>>) -> bool {
    exists|x: Seq<char>| l.contains(x)
}

/// Whether every loadout of `s` holds at least one model.
pub open spec fn all_nonempty(s: Seq<Set<Seq<char>>>) -> bool {
    forall|i: int| 0 <= i < s.len() ==> has_member(#[trigger] s[i])
}

proof fn lemma_nonempty_add(a: Seq<Set<Seq<char>>>, b: Seq<Set<Seq<char>>>)
    requires
        all_nonempty(a),
        all_nonempty(b),
    ensures
        all_nonempty(a + b),
{
    assert forall|i: int| 0 <= i < (a + b).len() implies has_member((a + b)[i]) by {
        if i < a.len() {
            assert((a + b)[i] == a[i]);
        } else {
            assert((a + b)[i] == b[i - a.len()]);
        }
    }
}

proof fn lemma_cross_nonempty(l: Seq<Set<Seq<char>>>, r: Seq<Set<Seq<char>>>)
    requires
        all_nonempty(l),
    ensures
        all_nonempty(cross(l, r)),
    decreases l.len(),
{
    if l.len() > 0 {
        assert(all_nonempty(l.drop_last())) by {
            assert forall|i: int| 0 <= i < l.drop_last().len() implies has_member(l.drop_last()[i]) by {
                assert(l.drop_last()[i] == l[i]);
            }
        }
        lemma_cross_nonempty(l.drop_last(), r);
        let last = l.last();
        assert(l[l.len() - 1] == last);
        assert(has_member(last));
        let w = choose|x: Seq<char>| last.contains(x);
        let m = r.map_values(|s: Set<Seq<char>>| last.union(s));
        assert forall|i: int| 0 <= i < m.len() implies has_member(#[trigger] m[i]) by {
            assert(m[i].contains(w));
        }
        lemma_nonempty_add(cross(l.drop_last(), r), m);
    }
}

proof fn lemma_factor_nonempty(ts: Seq<TokenView>, pos: int, vars: Seq<(String, MatrixVar)>)
    ensures
        all_nonempty(p_factor(ts, pos, vars).0),
    decreases ts.len() - pos, 0int,
{
    if 0 <= pos < ts.len() {
        match ts[pos] {
            TokenView::Ident(id) => {
                let a = resolve_alias(vars, id);
                let l = seq![Set::<Seq<char>>::empty().insert(a)];
                assert(l[0].contains(a));
                assert(has_member(l[0]));
            },
            TokenView::Open => {
                lemma_or_nonempty(ts, pos + 1, vars);
            },
            _ => {},
        }
    }
}

proof fn lemma_and_rest_nonempty(ts: Seq<TokenView>, pos: int, vars: Seq<(String, MatrixVar)>, acc: Seq<Set<Seq<char>>>)
    requires
        all_nonempty(acc),
    ensures
        all_nonempty(and_rest(ts, pos, vars, acc).0),
    decreases ts.len() - pos, 0int,
{
    if 0 <= pos < ts.len() && ts[pos] is And {
        let next = p_factor(ts, pos + 1, vars);
        lemma_factor_nonempty(ts, pos + 1, vars);
        if acc.len() > 0 && next.0.len() > 0 {
            lemma_cross_nonempty(acc, next.0);
        }
        let joined = cross_union(acc, next.0);
        if pos < next.1 <= ts.len() {
            lemma_and_rest_nonempty(ts, next.1, vars, joined);
        }
    }
}

proof fn lemma_and_nonempty(ts: Seq<TokenView>, pos: int, vars: Seq<(String, MatrixVar)>)
    ensures
        all_nonempty(p_and(ts, pos, vars).0),
    decreases ts.len() - pos, 1int,
{
    lemma_factor_nonempty(ts, pos, vars);
    let first = p_factor(ts, pos, vars);
    if pos <= first.1 <= ts.len() {
        lemma_and_rest_nonempty(ts, first.1, vars, first.0);
    }
}

proof fn lemma_or_rest_nonempty(ts: Seq<TokenView>, pos: int, vars: Seq<(String, MatrixVar)>, acc: Seq<Set<Seq<char>>>)
    requires
        all_nonempty(acc),
    ensures
        all_nonempty(or_rest(ts, pos, vars, acc).0),
    decreases ts.len() - pos, 1int,
{
    if 0 <= pos < ts.len() && ts[pos] is Or {
        let next = p_and(ts, pos + 1, vars);
        lemma_and_nonempty(ts, pos + 1, vars);
        lemma_nonempty_add(acc, next.0);
        if pos < next.1 <= ts.len() {
            lemma_or_rest_nonempty(ts, next.1, vars, acc + next.0);
        }
    }
}

proof fn lemma_or_nonempty(ts: Seq<TokenView>, pos: int, vars: Seq<(String, MatrixVar)>)
    ensures
        all_nonempty(p_or(ts, pos, vars).0),
    decreases ts.len() - pos, 2int,
{
    lemma_and_nonempty(ts, pos, vars);
    let first = p_and(ts, pos, vars);
    if pos <= first.1 <= ts.len() {
        lemma_or_rest_nonempty(ts, first.1, vars, first.0);
    }
}

proof fn lemma_dedup_nonempty(s: Seq<Set<Seq<char>>>)
    requires
        all_nonempty(s),
    ensures
        all_nonempty(dedup(s)),
    decreases s.len(),
{
    if s.len() > 0 {
        assert(all_nonempty(s.drop_last())) by {
            assert forall|i: int| 0 <= i < s.drop_last().len() implies has_member(s.drop_last()[i]) by {
                assert(s.drop_last()[i] == s[i]);
            }
        }
        lemma_dedup_nonempty(s.drop_last());
        let d = dedup(s.drop_last());
        if !d.contains(s.last()) {
            let sl = s.last();
            assert(s[s.len() - 1] == sl);
            assert(has_member(sl));
            assert(all_nonempty(seq![sl])) by {
                assert forall|i: int| 0 <= i < seq![sl].len() implies has_member(#[trigger] seq![sl][i]) by {
                    assert(seq![sl][i] == sl);
                }
            }
            lemma_nonempty_add(d, seq![s.last()]);
            assert(d.push(s.last()) =~= d + seq![s.last()]);
        }
    }
}

proof fn lemma_all_loadouts_nonempty(g: Seq<Seq<Set<Seq<char>>>>)
    requires
        forall|i: int| 0 <= i < g.len() ==> all_nonempty(#[trigger] g[i]),
    ensures
        all_nonempty(all_loadouts(g)),
    decreases g.len(),
{
    if g.len() > 0 {
        lemma_all_loadouts_nonempty(g.drop_last());
        assert(all_nonempty(g[g.len() - 1]));
        lemma_nonempty_add(all_loadouts(g.drop_last()), g.last());
    }
}

/// Every lowered loadout names at least one model: an identifier always
/// yields its model, `&` joins loadouts and `|` keeps them.
pub proof fn law_lowered_loadouts_are_nonempty(m: LlamaSwapMatrixConfig, c: ColocationConstraints)
    requires
        sets_of(loadouts_view(c)) == all_loadouts(loadouts_per_set(m)),
    ensures
        forall|i: int| 0 <= i < loadouts_view(c).len() ==> (#[trigger] loadouts_view(c)[i]).len() > 0,
{
    let g = loadouts_per_set(m);
    assert forall|i: int| 0 <= i < g.len() implies all_nonempty(#[trigger] g[i]) by {
        let set = m.sets@[i];
        lemma_or_nonempty(spec_tokenize(set.models@), 0, m.vars@);
        lemma_dedup_nonempty(p_or(spec_tokenize(set.models@), 0, m.vars@).0);
    }
    lemma_all_loadouts_nonempty(g);
    let all = all_loadouts(g);
    assert forall|i: int| 0 <= i < loadouts_view(c).len() implies (#[trigger] loadouts_view(c)[i]).len() > 0 by {
        let l = loadouts_view(c)[i];
        assert(sets_of(loadouts_view(c))[i] == l.to_set());
        let ai = all[i];
        assert(has_member(ai));
        let x = choose|x: Seq<char>| ai.contains(x);
        assert(l.to_set().contains(x));
        if l.len() == 0 {
            assert(l.to_set() =~= Set::<Seq<char>>::empty());
        }
    }
}

} // verus!
