//! llama-swap's Prometheus `/metrics` text, read into the memory figures the
//! scheduling policy reasons about.
//!
//! Every sample line is parsed and filed by metric and device; then each
//! total/used pair is decided on the whole scrape. A pair is all or nothing:
//! a device that reports one half without the other, a duplicated sample,
//! or a sum past `u64::MAX` leaves both figures of the pair unknown. The RAM
//! and VRAM pairs are decided independently.

use vstd::prelude::*;
use crate::types::RuntimeMemorySnapshot;
use crate::text::{is_whitespace, char_is_whitespace, is_digit, char_is_digit, digits_value, digit_value, chars_of, str_eq, parse_digits, all_digits};
use crate::runtime::events::{text_lines, text_lines_exec, strip_cr, index_of_from, lemma_index_of_from, lemma_index_of_skip};
use crate::runtime::util::bytes_to_mb;
use crate::runtime::decimal::{
    pow10, pow2, lval, nearest_whole, nearest_whole_exec, le_digits, ten_to, lemma_digits_zero,
    lemma_digits_nonzero, lemma_digits_bound, lemma_nearest_huge, lemma_nearest_tiny, lemma_pow10_pos, lemma_pow2_63,
};
use crate::policy::profile_utils::{digit_run_end, lemma_digit_run_end};
use crate::text::lemma_digits_value_monotone;

verus! {

// ---------------------------------------------------------------------------
// Trimming.

/// The first index at or after `i` that is not whitespace (or the length).
pub open spec fn ws_run_end(s: Seq<char>, i: int) -> int
    decreases s.len() - i,
{
    if 0 <= i < s.len() && is_whitespace(s[i]) { ws_run_end(s, i + 1) } else { i }
}

/// The start of the run of whitespace that ends at `j`.
pub open spec fn ws_trail_start(s: Seq<char>, j: int) -> int
    decreases j,
{
    if 0 < j <= s.len() && is_whitespace(s[j - 1]) { ws_trail_start(s, j - 1) } else { j }
}

/// `s` without leading whitespace.
pub open spec fn trim_start(s: Seq<char>) -> Seq<char> {
    s.skip(ws_run_end(s, 0))
}

/// `s` without trailing whitespace.
pub open spec fn trim_end(s: Seq<char>) -> Seq<char> {
    s.take(ws_trail_start(s, s.len() as int))
}

/// `s` without leading or trailing whitespace.
pub open spec fn trim(s: Seq<char>) -> Seq<char> {
    trim_end(trim_start(s))
}

proof fn lemma_ws_run_end(s: Seq<char>, i: int)
    requires
        0 <= i <= s.len(),
    ensures
        i <= ws_run_end(s, i) <= s.len(),
        forall|k: int| i <= k < ws_run_end(s, i) ==> is_whitespace(#[trigger] s[k]),
        ws_run_end(s, i) < s.len() ==> !is_whitespace(s[ws_run_end(s, i)]),
    decreases s.len() - i,
{
    if i < s.len() && is_whitespace(s[i]) {
        lemma_ws_run_end(s, i + 1);
    }
}

proof fn lemma_ws_run_end_skip(s: Seq<char>, i: int, j: int)
    requires
        0 <= i <= j <= s.len(),
        forall|k: int| i <= k < j ==> is_whitespace(#[trigger] s[k]),
    ensures
        ws_run_end(s, i) == ws_run_end(s, j),
    decreases j - i,
{
    if i < j {
        lemma_ws_run_end_skip(s, i + 1, j);
    }
}

proof fn lemma_ws_trail_start_skip(s: Seq<char>, j: int, i: int)
    requires
        0 <= i <= j <= s.len(),
        forall|k: int| i <= k < j ==> is_whitespace(#[trigger] s[k]),
    ensures
        ws_trail_start(s, j) == ws_trail_start(s, i),
    decreases j - i,
{
    if i < j {
        lemma_ws_trail_start_skip(s, j - 1, i);
    }
}

/// The characters `v[from..to]`.
fn copy_range(v: &Vec<char>, from: usize, to: usize) -> (r: Vec<char>)
    requires
        from <= to <= v@.len(),
    ensures
        r@ == v@.subrange(from as int, to as int),
{
    let mut out: Vec<char> = Vec::new();
    let mut i: usize = from;
    while i < to
        invariant
            from <= i <= to <= v@.len(),
            out@ == v@.subrange(from as int, i as int),
        decreases to - i,
    {
        out.push(v[i]);
        assert(out@ =~= v@.subrange(from as int, i as int + 1));
        i = i + 1;
    }
    out
}

/// `v` without leading whitespace.
fn trim_start_vec(v: &Vec<char>) -> (r: Vec<char>)
    ensures
        r@ == trim_start(v@),
        r@.len() <= v@.len(),
{
    let mut i: usize = 0;
    while i < v.len() && char_is_whitespace(v[i])
        invariant
            0 <= i <= v@.len(),
            forall|k: int| 0 <= k < i ==> is_whitespace(#[trigger] v@[k]),
        decreases v@.len() - i,
    {
        i = i + 1;
    }
    proof {
        lemma_ws_run_end_skip(v@, 0, i as int);
    }
    let r = copy_range(v, i, v.len());
    assert(r@ =~= v@.skip(i as int));
    r
}

/// `v` without leading or trailing whitespace.
fn trim_vec(v: &Vec<char>) -> (r: Vec<char>)
    ensures
        r@ == trim(v@),
        r@.len() <= v@.len(),
{
    let t = trim_start_vec(v);
    let mut j: usize = t.len();
    while j > 0 && char_is_whitespace(t[j - 1])
        invariant
            0 <= j <= t@.len(),
            forall|k: int| j <= k < t@.len() ==> is_whitespace(#[trigger] t@[k]),
        decreases j,
    {
        j = j - 1;
    }
    proof {
        lemma_ws_trail_start_skip(t@, t@.len() as int, j as int);
    }
    let r = copy_range(&t, 0, j);
    assert(r@ =~= t@.take(j as int));
    r
}

// ---------------------------------------------------------------------------
// Labels.

/// The pieces of `s` between occurrences of `c`, as `str::split` yields them.
pub open spec fn split_on(s: Seq<char>, c: char) -> Seq<Seq<char>>
    decreases s.len(),
{
    match index_of_from(s, c, 0) {
        Some(i) => if 0 <= i < s.len() { seq![s.take(i)] + split_on(s.skip(i + 1), c) } else { seq![s] },
        None => seq![s],
    }
}

/// The value of label `key` in one `key="value"` piece: `None` when the
/// piece is not about `key` (no `=`, or another key); `Some(None)` when it is
/// but the value is not a non-empty double-quoted text; `Some(Some(v))` with
/// the text between the quotes otherwise.
pub open spec fn label_in_piece(piece: Seq<char>, key: Seq<char>) -> Option<Option<Seq<char>>> {
    let p = trim(piece);
    match index_of_from(p, '=', 0) {
        None => None,
        Some(e) => if trim(p.take(e)) != key {
            None
        } else {
            let q = trim(p.skip(e + 1));
            if q.len() > 2 && q[0] == '"' && q.last() == '"' {
                Some(Some(q.subrange(1, q.len() - 1)))
            } else {
                Some(None)
            }
        },
    }
}

/// The value of label `key` in the pieces of a label block: decided by the
/// first piece about `key`; none when no piece is.
pub open spec fn label_in_pieces(pieces: Seq<Seq<char>>, key: Seq<char>) -> Option<Seq<char>>
    decreases pieces.len(),
{
    if pieces.len() == 0 {
        None
    } else {
        match label_in_piece(pieces[0], key) {
            Some(v) => v,
            None => label_in_pieces(pieces.drop_first(), key),
        }
    }
}

/// The value of label `key` in a Prometheus label block (the text between
/// the braces): labels are `key="value"` pieces separated by commas; no
/// unescaping is attempted, and an empty or unquoted value is no value.
pub open spec fn label_value(block: Seq<char>, key: Seq<char>) -> Option<Seq<char>> {
    label_in_pieces(split_on(block, ','), key)
}

fn find_char(v: &Vec<char>, c: char, from: usize) -> (r: usize)
    requires
        from <= v@.len(),
    ensures
        from <= r <= v@.len(),
        forall|k: int| from <= k < r ==> (#[trigger] v@[k]) != c,
        r < v@.len() ==> v@[r as int] == c,
        index_of_from(v@, c, from as int) == (if r < v@.len() { Some(r as int) } else { None::<int> }),
{
    let mut i: usize = from;
    while i < v.len() && v[i] != c
        invariant
            from <= i <= v@.len(),
            forall|k: int| from <= k < i ==> (#[trigger] v@[k]) != c,
        decreases v@.len() - i,
    {
        i = i + 1;
    }
    proof {
        lemma_index_of_from(v@, c, from as int, i as int);
    }
    i
}

fn piece_label(piece: &Vec<char>, key: &Vec<char>) -> (r: Option<Option<Vec<char>>>)
    ensures
        label_in_piece(piece@, key@) == match r {
            Some(Some(v)) => Some(Some(v@)),
            Some(None) => Some(None::<Seq<char>>),
            None => None::<Option<Seq<char>>>,
        },
{
    let p = trim_vec(piece);
    let e = find_char(&p, '=', 0);
    if e == p.len() {
        return None;
    }
    let k0 = copy_range(&p, 0, e);
    let k = trim_vec(&k0);
    assert(k0@ =~= p@.take(e as int));
    let mut same = k.len() == key.len();
    let mut i: usize = 0;
    while same && i < k.len()
        invariant
            0 <= i <= k@.len(),
            same ==> k@.len() == key@.len() && forall|m: int| 0 <= m < i ==> k@[m] == key@[m],
            !same ==> k@ != key@,
        decreases k@.len() - i,
    {
        if k[i] != key[i] {
            same = false;
        }
        i = i + 1;
    }
    if same {
        assert(k@ =~= key@);
    }
    if !same {
        return None;
    }
    let q0 = copy_range(&p, e + 1, p.len());
    assert(q0@ =~= p@.skip(e + 1));
    let q = trim_vec(&q0);
    if q.len() > 2 && q[0] == '"' && q[q.len() - 1] == '"' {
        Some(Some(copy_range(&q, 1, q.len() - 1)))
    } else {
        Some(None)
    }
}

fn find_label(block: &Vec<char>, key: &Vec<char>) -> (r: Option<Vec<char>>)
    ensures
        label_value(block@, key@) == match r { Some(v) => Some(v@), None => None::<Seq<char>> },
{
    let mut start: usize = 0;
    assert(block@.skip(0) =~= block@);
    loop
        invariant
            0 <= start <= block@.len(),
            label_value(block@, key@) == label_in_pieces(split_on(block@.skip(start as int), ','), key@),
        decreases block@.len() - start,
    {
        let j = find_char(block, ',', start);
        let ghost s = block@.skip(start as int);
        proof {
            lemma_index_of_skip(block@, ',', start as int, start as int);
            lemma_index_of_from(block@, ',', start as int, j as int);
        }
        let piece = copy_range(block, start, j);
        assert(piece@ =~= s.take(j - start));
        if j == block.len() {
            assert(s.take(j - start) =~= s);
            assert(index_of_from(s, ',', 0) is None);
            assert(split_on(s, ',') == seq![s]);
            assert(seq![s][0] == s);
            match piece_label(&piece, key) {
                Some(v) => return v,
                None => {
                    assert(seq![s].drop_first() =~= Seq::<Seq<char>>::empty());
                    assert(label_in_pieces(Seq::<Seq<char>>::empty(), key@) is None);
                    assert(label_in_pieces(seq![s], key@) == label_in_pieces(seq![s].drop_first(), key@));
                    return None;
                },
            }
        }
        assert(s.skip(j - start + 1) =~= block@.skip(j + 1));
        assert(split_on(s, ',') == seq![s.take(j - start)] + split_on(s.skip(j - start + 1), ','));
        assert((seq![s.take(j - start)] + split_on(s.skip(j - start + 1), ','))[0] == s.take(j - start));
        assert((seq![s.take(j - start)] + split_on(s.skip(j - start + 1), ',')).drop_first() =~= split_on(s.skip(j - start + 1), ','));
        match piece_label(&piece, key) {
            Some(v) => return v,
            None => {},
        }
        start = j + 1;
    }
}

// ---------------------------------------------------------------------------
// Sample values.

/// The numerator and denominator of the number that the digits `d` denote
/// with the decimal point after the first `point` of them (before them when
/// `point` is not positive, after them and trailing zeros when it exceeds
/// their count).
pub open spec fn scaled(d: Seq<char>, point: int) -> (nat, nat) {
    let s = point - d.len();
    if s >= 0 {
        (digits_value(d) * pow10(s as nat), 1)
    } else {
        (digits_value(d), pow10((-s) as nat))
    }
}

/// The whole number of bytes that the digits `d` (the decimal point after
/// the first `point` of them, negative when `neg`) denote once read to the
/// nearest binary64 value: that value when it is a whole number in
/// `[0, 2^64)`; none otherwise. A negative numeral counts only when it reads
/// as zero.
pub open spec fn whole_value(neg: bool, d: Seq<char>, point: int) -> Option<u64> {
    match nearest_whole(scaled(d, point).0, scaled(d, point).1) {
        Some(x) => if x == 0 { Some(0) } else if neg { None } else { Some(x as u64) },
        None => None,
    }
}

/// The parts of a decimal numeral in the syntax std reads floats from (an
/// optional sign; digits with an optional fraction, at least one digit in
/// all; an optional exponent `e` or `E` with optional sign and digits):
/// whether it is negative, its digits, and where the decimal point falls
/// among them once the exponent is applied.
pub open spec fn numeral(tok: Seq<char>) -> Option<(bool, Seq<char>, int)> {
    let p0: int = if tok.len() > 0 && (tok[0] == '+' || tok[0] == '-') { 1 } else { 0 };
    let neg = tok.len() > 0 && tok[0] == '-';
    let p1 = digit_run_end(tok, p0);
    let int_part = tok.subrange(p0, p1);
    let has_frac = p1 < tok.len() && tok[p1] == '.';
    let p2 = if has_frac { digit_run_end(tok, p1 + 1) } else { p1 };
    let frac = if has_frac { tok.subrange(p1 + 1, p2) } else { Seq::empty() };
    if int_part.len() + frac.len() == 0 {
        None
    } else if p2 == tok.len() {
        Some((neg, int_part + frac, int_part.len() as int))
    } else if tok[p2] == 'e' || tok[p2] == 'E' {
        let q0 = p2 + 1;
        let eneg = q0 < tok.len() && tok[q0] == '-';
        let q1 = if q0 < tok.len() && (tok[q0] == '+' || tok[q0] == '-') { q0 + 1 } else { q0 };
        let q2 = digit_run_end(tok, q1);
        if q2 == q1 || q2 != tok.len() {
            None
        } else {
            let e = digits_value(tok.subrange(q1, q2)) as int;
            Some((neg, int_part + frac, int_part.len() + if eneg { -e } else { e }))
        }
    } else {
        None
    }
}

/// The whole number of bytes a sample value denotes: a decimal numeral
/// (scientific notation included) read to the nearest binary64 value, kept
/// when that value is a whole number in `[0, 2^64)`; none for anything
/// else, `inf` and `nan` included.
pub open spec fn whole_bytes(tok: Seq<char>) -> Option<u64> {
    match numeral(tok) {
        None => None,
        Some((neg, d, point)) => whole_value(neg, d, point),
    }
}

fn digit_run(v: &Vec<char>, i: usize) -> (r: usize)
    requires
        i <= v@.len(),
    ensures
        r as int == digit_run_end(v@, i as int),
        i <= r <= v@.len(),
        forall|k: int| i <= k < r ==> is_digit(#[trigger] v@[k]),
{
    proof { lemma_digit_run_end(v@, i as int); }
    let mut j: usize = i;
    while j < v.len() && char_is_digit(v[j])
        invariant
            i <= j <= v@.len(),
            forall|k: int| i <= k < j ==> is_digit(#[trigger] v@[k]),
            digit_run_end(v@, i as int) == digit_run_end(v@, j as int),
        decreases v@.len() - j,
    {
        j = j + 1;
    }
    j
}

/// The value of the exponent digits `v[from..to]`, saturated just above
/// 2^100: exact when at most 2^100, some value above 2^100 otherwise.
fn exponent_value(v: &Vec<char>, from: usize, to: usize) -> (r: u128)
    requires
        from <= to <= v@.len(),
        all_digits(v@.subrange(from as int, to as int)),
    ensures
        digits_value(v@.subrange(from as int, to as int)) <= 0x10000000000000000000000000 ==> r == digits_value(v@.subrange(from as int, to as int)),
        digits_value(v@.subrange(from as int, to as int)) > 0x10000000000000000000000000 ==> r > 0x10000000000000000000000000,
        r <= 0x10000000000000000000000000 * 10 + 9,
{
    let mut val: u128 = 0;
    let mut i: usize = from;
    while i < to
        invariant
            from <= i <= to <= v@.len(),
            all_digits(v@.subrange(from as int, to as int)),
            val <= 0x10000000000000000000000000 ==> val == digits_value(v@.subrange(from as int, i as int)),
            val > 0x10000000000000000000000000 ==> digits_value(v@.subrange(from as int, i as int)) > 0x10000000000000000000000000,
            val <= 0x10000000000000000000000000 * 10 + 9,
        decreases to - i,
    {
        let c = v[i];
        assert(v@.subrange(from as int, to as int)[i - from] == c);
        proof {
            assert(v@.subrange(from as int, i as int + 1) =~= v@.subrange(from as int, i as int).push(c));
            lemma_digits_value_monotone(v@.subrange(from as int, i as int), c);
        }
        if val <= 0x10000000000000000000000000 {
            let d = (c as u32 - '0' as u32) as u128;
            assert(d == digit_value(c));
            val = val * 10 + d;
        }
        i = i + 1;
    }
    val
}

#[verifier::loop_isolation(false)]
fn whole_from_parts(
    neg: bool,
    d: &Vec<char>,
    int_len: usize,
    eneg: bool,
    e: u128,
    Ghost(exp): Ghost<nat>,
) -> (r: Option<u64>)
    requires
        all_digits(d@),
        int_len <= d@.len(),
        2 * d@.len() + 16384 <= usize::MAX,
        exp <= 0x10000000000000000000000000 ==> e == exp,
        exp > 0x10000000000000000000000000 ==> e > 0x10000000000000000000000000,
        e <= 0x10000000000000000000000000 * 10 + 9,
    ensures
        r == whole_value(neg, d@, int_len + if eneg { -(exp as int) } else { exp as int }),
{
    let ghost point: int = int_len + if eneg { -(exp as int) } else { exp as int };
    let ghost sc = scaled(d@, point);
    let mut nz: usize = d.len();
    let mut i: usize = 0;
    while i < d.len()
        invariant
            0 <= i <= d@.len(),
            nz <= d@.len(),
            nz == d@.len() ==> forall|k: int| 0 <= k < i ==> d@[k] == '0',
            nz < d@.len() ==> d@[nz as int] != '0',
        decreases d@.len() - i,
    {
        if d[i] != '0' {
            nz = i;
        }
        i = i + 1;
    }
    if nz == d.len() {
        proof {
            lemma_digits_zero(d@);
            if point - d@.len() >= 0 {
                assert(0 * pow10((point - d@.len()) as nat) == 0);
            }
            assert(sc.0 == 0);
            assert(0 * pow2(1075) <= sc.1);
        }
        return Some(0);
    }
    proof {
        lemma_digits_nonzero(d@, nz as int);
        lemma_digits_bound(d@);
    }
    let l = d.len();
    if e > 0x10000000000000000000000000 {
        if !eneg {
            proof {
                lemma_nearest_huge(digits_value(d@), (point - d@.len()) as nat);
            }
            return None;
        } else {
            proof {
                lemma_nearest_tiny(digits_value(d@), d@.len(), (d@.len() - point) as nat);
            }
            return Some(0);
        }
    }
    let sx: i128 = if eneg { int_len as i128 - e as i128 - l as i128 } else { int_len as i128 + e as i128 - l as i128 };
    assert(sx == point - d@.len());
    if sx > 20 {
        proof {
            lemma_nearest_huge(digits_value(d@), sx as nat);
        }
        return None;
    }
    if sx < -(l as i128) - 432 {
        proof {
            lemma_nearest_tiny(digits_value(d@), d@.len(), (-sx) as nat);
        }
        return Some(0);
    }
    let nv;
    let mv;
    if sx >= 0 {
        nv = le_digits(d, sx as usize);
        mv = ten_to(0);
        proof { assert(pow10(0) == 1); }
    } else {
        nv = le_digits(d, 0);
        mv = ten_to((-sx) as usize);
        proof {
            assert(pow10(0) == 1);
            assert(digits_value(d@) * pow10(0) == digits_value(d@)) by (nonlinear_arith) requires pow10(0) == 1;
            lemma_pow10_pos((-sx) as nat);
        }
    }
    assert(lval(nv@) == sc.0 && lval(mv@) == sc.1);
    let got = nearest_whole_exec(&nv, &mv);
    proof {
        lemma_pow2_63();
    }
    match got {
        Some(x) => {
            if x == 0 {
                Some(0)
            } else if neg {
                None
            } else {
                Some(x)
            }
        },
        None => None,
    }
}

/// The whole number of bytes a sample value denotes (see [`whole_bytes`]).
#[verifier::rlimit(40)]
#[verifier::spinoff_prover]
pub fn parse_whole_bytes(tok: &Vec<char>) -> (r: Option<u64>)
    requires
        2 * tok@.len() + 16384 <= usize::MAX,
    ensures
        r == whole_bytes(tok@),
{
    let n = tok.len();
    let p0: usize = if n > 0 && (tok[0] == '+' || tok[0] == '-') { 1 } else { 0 };
    let neg = n > 0 && tok[0] == '-';
    let p1 = digit_run(tok, p0);
    let has_frac = p1 < n && tok[p1] == '.';
    let p2 = if has_frac { digit_run(tok, p1 + 1) } else { p1 };
    let int_len = p1 - p0;
    let frac_len = if has_frac { p2 - p1 - 1 } else { 0 };
    if int_len == 0 && frac_len == 0 {
        return None;
    }
    let mut d = copy_range(tok, p0, p1);
    if has_frac {
        let mut f = copy_range(tok, p1 + 1, p2);
        d.append(&mut f);
    }
    let ghost frac = if has_frac { tok@.subrange(p1 + 1, p2 as int) } else { Seq::<char>::empty() };
    assert(d@ =~= tok@.subrange(p0 as int, p1 as int) + frac);
    assert(all_digits(d@)) by {
        assert forall|k: int| 0 <= k < d@.len() implies is_digit(#[trigger] d@[k]) by {
            if k < int_len {
                assert(d@[k] == tok@[p0 + k]);
            } else {
                assert(d@[k] == tok@[p1 + 1 + (k - int_len)]);
            }
        }
    }
    if p2 == n {
        return whole_from_parts(neg, &d, int_len, false, 0, Ghost(0));
    }
    if tok[p2] != 'e' && tok[p2] != 'E' {
        return None;
    }
    let q0 = p2 + 1;
    let eneg = q0 < n && tok[q0] == '-';
    let q1 = if q0 < n && (tok[q0] == '+' || tok[q0] == '-') { q0 + 1 } else { q0 };
    let q2 = digit_run(tok, q1);
    if q2 == q1 || q2 != n {
        return None;
    }
    assert(all_digits(tok@.subrange(q1 as int, q2 as int))) by {
        assert forall|k: int| 0 <= k < tok@.subrange(q1 as int, q2 as int).len() implies is_digit(#[trigger] tok@.subrange(q1 as int, q2 as int)[k]) by {
            assert(tok@.subrange(q1 as int, q2 as int)[k] == tok@[q1 + k]);
        }
    }
    let e = exponent_value(tok, q1, q2);
    whole_from_parts(neg, &d, int_len, eneg, e, Ghost(digits_value(tok@.subrange(q1 as int, q2 as int))))
}

// ---------------------------------------------------------------------------
// Sample lines.

/// Where the metric name that starts at `i` ends: at the first `{` or
/// whitespace, or the end of the line.
pub open spec fn name_end(s: Seq<char>, i: int) -> int
    decreases s.len() - i,
{
    if 0 <= i < s.len() && s[i] != '{' && !is_whitespace(s[i]) { name_end(s, i + 1) } else { i }
}

/// Where the label block that `t` continues ends: the first `}` outside
/// double quotes at or after `i` (with `quoted` telling whether `i` is
/// inside quotes); none when the block is not closed.
pub open spec fn label_end(t: Seq<char>, i: int, quoted: bool) -> Option<int>
    decreases t.len() - i,
{
    if i < 0 || i >= t.len() {
        None
    } else if t[i] == '"' {
        label_end(t, i + 1, !quoted)
    } else if t[i] == '}' && !quoted {
        Some(i)
    } else {
        label_end(t, i + 1, quoted)
    }
}

/// The first index at or after `i` that is whitespace (or the length).
pub open spec fn token_end(s: Seq<char>, i: int) -> int
    decreases s.len() - i,
{
    if 0 <= i < s.len() && !is_whitespace(s[i]) { token_end(s, i + 1) } else { i }
}

/// The first whitespace-separated token of `s`, if any.
pub open spec fn first_token(s: Seq<char>) -> Option<Seq<char>> {
    let a = ws_run_end(s, 0);
    if a >= s.len() { None } else { Some(s.subrange(a, token_end(s, a))) }
}

/// One Prometheus exposition line read as (metric name, whole bytes, device
/// id): the name runs up to the first `{` or whitespace and is not empty; an
/// optional label block in braces follows (quoted values may hold spaces
/// and braces; an unclosed block rejects the line), whose `id` label, when
/// present and non-empty, is the device; the value is the next token, read
/// as whole bytes; a trailing timestamp is ignored. None for any line that
/// is not such a sample.
pub open spec fn spec_sample_line(line: Seq<char>) -> Option<(Seq<char>, u64, Option<Seq<char>>)> {
    let ne = name_end(line, 0);
    if ne == 0 {
        None
    } else {
        let name = line.take(ne);
        let rest = trim_start(line.skip(ne));
        if rest.len() > 0 && rest[0] == '{' {
            let tail = rest.skip(1);
            match label_end(tail, 0, false) {
                None => None,
                Some(e) => {
                    let device = label_value(tail.take(e), "id"@);
                    match first_token(trim_start(tail.skip(e + 1))) {
                        None => None,
                        Some(tok) => match whole_bytes(tok) {
                            None => None,
                            Some(v) => Some((name, v, device)),
                        },
                    }
                },
            }
        } else {
            match first_token(rest) {
                None => None,
                Some(tok) => match whole_bytes(tok) {
                    None => None,
                    Some(v) => Some((name, v, None)),
                },
            }
        }
    }
}

proof fn lemma_name_end(s: Seq<char>, i: int, j: int)
    requires
        0 <= i <= j <= s.len(),
        forall|k: int| i <= k < j ==> s[k] != '{' && !is_whitespace(#[trigger] s[k]),
    ensures
        name_end(s, i) == name_end(s, j),
    decreases j - i,
{
    if i < j {
        lemma_name_end(s, i + 1, j);
    }
}

proof fn lemma_token_end(s: Seq<char>, i: int, j: int)
    requires
        0 <= i <= j <= s.len(),
        forall|k: int| i <= k < j ==> !is_whitespace(#[trigger] s[k]),
    ensures
        token_end(s, i) == token_end(s, j),
    decreases j - i,
{
    if i < j {
        lemma_token_end(s, i + 1, j);
    }
}

fn first_token_vec(s: &Vec<char>) -> (r: Option<Vec<char>>)
    ensures
        first_token(s@) == match r { Some(t) => Some(t@), None => None::<Seq<char>> },
        match r { Some(t) => t@.len() <= s@.len(), None => true },
{
    let mut a: usize = 0;
    while a < s.len() && char_is_whitespace(s[a])
        invariant
            0 <= a <= s@.len(),
            forall|k: int| 0 <= k < a ==> is_whitespace(#[trigger] s@[k]),
        decreases s@.len() - a,
    {
        a = a + 1;
    }
    proof { lemma_ws_run_end_skip(s@, 0, a as int); }
    if a >= s.len() {
        return None;
    }
    let mut b: usize = a;
    while b < s.len() && !char_is_whitespace(s[b])
        invariant
            a <= b <= s@.len(),
            forall|k: int| a <= k < b ==> !is_whitespace(#[trigger] s@[k]),
        decreases s@.len() - b,
    {
        b = b + 1;
    }
    proof { lemma_token_end(s@, a as int, b as int); }
    Some(copy_range(s, a, b))
}

fn label_block_end(t: &Vec<char>) -> (r: Option<usize>)
    ensures
        label_end(t@, 0, false) == match r { Some(e) => Some(e as int), None => None::<int> },
        match r { Some(e) => e < t@.len(), None => true },
{
    let mut quoted = false;
    let mut i: usize = 0;
    while i < t.len()
        invariant
            0 <= i <= t@.len(),
            label_end(t@, 0, false) == label_end(t@, i as int, quoted),
        decreases t@.len() - i,
    {
        if t[i] == '"' {
            quoted = !quoted;
        } else if t[i] == '}' && !quoted {
            return Some(i);
        }
        i = i + 1;
    }
    None
}

/// One exposition line read as a sample (see [`spec_sample_line`]).
pub fn parse_sample_line(line: &Vec<char>) -> (r: Option<(Vec<char>, u64, Option<Vec<char>>)>)
    requires
        2 * line@.len() + 16384 <= usize::MAX,
    ensures
        spec_sample_line(line@) == match r {
            Some((n, v, d)) => Some((n@, v, match d { Some(x) => Some(x@), None => None::<Seq<char>> })),
            None => None::<(Seq<char>, u64, Option<Seq<char>>)>,
        },
{
    let mut ne: usize = 0;
    while ne < line.len() && line[ne] != '{' && !char_is_whitespace(line[ne])
        invariant
            0 <= ne <= line@.len(),
            forall|k: int| 0 <= k < ne ==> line@[k] != '{' && !is_whitespace(#[trigger] line@[k]),
        decreases line@.len() - ne,
    {
        ne = ne + 1;
    }
    proof { lemma_name_end(line@, 0, ne as int); }
    if ne == 0 {
        return None;
    }
    let name = copy_range(line, 0, ne);
    assert(name@ =~= line@.take(ne as int));
    let rest0 = copy_range(line, ne, line.len());
    assert(rest0@ =~= line@.skip(ne as int));
    let rest = trim_start_vec(&rest0);
    if rest.len() > 0 && rest[0] == '{' {
        let tail = copy_range(&rest, 1, rest.len());
        assert(tail@ =~= rest@.skip(1));
        let e = match label_block_end(&tail) {
            None => return None,
            Some(e) => e,
        };
        let block = copy_range(&tail, 0, e);
        assert(block@ =~= tail@.take(e as int));
        let key = chars_of("id");
        let device = find_label(&block, &key);
        let after0 = copy_range(&tail, e + 1, tail.len());
        assert(after0@ =~= tail@.skip(e + 1));
        let after = trim_start_vec(&after0);
        let tok = match first_token_vec(&after) {
            None => return None,
            Some(t) => t,
        };
        match parse_whole_bytes(&tok) {
            None => None,
            Some(v) => Some((name, v, device)),
        }
    } else {
        let tok = match first_token_vec(&rest) {
            None => return None,
            Some(t) => t,
        };
        match parse_whole_bytes(&tok) {
            None => None,
            Some(v) => Some((name, v, None)),
        }
    }
}

// ---------------------------------------------------------------------------
// Samples and pairs.

/// The memory metric a sample reports.
#[derive(Debug, PartialEq, Eq, Structural, Clone, Copy)]
pub enum MemoryMetric {
    RamTotal,
    RamUsed,
    VramTotal,
    VramUsed,
}

/// A sample as (metric, device id, bytes); host-RAM samples have no device.
pub type Sample = (MemoryMetric, Option<Seq<char>>, u64);

/// The sample one line of the scrape files: lines are trimmed; blank and
/// `#` lines, unrelated metrics, unreadable samples and GPU samples without
/// a device id file nothing; host-RAM samples file under no device whatever
/// their labels.
pub open spec fn sample_of(line: Seq<char>) -> Option<Sample> {
    let t = trim(line);
    if t.len() == 0 || t[0] == '#' {
        None
    } else {
        match spec_sample_line(t) {
            None => None,
            Some((name, v, dev)) => if name == "llamaswap_memory_total_bytes"@ {
                Some((MemoryMetric::RamTotal, None, v))
            } else if name == "llamaswap_memory_used_bytes"@ {
                Some((MemoryMetric::RamUsed, None, v))
            } else if name == "llamaswap_gpu_memory_total_bytes"@ {
                match dev { Some(d) => Some((MemoryMetric::VramTotal, Some(d), v)), None => None }
            } else if name == "llamaswap_gpu_memory_used_bytes"@ {
                match dev { Some(d) => Some((MemoryMetric::VramUsed, Some(d), v)), None => None }
            } else {
                None
            },
        }
    }
}

/// The samples of the lines, in order.
pub open spec fn samples_of(lines: Seq<Seq<char>>) -> Seq<Sample>
    decreases lines.len(),
{
    if lines.len() == 0 {
        Seq::empty()
    } else {
        let prev = samples_of(lines.drop_last());
        match sample_of(lines.last()) { Some(x) => prev.push(x), None => prev }
    }
}

/// How many samples report metric `m` for device `d`.
pub open spec fn count_key(s: Seq<Sample>, m: MemoryMetric, d: Option<Seq<char>>) -> nat
    decreases s.len(),
{
    if s.len() == 0 {
        0
    } else {
        count_key(s.drop_last(), m, d) + if s.last().0 == m && s.last().1 == d { 1nat } else { 0nat }
    }
}

/// How many samples report metric `m`.
pub open spec fn count_metric(s: Seq<Sample>, m: MemoryMetric) -> nat
    decreases s.len(),
{
    if s.len() == 0 {
        0
    } else {
        count_metric(s.drop_last(), m) + if s.last().0 == m { 1nat } else { 0nat }
    }
}

/// The sum of the bytes of the samples that report metric `m`.
pub open spec fn metric_sum(s: Seq<Sample>, m: MemoryMetric) -> nat
    decreases s.len(),
{
    if s.len() == 0 {
        0
    } else {
        metric_sum(s.drop_last(), m) + if s.last().0 == m { s.last().2 as nat } else { 0nat }
    }
}

/// Whether every device that reports a GPU sample reports exactly one total
/// and exactly one used.
pub open spec fn devices_paired(s: Seq<Sample>) -> bool {
    forall|i: int| 0 <= i < s.len() && ((#[trigger] s[i]).0 == MemoryMetric::VramTotal || s[i].0 == MemoryMetric::VramUsed)
        ==> count_key(s, MemoryMetric::VramTotal, s[i].1) == 1 && count_key(s, MemoryMetric::VramUsed, s[i].1) == 1
}

/// The host-RAM pair in megabytes: known only when there is exactly one
/// total sample and exactly one used sample.
pub open spec fn ram_pair(s: Seq<Sample>) -> (Option<u64>, Option<u64>) {
    if count_metric(s, MemoryMetric::RamTotal) == 1 && count_metric(s, MemoryMetric::RamUsed) == 1 {
        (Some((metric_sum(s, MemoryMetric::RamTotal) / 1024 / 1024) as u64),
            Some((metric_sum(s, MemoryMetric::RamUsed) / 1024 / 1024) as u64))
    } else {
        (None, None)
    }
}

/// The VRAM pair in megabytes, summed over devices: known only when some
/// device reports, every reporting device reports exactly one total and one
/// used, and neither sum passes `u64::MAX`.
pub open spec fn vram_pair(s: Seq<Sample>) -> (Option<u64>, Option<u64>) {
    if count_metric(s, MemoryMetric::VramTotal) > 0 && devices_paired(s)
        && metric_sum(s, MemoryMetric::VramTotal) <= u64::MAX && metric_sum(s, MemoryMetric::VramUsed) <= u64::MAX {
        (Some((metric_sum(s, MemoryMetric::VramTotal) / 1024 / 1024) as u64),
            Some((metric_sum(s, MemoryMetric::VramUsed) / 1024 / 1024) as u64))
    } else {
        (None, None)
    }
}

/// The memory figures a scrape reports (see [`vram_pair`] and [`ram_pair`]).
pub open spec fn spec_memory_metrics(text: Seq<char>) -> RuntimeMemorySnapshot {
    let s = samples_of(text_lines(text));
    RuntimeMemorySnapshot {
        vram_total_mb: vram_pair(s).0,
        vram_used_mb: vram_pair(s).1,
        ram_total_mb: ram_pair(s).0,
        ram_used_mb: ram_pair(s).1,
    }
}

/// A sample as parsed: metric, device id, bytes.
pub struct ParsedSample {
    pub metric: MemoryMetric,
    pub device: Option<Vec<char>>,
    pub bytes: u64,
}

impl View for ParsedSample {
    type V = Sample;

    open spec fn view(&self) -> Sample {
        (self.metric, match self.device { Some(d) => Some(d@), None => None }, self.bytes)
    }
}

/// The views of parsed samples.
pub open spec fn samples_view(s: Seq<ParsedSample>) -> Seq<Sample> {
    s.map_values(|x: ParsedSample| x@)
}

fn same_chars(a: &Vec<char>, b: &Vec<char>) -> (r: bool)
    ensures
        r == (a@ == b@),
{
    if a.len() != b.len() {
        return false;
    }
    let mut i: usize = 0;
    while i < a.len()
        invariant
            0 <= i <= a@.len(),
            a@.len() == b@.len(),
            forall|k: int| 0 <= k < i ==> a@[k] == b@[k],
        decreases a@.len() - i,
    {
        if a[i] != b[i] {
            return false;
        }
        i = i + 1;
    }
    assert(a@ =~= b@);
    true
}

/// The view of an optional device id.
pub open spec fn opt_chars(d: Option<Vec<char>>) -> Option<Seq<char>> {
    match d { Some(x) => Some(x@), None => None }
}

fn same_device(a: &Option<Vec<char>>, b: &Option<Vec<char>>) -> (r: bool)
    ensures
        r == (opt_chars(*a) == opt_chars(*b)),
{
    match (a, b) {
        (Some(x), Some(y)) => same_chars(x, y),
        (None, None) => true,
        _ => false,
    }
}

fn is_name(name: &Vec<char>, lit: &str) -> (r: bool)
    ensures
        r == (name@ == lit@),
{
    let l = chars_of(lit);
    same_chars(name, &l)
}

fn sample_from_line(line: &Vec<char>) -> (r: Option<ParsedSample>)
    requires
        2 * line@.len() + 16384 <= usize::MAX,
    ensures
        sample_of(line@) == match r { Some(x) => Some(x@), None => None::<Sample> },
{
    let t = trim_vec(line);
    if t.len() == 0 || t[0] == '#' {
        return None;
    }
    let (name, v, dev) = match parse_sample_line(&t) {
        None => return None,
        Some(x) => x,
    };
    if is_name(&name, "llamaswap_memory_total_bytes") {
        Some(ParsedSample { metric: MemoryMetric::RamTotal, device: None, bytes: v })
    } else if is_name(&name, "llamaswap_memory_used_bytes") {
        Some(ParsedSample { metric: MemoryMetric::RamUsed, device: None, bytes: v })
    } else if is_name(&name, "llamaswap_gpu_memory_total_bytes") {
        match dev {
            Some(d) => Some(ParsedSample { metric: MemoryMetric::VramTotal, device: Some(d), bytes: v }),
            None => None,
        }
    } else if is_name(&name, "llamaswap_gpu_memory_used_bytes") {
        match dev {
            Some(d) => Some(ParsedSample { metric: MemoryMetric::VramUsed, device: Some(d), bytes: v }),
            None => None,
        }
    } else {
        None
    }
}

proof fn lemma_text_lines_len(s: Seq<char>)
    ensures
        forall|j: int| 0 <= j < text_lines(s).len() ==> (#[trigger] text_lines(s)[j]).len() <= s.len(),
    decreases s.len(),
{
    if s.len() > 0 {
        match index_of_from(s, '\n', 0) {
            None => {},
            Some(i) => {
                if 0 <= i < s.len() {
                    lemma_text_lines_len(s.skip(i + 1));
                    let head = seq![strip_cr(s.take(i))];
                    let tl = text_lines(s.skip(i + 1));
                    assert forall|j: int| 0 <= j < text_lines(s).len() implies (#[trigger] text_lines(s)[j]).len() <= s.len() by {
                        if j == 0 {
                            assert(text_lines(s)[j] == (head + tl)[0]);
                        } else {
                            assert(text_lines(s)[j] == tl[j - 1]);
                        }
                    }
                }
            },
        }
    }
}

fn collect_samples(text: &str) -> (r: Vec<ParsedSample>)
    requires
        2 * text@.len() + 16384 <= usize::MAX,
    ensures
        samples_view(r@) == samples_of(text_lines(text@)),
{
    let v = chars_of(text);
    let lines = text_lines_exec(&v);
    let ghost lv = lines@.map_values(|l: Vec<char>| l@);
    proof { lemma_text_lines_len(text@); }
    let mut out: Vec<ParsedSample> = Vec::new();
    let mut i: usize = 0;
    assert(samples_view(out@) =~= samples_of(lv.take(0)));
    while i < lines.len()
        invariant
            0 <= i <= lines@.len(),
            lv == lines@.map_values(|l: Vec<char>| l@),
            lv == text_lines(text@),
            samples_view(out@) == samples_of(lv.take(i as int)),
            2 * text@.len() + 16384 <= usize::MAX,
            forall|j: int| 0 <= j < lv.len() ==> (#[trigger] lv[j]).len() <= text@.len(),
        decreases lines@.len() - i,
    {
        assert(lv.take(i as int + 1).drop_last() =~= lv.take(i as int));
        assert(lv.take(i as int + 1).last() == lines@[i as int]@);
        assert(lv[i as int] == lines@[i as int]@);
        match sample_from_line(&lines[i]) {
            Some(x) => {
                let ghost before = samples_view(out@);
                let ghost xv = x@;
                out.push(x);
                assert(samples_view(out@) =~= before.push(xv));
            },
            None => {},
        }
        i = i + 1;
    }
    assert(lv.take(lines@.len() as int) =~= lv);
    out
}

fn count_samples(s: &Vec<ParsedSample>, m: MemoryMetric) -> (r: usize)
    ensures
        r == count_metric(samples_view(s@), m),
{
    let ghost sv = samples_view(s@);
    let mut c: usize = 0;
    let mut i: usize = 0;
    while i < s.len()
        invariant
            0 <= i <= s@.len(),
            sv == samples_view(s@),
            c == count_metric(sv.take(i as int), m),
            c <= i,
        decreases s@.len() - i,
    {
        assert(sv.take(i as int + 1).drop_last() =~= sv.take(i as int));
        assert(sv.take(i as int + 1).last() == s@[i as int]@);
        if s[i].metric == m {
            c = c + 1;
        }
        i = i + 1;
    }
    assert(sv.take(s@.len() as int) =~= sv);
    c
}

fn count_device(s: &Vec<ParsedSample>, m: MemoryMetric, d: &Option<Vec<char>>) -> (r: usize)
    ensures
        r == count_key(samples_view(s@), m, opt_chars(*d)),
{
    let ghost sv = samples_view(s@);
    let ghost dv = opt_chars(*d);
    let mut c: usize = 0;
    let mut i: usize = 0;
    while i < s.len()
        invariant
            0 <= i <= s@.len(),
            sv == samples_view(s@),
            dv == opt_chars(*d),
            c == count_key(sv.take(i as int), m, dv),
            c <= i,
        decreases s@.len() - i,
    {
        assert(sv.take(i as int + 1).drop_last() =~= sv.take(i as int));
        assert(sv.take(i as int + 1).last() == s@[i as int]@);
        assert(s@[i as int]@.1 == opt_chars(s@[i as int].device));
        assert(s@[i as int]@.0 == s@[i as int].metric);
        let same = same_device(&s[i].device, d);
        if s[i].metric == m && same {
            c = c + 1;
        }
        i = i + 1;
    }
    assert(sv.take(s@.len() as int) =~= sv);
    c
}

/// The sum of the bytes reported for `m`, or `None` past `u64::MAX`.
fn sum_samples(s: &Vec<ParsedSample>, m: MemoryMetric) -> (r: Option<u64>)
    ensures
        match r {
            Some(x) => x == metric_sum(samples_view(s@), m),
            None => metric_sum(samples_view(s@), m) > u64::MAX,
        },
{
    let ghost sv = samples_view(s@);
    let mut acc: Option<u64> = Some(0);
    let mut i: usize = 0;
    while i < s.len()
        invariant
            0 <= i <= s@.len(),
            sv == samples_view(s@),
            match acc {
                Some(x) => x == metric_sum(sv.take(i as int), m),
                None => metric_sum(sv.take(i as int), m) > u64::MAX,
            },
        decreases s@.len() - i,
    {
        assert(sv.take(i as int + 1).drop_last() =~= sv.take(i as int));
        assert(sv.take(i as int + 1).last() == s@[i as int]@);
        if s[i].metric == m {
            acc = match acc {
                Some(x) => x.checked_add(s[i].bytes),
                None => None,
            };
        }
        i = i + 1;
    }
    assert(sv.take(s@.len() as int) =~= sv);
    acc
}

fn ram_pair_of(s: &Vec<ParsedSample>) -> (r: (Option<u64>, Option<u64>))
    ensures
        r == ram_pair(samples_view(s@)),
{
    if count_samples(s, MemoryMetric::RamTotal) == 1 && count_samples(s, MemoryMetric::RamUsed) == 1 {
        let t = sum_samples(s, MemoryMetric::RamTotal);
        let u = sum_samples(s, MemoryMetric::RamUsed);
        proof {
            lemma_single_sum(samples_view(s@), MemoryMetric::RamTotal);
            lemma_single_sum(samples_view(s@), MemoryMetric::RamUsed);
        }
        match (t, u) {
            (Some(t), Some(u)) => (Some(bytes_to_mb(t)), Some(bytes_to_mb(u))),
            _ => (None, None),
        }
    } else {
        (None, None)
    }
}

proof fn lemma_single_sum(s: Seq<Sample>, m: MemoryMetric)
    requires
        count_metric(s, m) <= 1,
    ensures
        metric_sum(s, m) <= u64::MAX,
    decreases s.len(),
{
    if s.len() > 0 {
        lemma_single_sum(s.drop_last(), m);
        if s.last().0 == m {
            assert(count_metric(s.drop_last(), m) == 0);
            lemma_zero_sum(s.drop_last(), m);
        }
    }
}

proof fn lemma_zero_sum(s: Seq<Sample>, m: MemoryMetric)
    requires
        count_metric(s, m) == 0,
    ensures
        metric_sum(s, m) == 0,
    decreases s.len(),
{
    if s.len() > 0 {
        lemma_zero_sum(s.drop_last(), m);
    }
}

fn vram_pair_of(s: &Vec<ParsedSample>) -> (r: (Option<u64>, Option<u64>))
    ensures
        r == vram_pair(samples_view(s@)),
{
    let ghost sv = samples_view(s@);
    if count_samples(s, MemoryMetric::VramTotal) == 0 {
        return (None, None);
    }
    let mut i: usize = 0;
    while i < s.len()
        invariant
            0 <= i <= s@.len(),
            sv == samples_view(s@),
            forall|k: int| 0 <= k < i && ((#[trigger] sv[k]).0 == MemoryMetric::VramTotal || sv[k].0 == MemoryMetric::VramUsed)
                ==> count_key(sv, MemoryMetric::VramTotal, sv[k].1) == 1 && count_key(sv, MemoryMetric::VramUsed, sv[k].1) == 1,
        decreases s@.len() - i,
    {
        let m = s[i].metric;
        assert(sv[i as int] == s@[i as int]@);
        if m == MemoryMetric::VramTotal || m == MemoryMetric::VramUsed {
            let ct = count_device(s, MemoryMetric::VramTotal, &s[i].device);
            let cu = count_device(s, MemoryMetric::VramUsed, &s[i].device);
            if ct != 1 || cu != 1 {
                assert(!devices_paired(sv));
                return (None, None);
            }
        }
        i = i + 1;
    }
    assert(devices_paired(sv));
    let t = sum_samples(s, MemoryMetric::VramTotal);
    let u = sum_samples(s, MemoryMetric::VramUsed);
    match (t, u) {
        (Some(t), Some(u)) => (Some(bytes_to_mb(t)), Some(bytes_to_mb(u))),
        _ => (None, None),
    }
}

/// Reads llama-swap's `/metrics` text into memory figures in megabytes (see
/// [`spec_memory_metrics`]).
pub fn parse_llama_swap_memory_metrics(text: &str) -> (r: RuntimeMemorySnapshot)
    requires
        2 * text@.len() + 16384 <= usize::MAX,
    ensures
        r == spec_memory_metrics(text@),
{
    let samples = collect_samples(text);
    let (vram_total_mb, vram_used_mb) = vram_pair_of(&samples);
    let (ram_total_mb, ram_used_mb) = ram_pair_of(&samples);
    RuntimeMemorySnapshot { vram_total_mb, vram_used_mb, ram_total_mb, ram_used_mb }
}

} // verus!

verus! {

/// Each memory pair is known whole or not at all: a total is never reported
/// without its used figure, nor a used figure without its total.
pub proof fn law_pairs_are_all_or_nothing(text: Seq<char>)
    ensures
        (spec_memory_metrics(text).ram_total_mb is Some) == (spec_memory_metrics(text).ram_used_mb is Some),
        (spec_memory_metrics(text).vram_total_mb is Some) == (spec_memory_metrics(text).vram_used_mb is Some),
{
}

/// Whether a sample is a host-RAM sample.
pub open spec fn is_ram_sample() -> spec_fn(Sample) -> bool {
    |x: Sample| x.0 == MemoryMetric::RamTotal || x.0 == MemoryMetric::RamUsed
}

/// Whether a sample is a GPU sample.
pub open spec fn is_vram_sample() -> spec_fn(Sample) -> bool {
    |x: Sample| x.0 == MemoryMetric::VramTotal || x.0 == MemoryMetric::VramUsed
}

proof fn lemma_filter_keeps_metric(s: Seq<Sample>, p: spec_fn(Sample) -> bool, m: MemoryMetric, d: Option<Seq<char>>)
    requires
        forall|x: Sample| x.0 == m ==> #[trigger] p(x),
    ensures
        count_metric(s.filter(p), m) == count_metric(s, m),
        metric_sum(s.filter(p), m) == metric_sum(s, m),
        count_key(s.filter(p), m, d) == count_key(s, m, d),
    decreases s.len(),
{
    reveal(Seq::filter);
    if s.len() > 0 {
        lemma_filter_keeps_metric(s.drop_last(), p, m, d);
        let f = s.drop_last().filter(p);
        let y = s.last();
        if p(y) {
            assert(f.push(y).drop_last() =~= f);
            assert(f.push(y).last() == y);
        }
    }
}

proof fn lemma_filter_keeps_pairing(s: Seq<Sample>)
    ensures
        devices_paired(s) == devices_paired(s.filter(is_vram_sample())),
{
    broadcast use vstd::seq::Seq::lemma_filter_contains_rev;
    let p = is_vram_sample();
    let f = s.filter(p);
    s.filter_lemma(p);
    assert forall|d: Option<Seq<char>>| count_key(f, MemoryMetric::VramTotal, d) == count_key(s, MemoryMetric::VramTotal, d)
        && #[trigger] count_key(f, MemoryMetric::VramUsed, d) == count_key(s, MemoryMetric::VramUsed, d) by {
        lemma_filter_keeps_metric(s, p, MemoryMetric::VramTotal, d);
        lemma_filter_keeps_metric(s, p, MemoryMetric::VramUsed, d);
    }
    if devices_paired(s) {
        assert forall|i: int| 0 <= i < f.len() && ((#[trigger] f[i]).0 == MemoryMetric::VramTotal || f[i].0 == MemoryMetric::VramUsed)
            implies count_key(f, MemoryMetric::VramTotal, f[i].1) == 1 && count_key(f, MemoryMetric::VramUsed, f[i].1) == 1 by {
            assert(f.contains(f[i]));
            assert(s.contains(f[i]));
            let j = choose|j: int| 0 <= j < s.len() && s[j] == f[i];
            assert(count_key(f, MemoryMetric::VramUsed, f[i].1) == count_key(s, MemoryMetric::VramUsed, f[i].1));
        }
    }
    if devices_paired(f) {
        assert forall|i: int| 0 <= i < s.len() && ((#[trigger] s[i]).0 == MemoryMetric::VramTotal || s[i].0 == MemoryMetric::VramUsed)
            implies count_key(s, MemoryMetric::VramTotal, s[i].1) == 1 && count_key(s, MemoryMetric::VramUsed, s[i].1) == 1 by {
            assert(p(s[i]));
            assert(f.contains(s[i]));
            let j = choose|j: int| 0 <= j < f.len() && f[j] == s[i];
            assert(count_key(f, MemoryMetric::VramUsed, s[i].1) == count_key(s, MemoryMetric::VramUsed, s[i].1));
        }
    }
}

/// Each pair depends only on its own samples: the host-RAM pair is a
/// function of the host-RAM samples alone, and the VRAM pair of the GPU
/// samples alone, so comment lines, unrelated metrics and samples of the
/// other kind never change a pair.
pub proof fn law_pairs_depend_only_on_their_own_samples(s: Seq<Sample>)
    ensures
        ram_pair(s) == ram_pair(s.filter(is_ram_sample())),
        vram_pair(s) == vram_pair(s.filter(is_vram_sample())),
{
    lemma_filter_keeps_metric(s, is_ram_sample(), MemoryMetric::RamTotal, None);
    lemma_filter_keeps_metric(s, is_ram_sample(), MemoryMetric::RamUsed, None);
    lemma_filter_keeps_metric(s, is_vram_sample(), MemoryMetric::VramTotal, None);
    lemma_filter_keeps_metric(s, is_vram_sample(), MemoryMetric::VramUsed, None);
    lemma_filter_keeps_pairing(s);
}

/// Two scrapes whose lines yield the same host-RAM samples report the same
/// host-RAM pair, and two whose lines yield the same GPU samples report the
/// same VRAM pair, whatever else their lines hold.
pub proof fn law_pair_ignores_other_lines(t1: Seq<char>, t2: Seq<char>)
    ensures
        samples_of(text_lines(t1)).filter(is_ram_sample()) == samples_of(text_lines(t2)).filter(is_ram_sample())
            ==> spec_memory_metrics(t1).ram_total_mb == spec_memory_metrics(t2).ram_total_mb
                && spec_memory_metrics(t1).ram_used_mb == spec_memory_metrics(t2).ram_used_mb,
        samples_of(text_lines(t1)).filter(is_vram_sample()) == samples_of(text_lines(t2)).filter(is_vram_sample())
            ==> spec_memory_metrics(t1).vram_total_mb == spec_memory_metrics(t2).vram_total_mb
                && spec_memory_metrics(t1).vram_used_mb == spec_memory_metrics(t2).vram_used_mb,
{
    law_pairs_depend_only_on_their_own_samples(samples_of(text_lines(t1)));
    law_pairs_depend_only_on_their_own_samples(samples_of(text_lines(t2)));
}

proof fn lemma_samples_of_add(a: Seq<Seq<char>>, b: Seq<Seq<char>>)
    ensures
        samples_of(a + b) == samples_of(a) + samples_of(b),
    decreases b.len(),
{
    if b.len() == 0 {
        assert(a + b =~= a);
        assert(samples_of(a) + samples_of(b) =~= samples_of(a));
    } else {
        lemma_samples_of_add(a, b.drop_last());
        assert((a + b).drop_last() =~= a + b.drop_last());
        assert((a + b).last() == b.last());
        match sample_of(b.last()) {
            Some(x) => {
                assert(samples_of(a) + samples_of(b.drop_last()).push(x) =~= (samples_of(a) + samples_of(b.drop_last())).push(x));
            },
            None => {},
        }
    }
}

proof fn lemma_one_line_filter(l: Seq<char>, p: spec_fn(Sample) -> bool)
    requires
        sample_of(l) matches Some(x) ==> !p(x),
    ensures
        samples_of(seq![l]).filter(p) == Seq::<Sample>::empty(),
{
    reveal(Seq::filter);
    assert(seq![l].drop_last() =~= Seq::<Seq<char>>::empty());
    assert(seq![l].last() == l);
    assert(samples_of(Seq::<Seq<char>>::empty()) == Seq::<Sample>::empty());
    assert(samples_of(seq![l]) == match sample_of(l) {
        Some(x) => samples_of(seq![l].drop_last()).push(x),
        None => samples_of(seq![l].drop_last()),
    });
    match sample_of(l) {
        Some(x) => {
            assert(samples_of(seq![l]) =~= seq![x]);
            assert(seq![x].drop_last() =~= Seq::<Sample>::empty());
            assert(seq![x].last() == x);
            assert(Seq::<Sample>::empty().filter(p) =~= Seq::<Sample>::empty());
        },
        None => {
            assert(samples_of(seq![l]) =~= Seq::<Sample>::empty());
        },
    }
}

proof fn lemma_insert_keeps_filter(lines: Seq<Seq<char>>, k: int, l: Seq<char>, p: spec_fn(Sample) -> bool)
    requires
        0 <= k <= lines.len(),
        sample_of(l) matches Some(x) ==> !p(x),
    ensures
        samples_of(lines.insert(k, l)).filter(p) == samples_of(lines).filter(p),
{
    broadcast use vstd::seq::Seq::filter_distributes_over_add;
    let a = lines.take(k);
    let b = lines.skip(k);
    assert(lines.insert(k, l) =~= a + seq![l] + b);
    assert(lines =~= a + b);
    lemma_samples_of_add(a + seq![l], b);
    lemma_samples_of_add(a, seq![l]);
    lemma_samples_of_add(a, b);
    lemma_one_line_filter(l, p);
    assert(samples_of(a).filter(p) + Seq::<Sample>::empty() =~= samples_of(a).filter(p));
}

/// A line that files no sample of a pair's kind never changes that pair,
/// wherever it stands among the scrape's lines: comment lines, blank lines,
/// unrelated metrics and unreadable samples file nothing, and a GPU line
/// leaves the host-RAM pair as it was, as a host-RAM line leaves the VRAM
/// pair.
pub proof fn law_other_lines_keep_pairs(lines: Seq<Seq<char>>, k: int, l: Seq<char>)
    requires
        0 <= k <= lines.len(),
    ensures
        trim(l).len() == 0 || trim(l)[0] == '#' ==> sample_of(l) is None,
        (sample_of(l) matches Some(x) ==> !is_ram_sample()(x))
            ==> ram_pair(samples_of(lines.insert(k, l))) == ram_pair(samples_of(lines)),
        (sample_of(l) matches Some(x) ==> !is_vram_sample()(x))
            ==> vram_pair(samples_of(lines.insert(k, l))) == vram_pair(samples_of(lines)),
{
    law_pairs_depend_only_on_their_own_samples(samples_of(lines.insert(k, l)));
    law_pairs_depend_only_on_their_own_samples(samples_of(lines));
    if sample_of(l) matches Some(x) ==> !is_ram_sample()(x) {
        lemma_insert_keeps_filter(lines, k, l, is_ram_sample());
    }
    if sample_of(l) matches Some(x) ==> !is_vram_sample()(x) {
        lemma_insert_keeps_filter(lines, k, l, is_vram_sample());
    }
}

} // verus!
