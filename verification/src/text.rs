use vstd::prelude::*;
use vstd::string::*;

verus! {

/// `String::push` appends one character to the end of the string (std documents
/// it as "Appends the given char to the end of this String").
pub assume_specification[ std::string::String::push ](s: &mut std::string::String, ch: char)
    ensures
        final(s)@ == old(s)@.push(ch),
;

/// The character for a decimal digit.
pub open spec fn digit_char(d: nat) -> char {
    if d == 0 { '0' } else if d == 1 { '1' } else if d == 2 { '2' } else if d == 3 { '3' }
    else if d == 4 { '4' } else if d == 5 { '5' } else if d == 6 { '6' } else if d == 7 { '7' }
    else if d == 8 { '8' } else { '9' }
}

/// The decimal rendering of a natural number, most significant digit first.
pub open spec fn decimal(n: nat) -> Seq<char>
    decreases n,
{
    if n < 10 {
        seq![digit_char(n)]
    } else {
        decimal(n / 10).push(digit_char(n % 10))
    }
}

fn digit_to_char(d: u64) -> (c: char)
    requires
        d < 10,
    ensures
        c == digit_char(d as nat),
{
    if d == 0 { '0' } else if d == 1 { '1' } else if d == 2 { '2' } else if d == 3 { '3' }
    else if d == 4 { '4' } else if d == 5 { '5' } else if d == 6 { '6' } else if d == 7 { '7' }
    else if d == 8 { '8' } else { '9' }
}

/// Renders `n` in decimal.
pub fn u64_to_string(n: u64) -> (r: String)
    ensures
        r@ == decimal(n as nat),
    decreases n,
{
    if n < 10 {
        let mut s = String::new();
        s.push(digit_to_char(n));
        assert(s@ =~= seq![digit_char(n as nat)]);
        s
    } else {
        let mut s = u64_to_string(n / 10);
        s.push(digit_to_char(n % 10));
        s
    }
}

/// Appends the decimal rendering of `n` to `s`.
pub fn push_u64(s: &mut String, n: u64)
    ensures
        final(s)@ == old(s)@ + decimal(n as nat),
{
    let d = u64_to_string(n);
    s.append(d.as_str());
}

/// Appends `t` to `s`.
pub fn push_str(s: &mut String, t: &str)
    ensures
        final(s)@ == old(s)@ + t@,
{
    s.append(t);
}

/// The characters of `s`, in order.
pub fn chars_of(s: &str) -> (r: Vec<char>)
    ensures
        r@ == s@,
{
    let mut v: Vec<char> = Vec::new();
    for c in it: s.chars()
        invariant
            v@ == it.seq().take(it.index() as int),
            it.seq() == s@,
    {
        v.push(c);
        assert(v@ =~= it.seq().take(it.index() as int + 1));
    }
    v
}

/// A string holding exactly the characters `v[from..to]`.
pub fn string_from_chars(v: &Vec<char>, from: usize, to: usize) -> (r: String)
    requires
        from <= to <= v@.len(),
    ensures
        r@ == v@.subrange(from as int, to as int),
{
    let mut s = String::new();
    let mut i: usize = from;
    while i < to
        invariant
            from <= i <= to <= v@.len(),
            s@ == v@.subrange(from as int, i as int),
        decreases to - i,
    {
        s.push(v[i]);
        assert(s@ =~= v@.subrange(from as int, i as int + 1));
        i = i + 1;
    }
    s
}

/// String equality over characters.
pub fn str_eq(a: &str, b: &str) -> (r: bool)
    ensures
        r == (a@ == b@),
{
    let x = String::from_str(a);
    let y = String::from_str(b);
    x == y
}

} // verus!

verus! {

/// Lexicographic order on character sequences, comparing characters by code
/// point. It coincides with the byte order of their UTF-8 encodings, which is
/// how `str` orders.
pub open spec fn lex_lt(a: Seq<char>, b: Seq<char>) -> bool
    decreases a.len(),
{
    if b.len() == 0 {
        false
    } else if a.len() == 0 {
        true
    } else if a[0] != b[0] {
        (a[0] as int) < (b[0] as int)
    } else {
        lex_lt(a.drop_first(), b.drop_first())
    }
}

proof fn lemma_lex_lt_skip(a: Seq<char>, b: Seq<char>, i: int)
    requires
        0 <= i,
        i <= a.len(),
        i <= b.len(),
        a.take(i) == b.take(i),
    ensures
        lex_lt(a, b) == lex_lt(a.skip(i), b.skip(i)),
    decreases i,
{
    if i > 0 {
        assert(a[0] == a.take(i)[0]);
        assert(b[0] == b.take(i)[0]);
        assert(a.drop_first().take(i - 1) =~= a.take(i).drop_first());
        assert(b.drop_first().take(i - 1) =~= b.take(i).drop_first());
        lemma_lex_lt_skip(a.drop_first(), b.drop_first(), i - 1);
        assert(a.drop_first().skip(i - 1) =~= a.skip(i));
        assert(b.drop_first().skip(i - 1) =~= b.skip(i));
    } else {
        assert(a.skip(0) =~= a);
        assert(b.skip(0) =~= b);
    }
}

/// Whether `a` orders strictly before `b`.
pub fn str_lt(a: &str, b: &str) -> (r: bool)
    ensures
        r == lex_lt(a@, b@),
{
    let x = chars_of(a);
    let y = chars_of(b);
    let mut i: usize = 0;
    while i < x.len() && i < y.len()
        invariant
            0 <= i <= x@.len(),
            i <= y@.len(),
            x@ == a@,
            y@ == b@,
            x@.take(i as int) == y@.take(i as int),
        decreases x@.len() - i,
    {
        if x[i] != y[i] {
            proof {
                lemma_lex_lt_skip(x@, y@, i as int);
                assert(x@.skip(i as int)[0] == x@[i as int]);
                assert(y@.skip(i as int)[0] == y@[i as int]);
            }
            return x[i] < y[i];
        }
        assert(x@.take(i as int + 1) =~= x@.take(i as int).push(x@[i as int]));
        assert(y@.take(i as int + 1) =~= y@.take(i as int).push(y@[i as int]));
        i = i + 1;
    }
    proof {
        lemma_lex_lt_skip(x@, y@, i as int);
    }
    i < y.len()
}

} // verus!

verus! {

/// Lexicographic order is transitive.
pub proof fn lemma_lex_lt_transitive(a: Seq<char>, b: Seq<char>, c: Seq<char>)
    requires
        lex_lt(a, b),
        lex_lt(b, c),
    ensures
        lex_lt(a, c),
    decreases a.len(),
{
    if a.len() > 0 && a[0] == b[0] && b[0] == c[0] {
        lemma_lex_lt_transitive(a.drop_first(), b.drop_first(), c.drop_first());
    }
}

/// Lexicographic order is a strict total order on distinct sequences: exactly
/// one of `a < b` and `b < a` holds when `a != b`, and neither when equal.
pub proof fn lemma_lex_lt_trichotomy(a: Seq<char>, b: Seq<char>)
    ensures
        a != b ==> (lex_lt(a, b) != lex_lt(b, a)),
        a == b ==> !lex_lt(a, b),
    decreases a.len(),
{
    if a.len() > 0 && b.len() > 0 && a[0] == b[0] {
        lemma_lex_lt_trichotomy(a.drop_first(), b.drop_first());
        if a != b {
            assert(a =~= seq![a[0]] + a.drop_first());
            assert(b =~= seq![b[0]] + b.drop_first());
        }
    } else if a.len() > 0 && b.len() > 0 && a[0] != b[0] {
        assert((a[0] as int) != (b[0] as int));
    } else if a.len() == 0 && b.len() == 0 {
        assert(a =~= b);
    }
}

} // verus!

verus! {

/// Whether `c` is an ASCII decimal digit.
pub open spec fn is_digit(c: char) -> bool {
    '0' <= c && c <= '9'
}

/// The value of a decimal digit character.
pub open spec fn digit_value(c: char) -> nat {
    ((c as int) - ('0' as int)) as nat
}

/// Whether `c` is an ASCII decimal digit.
pub fn char_is_digit(c: char) -> (r: bool)
    ensures
        r == is_digit(c),
{
    '0' <= c && c <= '9'
}

/// The value of a sequence of decimal digits, most significant first.
pub open spec fn digits_value(s: Seq<char>) -> nat
    decreases s.len(),
{
    if s.len() == 0 {
        0
    } else {
        digits_value(s.drop_last()) * 10 + digit_value(s.last())
    }
}

/// Whether every character of `s` is a decimal digit.
pub open spec fn all_digits(s: Seq<char>) -> bool {
    forall|i: int| 0 <= i < s.len() ==> is_digit(#[trigger] s[i])
}

pub(crate) proof fn lemma_digits_value_monotone(s: Seq<char>, c: char)
    requires
        is_digit(c),
    ensures
        digits_value(s.push(c)) == digits_value(s) * 10 + digit_value(c),
        digits_value(s.push(c)) >= digits_value(s),
{
    assert(s.push(c).drop_last() =~= s);
}

/// The value of the digits `v[from..to]` when it is at most `bound`, else
/// `None`.
pub fn parse_digits(v: &Vec<char>, from: usize, to: usize, bound: u64) -> (r: Option<u64>)
    requires
        from <= to <= v@.len(),
        all_digits(v@.subrange(from as int, to as int)),
    ensures
        match r {
            Some(x) => x == digits_value(v@.subrange(from as int, to as int))
                && x <= bound,
            None => digits_value(v@.subrange(from as int, to as int)) > bound,
        },
{
    let mut val: u64 = 0;
    let mut i: usize = from;
    while i < to
        invariant
            from <= i <= to <= v@.len(),
            all_digits(v@.subrange(from as int, to as int)),
            val == digits_value(v@.subrange(from as int, i as int)),
            val <= bound,
        decreases to - i,
    {
        let c = v[i];
        assert(v@.subrange(from as int, to as int)[i - from] == c);
        let d = (c as u32 - '0' as u32) as u64;
        proof {
            assert(v@.subrange(from as int, i as int + 1) =~= v@.subrange(from as int, i as int).push(c));
            lemma_digits_value_monotone(v@.subrange(from as int, i as int), c);
            assert(d == digit_value(c));
        }
        if d > bound || val > (bound - d) / 10 {
            proof {
                lemma_rest_not_smaller(v@, from as int, i as int + 1, to as int);
                if d <= bound {
                    assert(val * 10 + d > bound) by (nonlinear_arith)
                        requires val > (bound - d) / 10, d <= bound;
                }
            }
            return None;
        }
        proof {
            assert(val * 10 + d <= bound) by (nonlinear_arith)
                requires val <= (bound - d) / 10, d <= 9, bound >= d;
        }
        val = val * 10 + d;
        i = i + 1;
    }
    Some(val)
}

proof fn lemma_rest_not_smaller(v: Seq<char>, from: int, mid: int, to: int)
    requires
        0 <= from <= mid <= to <= v.len(),
        all_digits(v.subrange(from, to)),
    ensures
        digits_value(v.subrange(from, to)) >= digits_value(v.subrange(from, mid)),
    decreases to - mid,
{
    if mid < to {
        let c = v[mid];
        assert(v.subrange(from, to)[mid - from] == c);
        assert(v.subrange(from, mid + 1) =~= v.subrange(from, mid).push(c));
        lemma_digits_value_monotone(v.subrange(from, mid), c);
        lemma_rest_not_smaller(v, from, mid + 1, to);
    }
}

/// Unicode's `Alphabetic` property beyond ASCII, as `char::is_alphabetic`
/// decides it. The property table takes pages, so it is named rather than
/// written out.
pub uninterp spec fn non_ascii_alphabetic(c: char) -> bool;

/// Whether `c` is an ASCII letter.
pub open spec fn is_ascii_letter(c: char) -> bool {
    ('a' <= c && c <= 'z') || ('A' <= c && c <= 'Z')
}

/// Unicode's `Alphabetic` property: among ASCII characters exactly the
/// letters; beyond ASCII as the property table says.
pub open spec fn spec_char_is_alphabetic(c: char) -> bool {
    if c <= '\u{7f}' { is_ascii_letter(c) } else { non_ascii_alphabetic(c) }
}

/// `char::is_alphabetic`: whether `c` has Unicode's `Alphabetic` property.
/// Among ASCII characters that property holds exactly of the letters `a`-`z`
/// and `A`-`Z` (digits, `-`, `.` and the rest of ASCII are not alphabetic);
/// beyond ASCII the result is named by [`non_ascii_alphabetic`].
#[verifier::external_body]
pub fn char_is_alphabetic(c: char) -> (r: bool)
    ensures
        r == (if c <= '\u{7f}' { is_ascii_letter(c) } else { non_ascii_alphabetic(c) }),
{
    c.is_alphabetic()
}

/// Unicode's `White_Space` property, which `char::is_whitespace` decides.
pub open spec fn is_whitespace(c: char) -> bool {
    ('\u{9}' <= c && c <= '\u{d}') || c == ' ' || c == '\u{85}' || c == '\u{a0}' || c == '\u{1680}'
        || ('\u{2000}' <= c && c <= '\u{200a}') || c == '\u{2028}' || c == '\u{2029}'
        || c == '\u{202f}' || c == '\u{205f}' || c == '\u{3000}'
}

/// Whether `c` is Unicode white space.
pub fn char_is_whitespace(c: char) -> (r: bool)
    ensures
        r == is_whitespace(c),
{
    ('\u{9}' <= c && c <= '\u{d}') || c == ' ' || c == '\u{85}' || c == '\u{a0}' || c == '\u{1680}'
        || ('\u{2000}' <= c && c <= '\u{200a}') || c == '\u{2028}' || c == '\u{2029}'
        || c == '\u{202f}' || c == '\u{205f}' || c == '\u{3000}'
}

} // verus!

verus! {

/// The value of the first entry named `key`, if any.
pub open spec fn lookup<V>(entries: Seq<(String, V)>, key: Seq<char>) -> Option<V>
    decreases entries.len(),
{
    if entries.len() == 0 {
        None
    } else if entries[0].0@ == key {
        Some(entries[0].1)
    } else {
        lookup(entries.drop_first(), key)
    }
}

/// Finds the first entry named `key`.
pub fn find_entry<'a, V>(entries: &'a Vec<(String, V)>, key: &str) -> (r: Option<&'a V>)
    ensures
        match r {
            Some(v) => lookup(entries@, key@) == Some(*v),
            None => lookup(entries@, key@) is None,
        },
{
    let mut i: usize = 0;
    assert(entries@.skip(0) =~= entries@);
    while i < entries.len()
        invariant
            0 <= i <= entries@.len(),
            lookup(entries@, key@) == lookup(entries@.skip(i as int), key@),
        decreases entries@.len() - i,
    {
        proof {
            assert(entries@.skip(i as int)[0] == entries@[i as int]);
            assert(entries@.skip(i as int).drop_first() =~= entries@.skip(i as int + 1));
        }
        if str_eq(entries[i].0.as_str(), key) {
            return Some(&entries[i].1);
        }
        i = i + 1;
    }
    None
}

} // verus!
