//! Ranking scored candidates: a stable sort by descending total, and the
//! first candidate that meets a quality floor.

use vstd::prelude::*;
use crate::policy::scoring::{ScoredCandidate, ScoredView};
use crate::policy::floors::{spec_satisfies_floor, candidate_satisfies_floor, scored_view};

verus! {

/// `x` placed into `sorted` after every element whose total is at least
/// `x`'s: one step of a stable sort by descending total.
pub open spec fn insert_desc(sorted: Seq<ScoredView>, x: ScoredView) -> Seq<ScoredView>
    decreases sorted.len(),
{
    if sorted.len() == 0 {
        seq![x]
    } else if sorted.last().total >= x.total {
        sorted.push(x)
    } else {
        insert_desc(sorted.drop_last(), x).push(sorted.last())
    }
}

/// `s` sorted by descending total; candidates with equal totals keep their
/// order.
pub open spec fn sort_desc(s: Seq<ScoredView>) -> Seq<ScoredView>
    decreases s.len(),
{
    if s.len() == 0 {
        Seq::empty()
    } else {
        insert_desc(sort_desc(s.drop_last()), s.last())
    }
}

/// The first candidate that meets the floor.
pub open spec fn first_eligible(s: Seq<ScoredView>, floor: Option<(Seq<char>, int)>) -> Option<ScoredView>
    decreases s.len(),
{
    if s.len() == 0 {
        None
    } else if spec_satisfies_floor(s[0], floor) {
        Some(s[0])
    } else {
        first_eligible(s.drop_first(), floor)
    }
}

proof fn lemma_insert_at(sorted: Seq<ScoredView>, x: ScoredView, j: int)
    requires
        0 <= j <= sorted.len(),
        forall|k: int| j <= k < sorted.len() ==> #[trigger] sorted[k].total < x.total,
        j > 0 ==> sorted[j - 1].total >= x.total,
    ensures
        insert_desc(sorted, x) == sorted.insert(j, x),
    decreases sorted.len(),
{
    if sorted.len() == 0 {
        assert(sorted.insert(j, x) =~= seq![x]);
    } else if sorted.last().total >= x.total {
        if j < sorted.len() {
            assert(sorted[sorted.len() - 1].total < x.total);
        }
        assert(sorted.insert(j, x) =~= sorted.push(x));
    } else {
        lemma_insert_at(sorted.drop_last(), x, j);
        assert(sorted.drop_last().insert(j, x).push(sorted.last()) =~= sorted.insert(j, x));
    }
}

pub(crate) fn insert_sorted(out: &mut Vec<ScoredCandidate>, x: ScoredCandidate)
    ensures
        scored_view(final(out)@) == insert_desc(scored_view(old(out)@), x@),
{
    let ghost before = scored_view(out@);
    let mut j: usize = out.len();
    while j > 0 && out[j - 1].score.total < x.score.total
        invariant
            j <= out@.len(),
            before == scored_view(out@),
            forall|k: int| j <= k < out@.len() ==> #[trigger] out@[k].score.total < x.score.total,
        decreases j,
    {
        j = j - 1;
    }
    proof {
        assert forall|k: int| j <= k < before.len() implies #[trigger] before[k].total < x@.total by {
            assert(before[k] == out@[k]@);
        }
        if j > 0 {
            assert(before[j - 1] == out@[j - 1]@);
        }
        lemma_insert_at(before, x@, j as int);
    }
    let ghost xv = x@;
    out.insert(j, x);
    assert(scored_view(out@) =~= before.insert(j as int, xv));
}

pub(crate) fn find_first_eligible(sorted: &Vec<ScoredCandidate>, floor: Option<&(String, i32)>) -> (r: Option<usize>)
    ensures
        match r {
            Some(i) => i < sorted@.len() && first_eligible(scored_view(sorted@),
                match floor { Some(f) => Some((f.0@, f.1 as int)), None => None }) == Some(sorted@[i as int]@),
            None => first_eligible(scored_view(sorted@),
                match floor { Some(f) => Some((f.0@, f.1 as int)), None => None }) is None,
        },
{
    let ghost fl = match floor { Some(f) => Some((f.0@, f.1 as int)), None => None };
    let mut i: usize = 0;
    assert(scored_view(sorted@).skip(0) =~= scored_view(sorted@));
    while i < sorted.len()
        invariant
            0 <= i <= sorted@.len(),
            fl == match floor { Some(f) => Some((f.0@, f.1 as int)), None => None::<(Seq<char>, int)> },
            first_eligible(scored_view(sorted@), fl) == first_eligible(scored_view(sorted@).skip(i as int), fl),
        decreases sorted@.len() - i,
    {
        assert(scored_view(sorted@).skip(i as int).drop_first() =~= scored_view(sorted@).skip(i as int + 1));
        assert(scored_view(sorted@).skip(i as int)[0] == sorted@[i as int]@);
        if candidate_satisfies_floor(&sorted[i], floor) {
            return Some(i);
        }
        i = i + 1;
    }
    None
}

proof fn lemma_insert_desc_members(sorted: Seq<ScoredView>, x: ScoredView, y: ScoredView)
    ensures
        insert_desc(sorted, x).contains(y) ==> sorted.contains(y) || y == x,
    decreases sorted.len(),
{
    if sorted.len() > 0 && sorted.last().total < x.total {
        lemma_insert_desc_members(sorted.drop_last(), x, y);
        let r = insert_desc(sorted.drop_last(), x);
        if r.push(sorted.last()).contains(y) {
            let k = choose|k: int| 0 <= k < r.push(sorted.last()).len() && r.push(sorted.last())[k] == y;
            if k < r.len() {
                assert(r.contains(y));
                if sorted.drop_last().contains(y) {
                    let k2 = choose|k2: int| 0 <= k2 < sorted.drop_last().len() && sorted.drop_last()[k2] == y;
                    assert(sorted[k2] == y);
                }
            } else {
                assert(sorted[sorted.len() - 1] == y);
            }
        }
    } else if sorted.len() > 0 {
        if sorted.push(x).contains(y) {
            let k = choose|k: int| 0 <= k < sorted.push(x).len() && sorted.push(x)[k] == y;
            if k < sorted.len() {
                assert(sorted[k] == y);
            }
        }
    } else {
        if seq![x].contains(y) {
            let k = choose|k: int| 0 <= k < 1 && seq![x][k] == y;
        }
    }
}

pub(crate) proof fn lemma_sort_members(s: Seq<ScoredView>, y: ScoredView)
    ensures
        sort_desc(s).contains(y) ==> s.contains(y),
    decreases s.len(),
{
    if s.len() > 0 {
        lemma_sort_members(s.drop_last(), y);
        lemma_insert_desc_members(sort_desc(s.drop_last()), s.last(), y);
        if s.drop_last().contains(y) {
            let k = choose|k: int| 0 <= k < s.drop_last().len() && s.drop_last()[k] == y;
            assert(s[k] == y);
        }
        if y == s.last() {
            assert(s[s.len() - 1] == y);
        }
    }
}

pub(crate) proof fn lemma_first_eligible_member(s: Seq<ScoredView>, floor: Option<(Seq<char>, int)>)
    ensures
        match first_eligible(s, floor) {
            Some(b) => s.contains(b) && spec_satisfies_floor(b, floor),
            None => true,
        },
    decreases s.len(),
{
    if s.len() > 0 && !spec_satisfies_floor(s[0], floor) {
        lemma_first_eligible_member(s.drop_first(), floor);
        match first_eligible(s.drop_first(), floor) {
            Some(b) => {
                let k = choose|k: int| 0 <= k < s.drop_first().len() && s.drop_first()[k] == b;
                assert(s[k + 1] == b);
            },
            None => {},
        }
    } else if s.len() > 0 {
        assert(s[0] == s[0]);
    }
}

/// Whether totals never increase along `s`.
pub open spec fn descending(s: Seq<ScoredView>) -> bool {
    forall|i: int, j: int| 0 <= i < j < s.len() ==> #[trigger] s[i].total >= #[trigger] s[j].total
}

/// The predicate "has total `t`".
pub open spec fn has_total(t: i32) -> spec_fn(ScoredView) -> bool {
    |y: ScoredView| y.total == t
}

proof fn lemma_insert_multiset(sorted: Seq<ScoredView>, x: ScoredView)
    ensures
        insert_desc(sorted, x).to_multiset() =~= sorted.to_multiset().insert(x),
    decreases sorted.len(),
{
    broadcast use vstd::seq_lib::group_to_multiset_ensures, vstd::multiset::group_multiset_axioms;
    if sorted.len() == 0 {
        assert(seq![x] =~= sorted.push(x));
    } else if sorted.last().total >= x.total {
    } else {
        lemma_insert_multiset(sorted.drop_last(), x);
        assert(sorted =~= sorted.drop_last().push(sorted.last()));
    }
}

proof fn lemma_insert_descending(sorted: Seq<ScoredView>, x: ScoredView)
    requires
        descending(sorted),
    ensures
        descending(insert_desc(sorted, x)),
    decreases sorted.len(),
{
    if sorted.len() == 0 {
    } else if sorted.last().total >= x.total {
        let r = sorted.push(x);
        assert forall|i: int, j: int| 0 <= i < j < r.len() implies #[trigger] r[i].total >= #[trigger] r[j].total by {
            if j == sorted.len() {
                assert(sorted[i].total >= sorted[sorted.len() - 1].total || i == sorted.len() - 1);
            }
        }
    } else {
        let d = sorted.drop_last();
        let l = sorted.last();
        lemma_insert_descending(d, x);
        let r = insert_desc(d, x);
        assert forall|i: int, j: int| 0 <= i < j < r.push(l).len() implies #[trigger] r.push(l)[i].total >= #[trigger] r.push(l)[j].total by {
            if j == r.len() {
                let y = r[i];
                assert(r.contains(y));
                lemma_insert_desc_members(d, x, y);
                if d.contains(y) {
                    let k = choose|k: int| 0 <= k < d.len() && d[k] == y;
                    assert(sorted[k].total >= sorted[sorted.len() - 1].total);
                }
            } else {
                assert(r.push(l)[i] == r[i] && r.push(l)[j] == r[j]);
            }
        }
    }
}

proof fn lemma_filter_push(s: Seq<ScoredView>, y: ScoredView, t: i32)
    ensures
        s.push(y).filter(has_total(t)) == (if y.total == t {
            s.filter(has_total(t)).push(y)
        } else {
            s.filter(has_total(t))
        }),
{
    reveal(Seq::filter);
    assert(s.push(y).drop_last() =~= s);
    assert(s.push(y).last() == y);
    assert(has_total(t)(y) == (y.total == t));
}

proof fn lemma_insert_filter(sorted: Seq<ScoredView>, x: ScoredView, t: i32)
    ensures
        insert_desc(sorted, x).filter(has_total(t)) == (if x.total == t {
            sorted.filter(has_total(t)).push(x)
        } else {
            sorted.filter(has_total(t))
        }),
    decreases sorted.len(),
{
    if sorted.len() == 0 {
        assert(seq![x] =~= sorted.push(x));
        lemma_filter_push(sorted, x, t);
    } else if sorted.last().total >= x.total {
        lemma_filter_push(sorted, x, t);
    } else {
        let d = sorted.drop_last();
        let l = sorted.last();
        lemma_insert_filter(d, x, t);
        lemma_filter_push(insert_desc(d, x), l, t);
        assert(sorted =~= d.push(l));
        lemma_filter_push(d, l, t);
        if x.total == t {
            assert(l.total != t);
        }
    }
}

/// Ranking keeps every candidate: the ranked sequence holds exactly the
/// scored candidates, each as often as before.
pub proof fn law_ranking_keeps_every_candidate(s: Seq<ScoredView>)
    ensures
        sort_desc(s).to_multiset() =~= s.to_multiset(),
    decreases s.len(),
{
    broadcast use vstd::seq_lib::group_to_multiset_ensures, vstd::multiset::group_multiset_axioms;
    if s.len() > 0 {
        law_ranking_keeps_every_candidate(s.drop_last());
        lemma_insert_multiset(sort_desc(s.drop_last()), s.last());
        assert(s =~= s.drop_last().push(s.last()));
    }
}

/// The highest score comes first: totals never increase along the ranking.
pub proof fn law_ranking_is_descending(s: Seq<ScoredView>)
    ensures
        descending(sort_desc(s)),
    decreases s.len(),
{
    if s.len() > 0 {
        law_ranking_is_descending(s.drop_last());
        lemma_insert_descending(sort_desc(s.drop_last()), s.last());
    }
}

/// Ranking is stable: the candidates that share a total keep their
/// generation order.
pub proof fn law_ranking_is_stable(s: Seq<ScoredView>, t: i32)
    ensures
        sort_desc(s).filter(has_total(t)) == s.filter(has_total(t)),
    decreases s.len(),
{
    if s.len() > 0 {
        law_ranking_is_stable(s.drop_last(), t);
        lemma_insert_filter(sort_desc(s.drop_last()), s.last(), t);
        assert(s =~= s.drop_last().push(s.last()));
        lemma_filter_push(s.drop_last(), s.last(), t);
    }
}

proof fn lemma_first_eligible_index(s: Seq<ScoredView>, floor: Option<(Seq<char>, int)>)
    ensures
        match first_eligible(s, floor) {
            Some(b) => exists|k: int| 0 <= k < s.len() && s[k] == b && spec_satisfies_floor(b, floor)
                && forall|m: int| 0 <= m < k ==> !spec_satisfies_floor(#[trigger] s[m], floor),
            None => forall|m: int| 0 <= m < s.len() ==> !spec_satisfies_floor(#[trigger] s[m], floor),
        },
    decreases s.len(),
{
    if s.len() > 0 && !spec_satisfies_floor(s[0], floor) {
        let t = s.drop_first();
        lemma_first_eligible_index(t, floor);
        match first_eligible(t, floor) {
            Some(b) => {
                let k = choose|k: int| 0 <= k < t.len() && t[k] == b && spec_satisfies_floor(b, floor)
                    && forall|m: int| 0 <= m < k ==> !spec_satisfies_floor(#[trigger] t[m], floor);
                assert forall|m: int| 0 <= m < k + 1 implies !spec_satisfies_floor(#[trigger] s[m], floor) by {
                    if m > 0 {
                        assert(s[m] == t[m - 1]);
                    }
                }
                assert(s[k + 1] == b);
            },
            None => {
                assert forall|m: int| 0 <= m < s.len() implies !spec_satisfies_floor(#[trigger] s[m], floor) by {
                    if m > 0 {
                        assert(s[m] == t[m - 1]);
                    }
                }
            },
        }
    }
}

/// The best candidate is the highest-scoring one that meets the floor: it is
/// one of the scored candidates, it meets the floor, and no candidate that
/// meets the floor has a higher total. There is none exactly when no
/// candidate meets the floor.
pub proof fn law_best_is_highest_eligible(s: Seq<ScoredView>, floor: Option<(Seq<char>, int)>)
    ensures
        match first_eligible(sort_desc(s), floor) {
            Some(b) => s.contains(b) && spec_satisfies_floor(b, floor)
                && forall|i: int| 0 <= i < s.len() && spec_satisfies_floor(#[trigger] s[i], floor) ==> s[i].total <= b.total,
            None => forall|i: int| 0 <= i < s.len() ==> !spec_satisfies_floor(#[trigger] s[i], floor),
        },
{
    broadcast use vstd::seq_lib::group_to_multiset_ensures;
    let r = sort_desc(s);
    law_ranking_keeps_every_candidate(s);
    law_ranking_is_descending(s);
    lemma_first_eligible_index(r, floor);
    match first_eligible(r, floor) {
        Some(b) => {
            lemma_sort_members(s, b);
            let k = choose|k: int| 0 <= k < r.len() && r[k] == b && spec_satisfies_floor(b, floor)
                && forall|m: int| 0 <= m < k ==> !spec_satisfies_floor(#[trigger] r[m], floor);
            assert forall|i: int| 0 <= i < s.len() && spec_satisfies_floor(#[trigger] s[i], floor) implies s[i].total <= b.total by {
                assert(s.to_multiset().count(s[i]) > 0);
                assert(r.contains(s[i]));
                let m = choose|m: int| 0 <= m < r.len() && r[m] == s[i];
                if m < k {
                    assert(!spec_satisfies_floor(r[m], floor));
                } else if m > k {
                    assert(r[k].total >= r[m].total);
                }
            }
        },
        None => {
            assert forall|i: int| 0 <= i < s.len() implies !spec_satisfies_floor(#[trigger] s[i], floor) by {
                assert(s.to_multiset().count(s[i]) > 0);
                assert(r.contains(s[i]));
                let m = choose|m: int| 0 <= m < r.len() && r[m] == s[i];
                assert(!spec_satisfies_floor(r[m], floor));
            }
        },
    }
}

proof fn lemma_first_eligible_push(x: Seq<ScoredView>, y: ScoredView, floor: Option<(Seq<char>, int)>)
    ensures
        first_eligible(x.push(y), floor) == match first_eligible(x, floor) {
            Some(b) => Some(b),
            None => if spec_satisfies_floor(y, floor) { Some(y) } else { None::<ScoredView> },
        },
    decreases x.len(),
{
    if x.len() == 0 {
        assert(x.push(y)[0] == y);
        assert(x.push(y).drop_first() =~= Seq::<ScoredView>::empty());
    } else {
        assert(x.push(y)[0] == x[0]);
        assert(x.push(y).drop_first() =~= x.drop_first().push(y));
        lemma_first_eligible_push(x.drop_first(), y, floor);
    }
}

proof fn lemma_first_eligible_filter(r: Seq<ScoredView>, t: i32, floor: Option<(Seq<char>, int)>)
    ensures
        match first_eligible(r, floor) {
            Some(b) => b.total == t ==> first_eligible(r.filter(has_total(t)), floor) == Some(b),
            None => first_eligible(r.filter(has_total(t)), floor) is None,
        },
    decreases r.len(),
{
    if r.len() == 0 {
        reveal(Seq::filter);
        assert(r.filter(has_total(t)) =~= r);
    } else {
        let x = r.drop_last();
        let y = r.last();
        assert(r =~= x.push(y));
        lemma_first_eligible_filter(x, t, floor);
        lemma_first_eligible_push(x, y, floor);
        lemma_filter_push(x, y, t);
        if y.total == t {
            lemma_first_eligible_push(x.filter(has_total(t)), y, floor);
        }
    }
}

/// Ties go to generation order: the best candidate (the first in the
/// ranking that meets the floor) is also the first candidate, in
/// generation order, that meets the floor among those sharing its total.
/// The ranking is a function of the scored candidates alone, so the same
/// inputs always select the same candidate.
pub proof fn law_tie_goes_to_first_generated(s: Seq<ScoredView>, floor: Option<(Seq<char>, int)>)
    ensures
        match first_eligible(sort_desc(s), floor) {
            Some(b) => first_eligible(s.filter(has_total(b.total)), floor) == Some(b),
            None => true,
        },
{
    match first_eligible(sort_desc(s), floor) {
        Some(b) => {
            lemma_first_eligible_filter(sort_desc(s), b.total, floor);
            law_ranking_is_stable(s, b.total);
        },
        None => {},
    }
}

} // verus!
