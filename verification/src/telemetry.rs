//! Decision telemetry kept in memory: every recorded decision, findable by
//! its id and listed in the order first seen.

use vstd::prelude::*;
use crate::decisions::{Decision, same_uuid};

verus! {

/// The number of rows a telemetry query returns: the requested limit, held
/// between 1 and 500.
pub fn normalize_limit(limit: usize) -> (r: usize)
    ensures
        r == (if limit < 1 { 1 } else if limit > 500 { 500 } else { limit as int }),
{
    if limit < 1 {
        1
    } else if limit > 500 {
        500
    } else {
        limit
    }
}

/// The position of the decision with identifier `id`, if one is held.
pub open spec fn position_of(s: Seq<Decision>, id: uuid::Uuid) -> Option<int> {
    if exists|i: int| 0 <= i < s.len() && (#[trigger] s[i]).id == id {
        Some(choose|i: int| 0 <= i < s.len() && (#[trigger] s[i]).id == id)
    } else {
        None
    }
}

/// No two decisions share an identifier.
pub open spec fn ids_unique(s: Seq<Decision>) -> bool {
    forall|i: int, j: int| 0 <= i < s.len() && 0 <= j < s.len() && i != j ==> (#[trigger] s[i]).id != (#[trigger] s[j]).id
}

/// The log after recording `d`: a decision already held under its id is
/// replaced in place, keeping its position; a new one goes last.
pub open spec fn recorded(s: Seq<Decision>, d: Decision) -> Seq<Decision> {
    match position_of(s, d.id) {
        Some(i) => s.update(i, d),
        None => s.push(d),
    }
}

/// The decision held under `id`, if any.
pub open spec fn looked_up(s: Seq<Decision>, id: uuid::Uuid) -> Option<Decision> {
    match position_of(s, id) {
        Some(i) => Some(s[i]),
        None => None,
    }
}

/// Decisions recorded in memory, each under its own identifier, in the order
/// their identifiers were first seen; recording an identifier again replaces
/// the decision and keeps its place.
#[derive(Debug)]
pub struct InMemoryDecisionLog {
    decisions: Vec<Decision>,
}

impl InMemoryDecisionLog {
    /// The decisions held, in first-seen order.
    pub closed spec fn spec_decisions(&self) -> Seq<Decision> {
        self.decisions@
    }

    /// Well-formed: no identifier is held twice.
    pub closed spec fn wf(&self) -> bool {
        ids_unique(self.decisions@)
    }

    /// An empty log.
    pub fn new() -> (r: InMemoryDecisionLog)
        ensures
            r.wf(),
            r.spec_decisions().len() == 0,
    {
        InMemoryDecisionLog { decisions: Vec::new() }
    }

    /// Where the decision with identifier `id` is held.
    fn find(&self, id: &uuid::Uuid) -> (r: Option<usize>)
        requires
            self.wf(),
        ensures
            r is Some <==> position_of(self.decisions@, *id) is Some,
            r is Some ==> position_of(self.decisions@, *id) == Some(r->0 as int),
    {
        let mut i: usize = 0;
        while i < self.decisions.len()
            invariant
                0 <= i <= self.decisions@.len(),
                ids_unique(self.decisions@),
                forall|j: int| 0 <= j < i ==> (#[trigger] self.decisions@[j]).id != *id,
            decreases self.decisions@.len() - i,
        {
            if same_uuid(&self.decisions[i].id, id) {
                proof {
                    let s = self.decisions@;
                    assert(s[i as int].id == *id);
                    let k = choose|k: int| 0 <= k < s.len() && (#[trigger] s[k]).id == *id;
                    assert(k == i);
                }
                return Some(i);
            }
            i = i + 1;
        }
        None
    }

    /// Records `decision`, replacing one recorded under the same identifier.
    pub fn record_decision(&mut self, decision: Decision)
        requires
            old(self).wf(),
        ensures
            final(self).wf(),
            final(self).spec_decisions() == recorded(old(self).spec_decisions(), decision),
    {
        let ghost d = decision;
        match self.find(&decision.id) {
            Some(i) => {
                self.decisions.set(i, decision);
                proof {
                    let s = self.decisions@;
                    assert forall|p: int, q: int| 0 <= p < s.len() && 0 <= q < s.len() && p != q
                        implies (#[trigger] s[p]).id != (#[trigger] s[q]).id by {
                        if p != i && q != i {
                            assert(s[p] == old(self).decisions@[p]);
                            assert(s[q] == old(self).decisions@[q]);
                        } else if p == i {
                            assert(s[q] == old(self).decisions@[q]);
                            assert(old(self).decisions@[i as int].id == d.id);
                        } else {
                            assert(s[p] == old(self).decisions@[p]);
                            assert(old(self).decisions@[i as int].id == d.id);
                        }
                    }
                }
            },
            None => {
                self.decisions.push(decision);
                proof {
                    let s = self.decisions@;
                    let o = old(self).decisions@;
                    assert forall|p: int, q: int| 0 <= p < s.len() && 0 <= q < s.len() && p != q
                        implies (#[trigger] s[p]).id != (#[trigger] s[q]).id by {
                        if p < o.len() && q < o.len() {
                            assert(s[p] == o[p] && s[q] == o[q]);
                        } else if p < o.len() {
                            assert(s[p] == o[p]);
                            assert(o[p].id != d.id);
                        } else {
                            assert(s[q] == o[q]);
                            assert(o[q].id != d.id);
                        }
                    }
                }
            },
        }
    }

    /// The decision recorded under `id`, if any.
    pub fn get_decision(&self, id: &uuid::Uuid) -> (r: Option<&Decision>)
        requires
            self.wf(),
        ensures
            match r {
                Some(d) => looked_up(self.spec_decisions(), *id) == Some(*d),
                None => looked_up(self.spec_decisions(), *id) is None,
            },
    {
        match self.find(id) {
            Some(i) => Some(&self.decisions[i]),
            None => None,
        }
    }

    /// Every decision recorded, in the order first seen.
    pub fn list_decisions(&self) -> (r: &Vec<Decision>)
        ensures
            r@ == self.spec_decisions(),
    {
        &self.decisions
    }
}

/// A read gives back the last write: after recording `d`, looking up its
/// identifier finds `d`, and every other identifier finds what it found
/// before.
pub proof fn law_lookup_after_record(s: Seq<Decision>, d: Decision, id: uuid::Uuid)
    requires
        ids_unique(s),
    ensures
        looked_up(recorded(s, d), d.id) == Some(d),
        id != d.id ==> looked_up(recorded(s, d), id) == looked_up(s, id),
{
    let r = recorded(s, d);
    match position_of(s, d.id) {
        Some(i) => {
            assert(r[i] == d);
            let k = choose|k: int| 0 <= k < r.len() && (#[trigger] r[k]).id == d.id;
            if k != i {
                assert(r[k] == s[k]);
                assert(s[i].id == d.id);
            }
            if id != d.id {
                if position_of(s, id) is Some {
                    let j = choose|j: int| 0 <= j < s.len() && (#[trigger] s[j]).id == id;
                    assert(r[j] == s[j]);
                    let kk = choose|kk: int| 0 <= kk < r.len() && (#[trigger] r[kk]).id == id;
                    if kk != j {
                        assert(r[kk] == s[kk]);
                        if kk == i {
                            assert(r[kk].id == d.id);
                        }
                    }
                } else {
                    assert forall|q: int| 0 <= q < r.len() implies (#[trigger] r[q]).id != id by {
                        if q != i {
                            assert(r[q] == s[q]);
                        }
                    }
                }
            }
        },
        None => {
            assert(r[s.len() as int] == d);
            let k = choose|k: int| 0 <= k < r.len() && (#[trigger] r[k]).id == d.id;
            if k < s.len() {
                assert(r[k] == s[k]);
            }
            if id != d.id {
                if position_of(s, id) is Some {
                    let j = choose|j: int| 0 <= j < s.len() && (#[trigger] s[j]).id == id;
                    assert(r[j] == s[j]);
                    let kk = choose|kk: int| 0 <= kk < r.len() && (#[trigger] r[kk]).id == id;
                    if kk < s.len() {
                        assert(r[kk] == s[kk]);
                    }
                } else {
                    assert forall|q: int| 0 <= q < r.len() implies (#[trigger] r[q]).id != id by {
                        if q < s.len() {
                            assert(r[q] == s[q]);
                        }
                    }
                }
            }
        },
    }
}

/// Recording never reorders: every decision held before keeps its position,
/// and the log grows only when the identifier is new.
pub proof fn law_record_keeps_first_seen_order(s: Seq<Decision>, d: Decision)
    ensures
        recorded(s, d).len() == (if position_of(s, d.id) is Some { s.len() } else { s.len() + 1 }),
        forall|i: int| 0 <= i < s.len() && s[i].id != d.id ==> (#[trigger] recorded(s, d)[i]) == s[i],
{
    match position_of(s, d.id) {
        Some(p) => {
            assert(s[p].id == d.id);
        },
        None => {},
    }
}

} // verus!
