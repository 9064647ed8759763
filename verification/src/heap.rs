//! Candidates, their order, and the frontier that hands them out nearest first.

use crate::metrics::{is_nan, is_nan_word, is_nearer, nearer};
use std::cmp::Ordering;
use vstd::prelude::*;

verus! {

/// A node met during a traversal, with its distance word to the query.
#[derive(Copy, Clone, Debug)]
pub struct Candidate {
    pub distance: u32,
    pub index: usize,
}

/// Two candidates are equal when their distances are the same number; the index
/// breaks no tie. A distance that is not a number is equal to none, itself included.
impl PartialEq for Candidate {
    fn eq(&self, other: &Self) -> (r: bool) {
        !is_nan(self.distance) && !is_nan(other.distance) && self.distance == other.distance
    }
}

impl vstd::std_specs::cmp::PartialEqSpecImpl for Candidate {
    open spec fn obeys_eq_spec() -> bool {
        true
    }

    open spec fn eq_spec(&self, other: &Self) -> bool {
        !is_nan_word(self.distance) && !is_nan_word(other.distance) && self.distance
            == other.distance
    }
}

impl Eq for Candidate {

}

/// The order is that of the distances, turned round: the nearer candidate is the
/// greater one, so that a queue which hands out its greatest item hands out the
/// nearest candidate. Where neither is nearer the two are `Equal`: when the
/// distances are the same, and whenever one of them is not a number.
impl PartialOrd for Candidate {
    fn partial_cmp(&self, other: &Self) -> (r: Option<Ordering>) {
        if is_nearer(other.distance, self.distance) {
            Some(Ordering::Less)
        } else if is_nearer(self.distance, other.distance) {
            Some(Ordering::Greater)
        } else {
            Some(Ordering::Equal)
        }
    }
}

impl vstd::std_specs::cmp::PartialOrdSpecImpl for Candidate {
    open spec fn obeys_partial_cmp_spec() -> bool {
        true
    }

    open spec fn partial_cmp_spec(&self, other: &Self) -> Option<Ordering> {
        if nearer(other.distance, self.distance) {
            Some(Ordering::Less)
        } else if nearer(self.distance, other.distance) {
            Some(Ordering::Greater)
        } else {
            Some(Ordering::Equal)
        }
    }
}

/// `a` leaves a queue before `b`: it is the greater of the two in the order of the
/// candidates, which is to say that its distance is strictly nearer.
pub open spec fn outranks(a: Candidate, b: Candidate) -> bool {
    nearer(a.distance, b.distance)
}

/// The order of the candidates: `Greater` exactly for the candidate that outranks
/// the other, `Less` exactly for the one that is outranked, and `Equal` in every
/// other case, so whenever one of the two distances is not a number. It always
/// gives an answer, and the index plays no part in it.
pub proof fn lemma_candidate_order(a: Candidate, b: Candidate)
    ensures
        vstd::std_specs::cmp::PartialOrdSpec::partial_cmp_spec(&a, &b) == Some(Ordering::Greater)
            <==> outranks(a, b),
        vstd::std_specs::cmp::PartialOrdSpec::partial_cmp_spec(&a, &b) == Some(Ordering::Less)
            <==> outranks(b, a),
        vstd::std_specs::cmp::PartialOrdSpec::partial_cmp_spec(&a, &b) == Some(Ordering::Equal)
            <==> !outranks(a, b) && !outranks(b, a),
        is_nan_word(a.distance) || is_nan_word(b.distance) || a.distance == b.distance
            ==> vstd::std_specs::cmp::PartialOrdSpec::partial_cmp_spec(&a, &b) == Some(
            Ordering::Equal,
        ),
        !is_nan_word(a.distance) && !is_nan_word(b.distance) ==> (outranks(a, b) <==> a.distance
            < b.distance),
        vstd::std_specs::cmp::PartialEqSpec::eq_spec(&a, &b) <==> !is_nan_word(a.distance)
            && !is_nan_word(b.distance) && a.distance == b.distance,
{
}

/// The position in `s` of the candidate that leaves first: going through `s` from
/// its front, the first candidate is held, and a later one takes its place when
/// it outranks the one held. It is 0 for the empty sequence.
pub open spec fn nearest_position(s: Seq<Candidate>) -> int
    decreases s.len(),
{
    if s.len() <= 1 {
        0
    } else {
        let p = nearest_position(s.drop_last());
        if outranks(s.last(), s[p]) {
            s.len() - 1
        } else {
            p
        }
    }
}

/// No candidate outranks the one that leaves first, and that one outranks every
/// candidate before it whose distance is a number. Where the first candidate's
/// distance is not a number, it is the first candidate that leaves.
pub proof fn lemma_nearest_position(s: Seq<Candidate>)
    requires
        s.len() > 0,
    ensures
        0 <= nearest_position(s) < s.len(),
        forall|j: int| 0 <= j < s.len() ==> !outranks(#[trigger] s[j], s[nearest_position(s)]),
        forall|j: int|
            0 <= j < nearest_position(s) ==> outranks(s[nearest_position(s)], #[trigger] s[j])
                || is_nan_word(s[j].distance),
        is_nan_word(s[0].distance) ==> nearest_position(s) == 0,
        !is_nan_word(s[0].distance) ==> !is_nan_word(s[nearest_position(s)].distance),
    decreases s.len(),
{
    if s.len() > 1 {
        let t = s.drop_last();
        lemma_nearest_position(t);
        let p = nearest_position(t);
        let q = nearest_position(s);
        assert(s[p] == t[p]);
        assert(s[0] == t[0]);
        assert forall|j: int| 0 <= j < s.len() implies !outranks(#[trigger] s[j], s[q]) by {
            if j < t.len() {
                assert(s[j] == t[j]);
            }
        }
        assert forall|j: int| 0 <= j < q implies outranks(s[q], #[trigger] s[j]) || is_nan_word(
            s[j].distance,
        ) by {
            assert(s[j] == t[j]);
        }
    }
}

/// Where every waiting distance is a number, the candidate that leaves first is the
/// earliest among those of least distance.
pub proof fn lemma_nearest_of_numbers(s: Seq<Candidate>)
    requires
        s.len() > 0,
        forall|j: int| 0 <= j < s.len() ==> !is_nan_word((#[trigger] s[j]).distance),
    ensures
        forall|j: int|
            0 <= j < s.len() ==> s[nearest_position(s)].distance <= (#[trigger] s[j]).distance,
        forall|j: int|
            0 <= j < nearest_position(s) ==> s[nearest_position(s)].distance
                < (#[trigger] s[j]).distance,
{
    lemma_nearest_position(s);
    let p = nearest_position(s);
    assert forall|j: int| 0 <= j < s.len() implies s[p].distance <= (#[trigger] s[j]).distance by {
        assert(!outranks(s[j], s[p]));
    }
    assert forall|j: int| 0 <= j < p implies s[p].distance < (#[trigger] s[j]).distance by {
        assert(outranks(s[p], s[j]) || is_nan_word(s[j].distance));
    }
}

/// The candidates of a traversal that still wait to be expanded.
///
/// Candidates are kept in the order in which they came. `pop` hands out the one
/// that is greatest in the order of the candidates, which is the nearest, and of
/// several equally near the one that came first.
pub struct Frontier {
    items: Vec<Candidate>,
}

impl View for Frontier {
    type V = Seq<Candidate>;

    closed spec fn view(&self) -> Seq<Candidate> {
        self.items@
    }
}

impl Frontier {
    /// An empty frontier.
    pub fn new() -> (f: Self)
        ensures
            f@ == Seq::<Candidate>::empty(),
    {
        Frontier { items: Vec::new() }
    }

    /// The number of waiting candidates.
    pub fn len(&self) -> (n: usize)
        ensures
            n == self@.len(),
    {
        self.items.len()
    }

    /// Adds a candidate behind those that wait already.
    pub fn push(&mut self, candidate: Candidate)
        ensures
            final(self)@ == old(self)@.push(candidate),
    {
        self.items.push(candidate);
    }

    /// Takes out the candidate that leaves first, or returns `None` when none waits.
    ///
    /// No waiting candidate outranks the one handed out, so none is strictly
    /// nearer; of several that are equally near, it is the one that came first.
    pub fn pop(&mut self) -> (r: Option<Candidate>)
        ensures
            match r {
                None => old(self)@.len() == 0 && final(self)@ == old(self)@,
                Some(c) => {
                    &&& old(self)@.len() > 0
                    &&& 0 <= nearest_position(old(self)@) < old(self)@.len()
                    &&& c == old(self)@[nearest_position(old(self)@)]
                    &&& final(self)@ == old(self)@.remove(nearest_position(old(self)@))
                    &&& forall|j: int|
                        0 <= j < old(self)@.len() ==> !outranks(#[trigger] old(self)@[j], c)
                    &&& forall|j: int|
                        0 <= j < nearest_position(old(self)@) ==> outranks(
                            c,
                            #[trigger] old(self)@[j],
                        ) || is_nan_word(old(self)@[j].distance)
                    &&& is_nan_word(old(self)@[0].distance) ==> c == old(self)@[0]
                },
            },
    {
        let n = self.items.len();
        if n == 0 {
            return None;
        }
        let mut best: usize = 0;
        let mut i: usize = 1;
        while i < n
            invariant
                n == self.items@.len(),
                self.items@ == old(self)@,
                1 <= i <= n,
                best == nearest_position(self.items@.take(i as int)),
                best < i,
            decreases n - i,
        {
            proof {
                let t = self.items@.take(i as int + 1);
                assert(t.drop_last() =~= self.items@.take(i as int));
                assert(t.last() == self.items@[i as int]);
                assert(t[best as int] == self.items@[best as int]);
            }
            if self.items[i] > self.items[best] {
                best = i;
            }
            i += 1;
        }
        proof {
            assert(self.items@.take(n as int) =~= self.items@);
            lemma_nearest_position(self.items@);
        }
        let c = self.items.remove(best);
        Some(c)
    }
}

} // verus!
