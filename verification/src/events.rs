//! The earlier model of offers: a dated event kind with titled outcomes, two offers being
//! the same when their dates and kinds agree and some outcome titles match loosely.

use vstd::prelude::*;
use crate::markets::{Outcome, OutcomeView, is_draw, title_is_draw};
use crate::text::{is_alphabetic, lowercase, chars_of, char_is_alphabetic, char_lowercase};

verus! {

/// The letters of a string (the characters that are alphabetic), in order.
pub open spec fn letters(s: Seq<char>) -> Seq<char>
    decreases s.len(),
{
    if s.len() == 0 {
        Seq::empty()
    } else if is_alphabetic(s.last()) {
        letters(s.drop_last()).push(s.last())
    } else {
        letters(s.drop_last())
    }
}

/// Two characters agree up to case: the lowercase forms agree on their common length.
pub open spec fn same_letter(a: char, b: char) -> bool {
    let la = lowercase(a);
    let lb = lowercase(b);
    forall|k: int| 0 <= k < la.len() && k < lb.len() ==> la[k] == lb[k]
}

/// Two titles are loosely equal when, over the common length of their letter sequences,
/// the letters agree pairwise up to case; anything else in the titles is ignored.
pub open spec fn fuzzy_equal(lhs: Seq<char>, rhs: Seq<char>) -> bool {
    let l = letters(lhs);
    let r = letters(rhs);
    forall|i: int| 0 <= i < l.len() && i < r.len() ==> same_letter(l[i], r[i])
}

/// The letters of `s`.
fn letters_of(s: &str) -> (v: Vec<char>)
    ensures
        v@ == letters(s@),
{
    let chars = chars_of(s);
    let mut v: Vec<char> = Vec::new();
    let mut i: usize = 0;
    while i < chars.len()
        invariant
            i <= chars.len(),
            chars@ == s@,
            v@ == letters(chars@.take(i as int)),
        decreases chars.len() - i,
    {
        let c = chars[i];
        proof {
            let t = chars@.take(i as int + 1);
            assert(t.drop_last() == chars@.take(i as int));
            assert(t.last() == c);
        }
        if char_is_alphabetic(c) {
            v.push(c);
        }
        i = i + 1;
    }
    proof {
        assert(chars@.take(chars.len() as int) == chars@);
    }
    v
}

/// Whether two characters agree up to case.
fn letters_agree(a: char, b: char) -> (r: bool)
    ensures
        r == same_letter(a, b),
{
    let la = char_lowercase(a);
    let lb = char_lowercase(b);
    let mut k: usize = 0;
    while k < la.len() && k < lb.len()
        invariant
            k <= la.len(),
            k <= lb.len(),
            la@ == lowercase(a),
            lb@ == lowercase(b),
            forall|j: int| 0 <= j < k ==> la@[j] == lb@[j],
        decreases la.len() - k,
    {
        if la[k] != lb[k] {
            return false;
        }
        k = k + 1;
    }
    true
}

/// Compares two titles letter by letter, ignoring case and everything that is not a
/// letter; only as many letters as the shorter title has are compared.
pub fn fuzzy_eq(lhs: &str, rhs: &str) -> (r: bool)
    ensures
        r == fuzzy_equal(lhs@, rhs@),
{
    let left = letters_of(lhs);
    let right = letters_of(rhs);
    let mut i: usize = 0;
    while i < left.len() && i < right.len()
        invariant
            i <= left.len(),
            i <= right.len(),
            left@ == letters(lhs@),
            right@ == letters(rhs@),
            forall|j: int| 0 <= j < i ==> same_letter(left@[j], right@[j]),
        decreases left.len() - i,
    {
        if !letters_agree(left[i], right[i]) {
            return false;
        }
        i = i + 1;
    }
    true
}

/// Loose title equality does not depend on the order of its arguments.
pub proof fn fuzzy_eq_is_symmetric(lhs: Seq<char>, rhs: Seq<char>)
    ensures
        fuzzy_equal(lhs, rhs) == fuzzy_equal(rhs, lhs),
{
    let l = letters(lhs);
    let r = letters(rhs);
    if fuzzy_equal(lhs, rhs) {
        assert forall|i: int| 0 <= i < r.len() && i < l.len() implies same_letter(r[i], l[i]) by {
            assert(same_letter(l[i], r[i]));
        }
    }
    if fuzzy_equal(rhs, lhs) {
        assert forall|i: int| 0 <= i < l.len() && i < r.len() implies same_letter(l[i], r[i]) by {
            assert(same_letter(r[i], l[i]));
        }
    }
}

/// Every title is loosely equal to itself.
pub proof fn fuzzy_eq_is_reflexive(title: Seq<char>)
    ensures
        fuzzy_equal(title, title),
{
}

/// Markets of Dota 2 matches: the series, one map of it (`SingleMap`), first blood or
/// the first ten kills on a map.
#[derive(Debug, Clone, Copy, PartialEq, Eq, Structural, Hash)]
pub enum Dota2 {
    Series,
    SingleMap(u32),
    FirstBlood(u32),
    First10Kills(u32),
}

/// Kinds of events.
#[derive(Debug, Clone, Copy, PartialEq, Eq, Structural, Hash)]
pub enum Kind {
    Dota2(Dota2),
}

/// An offer of this model: the start of the event (Unix seconds), its kind, the outcomes
/// and the bookmaker's id of it.
#[derive(Debug)]
pub struct Offer {
    pub date: i64,
    pub kind: Kind,
    pub outcomes: Vec<Outcome>,
    pub inner_id: u64,
}

/// Whether two offers are about the same event: the same start and kind, and a title of
/// the first (not the draw) loosely equal to some title of the second.
pub open spec fn same_event(date_a: i64, kind_a: Kind, a: Seq<OutcomeView>, date_b: i64, kind_b: Kind, b: Seq<OutcomeView>) -> bool {
    &&& date_a == date_b
    &&& kind_a == kind_b
    &&& exists|i: int, k: int| 0 <= i < a.len() && 0 <= k < b.len() && !is_draw(a[i].0) && #[trigger] fuzzy_equal(a[i].0, b[k].0)
}

impl Offer {
    /// Whether the two offers are about the same event (see `same_event`).
    pub fn same_event(&self, other: &Offer) -> (r: bool)
        ensures
            r == same_event(self.date, self.kind, self.outcomes@.map_values(|o: Outcome| o@), other.date, other.kind, other.outcomes@.map_values(|o: Outcome| o@)),
    {
        let ghost a = self.outcomes@.map_values(|o: Outcome| o@);
        let ghost b = other.outcomes@.map_values(|o: Outcome| o@);
        if self.date != other.date || self.kind != other.kind {
            return false;
        }
        let mut i: usize = 0;
        while i < self.outcomes.len()
            invariant
                i <= self.outcomes.len(),
                self.date == other.date,
                self.kind == other.kind,
                a == self.outcomes@.map_values(|o: Outcome| o@),
                b == other.outcomes@.map_values(|o: Outcome| o@),
                forall|x: int, k: int| 0 <= x < i && 0 <= k < b.len() && !is_draw(a[x].0) ==> !#[trigger] fuzzy_equal(a[x].0, b[k].0),
            decreases self.outcomes.len() - i,
        {
            let fst = &self.outcomes[i];
            proof {
                assert(a[i as int] == fst@);
            }
            if !title_is_draw(fst.0.as_str()) {
                let mut k: usize = 0;
                while k < other.outcomes.len()
                    invariant
                        i < self.outcomes.len(),
                        self.date == other.date,
                        self.kind == other.kind,
                        k <= other.outcomes.len(),
                        a == self.outcomes@.map_values(|o: Outcome| o@),
                        b == other.outcomes@.map_values(|o: Outcome| o@),
                        a[i as int] == fst@,
                        !is_draw(a[i as int].0),
                        forall|y: int| 0 <= y < k ==> !#[trigger] fuzzy_equal(a[i as int].0, b[y].0),
                    decreases other.outcomes.len() - k,
                {
                    proof {
                        assert(b[k as int] == other.outcomes@[k as int]@);
                    }
                    if fuzzy_eq(fst.0.as_str(), other.outcomes[k].0.as_str()) {
                        proof {
                            assert(a.len() == self.outcomes.len());
                            assert(b.len() == other.outcomes.len());
                            assert(fuzzy_equal(a[i as int].0, b[k as int].0));
                            assert(0 <= i < a.len() && 0 <= k < b.len() && !is_draw(a[i as int].0));
                        }
                        return true;
                    }
                    k = k + 1;
                }
            }
            i = i + 1;
        }
        false
    }
}

/// Whether outcome `a` goes no later than `b` when outcomes are ordered by their odds,
/// lowest first, with the draw last.
pub open spec fn goes_before(a: OutcomeView, b: OutcomeView) -> bool {
    is_draw(b.0) || (!is_draw(a.0) && a.1 <= b.1)
}

/// Whether some outcomes are in order of their odds, the draw last.
pub open spec fn in_coef_order(s: Seq<OutcomeView>) -> bool {
    forall|i: int, j: int| 0 <= i < j < s.len() ==> goes_before(#[trigger] s[i], #[trigger] s[j])
}

/// The views of some outcomes taken by reference.
pub open spec fn ref_views(s: Seq<&Outcome>) -> Seq<OutcomeView> {
    s.map_values(|o: &Outcome| o@)
}

/// The outcomes of an offer in order of their odds, lowest first, with the draw last: the
/// same outcomes, put in that order.
pub fn sort_outcomes_by_coef<'a>(outcomes: &'a Vec<Outcome>) -> (r: Vec<&'a Outcome>)
    ensures
        ref_views(r@).to_multiset() == outcomes@.map_values(|o: Outcome| o@).to_multiset(),
        in_coef_order(ref_views(r@)),
{
    broadcast use vstd::multiset::group_multiset_axioms;
    let ghost all = outcomes@.map_values(|o: Outcome| o@);
    let mut r: Vec<&'a Outcome> = Vec::new();
    let mut i: usize = 0;
    proof {
        assert(all.take(0) =~= Seq::<OutcomeView>::empty());
        assert(ref_views(r@) =~= Seq::<OutcomeView>::empty());
    }
    while i < outcomes.len()
        invariant
            i <= outcomes@.len(),
            all == outcomes@.map_values(|o: Outcome| o@),
            ref_views(r@).to_multiset() == all.take(i as int).to_multiset(),
            in_coef_order(ref_views(r@)),
        decreases outcomes@.len() - i,
    {
        let o = &outcomes[i];
        let draw = title_is_draw(o.0.as_str());
        // The place of the new outcome: after every outcome that goes before it.
        let mut k: usize = r.len();
        while k > 0 && !draw && (title_is_draw(r[k - 1].0.as_str()) || o.1 < r[k - 1].1)
            invariant
                k <= r@.len(),
                draw == is_draw(o@.0),
                forall|q: int| k <= q < r@.len() ==> !goes_before(#[trigger] ref_views(r@)[q], o@),
            decreases k,
        {
            proof {
                assert(ref_views(r@)[k - 1] == r@[k - 1]@);
            }
            k = k - 1;
        }
        proof {
            if k > 0 {
                assert(ref_views(r@)[k - 1] == r@[k - 1]@);
                assert(goes_before(ref_views(r@)[k - 1], o@));
            }
        }
        let ghost before = ref_views(r@);
        r.insert(k, o);
        proof {
            let after = ref_views(r@);
            assert(after =~= before.insert(k as int, o@));
            assert(all.take(i + 1) =~= all.take(i as int).push(all[i as int]));
            assert(all[i as int] == o@);
            assert(after.to_multiset() =~= before.to_multiset().insert(o@)) by {
                vstd::seq_lib::to_multiset_insert(before, k as int, o@);
            }
            all.take(i as int).to_multiset_ensures();
            assert(all.take(i + 1).to_multiset() =~= all.take(i as int).to_multiset().insert(o@));
            assert forall|x: int, y: int| 0 <= x < y < after.len() implies goes_before(#[trigger] after[x], #[trigger] after[y]) by {
                if y < k {
                    assert(after[x] == before[x] && after[y] == before[y]);
                } else if y == k {
                    assert(after[x] == before[x]);
                    assert(after[y] == o@);
                    assert(goes_before(before[k - 1], o@));
                    if x < k - 1 {
                        assert(goes_before(before[x], before[k - 1]));
                    }
                } else if x < k {
                    assert(after[x] == before[x] && after[y] == before[y - 1]);
                } else if x == k {
                    assert(after[x] == o@);
                    assert(after[y] == before[y - 1]);
                    assert(!goes_before(before[y - 1], o@));
                } else {
                    assert(after[x] == before[x - 1] && after[y] == before[y - 1]);
                }
            }
        }
        i = i + 1;
    }
    proof {
        assert(all.take(outcomes@.len() as int) =~= all);
    }
    r
}

/// What putting outcomes in the order of an ideal line does after `n` steps: at each step
/// `i`, outcomes `i` and `i + 1` swap when the ideal title at `i` loosely equals the title
/// at `i + 1`, or the title at `i` the ideal one at `i + 1`.
pub open spec fn permuted(outs: Seq<OutcomeView>, ideal: Seq<OutcomeView>, n: nat) -> Seq<OutcomeView>
    decreases n,
{
    if n == 0 {
        outs
    } else {
        let prev = permuted(outs, ideal, (n - 1) as nat);
        let i = n - 1;
        if fuzzy_equal(ideal[i].0, prev[i + 1].0) || fuzzy_equal(prev[i].0, ideal[i + 1].0) {
            prev.update(i, prev[i + 1]).update(i + 1, prev[i])
        } else {
            prev
        }
    }
}

proof fn lemma_permuted_len(outs: Seq<OutcomeView>, ideal: Seq<OutcomeView>, n: nat)
    requires
        n < outs.len(),
    ensures
        permuted(outs, ideal, n).len() == outs.len(),
    decreases n,
{
    if n > 0 {
        lemma_permuted_len(outs, ideal, (n - 1) as nat);
    }
}

/// Puts outcomes in the order of an ideal line, whose titles may be written otherwise
/// (see `permuted`): a step for each pair of neighbours of the ideal line.
pub fn comparative_permutation(outcomes: &mut Vec<&Outcome>, ideal: &Vec<&Outcome>)
    requires
        ideal@.len() > 0,
        old(outcomes)@.len() >= ideal@.len(),
    ensures
        ref_views(final(outcomes)@) == permuted(ref_views(old(outcomes)@), ref_views(ideal@), (ideal@.len() - 1) as nat),
{
    let ghost start = ref_views(outcomes@);
    let ghost iv = ref_views(ideal@);
    let mut i: usize = 0;
    while i < ideal.len() - 1
        invariant
            i <= ideal@.len() - 1,
            ideal@.len() > 0,
            outcomes@.len() == start.len(),
            start.len() >= ideal@.len(),
            iv == ref_views(ideal@),
            ref_views(outcomes@) == permuted(start, iv, i as nat),
        decreases ideal@.len() - 1 - i,
    {
        let ghost prev = ref_views(outcomes@);
        proof {
            lemma_permuted_len(start, iv, i as nat);
            assert(iv[i as int] == ideal@[i as int]@);
            assert(iv[i + 1] == ideal@[i + 1]@);
            assert(prev[i as int] == outcomes@[i as int]@);
            assert(prev[i + 1] == outcomes@[i + 1]@);
        }
        if fuzzy_eq(ideal[i].0.as_str(), outcomes[i + 1].0.as_str()) || fuzzy_eq(outcomes[i].0.as_str(), ideal[i + 1].0.as_str()) {
            let a = outcomes[i];
            let b = outcomes[i + 1];
            outcomes.set(i, b);
            outcomes.set(i + 1, a);
            proof {
                assert(ref_views(outcomes@) =~= prev.update(i as int, prev[i + 1]).update(i + 1, prev[i as int]));
            }
        }
        i = i + 1;
    }
}

} // verus!
