use vstd::prelude::*;

verus! {

/// A held or offered entry: an item name and its score. Scores are integers;
/// a caller that measures similarity otherwise maps its measure onto them in
/// an order-preserving way.
pub type Scored = (String, i64);

/// Every score in `s` is at least every score that comes after it.
pub open spec fn sorted_desc(s: Seq<Scored>) -> bool {
    forall|i: int, j: int| 0 <= i < j < s.len() ==> s[i].1 >= s[j].1
}

/// Where an entry with `score` goes in a descending sequence: after every
/// entry whose score is at least as high, so that older entries win ties.
pub open spec fn insert_pos(s: Seq<Scored>, score: i64) -> int
    decreases s.len(),
{
    if s.len() == 0 {
        0
    } else if s[0].1 < score {
        0
    } else {
        1 + insert_pos(s.drop_first(), score)
    }
}

/// `s` with `(name, score)` placed at its position.
pub open spec fn place(s: Seq<Scored>, name: String, score: i64) -> Seq<Scored> {
    s.insert(insert_pos(s, score), (name, score))
}

/// One offer to a selector of capacity `cap` that holds `s`: taken while
/// there is room; once full, taken in place of the last (lowest) entry
/// only when strictly higher; otherwise nothing changes.
pub open spec fn step(cap: nat, s: Seq<Scored>, name: String, score: i64) -> Seq<Scored> {
    if s.len() < cap {
        place(s, name, score)
    } else if s.len() > 0 && score > s.last().1 {
        place(s.drop_last(), name, score)
    } else {
        s
    }
}

/// What a selector of capacity `cap` holds after the offers `offers`, in order.
pub open spec fn run(cap: nat, offers: Seq<Scored>) -> Seq<Scored>
    decreases offers.len(),
{
    if offers.len() == 0 {
        Seq::empty()
    } else {
        let prev = run(cap, offers.drop_last());
        step(cap, prev, offers.last().0, offers.last().1)
    }
}

/// Offer `i` was turned away: the selector was full and its lowest entry
/// scored at least as high.
pub open spec fn skipped_at(cap: nat, offers: Seq<Scored>, i: int) -> bool {
    let before = run(cap, offers.take(i));
    &&& before.len() >= cap
    &&& !(before.len() > 0 && offers[i].1 > before.last().1)
}

pub proof fn lemma_insert_pos_bounds(s: Seq<Scored>, score: i64)
    ensures
        0 <= insert_pos(s, score) <= s.len(),
        forall|j: int| 0 <= j < insert_pos(s, score) ==> s[j].1 >= score,
        insert_pos(s, score) < s.len() ==> s[insert_pos(s, score)].1 < score,
    decreases s.len(),
{
    if s.len() > 0 && s[0].1 >= score {
        lemma_insert_pos_bounds(s.drop_first(), score);
        assert forall|j: int| 0 <= j < insert_pos(s, score) implies s[j].1 >= score by {
            if j > 0 {
                assert(s[j] == s.drop_first()[j - 1]);
            }
        }
    }
}

/// The position is the only one with older, at-least-as-high entries before
/// it and a lower entry (or the end) at it.
pub proof fn lemma_insert_pos_unique(s: Seq<Scored>, score: i64, p: int)
    requires
        0 <= p <= s.len(),
        forall|j: int| 0 <= j < p ==> s[j].1 >= score,
        p < s.len() ==> s[p].1 < score,
    ensures
        insert_pos(s, score) == p,
    decreases s.len(),
{
    if p > 0 {
        let t = s.drop_first();
        assert forall|j: int| 0 <= j < p - 1 implies t[j].1 >= score by {
            assert(t[j] == s[j + 1]);
        }
        if p - 1 < t.len() {
            assert(t[p - 1] == s[p]);
        }
        lemma_insert_pos_unique(t, score, p - 1);
    }
}

pub proof fn lemma_place_sorted(s: Seq<Scored>, name: String, score: i64)
    requires
        sorted_desc(s),
    ensures
        sorted_desc(place(s, name, score)),
        place(s, name, score).len() == s.len() + 1,
{
    lemma_insert_pos_bounds(s, score);
    let p = insert_pos(s, score);
    let r = place(s, name, score);
    assert forall|i: int, j: int| 0 <= i < j < r.len() implies r[i].1 >= r[j].1 by {
        if j < p {
        } else if j == p {
        } else if i < p {
            assert(r[j] == s[j - 1]);
        } else if i == p {
            assert(r[j] == s[j - 1]);
            assert(s[p].1 < score);
        } else {
            assert(r[i] == s[i - 1]);
            assert(r[j] == s[j - 1]);
        }
    }
}

/// Every entry of `place(s, ..)` is the new pair or an entry of `s`.
pub proof fn lemma_place_members(s: Seq<Scored>, name: String, score: i64)
    ensures
        forall|e: Scored| #[trigger]
            place(s, name, score).contains(e) ==> e == (name, score) || s.contains(e),
{
    lemma_insert_pos_bounds(s, score);
    let p = insert_pos(s, score);
    let r = place(s, name, score);
    assert forall|e: Scored| #[trigger] r.contains(e) implies e == (name, score) || s.contains(
        e,
    ) by {
        let k = choose|k: int| 0 <= k < r.len() && r[k] == e;
        if k < p {
            assert(s[k] == e);
        } else if k > p {
            assert(s[k - 1] == e);
        }
    }
}

pub proof fn lemma_step_wf(cap: nat, s: Seq<Scored>, name: String, score: i64)
    requires
        sorted_desc(s),
        s.len() <= cap,
        cap >= 1,
    ensures
        sorted_desc(step(cap, s, name, score)),
        step(cap, s, name, score).len() <= cap,
        s.len() < cap ==> step(cap, s, name, score).len() == s.len() + 1,
        s.len() == cap ==> step(cap, s, name, score).len() == cap,
{
    if s.len() < cap {
        lemma_place_sorted(s, name, score);
    } else if s.len() > 0 && score > s.last().1 {
        let t = s.drop_last();
        assert(sorted_desc(t)) by {
            assert forall|i: int, j: int| 0 <= i < j < t.len() implies t[i].1 >= t[j].1 by {
                assert(t[i] == s[i] && t[j] == s[j]);
            }
        }
        lemma_place_sorted(t, name, score);
    }
}

pub proof fn lemma_run_wf(cap: nat, offers: Seq<Scored>)
    requires
        cap >= 1,
    ensures
        sorted_desc(run(cap, offers)),
        run(cap, offers).len() <= cap,
        run(cap, offers).len() == if offers.len() < cap { offers.len() } else { cap },
    decreases offers.len(),
{
    if offers.len() > 0 {
        lemma_run_wf(cap, offers.drop_last());
        lemma_step_wf(cap, run(cap, offers.drop_last()), offers.last().0, offers.last().1);
    }
}

/// Once full, an offer leaves every held entry at or above any floor that
/// the held entries were all at or above.
pub proof fn lemma_step_keeps_floor(cap: nat, s: Seq<Scored>, name: String, score: i64, floor: i64)
    requires
        sorted_desc(s),
        s.len() == cap,
        cap >= 1,
        forall|k: int| 0 <= k < s.len() ==> s[k].1 >= floor,
    ensures
        forall|k: int|
            0 <= k < step(cap, s, name, score).len() ==> #[trigger] step(cap, s, name, score)[k].1
                >= floor,
{
    if score > s.last().1 {
        let t = s.drop_last();
        let r = step(cap, s, name, score);
        lemma_insert_pos_bounds(t, score);
        let p = insert_pos(t, score);
        assert forall|k: int| 0 <= k < r.len() implies #[trigger] r[k].1 >= floor by {
            if k < p {
                assert(r[k] == s[k]);
            } else if k == p {
                assert(s[s.len() - 1].1 >= floor);
            } else {
                assert(r[k] == s[k - 1]);
            }
        }
    }
}

/// Whatever the offers, the selector holds at most `cap` entries, in
/// non-increasing order of score, and each of them scores at least as high
/// as every offer that was turned away.
pub proof fn lemma_top_k_keeps_best(cap: nat, offers: Seq<Scored>)
    requires
        cap >= 1,
    ensures
        run(cap, offers).len() <= cap,
        sorted_desc(run(cap, offers)),
        forall|i: int, k: int|
            0 <= i < offers.len() && 0 <= k < run(cap, offers).len() && skipped_at(cap, offers, i)
                ==> #[trigger] run(cap, offers)[k].1 >= #[trigger] offers[i].1,
    decreases offers.len(),
{
    lemma_run_wf(cap, offers);
    if offers.len() > 0 {
        let n = offers.len() - 1;
        let front = offers.drop_last();
        let prev = run(cap, front);
        let cur = run(cap, offers);
        lemma_top_k_keeps_best(cap, front);
        lemma_run_wf(cap, front);
        assert forall|i: int, k: int|
            0 <= i < offers.len() && 0 <= k < cur.len() && skipped_at(
                cap,
                offers,
                i,
            ) implies #[trigger] cur[k].1 >= #[trigger] offers[i].1 by {
            if i == n {
                // the last offer was turned away: nothing changed
                assert(offers.take(n) =~= front);
                assert(cur == prev);
                assert(prev[k].1 >= prev[prev.len() - 1].1);
            } else {
                assert(offers.take(i) =~= front.take(i));
                assert(front[i] == offers[i]);
                assert(skipped_at(cap, front, i));
                lemma_run_wf(cap, front.take(i));
                assert(prev.len() == cap);
                assert forall|m: int| 0 <= m < prev.len() implies prev[m].1 >= offers[i].1 by {
                    assert(prev[m].1 >= front[i].1);
                }
                lemma_step_keeps_floor(cap, prev, offers.last().0, offers.last().1, offers[i].1);
            }
        }
    }
}

/// Every entry the selector holds was offered to it.
pub proof fn lemma_run_members(cap: nat, offers: Seq<Scored>)
    ensures
        forall|e: Scored| #[trigger] run(cap, offers).contains(e) ==> offers.contains(e),
    decreases offers.len(),
{
    if offers.len() > 0 {
        let front = offers.drop_last();
        let prev = run(cap, front);
        let (name, score) = offers.last();
        lemma_run_members(cap, front);
        lemma_place_members(prev, name, score);
        lemma_place_members(prev.drop_last(), name, score);
        assert forall|e: Scored| #[trigger] run(cap, offers).contains(e) implies offers.contains(
            e,
        ) by {
            if e == (name, score) {
                assert(offers[offers.len() - 1] == e);
            } else {
                if prev.len() > 0 && prev.drop_last().contains(e) {
                    let k = choose|k: int| 0 <= k < prev.drop_last().len() && prev.drop_last()[k] == e;
                    assert(prev[k] == e);
                }
                assert(prev.contains(e));
                let k = choose|k: int| 0 <= k < front.len() && front[k] == e;
                assert(offers[k] == e);
            }
        }
    }
}

/// Offering the same pair twice to a fresh selector with room for two keeps
/// both copies: the selector does not merge equal names.
pub proof fn lemma_same_pair_twice(cap: nat, name: String, score: i64)
    requires
        cap >= 2,
    ensures
        run(cap, seq![(name, score), (name, score)]) == seq![(name, score), (name, score)],
{
    let offers = seq![(name, score), (name, score)];
    assert(offers.drop_last() =~= seq![(name, score)]);
    assert(seq![(name, score)].drop_last() =~= Seq::<Scored>::empty());
    let one = run(cap, seq![(name, score)]);
    assert(run(cap, Seq::<Scored>::empty()) == Seq::<Scored>::empty());
    assert(insert_pos(Seq::<Scored>::empty(), score) == 0);
    assert(Seq::<Scored>::empty().insert(0, (name, score)) =~= seq![(name, score)]);
    assert(one =~= seq![(name, score)]);
    assert(one.drop_first() =~= Seq::<Scored>::empty());
    assert(insert_pos(one, score) == 1);
    assert(run(cap, offers) =~= seq![(name, score), (name, score)]);
}

/// Why a selector could not be made.
#[derive(Debug, PartialEq, Eq, Structural, Clone, Copy)]
pub enum TopKError {
    /// A selector must hold at least one entry.
    InvalidCapacity,
}

/// A bounded selector that keeps the `capacity` highest-scoring entries
/// offered to it, in descending order of score, older entries first among
/// equal scores.
pub struct Recommendations {
    capacity: usize,
    entries: Vec<Scored>,
}

impl View for Recommendations {
    type V = Seq<Scored>;

    closed spec fn view(&self) -> Seq<Scored> {
        self.entries@
    }
}

impl Recommendations {
    /// The most entries this selector keeps.
    pub closed spec fn cap(&self) -> nat {
        self.capacity as nat
    }

    pub closed spec fn wf(&self) -> bool {
        &&& self.capacity >= 1
        &&& self.entries@.len() <= self.capacity
        &&& sorted_desc(self.entries@)
    }

    pub fn new(capacity: usize) -> (r: Result<Recommendations, TopKError>)
        ensures
            capacity >= 1 <==> r is Ok,
            r is Err ==> r == Err::<Recommendations, TopKError>(TopKError::InvalidCapacity),
            r matches Ok(s) ==> s.wf() && s.cap() == capacity && s@ == Seq::<Scored>::empty(),
    {
        if capacity == 0 {
            return Err(TopKError::InvalidCapacity);
        }
        Ok(Recommendations { capacity, entries: Vec::new() })
    }

    /// The index at which an entry with `score` is placed.
    fn position_for(&self, score: i64) -> (p: usize)
        requires
            self.wf(),
        ensures
            p as int == insert_pos(self.entries@, score),
            p <= self.entries@.len(),
    {
        let mut i: usize = 0;
        while i < self.entries.len() && self.entries[i].1 >= score
            invariant
                i <= self.entries@.len(),
                forall|j: int| 0 <= j < i ==> self.entries@[j].1 >= score,
            decreases self.entries@.len() - i,
        {
            i += 1;
        }
        proof {
            lemma_insert_pos_unique(self.entries@, score, i as int);
        }
        i
    }

    /// Offers `(name, score)`: see `step`.
    pub fn insert_or_skip(&mut self, name: String, score: i64)
        requires
            old(self).wf(),
        ensures
            final(self).wf(),
            final(self).cap() == old(self).cap(),
            final(self)@ == step(old(self).cap(), old(self)@, name, score),
    {
        proof {
            lemma_step_wf(self.capacity as nat, self.entries@, name, score);
        }
        let len = self.entries.len();
        if len < self.capacity {
            let p = self.position_for(score);
            self.entries.insert(p, (name, score));
        } else if len > 0 && score > self.entries[len - 1].1 {
            self.entries.pop();
            proof {
                assert(self.entries@ =~= old(self)@.drop_last());
                assert forall|i: int, j: int|
                    0 <= i < j < self.entries@.len() implies self.entries@[i].1
                    >= self.entries@[j].1 by {
                    assert(self.entries@[i] == old(self)@[i]);
                    assert(self.entries@[j] == old(self)@[j]);
                }
            }
            let p = self.position_for(score);
            self.entries.insert(p, (name, score));
        }
    }

    /// The held entries, highest score first, older first among equal scores.
    pub fn get_recommendations(&self) -> (r: Vec<Scored>)
        ensures
            r@ == self@,
    {
        let mut r: Vec<Scored> = Vec::new();
        let mut i: usize = 0;
        while i < self.entries.len()
            invariant
                i <= self.entries@.len(),
                r@ == self.entries@.take(i as int),
            decreases self.entries@.len() - i,
        {
            let name = self.entries[i].0.clone();
            r.push((name, self.entries[i].1));
            proof {
                assert(self.entries@.take(i as int + 1) =~= self.entries@.take(i as int).push(
                    self.entries@[i as int],
                ));
            }
            i += 1;
        }
        proof {
            assert(self.entries@.take(i as int) =~= self.entries@);
        }
        r
    }
}

/// The `k` highest-scoring of `offers`, as a selector of capacity `k` holds
/// them after taking the offers in order.
pub fn top_k(offers: &Vec<Scored>, k: usize) -> (r: Result<Vec<Scored>, TopKError>)
    ensures
        k >= 1 <==> r is Ok,
        r is Err ==> r == Err::<Vec<Scored>, TopKError>(TopKError::InvalidCapacity),
        r matches Ok(v) ==> v@ == run(k as nat, offers@),
{
    let mut sel = match Recommendations::new(k) {
        Ok(s) => s,
        Err(e) => return Err(e),
    };
    let mut i: usize = 0;
    while i < offers.len()
        invariant
            i <= offers@.len(),
            sel.wf(),
            sel.cap() == k,
            sel@ == run(k as nat, offers@.take(i as int)),
        decreases offers@.len() - i,
    {
        let name = offers[i].0.clone();
        sel.insert_or_skip(name, offers[i].1);
        proof {
            let t = offers@.take(i as int + 1);
            assert(t.drop_last() =~= offers@.take(i as int));
            assert(t.last() == offers@[i as int]);
        }
        i += 1;
    }
    proof {
        assert(offers@.take(i as int) =~= offers@);
    }
    Ok(sel.get_recommendations())
}

} // verus!
