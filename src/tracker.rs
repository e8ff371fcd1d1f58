//! The bounded top-K tracker: keeps the `capacity` best-scoring candidates
//! of a stream of any length.
//!
//! Entries are kept in a vector sorted by score, highest first. Among equal
//! scores the earlier-inserted entry comes first, and a candidate only
//! displaces the current minimum when it scores strictly more: at the
//! eviction boundary the earliest-inserted candidate wins.

use vstd::prelude::*;
use vstd::multiset::Multiset;
use crate::candidate::Candidate;

verus! {

broadcast use vstd::seq_lib::group_to_multiset_ensures;

/// Scores never increase from one entry to the next.
pub open spec fn sorted_desc(s: Seq<Candidate>) -> bool {
    forall|i: int, j: int| 0 <= i < j < s.len() ==> s[i].score >= s[j].score
}

/// How many entries of `s` score at least `v`.
pub open spec fn count_at_least(s: Seq<Candidate>, v: int) -> nat
    decreases s.len(),
{
    if s.len() == 0 {
        0
    } else {
        count_at_least(s.drop_last(), v) + if s.last().score >= v {
            1nat
        } else {
            0nat
        }
    }
}

/// `s` with `c` placed after every entry that scores at least as much as `c`.
pub open spec fn place(s: Seq<Candidate>, c: Candidate) -> Seq<Candidate> {
    s.insert(count_at_least(s, c.score as int) as int, c)
}

/// Whether a tracker of capacity `cap` holding `s` takes `c` in.
pub open spec fn accepts(s: Seq<Candidate>, cap: nat, c: Candidate) -> bool {
    s.len() < cap || (s.len() > 0 && c.score > s.last().score)
}

/// What a tracker of capacity `cap` holding `s` holds after `c` is offered:
/// below capacity `c` is placed; at capacity it replaces the last (lowest)
/// entry when it scores strictly more, and is turned away otherwise.
pub open spec fn after_insert(s: Seq<Candidate>, cap: nat, c: Candidate) -> Seq<Candidate> {
    if s.len() < cap {
        place(s, c)
    } else if accepts(s, cap, c) {
        place(s.drop_last(), c)
    } else {
        s
    }
}

/// What leaves when `c` is offered: nothing below capacity, the evicted
/// minimum when `c` is taken in at capacity, `c` itself when it is turned away.
pub open spec fn dropped(s: Seq<Candidate>, cap: nat, c: Candidate) -> Seq<Candidate> {
    if s.len() < cap {
        Seq::empty()
    } else if accepts(s, cap, c) {
        seq![s.last()]
    } else {
        seq![c]
    }
}

/// The contents after each candidate of `stream` is offered in turn.
pub open spec fn insert_all(s: Seq<Candidate>, cap: nat, stream: Seq<Candidate>) -> Seq<Candidate>
    decreases stream.len(),
{
    if stream.len() == 0 {
        s
    } else {
        after_insert(insert_all(s, cap, stream.drop_last()), cap, stream.last())
    }
}

/// Everything that left while `stream` was offered, in the order it left.
pub open spec fn dropped_all(s: Seq<Candidate>, cap: nat, stream: Seq<Candidate>) -> Seq<Candidate>
    decreases stream.len(),
{
    if stream.len() == 0 {
        Seq::empty()
    } else {
        dropped_all(s, cap, stream.drop_last()) + dropped(
            insert_all(s, cap, stream.drop_last()),
            cap,
            stream.last(),
        )
    }
}

/// The scores of `s`, in order.
pub open spec fn scores(s: Seq<Candidate>) -> Seq<u64> {
    s.map_values(|c: Candidate| c.score)
}

pub open spec fn min_nat(a: nat, b: nat) -> nat {
    if a <= b {
        a
    } else {
        b
    }
}

proof fn lemma_count_le_len(s: Seq<Candidate>, v: int)
    ensures
        count_at_least(s, v) <= s.len(),
    decreases s.len(),
{
    if s.len() > 0 {
        lemma_count_le_len(s.drop_last(), v);
    }
}

/// In a sorted sequence the entries scoring at least `v` are exactly the first
/// `count_at_least(s, v)`.
proof fn lemma_count_sorted(s: Seq<Candidate>, v: int)
    requires
        sorted_desc(s),
    ensures
        count_at_least(s, v) <= s.len(),
        forall|i: int| 0 <= i < count_at_least(s, v) ==> s[i].score >= v,
        forall|i: int| count_at_least(s, v) <= i < s.len() ==> s[i].score < v,
    decreases s.len(),
{
    if s.len() > 0 {
        let d = s.drop_last();
        assert(sorted_desc(d));
        lemma_count_sorted(d, v);
        if s.last().score >= v {
            assert forall|i: int| 0 <= i < d.len() implies d[i].score >= v by {
                assert(s[i].score >= s[s.len() - 1].score);
            }
            if count_at_least(d, v) < d.len() {
                assert(d[count_at_least(d, v) as int].score < v);
            }
        }
        assert forall|i: int| 0 <= i < count_at_least(s, v) implies s[i].score >= v by {
            if i < d.len() {
                assert(s[i] == d[i]);
            }
        }
        assert forall|i: int| count_at_least(s, v) <= i < s.len() implies s[i].score < v by {
            if i < d.len() {
                assert(s[i] == d[i]);
            }
        }
    }
}

proof fn lemma_count_insert(s: Seq<Candidate>, p: int, c: Candidate, v: int)
    requires
        0 <= p <= s.len(),
    ensures
        count_at_least(s.insert(p, c), v) == count_at_least(s, v) + if c.score >= v {
            1nat
        } else {
            0nat
        },
    decreases s.len(),
{
    let t = s.insert(p, c);
    if p == s.len() {
        assert(t.drop_last() =~= s);
    } else {
        lemma_count_insert(s.drop_last(), p, c, v);
        assert(t.drop_last() =~= s.drop_last().insert(p, c));
        assert(t.last() == s.last());
    }
}

proof fn lemma_place_sorted(s: Seq<Candidate>, c: Candidate)
    requires
        sorted_desc(s),
    ensures
        sorted_desc(place(s, c)),
        place(s, c).len() == s.len() + 1,
        place(s, c).to_multiset() == s.to_multiset().insert(c),
        forall|i: int| 0 <= i < place(s, c).len() ==> place(s, c)[i] == c || s.contains(place(s, c)[i]),
        forall|v: int| count_at_least(#[trigger] place(s, c), v) == count_at_least(s, v) + if c.score >= v {
            1nat
        } else {
            0nat
        },
{
    let p = count_at_least(s, c.score as int) as int;
    lemma_count_sorted(s, c.score as int);
    let t = s.insert(p, c);
    s.insert_ensures(p, c);
    assert forall|i: int, j: int| 0 <= i < j < t.len() implies t[i].score >= t[j].score by {
        if j < p {
        } else if j == p {
        } else if i < p {
            assert(t[j] == s[j - 1]);
        } else if i == p {
            assert(t[j] == s[j - 1]);
        } else {
            assert(t[j] == s[j - 1]);
            assert(t[i] == s[i - 1]);
        }
    }
    assert forall|i: int| 0 <= i < t.len() implies t[i] == c || s.contains(t[i]) by {
        if i < p {
            assert(t[i] == s[i]);
        } else if i > p {
            assert(t[i] == s[i - 1]);
        }
    }
    assert forall|v: int| count_at_least(#[trigger] place(s, c), v) == count_at_least(s, v) + if c.score >= v {
        1nat
    } else {
        0nat
    } by {
        lemma_count_insert(s, p, c, v);
    }
}


/// A sorted sequence whose every entry scores at least `v` has all its entries counted.
proof fn lemma_count_full(s: Seq<Candidate>, v: int)
    requires
        sorted_desc(s),
        forall|i: int| 0 <= i < s.len() ==> s[i].score >= v,
    ensures
        count_at_least(s, v) == s.len(),
{
    lemma_count_sorted(s, v);
    if count_at_least(s, v) < s.len() {
        assert(s[count_at_least(s, v) as int].score >= v);
    }
}

proof fn lemma_after_insert(s: Seq<Candidate>, cap: nat, c: Candidate)
    requires
        sorted_desc(s),
        s.len() <= cap,
    ensures
        sorted_desc(after_insert(s, cap, c)),
        after_insert(s, cap, c).len() == min_nat(cap, s.len() + 1),
        after_insert(s, cap, c).to_multiset().add(dropped(s, cap, c).to_multiset())
            == s.to_multiset().insert(c),
        forall|v: int|
            count_at_least(#[trigger] after_insert(s, cap, c), v) == min_nat(
                cap,
                count_at_least(s, v) + if c.score >= v {
                    1nat
                } else {
                    0nat
                },
            ),
        dropped(s, cap, c).len() > 0 ==> s.len() == cap,
        forall|i: int, j: int|
            0 <= i < after_insert(s, cap, c).len() && 0 <= j < dropped(s, cap, c).len()
                ==> after_insert(s, cap, c)[i].score >= dropped(s, cap, c)[j].score,
        s.len() == cap && s.len() > 0 ==> forall|i: int|
            0 <= i < after_insert(s, cap, c).len() ==> #[trigger] after_insert(s, cap, c)[i].score
                >= s.last().score,
{
    let t = after_insert(s, cap, c);
    let g = dropped(s, cap, c);
    if s.len() < cap {
        lemma_place_sorted(s, c);
        assert forall|v: int|
            count_at_least(#[trigger] after_insert(s, cap, c), v) == min_nat(
                cap,
                count_at_least(s, v) + if c.score >= v {
                    1nat
                } else {
                    0nat
                },
            ) by {
            lemma_count_le_len(s, v);
        }
        assert(g.to_multiset() =~= Multiset::empty());
        assert(t.to_multiset().add(g.to_multiset()) =~= s.to_multiset().insert(c));
    } else if accepts(s, cap, c) {
        let d = s.drop_last();
        let m = s.last();
        assert(sorted_desc(d));
        lemma_place_sorted(d, c);
        assert(s =~= d.push(m));
        assert(forall|i: int| 0 <= i < d.len() ==> d[i] == s[i]);
        assert forall|i: int| 0 <= i < t.len() implies t[i].score >= m.score by {
            if t[i] != c {
                let k = choose|k: int| 0 <= k < d.len() && d[k] == t[i];
                assert(s[k].score >= s[s.len() - 1].score);
            }
        }
        assert forall|v: int|
            count_at_least(#[trigger] after_insert(s, cap, c), v) == min_nat(
                cap,
                count_at_least(s, v) + if c.score >= v {
                    1nat
                } else {
                    0nat
                },
            ) by {
            lemma_count_le_len(d, v);
            if m.score >= v {
                assert forall|i: int| 0 <= i < d.len() implies d[i].score >= v by {
                    assert(s[i].score >= s[s.len() - 1].score);
                }
                lemma_count_full(d, v);
            }
        }
        assert(g.to_multiset() =~= Multiset::empty().insert(m));
        assert(t.to_multiset().add(g.to_multiset()) =~= s.to_multiset().insert(c));
    } else {
        if s.len() > 0 {
            assert forall|i: int| 0 <= i < s.len() implies s[i].score >= c.score by {
                if i < s.len() - 1 {
                    assert(s[i].score >= s[s.len() - 1].score);
                }
            }
        }
        assert forall|v: int|
            count_at_least(#[trigger] after_insert(s, cap, c), v) == min_nat(
                cap,
                count_at_least(s, v) + if c.score >= v {
                    1nat
                } else {
                    0nat
                },
            ) by {
            lemma_count_le_len(s, v);
            if c.score >= v && s.len() > 0 {
                lemma_count_full(s, v);
            }
        }
        assert(g.to_multiset() =~= Multiset::empty().insert(c));
        assert(t.to_multiset().add(g.to_multiset()) =~= s.to_multiset().insert(c));
    }
}


proof fn lemma_insert_all(s: Seq<Candidate>, cap: nat, stream: Seq<Candidate>)
    requires
        sorted_desc(s),
        s.len() <= cap,
    ensures
        sorted_desc(insert_all(s, cap, stream)),
        insert_all(s, cap, stream).len() == min_nat(cap, s.len() + stream.len()),
        forall|v: int|
            count_at_least(#[trigger] insert_all(s, cap, stream), v) == min_nat(
                cap,
                count_at_least(s, v) + count_at_least(stream, v),
            ),
        insert_all(s, cap, stream).to_multiset().add(dropped_all(s, cap, stream).to_multiset())
            == s.to_multiset().add(stream.to_multiset()),
        dropped_all(s, cap, stream).len() > 0 ==> insert_all(s, cap, stream).len() == cap,
        forall|i: int, j: int|
            0 <= i < insert_all(s, cap, stream).len() && 0 <= j < dropped_all(s, cap, stream).len()
                ==> insert_all(s, cap, stream)[i].score >= dropped_all(s, cap, stream)[j].score,
    decreases stream.len(),
{
    if stream.len() == 0 {
        assert(stream.to_multiset() =~= Multiset::empty());
        assert(dropped_all(s, cap, stream).to_multiset() =~= Multiset::empty());
        assert(s.to_multiset().add(Multiset::empty()) =~= s.to_multiset());
        assert forall|v: int|
            count_at_least(#[trigger] insert_all(s, cap, stream), v) == min_nat(
                cap,
                count_at_least(s, v) + count_at_least(stream, v),
            ) by {
            lemma_count_le_len(s, v);
        }
    } else {
        let rest = stream.drop_last();
        let c = stream.last();
        lemma_insert_all(s, cap, rest);
        let k = insert_all(s, cap, rest);
        let d = dropped_all(s, cap, rest);
        lemma_after_insert(k, cap, c);
        let t = after_insert(k, cap, c);
        let g = dropped(k, cap, c);
        assert(insert_all(s, cap, stream) == t);
        assert(dropped_all(s, cap, stream) == d + g);
        assert forall|v: int|
            count_at_least(#[trigger] insert_all(s, cap, stream), v) == min_nat(
                cap,
                count_at_least(s, v) + count_at_least(stream, v),
            ) by {
            assert(count_at_least(t, v) == min_nat(
                cap,
                count_at_least(k, v) + if c.score >= v {
                    1nat
                } else {
                    0nat
                },
            ));
        }
        assert(stream =~= rest.push(c));
        assert((d + g).to_multiset() =~= d.to_multiset().add(g.to_multiset())) by {
            vstd::seq_lib::lemma_multiset_commutative(d, g);
        }
        assert(stream.to_multiset() == rest.push(c).to_multiset());
        assert(rest.push(c).to_multiset() =~= rest.to_multiset().insert(c));
        assert(t.to_multiset().add(g.to_multiset()) == k.to_multiset().insert(c));
        assert(k.to_multiset().add(d.to_multiset()) == s.to_multiset().add(rest.to_multiset()));
        assert forall|x: Candidate| #[trigger]
            t.to_multiset().add((d + g).to_multiset()).count(x) == s.to_multiset().add(
                stream.to_multiset(),
            ).count(x) by {
            assert(t.to_multiset().add(g.to_multiset()).count(x) == k.to_multiset().insert(c).count(
                x,
            ));
            assert(k.to_multiset().add(d.to_multiset()).count(x) == s.to_multiset().add(
                rest.to_multiset(),
            ).count(x));
        }
        assert(t.to_multiset().add((d + g).to_multiset()) =~= s.to_multiset().add(
            stream.to_multiset(),
        ));
        assert forall|i: int, j: int| 0 <= i < t.len() && 0 <= j < (d + g).len() implies t[i].score
            >= (d + g)[j].score by {
            if j < d.len() {
                assert(k.len() > 0 && k.len() == cap);
                assert(k[k.len() - 1].score >= d[j].score);
                assert(t[i].score >= k.last().score);
            } else {
                assert((d + g)[j] == g[j - d.len()]);
            }
        }
    }
}

/// Offering a stream of `N` candidates to an empty tracker of capacity `K`
/// leaves it holding exactly `min(N, K)` of them, sorted by score, highest
/// first. Together with everything that left along the way they make up the
/// stream, and every retained score is at least every discarded one. For any
/// threshold `v`, the tracker holds as many candidates scoring at least `v`
/// as the stream had, up to `K`: it holds the `K` best scores.
pub proof fn lemma_bounded_retention(cap: nat, stream: Seq<Candidate>)
    ensures
        insert_all(Seq::empty(), cap, stream).len() == min_nat(stream.len(), cap),
        sorted_desc(insert_all(Seq::empty(), cap, stream)),
        insert_all(Seq::empty(), cap, stream).to_multiset().add(
            dropped_all(Seq::empty(), cap, stream).to_multiset(),
        ) == stream.to_multiset(),
        forall|i: int, j: int|
            0 <= i < insert_all(Seq::empty(), cap, stream).len() && 0 <= j < dropped_all(
                Seq::empty(),
                cap,
                stream,
            ).len() ==> insert_all(Seq::empty(), cap, stream)[i].score >= dropped_all(
                Seq::empty(),
                cap,
                stream,
            )[j].score,
        forall|v: int|
            count_at_least(#[trigger] insert_all(Seq::empty(), cap, stream), v) == min_nat(
                cap,
                count_at_least(stream, v),
            ),
{
    let e = Seq::<Candidate>::empty();
    lemma_insert_all(e, cap, stream);
    assert(e.to_multiset() =~= Multiset::empty());
    assert(Multiset::<Candidate>::empty().add(stream.to_multiset()) =~= stream.to_multiset());
}

/// The number of entries scoring exactly `x` is the number scoring at least
/// `x` minus the number scoring at least `x + 1`.
proof fn lemma_scores_count(s: Seq<Candidate>, x: u64)
    ensures
        scores(s).to_multiset().count(x) + count_at_least(s, x + 1) == count_at_least(s, x as int),
    decreases s.len(),
{
    if s.len() == 0 {
        assert(scores(s).to_multiset() =~= Multiset::empty());
    } else {
        let d = s.drop_last();
        lemma_scores_count(d, x);
        assert(scores(s) =~= scores(d).push(s.last().score));
    }
}

/// Merging `b` into `a` and merging `a` into `b`, both of capacity `K`,
/// retain the same multiset of scores, whatever order the candidates of
/// either were inserted in: both retain the `K` best scores of the two.
pub proof fn lemma_merge_commutes(a: Seq<Candidate>, b: Seq<Candidate>, cap: nat)
    requires
        sorted_desc(a),
        sorted_desc(b),
        a.len() <= cap,
        b.len() <= cap,
    ensures
        scores(insert_all(a, cap, b)).to_multiset() == scores(insert_all(b, cap, a)).to_multiset(),
        forall|v: int|
            count_at_least(#[trigger] insert_all(a, cap, b), v) == min_nat(
                cap,
                count_at_least(a, v) + count_at_least(b, v),
            ),
{
    lemma_insert_all(a, cap, b);
    lemma_insert_all(b, cap, a);
    let ab = insert_all(a, cap, b);
    let ba = insert_all(b, cap, a);
    assert forall|x: u64| #[trigger]
        scores(ab).to_multiset().count(x) == scores(ba).to_multiset().count(x) by {
        lemma_scores_count(ab, x);
        lemma_scores_count(ba, x);
        assert(count_at_least(ab, x as int) == count_at_least(ba, x as int));
        assert(count_at_least(ab, x + 1) == count_at_least(ba, x + 1));
    }
    assert(scores(ab).to_multiset() =~= scores(ba).to_multiset());
}


/// The index of the first entry scoring less than `score`, found by binary search.
fn boundary(s: &Vec<Candidate>, score: u64) -> (p: usize)
    requires
        sorted_desc(s@),
    ensures
        p == count_at_least(s@, score as int),
        p <= s.len(),
{
    let mut lo: usize = 0;
    let mut hi: usize = s.len();
    while lo < hi
        invariant
            lo <= hi <= s.len(),
            sorted_desc(s@),
            forall|i: int| 0 <= i < lo ==> s@[i].score >= score,
            forall|i: int| hi <= i < s.len() ==> s@[i].score < score,
        decreases hi - lo,
    {
        let mid = lo + (hi - lo) / 2;
        if s[mid].score >= score {
            lo = mid + 1;
        } else {
            hi = mid;
        }
    }
    proof {
        let n = count_at_least(s@, score as int);
        lemma_count_sorted(s@, score as int);
        if (lo as int) < n {
            assert(s@[lo as int].score >= score);
        } else if n < lo {
            assert(s@[n as int].score < score);
        }
    }
    lo
}

/// Offers `candidate` to `candidates`, a vector kept sorted by score
/// (highest first) and holding at most `top_n` entries.
pub fn track_top_candidates(candidates: &mut Vec<Candidate>, candidate: Candidate, top_n: usize)
    requires
        sorted_desc(old(candidates)@),
        old(candidates).len() <= top_n,
    ensures
        final(candidates)@ == after_insert(old(candidates)@, top_n as nat, candidate),
        sorted_desc(final(candidates)@),
        final(candidates).len() <= top_n,
{
    proof {
        lemma_after_insert(candidates@, top_n as nat, candidate);
    }
    let n = candidates.len();
    if n < top_n {
        let p = boundary(candidates, candidate.score);
        candidates.insert(p, candidate);
    } else if n > 0 && candidate.score > candidates[n - 1].score {
        candidates.pop();
        proof {
            assert(sorted_desc(candidates@));
        }
        let p = boundary(candidates, candidate.score);
        candidates.insert(p, candidate);
    }
}

/// The best `capacity` candidates seen so far, highest score first.
pub struct Tracker {
    items: Vec<Candidate>,
    capacity: usize,
}

impl View for Tracker {
    type V = Seq<Candidate>;

    closed spec fn view(&self) -> Seq<Candidate> {
        self.items@
    }
}

impl Tracker {
    #[verifier::type_invariant]
    spec fn inv(&self) -> bool {
        sorted_desc(self.items@) && self.items@.len() <= self.capacity
    }

    /// The most candidates this tracker holds.
    pub closed spec fn cap(&self) -> nat {
        self.capacity as nat
    }

    /// Held candidates are sorted, highest score first, and fit the capacity.
    pub open spec fn valid(&self) -> bool {
        sorted_desc(self@) && self@.len() <= self.cap()
    }

    /// An empty tracker that keeps at most `capacity` candidates.
    pub fn new(capacity: usize) -> (r: Tracker)
        ensures
            r@ == Seq::<Candidate>::empty(),
            r.cap() == capacity,
            r.valid(),
    {
        Tracker { items: Vec::new(), capacity }
    }

    pub fn capacity(&self) -> (r: usize)
        ensures
            r == self.cap(),
    {
        self.capacity
    }

    pub fn len(&self) -> (r: usize)
        ensures
            r == self@.len(),
    {
        self.items.len()
    }

    pub fn is_empty(&self) -> (r: bool)
        ensures
            r == (self@.len() == 0),
    {
        self.items.len() == 0
    }

    /// The highest-scoring candidate held, if any.
    pub fn best(&self) -> (r: Option<&Candidate>)
        ensures
            r == (if self@.len() > 0 {
                Some(&self@[0])
            } else {
                None
            }),
    {
        if self.items.len() > 0 {
            Some(&self.items[0])
        } else {
            None
        }
    }

    /// Offers `candidate`; returns whether it was taken in. Below capacity it
    /// always is; at capacity only when it scores strictly more than the
    /// lowest entry, which it then evicts.
    pub fn insert(&mut self, candidate: Candidate) -> (accepted: bool)
        ensures
            accepted == accepts(old(self)@, old(self).cap(), candidate),
            final(self)@ == after_insert(old(self)@, old(self).cap(), candidate),
            final(self).cap() == old(self).cap(),
            final(self).valid(),
    {
        proof {
            use_type_invariant(&*self);
        }
        let n = self.items.len();
        let accepted = n < self.capacity || (n > 0 && candidate.score > self.items[n - 1].score);
        let mut items = Vec::new();
        std::mem::swap(&mut items, &mut self.items);
        track_top_candidates(&mut items, candidate, self.capacity);
        self.items = items;
        accepted
    }

    /// Offers every candidate of `other`, best first, to this tracker.
    pub fn merge(&mut self, other: &Tracker)
        ensures
            final(self)@ == insert_all(old(self)@, old(self).cap(), other@),
            final(self).cap() == old(self).cap(),
            final(self).valid(),
    {
        proof {
            use_type_invariant(&*self);
        }
        let n = other.items.len();
        for i in 0..n
            invariant
                n == other@.len(),
                self@ == insert_all(old(self)@, old(self).cap(), other@.take(i as int)),
                self.cap() == old(self).cap(),
                self.valid(),
        {
            let c = other.items[i].duplicate();
            proof {
                assert(other@.take(i + 1).drop_last() =~= other@.take(i as int));
            }
            self.insert(c);
        }
        proof {
            assert(other@.take(n as int) =~= other@);
        }
    }

    /// The held candidates, highest score first; the tracker is left as it is.
    pub fn snapshot(&self) -> (r: Vec<Candidate>)
        ensures
            r@ == self@,
    {
        let mut r: Vec<Candidate> = Vec::new();
        for i in 0..self.items.len()
            invariant
                r@ == self@.take(i as int),
        {
            r.push(self.items[i].duplicate());
            proof {
                assert(self@.take(i + 1) =~= self@.take(i as int).push(self@[i as int]));
            }
        }
        proof {
            assert(self@.take(self@.len() as int) =~= self@);
        }
        r
    }

    /// The held candidates, highest score first, consuming the tracker.
    pub fn into_sorted(self) -> (r: Vec<Candidate>)
        ensures
            r@ == self@,
    {
        self.items
    }
}

} // verus!
