//! Range searches for numbers of record multiplicative persistence, each
//! candidate first passed through a digit-substitution rule.

use crate::digits::{add_small, all_decimal, is_canonical, lemma_canonical_split, less_than, value_of, BigNat};
use crate::persistence::{capped, persistence, persistence_with};
use crate::product::{ProductCache, ProductStrategy};
use vstd::prelude::*;

verus! {

/// The two searches: which digits are substituted, how far each step goes,
/// and how digit products are computed.
#[derive(Clone, Copy, Debug, PartialEq, Eq)]
pub enum SearchStrategy {
    /// Every zero digit becomes one; steps of one; direct folds.
    Exhaustive,
    /// Digits are pushed towards 2, 7 and 9; steps of two; divide and
    /// conquer with a memoization cache.
    Heuristic,
}

/// The digit that `d` becomes before a candidate is tested.
pub open spec fn substitute_digit(s: SearchStrategy, d: nat) -> nat {
    match s {
        SearchStrategy::Exhaustive => if d == 0 {
            1
        } else {
            d
        },
        SearchStrategy::Heuristic => if d == 0 || d == 3 || d == 4 || d == 5 || d == 6 {
            7
        } else if d == 1 {
            2
        } else if d == 8 {
            9
        } else {
            d
        },
    }
}

/// `n` with each decimal digit substituted.
pub open spec fn substituted(s: SearchStrategy, n: nat) -> nat
    decreases n,
{
    if n < 10 {
        substitute_digit(s, n)
    } else {
        substitute_digit(s, n % 10) + 10 * substituted(s, n / 10)
    }
}

/// How far the search moves past a tested candidate.
pub open spec fn step_of(s: SearchStrategy) -> nat {
    match s {
        SearchStrategy::Exhaustive => 1,
        SearchStrategy::Heuristic => 2,
    }
}

/// How a search computes digit products.
pub open spec fn product_strategy_of(s: SearchStrategy) -> ProductStrategy {
    match s {
        SearchStrategy::Exhaustive => ProductStrategy::DirectFold,
        SearchStrategy::Heuristic => ProductStrategy::DivideAndConquer,
    }
}

/// Substitution never makes a candidate smaller.
pub proof fn lemma_substitution_never_decreases(s: SearchStrategy, n: nat)
    ensures
        substituted(s, n) >= n,
    decreases n,
{
    if n >= 10 {
        lemma_substitution_never_decreases(s, n / 10);
    }
}

/// How far `next` lies below `end`, zero once it does not.
pub open spec fn gap(next: nat, end: nat) -> nat {
    if next < end {
        (end - next) as nat
    } else {
        0
    }
}

/// The records that a search emits from candidate `next` on, below `end`,
/// with `max_seen` the best persistence seen so far: each candidate is
/// substituted and tested, and a persistence above the running maximum is a
/// record; the search goes on from the tested candidate plus one step.
pub open spec fn search_records(s: SearchStrategy, next: nat, end: nat, max_seen: nat) -> Seq<
    (nat, nat),
>
    decreases gap(next, end),
{
    if next >= end {
        seq![]
    } else {
        proof {
            lemma_substitution_never_decreases(s, next);
        }
        let c = substituted(s, next);
        let p = capped(persistence(c));
        if p > max_seen {
            seq![(c, p)] + search_records(s, c + step_of(s), end, p)
        } else {
            search_records(s, c + step_of(s), end, max_seen)
        }
    }
}

/// A range that is empty, `end <= start`, is searched without a record.
pub proof fn lemma_empty_range_no_records(s: SearchStrategy, start: nat, end: nat, max_seen: nat)
    requires
        end <= start,
    ensures
        search_records(s, start, end, max_seen) == Seq::<(nat, nat)>::empty(),
{
}

/// How a search computes digit products.
pub fn product_strategy(s: SearchStrategy) -> (r: ProductStrategy)
    ensures
        r == product_strategy_of(s),
{
    match s {
        SearchStrategy::Exhaustive => ProductStrategy::DirectFold,
        SearchStrategy::Heuristic => ProductStrategy::DivideAndConquer,
    }
}

/// How far a search moves past a tested candidate.
pub fn step(s: SearchStrategy) -> (r: u32)
    ensures
        r as nat == step_of(s),
{
    match s {
        SearchStrategy::Exhaustive => 1,
        SearchStrategy::Heuristic => 2,
    }
}

/// The records of a search form a running maximum: each carries its
/// candidate's persistence, beats the maximum the search started with and
/// every record before it, and has a value no smaller than where the search
/// started.
pub proof fn lemma_records_increase(s: SearchStrategy, next: nat, end: nat, max_seen: nat)
    ensures
        ({
            let r = search_records(s, next, end, max_seen);
            &&& forall|i: int|
                0 <= i < r.len() ==> {
                    &&& (#[trigger] r[i]).1 == capped(persistence(r[i].0))
                    &&& r[i].1 > max_seen
                    &&& r[i].0 >= next
                }
            &&& forall|i: int, j: int| 0 <= i < j < r.len() ==> (#[trigger] r[i]).1 < (#[trigger] r[j]).1
        }),
    decreases gap(next, end),
{
    if next < end {
        lemma_substitution_never_decreases(s, next);
        let c = substituted(s, next);
        let p = capped(persistence(c));
        let n2 = c + step_of(s);
        if p > max_seen {
            lemma_records_increase(s, n2, end, p);
            let rest = search_records(s, n2, end, p);
            let r = search_records(s, next, end, max_seen);
            assert(r == seq![(c, p)] + rest);
            assert(r[0] == (c, p));
            assert forall|i: int| 0 <= i < r.len() implies {
                &&& (#[trigger] r[i]).1 == capped(persistence(r[i].0))
                &&& r[i].1 > max_seen
                &&& r[i].0 >= next
            } by {
                if i > 0 {
                    assert(r[i] == rest[i - 1]);
                }
            }
            assert forall|i: int, j: int| 0 <= i < j < r.len() implies (#[trigger] r[i]).1 < (
            #[trigger] r[j]).1 by {
                assert(r[j] == rest[j - 1]);
                if i > 0 {
                    assert(r[i] == rest[i - 1]);
                }
            }
        } else {
            lemma_records_increase(s, n2, end, max_seen);
            assert(search_records(s, next, end, max_seen) == search_records(s, n2, end, max_seen));
        }
    }
}

/// The digit that `d` becomes before a candidate is tested.
pub fn substitute_one(s: SearchStrategy, d: u8) -> (r: u8)
    requires
        d < 10,
    ensures
        r as nat == substitute_digit(s, d as nat),
{
    match s {
        SearchStrategy::Exhaustive => if d == 0 {
            1
        } else {
            d
        },
        SearchStrategy::Heuristic => if d == 0 || d == 3 || d == 4 || d == 5 || d == 6 {
            7
        } else if d == 1 {
            2
        } else if d == 8 {
            9
        } else {
            d
        },
    }
}

/// Substituting digit by digit in a canonical sequence gives the canonical
/// sequence of the substituted value.
proof fn lemma_substituted_digits(s: SearchStrategy, d: Seq<u8>, m: Seq<u8>)
    requires
        is_canonical(d),
        m.len() == d.len(),
        forall|j: int| 0 <= j < d.len() ==> #[trigger] m[j] as nat == substitute_digit(s, d[j] as nat),
    ensures
        is_canonical(m),
        value_of(m) == substituted(s, value_of(d)),
    decreases d.len(),
{
    lemma_canonical_split(d);
    assert(all_decimal(m)) by {
        assert forall|j: int| 0 <= j < m.len() implies #[trigger] m[j] < 10 by {
            assert(d[j] < 10);
        }
    }
    assert(m[m.len() - 1] as nat == substitute_digit(s, d[d.len() - 1] as nat));
    if d.len() == 1 {
        assert(m.skip(1) =~= seq![]);
        assert(value_of(m.skip(1)) == 0);
    } else {
        let dt = d.skip(1);
        let mt = m.skip(1);
        assert forall|j: int| 0 <= j < dt.len() implies #[trigger] mt[j] as nat == substitute_digit(
            s,
            dt[j] as nat,
        ) by {
            assert(m[j + 1] as nat == substitute_digit(s, d[j + 1] as nat));
        }
        lemma_substituted_digits(s, dt, mt);
    }
}

/// `n` with each decimal digit substituted.
pub fn substitute_digits(s: SearchStrategy, n: &BigNat) -> (r: BigNat)
    requires
        n.wf(),
    ensures
        r.wf(),
        r@ == substituted(s, n@),
{
    let d = n.digits();
    let mut m: Vec<u8> = Vec::new();
    let mut i: usize = 0;
    while i < d.len()
        invariant
            is_canonical(d@),
            0 <= i <= d@.len(),
            m@.len() == i,
            forall|j: int| 0 <= j < i ==> #[trigger] m@[j] as nat == substitute_digit(s, d@[j] as nat),
        decreases d@.len() - i,
    {
        m.push(substitute_one(s, d[i]));
        i = i + 1;
    }
    proof {
        lemma_substituted_digits(s, d@, m@);
        n.lemma_view_is_value();
    }
    let r = BigNat::from_canonical(m);
    proof {
        r.lemma_view_is_value();
    }
    r
}

/// A candidate together with its persistence, found to beat every earlier
/// candidate of its search.
pub struct Record {
    pub value: BigNat,
    pub persistence: u8,
}

impl View for Record {
    type V = (nat, nat);

    open spec fn view(&self) -> (nat, nat) {
        (self.value@, self.persistence as nat)
    }
}

/// The pairs that a sequence of records stands for.
pub open spec fn record_pairs(r: Seq<Record>) -> Seq<(nat, nat)> {
    r.map_values(|x: Record| x@)
}

/// The pair of an optional record, as a sequence of zero or one.
pub open spec fn emitted(r: Option<Record>) -> Seq<(nat, nat)> {
    match r {
        Some(x) => seq![x@],
        None => seq![],
    }
}

/// A search in progress: the next candidate, the end of the range, the best
/// persistence seen so far and the run's own product cache.
pub struct RangeSearch {
    strategy: SearchStrategy,
    next: BigNat,
    end: BigNat,
    max_seen: u8,
    cache: ProductCache,
}

impl RangeSearch {
    pub closed spec fn wf(&self) -> bool {
        &&& self.next.wf()
        &&& self.end.wf()
        &&& self.cache.wf()
    }

    pub closed spec fn strategy_spec(&self) -> SearchStrategy {
        self.strategy
    }

    pub closed spec fn next_value(&self) -> nat {
        self.next@
    }

    pub closed spec fn end_value(&self) -> nat {
        self.end@
    }

    pub closed spec fn max_seen_spec(&self) -> nat {
        self.max_seen as nat
    }

    /// The records that the rest of this search will emit.
    pub open spec fn pending(&self) -> Seq<(nat, nat)> {
        search_records(self.strategy_spec(), self.next_value(), self.end_value(), self.max_seen_spec())
    }

    /// A search of `[start, end)` with no record yet, whose product cache
    /// keeps up to `cache_capacity` entries.
    pub fn new(strategy: SearchStrategy, start: BigNat, end: BigNat, cache_capacity: usize) -> (r:
        RangeSearch)
        requires
            start.wf(),
            end.wf(),
        ensures
            r.wf(),
            r.strategy_spec() == strategy,
            r.next_value() == start@,
            r.end_value() == end@,
            r.max_seen_spec() == 0,
    {
        RangeSearch {
            strategy,
            next: start,
            end,
            max_seen: 0,
            cache: ProductCache::new(cache_capacity),
        }
    }

    /// Whether no candidate is left below the end of the range.
    pub fn is_finished(&self) -> (r: bool)
        requires
            self.wf(),
        ensures
            r == (self.next_value() >= self.end_value()),
    {
        !less_than(&self.next, &self.end)
    }

    /// The best persistence seen so far.
    pub fn max_seen(&self) -> (r: u8)
        ensures
            r as nat == self.max_seen_spec(),
    {
        self.max_seen
    }

    /// Tests the next candidate, after substitution, and moves one step past
    /// it; returns the record when its persistence beats the running maximum.
    pub fn advance(&mut self) -> (r: Option<Record>)
        requires
            old(self).wf(),
            old(self).next_value() < old(self).end_value(),
        ensures
            final(self).wf(),
            final(self).strategy_spec() == old(self).strategy_spec(),
            final(self).end_value() == old(self).end_value(),
            ({
                let c = substituted(old(self).strategy_spec(), old(self).next_value());
                let p = capped(persistence(c));
                &&& final(self).next_value() == c + step_of(old(self).strategy_spec())
                &&& r.is_some() == (p > old(self).max_seen_spec())
                &&& r matches Some(x) ==> x@ == (c, p) && x.value.wf()
                &&& final(self).max_seen_spec() == if p > old(self).max_seen_spec() {
                    p
                } else {
                    old(self).max_seen_spec()
                }
            }),
            old(self).pending() == emitted(r) + final(self).pending(),
    {
        let candidate = substitute_digits(self.strategy, &self.next);
        let p = persistence_with(
            candidate.duplicate(),
            product_strategy(self.strategy),
            &mut self.cache,
        );
        self.next = add_small(&candidate, step(self.strategy));
        if p > self.max_seen {
            self.max_seen = p;
            let r = Some(Record { value: candidate, persistence: p });
            assert(emitted(r) + self.pending() =~= old(self).pending());
            r
        } else {
            assert(emitted(None) + self.pending() =~= old(self).pending());
            None
        }
    }
}

/// Runs a whole search of `[start, end)` and returns its records in order.
fn run_search(s: SearchStrategy, start: &BigNat, end: &BigNat, cache_capacity: usize) -> (r: Vec<
    Record,
>)
    requires
        start.wf(),
        end.wf(),
    ensures
        record_pairs(r@) == search_records(s, start@, end@, 0),
{
    let mut search = RangeSearch::new(s, start.duplicate(), end.duplicate(), cache_capacity);
    let mut out: Vec<Record> = Vec::new();
    proof {
        assert(record_pairs(out@) =~= seq![]);
    }
    while !search.is_finished()
        invariant
            search.wf(),
            search.strategy_spec() == s,
            search.end_value() == end@,
            record_pairs(out@) + search.pending() == search_records(s, start@, end@, 0),
        decreases gap(search.next_value(), end@),
    {
        let ghost before = out@;
        let ghost pend = search.pending();
        proof {
            lemma_substitution_never_decreases(s, search.next_value());
        }
        match search.advance() {
            Some(x) => {
                out.push(x);
                assert(record_pairs(out@) =~= record_pairs(before) + emitted(Some(x)));
            },
            None => {
                assert(emitted(None) =~= seq![]);
            },
        }
        assert(record_pairs(out@) + search.pending() =~= record_pairs(before) + pend);
    }
    proof {
        assert(search.pending() =~= seq![]);
        assert(record_pairs(out@) + seq![] =~= record_pairs(out@));
    }
    out
}

/// Searches `[start, end)` candidate by candidate, every zero digit turned
/// into a one first, and returns each new record in the order found; the
/// last one, if any, is the overall record.
pub fn search_for_maximum_multiplicative_persistence(start: &BigNat, end: &BigNat) -> (r: Vec<Record>)
    requires
        start.wf(),
        end.wf(),
    ensures
        record_pairs(r@) == search_records(SearchStrategy::Exhaustive, start@, end@, 0),
{
    run_search(SearchStrategy::Exhaustive, start, end, 0)
}

/// Searches `[start, end)` in steps of two, each candidate's digits pushed
/// towards 2, 7 and 9 first, with one product cache of up to
/// `cache_capacity` entries for the run; returns each new record in the order
/// found.
pub fn search_for_new_record_multiplicative_persistence(
    start: &BigNat,
    end: &BigNat,
    cache_capacity: usize,
) -> (r: Vec<Record>)
    requires
        start.wf(),
        end.wf(),
    ensures
        record_pairs(r@) == search_records(SearchStrategy::Heuristic, start@, end@, 0),
{
    run_search(SearchStrategy::Heuristic, start, end, cache_capacity)
}

} // verus!
