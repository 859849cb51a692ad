use vstd::prelude::*;

use crate::clock::{DateTime, earlier, minutes_between, moment_rank, lemma_span_not_negative, valid_moment};
use crate::model::{CensoredVisit, DataTimestamp, DataTimestampView, Visit, VisitView, Weather, copy_activities};

verus! {

/// The key by which records are ordered: the start of their timestamp, ranked.
pub open spec fn sort_key(r: DataTimestampView) -> int {
    moment_rank(r.timestamp.start)
}

/// Where a record with key `k` goes into the ordered indices `order`: after the last
/// entry whose record has a key not above `k`.
pub open spec fn insert_position(order: Seq<usize>, recs: Seq<DataTimestampView>, k: int) -> int
    decreases order.len(),
{
    if order.len() == 0 {
        0
    } else if sort_key(recs[order.last() as int]) <= k {
        order.len() as int
    } else {
        insert_position(order.drop_last(), recs, k)
    }
}

/// The indices `0..n` of `recs` in the order of a stable sort by key: each index in turn
/// goes after every earlier one whose key is not above its own.
pub open spec fn sorted_order(recs: Seq<DataTimestampView>, n: int) -> Seq<usize>
    decreases n,
{
    if n <= 0 {
        Seq::empty()
    } else {
        let o = sorted_order(recs, n - 1);
        o.insert(insert_position(o, recs, sort_key(recs[n - 1])), (n - 1) as usize)
    }
}

/// `recs` stably sorted by the start of their timestamps (as `sort_by_key` sorts).
pub open spec fn by_start(recs: Seq<DataTimestampView>) -> Seq<DataTimestampView> {
    let o = sorted_order(recs, recs.len() as int);
    Seq::new(o.len(), |p: int| recs[o[p] as int])
}

/// Sorting keeps the number of records.
pub proof fn lemma_by_start_len(recs: Seq<DataTimestampView>)
    ensures
        by_start(recs).len() == recs.len(),
{
    lemma_sorted_order_shape(recs, recs.len() as int);
}

/// The insertion point lies within the order.
pub proof fn lemma_insert_position_bounds(order: Seq<usize>, recs: Seq<DataTimestampView>, k: int)
    ensures
        0 <= insert_position(order, recs, k) <= order.len(),
    decreases order.len(),
{
    if order.len() > 0 {
        lemma_insert_position_bounds(order.drop_last(), recs, k);
    }
}

/// The stable order of `0..n` has `n` entries, each below `n`.
pub proof fn lemma_sorted_order_shape(recs: Seq<DataTimestampView>, n: int)
    requires
        0 <= n,
    ensures
        sorted_order(recs, n).len() == n,
        forall|p: int| 0 <= p < n ==> (#[trigger] sorted_order(recs, n)[p]) < n,
    decreases n,
{
    if n > 0 {
        let o = sorted_order(recs, n - 1);
        lemma_sorted_order_shape(recs, n - 1);
        lemma_insert_position_bounds(o, recs, sort_key(recs[n - 1]));
        let pos = insert_position(o, recs, sort_key(recs[n - 1]));
        assert forall|p: int| 0 <= p < n implies (#[trigger] sorted_order(recs, n)[p]) < n by {
            if p < pos {
                assert(sorted_order(recs, n)[p] == o[p]);
            } else if p > pos {
                assert(sorted_order(recs, n)[p] == o[p - 1]);
            }
        }
    }
}

/// Whether the keys of the records that `order` lists never decrease.
pub open spec fn keys_ascend(order: Seq<usize>, recs: Seq<DataTimestampView>) -> bool {
    forall|i: int, j: int|
        0 <= i < j < order.len() ==> sort_key(recs[#[trigger] order[i] as int]) <= sort_key(
            recs[#[trigger] order[j] as int],
        )
}

/// In a key-ascending order, the insertion point for key `k` has every key before it not
/// above `k` and every key from it on above `k`.
pub proof fn lemma_insert_position_splits(order: Seq<usize>, recs: Seq<DataTimestampView>, k: int)
    requires
        keys_ascend(order, recs),
    ensures
        forall|p: int|
            0 <= p < insert_position(order, recs, k) ==> sort_key(recs[#[trigger] order[p] as int])
                <= k,
        forall|p: int|
            insert_position(order, recs, k) <= p < order.len() ==> sort_key(
                recs[#[trigger] order[p] as int],
            ) > k,
    decreases order.len(),
{
    lemma_insert_position_bounds(order, recs, k);
    if order.len() > 0 {
        let rest = order.drop_last();
        assert(keys_ascend(rest, recs)) by {
            assert forall|i: int, j: int| 0 <= i < j < rest.len() implies sort_key(
                recs[#[trigger] rest[i] as int],
            ) <= sort_key(recs[#[trigger] rest[j] as int]) by {
                assert(rest[i] == order[i] && rest[j] == order[j]);
            }
        }
        lemma_insert_position_splits(rest, recs, k);
        if sort_key(recs[order.last() as int]) <= k {
            assert forall|p: int| 0 <= p < order.len() implies sort_key(
                recs[#[trigger] order[p] as int],
            ) <= k by {
                if p < order.len() - 1 {
                    assert(sort_key(recs[order[p] as int]) <= sort_key(
                        recs[order[order.len() - 1] as int],
                    ));
                }
            }
        } else {
            assert forall|p: int| 0 <= p < insert_position(order, recs, k) implies sort_key(
                recs[#[trigger] order[p] as int],
            ) <= k by {
                assert(rest[p] == order[p]);
            }
            assert forall|p: int|
                insert_position(order, recs, k) <= p < order.len() implies sort_key(
                recs[#[trigger] order[p] as int],
            ) > k by {
                if p < order.len() - 1 {
                    assert(rest[p] == order[p]);
                }
            }
        }
    }
}

/// The stable order is a sort: it lists each index below `n` exactly once, its keys never
/// decrease, and records with equal keys keep their original order.
pub proof fn lemma_sorted_order_sorts(recs: Seq<DataTimestampView>, n: int)
    requires
        0 <= n <= recs.len(),
        recs.len() <= usize::MAX,
    ensures
        sorted_order(recs, n).len() == n,
        forall|p: int| 0 <= p < n ==> (#[trigger] sorted_order(recs, n)[p]) < n,
        forall|i: int, j: int|
            0 <= i < j < n ==> #[trigger] sorted_order(recs, n)[i] != #[trigger] sorted_order(
                recs,
                n,
            )[j],
        keys_ascend(sorted_order(recs, n), recs),
        forall|i: int, j: int|
            0 <= i < j < n && sort_key(recs[#[trigger] sorted_order(recs, n)[i] as int]) == sort_key(
                recs[#[trigger] sorted_order(recs, n)[j] as int],
            ) ==> sorted_order(recs, n)[i] < sorted_order(recs, n)[j],
    decreases n,
{
    lemma_sorted_order_shape(recs, n);
    if n > 0 {
        let o = sorted_order(recs, n - 1);
        let k = sort_key(recs[n - 1]);
        lemma_sorted_order_sorts(recs, n - 1);
        lemma_insert_position_bounds(o, recs, k);
        lemma_insert_position_splits(o, recs, k);
        let pos = insert_position(o, recs, k);
        let r = sorted_order(recs, n);
        assert(r == o.insert(pos, (n - 1) as usize));
        assert forall|p: int| 0 <= p < n implies #[trigger] r[p] == (if p < pos {
            o[p]
        } else if p == pos {
            (n - 1) as usize
        } else {
            o[p - 1]
        }) by {}
        assert forall|i: int, j: int| 0 <= i < j < n implies #[trigger] r[i] != #[trigger] r[j] by {
            if i < pos && j > pos {
                assert(o[i] != o[j - 1]);
            } else if i > pos {
                assert(o[i - 1] != o[j - 1]);
            }
        }
        assert forall|i: int, j: int| 0 <= i < j < n implies sort_key(recs[#[trigger] r[i] as int])
            <= sort_key(recs[#[trigger] r[j] as int]) by {
            if i < pos && j > pos {
                assert(sort_key(recs[o[i] as int]) <= sort_key(recs[o[j - 1] as int]));
            } else if i > pos {
                assert(sort_key(recs[o[i - 1] as int]) <= sort_key(recs[o[j - 1] as int]));
            } else if i == pos {
                assert(sort_key(recs[o[j - 1] as int]) > k);
            } else if j == pos {
                assert(sort_key(recs[o[i] as int]) <= k);
            }
        }
        assert forall|i: int, j: int|
            0 <= i < j < n && sort_key(recs[#[trigger] r[i] as int]) == sort_key(
                recs[#[trigger] r[j] as int],
            ) implies r[i] < r[j] by {
            if i < pos && j > pos {
                assert(o[i] < o[j - 1]);
            } else if i > pos {
                assert(o[i - 1] < o[j - 1]);
            } else if i == pos {
                assert(sort_key(recs[o[j - 1] as int]) > k);
            }
        }
    }
}

/// The records sorted by start: every record appears as often as in `recs`, the starts
/// never decrease, and records with equal starts keep their original order.
pub proof fn lemma_by_start_sorts(recs: Seq<DataTimestampView>)
    requires
        recs.len() <= usize::MAX,
    ensures
        by_start(recs).len() == recs.len(),
        by_start(recs).to_multiset() == recs.to_multiset(),
        forall|i: int, j: int|
            0 <= i < j < recs.len() ==> sort_key(#[trigger] by_start(recs)[i]) <= sort_key(
                #[trigger] by_start(recs)[j],
            ),
{
    let n = recs.len() as int;
    lemma_sorted_order_sorts(recs, n);
    let o = sorted_order(recs, n);
    let s = by_start(recs);
    assert forall|i: int, j: int| 0 <= i < j < n implies sort_key(#[trigger] s[i]) <= sort_key(
        #[trigger] s[j],
    ) by {
        assert(sort_key(recs[o[i] as int]) <= sort_key(recs[o[j] as int]));
    }
    lemma_permuted_multiset(recs, o);
}

/// Listing the records of `recs` by a permutation `o` of their indices keeps the multiset.
proof fn lemma_permuted_multiset(recs: Seq<DataTimestampView>, o: Seq<usize>)
    requires
        o.len() == recs.len(),
        forall|p: int| 0 <= p < o.len() ==> (#[trigger] o[p]) < o.len(),
        forall|i: int, j: int| 0 <= i < j < o.len() ==> #[trigger] o[i] != #[trigger] o[j],
    ensures
        Seq::new(o.len(), |p: int| recs[o[p] as int]).to_multiset() == recs.to_multiset(),
    decreases o.len(),
{
    let s = Seq::new(o.len(), |p: int| recs[o[p] as int]);
    if o.len() == 0 {
        assert(s =~= recs);
    } else {
        let last = (o.len() - 1) as int;
        // The position in `o` that holds the last index.
        assert(exists|q: int| 0 <= q < o.len() && o[q] == last) by {
            lemma_permutation_hits(o, last);
        }
        let q = choose|q: int| 0 <= q < o.len() && o[q] == last;
        let o2 = o.remove(q).map_values(|x: usize| x);
        assert(o2 =~= o.remove(q));
        assert forall|p: int| 0 <= p < o2.len() implies (#[trigger] o2[p]) < o2.len() by {
            if p < q {
                assert(o2[p] == o[p] && o[p] != o[q]);
            } else {
                assert(o2[p] == o[p + 1] && o[p + 1] != o[q]);
            }
        }
        assert forall|i: int, j: int| 0 <= i < j < o2.len() implies #[trigger] o2[i] != #[trigger] o2[j] by {
            if j < q {
            } else if i < q {
                assert(o2[j] == o[j + 1]);
            } else {
                assert(o2[i] == o[i + 1] && o2[j] == o[j + 1]);
            }
        }
        let rest = recs.drop_last();
        lemma_permuted_multiset(rest, o2);
        let s2 = Seq::new(o2.len(), |p: int| rest[o2[p] as int]);
        assert(s.remove(q) =~= s2) by {
            assert forall|p: int| 0 <= p < s2.len() implies s.remove(q)[p] == s2[p] by {
                if p < q {
                    assert(o2[p] == o[p]);
                } else {
                    assert(o2[p] == o[p + 1]);
                }
            }
        }
        vstd::seq_lib::to_multiset_remove(s, q);
        assert(recs =~= rest.push(recs[last]));
        vstd::seq_lib::to_multiset_build(rest, recs[last]);
        assert(s[q] == recs[last]);
        vstd::seq_lib::to_multiset_contains(s, s[q]);
        assert(s.to_multiset().remove(s[q]).insert(s[q]) =~= s.to_multiset()) by {
            broadcast use vstd::multiset::group_multiset_axioms;
            assert(s.to_multiset().count(s[q]) > 0);
        }
    }
}

/// A duplicate-free sequence of `n` indices below `n` holds every index below `n`.
proof fn lemma_permutation_hits(o: Seq<usize>, v: int)
    requires
        0 <= v < o.len(),
        forall|p: int| 0 <= p < o.len() ==> (#[trigger] o[p]) < o.len(),
        forall|i: int, j: int| 0 <= i < j < o.len() ==> #[trigger] o[i] != #[trigger] o[j],
    ensures
        exists|q: int| 0 <= q < o.len() && o[q] == v,
{
    let vals = o.map_values(|x: usize| x as int).to_set();
    let full = Set::new(|x: int| 0 <= x < o.len());
    assert(vals.subset_of(full)) by {
        assert forall|x: int| vals.contains(x) implies full.contains(x) by {
            let p = o.map_values(|x: usize| x as int).index_of(x);
        }
    }
    vstd::set_lib::lemma_int_range(0, o.len() as int);
    assert(full =~= vstd::set_lib::set_int_range(0, o.len() as int));
    let m = o.map_values(|x: usize| x as int);
    assert(m.no_duplicates()) by {
        assert forall|i: int, j: int| 0 <= i < m.len() && 0 <= j < m.len() && i != j implies m[i] != m[j] by {
            if i < j {
                assert(o[i] != o[j]);
            } else {
                assert(o[j] != o[i]);
            }
        }
    }
    m.unique_seq_to_set();
    vstd::set_lib::lemma_subset_equality(vals, full);
    if !(exists|q: int| 0 <= q < o.len() && o[q] == v) {
        assert(!vals.contains(v));
    }
}

/// The indices of `recs` in the order of a stable sort by the start of their timestamps.
pub fn order_by_start(recs: &Vec<DataTimestamp>) -> (order: Vec<usize>)
    ensures
        order@ == sorted_order(recs.deep_view(), recs.len() as int),
{
    let ghost dv = recs.deep_view();
    let n = recs.len();
    let mut order: Vec<usize> = Vec::new();
    let mut i: usize = 0;
    while i < n
        invariant
            n == recs.len(),
            dv == recs.deep_view(),
            i <= n,
            order@ == sorted_order(dv, i as int),
        decreases n - i,
    {
        proof {
            lemma_sorted_order_shape(dv, i as int);
        }
        let start: DateTime = recs[i].timestamp.start;
        let ghost k = moment_rank(start);
        assert(k == sort_key(dv[i as int]));
        let mut j: usize = order.len();
        proof {
            assert(order@.take(j as int) =~= order@);
        }
        while j > 0 && start.is_earlier(&recs[order[j - 1]].timestamp.start)
            invariant
                n == recs.len(),
                dv == recs.deep_view(),
                i < n,
                order@.len() == i,
                forall|p: int| 0 <= p < i ==> (#[trigger] order@[p]) < i,
                j <= order.len(),
                k == moment_rank(start),
                insert_position(order@, dv, k) == insert_position(order@.take(j as int), dv, k),
            decreases j,
        {
            proof {
                assert(order@.take(j as int).drop_last() =~= order@.take(j - 1));
            }
            j = j - 1;
        }
        proof {
            if j > 0 {
                assert(order@.take(j as int).last() == order@[j - 1]);
            }
        }
        order.insert(j, i);
        i = i + 1;
    }
    order
}

/// Whether the moment of a record is known exactly.
pub open spec fn is_exact(r: DataTimestampView) -> bool {
    r.timestamp.start == r.timestamp.end
}

/// Whether an entrance record `a` followed directly by an exit record `b` (in the
/// ordering by start) make up a fully observed visit: both moments are exact.
pub open spec fn makes_visit(a: DataTimestampView, b: DataTimestampView) -> bool {
    a.is_in && !b.is_in && is_exact(a) && is_exact(b)
}

/// The visit made by entrance `a` and exit `b`.
pub open spec fn visit_of(a: DataTimestampView, b: DataTimestampView, weather: Weather) -> VisitView {
    VisitView {
        in_time: a.timestamp.start,
        out_time: b.timestamp.end,
        parked: b.parked->Some_0,
        people_in_car: b.people_in_car->Some_0,
        activities: b.activities,
        weather,
    }
}

/// The visits among the first `n` sorted records: one for each adjacent pair that makes one.
pub open spec fn visits_among(sorted: Seq<DataTimestampView>, weather: Weather, n: int) -> Seq<VisitView>
    decreases n,
{
    if n < 2 {
        Seq::empty()
    } else {
        let before = visits_among(sorted, weather, n - 1);
        if makes_visit(sorted[n - 2], sorted[n - 1]) {
            before.push(visit_of(sorted[n - 2], sorted[n - 1], weather))
        } else {
            before
        }
    }
}

/// The visits of one card's records.
pub open spec fn visits_of(recs: Seq<DataTimestampView>, weather: Weather) -> Seq<VisitView> {
    let s = by_start(recs);
    visits_among(s, weather, s.len() as int)
}

/// Whether the record at sorted position `p - 1` is an entrance and the one at `p` an
/// exit, both at exact moments.
pub open spec fn exact_pair_at(sorted: Seq<DataTimestampView>, p: int) -> bool {
    &&& sorted[p - 1].is_in && !sorted[p].is_in
    &&& sorted[p - 1].timestamp.start == sorted[p - 1].timestamp.end
    &&& sorted[p].timestamp.start == sorted[p].timestamp.end
}

/// Whether the exit of the visit that ends at sorted position `p` lacks its parking
/// status or its head count.
pub open spec fn incomplete_at(sorted: Seq<DataTimestampView>, p: int) -> bool {
    makes_visit(sorted[p - 1], sorted[p]) && (sorted[p].parked is None
        || sorted[p].people_in_car is None)
}

/// Whether every visit's exit has its parking status and its head count.
pub open spec fn visits_complete(sorted: Seq<DataTimestampView>) -> bool {
    forall|p: int| 1 <= p < sorted.len() ==> !#[trigger] incomplete_at(sorted, p)
}

/// The first sorted position, among the first `n`, where a visit's exit is incomplete.
pub open spec fn first_incomplete(sorted: Seq<DataTimestampView>, n: int) -> Option<int>
    decreases n,
{
    if n < 2 {
        None
    } else {
        match first_incomplete(sorted, n - 1) {
            Some(p) => Some(p),
            None => if incomplete_at(sorted, n - 1) {
                Some(n - 1)
            } else {
                None
            },
        }
    }
}

/// No first incomplete position among the first `n` means none at all there, and a first
/// one is incomplete and has none before it.
pub proof fn lemma_first_incomplete(sorted: Seq<DataTimestampView>, n: int)
    requires
        n <= sorted.len(),
    ensures
        first_incomplete(sorted, n) is None ==> forall|p: int|
            1 <= p < n ==> !#[trigger] incomplete_at(sorted, p),
        first_incomplete(sorted, n) matches Some(q) ==> 1 <= q < n && incomplete_at(sorted, q)
            && forall|p: int| 1 <= p < q ==> !#[trigger] incomplete_at(sorted, p),
    decreases n,
{
    if n >= 2 {
        lemma_first_incomplete(sorted, n - 1);
    }
}

/// A first incomplete position found among the first `m` records stays the first among
/// more of them.
pub proof fn lemma_first_incomplete_stable(sorted: Seq<DataTimestampView>, m: int, n: int)
    requires
        m <= n,
        first_incomplete(sorted, m) is Some,
    ensures
        first_incomplete(sorted, n) == first_incomplete(sorted, m),
    decreases n - m,
{
    if m < n {
        lemma_first_incomplete_stable(sorted, m, n - 1);
    }
}

/// Whether an entrance record with an exact moment followed directly by an exit record
/// make up an observed (possibly censored) visit.
pub open spec fn makes_censored_visit(a: DataTimestampView, b: DataTimestampView) -> bool {
    a.is_in && !b.is_in && is_exact(a)
}

/// The censored visit made by entrance `a` and exit `b`; an exit without a parking
/// status counts as parked.
pub open spec fn censored_visit_of(a: DataTimestampView, b: DataTimestampView) -> CensoredVisit {
    CensoredVisit {
        parked: match b.parked {
            Some(p) => p,
            None => true,
        },
        in_time: a.timestamp.start,
        out_time_start: b.timestamp.start,
        out_time_end: b.timestamp.end,
    }
}

/// The censored visits among the first `n` sorted records.
pub open spec fn censored_among(sorted: Seq<DataTimestampView>, n: int) -> Seq<CensoredVisit>
    decreases n,
{
    if n < 2 {
        Seq::empty()
    } else {
        let before = censored_among(sorted, n - 1);
        if makes_censored_visit(sorted[n - 2], sorted[n - 1]) {
            before.push(censored_visit_of(sorted[n - 2], sorted[n - 1]))
        } else {
            before
        }
    }
}

/// The censored visits of one card's records.
pub open spec fn censored_visits_of(recs: Seq<DataTimestampView>) -> Seq<CensoredVisit> {
    let s = by_start(recs);
    censored_among(s, s.len() as int)
}

/// Each visit among the first `n` sorted records comes from an entrance at an exact
/// moment followed directly by an exit at an exact moment: it runs from the one to the
/// other, and holds the parking status, head count and activities recorded at the exit.
proof fn lemma_visits_among_paired(sorted: Seq<DataTimestampView>, weather: Weather, n: int)
    requires
        n <= sorted.len(),
        visits_complete(sorted),
    ensures
        forall|i: int|
            #![trigger visits_among(sorted, weather, n)[i]]
            0 <= i < visits_among(sorted, weather, n).len() ==> (exists|p: int|
                #![trigger sorted[p]]
                1 <= p < n && {
                    let a = sorted[p - 1];
                    let b = sorted[p];
                    let v = visits_among(sorted, weather, n)[i];
                    &&& a.is_in && !b.is_in
                    &&& a.timestamp.start == a.timestamp.end
                    &&& b.timestamp.start == b.timestamp.end
                    &&& v.in_time == a.timestamp.start
                    &&& v.out_time == b.timestamp.end
                    &&& b.parked == Some(v.parked)
                    &&& b.people_in_car == Some(v.people_in_car)
                    &&& b.activities == v.activities
                    &&& v.weather == weather
                }),
        forall|p: int, q: int|
            #![trigger sorted[p], sorted[q]]
            0 <= p && q == p + 1 && q < n && sorted[p].is_in && !sorted[q].is_in
                && sorted[p].timestamp.start == sorted[p].timestamp.end
                && sorted[q].timestamp.start == sorted[q].timestamp.end ==> (exists|i: int|
                0 <= i < visits_among(sorted, weather, n).len() && (#[trigger] visits_among(
                    sorted,
                    weather,
                    n,
                )[i]).in_time == sorted[p].timestamp.start && visits_among(
                    sorted,
                    weather,
                    n,
                )[i].out_time == sorted[q].timestamp.end),
    decreases n,
{
    if n >= 2 {
        lemma_visits_among_paired(sorted, weather, n - 1);
        let before = visits_among(sorted, weather, n - 1);
        let all = visits_among(sorted, weather, n);
        if makes_visit(sorted[n - 2], sorted[n - 1]) {
            assert(!incomplete_at(sorted, n - 1));
            assert forall|i: int| 0 <= i < before.len() implies all[i] == before[i] by {}
            assert(all[before.len() as int] == visit_of(sorted[n - 2], sorted[n - 1], weather));
            assert(sorted[n - 1] == sorted[n - 1]);
        }
        assert forall|p: int, q: int|
            #![trigger sorted[p], sorted[q]]
            0 <= p && q == p + 1 && q < n && sorted[p].is_in && !sorted[q].is_in
                && sorted[p].timestamp.start == sorted[p].timestamp.end
                && sorted[q].timestamp.start == sorted[q].timestamp.end implies (exists|i: int|
            0 <= i < all.len() && (#[trigger] all[i]).in_time == sorted[p].timestamp.start
                && all[i].out_time == sorted[q].timestamp.end) by {
            if q < n - 1 {
                let i = choose|i: int|
                    0 <= i < before.len() && (#[trigger] before[i]).in_time == sorted[p].timestamp.start && before[i].out_time == sorted[q].timestamp.end;
                assert(all[i] == before[i]);
            } else {
                assert(makes_visit(sorted[n - 2], sorted[n - 1]));
                assert(all[before.len() as int] == visit_of(sorted[n - 2], sorted[n - 1], weather));
            }
        }
    }
}

/// The visits of one card: the records are sorted by start, and each entrance followed
/// directly by an exit, both at exact moments, makes a visit.
pub fn calculate_visits(data: &Vec<DataTimestamp>, weather: Weather) -> (res: Vec<Visit>)
    requires
        visits_complete(by_start(data.deep_view())),
    ensures
        res.deep_view() == visits_of(data.deep_view(), weather),
        forall|i: int|
            #![trigger res@[i]]
            0 <= i < res@.len() ==> (exists|p: int|
                #![trigger by_start(data.deep_view())[p]]
                1 <= p < data@.len() && {
                    let a = by_start(data.deep_view())[p - 1];
                    let b = by_start(data.deep_view())[p];
                    &&& a.is_in && !b.is_in
                    &&& a.timestamp.start == a.timestamp.end
                    &&& b.timestamp.start == b.timestamp.end
                    &&& res@[i].in_time == a.timestamp.start
                    &&& res@[i].out_time == b.timestamp.end
                    &&& b.parked == Some(res@[i].parked)
                    &&& b.people_in_car == Some(res@[i].people_in_car)
                    &&& b.activities == res@[i].activities@
                    &&& res@[i].weather == weather
                }),
        forall|p: int, q: int|
            #![trigger by_start(data.deep_view())[p], by_start(data.deep_view())[q]]
            0 <= p && q == p + 1 && q < data@.len() && {
                let a = by_start(data.deep_view())[p];
                let b = by_start(data.deep_view())[q];
                &&& a.is_in && !b.is_in
                &&& a.timestamp.start == a.timestamp.end
                &&& b.timestamp.start == b.timestamp.end
            } ==> (exists|i: int|
                0 <= i < res@.len() && (#[trigger] res@[i]).in_time == by_start(data.deep_view())[p].timestamp.start && res@[i].out_time == by_start(data.deep_view())[q].timestamp.end),
{
    let ghost dv = data.deep_view();
    let ghost sorted = by_start(dv);
    let order = order_by_start(data);
    proof {
        lemma_sorted_order_shape(dv, dv.len() as int);
    }
    let n = order.len();
    let mut visits: Vec<Visit> = Vec::new();
    if n < 2 {
        return visits;
    }
    let mut p: usize = 1;
    while p < n
        invariant
            dv == data.deep_view(),
            sorted == by_start(dv),
            order@ == sorted_order(dv, dv.len() as int),
            n == order.len(),
            n == dv.len(),
            forall|q: int| 0 <= q < n ==> (#[trigger] order@[q]) < n,
            visits_complete(sorted),
            1 <= p <= n,
            visits.deep_view() =~= visits_among(sorted, weather, p as int),
        decreases n - p,
    {
        let a = &data[order[p - 1]];
        let b = &data[order[p]];
        assert(a.deep_view() == sorted[p - 1]);
        assert(b.deep_view() == sorted[p as int]);
        if a.is_in && !b.is_in && a.timestamp.is_exact() && b.timestamp.is_exact() {
            assert(!incomplete_at(sorted, p as int));
            let parked = match b.parked {
                Some(x) => x,
                None => false,
            };
            let people_in_car = match b.people_in_car {
                Some(x) => x,
                None => 0,
            };
            let ghost before = visits.deep_view();
            visits.push(
                Visit {
                    in_time: a.timestamp.start,
                    out_time: b.timestamp.end,
                    parked,
                    people_in_car,
                    activities: copy_activities(&b.activities),
                    weather,
                },
            );
            assert(visits.deep_view() =~= before.push(visit_of(sorted[p - 1], sorted[p as int], weather)));
        }
        p = p + 1;
    }
    proof {
        lemma_visits_among_paired(sorted, weather, n as int);
        assert forall|i: int| 0 <= i < visits@.len() implies (#[trigger] visits@[i]).deep_view()
            == visits.deep_view()[i] by {}
    }
    visits
}

/// The record (by its index in `data`) at which the first visit whose exit lacks its
/// parking status or its head count ends, if any.
pub fn find_incomplete_visit(data: &Vec<DataTimestamp>) -> (res: Option<usize>)
    ensures
        res is None <==> first_incomplete(by_start(data.deep_view()), data.len() as int) is None,
        res matches Some(i) ==> i < data.len() && (first_incomplete(
            by_start(data.deep_view()),
            data.len() as int,
        ) matches Some(p) && by_start(data.deep_view())[p] == data.deep_view()[i as int]),
        res matches Some(i) ==> !data@[i as int].is_in && data@[i as int].timestamp.start
            == data@[i as int].timestamp.end && (data@[i as int].parked is None
            || data@[i as int].people_in_car is None),
        res is None ==> forall|p: int|
            1 <= p < data.len() && #[trigger] exact_pair_at(by_start(data.deep_view()), p)
                ==> by_start(data.deep_view())[p].parked is Some && by_start(
                data.deep_view(),
            )[p].people_in_car is Some,
{
    let ghost dv = data.deep_view();
    let ghost sorted = by_start(dv);
    let order = order_by_start(data);
    proof {
        lemma_sorted_order_shape(dv, dv.len() as int);
    }
    let n = order.len();
    if n < 2 {
        return None;
    }
    let mut p: usize = 1;
    while p < n
        invariant
            dv == data.deep_view(),
            sorted == by_start(dv),
            order@ == sorted_order(dv, dv.len() as int),
            n == order.len(),
            n == dv.len(),
            forall|q: int| 0 <= q < n ==> (#[trigger] order@[q]) < n,
            1 <= p <= n,
            first_incomplete(sorted, p as int) is None,
        decreases n - p,
    {
        let a = &data[order[p - 1]];
        let b = &data[order[p]];
        assert(a.deep_view() == sorted[p - 1]);
        assert(b.deep_view() == sorted[p as int]);
        if a.is_in && !b.is_in && a.timestamp.is_exact() && b.timestamp.is_exact() && (
        b.parked.is_none() || b.people_in_car.is_none()) {
            proof {
                assert(first_incomplete(sorted, p + 1) == Some(p as int));
                lemma_first_incomplete_stable(sorted, p + 1, n as int);
            }
            return Some(order[p]);
        }
        p = p + 1;
    }
    proof {
        lemma_first_incomplete(sorted, n as int);
        assert forall|q: int|
            1 <= q < data.len() && #[trigger] exact_pair_at(sorted, q) implies sorted[q].parked is Some
                && sorted[q].people_in_car is Some by {
            assert(!incomplete_at(sorted, q));
        }
    }
    None
}

/// The censored visits of one card: the records are sorted by start, and each entrance
/// at an exact moment followed directly by an exit makes one.
pub fn calculate_censored_visits(data: &Vec<DataTimestamp>) -> (res: Vec<CensoredVisit>)
    ensures
        res@ == censored_visits_of(data.deep_view()),
{
    let ghost dv = data.deep_view();
    let ghost sorted = by_start(dv);
    let order = order_by_start(data);
    proof {
        lemma_sorted_order_shape(dv, dv.len() as int);
    }
    let n = order.len();
    let mut visits: Vec<CensoredVisit> = Vec::new();
    if n < 2 {
        return visits;
    }
    let mut p: usize = 1;
    while p < n
        invariant
            dv == data.deep_view(),
            sorted == by_start(dv),
            order@ == sorted_order(dv, dv.len() as int),
            n == order.len(),
            n == dv.len(),
            forall|q: int| 0 <= q < n ==> (#[trigger] order@[q]) < n,
            1 <= p <= n,
            visits@ =~= censored_among(sorted, p as int),
        decreases n - p,
    {
        let a = &data[order[p - 1]];
        let b = &data[order[p]];
        assert(a.deep_view() == sorted[p - 1]);
        assert(b.deep_view() == sorted[p as int]);
        if a.is_in && !b.is_in && a.timestamp.is_exact() {
            let parked = match b.parked {
                Some(x) => x,
                None => true,
            };
            visits.push(
                CensoredVisit {
                    parked,
                    in_time: a.timestamp.start,
                    out_time_start: b.timestamp.start,
                    out_time_end: b.timestamp.end,
                },
            );
        }
        p = p + 1;
    }
    visits
}

/// Every visit ends no earlier than it starts, so its length in minutes is never
/// negative: records are paired in the order of their starts, and a visit's exit is exact.
pub proof fn lemma_visits_run_forward(recs: Seq<DataTimestampView>, weather: Weather)
    requires
        recs.len() <= usize::MAX,
        forall|k: int|
            0 <= k < recs.len() ==> valid_moment((#[trigger] recs[k]).timestamp.start) && valid_moment(
                recs[k].timestamp.end,
            ),
    ensures
        forall|i: int|
            0 <= i < visits_of(recs, weather).len() ==> !earlier(
                (#[trigger] visits_of(recs, weather)[i]).out_time,
                visits_of(recs, weather)[i].in_time,
            ),
        forall|i: int|
            0 <= i < visits_of(recs, weather).len() ==> minutes_between(
                (#[trigger] visits_of(recs, weather)[i]).in_time,
                visits_of(recs, weather)[i].out_time,
            ) >= 0,
{
    lemma_by_start_sorts(recs);
    lemma_sorted_order_shape(recs, recs.len() as int);
    let s = by_start(recs);
    let o = sorted_order(recs, recs.len() as int);
    assert forall|k: int| 0 <= k < s.len() implies valid_moment((#[trigger] s[k]).timestamp.start)
        && valid_moment(s[k].timestamp.end) by {
        assert(s[k] == recs[o[k] as int]);
    }
    lemma_visits_among_forward(s, weather, s.len() as int);
}

/// Visits among sorted records run forward.
proof fn lemma_visits_among_forward(sorted: Seq<DataTimestampView>, weather: Weather, n: int)
    requires
        n <= sorted.len(),
        forall|i: int, j: int|
            0 <= i < j < sorted.len() ==> sort_key(#[trigger] sorted[i]) <= sort_key(#[trigger] sorted[j]),
        forall|k: int|
            0 <= k < sorted.len() ==> valid_moment((#[trigger] sorted[k]).timestamp.start)
                && valid_moment(sorted[k].timestamp.end),
    ensures
        forall|i: int|
            0 <= i < visits_among(sorted, weather, n).len() ==> !earlier(
                (#[trigger] visits_among(sorted, weather, n)[i]).out_time,
                visits_among(sorted, weather, n)[i].in_time,
            ),
        forall|i: int|
            0 <= i < visits_among(sorted, weather, n).len() ==> minutes_between(
                (#[trigger] visits_among(sorted, weather, n)[i]).in_time,
                visits_among(sorted, weather, n)[i].out_time,
            ) >= 0,
    decreases n,
{
    if n >= 2 {
        lemma_visits_among_forward(sorted, weather, n - 1);
        let a = sorted[n - 2];
        let b = sorted[n - 1];
        assert(sort_key(a) <= sort_key(b));
        let before = visits_among(sorted, weather, n - 1);
        let all = visits_among(sorted, weather, n);
        if makes_visit(a, b) {
            assert(valid_moment(a.timestamp.start) && valid_moment(b.timestamp.end));
            lemma_span_not_negative(a.timestamp.start, b.timestamp.end);
        }
        assert forall|i: int| 0 <= i < all.len() implies !earlier(
            (#[trigger] all[i]).out_time,
            all[i].in_time,
        ) && minutes_between(all[i].in_time, all[i].out_time) >= 0 by {
            if i < before.len() {
                assert(all[i] == before[i]);
            }
        }
    }
}

/// Every censored visit's exit window opens no earlier than its entrance.
pub proof fn lemma_censored_visits_run_forward(recs: Seq<DataTimestampView>)
    requires
        recs.len() <= usize::MAX,
    ensures
        forall|i: int|
            0 <= i < censored_visits_of(recs).len() ==> !earlier(
                (#[trigger] censored_visits_of(recs)[i]).out_time_start,
                censored_visits_of(recs)[i].in_time,
            ),
{
    lemma_by_start_sorts(recs);
    let s = by_start(recs);
    lemma_censored_among_forward(s, s.len() as int);
}

/// Censored visits among sorted records run forward.
proof fn lemma_censored_among_forward(sorted: Seq<DataTimestampView>, n: int)
    requires
        n <= sorted.len(),
        forall|i: int, j: int|
            0 <= i < j < sorted.len() ==> sort_key(#[trigger] sorted[i]) <= sort_key(#[trigger] sorted[j]),
    ensures
        forall|i: int|
            0 <= i < censored_among(sorted, n).len() ==> !earlier(
                (#[trigger] censored_among(sorted, n)[i]).out_time_start,
                censored_among(sorted, n)[i].in_time,
            ),
    decreases n,
{
    if n >= 2 {
        lemma_censored_among_forward(sorted, n - 1);
        assert(sort_key(sorted[n - 2]) <= sort_key(sorted[n - 1]));
        let before = censored_among(sorted, n - 1);
        let all = censored_among(sorted, n);
        assert forall|i: int| 0 <= i < all.len() implies !earlier(
            (#[trigger] all[i]).out_time_start,
            all[i].in_time,
        ) by {
            if i < before.len() {
                assert(all[i] == before[i]);
            }
        }
    }
}

/// The sorted positions of the exits of the censored visits among the first `n` sorted
/// records (see [`lemma_censored_visit_sources`]).
proof fn censored_sources_among(sorted: Seq<DataTimestampView>, n: int) -> (positions: Seq<int>)
    requires
        n <= sorted.len(),
    ensures
        positions.len() == censored_among(sorted, n).len(),
        forall|i: int|
            #![trigger positions[i]]
            0 <= i < positions.len() ==> {
                let q = positions[i];
                let a = sorted[q - 1];
                let b = sorted[q];
                let v = censored_among(sorted, n)[i];
                &&& 1 <= q < n
                &&& a.is_in && !b.is_in
                &&& a.timestamp.start == a.timestamp.end
                &&& v.in_time == a.timestamp.start
                &&& v.out_time_start == b.timestamp.start
                &&& v.out_time_end == b.timestamp.end
                &&& (b.parked == Some(v.parked) || (b.parked is None && v.parked))
            },
    decreases n,
{
    if n < 2 {
        Seq::empty()
    } else {
        let before = censored_sources_among(sorted, n - 1);
        let old_visits = censored_among(sorted, n - 1);
        let all = censored_among(sorted, n);
        if makes_censored_visit(sorted[n - 2], sorted[n - 1]) {
            let positions = before.push(n - 1);
            assert forall|i: int| 0 <= i < old_visits.len() implies all[i] == old_visits[i] by {}
            assert(all[old_visits.len() as int] == censored_visit_of(sorted[n - 2], sorted[n - 1]));
            assert forall|i: int| 0 <= i < positions.len() implies (#[trigger] positions[i]) == (if i
                < before.len() {
                before[i]
            } else {
                n - 1
            }) by {}
            positions
        } else {
            before
        }
    }
}

/// Each censored visit of a card comes from an entrance at an exact moment followed
/// directly, in the order by start, by an exit: the `i`-th censored visit's exit stands at
/// sorted position `positions[i]`, and the visit runs from the entrance into the exit's
/// window and is parked as the exit recorded (parked when it recorded nothing).
pub proof fn lemma_censored_visit_sources(recs: Seq<DataTimestampView>) -> (positions: Seq<int>)
    ensures
        positions.len() == censored_visits_of(recs).len(),
        forall|i: int|
            #![trigger positions[i]]
            0 <= i < positions.len() ==> {
                let q = positions[i];
                let a = by_start(recs)[q - 1];
                let b = by_start(recs)[q];
                let v = censored_visits_of(recs)[i];
                &&& 1 <= q < recs.len()
                &&& a.is_in && !b.is_in
                &&& a.timestamp.start == a.timestamp.end
                &&& v.in_time == a.timestamp.start
                &&& v.out_time_start == b.timestamp.start
                &&& v.out_time_end == b.timestamp.end
                &&& (b.parked == Some(v.parked) || (b.parked is None && v.parked))
            },
{
    lemma_by_start_len(recs);
    let s = by_start(recs);
    censored_sources_among(s, s.len() as int)
}

/// Each fully observed visit is also a censored visit: at each pairing the censored visit
/// starts at the same entrance and its exit window is the visit's exact exit.
pub proof fn lemma_visits_are_censored_visits(recs: Seq<DataTimestampView>, weather: Weather)
    ensures
        visits_of(recs, weather).len() <= censored_visits_of(recs).len(),
{
    let s = by_start(recs);
    lemma_visits_among_censored(s, weather, s.len() as int);
}

/// Pairings that make visits also make censored visits.
proof fn lemma_visits_among_censored(sorted: Seq<DataTimestampView>, weather: Weather, n: int)
    ensures
        visits_among(sorted, weather, n).len() <= censored_among(sorted, n).len(),
    decreases n,
{
    if n >= 2 {
        lemma_visits_among_censored(sorted, weather, n - 1);
    }
}

} // verus!
