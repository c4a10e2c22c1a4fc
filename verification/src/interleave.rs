//! The order in which the changesets of several sources are written when
//! they are interleaved by time.
//!
//! The sources are walked together. At each step the changeset with the
//! earliest time among the heads is taken; where several heads share that
//! time, the head of the source that is listed first.
use vstd::prelude::*;
use crate::collections::{conditional_multi_iter, head_of, heads_of};

verus! {

/// The first of the heads with the least time, if there is a head at all.
pub open spec fn earliest(heads: Seq<Option<i64>>) -> Option<int>
    decreases heads.len(),
{
    if heads.len() == 0 {
        None
    } else {
        match (earliest(heads.drop_last()), heads.last()) {
            (Some(k), Some(t)) => if t < heads[k]->0 {
                Some(heads.len() - 1)
            } else {
                Some(k)
            },
            (Some(k), None) => Some(k),
            (None, Some(t)) => Some(heads.len() - 1),
            (None, None) => None,
        }
    }
}

/// What `earliest` finds is a head with the least time, and the first such.
pub proof fn lemma_earliest(heads: Seq<Option<i64>>)
    ensures
        match earliest(heads) {
            Some(k) => {
                &&& 0 <= k < heads.len()
                &&& heads[k] is Some
                &&& forall|j: int|
                    0 <= j < heads.len() && heads[j] is Some ==> heads[k]->0 <= (
                    #[trigger] heads[j])->0
                &&& forall|j: int| 0 <= j < k && heads[j] is Some ==> heads[k]->0 < (
                #[trigger] heads[j])->0
            },
            None => forall|j: int| 0 <= j < heads.len() ==> (#[trigger] heads[j]) is None,
        },
    decreases heads.len(),
{
    if heads.len() > 0 {
        let rest = heads.drop_last();
        lemma_earliest(rest);
        assert(forall|j: int| 0 <= j < rest.len() ==> rest[j] == heads[j]);
    }
}

/// Finds the source to take the next changeset from, given the times of
/// the heads of all sources; a source that is used up has no head.
pub fn earliest_source(heads: &[Option<i64>]) -> (found: Option<usize>)
    ensures
        match found {
            Some(k) => earliest(heads@) == Some(k as int),
            None => earliest(heads@) is None,
        },
{
    let mut found: Option<usize> = None;
    let mut least: i64 = 0;
    let mut i: usize = 0;
    assert(heads@.take(0) =~= Seq::<Option<i64>>::empty());
    while i < heads.len()
        invariant
            i <= heads.len(),
            match earliest(heads@.take(i as int)) {
                Some(k) => found == Some(k as usize) && 0 <= k < i && heads@[k] == Some(least),
                None => found is None,
            },
        decreases heads.len() - i,
    {
        proof {
            lemma_earliest(heads@.take(i as int));
            assert(heads@.take(i as int + 1).drop_last() =~= heads@.take(i as int));
        }
        if let Some(t) = heads[i] {
            if found.is_none() || t < least {
                found = Some(i);
                least = t;
            }
        }
        i += 1;
    }
    assert(heads@.take(heads.len() as int) =~= heads@);
    proof {
        lemma_earliest(heads@);
    }
    found
}

/// One changeset of one source: the place of the source in the
/// configuration, and the place of the changeset in the source.
pub struct Pick {
    pub source: nat,
    pub index: nat,
}

/// The times of the heads of the sources, of each source the changeset
/// at its position; a source whose position is at its end has no head.
pub open spec fn head_times(sources: Seq<Seq<i64>>, positions: Seq<nat>) -> Seq<Option<i64>> {
    Seq::new(
        sources.len(),
        |i: int|
            if positions[i] < sources[i].len() {
                Some(sources[i][positions[i] as int])
            } else {
                None
            },
    )
}

/// The number of changesets from the positions on, in the sources from `i` on.
pub open spec fn left_from(sources: Seq<Seq<i64>>, positions: Seq<nat>, i: int) -> nat
    decreases sources.len() - i,
{
    if i < 0 || i >= sources.len() {
        0
    } else {
        left_from(sources, positions, i + 1) + (if positions[i] < sources[i].len() {
            (sources[i].len() - positions[i]) as nat
        } else {
            0
        })
    }
}

/// Taking the head of a source leaves one changeset less.
pub proof fn lemma_left_after_pick(sources: Seq<Seq<i64>>, positions: Seq<nat>, k: int, i: int)
    requires
        0 <= i <= k < sources.len(),
        positions.len() == sources.len(),
        positions[k] < sources[k].len(),
    ensures
        left_from(sources, positions.update(k, positions[k] + 1), i) + 1 == left_from(
            sources,
            positions,
            i,
        ),
    decreases k - i,
{
    let moved = positions.update(k, positions[k] + 1);
    if i < k {
        lemma_left_after_pick(sources, positions, k, i + 1);
    } else {
        lemma_left_unchanged(sources, positions, k, k + 1);
    }
}

/// Behind the source that a changeset is taken from nothing changes.
pub proof fn lemma_left_unchanged(sources: Seq<Seq<i64>>, positions: Seq<nat>, k: int, i: int)
    requires
        0 <= k < i <= sources.len(),
        positions.len() == sources.len(),
    ensures
        left_from(sources, positions.update(k, positions[k] + 1), i) == left_from(
            sources,
            positions,
            i,
        ),
    decreases sources.len() - i,
{
    if i < sources.len() {
        lemma_left_unchanged(sources, positions, k, i + 1);
    }
}

/// The order in which the changesets behind the positions are written.
pub open spec fn interleaved(sources: Seq<Seq<i64>>, positions: Seq<nat>) -> Seq<Pick>
    decreases left_from(sources, positions, 0),
        when positions.len() == sources.len()
{
    match earliest(head_times(sources, positions)) {
        Some(k) => {
            proof {
                lemma_earliest(head_times(sources, positions));
                lemma_left_after_pick(sources, positions, k, 0);
            }
            seq![Pick { source: k as nat, index: positions[k] }] + interleaved(
                sources,
                positions.update(k, positions[k] + 1),
            )
        },
        None => Seq::empty(),
    }
}

/// The order in which all changesets of the sources are written.
pub open spec fn chronological(sources: Seq<Seq<i64>>) -> Seq<Pick> {
    interleaved(sources, Seq::new(sources.len(), |i: int| 0nat))
}

/// Whether the changesets of every source are in the order of their times.
pub open spec fn are_in_time_order(sources: Seq<Seq<i64>>) -> bool {
    forall|i: int, a: int, b: int|
        #![trigger sources[i][a], sources[i][b]]
        0 <= i < sources.len() && 0 <= a <= b < sources[i].len() ==> sources[i][a] <= sources[i][b]
}

/// The time of a changeset that was picked.
pub open spec fn time_of(sources: Seq<Seq<i64>>, pick: Pick) -> i64 {
    sources[pick.source as int][pick.index as int]
}

/// Every changeset that is written lies behind the position of its source.
proof fn lemma_picks_lie_behind(sources: Seq<Seq<i64>>, positions: Seq<nat>, q: int)
    requires
        positions.len() == sources.len(),
        0 <= q < interleaved(sources, positions).len(),
    ensures
        interleaved(sources, positions)[q].source < sources.len(),
        positions[interleaved(sources, positions)[q].source as int] <= interleaved(
            sources,
            positions,
        )[q].index,
        interleaved(sources, positions)[q].index < sources[interleaved(
            sources,
            positions,
        )[q].source as int].len(),
    decreases left_from(sources, positions, 0),
{
    let heads = head_times(sources, positions);
    lemma_earliest(heads);
    match earliest(heads) {
        Some(k) => {
            let moved = positions.update(k, positions[k] + 1);
            lemma_left_after_pick(sources, positions, k, 0);
            if q > 0 {
                lemma_picks_lie_behind(sources, moved, q - 1);
                assert(interleaved(sources, positions)[q] == interleaved(sources, moved)[q - 1]);
            }
        },
        None => {},
    }
}

/// The interleave is chronological and stable. Where every source is in
/// the order of its times, the changesets are written in the order of their
/// times, and of two changesets with the same time the one from the source
/// that is listed first is written first. Two changesets of one source are
/// written in the order they have there.
pub proof fn lemma_interleave_order(sources: Seq<Seq<i64>>, positions: Seq<nat>, p: int, q: int)
    requires
        are_in_time_order(sources),
        positions.len() == sources.len(),
        0 <= p < q < interleaved(sources, positions).len(),
    ensures
        ({
            let first = interleaved(sources, positions)[p];
            let second = interleaved(sources, positions)[q];
            &&& time_of(sources, first) <= time_of(sources, second)
            &&& time_of(sources, first) == time_of(sources, second) ==> first.source
                <= second.source
            &&& first.source == second.source ==> first.index < second.index
        }),
    decreases left_from(sources, positions, 0),
{
    let heads = head_times(sources, positions);
    lemma_earliest(heads);
    match earliest(heads) {
        Some(k) => {
            let moved = positions.update(k, positions[k] + 1);
            let rest = interleaved(sources, moved);
            lemma_left_after_pick(sources, positions, k, 0);
            assert(interleaved(sources, positions)[q] == rest[q - 1]);
            if p > 0 {
                assert(interleaved(sources, positions)[p] == rest[p - 1]);
                lemma_interleave_order(sources, moved, p - 1, q - 1);
            } else {
                lemma_picks_lie_behind(sources, moved, q - 1);
                let second = rest[q - 1];
                let j = second.source as int;
                // the head of the source of the second changeset is not
                // later than that changeset, and not earlier than the first
                assert(heads[j] is Some);
                assert(sources[j][positions[j] as int] <= sources[j][second.index as int]);
                assert(heads[j]->0 == sources[j][positions[j] as int]);
            }
        },
        None => {},
    }
}

/// Where no source has a head, no changeset is left.
proof fn lemma_nothing_left(sources: Seq<Seq<i64>>, positions: Seq<nat>, i: int)
    requires
        positions.len() == sources.len(),
        0 <= i,
        forall|j: int| 0 <= j < sources.len() ==> (#[trigger] head_times(sources, positions)[j])
            is None,
    ensures
        left_from(sources, positions, i) == 0,
    decreases sources.len() - i,
{
    if i < sources.len() {
        lemma_nothing_left(sources, positions, i + 1);
        assert(head_times(sources, positions)[i] is None);
    }
}

/// Every changeset behind the positions is written, and none twice: as
/// many are written as are left, and two that are written differ.
pub proof fn lemma_interleave_complete(sources: Seq<Seq<i64>>, positions: Seq<nat>)
    requires
        positions.len() == sources.len(),
    ensures
        interleaved(sources, positions).len() == left_from(sources, positions, 0),
        forall|p: int, q: int|
            0 <= p < q < interleaved(sources, positions).len() ==> interleaved(
                sources,
                positions,
            )[p] != interleaved(sources, positions)[q],
    decreases left_from(sources, positions, 0),
{
    let heads = head_times(sources, positions);
    let out = interleaved(sources, positions);
    lemma_earliest(heads);
    match earliest(heads) {
        Some(k) => {
            let moved = positions.update(k, positions[k] + 1);
            lemma_left_after_pick(sources, positions, k, 0);
            lemma_interleave_complete(sources, moved);
            let rest = interleaved(sources, moved);
            assert forall|p: int, q: int| 0 <= p < q < out.len() implies out[p] != out[q] by {
                assert(out[q] == rest[q - 1]);
                if p > 0 {
                    assert(out[p] == rest[p - 1]);
                } else {
                    lemma_picks_lie_behind(sources, moved, q - 1);
                }
            }
        },
        None => {
            lemma_nothing_left(sources, positions, 0);
        },
    }
}

/// The order across sources is stable: of two changesets with the same
/// time, the one from the source that is listed first is written first,
/// where every source is in the order of its times.
pub proof fn lemma_earlier_source_first(sources: Seq<Seq<i64>>, p: int, q: int)
    requires
        are_in_time_order(sources),
        0 <= p < chronological(sources).len(),
        0 <= q < chronological(sources).len(),
        time_of(sources, chronological(sources)[p]) == time_of(sources, chronological(sources)[q]),
        chronological(sources)[p].source < chronological(sources)[q].source,
    ensures
        p < q,
{
    let start = Seq::new(sources.len(), |i: int| 0nat);
    if q < p {
        lemma_interleave_order(sources, start, q, p);
    }
}

/// The picks as plain values.
pub open spec fn picks_view(picks: Seq<(usize, usize)>) -> Seq<Pick> {
    Seq::new(picks.len(), |i: int| Pick { source: picks[i].0 as nat, index: picks[i].1 as nat })
}

/// The times of the changesets of the sources, as plain values.
pub open spec fn times_view(sources: Seq<Vec<i64>>) -> Seq<Seq<i64>> {
    Seq::new(sources.len(), |i: int| sources[i]@)
}

/// The positions as plain values.
pub open spec fn positions_view(positions: Seq<usize>) -> Seq<nat> {
    Seq::new(positions.len(), |i: int| positions[i] as nat)
}

/// The times of the heads of the sources at the given positions.
fn heads_at(sources: &Vec<Vec<i64>>, positions: &Vec<usize>) -> (heads: Vec<Option<i64>>)
    requires
        positions@.len() == sources@.len(),
    ensures
        heads@ == head_times(times_view(sources@), positions_view(positions@)),
{
    let mut heads: Vec<Option<i64>> = Vec::new();
    let mut i: usize = 0;
    while i < sources.len()
        invariant
            i <= sources.len(),
            positions@.len() == sources@.len(),
            heads@ == head_times(times_view(sources@), positions_view(positions@)).take(i as int),
        decreases sources.len() - i,
    {
        let head = if positions[i] < sources[i].len() {
            Some(sources[i][positions[i]])
        } else {
            None
        };
        heads.push(head);
        assert(heads@ =~= head_times(times_view(sources@), positions_view(positions@)).take(
            i as int + 1,
        ));
        i += 1;
    }
    assert(heads@ =~= head_times(times_view(sources@), positions_view(positions@)));
    heads
}

/// Works out the order in which the changesets of several sources are
/// written, from the times of the changesets of each source: each pair
/// names a source and a changeset of it.
pub fn chronological_order(sources: &Vec<Vec<i64>>) -> (order: Vec<(usize, usize)>)
    ensures
        picks_view(order@) == chronological(times_view(sources@)),
{
    let ghost times = times_view(sources@);
    let mut positions: Vec<usize> = Vec::new();
    let mut i: usize = 0;
    while i < sources.len()
        invariant
            i <= sources.len(),
            positions@.len() == i,
            forall|j: int| 0 <= j < i ==> positions@[j] == 0,
        decreases sources.len() - i,
    {
        positions.push(0);
        i += 1;
    }
    assert(positions_view(positions@) =~= Seq::new(times.len(), |i: int| 0nat));
    let mut order: Vec<(usize, usize)> = Vec::new();
    assert(picks_view(order@) =~= Seq::<Pick>::empty());
    loop
        invariant
            times == times_view(sources@),
            positions@.len() == sources@.len(),
            picks_view(order@) + interleaved(times, positions_view(positions@)) == chronological(
                times,
            ),
        ensures
            picks_view(order@) == chronological(times),
        decreases left_from(times, positions_view(positions@), 0),
    {
        let heads = heads_at(sources, &positions);
        let ghost before = positions_view(positions@);
        proof {
            lemma_earliest(heads@);
        }
        match earliest_source(heads.as_slice()) {
            Some(k) => {
                assert(heads@[k as int] is Some);
                assert(times[k as int] == sources@[k as int]@);
                let at = positions[k];
                assert(before[k as int] == at as nat);
                let size = sources[k].len();
                assert(at < size);
                let ghost done = order@;
                order.push((k, at));
                positions.set(k, at + 1);
                proof {
                    lemma_left_after_pick(times, before, k as int, 0);
                    assert(positions_view(positions@) =~= before.update(
                        k as int,
                        before[k as int] + 1,
                    ));
                    assert(picks_view(order@) =~= picks_view(done).push(
                        Pick { source: k as nat, index: at as nat },
                    ));
                    assert(picks_view(order@) + interleaved(times, positions_view(positions@))
                        =~= picks_view(done) + interleaved(times, before));
                }
            },
            None => {
                proof {
                    assert(picks_view(order@) + Seq::<Pick>::empty() =~= picks_view(order@));
                }
                break ;
            },
        }
    }
    order
}

/// The time of a head, where there is a head.
pub open spec fn time_of_head<U>(head: Option<&(i64, U)>) -> Option<i64> {
    match head {
        Some(item) => Some(item.0),
        None => None,
    }
}

/// The times of some heads.
pub open spec fn times_of_heads<U>(heads: Seq<Option<&(i64, U)>>) -> Seq<Option<i64>> {
    Seq::new(heads.len(), |i: int| time_of_head(heads[i]))
}

/// The least time among some heads, where there is a head.
pub open spec fn least_time(heads: Seq<Option<i64>>) -> Option<i64> {
    match earliest(heads) {
        Some(k) => heads[k],
        None => None,
    }
}

/// The least time among the heads of several sources of timed items.
pub fn earliest_time<U>(heads: &[Option<&(i64, U)>]) -> (least: Option<i64>)
    ensures
        least == least_time(times_of_heads(heads@)),
{
    let mut times: Vec<Option<i64>> = Vec::new();
    let mut i: usize = 0;
    while i < heads.len()
        invariant
            i <= heads.len(),
            times@ == times_of_heads(heads@).take(i as int),
        decreases heads.len() - i,
    {
        let time = match heads[i] {
            Some(item) => Some(item.0),
            None => None,
        };
        times.push(time);
        assert(times@ =~= times_of_heads(heads@).take(i as int + 1));
        i += 1;
    }
    assert(times@ =~= times_of_heads(heads@));
    proof {
        lemma_earliest(times@);
    }
    match earliest_source(times.as_slice()) {
        Some(k) => times[k],
        None => None,
    }
}

/// Whether a head stands at the given time; the head of a source that is
/// used up stands at no time.
pub fn is_at_time<U>(head: &Option<&(i64, U)>, time: &Option<i64>) -> (at: bool)
    ensures
        at == (time_of_head(*head) == *time),
{
    match (head, time) {
        (Some(item), Some(t)) => item.0 == *t,
        (None, None) => true,
        _ => false,
    }
}

/// The times of timed items.
pub open spec fn times_in<U>(sources: Seq<Seq<(i64, U)>>) -> Seq<Seq<i64>> {
    Seq::new(sources.len(), |i: int| Seq::new(sources[i].len(), |j: int| sources[i][j].0))
}

/// The items that an order picks.
pub open spec fn picked<U>(sources: Seq<Seq<(i64, U)>>, order: Seq<Pick>) -> Seq<(i64, U)> {
    Seq::new(order.len(), |p: int| sources[order[p].source as int][order[p].index as int])
}

/// The timed items of some sources.
pub open spec fn items_view<U>(sources: Seq<Vec<(i64, U)>>) -> Seq<Seq<(i64, U)>> {
    Seq::new(sources.len(), |i: int| sources[i]@)
}

/// What the walk of sources that are each in the order of their times
/// yields: every item once, the items in the order of their times, and of
/// two items with the same time first the one of the source that is listed
/// first; the items of one source keep their order.
pub proof fn lemma_merged_in_order<U>(sources: Seq<Seq<(i64, U)>>, p: int, q: int)
    requires
        are_in_time_order(times_in(sources)),
        0 <= p < q < chronological(times_in(sources)).len(),
    ensures
        picked(sources, chronological(times_in(sources))).len() == left_from(
            times_in(sources),
            Seq::new(sources.len(), |i: int| 0nat),
            0,
        ),
        picked(sources, chronological(times_in(sources)))[p].0 <= picked(
            sources,
            chronological(times_in(sources)),
        )[q].0,
        chronological(times_in(sources))[p] != chronological(times_in(sources))[q],
        picked(sources, chronological(times_in(sources)))[p].0 == picked(
            sources,
            chronological(times_in(sources)),
        )[q].0 ==> chronological(times_in(sources))[p].source <= chronological(
            times_in(sources),
        )[q].source,
        chronological(times_in(sources))[p].source == chronological(times_in(sources))[q].source
            ==> chronological(times_in(sources))[p].index < chronological(
            times_in(sources),
        )[q].index,
{
    let times = times_in(sources);
    let start = Seq::new(sources.len(), |i: int| 0nat);
    assert(start =~= Seq::new(times.len(), |i: int| 0nat));
    lemma_interleave_complete(times, start);
    lemma_interleave_order(times, start, p, q);
    lemma_picks_lie_behind(times, start, p);
    lemma_picks_lie_behind(times, start, q);
}

/// Walks several sources of timed items together, taking at each step the
/// head with the least time, of several such the one of the source that is
/// listed first: the items come in the chronological order of their times.
pub fn merge_by_time<U>(sources: Vec<Vec<(i64, U)>>) -> (merged: Vec<(i64, U)>)
    ensures
        merged@ == picked(items_view(sources@), chronological(times_in(items_view(sources@)))),
{
    let ghost all = items_view(sources@);
    let ghost times = times_in(all);
    let aggregate = |heads: &[Option<&(i64, U)>]| -> (least: Option<i64>)
        ensures
            least == least_time(times_of_heads(heads@)),
        { earliest_time(heads) };
    let predicate = |head: &Option<&(i64, U)>, time: &Option<i64>| -> (at: bool)
        ensures
            at == (time_of_head(*head) == *time),
        { is_at_time(head, time) };
    let mut iter = conditional_multi_iter(sources, aggregate, predicate);
    let ghost mut positions: Seq<nat> = Seq::new(all.len(), |i: int| 0nat);
    let mut merged: Vec<(i64, U)> = Vec::new();
    proof {
        assert(iter.remaining() =~= all);
        assert forall|i: int| 0 <= i < all.len() implies #[trigger] iter.remaining()[i]
            == all[i].skip(positions[i] as int) by {
            assert(all[i].skip(0) =~= all[i]);
        }
        assert(merged@ + picked(all, interleaved(times, positions)) =~= picked(
            all,
            chronological(times),
        ));
    }
    loop
        invariant
            times == times_in(all),
            positions.len() == all.len(),
            iter.remaining().len() == all.len(),
            forall|i: int| 0 <= i < all.len() ==> #[trigger] positions[i] <= all[i].len(),
            forall|i: int|
                0 <= i < all.len() ==> #[trigger] iter.remaining()[i] == all[i].skip(
                    positions[i] as int,
                ),
            iter.aggregate() == aggregate,
            iter.predicate() == predicate,
            forall|heads: &[Option<&(i64, U)>], least: Option<i64>|
                call_ensures(aggregate, (heads,), least) ==> least == least_time(
                    times_of_heads(heads@),
                ),
            forall|head: &Option<&(i64, U)>, time: &Option<i64>, at: bool|
                call_ensures(predicate, (head, time), at) ==> at == (time_of_head(*head) == *time),
            merged@ + picked(all, interleaved(times, positions)) == picked(
                all,
                chronological(times),
            ),
        ensures
            merged@ == picked(all, chronological(times)),
        decreases left_from(times, positions, 0),
    {
        let ghost before = iter.remaining();
        let ghost earlier = positions;
        let ghost done = merged@;
        assert forall|i: int| 0 <= i < all.len() implies #[trigger] before[i] == all[i].skip(
            positions[i] as int,
        ) by {
            assert(iter.remaining()[i] == all[i].skip(positions[i] as int));
        }
        let ghost walker = iter;
        let item = iter.next();
        proof {
            let (heads, aggregated, chosen) = choose|
                heads: &[Option<&(i64, U)>],
                aggregated: Option<i64>,
                chosen: int,
            |
                walker.is_step(before, iter.remaining(), item, heads, aggregated, chosen);
            let head_times_now = head_times(times, positions);
            assert(times_of_heads(heads@) =~= head_times_now) by {
                assert forall|i: int| 0 <= i < all.len() implies times_of_heads(heads@)[i]
                    == head_times_now[i] by {
                    assert(heads@[i] == head_of(before[i]));
                    assert(before[i] == all[i].skip(positions[i] as int));
                    if positions[i] < all[i].len() {
                        assert(before[i][0] == all[i][positions[i] as int]);
                    }
                }
            }
            lemma_earliest(head_times_now);
            assert(call_ensures(aggregate, (heads,), aggregated));
            assert(aggregated == least_time(head_times_now));
            assert forall|j: int| 0 <= j < chosen implies time_of_head(
                #[trigger] heads_of(before)[j],
            ) != aggregated by {
                assert(call_ensures(predicate, (&heads_of(before)[j], &aggregated), false));
            }
            if chosen < all.len() {
                assert(call_ensures(predicate, (&heads_of(before)[chosen], &aggregated), true));
                assert(time_of_head(heads_of(before)[chosen]) == aggregated);
                assert(head_times_now[chosen] == time_of_head(heads@[chosen]));
            }
            match earliest(head_times_now) {
                Some(k) => {
                    assert(aggregated == head_times_now[k]);
                    assert(head_times_now[k] == time_of_head(heads@[k]));
                    if chosen > k {
                        assert(time_of_head(heads_of(before)[k]) != aggregated);
                    }
                    if chosen < k {
                        assert(head_times_now[chosen] is Some);
                    }
                    assert(chosen == k);
                    let moved = positions.update(k, positions[k] + 1);
                    lemma_left_after_pick(times, positions, k, 0);
                    assert(item == Some(all[k][positions[k] as int]));
                    assert(iter.remaining() == before.update(k, before[k].drop_first()));
                    assert(before[k].drop_first() =~= all[k].skip(positions[k] as int + 1));
                    let rest = interleaved(times, moved);
                    assert(picked(all, interleaved(times, positions)) =~= seq![
                        all[k][positions[k] as int],
                    ] + picked(all, rest));
                    assert(done.push(all[k][positions[k] as int]) + picked(all, rest) =~= done
                        + picked(all, interleaved(times, positions)));
                    positions = moved;
                },
                None => {
                    if chosen < all.len() {
                        assert(head_times_now[chosen] is None);
                        assert(before[chosen].len() == 0);
                    }
                    assert(item is None);
                    assert(iter.remaining() == before);
                    assert(done + Seq::<(i64, U)>::empty() =~= done);
                },
            }
        }
        assert forall|i: int| 0 <= i < all.len() implies #[trigger] positions[i]
            <= all[i].len() by {
            assert(earlier[i] <= all[i].len());
            lemma_earliest(head_times(times, earlier));
        }
        assert forall|i: int| 0 <= i < all.len() implies #[trigger] iter.remaining()[i]
            == all[i].skip(positions[i] as int) by {
            assert(before[i] == all[i].skip(earlier[i] as int));
            match earliest(head_times(times, earlier)) {
                Some(k) => {
                    if i != k {
                        assert(iter.remaining()[i] == before[i]);
                    } else {
                        assert(before[k].drop_first() =~= all[k].skip(earlier[k] as int + 1));
                    }
                },
                None => {},
            }
        }
        match item {
            Some(found) => {
                merged.push(found);
            },
            None => {
                break ;
            },
        }
    }
    merged
}

} // verus!
