//! Aggregates over a sequence of events: counts by type and the most recent
//! events.

use vstd::prelude::*;
use vstd::set_lib::{lemma_int_range, lemma_len_subset, set_int_range};

use crate::event::{events_view, AnalyticsEvent, EventView};

verus! {

/// How many events of `s` have type `t`.
pub open spec fn type_count(s: Seq<EventView>, t: Seq<char>) -> nat
    decreases s.len(),
{
    if s.len() == 0 {
        0
    } else {
        type_count(s.drop_last(), t) + if s.last().event_type == t {
            1nat
        } else {
            0nat
        }
    }
}

/// The sum of the counts of a table of `(type, count)` entries.
pub open spec fn count_sum(table: Seq<(String, usize)>) -> int
    decreases table.len(),
{
    if table.len() == 0 {
        0
    } else {
        count_sum(table.drop_last()) + table.last().1
    }
}

/// `table` holds each event type of `s` exactly once, with the number of
/// events of that type, and nothing else.
pub open spec fn is_type_table(s: Seq<EventView>, table: Seq<(String, usize)>) -> bool {
    &&& forall|a: int, b: int|
        0 <= a < b < table.len() ==> #[trigger] table[a].0@ != #[trigger] table[b].0@
    &&& forall|a: int|
        0 <= a < table.len() ==> #[trigger] table[a].1 == type_count(s, table[a].0@)
            && table[a].1 > 0
    &&& forall|k: int|
        0 <= k < s.len() ==> exists|a: int|
            0 <= a < table.len() && #[trigger] table[a].0@ == #[trigger] s[k].event_type
}

proof fn lemma_type_count_bounded(s: Seq<EventView>, t: Seq<char>)
    ensures
        type_count(s, t) <= s.len(),
    decreases s.len(),
{
    if s.len() > 0 {
        lemma_type_count_bounded(s.drop_last(), t);
    }
}

proof fn lemma_type_count_absent(s: Seq<EventView>, t: Seq<char>)
    requires
        forall|k: int| 0 <= k < s.len() ==> #[trigger] s[k].event_type != t,
    ensures
        type_count(s, t) == 0,
    decreases s.len(),
{
    if s.len() > 0 {
        lemma_type_count_absent(s.drop_last(), t);
    }
}

proof fn lemma_count_sum_bump(table: Seq<(String, usize)>, a: int, entry: (String, usize))
    requires
        0 <= a < table.len(),
        entry.1 == table[a].1 + 1,
    ensures
        count_sum(table.update(a, entry)) == count_sum(table) + 1,
    decreases table.len(),
{
    let updated = table.update(a, entry);
    if a == table.len() - 1 {
        assert(updated.drop_last() =~= table.drop_last());
    } else {
        assert(updated.drop_last() =~= table.drop_last().update(a, entry));
        lemma_count_sum_bump(table.drop_last(), a, entry);
    }
}

/// The number of events of each type: one entry per type that occurs, with
/// no other entries. The counts add up to the number of events.
pub fn count_by_type(events: &Vec<AnalyticsEvent>) -> (table: Vec<(String, usize)>)
    ensures
        is_type_table(events_view(events@), table@),
        count_sum(table@) == events@.len(),
{
    let ghost s = events_view(events@);
    let mut table: Vec<(String, usize)> = Vec::new();
    let mut i: usize = 0;
    while i < events.len()
        invariant
            s == events_view(events@),
            i <= events@.len(),
            is_type_table(s.subrange(0, i as int), table@),
            count_sum(table@) == i,
        decreases events@.len() - i,
    {
        let ghost prev = s.subrange(0, i as int);
        let ghost next = s.subrange(0, i + 1);
        assert(next.drop_last() =~= prev);
        assert(next.last() == s[i as int]);
        let event_type = &events[i].event_type;
        let mut a: usize = 0;
        while a < table.len()
            invariant
                a <= table@.len(),
                forall|b: int| 0 <= b < a ==> #[trigger] table@[b].0@ != event_type@,
            ensures
                a < table@.len() ==> table@[a as int].0@ == event_type@,
            decreases table@.len() - a,
        {
            if table[a].0 == *event_type {
                break;
            }
            a = a + 1;
        }
        let ghost old_table = table@;
        if a < table.len() {
            proof {
                lemma_type_count_bounded(prev, event_type@);
                lemma_count_sum_bump(old_table, a as int, (table@[a as int].0, (table@[a as int].1 + 1) as usize));
            }
            let key = table[a].0.clone();
            let count = table[a].1 + 1;
            table.set(a, (key, count));
            assert forall|b: int| 0 <= b < table@.len() implies #[trigger] table@[b].1 == type_count(
                next,
                table@[b].0@,
            ) && table@[b].1 > 0 by {
                if b != a {
                    assert(old_table[b].0@ != old_table[a as int].0@);
                }
            }
            assert forall|k: int| 0 <= k < next.len() implies exists|b: int|
                0 <= b < table@.len() && #[trigger] table@[b].0@ == #[trigger] next[k].event_type by {
                if k < i {
                    assert(next[k] == prev[k]);
                    let b = choose|b: int| 0 <= b < old_table.len() && #[trigger] old_table[b].0@ == prev[k].event_type;
                    assert(table@[b].0@ == old_table[b].0@);
                } else {
                    assert(table@[a as int].0@ == next[k].event_type);
                }
            }
        } else {
            proof {
                assert forall|k: int| 0 <= k < prev.len() implies #[trigger] prev[k].event_type != event_type@ by {
                    let b = choose|b: int| 0 <= b < old_table.len() && #[trigger] old_table[b].0@ == prev[k].event_type;
                    assert(old_table[b].0@ != event_type@);
                }
                lemma_type_count_absent(prev, event_type@);
            }
            table.push((event_type.clone(), 1));
            assert(table@.drop_last() =~= old_table);
            assert forall|b: int| 0 <= b < table@.len() implies #[trigger] table@[b].1 == type_count(
                next,
                table@[b].0@,
            ) && table@[b].1 > 0 by {
                if b < old_table.len() {
                    assert(old_table[b].0@ != event_type@);
                }
            }
            assert forall|k: int| 0 <= k < next.len() implies exists|b: int|
                0 <= b < table@.len() && #[trigger] table@[b].0@ == #[trigger] next[k].event_type by {
                if k < i {
                    assert(next[k] == prev[k]);
                    let b = choose|b: int| 0 <= b < old_table.len() && #[trigger] old_table[b].0@ == prev[k].event_type;
                    assert(table@[b].0@ == old_table[b].0@);
                } else {
                    assert(table@[old_table.len() as int].0@ == next[k].event_type);
                }
            }
        }
        i = i + 1;
    }
    assert(s.subrange(0, events@.len() as int) =~= s);
    table
}

/// Event `i` of `s` comes before event `j` in recency order: it is strictly
/// later, or equally recent and stored earlier.
pub open spec fn precedes(s: Seq<EventView>, i: int, j: int) -> bool {
    s[i].timestamp.later_than(s[j].timestamp) || (s[i].timestamp == s[j].timestamp && i < j)
}

/// `picks` are the positions in `s` of its `limit` most recent events (all
/// of them, where there are fewer), most recent first, ties in store order.
pub open spec fn is_recent_selection(s: Seq<EventView>, picks: Seq<int>, limit: nat) -> bool {
    &&& picks.len() == if s.len() < limit {
        s.len()
    } else {
        limit
    }
    &&& forall|a: int| 0 <= a < picks.len() ==> 0 <= #[trigger] picks[a] < s.len()
    &&& forall|a: int, b: int|
        0 <= a < b < picks.len() ==> precedes(s, #[trigger] picks[a], #[trigger] picks[b])
    &&& forall|j: int, a: int|
        0 <= j < s.len() && !picks.contains(j) && 0 <= a < picks.len() ==> #[trigger] precedes(
            s,
            picks[a],
            j,
        )
}

/// `recent` holds the `limit` most recent events of `s`, most recent first.
pub open spec fn is_recent_events(s: Seq<EventView>, recent: Seq<EventView>, limit: nat) -> bool {
    exists|picks: Seq<int>|
        is_recent_selection(s, picks, limit) && recent == picks.map_values(|i: int| s[i])
}

/// The recent events number `limit`, or all events where there are fewer,
/// and run from the most recent down: no event is later than one before it.
pub proof fn lemma_recent_events_ordered(s: Seq<EventView>, recent: Seq<EventView>, limit: nat)
    requires
        is_recent_events(s, recent, limit),
    ensures
        recent.len() == if s.len() < limit {
            s.len()
        } else {
            limit
        },
        forall|a: int, b: int|
            0 <= a < b < recent.len() ==> !(#[trigger] recent[b]).timestamp.later_than(
                (#[trigger] recent[a]).timestamp,
            ),
{
    let picks = choose|picks: Seq<int>|
        is_recent_selection(s, picks, limit) && recent == picks.map_values(|i: int| s[i]);
    assert forall|a: int, b: int| 0 <= a < b < recent.len() implies !(#[trigger] recent[b]).timestamp.later_than(
        (#[trigger] recent[a]).timestamp,
    ) by {
        assert(precedes(s, picks[a], picks[b]));
    }
}

/// At most one sequence of positions is a recent selection: the contract of
/// `most_recent` leaves no choice of which events come, nor of their order.
pub proof fn lemma_recent_selection_unique(
    s: Seq<EventView>,
    p: Seq<int>,
    q: Seq<int>,
    limit: nat,
)
    requires
        is_recent_selection(s, p, limit),
        is_recent_selection(s, q, limit),
    ensures
        p == q,
{
    lemma_selections_agree_below(s, p, q, limit, p.len() as int);
    assert(p =~= q);
}

proof fn lemma_selections_agree_below(
    s: Seq<EventView>,
    p: Seq<int>,
    q: Seq<int>,
    limit: nat,
    d: int,
)
    requires
        is_recent_selection(s, p, limit),
        is_recent_selection(s, q, limit),
        0 <= d <= p.len(),
    ensures
        forall|e: int| 0 <= e < d ==> p[e] == q[e],
    decreases d,
{
    if d > 0 {
        lemma_selections_agree_below(s, p, q, limit, d - 1);
        lemma_selections_agree_at(s, p, q, limit, d - 1);
    }
}

/// Where two selections agree below `d`, each of their entries at `d` comes
/// before the other unless the two are the same.
proof fn lemma_selections_agree_at(s: Seq<EventView>, p: Seq<int>, q: Seq<int>, limit: nat, d: int)
    requires
        is_recent_selection(s, p, limit),
        is_recent_selection(s, q, limit),
        0 <= d < p.len(),
        forall|e: int| 0 <= e < d ==> p[e] == q[e],
    ensures
        p[d] == q[d],
{
    if p[d] != q[d] {
        assert(precedes(s, p[d], q[d])) by {
            if p.contains(q[d]) {
                let b = choose|b: int| 0 <= b < p.len() && p[b] == q[d];
                if b < d {
                    assert(q[b] == q[d]);
                    assert(precedes(s, q[b], q[d]));
                } else {
                    assert(b != d);
                    assert(precedes(s, p[d], p[b]));
                }
            }
        }
        assert(precedes(s, q[d], p[d])) by {
            if q.contains(p[d]) {
                let b = choose|b: int| 0 <= b < q.len() && q[b] == p[d];
                if b < d {
                    assert(p[b] == p[d]);
                    assert(precedes(s, p[b], p[d]));
                } else {
                    assert(b != d);
                    assert(precedes(s, q[d], q[b]));
                }
            }
        }
    }
}

proof fn lemma_precedes_transitive(s: Seq<EventView>, i: int, j: int, k: int)
    requires
        precedes(s, i, j),
        precedes(s, j, k),
    ensures
        precedes(s, i, k),
{
}

fn comes_before(events: &Vec<AnalyticsEvent>, i: usize, j: usize) -> (r: bool)
    requires
        i < events@.len(),
        j < events@.len(),
    ensures
        r == precedes(events_view(events@), i as int, j as int),
{
    let ti = &events[i].timestamp;
    let tj = &events[j].timestamp;
    ti.is_later_than(tj) || (*ti == *tj && i < j)
}

/// Copies of the `limit` most recent events, most recent first; among
/// equally recent events, the one stored first comes first.
pub fn most_recent(events: &Vec<AnalyticsEvent>, limit: usize) -> (recent: Vec<AnalyticsEvent>)
    ensures
        is_recent_events(events_view(events@), events_view(recent@), limit as nat),
{
    let ghost s = events_view(events@);
    let n = events.len();
    let k: usize = if n < limit { n } else { limit };
    let mut recent: Vec<AnalyticsEvent> = Vec::new();
    let ghost mut picks: Seq<int> = Seq::empty();
    let mut last: usize = 0;
    let mut t: usize = 0;
    while t < k
        invariant
            s == events_view(events@),
            n == events@.len(),
            k <= n,
            k <= limit,
            t <= k,
            t > 0 ==> last < n,
            t == 0 ==> last == 0,
            picks.len() == t,
            events_view(recent@) == picks.map_values(|i: int| s[i]),
            t > 0 ==> last == picks[t - 1],
            forall|a: int| 0 <= a < picks.len() ==> 0 <= #[trigger] picks[a] < n,
            forall|a: int, b: int|
                0 <= a < b < picks.len() ==> precedes(s, #[trigger] picks[a], #[trigger] picks[b]),
            forall|j: int|
                0 <= j < n && !picks.contains(j) && t > 0 ==> precedes(s, last as int, j),
        decreases k - t,
    {
        // Some position is not picked yet, so a candidate exists.
        let ghost witness: int = 0;
        proof {
            if t > 0 {
                if forall|j: int| 0 <= j < n ==> picks.contains(j) {
                    lemma_int_range(0, n as int);
                    assert(set_int_range(0, n as int).subset_of(picks.to_set()));
                    picks.lemma_cardinality_of_set();
                    lemma_len_subset(set_int_range(0, n as int), picks.to_set());
                }
                witness = choose|j: int| 0 <= j < n && !picks.contains(j);
            }
        }
        let mut best: usize = 0;
        let mut found: bool = false;
        let mut j: usize = 0;
        while j < n
            invariant
                s == events_view(events@),
                n == events@.len(),
                0 <= witness < n,
                t > 0 ==> precedes(s, last as int, witness),
                t < k,
                k <= n,
                last < n,
                j <= n,
                found ==> best < j,
                found ==> best < n && (t == 0 || precedes(s, last as int, best as int)),
                found ==> forall|c: int|
                    0 <= c < j && (t == 0 || precedes(s, last as int, c)) && c != best
                        ==> #[trigger] precedes(s, best as int, c),
                !found && t == 0 ==> j == 0,
                !found ==> forall|c: int| 0 <= c < j ==> !#[trigger] precedes(s, last as int, c),
            decreases n - j,
        {
            let ghost old_best = best;
            let ghost old_found = found;
            let candidate = t == 0 || comes_before(events, last, j);
            let better = candidate && (!found || comes_before(events, j, best));
            if better {
                best = j;
                found = true;
            }
            proof {
                assert forall|c: int|
                    0 <= c < j + 1 && (t == 0 || precedes(s, last as int, c)) && c != best
                        implies #[trigger] precedes(s, best as int, c) by {
                    if c == j {
                        assert(candidate);
                        assert(best == old_best);
                        assert(old_found);
                        assert(!precedes(s, j as int, old_best as int));
                    } else if !old_found {
                        assert(!precedes(s, last as int, c));
                    } else if c == old_best {
                        assert(best == j);
                    } else if best != old_best {
                        lemma_precedes_transitive(s, best as int, old_best as int, c);
                    }
                }
                if !found {
                    assert forall|c: int| 0 <= c < j + 1 implies !#[trigger] precedes(
                        s,
                        last as int,
                        c,
                    ) by {
                        if c < j {
                            assert(!precedes(s, last as int, c));
                        }
                    }
                }
            }
            j = j + 1;
        }
        if !found {
            assert(0 <= witness < j);
            assert(!precedes(s, last as int, witness));
        }
        let ghost old_picks = picks;
        let ghost old_recent = recent@;
        assert(events_view(old_recent).len() == old_recent.len());
        recent.push(events[best].snapshot());
        proof {
            picks = picks.push(best as int);
            assert forall|a: int, b: int|
                0 <= a < b < picks.len() implies precedes(s, #[trigger] picks[a], #[trigger] picks[b]) by {
                if b == t {
                    if a < t - 1 {
                        lemma_precedes_transitive(s, picks[a], last as int, best as int);
                    }
                }
            }
            assert forall|c: int| 0 <= c < n && !picks.contains(c) implies precedes(s, best as int, c) by {
                if old_picks.contains(c) {
                    let a = choose|a: int| 0 <= a < old_picks.len() && old_picks[a] == c;
                    assert(picks[a] == c);
                }
                assert(picks[t as int] == best);
            }
            assert forall|a: int| 0 <= a < picks.len() implies #[trigger] events_view(recent@)[a]
                == picks.map_values(|i: int| s[i])[a] by {
                if a < t {
                    assert(recent@[a] == old_recent[a]);
                    assert(events_view(old_recent)[a] == old_picks.map_values(|i: int| s[i])[a]);
                }
            }
            assert(events_view(recent@) =~= picks.map_values(|i: int| s[i]));
        }
        last = best;
        t = t + 1;
    }
    proof {
        assert forall|c: int, a: int|
            0 <= c < n && !picks.contains(c) && 0 <= a < picks.len() implies #[trigger] precedes(
                s,
                picks[a],
                c,
            ) by {
            if a < t - 1 {
                lemma_precedes_transitive(s, picks[a], last as int, c);
            }
        }
        assert(is_recent_selection(s, picks, limit as nat));
    }
    recent
}

} // verus!
