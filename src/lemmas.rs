use vstd::prelude::*;
use crate::feed::MonitoredVehicleJourney;
use crate::time::{parsed_utc, Timestamp};
use crate::cache::{CacheError, Cached};
use crate::config::StopConfig;
use crate::pipeline::{merged, model_at, with_line, with_lines, AgencyView, LinesView};
use crate::transform::{
    arrival_time, arrivals, grouped, is_complete, is_sorted, lemma_line_cmp_antisym,
    line_cmp, pairs_view, soonest, substitute_line, time_text, times_for, LineView, MAX_TIMES,
};

verus! {

broadcast use vstd::seq_lib::group_to_multiset_ensures;

/// Each line's times, after grouping, are ascending and at most `MAX_TIMES` long.
pub proof fn lemma_group_times_sorted_and_bounded(
    arr: Seq<(LineView, Timestamp)>,
    g: Seq<(LineView, Seq<Timestamp>)>,
    i: int,
)
    requires
        grouped(arr, g),
        0 <= i < g.len(),
    ensures
        is_sorted(g[i].1),
        g[i].1.len() <= MAX_TIMES,
{
    assert(soonest(times_for(arr, g[i].0), g[i].1));
    let s = choose|s: Seq<Timestamp>|
        #![trigger s.to_multiset()]
        is_sorted(s) && s.to_multiset() == times_for(arr, g[i].0).to_multiset() && g[i].1 == s.take(
            if s.len() < MAX_TIMES {
                s.len() as int
            } else {
                MAX_TIMES as int
            },
        );
    assert forall|a: int, b: int| 0 <= a < b < g[i].1.len() implies (#[trigger] g[i].1[a]).spec_not_after(
        #[trigger] g[i].1[b],
    ) by {
        assert(g[i].1[a] == s[a] && g[i].1[b] == s[b]);
    }
}

proof fn lemma_arrivals_not_past(
    js: Seq<MonitoredVehicleJourney>,
    now: Timestamp,
    agency: Seq<char>,
    rules: Seq<(Seq<char>, Seq<char>)>,
    subs: Seq<(Seq<char>, Seq<char>)>,
)
    ensures
        forall|x: int| 0 <= x < arrivals(js, now, agency, rules, subs).len()
            ==> !(#[trigger] arrivals(js, now, agency, rules, subs)[x]).1.spec_before(now),
    decreases js.len(),
{
    if js.len() > 0 {
        lemma_arrivals_not_past(js.drop_last(), now, agency, rules, subs);
        let rest = arrivals(js.drop_last(), now, agency, rules, subs);
        let whole = arrivals(js, now, agency, rules, subs);
        assert forall|x: int| 0 <= x < whole.len() implies !(#[trigger] whole[x]).1.spec_before(now) by {
            if x < rest.len() {
                assert(whole[x] == rest[x]);
            }
        }
    }
}

proof fn lemma_times_for_from(arr: Seq<(LineView, Timestamp)>, k: LineView, now: Timestamp)
    requires
        forall|x: int| 0 <= x < arr.len() ==> !(#[trigger] arr[x]).1.spec_before(now),
    ensures
        forall|y: int| 0 <= y < times_for(arr, k).len() ==> !(#[trigger] times_for(arr, k)[y]).spec_before(now),
    decreases arr.len(),
{
    if arr.len() > 0 {
        assert forall|x: int| 0 <= x < arr.drop_last().len() implies !(#[trigger] arr.drop_last()[x]).1.spec_before(now) by {
            assert(arr.drop_last()[x] == arr[x]);
        }
        lemma_times_for_from(arr.drop_last(), k, now);
        let rest = times_for(arr.drop_last(), k);
        let whole = times_for(arr, k);
        assert forall|y: int| 0 <= y < whole.len() implies !(#[trigger] whole[y]).spec_before(now) by {
            if y < rest.len() {
                assert(whole[y] == rest[y]);
            }
        }
    }
}

/// No arrival time in the grouped model of a snapshot lies before the moment
/// `now` at which it was built: past arrivals are excluded from every line.
pub proof fn lemma_no_past_arrivals(
    js: Seq<MonitoredVehicleJourney>,
    now: Timestamp,
    agency: Seq<char>,
    rules: Seq<(Seq<char>, Seq<char>)>,
    subs: Seq<(Seq<char>, Seq<char>)>,
    g: Seq<(LineView, Seq<Timestamp>)>,
    i: int,
    j: int,
)
    requires
        grouped(arrivals(js, now, agency, rules, subs), g),
        0 <= i < g.len(),
        0 <= j < g[i].1.len(),
    ensures
        !g[i].1[j].spec_before(now),
{
    let arr = arrivals(js, now, agency, rules, subs);
    lemma_arrivals_not_past(js, now, agency, rules, subs);
    lemma_times_for_from(arr, g[i].0, now);
    let all = times_for(arr, g[i].0);
    assert(soonest(all, g[i].1));
    let s = choose|s: Seq<Timestamp>|
        #![trigger s.to_multiset()]
        is_sorted(s) && s.to_multiset() == all.to_multiset() && g[i].1 == s.take(
            if s.len() < MAX_TIMES {
                s.len() as int
            } else {
                MAX_TIMES as int
            },
        );
    let t = g[i].1[j];
    assert(s[j] == t);
    assert(s.contains(t));
    assert(all.to_multiset().count(t) > 0);
    assert(all.contains(t));
}

/// A journey that lacks any of the four scheduling fields adds no arrival and no
/// error: the model is what it would be without it.
pub proof fn lemma_incomplete_journey_ignored(
    js: Seq<MonitoredVehicleJourney>,
    i: int,
    now: Timestamp,
    agency: Seq<char>,
    rules: Seq<(Seq<char>, Seq<char>)>,
    subs: Seq<(Seq<char>, Seq<char>)>,
)
    requires
        0 <= i < js.len(),
        !is_complete(js[i]),
    ensures
        arrivals(js, now, agency, rules, subs) == arrivals(js.remove(i), now, agency, rules, subs),
        arrival_time(js[i], now) is None,
    decreases js.len(),
{
    if i < js.len() - 1 {
        assert(js.remove(i).drop_last() =~= js.drop_last().remove(i));
        assert(js.remove(i).last() == js.last());
        lemma_incomplete_journey_ignored(js.drop_last(), i, now, agency, rules, subs);
    } else {
        assert(js.remove(i) =~= js.drop_last());
    }
}

/// Line rules apply in their order: the first rule whose prefix starts the label
/// decides, even where a later rule's prefix is longer.
pub proof fn lemma_first_matching_rule_wins(rules: Seq<(Seq<char>, Seq<char>)>, l: Seq<char>, i: int)
    requires
        0 <= i < rules.len(),
        rules[i].0.is_prefix_of(l),
        forall|j: int| 0 <= j < i ==> !(#[trigger] rules[j]).0.is_prefix_of(l),
    ensures
        substitute_line(rules, l) == rules[i].1,
    decreases i,
{
    if i > 0 {
        assert(!rules[0].0.is_prefix_of(l));
        assert forall|j: int| 0 <= j < i - 1 implies !(#[trigger] rules.drop_first()[j]).0.is_prefix_of(l) by {
            assert(rules.drop_first()[j] == rules[j + 1]);
        }
        lemma_first_matching_rule_wins(rules.drop_first(), l, i - 1);
    }
}

/// Two reads of one snapshot at `now1` and at a later `now2` see the same arrivals
/// when no arrival time falls in between.
pub proof fn lemma_reads_agree(
    js: Seq<MonitoredVehicleJourney>,
    now1: Timestamp,
    now2: Timestamp,
    agency: Seq<char>,
    rules: Seq<(Seq<char>, Seq<char>)>,
    subs: Seq<(Seq<char>, Seq<char>)>,
)
    requires
        forall|i: int| 0 <= i < js.len() && is_complete(#[trigger] js[i]) ==> match parsed_utc(time_text(js[i])) {
            Some(t) => t.spec_before(now1) || !t.spec_before(now2),
            None => true,
        },
        now1.spec_not_after(now2),
    ensures
        arrivals(js, now1, agency, rules, subs) == arrivals(js, now2, agency, rules, subs),
    decreases js.len(),
{
    if js.len() > 0 {
        assert(js.last() == js[js.len() - 1]);
        assert forall|i: int| 0 <= i < js.drop_last().len() && is_complete(#[trigger] js.drop_last()[i]) implies match parsed_utc(time_text(js.drop_last()[i])) {
            Some(t) => t.spec_before(now1) || !t.spec_before(now2),
            None => true,
        } by {
            assert(js.drop_last()[i] == js[i]);
        }
        lemma_reads_agree(js.drop_last(), now1, now2, agency, rules, subs);
    }
}


/// Two ascending sequences of instants with the same elements are the same.
proof fn lemma_sorted_unique(s1: Seq<Timestamp>, s2: Seq<Timestamp>)
    requires
        is_sorted(s1),
        is_sorted(s2),
        s1.to_multiset() == s2.to_multiset(),
    ensures
        s1 == s2,
    decreases s1.len(),
{
    assert(s1.to_multiset().len() == s1.len());
    assert(s2.to_multiset().len() == s2.len());
    if s1.len() == 0 {
        assert(s2.len() == 0);
        assert(s1 =~= s2);
    } else {
        let a = s1[0];
        let b = s2[0];
        assert(s2.contains(b));
        assert(s2.to_multiset().count(b) > 0);
        assert(s1.to_multiset().count(b) > 0);
        assert(s1.contains(b));
        assert(s1.contains(a));
        assert(s1.to_multiset().count(a) > 0);
        assert(s2.to_multiset().count(a) > 0);
        assert(s2.contains(a));
        let j = choose|j: int| 0 <= j < s1.len() && s1[j] == b;
        let i = choose|i: int| 0 <= i < s2.len() && s2[i] == a;
        if j > 0 {
            assert(s1[0].spec_not_after(s1[j]));
        }
        if i > 0 {
            assert(s2[0].spec_not_after(s2[i]));
        }
        assert(a == b);
        let t1 = s1.drop_first();
        let t2 = s2.drop_first();
        assert(s1.remove(0) =~= t1);
        assert(s2.remove(0) =~= t2);
        assert forall|x: int, y: int| 0 <= x < y < t1.len() implies (#[trigger] t1[x]).spec_not_after(#[trigger] t1[y]) by {
            assert(t1[x] == s1[x + 1] && t1[y] == s1[y + 1]);
        }
        assert forall|x: int, y: int| 0 <= x < y < t2.len() implies (#[trigger] t2[x]).spec_not_after(#[trigger] t2[y]) by {
            assert(t2[x] == s2[x + 1] && t2[y] == s2[y + 1]);
        }
        lemma_sorted_unique(t1, t2);
        assert forall|x: int| 0 <= x < s1.len() implies s1[x] == s2[x] by {
            if x > 0 {
                assert(s1[x] == t1[x - 1]);
                assert(s2[x] == t2[x - 1]);
            }
        }
        assert(s1 =~= s2);
    }
}

/// The soonest of a list of instants are determined by the list.
proof fn lemma_soonest_unique(all: Seq<Timestamp>, o1: Seq<Timestamp>, o2: Seq<Timestamp>)
    requires
        soonest(all, o1),
        soonest(all, o2),
    ensures
        o1 == o2,
{
    let s1 = choose|s: Seq<Timestamp>|
        #![trigger s.to_multiset()]
        is_sorted(s) && s.to_multiset() == all.to_multiset() && o1 == s.take(
            if s.len() < MAX_TIMES {
                s.len() as int
            } else {
                MAX_TIMES as int
            },
        );
    let s2 = choose|s: Seq<Timestamp>|
        #![trigger s.to_multiset()]
        is_sorted(s) && s.to_multiset() == all.to_multiset() && o2 == s.take(
            if s.len() < MAX_TIMES {
                s.len() as int
            } else {
                MAX_TIMES as int
            },
        );
    lemma_sorted_unique(s1, s2);
}

/// Two strictly ascending sequences of lines with the same members are the same.
proof fn lemma_ascending_unique(k1: Seq<LineView>, k2: Seq<LineView>)
    requires
        forall|i: int, j: int| 0 <= i < j < k1.len() ==> line_cmp(#[trigger] k1[i], #[trigger] k1[j]) < 0,
        forall|i: int, j: int| 0 <= i < j < k2.len() ==> line_cmp(#[trigger] k2[i], #[trigger] k2[j]) < 0,
        forall|k: LineView| k1.contains(k) <==> k2.contains(k),
    ensures
        k1 == k2,
    decreases k1.len(),
{
    if k1.len() == 0 {
        if k2.len() > 0 {
            assert(k2.contains(k2[0]));
        }
        assert(k1 =~= k2);
    } else {
        assert(k1.contains(k1[0]));
        assert(k2.len() > 0);
        assert(k2.contains(k2[0]));
        let a = k1[0];
        let b = k2[0];
        let j = choose|j: int| 0 <= j < k1.len() && k1[j] == b;
        let i = choose|i: int| 0 <= i < k2.len() && k2[i] == a;
        lemma_line_cmp_antisym(a, b);
        if j > 0 && i > 0 {
            assert(line_cmp(k1[0], k1[j]) < 0);
            assert(line_cmp(k2[0], k2[i]) < 0);
        }
        assert(a == b);
        let t1 = k1.drop_first();
        let t2 = k2.drop_first();
        assert forall|k: LineView| t1.contains(k) <==> t2.contains(k) by {
            if t1.contains(k) {
                let x = choose|x: int| 0 <= x < t1.len() && t1[x] == k;
                assert(k1[x + 1] == k);
                assert(line_cmp(k1[0], k1[x + 1]) < 0);
                lemma_line_cmp_antisym(a, k);
                assert(k2.contains(k));
                let y = choose|y: int| 0 <= y < k2.len() && k2[y] == k;
                assert(y != 0);
                assert(t2[y - 1] == k);
            }
            if t2.contains(k) {
                let x = choose|x: int| 0 <= x < t2.len() && t2[x] == k;
                assert(k2[x + 1] == k);
                assert(line_cmp(k2[0], k2[x + 1]) < 0);
                lemma_line_cmp_antisym(b, k);
                assert(k1.contains(k));
                let y = choose|y: int| 0 <= y < k1.len() && k1[y] == k;
                assert(y != 0);
                assert(t1[y - 1] == k);
            }
        }
        assert forall|x: int, y: int| 0 <= x < y < t1.len() implies line_cmp(#[trigger] t1[x], #[trigger] t1[y]) < 0 by {
            assert(t1[x] == k1[x + 1] && t1[y] == k1[y + 1]);
        }
        assert forall|x: int, y: int| 0 <= x < y < t2.len() implies line_cmp(#[trigger] t2[x], #[trigger] t2[y]) < 0 by {
            assert(t2[x] == k2[x + 1] && t2[y] == k2[y + 1]);
        }
        lemma_ascending_unique(t1, t2);
        assert forall|x: int| 0 <= x < k1.len() implies k1[x] == k2[x] by {
            if x > 0 {
                assert(k1[x] == t1[x - 1]);
                assert(k2[x] == t2[x - 1]);
            }
        }
        assert(k1 =~= k2);
    }
}

/// The grouped form of a list of arrivals is determined by the list.
pub proof fn lemma_grouped_unique(
    arr: Seq<(LineView, Timestamp)>,
    g1: Seq<(LineView, Seq<Timestamp>)>,
    g2: Seq<(LineView, Seq<Timestamp>)>,
)
    requires
        grouped(arr, g1),
        grouped(arr, g2),
    ensures
        g1 == g2,
{
    let k1 = g1.map_values(|e: (LineView, Seq<Timestamp>)| e.0);
    let k2 = g2.map_values(|e: (LineView, Seq<Timestamp>)| e.0);
    assert forall|k: LineView| k1.contains(k) <==> k2.contains(k) by {
        if k1.contains(k) {
            let x = choose|x: int| 0 <= x < k1.len() && k1[x] == k;
            assert(g1[x].0 == k);
            assert(times_for(arr, k).len() > 0);
            let y = choose|y: int| 0 <= y < g2.len() && #[trigger] g2[y].0 == k;
            assert(k2[y] == k);
        }
        if k2.contains(k) {
            let x = choose|x: int| 0 <= x < k2.len() && k2[x] == k;
            assert(g2[x].0 == k);
            assert(times_for(arr, k).len() > 0);
            let y = choose|y: int| 0 <= y < g1.len() && #[trigger] g1[y].0 == k;
            assert(k1[y] == k);
        }
    }
    assert forall|i: int, j: int| 0 <= i < j < k1.len() implies line_cmp(#[trigger] k1[i], #[trigger] k1[j]) < 0 by {
        assert(line_cmp(g1[i].0, g1[j].0) < 0);
    }
    assert forall|i: int, j: int| 0 <= i < j < k2.len() implies line_cmp(#[trigger] k2[i], #[trigger] k2[j]) < 0 by {
        assert(line_cmp(g2[i].0, g2[j].0) < 0);
    }
    lemma_ascending_unique(k1, k2);
    assert(g1.len() == k1.len() && g2.len() == k2.len());
    assert forall|i: int| 0 <= i < g1.len() implies g1[i] == g2[i] by {
        assert(k1[i] == k2[i]);
        assert(g1[i].0 == k1[i] && g2[i].0 == k2[i]);
        lemma_soonest_unique(times_for(arr, g1[i].0), g1[i].1, g2[i].1);
    }
    assert(g1 =~= g2);
}

/// Two reads of unchanged snapshots, at `now1` and a later `now2` with no arrival time
/// from `now1` up to `now2`, build the same model (as `DataAccess::load_stop_data_at`
/// states its result).
pub proof fn lemma_rereads_equal(
    snapshots: Seq<Result<Cached, CacheError>>,
    stops: Seq<StopConfig>,
    subs: Seq<(Seq<char>, Seq<char>)>,
    now1: Timestamp,
    now2: Timestamp,
    m1: Map<Seq<char>, AgencyView>,
    m2: Map<Seq<char>, AgencyView>,
)
    requires
        now1.spec_not_after(now2),
        snapshots.len() == stops.len(),
        forall|i: int| 0 <= i < snapshots.len() ==> (#[trigger] snapshots[i]) is Ok,
        forall|i: int, j: int|
            0 <= i < snapshots.len() && 0 <= j < snapshots[i]->Ok_0.journeys@.len()
                && is_complete(#[trigger] snapshots[i]->Ok_0.journeys@[j]) ==> match parsed_utc(
                time_text(snapshots[i]->Ok_0.journeys@[j]),
            ) {
                Some(t) => t.spec_before(now1) || !t.spec_before(now2),
                None => true,
            },
        model_at(snapshots, stops, subs, now1, m1),
        model_at(snapshots, stops, subs, now2, m2),
    ensures
        m1 == m2,
{
    let rs1 = choose|rs: Seq<(Seq<char>, Timestamp, LinesView)>|
        #![trigger merged(rs)]
        rs.len() == stops.len() && m1 == merged(rs) && forall|i: int|
            0 <= i < rs.len() ==> (#[trigger] rs[i]).0 == stops[i].agency@ && rs[i].1 == snapshots[i]->Ok_0.live_time
                && grouped(
                arrivals(snapshots[i]->Ok_0.journeys@, now1, stops[i].agency@, pairs_view(stops[i].line_prefix_subs@), subs),
                rs[i].2,
            );
    let rs2 = choose|rs: Seq<(Seq<char>, Timestamp, LinesView)>|
        #![trigger merged(rs)]
        rs.len() == stops.len() && m2 == merged(rs) && forall|i: int|
            0 <= i < rs.len() ==> (#[trigger] rs[i]).0 == stops[i].agency@ && rs[i].1 == snapshots[i]->Ok_0.live_time
                && grouped(
                arrivals(snapshots[i]->Ok_0.journeys@, now2, stops[i].agency@, pairs_view(stops[i].line_prefix_subs@), subs),
                rs[i].2,
            );
    assert forall|i: int| 0 <= i < rs1.len() implies rs1[i] == rs2[i] by {
        let js = snapshots[i]->Ok_0.journeys@;
        let agency = stops[i].agency@;
        let rules = pairs_view(stops[i].line_prefix_subs@);
        assert forall|j: int| 0 <= j < js.len() && is_complete(#[trigger] js[j]) implies match parsed_utc(time_text(js[j])) {
            Some(t) => t.spec_before(now1) || !t.spec_before(now2),
            None => true,
        } by {
            assert(is_complete(snapshots[i]->Ok_0.journeys@[j]));
        }
        lemma_reads_agree(js, now1, now2, agency, rules, subs);
        assert(grouped(arrivals(js, now1, agency, rules, subs), rs1[i].2));
        assert(grouped(arrivals(js, now1, agency, rules, subs), rs2[i].2));
        lemma_grouped_unique(arrivals(js, now1, agency, rules, subs), rs1[i].2, rs2[i].2);
    }
    assert(rs1 =~= rs2);
}


/// A line of agency `agency` at `now`: it names that agency, and has one to `MAX_TIMES`
/// times, ascending, none before `now`.
pub open spec fn line_entry_ok(e: (LineView, Seq<Timestamp>), agency: Seq<char>, now: Timestamp) -> bool {
    &&& e.0.1 == agency
    &&& is_sorted(e.1)
    &&& 1 <= e.1.len() <= MAX_TIMES
    &&& forall|y: int| 0 <= y < e.1.len() ==> !(#[trigger] e.1[y]).spec_before(now)
}

/// Every line of the model is a line of the agency and of the direction it is filed under,
/// with one to `MAX_TIMES` times, ascending, none before `now`.
pub open spec fn model_lines_ok(m: Map<Seq<char>, AgencyView>, now: Timestamp) -> bool {
    forall|a: Seq<char>, d: Seq<char>, x: int|
        m.contains_key(a) && m[a].1.contains_key(d) && 0 <= x < m[a].1[d].len() ==> line_entry_ok(
            #[trigger] m[a].1[d][x],
            a,
            now,
        ) && m[a].1[d][x].0.2 == d
}

proof fn lemma_times_for_nonempty(arr: Seq<(LineView, Timestamp)>, k: LineView)
    requires
        times_for(arr, k).len() > 0,
    ensures
        exists|j: int| 0 <= j < arr.len() && (#[trigger] arr[j]).0 == k,
    decreases arr.len(),
{
    if arr.last().0 == k {
        assert(arr[arr.len() - 1].0 == k);
    } else {
        lemma_times_for_nonempty(arr.drop_last(), k);
        let j = choose|j: int| 0 <= j < arr.drop_last().len() && (#[trigger] arr.drop_last()[j]).0 == k;
        assert(arr[j] == arr.drop_last()[j]);
    }
}

proof fn lemma_arrivals_agency(
    js: Seq<MonitoredVehicleJourney>,
    now: Timestamp,
    agency: Seq<char>,
    rules: Seq<(Seq<char>, Seq<char>)>,
    subs: Seq<(Seq<char>, Seq<char>)>,
)
    ensures
        forall|x: int| 0 <= x < arrivals(js, now, agency, rules, subs).len()
            ==> (#[trigger] arrivals(js, now, agency, rules, subs)[x]).0.1 == agency,
    decreases js.len(),
{
    if js.len() > 0 {
        lemma_arrivals_agency(js.drop_last(), now, agency, rules, subs);
        let rest = arrivals(js.drop_last(), now, agency, rules, subs);
        let whole = arrivals(js, now, agency, rules, subs);
        assert forall|x: int| 0 <= x < whole.len() implies (#[trigger] whole[x]).0.1 == agency by {
            if x < rest.len() {
                assert(whole[x] == rest[x]);
            }
        }
    }
}

/// Each line that one agency's snapshot gives at `now` is a line of that agency, with one
/// to `MAX_TIMES` times, ascending, none before `now`.
pub proof fn lemma_group_line_ok(
    js: Seq<MonitoredVehicleJourney>,
    now: Timestamp,
    agency: Seq<char>,
    rules: Seq<(Seq<char>, Seq<char>)>,
    subs: Seq<(Seq<char>, Seq<char>)>,
    g: Seq<(LineView, Seq<Timestamp>)>,
    i: int,
)
    requires
        grouped(arrivals(js, now, agency, rules, subs), g),
        0 <= i < g.len(),
    ensures
        line_entry_ok(g[i], agency, now),
{
    let arr = arrivals(js, now, agency, rules, subs);
    lemma_group_times_sorted_and_bounded(arr, g, i);
    assert forall|y: int| 0 <= y < g[i].1.len() implies !(#[trigger] g[i].1[y]).spec_before(now) by {
        lemma_no_past_arrivals(js, now, agency, rules, subs, g, i, y);
    }
    let all = times_for(arr, g[i].0);
    assert(all.len() > 0);
    lemma_times_for_nonempty(arr, g[i].0);
    lemma_arrivals_agency(js, now, agency, rules, subs);
    let j = choose|j: int| 0 <= j < arr.len() && (#[trigger] arr[j]).0 == g[i].0;
    assert(arr[j].0.1 == agency);
    assert(soonest(all, g[i].1));
    let s = choose|s: Seq<Timestamp>|
        #![trigger s.to_multiset()]
        is_sorted(s) && s.to_multiset() == all.to_multiset() && g[i].1 == s.take(
            if s.len() < MAX_TIMES {
                s.len() as int
            } else {
                MAX_TIMES as int
            },
        );
    assert(s.to_multiset().len() == s.len());
    assert(all.to_multiset().len() == all.len());
}

proof fn lemma_with_line_ok(
    m: Map<Seq<char>, AgencyView>,
    agency: Seq<char>,
    live: Timestamp,
    line: (LineView, Seq<Timestamp>),
    now: Timestamp,
)
    requires
        model_lines_ok(m, now),
        line_entry_ok(line, agency, now),
    ensures
        model_lines_ok(with_line(m, agency, live, line), now),
{
    let m2 = with_line(m, agency, live, line);
    let dirs = if m.contains_key(agency) {
        m[agency].1
    } else {
        Map::empty()
    };
    let lines = if dirs.contains_key(line.0.2) {
        dirs[line.0.2]
    } else {
        Seq::empty()
    };
    assert forall|a: Seq<char>, d: Seq<char>, x: int|
        m2.contains_key(a) && m2[a].1.contains_key(d) && 0 <= x < m2[a].1[d].len() implies line_entry_ok(
        #[trigger] m2[a].1[d][x],
        a,
        now,
    ) && m2[a].1[d][x].0.2 == d by {
        if a == agency {
            if d == line.0.2 {
                if x < lines.len() {
                    assert(m2[a].1[d][x] == lines[x]);
                    assert(m[a].1[d][x] == lines[x]);
                } else {
                    assert(m2[a].1[d][x] == line);
                }
            } else {
                assert(m2[a].1[d] == dirs[d]);
                assert(m[a].1[d][x] == m2[a].1[d][x]);
            }
        } else {
            assert(m2[a] == m[a]);
            assert(m[a].1[d][x] == m2[a].1[d][x]);
        }
    }
}

proof fn lemma_with_lines_ok(
    m: Map<Seq<char>, AgencyView>,
    agency: Seq<char>,
    live: Timestamp,
    lines: LinesView,
    now: Timestamp,
)
    requires
        model_lines_ok(m, now),
        forall|i: int| 0 <= i < lines.len() ==> line_entry_ok(#[trigger] lines[i], agency, now),
    ensures
        model_lines_ok(with_lines(m, agency, live, lines), now),
    decreases lines.len(),
{
    if lines.len() > 0 {
        assert forall|i: int| 0 <= i < lines.drop_last().len() implies line_entry_ok(
            #[trigger] lines.drop_last()[i],
            agency,
            now,
        ) by {
            assert(lines.drop_last()[i] == lines[i]);
        }
        lemma_with_lines_ok(m, agency, live, lines.drop_last(), now);
        assert(lines.last() == lines[lines.len() - 1]);
        lemma_with_line_ok(with_lines(m, agency, live, lines.drop_last()), agency, live, lines.last(), now);
    }
}

proof fn lemma_merged_ok(rs: Seq<(Seq<char>, Timestamp, LinesView)>, now: Timestamp)
    requires
        forall|i: int, x: int| 0 <= i < rs.len() && 0 <= x < rs[i].2.len() ==> line_entry_ok(#[trigger] rs[i].2[x], rs[i].0, now),
    ensures
        model_lines_ok(merged(rs), now),
    decreases rs.len(),
{
    if rs.len() == 0 {
        assert(merged(rs) =~= Map::<Seq<char>, AgencyView>::empty());
    } else {
        assert forall|i: int, x: int| 0 <= i < rs.drop_last().len() && 0 <= x < rs.drop_last()[i].2.len() implies line_entry_ok(
            #[trigger] rs.drop_last()[i].2[x],
            rs.drop_last()[i].0,
            now,
        ) by {
            assert(rs.drop_last()[i] == rs[i]);
        }
        lemma_merged_ok(rs.drop_last(), now);
        let last = rs.last();
        assert(last == rs[rs.len() - 1]);
        assert forall|x: int| 0 <= x < last.2.len() implies line_entry_ok(#[trigger] last.2[x], last.0, now) by {
            assert(line_entry_ok(rs[rs.len() - 1].2[x], rs[rs.len() - 1].0, now));
        }
        lemma_with_lines_ok(merged(rs.drop_last()), last.0, last.1, last.2, now);
    }
}

/// In the model that the snapshots give at `now`, every line's times are ascending, one to
/// `MAX_TIMES` of them, none before `now`; each line names the agency and the direction it
/// is filed under.
pub proof fn lemma_model_lines_ok(
    snapshots: Seq<Result<Cached, CacheError>>,
    stops: Seq<StopConfig>,
    subs: Seq<(Seq<char>, Seq<char>)>,
    now: Timestamp,
    m: Map<Seq<char>, AgencyView>,
)
    requires
        model_at(snapshots, stops, subs, now, m),
    ensures
        model_lines_ok(m, now),
{
    let rs = choose|rs: Seq<(Seq<char>, Timestamp, LinesView)>|
        #![trigger merged(rs)]
        rs.len() == stops.len() && m == merged(rs) && forall|i: int|
            0 <= i < rs.len() ==> (#[trigger] rs[i]).0 == stops[i].agency@ && rs[i].1 == snapshots[i]->Ok_0.live_time
                && grouped(
                arrivals(snapshots[i]->Ok_0.journeys@, now, stops[i].agency@, pairs_view(stops[i].line_prefix_subs@), subs),
                rs[i].2,
            );
    assert forall|i: int, x: int| 0 <= i < rs.len() && 0 <= x < rs[i].2.len() implies line_entry_ok(#[trigger] rs[i].2[x], rs[i].0, now) by {
        lemma_group_line_ok(
            snapshots[i]->Ok_0.journeys@,
            now,
            stops[i].agency@,
            pairs_view(stops[i].line_prefix_subs@),
            subs,
            rs[i].2,
            x,
        );
    }
    lemma_merged_ok(rs, now);
}

} // verus!
