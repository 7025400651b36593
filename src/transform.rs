use vstd::prelude::*;
use crate::cache::Cached;
use crate::config::StopConfig;
use crate::feed::MonitoredVehicleJourney;
use crate::text::{
    compare_text, lemma_text_cmp_antisym, lemma_text_cmp_eq, lemma_text_cmp_range,
    lemma_text_cmp_trans, starts_with, text_cmp,
};
use crate::time::{delta_nanos, div_toward_zero, now, parse_utc, parsed_utc, Timestamp, NANOS_PER_MINUTE};

verus! {

broadcast use vstd::seq_lib::group_to_multiset_ensures;

/// Most arrival times kept for one line.
pub const MAX_TIMES: usize = 4;

/// A rider-facing line: label, agency, direction and destination, after substitution.
#[derive(Debug, PartialEq, Eq, Hash, PartialOrd, Ord)]
pub struct Line {
    pub line: String,
    pub agency: String,
    pub direction: String,
    pub destination: String,
}

/// A line as four texts: (line, agency, direction, destination).
pub type LineView = (Seq<char>, Seq<char>, Seq<char>, Seq<char>);

impl View for Line {
    type V = LineView;

    open spec fn view(&self) -> LineView {
        (self.line@, self.agency@, self.direction@, self.destination@)
    }
}

impl Clone for Line {
    fn clone(&self) -> (r: Self)
        ensures
            r == *self,
    {
        Line {
            line: self.line.clone(),
            agency: self.agency.clone(),
            direction: self.direction.clone(),
            destination: self.destination.clone(),
        }
    }
}

/// The order of lines: by label, then agency, then direction, then destination,
/// each compared as text. -1, 0 or 1.
pub open spec fn line_cmp(a: LineView, b: LineView) -> int {
    if text_cmp(a.0, b.0) != 0 {
        text_cmp(a.0, b.0)
    } else if text_cmp(a.1, b.1) != 0 {
        text_cmp(a.1, b.1)
    } else if text_cmp(a.2, b.2) != 0 {
        text_cmp(a.2, b.2)
    } else {
        text_cmp(a.3, b.3)
    }
}

pub proof fn lemma_line_cmp_antisym(a: LineView, b: LineView)
    ensures
        line_cmp(a, b) == -line_cmp(b, a),
        (line_cmp(a, b) == 0) <==> (a == b),
        -1 <= line_cmp(a, b) <= 1,
{
    lemma_text_cmp_antisym(a.0, b.0);
    lemma_text_cmp_antisym(a.1, b.1);
    lemma_text_cmp_antisym(a.2, b.2);
    lemma_text_cmp_antisym(a.3, b.3);
    lemma_text_cmp_eq(a.0, b.0);
    lemma_text_cmp_eq(a.1, b.1);
    lemma_text_cmp_eq(a.2, b.2);
    lemma_text_cmp_eq(a.3, b.3);
    lemma_text_cmp_range(a.0, b.0);
    lemma_text_cmp_range(a.1, b.1);
    lemma_text_cmp_range(a.2, b.2);
    lemma_text_cmp_range(a.3, b.3);
}

pub proof fn lemma_line_cmp_trans(a: LineView, b: LineView, c: LineView)
    requires
        line_cmp(a, b) < 0,
        line_cmp(b, c) < 0,
    ensures
        line_cmp(a, c) < 0,
{
    lemma_text_cmp_eq(a.0, b.0);
    lemma_text_cmp_eq(a.1, b.1);
    lemma_text_cmp_eq(a.2, b.2);
    lemma_text_cmp_eq(b.0, c.0);
    lemma_text_cmp_eq(b.1, c.1);
    lemma_text_cmp_eq(b.2, c.2);
    lemma_text_cmp_eq(a.0, c.0);
    lemma_text_cmp_eq(a.1, c.1);
    lemma_text_cmp_eq(a.2, c.2);
    if text_cmp(a.0, b.0) < 0 && text_cmp(b.0, c.0) < 0 {
        lemma_text_cmp_trans(a.0, b.0, c.0);
    } else if text_cmp(a.1, b.1) < 0 && text_cmp(b.1, c.1) < 0 {
        lemma_text_cmp_trans(a.1, b.1, c.1);
    } else if text_cmp(a.2, b.2) < 0 && text_cmp(b.2, c.2) < 0 {
        lemma_text_cmp_trans(a.2, b.2, c.2);
    } else if text_cmp(a.3, b.3) < 0 && text_cmp(b.3, c.3) < 0 {
        lemma_text_cmp_trans(a.3, b.3, c.3);
    }
}

/// Compares two lines as `line_cmp` does.
pub fn compare_lines(a: &Line, b: &Line) -> (r: i8)
    ensures
        r as int == line_cmp(a@, b@),
{
    let c = compare_text(a.line.as_str(), b.line.as_str());
    if c != 0 {
        return c;
    }
    let c = compare_text(a.agency.as_str(), b.agency.as_str());
    if c != 0 {
        return c;
    }
    let c = compare_text(a.direction.as_str(), b.direction.as_str());
    if c != 0 {
        return c;
    }
    compare_text(a.destination.as_str(), b.destination.as_str())
}


/// The text pairs of a substitution table.
pub open spec fn pairs_view(v: Seq<(String, String)>) -> Seq<(Seq<char>, Seq<char>)> {
    v.map_values(|p: (String, String)| (p.0@, p.1@))
}

/// A destination name after the table: the replacement of the first entry whose
/// key equals the name exactly, or the name itself.
pub open spec fn substitute_destination(subs: Seq<(Seq<char>, Seq<char>)>, d: Seq<char>) -> Seq<char>
    decreases subs.len(),
{
    if subs.len() == 0 {
        d
    } else if subs[0].0 == d {
        subs[0].1
    } else {
        substitute_destination(subs.drop_first(), d)
    }
}

/// A line label after the rules: the replacement of the first rule whose prefix
/// starts the label, or the label itself. Order decides, not length.
pub open spec fn substitute_line(rules: Seq<(Seq<char>, Seq<char>)>, l: Seq<char>) -> Seq<char>
    decreases rules.len(),
{
    if rules.len() == 0 {
        l
    } else if rules[0].0.is_prefix_of(l) {
        rules[0].1
    } else {
        substitute_line(rules.drop_first(), l)
    }
}

/// Resolves a destination name through the substitution table.
pub fn resolve_destination(subs: &Vec<(String, String)>, destination: &String) -> (r: String)
    ensures
        r@ == substitute_destination(pairs_view(subs@), destination@),
{
    let ghost table = pairs_view(subs@);
    let mut i: usize = 0;
    assert(table.skip(0) =~= table);
    while i < subs.len()
        invariant
            i <= subs@.len(),
            table == pairs_view(subs@),
            substitute_destination(table, destination@) == substitute_destination(
                table.skip(i as int),
                destination@,
            ),
        decreases subs.len() - i,
    {
        assert(table.skip(i as int).drop_first() =~= table.skip(i + 1));
        if subs[i].0 == *destination {
            return subs[i].1.clone();
        }
        i = i + 1;
    }
    destination.clone()
}

/// Resolves a line label through the ordered prefix rules.
pub fn resolve_line(rules: &Vec<(String, String)>, line: &String) -> (r: String)
    ensures
        r@ == substitute_line(pairs_view(rules@), line@),
{
    let ghost table = pairs_view(rules@);
    let mut i: usize = 0;
    assert(table.skip(0) =~= table);
    while i < rules.len()
        invariant
            i <= rules@.len(),
            table == pairs_view(rules@),
            substitute_line(table, line@) == substitute_line(table.skip(i as int), line@),
        decreases rules.len() - i,
    {
        assert(table.skip(i as int).drop_first() =~= table.skip(i + 1));
        if starts_with(line.as_str(), rules[i].0.as_str()) {
            return rules[i].1.clone();
        }
        i = i + 1;
    }
    line.clone()
}


/// One expected arrival of a line.
#[derive(Clone, Copy, Debug, PartialEq, Eq, Structural, PartialOrd, Ord, Hash)]
pub struct Upcoming {
    pub time: Timestamp,
}

impl Upcoming {
    /// Whole minutes from this moment until the arrival, rounded toward zero.
    pub fn minutes(&self) -> (r: i64)
        ensures
            exists|now: Timestamp| r as int == div_toward_zero(#[trigger] delta_nanos(self.time, now), NANOS_PER_MINUTE as int),
    {
        let t = now();
        self.time.minutes_since(t)
    }
}

/// The instants of a sequence of arrivals.
pub open spec fn upcoming_times(v: Seq<Upcoming>) -> Seq<Timestamp> {
    v.map_values(|u: Upcoming| u.time)
}

/// Sorted ascending: no instant is later than one that follows it.
pub open spec fn is_sorted(s: Seq<Timestamp>) -> bool {
    forall|i: int, j: int| 0 <= i < j < s.len() ==> (#[trigger] s[i]).spec_not_after(#[trigger] s[j])
}

/// `out` is the soonest of `all`, in order: the first `MAX_TIMES` (or all, if fewer)
/// of `all` sorted ascending.
pub open spec fn soonest(all: Seq<Timestamp>, out: Seq<Timestamp>) -> bool {
    exists|s: Seq<Timestamp>|
        #![trigger s.to_multiset()]
        is_sorted(s) && s.to_multiset() == all.to_multiset() && out == s.take(
            if s.len() < MAX_TIMES {
                s.len() as int
            } else {
                MAX_TIMES as int
            },
        )
}

/// The times, in order of arrival in `arr`, of the entries whose line is `k`.
pub open spec fn times_for(arr: Seq<(LineView, Timestamp)>, k: LineView) -> Seq<Timestamp>
    decreases arr.len(),
{
    if arr.len() == 0 {
        Seq::empty()
    } else if arr.last().0 == k {
        times_for(arr.drop_last(), k).push(arr.last().1)
    } else {
        times_for(arr.drop_last(), k)
    }
}

/// Lines strictly ascending in `line_cmp`; so each line appears once.
pub open spec fn keys_ascending<T>(g: Seq<(LineView, T)>) -> bool {
    forall|i: int, j: int| 0 <= i < j < g.len() ==> line_cmp(#[trigger] g[i].0, #[trigger] g[j].0) < 0
}

/// `g` groups the arrivals `arr` by line: one entry per line that has an arrival,
/// in ascending line order, each with the soonest of that line's times.
pub open spec fn grouped(arr: Seq<(LineView, Timestamp)>, g: Seq<(LineView, Seq<Timestamp>)>) -> bool {
    &&& keys_ascending(g)
    &&& forall|k: LineView| (exists|i: int| 0 <= i < g.len() && #[trigger] g[i].0 == k) <==> times_for(arr, k).len() > 0
    &&& forall|i: int| 0 <= i < g.len() ==> soonest(times_for(arr, g[i].0), #[trigger] g[i].1)
}

/// Working groups: each line with all of its times so far, kept sorted.
spec fn collects(arr: Seq<(LineView, Timestamp)>, w: Seq<(Line, Vec<Timestamp>)>) -> bool {
    &&& forall|i: int, j: int| 0 <= i < j < w.len() ==> line_cmp(#[trigger] w[i].0@, #[trigger] w[j].0@) < 0
    &&& forall|i: int| 0 <= i < w.len() ==> is_sorted(#[trigger] w[i].1@)
    &&& forall|i: int| 0 <= i < w.len() ==> (#[trigger] w[i].1@).to_multiset() == times_for(arr, w[i].0@).to_multiset()
    &&& forall|k: LineView| (exists|i: int| 0 <= i < w.len() && #[trigger] w[i].0@ == k) <==> times_for(arr, k).len() > 0
}

/// Inserts `t` after the instants not later than it.
fn insert_sorted(v: &mut Vec<Timestamp>, t: Timestamp)
    requires
        is_sorted(old(v)@),
    ensures
        is_sorted(final(v)@),
        final(v)@.to_multiset() == old(v)@.to_multiset().insert(t),
{
    let mut p: usize = 0;
    while p < v.len() && !t.before(&v[p])
        invariant
            p <= v@.len(),
            v@ == old(v)@,
            forall|j: int| 0 <= j < p ==> (#[trigger] v@[j]).spec_not_after(t),
        decreases v@.len() - p,
    {
        p = p + 1;
    }
    let ghost before = v@;
    v.insert(p, t);
    assert forall|i: int, j: int| 0 <= i < j < v@.len() implies (#[trigger] v@[i]).spec_not_after(
        #[trigger] v@[j],
    ) by {
        if i < p && j > p {
            assert(before[i].spec_not_after(t));
        } else if i == p && j > p {
            assert(t.spec_before(before[p as int]));
            assert(before[p as int].spec_not_after(before[j - 1]));
        }
    }
}

proof fn lemma_times_for_push(arr: Seq<(LineView, Timestamp)>, k: LineView, t: Timestamp, q: LineView)
    ensures
        times_for(arr.push((k, t)), q) == if q == k {
            times_for(arr, q).push(t)
        } else {
            times_for(arr, q)
        },
{
    assert(arr.push((k, t)).drop_last() =~= arr);
}

/// Adds the arrival of `key` at `t` to the working groups.
#[verifier::rlimit(40)]
fn add_arrival(w: &mut Vec<(Line, Vec<Timestamp>)>, key: Line, t: Timestamp, Ghost(arr): Ghost<Seq<(LineView, Timestamp)>>)
    requires
        collects(arr, old(w)@),
    ensures
        collects(arr.push((key@, t)), final(w)@),
{
    let ghost k = key@;
    let ghost arr2 = arr.push((k, t));
    assert forall|q: LineView| times_for(arr2, q) == if q == k {
        times_for(arr, q).push(t)
    } else {
        times_for(arr, q)
    } by {
        lemma_times_for_push(arr, k, t, q);
    }
    let mut p: usize = 0;
    let mut scanning = true;
    while scanning && p < w.len()
        invariant
            p <= w@.len(),
            w@ == old(w)@,
            k == key@,
            forall|j: int| 0 <= j < p ==> line_cmp((#[trigger] w@[j]).0@, k) < 0,
            !scanning ==> p < w@.len() && line_cmp(w@[p as int].0@, k) >= 0,
        decreases w@.len() - p, if scanning { 1int } else { 0int },
    {
        let c = compare_lines(&w[p].0, &key);
        if c < 0 {
            p = p + 1;
        } else {
            scanning = false;
        }
    }
    let found = p < w.len() && compare_lines(&w[p].0, &key) == 0;
    let ghost old_w = w@;
    if found {
        proof {
            lemma_line_cmp_antisym(old_w[p as int].0@, k);
        }
        let mut entry = w.remove(p);
        insert_sorted(&mut entry.1, t);
        w.insert(p, entry);
        assert(w@ =~= old_w.update(p as int, entry));
        assert forall|i: int| 0 <= i < w@.len() && i != p implies (#[trigger] w@[i]).0@ != k by {
            lemma_line_cmp_antisym(old_w[i].0@, k);
            if i < p {
                assert(line_cmp(old_w[i].0@, old_w[p as int].0@) < 0);
            } else {
                assert(line_cmp(old_w[p as int].0@, old_w[i].0@) < 0);
                lemma_line_cmp_antisym(old_w[p as int].0@, old_w[i].0@);
            }
        }
        assert forall|q: LineView| (exists|i: int| 0 <= i < w@.len() && #[trigger] w@[i].0@ == q) <==> times_for(arr2, q).len() > 0 by {
            if exists|i: int| 0 <= i < old_w.len() && #[trigger] old_w[i].0@ == q {
                let i = choose|i: int| 0 <= i < old_w.len() && #[trigger] old_w[i].0@ == q;
                assert(w@[i].0@ == q);
            }
            if exists|i: int| 0 <= i < w@.len() && #[trigger] w@[i].0@ == q {
                let i = choose|i: int| 0 <= i < w@.len() && #[trigger] w@[i].0@ == q;
                assert(old_w[i].0@ == q);
            }
            if q == k {
                assert(w@[p as int].0@ == q);
            }
        }
    } else {
        proof {
            if p < old_w.len() {
                lemma_line_cmp_antisym(old_w[p as int].0@, k);
            }
        }
        let ghost fresh: Seq<Timestamp> = seq![t];
        let mut times: Vec<Timestamp> = Vec::new();
        times.push(t);
        assert(times@ =~= fresh);
        assert(times_for(arr, k).len() == 0) by {
            if times_for(arr, k).len() > 0 {
                let i = choose|i: int| 0 <= i < old_w.len() && #[trigger] old_w[i].0@ == k;
                lemma_line_cmp_antisym(old_w[i].0@, k);
                if i >= p {
                    if i > p {
                        lemma_line_cmp_antisym(old_w[p as int].0@, old_w[i].0@);
                        assert(line_cmp(old_w[p as int].0@, old_w[i].0@) < 0);
                    }
                }
            }
        }
        assert(times_for(arr, k) =~= Seq::<Timestamp>::empty());
        assert(fresh =~= Seq::<Timestamp>::empty().push(t));
        let ghost entry = (key, times);
        w.insert(p, (key, times));
        assert(w@ == old_w.insert(p as int, entry));
        assert forall|j: int| p <= j < old_w.len() implies line_cmp(k, (#[trigger] old_w[j]).0@) < 0 by {
            lemma_line_cmp_antisym(old_w[p as int].0@, k);
            if j > p {
                lemma_line_cmp_trans(k, old_w[p as int].0@, old_w[j].0@);
            }
        }
        assert forall|i: int, j: int| 0 <= i < j < w@.len() implies line_cmp(#[trigger] w@[i].0@, #[trigger] w@[j].0@) < 0 by {
            if i < p && j == p {
            } else if i < p && j > p {
                lemma_line_cmp_trans(old_w[i].0@, k, old_w[j - 1].0@);
            } else if i == p || j < p {
            } else {
                assert(w@[i] == old_w[i - 1]);
                assert(w@[j] == old_w[j - 1]);
            }
        }
        assert forall|q: LineView| (exists|i: int| 0 <= i < w@.len() && #[trigger] w@[i].0@ == q) <==> times_for(arr2, q).len() > 0 by {
            if exists|i: int| 0 <= i < old_w.len() && #[trigger] old_w[i].0@ == q {
                let i = choose|i: int| 0 <= i < old_w.len() && #[trigger] old_w[i].0@ == q;
                if i < p {
                    assert(w@[i].0@ == q);
                } else {
                    assert(w@[i + 1].0@ == q);
                }
            }
            if exists|i: int| 0 <= i < w@.len() && #[trigger] w@[i].0@ == q {
                let i = choose|i: int| 0 <= i < w@.len() && #[trigger] w@[i].0@ == q;
                if i < p {
                    assert(old_w[i].0@ == q);
                } else if i > p {
                    assert(old_w[i - 1].0@ == q);
                }
            }
            if q == k {
                assert(w@[p as int].0@ == q);
            }
        }
        assert forall|i: int| 0 <= i < w@.len() implies (#[trigger] w@[i].1@).to_multiset() == times_for(arr2, w@[i].0@).to_multiset() by {
            if i < p {
                assert(w@[i] == old_w[i]);
            } else if i > p {
                assert(w@[i] == old_w[i - 1]);
            }
        }
    }
}


/// A journey with all four fields that scheduling needs.
pub struct CompleteJourney {
    pub expected_arrival_time: String,
    pub line: String,
    pub direction: String,
    pub destination: String,
}

/// Whether a journey has its arrival time, line, direction and destination.
pub open spec fn is_complete(j: MonitoredVehicleJourney) -> bool {
    &&& j.monitored_call.expected_arrival_time is Some
    &&& j.line_ref is Some
    &&& j.direction_ref is Some
    &&& j.destination_name is Some
}

/// The arrival time text of a journey.
pub open spec fn time_text(j: MonitoredVehicleJourney) -> Seq<char> {
    j.monitored_call.expected_arrival_time.unwrap()@
}

/// A complete journey whose arrival time is no timestamp.
pub open spec fn has_bad_time(j: MonitoredVehicleJourney) -> bool {
    is_complete(j) && parsed_utc(time_text(j)) is None
}

/// The `i`th journey is the first whose arrival time is no timestamp.
pub open spec fn first_bad_time(js: Seq<MonitoredVehicleJourney>, i: int) -> bool {
    &&& has_bad_time(js[i])
    &&& forall|j: int| 0 <= j < i ==> !has_bad_time(#[trigger] js[j])
}

/// When a journey arrives, if it is complete and its time is not before `now`.
pub open spec fn arrival_time(j: MonitoredVehicleJourney, now: Timestamp) -> Option<Timestamp> {
    if is_complete(j) {
        match parsed_utc(time_text(j)) {
            Some(t) => if t.spec_before(now) {
                None
            } else {
                Some(t)
            },
            None => None,
        }
    } else {
        None
    }
}

/// The line of a complete journey of `agency`, after the line rules and the
/// destination table.
pub open spec fn line_of(
    j: MonitoredVehicleJourney,
    agency: Seq<char>,
    rules: Seq<(Seq<char>, Seq<char>)>,
    subs: Seq<(Seq<char>, Seq<char>)>,
) -> LineView {
    (
        substitute_line(rules, j.line_ref.unwrap()@),
        agency,
        j.direction_ref.unwrap()@,
        substitute_destination(subs, j.destination_name.unwrap()@),
    )
}

/// The arrivals that survive the filters, in journey order, each with its line.
pub open spec fn arrivals(
    js: Seq<MonitoredVehicleJourney>,
    now: Timestamp,
    agency: Seq<char>,
    rules: Seq<(Seq<char>, Seq<char>)>,
    subs: Seq<(Seq<char>, Seq<char>)>,
) -> Seq<(LineView, Timestamp)>
    decreases js.len(),
{
    if js.len() == 0 {
        Seq::empty()
    } else {
        let rest = arrivals(js.drop_last(), now, agency, rules, subs);
        match arrival_time(js.last(), now) {
            Some(t) => rest.push((line_of(js.last(), agency, rules, subs), t)),
            None => rest,
        }
    }
}

/// Takes the four scheduling fields out of a journey, if it has them all.
pub fn complete_journey(j: &MonitoredVehicleJourney) -> (r: Option<CompleteJourney>)
    ensures
        r is Some <==> is_complete(*j),
        r matches Some(c) ==> {
            &&& Some(c.expected_arrival_time) == j.monitored_call.expected_arrival_time
            &&& Some(c.line) == j.line_ref
            &&& Some(c.direction) == j.direction_ref
            &&& Some(c.destination) == j.destination_name
        },
{
    match &j.monitored_call.expected_arrival_time {
        None => None,
        Some(t) => match &j.line_ref {
            None => None,
            Some(l) => match &j.direction_ref {
                None => None,
                Some(d) => match &j.destination_name {
                    None => None,
                    Some(n) => Some(
                        CompleteJourney {
                            expected_arrival_time: t.clone(),
                            line: l.clone(),
                            direction: d.clone(),
                            destination: n.clone(),
                        },
                    ),
                },
            },
        },
    }
}


/// Arrivals as lines and instants.
pub open spec fn arrivals_view(v: Seq<(Line, Timestamp)>) -> Seq<(LineView, Timestamp)> {
    v.map_values(|p: (Line, Timestamp)| (p.0@, p.1))
}

/// Groups arrivals by line: lines ascending, each with its `MAX_TIMES` soonest times
/// in ascending order. Times are sorted in full before any is dropped.
pub fn group_arrivals(found: &Vec<(Line, Timestamp)>) -> (r: Vec<(Line, Vec<Upcoming>)>)
    ensures
        grouped(arrivals_view(found@), groups_view(r@)),
{
    let ghost all = arrivals_view(found@);
    let mut work: Vec<(Line, Vec<Timestamp>)> = Vec::new();
    let mut i: usize = 0;
    assert(all.take(0) =~= Seq::<(LineView, Timestamp)>::empty());
    while i < found.len()
        invariant
            i <= found@.len(),
            all == arrivals_view(found@),
            collects(all.take(i as int), work@),
        decreases found@.len() - i,
    {
        assert(all.take(i + 1) =~= all.take(i as int).push(all[i as int]));
        add_arrival(&mut work, found[i].0.clone(), found[i].1, Ghost(all.take(i as int)));
        i = i + 1;
    }
    assert(all.take(all.len() as int) =~= all);
    let ghost arr = all;
    let mut upcoming: Vec<(Line, Vec<Upcoming>)> = Vec::new();
    let mut g: usize = 0;
    while g < work.len()
        invariant
            g <= work@.len(),
            upcoming@.len() == g,
            forall|x: int| 0 <= x < g ==> (#[trigger] upcoming@[x]).0@ == work@[x].0@,
            forall|x: int| 0 <= x < g ==> upcoming_times((#[trigger] upcoming@[x]).1@) == work@[x].1@.take(
                if work@[x].1@.len() < MAX_TIMES {
                    work@[x].1@.len() as int
                } else {
                    MAX_TIMES as int
                },
            ),
        decreases work@.len() - g,
    {
        let times = &work[g].1;
        let n: usize = if times.len() < MAX_TIMES {
            times.len()
        } else {
            MAX_TIMES
        };
        let mut out: Vec<Upcoming> = Vec::new();
        let mut x: usize = 0;
        while x < n
            invariant
                x <= n,
                n <= times@.len(),
                upcoming_times(out@) =~= times@.take(x as int),
            decreases n - x,
        {
            let ghost before = out@;
            out.push(Upcoming { time: times[x] });
            assert(upcoming_times(out@) =~= upcoming_times(before).push(times@[x as int]));
            assert(times@.take(x + 1) =~= times@.take(x as int).push(times@[x as int]));
            x = x + 1;
        }
        upcoming.push((work[g].0.clone(), out));
        g = g + 1;
    }
    let ghost gv = groups_view(upcoming@);
    assert forall|x: int| 0 <= x < gv.len() implies soonest(times_for(arr, gv[x].0), #[trigger] gv[x].1) by {
        let s = work@[x].1@;
        assert(is_sorted(s) && s.to_multiset() == times_for(arr, gv[x].0).to_multiset());
    }
    assert forall|k: LineView| (exists|x: int| 0 <= x < gv.len() && #[trigger] gv[x].0 == k) <==> times_for(arr, k).len() > 0 by {
        if exists|x: int| 0 <= x < gv.len() && #[trigger] gv[x].0 == k {
            let x = choose|x: int| 0 <= x < gv.len() && #[trigger] gv[x].0 == k;
            assert(work@[x].0@ == k);
        }
        if exists|x: int| 0 <= x < work@.len() && #[trigger] work@[x].0@ == k {
            let x = choose|x: int| 0 <= x < work@.len() && #[trigger] work@[x].0@ == k;
            assert(gv[x].0 == k);
        }
    }
    assert(keys_ascending(gv));
    upcoming
}

/// A present arrival time that is no timestamp.
#[derive(Debug, PartialEq, Eq)]
pub struct TimeParseError {
    pub value: String,
}

/// The arrivals of one agency, grouped by line.
pub struct UpcomingResponse {
    pub agency: String,
    /// Each line with its soonest times, lines ascending.
    pub upcoming: Vec<(Line, Vec<Upcoming>)>,
    pub live_time: Timestamp,
}

/// Lines with their times, as texts and instants.
pub open spec fn groups_view(u: Seq<(Line, Vec<Upcoming>)>) -> Seq<(LineView, Seq<Timestamp>)> {
    u.map_values(|e: (Line, Vec<Upcoming>)| (e.0@, upcoming_times(e.1@)))
}

/// Turns a snapshot into grouped arrivals, with the destination table it holds.
pub struct Client {
    pub api_key: String,
    pub destination_subs: Vec<(String, String)>,
}

impl Client {
    pub fn new(api_key: String, destination_subs: Vec<(String, String)>) -> (r: Self)
        ensures
            r.api_key == api_key,
            r.destination_subs == destination_subs,
    {
        Client { api_key, destination_subs }
    }

    /// The arrivals of `cached` in the model, as `transform_at` builds them at this moment.
    pub fn transform_results(&self, stop_config: &StopConfig, cached: Cached) -> (r: Result<UpcomingResponse, TimeParseError>)
        ensures
            r is Err <==> exists|i: int| 0 <= i < cached.journeys@.len() && has_bad_time(#[trigger] cached.journeys@[i]),
            r matches Ok(resp) ==> resp.agency@ == stop_config.agency@ && resp.live_time == cached.live_time
                && exists|at: Timestamp| grouped(
                    arrivals(
                        cached.journeys@,
                        at,
                        stop_config.agency@,
                        pairs_view(stop_config.line_prefix_subs@),
                        pairs_view(self.destination_subs@),
                    ),
                    groups_view(resp.upcoming@),
                ),
    {
        let t = now();
        self.transform_at(stop_config, cached, t)
    }

    /// Groups the snapshot's journeys by line, at time `now`.
    ///
    /// A journey without arrival time, line, direction or destination is skipped. A present
    /// arrival time that is no timestamp fails the whole batch, with the first such text.
    /// An arrival before `now` is dropped. Each line keeps its `MAX_TIMES` soonest times,
    /// ascending, and lines come in ascending order.
    pub fn transform_at(&self, stop_config: &StopConfig, cached: Cached, now: Timestamp) -> (r: Result<UpcomingResponse, TimeParseError>)
        ensures
            r is Err <==> exists|i: int| 0 <= i < cached.journeys@.len() && has_bad_time(#[trigger] cached.journeys@[i]),
            r matches Err(e) ==> exists|i: int|
                0 <= i < cached.journeys@.len() && #[trigger] first_bad_time(cached.journeys@, i)
                && e.value@ == time_text(cached.journeys@[i]),
            r matches Ok(resp) ==> {
                &&& resp.agency@ == stop_config.agency@
                &&& resp.live_time == cached.live_time
                &&& grouped(
                    arrivals(
                        cached.journeys@,
                        now,
                        stop_config.agency@,
                        pairs_view(stop_config.line_prefix_subs@),
                        pairs_view(self.destination_subs@),
                    ),
                    groups_view(resp.upcoming@),
                )
            },
    {
        let ghost agency = stop_config.agency@;
        let ghost rules = pairs_view(stop_config.line_prefix_subs@);
        let ghost subs = pairs_view(self.destination_subs@);
        let js = &cached.journeys;
        let mut found: Vec<(Line, Timestamp)> = Vec::new();
        let mut i: usize = 0;
        assert(js@.take(0) =~= Seq::<MonitoredVehicleJourney>::empty());
        assert(arrivals_view(found@) =~= Seq::<(LineView, Timestamp)>::empty());
        while i < js.len()
            invariant
                i <= js@.len(),
                js@ == cached.journeys@,
                agency == stop_config.agency@,
                rules == pairs_view(stop_config.line_prefix_subs@),
                subs == pairs_view(self.destination_subs@),
                arrivals_view(found@) == arrivals(js@.take(i as int), now, agency, rules, subs),
                forall|j: int| 0 <= j < i ==> !has_bad_time(#[trigger] js@[j]),
            decreases js@.len() - i,
        {
            assert(js@.take(i + 1).drop_last() =~= js@.take(i as int));
            assert(js@.take(i + 1).last() == js@[i as int]);
            match complete_journey(&js[i]) {
                None => {},
                Some(c) => {
                    match parse_utc(c.expected_arrival_time.as_str()) {
                        None => {
                            assert(first_bad_time(cached.journeys@, i as int));
                            return Err(TimeParseError { value: c.expected_arrival_time });
                        },
                        Some(t) => {
                            if !t.before(&now) {
                                let key = Line {
                                    line: resolve_line(&stop_config.line_prefix_subs, &c.line),
                                    agency: stop_config.agency.clone(),
                                    direction: c.direction,
                                    destination: resolve_destination(&self.destination_subs, &c.destination),
                                };
                                assert(key@ == line_of(js@[i as int], agency, rules, subs));
                                let ghost before = found@;
                                found.push((key, t));
                                assert(arrivals_view(found@) =~= arrivals_view(before).push((key@, t)));
                            }
                        },
                    }
                },
            }
            i = i + 1;
        }
        assert(js@.take(js@.len() as int) =~= js@);
        let upcoming = group_arrivals(&found);
        Ok(UpcomingResponse { agency: stop_config.agency.clone(), upcoming, live_time: cached.live_time })
    }
}

} // verus!
