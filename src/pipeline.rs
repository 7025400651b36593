use vstd::prelude::*;
use crate::cache::{CacheError, Cached};
use crate::config::{ConfigFile, StopConfig};
use crate::transform::{
    arrivals, first_bad_time, grouped, groups_view, has_bad_time, time_text, pairs_view, upcoming_times, Client, Line, LineView,
    TimeParseError, Upcoming, UpcomingResponse,
};
use crate::time::{now, Timestamp};

verus! {

/// Lines of one direction with their times.
pub type LinesView = Seq<(LineView, Seq<Timestamp>)>;

/// One agency in the model: when its data was fetched, and its lines by direction.
pub type AgencyView = (Timestamp, Map<Seq<char>, LinesView>);

/// The lines of one direction of one agency.
pub struct AgencyDirectionLines {
    pub lines: Vec<(Line, Vec<Upcoming>)>,
}

/// One agency's arrivals, by direction.
pub struct AgencyDirections {
    pub live_time: Timestamp,
    pub directions: Vec<(String, AgencyDirectionLines)>,
}

/// The arrivals of every agency that has any, by agency.
pub struct StopData {
    pub agencies: Vec<(String, AgencyDirections)>,
}

/// The map that a list of keyed entries stands for, a later entry over an earlier one.
pub open spec fn keyed<V>(v: Seq<(Seq<char>, V)>) -> Map<Seq<char>, V>
    decreases v.len(),
{
    if v.len() == 0 {
        Map::empty()
    } else {
        keyed(v.drop_last()).insert(v.last().0, v.last().1)
    }
}

/// No key appears twice.
pub open spec fn unique_keys<V>(v: Seq<(Seq<char>, V)>) -> bool {
    forall|i: int, j: int| 0 <= i < j < v.len() ==> (#[trigger] v[i]).0 != (#[trigger] v[j]).0
}

impl AgencyDirections {
    pub open spec fn entries(&self) -> Seq<(Seq<char>, LinesView)> {
        self.directions@.map_values(|e: (String, AgencyDirectionLines)| (e.0@, groups_view(e.1.lines@)))
    }

    pub open spec fn wf(&self) -> bool {
        unique_keys(self.entries())
    }
}

impl View for AgencyDirections {
    type V = AgencyView;

    open spec fn view(&self) -> AgencyView {
        (self.live_time, keyed(self.entries()))
    }
}

impl StopData {
    pub open spec fn entries(&self) -> Seq<(Seq<char>, AgencyView)> {
        self.agencies@.map_values(|e: (String, AgencyDirections)| (e.0@, e.1@))
    }

    /// Each agency once, each direction once within it.
    pub open spec fn wf(&self) -> bool {
        &&& unique_keys(self.entries())
        &&& forall|i: int| 0 <= i < self.agencies@.len() ==> (#[trigger] self.agencies@[i]).1.wf()
    }
}

impl View for StopData {
    type V = Map<Seq<char>, AgencyView>;

    open spec fn view(&self) -> Map<Seq<char>, AgencyView> {
        keyed(self.entries())
    }
}

pub proof fn lemma_keyed_dom<V>(v: Seq<(Seq<char>, V)>, k: Seq<char>)
    ensures
        keyed(v).contains_key(k) <==> exists|j: int| 0 <= j < v.len() && (#[trigger] v[j]).0 == k,
    decreases v.len(),
{
    if v.len() > 0 {
        lemma_keyed_dom(v.drop_last(), k);
        if exists|j: int| 0 <= j < v.drop_last().len() && (#[trigger] v.drop_last()[j]).0 == k {
            let j = choose|j: int| 0 <= j < v.drop_last().len() && (#[trigger] v.drop_last()[j]).0 == k;
            assert(v[j] == v.drop_last()[j]);
        }
        if exists|j: int| 0 <= j < v.len() && (#[trigger] v[j]).0 == k {
            let j = choose|j: int| 0 <= j < v.len() && (#[trigger] v[j]).0 == k;
            if j < v.len() - 1 {
                assert(v[j] == v.drop_last()[j]);
            }
        }
    }
}

pub proof fn lemma_keyed_value<V>(v: Seq<(Seq<char>, V)>, j: int)
    requires
        unique_keys(v),
        0 <= j < v.len(),
    ensures
        keyed(v).contains_key(v[j].0),
        keyed(v)[v[j].0] == v[j].1,
    decreases v.len(),
{
    if j < v.len() - 1 {
        assert(v.drop_last()[j] == v[j]);
        assert(unique_keys(v.drop_last())) by {
            assert forall|a: int, b: int| 0 <= a < b < v.drop_last().len() implies (#[trigger] v.drop_last()[a]).0
                != (#[trigger] v.drop_last()[b]).0 by {
                assert(v.drop_last()[a] == v[a] && v.drop_last()[b] == v[b]);
            }
        }
        lemma_keyed_value(v.drop_last(), j);
        assert(v[v.len() - 1] == v.last());
    }
}

pub proof fn lemma_keyed_remove<V>(v: Seq<(Seq<char>, V)>, i: int)
    requires
        unique_keys(v),
        0 <= i < v.len(),
    ensures
        keyed(v.remove(i)) == keyed(v).remove(v[i].0),
        unique_keys(v.remove(i)),
        forall|j: int| 0 <= j < v.remove(i).len() ==> (#[trigger] v.remove(i)[j]).0 != v[i].0,
    decreases v.len(),
{
    let k = v[i].0;
    assert forall|a: int, b: int| 0 <= a < b < v.remove(i).len() implies (#[trigger] v.remove(i)[a]).0
        != (#[trigger] v.remove(i)[b]).0 by {
        if a < i && b >= i {
            assert(v.remove(i)[b] == v[b + 1]);
        } else if a >= i {
            assert(v.remove(i)[a] == v[a + 1] && v.remove(i)[b] == v[b + 1]);
        }
    }
    assert forall|j: int| 0 <= j < v.remove(i).len() implies (#[trigger] v.remove(i)[j]).0 != k by {
        if j < i {
            assert(v.remove(i)[j] == v[j]);
        } else {
            assert(v.remove(i)[j] == v[j + 1]);
        }
    }
    let d = v.drop_last();
    assert forall|a: int, b: int| 0 <= a < b < d.len() implies (#[trigger] d[a]).0 != (#[trigger] d[b]).0 by {
        assert(d[a] == v[a] && d[b] == v[b]);
    }
    if i == v.len() - 1 {
        assert(v.remove(i) =~= d);
        lemma_keyed_dom(d, k);
        assert forall|j: int| 0 <= j < d.len() implies (#[trigger] d[j]).0 != k by {
            assert(d[j] == v[j]);
        }
        assert(keyed(v) == keyed(d).insert(k, v.last().1));
        assert(keyed(d).insert(k, v.last().1).remove(k) =~= keyed(d));
    } else {
        assert(v.remove(i).drop_last() =~= d.remove(i));
        assert(v.remove(i).last() == v.last());
        assert(d[i] == v[i]);
        lemma_keyed_remove(d, i);
        assert(v.last() == v[v.len() - 1]);
        assert(v.last().0 != k);
        assert(keyed(d).remove(k).insert(v.last().0, v.last().1) =~= keyed(d).insert(v.last().0, v.last().1).remove(k));
    }
}

/// Finds the entry of key `k`.
pub fn find_key<V>(v: &Vec<(String, V)>, k: &String) -> (r: Option<usize>)
    ensures
        r matches Some(i) ==> i < v@.len() && v@[i as int].0@ == k@,
        r is None ==> forall|j: int| 0 <= j < v@.len() ==> (#[trigger] v@[j]).0@ != k@,
{
    let mut i: usize = 0;
    while i < v.len()
        invariant
            i <= v@.len(),
            forall|j: int| 0 <= j < i ==> (#[trigger] v@[j]).0@ != k@,
        decreases v@.len() - i,
    {
        if v[i].0 == *k {
            return Some(i);
        }
        i = i + 1;
    }
    None
}


/// An agency's name, fetch time and grouped lines.
pub open spec fn response_view(r: UpcomingResponse) -> (Seq<char>, Timestamp, LinesView) {
    (r.agency@, r.live_time, groups_view(r.upcoming@))
}

/// The model after one line of `agency` is added: the agency takes `live` as its
/// fetch time, and the line goes last in the list of its direction.
pub open spec fn with_line(
    m: Map<Seq<char>, AgencyView>,
    agency: Seq<char>,
    live: Timestamp,
    line: (LineView, Seq<Timestamp>),
) -> Map<Seq<char>, AgencyView> {
    let dirs = if m.contains_key(agency) {
        m[agency].1
    } else {
        Map::empty()
    };
    let lines = if dirs.contains_key(line.0.2) {
        dirs[line.0.2]
    } else {
        Seq::empty()
    };
    m.insert(agency, (live, dirs.insert(line.0.2, lines.push(line))))
}

/// The model after the lines of one agency's response are added in order.
pub open spec fn with_lines(m: Map<Seq<char>, AgencyView>, agency: Seq<char>, live: Timestamp, lines: LinesView) -> Map<
    Seq<char>,
    AgencyView,
>
    decreases lines.len(),
{
    if lines.len() == 0 {
        m
    } else {
        with_line(with_lines(m, agency, live, lines.drop_last()), agency, live, lines.last())
    }
}

/// The model of a list of responses, merged in order. An agency without lines does
/// not appear; an agency that answers twice has the fetch time of its later answer
/// that has lines.
pub open spec fn merged(rs: Seq<(Seq<char>, Timestamp, LinesView)>) -> Map<Seq<char>, AgencyView>
    decreases rs.len(),
{
    if rs.len() == 0 {
        Map::empty()
    } else {
        with_lines(merged(rs.drop_last()), rs.last().0, rs.last().1, rs.last().2)
    }
}

/// A copy of a list of arrivals.
pub fn copy_upcoming(v: &Vec<Upcoming>) -> (r: Vec<Upcoming>)
    ensures
        r@ == v@,
{
    let mut out: Vec<Upcoming> = Vec::new();
    let mut i: usize = 0;
    while i < v.len()
        invariant
            i <= v@.len(),
            out@ =~= v@.take(i as int),
        decreases v@.len() - i,
    {
        out.push(v[i]);
        i = i + 1;
    }
    out
}

/// Adds one line of `agency` to the data.
fn add_line(data: &mut StopData, agency: &String, live: Timestamp, line: Line, times: Vec<Upcoming>)
    requires
        old(data).wf(),
    ensures
        final(data).wf(),
        final(data)@ == with_line(old(data)@, agency@, live, (line@, upcoming_times(times@))),
{
    let ghost e0 = data.entries();
    let ghost k = agency@;
    let ghost entry_line = (line@, upcoming_times(times@));
    let found = find_key(&data.agencies, agency);
    let mut entry: (String, AgencyDirections) = match found {
        Some(i) => {
            proof {
                lemma_keyed_value(e0, i as int);
                lemma_keyed_remove(e0, i as int);
            }
            let ghost old_agencies = data.agencies@;
            let e = data.agencies.remove(i);
            assert(data.entries() =~= e0.remove(i as int));
            assert(e == old_agencies[i as int]);
            assert(keyed(data.entries()) == keyed(e0).remove(k));
            assert(e.1.wf());
            assert forall|j: int| 0 <= j < data.agencies@.len() implies (#[trigger] data.agencies@[j]).1.wf() by {
                if j < i {
                    assert(data.agencies@[j] == old_agencies[j]);
                } else {
                    assert(data.agencies@[j] == old_agencies[j + 1]);
                }
            }
            e
        },
        None => {
            proof {
                lemma_keyed_dom(e0, k);
                assert forall|j: int| 0 <= j < e0.len() implies (#[trigger] e0[j]).0 != k by {
                    assert(e0[j].0 == data.agencies@[j].0@);
                }
            }
            let e = (agency.clone(), AgencyDirections { live_time: live, directions: Vec::new() });
            assert(!keyed(e0).contains_key(k));
            assert(keyed(data.entries()) == keyed(e0));
            assert(e.1.entries() =~= Seq::<(Seq<char>, LinesView)>::empty());
            assert(keyed(e.1.entries()) == Map::<Seq<char>, LinesView>::empty());
            e
        },
    };
    let ghost rest = data.entries();
    assert(forall|j: int| 0 <= j < rest.len() ==> (#[trigger] rest[j]).0 != k);
    assert(unique_keys(rest));
    let ghost dirs = keyed(entry.1.entries());
    assert(dirs == (if old(data)@.contains_key(k) {
        old(data)@[k].1
    } else {
        Map::empty()
    }));
    entry.1.live_time = live;
    let ghost d0 = entry.1.entries();
    let ghost dk = line.direction@;
    let d = line.direction.clone();
    let dfound = find_key(&entry.1.directions, &d);
    let mut dentry: (String, AgencyDirectionLines) = match dfound {
        Some(j) => {
            proof {
                lemma_keyed_value(d0, j as int);
                lemma_keyed_remove(d0, j as int);
            }
            let ghost old_dirs = entry.1.directions@;
            let e = entry.1.directions.remove(j);
            assert(entry.1.entries() =~= d0.remove(j as int));
            assert(e == old_dirs[j as int]);
            assert(keyed(entry.1.entries()) == keyed(d0).remove(dk));
            e
        },
        None => {
            proof {
                lemma_keyed_dom(d0, dk);
                assert forall|j: int| 0 <= j < d0.len() implies (#[trigger] d0[j]).0 != dk by {
                    assert(d0[j].0 == entry.1.directions@[j].0@);
                }
            }
            let e = (d, AgencyDirectionLines { lines: Vec::new() });
            assert(!keyed(d0).contains_key(dk));
            assert(keyed(entry.1.entries()) == keyed(d0));
            assert(groups_view(e.1.lines@) =~= Seq::<(LineView, Seq<Timestamp>)>::empty());
            e
        },
    };
    let ghost lines_before = groups_view(dentry.1.lines@);
    assert(lines_before == (if dirs.contains_key(dk) {
        dirs[dk]
    } else {
        Seq::empty()
    }));
    let ghost drest = entry.1.entries();
    assert(unique_keys(drest));
    assert(forall|j: int| 0 <= j < drest.len() ==> (#[trigger] drest[j]).0 != dk);
    assert(keyed(drest) =~= dirs.remove(dk));
    dentry.1.lines.push((line, times));
    assert(groups_view(dentry.1.lines@) =~= lines_before.push(entry_line));
    entry.1.directions.push(dentry);
    assert(entry.1.entries() =~= drest.push((dk, lines_before.push(entry_line))));
    assert(entry.1.entries().drop_last() =~= drest);
    assert(keyed(entry.1.entries()) =~= dirs.insert(dk, lines_before.push(entry_line)));
    data.agencies.push(entry);
    assert(data.entries() =~= rest.push((k, entry.1@)));
    assert(data.entries().drop_last() =~= rest);
    assert(keyed(rest) =~= old(data)@.remove(k));
    assert(data@ =~= old(data)@.insert(k, (live, dirs.insert(dk, lines_before.push(entry_line)))));
}


/// Merges the responses, in order, into one model.
pub fn merge_responses(responses: &Vec<UpcomingResponse>) -> (r: StopData)
    ensures
        r.wf(),
        r@ == merged(responses@.map_values(|x: UpcomingResponse| response_view(x))),
{
    let ghost rs = responses@.map_values(|x: UpcomingResponse| response_view(x));
    let mut data = StopData { agencies: Vec::new() };
    assert(data.entries() =~= Seq::<(Seq<char>, AgencyView)>::empty());
    assert(rs.take(0) =~= Seq::<(Seq<char>, Timestamp, LinesView)>::empty());
    let mut i: usize = 0;
    while i < responses.len()
        invariant
            i <= responses@.len(),
            rs == responses@.map_values(|x: UpcomingResponse| response_view(x)),
            data.wf(),
            data@ == merged(rs.take(i as int)),
        decreases responses@.len() - i,
    {
        let resp = &responses[i];
        let ghost lines = groups_view(resp.upcoming@);
        let ghost base = merged(rs.take(i as int));
        assert(lines.take(0) =~= Seq::<(LineView, Seq<Timestamp>)>::empty());
        let mut g: usize = 0;
        while g < resp.upcoming.len()
            invariant
                g <= resp.upcoming@.len(),
                lines == groups_view(resp.upcoming@),
                data.wf(),
                data@ == with_lines(base, resp.agency@, resp.live_time, lines.take(g as int)),
            decreases resp.upcoming@.len() - g,
        {
            assert(lines.take(g + 1).drop_last() =~= lines.take(g as int));
            assert(lines.take(g + 1).last() == lines[g as int]);
            let times = copy_upcoming(&resp.upcoming[g].1);
            add_line(&mut data, &resp.agency, resp.live_time, resp.upcoming[g].0.clone(), times);
            g = g + 1;
        }
        assert(lines.take(lines.len() as int) =~= lines);
        assert(rs.take(i + 1).drop_last() =~= rs.take(i as int));
        assert(rs.take(i + 1).last() == rs[i as int]);
        i = i + 1;
    }
    assert(rs.take(rs.len() as int) =~= rs);
    data
}

/// Why a read of the model failed, and for which agency.
#[derive(Debug, PartialEq, Eq)]
pub struct LoadError {
    pub agency: String,
    pub cause: LoadCause,
}

#[derive(Debug, PartialEq, Eq)]
pub enum LoadCause {
    Cache(CacheError),
    Time(TimeParseError),
}

/// Whether the read of the `i`th agency fails: its snapshot is missing or unreadable,
/// or holds a bad arrival time.
pub open spec fn read_fails(snapshots: Seq<Result<Cached, CacheError>>, i: int) -> bool {
    match snapshots[i] {
        Err(_) => true,
        Ok(c) => exists|j: int| 0 <= j < c.journeys@.len() && has_bad_time(#[trigger] c.journeys@[j]),
    }
}

/// The read of the `i`th agency is the first that fails.
pub open spec fn first_failed_read(snapshots: Seq<Result<Cached, CacheError>>, i: int) -> bool {
    &&& read_fails(snapshots, i)
    &&& forall|j: int| 0 <= j < i ==> !read_fails(snapshots, j)
}

/// `e` reports the failed read of the `i`th agency: it names the agency and carries its
/// cache error, or the first arrival-time text of its snapshot that is no timestamp.
pub open spec fn reports_read(snapshots: Seq<Result<Cached, CacheError>>, stops: Seq<StopConfig>, i: int, e: LoadError) -> bool {
    &&& e.agency@ == stops[i].agency@
    &&& match snapshots[i] {
        Err(ce) => e.cause == LoadCause::Cache(ce),
        Ok(c) => e.cause is Time && exists|j: int|
            0 <= j < c.journeys@.len() && #[trigger] first_bad_time(c.journeys@, j) && e.cause->Time_0.value@
                == time_text(c.journeys@[j]),
    }
}

/// `m` is the model that the snapshots give at `now`: each agency's snapshot grouped by
/// line, with destination table `subs`, and the results merged in configuration order.
pub open spec fn model_at(
    snapshots: Seq<Result<Cached, CacheError>>,
    stops: Seq<StopConfig>,
    subs: Seq<(Seq<char>, Seq<char>)>,
    now: Timestamp,
    m: Map<Seq<char>, AgencyView>,
) -> bool {
    exists|rs: Seq<(Seq<char>, Timestamp, LinesView)>|
        #![trigger merged(rs)]
        rs.len() == stops.len() && m == merged(rs) && forall|i: int|
            0 <= i < rs.len() ==> (#[trigger] rs[i]).0 == stops[i].agency@ && rs[i].1 == snapshots[i]->Ok_0.live_time
                && grouped(
                arrivals(
                    snapshots[i]->Ok_0.journeys@,
                    now,
                    stops[i].agency@,
                    pairs_view(stops[i].line_prefix_subs@),
                    subs,
                ),
                rs[i].2,
            )
}

/// Builds the model from every configured agency's snapshot.
pub struct DataAccess {
    pub client: Client,
}

/// A copy of a list of text pairs.
pub fn copy_pairs(v: &Vec<(String, String)>) -> (r: Vec<(String, String)>)
    ensures
        r@ == v@,
{
    let mut out: Vec<(String, String)> = Vec::new();
    let mut i: usize = 0;
    while i < v.len()
        invariant
            i <= v@.len(),
            out@ =~= v@.take(i as int),
        decreases v@.len() - i,
    {
        out.push((v[i].0.clone(), v[i].1.clone()));
        i = i + 1;
    }
    out
}

impl DataAccess {
    pub fn new(config_file: &ConfigFile) -> (r: Self)
        ensures
            r.client.api_key == config_file.api_key,
            r.client.destination_subs@ == config_file.destination_subs@,
    {
        DataAccess {
            client: Client::new(config_file.api_key.clone(), copy_pairs(&config_file.destination_subs)),
        }
    }

    /// Builds the model, at this moment, from one snapshot read per configured agency.
    pub fn load_stop_data(&self, stops: &Vec<StopConfig>, snapshots: Vec<Result<Cached, CacheError>>) -> (r: Result<StopData, LoadError>)
        requires
            snapshots@.len() == stops@.len(),
        ensures
            r is Err <==> exists|i: int| 0 <= i < snapshots@.len() && read_fails(snapshots@, i),
            r matches Err(e) ==> exists|i: int| 0 <= i < snapshots@.len() && #[trigger] first_failed_read(snapshots@, i)
                && reports_read(snapshots@, stops@, i, e),
            r matches Ok(d) ==> d.wf() && exists|at: Timestamp|
                #[trigger] model_at(snapshots@, stops@, pairs_view(self.client.destination_subs@), at, d@),
    {
        let t = now();
        self.load_stop_data_at(stops, snapshots, t)
    }

    /// Builds the model at time `now` from one snapshot read per configured agency,
    /// `snapshots[i]` being that of `stops[i]`. The first agency whose read fails fails
    /// the whole read, with its name; otherwise each snapshot is grouped as `transform_at`
    /// does and the results are merged in order.
    pub fn load_stop_data_at(
        &self,
        stops: &Vec<StopConfig>,
        snapshots: Vec<Result<Cached, CacheError>>,
        now: Timestamp,
    ) -> (r: Result<StopData, LoadError>)
        requires
            snapshots@.len() == stops@.len(),
        ensures
            r is Err <==> exists|i: int| 0 <= i < snapshots@.len() && read_fails(snapshots@, i),
            r matches Err(e) ==> exists|i: int| 0 <= i < snapshots@.len() && #[trigger] first_failed_read(snapshots@, i)
                && reports_read(snapshots@, stops@, i, e),
            r matches Ok(d) ==> d.wf() && model_at(
                snapshots@,
                stops@,
                pairs_view(self.client.destination_subs@),
                now,
                d@,
            ),
    {
        let ghost all = snapshots@;
        let mut pending = snapshots;
        let mut responses: Vec<UpcomingResponse> = Vec::new();
        let mut i: usize = 0;
        while i < stops.len()
            invariant
                i <= stops@.len(),
                all.len() == stops@.len(),
                all == snapshots@,
                pending@ == all.skip(i as int),
                responses@.len() == i,
                forall|j: int| 0 <= j < i ==> !read_fails(all, j),
                forall|j: int|
                    0 <= j < i ==> (#[trigger] responses@[j]).agency@ == stops@[j].agency@ && responses@[j].live_time
                        == all[j]->Ok_0.live_time && grouped(
                        arrivals(
                            all[j]->Ok_0.journeys@,
                            now,
                            stops@[j].agency@,
                            pairs_view(stops@[j].line_prefix_subs@),
                            pairs_view(self.client.destination_subs@),
                        ),
                        groups_view(responses@[j].upcoming@),
                    ),
            decreases stops@.len() - i,
        {
            let snapshot = pending.remove(0);
            assert(snapshot == all[i as int]);
            assert(pending@ =~= all.skip(i + 1));
            match snapshot {
                Err(ce) => {
                    assert(read_fails(snapshots@, i as int));
                    assert(first_failed_read(snapshots@, i as int));
                    return Err(LoadError { agency: stops[i].agency.clone(), cause: LoadCause::Cache(ce) });
                },
                Ok(cached) => {
                    match self.client.transform_at(&stops[i], cached, now) {
                        Err(te) => {
                            assert(read_fails(snapshots@, i as int));
                            assert(first_failed_read(snapshots@, i as int));
                            return Err(LoadError { agency: stops[i].agency.clone(), cause: LoadCause::Time(te) });
                        },
                        Ok(resp) => {
                            responses.push(resp);
                        },
                    }
                },
            }
            i = i + 1;
        }
        let data = merge_responses(&responses);
        let ghost rs = responses@.map_values(|x: UpcomingResponse| response_view(x));
        assert(rs.len() == stops@.len());
        assert(forall|i: int| 0 <= i < rs.len() ==> #[trigger] rs[i] == response_view(responses@[i]));
        assert(data@ == merged(rs));
        Ok(data)
    }
}

} // verus!
