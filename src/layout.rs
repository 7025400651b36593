use vstd::prelude::*;
use itertools::Itertools;
use crate::config::{ConfigFile, SectionConfig, SideConfig};
use crate::pipeline::{
    find_key, keyed, lemma_keyed_dom, lemma_keyed_remove, lemma_keyed_value, unique_keys, AgencyView,
    LinesView, StopData,
};
use crate::time::{delta_nanos, div_toward_zero, Timestamp, NANOS_PER_MINUTE};
use crate::transform::LineView;

verus! {

/// A line as it is shown: label, destination and minutes until each departure.
pub struct Line {
    pub id: String,
    pub destination: String,
    pub departure_minutes: Vec<i64>,
}

/// The lines of one agency section.
pub struct Agency {
    pub lines: Vec<Line>,
}

pub enum Row {
    Agency(Agency),
    Text(String),
}

pub struct Column {
    pub rows: Vec<Row>,
}

/// What is shown: two columns of rows, and the fetch time of each agency shown.
pub struct Layout {
    pub left: Column,
    pub right: Column,
    /// Each agency that a section shows, with the time its data was fetched.
    pub all_agencies: Vec<(String, Timestamp)>,
}

/// Why a section could not be filled.
#[derive(Debug, PartialEq, Eq)]
pub enum LayoutError {
    AgencyNotFound,
    DirectionNotFound,
}

/// A shown line: label, destination, minutes.
pub type LineModel = (Seq<char>, Seq<char>, Seq<int>);

/// Whole minutes from `now` until `t`, rounded toward zero.
pub open spec fn minutes_until(t: Timestamp, now: Timestamp) -> int {
    div_toward_zero(delta_nanos(t, now), NANOS_PER_MINUTE as int)
}

/// How one line of the model is shown at `now`.
pub open spec fn shown_line(e: (LineView, Seq<Timestamp>), now: Timestamp) -> LineModel {
    (e.0.0, e.0.3, e.1.map_values(|t: Timestamp| minutes_until(t, now)))
}

/// How the lines of one direction are shown at `now`.
pub open spec fn shown_lines(lines: LinesView, now: Timestamp) -> Seq<LineModel> {
    lines.map_values(|e: (LineView, Seq<Timestamp>)| shown_line(e, now))
}

impl Line {
    pub open spec fn model(&self) -> LineModel {
        (self.id@, self.destination@, self.departure_minutes@.map_values(|m: i64| m as int))
    }
}

impl Agency {
    pub open spec fn model(&self) -> Seq<LineModel> {
        self.lines@.map_values(|l: Line| l.model())
    }
}

/// The character of a decimal digit.
pub open spec fn digit_char(d: int) -> char {
    if d == 0 {
        '0'
    } else if d == 1 {
        '1'
    } else if d == 2 {
        '2'
    } else if d == 3 {
        '3'
    } else if d == 4 {
        '4'
    } else if d == 5 {
        '5'
    } else if d == 6 {
        '6'
    } else if d == 7 {
        '7'
    } else if d == 8 {
        '8'
    } else {
        '9'
    }
}

/// The decimal digits of a natural number, without leading zeros ("0" for zero).
pub open spec fn digits(n: nat) -> Seq<char>
    decreases n,
{
    if n < 10 {
        seq![digit_char(n as int)]
    } else {
        digits(n / 10).push(digit_char((n % 10) as int))
    }
}

/// An integer as `Display` writes it: a minus sign when negative, then its digits.
pub open spec fn decimal(n: int) -> Seq<char> {
    if n < 0 {
        seq!['-'] + digits((-n) as nat)
    } else {
        digits(n as nat)
    }
}

/// The minutes of a line written out with ", " between them; nothing for none.
pub open spec fn joined_minutes(s: Seq<i64>) -> Seq<char>
    decreases s.len(),
{
    if s.len() == 0 {
        Seq::empty()
    } else if s.len() == 1 {
        decimal(s[0] as int)
    } else {
        joined_minutes(s.drop_last()) + ", "@ + decimal(s.last() as int)
    }
}

/// Relies on itertools' `Itertools::join`: nothing for no items, else the first item
/// written by `Display`, then `sep` and the next item for each one after it; and on
/// `i64`'s `Display`, which writes a minus sign for a negative number and then its decimal
/// digits without leading zeros.
#[verifier::external_body]
fn join_minutes(m: &Vec<i64>) -> (r: String)
    ensures
        r@ == joined_minutes(m@),
{
    m.iter().join(", ")
}

impl Line {
    /// The departure minutes as one text, "3, 12, 25".
    pub fn departure_minutes_str(&self) -> (r: String)
        ensures
            r@ == joined_minutes(self.departure_minutes@),
    {
        join_minutes(&self.departure_minutes)
    }
}

/// Shows the lines of one direction at `now`.
fn show_lines(lines: &Vec<(crate::transform::Line, Vec<crate::transform::Upcoming>)>, now: Timestamp) -> (r: Vec<Line>)
    ensures
        r@.map_values(|l: Line| l.model()) == shown_lines(crate::transform::groups_view(lines@), now),
{
    let ghost target = shown_lines(crate::transform::groups_view(lines@), now);
    let mut out: Vec<Line> = Vec::new();
    let mut i: usize = 0;
    while i < lines.len()
        invariant
            i <= lines@.len(),
            target == shown_lines(crate::transform::groups_view(lines@), now),
            out@.map_values(|l: Line| l.model()) =~= target.take(i as int),
        decreases lines@.len() - i,
    {
        let times = &lines[i].1;
        let mut minutes: Vec<i64> = Vec::new();
        let mut j: usize = 0;
        while j < times.len()
            invariant
                j <= times@.len(),
                forall|x: int| 0 <= x < j ==> (#[trigger] minutes@[x]) as int == minutes_until(times@[x].time, now),
                minutes@.len() == j,
            decreases times@.len() - j,
        {
            minutes.push(times[j].time.minutes_since(now));
            j = j + 1;
        }
        let line = Line {
            id: lines[i].0.line.clone(),
            destination: lines[i].0.destination.clone(),
            departure_minutes: minutes,
        };
        assert(line.model().2 =~= target[i as int].2);
        let ghost before = out@;
        out.push(line);
        assert(out@.map_values(|l: Line| l.model()) =~= before.map_values(|l: Line| l.model()).push(line.model()));
        i = i + 1;
    }
    out
}

/// The fetch times of the agencies shown, as a map.
pub open spec fn agencies_view(v: Seq<(String, Timestamp)>) -> Map<Seq<char>, Timestamp> {
    keyed(v.map_values(|e: (String, Timestamp)| (e.0@, e.1)))
}

pub open spec fn agencies_wf(v: Seq<(String, Timestamp)>) -> bool {
    unique_keys(v.map_values(|e: (String, Timestamp)| (e.0@, e.1)))
}

/// Records that an agency is shown, with its fetch time.
fn note_agency(all: &mut Vec<(String, Timestamp)>, name: &String, live: Timestamp)
    requires
        agencies_wf(old(all)@),
    ensures
        agencies_wf(final(all)@),
        agencies_view(final(all)@) == agencies_view(old(all)@).insert(name@, live),
{
    let ghost e0 = all@.map_values(|e: (String, Timestamp)| (e.0@, e.1));
    match find_key(all, name) {
        Some(i) => {
            proof {
                lemma_keyed_remove(e0, i as int);
            }
            all.remove(i);
            assert(all@.map_values(|e: (String, Timestamp)| (e.0@, e.1)) =~= e0.remove(i as int));
        },
        None => {
            proof {
                lemma_keyed_dom(e0, name@);
            }
        },
    }
    let ghost rest = all@.map_values(|e: (String, Timestamp)| (e.0@, e.1));
    assert(forall|j: int| 0 <= j < rest.len() ==> (#[trigger] rest[j]).0 != name@);
    all.push((name.clone(), live));
    assert(all@.map_values(|e: (String, Timestamp)| (e.0@, e.1)) =~= rest.push((name@, live)));
    assert(rest.push((name@, live)).drop_last() =~= rest);
    assert(keyed(rest) =~= agencies_view(old(all)@).remove(name@));
    assert(agencies_view(all@) =~= agencies_view(old(all)@).insert(name@, live));
}


/// A row as it is shown.
pub enum RowModel {
    Agency(Seq<LineModel>),
    Text(Seq<char>),
}

impl Row {
    pub open spec fn model(&self) -> RowModel {
        match self {
            Row::Agency(a) => RowModel::Agency(a.model()),
            Row::Text(t) => RowModel::Text(t@),
        }
    }
}

/// The row a section gives at `now`, or none where its agency or direction has no data.
pub open spec fn shown_section(data: Map<Seq<char>, AgencyView>, s: SectionConfig, now: Timestamp) -> Option<RowModel> {
    match s {
        SectionConfig::AgencySection(a) => if data.contains_key(a.agency@) && data[a.agency@].1.contains_key(a.direction@) {
            Some(RowModel::Agency(shown_lines(data[a.agency@].1[a.direction@], now)))
        } else {
            None
        },
        SectionConfig::TextSection(t) => Some(RowModel::Text(t.text@)),
    }
}

/// The rows of a column of sections, in order, those without data left out.
pub open spec fn shown_column(data: Map<Seq<char>, AgencyView>, sections: Seq<SectionConfig>, now: Timestamp) -> Seq<RowModel>
    decreases sections.len(),
{
    if sections.len() == 0 {
        Seq::empty()
    } else {
        let rest = shown_column(data, sections.drop_last(), now);
        match shown_section(data, sections.last(), now) {
            Some(r) => rest.push(r),
            None => rest,
        }
    }
}

/// The agencies shown so far, after the sections: each agency section whose agency has
/// data notes that agency's fetch time.
pub open spec fn noted(all: Map<Seq<char>, Timestamp>, data: Map<Seq<char>, AgencyView>, sections: Seq<SectionConfig>) -> Map<
    Seq<char>,
    Timestamp,
>
    decreases sections.len(),
{
    if sections.len() == 0 {
        all
    } else {
        let before = noted(all, data, sections.drop_last());
        match sections.last() {
            SectionConfig::AgencySection(a) => if data.contains_key(a.agency@) {
                before.insert(a.agency@, data[a.agency@].0)
            } else {
                before
            },
            SectionConfig::TextSection(_) => before,
        }
    }
}

/// The lines of one agency's direction, shown at `now`, noting the agency's fetch time.
pub fn agency(
    stop_data: &StopData,
    agency_name: &String,
    direction: &String,
    all_agencies: &mut Vec<(String, Timestamp)>,
    now: Timestamp,
) -> (r: Result<Agency, LayoutError>)
    requires
        stop_data.wf(),
        agencies_wf(old(all_agencies)@),
    ensures
        agencies_wf(final(all_agencies)@),
        agencies_view(final(all_agencies)@) == if stop_data@.contains_key(agency_name@) {
            agencies_view(old(all_agencies)@).insert(agency_name@, stop_data@[agency_name@].0)
        } else {
            agencies_view(old(all_agencies)@)
        },
        (r == Err::<Agency, LayoutError>(LayoutError::AgencyNotFound)) <==> !stop_data@.contains_key(agency_name@),
        (r == Err::<Agency, LayoutError>(LayoutError::DirectionNotFound)) <==> stop_data@.contains_key(agency_name@)
            && !stop_data@[agency_name@].1.contains_key(direction@),
        r matches Ok(a) ==> stop_data@.contains_key(agency_name@) && stop_data@[agency_name@].1.contains_key(direction@)
            && a.model() == shown_lines(stop_data@[agency_name@].1[direction@], now),
{
    let ghost e0 = stop_data.entries();
    let i = match find_key(&stop_data.agencies, agency_name) {
        Some(i) => i,
        None => {
            proof {
                lemma_keyed_dom(e0, agency_name@);
                assert forall|j: int| 0 <= j < e0.len() implies (#[trigger] e0[j]).0 != agency_name@ by {
                    assert(e0[j].0 == stop_data.agencies@[j].0@);
                }
            }
            return Err(LayoutError::AgencyNotFound);
        },
    };
    proof {
        lemma_keyed_value(e0, i as int);
    }
    let found = &stop_data.agencies[i].1;
    assert(stop_data@[agency_name@] == found@);
    note_agency(all_agencies, agency_name, found.live_time);
    let ghost d0 = found.entries();
    assert(found.wf());
    let j = match find_key(&found.directions, direction) {
        Some(j) => j,
        None => {
            proof {
                lemma_keyed_dom(d0, direction@);
                assert forall|x: int| 0 <= x < d0.len() implies (#[trigger] d0[x]).0 != direction@ by {
                    assert(d0[x].0 == found.directions@[x].0@);
                }
            }
            return Err(LayoutError::DirectionNotFound);
        },
    };
    proof {
        lemma_keyed_value(d0, j as int);
    }
    let lines = show_lines(&found.directions[j].1.lines, now);
    Ok(Agency { lines })
}

/// The rows of one side, at `now`; sections without data are left out.
fn column(stop_data: &StopData, side: &SideConfig, all_agencies: &mut Vec<(String, Timestamp)>, now: Timestamp) -> (r: Column)
    requires
        stop_data.wf(),
        agencies_wf(old(all_agencies)@),
    ensures
        agencies_wf(final(all_agencies)@),
        agencies_view(final(all_agencies)@) == noted(agencies_view(old(all_agencies)@), stop_data@, side.sections@),
        r.rows@.map_values(|x: Row| x.model()) == shown_column(stop_data@, side.sections@, now),
{
    let ghost secs = side.sections@;
    let ghost all0 = agencies_view(all_agencies@);
    let mut rows: Vec<Row> = Vec::new();
    let mut i: usize = 0;
    assert(secs.take(0) =~= Seq::<SectionConfig>::empty());
    while i < side.sections.len()
        invariant
            i <= secs.len(),
            secs == side.sections@,
            stop_data.wf(),
            all0 == agencies_view(old(all_agencies)@),
            agencies_wf(all_agencies@),
            agencies_view(all_agencies@) == noted(all0, stop_data@, secs.take(i as int)),
            rows@.map_values(|x: Row| x.model()) == shown_column(stop_data@, secs.take(i as int), now),
        decreases secs.len() - i,
    {
        assert(secs.take(i + 1).drop_last() =~= secs.take(i as int));
        assert(secs.take(i + 1).last() == secs[i as int]);
        let ghost before = rows@;
        match &side.sections[i] {
            SectionConfig::AgencySection(a) => {
                match agency(stop_data, &a.agency, &a.direction, all_agencies, now) {
                    Ok(x) => {
                        assert(shown_section(stop_data@, secs[i as int], now) == Some(RowModel::Agency(x.model())));
                        rows.push(Row::Agency(x));
                        assert(rows@.map_values(|x: Row| x.model()) =~= before.map_values(|x: Row| x.model()).push(rows@.last().model()));
                    },
                    Err(e) => {
                        assert(shown_section(stop_data@, secs[i as int], now) is None) by {
                            match e {
                                LayoutError::AgencyNotFound => {},
                                LayoutError::DirectionNotFound => {},
                            }
                        }
                    },
                }
            },
            SectionConfig::TextSection(t) => {
                assert(shown_section(stop_data@, secs[i as int], now) == Some(RowModel::Text(t.text@)));
                rows.push(Row::Text(t.text.clone()));
                assert(rows@.map_values(|x: Row| x.model()) =~= before.map_values(|x: Row| x.model()).push(rows@.last().model()));
            },
        }
        i = i + 1;
    }
    assert(secs.take(secs.len() as int) =~= secs);
    Column { rows }
}

/// Lays the model out at `now`: the left column's sections, then the right's.
pub fn data_to_layout_at(stop_data: &StopData, config_file: &ConfigFile, now: Timestamp) -> (r: Layout)
    requires
        stop_data.wf(),
    ensures
        r.left.rows@.map_values(|x: Row| x.model()) == shown_column(stop_data@, config_file.layout.left.sections@, now),
        r.right.rows@.map_values(|x: Row| x.model()) == shown_column(stop_data@, config_file.layout.right.sections@, now),
        agencies_wf(r.all_agencies@),
        agencies_view(r.all_agencies@) == noted(
            noted(Map::empty(), stop_data@, config_file.layout.left.sections@),
            stop_data@,
            config_file.layout.right.sections@,
        ),
{
    let mut all_agencies: Vec<(String, Timestamp)> = Vec::new();
    assert(agencies_view(all_agencies@) =~= Map::<Seq<char>, Timestamp>::empty()) by {
        assert(all_agencies@.map_values(|e: (String, Timestamp)| (e.0@, e.1)) =~= Seq::<(Seq<char>, Timestamp)>::empty());
    }
    let left = column(stop_data, &config_file.layout.left, &mut all_agencies, now);
    let right = column(stop_data, &config_file.layout.right, &mut all_agencies, now);
    Layout { left, right, all_agencies }
}

/// Lays the model out at this moment.
pub fn data_to_layout(stop_data: StopData, config_file: &ConfigFile) -> (r: Layout)
    requires
        stop_data.wf(),
    ensures
        agencies_wf(r.all_agencies@),
        exists|at: Timestamp|
            r.left.rows@.map_values(|x: Row| x.model()) == #[trigger] shown_column(
                stop_data@,
                config_file.layout.left.sections@,
                at,
            ) && r.right.rows@.map_values(|x: Row| x.model()) == shown_column(
                stop_data@,
                config_file.layout.right.sections@,
                at,
            ),
        agencies_view(r.all_agencies@) == noted(
            noted(Map::empty(), stop_data@, config_file.layout.left.sections@),
            stop_data@,
            config_file.layout.right.sections@,
        ),
{
    let t = crate::time::now();
    data_to_layout_at(&stop_data, config_file, t)
}


/// How recent an agency's data is, for the trust indicator.
#[derive(Debug, PartialEq, Eq)]
pub enum Freshness {
    /// Fetched less than `STALE_AFTER_MINUTES` minutes ago.
    Fresh,
    /// Fetched this many whole minutes ago, or more.
    Stale(i64),
}

/// Data older than this many minutes is shown with its age.
pub const STALE_AFTER_MINUTES: i64 = 5;

/// The freshness at `now` of data fetched at `live_time`.
pub fn freshness(live_time: Timestamp, now: Timestamp) -> (r: Freshness)
    ensures
        delta_nanos(now, live_time) < STALE_AFTER_MINUTES * NANOS_PER_MINUTE ==> r == Freshness::Fresh,
        delta_nanos(now, live_time) >= STALE_AFTER_MINUTES * NANOS_PER_MINUTE ==> r == Freshness::Stale(
            minutes_until(now, live_time) as i64,
        ),
{
    let age = now.minutes_since(live_time);
    let ghost d = delta_nanos(now, live_time);
    assert((age < STALE_AFTER_MINUTES) <==> (d < 300_000_000_000)) by (nonlinear_arith)
        requires
            age as int == div_toward_zero(d, 60_000_000_000),
            STALE_AFTER_MINUTES == 5,
    {
        if d >= 0 {
            assert(age as int == d / 60_000_000_000);
        }
    }
    if age < STALE_AFTER_MINUTES {
        Freshness::Fresh
    } else {
        Freshness::Stale(age)
    }
}

} // verus!
