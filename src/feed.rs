use vstd::prelude::*;

verus! {

/// Where and when one vehicle is expected.
#[derive(Debug, PartialEq, Eq)]
pub struct MonitoredCall {
    pub expected_arrival_time: Option<String>,
    pub stop_point_ref: String,
}

/// One real-time prediction of the feed: a vehicle of a line serving a stop.
/// Any optional field may be absent.
#[derive(Debug, PartialEq, Eq)]
pub struct MonitoredVehicleJourney {
    pub line_ref: Option<String>,
    pub direction_ref: Option<String>,
    pub destination_name: Option<String>,
    pub monitored_call: MonitoredCall,
}

pub fn clone_opt_string(s: &Option<String>) -> (r: Option<String>)
    ensures
        r == *s,
{
    match s {
        Some(x) => Some(x.clone()),
        None => None,
    }
}

impl Clone for MonitoredCall {
    fn clone(&self) -> (r: Self)
        ensures
            r == *self,
    {
        MonitoredCall {
            expected_arrival_time: clone_opt_string(&self.expected_arrival_time),
            stop_point_ref: self.stop_point_ref.clone(),
        }
    }
}

impl Clone for MonitoredVehicleJourney {
    fn clone(&self) -> (r: Self)
        ensures
            r == *self,
    {
        MonitoredVehicleJourney {
            line_ref: clone_opt_string(&self.line_ref),
            direction_ref: clone_opt_string(&self.direction_ref),
            destination_name: clone_opt_string(&self.destination_name),
            monitored_call: self.monitored_call.clone(),
        }
    }
}


/// The length of the byte-order mark that `unicode_bom` finds at the start of some bytes.
pub uninterp spec fn bom_length(b: Seq<u8>) -> nat;

/// Relies on unicode_bom's `Bom::from(&[u8])` and `Bom::len`: the length of the byte-order
/// mark that starts the bytes, 0 where there is none. Each mark is reported only where the
/// bytes hold all of it; UTF-8's is the three bytes EF BB BF; no mark starts with `{`.
#[verifier::external_body]
fn bom_len(bytes: &[u8]) -> (r: usize)
    ensures
        r as int == bom_length(bytes@),
        r <= bytes@.len(),
        bytes@.len() >= 3 && bytes@[0] == 0xef && bytes@[1] == 0xbb && bytes@[2] == 0xbf ==> r == 3,
        bytes@.len() > 0 && bytes@[0] == 0x7b ==> r == 0,
{
    unicode_bom::Bom::from(bytes).len()
}

/// A response body without its byte-order mark, if it has one.
pub fn strip_bom(body: &[u8]) -> (r: Vec<u8>)
    ensures
        r@ == body@.subrange(bom_length(body@) as int, body@.len() as int),
        body@.len() >= 3 && body@[0] == 0xef && body@[1] == 0xbb && body@[2] == 0xbf ==> r@ == body@.subrange(
            3,
            body@.len() as int,
        ),
        body@.len() > 0 && body@[0] == 0x7b ==> r@ == body@,
{
    let start = bom_len(body);
    let mut out: Vec<u8> = Vec::new();
    let mut i: usize = start;
    while i < body.len()
        invariant
            start <= i <= body@.len(),
            start == bom_length(body@),
            out@ =~= body@.subrange(start as int, i as int),
        decreases body@.len() - i,
    {
        out.push(body[i]);
        i = i + 1;
    }
    assert(body@.subrange(0, body@.len() as int) =~= body@);
    out
}

/// The texts of a list of strings.
pub open spec fn texts(v: Seq<String>) -> Seq<Seq<char>> {
    v.map_values(|s: String| s@)
}

/// The journeys, in order, whose stop is one of `stops`.
pub open spec fn at_stops(js: Seq<MonitoredVehicleJourney>, stops: Seq<Seq<char>>) -> Seq<MonitoredVehicleJourney>
    decreases js.len(),
{
    if js.len() == 0 {
        Seq::empty()
    } else if stops.contains(js.last().monitored_call.stop_point_ref@) {
        at_stops(js.drop_last(), stops).push(js.last())
    } else {
        at_stops(js.drop_last(), stops)
    }
}

/// Whether `s` is one of `v`.
pub fn contains_text(v: &Vec<String>, s: &String) -> (r: bool)
    ensures
        r == texts(v@).contains(s@),
{
    let mut i: usize = 0;
    while i < v.len()
        invariant
            i <= v@.len(),
            forall|j: int| 0 <= j < i ==> (#[trigger] v@[j])@ != s@,
        decreases v@.len() - i,
    {
        if v[i] == *s {
            assert(texts(v@)[i as int] == s@);
            return true;
        }
        i = i + 1;
    }
    assert(!texts(v@).contains(s@)) by {
        if texts(v@).contains(s@) {
            let j = choose|j: int| 0 <= j < texts(v@).len() && texts(v@)[j] == s@;
            assert(v@[j]@ == s@);
        }
    }
    false
}

/// Keeps the journeys at the requested stops; the feed also reports others.
pub fn keep_requested_stops(journeys: Vec<MonitoredVehicleJourney>, stops: &Vec<String>) -> (r: Vec<MonitoredVehicleJourney>)
    ensures
        r@ == at_stops(journeys@, texts(stops@)),
{
    let mut out: Vec<MonitoredVehicleJourney> = Vec::new();
    let mut i: usize = 0;
    assert(journeys@.take(0) =~= Seq::<MonitoredVehicleJourney>::empty());
    while i < journeys.len()
        invariant
            i <= journeys@.len(),
            out@ == at_stops(journeys@.take(i as int), texts(stops@)),
        decreases journeys@.len() - i,
    {
        assert(journeys@.take(i + 1).drop_last() =~= journeys@.take(i as int));
        assert(journeys@.take(i + 1).last() == journeys@[i as int]);
        if contains_text(stops, &journeys[i].monitored_call.stop_point_ref) {
            out.push(journeys[i].clone());
        }
        i = i + 1;
    }
    assert(journeys@.take(journeys@.len() as int) =~= journeys@);
    out
}

/// The stop-monitoring request for one agency.
pub fn feed_url(api_key: &str, agency: &str) -> (r: String)
    ensures
        r@ == "https://api.511.org/transit/StopMonitoring?api_key="@ + api_key@ + "&agency="@ + agency@
            + "&format=json"@,
{
    let mut url = String::from_str("https://api.511.org/transit/StopMonitoring?api_key=");
    url.append(api_key);
    url.append("&agency=");
    url.append(agency);
    url.append("&format=json");
    url
}

} // verus!
