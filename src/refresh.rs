use vstd::prelude::*;
use crate::cache::Cached;
use crate::feed::MonitoredVehicleJourney;
use crate::time::Timestamp;
use crate::transform::Client;

verus! {

/// Why one agency's fetch failed.
#[derive(Debug, PartialEq, Eq)]
pub enum FetchError {
    /// The request did not complete.
    Network(String),
    /// The feed answered with a status other than success.
    UpstreamStatus(u16),
    /// The body is not the stop-monitoring envelope.
    Parse(String),
}

/// What one tick of the refresh loop does about one agency.
pub enum RefreshAction {
    /// Replace the agency's snapshot, whole.
    Store { agency: String, snapshot: Cached },
    /// Leave the snapshot as it is and report the failure.
    Report { agency: String, error: FetchError },
}

/// One agency's fetch of a tick: its name and the journeys at its stops, or why not.
pub type AgencyFetch = (String, Result<Vec<MonitoredVehicleJourney>, FetchError>);

/// The action for one fetch of a tick that captures at `captured_at`.
pub open spec fn action_for(f: AgencyFetch, captured_at: Timestamp) -> RefreshAction {
    match f.1 {
        Ok(js) => RefreshAction::Store { agency: f.0, snapshot: Cached { journeys: js, live_time: captured_at } },
        Err(e) => RefreshAction::Report { agency: f.0, error: e },
    }
}

/// The actions of a tick, one per fetch, in order.
pub open spec fn planned(fs: Seq<AgencyFetch>, captured_at: Timestamp) -> Seq<RefreshAction> {
    fs.map_values(|f: AgencyFetch| action_for(f, captured_at))
}

/// The snapshots, by agency, after the actions are carried out in order.
pub open spec fn stored_after(store: Map<Seq<char>, Cached>, actions: Seq<RefreshAction>) -> Map<Seq<char>, Cached>
    decreases actions.len(),
{
    if actions.len() == 0 {
        store
    } else {
        let before = stored_after(store, actions.drop_last());
        match actions.last() {
            RefreshAction::Store { agency, snapshot } => before.insert(agency@, snapshot),
            RefreshAction::Report { .. } => before,
        }
    }
}

impl Client {
    /// Decides what a tick does with its fetches: a successful fetch replaces its agency's
    /// snapshot, stamped `captured_at`; a failed one is reported and changes nothing.
    /// No fetch's failure stops the others.
    pub fn load_stop_data(&self, fetches: Vec<AgencyFetch>, captured_at: Timestamp) -> (r: Vec<RefreshAction>)
        ensures
            r@ == planned(fetches@, captured_at),
    {
        let mut fetches = fetches;
        let ghost all = fetches@;
        let mut rev: Vec<RefreshAction> = Vec::new();
        while fetches.len() > 0
            invariant
                fetches@ == all.take(fetches@.len() as int),
                fetches@.len() + rev@.len() == all.len(),
                forall|i: int| 0 <= i < rev@.len() ==> #[trigger] rev@[i] == action_for(all[all.len() - 1 - i], captured_at),
            decreases fetches@.len(),
        {
            let ghost n = fetches@.len();
            let f = fetches.pop().unwrap();
            assert(f == all[n - 1]);
            assert(fetches@ =~= all.take(n - 1));
            let (agency, outcome) = f;
            let action = match outcome {
                Ok(journeys) => RefreshAction::Store { agency, snapshot: Cached { journeys, live_time: captured_at } },
                Err(error) => RefreshAction::Report { agency, error },
            };
            rev.push(action);
        }
        let mut out: Vec<RefreshAction> = Vec::new();
        while rev.len() > 0
            invariant
                out@.len() + rev@.len() == all.len(),
                forall|i: int| 0 <= i < rev@.len() ==> #[trigger] rev@[i] == action_for(all[all.len() - 1 - i], captured_at),
                forall|i: int| 0 <= i < out@.len() ==> #[trigger] out@[i] == action_for(all[i], captured_at),
            decreases rev@.len(),
        {
            let a = rev.pop().unwrap();
            out.push(a);
        }
        assert(out@ =~= planned(all, captured_at));
        out
    }
}

/// An agency whose every fetch of a tick failed keeps the snapshot it had, or keeps
/// having none.
pub proof fn lemma_failed_fetch_keeps_snapshot(
    store: Map<Seq<char>, Cached>,
    fetches: Seq<AgencyFetch>,
    captured_at: Timestamp,
    agency: Seq<char>,
)
    requires
        forall|i: int| 0 <= i < fetches.len() && (#[trigger] fetches[i]).0@ == agency ==> fetches[i].1 is Err,
    ensures
        stored_after(store, planned(fetches, captured_at)).contains_key(agency) == store.contains_key(agency),
        store.contains_key(agency) ==> stored_after(store, planned(fetches, captured_at))[agency] == store[agency],
    decreases fetches.len(),
{
    if fetches.len() > 0 {
        assert(planned(fetches, captured_at).drop_last() =~= planned(fetches.drop_last(), captured_at));
        assert(fetches[fetches.len() - 1] == fetches.last());
        assert forall|i: int| 0 <= i < fetches.drop_last().len() && (#[trigger] fetches.drop_last()[i]).0@ == agency
            implies fetches.drop_last()[i].1 is Err by {
            assert(fetches.drop_last()[i] == fetches[i]);
        }
        lemma_failed_fetch_keeps_snapshot(store, fetches.drop_last(), captured_at, agency);
    }
}

/// An agency whose fetch succeeded, with no later fetch of the same agency in the tick,
/// ends the tick with that fetch's journeys, stamped with the tick's capture time.
pub proof fn lemma_fetched_snapshot_stored(
    store: Map<Seq<char>, Cached>,
    fetches: Seq<AgencyFetch>,
    captured_at: Timestamp,
    i: int,
)
    requires
        0 <= i < fetches.len(),
        fetches[i].1 is Ok,
        forall|j: int| i < j < fetches.len() ==> (#[trigger] fetches[j]).0@ != fetches[i].0@,
    ensures
        stored_after(store, planned(fetches, captured_at)).contains_key(fetches[i].0@),
        stored_after(store, planned(fetches, captured_at))[fetches[i].0@] == (Cached {
            journeys: fetches[i].1->Ok_0,
            live_time: captured_at,
        }),
    decreases fetches.len(),
{
    assert(planned(fetches, captured_at).drop_last() =~= planned(fetches.drop_last(), captured_at));
    if i < fetches.len() - 1 {
        assert(fetches[fetches.len() - 1] == fetches.last());
        assert(fetches.drop_last()[i] == fetches[i]);
        assert forall|j: int| i < j < fetches.drop_last().len() implies (#[trigger] fetches.drop_last()[j]).0@
            != fetches.drop_last()[i].0@ by {
            assert(fetches.drop_last()[j] == fetches[j]);
        }
        lemma_fetched_snapshot_stored(store, fetches.drop_last(), captured_at, i);
    }
}

} // verus!
