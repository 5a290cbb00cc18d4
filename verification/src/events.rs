//! The event model: the header that opens an archive, the six event kinds
//! that follow it one per line, and the writer-side grouping of events into
//! observations.

use vstd::prelude::*;

use crate::outside::{now_rfc3339, ts_parse};
use crate::value::{Json, JsonValue};

verus! {

/// The type marker every archive header carries, first in the header object
/// so that a reader can recognise an archive whatever the file is named.
pub open spec fn archive_file_type() -> Seq<char> {
    "@peoplesgrocers/json-archive"@
}

/// The first line of an archive: the format marker and version, when the
/// archive was created, an optional source label, the initial document, and
/// optional metadata.
#[derive(Debug)]
pub struct Header {
    pub file_type: String,
    pub version: u32,
    pub created: String,
    pub source: Option<String>,
    pub initial: JsonValue,
    pub metadata: Option<JsonValue>,
}

impl Header {
    /// A fresh version-1 header created now.
    pub fn new(initial: JsonValue, source: Option<String>) -> (r: Header)
        ensures
            r.file_type@ == archive_file_type(),
            r.version == 1,
            ts_parse(r.created@) is Some,
            r.source == source,
            r.initial == initial,
            r.metadata is None,
    {
        Header {
            file_type: "@peoplesgrocers/json-archive".to_owned(),
            version: 1,
            created: now_rfc3339(),
            source,
            initial,
            metadata: None,
        }
    }
}

/// One archive line after the header: a marker opening an observation, one
/// of four mutations, or a full-state checkpoint.
#[derive(Debug)]
pub enum Event {
    /// Opens a logical change-set and declares how many mutations follow.
    Observe { observation_id: String, timestamp: String, change_count: usize },
    /// Sets a new key or index; the parent of `path` must exist, and an
    /// index equal to the array's length appends.
    Add { path: String, value: JsonValue, observation_id: String },
    /// Replaces the value at `path`, which must exist.
    Change { path: String, new_value: JsonValue, observation_id: String },
    /// Deletes the value at `path`, which must exist.
    Remove { path: String, observation_id: String },
    /// Reorders elements of the array at `path` by `(from, to)` pairs.
    Move { path: String, moves: Vec<(usize, usize)>, observation_id: String },
    /// A checkpoint: the full state at this point, authoritative over the
    /// replayed state.
    Snapshot { observation_id: String, timestamp: String, object: JsonValue },
}

/// The mathematical shape of a [`Header`].
pub struct Hd {
    pub file_type: Seq<char>,
    pub version: int,
    pub created: Seq<char>,
    pub source: Option<Seq<char>>,
    pub initial: Json,
    pub metadata: Option<Json>,
}

impl View for Header {
    type V = Hd;

    open spec fn view(&self) -> Hd {
        Hd {
            file_type: self.file_type@,
            version: self.version as int,
            created: self.created@,
            source: match self.source {
                Some(s) => Some(s@),
                None => None,
            },
            initial: self.initial@,
            metadata: match self.metadata {
                Some(m) => Some(m@),
                None => None,
            },
        }
    }
}

/// The integer pairs of a move list.
pub open spec fn move_views(ms: Seq<(usize, usize)>) -> Seq<(int, int)> {
    Seq::new(ms.len(), |i: int| (ms[i].0 as int, ms[i].1 as int))
}

/// The mathematical shape of an [`Event`].
pub enum Ev {
    Observe { id: Seq<char>, ts: Seq<char>, count: int },
    Add { path: Seq<char>, value: Json, id: Seq<char> },
    Change { path: Seq<char>, value: Json, id: Seq<char> },
    Remove { path: Seq<char>, id: Seq<char> },
    Move { path: Seq<char>, moves: Seq<(int, int)>, id: Seq<char> },
    Snapshot { id: Seq<char>, ts: Seq<char>, object: Json },
}

impl View for Event {
    type V = Ev;

    open spec fn view(&self) -> Ev {
        match self {
            Event::Observe { observation_id, timestamp, change_count } => Ev::Observe {
                id: observation_id@,
                ts: timestamp@,
                count: *change_count as int,
            },
            Event::Add { path, value, observation_id } => Ev::Add {
                path: path@,
                value: value@,
                id: observation_id@,
            },
            Event::Change { path, new_value, observation_id } => Ev::Change {
                path: path@,
                value: new_value@,
                id: observation_id@,
            },
            Event::Remove { path, observation_id } => Ev::Remove {
                path: path@,
                id: observation_id@,
            },
            Event::Move { path, moves, observation_id } => Ev::Move {
                path: path@,
                moves: move_views(moves@),
                id: observation_id@,
            },
            Event::Snapshot { observation_id, timestamp, object } => Ev::Snapshot {
                id: observation_id@,
                ts: timestamp@,
                object: object@,
            },
        }
    }
}

/// A writer-side batch: an id, a timestamp, and the mutations observed
/// together. Serialized as an `Observe` line followed by the events.
#[derive(Debug)]
pub struct Observation {
    pub id: String,
    pub timestamp: String,
    pub events: Vec<Event>,
}

impl Observation {
    /// An empty observation at a moment in time.
    pub fn new(id: String, timestamp: String) -> (r: Self)
        ensures
            r.id == id,
            r.timestamp == timestamp,
            r.events@ == Seq::<Event>::empty(),
    {
        Self { id, timestamp, events: Vec::new() }
    }

    /// Appends one event to the batch.
    pub fn add_event(&mut self, event: Event)
        ensures
            final(self).id == old(self).id,
            final(self).timestamp == old(self).timestamp,
            final(self).events@ == old(self).events@.push(event),
    {
        self.events.push(event);
    }

    /// The wire order of the batch: an `Observe` line declaring the batch's
    /// size, then its events.
    pub fn to_events(self) -> (r: Vec<Event>)
        ensures
            r@.len() == self.events@.len() + 1,
            r@[0] matches Event::Observe { observation_id, timestamp, change_count } && {
                &&& observation_id@ == self.id@
                &&& timestamp@ == self.timestamp@
                &&& change_count == self.events@.len()
            },
            forall|i: int| 0 <= i < self.events@.len() ==> r@[i + 1] == self.events@[i],
    {
        let count = self.events.len();
        let mut r: Vec<Event> = Vec::new();
        r.push(
            Event::Observe {
                observation_id: self.id,
                timestamp: self.timestamp,
                change_count: count,
            },
        );
        let mut rest = self.events;
        let ghost evs = rest@;
        let mut i: usize = 0;
        let n = rest.len();
        while i < n
            invariant
                0 <= i <= evs.len(),
                n == evs.len(),
                rest@ == evs.skip(i as int),
                r@.len() == i + 1,
                r@[0] matches Event::Observe { observation_id, timestamp, change_count } && {
                    &&& observation_id@ == self.id@
                    &&& timestamp@ == self.timestamp@
                    &&& change_count == evs.len()
                },
                forall|k: int| 0 <= k < i ==> r@[k + 1] == evs[k],
            decreases evs.len() - i,
        {
            proof {
                assert(rest@[0] == evs[i as int]);
            }
            let e = rest.remove(0);
            r.push(e);
            proof {
                assert(rest@ =~= evs.skip(i as int + 1));
            }
            i = i + 1;
        }
        r
    }
}

} // verus!
