//! The observation index: one replay of an archive recorded as a list of
//! (id, timestamp, state) entries — the header's initial state first, then
//! one entry per observation or snapshot — answering point-in-time queries:
//! by id, by position, at or before or after a moment, or simply the latest.

use vstd::prelude::*;

use crate::codec::{decode_event, spec_decode, DecodeOutcome};
use crate::diagnostics::{Diagnostic, DiagnosticCode, DiagnosticLevel};
use crate::events::{Ev, Event, Header};
use crate::outside::{json_parse, parse_json_text, parse_timestamp, trim_str, trimmed, ts_parse};
use crate::value::{json_wf, shapes_of, Json, JsonValue};

verus! {

/// One recorded point: an observation or snapshot id, its timestamp text,
/// the parsed instant, and the state after its changes.
#[derive(Debug)]
pub struct IndexEntry {
    pub id: String,
    pub timestamp: String,
    pub secs: i64,
    pub nanos: u32,
    pub state: JsonValue,
}

/// The instant of an entry, ordered lexicographically.
pub open spec fn instant(e: IndexEntry) -> (int, int) {
    (e.secs as int, e.nanos as int)
}

/// Instant order.
pub open spec fn inst_le(a: (int, int), b: (int, int)) -> bool {
    a.0 < b.0 || (a.0 == b.0 && a.1 <= b.1)
}

/// Strict instant order.
pub open spec fn inst_lt(a: (int, int), b: (int, int)) -> bool {
    inst_le(a, b) && a != b
}

/// Every entry's timestamp text parses back to its recorded instant.
pub open spec fn entries_wf(s: Seq<IndexEntry>) -> bool {
    forall|i: int|
        0 <= i < s.len() ==> ts_parse((#[trigger] s[i]).timestamp@) == Some(
            (s[i].secs, s[i].nanos),
        )
}

/// The latest entry at or before `t`; among equal instants, the later entry.
pub open spec fn sel_as_of(s: Seq<IndexEntry>, t: (int, int)) -> Option<int>
    decreases s.len(),
{
    if s.len() == 0 {
        None
    } else {
        let rest = sel_as_of(s.drop_last(), t);
        let last = instant(s.last());
        if inst_le(last, t) && (match rest {
            None => true,
            Some(bi) => inst_le(instant(s[bi]), last),
        }) {
            Some(s.len() - 1)
        } else {
            rest
        }
    }
}

/// The latest entry strictly before `t`; among equal instants, the later
/// entry.
pub open spec fn sel_before(s: Seq<IndexEntry>, t: (int, int)) -> Option<int>
    decreases s.len(),
{
    if s.len() == 0 {
        None
    } else {
        let rest = sel_before(s.drop_last(), t);
        let last = instant(s.last());
        if inst_lt(last, t) && (match rest {
            None => true,
            Some(bi) => inst_le(instant(s[bi]), last),
        }) {
            Some(s.len() - 1)
        } else {
            rest
        }
    }
}

/// The earliest entry strictly after `t`; among equal instants, the earlier
/// entry.
pub open spec fn sel_after(s: Seq<IndexEntry>, t: (int, int)) -> Option<int>
    decreases s.len(),
{
    if s.len() == 0 {
        None
    } else {
        let rest = sel_after(s.drop_last(), t);
        let last = instant(s.last());
        if inst_lt(t, last) && (match rest {
            None => true,
            Some(bi) => inst_lt(last, instant(s[bi])),
        }) {
            Some(s.len() - 1)
        } else {
            rest
        }
    }
}

/// The entry with the greatest instant; among equal instants, the later
/// entry.
pub open spec fn sel_latest(s: Seq<IndexEntry>) -> Option<int>
    decreases s.len(),
{
    if s.len() == 0 {
        None
    } else {
        let rest = sel_latest(s.drop_last());
        let last = instant(s.last());
        if match rest {
            None => true,
            Some(bi) => inst_le(instant(s[bi]), last),
        } {
            Some(s.len() - 1)
        } else {
            rest
        }
    }
}

/// The first entry with the given id.
pub open spec fn sel_by_id(s: Seq<IndexEntry>, id: Seq<char>) -> Option<int>
    decreases s.len(),
{
    if s.len() == 0 {
        None
    } else if s[0].id@ == id {
        Some(0int)
    } else {
        match sel_by_id(s.skip(1), id) {
            Some(i) => Some(i + 1),
            None => None,
        }
    }
}

/// What `sel_as_of` picks is sound and complete: an entry at or before `t`
/// that no entry at or before `t` exceeds, and nothing only when no entry is
/// at or before `t`.
pub proof fn lemma_as_of_law(s: Seq<IndexEntry>, t: (int, int))
    ensures
        match sel_as_of(s, t) {
            Some(bi) => 0 <= bi < s.len() && inst_le(instant(s[bi]), t) && forall|k: int|
                0 <= k < s.len() && inst_le(instant(#[trigger] s[k]), t) ==> inst_le(
                    instant(s[k]),
                    instant(s[bi]),
                ),
            None => forall|k: int| 0 <= k < s.len() ==> !inst_le(instant(#[trigger] s[k]), t),
        },
    decreases s.len(),
{
    if s.len() > 0 {
        let p = s.drop_last();
        lemma_as_of_law(p, t);
        assert(forall|k: int| 0 <= k < p.len() ==> p[k] == s[k]);
    }
}

/// What `sel_before` picks is the latest entry strictly before `t`.
pub proof fn lemma_before_law(s: Seq<IndexEntry>, t: (int, int))
    ensures
        match sel_before(s, t) {
            Some(bi) => 0 <= bi < s.len() && inst_lt(instant(s[bi]), t) && forall|k: int|
                0 <= k < s.len() && inst_lt(instant(#[trigger] s[k]), t) ==> inst_le(
                    instant(s[k]),
                    instant(s[bi]),
                ),
            None => forall|k: int| 0 <= k < s.len() ==> !inst_lt(instant(#[trigger] s[k]), t),
        },
    decreases s.len(),
{
    if s.len() > 0 {
        let p = s.drop_last();
        lemma_before_law(p, t);
        assert(forall|k: int| 0 <= k < p.len() ==> p[k] == s[k]);
    }
}

/// What `sel_after` picks is the earliest entry strictly after `t`.
pub proof fn lemma_after_law(s: Seq<IndexEntry>, t: (int, int))
    ensures
        match sel_after(s, t) {
            Some(bi) => 0 <= bi < s.len() && inst_lt(t, instant(s[bi])) && forall|k: int|
                0 <= k < s.len() && inst_lt(t, instant(#[trigger] s[k])) ==> inst_le(
                    instant(s[bi]),
                    instant(s[k]),
                ),
            None => forall|k: int| 0 <= k < s.len() ==> !inst_lt(t, instant(#[trigger] s[k])),
        },
    decreases s.len(),
{
    if s.len() > 0 {
        let p = s.drop_last();
        lemma_after_law(p, t);
        assert(forall|k: int| 0 <= k < p.len() ==> p[k] == s[k]);
    }
}

/// What `sel_latest` picks is an entry no other entry exceeds.
pub proof fn lemma_latest_law(s: Seq<IndexEntry>)
    ensures
        match sel_latest(s) {
            Some(bi) => 0 <= bi < s.len() && forall|k: int|
                0 <= k < s.len() ==> inst_le(instant(#[trigger] s[k]), instant(s[bi])),
            None => s.len() == 0,
        },
    decreases s.len(),
{
    if s.len() > 0 {
        let p = s.drop_last();
        lemma_latest_law(p);
        assert(forall|k: int| 0 <= k < p.len() ==> p[k] == s[k]);
    }
}

/// The recorded shape of one entry: its id, its timestamp text, and the
/// state at that point.
pub struct EntrySpec {
    pub id: Seq<char>,
    pub ts: Seq<char>,
    pub state: Json,
}

/// The recorded shapes of the entries, in order.
pub open spec fn entry_specs(s: Seq<IndexEntry>) -> Seq<EntrySpec> {
    Seq::new(
        s.len(),
        |k: int| EntrySpec { id: s[k].id@, ts: s[k].timestamp@, state: s[k].state@ },
    )
}

/// The newest entry's state rewritten to the running state; the initial
/// entry alone is never rewritten.
pub open spec fn spec_refresh(entries: Seq<EntrySpec>, st: Json) -> Seq<EntrySpec> {
    if entries.len() > 1 {
        entries.update(entries.len() - 1, EntrySpec { state: st, ..entries.last() })
    } else {
        entries
    }
}

/// One line folded into the index build: the running state and the recorded
/// entries after it. A decoded `observe` records an entry holding the state
/// so far; a mutation is applied to the state — left alone when it fails —
/// and the newest entry's state follows it; a decoded `snapshot` replaces
/// the state and records an entry; every other line changes nothing.
pub open spec fn spec_index_line(st: Json, entries: Seq<EntrySpec>, line: Seq<char>) -> (
    Json,
    Seq<EntrySpec>,
) {
    if trimmed(line).len() == 0 || trimmed(line)[0] == '#' {
        (st, entries)
    } else {
        match json_parse(line) {
            Some(v) => match v {
                JsonValue::Arr(items) => match spec_decode(shapes_of(items@)) {
                    DecodeOutcome::Parsed(ev) => match ev {
                        Ev::Observe { id, ts, .. } => if ts_parse(ts) is Some {
                            (st, entries.push(EntrySpec { id, ts, state: st }))
                        } else {
                            (st, entries)
                        },
                        Ev::Add { path, value, .. } => {
                            let st2 = match crate::reader::spec_apply_set(st, path, value) {
                                Ok(w) => w,
                                Err(_) => st,
                            };
                            (st2, spec_refresh(entries, st2))
                        },
                        Ev::Change { path, value, .. } => {
                            let st2 = match crate::reader::spec_apply_set(st, path, value) {
                                Ok(w) => w,
                                Err(_) => st,
                            };
                            (st2, spec_refresh(entries, st2))
                        },
                        Ev::Remove { path, .. } => {
                            let st2 = match crate::reader::spec_apply_remove(st, path) {
                                Ok(w) => w,
                                Err(_) => st,
                            };
                            (st2, spec_refresh(entries, st2))
                        },
                        Ev::Move { path, moves, .. } => {
                            let st2 = match crate::reader::spec_apply_move(st, path, moves) {
                                Ok(w) => w,
                                Err(_) => st,
                            };
                            (st2, spec_refresh(entries, st2))
                        },
                        Ev::Snapshot { id, ts, object } => if ts_parse(ts) is Some {
                            (object, entries.push(EntrySpec { id, ts, state: object }))
                        } else {
                            (object, entries)
                        },
                    },
                    DecodeOutcome::Refused(_, _) => (st, entries),
                },
                _ => (st, entries),
            },
            None => (st, entries),
        }
    }
}

/// The event lines from position `i` on, folded into the index build.
pub open spec fn spec_index_fold(
    lines: Seq<Seq<char>>,
    i: int,
    st: Json,
    entries: Seq<EntrySpec>,
) -> (Json, Seq<EntrySpec>)
    decreases lines.len() - i,
{
    if i < 1 || i >= lines.len() {
        (st, entries)
    } else {
        let step = spec_index_line(st, entries, lines[i]);
        spec_index_fold(lines, i + 1, step.0, step.1)
    }
}

/// One way to point into the index; exactly one is given per query.
#[derive(Debug)]
pub enum AccessMethod {
    /// By observation id, exactly.
    Id(String),
    /// By position in file order, the initial state being position zero.
    Index(usize),
    /// The latest observation at or before the moment.
    AsOf(String),
    /// The latest observation strictly before the moment.
    RightBefore(String),
    /// The earliest observation strictly after the moment.
    After(String),
    /// The observation with the greatest timestamp.
    Latest,
}

/// Decides the access method from the query's optional selectors: at most
/// one may be given, and the one given is the method decided; none means the
/// latest; a time selector with an unreadable timestamp is refused.
pub fn resolve_access_method(
    id: Option<String>,
    index: Option<usize>,
    as_of: Option<String>,
    before: Option<String>,
    after: Option<String>,
    latest: bool,
) -> (r: Result<AccessMethod, Diagnostic>)
    ensures
        ({
            let given = (if id is Some {
                1int
            } else {
                0int
            }) + (if index is Some {
                1int
            } else {
                0int
            }) + (if as_of is Some {
                1int
            } else {
                0int
            }) + (if before is Some {
                1int
            } else {
                0int
            }) + (if after is Some {
                1int
            } else {
                0int
            }) + (if latest {
                1int
            } else {
                0int
            });
            &&& (given > 1 ==> (r matches Err(d) && d.level == DiagnosticLevel::Fatal && d.code
                == DiagnosticCode::WrongFieldCount))
            &&& (given == 0 ==> r == Ok::<AccessMethod, Diagnostic>(AccessMethod::Latest))
            &&& (r matches Err(d) ==> d.level == DiagnosticLevel::Fatal && (d.code
                == DiagnosticCode::WrongFieldCount || d.code == DiagnosticCode::InvalidTimestamp))
            &&& (given == 1 && ((as_of matches Some(t) && ts_parse(t@) is None) || (before
                matches Some(t) && ts_parse(t@) is None) || (after matches Some(t) && ts_parse(t@)
                is None)) ==> (r matches Err(d) && d.code == DiagnosticCode::InvalidTimestamp))
            &&& (given == 1 ==> (id matches Some(s) ==> r == Ok::<AccessMethod, Diagnostic>(
                AccessMethod::Id(s),
            )))
            &&& (given == 1 ==> (index matches Some(n) ==> r == Ok::<AccessMethod, Diagnostic>(
                AccessMethod::Index(n),
            )))
            &&& (given == 1 ==> (as_of matches Some(t) ==> (ts_parse(t@) is Some ==> r == Ok::<
                AccessMethod,
                Diagnostic,
            >(AccessMethod::AsOf(t)))))
            &&& (given == 1 ==> (before matches Some(t) ==> (ts_parse(t@) is Some ==> r == Ok::<
                AccessMethod,
                Diagnostic,
            >(AccessMethod::RightBefore(t)))))
            &&& (given == 1 ==> (after matches Some(t) ==> (ts_parse(t@) is Some ==> r == Ok::<
                AccessMethod,
                Diagnostic,
            >(AccessMethod::After(t)))))
            &&& (given == 1 && latest ==> r == Ok::<AccessMethod, Diagnostic>(
                AccessMethod::Latest,
            ))
        }),
{
    let mut given: usize = 0;
    if id.is_some() {
        given = given + 1;
    }
    if index.is_some() {
        given = given + 1;
    }
    if as_of.is_some() {
        given = given + 1;
    }
    if before.is_some() {
        given = given + 1;
    }
    if after.is_some() {
        given = given + 1;
    }
    if latest {
        given = given + 1;
    }
    if given > 1 {
        return Err(
            Diagnostic::new(
                DiagnosticLevel::Fatal,
                DiagnosticCode::WrongFieldCount,
                "give at most one way of picking an observation".to_owned(),
            ),
        );
    }
    match id {
        Some(s) => {
            return Ok(AccessMethod::Id(s));
        },
        None => {},
    }
    match index {
        Some(n) => {
            return Ok(AccessMethod::Index(n));
        },
        None => {},
    }
    match as_of {
        Some(t) => {
            if parse_timestamp(t.as_str()).is_none() {
                return Err(
                    Diagnostic::new(
                        DiagnosticLevel::Fatal,
                        DiagnosticCode::InvalidTimestamp,
                        "the moment must be an RFC-3339 timestamp".to_owned(),
                    ),
                );
            }
            return Ok(AccessMethod::AsOf(t));
        },
        None => {},
    }
    match before {
        Some(t) => {
            if parse_timestamp(t.as_str()).is_none() {
                return Err(
                    Diagnostic::new(
                        DiagnosticLevel::Fatal,
                        DiagnosticCode::InvalidTimestamp,
                        "the moment must be an RFC-3339 timestamp".to_owned(),
                    ),
                );
            }
            return Ok(AccessMethod::RightBefore(t));
        },
        None => {},
    }
    match after {
        Some(t) => {
            if parse_timestamp(t.as_str()).is_none() {
                return Err(
                    Diagnostic::new(
                        DiagnosticLevel::Fatal,
                        DiagnosticCode::InvalidTimestamp,
                        "the moment must be an RFC-3339 timestamp".to_owned(),
                    ),
                );
            }
            return Ok(AccessMethod::After(t));
        },
        None => {},
    }
    Ok(AccessMethod::Latest)
}

/// The recorded points of one archive, in file order.
pub struct ObservationIndex {
    entries: Vec<IndexEntry>,
}

impl View for ObservationIndex {
    type V = Seq<IndexEntry>;

    closed spec fn view(&self) -> Seq<IndexEntry> {
        self.entries@
    }
}

impl ObservationIndex {
    /// Builds the index by replaying the archive's event lines over the
    /// header's initial state, exactly as [`spec_index_fold`] says: the
    /// first entry is the initial state itself, under the id `initial` at
    /// the header's creation time; every decoded `observe` or `snapshot`
    /// line adds an entry, and mutations keep the newest entry's state in
    /// step with the replay. Lines that do not decode are passed over here —
    /// the reader is the place that diagnoses them.
    pub fn build(header: &Header, lines: &Vec<String>) -> (r: ObservationIndex)
        requires
            header.initial.wf(),
            lines@.len() < usize::MAX,
        ensures
            entries_wf(r@),
            ts_parse(header.created@) is Some ==> {
                &&& r@.len() >= 1
                &&& r@[0].id@ == "initial"@
                &&& r@[0].timestamp@ == header.created@
                &&& r@[0].state@ == header@.initial
                &&& entry_specs(r@) == spec_index_fold(
                    crate::pointer::str_views(lines@),
                    1,
                    header@.initial,
                    seq![
                        EntrySpec {
                            id: "initial"@,
                            ts: header.created@,
                            state: header@.initial,
                        },
                    ],
                ).1
            },
            ts_parse(header.created@) is None ==> r@.len() == 0,
    {
        let (secs0, nanos0) = match parse_timestamp(header.created.as_str()) {
            Some(p) => p,
            None => {
                let entries: Vec<IndexEntry> = Vec::new();
                return ObservationIndex { entries };
            },
        };
        let mut entries: Vec<IndexEntry> = Vec::new();
        entries.push(
            IndexEntry {
                id: "initial".to_owned(),
                timestamp: header.created.clone(),
                secs: secs0,
                nanos: nanos0,
                state: header.initial.deep_clone(),
            },
        );
        let mut state = header.initial.deep_clone();
        let ghost lvs = crate::pointer::str_views(lines@);
        let ghost start = seq![
            EntrySpec { id: "initial"@, ts: header.created@, state: header@.initial },
        ];
        let ghost fin = spec_index_fold(lvs, 1, header@.initial, start);
        let mut i: usize = 1;
        proof {
            assert(entry_specs(entries@) =~= start);
        }
        while i < lines.len()
            invariant
                1 <= i,
                i <= lines@.len() || i == 1,
                lines@.len() < usize::MAX,
                lvs == crate::pointer::str_views(lines@),
                lvs.len() == lines@.len(),
                fin == spec_index_fold(lvs, 1, header@.initial, start),
                entries_wf(entries@),
                entries@.len() >= 1,
                entries@[0].id@ == "initial"@,
                entries@[0].timestamp@ == header.created@,
                entries@[0].state@ == header@.initial,
                fin == spec_index_fold(lvs, i as int, state@, entry_specs(entries@)),
                json_wf(state@),
            decreases lines@.len() - i,
        {
            let line = &lines[i];
            let ghost pre_entries = entries@;
            let ghost pre_specs = entry_specs(entries@);
            let ghost pre_state = state@;
            proof {
                assert(lvs[i as int] == line@);
            }
            let t = trim_str(line.as_str());
            let tc = crate::outside::str_chars(t);
            if tc.len() == 0 || tc[0] == '#' {
                i = i + 1;
                continue ;
            }
            let parsed = parse_json_text(line.as_str());
            let v: JsonValue;
            match parsed {
                Some(x) => {
                    v = x;
                },
                None => {
                    i = i + 1;
                    continue ;
                },
            }
            let items: Vec<JsonValue>;
            match v {
                JsonValue::Arr(xs) => {
                    items = xs;
                },
                _ => {
                    i = i + 1;
                    continue ;
                },
            }
            let dec = decode_event(&items);
            match dec.event {
                Some(event) => {
                    let ghost evv = event@;
                    match event {
                        Event::Observe { observation_id, timestamp, change_count } => {
                            proof {
                                assert(evv == Ev::Observe {
                                    id: observation_id@,
                                    ts: timestamp@,
                                    count: change_count as int,
                                });
                            }
                            match parse_timestamp(timestamp.as_str()) {
                                Some((secs, nanos)) => {
                                    let ghost idv = observation_id@;
                                    let ghost tsv = timestamp@;
                                    entries.push(
                                        IndexEntry {
                                            id: observation_id,
                                            timestamp,
                                            secs,
                                            nanos,
                                            state: state.deep_clone(),
                                        },
                                    );
                                    proof {
                                        assert forall|k: int|
                                            0 <= k < entries@.len() implies ts_parse(
                                            (#[trigger] entries@[k]).timestamp@,
                                        ) == Some((entries@[k].secs, entries@[k].nanos)) by {
                                            if k < pre_entries.len() {
                                                assert(entries@[k] == pre_entries[k]);
                                            }
                                        }
                                        assert(entry_specs(entries@) =~= pre_specs.push(
                                            EntrySpec { id: idv, ts: tsv, state: pre_state },
                                        ));
                                    }
                                },
                                None => {},
                            }
                        },
                        Event::Add { path, value, observation_id } => {
                            proof {
                                assert(evv == Ev::Add {
                                    path: path@,
                                    value: value@,
                                    id: observation_id@,
                                });
                                crate::pointer::lemma_spec_set_wf(
                                    state@,
                                    crate::pointer::parse_tokens(path@),
                                    0,
                                    value@,
                                );
                            }
                            let _ = crate::reader::apply_add(&mut state, path.as_str(), value);
                            Self::refresh_last(&mut entries, &state);
                        },
                        Event::Change { path, new_value, observation_id } => {
                            proof {
                                assert(evv == Ev::Change {
                                    path: path@,
                                    value: new_value@,
                                    id: observation_id@,
                                });
                                crate::pointer::lemma_spec_set_wf(
                                    state@,
                                    crate::pointer::parse_tokens(path@),
                                    0,
                                    new_value@,
                                );
                            }
                            let _ = crate::reader::apply_change(
                                &mut state,
                                path.as_str(),
                                new_value,
                            );
                            Self::refresh_last(&mut entries, &state);
                        },
                        Event::Remove { path, observation_id } => {
                            proof {
                                assert(evv == Ev::Remove { path: path@, id: observation_id@ });
                                crate::pointer::lemma_spec_remove_wf(
                                    state@,
                                    crate::pointer::parse_tokens(path@),
                                    0,
                                );
                            }
                            let _ = crate::reader::apply_remove(&mut state, path.as_str());
                            Self::refresh_last(&mut entries, &state);
                        },
                        Event::Move { path, moves, observation_id } => {
                            proof {
                                assert(evv == Ev::Move {
                                    path: path@,
                                    moves: crate::events::move_views(moves@),
                                    id: observation_id@,
                                });
                                let toks = crate::pointer::parse_tokens(path@);
                                crate::pointer::lemma_spec_get_wf(state@, toks, 0);
                                match crate::pointer::spec_get(state@, toks, 0) {
                                    Ok(j) => match j {
                                        Json::Arr(arr_items) => {
                                            crate::reader::lemma_move_seq_wf(
                                                arr_items,
                                                crate::events::move_views(moves@),
                                            );
                                            match crate::reader::spec_move_seq(
                                                arr_items,
                                                crate::events::move_views(moves@),
                                            ) {
                                                Ok(new_items) => {
                                                    crate::pointer::lemma_spec_set_wf(
                                                        state@,
                                                        toks,
                                                        0,
                                                        Json::Arr(new_items),
                                                    );
                                                },
                                                Err(_) => {},
                                            }
                                        },
                                        _ => {},
                                    },
                                    Err(_) => {},
                                }
                            }
                            let _ = crate::reader::apply_move(&mut state, path.as_str(), moves);
                            Self::refresh_last(&mut entries, &state);
                        },
                        Event::Snapshot { observation_id, timestamp, object } => {
                            proof {
                                assert(evv == Ev::Snapshot {
                                    id: observation_id@,
                                    ts: timestamp@,
                                    object: object@,
                                });
                            }
                            state = object;
                            match parse_timestamp(timestamp.as_str()) {
                                Some((secs, nanos)) => {
                                    let ghost idv = observation_id@;
                                    let ghost tsv = timestamp@;
                                    entries.push(
                                        IndexEntry {
                                            id: observation_id,
                                            timestamp,
                                            secs,
                                            nanos,
                                            state: state.deep_clone(),
                                        },
                                    );
                                    proof {
                                        assert forall|k: int|
                                            0 <= k < entries@.len() implies ts_parse(
                                            (#[trigger] entries@[k]).timestamp@,
                                        ) == Some((entries@[k].secs, entries@[k].nanos)) by {
                                            if k < pre_entries.len() {
                                                assert(entries@[k] == pre_entries[k]);
                                            }
                                        }
                                        assert(entry_specs(entries@) =~= pre_specs.push(
                                            EntrySpec { id: idv, ts: tsv, state: state@ },
                                        ));
                                    }
                                },
                                None => {},
                            }
                        },
                    }
                },
                None => {},
            }
            proof {
                assert(spec_index_fold(lvs, i as int + 1, state@, entry_specs(entries@)) == fin);
            }
            i = i + 1;
        }
        proof {
            assert(spec_index_fold(lvs, i as int, state@, entry_specs(entries@)) == (
                state@,
                entry_specs(entries@),
            ));
            assert(entry_specs(entries@) == fin.1);
        }
        ObservationIndex { entries }
    }

    /// Rewrites the newest entry's state to the running state, unless only
    /// the initial entry exists.
    fn refresh_last(entries: &mut Vec<IndexEntry>, state: &JsonValue)
        requires
            entries_wf(old(entries)@),
            old(entries)@.len() >= 1,
        ensures
            entries_wf(final(entries)@),
            final(entries)@.len() == old(entries)@.len(),
            final(entries)@[0] == old(entries)@[0],
            entry_specs(final(entries)@) == spec_refresh(entry_specs(old(entries)@), state@),
    {
        let n = entries.len();
        if n > 1 {
            let last = entries.remove(n - 1);
            entries.push(
                IndexEntry {
                    id: last.id,
                    timestamp: last.timestamp,
                    secs: last.secs,
                    nanos: last.nanos,
                    state: state.deep_clone(),
                },
            );
            proof {
                assert forall|k: int| 0 <= k < entries@.len() implies ts_parse(
                    (#[trigger] entries@[k]).timestamp@,
                ) == Some((entries@[k].secs, entries@[k].nanos)) by {
                    if k < entries@.len() - 1 {
                        assert(entries@[k] == old(entries)@[k]);
                    } else {
                        assert(entries@[k].timestamp == old(entries)@[n - 1].timestamp);
                    }
                }
                assert(entry_specs(entries@) =~= spec_refresh(
                    entry_specs(old(entries)@),
                    state@,
                ));
            }
        } else {
            proof {
                assert(entry_specs(entries@) =~= spec_refresh(
                    entry_specs(old(entries)@),
                    state@,
                ));
            }
        }
    }


    /// How many points are recorded.
    pub fn len(&self) -> (r: usize)
        ensures
            r == self@.len(),
    {
        self.entries.len()
    }

    /// The entry at a position, the initial state being position zero.
    pub fn entry_at(&self, i: usize) -> (r: Option<&IndexEntry>)
        ensures
            match r {
                Some(e) => i < self@.len() && *e == self@[i as int],
                None => i >= self@.len(),
            },
    {
        if i < self.entries.len() {
            Some(&self.entries[i])
        } else {
            None
        }
    }

    /// The entry an access method names, or why there is none: a missing id,
    /// a position out of range, an unreadable timestamp, or no observation
    /// on the queried side of the moment.
    pub fn select(&self, method: &AccessMethod) -> (r: Result<&IndexEntry, Diagnostic>)
        requires
            entries_wf(self@),
        ensures
            match method {
                AccessMethod::Id(id) => match sel_by_id(self@, id@) {
                    Some(bi) => r matches Ok(e) && *e == self@[bi],
                    None => r matches Err(d) && d.level == DiagnosticLevel::Fatal && d.code
                        == DiagnosticCode::NonExistentObservationId,
                },
                AccessMethod::Index(n) => if (n as int) < self@.len() {
                    r matches Ok(e) && *e == self@[*n as int]
                } else {
                    r matches Err(d) && d.level == DiagnosticLevel::Fatal && d.code
                        == DiagnosticCode::ArrayIndexOutOfBounds
                },
                AccessMethod::AsOf(t) => match ts_parse(t@) {
                    Some(ti) => match sel_as_of(self@, (ti.0 as int, ti.1 as int)) {
                        Some(bi) => r matches Ok(e) && *e == self@[bi],
                        None => r matches Err(d) && d.level == DiagnosticLevel::Fatal && d.code
                            == DiagnosticCode::PathNotFound,
                    },
                    None => r matches Err(d) && d.level == DiagnosticLevel::Fatal && d.code
                        == DiagnosticCode::InvalidTimestamp,
                },
                AccessMethod::RightBefore(t) => match ts_parse(t@) {
                    Some(ti) => match sel_before(self@, (ti.0 as int, ti.1 as int)) {
                        Some(bi) => r matches Ok(e) && *e == self@[bi],
                        None => r matches Err(d) && d.level == DiagnosticLevel::Fatal && d.code
                            == DiagnosticCode::PathNotFound,
                    },
                    None => r matches Err(d) && d.level == DiagnosticLevel::Fatal && d.code
                        == DiagnosticCode::InvalidTimestamp,
                },
                AccessMethod::After(t) => match ts_parse(t@) {
                    Some(ti) => match sel_after(self@, (ti.0 as int, ti.1 as int)) {
                        Some(bi) => r matches Ok(e) && *e == self@[bi],
                        None => r matches Err(d) && d.level == DiagnosticLevel::Fatal && d.code
                            == DiagnosticCode::PathNotFound,
                    },
                    None => r matches Err(d) && d.level == DiagnosticLevel::Fatal && d.code
                        == DiagnosticCode::InvalidTimestamp,
                },
                AccessMethod::Latest => match sel_latest(self@) {
                    Some(bi) => r matches Ok(e) && *e == self@[bi],
                    None => r matches Err(d) && d.level == DiagnosticLevel::Fatal && d.code
                        == DiagnosticCode::EmptyFile,
                },
            },
    {
        match method {
            AccessMethod::Id(id) => {
                let mut i: usize = 0;
                while i < self.entries.len()
                    invariant
                        0 <= i <= self@.len(),
                        self@ == self.entries@,
                        *method matches AccessMethod::Id(mid) && mid == *id,
                        forall|k: int| 0 <= k < i ==> (#[trigger] self@[k]).id@ != id@,
                    decreases self@.len() - i,
                {
                    if self.entries[i].id == *id {
                        proof {
                            lemma_by_id_law(self@, id@);
                            match sel_by_id(self@, id@) {
                                Some(bi) => {
                                    if bi < i {
                                        assert(self@[bi].id@ != id@);
                                    }
                                    if bi > i {
                                        assert(self@[i as int].id@ != id@);
                                    }
                                },
                                None => {
                                    assert(self@[i as int].id@ != id@);
                                },
                            }
                            assert(sel_by_id(self@, id@) == Some(i as int));
                        }
                        return Ok(&self.entries[i]);
                    }
                    i = i + 1;
                }
                proof {
                    lemma_by_id_law(self@, id@);
                    match sel_by_id(self@, id@) {
                        Some(bi) => {
                            assert(self@[bi].id@ != id@);
                        },
                        None => {},
                    }
                }
                Err(
                    Diagnostic::new(
                        DiagnosticLevel::Fatal,
                        DiagnosticCode::NonExistentObservationId,
                        "no observation with this id is in the archive".to_owned(),
                    ),
                )
            },
            AccessMethod::Index(n) => {
                if *n < self.entries.len() {
                    Ok(&self.entries[*n])
                } else {
                    Err(
                        Diagnostic::new(
                            DiagnosticLevel::Fatal,
                            DiagnosticCode::ArrayIndexOutOfBounds,
                            "the archive has fewer observations than that".to_owned(),
                        ),
                    )
                }
            },
            AccessMethod::AsOf(t) => {
                match parse_timestamp(t.as_str()) {
                    None => Err(
                        Diagnostic::new(
                            DiagnosticLevel::Fatal,
                            DiagnosticCode::InvalidTimestamp,
                            "the moment must be an RFC-3339 timestamp".to_owned(),
                        ),
                    ),
                    Some((ts_s, ts_n)) => {
                        match self.scan_as_of(ts_s, ts_n) {
                            Some(bi) => {
                                proof {
                                    lemma_as_of_law(self@, (ts_s as int, ts_n as int));
                                }
                                Ok(&self.entries[bi])
                            },
                            None => Err(
                                Diagnostic::new(
                                    DiagnosticLevel::Fatal,
                                    DiagnosticCode::PathNotFound,
                                    "no observation lies at or before that moment".to_owned(),
                                ),
                            ),
                        }
                    },
                }
            },
            AccessMethod::RightBefore(t) => {
                match parse_timestamp(t.as_str()) {
                    None => Err(
                        Diagnostic::new(
                            DiagnosticLevel::Fatal,
                            DiagnosticCode::InvalidTimestamp,
                            "the moment must be an RFC-3339 timestamp".to_owned(),
                        ),
                    ),
                    Some((ts_s, ts_n)) => {
                        match self.scan_before(ts_s, ts_n) {
                            Some(bi) => {
                                proof {
                                    lemma_before_law(self@, (ts_s as int, ts_n as int));
                                }
                                Ok(&self.entries[bi])
                            },
                            None => Err(
                                Diagnostic::new(
                                    DiagnosticLevel::Fatal,
                                    DiagnosticCode::PathNotFound,
                                    "no observation lies before that moment".to_owned(),
                                ),
                            ),
                        }
                    },
                }
            },
            AccessMethod::After(t) => {
                match parse_timestamp(t.as_str()) {
                    None => Err(
                        Diagnostic::new(
                            DiagnosticLevel::Fatal,
                            DiagnosticCode::InvalidTimestamp,
                            "the moment must be an RFC-3339 timestamp".to_owned(),
                        ),
                    ),
                    Some((ts_s, ts_n)) => {
                        match self.scan_after(ts_s, ts_n) {
                            Some(bi) => {
                                proof {
                                    lemma_after_law(self@, (ts_s as int, ts_n as int));
                                }
                                Ok(&self.entries[bi])
                            },
                            None => Err(
                                Diagnostic::new(
                                    DiagnosticLevel::Fatal,
                                    DiagnosticCode::PathNotFound,
                                    "no observation lies after that moment".to_owned(),
                                ),
                            ),
                        }
                    },
                }
            },
            AccessMethod::Latest => {
                match self.scan_latest() {
                    Some(bi) => {
                        proof {
                            lemma_latest_law(self@);
                        }
                        Ok(&self.entries[bi])
                    },
                    None => Err(
                        Diagnostic::new(
                            DiagnosticLevel::Fatal,
                            DiagnosticCode::EmptyFile,
                            "the index holds no observations".to_owned(),
                        ),
                    ),
                }
            },
        }
    }

    /// The position `sel_as_of` names, by a forward scan keeping the best.
    fn scan_as_of(&self, ts_s: i64, ts_n: u32) -> (r: Option<usize>)
        ensures
            match r {
                Some(bi) => sel_as_of(self@, (ts_s as int, ts_n as int)) == Some(bi as int),
                None => sel_as_of(self@, (ts_s as int, ts_n as int)) is None,
            },
    {
        let ghost t = (ts_s as int, ts_n as int);
        let mut best: Option<usize> = None;
        let mut i: usize = 0;
        proof {
            assert(self@.take(0) =~= Seq::<IndexEntry>::empty());
        }
        while i < self.entries.len()
            invariant
                0 <= i <= self@.len(),
                self@ == self.entries@,
                t == (ts_s as int, ts_n as int),
                match best {
                    Some(b) => b < i && sel_as_of(self@.take(i as int), t) == Some(b as int),
                    None => sel_as_of(self@.take(i as int), t) is None,
                },
            decreases self@.len() - i,
        {
            let e = &self.entries[i];
            let le = e.secs < ts_s || (e.secs == ts_s && e.nanos <= ts_n);
            let take_it = le && (match best {
                Some(b) => {
                    let be = &self.entries[b];
                    be.secs < e.secs || (be.secs == e.secs && be.nanos <= e.nanos)
                },
                None => true,
            });
            proof {
                let p1 = self@.take(i as int + 1);
                assert(p1.drop_last() =~= self@.take(i as int));
                assert(p1.last() == self@[i as int]);
            }
            if take_it {
                best = Some(i);
            }
            i = i + 1;
        }
        proof {
            assert(self@.take(i as int) =~= self@);
        }
        best
    }

    /// The position `sel_before` names.
    fn scan_before(&self, ts_s: i64, ts_n: u32) -> (r: Option<usize>)
        ensures
            match r {
                Some(bi) => sel_before(self@, (ts_s as int, ts_n as int)) == Some(bi as int),
                None => sel_before(self@, (ts_s as int, ts_n as int)) is None,
            },
    {
        let ghost t = (ts_s as int, ts_n as int);
        let mut best: Option<usize> = None;
        let mut i: usize = 0;
        proof {
            assert(self@.take(0) =~= Seq::<IndexEntry>::empty());
        }
        while i < self.entries.len()
            invariant
                0 <= i <= self@.len(),
                self@ == self.entries@,
                t == (ts_s as int, ts_n as int),
                match best {
                    Some(b) => b < i && sel_before(self@.take(i as int), t) == Some(b as int),
                    None => sel_before(self@.take(i as int), t) is None,
                },
            decreases self@.len() - i,
        {
            let e = &self.entries[i];
            let lt = e.secs < ts_s || (e.secs == ts_s && e.nanos < ts_n);
            let take_it = lt && (match best {
                Some(b) => {
                    let be = &self.entries[b];
                    be.secs < e.secs || (be.secs == e.secs && be.nanos <= e.nanos)
                },
                None => true,
            });
            proof {
                let p1 = self@.take(i as int + 1);
                assert(p1.drop_last() =~= self@.take(i as int));
                assert(p1.last() == self@[i as int]);
            }
            if take_it {
                best = Some(i);
            }
            i = i + 1;
        }
        proof {
            assert(self@.take(i as int) =~= self@);
        }
        best
    }

    /// The position `sel_after` names.
    fn scan_after(&self, ts_s: i64, ts_n: u32) -> (r: Option<usize>)
        ensures
            match r {
                Some(bi) => sel_after(self@, (ts_s as int, ts_n as int)) == Some(bi as int),
                None => sel_after(self@, (ts_s as int, ts_n as int)) is None,
            },
    {
        let ghost t = (ts_s as int, ts_n as int);
        let mut best: Option<usize> = None;
        let mut i: usize = 0;
        proof {
            assert(self@.take(0) =~= Seq::<IndexEntry>::empty());
        }
        while i < self.entries.len()
            invariant
                0 <= i <= self@.len(),
                self@ == self.entries@,
                t == (ts_s as int, ts_n as int),
                match best {
                    Some(b) => b < i && sel_after(self@.take(i as int), t) == Some(b as int),
                    None => sel_after(self@.take(i as int), t) is None,
                },
            decreases self@.len() - i,
        {
            let e = &self.entries[i];
            let gt = ts_s < e.secs || (ts_s == e.secs && ts_n < e.nanos);
            let take_it = gt && (match best {
                Some(b) => {
                    let be = &self.entries[b];
                    e.secs < be.secs || (e.secs == be.secs && e.nanos < be.nanos)
                },
                None => true,
            });
            proof {
                let p1 = self@.take(i as int + 1);
                assert(p1.drop_last() =~= self@.take(i as int));
                assert(p1.last() == self@[i as int]);
            }
            if take_it {
                best = Some(i);
            }
            i = i + 1;
        }
        proof {
            assert(self@.take(i as int) =~= self@);
        }
        best
    }

    /// The position `sel_latest` names.
    fn scan_latest(&self) -> (r: Option<usize>)
        ensures
            match r {
                Some(bi) => sel_latest(self@) == Some(bi as int),
                None => sel_latest(self@) is None,
            },
    {
        let mut best: Option<usize> = None;
        let mut i: usize = 0;
        proof {
            assert(self@.take(0) =~= Seq::<IndexEntry>::empty());
        }
        while i < self.entries.len()
            invariant
                0 <= i <= self@.len(),
                self@ == self.entries@,
                match best {
                    Some(b) => b < i && sel_latest(self@.take(i as int)) == Some(b as int),
                    None => sel_latest(self@.take(i as int)) is None,
                },
            decreases self@.len() - i,
        {
            let e = &self.entries[i];
            let take_it = match best {
                Some(b) => {
                    let be = &self.entries[b];
                    be.secs < e.secs || (be.secs == e.secs && be.nanos <= e.nanos)
                },
                None => true,
            };
            proof {
                let p1 = self@.take(i as int + 1);
                assert(p1.drop_last() =~= self@.take(i as int));
                assert(p1.last() == self@[i as int]);
            }
            if take_it {
                best = Some(i);
            }
            i = i + 1;
        }
        proof {
            assert(self@.take(i as int) =~= self@);
        }
        best
    }
}

/// What `sel_by_id` points at: the first entry with the id, or nothing when
/// no entry has it.
pub proof fn lemma_by_id_law(s: Seq<IndexEntry>, id: Seq<char>)
    ensures
        match sel_by_id(s, id) {
            Some(bi) => 0 <= bi < s.len() && s[bi].id@ == id && forall|k: int|
                0 <= k < bi ==> (#[trigger] s[k]).id@ != id,
            None => forall|k: int| 0 <= k < s.len() ==> (#[trigger] s[k]).id@ != id,
        },
    decreases s.len(),
{
    if s.len() > 0 && s[0].id@ != id {
        let rest = s.skip(1);
        lemma_by_id_law(rest, id);
        match sel_by_id(rest, id) {
            Some(bi) => {
                assert(s[bi + 1] == rest[bi]);
                assert forall|k: int| 0 <= k < bi + 1 implies (#[trigger] s[k]).id@ != id by {
                    if k > 0 {
                        assert(rest[k - 1] == s[k]);
                    }
                }
            },
            None => {
                assert forall|k: int| 0 <= k < s.len() implies (#[trigger] s[k]).id@ != id by {
                    if k > 0 {
                        assert(rest[k - 1] == s[k]);
                    }
                }
            },
        }
    }
}

} // verus!
