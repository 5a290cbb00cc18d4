//! The replay engine: reads an archive line by line, decodes events,
//! applies them to the reconstructed state, accumulates diagnostics, and
//! enforces the cross-line rules — observation back-references, duplicate
//! ids, declared change counts, and snapshot consistency — under one of two
//! strictnesses.

use vstd::prelude::*;
use vstd::string::StringExecFns;

use crate::codec::{decode_event, spec_decode, DecodeOutcome};
use crate::diagnostics::{Diagnostic, DiagnosticCode, DiagnosticCollector, DiagnosticLevel};
use crate::events::{Ev, Event, Hd, Header};
use crate::outside::{json_parse, parse_json_text, trim_str, trimmed, ts_parse};
use crate::pointer::{
    fault_code, obj_lookup, parse_tokens, path_ok, spec_get, spec_remove, spec_set, JsonPointer,
};
use crate::value::{
    json_eq, json_of, json_wf, obj_shapes_of, shapes_of, Json, JsonValue,
};

verus! {

/// The two replay strictnesses: `FullValidation` checks observation
/// back-references and treats missing remove targets and snapshot
/// disagreements as fatal; `AppendSeek` trusts back-references and degrades
/// those findings to warnings.
#[derive(Clone, Copy, Debug, PartialEq, Eq, Structural)]
pub enum ReadMode {
    FullValidation,
    AppendSeek,
}

/// The essentials of one finding: severity, code, the line it points at,
/// and the snippet it carries.
pub open spec fn diag_brief(d: Diagnostic) -> (
    DiagnosticLevel,
    DiagnosticCode,
    Option<int>,
    Option<Seq<char>>,
) {
    (
        d.level,
        d.code,
        match d.line_number {
            Some(n) => Some(n as int),
            None => None,
        },
        match d.code_snippet {
            Some(sn) => Some(sn@),
            None => None,
        },
    )
}

/// The snippet text a finding carries for a line: its number, a separator,
/// and the offending text.
pub open spec fn spec_snippet(n: int, text: Seq<char>) -> Seq<char> {
    crate::codec::dec_digits(n) + " | "@ + text
}

/// Builds the snippet text for a line.
fn line_snippet(n: usize, text: &str) -> (r: String)
    ensures
        r@ == spec_snippet(n as int, text@),
{
    let mut s = crate::codec::usize_string(n);
    s.append(" | ");
    s.append(text);
    s
}

/// What applying an `add` or `change` comes to: parse the path, then write
/// the value at it; the first failure's code otherwise.
pub open spec fn spec_apply_set(st: Json, path: Seq<char>, v: Json) -> Result<
    Json,
    DiagnosticCode,
> {
    if !path_ok(path) {
        Err(DiagnosticCode::InvalidPointerSyntax)
    } else {
        match spec_set(st, parse_tokens(path), 0, v) {
            Ok(w) => Ok(w),
            Err(f) => Err(fault_code(f)),
        }
    }
}

/// What applying a `remove` comes to: parse the path, refuse the root, then
/// delete at it.
pub open spec fn spec_apply_remove(st: Json, path: Seq<char>) -> Result<Json, DiagnosticCode> {
    if !path_ok(path) || parse_tokens(path).len() == 0 {
        Err(DiagnosticCode::InvalidPointerSyntax)
    } else {
        match spec_remove(st, parse_tokens(path), 0) {
            Ok(p) => Ok(p.1),
            Err(f) => Err(fault_code(f)),
        }
    }
}

/// One move pair applied to an array: the element is inserted at `to`
/// first, then removed from where it now sits — from `from + 1` when it
/// moved down, from `from` otherwise. Applying the pairs in order with this
/// adjustment is the wire contract; applying them naively is wrong.
pub open spec fn spec_move_seq(items: Seq<Json>, moves: Seq<(int, int)>) -> Result<
    Seq<Json>,
    (),
>
    decreases moves.len(),
{
    if moves.len() == 0 {
        Ok(items)
    } else {
        let (from, to) = moves[0];
        if from < 0 || from >= items.len() || to < 0 || to > items.len() {
            Err(())
        } else {
            let inserted = items.insert(to, items[from]);
            let removed = inserted.remove(
                if from > to {
                    from + 1
                } else {
                    from
                },
            );
            spec_move_seq(removed, moves.skip(1))
        }
    }
}

/// What applying a `move` comes to: parse the path, fetch the array there,
/// reorder it pair by pair, and write it back.
pub open spec fn spec_apply_move(st: Json, path: Seq<char>, moves: Seq<(int, int)>) -> Result<
    Json,
    DiagnosticCode,
> {
    if !path_ok(path) {
        Err(DiagnosticCode::InvalidPointerSyntax)
    } else {
        let toks = parse_tokens(path);
        match spec_get(st, toks, 0) {
            Err(f) => Err(fault_code(f)),
            Ok(j) => match j {
                Json::Arr(items) => match spec_move_seq(items, moves) {
                    Ok(new_items) => match spec_set(st, toks, 0, Json::Arr(new_items)) {
                        Ok(w) => Ok(w),
                        Err(f) => Err(fault_code(f)),
                    },
                    Err(_) => Err(DiagnosticCode::MoveIndexOutOfBounds),
                },
                _ => Err(DiagnosticCode::MoveOnNonArray),
            },
        }
    }
}

/// Reordering well-formed elements keeps them well-formed.
#[verifier::rlimit(50)]
pub proof fn lemma_move_seq_wf(items: Seq<Json>, moves: Seq<(int, int)>)
    requires
        forall|i: int| 0 <= i < items.len() ==> json_wf(#[trigger] items[i]),
    ensures
        spec_move_seq(items, moves) matches Ok(new_items) ==> forall|i: int|
            0 <= i < new_items.len() ==> json_wf(#[trigger] new_items[i]),
    decreases moves.len(),
{
    if moves.len() > 0 {
        let (from, to) = moves[0];
        if 0 <= from < items.len() && 0 <= to <= items.len() {
            let inserted = items.insert(to, items[from]);
            items.insert_ensures(to, items[from]);
            assert forall|i: int| 0 <= i < inserted.len() implies json_wf(
                #[trigger] inserted[i],
            ) by {
                if i < to {
                    assert(inserted[i] == items[i]);
                } else if i == to {
                    assert(inserted[i] == items[from]);
                } else {
                    assert(inserted[i] == items[i - 1]);
                }
            }
            let at = if from > to {
                from + 1
            } else {
                from
            };
            let removed = inserted.remove(at);
            inserted.remove_ensures(at);
            assert forall|i: int| 0 <= i < removed.len() implies json_wf(
                #[trigger] removed[i],
            ) by {
                if i < at {
                    assert(removed[i] == inserted[i]);
                } else {
                    assert(removed[i] == inserted[i + 1]);
                }
            }
            lemma_move_seq_wf(removed, moves.skip(1));
        }
    }
}

/// The essentials of a sequence of findings, in order.
pub open spec fn briefs(s: Seq<Diagnostic>) -> Seq<(DiagnosticLevel, DiagnosticCode, Option<int>, Option<Seq<char>>)> {
    Seq::new(s.len(), |i: int| diag_brief(s[i]))
}

/// The replay bookkeeping: the reconstructed state, the observation ids seen
/// so far, the open observation (id, its line, its declared change count),
/// how many mutations the open observation has accumulated, how many
/// observations were opened, and the findings so far.
pub struct ReplayState {
    pub state: Json,
    pub seen: Set<Seq<char>>,
    pub open_obs: Option<(Seq<char>, int, int)>,
    pub events_in_obs: int,
    pub obs_count: int,
    pub diags: Seq<(DiagnosticLevel, DiagnosticCode, Option<int>, Option<Seq<char>>)>,
}

/// The change-count check made when an observation closes: a warning at the
/// observe line when the declared count disagrees with what followed.
pub open spec fn close_check(st: ReplayState) -> Seq<(DiagnosticLevel, DiagnosticCode, Option<int>, Option<Seq<char>>)> {
    match st.open_obs {
        Some((oid, oline, declared)) => if st.events_in_obs != declared {
            seq![
                (DiagnosticLevel::Warning, DiagnosticCode::ChangeCountMismatch, Some(oline), None::<Seq<char>>),
            ]
        } else {
            Seq::empty()
        },
        None => Seq::empty(),
    }
}

/// One event applied to the replay: the cross-line rules of the format.
/// An `observe` closes the open observation, warns on a reused id, and opens
/// a new one. A mutation counts against the open observation; under
/// `FullValidation` its observation id must have been seen; a failure to
/// apply is recorded — fatal, except a failed remove under `AppendSeek` —
/// and the state is left alone. A snapshot is compared against the replayed
/// state — a disagreement is fatal under `FullValidation`, a warning under
/// `AppendSeek` — and then replaces it unconditionally.
pub open spec fn spec_step(mode: ReadMode, st: ReplayState, ev: Ev, line: int) -> ReplayState {
    match ev {
        Ev::Observe { id, ts, count } => {
            let d1 = close_check(st);
            let d2 = if st.seen.contains(id) {
                seq![
                    (DiagnosticLevel::Warning, DiagnosticCode::DuplicateObservationId, Some(line), None::<Seq<char>>),
                ]
            } else {
                Seq::empty()
            };
            ReplayState {
                seen: st.seen.insert(id),
                open_obs: Some((id, line, count)),
                events_in_obs: 0,
                obs_count: st.obs_count + 1,
                diags: st.diags + d1 + d2,
                ..st
            }
        },
        Ev::Add { path, value, id } => {
            let st1 = ReplayState { events_in_obs: st.events_in_obs + 1, ..st };
            if mode == ReadMode::FullValidation && !st.seen.contains(id) {
                ReplayState {
                    diags: st1.diags.push(
                        (
                            DiagnosticLevel::Fatal,
                            DiagnosticCode::NonExistentObservationId,
                            Some(line),
                            None::<Seq<char>>,
                        ),
                    ),
                    ..st1
                }
            } else {
                match spec_apply_set(st.state, path, value) {
                    Ok(w) => ReplayState { state: w, ..st1 },
                    Err(c) => ReplayState {
                        diags: st1.diags.push((DiagnosticLevel::Fatal, c, Some(line), None::<Seq<char>>)),
                        ..st1
                    },
                }
            }
        },
        Ev::Change { path, value, id } => {
            let st1 = ReplayState { events_in_obs: st.events_in_obs + 1, ..st };
            if mode == ReadMode::FullValidation && !st.seen.contains(id) {
                ReplayState {
                    diags: st1.diags.push(
                        (
                            DiagnosticLevel::Fatal,
                            DiagnosticCode::NonExistentObservationId,
                            Some(line),
                            None::<Seq<char>>,
                        ),
                    ),
                    ..st1
                }
            } else {
                match spec_apply_set(st.state, path, value) {
                    Ok(w) => ReplayState { state: w, ..st1 },
                    Err(c) => ReplayState {
                        diags: st1.diags.push((DiagnosticLevel::Fatal, c, Some(line), None::<Seq<char>>)),
                        ..st1
                    },
                }
            }
        },
        Ev::Remove { path, id } => {
            let st1 = ReplayState { events_in_obs: st.events_in_obs + 1, ..st };
            if mode == ReadMode::FullValidation && !st.seen.contains(id) {
                ReplayState {
                    diags: st1.diags.push(
                        (
                            DiagnosticLevel::Fatal,
                            DiagnosticCode::NonExistentObservationId,
                            Some(line),
                            None::<Seq<char>>,
                        ),
                    ),
                    ..st1
                }
            } else {
                match spec_apply_remove(st.state, path) {
                    Ok(w) => ReplayState { state: w, ..st1 },
                    Err(c) => {
                        let lv = if mode == ReadMode::FullValidation {
                            DiagnosticLevel::Fatal
                        } else {
                            DiagnosticLevel::Warning
                        };
                        ReplayState { diags: st1.diags.push((lv, c, Some(line), None::<Seq<char>>)), ..st1 }
                    },
                }
            }
        },
        Ev::Move { path, moves, id } => {
            let st1 = ReplayState { events_in_obs: st.events_in_obs + 1, ..st };
            if mode == ReadMode::FullValidation && !st.seen.contains(id) {
                ReplayState {
                    diags: st1.diags.push(
                        (
                            DiagnosticLevel::Fatal,
                            DiagnosticCode::NonExistentObservationId,
                            Some(line),
                            None::<Seq<char>>,
                        ),
                    ),
                    ..st1
                }
            } else {
                match spec_apply_move(st.state, path, moves) {
                    Ok(w) => ReplayState { state: w, ..st1 },
                    Err(c) => ReplayState {
                        diags: st1.diags.push((DiagnosticLevel::Fatal, c, Some(line), None::<Seq<char>>)),
                        ..st1
                    },
                }
            }
        },
        Ev::Snapshot { id, ts, object } => {
            let d = if !json_eq(st.state, object) {
                let lv = if mode == ReadMode::FullValidation {
                    DiagnosticLevel::Fatal
                } else {
                    DiagnosticLevel::Warning
                };
                seq![(lv, DiagnosticCode::SnapshotStateMismatch, Some(line), None::<Seq<char>>)]
            } else {
                Seq::empty()
            };
            ReplayState { state: object, diags: st.diags + d, ..st }
        },
    }
}

/// One line applied to the replay: blank lines and `#` comments are skipped
/// silently; a line that is not a JSON array is recorded and skipped; a
/// decoded line contributes its finding or its event.
pub open spec fn spec_line(mode: ReadMode, st: ReplayState, line: Seq<char>, n: int) -> ReplayState {
    if trimmed(line).len() == 0 || trimmed(line)[0] == '#' {
        st
    } else {
        match json_parse(line) {
            Some(v) => match v {
                JsonValue::Arr(items) => match spec_decode(shapes_of(items@)) {
                    DecodeOutcome::Parsed(ev) => spec_step(mode, st, ev, n),
                    DecodeOutcome::Refused(lv, c) => ReplayState {
                        diags: st.diags.push((lv, c, Some(n), Some(spec_snippet(n, trimmed(line))))),
                        ..st
                    },
                },
                _ => ReplayState {
                    diags: st.diags.push(
                        (
                            DiagnosticLevel::Fatal,
                            DiagnosticCode::InvalidEventJson,
                            Some(n),
                            Some(spec_snippet(n, trimmed(line))),
                        ),
                    ),
                    ..st
                },
            },
            None => ReplayState {
                diags: st.diags.push(
                    (
                        DiagnosticLevel::Fatal,
                        DiagnosticCode::InvalidEventJson,
                        Some(n),
                        Some(spec_snippet(n, trimmed(line))),
                    ),
                ),
                ..st
            },
        }
    }
}

/// The lines from position `i` on, applied in order; line `k` of the file is
/// `lines[k - 1]`.
pub open spec fn spec_fold(mode: ReadMode, lines: Seq<Seq<char>>, i: int, st: ReplayState)
    -> ReplayState
    decreases lines.len() - i,
{
    if i < 1 || i >= lines.len() {
        st
    } else {
        spec_fold(mode, lines, i + 1, spec_line(mode, st, lines[i], i + 1))
    }
}

/// What a number text means as a format version: digits that fit a 32-bit
/// count.
pub open spec fn version_of_num(text: Seq<char>) -> Option<int> {
    match crate::codec::count_of_num(text) {
        Some(n) => if n <= u32::MAX {
            Some(n)
        } else {
            None
        },
        None => None,
    }
}

/// What the optional `source` field means: absent or null is no source, a
/// string is the source, anything else is malformed.
pub open spec fn spec_header_source(shp: Seq<(Seq<char>, Json)>) -> Result<Option<Seq<char>>, ()> {
    match obj_lookup(shp, "source"@) {
        None => Ok(None),
        Some(Json::Null) => Ok(None),
        Some(Json::Text(s)) => Ok(Some(s)),
        Some(_) => Err(()),
    }
}

/// What the first line means as a header: it must be a JSON object with a
/// string `type`, an unsigned `version`, an RFC-3339 `created`, and an
/// `initial` value; `source` and `metadata` are optional. Text that is not
/// JSON is a missing header; a JSON value without those fields is missing a
/// field.
pub open spec fn spec_parse_header(line: Seq<char>) -> Result<Hd, DiagnosticCode> {
    match json_parse(line) {
        None => Err(DiagnosticCode::MissingHeader),
        Some(v) => match v {
            JsonValue::Obj(fields) => {
                let shp = obj_shapes_of(fields@);
                match (
                    obj_lookup(shp, "type"@),
                    obj_lookup(shp, "version"@),
                    obj_lookup(shp, "created"@),
                    obj_lookup(shp, "initial"@),
                ) {
                    (
                        Some(Json::Text(ft)),
                        Some(Json::Num(nv)),
                        Some(Json::Text(cr)),
                        Some(init),
                    ) => match (version_of_num(nv), spec_header_source(shp)) {
                        (Some(ver), Ok(src)) => if ts_parse(cr) is Some {
                            Ok(
                                Hd {
                                    file_type: ft,
                                    version: ver,
                                    created: cr,
                                    source: src,
                                    initial: init,
                                    metadata: match obj_lookup(shp, "metadata"@) {
                                        None => None,
                                        Some(Json::Null) => None,
                                        Some(m) => Some(m),
                                    },
                                },
                            )
                        } else {
                            Err(DiagnosticCode::MissingHeaderField)
                        },
                        _ => Err(DiagnosticCode::MissingHeaderField),
                    },
                    _ => Err(DiagnosticCode::MissingHeaderField),
                }
            },
            _ => Err(DiagnosticCode::MissingHeaderField),
        },
    }
}

/// What reading a whole archive comes to.
pub struct ReadModel {
    pub state: Json,
    pub obs_count: int,
    pub diags: Seq<(DiagnosticLevel, DiagnosticCode, Option<int>, Option<Seq<char>>)>,
    pub header: Option<Hd>,
}

/// What reading the lines of an archive yields. An encoding failure in the
/// line stream, an empty file, an unreadable or incomplete header, or an
/// unsupported version each short-circuit with a single fatal finding and a
/// null state; otherwise the events replay over the header's initial state
/// and a final change-count check closes the last observation.
pub open spec fn spec_read(mode: ReadMode, lines: Seq<Seq<char>>, encoding_error: bool)
    -> ReadModel {
    if encoding_error {
        ReadModel {
            state: Json::Null,
            obs_count: 0,
            diags: seq![
                (
                    DiagnosticLevel::Fatal,
                    DiagnosticCode::InvalidUtf8,
                    Some(lines.len() as int + 1),
                    None::<Seq<char>>,
                ),
            ],
            header: None,
        }
    } else if lines.len() == 0 {
        ReadModel {
            state: Json::Null,
            obs_count: 0,
            diags: seq![(DiagnosticLevel::Fatal, DiagnosticCode::EmptyFile, Some(1int), None::<Seq<char>>)],
            header: None,
        }
    } else {
        match spec_parse_header(lines[0]) {
            Err(c) => ReadModel {
                state: Json::Null,
                obs_count: 0,
                diags: seq![(DiagnosticLevel::Fatal, c, Some(1int), Some(spec_snippet(1, lines[0])))],
                header: None,
            },
            Ok(h) => if h.version != 1 {
                ReadModel {
                    state: Json::Null,
                    obs_count: 0,
                    diags: seq![
                        (
                            DiagnosticLevel::Fatal,
                            DiagnosticCode::UnsupportedVersion,
                            Some(1int),
                            None::<Seq<char>>,
                        ),
                    ],
                    header: None,
                }
            } else {
                let st0 = ReplayState {
                    state: h.initial,
                    seen: Set::empty(),
                    open_obs: None,
                    events_in_obs: 0,
                    obs_count: 0,
                    diags: Seq::empty(),
                };
                let fin = spec_fold(mode, lines, 1, st0);
                ReadModel {
                    state: fin.state,
                    obs_count: fin.obs_count,
                    diags: fin.diags + close_check(fin),
                    header: Some(h),
                }
            },
        }
    }
}

/// The first field with the given name, if any.
fn header_field<'a>(fields: &'a Vec<(String, JsonValue)>, key: &str) -> (r: Option<
    &'a JsonValue,
>)
    ensures
        match r {
            Some(v) => obj_lookup(obj_shapes_of(fields@), key@) == Some(v@),
            None => obj_lookup(obj_shapes_of(fields@), key@) is None,
        },
{
    let ghost shp = obj_shapes_of(fields@);
    let ks = key.to_owned();
    match crate::value::obj_find(fields, &ks) {
        Some(j) => {
            proof {
                assert(shp[j as int].0 == key@);
                assert forall|k: int| 0 <= k < j implies shp[k].0 != key@ by {
                    assert(shp[k].0 == fields@[k].0@);
                }
                crate::pointer::lemma_obj_first_match(shp, key@, Json::Null, j as int);
            }
            Some(&fields[j].1)
        },
        None => {
            proof {
                assert forall|k: int| 0 <= k < shp.len() implies shp[k].0 != key@ by {
                    assert(shp[k].0 == fields@[k].0@);
                }
                crate::pointer::lemma_obj_lookup_absent(shp, key@);
            }
            None
        },
    }
}

/// Parses the first line of an archive as a header, or names the code of
/// what is wrong with it. A version other than 1 is the caller's concern.
fn parse_header_line(line: &str) -> (r: Result<Header, DiagnosticCode>)
    ensures
        match spec_parse_header(line@) {
            Ok(h) => r matches Ok(hh) && hh@ == h && hh.initial.wf(),
            Err(c) => r matches Err(cc) && cc == c,
        },
{
    let parsed = parse_json_text(line);
    let v: JsonValue;
    match parsed {
        Some(x) => {
            v = x;
        },
        None => {
            return Err(DiagnosticCode::MissingHeader);
        },
    }
    let fields: Vec<(String, JsonValue)>;
    match v {
        JsonValue::Obj(f) => {
            fields = f;
        },
        _ => {
            return Err(DiagnosticCode::MissingHeaderField);
        },
    }
    let ghost shp = obj_shapes_of(fields@);
    let ft: String;
    match header_field(&fields, "type") {
        Some(JsonValue::Text(s)) => {
            ft = s.clone();
        },
        _ => {
            return Err(DiagnosticCode::MissingHeaderField);
        },
    }
    let version: u32;
    match header_field(&fields, "version") {
        Some(JsonValue::Num(nv)) => {
            match crate::codec::parse_count(nv) {
                Some(n) => {
                    if n <= u32::MAX as usize {
                        version = n as u32;
                    } else {
                        return Err(DiagnosticCode::MissingHeaderField);
                    }
                },
                None => {
                    return Err(DiagnosticCode::MissingHeaderField);
                },
            }
        },
        _ => {
            return Err(DiagnosticCode::MissingHeaderField);
        },
    }
    let created: String;
    match header_field(&fields, "created") {
        Some(JsonValue::Text(s)) => {
            if crate::outside::parse_timestamp(s.as_str()).is_none() {
                return Err(DiagnosticCode::MissingHeaderField);
            }
            created = s.clone();
        },
        _ => {
            return Err(DiagnosticCode::MissingHeaderField);
        },
    }
    let initial: JsonValue;
    match header_field(&fields, "initial") {
        Some(x) => {
            proof {
                crate::pointer::lemma_obj_lookup_char(shp, "initial"@);
            }
            initial = x.deep_clone();
        },
        None => {
            return Err(DiagnosticCode::MissingHeaderField);
        },
    }
    let source: Option<String>;
    match header_field(&fields, "source") {
        None => {
            source = None;
        },
        Some(JsonValue::Null) => {
            source = None;
        },
        Some(JsonValue::Text(s)) => {
            source = Some(s.clone());
        },
        Some(_) => {
            return Err(DiagnosticCode::MissingHeaderField);
        },
    }
    let metadata: Option<JsonValue>;
    match header_field(&fields, "metadata") {
        None => {
            metadata = None;
        },
        Some(JsonValue::Null) => {
            metadata = None;
        },
        Some(m) => {
            metadata = Some(m.deep_clone());
        },
    }
    Ok(Header { file_type: ft, version, created, source, initial, metadata })
}

/// The set of id texts in a list of seen ids.
pub open spec fn ids_set(v: Seq<String>) -> Set<Seq<char>> {
    Set::new(|s: Seq<char>| exists|i: int| 0 <= i < v.len() && (#[trigger] v[i])@ == s)
}

/// Whether an id was seen before.
fn seen_contains(seen: &Vec<String>, id: &String) -> (r: bool)
    ensures
        r == ids_set(seen@).contains(id@),
{
    let mut i: usize = 0;
    while i < seen.len()
        invariant
            0 <= i <= seen@.len(),
            forall|k: int| 0 <= k < i ==> (#[trigger] seen@[k])@ != id@,
        decreases seen@.len() - i,
    {
        if seen[i] == *id {
            return true;
        }
        i = i + 1;
    }
    proof {
        if ids_set(seen@).contains(id@) {
            let k = choose|k: int| 0 <= k < seen@.len() && (#[trigger] seen@[k])@ == id@;
        }
    }
    false
}

/// Appends one finding, keeping the brief view in step.
fn record(dc: &mut DiagnosticCollector, d: Diagnostic)
    ensures
        briefs(final(dc)@) == briefs(old(dc)@).push(diag_brief(d)),
{
    let ghost b = diag_brief(d);
    dc.add(d);
    proof {
        assert(briefs(dc@) =~= briefs(old(dc)@).push(b));
    }
}

/// The running replay: the live counterpart of [`ReplayState`].
struct Replay {
    state: JsonValue,
    seen: Vec<String>,
    open_obs: Option<(String, usize, usize)>,
    events_in_obs: usize,
    observation_count: usize,
    diagnostics: DiagnosticCollector,
}

/// The live replay tracks the bookkeeping exactly.
spec fn replay_inv(r: Replay, st: ReplayState) -> bool {
    &&& r.state@ == st.state
    &&& json_wf(st.state)
    &&& st.seen == ids_set(r.seen@)
    &&& match (r.open_obs, st.open_obs) {
        (Some(e), Some(g)) => e.0@ == g.0 && e.1 as int == g.1 && e.2 as int == g.2,
        (None, None) => true,
        _ => false,
    }
    &&& r.events_in_obs as int == st.events_in_obs
    &&& r.observation_count as int == st.obs_count
    &&& briefs(r.diagnostics@) == st.diags
}

/// Whether the values an event carries are well-formed.
pub open spec fn ev_value_wf(ev: Ev) -> bool {
    match ev {
        Ev::Add { value, .. } => json_wf(value),
        Ev::Change { value, .. } => json_wf(value),
        Ev::Snapshot { object, .. } => json_wf(object),
        _ => true,
    }
}

/// Applies one decoded event to the running replay.
#[verifier::rlimit(100)]
fn step_event(
    rp: &mut Replay,
    mode: ReadMode,
    filename: &String,
    event: Event,
    line_no: usize,
    Ghost(st): Ghost<ReplayState>,
)
    requires
        replay_inv(*old(rp), st),
        ev_value_wf(event@),
        old(rp).events_in_obs < usize::MAX,
        old(rp).observation_count < usize::MAX,
    ensures
        replay_inv(*final(rp), spec_step(mode, st, event@, line_no as int)),
        final(rp).events_in_obs <= old(rp).events_in_obs + 1,
        final(rp).observation_count <= old(rp).observation_count + 1,
{
    let ghost st1 = spec_step(mode, st, event@, line_no as int);
    let ghost evv = event@;
    match event {
        Event::Observe { observation_id, timestamp, change_count } => {
            proof {
                assert(evv == Ev::Observe {
                    id: observation_id@,
                    ts: timestamp@,
                    count: change_count as int,
                });
            }
            let ghost d1 = close_check(st);
            match &rp.open_obs {
                Some(obs) => {
                    if rp.events_in_obs != obs.2 {
                        record(
                            &mut rp.diagnostics,
                            Diagnostic::new(
                                DiagnosticLevel::Warning,
                                DiagnosticCode::ChangeCountMismatch,
                                "the observe event declared a different number of changes than followed it".to_owned(),
                            ).with_location(filename.clone(), obs.1),
                        );
                    }
                },
                None => {},
            }
            proof {
                assert(briefs(rp.diagnostics@) =~= st.diags + d1);
            }
            if seen_contains(&rp.seen, &observation_id) {
                record(
                    &mut rp.diagnostics,
                    Diagnostic::new(
                        DiagnosticLevel::Warning,
                        DiagnosticCode::DuplicateObservationId,
                        "this observation id already appeared in the archive".to_owned(),
                    ).with_location(filename.clone(), line_no),
                );
            }
            rp.seen.push(observation_id.clone());
            proof {
                assert(ids_set(rp.seen@) =~= st.seen.insert(observation_id@)) by {
                    assert forall|s: Seq<char>| ids_set(rp.seen@).contains(s) implies st.seen.insert(
                        observation_id@,
                    ).contains(s) by {
                        let k = choose|k: int|
                            0 <= k < rp.seen@.len() && (#[trigger] rp.seen@[k])@ == s;
                        if k < rp.seen@.len() - 1 {
                            assert(ids_set(old(rp).seen@).contains(s));
                        }
                    }
                    assert forall|s: Seq<char>|
                        st.seen.insert(observation_id@).contains(s) implies ids_set(
                        rp.seen@,
                    ).contains(s) by {
                        if s == observation_id@ {
                            assert((rp.seen@[rp.seen@.len() - 1])@ == s);
                        } else {
                            let k = choose|k: int|
                                0 <= k < old(rp).seen@.len() && (#[trigger] old(rp).seen@[k])@
                                    == s;
                            assert((rp.seen@[k])@ == s);
                        }
                    }
                }
            }
            rp.open_obs = Some((observation_id, line_no, change_count));
            rp.events_in_obs = 0;
            rp.observation_count = rp.observation_count + 1;
            proof {
                assert(briefs(rp.diagnostics@) =~= st1.diags);
            }
        },
        Event::Add { path, value, observation_id } => {
            proof {
                assert(evv == Ev::Add { path: path@, value: value@, id: observation_id@ });
            }
            rp.events_in_obs = rp.events_in_obs + 1;
            if mode == ReadMode::FullValidation && !seen_contains(&rp.seen, &observation_id) {
                record(
                    &mut rp.diagnostics,
                    Diagnostic::new(
                        DiagnosticLevel::Fatal,
                        DiagnosticCode::NonExistentObservationId,
                        "no observe event with this id came before".to_owned(),
                    ).with_location(filename.clone(), line_no),
                );
            } else {
                proof {
                    crate::pointer::lemma_spec_set_wf(
                        st.state,
                        parse_tokens(path@),
                        0,
                        value@,
                    );
                }
                match apply_add(&mut rp.state, path.as_str(), value) {
                    Ok(_) => {},
                    Err(d) => {
                        record(&mut rp.diagnostics, d.with_location(filename.clone(), line_no));
                    },
                }
            }
            proof {
                assert(briefs(rp.diagnostics@) =~= st1.diags);
            }
        },
        Event::Change { path, new_value, observation_id } => {
            proof {
                assert(evv == Ev::Change { path: path@, value: new_value@, id: observation_id@ });
            }
            rp.events_in_obs = rp.events_in_obs + 1;
            if mode == ReadMode::FullValidation && !seen_contains(&rp.seen, &observation_id) {
                record(
                    &mut rp.diagnostics,
                    Diagnostic::new(
                        DiagnosticLevel::Fatal,
                        DiagnosticCode::NonExistentObservationId,
                        "no observe event with this id came before".to_owned(),
                    ).with_location(filename.clone(), line_no),
                );
            } else {
                proof {
                    crate::pointer::lemma_spec_set_wf(
                        st.state,
                        parse_tokens(path@),
                        0,
                        new_value@,
                    );
                }
                match apply_change(&mut rp.state, path.as_str(), new_value) {
                    Ok(_) => {},
                    Err(d) => {
                        record(&mut rp.diagnostics, d.with_location(filename.clone(), line_no));
                    },
                }
            }
            proof {
                assert(briefs(rp.diagnostics@) =~= st1.diags);
            }
        },
        Event::Remove { path, observation_id } => {
            proof {
                assert(evv == Ev::Remove { path: path@, id: observation_id@ });
            }
            rp.events_in_obs = rp.events_in_obs + 1;
            if mode == ReadMode::FullValidation && !seen_contains(&rp.seen, &observation_id) {
                record(
                    &mut rp.diagnostics,
                    Diagnostic::new(
                        DiagnosticLevel::Fatal,
                        DiagnosticCode::NonExistentObservationId,
                        "no observe event with this id came before".to_owned(),
                    ).with_location(filename.clone(), line_no),
                );
            } else {
                proof {
                    crate::pointer::lemma_spec_remove_wf(st.state, parse_tokens(path@), 0);
                }
                match apply_remove(&mut rp.state, path.as_str()) {
                    Ok(_) => {},
                    Err(d) => {
                        let d2 = if mode == ReadMode::FullValidation {
                            d
                        } else {
                            Diagnostic { level: DiagnosticLevel::Warning, ..d }
                        };
                        record(&mut rp.diagnostics, d2.with_location(filename.clone(), line_no));
                    },
                }
            }
            proof {
                assert(briefs(rp.diagnostics@) =~= st1.diags);
            }
        },
        Event::Move { path, moves, observation_id } => {
            proof {
                assert(evv == Ev::Move {
                    path: path@,
                    moves: crate::events::move_views(moves@),
                    id: observation_id@,
                });
            }
            rp.events_in_obs = rp.events_in_obs + 1;
            if mode == ReadMode::FullValidation && !seen_contains(&rp.seen, &observation_id) {
                record(
                    &mut rp.diagnostics,
                    Diagnostic::new(
                        DiagnosticLevel::Fatal,
                        DiagnosticCode::NonExistentObservationId,
                        "no observe event with this id came before".to_owned(),
                    ).with_location(filename.clone(), line_no),
                );
            } else {
                proof {
                    let toks = parse_tokens(path@);
                    crate::pointer::lemma_spec_get_wf(st.state, toks, 0);
                    match spec_get(st.state, toks, 0) {
                        Ok(j) => match j {
                            Json::Arr(items) => {
                                lemma_move_seq_wf(items, crate::events::move_views(moves@));
                                match spec_move_seq(items, crate::events::move_views(moves@)) {
                                    Ok(new_items) => {
                                        crate::pointer::lemma_spec_set_wf(
                                            st.state,
                                            toks,
                                            0,
                                            Json::Arr(new_items),
                                        );
                                    },
                                    Err(_) => {},
                                }
                            },
                            _ => {},
                        },
                        Err(_) => {},
                    }
                }
                match apply_move(&mut rp.state, path.as_str(), moves) {
                    Ok(_) => {},
                    Err(d) => {
                        record(&mut rp.diagnostics, d.with_location(filename.clone(), line_no));
                    },
                }
            }
            proof {
                assert(briefs(rp.diagnostics@) =~= st1.diags);
            }
        },
        Event::Snapshot { observation_id, timestamp, object } => {
            proof {
                assert(evv == Ev::Snapshot {
                    id: observation_id@,
                    ts: timestamp@,
                    object: object@,
                });
            }
            let same = crate::value::value_eq(&rp.state, &object);
            if !same {
                let lv = if mode == ReadMode::FullValidation {
                    DiagnosticLevel::Fatal
                } else {
                    DiagnosticLevel::Warning
                };
                record(
                    &mut rp.diagnostics,
                    Diagnostic::new(
                        lv,
                        DiagnosticCode::SnapshotStateMismatch,
                        "the snapshot disagrees with the state replayed up to this point".to_owned(),
                    ).with_location(filename.clone(), line_no),
                );
            }
            proof {
                assert(briefs(rp.diagnostics@) =~= st1.diags);
            }
            rp.state = object;
        },
    }
}

/// Applies one raw archive line to the running replay: blanks and comments
/// are skipped, text that is not a JSON array is recorded, and a decoded
/// line contributes its finding or its event.
fn step_line(
    rp: &mut Replay,
    mode: ReadMode,
    filename: &String,
    line: &String,
    line_no: usize,
    Ghost(st): Ghost<ReplayState>,
)
    requires
        replay_inv(*old(rp), st),
        old(rp).events_in_obs < usize::MAX,
        old(rp).observation_count < usize::MAX,
    ensures
        replay_inv(*final(rp), spec_line(mode, st, line@, line_no as int)),
        final(rp).events_in_obs <= old(rp).events_in_obs + 1,
        final(rp).observation_count <= old(rp).observation_count + 1,
{
    let ghost st1 = spec_line(mode, st, line@, line_no as int);
    let t = trim_str(line.as_str());
    let tc = crate::outside::str_chars(t);
    if tc.len() == 0 {
        return ;
    }
    if tc[0] == '#' {
        return ;
    }
    let parsed = parse_json_text(line.as_str());
    let v: JsonValue;
    match parsed {
        Some(x) => {
            v = x;
        },
        None => {
            record(
                &mut rp.diagnostics,
                Diagnostic::new(
                    DiagnosticLevel::Fatal,
                    DiagnosticCode::InvalidEventJson,
                    "this line is neither a comment nor a JSON array".to_owned(),
                ).with_location(filename.clone(), line_no).with_snippet(line_snippet(line_no, t)),
            );
            return ;
        },
    }
    let items: Vec<JsonValue>;
    match v {
        JsonValue::Arr(xs) => {
            items = xs;
        },
        _ => {
            record(
                &mut rp.diagnostics,
                Diagnostic::new(
                    DiagnosticLevel::Fatal,
                    DiagnosticCode::InvalidEventJson,
                    "an event line must be a JSON array".to_owned(),
                ).with_location(filename.clone(), line_no).with_snippet(line_snippet(line_no, t)),
            );
            return ;
        },
    }
    let dec = decode_event(&items);
    let mut dec_diags = dec.diagnostics;
    if dec_diags.len() > 0 {
        let d = dec_diags.remove(0);
        record(
            &mut rp.diagnostics,
            d.with_location(filename.clone(), line_no).with_snippet(line_snippet(line_no, t)),
        );
    }
    match dec.event {
        Some(e) => {
            step_event(rp, mode, filename, e, line_no, Ghost(st));
        },
        None => {},
    }
}

/// The outcome of one full read: the parsed header, the reconstructed final
/// state, every finding in order, and how many observations were opened.
pub struct ReadResult {
    pub header: Header,
    pub final_state: JsonValue,
    pub diagnostics: DiagnosticCollector,
    pub observation_count: usize,
}

/// A reader bound to a file name (used only to locate findings) and a
/// strictness mode.
pub struct ArchiveReader {
    pub mode: ReadMode,
    pub filename: String,
}

impl ArchiveReader {
    /// A reader for the named archive under the given strictness.
    pub fn new(filename: String, mode: ReadMode) -> (r: Self)
        ensures
            r.mode == mode,
            r.filename == filename,
    {
        Self { mode, filename }
    }

    /// Replays a whole archive given as its lines, in order, without their
    /// line endings. `encoding_error` says the line stream broke off with
    /// text that is not valid UTF-8, which poisons the whole read.
    pub fn read(&self, lines: &Vec<String>, encoding_error: bool) -> (r: ReadResult)
        requires
            lines@.len() < usize::MAX,
        ensures
            ({
                let model = spec_read(self.mode, crate::pointer::str_views(lines@), encoding_error);
                &&& r.final_state@ == model.state
                &&& r.observation_count as int == model.obs_count
                &&& briefs(r.diagnostics@) == model.diags
                &&& (model.header matches Some(h) ==> r.header@ == h)
            }),
    {
        let ghost lvs = crate::pointer::str_views(lines@);
        if encoding_error {
            let mut diagnostics = DiagnosticCollector::new();
            record(
                &mut diagnostics,
                Diagnostic::new(
                    DiagnosticLevel::Fatal,
                    DiagnosticCode::InvalidUtf8,
                    "the stream broke off with bytes that are not valid UTF-8".to_owned(),
                ).with_location(self.filename.clone(), lines.len() + 1),
            );
            proof {
                assert(briefs(diagnostics@) =~= spec_read(self.mode, lvs, true).diags);
            }
            return ReadResult {
                header: Header::new(JsonValue::Null, None),
                final_state: JsonValue::Null,
                diagnostics,
                observation_count: 0,
            };
        }
        if lines.len() == 0 {
            let mut diagnostics = DiagnosticCollector::new();
            record(
                &mut diagnostics,
                Diagnostic::new(
                    DiagnosticLevel::Fatal,
                    DiagnosticCode::EmptyFile,
                    "the file is empty, but at least a header line is needed".to_owned(),
                ).with_location(self.filename.clone(), 1),
            );
            proof {
                assert(briefs(diagnostics@) =~= spec_read(self.mode, lvs, false).diags);
            }
            return ReadResult {
                header: Header::new(JsonValue::Null, None),
                final_state: JsonValue::Null,
                diagnostics,
                observation_count: 0,
            };
        }
        let first = &lines[0];
        proof {
            assert(lvs[0] == first@);
        }
        let header: Header;
        match parse_header_line(first.as_str()) {
            Ok(h) => {
                header = h;
            },
            Err(code) => {
                let mut diagnostics = DiagnosticCollector::new();
                record(
                    &mut diagnostics,
                    Diagnostic::new(
                        DiagnosticLevel::Fatal,
                        code,
                        "the first line could not be read as an archive header".to_owned(),
                    ).with_location(self.filename.clone(), 1).with_snippet(
                        line_snippet(1, first.as_str()),
                    ),
                );
                proof {
                    assert(briefs(diagnostics@) =~= spec_read(self.mode, lvs, false).diags);
                }
                return ReadResult {
                    header: Header::new(JsonValue::Null, None),
                    final_state: JsonValue::Null,
                    diagnostics,
                    observation_count: 0,
                };
            },
        }
        if header.version != 1 {
            let mut diagnostics = DiagnosticCollector::new();
            record(
                &mut diagnostics,
                Diagnostic::new(
                    DiagnosticLevel::Fatal,
                    DiagnosticCode::UnsupportedVersion,
                    "only archives of version 1 can be read".to_owned(),
                ).with_location(self.filename.clone(), 1),
            );
            proof {
                assert(briefs(diagnostics@) =~= spec_read(self.mode, lvs, false).diags);
            }
            return ReadResult {
                header: Header::new(JsonValue::Null, None),
                final_state: JsonValue::Null,
                diagnostics,
                observation_count: 0,
            };
        }
        let ghost st0 = ReplayState {
            state: header@.initial,
            seen: Set::empty(),
            open_obs: None,
            events_in_obs: 0,
            obs_count: 0,
            diags: Seq::empty(),
        };
        let ghost fin = spec_fold(self.mode, lvs, 1, st0);
        let mut rp = Replay {
            state: header.initial.deep_clone(),
            seen: Vec::new(),
            open_obs: None,
            events_in_obs: 0,
            observation_count: 0,
            diagnostics: DiagnosticCollector::new(),
        };
        let ghost mut st = st0;
        proof {
            assert(ids_set(rp.seen@) =~= Set::<Seq<char>>::empty());
            assert(briefs(rp.diagnostics@) =~= Seq::<
                (DiagnosticLevel, DiagnosticCode, Option<int>, Option<Seq<char>>),
            >::empty());
            assert(replay_inv(rp, st0));
        }
        let mut i: usize = 1;
        while i < lines.len()
            invariant
                1 <= i <= lines@.len(),
                lines@.len() < usize::MAX,
                lvs == crate::pointer::str_views(lines@),
                lvs.len() == lines@.len(),
                replay_inv(rp, st),
                rp.events_in_obs <= i,
                rp.observation_count <= i,
                fin == spec_fold(self.mode, lvs, i as int, st),
            decreases lines@.len() - i,
        {
            let line = &lines[i];
            proof {
                assert(lvs[i as int] == line@);
            }
            let line_no = i + 1;
            step_line(&mut rp, self.mode, &self.filename, line, line_no, Ghost(st));
            proof {
                st = spec_line(self.mode, st, lvs[i as int], i as int + 1);
            }
            i = i + 1;
        }
        proof {
            assert(st == fin);
        }
        let ghost dend = close_check(fin);
        match &rp.open_obs {
            Some(obs) => {
                if rp.events_in_obs != obs.2 {
                    record(
                        &mut rp.diagnostics,
                        Diagnostic::new(
                            DiagnosticLevel::Warning,
                            DiagnosticCode::ChangeCountMismatch,
                            "the observe event declared a different number of changes than followed it".to_owned(),
                        ).with_location(self.filename.clone(), obs.1),
                    );
                }
            },
            None => {},
        }
        proof {
            assert(briefs(rp.diagnostics@) =~= fin.diags + dend);
        }
        ReadResult {
            header,
            final_state: rp.state,
            diagnostics: rp.diagnostics,
            observation_count: rp.observation_count,
        }
    }
}

/// What scanning for the next event from line position `i` yields: the
/// event (or none at end of input), the position after it, and the findings
/// of the skipped or refused lines on the way. Blank lines and comments are
/// passed over silently.
pub open spec fn spec_scan(lines: Seq<Seq<char>>, i: int) -> (
    Option<Ev>,
    int,
    Seq<(DiagnosticLevel, DiagnosticCode, Option<int>, Option<Seq<char>>)>,
)
    decreases lines.len() - i,
{
    if i < 1 || i >= lines.len() {
        (None, lines.len() as int, Seq::empty())
    } else {
        let line = lines[i];
        if trimmed(line).len() == 0 || trimmed(line)[0] == '#' {
            spec_scan(lines, i + 1)
        } else {
            match json_parse(line) {
                Some(v) => match v {
                    JsonValue::Arr(items) => match spec_decode(shapes_of(items@)) {
                        DecodeOutcome::Parsed(ev) => (Some(ev), i + 1, Seq::empty()),
                        DecodeOutcome::Refused(lv, c) => {
                            let rest = spec_scan(lines, i + 1);
                            (
                                rest.0,
                                rest.1,
                                seq![
                                    (lv, c, Some(i + 1), Some(spec_snippet(i + 1, trimmed(line)))),
                                ] + rest.2,
                            )
                        },
                    },
                    _ => {
                        let rest = spec_scan(lines, i + 1);
                        (
                            rest.0,
                            rest.1,
                            seq![
                                (
                                    DiagnosticLevel::Fatal,
                                    DiagnosticCode::InvalidEventJson,
                                    Some(i + 1),
                                    Some(spec_snippet(i + 1, trimmed(line))),
                                ),
                            ] + rest.2,
                        )
                    },
                },
                None => {
                    let rest = spec_scan(lines, i + 1);
                    (
                        rest.0,
                        rest.1,
                        seq![
                            (
                                DiagnosticLevel::Fatal,
                                DiagnosticCode::InvalidEventJson,
                                Some(i + 1),
                                Some(spec_snippet(i + 1, trimmed(line))),
                            ),
                        ] + rest.2,
                    )
                },
            }
        }
    }
}

/// A pull-based walk over an archive's events: each `next` yields the next
/// decoded event, skipping comments, blanks and refused lines while
/// accumulating their findings on the side, so a caller that stops early
/// never buffers the whole file.
pub struct EventIterator {
    pub lines: Vec<String>,
    pub pos: usize,
    pub diagnostics: DiagnosticCollector,
    pub header: Header,
    pub filename: String,
}

impl EventIterator {
    /// The line texts being walked.
    pub open spec fn lines_view(&self) -> Seq<Seq<char>> {
        crate::pointer::str_views(self.lines@)
    }

    /// The position of the next line to look at.
    pub open spec fn pos_spec(&self) -> int {
        self.pos as int
    }

    /// The next decoded event, or nothing at end of input; findings of the
    /// lines passed over land in `diagnostics`.
    pub fn next(&mut self) -> (r: Option<Event>)
        ensures
            ({
                let scan = spec_scan(old(self).lines_view(), old(self).pos_spec());
                &&& final(self).lines_view() == old(self).lines_view()
                &&& final(self).header == old(self).header
                &&& final(self).filename == old(self).filename
                &&& final(self).pos_spec() == scan.1
                &&& briefs(final(self).diagnostics@) == briefs(old(self).diagnostics@) + scan.2
                &&& match scan.0 {
                    Some(e) => r matches Some(x) && x@ == e,
                    None => r is None,
                }
            }),
    {
        let ghost lvs = self.lines_view();
        let ghost scan0 = spec_scan(lvs, self.pos as int);
        let ghost briefs0 = briefs(self.diagnostics@);
        if self.pos < 1 {
            self.pos = self.lines.len();
            proof {
                assert(briefs(self.diagnostics@) =~= briefs0 + scan0.2);
            }
            return None;
        }
        while self.pos < self.lines.len()
            invariant
                1 <= self.pos,
                lvs == crate::pointer::str_views(self.lines@),
                lvs == old(self).lines_view(),
                scan0 == spec_scan(lvs, old(self).pos_spec()),
                briefs0 == briefs(old(self).diagnostics@),
                lvs.len() == self.lines@.len(),
                self.lines@.len() < usize::MAX || self.pos <= self.lines@.len(),
                spec_scan(lvs, self.pos as int).0 == scan0.0,
                spec_scan(lvs, self.pos as int).1 == scan0.1,
                briefs(self.diagnostics@) + spec_scan(lvs, self.pos as int).2 == briefs0
                    + scan0.2,
                self.header == old(self).header,
                self.filename == old(self).filename,
            decreases self.lines@.len() - self.pos,
        {
            let i = self.pos;
            let line = &self.lines[i];
            proof {
                assert(lvs[i as int] == line@);
            }
            let t = trim_str(line.as_str());
            let tc = crate::outside::str_chars(t);
            if tc.len() == 0 || tc[0] == '#' {
                self.pos = i + 1;
                continue ;
            }
            let parsed = parse_json_text(line.as_str());
            let v: JsonValue;
            match parsed {
                Some(x) => {
                    v = x;
                },
                None => {
                    record(
                        &mut self.diagnostics,
                        Diagnostic::new(
                            DiagnosticLevel::Fatal,
                            DiagnosticCode::InvalidEventJson,
                            "this line is neither a comment nor a JSON array".to_owned(),
                        ).with_location(self.filename.clone(), i + 1).with_snippet(
                            line_snippet(i + 1, t),
                        ),
                    );
                    self.pos = i + 1;
                    proof {
                        assert(briefs(self.diagnostics@) + spec_scan(lvs, i as int + 1).2
                            =~= briefs0 + scan0.2);
                    }
                    continue ;
                },
            }
            let items: Vec<JsonValue>;
            match v {
                JsonValue::Arr(xs) => {
                    items = xs;
                },
                _ => {
                    record(
                        &mut self.diagnostics,
                        Diagnostic::new(
                            DiagnosticLevel::Fatal,
                            DiagnosticCode::InvalidEventJson,
                            "an event line must be a JSON array".to_owned(),
                        ).with_location(self.filename.clone(), i + 1).with_snippet(
                            line_snippet(i + 1, t),
                        ),
                    );
                    self.pos = i + 1;
                    proof {
                        assert(briefs(self.diagnostics@) + spec_scan(lvs, i as int + 1).2
                            =~= briefs0 + scan0.2);
                    }
                    continue ;
                },
            }
            let dec = decode_event(&items);
            let mut dec_diags = dec.diagnostics;
            if dec_diags.len() > 0 {
                let d = dec_diags.remove(0);
                record(
                    &mut self.diagnostics,
                    d.with_location(self.filename.clone(), i + 1).with_snippet(
                        line_snippet(i + 1, t),
                    ),
                );
            }
            self.pos = i + 1;
            match dec.event {
                Some(e) => {
                    proof {
                        assert(spec_scan(lvs, i as int).0 == Some(e@));
                        assert(spec_scan(lvs, i as int).1 == i as int + 1);
                        assert(spec_scan(lvs, i as int).2 =~= Seq::<
                            (DiagnosticLevel, DiagnosticCode, Option<int>, Option<Seq<char>>),
                        >::empty());
                        assert(briefs(self.diagnostics@) =~= briefs0 + scan0.2);
                    }
                    return Some(e);
                },
                None => {},
            }
            proof {
                assert(briefs(self.diagnostics@) + spec_scan(lvs, i as int + 1).2 =~= briefs0
                    + scan0.2);
            }
        }
        self.pos = self.lines.len();
        proof {
            assert(briefs(self.diagnostics@) =~= briefs0 + scan0.2);
        }
        None
    }
}

impl ArchiveReader {
    /// Opens an archive for streaming: parses the header from the first
    /// line, and hands back the initial state with an iterator positioned at
    /// the first event line. When the header cannot be used — an empty file,
    /// an unreadable or incomplete header, or an unsupported version — the
    /// iterator starts exhausted with one fatal finding, and the initial
    /// state is null.
    pub fn events(&self, lines: &Vec<String>) -> (r: (JsonValue, EventIterator))
        requires
            lines@.len() < usize::MAX,
        ensures
            ({
                let lvs = crate::pointer::str_views(lines@);
                &&& r.1.lines_view() == lvs
                &&& r.1.filename == self.filename
                &&& (lines@.len() == 0 ==> r.0@ == Json::Null && briefs(r.1.diagnostics@)
                    == seq![
                    (DiagnosticLevel::Fatal, DiagnosticCode::EmptyFile, Some(1int), None::<Seq<char>>),
                ])
                &&& (lines@.len() > 0 ==> match spec_parse_header(lvs[0]) {
                    Ok(h) => if h.version == 1 {
                        &&& r.1.header@ == h
                        &&& r.0@ == h.initial
                        &&& r.1.pos_spec() == 1
                        &&& briefs(r.1.diagnostics@) == Seq::<
                            (DiagnosticLevel, DiagnosticCode, Option<int>, Option<Seq<char>>),
                        >::empty()
                    } else {
                        &&& r.0@ == Json::Null
                        &&& briefs(r.1.diagnostics@) == seq![
                            (
                                DiagnosticLevel::Fatal,
                                DiagnosticCode::UnsupportedVersion,
                                Some(1int),
                                None::<Seq<char>>,
                            ),
                        ]
                    },
                    Err(c) => {
                        &&& r.0@ == Json::Null
                        &&& briefs(r.1.diagnostics@) == seq![
                            (DiagnosticLevel::Fatal, c, Some(1int), Some(spec_snippet(1, lvs[0]))),
                        ]
                    },
                })
            }),
    {
        let ghost lvs = crate::pointer::str_views(lines@);
        let mut owned: Vec<String> = Vec::new();
        let mut k: usize = 0;
        while k < lines.len()
            invariant
                0 <= k <= lines@.len(),
                owned@.len() == k,
                forall|j: int| 0 <= j < k ==> (#[trigger] owned@[j])@ == lines@[j]@,
            decreases lines@.len() - k,
        {
            let c = lines[k].clone();
            owned.push(c);
            k = k + 1;
        }
        proof {
            assert(crate::pointer::str_views(owned@) =~= lvs);
        }
        let mut diagnostics = DiagnosticCollector::new();
        if lines.len() == 0 {
            record(
                &mut diagnostics,
                Diagnostic::new(
                    DiagnosticLevel::Fatal,
                    DiagnosticCode::EmptyFile,
                    "the file is empty, but at least a header line is needed".to_owned(),
                ).with_location(self.filename.clone(), 1),
            );
            proof {
                assert(briefs(diagnostics@) =~= seq![
                    (DiagnosticLevel::Fatal, DiagnosticCode::EmptyFile, Some(1int), None::<Seq<char>>),
                ]);
            }
            let it = EventIterator {
                lines: owned,
                pos: 1,
                diagnostics,
                header: Header::new(JsonValue::Null, None),
                filename: self.filename.clone(),
            };
            return (JsonValue::Null, it);
        }
        let first = &lines[0];
        proof {
            assert(lvs[0] == first@);
        }
        match parse_header_line(first.as_str()) {
            Ok(h) => {
                if h.version != 1 {
                    record(
                        &mut diagnostics,
                        Diagnostic::new(
                            DiagnosticLevel::Fatal,
                            DiagnosticCode::UnsupportedVersion,
                            "only archives of version 1 can be read".to_owned(),
                        ).with_location(self.filename.clone(), 1),
                    );
                    proof {
                        assert(briefs(diagnostics@) =~= seq![
                            (
                                DiagnosticLevel::Fatal,
                                DiagnosticCode::UnsupportedVersion,
                                Some(1int),
                                None::<Seq<char>>,
                            ),
                        ]);
                    }
                    let n = owned.len();
                    let it = EventIterator {
                        lines: owned,
                        pos: n,
                        diagnostics,
                        header: Header::new(JsonValue::Null, None),
                        filename: self.filename.clone(),
                    };
                    return (JsonValue::Null, it);
                }
                let initial = h.initial.deep_clone();
                proof {
                    assert(briefs(diagnostics@) =~= Seq::<
                        (DiagnosticLevel, DiagnosticCode, Option<int>, Option<Seq<char>>),
                    >::empty());
                }
                let it = EventIterator {
                    lines: owned,
                    pos: 1,
                    diagnostics,
                    header: h,
                    filename: self.filename.clone(),
                };
                (initial, it)
            },
            Err(code) => {
                record(
                    &mut diagnostics,
                    Diagnostic::new(
                        DiagnosticLevel::Fatal,
                        code,
                        "the first line could not be read as an archive header".to_owned(),
                    ).with_location(self.filename.clone(), 1).with_snippet(
                        line_snippet(1, first.as_str()),
                    ),
                );
                proof {
                    assert(briefs(diagnostics@) =~= seq![
                        (DiagnosticLevel::Fatal, code, Some(1int), Some(spec_snippet(1, lvs[0]))),
                    ]);
                }
                let n = owned.len();
                let it = EventIterator {
                    lines: owned,
                    pos: n,
                    diagnostics,
                    header: Header::new(JsonValue::Null, None),
                    filename: self.filename.clone(),
                };
                (JsonValue::Null, it)
            },
        }
    }
}

/// Writes `value` at `path` in `state`: the parent must exist, and an index
/// equal to an array's length appends. On failure the state is unchanged and
/// the failure's code is reported.
pub fn apply_add(state: &mut JsonValue, path: &str, value: JsonValue) -> (r: Result<
    (),
    Diagnostic,
>)
    ensures
        match spec_apply_set(old(state)@, path@, value@) {
            Ok(w) => r is Ok && final(state)@ == w,
            Err(c) => r matches Err(d) && final(state)@ == old(state)@ && d.level
                == DiagnosticLevel::Fatal && d.code == c && d.code_snippet is None,
        },
{
    let pointer = match JsonPointer::new(path) {
        Ok(p) => p,
        Err(d) => {
            return Err(d);
        },
    };
    pointer.set(state, value)
}

/// Replaces the value at `path` in `state`; the same write as an add.
pub fn apply_change(state: &mut JsonValue, path: &str, new_value: JsonValue) -> (r: Result<
    (),
    Diagnostic,
>)
    ensures
        match spec_apply_set(old(state)@, path@, new_value@) {
            Ok(w) => r is Ok && final(state)@ == w,
            Err(c) => r matches Err(d) && final(state)@ == old(state)@ && d.level
                == DiagnosticLevel::Fatal && d.code == c && d.code_snippet is None,
        },
{
    let pointer = match JsonPointer::new(path) {
        Ok(p) => p,
        Err(d) => {
            return Err(d);
        },
    };
    pointer.set(state, new_value)
}

/// Deletes the value at `path` in `state`; the root cannot be removed.
pub fn apply_remove(state: &mut JsonValue, path: &str) -> (r: Result<(), Diagnostic>)
    ensures
        match spec_apply_remove(old(state)@, path@) {
            Ok(w) => r is Ok && final(state)@ == w,
            Err(c) => r matches Err(d) && final(state)@ == old(state)@ && d.level
                == DiagnosticLevel::Fatal && d.code == c && d.code_snippet is None,
        },
{
    let pointer = match JsonPointer::new(path) {
        Ok(p) => p,
        Err(d) => {
            return Err(d);
        },
    };
    match pointer.remove(state) {
        Ok(_) => Ok(()),
        Err(d) => Err(d),
    }
}

/// Reorders the array at `path` in `state` by the move pairs, in order,
/// adjusting each removal for the insertion before it.
pub fn apply_move(state: &mut JsonValue, path: &str, moves: Vec<(usize, usize)>) -> (r: Result<
    (),
    Diagnostic,
>)
    ensures
        match spec_apply_move(old(state)@, path@, crate::events::move_views(moves@)) {
            Ok(w) => r is Ok && final(state)@ == w,
            Err(c) => r matches Err(d) && final(state)@ == old(state)@ && d.level
                == DiagnosticLevel::Fatal && d.code == c && d.code_snippet is None,
        },
{
    let ghost mvs = crate::events::move_views(moves@);
    let pointer = match JsonPointer::new(path) {
        Ok(p) => p,
        Err(d) => {
            return Err(d);
        },
    };
    let target = match pointer.get(state) {
        Ok(t) => t,
        Err(d) => {
            return Err(d);
        },
    };
    let mut arr: Vec<JsonValue>;
    match target {
        JsonValue::Arr(items) => {
            arr = Vec::new();
            let mut i: usize = 0;
            while i < items.len()
                invariant
                    0 <= i <= items@.len(),
                    arr@.len() == i,
                    forall|k: int| 0 <= k < i ==> (#[trigger] arr@[k])@ == items@[k]@,
                decreases items@.len() - i,
            {
                let c = items[i].deep_clone();
                arr.push(c);
                i = i + 1;
            }
            proof {
                assert(shapes_of(arr@) =~= shapes_of(items@));
            }
        },
        _ => {
            return Err(
                Diagnostic::new(
                    DiagnosticLevel::Fatal,
                    DiagnosticCode::MoveOnNonArray,
                    "move events can only reorder an array".to_owned(),
                ),
            );
        },
    }
    let ghost items0 = shapes_of(arr@);
    proof {
        assert(mvs.skip(0) =~= mvs);
    }
    let mut k: usize = 0;
    while k < moves.len()
        invariant
            0 <= k <= moves@.len(),
            mvs == crate::events::move_views(moves@),
            path_ok(path@),
            pointer@ == parse_tokens(path@),
            *state == *old(state),
            spec_get(old(state)@, parse_tokens(path@), 0) == Ok::<Json, crate::pointer::PointerFault>(
                Json::Arr(items0),
            ),
            spec_move_seq(items0, mvs) == spec_move_seq(shapes_of(arr@), mvs.skip(k as int)),
        decreases moves@.len() - k,
    {
        let ghost pre = shapes_of(arr@);
        let (from_idx, to_idx) = moves[k];
        proof {
            assert(mvs.skip(k as int)[0] == (from_idx as int, to_idx as int));
            assert(mvs.skip(k as int).skip(1) =~= mvs.skip(k as int + 1));
        }
        if from_idx >= arr.len() {
            proof {
                assert(spec_move_seq(pre, mvs.skip(k as int)) is Err);
            }
            return Err(
                Diagnostic::new(
                    DiagnosticLevel::Fatal,
                    DiagnosticCode::MoveIndexOutOfBounds,
                    "a move names a 'from' index past the end of the array".to_owned(),
                ),
            );
        }
        if to_idx > arr.len() {
            proof {
                assert(spec_move_seq(pre, mvs.skip(k as int)) is Err);
            }
            return Err(
                Diagnostic::new(
                    DiagnosticLevel::Fatal,
                    DiagnosticCode::MoveIndexOutOfBounds,
                    "a move names a 'to' index past the end of the array".to_owned(),
                ),
            );
        }
        let element = arr[from_idx].deep_clone();
        arr.insert(to_idx, element);
        let remove_idx: usize = if from_idx > to_idx {
            from_idx + 1
        } else {
            from_idx
        };
        let _ = arr.remove(remove_idx);
        proof {
            let inserted = pre.insert(to_idx as int, pre[from_idx as int]);
            assert(shapes_of(arr@) =~= inserted.remove(remove_idx as int));
        }
        k = k + 1;
    }
    proof {
        assert(mvs.skip(k as int) =~= Seq::<(int, int)>::empty());
    }
    pointer.set(state, JsonValue::Arr(arr))
}

} // verus!
