//! The wire codec: each event is one fixed-arity JSON array, tag first.
//! Encoding is total; decoding collects a diagnostic instead of failing, so
//! one malformed line never aborts a whole read. The round trip from an
//! event through its array form and back is proved exact.

use vstd::prelude::*;

use crate::diagnostics::{Diagnostic, DiagnosticCode, DiagnosticLevel};
use crate::events::{move_views, Ev, Event};
use crate::outside::{chars_string, str_chars, ts_parse};
use crate::pointer::{all_digits, dec_value};
use crate::value::{json_of, json_wf, shapes_of, Json, JsonValue};

verus! {

/// The canonical decimal digits of a non-negative number.
pub open spec fn dec_digits(n: int) -> Seq<char>
    decreases n,
{
    if n < 0 {
        Seq::empty()
    } else if n < 10 {
        seq![digit_char(n)]
    } else {
        dec_digits(n / 10) + seq![digit_char(n % 10)]
    }
}

/// The digit character for one decimal digit.
pub open spec fn digit_char(d: int) -> char {
    if d == 0 {
        '0'
    } else if d == 1 {
        '1'
    } else if d == 2 {
        '2'
    } else if d == 3 {
        '3'
    } else if d == 4 {
        '4'
    } else if d == 5 {
        '5'
    } else if d == 6 {
        '6'
    } else if d == 7 {
        '7'
    } else if d == 8 {
        '8'
    } else {
        '9'
    }
}

/// What a number text means as a count: all digits and within machine
/// range, as a JSON reader takes an unsigned integer field.
pub open spec fn count_of_num(text: Seq<char>) -> Option<int> {
    if text.len() > 0 && all_digits(text) && 0 <= dec_value(text) <= usize::MAX {
        Some(dec_value(text))
    } else {
        None
    }
}

/// What one wire element means as a `(from, to)` move pair: a two-element
/// array of unsigned integers.
pub open spec fn spec_move_pair(j: Json) -> Option<(int, int)> {
    match j {
        Json::Arr(two) => if two.len() == 2 {
            match (two[0], two[1]) {
                (Json::Num(a), Json::Num(b)) => match (count_of_num(a), count_of_num(b)) {
                    (Some(f), Some(t)) => Some((f, t)),
                    _ => None,
                },
                _ => None,
            }
        } else {
            None
        },
        _ => None,
    }
}

/// What a wire element sequence means as a move list; `None` as soon as one
/// pair is malformed.
pub open spec fn spec_moves(pairs: Seq<Json>) -> Option<Seq<(int, int)>>
    decreases pairs.len(),
{
    if pairs.len() == 0 {
        Some(Seq::empty())
    } else {
        match spec_move_pair(pairs[0]) {
            Some(p) => match spec_moves(pairs.skip(1)) {
                Some(rest) => Some(seq![p] + rest),
                None => None,
            },
            None => None,
        }
    }
}

/// The wire form of an event: a fixed-arity array, tag first.
pub open spec fn spec_encode(ev: Ev) -> Seq<Json> {
    match ev {
        Ev::Observe { id, ts, count } => seq![
            Json::Text("observe"@),
            Json::Text(id),
            Json::Text(ts),
            Json::Num(dec_digits(count)),
        ],
        Ev::Add { path, value, id } => seq![
            Json::Text("add"@),
            Json::Text(path),
            value,
            Json::Text(id),
        ],
        Ev::Change { path, value, id } => seq![
            Json::Text("change"@),
            Json::Text(path),
            value,
            Json::Text(id),
        ],
        Ev::Remove { path, id } => seq![Json::Text("remove"@), Json::Text(path), Json::Text(id)],
        Ev::Move { path, moves, id } => seq![
            Json::Text("move"@),
            Json::Text(path),
            Json::Arr(
                Seq::new(
                    moves.len(),
                    |i: int| Json::Arr(
                        seq![Json::Num(dec_digits(moves[i].0)), Json::Num(dec_digits(moves[i].1))],
                    ),
                ),
            ),
            Json::Text(id),
        ],
        Ev::Snapshot { id, ts, object } => seq![
            Json::Text("snapshot"@),
            Json::Text(id),
            Json::Text(ts),
            object,
        ],
    }
}

/// What decoding a wire array yields: an event, or one finding.
pub enum DecodeOutcome {
    Parsed(Ev),
    Refused(DiagnosticLevel, DiagnosticCode),
}

/// Decodes an `observe` array: id, timestamp, change count.
pub open spec fn spec_decode_observe(items: Seq<Json>) -> DecodeOutcome {
    if items.len() != 4 {
        DecodeOutcome::Refused(DiagnosticLevel::Fatal, DiagnosticCode::WrongFieldCount)
    } else {
        match (items[1], items[2], items[3]) {
            (Json::Text(id), Json::Text(ts), Json::Num(n)) => if ts_parse(ts) is Some {
                match count_of_num(n) {
                    Some(c) => DecodeOutcome::Parsed(Ev::Observe { id, ts, count: c }),
                    None => DecodeOutcome::Refused(
                        DiagnosticLevel::Fatal,
                        DiagnosticCode::WrongFieldType,
                    ),
                }
            } else {
                DecodeOutcome::Refused(DiagnosticLevel::Fatal, DiagnosticCode::WrongFieldType)
            },
            _ => DecodeOutcome::Refused(DiagnosticLevel::Fatal, DiagnosticCode::WrongFieldType),
        }
    }
}

/// Decodes an `add` or `change` array: path, value, id.
pub open spec fn spec_decode_mutation(items: Seq<Json>, is_add: bool) -> DecodeOutcome {
    if items.len() != 4 {
        DecodeOutcome::Refused(DiagnosticLevel::Fatal, DiagnosticCode::WrongFieldCount)
    } else {
        match (items[1], items[3]) {
            (Json::Text(path), Json::Text(id)) => if is_add {
                DecodeOutcome::Parsed(Ev::Add { path, value: items[2], id })
            } else {
                DecodeOutcome::Parsed(Ev::Change { path, value: items[2], id })
            },
            _ => DecodeOutcome::Refused(DiagnosticLevel::Fatal, DiagnosticCode::WrongFieldType),
        }
    }
}

/// Decodes a `remove` array: path, id.
pub open spec fn spec_decode_remove(items: Seq<Json>) -> DecodeOutcome {
    if items.len() != 3 {
        DecodeOutcome::Refused(DiagnosticLevel::Fatal, DiagnosticCode::WrongFieldCount)
    } else {
        match (items[1], items[2]) {
            (Json::Text(path), Json::Text(id)) => DecodeOutcome::Parsed(
                Ev::Remove { path, id },
            ),
            _ => DecodeOutcome::Refused(DiagnosticLevel::Fatal, DiagnosticCode::WrongFieldType),
        }
    }
}

/// Decodes a `move` array: path, move pairs, id.
pub open spec fn spec_decode_move(items: Seq<Json>) -> DecodeOutcome {
    if items.len() != 4 {
        DecodeOutcome::Refused(DiagnosticLevel::Fatal, DiagnosticCode::WrongFieldCount)
    } else {
        match items[1] {
            Json::Text(path) => {
                let pairs = match items[2] {
                    Json::Arr(pairs) => spec_moves(pairs),
                    _ => None,
                };
                match pairs {
                    Some(moves) => match items[3] {
                        Json::Text(id) => DecodeOutcome::Parsed(Ev::Move { path, moves, id }),
                        _ => DecodeOutcome::Refused(
                            DiagnosticLevel::Fatal,
                            DiagnosticCode::WrongFieldType,
                        ),
                    },
                    None => DecodeOutcome::Refused(
                        DiagnosticLevel::Fatal,
                        DiagnosticCode::WrongFieldType,
                    ),
                }
            },
            _ => DecodeOutcome::Refused(DiagnosticLevel::Fatal, DiagnosticCode::WrongFieldType),
        }
    }
}

/// Decodes a `snapshot` array: id, timestamp, object.
pub open spec fn spec_decode_snapshot(items: Seq<Json>) -> DecodeOutcome {
    if items.len() != 4 {
        DecodeOutcome::Refused(DiagnosticLevel::Fatal, DiagnosticCode::WrongFieldCount)
    } else {
        match (items[1], items[2]) {
            (Json::Text(id), Json::Text(ts)) => if ts_parse(ts) is Some {
                DecodeOutcome::Parsed(Ev::Snapshot { id, ts, object: items[3] })
            } else {
                DecodeOutcome::Refused(DiagnosticLevel::Fatal, DiagnosticCode::WrongFieldType)
            },
            _ => DecodeOutcome::Refused(DiagnosticLevel::Fatal, DiagnosticCode::WrongFieldType),
        }
    }
}

/// What decoding a wire array yields: field order and arity are exact; an
/// empty array or a non-string tag is fatal, an unknown tag only a warning;
/// within a line the first field error wins.
pub open spec fn spec_decode(items: Seq<Json>) -> DecodeOutcome {
    if items.len() == 0 {
        DecodeOutcome::Refused(DiagnosticLevel::Fatal, DiagnosticCode::WrongFieldCount)
    } else {
        match items[0] {
            Json::Text(tag) => if tag == "observe"@ {
                spec_decode_observe(items)
            } else if tag == "add"@ {
                spec_decode_mutation(items, true)
            } else if tag == "change"@ {
                spec_decode_mutation(items, false)
            } else if tag == "remove"@ {
                spec_decode_remove(items)
            } else if tag == "move"@ {
                spec_decode_move(items)
            } else if tag == "snapshot"@ {
                spec_decode_snapshot(items)
            } else {
                DecodeOutcome::Refused(DiagnosticLevel::Warning, DiagnosticCode::UnknownEventType)
            },
            _ => DecodeOutcome::Refused(DiagnosticLevel::Fatal, DiagnosticCode::WrongFieldType),
        }
    }
}

/// The digit character of one decimal digit, executable form.
fn digit_char_x(d: usize) -> (r: char)
    requires
        d < 10,
    ensures
        r == digit_char(d as int),
{
    match d {
        0 => '0',
        1 => '1',
        2 => '2',
        3 => '3',
        4 => '4',
        5 => '5',
        6 => '6',
        7 => '7',
        8 => '8',
        _ => '9',
    }
}

/// The decimal digits of a number, most significant first.
pub(crate) fn usize_digit_chars(n: usize) -> (r: Vec<char>)
    ensures
        r@ == dec_digits(n as int),
    decreases n,
{
    if n < 10 {
        let mut r: Vec<char> = Vec::new();
        r.push(digit_char_x(n));
        proof {
            assert(r@ =~= dec_digits(n as int));
        }
        r
    } else {
        let mut r = usize_digit_chars(n / 10);
        r.push(digit_char_x(n % 10));
        proof {
            assert(r@ =~= dec_digits(n as int));
        }
        r
    }
}

/// The decimal text of a number.
pub(crate) fn usize_string(n: usize) -> (r: String)
    ensures
        r@ == dec_digits(n as int),
{
    let cs = usize_digit_chars(n);
    chars_string(&cs)
}

/// Decimal digits carry their value: the canonical digits of `n` are all
/// digits and read back as `n`.
pub proof fn lemma_dec_digits_value(n: int)
    requires
        0 <= n,
    ensures
        dec_digits(n).len() > 0,
        all_digits(dec_digits(n)),
        dec_value(dec_digits(n)) == n,
    decreases n,
{
    if n < 10 {
        let s = dec_digits(n);
        assert(s == seq![digit_char(n)]);
        assert(s.drop_last() =~= Seq::<char>::empty());
        assert(dec_value(Seq::<char>::empty()) == 0);
        assert('0' <= digit_char(n) <= '9');
        assert(digit_char(n) as int - '0' as int == n);
        assert(dec_value(s) == dec_value(s.drop_last()) * 10 + (s.last() as int - '0' as int));
    } else {
        lemma_dec_digits_value(n / 10);
        let p = dec_digits(n / 10);
        let s = dec_digits(n);
        assert(s == p + seq![digit_char(n % 10)]);
        assert(s.drop_last() =~= p);
        assert(s.last() == digit_char(n % 10));
        assert('0' <= digit_char(n % 10) <= '9');
        assert(digit_char(n % 10) as int - '0' as int == n % 10);
        assert(dec_value(s) == dec_value(p) * 10 + n % 10);
        assert forall|i: int| 0 <= i < s.len() implies '0' <= #[trigger] s[i] <= '9' by {
            if i < p.len() {
                assert(s[i] == p[i]);
            }
        }
    }
}

/// Parses a number text as a count, digits only, rejecting values that do
/// not fit the machine.
pub(crate) fn parse_count(text: &String) -> (r: Option<usize>)
    ensures
        match r {
            Some(n) => count_of_num(text@) == Some(n as int),
            None => count_of_num(text@) is None,
        },
{
    let cs = str_chars(text.as_str());
    if cs.len() == 0 {
        return None;
    }
    let mut acc: usize = 0;
    let mut i: usize = 0;
    while i < cs.len()
        invariant
            cs@ == text@,
            0 <= i <= cs@.len(),
            all_digits(cs@.take(i as int)),
            acc == dec_value(cs@.take(i as int)),
            acc <= usize::MAX,
        decreases cs@.len() - i,
    {
        let c = cs[i];
        if c < '0' || c > '9' {
            proof {
                assert(!('0' <= text@[i as int] && text@[i as int] <= '9'));
                assert(!all_digits(text@));
            }
            return None;
        }
        let d: usize = (c as u32 - '0' as u32) as usize;
        let ghost prefix = cs@.take(i as int);
        let ghost prefix1 = cs@.take(i as int + 1);
        proof {
            assert(prefix1.drop_last() =~= prefix);
            assert(prefix1.last() == c);
            assert(dec_value(prefix1) == acc * 10 + d);
        }
        if acc > (usize::MAX - d) / 10 {
            proof {
                if all_digits(text@) {
                    crate::pointer::lemma_dec_value_monotone(text@, i as int + 1);
                    assert(acc * 10 + d > usize::MAX) by (nonlinear_arith)
                        requires
                            acc > (usize::MAX - d) / 10,
                            0 <= d <= 9,
                            acc >= 0,
                    ;
                    assert(dec_value(text@) > usize::MAX);
                }
                assert(count_of_num(text@) is None);
            }
            return None;
        }
        proof {
            assert(acc * 10 + d <= usize::MAX) by (nonlinear_arith)
                requires
                    acc <= (usize::MAX - d) / 10,
                    0 <= d <= 9,
                    acc >= 0,
            ;
        }
        acc = acc * 10 + d;
        i = i + 1;
    }
    proof {
        assert(cs@.take(i as int) =~= text@);
    }
    Some(acc)
}

/// Whether a string equals a literal.
fn tag_is(tag: &String, lit: &str) -> (r: bool)
    ensures
        r == (tag@ == lit@),
{
    *tag == lit.to_owned()
}

/// The result of decoding one wire array: the event, if one was produced,
/// and the findings collected while reading the fields.
#[derive(Debug)]
pub struct EventDeserializer {
    pub event: Option<Event>,
    pub diagnostics: Vec<Diagnostic>,
}

impl EventDeserializer {
    /// An empty result: no event, no findings.
    pub fn new() -> (r: Self)
        ensures
            r.event is None,
            r.diagnostics@ == Seq::<Diagnostic>::empty(),
    {
        Self { event: None, diagnostics: Vec::new() }
    }
}

/// A decode result refusing the line with one finding.
fn refused(level: DiagnosticLevel, code: DiagnosticCode, description: &str) -> (r:
    EventDeserializer)
    ensures
        r.event is None,
        r.diagnostics@.len() == 1,
        r.diagnostics@[0].level == level,
        r.diagnostics@[0].code == code,
{
    let mut diagnostics: Vec<Diagnostic> = Vec::new();
    diagnostics.push(Diagnostic::new(level, code, description.to_owned()));
    EventDeserializer { event: None, diagnostics }
}

/// A decode result producing an event and no findings.
fn produced(event: Event) -> (r: EventDeserializer)
    ensures
        r.event == Some(event),
        r.diagnostics@.len() == 0,
{
    EventDeserializer { event: Some(event), diagnostics: Vec::new() }
}

/// Decodes an `observe` array.
fn decode_observe(items: &Vec<JsonValue>) -> (r: EventDeserializer)
    ensures
        match spec_decode_observe(shapes_of(items@)) {
            DecodeOutcome::Parsed(ev) => r.event matches Some(e) && e@ == ev
                && r.diagnostics@.len() == 0,
            DecodeOutcome::Refused(lv, c) => r.event is None && r.diagnostics@.len() == 1
                && r.diagnostics@[0].level == lv && r.diagnostics@[0].code == c,
        },
        json_wf(Json::Arr(shapes_of(items@))) ==> (r.event matches Some(e) ==> ev_value_wf(e@)),
{
    let ghost shp = shapes_of(items@);
    if items.len() != 4 {
        return refused(
            DiagnosticLevel::Fatal,
            DiagnosticCode::WrongFieldCount,
            "an observe event has exactly four fields",
        );
    }
    proof {
        assert(shp[1] == json_of(items@[1]));
        assert(shp[2] == json_of(items@[2]));
        assert(shp[3] == json_of(items@[3]));
    }
    let f1 = &items[1];
    let id: &String;
    match f1 {
        JsonValue::Text(s) => {
            id = s;
        },
        _ => {
            return refused(
                DiagnosticLevel::Fatal,
                DiagnosticCode::WrongFieldType,
                "the observation id must be a string",
            );
        },
    }
    let f2 = &items[2];
    let ts: &String;
    match f2 {
        JsonValue::Text(s) => {
            ts = s;
        },
        _ => {
            return refused(
                DiagnosticLevel::Fatal,
                DiagnosticCode::WrongFieldType,
                "the timestamp must be a string",
            );
        },
    }
    if crate::outside::parse_timestamp(ts.as_str()).is_none() {
        return refused(
            DiagnosticLevel::Fatal,
            DiagnosticCode::WrongFieldType,
            "the timestamp must be an RFC-3339 datetime",
        );
    }
    let f3 = &items[3];
    let n: &String;
    match f3 {
        JsonValue::Num(s) => {
            n = s;
        },
        _ => {
            return refused(
                DiagnosticLevel::Fatal,
                DiagnosticCode::WrongFieldType,
                "the change count must be a non-negative integer",
            );
        },
    }
    match parse_count(n) {
        Some(c) => produced(
            Event::Observe { observation_id: id.clone(), timestamp: ts.clone(), change_count: c },
        ),
        None => refused(
            DiagnosticLevel::Fatal,
            DiagnosticCode::WrongFieldType,
            "the change count must be a non-negative integer",
        ),
    }
}

/// Decodes an `add` or `change` array.
fn decode_mutation(items: &Vec<JsonValue>, is_add: bool) -> (r: EventDeserializer)
    ensures
        match spec_decode_mutation(shapes_of(items@), is_add) {
            DecodeOutcome::Parsed(ev) => r.event matches Some(e) && e@ == ev
                && r.diagnostics@.len() == 0,
            DecodeOutcome::Refused(lv, c) => r.event is None && r.diagnostics@.len() == 1
                && r.diagnostics@[0].level == lv && r.diagnostics@[0].code == c,
        },
        json_wf(Json::Arr(shapes_of(items@))) ==> (r.event matches Some(e) ==> ev_value_wf(e@)),
{
    let ghost shp = shapes_of(items@);
    if items.len() != 4 {
        return refused(
            DiagnosticLevel::Fatal,
            DiagnosticCode::WrongFieldCount,
            "an add or change event has exactly four fields",
        );
    }
    proof {
        assert(shp[1] == json_of(items@[1]));
        assert(shp[2] == json_of(items@[2]));
        assert(shp[3] == json_of(items@[3]));
    }
    let f1 = &items[1];
    let path: &String;
    match f1 {
        JsonValue::Text(s) => {
            path = s;
        },
        _ => {
            return refused(
                DiagnosticLevel::Fatal,
                DiagnosticCode::WrongFieldType,
                "the path must be a string",
            );
        },
    }
    let f3 = &items[3];
    let id: &String;
    match f3 {
        JsonValue::Text(s) => {
            id = s;
        },
        _ => {
            return refused(
                DiagnosticLevel::Fatal,
                DiagnosticCode::WrongFieldType,
                "the observation id must be a string",
            );
        },
    }
    let value = items[2].deep_clone();
    proof {
        if json_wf(Json::Arr(shp)) {
            crate::value::lemma_arr_wf_elem(shp, 2);
        }
    }
    if is_add {
        produced(Event::Add { path: path.clone(), value, observation_id: id.clone() })
    } else {
        produced(Event::Change { path: path.clone(), new_value: value, observation_id: id.clone() })
    }
}

/// Decodes a `remove` array.
fn decode_remove(items: &Vec<JsonValue>) -> (r: EventDeserializer)
    ensures
        match spec_decode_remove(shapes_of(items@)) {
            DecodeOutcome::Parsed(ev) => r.event matches Some(e) && e@ == ev
                && r.diagnostics@.len() == 0,
            DecodeOutcome::Refused(lv, c) => r.event is None && r.diagnostics@.len() == 1
                && r.diagnostics@[0].level == lv && r.diagnostics@[0].code == c,
        },
        json_wf(Json::Arr(shapes_of(items@))) ==> (r.event matches Some(e) ==> ev_value_wf(e@)),
{
    let ghost shp = shapes_of(items@);
    if items.len() != 3 {
        return refused(
            DiagnosticLevel::Fatal,
            DiagnosticCode::WrongFieldCount,
            "a remove event has exactly three fields",
        );
    }
    proof {
        assert(shp[1] == json_of(items@[1]));
        assert(shp[2] == json_of(items@[2]));
    }
    let f1 = &items[1];
    let path: &String;
    match f1 {
        JsonValue::Text(s) => {
            path = s;
        },
        _ => {
            return refused(
                DiagnosticLevel::Fatal,
                DiagnosticCode::WrongFieldType,
                "the path must be a string",
            );
        },
    }
    let f2 = &items[2];
    let id: &String;
    match f2 {
        JsonValue::Text(s) => {
            id = s;
        },
        _ => {
            return refused(
                DiagnosticLevel::Fatal,
                DiagnosticCode::WrongFieldType,
                "the observation id must be a string",
            );
        },
    }
    produced(Event::Remove { path: path.clone(), observation_id: id.clone() })
}

/// Decodes a `move` array.
fn decode_move(items: &Vec<JsonValue>) -> (r: EventDeserializer)
    ensures
        match spec_decode_move(shapes_of(items@)) {
            DecodeOutcome::Parsed(ev) => r.event matches Some(e) && e@ == ev
                && r.diagnostics@.len() == 0,
            DecodeOutcome::Refused(lv, c) => r.event is None && r.diagnostics@.len() == 1
                && r.diagnostics@[0].level == lv && r.diagnostics@[0].code == c,
        },
        json_wf(Json::Arr(shapes_of(items@))) ==> (r.event matches Some(e) ==> ev_value_wf(e@)),
{
    let ghost shp = shapes_of(items@);
    if items.len() != 4 {
        return refused(
            DiagnosticLevel::Fatal,
            DiagnosticCode::WrongFieldCount,
            "a move event has exactly four fields",
        );
    }
    proof {
        assert(shp[1] == json_of(items@[1]));
        assert(shp[2] == json_of(items@[2]));
        assert(shp[3] == json_of(items@[3]));
    }
    let f1 = &items[1];
    let path: &String;
    match f1 {
        JsonValue::Text(s) => {
            path = s;
        },
        _ => {
            return refused(
                DiagnosticLevel::Fatal,
                DiagnosticCode::WrongFieldType,
                "the path must be a string",
            );
        },
    }
    let f2 = &items[2];
    let pairs: &Vec<JsonValue>;
    match f2 {
        JsonValue::Arr(p) => {
            pairs = p;
        },
        _ => {
            return refused(
                DiagnosticLevel::Fatal,
                DiagnosticCode::WrongFieldType,
                "the moves must be an array of [from, to] pairs",
            );
        },
    }
    let ghost pshp = shapes_of(pairs@);
    proof {
        assert(shp[2] == Json::Arr(pshp));
    }
    let mut moves: Vec<(usize, usize)> = Vec::new();
    let mut k: usize = 0;
    proof {
        assert(pshp.skip(0) =~= pshp);
        match spec_moves(pshp) {
            Some(rest) => {
                assert(move_views(moves@) + rest =~= rest);
            },
            None => {},
        }
    }
    while k < pairs.len()
        invariant
            0 <= k <= pairs@.len(),
            items@.len() == 4,
            shapes_of(items@)[1] == Json::Text(path@),
            shapes_of(items@)[2] == Json::Arr(pshp),
            pshp == shapes_of(pairs@),
            move_views(moves@).len() == k,
            match spec_moves(pshp.skip(k as int)) {
                Some(rest) => spec_moves(pshp) == Some(move_views(moves@) + rest),
                None => spec_moves(pshp) is None,
            },
        decreases pairs@.len() - k,
    {
        let ghost pk = pshp[k as int];
        proof {
            assert(pk == json_of(pairs@[k as int]));
            assert(pshp.skip(k as int)[0] == pk);
            assert(pshp.skip(k as int).skip(1) =~= pshp.skip(k as int + 1));
        }
        let pe = &pairs[k];
        let two: &Vec<JsonValue>;
        match pe {
            JsonValue::Arr(t) => {
                two = t;
            },
            _ => {
                proof {
                    assert(spec_move_pair(pk) is None);
                    assert(spec_moves(pshp.skip(k as int)) is None);
                }
                return refused(
                    DiagnosticLevel::Fatal,
                    DiagnosticCode::WrongFieldType,
                    "each move must be a [from, to] pair",
                );
            },
        }
        proof {
            assert(pk == Json::Arr(shapes_of(two@)));
        }
        if two.len() != 2 {
            proof {
                assert(spec_move_pair(pk) is None);
                assert(spec_moves(pshp.skip(k as int)) is None);
            }
            return refused(
                DiagnosticLevel::Fatal,
                DiagnosticCode::WrongFieldType,
                "each move must be a [from, to] pair",
            );
        }
        proof {
            assert(shapes_of(two@)[0] == json_of(two@[0]));
            assert(shapes_of(two@)[1] == json_of(two@[1]));
        }
        let t0 = &two[0];
        let a: &String;
        match t0 {
            JsonValue::Num(s) => {
                a = s;
            },
            _ => {
                proof {
                    assert(spec_move_pair(pk) is None);
                    assert(spec_moves(pshp.skip(k as int)) is None);
                }
                return refused(
                    DiagnosticLevel::Fatal,
                    DiagnosticCode::WrongFieldType,
                    "the 'from' index must be a non-negative integer",
                );
            },
        }
        let t1 = &two[1];
        let b: &String;
        match t1 {
            JsonValue::Num(s) => {
                b = s;
            },
            _ => {
                proof {
                    assert(spec_move_pair(pk) is None);
                    assert(spec_moves(pshp.skip(k as int)) is None);
                }
                return refused(
                    DiagnosticLevel::Fatal,
                    DiagnosticCode::WrongFieldType,
                    "the 'to' index must be a non-negative integer",
                );
            },
        }
        let from_idx: usize;
        match parse_count(a) {
            Some(f) => {
                from_idx = f;
            },
            None => {
                proof {
                    assert(spec_move_pair(pk) is None);
                    assert(spec_moves(pshp.skip(k as int)) is None);
                }
                return refused(
                    DiagnosticLevel::Fatal,
                    DiagnosticCode::WrongFieldType,
                    "the 'from' index must be a non-negative integer",
                );
            },
        }
        let to_idx: usize;
        match parse_count(b) {
            Some(t) => {
                to_idx = t;
            },
            None => {
                proof {
                    assert(spec_move_pair(pk) is None);
                    assert(spec_moves(pshp.skip(k as int)) is None);
                }
                return refused(
                    DiagnosticLevel::Fatal,
                    DiagnosticCode::WrongFieldType,
                    "the 'to' index must be a non-negative integer",
                );
            },
        }
        let ghost oldmoves = moves@;
        moves.push((from_idx, to_idx));
        proof {
            assert(spec_move_pair(pk) == Some((from_idx as int, to_idx as int)));
            assert(move_views(moves@) =~= move_views(oldmoves).push(
                (from_idx as int, to_idx as int),
            ));
            match spec_moves(pshp.skip(k as int + 1)) {
                Some(rest) => {
                    assert(spec_moves(pshp.skip(k as int)) == Some(
                        seq![(from_idx as int, to_idx as int)] + rest,
                    ));
                    assert(move_views(oldmoves) + (seq![(from_idx as int, to_idx as int)] + rest)
                        =~= move_views(moves@) + rest);
                },
                None => {
                    assert(spec_moves(pshp.skip(k as int)) is None);
                },
            }
        }
        k = k + 1;
    }
    proof {
        assert(pshp.skip(k as int) =~= Seq::<Json>::empty());
        assert(spec_moves(pshp.skip(k as int)) == Some(Seq::<(int, int)>::empty()));
        assert(move_views(moves@) + Seq::<(int, int)>::empty() =~= move_views(moves@));
        assert(spec_moves(pshp) == Some(move_views(moves@)));
    }
    let f3 = &items[3];
    let id: &String;
    match f3 {
        JsonValue::Text(s) => {
            id = s;
        },
        _ => {
            return refused(
                DiagnosticLevel::Fatal,
                DiagnosticCode::WrongFieldType,
                "the observation id must be a string",
            );
        },
    }
    produced(Event::Move { path: path.clone(), moves, observation_id: id.clone() })
}

/// Decodes a `snapshot` array.
fn decode_snapshot(items: &Vec<JsonValue>) -> (r: EventDeserializer)
    ensures
        match spec_decode_snapshot(shapes_of(items@)) {
            DecodeOutcome::Parsed(ev) => r.event matches Some(e) && e@ == ev
                && r.diagnostics@.len() == 0,
            DecodeOutcome::Refused(lv, c) => r.event is None && r.diagnostics@.len() == 1
                && r.diagnostics@[0].level == lv && r.diagnostics@[0].code == c,
        },
        json_wf(Json::Arr(shapes_of(items@))) ==> (r.event matches Some(e) ==> ev_value_wf(e@)),
{
    let ghost shp = shapes_of(items@);
    if items.len() != 4 {
        return refused(
            DiagnosticLevel::Fatal,
            DiagnosticCode::WrongFieldCount,
            "a snapshot event has exactly four fields",
        );
    }
    proof {
        assert(shp[1] == json_of(items@[1]));
        assert(shp[2] == json_of(items@[2]));
        assert(shp[3] == json_of(items@[3]));
    }
    let f1 = &items[1];
    let id: &String;
    match f1 {
        JsonValue::Text(s) => {
            id = s;
        },
        _ => {
            return refused(
                DiagnosticLevel::Fatal,
                DiagnosticCode::WrongFieldType,
                "the observation id must be a string",
            );
        },
    }
    let f2 = &items[2];
    let ts: &String;
    match f2 {
        JsonValue::Text(s) => {
            ts = s;
        },
        _ => {
            return refused(
                DiagnosticLevel::Fatal,
                DiagnosticCode::WrongFieldType,
                "the timestamp must be a string",
            );
        },
    }
    if crate::outside::parse_timestamp(ts.as_str()).is_none() {
        return refused(
            DiagnosticLevel::Fatal,
            DiagnosticCode::WrongFieldType,
            "the timestamp must be an RFC-3339 datetime",
        );
    }
    let object = items[3].deep_clone();
    proof {
        if json_wf(Json::Arr(shp)) {
            crate::value::lemma_arr_wf_elem(shp, 3);
        }
    }
    produced(Event::Snapshot { observation_id: id.clone(), timestamp: ts.clone(), object })
}

/// Decodes one wire array into an event, or collects exactly one finding.
/// A malformed line starves itself of an event; it never stops a read.
pub fn decode_event(items: &Vec<JsonValue>) -> (r: EventDeserializer)
    ensures
        match spec_decode(shapes_of(items@)) {
            DecodeOutcome::Parsed(ev) => r.event matches Some(e) && e@ == ev
                && r.diagnostics@.len() == 0,
            DecodeOutcome::Refused(lv, c) => r.event is None && r.diagnostics@.len() == 1
                && r.diagnostics@[0].level == lv && r.diagnostics@[0].code == c,
        },
        json_wf(Json::Arr(shapes_of(items@))) ==> (r.event matches Some(e) ==> ev_value_wf(e@)),
{
    let ghost shp = shapes_of(items@);
    if items.len() == 0 {
        return refused(
            DiagnosticLevel::Fatal,
            DiagnosticCode::WrongFieldCount,
            "an event must be a non-empty array with a string tag first",
        );
    }
    proof {
        assert(shp[0] == json_of(items@[0]));
    }
    let f0 = &items[0];
    match f0 {
        JsonValue::Text(tag) => {
            if tag_is(tag, "observe") {
                decode_observe(items)
            } else if tag_is(tag, "add") {
                decode_mutation(items, true)
            } else if tag_is(tag, "change") {
                decode_mutation(items, false)
            } else if tag_is(tag, "remove") {
                decode_remove(items)
            } else if tag_is(tag, "move") {
                decode_move(items)
            } else if tag_is(tag, "snapshot") {
                decode_snapshot(items)
            } else {
                refused(
                    DiagnosticLevel::Warning,
                    DiagnosticCode::UnknownEventType,
                    "the event tag is not one this reader knows",
                )
            }
        },
        _ => refused(
            DiagnosticLevel::Fatal,
            DiagnosticCode::WrongFieldType,
            "the first element of an event must be its string tag",
        ),
    }
}

/// Encodes an event to its wire array: fixed arity, tag first. Total: every
/// event encodes.
pub fn encode_event(e: &Event) -> (r: Vec<JsonValue>)
    ensures
        shapes_of(r@) == spec_encode(e@),
{
    match e {
        Event::Observe { observation_id, timestamp, change_count } => {
            let mut r: Vec<JsonValue> = Vec::new();
            r.push(JsonValue::Text("observe".to_owned()));
            r.push(JsonValue::Text(observation_id.clone()));
            r.push(JsonValue::Text(timestamp.clone()));
            r.push(JsonValue::Num(usize_string(*change_count)));
            proof {
                assert(shapes_of(r@) =~= spec_encode(e@));
            }
            r
        },
        Event::Add { path, value, observation_id } => {
            let mut r: Vec<JsonValue> = Vec::new();
            r.push(JsonValue::Text("add".to_owned()));
            r.push(JsonValue::Text(path.clone()));
            r.push(value.deep_clone());
            r.push(JsonValue::Text(observation_id.clone()));
            proof {
                assert(shapes_of(r@) =~= spec_encode(e@));
            }
            r
        },
        Event::Change { path, new_value, observation_id } => {
            let mut r: Vec<JsonValue> = Vec::new();
            r.push(JsonValue::Text("change".to_owned()));
            r.push(JsonValue::Text(path.clone()));
            r.push(new_value.deep_clone());
            r.push(JsonValue::Text(observation_id.clone()));
            proof {
                assert(shapes_of(r@) =~= spec_encode(e@));
            }
            r
        },
        Event::Remove { path, observation_id } => {
            let mut r: Vec<JsonValue> = Vec::new();
            r.push(JsonValue::Text("remove".to_owned()));
            r.push(JsonValue::Text(path.clone()));
            r.push(JsonValue::Text(observation_id.clone()));
            proof {
                assert(shapes_of(r@) =~= spec_encode(e@));
            }
            r
        },
        Event::Move { path, moves, observation_id } => {
            let ghost wire_pairs = Seq::new(
                move_views(moves@).len(),
                |i: int| Json::Arr(
                    seq![
                        Json::Num(dec_digits(move_views(moves@)[i].0)),
                        Json::Num(dec_digits(move_views(moves@)[i].1)),
                    ],
                ),
            );
            let mut pv: Vec<JsonValue> = Vec::new();
            let mut k: usize = 0;
            while k < moves.len()
                invariant
                    0 <= k <= moves@.len(),
                    wire_pairs == Seq::new(
                        move_views(moves@).len(),
                        |i: int| Json::Arr(
                            seq![
                                Json::Num(dec_digits(move_views(moves@)[i].0)),
                                Json::Num(dec_digits(move_views(moves@)[i].1)),
                            ],
                        ),
                    ),
                    shapes_of(pv@) =~= wire_pairs.take(k as int),
                decreases moves@.len() - k,
            {
                let (f, t) = moves[k];
                let mut two: Vec<JsonValue> = Vec::new();
                two.push(JsonValue::Num(usize_string(f)));
                two.push(JsonValue::Num(usize_string(t)));
                let ghost twov = two@;
                let ghost oldpv = pv@;
                proof {
                    assert(shapes_of(twov) =~= seq![
                        Json::Num(dec_digits(f as int)),
                        Json::Num(dec_digits(t as int)),
                    ]);
                    assert(move_views(moves@)[k as int] == (f as int, t as int));
                    assert(wire_pairs.len() == moves@.len());
                    assert(shapes_of(oldpv).len() == oldpv.len());
                    assert(shapes_of(oldpv) == wire_pairs.take(k as int));
                    assert(oldpv.len() == k);
                }
                pv.push(JsonValue::Arr(two));
                proof {
                    assert(pv@.len() == k + 1);
                    assert(shapes_of(pv@)[k as int] == Json::Arr(shapes_of(twov)));
                    assert(Json::Arr(shapes_of(twov)) == wire_pairs[k as int]);
                    assert forall|i: int| 0 <= i < k implies shapes_of(pv@)[i] == shapes_of(
                        oldpv,
                    )[i] by {
                        assert(pv@[i] == oldpv[i]);
                    }
                    assert(shapes_of(pv@) =~= wire_pairs.take(k as int + 1));
                }
                k = k + 1;
            }
            proof {
                assert(wire_pairs.take(k as int) =~= wire_pairs);
            }
            let mut r: Vec<JsonValue> = Vec::new();
            r.push(JsonValue::Text("move".to_owned()));
            r.push(JsonValue::Text(path.clone()));
            r.push(JsonValue::Arr(pv));
            r.push(JsonValue::Text(observation_id.clone()));
            proof {
                assert(shapes_of(r@) =~= spec_encode(e@));
            }
            r
        },
        Event::Snapshot { observation_id, timestamp, object } => {
            let mut r: Vec<JsonValue> = Vec::new();
            r.push(JsonValue::Text("snapshot".to_owned()));
            r.push(JsonValue::Text(observation_id.clone()));
            r.push(JsonValue::Text(timestamp.clone()));
            r.push(object.deep_clone());
            proof {
                assert(shapes_of(r@) =~= spec_encode(e@));
            }
            r
        },
    }
}

/// Whether the values an event carries are well-formed trees.
pub open spec fn ev_value_wf(ev: Ev) -> bool {
    match ev {
        Ev::Add { value, .. } => json_wf(value),
        Ev::Change { value, .. } => json_wf(value),
        Ev::Snapshot { object, .. } => json_wf(object),
        _ => true,
    }
}

/// An event's inherent validity: timestamps parse, and counts and indices
/// fit the machine. Every event the decoder produces is valid, and so is
/// every event built from machine integers and accepted timestamps.
pub open spec fn ev_wf(ev: Ev) -> bool {
    match ev {
        Ev::Observe { ts, count, .. } => ts_parse(ts) is Some && 0 <= count <= usize::MAX,
        Ev::Snapshot { ts, .. } => ts_parse(ts) is Some,
        Ev::Move { moves, .. } => forall|i: int|
            0 <= i < moves.len() ==> 0 <= (#[trigger] moves[i]).0 <= usize::MAX && 0 <= moves[i].1
                <= usize::MAX,
        _ => true,
    }
}

/// A move list encoded as wire pairs reads back as itself.
proof fn lemma_moves_round_trip(moves: Seq<(int, int)>)
    requires
        forall|i: int|
            0 <= i < moves.len() ==> 0 <= (#[trigger] moves[i]).0 <= usize::MAX && 0 <= moves[i].1
                <= usize::MAX,
    ensures
        spec_moves(
            Seq::new(
                moves.len(),
                |i: int| Json::Arr(
                    seq![Json::Num(dec_digits(moves[i].0)), Json::Num(dec_digits(moves[i].1))],
                ),
            ),
        ) == Some(moves),
    decreases moves.len(),
{
    let wire = Seq::new(
        moves.len(),
        |i: int| Json::Arr(
            seq![Json::Num(dec_digits(moves[i].0)), Json::Num(dec_digits(moves[i].1))],
        ),
    );
    if moves.len() > 0 {
        let rest = moves.skip(1);
        lemma_moves_round_trip(rest);
        let wire_rest = Seq::new(
            rest.len(),
            |i: int| Json::Arr(
                seq![Json::Num(dec_digits(rest[i].0)), Json::Num(dec_digits(rest[i].1))],
            ),
        );
        assert(wire.skip(1) =~= wire_rest);
        lemma_dec_digits_value(moves[0].0);
        lemma_dec_digits_value(moves[0].1);
        assert(spec_move_pair(wire[0]) == Some(moves[0]));
        assert(seq![moves[0]] + rest =~= moves);
    }
}

/// The round trip law: decoding an encoded event yields the event back, with
/// no finding, for every valid event.
pub proof fn lemma_event_round_trip(ev: Ev)
    requires
        ev_wf(ev),
    ensures
        spec_decode(spec_encode(ev)) == DecodeOutcome::Parsed(ev),
{
    reveal_strlit("observe");
    reveal_strlit("add");
    reveal_strlit("change");
    reveal_strlit("remove");
    reveal_strlit("move");
    reveal_strlit("snapshot");
    assert("observe"@.len() == 7);
    assert("add"@.len() == 3);
    assert("change"@.len() == 6);
    assert("remove"@.len() == 6);
    assert("move"@.len() == 4);
    assert("snapshot"@.len() == 8);
    assert("change"@[0] == 'c' && "remove"@[0] == 'r');
    let w = spec_encode(ev);
    match ev {
        Ev::Observe { id, ts, count } => {
            lemma_dec_digits_value(count);
            assert(count_of_num(dec_digits(count)) == Some(count));
            assert(w[0] == Json::Text("observe"@));
            assert(spec_decode(w) == spec_decode_observe(w));
            assert(spec_decode_observe(w) == DecodeOutcome::Parsed(ev));
        },
        Ev::Add { path, value, id } => {
            assert(w[0] == Json::Text("add"@));
            assert(spec_decode(w) == spec_decode_mutation(w, true));
            assert(spec_decode_mutation(w, true) == DecodeOutcome::Parsed(ev));
        },
        Ev::Change { path, value, id } => {
            assert(w[0] == Json::Text("change"@));
            assert(spec_decode(w) == spec_decode_mutation(w, false));
            assert(spec_decode_mutation(w, false) == DecodeOutcome::Parsed(ev));
        },
        Ev::Remove { path, id } => {
            assert(w[0] == Json::Text("remove"@));
            assert(spec_decode(w) == spec_decode_remove(w));
            assert(spec_decode_remove(w) == DecodeOutcome::Parsed(ev));
        },
        Ev::Move { path, moves, id } => {
            lemma_moves_round_trip(moves);
            assert(w[0] == Json::Text("move"@));
            assert(spec_decode(w) == spec_decode_move(w));
            assert(spec_decode_move(w) == DecodeOutcome::Parsed(ev));
        },
        Ev::Snapshot { id, ts, object } => {
            assert(w[0] == Json::Text("snapshot"@));
            assert(spec_decode(w) == spec_decode_snapshot(w));
            assert(spec_decode_snapshot(w) == DecodeOutcome::Parsed(ev));
        },
    }
}

} // verus!
