//! The diff engine: computes an event script that rewrites one document
//! into another. Objects are compared key by key; arrays are compared by
//! element content, so an element that only changed position becomes a move
//! pair rather than a remove and an add; any other pairing that differs
//! becomes one whole-value change.

use vstd::prelude::*;

use crate::codec::dec_digits;
use crate::events::{move_views, Ev, Event};
use crate::outside::chars_string;
use crate::pointer::{escape, obj_lookup};
use crate::value::{json_eq, json_of, json_wf, obj_shapes_of, shapes_of, Json, JsonValue};

verus! {

/// A path extended by one segment: the segment is appended after a `/`; the
/// segment must already be escaped or numeric.
pub open spec fn path_join(base: Seq<char>, seg: Seq<char>) -> Seq<char> {
    base + seq!['/'] + seg
}

/// The position of the last element of `y` structurally equal to `v`, or -1.
pub open spec fn find_last(y: Seq<Json>, v: Json) -> int
    decreases y.len(),
{
    if y.len() == 0 {
        -1
    } else if json_eq(y.last(), v) {
        y.len() - 1
    } else {
        find_last(y.drop_last(), v)
    }
}

/// Whether old position `i` takes part in content matching: it is the last
/// occurrence of its content in the old array, and the new array has that
/// content somewhere. Earlier duplicates are treated as unmatched, as a
/// content-addressed index keyed by whole values does.
pub open spec fn matched_old(x: Seq<Json>, y: Seq<Json>, i: int) -> bool {
    find_last(x, x[i]) == i && find_last(y, x[i]) >= 0
}

/// Whether new position `j` takes part in content matching.
pub open spec fn matched_new(x: Seq<Json>, y: Seq<Json>, j: int) -> bool {
    find_last(y, y[j]) == j && find_last(x, y[j]) >= 0
}

/// The move pairs of an array diff, ascending by old index: each matched old
/// position whose partner sits elsewhere in the new array.
pub open spec fn spec_array_moves(x: Seq<Json>, y: Seq<Json>, i: int) -> Seq<(int, int)>
    decreases x.len() - i,
{
    if i < 0 || i >= x.len() {
        Seq::empty()
    } else {
        let rest = spec_array_moves(x, y, i + 1);
        if matched_old(x, y, i) && find_last(y, x[i]) != i {
            seq![(i, find_last(y, x[i]))] + rest
        } else {
            rest
        }
    }
}

/// The removes of an array diff, from the highest index down so that earlier
/// removes do not shift later ones.
pub open spec fn spec_array_removes(
    x: Seq<Json>,
    y: Seq<Json>,
    base: Seq<char>,
    id: Seq<char>,
    i: int,
) -> Seq<Ev>
    decreases i + 1,
{
    if i < 0 || i >= x.len() {
        Seq::empty()
    } else {
        let here: Seq<Ev> = if !matched_old(x, y, i) {
            seq![Ev::Remove { path: path_join(base, dec_digits(i)), id: id }]
        } else {
            Seq::empty()
        };
        here + spec_array_removes(x, y, base, id, i - 1)
    }
}

/// The adds of an array diff, ascending by new index.
pub open spec fn spec_array_adds(
    x: Seq<Json>,
    y: Seq<Json>,
    base: Seq<char>,
    id: Seq<char>,
    j: int,
) -> Seq<Ev>
    decreases y.len() - j,
{
    if j < 0 || j >= y.len() {
        Seq::empty()
    } else {
        let here: Seq<Ev> = if !matched_new(x, y, j) {
            seq![Ev::Add { path: path_join(base, dec_digits(j)), value: y[j], id: id }]
        } else {
            Seq::empty()
        };
        here + spec_array_adds(x, y, base, id, j + 1)
    }
}

/// An array diff: one move event carrying all reorderings (if any), then
/// removes from the highest index down, then adds in ascending order.
pub open spec fn spec_diff_arrays(
    x: Seq<Json>,
    y: Seq<Json>,
    base: Seq<char>,
    id: Seq<char>,
) -> Seq<Ev> {
    let moves = spec_array_moves(x, y, 0);
    let move_evs: Seq<Ev> = if moves.len() > 0 {
        seq![Ev::Move { path: base, moves: moves, id: id }]
    } else {
        Seq::empty()
    };
    move_evs + spec_array_removes(x, y, base, id, x.len() - 1) + spec_array_adds(
        x,
        y,
        base,
        id,
        0,
    )
}

/// The removes of an object diff: keys of the old object missing from the
/// new one, in the old object's field order.
pub open spec fn spec_obj_removes(
    ao: Seq<(Seq<char>, Json)>,
    bo: Seq<(Seq<char>, Json)>,
    base: Seq<char>,
    id: Seq<char>,
    i: int,
) -> Seq<Ev>
    decreases ao.len() - i,
{
    if i < 0 || i >= ao.len() {
        Seq::empty()
    } else {
        let here: Seq<Ev> = if obj_lookup(bo, ao[i].0) is None {
            seq![Ev::Remove { path: path_join(base, escape(ao[i].0)), id: id }]
        } else {
            Seq::empty()
        };
        here + spec_obj_removes(ao, bo, base, id, i + 1)
    }
}

/// The adds of an object diff: keys of the new object missing from the old
/// one, in the new object's field order.
pub open spec fn spec_obj_adds(
    ao: Seq<(Seq<char>, Json)>,
    bo: Seq<(Seq<char>, Json)>,
    base: Seq<char>,
    id: Seq<char>,
    j: int,
) -> Seq<Ev>
    decreases bo.len() - j,
{
    if j < 0 || j >= bo.len() {
        Seq::empty()
    } else {
        let here: Seq<Ev> = if obj_lookup(ao, bo[j].0) is None {
            seq![Ev::Add { path: path_join(base, escape(bo[j].0)), value: bo[j].1, id: id }]
        } else {
            Seq::empty()
        };
        here + spec_obj_adds(ao, bo, base, id, j + 1)
    }
}

/// An event script that rewrites `a` into `b`, addressed under `base`.
/// Objects recurse key by key — removes first, then adds, then the changed
/// common keys in the old object's order; arrays are diffed by content;
/// any other differing pair becomes one change of the whole value.
pub open spec fn spec_diff(a: Json, b: Json, base: Seq<char>, id: Seq<char>) -> Seq<Ev>
    decreases a, 0int,
{
    match (a, b) {
        (Json::Obj(ao), Json::Obj(bo)) => spec_obj_removes(ao, bo, base, id, 0) + spec_obj_adds(
            ao,
            bo,
            base,
            id,
            0,
        ) + spec_obj_changes(ao, bo, base, id, 0),
        (Json::Arr(x), Json::Arr(y)) => spec_diff_arrays(x, y, base, id),
        _ => {
            if !json_eq(a, b) {
                seq![Ev::Change { path: base, value: b, id: id }]
            } else {
                Seq::empty()
            }
        },
    }
}

/// The recursions of an object diff: common keys whose values differ, in the
/// old object's field order, each diffed under its extended path.
pub open spec fn spec_obj_changes(
    ao: Seq<(Seq<char>, Json)>,
    bo: Seq<(Seq<char>, Json)>,
    base: Seq<char>,
    id: Seq<char>,
    i: int,
) -> Seq<Ev>
    decreases ao, ao.len() - i,
{
    if i < 0 || i >= ao.len() {
        Seq::empty()
    } else {
        let here: Seq<Ev> = match obj_lookup(bo, ao[i].0) {
            Some(bv) => if !json_eq(ao[i].1, bv) {
                spec_diff(ao[i].1, bv, path_join(base, escape(ao[i].0)), id)
            } else {
                Seq::empty()
            },
            None => Seq::empty(),
        };
        here + spec_obj_changes(ao, bo, base, id, i + 1)
    }
}

/// The shapes of a sequence of events, in order.
pub open spec fn evs_of(s: Seq<Event>) -> Seq<Ev> {
    Seq::new(s.len(), |i: int| s[i]@)
}

/// A script applied to a state, event by event from position `i`: adds and
/// changes write, removes delete, moves reorder, a snapshot replaces the
/// state, and an observe marker changes nothing; the first failure stops the
/// run.
pub open spec fn spec_apply_script(st: Json, evs: Seq<Ev>, i: int) -> Result<
    Json,
    crate::diagnostics::DiagnosticCode,
>
    decreases evs.len() - i,
{
    if i < 0 || i >= evs.len() {
        Ok(st)
    } else {
        let step = match evs[i] {
            Ev::Add { path, value, .. } => crate::reader::spec_apply_set(st, path, value),
            Ev::Change { path, value, .. } => crate::reader::spec_apply_set(st, path, value),
            Ev::Remove { path, .. } => crate::reader::spec_apply_remove(st, path),
            Ev::Move { path, moves, .. } => crate::reader::spec_apply_move(st, path, moves),
            Ev::Observe { .. } => Ok(st),
            Ev::Snapshot { object, .. } => Ok(object),
        };
        match step {
            Ok(w) => spec_apply_script(w, evs, i + 1),
            Err(c) => Err(c),
        }
    }
}

/// Diffing and then applying rewrites the old value into the new one. It is
/// proved here for every pairing the diff turns into one whole-value change:
/// any two values that are not both objects and not both arrays.
pub proof fn lemma_diff_apply_change(a: Json, b: Json, id: Seq<char>)
    requires
        !(a is Obj && b is Obj),
        !(a is Arr && b is Arr),
    ensures
        spec_apply_script(a, spec_diff(a, b, Seq::empty(), id), 0) matches Ok(w) && json_eq(w, b),
{
    let evs = spec_diff(a, b, Seq::empty(), id);
    if !json_eq(a, b) {
        assert(evs == seq![Ev::Change { path: Seq::empty(), value: b, id: id }]);
        let empty_path: Seq<char> = Seq::empty();
        assert(crate::pointer::path_ok(empty_path));
        assert(crate::pointer::parse_tokens(empty_path) == Seq::<Seq<char>>::empty());
        assert(crate::pointer::spec_set(a, Seq::empty(), 0, b) == Ok::<
            Json,
            crate::pointer::PointerFault,
        >(b));
        assert(crate::reader::spec_apply_set(a, empty_path, b) == Ok::<
            Json,
            crate::diagnostics::DiagnosticCode,
        >(b));
        assert(spec_apply_script(a, evs, 0) == spec_apply_script(b, evs, 1));
    } else {
        assert(evs.len() == 0);
        assert(spec_apply_script(a, evs, 0) == Ok::<Json, crate::diagnostics::DiagnosticCode>(a));
    }
}

/// With every element from `i` up structurally unequal to `v`, the last
/// match sits in the prefix.
proof fn lemma_find_last_prefix(s: Seq<Json>, v: Json, i: int)
    requires
        0 <= i <= s.len(),
        forall|k: int| i <= k < s.len() ==> !json_eq(#[trigger] s[k], v),
    ensures
        find_last(s, v) == find_last(s.take(i), v),
    decreases s.len(),
{
    if i == s.len() {
        assert(s.take(i) =~= s);
    } else {
        let p = s.drop_last();
        assert(!json_eq(s.last(), v));
        assert forall|k: int| i <= k < p.len() implies !json_eq(#[trigger] p[k], v) by {
            assert(p[k] == s[k]);
        }
        lemma_find_last_prefix(p, v, i);
        assert(p.take(i) =~= s.take(i));
    }
}

/// The base path with one more segment, the segment escaped.
fn key_path(base: &str, key: &String) -> (r: String)
    ensures
        r@ == path_join(base@, escape(key@)),
{
    let mut cs = crate::outside::str_chars(base);
    cs.push('/');
    let kc = crate::outside::str_chars(key.as_str());
    let e = crate::pointer::escape_chars(&kc);
    let ghost pre = cs@;
    let mut j: usize = 0;
    while j < e.len()
        invariant
            0 <= j <= e@.len(),
            cs@ == pre + e@.take(j as int),
        decreases e@.len() - j,
    {
        cs.push(e[j]);
        proof {
            assert(e@.take(j as int + 1) =~= e@.take(j as int).push(e@[j as int]));
            assert(cs@ =~= pre + e@.take(j as int + 1));
        }
        j = j + 1;
    }
    proof {
        assert(e@.take(j as int) =~= e@);
        assert(cs@ =~= path_join(base@, escape(key@)));
    }
    chars_string(&cs)
}

/// The base path with one more numeric segment.
fn idx_path(base: &str, idx: usize) -> (r: String)
    ensures
        r@ == path_join(base@, dec_digits(idx as int)),
{
    let mut cs = crate::outside::str_chars(base);
    cs.push('/');
    let e = crate::codec::usize_digit_chars(idx);
    let ghost pre = cs@;
    let mut j: usize = 0;
    while j < e.len()
        invariant
            0 <= j <= e@.len(),
            e@ == dec_digits(idx as int),
            cs@ == pre + e@.take(j as int),
        decreases e@.len() - j,
    {
        cs.push(e[j]);
        proof {
            assert(e@.take(j as int + 1) =~= e@.take(j as int).push(e@[j as int]));
            assert(cs@ =~= pre + e@.take(j as int + 1));
        }
        j = j + 1;
    }
    proof {
        assert(e@.take(j as int) =~= e@);
        assert(cs@ =~= path_join(base@, dec_digits(idx as int)));
    }
    chars_string(&cs)
}

/// The position of the last element structurally equal to `v`, scanning from
/// the back.
fn find_last_eq(y: &Vec<JsonValue>, v: &JsonValue) -> (r: Option<usize>)
    requires
        json_wf(Json::Arr(shapes_of(y@))),
        v.wf(),
    ensures
        match r {
            Some(j) => find_last(shapes_of(y@), v@) == j as int,
            None => find_last(shapes_of(y@), v@) == -1,
        },
{
    let ghost sh = shapes_of(y@);
    let mut i: usize = y.len();
    while i > 0
        invariant
            0 <= i <= y@.len(),
            sh == shapes_of(y@),
            json_wf(Json::Arr(sh)),
            v.wf(),
            forall|k: int| i <= k < sh.len() ==> !json_eq(#[trigger] sh[k], v@),
        decreases i,
    {
        i = i - 1;
        proof {
            crate::value::lemma_arr_wf_elem(sh, i as int);
            assert(sh[i as int] == json_of(y@[i as int]));
        }
        if crate::value::value_eq(&y[i], v) {
            proof {
                lemma_find_last_prefix(sh, v@, i as int + 1);
                let p = sh.take(i as int + 1);
                assert(p.last() == sh[i as int]);
                assert(find_last(p, v@) == i);
            }
            return Some(i);
        }
    }
    proof {
        lemma_find_last_prefix(sh, v@, 0);
        assert(sh.take(0) =~= Seq::<Json>::empty());
    }
    None
}

/// Diffs two arrays under `base`: content matching first, then one move
/// event if anything only changed position, removes from the top down, adds
/// bottom up.
fn diff_arrays(
    x: &Vec<JsonValue>,
    y: &Vec<JsonValue>,
    base: &str,
    id: &str,
    out: &mut Vec<Event>,
)
    requires
        json_wf(Json::Arr(shapes_of(x@))),
        json_wf(Json::Arr(shapes_of(y@))),
    ensures
        evs_of(final(out)@) == evs_of(old(out)@) + spec_diff_arrays(
            shapes_of(x@),
            shapes_of(y@),
            base@,
            id@,
        ),
{
    let ghost shx = shapes_of(x@);
    let ghost shy = shapes_of(y@);
    let ghost evs0 = evs_of(old(out)@);
    let mut moves: Vec<(usize, usize)> = Vec::new();
    let mut i: usize = 0;
    proof {
        assert(move_views(moves@) + spec_array_moves(shx, shy, 0) =~= spec_array_moves(
            shx,
            shy,
            0,
        ));
    }
    while i < x.len()
        invariant
            0 <= i <= x@.len(),
            shx == shapes_of(x@),
            shy == shapes_of(y@),
            json_wf(Json::Arr(shx)),
            json_wf(Json::Arr(shy)),
            move_views(moves@) + spec_array_moves(shx, shy, i as int) == spec_array_moves(
                shx,
                shy,
                0,
            ),
        decreases x@.len() - i,
    {
        proof {
            crate::value::lemma_arr_wf_elem(shx, i as int);
            assert(shx[i as int] == json_of(x@[i as int]));
        }
        let last_in_x = find_last_eq(x, &x[i]);
        let matched = match last_in_x {
            Some(li) => li == i,
            None => false,
        };
        let ghost oldmoves = moves@;
        if matched {
            match find_last_eq(y, &x[i]) {
                Some(nj) => {
                    if nj != i {
                        moves.push((i, nj));
                        proof {
                            assert(move_views(moves@) =~= move_views(oldmoves).push(
                                (i as int, nj as int),
                            ));
                            assert(move_views(oldmoves) + (seq![(i as int, nj as int)]
                                + spec_array_moves(shx, shy, i as int + 1)) =~= move_views(moves@)
                                + spec_array_moves(shx, shy, i as int + 1));
                        }
                    }
                },
                None => {},
            }
        }
        i = i + 1;
    }
    proof {
        assert(spec_array_moves(shx, shy, i as int) =~= Seq::<(int, int)>::empty());
        assert(move_views(moves@) + spec_array_moves(shx, shy, i as int) =~= move_views(moves@));
    }
    let ghost mvs = spec_array_moves(shx, shy, 0);
    if moves.len() > 0 {
        out.push(
            Event::Move { path: base.to_owned(), moves, observation_id: id.to_owned() },
        );
    }
    let ghost evs1 = evs_of(out@);
    proof {
        let move_evs: Seq<Ev> = if mvs.len() > 0 {
            seq![Ev::Move { path: base@, moves: mvs, id: id@ }]
        } else {
            Seq::empty()
        };
        assert(evs1 =~= evs0 + move_evs);
    }
    let mut i2: usize = x.len();
    proof {
        assert(evs_of(out@) + spec_array_removes(shx, shy, base@, id@, i2 as int - 1) =~= evs1
            + spec_array_removes(shx, shy, base@, id@, shx.len() - 1));
    }
    while i2 > 0
        invariant
            0 <= i2 <= x@.len(),
            shx == shapes_of(x@),
            shy == shapes_of(y@),
            json_wf(Json::Arr(shx)),
            json_wf(Json::Arr(shy)),
            evs1 == evs0 + (if spec_array_moves(shx, shy, 0).len() > 0 {
                seq![
                    Ev::Move {
                        path: base@,
                        moves: spec_array_moves(shx, shy, 0),
                        id: id@,
                    },
                ]
            } else {
                Seq::<Ev>::empty()
            }),
            evs_of(out@) + spec_array_removes(shx, shy, base@, id@, i2 as int - 1) == evs1
                + spec_array_removes(shx, shy, base@, id@, shx.len() - 1),
        decreases i2,
    {
        i2 = i2 - 1;
        proof {
            crate::value::lemma_arr_wf_elem(shx, i2 as int);
            assert(shx[i2 as int] == json_of(x@[i2 as int]));
        }
        let last_in_x = find_last_eq(x, &x[i2]);
        let matched = match last_in_x {
            Some(li) => li == i2 && find_last_eq(y, &x[i2]).is_some(),
            None => false,
        };
        let ghost pre = evs_of(out@);
        if !matched {
            out.push(
                Event::Remove {
                    path: idx_path(base, i2),
                    observation_id: id.to_owned(),
                },
            );
            proof {
                assert(evs_of(out@) =~= pre.push(
                    Ev::Remove { path: path_join(base@, dec_digits(i2 as int)), id: id@ },
                ));
            }
        }
        proof {
            assert(spec_array_removes(shx, shy, base@, id@, i2 as int) == (if !matched_old(
                shx,
                shy,
                i2 as int,
            ) {
                seq![Ev::Remove { path: path_join(base@, dec_digits(i2 as int)), id: id@ }]
            } else {
                Seq::<Ev>::empty()
            }) + spec_array_removes(shx, shy, base@, id@, i2 as int - 1));
            assert(evs_of(out@) + spec_array_removes(shx, shy, base@, id@, i2 as int - 1) =~= evs1
                + spec_array_removes(shx, shy, base@, id@, shx.len() - 1));
        }
    }
    let ghost evs2 = evs_of(out@);
    proof {
        assert(spec_array_removes(shx, shy, base@, id@, -1) =~= Seq::<Ev>::empty());
        assert(evs2 + spec_array_removes(shx, shy, base@, id@, -1) =~= evs2);
    }
    let mut j: usize = 0;
    proof {
        assert(evs_of(out@) + spec_array_adds(shx, shy, base@, id@, 0) =~= evs2
            + spec_array_adds(shx, shy, base@, id@, 0));
    }
    while j < y.len()
        invariant
            0 <= j <= y@.len(),
            shx == shapes_of(x@),
            shy == shapes_of(y@),
            json_wf(Json::Arr(shx)),
            json_wf(Json::Arr(shy)),
            evs_of(out@) + spec_array_adds(shx, shy, base@, id@, j as int) == evs2
                + spec_array_adds(shx, shy, base@, id@, 0),
        decreases y@.len() - j,
    {
        proof {
            crate::value::lemma_arr_wf_elem(shy, j as int);
            assert(shy[j as int] == json_of(y@[j as int]));
        }
        let last_in_y = find_last_eq(y, &y[j]);
        let matched = match last_in_y {
            Some(lj) => lj == j && find_last_eq(x, &y[j]).is_some(),
            None => false,
        };
        let ghost pre = evs_of(out@);
        if !matched {
            out.push(
                Event::Add {
                    path: idx_path(base, j),
                    value: y[j].deep_clone(),
                    observation_id: id.to_owned(),
                },
            );
            proof {
                assert(evs_of(out@) =~= pre.push(
                    Ev::Add {
                        path: path_join(base@, dec_digits(j as int)),
                        value: shy[j as int],
                        id: id@,
                    },
                ));
            }
        }
        proof {
            assert(evs_of(out@) + spec_array_adds(shx, shy, base@, id@, j as int + 1) =~= evs2
                + spec_array_adds(shx, shy, base@, id@, 0));
        }
        j = j + 1;
    }
    proof {
        assert(spec_array_adds(shx, shy, base@, id@, j as int) =~= Seq::<Ev>::empty());
        assert(evs_of(out@) =~= evs0 + spec_diff_arrays(shx, shy, base@, id@));
    }
}

/// Appends to `out` an event script rewriting `a` into `b`, addressed under
/// `base`.
fn diff_rec(a: &JsonValue, b: &JsonValue, base: &str, id: &str, out: &mut Vec<Event>)
    requires
        a.wf(),
        b.wf(),
    ensures
        evs_of(final(out)@) == evs_of(old(out)@) + spec_diff(a@, b@, base@, id@),
    decreases *a,
{
    let ghost evs0 = evs_of(old(out)@);
    match a {
        JsonValue::Obj(ao) => {
            match b {
                JsonValue::Obj(bo) => {
                    let ghost sha = obj_shapes_of(ao@);
                    let ghost shb = obj_shapes_of(bo@);
                    let mut i: usize = 0;
                    proof {
                        assert(evs_of(out@) + spec_obj_removes(sha, shb, base@, id@, 0) =~= evs0
                            + spec_obj_removes(sha, shb, base@, id@, 0));
                    }
                    while i < ao.len()
                        invariant
                            0 <= i <= ao@.len(),
                            sha == obj_shapes_of(ao@),
                            shb == obj_shapes_of(bo@),
                            evs_of(out@) + spec_obj_removes(sha, shb, base@, id@, i as int)
                                == evs0 + spec_obj_removes(sha, shb, base@, id@, 0),
                        decreases ao@.len() - i,
                    {
                        proof {
                            assert(sha[i as int] == (ao@[i as int].0@, json_of(ao@[i as int].1)));
                        }
                        let ghost pre = evs_of(out@);
                        match crate::value::obj_find(bo, &ao[i].0) {
                            Some(jj) => {
                                proof {
                                    assert(shb[jj as int].0 == ao@[i as int].0@);
                                    assert forall|k: int| 0 <= k < jj implies shb[k].0
                                        != ao@[i as int].0@ by {
                                        assert(shb[k].0 == bo@[k].0@);
                                    }
                                    crate::pointer::lemma_obj_first_match(
                                        shb,
                                        ao@[i as int].0@,
                                        Json::Null,
                                        jj as int,
                                    );
                                }
                            },
                            None => {
                                proof {
                                    assert forall|k: int| 0 <= k < shb.len() implies shb[k].0
                                        != ao@[i as int].0@ by {
                                        assert(shb[k].0 == bo@[k].0@);
                                    }
                                    crate::pointer::lemma_obj_lookup_absent(
                                        shb,
                                        ao@[i as int].0@,
                                    );
                                }
                                out.push(
                                    Event::Remove {
                                        path: key_path(base, &ao[i].0),
                                        observation_id: id.to_owned(),
                                    },
                                );
                                proof {
                                    assert(evs_of(out@) =~= pre.push(
                                        Ev::Remove {
                                            path: path_join(base@, escape(sha[i as int].0)),
                                            id: id@,
                                        },
                                    ));
                                }
                            },
                        }
                        proof {
                            assert(evs_of(out@) + spec_obj_removes(
                                sha,
                                shb,
                                base@,
                                id@,
                                i as int + 1,
                            ) =~= evs0 + spec_obj_removes(sha, shb, base@, id@, 0));
                        }
                        i = i + 1;
                    }
                    proof {
                        assert(spec_obj_removes(sha, shb, base@, id@, i as int) =~= Seq::<
                            Ev,
                        >::empty());
                    }
                    let ghost evs1 = evs_of(out@);
                    let mut j: usize = 0;
                    proof {
                        assert(evs_of(out@) + spec_obj_adds(sha, shb, base@, id@, 0) =~= evs1
                            + spec_obj_adds(sha, shb, base@, id@, 0));
                    }
                    while j < bo.len()
                        invariant
                            0 <= j <= bo@.len(),
                            sha == obj_shapes_of(ao@),
                            shb == obj_shapes_of(bo@),
                            evs_of(out@) + spec_obj_adds(sha, shb, base@, id@, j as int) == evs1
                                + spec_obj_adds(sha, shb, base@, id@, 0),
                        decreases bo@.len() - j,
                    {
                        proof {
                            assert(shb[j as int] == (bo@[j as int].0@, json_of(bo@[j as int].1)));
                        }
                        let ghost pre = evs_of(out@);
                        match crate::value::obj_find(ao, &bo[j].0) {
                            Some(ii) => {
                                proof {
                                    assert(sha[ii as int].0 == bo@[j as int].0@);
                                    assert forall|k: int| 0 <= k < ii implies sha[k].0
                                        != bo@[j as int].0@ by {
                                        assert(sha[k].0 == ao@[k].0@);
                                    }
                                    crate::pointer::lemma_obj_first_match(
                                        sha,
                                        bo@[j as int].0@,
                                        Json::Null,
                                        ii as int,
                                    );
                                }
                            },
                            None => {
                                proof {
                                    assert forall|k: int| 0 <= k < sha.len() implies sha[k].0
                                        != bo@[j as int].0@ by {
                                        assert(sha[k].0 == ao@[k].0@);
                                    }
                                    crate::pointer::lemma_obj_lookup_absent(
                                        sha,
                                        bo@[j as int].0@,
                                    );
                                }
                                out.push(
                                    Event::Add {
                                        path: key_path(base, &bo[j].0),
                                        value: bo[j].1.deep_clone(),
                                        observation_id: id.to_owned(),
                                    },
                                );
                                proof {
                                    assert(evs_of(out@) =~= pre.push(
                                        Ev::Add {
                                            path: path_join(base@, escape(shb[j as int].0)),
                                            value: shb[j as int].1,
                                            id: id@,
                                        },
                                    ));
                                }
                            },
                        }
                        proof {
                            assert(evs_of(out@) + spec_obj_adds(
                                sha,
                                shb,
                                base@,
                                id@,
                                j as int + 1,
                            ) =~= evs1 + spec_obj_adds(sha, shb, base@, id@, 0));
                        }
                        j = j + 1;
                    }
                    proof {
                        assert(spec_obj_adds(sha, shb, base@, id@, j as int) =~= Seq::<
                            Ev,
                        >::empty());
                    }
                    let ghost evs2 = evs_of(out@);
                    let mut k: usize = 0;
                    proof {
                        assert(evs_of(out@) + spec_obj_changes(sha, shb, base@, id@, 0) =~= evs2
                            + spec_obj_changes(sha, shb, base@, id@, 0));
                    }
                    while k < ao.len()
                        invariant
                            0 <= k <= ao@.len(),
                            a.wf(),
                            b.wf(),
                            *a == JsonValue::Obj(*ao),
                            *b == JsonValue::Obj(*bo),
                            sha == obj_shapes_of(ao@),
                            shb == obj_shapes_of(bo@),
                            evs_of(out@) + spec_obj_changes(sha, shb, base@, id@, k as int)
                                == evs2 + spec_obj_changes(sha, shb, base@, id@, 0),
                        decreases ao@.len() - k,
                    {
                        proof {
                            assert(sha[k as int] == (ao@[k as int].0@, json_of(ao@[k as int].1)));
                            assert(json_wf(sha[k as int].1));
                        }
                        match crate::value::obj_find(bo, &ao[k].0) {
                            Some(jj) => {
                                proof {
                                    assert(shb[jj as int].0 == ao@[k as int].0@);
                                    assert forall|kk: int| 0 <= kk < jj implies shb[kk].0
                                        != ao@[k as int].0@ by {
                                        assert(shb[kk].0 == bo@[kk].0@);
                                    }
                                    crate::pointer::lemma_obj_first_match(
                                        shb,
                                        ao@[k as int].0@,
                                        Json::Null,
                                        jj as int,
                                    );
                                    assert(json_wf(shb[jj as int].1));
                                }
                                if !crate::value::value_eq(&ao[k].1, &bo[jj].1) {
                                    let child = key_path(base, &ao[k].0);
                                    proof {
                                        assert(decreases_to!(*a => (*a)->Obj_0));
                                        assert(decreases_to!(*ao => ao@[k as int]));
                                        assert(decreases_to!(
                                            ao@[k as int] => ao@[k as int].1));
                                        assert(decreases_to!(*a => ao@[k as int].1));
                                    }
                                    diff_rec(&ao[k].1, &bo[jj].1, child.as_str(), id, out);
                                }
                            },
                            None => {
                                proof {
                                    assert forall|kk: int| 0 <= kk < shb.len() implies shb[kk].0
                                        != ao@[k as int].0@ by {
                                        assert(shb[kk].0 == bo@[kk].0@);
                                    }
                                    crate::pointer::lemma_obj_lookup_absent(
                                        shb,
                                        ao@[k as int].0@,
                                    );
                                }
                            },
                        }
                        proof {
                            assert(evs_of(out@) + spec_obj_changes(
                                sha,
                                shb,
                                base@,
                                id@,
                                k as int + 1,
                            ) =~= evs2 + spec_obj_changes(sha, shb, base@, id@, 0));
                        }
                        k = k + 1;
                    }
                    proof {
                        assert(spec_obj_changes(sha, shb, base@, id@, k as int) =~= Seq::<
                            Ev,
                        >::empty());
                        assert(evs_of(out@) =~= evs0 + spec_diff(a@, b@, base@, id@));
                    }
                },
                _ => {
                    change_if_unequal(a, b, base, id, out);
                },
            }
        },
        JsonValue::Arr(x) => {
            match b {
                JsonValue::Arr(y) => {
                    diff_arrays(x, y, base, id, out);
                },
                _ => {
                    change_if_unequal(a, b, base, id, out);
                },
            }
        },
        _ => {
            change_if_unequal(a, b, base, id, out);
        },
    }
}

/// One whole-value change when the pair differs, nothing when it is equal.
fn change_if_unequal(a: &JsonValue, b: &JsonValue, base: &str, id: &str, out: &mut Vec<Event>)
    requires
        a.wf(),
        b.wf(),
        !(a@ is Obj && b@ is Obj),
        !(a@ is Arr && b@ is Arr),
    ensures
        evs_of(final(out)@) == evs_of(old(out)@) + spec_diff(a@, b@, base@, id@),
{
    let ghost pre = evs_of(out@);
    if !crate::value::value_eq(a, b) {
        out.push(
            Event::Change {
                path: base.to_owned(),
                new_value: b.deep_clone(),
                observation_id: id.to_owned(),
            },
        );
        proof {
            assert(evs_of(out@) =~= pre.push(Ev::Change { path: base@, value: b@, id: id@ }));
        }
    } else {
        proof {
            assert(evs_of(out@) + spec_diff(a@, b@, base@, id@) =~= evs_of(out@));
        }
    }
}

/// An ordered event script that rewrites `old_value` into `new_value`, every
/// path addressed under `base_path` and every event tagged with
/// `observation_id`.
pub fn diff(
    old_value: &JsonValue,
    new_value: &JsonValue,
    base_path: &str,
    observation_id: &str,
) -> (r: Vec<Event>)
    requires
        old_value.wf(),
        new_value.wf(),
    ensures
        evs_of(r@) == spec_diff(old_value@, new_value@, base_path@, observation_id@),
{
    let mut result: Vec<Event> = Vec::new();
    proof {
        assert(evs_of(result@) =~= Seq::<Ev>::empty());
    }
    diff_rec(old_value, new_value, base_path, observation_id, &mut result);
    proof {
        assert(Seq::<Ev>::empty() + spec_diff(
            old_value@,
            new_value@,
            base_path@,
            observation_id@,
        ) =~= spec_diff(old_value@, new_value@, base_path@, observation_id@));
    }
    result
}

} // verus!
