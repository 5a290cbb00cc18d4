//! The document model: a JSON tree of null, boolean, number, string, array
//! and object nodes. Numbers carry their literal text, so any number a JSON
//! parser can produce is held losslessly. Object fields keep the order they
//! were built in, but equality between two trees treats an object as a
//! mapping from keys to values, so field order never matters for comparison.

use vstd::prelude::*;

verus! {

/// An owned JSON document tree.
///
/// `Num` holds the number's literal text (`"42"`, `"-1.5"`, `"2e10"`), which
/// keeps every parsed number exactly and makes equality a text comparison.
/// `Obj` holds fields in insertion order; keys are unique in a well-formed
/// value (see [`JsonValue::wf`]).
#[derive(Debug)]
pub enum JsonValue {
    Null,
    Bool(bool),
    Num(String),
    Text(String),
    Arr(Vec<JsonValue>),
    Obj(Vec<(String, JsonValue)>),
}

/// The mathematical shape of a [`JsonValue`]: strings become character
/// sequences, vectors become sequences, and object fields stay in order.
pub enum Json {
    Null,
    Bool(bool),
    Num(Seq<char>),
    Text(Seq<char>),
    Arr(Seq<Json>),
    Obj(Seq<(Seq<char>, Json)>),
}

/// A [`Json`] tree with object field order forgotten: objects collapse to
/// maps, so two trees are structurally equal exactly when their canonical
/// forms are equal.
pub enum Canon {
    Null,
    Bool(bool),
    Num(Seq<char>),
    Text(Seq<char>),
    Arr(Seq<Canon>),
    Obj(Map<Seq<char>, Canon>),
}

/// The [`Json`] shape of a concrete [`JsonValue`].
pub open spec fn json_of(v: JsonValue) -> Json
    decreases v,
{
    match v {
        JsonValue::Null => Json::Null,
        JsonValue::Bool(b) => Json::Bool(b),
        JsonValue::Num(s) => Json::Num(s@),
        JsonValue::Text(s) => Json::Text(s@),
        JsonValue::Arr(items) => Json::Arr(shapes_of(items@)),
        JsonValue::Obj(fields) => Json::Obj(obj_shapes_of(fields@)),
    }
}

/// The shapes of a sequence of values, elementwise.
pub open spec fn shapes_of(items: Seq<JsonValue>) -> Seq<Json>
    decreases items,
{
    Seq::new(
        items.len(),
        |i: int|
            if 0 <= i < items.len() {
                json_of(items[i])
            } else {
                Json::Null
            },
    )
}

/// The shapes of an object's fields, keys viewed and values mapped.
pub open spec fn obj_shapes_of(fields: Seq<(String, JsonValue)>) -> Seq<(Seq<char>, Json)>
    decreases fields,
{
    Seq::new(
        fields.len(),
        |i: int|
            if 0 <= i < fields.len() {
                (fields[i].0@, json_of(fields[i].1))
            } else {
                (Seq::empty(), Json::Null)
            },
    )
}

impl View for JsonValue {
    type V = Json;

    open spec fn view(&self) -> Json {
        json_of(*self)
    }
}

/// Folds a sequence of canonical fields into a map; a repeated key keeps its
/// last value, as a JSON parser would.
pub open spec fn fields_map(pairs: Seq<(Seq<char>, Canon)>) -> Map<Seq<char>, Canon>
    decreases pairs.len(),
{
    if pairs.len() == 0 {
        Map::empty()
    } else {
        fields_map(pairs.drop_last()).insert(pairs.last().0, pairs.last().1)
    }
}

/// The canonical (field-order-free) form of a [`Json`] tree.
pub open spec fn canon(j: Json) -> Canon
    decreases j,
{
    match j {
        Json::Null => Canon::Null,
        Json::Bool(b) => Canon::Bool(b),
        Json::Num(s) => Canon::Num(s),
        Json::Text(s) => Canon::Text(s),
        Json::Arr(items) => Canon::Arr(canon_seq(items)),
        Json::Obj(fields) => Canon::Obj(fields_map(canon_pairs(fields))),
    }
}

/// Canonical forms of a sequence of trees, elementwise.
pub open spec fn canon_seq(items: Seq<Json>) -> Seq<Canon>
    decreases items,
{
    Seq::new(
        items.len(),
        |i: int|
            if 0 <= i < items.len() {
                canon(items[i])
            } else {
                Canon::Null
            },
    )
}

/// Canonical forms of an object's fields, values mapped and keys kept.
pub open spec fn canon_pairs(fields: Seq<(Seq<char>, Json)>) -> Seq<(Seq<char>, Canon)>
    decreases fields,
{
    Seq::new(
        fields.len(),
        |i: int|
            if 0 <= i < fields.len() {
                (fields[i].0, canon(fields[i].1))
            } else {
                (Seq::empty(), Canon::Null)
            },
    )
}

/// Structural equality: equal canonical forms. Arrays compare element by
/// element in order; objects compare as key-value mappings.
pub open spec fn json_eq(a: Json, b: Json) -> bool {
    canon(a) == canon(b)
}

/// No two fields of the sequence share a key.
pub open spec fn keys_unique(fields: Seq<(Seq<char>, Json)>) -> bool {
    forall|i: int, j: int| 0 <= i < j < fields.len() ==> fields[i].0 != fields[j].0
}

/// Well-formed JSON: every object in the tree has pairwise-distinct keys.
pub open spec fn json_wf(j: Json) -> bool
    decreases j,
{
    match j {
        Json::Null => true,
        Json::Bool(_) => true,
        Json::Num(_) => true,
        Json::Text(_) => true,
        Json::Arr(items) => forall|i: int| 0 <= i < items.len() ==> json_wf(#[trigger] items[i]),
        Json::Obj(fields) => keys_unique(fields) && forall|i: int|
            0 <= i < fields.len() ==> json_wf(#[trigger] fields[i].1),
    }
}

/// Elements of a well-formed array are well-formed.
pub proof fn lemma_arr_wf_elem(items: Seq<Json>, k: int)
    requires
        json_wf(Json::Arr(items)),
        0 <= k < items.len(),
    ensures
        json_wf(items[k]),
{
    let j = Json::Arr(items);
    assert(json_wf(j));
    match j {
        Json::Arr(its) => {
            assert(its == items);
            assert(forall|i: int| 0 <= i < its.len() ==> json_wf(#[trigger] its[i]));
        },
        _ => {},
    }
}

/// A map folded from fields with pairwise-distinct keys binds exactly those
/// keys, each to its own field's value.
pub proof fn lemma_fields_map_unique(pairs: Seq<(Seq<char>, Canon)>)
    requires
        forall|i: int, j: int| 0 <= i < j < pairs.len() ==> pairs[i].0 != pairs[j].0,
    ensures
        fields_map(pairs).dom().finite(),
        fields_map(pairs).dom().len() == pairs.len(),
        forall|i: int|
            0 <= i < pairs.len() ==> fields_map(pairs).contains_key(#[trigger] pairs[i].0)
                && fields_map(pairs)[pairs[i].0] == pairs[i].1,
        forall|k: Seq<char>|
            fields_map(pairs).contains_key(k) ==> exists|i: int|
                0 <= i < pairs.len() && (#[trigger] pairs[i]).0 == k,
    decreases pairs.len(),
{
    if pairs.len() > 0 {
        let prefix = pairs.drop_last();
        lemma_fields_map_unique(prefix);
        let last = pairs.last();
        assert(!fields_map(prefix).contains_key(last.0)) by {
            if fields_map(prefix).contains_key(last.0) {
                let i = choose|i: int|
                    0 <= i < prefix.len() && (#[trigger] prefix[i]).0 == last.0;
                assert(pairs[i].0 == pairs[pairs.len() - 1].0);
            }
        }
        assert forall|i: int| 0 <= i < pairs.len() implies fields_map(pairs).contains_key(
            #[trigger] pairs[i].0,
        ) && fields_map(pairs)[pairs[i].0] == pairs[i].1 by {
            if i < pairs.len() - 1 {
                assert(prefix[i] == pairs[i]);
                assert(pairs[i].0 != last.0);
            }
        }
        assert forall|k: Seq<char>| fields_map(pairs).contains_key(k) implies exists|i: int|
            0 <= i < pairs.len() && (#[trigger] pairs[i]).0 == k by {
            if k == last.0 {
                assert((pairs[pairs.len() - 1]).0 == k);
            } else {
                let i = choose|i: int| 0 <= i < prefix.len() && (#[trigger] prefix[i]).0 == k;
                assert((pairs[i]).0 == k);
            }
        }
    }
}

/// Finds the position of the first field named `key`, scanning from the
/// front.
pub(crate) fn obj_find(fields: &Vec<(String, JsonValue)>, key: &String) -> (r: Option<usize>)
    ensures
        match r {
            Some(j) => 0 <= j < fields@.len() && fields@[j as int].0@ == key@ && forall|k: int|
                0 <= k < j ==> fields@[k].0@ != key@,
            None => forall|j: int| 0 <= j < fields@.len() ==> fields@[j].0@ != key@,
        },
{
    let mut i: usize = 0;
    while i < fields.len()
        invariant
            0 <= i <= fields@.len(),
            forall|j: int| 0 <= j < i ==> fields@[j].0@ != key@,
        decreases fields@.len() - i,
    {
        if fields[i].0 == *key {
            return Some(i);
        }
        i = i + 1;
    }
    None
}

/// Structural equality of two well-formed trees: numbers and strings by
/// text, arrays element by element, objects as key-value mappings.
pub fn value_eq(a: &JsonValue, b: &JsonValue) -> (r: bool)
    requires
        a.wf(),
        b.wf(),
    ensures
        r == json_eq(a@, b@),
    decreases *a,
{
    match a {
        JsonValue::Null => matches!(b, JsonValue::Null),
        JsonValue::Bool(x) => match b {
            JsonValue::Bool(y) => x == y,
            _ => false,
        },
        JsonValue::Num(x) => match b {
            JsonValue::Num(y) => *x == *y,
            _ => false,
        },
        JsonValue::Text(x) => match b {
            JsonValue::Text(y) => *x == *y,
            _ => false,
        },
        JsonValue::Arr(x) => {
            let y: &Vec<JsonValue>;
            match b {
                JsonValue::Arr(yy) => {
                    y = yy;
                },
                _ => {
                    return false;
                },
            }
            proof {
                assert(*a == JsonValue::Arr(*x));
                assert(*b == JsonValue::Arr(*y));
            }
            if x.len() != y.len() {
                proof {
                    assert(canon(a@) == Canon::Arr(canon_seq(shapes_of(x@))));
                    assert(canon(b@) == Canon::Arr(canon_seq(shapes_of(y@))));
                    assert(canon_seq(shapes_of(x@)).len() == x@.len());
                    assert(canon_seq(shapes_of(y@)).len() == y@.len());
                }
                return false;
            }
            let ghost s1 = canon_seq(shapes_of(x@));
            let ghost s2 = canon_seq(shapes_of(y@));
            let mut i: usize = 0;
            while i < x.len()
                invariant
                    a.wf(),
                    b.wf(),
                    *a == JsonValue::Arr(*x),
                    *b == JsonValue::Arr(*y),
                    a@ == Json::Arr(shapes_of(x@)),
                    b@ == Json::Arr(shapes_of(y@)),
                    s1 == canon_seq(shapes_of(x@)),
                    s2 == canon_seq(shapes_of(y@)),
                    x@.len() == y@.len(),
                    0 <= i <= x@.len(),
                    forall|k: int| 0 <= k < i ==> s1[k] == s2[k],
                decreases x@.len() - i,
            {
                proof {
                    assert(decreases_to!(JsonValue::Arr(*x) => *x));
                    assert(decreases_to!(*a => *x));
                    assert(decreases_to!(*x => x@));
                    assert(decreases_to!(x@ => x@[i as int]));
                    assert(decreases_to!(*a => x@[i as int]));
                    assert(shapes_of(x@)[i as int] == json_of(x@[i as int]));
                    assert(shapes_of(y@)[i as int] == json_of(y@[i as int]));
                    assert(json_wf(shapes_of(x@)[i as int]));
                    assert(json_wf(shapes_of(y@)[i as int]));
                }
                if !value_eq(&x[i], &y[i]) {
                    proof {
                        assert(s1[i as int] == canon(json_of(x@[i as int])));
                        assert(s2[i as int] == canon(json_of(y@[i as int])));
                        assert(s1[i as int] != s2[i as int]);
                        assert(canon(a@) == Canon::Arr(s1));
                        assert(canon(b@) == Canon::Arr(s2));
                    }
                    return false;
                }
                i = i + 1;
            }
            proof {
                assert(s1 =~= s2);
            }
            true
        },
        JsonValue::Obj(x) => {
            let y: &Vec<(String, JsonValue)>;
            match b {
                JsonValue::Obj(yy) => {
                    y = yy;
                },
                _ => {
                    return false;
                },
            }
            proof {
                assert(*b == JsonValue::Obj(*y));
            }
            let ghost p1 = canon_pairs(obj_shapes_of(x@));
            let ghost p2 = canon_pairs(obj_shapes_of(y@));
            let ghost m1 = fields_map(p1);
            let ghost m2 = fields_map(p2);
            proof {
                lemma_fields_map_unique(p1);
                lemma_fields_map_unique(p2);
            }
            if x.len() != y.len() {
                proof {
                    if m1 == m2 {
                        assert(m1.dom().len() == m2.dom().len());
                    }
                }
                return false;
            }
            let mut i: usize = 0;
            while i < x.len()
                invariant
                    a.wf(),
                    b.wf(),
                    *a == JsonValue::Obj(*x),
                    *b == JsonValue::Obj(*y),
                    a@ == Json::Obj(obj_shapes_of(x@)),
                    b@ == Json::Obj(obj_shapes_of(y@)),
                    p1 == canon_pairs(obj_shapes_of(x@)),
                    p2 == canon_pairs(obj_shapes_of(y@)),
                    m1 == fields_map(p1),
                    m2 == fields_map(p2),
                    x@.len() == y@.len(),
                    0 <= i <= x@.len(),
                    forall|k: int|
                        0 <= k < i ==> m2.contains_key(#[trigger] p1[k].0) && m2[p1[k].0]
                            == p1[k].1,
                decreases x@.len() - i,
            {
                proof {
                    lemma_fields_map_unique(p1);
                    lemma_fields_map_unique(p2);
                }
                let found = obj_find(y, &x[i].0);
                match found {
                    None => {
                        proof {
                            assert(m1.contains_key(p1[i as int].0));
                            if m2.contains_key(p1[i as int].0) {
                                let j = choose|j: int|
                                    0 <= j < p2.len() && (#[trigger] p2[j]).0 == p1[i as int].0;
                                assert(y@[j].0@ == x@[i as int].0@);
                            }
                            assert(m1 != m2);
                        }
                        return false;
                    },
                    Some(j) => {
                        proof {
                            assert(decreases_to!(*a => (*a)->Obj_0));
                            assert(decreases_to!(*x => x@[i as int]));
                            assert(decreases_to!(x@[i as int] => x@[i as int].1));
                            assert(decreases_to!(*a => x@[i as int].1));
                            assert(obj_shapes_of(x@)[i as int]
                                == (x@[i as int].0@, json_of(x@[i as int].1)));
                            assert(obj_shapes_of(y@)[j as int]
                                == (y@[j as int].0@, json_of(y@[j as int].1)));
                            assert(json_wf(obj_shapes_of(x@)[i as int].1));
                            assert(json_wf(obj_shapes_of(y@)[j as int].1));
                        }
                        if !value_eq(&x[i].1, &y[j].1) {
                            proof {
                                assert(m1[p1[i as int].0] == p1[i as int].1);
                                assert(m2[p2[j as int].0] == p2[j as int].1);
                                assert(p2[j as int].0 == p1[i as int].0);
                                assert(m1 != m2);
                            }
                            return false;
                        }
                        proof {
                            assert(m2[p1[i as int].0] == p2[j as int].1);
                            assert(m1[p1[i as int].0] == p1[i as int].1);
                        }
                    },
                }
                i = i + 1;
            }
            proof {
                lemma_fields_map_unique(p1);
                lemma_fields_map_unique(p2);
                assert forall|k: Seq<char>| m1.contains_key(k) implies m2.contains_key(k)
                    && m2[k] == m1[k] by {
                    let i = choose|i: int| 0 <= i < p1.len() && (#[trigger] p1[i]).0 == k;
                    assert(m2.contains_key(p1[i].0) && m2[p1[i].0] == p1[i].1);
                    assert(m1[p1[i].0] == p1[i].1);
                }
                assert(m1.dom().subset_of(m2.dom()));
                if exists|k: Seq<char>| m2.contains_key(k) && !m1.contains_key(k) {
                    let k = choose|k: Seq<char>| m2.contains_key(k) && !m1.contains_key(k);
                    m1.dom().lemma_subset_not_in_lt(m2.dom(), k);
                }
                assert(m2.dom().subset_of(m1.dom()));
                assert(m1 =~= m2);
            }
            true
        },
    }
}

impl JsonValue {
    /// Well-formedness of the concrete tree: unique keys in every object.
    pub open spec fn wf(&self) -> bool {
        json_wf(self@)
    }

    /// A copy of the tree with the same shape.
    pub fn deep_clone(&self) -> (r: JsonValue)
        ensures
            r@ == self@,
        decreases *self,
    {
        match self {
            JsonValue::Null => JsonValue::Null,
            JsonValue::Bool(b) => JsonValue::Bool(*b),
            JsonValue::Num(s) => JsonValue::Num(s.clone()),
            JsonValue::Text(s) => JsonValue::Text(s.clone()),
            JsonValue::Arr(items) => {
                let mut out: Vec<JsonValue> = Vec::new();
                let mut i: usize = 0;
                while i < items.len()
                    invariant
                        *self == JsonValue::Arr(*items),
                        0 <= i <= items@.len(),
                        out@.len() == i,
                        forall|k: int| 0 <= k < i ==> (#[trigger] out@[k])@ == items@[k]@,
                    decreases items@.len() - i,
                {
                    proof {
                        assert(decreases_to!(*self => (*self)->Arr_0));
                        assert(decreases_to!(*items => items@[i as int]));
                        assert(decreases_to!(*self => items@[i as int]));
                    }
                    let c = items[i].deep_clone();
                    out.push(c);
                    i = i + 1;
                }
                proof {
                    assert(shapes_of(out@) =~= shapes_of(items@));
                }
                JsonValue::Arr(out)
            },
            JsonValue::Obj(fields) => {
                let mut out: Vec<(String, JsonValue)> = Vec::new();
                let mut i: usize = 0;
                while i < fields.len()
                    invariant
                        *self == JsonValue::Obj(*fields),
                        0 <= i <= fields@.len(),
                        out@.len() == i,
                        forall|k: int|
                            0 <= k < i ==> (#[trigger] out@[k]).0@ == fields@[k].0@ && out@[k].1@
                                == fields@[k].1@,
                    decreases fields@.len() - i,
                {
                    proof {
                        assert(decreases_to!(*self => (*self)->Obj_0));
                        assert(decreases_to!(*fields => fields@[i as int]));
                        assert(decreases_to!(fields@[i as int] => fields@[i as int].1));
                        assert(decreases_to!(*self => fields@[i as int].1));
                    }
                    let k = fields[i].0.clone();
                    let v = fields[i].1.deep_clone();
                    out.push((k, v));
                    i = i + 1;
                }
                proof {
                    assert(obj_shapes_of(out@) =~= obj_shapes_of(fields@));
                }
                JsonValue::Obj(out)
            },
        }
    }

    /// The node kind, for diagnostics.
    pub fn kind_name(&self) -> (r: &'static str)
        ensures
            r@ == match self@ {
                Json::Null => "null"@,
                Json::Bool(_) => "boolean"@,
                Json::Num(_) => "number"@,
                Json::Text(_) => "string"@,
                Json::Arr(_) => "array"@,
                Json::Obj(_) => "object"@,
            },
    {
        match self {
            JsonValue::Null => "null",
            JsonValue::Bool(_) => "boolean",
            JsonValue::Num(_) => "number",
            JsonValue::Text(_) => "string",
            JsonValue::Arr(_) => "array",
            JsonValue::Obj(_) => "object",
        }
    }
}

} // verus!
