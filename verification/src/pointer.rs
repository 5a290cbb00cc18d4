//! Path addressing within a JSON tree: a pointer is a sequence of tokens,
//! written `/a/b/0`, with `~0` standing for `~` and `~1` for `/` inside a
//! token. The empty path addresses the whole document. A pointer owns
//! nothing: it is re-resolved against whatever tree it is applied to.

use vstd::prelude::*;

use crate::diagnostics::{Diagnostic, DiagnosticCode, DiagnosticLevel};
use crate::outside::{chars_string, str_chars};
use crate::value::{json_of, json_wf, keys_unique, shapes_of, obj_shapes_of, Json, JsonValue};

verus! {

/// A token with `~` written `~0` and `/` written `~1`.
pub open spec fn escape(t: Seq<char>) -> Seq<char>
    decreases t.len(),
{
    if t.len() == 0 {
        Seq::empty()
    } else if t[0] == '~' {
        seq!['~', '0'] + escape(t.skip(1))
    } else if t[0] == '/' {
        seq!['~', '1'] + escape(t.skip(1))
    } else {
        seq![t[0]] + escape(t.skip(1))
    }
}

/// A token with `~1` read back as `/` and `~0` as `~`, scanning left to
/// right.
pub open spec fn unescape(t: Seq<char>) -> Seq<char>
    decreases t.len(),
{
    if t.len() == 0 {
        Seq::empty()
    } else if t.len() >= 2 && t[0] == '~' && t[1] == '1' {
        seq!['/'] + unescape(t.skip(2))
    } else if t.len() >= 2 && t[0] == '~' && t[1] == '0' {
        seq!['~'] + unescape(t.skip(2))
    } else {
        seq![t[0]] + unescape(t.skip(1))
    }
}

/// The position of the first `/` at or after `i`, or the length if none.
pub open spec fn first_sep(s: Seq<char>, i: int) -> int
    decreases s.len() - i,
{
    if i < 0 || i >= s.len() {
        s.len() as int
    } else if s[i] == '/' {
        i
    } else {
        first_sep(s, i + 1)
    }
}

/// The segments of `s` split on `/`; splitting the empty text yields one
/// empty segment.
pub open spec fn split_segments(s: Seq<char>) -> Seq<Seq<char>>
    decreases s.len(),
    via split_segments_decreases
{
    let i = first_sep(s, 0);
    if i >= s.len() {
        seq![s]
    } else {
        seq![s.take(i)] + split_segments(s.skip(i + 1))
    }
}

#[via_fn]
proof fn split_segments_decreases(s: Seq<char>) {
    lemma_first_sep_char(s, 0);
}

/// The tokens a path parses to: the empty path has none; any other path must
/// start with `/` and is split on `/`, each segment unescaped.
pub open spec fn parse_tokens(path: Seq<char>) -> Seq<Seq<char>> {
    if path.len() == 0 {
        Seq::empty()
    } else {
        split_segments(path.skip(1)).map_values(|t: Seq<char>| unescape(t))
    }
}

/// Whether the path is syntactically a pointer.
pub open spec fn path_ok(path: Seq<char>) -> bool {
    path.len() == 0 || path[0] == '/'
}

/// The numeric value of a digit string, most significant first.
pub open spec fn dec_value(s: Seq<char>) -> int
    decreases s.len(),
{
    if s.len() == 0 {
        0
    } else {
        dec_value(s.drop_last()) * 10 + (s.last() as int - '0' as int)
    }
}

/// Whether every character is a decimal digit.
pub open spec fn all_digits(s: Seq<char>) -> bool {
    forall|i: int| 0 <= i < s.len() ==> '0' <= #[trigger] s[i] <= '9'
}

/// What parsing a token as an array index yields: an optional `+` sign, then
/// one or more digits, with a value that fits the machine; anything else is
/// no index.
pub open spec fn index_of_token(t: Seq<char>) -> Option<int> {
    let body = if t.len() > 0 && t[0] == '+' {
        t.skip(1)
    } else {
        t
    };
    if body.len() > 0 && all_digits(body) && 0 <= dec_value(body) <= usize::MAX {
        Some(dec_value(body))
    } else {
        None
    }
}

/// Escaped tokens never contain a separator.
pub proof fn lemma_escape_no_slash(t: Seq<char>)
    ensures
        forall|i: int| 0 <= i < escape(t).len() ==> escape(t)[i] != '/',
    decreases t.len(),
{
    if t.len() > 0 {
        lemma_escape_no_slash(t.skip(1));
        let e = escape(t);
        let rest = escape(t.skip(1));
        assert forall|i: int| 0 <= i < e.len() implies e[i] != '/' by {
            if t[0] == '~' {
                assert(e == seq!['~', '0'] + rest);
                if i >= 2 {
                    assert(e[i] == rest[i - 2]);
                }
            } else if t[0] == '/' {
                assert(e == seq!['~', '1'] + rest);
                if i >= 2 {
                    assert(e[i] == rest[i - 2]);
                }
            } else {
                assert(e == seq![t[0]] + rest);
                if i >= 1 {
                    assert(e[i] == rest[i - 1]);
                }
            }
        }
    }
}

/// Where `first_sep` points: at the first separator, or at the end.
pub proof fn lemma_first_sep_char(s: Seq<char>, i: int)
    requires
        0 <= i <= s.len(),
    ensures
        i <= first_sep(s, i) <= s.len(),
        first_sep(s, i) < s.len() ==> s[first_sep(s, i)] == '/',
        forall|j: int| i <= j < first_sep(s, i) ==> s[j] != '/',
    decreases s.len() - i,
{
    if i < s.len() && s[i] != '/' {
        lemma_first_sep_char(s, i + 1);
    }
}

/// Splitting a text that starts with a separator-free segment peels that
/// segment off; a separator-free text is one single segment.
pub proof fn lemma_split_prefix(u: Seq<char>, w: Seq<char>)
    requires
        forall|i: int| 0 <= i < u.len() ==> u[i] != '/',
    ensures
        split_segments(u + seq!['/'] + w) == seq![u] + split_segments(w),
        split_segments(u) == seq![u],
{
    let s = u + seq!['/'] + w;
    lemma_first_sep_char(s, 0);
    assert(s[u.len() as int] == '/');
    assert forall|j: int| 0 <= j < u.len() implies s[j] != '/' by {
        assert(s[j] == u[j]);
    }
    assert(first_sep(s, 0) == u.len()) by {
        let f = first_sep(s, 0);
        if f < u.len() {
            assert(s[f] == '/');
        }
        if f > u.len() {
            assert(s[u.len() as int] != '/');
        }
    }
    assert(s.take(u.len() as int) =~= u);
    assert(s.skip(u.len() as int + 1) =~= w);
    lemma_first_sep_char(u, 0);
    assert(first_sep(u, 0) == u.len()) by {
        if first_sep(u, 0) < u.len() {
            assert(u[first_sep(u, 0)] == '/');
        }
    }
}

/// Unescaping undoes escaping on any token.
pub proof fn lemma_unescape_escape(t: Seq<char>)
    ensures
        unescape(escape(t)) == t,
    decreases t.len(),
{
    if t.len() == 0 {
        assert(unescape(escape(t)) =~= t);
    } else {
        lemma_unescape_escape(t.skip(1));
        let e = escape(t);
        if t[0] == '~' {
            assert(e == seq!['~', '0'] + escape(t.skip(1)));
            assert(e.skip(2) =~= escape(t.skip(1)));
            assert(unescape(e) =~= t);
        } else if t[0] == '/' {
            assert(e == seq!['~', '1'] + escape(t.skip(1)));
            assert(e.skip(2) =~= escape(t.skip(1)));
            assert(unescape(e) =~= t);
        } else {
            assert(e == seq![t[0]] + escape(t.skip(1)));
            assert(e.skip(1) =~= escape(t.skip(1)));
            assert(e[0] != '~');
            assert(unescape(e) =~= t);
        }
    }
}

/// The text a token sequence prints to: `/` before each token, tokens
/// escaped; no tokens print as the empty text.
pub open spec fn tokens_string(toks: Seq<Seq<char>>) -> Seq<char>
    decreases toks.len(),
{
    if toks.len() == 0 {
        Seq::empty()
    } else {
        seq!['/'] + escape(toks[0]) + tokens_string(toks.skip(1))
    }
}

/// Printing a token sequence and parsing it back yields the same tokens:
/// escaping round-trips through the pointer text form.
pub proof fn lemma_tokens_round_trip(toks: Seq<Seq<char>>)
    ensures
        path_ok(tokens_string(toks)),
        parse_tokens(tokens_string(toks)) == toks,
    decreases toks.len(),
{
    if toks.len() == 0 {
        assert(parse_tokens(tokens_string(toks)) =~= toks);
    } else {
        let t0 = toks[0];
        let rest = toks.skip(1);
        lemma_tokens_round_trip(rest);
        lemma_escape_no_slash(t0);
        lemma_unescape_escape(t0);
        let s = tokens_string(toks);
        assert(s == seq!['/'] + escape(t0) + tokens_string(rest));
        assert(s[0] == '/');
        if rest.len() == 0 {
            assert(s.skip(1) =~= escape(t0));
            lemma_split_prefix(escape(t0), Seq::empty());
            assert(split_segments(s.skip(1)) == seq![escape(t0)]);
            assert(parse_tokens(s) =~= toks);
        } else {
            let w = tokens_string(rest).skip(1);
            assert(tokens_string(rest) == seq!['/'] + escape(rest[0]) + tokens_string(
                rest.skip(1),
            ));
            assert(s.skip(1) =~= escape(t0) + seq!['/'] + w);
            lemma_split_prefix(escape(t0), w);
            assert(split_segments(s.skip(1)) == seq![escape(t0)] + split_segments(w));
            assert(tokens_string(rest)[0] == '/');
            assert(parse_tokens(tokens_string(rest)) == split_segments(w).map_values(
                |t: Seq<char>| unescape(t),
            ));
            assert(parse_tokens(s) =~= toks) by {
                let m = split_segments(s.skip(1)).map_values(|t: Seq<char>| unescape(t));
                assert forall|i: int| 0 <= i < m.len() implies m[i] == toks[i] by {
                    if i == 0 {
                        assert(split_segments(s.skip(1))[0] == escape(t0));
                    } else {
                        assert(split_segments(s.skip(1))[i] == split_segments(w)[i - 1]);
                        assert(parse_tokens(tokens_string(rest))[i - 1] == rest[i - 1]);
                    }
                }
            }
        }
    }
}

/// Unescapes one raw segment's characters.
fn unescape_chars(t: &Vec<char>) -> (r: Vec<char>)
    ensures
        r@ == unescape(t@),
{
    let mut out: Vec<char> = Vec::new();
    let mut i: usize = 0;
    proof {
        assert(t@.skip(0) =~= t@);
        assert(out@ + unescape(t@) =~= unescape(t@));
    }
    while i < t.len()
        invariant
            0 <= i <= t@.len(),
            out@ + unescape(t@.skip(i as int)) == unescape(t@),
        decreases t@.len() - i,
    {
        let ghost pre = out@;
        let ghost restv = t@.skip(i as int);
        if t[i] == '~' && i + 1 < t.len() && t[i + 1] == '1' {
            out.push('/');
            i = i + 2;
            proof {
                assert(restv.skip(2) =~= t@.skip(i as int));
                assert(pre + unescape(restv) == (pre + seq!['/']) + unescape(t@.skip(i as int)));
            }
        } else if t[i] == '~' && i + 1 < t.len() && t[i + 1] == '0' {
            out.push('~');
            i = i + 2;
            proof {
                assert(restv.skip(2) =~= t@.skip(i as int));
                assert(pre + unescape(restv) == (pre + seq!['~']) + unescape(t@.skip(i as int)));
            }
        } else {
            out.push(t[i]);
            i = i + 1;
            proof {
                assert(restv.skip(1) =~= t@.skip(i as int));
                assert(pre + unescape(restv) == (pre + seq![restv[0]]) + unescape(
                    t@.skip(i as int),
                ));
            }
        }
    }
    proof {
        assert(t@.skip(i as int) =~= Seq::<char>::empty());
        assert(out@ + unescape(t@.skip(i as int)) =~= out@);
    }
    out
}

/// Escapes one token's characters.
pub(crate) fn escape_chars(t: &Vec<char>) -> (r: Vec<char>)
    ensures
        r@ == escape(t@),
{
    let mut out: Vec<char> = Vec::new();
    let mut i: usize = 0;
    proof {
        assert(t@.skip(0) =~= t@);
        assert(out@ + escape(t@) =~= escape(t@));
    }
    while i < t.len()
        invariant
            0 <= i <= t@.len(),
            out@ + escape(t@.skip(i as int)) == escape(t@),
        decreases t@.len() - i,
    {
        let ghost pre = out@;
        let ghost restv = t@.skip(i as int);
        if t[i] == '~' {
            out.push('~');
            out.push('0');
            proof {
                assert(restv.skip(1) =~= t@.skip(i as int + 1));
                assert(pre + escape(restv) == (pre + seq!['~', '0']) + escape(
                    t@.skip(i as int + 1),
                ));
            }
        } else if t[i] == '/' {
            out.push('~');
            out.push('1');
            proof {
                assert(restv.skip(1) =~= t@.skip(i as int + 1));
                assert(pre + escape(restv) == (pre + seq!['~', '1']) + escape(
                    t@.skip(i as int + 1),
                ));
            }
        } else {
            out.push(t[i]);
            proof {
                assert(restv.skip(1) =~= t@.skip(i as int + 1));
                assert(pre + escape(restv) == (pre + seq![restv[0]]) + escape(
                    t@.skip(i as int + 1),
                ));
            }
        }
        i = i + 1;
    }
    proof {
        assert(t@.skip(i as int) =~= Seq::<char>::empty());
        assert(out@ + escape(t@.skip(i as int)) =~= out@);
    }
    out
}

/// Parses a token as an array index the way the machine parses unsigned
/// integers: an optional `+`, then digits, rejecting values that do not fit.
pub(crate) fn parse_index(token: &String) -> (r: Option<usize>)
    ensures
        match r {
            Some(n) => index_of_token(token@) == Some(n as int),
            None => index_of_token(token@) is None,
        },
{
    let cs = str_chars(token.as_str());
    let start: usize = if cs.len() > 0 && cs[0] == '+' {
        1
    } else {
        0
    };
    let ghost body = if token@.len() > 0 && token@[0] == '+' {
        token@.skip(1)
    } else {
        token@
    };
    proof {
        assert(body =~= cs@.skip(start as int));
    }
    if cs.len() == start {
        return None;
    }
    let mut acc: usize = 0;
    let mut i: usize = start;
    while i < cs.len()
        invariant
            cs@ == token@,
            start <= i <= cs@.len(),
            body == cs@.skip(start as int),
            start == if cs@.len() > 0 && cs@[0] == '+' { 1int } else { 0int },
            all_digits(cs@.subrange(start as int, i as int)),
            acc == dec_value(cs@.subrange(start as int, i as int)),
            acc <= usize::MAX,
        decreases cs@.len() - i,
    {
        let c = cs[i];
        if c < '0' || c > '9' {
            proof {
                assert(body[i - start] == c);
                assert(!('0' <= body[i - start] && body[i - start] <= '9'));
                assert(!all_digits(body));
            }
            return None;
        }
        let d: usize = (c as u32 - '0' as u32) as usize;
        let ghost prefix = cs@.subrange(start as int, i as int);
        let ghost prefix1 = cs@.subrange(start as int, i as int + 1);
        proof {
            assert(prefix1.drop_last() =~= prefix);
            assert(prefix1.last() == c);
            assert(dec_value(prefix1) == acc * 10 + d);
        }
        if acc > (usize::MAX - d) / 10 {
            proof {
                if all_digits(body) {
                    assert(body.take(i - start + 1) =~= prefix1);
                    lemma_dec_value_monotone(body, i - start + 1);
                    assert(acc * 10 + d > usize::MAX) by (nonlinear_arith)
                        requires
                            acc > (usize::MAX - d) / 10,
                            0 <= d <= 9,
                            acc >= 0,
                    ;
                    assert(dec_value(body.take(i - start + 1)) == acc * 10 + d);
                    assert(dec_value(body) > usize::MAX);
                    assert((if token@.len() > 0 && token@[0] == '+' {
                        token@.skip(1)
                    } else {
                        token@
                    }) == body);
                    assert(index_of_token(token@) is None);
                } else {
                    assert(index_of_token(token@) is None);
                }
            }
            return None;
        }
        proof {
            assert(acc * 10 + d <= usize::MAX) by (nonlinear_arith)
                requires
                    acc <= (usize::MAX - d) / 10,
                    0 <= d <= 9,
                    acc >= 0,
            ;
        }
        acc = acc * 10 + d;
        i = i + 1;
    }
    proof {
        assert(cs@.subrange(start as int, i as int) =~= body);
    }
    Some(acc)
}

/// A digit string is worth at least any of its prefixes' values.
pub(crate) proof fn lemma_dec_value_monotone(s: Seq<char>, k: int)
    requires
        0 <= k <= s.len(),
        all_digits(s),
    ensures
        dec_value(s) >= dec_value(s.take(k)),
        dec_value(s) >= 0,
    decreases s.len() - k,
{
    if k == s.len() {
        assert(s.take(k) =~= s);
        lemma_dec_value_nonneg(s);
    } else {
        lemma_dec_value_monotone(s, k + 1);
        let p1 = s.take(k + 1);
        let p = s.take(k);
        assert(p1.drop_last() =~= p);
        assert(all_digits(p)) by {
            assert(forall|i: int| 0 <= i < p.len() ==> p[i] == s[i]);
        }
        lemma_dec_value_nonneg(p);
        assert(dec_value(p1) == dec_value(p) * 10 + (p1.last() as int - '0' as int));
        assert(dec_value(p1) >= dec_value(p));
    }
}

/// Digit strings are worth at least zero.
pub(crate) proof fn lemma_dec_value_nonneg(s: Seq<char>)
    requires
        all_digits(s),
    ensures
        dec_value(s) >= 0,
    decreases s.len(),
{
    if s.len() > 0 {
        assert(all_digits(s.drop_last())) by {
            assert(forall|i: int| 0 <= i < s.len() - 1 ==> s.drop_last()[i] == s[i]);
        }
        lemma_dec_value_nonneg(s.drop_last());
    }
}

/// Why a pointer failed to resolve against a tree.
#[derive(Clone, Copy, Debug, PartialEq, Eq, Structural)]
pub enum PointerFault {
    /// A key or index named by the path is not there.
    NotFound,
    /// A token addressing an array is not an index.
    BadIndex,
    /// The path descends into a non-container.
    Mismatch,
}

/// The diagnostic code a fault is reported under.
pub open spec fn fault_code(f: PointerFault) -> DiagnosticCode {
    match f {
        PointerFault::NotFound => DiagnosticCode::PathNotFound,
        PointerFault::BadIndex => DiagnosticCode::InvalidArrayIndex,
        PointerFault::Mismatch => DiagnosticCode::TypeMismatch,
    }
}

/// A fatal diagnostic for a resolution fault.
pub(crate) fn fault_diagnostic(f: PointerFault) -> (r: Diagnostic)
    ensures
        r.level == DiagnosticLevel::Fatal,
        r.code == fault_code(f),
        r.code_snippet is None,
{
    match f {
        PointerFault::NotFound => Diagnostic::new(
            DiagnosticLevel::Fatal,
            DiagnosticCode::PathNotFound,
            "a key or index named by the path is not in the document".to_owned(),
        ),
        PointerFault::BadIndex => Diagnostic::new(
            DiagnosticLevel::Fatal,
            DiagnosticCode::InvalidArrayIndex,
            "a token addressing an array is not an unsigned integer".to_owned(),
        ),
        PointerFault::Mismatch => Diagnostic::new(
            DiagnosticLevel::Fatal,
            DiagnosticCode::TypeMismatch,
            "the path descends into a value that is not an object or array".to_owned(),
        ),
    }
}

/// The character sequences of a sequence of strings.
pub open spec fn str_views(ts: Seq<String>) -> Seq<Seq<char>> {
    Seq::new(ts.len(), |i: int| ts[i]@)
}

/// The value of the first field with the given key, front to back.
pub open spec fn obj_lookup(fields: Seq<(Seq<char>, Json)>, key: Seq<char>) -> Option<Json>
    decreases fields.len(),
{
    if fields.len() == 0 {
        None
    } else if fields[0].0 == key {
        Some(fields[0].1)
    } else {
        obj_lookup(fields.skip(1), key)
    }
}

/// The fields with the first occurrence of the key rebound to `w`.
pub open spec fn obj_update(fields: Seq<(Seq<char>, Json)>, key: Seq<char>, w: Json) -> Seq<
    (Seq<char>, Json),
>
    decreases fields.len(),
{
    if fields.len() == 0 {
        fields
    } else if fields[0].0 == key {
        seq![(key, w)] + fields.skip(1)
    } else {
        seq![fields[0]] + obj_update(fields.skip(1), key, w)
    }
}

/// The fields with the first occurrence of the key removed.
pub open spec fn obj_del(fields: Seq<(Seq<char>, Json)>, key: Seq<char>) -> Seq<(Seq<char>, Json)>
    decreases fields.len(),
{
    if fields.len() == 0 {
        fields
    } else if fields[0].0 == key {
        fields.skip(1)
    } else {
        seq![fields[0]] + obj_del(fields.skip(1), key)
    }
}

/// When `j` is the first field with the key, lookup finds it, rebinding
/// updates position `j`, and deletion removes position `j`.
pub proof fn lemma_obj_first_match(
    fields: Seq<(Seq<char>, Json)>,
    key: Seq<char>,
    w: Json,
    j: int,
)
    requires
        0 <= j < fields.len(),
        fields[j].0 == key,
        forall|k: int| 0 <= k < j ==> fields[k].0 != key,
    ensures
        obj_lookup(fields, key) == Some(fields[j].1),
        obj_update(fields, key, w) =~= fields.update(j, (key, w)),
        obj_del(fields, key) =~= fields.remove(j),
    decreases j,
{
    if j == 0 {
        assert(obj_update(fields, key, w) =~= fields.update(0, (key, w)));
        assert(obj_del(fields, key) =~= fields.remove(0));
    } else {
        let rest = fields.skip(1);
        assert(rest[j - 1] == fields[j]);
        assert forall|k: int| 0 <= k < j - 1 implies rest[k].0 != key by {
            assert(rest[k] == fields[k + 1]);
        }
        lemma_obj_first_match(rest, key, w, j - 1);
        assert(obj_update(fields, key, w) =~= fields.update(j, (key, w)));
        assert(obj_del(fields, key) =~= fields.remove(j));
    }
}

/// When no field has the key, lookup finds nothing.
pub proof fn lemma_obj_lookup_absent(fields: Seq<(Seq<char>, Json)>, key: Seq<char>)
    requires
        forall|k: int| 0 <= k < fields.len() ==> fields[k].0 != key,
    ensures
        obj_lookup(fields, key) is None,
    decreases fields.len(),
{
    if fields.len() > 0 {
        let rest = fields.skip(1);
        assert forall|k: int| 0 <= k < rest.len() implies rest[k].0 != key by {
            assert(rest[k] == fields[k + 1]);
        }
        lemma_obj_lookup_absent(rest, key);
    }
}

/// What lookup finds: the first matching field, or none anywhere.
pub proof fn lemma_obj_lookup_char(fields: Seq<(Seq<char>, Json)>, key: Seq<char>)
    ensures
        match obj_lookup(fields, key) {
            Some(v) => exists|j: int|
                0 <= j < fields.len() && (#[trigger] fields[j]).0 == key && fields[j].1 == v,
            None => forall|j: int| 0 <= j < fields.len() ==> (#[trigger] fields[j]).0 != key,
        },
    decreases fields.len(),
{
    if fields.len() > 0 && fields[0].0 != key {
        let rest = fields.skip(1);
        lemma_obj_lookup_char(rest, key);
        match obj_lookup(fields, key) {
            Some(v) => {
                let j = choose|j: int|
                    0 <= j < rest.len() && (#[trigger] rest[j]).0 == key && rest[j].1 == v;
                assert((fields[j + 1]).0 == key && fields[j + 1].1 == v);
            },
            None => {
                assert forall|j: int| 0 <= j < fields.len() implies (#[trigger] fields[j]).0
                    != key by {
                    if j > 0 {
                        assert(rest[j - 1] == fields[j]);
                    }
                }
            },
        }
    }
}

/// What resolving tokens `i..` against a tree yields: the addressed subtree,
/// or the first fault on the way.
pub open spec fn spec_get(j: Json, toks: Seq<Seq<char>>, i: int) -> Result<Json, PointerFault>
    decreases toks.len() - i,
{
    if i < 0 || i >= toks.len() {
        Ok(j)
    } else {
        match j {
            Json::Obj(fields) => match obj_lookup(fields, toks[i]) {
                Some(child) => spec_get(child, toks, i + 1),
                None => Err(PointerFault::NotFound),
            },
            Json::Arr(items) => match index_of_token(toks[i]) {
                Some(n) => if n < items.len() {
                    spec_get(items[n], toks, i + 1)
                } else {
                    Err(PointerFault::NotFound)
                },
                None => Err(PointerFault::BadIndex),
            },
            _ => Err(PointerFault::Mismatch),
        }
    }
}

/// What writing `nv` at tokens `i..` yields: the rebuilt tree, or the first
/// fault. At the last token a missing object key is added at the end, and an
/// array index equal to the length appends.
pub open spec fn spec_set(j: Json, toks: Seq<Seq<char>>, i: int, nv: Json) -> Result<
    Json,
    PointerFault,
>
    decreases toks.len() - i,
{
    if i < 0 || i >= toks.len() {
        Ok(nv)
    } else {
        match j {
            Json::Obj(fields) => match obj_lookup(fields, toks[i]) {
                Some(child) => match spec_set(child, toks, i + 1, nv) {
                    Ok(w) => Ok(Json::Obj(obj_update(fields, toks[i], w))),
                    Err(f) => Err(f),
                },
                None => if i == toks.len() - 1 {
                    Ok(Json::Obj(fields.push((toks[i], nv))))
                } else {
                    Err(PointerFault::NotFound)
                },
            },
            Json::Arr(items) => match index_of_token(toks[i]) {
                Some(n) => if n < items.len() {
                    match spec_set(items[n], toks, i + 1, nv) {
                        Ok(w) => Ok(Json::Arr(items.update(n, w))),
                        Err(f) => Err(f),
                    }
                } else if n == items.len() && i == toks.len() - 1 {
                    Ok(Json::Arr(items.push(nv)))
                } else {
                    Err(PointerFault::NotFound)
                },
                None => Err(PointerFault::BadIndex),
            },
            _ => Err(PointerFault::Mismatch),
        }
    }
}

/// What deleting at tokens `i..` yields: the removed subtree and the rebuilt
/// tree, or the first fault. Only meaningful while `i` is in range.
pub open spec fn spec_remove(j: Json, toks: Seq<Seq<char>>, i: int) -> Result<
    (Json, Json),
    PointerFault,
>
    decreases toks.len() - i,
{
    if i < 0 || i >= toks.len() {
        Err(PointerFault::Mismatch)
    } else {
        match j {
            Json::Obj(fields) => match obj_lookup(fields, toks[i]) {
                Some(child) => if i == toks.len() - 1 {
                    Ok((child, Json::Obj(obj_del(fields, toks[i]))))
                } else {
                    match spec_remove(child, toks, i + 1) {
                        Ok((rm, w)) => Ok((rm, Json::Obj(obj_update(fields, toks[i], w)))),
                        Err(f) => Err(f),
                    }
                },
                None => Err(PointerFault::NotFound),
            },
            Json::Arr(items) => match index_of_token(toks[i]) {
                Some(n) => if n < items.len() {
                    if i == toks.len() - 1 {
                        Ok((items[n], Json::Arr(items.remove(n))))
                    } else {
                        match spec_remove(items[n], toks, i + 1) {
                            Ok((rm, w)) => Ok((rm, Json::Arr(items.update(n, w)))),
                            Err(f) => Err(f),
                        }
                    }
                } else {
                    Err(PointerFault::NotFound)
                },
                None => Err(PointerFault::BadIndex),
            },
            _ => Err(PointerFault::Mismatch),
        }
    }
}


/// Writes `nv` at tokens `i..` of an owned tree; on a fault the tree comes
/// back unchanged.
fn set_at(v: JsonValue, tokens: &Vec<String>, i: usize, nv: JsonValue) -> (r: Result<
    JsonValue,
    (JsonValue, PointerFault),
>)
    ensures
        match spec_set(v@, str_views(tokens@), i as int, nv@) {
            Ok(w) => r matches Ok(out) && out@ == w,
            Err(f) => r matches Err(p) && p.0@ == v@ && p.1 == f,
        },
    decreases tokens@.len() - i,
{
    let ghost toks = str_views(tokens@);
    if i >= tokens.len() {
        return Ok(nv);
    }
    let tok = &tokens[i];
    proof {
        assert(toks[i as int] == tok@);
    }
    match v {
        JsonValue::Obj(mut fields) => {
            let ghost oldfields = fields@;
            let ghost oldshapes = obj_shapes_of(fields@);
            match crate::value::obj_find(&fields, tok) {
                Some(j) => {
                    proof {
                        assert(oldshapes[j as int].0 == tok@);
                        assert forall|k: int| 0 <= k < j implies oldshapes[k].0 != tok@ by {
                            assert(oldshapes[k].0 == oldfields[k].0@);
                        }
                    }
                    let pair = fields.remove(j);
                    match set_at(pair.1, tokens, i + 1, nv) {
                        Ok(w) => {
                            let ghost wj = w@;
                            fields.insert(j, (pair.0, w));
                            proof {
                                lemma_obj_first_match(oldshapes, tok@, wj, j as int);
                                assert(fields@ =~= oldfields.update(j as int, fields@[j as int]));
                                assert(obj_shapes_of(fields@) =~= oldshapes.update(
                                    j as int,
                                    (tok@, wj),
                                ));
                            }
                            Ok(JsonValue::Obj(fields))
                        },
                        Err((old_child, f)) => {
                            fields.insert(j, (pair.0, old_child));
                            proof {
                                lemma_obj_first_match(oldshapes, tok@, Json::Null, j as int);
                                assert(fields@ =~= oldfields.update(j as int, fields@[j as int]));
                                assert(obj_shapes_of(fields@) =~= oldshapes);
                            }
                            Err((JsonValue::Obj(fields), f))
                        },
                    }
                },
                None => {
                    proof {
                        assert forall|k: int| 0 <= k < oldshapes.len() implies oldshapes[k].0
                            != tok@ by {
                            assert(oldshapes[k].0 == oldfields[k].0@);
                        }
                        lemma_obj_lookup_absent(oldshapes, tok@);
                    }
                    if i + 1 == tokens.len() {
                        let key = tok.clone();
                        let ghost nvj = nv@;
                        fields.push((key, nv));
                        proof {
                            assert(obj_shapes_of(fields@) =~= oldshapes.push((tok@, nvj)));
                        }
                        Ok(JsonValue::Obj(fields))
                    } else {
                        Err((JsonValue::Obj(fields), PointerFault::NotFound))
                    }
                },
            }
        },
        JsonValue::Arr(mut items) => {
            let ghost olditems = items@;
            let ghost oldshapes = shapes_of(items@);
            match parse_index(tok) {
                Some(n) => {
                    if n < items.len() {
                        let item = items.remove(n);
                        match set_at(item, tokens, i + 1, nv) {
                            Ok(w) => {
                                let ghost wj = w@;
                                items.insert(n, w);
                                proof {
                                    assert(items@ =~= olditems.update(n as int, items@[n as int]));
                                    assert(shapes_of(items@) =~= oldshapes.update(n as int, wj));
                                }
                                Ok(JsonValue::Arr(items))
                            },
                            Err((old_item, f)) => {
                                items.insert(n, old_item);
                                proof {
                                    assert(items@ =~= olditems.update(n as int, items@[n as int]));
                                    assert(shapes_of(items@) =~= oldshapes);
                                }
                                Err((JsonValue::Arr(items), f))
                            },
                        }
                    } else if n == items.len() && i + 1 == tokens.len() {
                        let ghost nvj = nv@;
                        items.push(nv);
                        proof {
                            assert(shapes_of(items@) =~= oldshapes.push(nvj));
                        }
                        Ok(JsonValue::Arr(items))
                    } else {
                        Err((JsonValue::Arr(items), PointerFault::NotFound))
                    }
                },
                None => Err((JsonValue::Arr(items), PointerFault::BadIndex)),
            }
        },
        other => Err((other, PointerFault::Mismatch)),
    }
}

/// Deletes at tokens `i..` of an owned tree, yielding the removed subtree
/// and the rebuilt tree; on a fault the tree comes back unchanged.
fn remove_at(v: JsonValue, tokens: &Vec<String>, i: usize) -> (r: Result<
    (JsonValue, JsonValue),
    (JsonValue, PointerFault),
>)
    requires
        i < tokens@.len(),
    ensures
        match spec_remove(v@, str_views(tokens@), i as int) {
            Ok(p) => r matches Ok(q) && q.0@ == p.0 && q.1@ == p.1,
            Err(f) => r matches Err(p) && p.0@ == v@ && p.1 == f,
        },
    decreases tokens@.len() - i,
{
    let ghost toks = str_views(tokens@);
    let tok = &tokens[i];
    proof {
        assert(toks[i as int] == tok@);
    }
    let last = tokens.len() - i == 1;
    match v {
        JsonValue::Obj(mut fields) => {
            let ghost oldfields = fields@;
            let ghost oldshapes = obj_shapes_of(fields@);
            match crate::value::obj_find(&fields, tok) {
                Some(j) => {
                    proof {
                        assert(oldshapes[j as int].0 == tok@);
                        assert forall|k: int| 0 <= k < j implies oldshapes[k].0 != tok@ by {
                            assert(oldshapes[k].0 == oldfields[k].0@);
                        }
                        lemma_obj_first_match(oldshapes, tok@, Json::Null, j as int);
                    }
                    if last {
                        let pair = fields.remove(j);
                        proof {
                            assert(obj_shapes_of(fields@) =~= oldshapes.remove(j as int));
                        }
                        Ok((pair.1, JsonValue::Obj(fields)))
                    } else {
                        let pair = fields.remove(j);
                        match remove_at(pair.1, tokens, i + 1) {
                            Ok((rm, w)) => {
                                let ghost wj = w@;
                                fields.insert(j, (pair.0, w));
                                proof {
                                    lemma_obj_first_match(oldshapes, tok@, wj, j as int);
                                    assert(fields@ =~= oldfields.update(
                                        j as int,
                                        fields@[j as int],
                                    ));
                                    assert(obj_shapes_of(fields@) =~= oldshapes.update(
                                        j as int,
                                        (tok@, wj),
                                    ));
                                }
                                Ok((rm, JsonValue::Obj(fields)))
                            },
                            Err((old_child, f)) => {
                                fields.insert(j, (pair.0, old_child));
                                proof {
                                    assert(fields@ =~= oldfields.update(
                                        j as int,
                                        fields@[j as int],
                                    ));
                                    assert(obj_shapes_of(fields@) =~= oldshapes);
                                }
                                Err((JsonValue::Obj(fields), f))
                            },
                        }
                    }
                },
                None => {
                    proof {
                        assert forall|k: int| 0 <= k < oldshapes.len() implies oldshapes[k].0
                            != tok@ by {
                            assert(oldshapes[k].0 == oldfields[k].0@);
                        }
                        lemma_obj_lookup_absent(oldshapes, tok@);
                    }
                    Err((JsonValue::Obj(fields), PointerFault::NotFound))
                },
            }
        },
        JsonValue::Arr(mut items) => {
            let ghost olditems = items@;
            let ghost oldshapes = shapes_of(items@);
            match parse_index(tok) {
                Some(n) => {
                    if n < items.len() {
                        if last {
                            let item = items.remove(n);
                            proof {
                                assert(shapes_of(items@) =~= oldshapes.remove(n as int));
                            }
                            Ok((item, JsonValue::Arr(items)))
                        } else {
                            let item = items.remove(n);
                            match remove_at(item, tokens, i + 1) {
                                Ok((rm, w)) => {
                                    let ghost wj = w@;
                                    items.insert(n, w);
                                    proof {
                                        assert(items@ =~= olditems.update(
                                            n as int,
                                            items@[n as int],
                                        ));
                                        assert(shapes_of(items@) =~= oldshapes.update(
                                            n as int,
                                            wj,
                                        ));
                                    }
                                    Ok((rm, JsonValue::Arr(items)))
                                },
                                Err((old_item, f)) => {
                                    items.insert(n, old_item);
                                    proof {
                                        assert(items@ =~= olditems.update(
                                            n as int,
                                            items@[n as int],
                                        ));
                                        assert(shapes_of(items@) =~= oldshapes);
                                    }
                                    Err((JsonValue::Arr(items), f))
                                },
                            }
                        }
                    } else {
                        Err((JsonValue::Arr(items), PointerFault::NotFound))
                    }
                },
                None => Err((JsonValue::Arr(items), PointerFault::BadIndex)),
            }
        },
        other => Err((other, PointerFault::Mismatch)),
    }
}

/// Subtrees of a well-formed tree are well-formed.
pub proof fn lemma_spec_get_wf(j: Json, toks: Seq<Seq<char>>, i: int)
    requires
        json_wf(j),
    ensures
        spec_get(j, toks, i) matches Ok(w) ==> json_wf(w),
    decreases toks.len() - i,
{
    if 0 <= i < toks.len() {
        match j {
            Json::Obj(fields) => {
                lemma_obj_lookup_char(fields, toks[i]);
                match obj_lookup(fields, toks[i]) {
                    Some(child) => {
                        let jx = choose|jx: int|
                            0 <= jx < fields.len() && (#[trigger] fields[jx]).0 == toks[i]
                                && fields[jx].1 == child;
                        assert(json_wf(fields[jx].1));
                        lemma_spec_get_wf(child, toks, i + 1);
                    },
                    None => {},
                }
            },
            Json::Arr(items) => {
                match index_of_token(toks[i]) {
                    Some(n) => {
                        if n < items.len() {
                            assert(json_wf(items[n]));
                            lemma_spec_get_wf(items[n], toks, i + 1);
                        }
                    },
                    None => {},
                }
            },
            _ => {},
        }
    }
}

/// Writing a well-formed value into a well-formed tree yields a well-formed
/// tree.
pub proof fn lemma_spec_set_wf(j: Json, toks: Seq<Seq<char>>, i: int, nv: Json)
    requires
        json_wf(j),
        json_wf(nv),
    ensures
        spec_set(j, toks, i, nv) matches Ok(w) ==> json_wf(w),
    decreases toks.len() - i,
{
    if i < 0 || i >= toks.len() {
    } else {
        match j {
            Json::Obj(fields) => {
                lemma_obj_lookup_char(fields, toks[i]);
                match obj_lookup(fields, toks[i]) {
                    Some(child) => {
                        let jx = choose|jx: int|
                            0 <= jx < fields.len() && (#[trigger] fields[jx]).0 == toks[i]
                                && fields[jx].1 == child;
                        assert forall|k: int| 0 <= k < jx implies fields[k].0 != toks[i] by {
                            assert(keys_unique(fields));
                        }
                        assert(json_wf(fields[jx].1));
                        lemma_spec_set_wf(child, toks, i + 1, nv);
                        match spec_set(child, toks, i + 1, nv) {
                            Ok(w) => {
                                lemma_obj_first_match(fields, toks[i], w, jx);
                                let updated = fields.update(jx, (toks[i], w));
                                assert(obj_update(fields, toks[i], w) == updated);
                                assert(json_wf(Json::Obj(updated))) by {
                                    assert forall|a: int, b: int|
                                        0 <= a < b < updated.len() implies updated[a].0
                                        != updated[b].0 by {
                                        assert(updated[a].0 == fields[a].0);
                                        assert(updated[b].0 == fields[b].0);
                                    }
                                    assert forall|k: int|
                                        0 <= k < updated.len() implies json_wf(
                                        #[trigger] updated[k].1,
                                    ) by {
                                        if k != jx {
                                            assert(updated[k].1 == fields[k].1);
                                            assert(json_wf(fields[k].1));
                                        }
                                    }
                                }
                            },
                            Err(_) => {},
                        }
                    },
                    None => {
                        if i == toks.len() - 1 {
                            let pushed = fields.push((toks[i], nv));
                            assert(json_wf(Json::Obj(pushed))) by {
                                assert forall|a: int, b: int|
                                    0 <= a < b < pushed.len() implies pushed[a].0
                                    != pushed[b].0 by {
                                    if b < fields.len() {
                                        assert(pushed[a] == fields[a] && pushed[b] == fields[b]);
                                    } else {
                                        assert(pushed[a] == fields[a]);
                                        assert(pushed[b].0 == toks[i]);
                                    }
                                }
                                assert forall|k: int|
                                    0 <= k < pushed.len() implies json_wf(
                                    #[trigger] pushed[k].1,
                                ) by {
                                    if k < fields.len() {
                                        assert(pushed[k] == fields[k]);
                                        assert(json_wf(fields[k].1));
                                    }
                                }
                            }
                        }
                    },
                }
            },
            Json::Arr(items) => {
                match index_of_token(toks[i]) {
                    Some(n) => {
                        if n < items.len() {
                            assert(json_wf(items[n]));
                            lemma_spec_set_wf(items[n], toks, i + 1, nv);
                            match spec_set(items[n], toks, i + 1, nv) {
                                Ok(w) => {
                                    let updated = items.update(n, w);
                                    assert forall|k: int|
                                        0 <= k < updated.len() implies json_wf(
                                        #[trigger] updated[k],
                                    ) by {
                                        if k != n {
                                            assert(updated[k] == items[k]);
                                            assert(json_wf(items[k]));
                                        }
                                    }
                                },
                                Err(_) => {},
                            }
                        } else if n == items.len() && i == toks.len() - 1 {
                            let pushed = items.push(nv);
                            assert forall|k: int|
                                0 <= k < pushed.len() implies json_wf(#[trigger] pushed[k]) by {
                                if k < items.len() {
                                    assert(pushed[k] == items[k]);
                                    assert(json_wf(items[k]));
                                }
                            }
                        }
                    },
                    None => {},
                }
            },
            _ => {},
        }
    }
}

/// Deleting from a well-formed tree leaves a well-formed tree, and the
/// removed subtree is well-formed.
pub proof fn lemma_spec_remove_wf(j: Json, toks: Seq<Seq<char>>, i: int)
    requires
        json_wf(j),
    ensures
        spec_remove(j, toks, i) matches Ok(p) ==> json_wf(p.0) && json_wf(p.1),
    decreases toks.len() - i,
{
    if i < 0 || i >= toks.len() {
    } else {
        match j {
            Json::Obj(fields) => {
                lemma_obj_lookup_char(fields, toks[i]);
                match obj_lookup(fields, toks[i]) {
                    Some(child) => {
                        let jx = choose|jx: int|
                            0 <= jx < fields.len() && (#[trigger] fields[jx]).0 == toks[i]
                                && fields[jx].1 == child;
                        assert forall|k: int| 0 <= k < jx implies fields[k].0 != toks[i] by {
                            assert(keys_unique(fields));
                        }
                        assert(json_wf(fields[jx].1));
                        lemma_obj_first_match(fields, toks[i], Json::Null, jx);
                        if i == toks.len() - 1 {
                            let shrunk = fields.remove(jx);
                            assert(obj_del(fields, toks[i]) == shrunk);
                            assert(json_wf(Json::Obj(shrunk))) by {
                                fields.remove_ensures(jx);
                                assert forall|a: int, b: int|
                                    0 <= a < b < shrunk.len() implies shrunk[a].0
                                    != shrunk[b].0 by {
                                    let aa = if a < jx { a } else { a + 1 };
                                    let bb = if b < jx { b } else { b + 1 };
                                    assert(shrunk[a] == fields[aa]);
                                    assert(shrunk[b] == fields[bb]);
                                }
                                assert forall|k: int|
                                    0 <= k < shrunk.len() implies json_wf(
                                    #[trigger] shrunk[k].1,
                                ) by {
                                    let kk = if k < jx { k } else { k + 1 };
                                    assert(shrunk[k] == fields[kk]);
                                    assert(json_wf(fields[kk].1));
                                }
                            }
                        } else {
                            lemma_spec_remove_wf(child, toks, i + 1);
                            match spec_remove(child, toks, i + 1) {
                                Ok(p) => {
                                    lemma_obj_first_match(fields, toks[i], p.1, jx);
                                    let updated = fields.update(jx, (toks[i], p.1));
                                    assert(obj_update(fields, toks[i], p.1) == updated);
                                    assert(json_wf(Json::Obj(updated))) by {
                                        assert forall|a: int, b: int|
                                            0 <= a < b < updated.len() implies updated[a].0
                                            != updated[b].0 by {
                                            assert(updated[a].0 == fields[a].0);
                                            assert(updated[b].0 == fields[b].0);
                                        }
                                        assert forall|k: int|
                                            0 <= k < updated.len() implies json_wf(
                                            #[trigger] updated[k].1,
                                        ) by {
                                            if k != jx {
                                                assert(updated[k].1 == fields[k].1);
                                                assert(json_wf(fields[k].1));
                                            }
                                        }
                                    }
                                },
                                Err(_) => {},
                            }
                        }
                    },
                    None => {},
                }
            },
            Json::Arr(items) => {
                match index_of_token(toks[i]) {
                    Some(n) => {
                        if n < items.len() {
                            assert(json_wf(items[n]));
                            if i == toks.len() - 1 {
                                let shrunk = items.remove(n);
                                items.remove_ensures(n);
                                assert forall|k: int|
                                    0 <= k < shrunk.len() implies json_wf(
                                    #[trigger] shrunk[k],
                                ) by {
                                    let kk = if k < n { k } else { k + 1 };
                                    assert(shrunk[k] == items[kk]);
                                    assert(json_wf(items[kk]));
                                }
                            } else {
                                lemma_spec_remove_wf(items[n], toks, i + 1);
                                match spec_remove(items[n], toks, i + 1) {
                                    Ok(p) => {
                                        let updated = items.update(n, p.1);
                                        assert forall|k: int|
                                            0 <= k < updated.len() implies json_wf(
                                            #[trigger] updated[k],
                                        ) by {
                                            if k != n {
                                                assert(updated[k] == items[k]);
                                                assert(json_wf(items[k]));
                                            }
                                        }
                                    },
                                    Err(_) => {},
                                }
                            }
                        }
                    },
                    None => {},
                }
            },
            _ => {},
        }
    }
}

/// A parsed path: the token sequence it denotes, ready to resolve against a
/// tree.
#[derive(Debug)]
pub struct JsonPointer {
    tokens: Vec<String>,
}

impl View for JsonPointer {
    type V = Seq<Seq<char>>;

    closed spec fn view(&self) -> Seq<Seq<char>> {
        Seq::new(self.tokens@.len(), |i: int| self.tokens@[i]@)
    }
}

impl JsonPointer {
    /// Parses a path. The empty path is the whole-document pointer; any
    /// other path must start with `/` and is split on `/` with `~1` and `~0`
    /// read back as `/` and `~`.
    pub fn new(path: &str) -> (r: Result<JsonPointer, Diagnostic>)
        ensures
            r is Ok <==> path_ok(path@),
            r matches Ok(p) ==> p@ == parse_tokens(path@),
            r matches Err(d) ==> d.level == DiagnosticLevel::Fatal && d.code
                == DiagnosticCode::InvalidPointerSyntax && d.code_snippet is None,
    {
        let cs = str_chars(path);
        if cs.len() == 0 {
            let p = JsonPointer { tokens: Vec::new() };
            proof {
                assert(p@ =~= parse_tokens(path@));
            }
            return Ok(p);
        }
        if cs[0] != '/' {
            return Err(
                Diagnostic::new(
                    DiagnosticLevel::Fatal,
                    DiagnosticCode::InvalidPointerSyntax,
                    "the path must be empty or start with '/'".to_owned(),
                ),
            );
        }
        let ghost rest = path@.skip(1);
        let mut tokens: Vec<String> = Vec::new();
        let mut cur: Vec<char> = Vec::new();
        let ghost mut raws: Seq<Seq<char>> = Seq::empty();
        let mut i: usize = 1;
        proof {
            assert(cur@ + cs@.skip(1) =~= rest);
            assert(raws + seq![cur@ + cs@.skip(1)] =~= seq![rest]);
        }
        while i < cs.len()
            invariant
                1 <= i <= cs@.len(),
                cs@ == path@,
                cs@.len() >= 1,
                cs@[0] == '/',
                rest == path@.skip(1),
                forall|j: int| 0 <= j < cur@.len() ==> cur@[j] != '/',
                split_segments(rest) == raws + split_segments(cur@ + cs@.skip(i as int)),
                tokens@.len() == raws.len(),
                forall|k: int| 0 <= k < raws.len() ==> tokens@[k]@ == unescape(#[trigger] raws[k]),
            decreases cs@.len() - i,
        {
            let ghost oldcur = cur@;
            if cs[i] == '/' {
                let t = unescape_chars(&cur);
                tokens.push(chars_string(&t));
                cur = Vec::new();
                proof {
                    lemma_split_prefix(oldcur, cs@.skip(i as int + 1));
                    assert(oldcur + seq!['/'] + cs@.skip(i as int + 1) =~= oldcur + cs@.skip(
                        i as int,
                    ));
                    raws = raws.push(oldcur);
                    assert(cur@ + cs@.skip(i as int + 1) =~= cs@.skip(i as int + 1));
                    assert(split_segments(rest) =~= raws + split_segments(
                        cur@ + cs@.skip(i as int + 1),
                    ));
                }
            } else {
                cur.push(cs[i]);
                proof {
                    assert(cur@ + cs@.skip(i as int + 1) =~= oldcur + cs@.skip(i as int));
                }
            }
            i = i + 1;
        }
        let t = unescape_chars(&cur);
        tokens.push(chars_string(&t));
        proof {
            assert(cur@ + cs@.skip(i as int) =~= cur@);
            lemma_split_prefix(cur@, Seq::empty());
            raws = raws.push(cur@);
            assert(split_segments(rest) == raws);
        }
        let p = JsonPointer { tokens };
        proof {
            assert(path@.len() != 0);
            let m = split_segments(rest).map_values(|t: Seq<char>| unescape(t));
            assert forall|k: int| 0 <= k < m.len() implies m[k] == p@[k] by {
                assert(tokens@[k]@ == unescape(raws[k]));
            }
            assert(p@ =~= parse_tokens(path@));
        }
        Ok(p)
    }

    /// Prints the pointer back to path form, escaping each token.
    pub fn to_string(&self) -> (r: String)
        ensures
            r@ == tokens_string(self@),
    {
        let mut out: Vec<char> = Vec::new();
        let mut i: usize = 0;
        proof {
            assert(self@.skip(0) =~= self@);
            assert(out@ + tokens_string(self@) =~= tokens_string(self@));
        }
        while i < self.tokens.len()
            invariant
                0 <= i <= self@.len(),
                self@.len() == self.tokens@.len(),
                forall|k: int| 0 <= k < self@.len() ==> self@[k] == self.tokens@[k]@,
                out@ + tokens_string(self@.skip(i as int)) == tokens_string(self@),
            decreases self@.len() - i,
        {
            let ghost pre = out@;
            let ghost restv = self@.skip(i as int);
            out.push('/');
            let tc = str_chars(self.tokens[i].as_str());
            let e = escape_chars(&tc);
            let mut j: usize = 0;
            while j < e.len()
                invariant
                    0 <= j <= e@.len(),
                    out@ == pre + seq!['/'] + e@.take(j as int),
                decreases e@.len() - j,
            {
                out.push(e[j]);
                j = j + 1;
                proof {
                    assert(e@.take(j as int) =~= e@.take(j - 1).push(e@[j - 1]));
                }
            }
            proof {
                assert(e@.take(j as int) =~= e@);
                assert(restv[0] == self@[i as int]);
                assert(restv.skip(1) =~= self@.skip(i as int + 1));
                assert(tokens_string(restv) == seq!['/'] + escape(self@[i as int])
                    + tokens_string(self@.skip(i as int + 1)));
                assert(out@ =~= pre + (seq!['/'] + escape(self@[i as int])));
                assert(out@ + tokens_string(self@.skip(i as int + 1)) =~= tokens_string(self@));
            }
            i = i + 1;
        }
        proof {
            assert(self@.skip(i as int) =~= Seq::<Seq<char>>::empty());
            assert(out@ + tokens_string(self@.skip(i as int)) =~= out@);
        }
        chars_string(&out)
    }

    /// Resolves the pointer, returning the addressed subtree. The empty
    /// pointer addresses the whole document.
    pub fn get<'a>(&self, value: &'a JsonValue) -> (r: Result<&'a JsonValue, Diagnostic>)
        ensures
            match spec_get(value@, self@, 0) {
                Ok(js) => r matches Ok(v) && v@ == js,
                Err(f) => r matches Err(d) && d.level == DiagnosticLevel::Fatal && d.code
                    == fault_code(f) && d.code_snippet is None,
            },
    {
        let mut current: &JsonValue = value;
        let mut i: usize = 0;
        while i < self.tokens.len()
            invariant
                0 <= i <= self.tokens@.len(),
                self@ == str_views(self.tokens@),
                spec_get(value@, self@, 0) == spec_get(current@, self@, i as int),
            decreases self.tokens@.len() - i,
        {
            let tok = &self.tokens[i];
            proof {
                assert(self@[i as int] == tok@);
            }
            match current {
                JsonValue::Obj(fields) => {
                    let ghost shapes = obj_shapes_of(fields@);
                    match crate::value::obj_find(fields, tok) {
                        Some(j) => {
                            proof {
                                assert(shapes[j as int].0 == tok@);
                                assert forall|k: int| 0 <= k < j implies shapes[k].0 != tok@ by {
                                    assert(shapes[k].0 == fields@[k].0@);
                                }
                                lemma_obj_first_match(shapes, tok@, Json::Null, j as int);
                            }
                            current = &fields[j].1;
                        },
                        None => {
                            proof {
                                assert forall|k: int| 0 <= k < shapes.len() implies shapes[k].0
                                    != tok@ by {
                                    assert(shapes[k].0 == fields@[k].0@);
                                }
                                lemma_obj_lookup_absent(shapes, tok@);
                            }
                            return Err(fault_diagnostic(PointerFault::NotFound));
                        },
                    }
                },
                JsonValue::Arr(items) => {
                    match parse_index(tok) {
                        Some(n) => {
                            if n < items.len() {
                                current = &items[n];
                            } else {
                                return Err(fault_diagnostic(PointerFault::NotFound));
                            }
                        },
                        None => {
                            return Err(fault_diagnostic(PointerFault::BadIndex));
                        },
                    }
                },
                _ => {
                    return Err(fault_diagnostic(PointerFault::Mismatch));
                },
            }
            i = i + 1;
        }
        Ok(current)
    }

    /// Writes `new_value` at the pointer. The empty pointer replaces the
    /// whole document; at the last token a missing object key is added and an
    /// array index equal to the length appends. On a fault the tree is left
    /// unchanged.
    pub fn set(&self, value: &mut JsonValue, new_value: JsonValue) -> (r: Result<(), Diagnostic>)
        ensures
            match spec_set(old(value)@, self@, 0, new_value@) {
                Ok(w) => r is Ok && final(value)@ == w,
                Err(f) => r matches Err(d) && final(value)@ == old(value)@ && d.level
                    == DiagnosticLevel::Fatal && d.code == fault_code(f) && d.code_snippet
                    is None,
            },
    {
        let mut cur = JsonValue::Null;
        core::mem::swap(value, &mut cur);
        match set_at(cur, &self.tokens, 0, new_value) {
            Ok(w) => {
                *value = w;
                Ok(())
            },
            Err((back, f)) => {
                *value = back;
                Err(fault_diagnostic(f))
            },
        }
    }

    /// Deletes the value at the pointer and returns it. The empty pointer is
    /// refused: the root cannot be removed. On a fault the tree is left
    /// unchanged.
    pub fn remove(&self, value: &mut JsonValue) -> (r: Result<JsonValue, Diagnostic>)
        ensures
            self@.len() == 0 ==> (r matches Err(d) && final(value)@ == old(value)@ && d.level
                == DiagnosticLevel::Fatal && d.code == DiagnosticCode::InvalidPointerSyntax
                && d.code_snippet is None),
            self@.len() > 0 ==> match spec_remove(old(value)@, self@, 0) {
                Ok(p) => r matches Ok(rm) && rm@ == p.0 && final(value)@ == p.1,
                Err(f) => r matches Err(d) && final(value)@ == old(value)@ && d.level
                    == DiagnosticLevel::Fatal && d.code == fault_code(f) && d.code_snippet
                    is None,
            },
    {
        if self.tokens.len() == 0 {
            return Err(
                Diagnostic::new(
                    DiagnosticLevel::Fatal,
                    DiagnosticCode::InvalidPointerSyntax,
                    "the root value cannot be removed".to_owned(),
                ),
            );
        }
        let mut cur = JsonValue::Null;
        core::mem::swap(value, &mut cur);
        match remove_at(cur, &self.tokens, 0) {
            Ok((rm, w)) => {
                *value = w;
                Ok(rm)
            },
            Err((back, f)) => {
                *value = back;
                Err(fault_diagnostic(f))
            },
        }
    }
}

} // verus!
