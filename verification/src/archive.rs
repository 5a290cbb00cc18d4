//! Small decisions the archive tooling makes around the core: what to name
//! an output file, when a writer owes a snapshot line, and how to shorten an
//! id for display.

use vstd::prelude::*;

use crate::outside::{chars_string, str_chars};
use crate::detection::ends_with;

verus! {

/// The output name an input name maps to: a name already ending in
/// `.json.archive` stays; a `.json` name gains `.archive`; anything else
/// gains `.json.archive`.
pub open spec fn spec_default_output(s: Seq<char>) -> Seq<char> {
    if ends_with(s, ".json.archive"@) {
        s
    } else if ends_with(s, ".json"@) {
        s + ".archive"@
    } else {
        s + ".json.archive"@
    }
}

/// Whether the suffix of `cs` equals the characters of `pat`.
fn suffix_is(cs: &Vec<char>, pat: &str) -> (r: bool)
    ensures
        r == ends_with(cs@, pat@),
{
    let p = str_chars(pat);
    if cs.len() < p.len() {
        return false;
    }
    let start = cs.len() - p.len();
    let mut i: usize = 0;
    while i < p.len()
        invariant
            0 <= i <= p@.len(),
            p@ == pat@,
            p@.len() <= cs@.len(),
            cs@.len() <= usize::MAX,
            start == cs@.len() - p@.len(),
            forall|k: int| 0 <= k < i ==> cs@[start + k] == p@[k],
        decreases p@.len() - i,
    {
        let idx = start + i;
        if cs[idx] != p[i] {
            proof {
                assert(cs@.skip(start as int)[i as int] != pat@[i as int]);
            }
            return false;
        }
        i = i + 1;
    }
    proof {
        assert(cs@.skip(start as int) =~= pat@);
    }
    true
}

/// Appends the characters of `pat` to `cs`.
fn push_str_chars(cs: &mut Vec<char>, pat: &str)
    ensures
        final(cs)@ == old(cs)@ + pat@,
{
    let p = str_chars(pat);
    let mut i: usize = 0;
    while i < p.len()
        invariant
            0 <= i <= p@.len(),
            p@ == pat@,
            cs@ == old(cs)@ + p@.take(i as int),
        decreases p@.len() - i,
    {
        cs.push(p[i]);
        proof {
            assert(p@.take(i as int + 1) =~= p@.take(i as int).push(p@[i as int]));
            assert(cs@ =~= old(cs)@ + p@.take(i as int + 1));
        }
        i = i + 1;
    }
    proof {
        assert(p@.take(i as int) =~= p@);
    }
}

/// The default archive name for an input file.
pub fn default_output_filename(input_path: &str) -> (r: String)
    ensures
        r@ == spec_default_output(input_path@),
{
    let mut cs = str_chars(input_path);
    if suffix_is(&cs, ".json.archive") {
        return chars_string(&cs);
    }
    if suffix_is(&cs, ".json") {
        push_str_chars(&mut cs, ".archive");
        return chars_string(&cs);
    }
    push_str_chars(&mut cs, ".json.archive");
    chars_string(&cs)
}

/// Whether a writer that checkpoints every `interval` observations owes a
/// snapshot now: only after at least one observation, at multiples of the
/// interval.
pub fn should_write_snapshot(observation_count: usize, snapshot_interval: Option<usize>) -> (r:
    bool)
    requires
        snapshot_interval matches Some(n) ==> n > 0,
    ensures
        r == (snapshot_interval matches Some(n) && observation_count > 0 && observation_count % n
            == 0),
{
    match snapshot_interval {
        Some(interval) => observation_count > 0 && observation_count % interval == 0,
        None => false,
    }
}

/// An id shortened for display: at most twenty characters, with a trailing
/// ellipsis when cut.
pub fn truncate_id(id: &str) -> (r: String)
    ensures
        id@.len() > 20 ==> r@ == id@.take(20) + "..."@,
        id@.len() <= 20 ==> r@ == id@,
{
    let cs = str_chars(id);
    if cs.len() > 20 {
        let mut out: Vec<char> = Vec::new();
        let mut i: usize = 0;
        while i < 20
            invariant
                0 <= i <= 20,
                cs@ == id@,
                cs@.len() > 20,
                out@ == cs@.take(i as int),
            decreases 20 - i,
        {
            out.push(cs[i]);
            proof {
                assert(cs@.take(i as int + 1) =~= cs@.take(i as int).push(cs@[i as int]));
            }
            i = i + 1;
        }
        push_str_chars(&mut out, "...");
        chars_string(&out)
    } else {
        chars_string(&cs)
    }
}

} // verus!
