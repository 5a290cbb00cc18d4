//! Recognising what a file holds without trusting its name: an archive is
//! known by its `.json.archive` suffix or by the `type` marker standing
//! first in its header object, and a compressed stream is known by its
//! leading magic bytes or, failing that, its name.

use vstd::prelude::*;

use crate::events::archive_file_type;
use crate::outside::{json_parse, parse_json_text, str_chars};
use crate::value::{obj_shapes_of, Json, JsonValue};

verus! {

/// Whether `s` ends with `pat`.
pub open spec fn ends_with(s: Seq<char>, pat: Seq<char>) -> bool {
    s.len() >= pat.len() && s.skip(s.len() - pat.len()) == pat
}

/// Whether `pat` occurs anywhere in `s`.
pub open spec fn contains_seq(s: Seq<char>, pat: Seq<char>) -> bool {
    exists|i: int| 0 <= i <= s.len() - pat.len() && #[trigger] s.subrange(i, i + pat.len()) == pat
}

/// Whether the suffix of `cs` equals the characters of `pat`.
fn ends_with_chars(cs: &Vec<char>, pat: &str) -> (r: bool)
    ensures
        r == ends_with(cs@, pat@),
{
    let p = str_chars(pat);
    if cs.len() < p.len() {
        return false;
    }
    let start = cs.len() - p.len();
    let mut i: usize = 0;
    while i < p.len()
        invariant
            0 <= i <= p@.len(),
            p@ == pat@,
            p@.len() <= cs@.len(),
            cs@.len() <= usize::MAX,
            start == cs@.len() - p@.len(),
            forall|k: int| 0 <= k < i ==> cs@[start + k] == p@[k],
        decreases p@.len() - i,
    {
        if cs[start + i] != p[i] {
            proof {
                assert(cs@.skip(start as int)[i as int] != pat@[i as int]);
            }
            return false;
        }
        i = i + 1;
    }
    proof {
        assert(cs@.skip(start as int) =~= pat@);
    }
    true
}

/// Whether `pat` occurs anywhere in `cs`.
fn contains_chars(cs: &Vec<char>, pat: &str) -> (r: bool)
    ensures
        r == contains_seq(cs@, pat@),
{
    let p = str_chars(pat);
    if cs.len() < p.len() {
        proof {
            if contains_seq(cs@, pat@) {
                let i = choose|i: int|
                    0 <= i <= cs@.len() - pat@.len() && #[trigger] cs@.subrange(i, i + pat@.len())
                        == pat@;
            }
        }
        return false;
    }
    let mut i: usize = 0;
    while i <= cs.len() - p.len()
        invariant
            0 <= i <= cs@.len() - p@.len() + 1,
            p@ == pat@,
            p@.len() <= cs@.len(),
            cs@.len() <= usize::MAX,
            forall|k: int| 0 <= k < i ==> #[trigger] cs@.subrange(k, k + pat@.len()) != pat@,
        decreases cs@.len() - p@.len() + 1 - i,
    {
        let mut j: usize = 0;
        let mut hit = true;
        while j < p.len()
            invariant
                0 <= j <= p@.len(),
                p@ == pat@,
                0 <= i <= cs@.len() - p@.len(),
                cs@.len() <= usize::MAX,
                hit == (forall|k: int| 0 <= k < j ==> cs@[i + k] == p@[k]),
            decreases p@.len() - j,
        {
            if cs[i + j] != p[j] {
                hit = false;
                proof {
                    assert(!(forall|k: int| 0 <= k < j + 1 ==> cs@[i + k] == p@[k])) by {
                        assert(cs@[i + j] != p@[j as int]);
                    }
                }
                j = p.len();
            } else {
                proof {
                    if forall|k: int| 0 <= k < j ==> cs@[i + k] == p@[k] {
                        assert forall|k: int| 0 <= k < j + 1 implies cs@[i + k] == p@[k] by {}
                    }
                }
                j = j + 1;
            }
        }
        if hit {
            proof {
                assert(cs@.subrange(i as int, i + pat@.len()) =~= pat@);
            }
            return true;
        }
        proof {
            if cs@.subrange(i as int, i + pat@.len()) == pat@ {
                assert(cs@.subrange(i as int, i + pat@.len())[0] == cs@[i as int]);
                assert forall|k: int| 0 <= k < pat@.len() implies cs@[i + k] == pat@[k] by {
                    assert(cs@.subrange(i as int, i + pat@.len())[k] == cs@[i + k]);
                }
            }
        }
        i = i + 1;
    }
    proof {
        if contains_seq(cs@, pat@) {
            let w = choose|w: int|
                0 <= w <= cs@.len() - pat@.len() && #[trigger] cs@.subrange(w, w + pat@.len())
                    == pat@;
        }
    }
    false
}

/// Whether a header line marks an archive: a JSON object whose first field
/// is `type` holding the archive marker.
pub open spec fn header_line_marks_archive(line: Seq<char>) -> bool {
    match json_parse(line) {
        Some(v) => match v {
            JsonValue::Obj(fields) => {
                let shp = obj_shapes_of(fields@);
                shp.len() > 0 && shp[0].0 == "type"@ && shp[0].1 == Json::Text(
                    archive_file_type(),
                )
            },
            _ => false,
        },
        None => false,
    }
}

/// Whether a file is an archive, judged from its name and, when the name is
/// not telling, its first line: either the name ends in `.json.archive`, or
/// the first line is a JSON object whose first field is the `type` marker.
pub fn is_json_archive(filename: &str, first_line: Option<&str>) -> (r: bool)
    ensures
        r == (ends_with(filename@, ".json.archive"@) || (first_line matches Some(l)
            && header_line_marks_archive(l@))),
{
    let fc = str_chars(filename);
    if ends_with_chars(&fc, ".json.archive") {
        return true;
    }
    let line = match first_line {
        Some(l) => l,
        None => {
            return false;
        },
    };
    let parsed = parse_json_text(line);
    let v: JsonValue;
    match parsed {
        Some(x) => {
            v = x;
        },
        None => {
            return false;
        },
    }
    match v {
        JsonValue::Obj(fields) => {
            if fields.len() == 0 {
                return false;
            }
            let ghost shp = obj_shapes_of(fields@);
            proof {
                assert(shp[0] == (fields@[0].0@, crate::value::json_of(fields@[0].1)));
            }
            if !(fields[0].0 == "type".to_owned()) {
                return false;
            }
            match &fields[0].1 {
                JsonValue::Text(t) => *t == "@peoplesgrocers/json-archive".to_owned(),
                _ => false,
            }
        },
        _ => false,
    }
}

/// The compressed stream kinds a reader may meet, and `Plain` for bare text.
#[derive(Clone, Copy, Debug, PartialEq, Eq, Structural)]
pub enum CompressionFormat {
    Gzip,
    Deflate,
    Zlib,
    Brotli,
    Zstd,
    Plain,
}

/// What the leading bytes and the file name say about compression: gzip,
/// zlib and zstd have magic numbers; brotli and raw deflate have none, so
/// the name decides; anything else is plain text.
pub open spec fn spec_detect_compression(name: Seq<char>, magic: Seq<u8>) -> CompressionFormat {
    if magic.len() < 4 {
        CompressionFormat::Plain
    } else if magic[0] == 0x1f && magic[1] == 0x8b {
        CompressionFormat::Gzip
    } else if magic[0] == 0x78 && (magic[1] == 0x01 || magic[1] == 0x5e || magic[1] == 0x9c
        || magic[1] == 0xda) {
        CompressionFormat::Zlib
    } else if magic[0] == 0x28 && magic[1] == 0xb5 && magic[2] == 0x2f && magic[3] == 0xfd {
        CompressionFormat::Zstd
    } else if ends_with(name, ".br"@) || contains_seq(name, ".br."@) {
        CompressionFormat::Brotli
    } else if ends_with(name, ".deflate"@) {
        CompressionFormat::Deflate
    } else {
        CompressionFormat::Plain
    }
}

/// Judges a stream's compression from its first bytes and the file name.
pub fn detect_compression_format(filename: &str, magic: &Vec<u8>) -> (r: CompressionFormat)
    ensures
        r == spec_detect_compression(filename@, magic@),
{
    if magic.len() < 4 {
        return CompressionFormat::Plain;
    }
    if magic[0] == 0x1f && magic[1] == 0x8b {
        return CompressionFormat::Gzip;
    }
    if magic[0] == 0x78 && (magic[1] == 0x01 || magic[1] == 0x5e || magic[1] == 0x9c || magic[1]
        == 0xda) {
        return CompressionFormat::Zlib;
    }
    if magic[0] == 0x28 && magic[1] == 0xb5 && magic[2] == 0x2f && magic[3] == 0xfd {
        return CompressionFormat::Zstd;
    }
    let fc = str_chars(filename);
    if ends_with_chars(&fc, ".br") || contains_chars(&fc, ".br.") {
        return CompressionFormat::Brotli;
    }
    if ends_with_chars(&fc, ".deflate") {
        return CompressionFormat::Deflate;
    }
    CompressionFormat::Plain
}

} // verus!
