use json_archive::value::value_eq;
use json_archive::{
    default_output_filename, detect_compression_format, is_json_archive, resolve_access_method,
    should_write_snapshot, truncate_id, AccessMethod, ArchiveReader, CompressionFormat,
    DiagnosticCode, DiagnosticLevel, Event, JsonValue, ObservationIndex, ReadMode,
};

fn text(x: &str) -> JsonValue {
    JsonValue::Text(x.to_string())
}

fn num(n: i64) -> JsonValue {
    JsonValue::Num(n.to_string())
}

fn obj(pairs: Vec<(&str, JsonValue)>) -> JsonValue {
    JsonValue::Obj(pairs.into_iter().map(|(k, v)| (k.to_string(), v)).collect())
}

fn lines(parts: &[&str]) -> Vec<String> {
    parts.iter().map(|s| s.to_string()).collect()
}

const HEADER_COUNT_0: &str = "{\"type\":\"@peoplesgrocers/json-archive\",\"version\":1,\"created\":\"2025-01-01T00:00:00Z\",\"initial\":{\"count\":0}}";

const HEADER_COUNT_5: &str = "{\"type\":\"@peoplesgrocers/json-archive\",\"version\":1,\"created\":\"2025-01-01T00:00:00Z\",\"initial\":{\"count\":5}}";

#[test]
fn test_read_valid_archive() {
    let reader = ArchiveReader::new("test.json.archive".to_string(), ReadMode::FullValidation);
    let input = lines(&[
        HEADER_COUNT_0,
        "[\"observe\", \"obs-1\", \"2025-01-01T00:00:00Z\", 1]",
        "[\"change\", \"/count\", 1, \"obs-1\"]",
    ]);
    let result = reader.read(&input, false);

    assert!(value_eq(&result.final_state, &obj(vec![("count", num(1))])));
    assert_eq!(result.observation_count, 1);
    assert!(!result.diagnostics.has_fatal());
}

#[test]
fn test_empty_file() {
    let reader = ArchiveReader::new("test.json.archive".to_string(), ReadMode::FullValidation);
    let input: Vec<String> = Vec::new();
    let result = reader.read(&input, false);

    assert!(result.diagnostics.has_fatal());
    assert_eq!(result.diagnostics.len(), 1);
}

#[test]
fn test_non_existent_observation_id() {
    let reader = ArchiveReader::new("test.json.archive".to_string(), ReadMode::FullValidation);
    let input = lines(&[HEADER_COUNT_0, "[\"change\", \"/count\", 1, \"obs-999\"]"]);
    let result = reader.read(&input, false);

    assert!(result.diagnostics.has_fatal());
}

#[test]
fn test_append_mode_ignores_observation_id() {
    let reader = ArchiveReader::new("test.json.archive".to_string(), ReadMode::AppendSeek);
    let input = lines(&[HEADER_COUNT_0, "[\"change\", \"/count\", 1, \"obs-999\"]"]);
    let result = reader.read(&input, false);

    assert!(!result.diagnostics.has_fatal());
    assert!(value_eq(&result.final_state, &obj(vec![("count", num(1))])));
}

#[test]
fn test_change_count_mismatch() {
    let reader = ArchiveReader::new("test.json.archive".to_string(), ReadMode::FullValidation);
    let input = lines(&[
        HEADER_COUNT_0,
        "[\"observe\", \"obs-1\", \"2025-01-01T00:00:00Z\", 2]",
        "[\"change\", \"/count\", 1, \"obs-1\"]",
    ]);
    let result = reader.read(&input, false);

    let warnings: Vec<_> = result
        .diagnostics
        .diagnostics()
        .iter()
        .filter(|d| d.level == DiagnosticLevel::Warning)
        .collect();

    assert_eq!(warnings.len(), 1);
}

#[test]
fn test_simple_change() {
    let reader = ArchiveReader::new("test.json.archive".to_string(), ReadMode::FullValidation);
    let input = lines(&[
        HEADER_COUNT_5,
        "[\"observe\", \"obs-1\", \"2025-01-01T00:00:00Z\", 1]",
        "[\"change\", \"/count\", 1, \"obs-1\"]",
    ]);
    let result = reader.read(&input, false);

    assert!(!result.diagnostics.has_fatal());
    assert!(value_eq(&result.final_state, &obj(vec![("count", num(1))])));
}

#[test]
fn test_malformed_lines_are_collected_not_fatal_to_the_read() {
    // Three malformed event lines interleaved with two valid ones: exactly
    // three findings, and a final state reflecting exactly the two valid
    // events.
    let reader = ArchiveReader::new("test.json.archive".to_string(), ReadMode::AppendSeek);
    let input = lines(&[
        HEADER_COUNT_0,
        "this is not json at all",
        "[\"observe\", \"obs-1\", \"2025-01-01T00:00:00Z\", 2]",
        "[\"observe\", \"obs-broken\"]",
        "[\"change\", \"/count\", 1, \"obs-1\"]",
        "{\"an\":\"object, not an event array\"}",
        "[\"add\", \"/extra\", true, \"obs-1\"]",
    ]);
    let result = reader.read(&input, false);

    assert_eq!(result.diagnostics.len(), 3);
    let expected = obj(vec![("count", num(1)), ("extra", JsonValue::Bool(true))]);
    assert!(value_eq(&result.final_state, &expected));
    assert_eq!(result.observation_count, 1);
}

#[test]
fn test_mode_sensitivity_for_missing_remove_target() {
    // The same archive with a remove of a path that is not there: fatal and
    // state untouched under full validation, a warning with replay going on
    // under append-seek.
    let input = lines(&[
        HEADER_COUNT_0,
        "[\"observe\", \"obs-1\", \"2025-01-01T00:00:00Z\", 2]",
        "[\"remove\", \"/ghost\", \"obs-1\"]",
        "[\"change\", \"/count\", 7, \"obs-1\"]",
    ]);

    let strict = ArchiveReader::new("a.json.archive".to_string(), ReadMode::FullValidation);
    let strict_result = strict.read(&input, false);
    assert!(strict_result.diagnostics.has_fatal());
    assert!(value_eq(&strict_result.final_state, &obj(vec![("count", num(7))])));

    let lenient = ArchiveReader::new("a.json.archive".to_string(), ReadMode::AppendSeek);
    let lenient_result = lenient.read(&input, false);
    assert!(!lenient_result.diagnostics.has_fatal());
    assert_eq!(lenient_result.diagnostics.len(), 1);
    assert_eq!(
        lenient_result.diagnostics.diagnostics()[0].level,
        DiagnosticLevel::Warning
    );
    assert!(value_eq(&lenient_result.final_state, &obj(vec![("count", num(7))])));
}

#[test]
fn test_comments_and_blank_lines_are_skipped_silently() {
    let reader = ArchiveReader::new("test.json.archive".to_string(), ReadMode::FullValidation);
    let input = lines(&[
        HEADER_COUNT_0,
        "# a comment line",
        "   ",
        "[\"observe\", \"obs-1\", \"2025-01-01T00:00:00Z\", 1]",
        "  # an indented comment",
        "[\"change\", \"/count\", 3, \"obs-1\"]",
    ]);
    let result = reader.read(&input, false);
    assert!(result.diagnostics.is_empty());
    assert!(value_eq(&result.final_state, &obj(vec![("count", num(3))])));
}

#[test]
fn test_unsupported_version_short_circuits() {
    let reader = ArchiveReader::new("test.json.archive".to_string(), ReadMode::FullValidation);
    let input = lines(&[
        "{\"type\":\"@peoplesgrocers/json-archive\",\"version\":2,\"created\":\"2025-01-01T00:00:00Z\",\"initial\":{}}",
        "[\"observe\", \"obs-1\", \"2025-01-01T00:00:00Z\", 0]",
    ]);
    let result = reader.read(&input, false);
    assert_eq!(result.diagnostics.len(), 1);
    assert_eq!(result.diagnostics.diagnostics()[0].code, DiagnosticCode::UnsupportedVersion);
    assert!(value_eq(&result.final_state, &JsonValue::Null));
    assert_eq!(result.observation_count, 0);
}

#[test]
fn test_missing_header_field_short_circuits() {
    let reader = ArchiveReader::new("test.json.archive".to_string(), ReadMode::FullValidation);
    let input = lines(&["{\"version\":1}"]);
    let result = reader.read(&input, false);
    assert_eq!(result.diagnostics.len(), 1);
    assert_eq!(result.diagnostics.diagnostics()[0].code, DiagnosticCode::MissingHeaderField);
}

#[test]
fn test_snapshot_is_authoritative_even_on_mismatch() {
    let reader = ArchiveReader::new("test.json.archive".to_string(), ReadMode::FullValidation);
    let input = lines(&[
        HEADER_COUNT_0,
        "[\"snapshot\", \"snap-1\", \"2025-01-01T00:10:00Z\", {\"count\":99}]",
    ]);
    let result = reader.read(&input, false);
    assert!(result.diagnostics.has_fatal());
    assert!(value_eq(&result.final_state, &obj(vec![("count", num(99))])));
}

#[test]
fn test_end_to_end_scenario() {
    let reader = ArchiveReader::new("test.json.archive".to_string(), ReadMode::FullValidation);
    let input = lines(&[
        HEADER_COUNT_0,
        "[\"observe\",\"obs-1\",\"2025-01-01T00:00:01Z\",1]",
        "[\"change\",\"/count\",1,\"obs-1\"]",
    ]);
    let result = reader.read(&input, false);
    assert!(value_eq(&result.final_state, &obj(vec![("count", num(1))])));
    assert_eq!(result.observation_count, 1);
    assert!(!result.diagnostics.has_fatal());
}

#[test]
fn test_event_iterator_streams_events_and_collects_findings() {
    let reader = ArchiveReader::new("test.json.archive".to_string(), ReadMode::FullValidation);
    let input = lines(&[
        HEADER_COUNT_0,
        "# comment",
        "not json",
        "[\"observe\", \"obs-1\", \"2025-01-01T00:00:00Z\", 1]",
        "[\"change\", \"/count\", 1, \"obs-1\"]",
    ]);
    let (initial, mut it) = reader.events(&input);
    assert!(value_eq(&initial, &obj(vec![("count", num(0))])));
    assert!(it.diagnostics.is_empty());

    let first = it.next().expect("an event should come");
    assert!(matches!(first, Event::Observe { .. }));
    assert_eq!(it.diagnostics.len(), 1);

    let second = it.next().expect("a second event should come");
    assert!(matches!(second, Event::Change { .. }));
    assert!(it.next().is_none());
}

#[test]
fn test_observation_index_selection() {
    // Observations at three ascending moments: as-of the middle one lands on
    // it, right-before it lands on the first, after the first lands on the
    // middle.
    let reader = ArchiveReader::new("test.json.archive".to_string(), ReadMode::AppendSeek);
    let input = lines(&[
        HEADER_COUNT_0,
        "[\"observe\",\"t1\",\"2025-01-01T01:00:00Z\",1]",
        "[\"change\",\"/count\",1,\"t1\"]",
        "[\"observe\",\"t2\",\"2025-01-01T02:00:00Z\",1]",
        "[\"change\",\"/count\",2,\"t2\"]",
        "[\"observe\",\"t3\",\"2025-01-01T03:00:00Z\",1]",
        "[\"change\",\"/count\",3,\"t3\"]",
    ]);
    let (_, it) = reader.events(&input);
    let index = ObservationIndex::build(&it.header, &input);
    assert_eq!(index.len(), 4);

    let at_t2 = index.select(&AccessMethod::AsOf("2025-01-01T02:00:00Z".to_string())).unwrap();
    assert_eq!(at_t2.id, "t2");
    assert!(value_eq(&at_t2.state, &obj(vec![("count", num(2))])));

    let before_t2 =
        index.select(&AccessMethod::RightBefore("2025-01-01T02:00:00Z".to_string())).unwrap();
    assert_eq!(before_t2.id, "t1");
    assert!(value_eq(&before_t2.state, &obj(vec![("count", num(1))])));

    let after_t1 = index.select(&AccessMethod::After("2025-01-01T01:00:00Z".to_string())).unwrap();
    assert_eq!(after_t1.id, "t2");

    let latest = index.select(&AccessMethod::Latest).unwrap();
    assert_eq!(latest.id, "t3");
    assert!(value_eq(&latest.state, &obj(vec![("count", num(3))])));

    let initial = index.select(&AccessMethod::Index(0)).unwrap();
    assert_eq!(initial.id, "initial");
    assert!(value_eq(&initial.state, &obj(vec![("count", num(0))])));

    let by_id = index.select(&AccessMethod::Id("t1".to_string())).unwrap();
    assert!(value_eq(&by_id.state, &obj(vec![("count", num(1))])));

    let missing = index.select(&AccessMethod::Id("nowhere".to_string())).unwrap_err();
    assert_eq!(missing.code, DiagnosticCode::NonExistentObservationId);

    let oob = index.select(&AccessMethod::Index(9)).unwrap_err();
    assert_eq!(oob.code, DiagnosticCode::ArrayIndexOutOfBounds);
}

#[test]
fn test_duplicate_observation_id() {
    // Two observe events under one id: exactly one duplicate warning, and
    // both observations still appear in the index.
    let reader = ArchiveReader::new("test.json.archive".to_string(), ReadMode::FullValidation);
    let input = lines(&[
        HEADER_COUNT_0,
        "[\"observe\",\"obs-1\",\"2025-01-01T01:00:00Z\",1]",
        "[\"change\",\"/count\",1,\"obs-1\"]",
        "[\"observe\",\"obs-1\",\"2025-01-01T02:00:00Z\",1]",
        "[\"change\",\"/count\",2,\"obs-1\"]",
    ]);
    let result = reader.read(&input, false);
    let dups: Vec<_> = result
        .diagnostics
        .diagnostics()
        .iter()
        .filter(|d| d.code == DiagnosticCode::DuplicateObservationId)
        .collect();
    assert_eq!(dups.len(), 1);
    assert_eq!(result.observation_count, 2);

    let (_, it) = reader.events(&input);
    let index = ObservationIndex::build(&it.header, &input);
    assert_eq!(index.len(), 3);
}

#[test]
fn test_resolve_access_method() {
    assert!(matches!(
        resolve_access_method(None, None, None, None, None, false),
        Ok(AccessMethod::Latest)
    ));
    assert!(matches!(
        resolve_access_method(Some("x".to_string()), None, None, None, None, false),
        Ok(AccessMethod::Id(_))
    ));
    let too_many =
        resolve_access_method(Some("x".to_string()), Some(1), None, None, None, false).unwrap_err();
    assert_eq!(too_many.code, DiagnosticCode::WrongFieldCount);
    let bad_time =
        resolve_access_method(None, None, Some("noon-ish".to_string()), None, None, false)
            .unwrap_err();
    assert_eq!(bad_time.code, DiagnosticCode::InvalidTimestamp);
}

#[test]
fn test_default_output_filename() {
    assert_eq!(default_output_filename("test.json"), "test.json.archive");
    assert_eq!(default_output_filename("test.txt"), "test.txt.json.archive");
    assert_eq!(default_output_filename("test"), "test.json.archive");
    assert_eq!(default_output_filename("test.json.archive"), "test.json.archive");
}

#[test]
fn test_detect_by_json_archive_extension() {
    assert!(is_json_archive("data.json.archive", Some("{\"some\": \"json\"}")));
}

#[test]
fn test_detect_by_type_field() {
    assert!(is_json_archive(
        "data.weird-extension",
        Some("{\"type\":\"@peoplesgrocers/json-archive\",\"version\":1}")
    ));
}

#[test]
fn test_detect_by_type_field_with_tmp_extension() {
    assert!(is_json_archive(
        "data.json.tmp",
        Some("{\"type\":\"@peoplesgrocers/json-archive\",\"version\":1}")
    ));
}

#[test]
fn test_not_archive_regular_json() {
    assert!(!is_json_archive("data.json", Some("{\"some\": \"json\"}")));
}

#[test]
fn test_not_archive_wrong_type_field() {
    assert!(!is_json_archive("data.tmp", Some("{\"type\":\"something-else\",\"version\":1}")));
}

#[test]
fn test_not_archive_type_not_first_field() {
    assert!(!is_json_archive(
        "data.tmp",
        Some("{\"version\":1,\"zzz\":\"@peoplesgrocers/json-archive\"}")
    ));
}

#[test]
fn test_not_archive_empty_file() {
    assert!(!is_json_archive("data.json", None));
}

#[test]
fn test_not_archive_invalid_json() {
    assert!(!is_json_archive("data.tmp", Some("not valid json")));
}

#[test]
fn test_detect_compression_format() {
    assert_eq!(
        detect_compression_format("a.gz", &vec![0x1f, 0x8b, 0x00, 0x00]),
        CompressionFormat::Gzip
    );
    assert_eq!(
        detect_compression_format("a", &vec![0x78, 0x9c, 0x00, 0x00]),
        CompressionFormat::Zlib
    );
    assert_eq!(
        detect_compression_format("a", &vec![0x28, 0xb5, 0x2f, 0xfd]),
        CompressionFormat::Zstd
    );
    assert_eq!(
        detect_compression_format("a.br", &vec![b'{', b'"', b'a', b'"']),
        CompressionFormat::Brotli
    );
    assert_eq!(
        detect_compression_format("a.br.tmp", &vec![b'{', b'"', b'a', b'"']),
        CompressionFormat::Brotli
    );
    assert_eq!(
        detect_compression_format("a.deflate", &vec![b'{', b'"', b'a', b'"']),
        CompressionFormat::Deflate
    );
    assert_eq!(
        detect_compression_format("a.json", &vec![b'{', b'"', b'a', b'"']),
        CompressionFormat::Plain
    );
    assert_eq!(detect_compression_format("a.gz", &vec![0x1f]), CompressionFormat::Plain);
}

#[test]
fn test_should_write_snapshot() {
    assert!(!should_write_snapshot(0, Some(2)));
    assert!(!should_write_snapshot(1, Some(2)));
    assert!(should_write_snapshot(2, Some(2)));
    assert!(!should_write_snapshot(3, Some(2)));
    assert!(should_write_snapshot(4, Some(2)));
    assert!(!should_write_snapshot(5, None));
}

#[test]
fn test_truncate_id() {
    assert_eq!(truncate_id("short"), "short");
    assert_eq!(truncate_id("12345678901234567890"), "12345678901234567890");
    assert_eq!(truncate_id("123456789012345678901"), "12345678901234567890...");
}

#[test]
fn test_invalid_utf8_poisons_the_read() {
    let reader = ArchiveReader::new("test.json.archive".to_string(), ReadMode::FullValidation);
    let input = lines(&[HEADER_COUNT_0, "[\"observe\",\"obs-1\",\"2025-01-01T00:00:00Z\",0]"]);
    let result = reader.read(&input, true);
    assert!(result.diagnostics.has_fatal());
    assert_eq!(result.diagnostics.diagnostics()[0].code, DiagnosticCode::InvalidUtf8);
    assert!(value_eq(&result.final_state, &JsonValue::Null));
}

#[test]
fn test_header_new_creation_time_is_readable() {
    let header = json_archive::Header::new(JsonValue::Null, Some("here".to_string()));
    assert_eq!(header.version, 1);
    assert_eq!(header.file_type, "@peoplesgrocers/json-archive");
    assert_eq!(header.source.as_deref(), Some("here"));
    // The index keeps the initial entry only when the creation time parses
    // back, so an unreadable clock text would show up as an empty index.
    let index = ObservationIndex::build(&header, &lines(&["{}"]));
    assert_eq!(index.len(), 1);
}

#[test]
fn test_refused_lines_carry_snippets() {
    let reader = ArchiveReader::new("test.json.archive".to_string(), ReadMode::FullValidation);
    let input = lines(&[HEADER_COUNT_0, "  bad json  ", "[\"observe\", \"obs-broken\"]"]);
    let result = reader.read(&input, false);
    let ds = result.diagnostics.diagnostics();
    assert_eq!(ds.len(), 2);
    assert_eq!(ds[0].code, DiagnosticCode::InvalidEventJson);
    assert_eq!(ds[0].filename.as_deref(), Some("test.json.archive"));
    assert_eq!(ds[0].line_number, Some(2));
    assert_eq!(ds[0].code_snippet.as_deref(), Some("2 | bad json"));
    assert_eq!(ds[1].code, DiagnosticCode::WrongFieldCount);
    assert_eq!(ds[1].line_number, Some(3));
    assert_eq!(ds[1].code_snippet.as_deref(), Some("3 | [\"observe\", \"obs-broken\"]"));
}

#[test]
fn test_unreadable_header_carries_snippet() {
    let reader = ArchiveReader::new("test.json.archive".to_string(), ReadMode::FullValidation);
    let input = lines(&["{\"version\":1}"]);
    let result = reader.read(&input, false);
    let ds = result.diagnostics.diagnostics();
    assert_eq!(ds.len(), 1);
    assert_eq!(ds[0].code, DiagnosticCode::MissingHeaderField);
    assert_eq!(ds[0].code_snippet.as_deref(), Some("1 | {\"version\":1}"));
}
