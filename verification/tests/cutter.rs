//! End-to-end tests of the cutting engine on hand-built traces in the
//! fixed binary record format.
use trace_cut::engine::Cutter;
use trace_cut::CutError;

fn push_word(buf: &mut Vec<u8>, v: u64) {
    buf.extend_from_slice(&v.to_le_bytes());
}

/// A string record defining `index` -> `text`.
fn string_record(index: u16, text: &str) -> Vec<u8> {
    let pay_words = (text.len() + 7) / 8;
    let size = 1 + pay_words as u64;
    let header = 2u64 | (size << 4) | ((index as u64) << 16) | ((text.len() as u64) << 32);
    let mut r = Vec::new();
    push_word(&mut r, header);
    r.extend_from_slice(text.as_bytes());
    while r.len() % 8 != 0 {
        r.push(0);
    }
    r
}

/// An event record with an inline thread reference (koids 0, 0),
/// indexed category and name references, at most one string argument
/// (name reference, value reference), and trailing subtype words.
fn event_record(
    subtype: u64,
    ts: u64,
    cat: u16,
    name: u16,
    arg_refs: Option<(u16, u16)>,
    extra: &[u64],
) -> Vec<u8> {
    let argc: u64 = if arg_refs.is_some() { 1 } else { 0 };
    let nwords = 4 + argc as usize + extra.len();
    let header = 4u64
        | ((nwords as u64) << 4)
        | (subtype << 16)
        | (argc << 20)
        | ((cat as u64) << 32)
        | ((name as u64) << 48);
    let mut r = Vec::new();
    push_word(&mut r, header);
    push_word(&mut r, ts);
    push_word(&mut r, 0);
    push_word(&mut r, 0);
    if let Some((an, av)) = arg_refs {
        push_word(&mut r, 6u64 | (1u64 << 4) | ((an as u64) << 16) | ((av as u64) << 32));
    }
    for &e in extra {
        push_word(&mut r, e);
    }
    r
}

const INSTANT: u64 = 0;
const COUNTER: u64 = 1;
const DURATION_BEGIN: u64 = 2;
const DURATION_END: u64 = 3;
const DURATION_COMPLETE: u64 = 4;

/// Strings 1-4, then five events at timestamps 100, 1000, 2000, 3000,
/// 1500, each referencing indices 1 (name), 2 (category), 3 and 4
/// (argument name and value).
fn create_test_data() -> Vec<u8> {
    let mut buffer = Vec::new();
    buffer.extend_from_slice(&string_record(1, "test_event"));
    buffer.extend_from_slice(&string_record(2, "test_category"));
    buffer.extend_from_slice(&string_record(3, "arg_key"));
    buffer.extend_from_slice(&string_record(4, "arg_value"));
    buffer.extend_from_slice(&event_record(DURATION_BEGIN, 100, 2, 1, Some((3, 4)), &[]));
    buffer.extend_from_slice(&event_record(DURATION_END, 1000, 2, 1, Some((3, 4)), &[]));
    buffer.extend_from_slice(&event_record(INSTANT, 2000, 2, 1, Some((3, 4)), &[]));
    buffer.extend_from_slice(&event_record(COUNTER, 3000, 2, 1, Some((3, 4)), &[0]));
    buffer.extend_from_slice(&event_record(DURATION_COMPLETE, 1500, 2, 1, Some((3, 4)), &[1600]));
    buffer
}

/// Walk a buffer record by record: (type tag, record bytes).
fn records(buf: &[u8]) -> Vec<(u64, Vec<u8>)> {
    let mut v = Vec::new();
    let mut pos = 0usize;
    while pos + 8 <= buf.len() {
        let h = u64::from_le_bytes(buf[pos..pos + 8].try_into().unwrap());
        let total = (((h >> 4) & 0xfff) as usize) * 8;
        assert!(total >= 8 && pos + total <= buf.len(), "walker hit a malformed record");
        v.push((h & 0xf, buf[pos..pos + total].to_vec()));
        pos += total;
    }
    assert_eq!(pos, buf.len(), "walker hit trailing bytes");
    v
}

/// Count event records whose timestamp (all test events carry inline
/// thread references, so the timestamp is the second word) is within
/// the inclusive range.
fn count_events_in_buffer(buf: &[u8], start_ts: u64, end_ts: u64) -> usize {
    records(buf)
        .iter()
        .filter(|(t, bytes)| {
            *t == 4 && {
                let ts = u64::from_le_bytes(bytes[8..16].try_into().unwrap());
                ts >= start_ts && ts <= end_ts
            }
        })
        .count()
}

/// Count string records and collect their indices.
fn count_string_records(buf: &[u8]) -> (usize, Vec<u16>) {
    let mut count = 0;
    let mut indices = Vec::new();
    for (t, bytes) in records(buf) {
        if t == 2 {
            count += 1;
            let h = u64::from_le_bytes(bytes[0..8].try_into().unwrap());
            indices.push(((h >> 16) & 0x7fff) as u16);
        }
    }
    (count, indices)
}

#[test]
fn test_cutter_filters_by_timestamp() {
    let input_data = create_test_data();
    let start_ts = 500;
    let end_ts = 2500;

    let mut cutter = Cutter::new(start_ts, end_ts);
    let output_buffer = cutter.cut(&input_data).unwrap();

    let event_count_input = count_events_in_buffer(&input_data, 0, u64::MAX);
    assert_eq!(event_count_input, 5, "Input should have 5 events");

    let event_count_output = count_events_in_buffer(&output_buffer, 0, u64::MAX);
    assert_eq!(event_count_output, 3, "Output should have 3 events after filtering");

    let events_in_range = count_events_in_buffer(&output_buffer, start_ts, end_ts);
    assert_eq!(
        events_in_range, 3,
        "All output events should be within the specified time range"
    );
}

#[test]
fn test_string_references_preserved() {
    let input_data = create_test_data();

    let mut cutter = Cutter::new(1000, 1000);
    let output_buffer = cutter.cut(&input_data).unwrap();

    let (string_record_count, _) = count_string_records(&output_buffer);
    assert_eq!(
        string_record_count, 4,
        "Output should contain string records referenced by events"
    );
}

#[test]
fn test_unnecessary_strings_not_included() {
    let mut buffer = create_test_data();
    buffer.extend_from_slice(&string_record(5, "unused_in_range"));
    buffer.extend_from_slice(&event_record(COUNTER, 3000, 2, 5, Some((3, 4)), &[1]));

    let mut cutter = Cutter::new(500, 2500);
    let output_buffer = cutter.cut(&buffer).unwrap();

    let (_, string_indices) = count_string_records(&output_buffer);
    assert!(
        !string_indices.contains(&5),
        "Output should not contain unnecessary string records"
    );
    assert!(string_indices.contains(&1), "Output missing required string with index 1");
    assert!(string_indices.contains(&2), "Output missing required string with index 2");
    assert!(string_indices.contains(&3), "Output missing required string with index 3");
    assert!(string_indices.contains(&4), "Output missing required string with index 4");
}

#[test]
fn test_process_event_within_range() {
    // an event at timestamp 1500 with inline category and name carries
    // no indexed references
    let input: Vec<u8> = Vec::new();
    let mut output: Vec<u8> = Vec::new();
    let mut cutter = Cutter::new(1000, 2000);

    let result = cutter.process_event(&input, &mut output, Some(1500), &vec![]).unwrap();
    assert!(result, "Event within time range should be processed");
}

#[test]
fn test_process_event_outside_range() {
    // an event at timestamp 500 with inline category and name
    let input: Vec<u8> = Vec::new();
    let mut output: Vec<u8> = Vec::new();
    let mut cutter = Cutter::new(1000, 2000);

    let result = cutter.process_event(&input, &mut output, Some(500), &vec![]).unwrap();
    assert!(!result, "Event outside time range should be filtered out");
}

#[test]
fn test_empty_input() {
    let empty_data: Vec<u8> = Vec::new();
    let mut cutter = Cutter::new(1000, 2000);
    let result = cutter.cut(&empty_data);

    assert!(result.is_ok(), "Cutting empty input should not error");
    assert_eq!(result.unwrap().len(), 0, "Output should be empty for empty input");
}

#[test]
fn test_exact_output_bytes() {
    // window [500, 2500]: the first surviving event backfills all four
    // strings in reference order; survivors are copied verbatim in
    // input order
    let input_data = create_test_data();
    let mut cutter = Cutter::new(500, 2500);
    let output = cutter.cut(&input_data).unwrap();

    let mut expected = Vec::new();
    expected.extend_from_slice(&string_record(1, "test_event"));
    expected.extend_from_slice(&string_record(2, "test_category"));
    expected.extend_from_slice(&string_record(3, "arg_key"));
    expected.extend_from_slice(&string_record(4, "arg_value"));
    expected.extend_from_slice(&event_record(DURATION_END, 1000, 2, 1, Some((3, 4)), &[]));
    expected.extend_from_slice(&event_record(INSTANT, 2000, 2, 1, Some((3, 4)), &[]));
    expected.extend_from_slice(&event_record(DURATION_COMPLETE, 1500, 2, 1, Some((3, 4)), &[1600]));
    assert_eq!(output, expected);
}

#[test]
fn test_exact_window_single_event() {
    // start_ts == end_ts matching exactly one event's timestamp
    let input_data = create_test_data();
    let mut cutter = Cutter::new(1500, 1500);
    let output = cutter.cut(&input_data).unwrap();

    assert_eq!(count_events_in_buffer(&output, 0, u64::MAX), 1);
    assert_eq!(count_events_in_buffer(&output, 1500, 1500), 1);
    let (string_count, indices) = count_string_records(&output);
    assert_eq!(string_count, 4);
    assert_eq!(indices, vec![1, 2, 3, 4]);
}

#[test]
fn test_dangling_reference_error() {
    let mut buffer = string_record(1, "only");
    buffer.extend_from_slice(&event_record(INSTANT, 700, 1, 9, None, &[]));

    let mut cutter = Cutter::new(500, 2500);
    let result = cutter.cut(&buffer);
    assert_eq!(result, Err(CutError::DanglingReference { index: 9 }));
}

#[test]
fn test_truncated_header_error() {
    let buffer = vec![1u8, 2, 3];
    let mut cutter = Cutter::new(0, 10);
    let result = cutter.cut(&buffer);
    assert_eq!(result, Err(CutError::Format { offset: 0 }));
}

#[test]
fn test_size_zero_record_error() {
    // a header word whose size field is zero cannot delimit a record
    let mut buffer = Vec::new();
    push_word(&mut buffer, 3u64);
    let mut cutter = Cutter::new(0, 10);
    assert_eq!(cutter.cut(&buffer), Err(CutError::Format { offset: 0 }));
}

#[test]
fn test_passthrough_records_verbatim() {
    // records that are neither strings nor events pass through
    // unchanged and in order, whatever the window
    let mut init_record = Vec::new();
    push_word(&mut init_record, 1u64 | (2 << 4));
    push_word(&mut init_record, 0x9184_8172u64);
    let mut thread_record = Vec::new();
    push_word(&mut thread_record, 3u64 | (3 << 4));
    push_word(&mut thread_record, 77);
    push_word(&mut thread_record, 78);

    let mut buffer = Vec::new();
    buffer.extend_from_slice(&init_record);
    buffer.extend_from_slice(&event_record(INSTANT, 9999, 0, 0, None, &[]));
    buffer.extend_from_slice(&thread_record);

    let mut cutter = Cutter::new(0, 100);
    let output = cutter.cut(&buffer).unwrap();

    let mut expected = Vec::new();
    expected.extend_from_slice(&init_record);
    expected.extend_from_slice(&thread_record);
    assert_eq!(output, expected);
}

#[test]
fn test_unknown_subtype_always_included() {
    // a subtype whose layout the engine does not know is included
    // without a timestamp check and without reference resolution
    let unknown = event_record(12, 9999, 0, 0, None, &[]);
    let mut cutter = Cutter::new(0, 100);
    let output = cutter.cut(&unknown).unwrap();
    assert_eq!(output, unknown);
}

#[test]
fn test_async_subtype_included_with_refs() {
    // an async event (subtype 5, trailing correlation word) has no
    // timestamp this design filters on, but its references are known
    // and get backfilled
    let mut buffer = string_record(7, "async_name");
    buffer.extend_from_slice(&event_record(5, 9999, 0, 7, None, &[42]));

    let mut cutter = Cutter::new(0, 100);
    let output = cutter.cut(&buffer).unwrap();

    let (count, indices) = count_string_records(&output);
    assert_eq!(count, 1);
    assert_eq!(indices, vec![7]);
    assert_eq!(count_events_in_buffer(&output, 9999, 9999), 1);
}

#[test]
fn test_redefined_index_last_wins() {
    let first = string_record(1, "old");
    let second = string_record(1, "newest");
    let mut buffer = Vec::new();
    buffer.extend_from_slice(&first);
    buffer.extend_from_slice(&second);
    buffer.extend_from_slice(&event_record(INSTANT, 50, 0, 1, None, &[]));

    let mut cutter = Cutter::new(0, 100);
    let output = cutter.cut(&buffer).unwrap();

    let recs = records(&output);
    assert_eq!(recs.len(), 2);
    assert_eq!(recs[0].1, second, "the later definition must be the one backfilled");
    assert_eq!(count_string_records(&output).0, 1);
}

#[test]
fn test_backfill_in_reference_order() {
    // references resolve in encounter order: name, category, then the
    // argument's name and value
    let input_data = create_test_data();
    let mut cutter = Cutter::new(1000, 1000);
    let output = cutter.cut(&input_data).unwrap();
    let (_, indices) = count_string_records(&output);
    assert_eq!(indices, vec![1, 2, 3, 4]);
}

#[test]
fn test_truncated_trailing_string_is_clean_end() {
    // a string record header claiming more payload than the stream
    // holds ends the scan cleanly, as an end of stream
    let mut buffer = Vec::new();
    push_word(&mut buffer, 2u64 | (3 << 4) | (1 << 16) | (10 << 32));
    let mut cutter = Cutter::new(0, 100);
    let output = cutter.cut(&buffer).unwrap();
    assert!(output.is_empty());
}

#[test]
fn test_truncated_event_is_error() {
    let mut buffer = event_record(INSTANT, 50, 0, 0, None, &[]);
    buffer.truncate(buffer.len() - 8);
    let mut cutter = Cutter::new(0, 100);
    assert_eq!(cutter.cut(&buffer), Err(CutError::Format { offset: 0 }));
}

#[test]
fn test_inline_strings_skipped_and_args_resolved() {
    // category and name carried inline; the argument still references
    // indices 3 and 4, which must be backfilled
    let mut buffer = string_record(3, "arg_key");
    buffer.extend_from_slice(&string_record(4, "arg_value"));
    let cat_text = "abc";
    let name_text = "0123456789";
    let cat_ref = 0x8000u64 | cat_text.len() as u64;
    let name_ref = 0x8000u64 | name_text.len() as u64;
    let nwords = 1 + 1 + 2 + 1 + 2 + 1;
    let header = 4u64 | ((nwords as u64) << 4) | (INSTANT << 16) | (1 << 20) | (cat_ref << 32)
        | (name_ref << 48);
    let mut ev = Vec::new();
    push_word(&mut ev, header);
    push_word(&mut ev, 60);
    push_word(&mut ev, 0);
    push_word(&mut ev, 0);
    ev.extend_from_slice(cat_text.as_bytes());
    while ev.len() % 8 != 0 {
        ev.push(0);
    }
    ev.extend_from_slice(name_text.as_bytes());
    while ev.len() % 8 != 0 {
        ev.push(0);
    }
    push_word(&mut ev, 6u64 | (1u64 << 4) | (3u64 << 16) | (4u64 << 32));
    assert_eq!(ev.len(), nwords * 8);
    buffer.extend_from_slice(&ev);

    let mut cutter = Cutter::new(0, 100);
    let output = cutter.cut(&buffer).unwrap();
    let (count, indices) = count_string_records(&output);
    assert_eq!(count, 2);
    assert_eq!(indices, vec![3, 4]);
    assert_eq!(count_events_in_buffer(&output, 60, 60), 1);
}

#[test]
fn test_large_record_is_error() {
    // the large-record tag sizes itself differently; the engine cannot
    // size it and must fail rather than mis-frame the stream
    let mut buffer = Vec::new();
    push_word(&mut buffer, 15u64 | (1 << 4));
    let mut cutter = Cutter::new(0, 100);
    assert_eq!(cutter.cut(&buffer), Err(CutError::Format { offset: 0 }));
}
