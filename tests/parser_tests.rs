use chat_analytics::chunk_info::ChunkInfo;
use chat_analytics::error::Error;
use chat_analytics::parser::{
    find_next_object_boundary, plan_chunks, split_candidate_at, BOUNDARY_LOOKAHEAD,
};
use chat_analytics::scanner::ObjectScanner;

const EIGHT_RECORDS: &str = r#"{"channelName": "channel1", "language": "en", "viewerCount": 100},
{"channelName": "channel2", "language": "es", "viewerCount": 200},
{"channelName": "channel3", "language": "en", "viewerCount": 150},
{"channelName": "channel4", "language": "fr", "viewerCount": 300},
{"channelName": "channel5", "language": "es", "viewerCount": 250},
{"channelName": "channel6", "language": "en", "viewerCount": 180},
{"channelName": "channel7", "language": "de", "viewerCount": 120},
{"channelName": "channel8", "language": "fr", "viewerCount": 220}"#;

fn windows_for(data: &[u8], n: usize) -> Vec<Vec<u8>> {
    let size = data.len() as u64;
    let mut windows = Vec::new();
    for i in 1..n {
        let c = split_candidate_at(size, n, i) as usize;
        let end = std::cmp::min(c + BOUNDARY_LOOKAHEAD + 1, data.len());
        windows.push(data[c..end].to_vec());
    }
    windows
}

fn frame(data: &[u8], chunk: &ChunkInfo, buf: usize) -> Vec<String> {
    let mut scanner = ObjectScanner::new(chunk);
    let mut pos = chunk.start as usize;
    let mut out = Vec::new();
    while scanner.bytes_left() > 0 && pos < data.len() {
        let take = std::cmp::min(buf, data.len() - pos);
        for t in scanner.feed(&data[pos..pos + take]) {
            out.push(String::from_utf8(t).unwrap());
        }
        pos += take;
    }
    out
}

fn whole(data: &str) -> ChunkInfo {
    ChunkInfo::new(0, data.len() as u64)
}

#[test]
fn boundary_is_after_first_terminator() {
    let w = b"abc},{\"x\":1}]";
    assert_eq!(find_next_object_boundary(w, 10), 14);
    let w2 = b"  \"a\"}] tail";
    assert_eq!(find_next_object_boundary(w2, 0), 6);
}

#[test]
fn boundary_without_pattern_keeps_candidate() {
    assert_eq!(find_next_object_boundary(b"{\"a\": 1}\n{\"b\": 2}", 42), 42);
    assert_eq!(find_next_object_boundary(b"", 7), 7);
    assert_eq!(find_next_object_boundary(b"}", 7), 7);
}

#[test]
fn boundary_beyond_lookahead_is_ignored() {
    let mut w = vec![b' '; BOUNDARY_LOOKAHEAD + 10];
    w[BOUNDARY_LOOKAHEAD + 2] = b'}';
    w[BOUNDARY_LOOKAHEAD + 3] = b',';
    assert_eq!(find_next_object_boundary(&w, 5), 5);
    w[BOUNDARY_LOOKAHEAD - 1] = b'}';
    w[BOUNDARY_LOOKAHEAD] = b']';
    assert_eq!(find_next_object_boundary(&w, 5), 5 + BOUNDARY_LOOKAHEAD as u64);
}

#[test]
fn boundary_is_fooled_by_a_string_holding_the_pattern() {
    let w = br#""a},b"}, {"#;
    assert_eq!(find_next_object_boundary(w, 0), 3);
}

#[test]
fn split_candidates_are_even() {
    assert_eq!(split_candidate_at(100, 3, 0), 0);
    assert_eq!(split_candidate_at(100, 3, 1), 33);
    assert_eq!(split_candidate_at(100, 3, 2), 66);
    assert_eq!(split_candidate_at(0, 4, 3), 0);
}

#[test]
fn plan_single_thread_covers_file() {
    let data = EIGHT_RECORDS.as_bytes();
    let chunks = plan_chunks(data.len() as u64, 1, &windows_for(data, 1)).unwrap();
    assert_eq!(chunks.len(), 1);
    assert_eq!(chunks[0].start, 0);
    assert_eq!(chunks[0].end, data.len() as u64);
    assert_eq!(chunks[0].size, chunks[0].end - chunks[0].start);
}

#[test]
fn plan_multiple_threads_is_a_partition() {
    let data = EIGHT_RECORDS.as_bytes();
    for n in 1..=8 {
        let chunks = plan_chunks(data.len() as u64, n, &windows_for(data, n)).unwrap();
        assert_eq!(chunks.len(), n);
        assert_eq!(chunks[0].start, 0);
        for i in 1..chunks.len() {
            assert_eq!(chunks[i - 1].end, chunks[i].start);
        }
        for c in &chunks {
            assert_eq!(c.size, c.end - c.start);
        }
        assert_eq!(chunks[n - 1].end, data.len() as u64);
        for c in &chunks[..n - 1] {
            let e = c.end as usize;
            if e > 0 {
                assert_eq!(data[e - 1], b'}');
            }
        }
    }
}

#[test]
fn plan_splits_after_terminators() {
    let data = b"{\"a\":1},{\"b\":2},{\"c\":3}";
    let chunks = plan_chunks(data.len() as u64, 2, &windows_for(data, 2)).unwrap();
    assert_eq!(chunks[0].start, 0);
    assert_eq!(chunks[0].end, 15);
    assert_eq!(chunks[1].start, 15);
    assert_eq!(chunks[1].end, 23);
}

#[test]
fn plan_of_empty_file_is_degenerate() {
    let chunks = plan_chunks(0, 4, &vec![vec![], vec![], vec![]]).unwrap();
    assert_eq!(chunks.len(), 4);
    for c in &chunks {
        assert_eq!(c.start, 0);
        assert_eq!(c.end, 0);
        assert_eq!(c.size, 0);
    }
}

#[test]
fn plan_with_no_workers_is_a_configuration_error() {
    let r = plan_chunks(100, 0, &Vec::new());
    assert!(matches!(r, Err(Error::ConfigurationError(_))));
}

#[test]
fn scanner_frames_single_object() {
    let data = r#"{"channelName": "testchannel", "language": "en", "viewerCount": 100}"#;
    let texts = frame(data.as_bytes(), &whole(data), 65536);
    assert_eq!(texts, vec![data.to_string()]);
}

#[test]
fn scanner_frames_each_object_of_a_chunk() {
    let data = EIGHT_RECORDS;
    let texts = frame(data.as_bytes(), &whole(data), 65536);
    assert_eq!(texts.len(), 8);
    assert_eq!(
        texts[0],
        r#"{"channelName": "channel1", "language": "en", "viewerCount": 100}"#
    );
    assert_eq!(
        texts[7],
        r#"{"channelName": "channel8", "language": "fr", "viewerCount": 220}"#
    );
}

#[test]
fn scanner_result_does_not_depend_on_buffer_size() {
    let data = EIGHT_RECORDS;
    let big = frame(data.as_bytes(), &whole(data), 65536);
    for buf in [1, 2, 3, 7, 64] {
        assert_eq!(frame(data.as_bytes(), &whole(data), buf), big);
    }
}

#[test]
fn scanner_handles_array_framing_and_nesting() {
    let data = r#"[{"a": {"b": 1}}, {"c": [1, 2]}]"#;
    let texts = frame(data.as_bytes(), &whole(data), 5);
    assert_eq!(texts, vec![r#"{"a": {"b": 1}}"#.to_string(), r#"{"c": [1, 2]}"#.to_string()]);
}

#[test]
fn scanner_ignores_braces_and_escaped_quotes_in_strings() {
    let data = r#"{"channelName": "a}b{\"c", "language": "en", "viewerCount": 3},{"x": 1}"#;
    let texts = frame(data.as_bytes(), &whole(data), 4);
    assert_eq!(texts.len(), 2);
    assert_eq!(
        texts[0],
        r#"{"channelName": "a}b{\"c", "language": "en", "viewerCount": 3}"#
    );
}

#[test]
fn scanner_stops_at_chunk_size() {
    let data = r#"{"a": 1},{"b": 2}"#;
    let chunk = ChunkInfo::new(0, 8);
    let mut scanner = ObjectScanner::new(&chunk);
    let texts = scanner.feed(data.as_bytes());
    assert_eq!(texts, vec![b"{\"a\": 1}".to_vec()]);
    assert_eq!(scanner.bytes_left(), 0);
    assert!(scanner.feed(b"{\"z\": 0}").is_empty());
}

#[test]
fn scanner_drops_unfinished_object_at_chunk_end() {
    let data = r#"{"a": 1},{"b": 2"#;
    let texts = frame(data.as_bytes(), &whole(data), 3);
    assert_eq!(texts, vec![r#"{"a": 1}"#.to_string()]);
}

#[test]
fn scanner_frames_hundred_objects() {
    let mut content = String::new();
    for i in 1..=100 {
        content.push_str(&format!(
            r#"{{"channelName": "channel{}", "language": "en", "viewerCount": {}}}"#,
            i,
            i * 10
        ));
        if i < 100 {
            content.push('\n');
        }
    }
    let texts = frame(content.as_bytes(), &whole(&content), 1000);
    assert_eq!(texts.len(), 100);
}

#[test]
fn scanner_frames_malformed_record_too() {
    let data = r#"{"channelName": "channel1", "language": "en", "viewerCount": 100}
{"invalid": "json", "missing": "fields"}
{"channelName": "channel2", "language": "es", "viewerCount": 200}"#;
    let texts = frame(data.as_bytes(), &whole(data), 16);
    assert_eq!(texts.len(), 3);
    assert_eq!(texts[1], r#"{"invalid": "json", "missing": "fields"}"#);
}
