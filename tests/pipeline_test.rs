use chat_analytics::chat_message::ChatMessage;
use chat_analytics::chunk_info::ChunkInfo;
use chat_analytics::parser::{plan_chunks, split_candidate_at, BOUNDARY_LOOKAHEAD};
use chat_analytics::scanner::ObjectScanner;
use chat_analytics::streaming_aggregators::StreamingAggregators;
use chat_analytics::transformations::{
    generate_top_channels_results, generate_top_languages_results,
};

const STREAM_DATA: &str = r#"[{"channelName": "gaming1", "language": "en", "viewerCount": 150},
{"channelName": "gaming2", "language": "en", "viewerCount": 200},
{"channelName": "gaming1", "language": "en", "viewerCount": 180},
{"channelName": "gaming1", "language": "en", "viewerCount": 120},
{"channelName": "music1", "language": "es", "viewerCount": 50},
{"channelName": "music2", "language": "es", "viewerCount": 300},
{"channelName": "music1", "language": "es", "viewerCount": 400},
{"channelName": "tech1", "language": "fr", "viewerCount": 1200},
{"channelName": "tech2", "language": "fr", "viewerCount": 900},
{"channelName": "cooking1", "language": "en", "viewerCount": 800},
{"channelName": "sports1", "language": "de", "viewerCount": 600},
{"channelName": "sports2", "language": "de", "viewerCount": 700},
{"channelName": "art1", "language": "it", "viewerCount": 250},
{"channelName": "news1", "language": "pt", "viewerCount": 450}]"#;

fn decode(text: &[u8]) -> Option<ChatMessage> {
    let v: serde_json::Value = serde_json::from_slice(text).ok()?;
    Some(ChatMessage {
        channel_name: v.get("channelName")?.as_str()?.to_string(),
        language: v.get("language")?.as_str()?.to_string(),
        viewer_count: v.get("viewerCount")?.as_u64()?,
    })
}

fn run_chunk(data: &[u8], chunk: &ChunkInfo) -> StreamingAggregators {
    let mut scanner = ObjectScanner::new(chunk);
    let mut agg = StreamingAggregators::new();
    let mut pos = chunk.start as usize;
    while scanner.bytes_left() > 0 && pos < data.len() {
        let take = std::cmp::min(64, data.len() - pos);
        let texts = scanner.feed(&data[pos..pos + take]);
        let candidates: Vec<Option<ChatMessage>> = texts.iter().map(|t| decode(t)).collect();
        agg.process_candidates(candidates);
        pos += take;
    }
    agg
}

fn analyze(data: &str, n: usize) -> StreamingAggregators {
    let bytes = data.as_bytes();
    let size = bytes.len() as u64;
    let mut windows = Vec::new();
    for i in 1..n {
        let c = split_candidate_at(size, n, i) as usize;
        let end = std::cmp::min(c + BOUNDARY_LOOKAHEAD + 1, bytes.len());
        windows.push(bytes[c..end].to_vec());
    }
    let chunks = plan_chunks(size, n, &windows).unwrap();
    let mut total = StreamingAggregators::new();
    for chunk in &chunks {
        let part = run_chunk(bytes, chunk);
        total.merge(&part);
    }
    total
}

fn s(x: &str) -> String {
    x.to_string()
}

#[test]
fn counts_do_not_depend_on_thread_count() {
    let one = analyze(STREAM_DATA, 1);
    assert_eq!(one.total_messages, 14);
    let pairs = [
        ("en", "gaming1"),
        ("en", "gaming2"),
        ("en", "cooking1"),
        ("es", "music1"),
        ("es", "music2"),
        ("fr", "tech1"),
        ("fr", "tech2"),
        ("de", "sports1"),
        ("de", "sports2"),
        ("it", "art1"),
        ("pt", "news1"),
    ];
    for n in 2..=8 {
        let other = analyze(STREAM_DATA, n);
        assert_eq!(other.total_messages, one.total_messages);
        for (l, c) in pairs {
            assert_eq!(
                other.language_channel_counts.count_of(&s(l), &s(c)),
                one.language_channel_counts.count_of(&s(l), &s(c))
            );
        }
        for b in ["0-100", "101-500", "501-1000", "1000+"] {
            for l in ["en", "es", "fr", "de", "it", "pt"] {
                assert_eq!(
                    other.range_language_counts.count_of(&s(b), &s(l)),
                    one.range_language_counts.count_of(&s(b), &s(l))
                );
            }
        }
        assert_eq!(
            generate_top_channels_results(&other).len(),
            generate_top_channels_results(&one).len()
        );
    }
    assert_eq!(one.language_channel_counts.count_of(&s("en"), &s("gaming1")), 3);
}

#[test]
fn top_channels_from_file_text() {
    let agg = analyze(STREAM_DATA, 2);
    let results = generate_top_channels_results(&agg);
    let en = results.iter().find(|r| r.language == "en").unwrap();
    assert_eq!(en.top_channels.len(), 3);
    assert_eq!(en.top_channels[0].channel_name, "gaming1");
    assert_eq!(en.top_channels[0].message_count, 3);
    for i in 0..en.top_channels.len() - 1 {
        assert!(en.top_channels[i].message_count >= en.top_channels[i + 1].message_count);
    }
}

#[test]
fn top_languages_from_file_text() {
    let agg = analyze(STREAM_DATA, 3);
    let results = generate_top_languages_results(&agg);
    let ranges: Vec<&str> = results.iter().map(|r| r.viewer_range.as_str()).collect();
    assert_eq!(ranges, vec!["0-100", "101-500", "501-1000", "1000+"]);
    let mid = &results[1];
    assert_eq!(mid.top_languages[0].language, "en");
    assert_eq!(mid.top_languages[0].message_count, 4);
}

#[test]
fn newline_separated_records_are_counted_by_one_worker() {
    let data = STREAM_DATA.replace(",\n", "\n");
    let agg = analyze(&data, 1);
    assert_eq!(agg.total_messages, 14);
}

#[test]
fn empty_input_gives_empty_reports() {
    for n in 1..=4 {
        let agg = analyze("", n);
        assert_eq!(agg.total_messages, 0);
        assert!(generate_top_channels_results(&agg).is_empty());
        assert!(generate_top_languages_results(&agg).is_empty());
    }
}

#[test]
fn malformed_record_is_not_delivered() {
    let data = r#"{"channelName": "channel1", "language": "en", "viewerCount": 100}
{"invalid": "json", "missing": "fields"}
{"channelName": "channel2", "language": "es", "viewerCount": -5}
{"channelName": "channel3", "language": "es", "viewerCount": 200}"#;
    let agg = analyze(data, 1);
    assert_eq!(agg.total_messages, 2);
    let well_formed = r#"{"channelName": "channel1", "language": "en", "viewerCount": 100}
{"channelName": "channel3", "language": "es", "viewerCount": 200}"#;
    assert_eq!(analyze(well_formed, 1).total_messages, 2);
}

#[test]
fn large_generated_input_ranks_three_per_language() {
    let mut content = String::new();
    let languages = ["en", "es", "fr", "de", "it"];
    let channels = ["gaming", "music", "tech", "cooking", "sports"];
    for i in 1..=1000 {
        let language = languages[(i - 1) % 5];
        let channel = format!("{}{}", channels[(i - 1) % 5], (i - 1) / 5 + 1);
        let viewer_count = (i * 10) % 1500;
        content.push_str(&format!(
            r#"{{"channelName": "{}", "language": "{}", "viewerCount": {}}}"#,
            channel, language, viewer_count
        ));
        if i < 1000 {
            content.push_str(",\n");
        }
    }
    let agg = analyze(&content, 8);
    assert_eq!(agg.total_messages, 1000);
    let top = generate_top_channels_results(&agg);
    assert_eq!(top.len(), 5);
    for r in top {
        assert_eq!(r.top_channels.len(), 3);
    }
}
