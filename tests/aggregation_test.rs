use chat_analytics::chat_message::ChatMessage;
use chat_analytics::streaming_aggregators::{viewer_bucket, StreamingAggregators};
use chat_analytics::transformations::{
    generate_top_channels_results, generate_top_languages_results,
};

fn msg(language: &str, channel: &str, viewers: u64) -> ChatMessage {
    ChatMessage {
        channel_name: channel.to_string(),
        language: language.to_string(),
        viewer_count: viewers,
    }
}

fn s(x: &str) -> String {
    x.to_string()
}

#[test]
fn aggregation_example_counts_and_ranks() {
    let mut agg = StreamingAggregators::new();
    agg.process_message(msg("en", "gaming1", 150));
    agg.process_message(msg("en", "gaming2", 200));
    agg.process_message(msg("en", "gaming1", 180));
    agg.process_message(msg("es", "music1", 50));
    let lc = &agg.language_channel_counts;
    assert_eq!(lc.count_of(&s("en"), &s("gaming1")), 2);
    assert_eq!(lc.count_of(&s("en"), &s("gaming2")), 1);
    assert_eq!(lc.count_of(&s("en"), &s("music1")), 0);
    assert_eq!(lc.count_of(&s("es"), &s("music1")), 1);
    assert_eq!(agg.total_messages, 4);

    let top = generate_top_channels_results(&agg);
    let en = top.iter().find(|r| r.language == "en").unwrap();
    assert_eq!(en.top_channels.len(), 2);
    assert_eq!(en.top_channels[0].channel_name, "gaming1");
    assert_eq!(en.top_channels[0].message_count, 2);
    assert_eq!(en.top_channels[1].channel_name, "gaming2");
    assert_eq!(en.top_channels[1].message_count, 1);
    assert_eq!(top.len(), 2);
}

#[test]
fn bucket_mapping_bounds() {
    assert_eq!(viewer_bucket(0), "0-100");
    assert_eq!(viewer_bucket(100), "0-100");
    assert_eq!(viewer_bucket(101), "101-500");
    assert_eq!(viewer_bucket(500), "101-500");
    assert_eq!(viewer_bucket(501), "501-1000");
    assert_eq!(viewer_bucket(1000), "501-1000");
    assert_eq!(viewer_bucket(1001), "1000+");
    assert_eq!(viewer_bucket(u64::MAX), "1000+");
}

#[test]
fn record_counts_under_its_bucket() {
    let mut agg = StreamingAggregators::new();
    agg.process_message(msg("en", "a", 100));
    agg.process_message(msg("es", "b", 1001));
    let rc = &agg.range_language_counts;
    assert_eq!(rc.count_of(&s("0-100"), &s("en")), 1);
    assert_eq!(rc.count_of(&s("1000+"), &s("es")), 1);
    assert_eq!(rc.count_of(&s("101-500"), &s("en")), 0);
}

#[test]
fn top_k_truncates_to_three_channels() {
    let mut agg = StreamingAggregators::new();
    for c in 0..10u64 {
        for _ in 0..(c + 1) {
            agg.process_message(msg("en", &format!("ch{}", c), 10));
        }
    }
    let top = generate_top_channels_results(&agg);
    assert_eq!(top.len(), 1);
    let en = &top[0];
    assert_eq!(en.top_channels.len(), 3);
    assert_eq!(en.top_channels[0].channel_name, "ch9");
    assert_eq!(en.top_channels[0].message_count, 10);
    assert_eq!(en.top_channels[1].channel_name, "ch8");
    assert_eq!(en.top_channels[1].message_count, 9);
    assert_eq!(en.top_channels[2].channel_name, "ch7");
    assert_eq!(en.top_channels[2].message_count, 8);
}

#[test]
fn top_k_keeps_five_languages_per_range() {
    let mut agg = StreamingAggregators::new();
    let langs = ["en", "es", "fr", "de", "it", "pt", "ja"];
    for (i, l) in langs.iter().enumerate() {
        for _ in 0..(i + 1) {
            agg.process_message(msg(l, "c", 300));
        }
    }
    let top = generate_top_languages_results(&agg);
    assert_eq!(top.len(), 1);
    assert_eq!(top[0].viewer_range, "101-500");
    let names: Vec<&str> = top[0].top_languages.iter().map(|e| e.language.as_str()).collect();
    assert_eq!(names, vec!["ja", "pt", "it", "de", "fr"]);
    let counts: Vec<u64> = top[0].top_languages.iter().map(|e| e.message_count).collect();
    assert_eq!(counts, vec![7, 6, 5, 4, 3]);
}

#[test]
fn ranges_come_in_logical_order() {
    let mut agg = StreamingAggregators::new();
    agg.process_message(msg("en", "a", 5000));
    agg.process_message(msg("en", "a", 700));
    agg.process_message(msg("en", "a", 300));
    agg.process_message(msg("en", "a", 30));
    agg.process_message(msg("fr", "b", 2000));
    let top = generate_top_languages_results(&agg);
    let ranges: Vec<&str> = top.iter().map(|r| r.viewer_range.as_str()).collect();
    assert_eq!(ranges, vec!["0-100", "101-500", "501-1000", "1000+"]);
    assert_eq!(top[3].top_languages.len(), 2);
    assert_eq!(top[3].top_languages[0].message_count, 1);
}

#[test]
fn empty_aggregation_gives_empty_reports() {
    let agg = StreamingAggregators::new();
    assert!(generate_top_channels_results(&agg).is_empty());
    assert!(generate_top_languages_results(&agg).is_empty());
    assert_eq!(agg.total_messages, 0);
}

#[test]
fn candidates_that_failed_to_decode_are_skipped() {
    let mut agg = StreamingAggregators::new();
    let delivered = agg.process_candidates(vec![
        Some(msg("en", "c1", 100)),
        None,
        Some(msg("es", "c2", 200)),
    ]);
    assert_eq!(delivered, 2);
    assert_eq!(agg.total_messages, 2);
    assert_eq!(agg.language_channel_counts.count_of(&s("en"), &s("c1")), 1);
    assert_eq!(agg.language_channel_counts.count_of(&s("es"), &s("c2")), 1);
}

#[test]
fn merged_partials_equal_one_pass() {
    let all = vec![
        ("en", "a", 10),
        ("en", "b", 200),
        ("es", "a", 900),
        ("en", "a", 2000),
        ("fr", "c", 20),
    ];
    let mut whole = StreamingAggregators::new();
    for (l, c, v) in &all {
        whole.process_message(msg(l, c, *v));
    }
    for cut in 0..=all.len() {
        let mut left = StreamingAggregators::new();
        let mut right = StreamingAggregators::new();
        for (l, c, v) in &all[..cut] {
            left.process_message(msg(l, c, *v));
        }
        for (l, c, v) in &all[cut..] {
            right.process_message(msg(l, c, *v));
        }
        left.merge(&right);
        assert_eq!(left.total_messages, whole.total_messages);
        for (l, c, _) in &all {
            assert_eq!(
                left.language_channel_counts.count_of(&s(l), &s(c)),
                whole.language_channel_counts.count_of(&s(l), &s(c))
            );
        }
        for b in ["0-100", "101-500", "501-1000", "1000+"] {
            for l in ["en", "es", "fr"] {
                assert_eq!(
                    left.range_language_counts.count_of(&s(b), &s(l)),
                    whole.range_language_counts.count_of(&s(b), &s(l))
                );
            }
        }
    }
}
