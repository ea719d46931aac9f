use mean_feeder::entry::{Entry, RawEntry};
use mean_feeder::merge::{dedup_entries, merge_entries, sort_entries};
use mean_feeder::normalize::{normalize_entry, process_feed, resolve_feed_title};
use mean_feeder::parser::{attr_value, local_name, parse_feed};
use mean_feeder::render::{format_relative, render_entries};
use mean_feeder::schedule::{now_secs, secs_until_fetch};
use mean_feeder::store::{parse_entries, serialize_entries};
use mean_feeder::text::{decode_entities, escape_html, sanitize_field, strip_html};
use mean_feeder::timestamp::{
    days_since_epoch, parse_rfc2822, parse_rfc3339, parse_timestamp, parse_tz_offset,
};

fn entry(id: &str, title: &str, published: Option<i64>) -> Entry {
    Entry {
        id: id.as_bytes().to_vec(),
        title: title.as_bytes().to_vec(),
        link: b"https://example.org/x".to_vec(),
        published,
        feed_title: b"Example".to_vec(),
        summary: None,
    }
}

#[test]
fn timestamp_rfc3339_utc() {
    assert_eq!(parse_timestamp(b"2024-01-15T10:30:00Z"), Some(1705314600));
}

#[test]
fn timestamp_rfc2822_offset() {
    assert_eq!(
        parse_timestamp(b"Mon, 15 Jan 2024 10:30:00 +0200"),
        Some(1705307400)
    );
}

#[test]
fn timestamp_rfc2822_named_zone() {
    assert_eq!(parse_timestamp(b"15 Jan 2024 10:30:00 GMT"), Some(1705314600));
}

#[test]
fn timestamp_rfc3339_numeric_offset() {
    assert_eq!(
        parse_timestamp(b"2024-01-15T10:30:00+02:00"),
        Some(1705307400)
    );
    assert_eq!(
        parse_timestamp(b"2024-01-15T10:30:00-05:00"),
        Some(1705332600)
    );
}

#[test]
fn timestamp_unparsable() {
    assert_eq!(parse_timestamp(b""), None);
    assert_eq!(parse_timestamp(b"yesterday"), None);
    assert_eq!(parse_timestamp(b"15 Foo 2024 10:30:00"), None);
    assert_eq!(parse_timestamp(b"15 Jan 2024"), None);
    assert_eq!(parse_rfc3339(b"2024-13-99T99:99:99Z").is_some(), true);
    assert_eq!(parse_rfc3339(b"2024-01-15T10:30:0xZ"), None);
}

#[test]
fn timestamp_zone_table() {
    assert_eq!(parse_tz_offset(b"EST"), -5 * 3600);
    assert_eq!(parse_tz_offset(b"PDT"), -7 * 3600);
    assert_eq!(parse_tz_offset(b"UTC"), 0);
    assert_eq!(parse_tz_offset(b"+0130"), 5400);
    assert_eq!(parse_tz_offset(b"-0200"), -7200);
    assert_eq!(parse_tz_offset(b"XYZ"), 0);
}

#[test]
fn epoch_day_counts() {
    assert_eq!(days_since_epoch(1970, 1, 1), 0);
    assert_eq!(days_since_epoch(2024, 1, 15), 19737);
    assert_eq!(days_since_epoch(2000, 3, 1), 11017);
}

#[test]
fn rfc2822_case_insensitive_month() {
    assert_eq!(parse_rfc2822(b"15 JAN 2024 10:30:00"), Some(1705314600));
    assert_eq!(parse_rfc2822(b"15 jan 2024 10:30:00"), Some(1705314600));
}

#[test]
fn parser_counts_items_in_order() {
    let xml = b"<rss><channel><title>Feed</title>\
        <item><title>One</title><guid>g1</guid></item>\
        <item><title>Two</title><guid>g2</guid></item>\
        <item><title>Three</title><guid>g3</guid></item>\
        </channel></rss>";
    let (title, items, _) = parse_feed(xml);
    assert_eq!(title, b"Feed".to_vec());
    assert_eq!(items.len(), 3);
    assert_eq!(items[0].title, b"One".to_vec());
    assert_eq!(items[1].title, b"Two".to_vec());
    assert_eq!(items[2].title, b"Three".to_vec());
}

#[test]
fn parser_atom_entries_and_href() {
    let xml = b"<feed xmlns=\"http://www.w3.org/2005/Atom\"><title>A</title>\
        <entry><title>E1</title><id>i1</id><link href=\"https://a.example/1\"/>\
        <updated>2024-01-15T10:30:00Z</updated><summary>s1</summary></entry>\
        </feed>";
    let (title, items, _) = parse_feed(xml);
    assert_eq!(title, b"A".to_vec());
    assert_eq!(items.len(), 1);
    assert_eq!(items[0].id, b"i1".to_vec());
    assert_eq!(items[0].link, b"https://a.example/1".to_vec());
    assert_eq!(items[0].published, Some(b"2024-01-15T10:30:00Z".to_vec()));
    assert_eq!(items[0].summary, Some(b"s1".to_vec()));
}

#[test]
fn parser_namespace_prefix_stripped() {
    let xml = b"<rss><item><dc:date>2024-01-15T10:30:00Z</dc:date>\
        <content:encoded>body</content:encoded><guid>g</guid></item></rss>";
    let (_, items, _) = parse_feed(xml);
    assert_eq!(items.len(), 1);
    assert_eq!(items[0].published, Some(b"2024-01-15T10:30:00Z".to_vec()));
    assert_eq!(items[0].summary, Some(b"body".to_vec()));
}

#[test]
fn parser_cdata_and_comments() {
    let xml = b"<rss><!-- a comment --><item>\
        <description><![CDATA[<b>raw</b> text]]></description><guid>g</guid>\
        </item></rss>";
    let (_, items, _) = parse_feed(xml);
    assert_eq!(items.len(), 1);
    assert_eq!(items[0].summary, Some(b"<b>raw</b> text".to_vec()));
}

#[test]
fn parser_truncated_document_keeps_closed_items() {
    let xml = b"<rss><item><title>Done</title></item><item><title>Half";
    let (_, items, _) = parse_feed(xml);
    assert_eq!(items.len(), 1);
    assert_eq!(items[0].title, b"Done".to_vec());
}

#[test]
fn parser_reports_structural_fault() {
    let xml = b"<rss><item><title>Done</title></item><item><title";
    let (_, items, fault) = parse_feed(xml);
    assert_eq!(items.len(), 1);
    assert!(fault);
}

#[test]
fn parser_empty_document() {
    let (title, items, fault) = parse_feed(b"");
    assert!(title.is_empty());
    assert!(items.is_empty());
    assert!(!fault);
}

#[test]
fn parser_first_title_wins() {
    let xml = b"<rss><title>First</title><title>Second</title></rss>";
    let (title, _, _) = parse_feed(xml);
    assert_eq!(title, b"First".to_vec());
}

#[test]
fn parser_first_value_wins_in_item() {
    let xml = b"<rss><item><pubDate>15 Jan 2024 10:30:00 GMT</pubDate>\
        <updated>2020-01-01T00:00:00Z</updated>\
        <description>first</description><content>second</content></item></rss>";
    let (_, items, _) = parse_feed(xml);
    assert_eq!(items[0].published, Some(b"15 Jan 2024 10:30:00 GMT".to_vec()));
    assert_eq!(items[0].summary, Some(b"first".to_vec()));
}

#[test]
fn local_name_strips_prefix() {
    assert_eq!(local_name(b"dc:date"), b"date".to_vec());
    assert_eq!(local_name(b"a:b:date"), b"date".to_vec());
    assert_eq!(local_name(b"plain"), b"plain".to_vec());
}

#[test]
fn attr_value_both_quote_styles() {
    assert_eq!(
        attr_value(b" rel=\"alternate\" href=\"https://x/\""),
        Some(b"https://x/".to_vec())
    );
    assert_eq!(attr_value(b" href='u'"), Some(b"u".to_vec()));
    assert_eq!(attr_value(b" rel=\"self\""), None);
}

#[test]
fn strip_html_removes_markup() {
    assert_eq!(strip_html(b"<p>Hello <b>world</b></p>"), b"Hello world".to_vec());
}

#[test]
fn decode_entities_fixed_set() {
    assert_eq!(
        decode_entities(b"a &amp; b &lt;c&gt; &quot;d&quot; &#39;e&apos; &#x27;f &nbsp;"),
        b"a & b <c> \"d\" 'e' 'f  ".to_vec()
    );
}

#[test]
fn escape_html_round() {
    assert_eq!(escape_html(b"a<b>&\"c\""), b"a&lt;b&gt;&amp;&quot;c&quot;".to_vec());
}

#[test]
fn summary_truncated_to_200_with_ellipsis() {
    let long = vec![b'x'; 250];
    let raw = RawEntry {
        id: b"i".to_vec(),
        title: b"t".to_vec(),
        link: b"l".to_vec(),
        published: None,
        summary: Some(long),
    };
    let e = normalize_entry(b"https://f", b"F", raw);
    let s = e.summary.expect("summary kept");
    assert_eq!(s.len(), 200);
    assert_eq!(&s[..197], vec![b'x'; 197].as_slice());
    assert_eq!(&s[197..], b"...");
}

#[test]
fn summary_truncation_counts_characters_not_bytes() {
    let two_byte_char = "\u{e9}";
    let long: String = two_byte_char.repeat(250);
    let raw = RawEntry {
        id: b"i".to_vec(),
        title: b"t".to_vec(),
        link: b"l".to_vec(),
        published: None,
        summary: Some(long.into_bytes()),
    };
    let e = normalize_entry(b"https://f", b"F", raw);
    let s = e.summary.expect("summary kept");
    let text = String::from_utf8(s).expect("cut on a character boundary");
    assert_eq!(text.chars().count(), 200);
    assert!(text.ends_with("..."));
}

#[test]
fn summary_noise_marker_dropped() {
    let raw = RawEntry {
        id: b"i".to_vec(),
        title: b"t".to_vec(),
        link: b"l".to_vec(),
        published: None,
        summary: Some(b"Comments".to_vec()),
    };
    let e = normalize_entry(b"https://f", b"F", raw);
    assert_eq!(e.summary, None);
}

#[test]
fn summary_empty_after_stripping_dropped() {
    let raw = RawEntry {
        id: b"i".to_vec(),
        title: b"t".to_vec(),
        link: b"l".to_vec(),
        published: None,
        summary: Some(b"<p></p>".to_vec()),
    };
    let e = normalize_entry(b"https://f", b"F", raw);
    assert_eq!(e.summary, None);
}

#[test]
fn summary_first_two_lines_joined() {
    let raw = RawEntry {
        id: b"i".to_vec(),
        title: b"t".to_vec(),
        link: b"l".to_vec(),
        published: None,
        summary: Some(b"one\ntwo\nthree".to_vec()),
    };
    let e = normalize_entry(b"https://f", b"F", raw);
    assert_eq!(e.summary, Some(b"one two".to_vec()));
}

#[test]
fn normalize_placeholder_title_and_id() {
    let raw = RawEntry {
        id: Vec::new(),
        title: Vec::new(),
        link: b"https://a/1".to_vec(),
        published: Some(b"nonsense".to_vec()),
        summary: None,
    };
    let e = normalize_entry(b"https://a", b"", raw);
    assert_eq!(e.id, b"https://a#https://a/1".to_vec());
    assert_eq!(e.title, b"(untitled)".to_vec());
    assert_eq!(e.published, None);
}

#[test]
fn resolve_title_falls_back_to_url() {
    assert_eq!(resolve_feed_title(b"https://u", b""), b"https://u".to_vec());
    assert_eq!(resolve_feed_title(b"https://u", b"T"), b"T".to_vec());
}

#[test]
fn dedup_first_encounter_wins() {
    let es = vec![
        entry("a", "first-a", Some(5)),
        entry("b", "first-b", None),
        entry("a", "second-a", Some(9)),
        entry("b", "second-b", Some(1)),
    ];
    let d = dedup_entries(es);
    assert_eq!(d.len(), 2);
    assert_eq!(d[0].id, b"a".to_vec());
    assert_eq!(d[0].title, b"first-a".to_vec());
    assert_eq!(d[1].id, b"b".to_vec());
    assert_eq!(d[1].title, b"first-b".to_vec());
}

#[test]
fn sort_newest_first_unknown_last() {
    let es = vec![
        entry("a", "old", Some(100)),
        entry("b", "none", None),
        entry("c", "new", Some(900)),
        entry("d", "mid", Some(500)),
    ];
    let s = sort_entries(es);
    let keys: Vec<Option<i64>> = s.iter().map(|e| e.published).collect();
    assert_eq!(keys, vec![Some(900), Some(500), Some(100), None]);
}

#[test]
fn merge_dedups_and_orders() {
    let es = vec![
        entry("a", "a1", Some(10)),
        entry("b", "b1", None),
        entry("a", "a2", Some(999)),
        entry("c", "c1", Some(20)),
    ];
    let m = merge_entries(es);
    assert_eq!(m.len(), 3);
    assert_eq!(m[0].id, b"c".to_vec());
    assert_eq!(m[1].id, b"a".to_vec());
    assert_eq!(m[1].title, b"a1".to_vec());
    assert_eq!(m[2].id, b"b".to_vec());
}

#[test]
fn two_feeds_same_guid_distinct_entries() {
    let xml: &[u8] = b"<rss><item><guid>shared</guid><title>t</title></item></rss>";
    let mut all = process_feed(b"https://one.example/rss", xml).0;
    all.extend(process_feed(b"https://two.example/rss", xml).0);
    let m = merge_entries(all);
    assert_eq!(m.len(), 2);
    assert_ne!(m[0].id, m[1].id);
}

#[test]
fn same_feed_same_guid_one_entry() {
    let xml: &[u8] = b"<rss>\
        <item><guid>shared</guid><title>t1</title></item>\
        <item><guid>shared</guid><title>t2</title></item></rss>";
    let all = process_feed(b"https://one.example/rss", xml).0;
    let m = merge_entries(all);
    assert_eq!(m.len(), 1);
    assert_eq!(m[0].title, b"t1".to_vec());
}

#[test]
fn store_round_trip_clean_fields() {
    let es = vec![
        Entry {
            id: b"https://a#1".to_vec(),
            title: b"Title one".to_vec(),
            link: b"https://a/1".to_vec(),
            published: Some(1705314600),
            feed_title: b"Feed A".to_vec(),
            summary: Some(b"a summary".to_vec()),
        },
        Entry {
            id: b"https://b#2".to_vec(),
            title: b"Title two".to_vec(),
            link: Vec::new(),
            published: None,
            feed_title: b"Feed B".to_vec(),
            summary: None,
        },
        Entry {
            id: b"neg".to_vec(),
            title: b"Before the epoch".to_vec(),
            link: b"l".to_vec(),
            published: Some(-86400),
            feed_title: b"F".to_vec(),
            summary: None,
        },
    ];
    let bytes = serialize_entries(&es);
    let back = parse_entries(&bytes);
    assert_eq!(back.len(), es.len());
    for (a, b) in es.iter().zip(back.iter()) {
        assert_eq!(a.id, b.id);
        assert_eq!(a.title, b.title);
        assert_eq!(a.link, b.link);
        assert_eq!(a.published, b.published);
        assert_eq!(a.feed_title, b.feed_title);
        assert_eq!(a.summary, b.summary);
    }
}

#[test]
fn store_sanitizes_delimiters() {
    let es = vec![Entry {
        id: b"id\twith\ntabs".to_vec(),
        title: b"ti\ttle".to_vec(),
        link: b"l".to_vec(),
        published: Some(7),
        feed_title: b"f".to_vec(),
        summary: Some(b"s\tum".to_vec()),
    }];
    let bytes = serialize_entries(&es);
    let back = parse_entries(&bytes);
    assert_eq!(back.len(), 1);
    assert_eq!(back[0].id, b"id with tabs".to_vec());
    assert_eq!(back[0].title, b"ti tle".to_vec());
    assert_eq!(back[0].summary, Some(b"s um".to_vec()));
    assert_eq!(back[0].published, Some(7));
}

#[test]
fn store_skips_corrupt_lines() {
    let data = b"only\ttwo\n\
        a\tb\tc\td\te\tf\n\
        short line\n";
    let back = parse_entries(data);
    assert_eq!(back.len(), 1);
    assert_eq!(back[0].id, b"a".to_vec());
    assert_eq!(back[0].summary, Some(b"f".to_vec()));
}

#[test]
fn store_bad_published_becomes_absent() {
    let data = b"a\tb\tc\tnot-a-number\te\tf\n";
    let back = parse_entries(data);
    assert_eq!(back.len(), 1);
    assert_eq!(back[0].published, None);
}

#[test]
fn store_missing_file_is_empty_collection() {
    assert!(parse_entries(b"").is_empty());
}

#[test]
fn format_relative_buckets() {
    assert_eq!(format_relative(1000, 990), b"just now".to_vec());
    assert_eq!(format_relative(1000, 1000 - 5 * 60), b"5m ago".to_vec());
    assert_eq!(format_relative(1000 + 3 * 3600, 1000), b"3h ago".to_vec());
    assert_eq!(
        format_relative(1000 + 50 * 86400, 1000),
        b"50d ago".to_vec()
    );
    assert_eq!(format_relative(1000, 5000), b"just now".to_vec());
}

#[test]
fn render_entries_blocks_and_pages() {
    let es = vec![entry("a", "Tom & Jerry", Some(100)), entry("b", "B", None)];
    let mut html: Vec<u8> = Vec::new();
    render_entries(&mut html, &es, 130, None);
    let text = String::from_utf8(html).expect("utf8");
    assert!(text.contains("Tom &amp; Jerry"));
    assert!(text.contains("just now"));
    assert!(text.contains("unknown"));
    let mut paged: Vec<u8> = Vec::new();
    render_entries(&mut paged, &es, 130, Some(1));
    let ptext = String::from_utf8(paged).expect("utf8");
    assert!(ptext.contains("data-page=\"1\""));
    assert!(ptext.contains("data-page=\"2\""));
}

#[test]
fn fetch_wait_lands_on_trigger_hour() {
    let r = secs_until_fetch(0, 14);
    assert_eq!(r, 14 * 3600);
    let noon_past = 15 * 3600;
    let r2 = secs_until_fetch(noon_past, 14);
    assert_eq!(r2, 86400 - 3600);
    let exactly = 14 * 3600;
    assert_eq!(secs_until_fetch(exactly, 14), 86400);
}

#[test]
fn clock_reads_nonnegative() {
    assert!(now_secs() >= 0);
}

#[test]
fn sanitize_field_replaces_framing_bytes() {
    assert_eq!(sanitize_field(b"a\tb\nc"), b"a b c".to_vec());
}

#[test]
fn feed_list_lines_trimmed_blank_dropped() {
    let urls = mean_feeder::config::parse_feed_list(b"  https://a/rss  \n\nhttps://b/rss\n");
    assert_eq!(urls.len(), 2);
    assert_eq!(urls[0], b"https://a/rss".to_vec());
    assert_eq!(urls[1], b"https://b/rss".to_vec());
}

#[test]
fn store_round_trip_extreme_instants() {
    let es = vec![
        Entry {
            id: b"min".to_vec(),
            title: b"t".to_vec(),
            link: b"l".to_vec(),
            published: Some(i64::MIN),
            feed_title: b"f".to_vec(),
            summary: None,
        },
        Entry {
            id: b"max".to_vec(),
            title: b"t".to_vec(),
            link: b"l".to_vec(),
            published: Some(i64::MAX),
            feed_title: b"f".to_vec(),
            summary: None,
        },
    ];
    let back = parse_entries(&serialize_entries(&es));
    assert_eq!(back.len(), 2);
    assert_eq!(back[0].published, Some(i64::MIN));
    assert_eq!(back[1].published, Some(i64::MAX));
}

#[test]
fn item_id_and_title_first_value_wins() {
    let xml = b"<rss><item><guid>first-id</guid><id>second-id</id>\
        <title>first-title</title><title>second-title</title></item></rss>";
    let (_, items, _) = parse_feed(xml);
    assert_eq!(items.len(), 1);
    assert_eq!(items[0].id, b"first-id".to_vec());
    assert_eq!(items[0].title, b"first-title".to_vec());
}

#[test]
fn timestamp_year_zero_parses() {
    assert_eq!(
        parse_timestamp(b"0000-01-15T10:30:00Z"),
        Some(-62165971800)
    );
}

#[test]
fn timestamp_far_future_year_parses() {
    let expected = days_since_epoch(200000, 1, 15) * 86400 + 10 * 3600 + 30 * 60;
    assert_eq!(parse_rfc2822(b"15 Jan 200000 10:30:00"), Some(expected));
}

#[test]
fn timestamp_negative_fields_extrapolate() {
    let expected = days_since_epoch(2024, 1, -5) * 86400 + 10 * 3600 + 30 * 60;
    assert_eq!(parse_rfc2822(b"-5 Jan 2024 10:30:00"), Some(expected));
}

#[test]
fn sort_keeps_encounter_order_on_equal_instants() {
    let es = vec![
        entry("a", "tie-one", Some(500)),
        entry("b", "late", Some(900)),
        entry("c", "tie-two", Some(500)),
        entry("d", "tie-three", Some(500)),
    ];
    let s = sort_entries(es);
    let titles: Vec<Vec<u8>> = s.iter().map(|e| e.title.clone()).collect();
    assert_eq!(
        titles,
        vec![
            b"late".to_vec(),
            b"tie-one".to_vec(),
            b"tie-two".to_vec(),
            b"tie-three".to_vec(),
        ]
    );
}

#[test]
fn attr_value_anchored_at_name_start() {
    assert_eq!(attr_value(b" xhref=\"no\" href=\"yes\""), Some(b"yes".to_vec()));
    assert_eq!(attr_value(b" xhref=\"no\""), None);
}
