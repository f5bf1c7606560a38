use aggregator::llm_filter::FilterError;
use aggregator::llm_filter::apply_filter_result;
use aggregator::llm_filter::build_filter_request;
use aggregator::llm_filter::parse_filter_lines;
use aggregator::llm_filter::parse_filter_response;
use aggregator::llm_filter::serialize_posts;
use aggregator::sources::HackerNews;
use aggregator::sources::Post;
use aggregator::sources::Source;
use aggregator::text::parse_u64;
use aggregator::text::split_str;
use aggregator::text::u64_to_string;

fn post(title: &str, url: &str) -> Post {
    Post {
        title: title.to_string(),
        url: Some(url.to_string()),
        score: None,
        time: None,
    }
}

fn rich_post(title: &str, url: &str, score: u64, time: u64) -> Post {
    Post {
        title: title.to_string(),
        url: Some(url.to_string()),
        score: Some(score),
        time: Some(time),
    }
}

#[test]
fn filter_of_empty_input_fails_before_any_call() {
    let r = build_filter_request(&vec![]);
    assert_eq!(r.unwrap_err(), FilterError::EmptyInput);
}

#[test]
fn filter_request_embeds_payload_in_instruction() {
    let r = build_filter_request(&vec![post("T", "u")]).unwrap();
    assert!(r.starts_with("Take the given entries"));
    assert!(r.ends_with("SCORES: T<::>u"));
}

#[test]
fn serialize_minimal_variant_exact() {
    let s = serialize_posts(&vec![post("A", "u1"), post("B", "u2")]);
    assert_eq!(s, "A<::>u1\nB<::>u2");
}

#[test]
fn serialize_rich_variant_exact() {
    let s = serialize_posts(&vec![rich_post("T", "u", 5, 99)]);
    assert_eq!(s, "T<::>u<::>5<::>99");
}

#[test]
fn round_trip_minimal_variant() {
    let posts = vec![post("A", "u1"), post("B", "u2"), post("C", "u3")];
    let wire = serialize_posts(&posts);
    let back = parse_filter_lines(&wire).unwrap();
    assert_eq!(back.len(), 3);
    for (p, q) in posts.iter().zip(back.iter()) {
        assert_eq!(p.title, q.title);
        assert_eq!(p.url, q.url);
        assert_eq!(q.score, None);
        assert_eq!(q.time, None);
    }
}

#[test]
fn round_trip_rich_variant() {
    let posts = vec![rich_post("A", "u1", 10, 111), rich_post("B", "u2", 2, 222)];
    let wire = serialize_posts(&posts);
    let back = parse_filter_lines(&wire).unwrap();
    assert_eq!(back.len(), 2);
    for (p, q) in posts.iter().zip(back.iter()) {
        assert_eq!(p.title, q.title);
        assert_eq!(p.url, q.url);
        assert_eq!(p.score, q.score);
        assert_eq!(p.time, q.time);
    }
}

#[test]
fn filter_reply_of_two_lines_gives_two_posts_in_order() {
    let back = parse_filter_lines("A<::>u1\nB<::>u2").unwrap();
    assert_eq!(back.len(), 2);
    assert_eq!(back[0].title, "A");
    assert_eq!(back[0].url.as_deref(), Some("u1"));
    assert_eq!(back[1].title, "B");
    assert_eq!(back[1].url.as_deref(), Some("u2"));
}

#[test]
fn line_missing_url_fails_and_keeps_published() {
    let r = parse_filter_lines("A");
    assert_eq!(r.unwrap_err(), FilterError::MalformedResponse);

    let mut store = HackerNews::with_capacities(5, 5);
    store.push_unconditional(vec![post("old", "u")]);
    let outcome = parse_filter_lines("good<::>u2\nbad-line");
    assert!(outcome.is_err());
    apply_filter_result(&mut store, outcome);
    let published = store.pull();
    assert_eq!(published.len(), 1);
    assert_eq!(published[0].title, "old");
}

#[test]
fn successful_filter_outcome_replaces_published() {
    let mut store = HackerNews::with_capacities(5, 5);
    store.push_unconditional(vec![post("old", "u")]);
    let outcome = parse_filter_lines("A<::>u1\nB<::>u2");
    apply_filter_result(&mut store, outcome);
    let published = store.pull();
    assert_eq!(published.len(), 2);
    assert_eq!(published[0].title, "A");
    assert_eq!(published[1].title, "B");
}

#[test]
fn malformed_numeric_fields_fail() {
    assert!(parse_filter_lines("A<::>u<::>x").is_err());
    assert!(parse_filter_lines("A<::>u<::>1<::>y").is_err());
    assert!(parse_filter_lines("A<::>u<::>1<::>2<::>3").is_err());
    assert!(parse_filter_lines("").is_err());
}

#[test]
fn three_field_line_carries_score_only() {
    let back = parse_filter_lines("A<::>u<::>7").unwrap();
    assert_eq!(back.len(), 1);
    assert_eq!(back[0].score, Some(7));
    assert_eq!(back[0].time, None);
}

#[test]
fn response_body_unwrapped_at_expected_path() {
    let body = "{\"output\":[{\"content\":[{\"text\":\"A<::>u1\\nB<::>u2\"}]}]}";
    let back = parse_filter_response(body).unwrap();
    assert_eq!(back.len(), 2);
    assert_eq!(back[0].title, "A");
    assert_eq!(back[1].title, "B");
}

#[test]
fn response_body_without_text_path_is_malformed() {
    assert_eq!(
        parse_filter_response("not json").unwrap_err(),
        FilterError::MalformedResponse
    );
    assert_eq!(
        parse_filter_response("{\"output\":[]}").unwrap_err(),
        FilterError::MalformedResponse
    );
    assert_eq!(
        parse_filter_response("{\"output\":[{\"content\":[{\"text\":5}]}]}").unwrap_err(),
        FilterError::MalformedResponse
    );
}

#[test]
fn decimal_formatting_and_parsing() {
    assert_eq!(u64_to_string(0), "0");
    assert_eq!(u64_to_string(907), "907");
    assert_eq!(u64_to_string(u64::MAX), "18446744073709551615");
    assert_eq!(parse_u64("18446744073709551615"), Some(u64::MAX));
    assert_eq!(parse_u64("18446744073709551616"), None);
    assert_eq!(parse_u64("0"), Some(0));
    assert_eq!(parse_u64(""), None);
    assert_eq!(parse_u64("12a"), None);
    assert_eq!(parse_u64("-1"), None);
}

#[test]
fn split_keeps_empty_segments() {
    let parts = split_str("a<::>", "<::>");
    assert_eq!(parts, vec!["a".to_string(), "".to_string()]);
    let parts = split_str("", "<::>");
    assert_eq!(parts, vec!["".to_string()]);
    let parts = split_str("a<::>b<::>c", "<::>");
    assert_eq!(parts, vec!["a", "b", "c"]);
}
