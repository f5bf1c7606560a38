use aggregator::sources::FetchError;
use aggregator::sources::HackerNews;
use aggregator::sources::Post;
use aggregator::sources::Source;
use aggregator::sources::detail_url;
use aggregator::sources::parse_listing;

fn post(title: &str, url: Option<&str>) -> Post {
    Post {
        title: title.to_string(),
        url: url.map(|u| u.to_string()),
        score: None,
        time: None,
    }
}

#[test]
fn capacity_bounds_hold_after_every_operation() {
    let mut store = HackerNews::with_capacities(3, 2);
    let ops: Vec<u32> = vec![0, 0, 1, 0, 0, 2, 0, 1, 0, 0, 0, 1, 2, 0, 0];
    let mut n: u64 = 0;
    for op in ops {
        match op {
            0 => {
                n += 1;
                store.append_raw(post(&format!("p{n}"), Some("u")));
            }
            1 => {
                let batch = vec![
                    post("q1", Some("u")),
                    post("q2", Some("u")),
                    post("q3", Some("u")),
                ];
                store.push_unconditional(batch);
            }
            _ => store.empty(),
        }
        assert!(store.pull_raw().len() <= 3);
        assert!(store.pull().len() <= 2);
    }
}

#[test]
fn append_raw_at_capacity_keeps_earliest_and_new() {
    let mut store = HackerNews::with_capacities(3, 2);
    store.append_raw(post("a", Some("ua")));
    store.append_raw(post("b", Some("ub")));
    store.append_raw(post("c", Some("uc")));
    assert_eq!(store.pull_raw().len(), 3);
    store.append_raw(post("d", Some("ud")));
    let raw = store.pull_raw();
    assert_eq!(raw.len(), 3);
    assert_eq!(raw[0].title, "a");
    assert_eq!(raw[1].title, "b");
    assert_eq!(raw[2].title, "d");
}

#[test]
fn push_unconditional_truncates_overflowing_snapshot() {
    let mut store = HackerNews::with_capacities(3, 2);
    store.push_unconditional(vec![
        post("x", Some("u1")),
        post("y", Some("u2")),
        post("z", Some("u3")),
    ]);
    let published = store.pull();
    assert_eq!(published.len(), 1);
    assert_eq!(published[0].title, "x");

    store.push_unconditional(vec![post("x", Some("u1")), post("y", Some("u2"))]);
    let published = store.pull();
    assert_eq!(published.len(), 2);
    assert_eq!(published[0].title, "x");
    assert_eq!(published[1].title, "y");
}

#[test]
fn clear_then_pull_raw_is_empty() {
    let mut store = HackerNews::with_capacities(5, 5);
    store.append_raw(post("a", Some("ua")));
    store.append_raw(post("b", Some("ub")));
    store.push_unconditional(vec![post("p", Some("up"))]);
    store.empty();
    assert_eq!(store.pull_raw().len(), 0);
    assert_eq!(store.pull().len(), 1);

    store.empty();
    assert_eq!(store.pull_raw().len(), 0);
}

#[test]
fn fetch_cycle_drops_post_without_url() {
    let ids = parse_listing("[1,2,3]").unwrap();
    assert_eq!(ids, vec![1, 2, 3]);

    let mut store = HackerNews::new();
    for id in ids {
        let body = match id {
            1 => "{\"title\":\"one\",\"url\":\"https://example.org/1\"}",
            2 => "{\"title\":\"two\"}",
            _ => "{\"title\":\"three\",\"url\":\"https://example.org/3\"}",
        };
        store.ingest_detail(body);
    }
    let raw = store.pull_raw();
    assert_eq!(raw.len(), 2);
    assert_eq!(raw[0].title, "one");
    assert_eq!(raw[1].title, "three");
}

#[test]
fn ingest_drops_post_without_url() {
    let mut store = HackerNews::new();
    store.ingest(post("no-url", None));
    assert_eq!(store.pull_raw().len(), 0);
    store.ingest(post("with-url", Some("u")));
    assert_eq!(store.pull_raw().len(), 1);
}

#[test]
fn parse_listing_rejects_malformed_reply() {
    assert_eq!(parse_listing("not json"), Err(FetchError::Decode));
    assert_eq!(parse_listing("{\"a\":1}"), Err(FetchError::Decode));
    assert_eq!(parse_listing("[1,\"x\"]"), Err(FetchError::Decode));
    assert_eq!(parse_listing("[]").unwrap(), Vec::<u64>::new());
}

#[test]
fn detail_url_is_base_id_json() {
    assert_eq!(
        detail_url(42),
        "https://hacker-news.firebaseio.com/v0/item/42.json"
    );
    assert_eq!(
        detail_url(0),
        "https://hacker-news.firebaseio.com/v0/item/0.json"
    );
}

#[test]
fn json_response_wraps_snapshot() {
    let mut store = HackerNews::new();
    store.push_unconditional(vec![post("a", Some("ua")), post("b", None)]);
    let body = aggregator::types::JsonResponse::new(store.pull());
    assert_eq!(body.response.len(), 2);
    assert_eq!(body.response[0].title, "a");
    assert_eq!(body.response[1].url, None);
}

#[test]
fn ingest_detail_rejects_malformed_record() {
    let mut store = HackerNews::new();
    store.ingest_detail("not json");
    store.ingest_detail("{\"url\":\"https://example.org\"}");
    assert_eq!(store.pull_raw().len(), 0);
}
