use fulmicoton::events::{decode_events, encode_events, events_to_columns, sort_events};
use fulmicoton::parse::{EventKey, EventValue, Repo};

fn event(id: &str, ty: &str, repo_id: u64, name: &str, at: &str) -> (EventKey, EventValue) {
    (
        EventKey { id: id.to_string(), event_type: ty.to_string() },
        EventValue {
            repo: Repo {
                id: repo_id,
                name: name.to_string(),
                url: format!("https://api.github.com/repos/{}", name),
            },
            created_at: at.to_string(),
        },
    )
}

fn sample() -> Vec<(EventKey, EventValue)> {
    vec![
        event("2489651057", "PushEvent", 28688495, "petroav/6.828", "2015-01-01T15:00:01Z"),
        event("2489651045", "CreateEvent", 28688495, "petroav/6.828", "2015-01-01T15:00:00Z"),
        event("2489651051", "WatchEvent", 3214290, "rspt/rspt-theme", "2015-01-01T15:00:01Z"),
        event("2489651053", "PushEvent", 28688495, "petroav/6.828", "2015-01-01T15:00:00Z"),
    ]
}

#[test]
fn events_round_trip_sorted_by_key() {
    let events = sample();
    let bytes = encode_events(&events).unwrap();
    let back = decode_events(&bytes).unwrap().unwrap();
    let mut expected = events.clone();
    expected.sort_by(|a, b| a.0.cmp(&b.0));
    assert_eq!(back, expected);
}

#[test]
fn sort_events_is_stable_by_key() {
    let mut events = sample();
    events.push(event("2489651045", "CreateEvent", 1, "a/b", "2015-01-01T15:00:05Z"));
    let sorted = sort_events(&events);
    let mut expected = events.clone();
    expected.sort_by(|a, b| a.0.cmp(&b.0));
    assert_eq!(sorted, expected);
}

#[test]
fn events_that_do_not_parse_are_refused() {
    let mut events = sample();
    events.push(event("not a number", "PushEvent", 1, "a/b", "2015-01-01T15:00:05Z"));
    assert!(events_to_columns(&events).is_none());
    assert!(encode_events(&events).is_none());
    assert!(decode_events(&[1, 2, 3]).is_none());
}
