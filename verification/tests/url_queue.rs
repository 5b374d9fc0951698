use rustic_crawler::url_queue::UrlQueue;
use std::collections::HashSet;

fn url(path: &str) -> String {
    format!("https://example.com/{path}")
}

fn drain(queue: &mut UrlQueue) -> Vec<String> {
    let mut taken = Vec::new();
    while let Some(next) = queue.take() {
        taken.push(next);
    }
    taken
}

#[test]
fn sync_test() {
    let mut queue = UrlQueue::new(vec!["https://example.com/1".to_string()]);

    queue.push(vec![
        "https://example.com/2".to_string(),
        "https://example.com/3".to_string(),
    ]);

    assert_eq!(queue.take(), Some("https://example.com/3".to_string()));
    assert_eq!(queue.take(), Some("https://example.com/2".to_string()));

    queue.push(vec![
        "https://example.com/4".to_string(),
        "https://example.com/5".to_string(),
    ]);

    assert_eq!(queue.take(), Some("https://example.com/5".to_string()));
    assert_eq!(queue.take(), Some("https://example.com/4".to_string()));
    assert_eq!(queue.take(), Some("https://example.com/1".to_string()));
    assert_eq!(queue.take(), None);
}

#[test]
fn take_on_unseeded_queue_returns_none() {
    let mut queue = UrlQueue::new(Vec::new());
    assert_eq!(queue.take(), None);
    assert_eq!(queue.take(), None);
}

#[test]
fn take_on_drained_queue_returns_none() {
    let mut queue = UrlQueue::new(vec![url("1"), url("2")]);
    assert_eq!(queue.take(), Some(url("2")));
    assert_eq!(queue.take(), Some(url("1")));
    assert_eq!(queue.take(), None);
    assert_eq!(queue.take(), None);
}

#[test]
fn unseeded_queue_takes_pushes() {
    let mut queue = UrlQueue::new(Vec::new());
    queue.push(vec![url("a"), url("b")]);
    assert_eq!(drain(&mut queue), vec![url("b"), url("a")]);
}

#[test]
fn push_of_nothing_changes_nothing() {
    let mut queue = UrlQueue::new(vec![url("1")]);
    queue.push(Vec::new());
    assert_eq!(drain(&mut queue), vec![url("1")]);
}

#[test]
fn seeds_come_out_last_first() {
    let mut queue = UrlQueue::new(vec![url("1"), url("2"), url("3")]);
    assert_eq!(drain(&mut queue), vec![url("3"), url("2"), url("1")]);
}

#[test]
fn seeds_count_as_seen() {
    let mut queue = UrlQueue::new(vec![url("1"), url("2")]);
    queue.push(vec![url("2"), url("1"), url("3")]);
    assert_eq!(drain(&mut queue), vec![url("3"), url("2"), url("1")]);
}

#[test]
fn seed_given_twice_is_queued_once() {
    let seed = "https://example.com/1".to_string();
    let mut queue = UrlQueue::new(vec![seed.clone(), seed.clone()]);
    assert_eq!(queue.take(), Some(seed.clone()));
    assert_eq!(queue.take(), None);
    queue.push(vec![seed]);
    assert_eq!(queue.take(), None);
}

#[test]
fn repeated_seeds_keep_the_order_of_their_first_places() {
    let mut queue = UrlQueue::new(vec![url("a"), url("b"), url("a"), url("c"), url("b")]);
    assert_eq!(drain(&mut queue), vec![url("c"), url("b"), url("a")]);
}

#[test]
fn seeding_is_the_first_push() {
    let seeds = vec![url("a"), url("b"), url("a")];
    let mut seeded = UrlQueue::new(seeds.clone());
    let mut pushed = UrlQueue::new(Vec::new());
    pushed.push(seeds);
    assert_eq!(drain(&mut seeded), drain(&mut pushed));
}

#[test]
fn duplicate_within_one_push_is_dropped() {
    let mut queue = UrlQueue::new(Vec::new());
    queue.push(vec![url("a"), url("b"), url("a"), url("c"), url("b")]);
    assert_eq!(drain(&mut queue), vec![url("c"), url("b"), url("a")]);
}

#[test]
fn duplicate_across_pushes_is_dropped() {
    let mut queue = UrlQueue::new(vec![url("1")]);
    queue.push(vec![url("2"), url("3")]);
    queue.push(vec![url("3"), url("4"), url("1")]);
    assert_eq!(drain(&mut queue), vec![url("4"), url("3"), url("2"), url("1")]);
}

#[test]
fn taken_url_is_never_queued_again() {
    let mut queue = UrlQueue::new(vec![url("1")]);
    assert_eq!(queue.take(), Some(url("1")));
    queue.push(vec![url("1")]);
    assert_eq!(queue.take(), None);
    queue.push(vec![url("2"), url("1")]);
    assert_eq!(queue.take(), Some(url("2")));
    queue.push(vec![url("2")]);
    assert_eq!(queue.take(), None);
}

#[test]
fn pushing_a_seen_url_leaves_the_pending_urls_as_they_were() {
    let mut plain = UrlQueue::new(vec![url("1")]);
    plain.push(vec![url("2"), url("3")]);

    let mut repeated = UrlQueue::new(vec![url("1")]);
    repeated.push(vec![url("2"), url("3")]);
    repeated.push(vec![url("2")]);
    repeated.push(vec![url("1"), url("3"), url("1")]);

    let expected = vec![url("3"), url("2"), url("1")];
    assert_eq!(drain(&mut plain), expected);
    assert_eq!(drain(&mut repeated), expected);
}

#[test]
fn pushing_a_batch_twice_is_pushing_it_once() {
    let batch = vec![url("a"), url("b"), url("a")];
    let mut queue = UrlQueue::new(vec![url("1")]);
    queue.push(batch.clone());
    queue.push(batch);
    assert_eq!(drain(&mut queue), vec![url("b"), url("a"), url("1")]);
}

#[test]
fn two_pushes_are_one_push_of_both() {
    let mut split = UrlQueue::new(vec![url("1")]);
    split.push(vec![url("a"), url("b")]);
    split.push(vec![url("b"), url("c")]);

    let mut joined = UrlQueue::new(vec![url("1")]);
    joined.push(vec![url("a"), url("b"), url("b"), url("c")]);

    assert_eq!(drain(&mut split), drain(&mut joined));
}

#[test]
fn second_push_comes_out_before_the_rest_of_the_first() {
    let mut queue = UrlQueue::new(Vec::new());
    queue.push(vec![url("first/a"), url("first/b"), url("first/c")]);
    assert_eq!(queue.take(), Some(url("first/c")));
    queue.push(vec![url("second/a"), url("second/b")]);
    assert_eq!(queue.take(), Some(url("second/b")));
    assert_eq!(queue.take(), Some(url("second/a")));
    assert_eq!(queue.take(), Some(url("first/b")));
    assert_eq!(queue.take(), Some(url("first/a")));
    assert_eq!(queue.take(), None);
}

#[test]
fn urls_are_compared_as_exact_strings() {
    let mut queue = UrlQueue::new(vec!["https://example.com".to_string()]);
    queue.push(vec![
        "https://example.com/".to_string(),
        "https://EXAMPLE.com".to_string(),
        "https://example.com".to_string(),
        "".to_string(),
    ]);
    assert_eq!(
        drain(&mut queue),
        vec![
            "".to_string(),
            "https://EXAMPLE.com".to_string(),
            "https://example.com/".to_string(),
            "https://example.com".to_string(),
        ]
    );
}

#[test]
fn every_supplied_url_is_taken_exactly_once() {
    let mut queue = UrlQueue::new(vec![url("seed")]);
    let mut supplied: HashSet<String> = HashSet::new();
    supplied.insert(url("seed"));
    let mut taken: Vec<String> = Vec::new();

    for round in 0..20 {
        let batch = vec![
            url(&format!("{}", round % 7)),
            url(&format!("{}/{}", round, round % 3)),
            url("seed"),
            url(&format!("{}", round % 5)),
        ];
        for pushed in &batch {
            supplied.insert(pushed.clone());
        }
        queue.push(batch);
        if round % 2 == 1 {
            if let Some(next) = queue.take() {
                taken.push(next);
            }
        }
    }
    taken.extend(drain(&mut queue));

    let distinct: HashSet<String> = taken.iter().cloned().collect();
    assert_eq!(distinct.len(), taken.len());
    assert_eq!(distinct, supplied);
    assert_eq!(taken.len(), supplied.len());
}

#[test]
fn ten_pushers_and_ten_takers_one_after_another() {
    let mut queue = UrlQueue::new(vec!["https://example.com/1".to_string()]);
    let mut taken_urls: Vec<String> = Vec::new();

    for index in 0..10 {
        queue.push(vec![
            "https://example.com/duplicate".to_string(),
            format!("https://example.com/{index}/1"),
            format!("https://example.com/{index}/2"),
        ]);

        queue.push(vec![
            format!("https://example.com/{index}/3"),
            format!("https://example.com/{index}/4"),
            "https://example.com/duplicate".to_string(),
        ]);
    }

    for _ in 0..10 {
        for _ in 0..10 {
            if let Some(taken_url) = queue.take() {
                taken_urls.push(taken_url);
            }
        }
    }

    assert_eq!(queue.take(), None);
    assert_eq!(taken_urls.len(), 42);
    let distinct: HashSet<String> = taken_urls.iter().cloned().collect();
    assert_eq!(distinct.len(), 42);
}

#[test]
fn ten_pushers_of_three_own_urls_and_one_shared() {
    let mut queue = UrlQueue::new(vec![url("seed")]);
    let mut taken: Vec<String> = Vec::new();

    for pusher in 0..10 {
        queue.push(vec![
            url(&format!("{pusher}/1")),
            url("shared"),
            url(&format!("{pusher}/2")),
            url(&format!("{pusher}/3")),
        ]);
        for _ in 0..2 {
            if let Some(next) = queue.take() {
                taken.push(next);
            }
        }
    }
    taken.extend(drain(&mut queue));

    assert_eq!(queue.take(), None);
    assert_eq!(taken.len(), 10 * 3 + 1 + 1);
    let distinct: HashSet<String> = taken.iter().cloned().collect();
    assert_eq!(distinct.len(), taken.len());
    assert!(distinct.contains(&url("shared")));
    assert!(distinct.contains(&url("seed")));
}
