use rustic_crawler::crawler::{ConfigError, Crawler, CrawlerConfig, UrlQueue};

fn config(allow_urls: Vec<String>) -> CrawlerConfig {
    CrawlerConfig {
        rate_limit: 15,
        allow_urls,
        disallow_urls: Vec::new(),
        thread_count: 20,
    }
}

#[test]
fn config_without_allow_urls_is_rejected() {
    assert_eq!(config(Vec::new()).validate(), Err(ConfigError::NoAllowUrls));
}

#[test]
fn config_with_one_allow_url_is_accepted() {
    assert_eq!(config(vec!["https://example.com/*".to_string()]).validate(), Ok(()));
}

#[test]
fn config_with_only_disallow_urls_is_rejected() {
    let mut settings = config(Vec::new());
    settings.disallow_urls.push("https://example.com/private/*".to_string());
    assert_eq!(settings.validate(), Err(ConfigError::NoAllowUrls));
}

#[test]
fn config_is_not_judged_by_its_numbers() {
    let mut settings = config(vec!["*".to_string(), "https://example.com/*".to_string()]);
    settings.rate_limit = 0;
    settings.thread_count = 0;
    assert_eq!(settings.validate(), Ok(()));
}

#[test]
fn config_error_message() {
    assert_eq!(
        ConfigError::NoAllowUrls.message(),
        "error: there must be at least 1 allow url"
    );
}

#[test]
fn crawler_queue_starts_with_the_start_url() {
    let mut queue = UrlQueue::new("https://example.com/1".to_string());
    assert_eq!(queue.take(), Some("https://example.com/1".to_string()));
    assert_eq!(queue.take(), None);
}

#[test]
fn crawler_queue_add_empties_the_list() {
    let mut queue = UrlQueue::new("https://example.com/1".to_string());
    let mut urls = vec![
        "https://example.com/2".to_string(),
        "https://example.com/3".to_string(),
    ];
    queue.add(&mut urls);
    assert!(urls.is_empty());
    assert_eq!(queue.take(), Some("https://example.com/3".to_string()));
    assert_eq!(queue.take(), Some("https://example.com/2".to_string()));
    assert_eq!(queue.take(), Some("https://example.com/1".to_string()));
    assert_eq!(queue.take(), None);
}

#[test]
fn crawler_queue_add_drops_what_was_seen() {
    let mut queue = UrlQueue::new("https://example.com/1".to_string());
    let mut urls = vec![
        "https://example.com/1".to_string(),
        "https://example.com/2".to_string(),
        "https://example.com/2".to_string(),
    ];
    queue.add(&mut urls);
    assert!(urls.is_empty());
    assert_eq!(queue.take(), Some("https://example.com/2".to_string()));
    assert_eq!(queue.take(), Some("https://example.com/1".to_string()));

    let mut again = vec!["https://example.com/2".to_string()];
    queue.add(&mut again);
    assert!(again.is_empty());
    assert_eq!(queue.take(), None);
}

#[test]
fn crawler_queue_add_of_an_empty_list() {
    let mut queue = UrlQueue::new("https://example.com/1".to_string());
    let mut urls: Vec<String> = Vec::new();
    queue.add(&mut urls);
    assert!(urls.is_empty());
    assert_eq!(queue.take(), Some("https://example.com/1".to_string()));
    assert_eq!(queue.take(), None);
}

#[test]
fn crawler_is_made_from_config_and_start_url() {
    let settings = config(vec!["https://example.com/*".to_string()]);
    assert_eq!(settings.validate(), Ok(()));
    let _crawler: Crawler = Crawler::new(settings, "https://example.com".to_string());
}
