//! A crawl run: its configuration and the frontier it starts from.

use crate::frontier::{law_seeded_with_one, Frontier};
use std::sync::Arc;
use vstd::prelude::*;
use vstd::string::StringExecFns;

verus! {

/// The settings of a crawl run. They are fixed before the run starts and shared, never
/// changed, while it lasts.
pub struct CrawlerConfig {
    /// The maximum number of pages allowed to be crawled per second.
    pub rate_limit: u64,
    /// The URL patterns that are allowed to be crawled. A run needs at least one.
    pub allow_urls: Vec<String>,
    /// The URL patterns that are not allowed to be crawled. They take priority over the
    /// allowed ones.
    pub disallow_urls: Vec<String>,
    /// The number of workers.
    pub thread_count: u64,
}

/// Why a configuration cannot start a crawl run.
#[derive(Debug, Clone, Copy, PartialEq, Eq, Structural)]
pub enum ConfigError {
    /// No URL pattern is allowed, so no page could ever be crawled.
    NoAllowUrls,
}

impl ConfigError {
    /// The message shown to the user.
    pub fn message(&self) -> (text: String)
        ensures
            text@ == "error: there must be at least 1 allow url"@,
    {
        match self {
            ConfigError::NoAllowUrls => String::from_str(
                "error: there must be at least 1 allow url",
            ),
        }
    }
}

impl CrawlerConfig {
    /// Whether a crawl run can start with these settings: at least one URL pattern is
    /// allowed.
    pub open spec fn runnable(&self) -> bool {
        self.allow_urls@.len() > 0
    }

    /// Checks the settings before any crawling starts.
    pub fn validate(&self) -> (checked: Result<(), ConfigError>)
        ensures
            checked is Ok <==> self.runnable(),
            checked is Err ==> checked == Err::<(), ConfigError>(ConfigError::NoAllowUrls),
    {
        if self.allow_urls.len() == 0 {
            Err(ConfigError::NoAllowUrls)
        } else {
            Ok(())
        }
    }
}

/// The frontier of one crawl run, seeded with the URL at which the run starts.
///
/// It is a [`crate::url_queue::UrlQueue`] under the interface that the workers of a run
/// use: they hand over the links of a page in a list of their own, which `add` empties.
pub struct UrlQueue {
    frontier: crate::url_queue::UrlQueue,
}

impl View for UrlQueue {
    type V = Frontier;

    closed spec fn view(&self) -> Frontier {
        self.frontier@
    }
}

impl UrlQueue {
    /// Creates the queue of a run that starts at `start_url`: the start URL waits, and
    /// it is the only URL seen.
    pub fn new(start_url: String) -> (queue: Self)
        ensures
            queue@ == Frontier::seeded(seq![start_url@]),
            queue@.pending == seq![start_url@],
            queue@.seen == set![start_url@],
            queue@.wf(),
    {
        let mut start_urls: Vec<String> = Vec::new();
        let ghost seed = start_url@;
        start_urls.push(start_url);
        proof {
            assert(start_urls.deep_view() == seq![seed]);
            law_seeded_with_one(seed);
        }
        UrlQueue { frontier: crate::url_queue::UrlQueue::new(start_urls) }
    }

    /// Adds a list of urls to the queue and leaves the list empty. A URL that the queue
    /// has seen before is dropped.
    pub fn add(&mut self, urls: &mut Vec<String>)
        ensures
            final(self)@ == old(self)@.push(old(urls).deep_view()),
            final(self)@.wf(),
            final(urls)@ == Seq::<String>::empty(),
    {
        let mut batch: Vec<String> = Vec::new();
        core::mem::swap(&mut batch, urls);
        self.frontier.push(batch);
    }

    /// Takes the most recently added URL that still waits, if there is one.
    pub fn take(&mut self) -> (url: Option<String>)
        ensures
            url.deep_view() == old(self)@.next(),
            final(self)@ == old(self)@.rest(),
            final(self)@.wf(),
    {
        self.frontier.take()
    }
}

/// A crawl run that is ready to start.
pub struct Crawler {
    config: Arc<CrawlerConfig>,
    /// These URLs have already been validated against the allowed and disallowed
    /// patterns of the configuration.
    urls: UrlQueue,
}

impl Crawler {
    /// The settings of the run.
    pub closed spec fn config(&self) -> CrawlerConfig {
        *self.config
    }

    /// The frontier of the run.
    pub closed spec fn frontier(&self) -> Frontier {
        self.urls@
    }

    /// Sets up a run with the given settings: its frontier holds the start URL and
    /// nothing else.
    pub fn new(config: CrawlerConfig, start_url: String) -> (crawler: Self)
        ensures
            crawler.config() == config,
            crawler.frontier() == Frontier::seeded(seq![start_url@]),
            crawler.frontier().pending == seq![start_url@],
            crawler.frontier().seen == set![start_url@],
    {
        Crawler { config: Arc::new(config), urls: UrlQueue::new(start_url) }
    }
}

} // verus!
