//! The crawl frontier as a data structure.

use crate::frontier::{law_seeded_is_first_push, lemma_push_nothing, lemma_push_step, Frontier};
use vstd::hash_set::StringHashSet;
use vstd::prelude::*;

verus! {

/// A last-in-first-out queue of URLs that remembers every URL it ever held, so that
/// each distinct URL is queued exactly once, whether it comes as a starting URL or in a
/// later push.
///
/// Both collections live in one value and change only through `push` and `take`, each
/// of which needs exclusive access: whoever shares a queue between workers has to put
/// the whole queue behind a single lock, and one call is one critical section.
pub struct UrlQueue {
    queue: Vec<String>,
    seen: StringHashSet,
}

impl View for UrlQueue {
    type V = Frontier;

    closed spec fn view(&self) -> Frontier {
        Frontier { pending: self.queue.deep_view(), seen: self.seen@ }
    }
}

impl UrlQueue {
    #[verifier::type_invariant]
    spec fn inv(self) -> bool {
        self@.wf()
    }

    /// Create a new queue with any number of starting URLs.
    ///
    /// Each distinct starting URL waits once, in the order in which the URLs are first
    /// given, the last one to be taken first. All of them count as seen.
    pub fn new(start_urls: Vec<String>) -> (queue: Self)
        ensures
            queue@ == Frontier::seeded(start_urls.deep_view()),
            queue@.wf(),
    {
        let queued: Vec<String> = Vec::new();
        let mut queue = UrlQueue { queue: queued, seen: StringHashSet::new() };
        proof {
            assert(queue@ == Frontier::empty());
            law_seeded_is_first_push(start_urls.deep_view());
        }
        queue.push(start_urls);
        queue
    }

    /// Adds a list of URLs to the back of the queue and keeps track of which ones have
    /// been seen. A URL that was seen before, in this call or in an earlier one, is
    /// dropped: every URL that is added is new.
    pub fn push(&mut self, urls: Vec<String>)
        ensures
            final(self)@ == old(self)@.push(urls.deep_view()),
            final(self)@.wf(),
    {
        proof {
            use_type_invariant(&*self);
            lemma_push_nothing(self@);
            assert(urls.deep_view().take(0) == Seq::<Seq<char>>::empty());
        }
        let mut queue: Vec<String> = Vec::new();
        let mut seen = StringHashSet::new();
        core::mem::swap(&mut queue, &mut self.queue);
        core::mem::swap(&mut seen, &mut self.seen);
        let ghost all = urls@;
        let ghost batch = urls.deep_view();
        for url in it: urls
            invariant
                it.seq() == all,
                batch.len() == all.len(),
                forall|k: int| 0 <= k < all.len() ==> batch[k] == (#[trigger] all[k])@,
                (Frontier { pending: queue.deep_view(), seen: seen@ }).wf(),
                (Frontier { pending: queue.deep_view(), seen: seen@ }) == old(self)@.push(
                    batch.take(it.index() as int),
                ),
        {
            proof {
                let done = batch.take(it.index() + 1);
                assert(done.drop_last() == batch.take(it.index() as int));
                assert(done.last() == url@);
                lemma_push_step(old(self)@, done);
            }
            if !seen.contains(url.as_str()) {
                let ghost pending = queue.deep_view();
                queue.push(url.clone());
                seen.insert(url);
                proof {
                    assert(queue.deep_view() == pending.push(url@));
                }
            }
        }
        proof {
            assert(batch.take(batch.len() as int) == batch);
        }
        self.seen = seen;
        self.queue = queue;
    }

    /// Take a single URL off the back of the queue: the most recently added URL that
    /// still waits. Returns `None` if the queue is empty.
    pub fn take(&mut self) -> (url: Option<String>)
        ensures
            url.deep_view() == old(self)@.next(),
            final(self)@ == old(self)@.rest(),
            final(self)@.wf(),
    {
        proof {
            use_type_invariant(&*self);
        }
        let mut queue: Vec<String> = Vec::new();
        core::mem::swap(&mut queue, &mut self.queue);
        let url = queue.pop();
        proof {
            if old(self)@.pending.len() > 0 {
                assert(queue.deep_view() == old(self)@.pending.drop_last());
            }
        }
        self.queue = queue;
        url
    }
}

} // verus!
