//! Whole runs of a frontier: any sequence of pushes and takes after the seeding, and
//! what holds of the URLs that come out of it.

use crate::frontier::{fresh, law_invariant_kept, lemma_fresh_contains, Frontier};
use vstd::prelude::*;

verus! {

/// One call on a frontier.
pub enum Call {
    /// A push of a batch of URLs.
    Push { urls: Seq<Seq<char>> },
    /// A take.
    Take,
}

/// What a run has come to: the frontier, what the takes returned, and what was supplied.
pub struct Run {
    /// The frontier after the last call.
    pub frontier: Frontier,
    /// The URLs that the takes of the run returned, in the order in which they came out.
    pub taken: Seq<Seq<char>>,
    /// Every URL that was supplied to the run, as a seed or in a push.
    pub supplied: Set<Seq<char>>,
}

impl Run {
    /// The run that has only been seeded.
    pub open spec fn start(seeds: Seq<Seq<char>>) -> Run {
        Run { frontier: Frontier::seeded(seeds), taken: Seq::empty(), supplied: seeds.to_set() }
    }

    /// The run after one more call.
    pub open spec fn step(self, call: Call) -> Run {
        match call {
            Call::Push { urls } => Run {
                frontier: self.frontier.push(urls),
                taken: self.taken,
                supplied: self.supplied.union(urls.to_set()),
            },
            Call::Take => Run {
                frontier: self.frontier.rest(),
                taken: match self.frontier.next() {
                    Some(url) => self.taken.push(url),
                    None => self.taken,
                },
                supplied: self.supplied,
            },
        }
    }

    /// The run that was seeded with `seeds` and then made `calls`, in that order.
    pub open spec fn of(seeds: Seq<Seq<char>>, calls: Seq<Call>) -> Run
        decreases calls.len(),
    {
        if calls.len() == 0 {
            Run::start(seeds)
        } else {
            Run::of(seeds, calls.drop_last()).step(calls.last())
        }
    }

    /// Every supplied URL either waits or was taken, never both and never twice, and
    /// the frontier has seen exactly what was supplied.
    pub open spec fn balanced(self) -> bool {
        let pending = self.frontier.pending;
        &&& self.frontier.wf()
        &&& self.frontier.seen == self.supplied
        &&& self.taken.no_duplicates()
        &&& forall|url: Seq<char>|
            #![trigger pending.contains(url)]
            #![trigger self.taken.contains(url)]
            !(pending.contains(url) && self.taken.contains(url))
        &&& forall|url: Seq<char>|
            #![trigger self.supplied.contains(url)]
            #![trigger pending.contains(url)]
            #![trigger self.taken.contains(url)]
            self.supplied.contains(url) <==> pending.contains(url) || self.taken.contains(url)
    }
}

/// A run is balanced after every call, whatever its seeds and calls are.
pub proof fn lemma_run_balanced(seeds: Seq<Seq<char>>, calls: Seq<Call>)
    ensures
        Run::of(seeds, calls).balanced(),
    decreases calls.len(),
{
    if calls.len() == 0 {
        law_invariant_kept(Frontier::seeded(seeds), seeds, seeds);
        lemma_fresh_contains(Set::empty(), seeds);
    } else {
        lemma_run_balanced(seeds, calls.drop_last());
        lemma_step_balanced(Run::of(seeds, calls.drop_last()), calls.last());
    }
}

/// One call keeps a run balanced.
pub proof fn lemma_step_balanced(run: Run, call: Call)
    requires
        run.balanced(),
    ensures
        run.step(call).balanced(),
{
    let pending = run.frontier.pending;
    let after = run.step(call);
    match call {
        Call::Push { urls } => {
            let new = fresh(run.frontier.seen, urls);
            law_invariant_kept(run.frontier, urls, urls);
            lemma_fresh_contains(run.frontier.seen, urls);
            assert forall|url: Seq<char>|
                (pending + new).contains(url) <==> pending.contains(url) || new.contains(url) by {
                vstd::seq_lib::lemma_seq_concat_contains_all_elements(pending, new, url);
            }
            assert(after.frontier.seen =~= after.supplied);
        },
        Call::Take => {
            law_invariant_kept(run.frontier, pending, pending);
            if pending.len() > 0 {
                let url = pending.last();
                let shorter = pending.drop_last();
                assert(pending == shorter.push(url));
                assert forall|other: Seq<char>|
                    pending.contains(other) <==> shorter.contains(other) || other == url by {
                    vstd::seq_lib::lemma_seq_contains_after_push(shorter, url, other);
                }
                assert forall|other: Seq<char>|
                    run.taken.push(url).contains(other) <==> run.taken.contains(other) || other
                        == url by {
                    vstd::seq_lib::lemma_seq_contains_after_push(run.taken, url, other);
                }
                assert(!shorter.contains(url)) by {
                    if shorter.contains(url) {
                        let i = choose|i: int| 0 <= i < shorter.len() && shorter[i] == url;
                        assert(pending[i] == pending[pending.len() - 1]);
                    }
                }
                assert(!run.taken.contains(url)) by {
                    assert(pending.contains(url));
                }
            }
        },
    }
}

/// Each distinct URL that was ever supplied, as a seed or in any push, comes out of the
/// takes at most once, and nothing comes out that was not supplied. A supplied URL that
/// has not come out yet still waits, so once the frontier is empty each of them has come
/// out exactly once.
pub proof fn law_each_url_taken_once(seeds: Seq<Seq<char>>, calls: Seq<Call>)
    ensures
        ({
            let run = Run::of(seeds, calls);
            &&& run.taken.no_duplicates()
            &&& run.frontier.pending.no_duplicates()
            &&& forall|url: Seq<char>|
                run.supplied.contains(url) <==> (#[trigger] run.taken.contains(url)
                    || run.frontier.pending.contains(url))
            &&& forall|url: Seq<char>|
                !(#[trigger] run.taken.contains(url) && run.frontier.pending.contains(url))
            &&& run.frontier.pending.len() == 0 ==> run.taken.to_set() == run.supplied
        }),
{
    let run = Run::of(seeds, calls);
    lemma_run_balanced(seeds, calls);
    if run.frontier.pending.len() == 0 {
        assert(run.taken.to_set() =~= run.supplied);
    }
}

/// What the next take of a run returns: a URL that was supplied and that no earlier take
/// returned. It returns nothing only when every supplied URL has already come out, each
/// of them exactly once.
pub proof fn law_next_take(seeds: Seq<Seq<char>>, calls: Seq<Call>)
    ensures
        ({
            let run = Run::of(seeds, calls);
            match run.frontier.next() {
                Some(url) => run.supplied.contains(url) && !run.taken.contains(url),
                None => run.taken.no_duplicates() && run.taken.to_set() == run.supplied,
            }
        }),
{
    let run = Run::of(seeds, calls);
    lemma_run_balanced(seeds, calls);
    if run.frontier.pending.len() > 0 {
        assert(run.frontier.pending.contains(run.frontier.pending.last()));
    } else {
        assert(run.taken.to_set() =~= run.supplied);
    }
}

/// Nothing is lost and nothing is doubled: the number of URLs that the takes returned
/// and the number that still wait add up to the number of distinct URLs ever supplied,
/// seeds included. Once the frontier is empty, as many URLs have come out as distinct
/// URLs were supplied.
pub proof fn law_no_loss(seeds: Seq<Seq<char>>, calls: Seq<Call>)
    ensures
        ({
            let run = Run::of(seeds, calls);
            &&& run.supplied.finite()
            &&& run.taken.len() + run.frontier.pending.len() == run.supplied.len()
            &&& run.frontier.pending.len() == 0 ==> run.taken.len() == run.supplied.len()
        }),
{
    let run = Run::of(seeds, calls);
    let pending = run.frontier.pending;
    lemma_run_balanced(seeds, calls);
    assert forall|i: int, j: int| 0 <= i < pending.len() && 0 <= j < run.taken.len() implies
        pending[i] != run.taken[j] by {
        assert(pending.contains(pending[i]));
        assert(run.taken.contains(run.taken[j]));
    }
    vstd::seq_lib::lemma_no_dup_in_concat(pending, run.taken);
    (pending + run.taken).unique_seq_to_set();
    assert((pending + run.taken).to_set() =~= run.supplied) by {
        assert forall|url: Seq<char>|
            (pending + run.taken).contains(url) <==> pending.contains(url) || run.taken.contains(
                url,
            ) by {
            vstd::seq_lib::lemma_seq_concat_contains_all_elements(pending, run.taken, url);
        }
    }
}

} // verus!
