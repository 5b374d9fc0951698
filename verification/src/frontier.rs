//! The mathematical model of a crawl frontier.
//!
//! A URL is an opaque, already-normalized string: two URLs are the same URL exactly when
//! they are the same sequence of characters.

use vstd::prelude::*;

verus! {

/// The state of a crawl frontier: the URLs that wait to be fetched, and every URL that
/// ever waited.
#[verifier::ext_equal]
pub struct Frontier {
    /// The URLs not yet fetched, oldest first. The last one is the next to be taken.
    pub pending: Seq<Seq<char>>,
    /// Every URL that was ever appended to `pending`, whether it still waits or not.
    pub seen: Set<Seq<char>>,
}

/// The URLs of a batch that are new to a frontier that has seen `seen`: those that are
/// not in `seen` and stand at no earlier place of the batch, in the order of the batch.
pub open spec fn fresh(seen: Set<Seq<char>>, urls: Seq<Seq<char>>) -> Seq<Seq<char>>
    decreases urls.len(),
{
    if urls.len() == 0 {
        Seq::empty()
    } else {
        let earlier = urls.drop_last();
        let url = urls.last();
        if seen.contains(url) || earlier.contains(url) {
            fresh(seen, earlier)
        } else {
            fresh(seen, earlier).push(url)
        }
    }
}

/// Whether the URL at `place` of a batch stands there for the first time.
pub open spec fn first_at(urls: Seq<Seq<char>>, place: int) -> bool {
    &&& 0 <= place < urls.len()
    &&& forall|k: int| 0 <= k < place ==> urls[k] != urls[place]
}

impl Frontier {
    /// Every pending URL has been seen, no URL is pending twice, and only finitely many
    /// URLs have been seen.
    pub open spec fn wf(self) -> bool {
        &&& self.seen.finite()
        &&& self.pending.no_duplicates()
        &&& forall|i: int|
            0 <= i < self.pending.len() ==> self.seen.contains(#[trigger] self.pending[i])
    }

    /// The frontier that holds nothing and has seen nothing.
    pub open spec fn empty() -> Frontier {
        Frontier { pending: Seq::empty(), seen: Set::empty() }
    }

    /// The frontier at the start of a run: each distinct seed is pending once, in the
    /// order in which the seeds first occur, and exactly the seeds have been seen.
    pub open spec fn seeded(seeds: Seq<Seq<char>>) -> Frontier {
        Frontier { pending: fresh(Set::empty(), seeds), seen: seeds.to_set() }
    }

    /// The frontier after one URL was offered to it: a URL seen before is dropped, any
    /// other is appended to the pending URLs and recorded as seen.
    pub open spec fn offer(self, url: Seq<char>) -> Frontier {
        if self.seen.contains(url) {
            self
        } else {
            Frontier { pending: self.pending.push(url), seen: self.seen.insert(url) }
        }
    }

    /// The frontier after a batch of URLs was pushed: the new URLs of the batch are
    /// appended in the order of the batch, and every URL of the batch is seen.
    pub open spec fn push(self, urls: Seq<Seq<char>>) -> Frontier {
        Frontier {
            pending: self.pending + fresh(self.seen, urls),
            seen: self.seen.union(urls.to_set()),
        }
    }

    /// The URL that a take returns: the most recently appended pending URL, if any.
    pub open spec fn next(self) -> Option<Seq<char>> {
        if self.pending.len() == 0 {
            None
        } else {
            Some(self.pending.last())
        }
    }

    /// The frontier after a take: the most recently appended pending URL is gone, and
    /// nothing is forgotten.
    pub open spec fn rest(self) -> Frontier {
        if self.pending.len() == 0 {
            self
        } else {
            Frontier { pending: self.pending.drop_last(), seen: self.seen }
        }
    }

    /// The URLs that `n` takes in a row return, in the order in which they come out.
    /// A take on an empty frontier returns nothing, and so do all takes after it.
    pub open spec fn taken(self, n: nat) -> Seq<Seq<char>>
        decreases n,
    {
        if n == 0 || self.pending.len() == 0 {
            Seq::empty()
        } else {
            seq![self.pending.last()] + self.rest().taken((n - 1) as nat)
        }
    }
}

/// Pushing a batch is the same as offering its URLs one at a time, in order.
pub proof fn lemma_push_step(s: Frontier, urls: Seq<Seq<char>>)
    requires
        urls.len() > 0,
    ensures
        s.push(urls) == s.push(urls.drop_last()).offer(urls.last()),
{
    let earlier = urls.drop_last();
    let url = urls.last();
    assert(urls == earlier.push(url));
    earlier.lemma_push_to_set_commute(url);
    assert(earlier.to_set().contains(url) <==> earlier.contains(url));
    let before = s.push(earlier);
    assert(before.seen.contains(url) <==> (s.seen.contains(url) || earlier.contains(url)));
    if before.seen.contains(url) {
        assert(s.seen.union(urls.to_set()) =~= before.seen);
    } else {
        assert(s.seen.union(urls.to_set()) =~= before.seen.insert(url));
        assert(s.pending + fresh(s.seen, earlier).push(url) =~= before.pending.push(url));
    }
}

/// Pushing no URL changes nothing.
pub proof fn lemma_push_nothing(s: Frontier)
    ensures
        s.push(Seq::empty()) == s,
{
    assert(Seq::<Seq<char>>::empty().to_set() =~= Set::empty());
    assert(s.seen.union(Set::empty()) =~= s.seen);
    assert(s.pending + Seq::<Seq<char>>::empty() =~= s.pending);
}

/// A URL is among the new URLs of a batch exactly when it is in the batch and was not
/// seen before.
pub proof fn lemma_fresh_contains(seen: Set<Seq<char>>, urls: Seq<Seq<char>>)
    ensures
        forall|url: Seq<char>| #[trigger]
            fresh(seen, urls).contains(url) <==> urls.contains(url) && !seen.contains(url),
    decreases urls.len(),
{
    if urls.len() > 0 {
        let earlier = urls.drop_last();
        let last = urls.last();
        lemma_fresh_contains(seen, earlier);
        assert forall|url: Seq<char>| #[trigger]
            fresh(seen, urls).contains(url) <==> urls.contains(url) && !seen.contains(url) by {
            lemma_contains_last(urls, url);
            let before = fresh(seen, earlier);
            if !(seen.contains(last) || earlier.contains(last)) {
                lemma_contains_last(before.push(last), url);
                assert(before.push(last).drop_last() == before);
            }
        }
    }
}

/// A URL is in a non-empty sequence exactly when it is its last element or stands
/// before the last element.
proof fn lemma_contains_last(urls: Seq<Seq<char>>, url: Seq<char>)
    requires
        urls.len() > 0,
    ensures
        urls.contains(url) <==> urls.drop_last().contains(url) || urls.last() == url,
{
    let earlier = urls.drop_last();
    if urls.contains(url) {
        let i = choose|i: int| 0 <= i < urls.len() && urls[i] == url;
        if i < earlier.len() {
            assert(earlier[i] == url);
        }
    }
    if earlier.contains(url) {
        let i = choose|i: int| 0 <= i < earlier.len() && earlier[i] == url;
        assert(urls[i] == url);
    }
    assert(urls[urls.len() - 1] == urls.last());
}

/// No URL stands twice among the new URLs of a batch.
pub proof fn lemma_fresh_no_duplicates(seen: Set<Seq<char>>, urls: Seq<Seq<char>>)
    ensures
        fresh(seen, urls).no_duplicates(),
    decreases urls.len(),
{
    if urls.len() > 0 {
        let earlier = urls.drop_last();
        let last = urls.last();
        lemma_fresh_no_duplicates(seen, earlier);
        lemma_fresh_contains(seen, earlier);
        let before = fresh(seen, earlier);
        if !(seen.contains(last) || earlier.contains(last)) {
            assert(!before.contains(last));
            assert forall|i: int, j: int|
                0 <= i < j < before.push(last).len() implies before.push(last)[i]
                != before.push(last)[j] by {
                if j == before.len() {
                    assert(before.contains(before[i]));
                }
            }
        }
    }
}

/// The new URLs of a batch stand in the order of the batch: of two of them, the one
/// that comes first among the new URLs is also the one whose first place in the batch
/// is the earlier.
pub proof fn law_fresh_in_batch_order(
    seen: Set<Seq<char>>,
    urls: Seq<Seq<char>>,
    i: int,
    j: int,
)
    requires
        0 <= i < j < fresh(seen, urls).len(),
    ensures
        exists|p: int, q: int|
            p < q && #[trigger] first_at(urls, p) && #[trigger] first_at(urls, q) && urls[p]
                == fresh(seen, urls)[i] && urls[q] == fresh(seen, urls)[j],
    decreases urls.len(),
{
    let earlier = urls.drop_last();
    let last = urls.last();
    let before = fresh(seen, earlier);
    if j < before.len() {
        law_fresh_in_batch_order(seen, earlier, i, j);
        let (p, q) = choose|p: int, q: int|
            p < q && #[trigger] first_at(earlier, p) && #[trigger] first_at(earlier, q)
                && earlier[p] == before[i] && earlier[q] == before[j];
        lemma_first_at_kept(urls, p);
        lemma_first_at_kept(urls, q);
    } else {
        lemma_fresh_contains(seen, earlier);
        assert(before.contains(before[i]));
        earlier.index_of_first_ensures(before[i]);
        let p = earlier.index_of_first(before[i]).unwrap();
        let q = urls.len() - 1;
        lemma_first_at_kept(urls, p);
        assert(first_at(urls, q)) by {
            assert forall|k: int| 0 <= k < q implies urls[k] != urls[q] by {
                assert(earlier[k] == urls[k]);
            }
        }
    }
}

/// A URL that stands at a place for the first time still does so when the batch grows
/// at its end.
proof fn lemma_first_at_kept(urls: Seq<Seq<char>>, place: int)
    requires
        urls.len() > 0,
        first_at(urls.drop_last(), place),
    ensures
        first_at(urls, place),
        urls[place] == urls.drop_last()[place],
{
    let earlier = urls.drop_last();
    assert forall|k: int| 0 <= k < place implies urls[k] != urls[place] by {
        assert(earlier[k] != earlier[place]);
    }
}

/// The new URLs of two batches in a row are the new URLs of the two batches joined.
pub proof fn lemma_fresh_concat(seen: Set<Seq<char>>, a: Seq<Seq<char>>, b: Seq<Seq<char>>)
    ensures
        fresh(seen, a + b) == fresh(seen, a) + fresh(seen.union(a.to_set()), b),
    decreases b.len(),
{
    if b.len() == 0 {
        assert(a + b == a);
        assert(fresh(seen, a) + Seq::<Seq<char>>::empty() == fresh(seen, a));
    } else {
        let last = b.last();
        let joined = a + b;
        assert(joined.drop_last() == a + b.drop_last());
        assert(joined.last() == last);
        lemma_fresh_concat(seen, a, b.drop_last());
        assert((a + b.drop_last()).contains(last) <==> a.contains(last) || b.drop_last().contains(
            last,
        )) by {
            vstd::seq_lib::lemma_seq_concat_contains_all_elements(a, b.drop_last(), last);
        }
        assert(a.to_set().contains(last) <==> a.contains(last));
        let left = fresh(seen, a);
        let right = fresh(seen.union(a.to_set()), b.drop_last());
        if !(seen.contains(last) || joined.drop_last().contains(last)) {
            assert((left + right).push(last) == left + right.push(last));
        }
    }
}

/// A batch in which no URL stands twice and none was seen before is new as a whole.
pub proof fn lemma_fresh_all_new(seen: Set<Seq<char>>, urls: Seq<Seq<char>>)
    requires
        urls.no_duplicates(),
        forall|i: int| 0 <= i < urls.len() ==> !seen.contains(#[trigger] urls[i]),
    ensures
        fresh(seen, urls) == urls,
    decreases urls.len(),
{
    if urls.len() > 0 {
        let earlier = urls.drop_last();
        let last = urls.last();
        lemma_fresh_all_new(seen, earlier);
        assert(!seen.contains(urls[urls.len() - 1]));
        if earlier.contains(last) {
            let i = choose|i: int| 0 <= i < earlier.len() && earlier[i] == last;
            assert(urls[i] == urls[urls.len() - 1]);
        }
        assert(earlier.push(last) == urls);
    } else {
        assert(urls == Seq::<Seq<char>>::empty());
    }
}

/// A batch of URLs that were all seen before holds no new URL.
pub proof fn lemma_fresh_all_seen(seen: Set<Seq<char>>, urls: Seq<Seq<char>>)
    requires
        forall|i: int| 0 <= i < urls.len() ==> seen.contains(#[trigger] urls[i]),
    ensures
        fresh(seen, urls) == Seq::<Seq<char>>::empty(),
    decreases urls.len(),
{
    if urls.len() > 0 {
        lemma_fresh_all_seen(seen, urls.drop_last());
        assert(seen.contains(urls[urls.len() - 1]));
    }
}

/// Seeding is the first push: a frontier seeded with some URLs is the empty frontier
/// after a push of them.
pub proof fn law_seeded_is_first_push(seeds: Seq<Seq<char>>)
    ensures
        Frontier::seeded(seeds) == Frontier::empty().push(seeds),
{
    let empty = Frontier::empty();
    assert(empty.seen.union(seeds.to_set()) =~= seeds.to_set());
    assert(empty.pending + fresh(empty.seen, seeds) =~= fresh(Set::empty(), seeds));
}

/// A frontier seeded with one URL holds that URL and nothing else.
pub proof fn law_seeded_with_one(url: Seq<char>)
    ensures
        Frontier::seeded(seq![url]).pending == seq![url],
        Frontier::seeded(seq![url]).seen == set![url],
{
    lemma_fresh_all_new(Set::empty(), seq![url]);
    assert(seq![url].to_set() =~= set![url]) by {
        assert(seq![url][0] == url);
    }
}

/// The invariant of the frontier holds at the start and after every operation: every
/// pending URL has been seen, and none is pending twice.
pub proof fn law_invariant_kept(s: Frontier, seeds: Seq<Seq<char>>, urls: Seq<Seq<char>>)
    ensures
        Frontier::empty().wf(),
        Frontier::seeded(seeds).wf(),
        s.wf() ==> s.push(urls).wf(),
        s.wf() ==> s.rest().wf(),
{
    broadcast use vstd::seq_lib::seq_to_set_is_finite;

    lemma_push_keeps_wf(Frontier::empty(), seeds);
    law_seeded_is_first_push(seeds);
    if s.wf() {
        lemma_push_keeps_wf(s, urls);
        if s.pending.len() > 0 {
            let shorter = s.pending.drop_last();
            assert forall|i: int, j: int| 0 <= i < j < shorter.len() implies shorter[i]
                != shorter[j] by {
                assert(s.pending[i] != s.pending[j]);
            }
        }
    }
}

/// A push keeps the invariant of the frontier.
proof fn lemma_push_keeps_wf(s: Frontier, urls: Seq<Seq<char>>)
    requires
        s.wf(),
    ensures
        s.push(urls).wf(),
{
    broadcast use vstd::seq_lib::seq_to_set_is_finite;

    let new = fresh(s.seen, urls);
    let after = s.push(urls);
    vstd::set_lib::lemma_set_union_finite_iff(s.seen, urls.to_set());
    lemma_fresh_contains(s.seen, urls);
    lemma_fresh_no_duplicates(s.seen, urls);
    assert forall|i: int, j: int| 0 <= i < s.pending.len() && 0 <= j < new.len() implies
        s.pending[i] != new[j] by {
        assert(new.contains(new[j]));
    }
    vstd::seq_lib::lemma_no_dup_in_concat(s.pending, new);
    assert forall|i: int| 0 <= i < after.pending.len() implies after.seen.contains(
        #[trigger] after.pending[i],
    ) by {
        if i >= s.pending.len() {
            assert(new.contains(new[i - s.pending.len()]));
        }
    }
}

/// Nothing is ever forgotten: what was seen stays seen, whatever is pushed or taken.
pub proof fn law_seen_only_grows(s: Frontier, urls: Seq<Seq<char>>)
    ensures
        s.seen.subset_of(s.push(urls).seen),
        s.rest().seen == s.seen,
        forall|i: int| 0 <= i < urls.len() ==> s.push(urls).seen.contains(#[trigger] urls[i]),
{
    assert forall|i: int| 0 <= i < urls.len() implies s.push(urls).seen.contains(
        #[trigger] urls[i],
    ) by {
        assert(urls.contains(urls[i]));
    }
}

/// Pushing two batches in a row is the same as pushing them joined into one.
pub proof fn law_push_concat(s: Frontier, a: Seq<Seq<char>>, b: Seq<Seq<char>>)
    ensures
        s.push(a).push(b) == s.push(a + b),
{
    lemma_fresh_concat(s.seen, a, b);
    assert((a + b).to_set() =~= a.to_set().union(b.to_set())) by {
        assert forall|url: Seq<char>|
            (a + b).to_set().contains(url) <==> a.to_set().contains(url) || b.to_set().contains(
                url,
            ) by {
            vstd::seq_lib::lemma_seq_concat_contains_all_elements(a, b, url);
        }
    }
    assert(s.seen.union(a.to_set()).union(b.to_set()) =~= s.seen.union((a + b).to_set()));
    assert(s.pending + fresh(s.seen, a) + fresh(s.seen.union(a.to_set()), b) =~= s.pending + (
    fresh(s.seen, a) + fresh(s.seen.union(a.to_set()), b)));
}

/// Pushing URLs that were all seen before changes nothing: the pending URLs, their
/// number and what was seen stay as they were.
pub proof fn law_push_seen_changes_nothing(s: Frontier, urls: Seq<Seq<char>>)
    requires
        forall|i: int| 0 <= i < urls.len() ==> s.seen.contains(#[trigger] urls[i]),
    ensures
        s.push(urls) == s,
        s.push(urls).pending.len() == s.pending.len(),
{
    lemma_fresh_all_seen(s.seen, urls);
    assert(s.seen.union(urls.to_set()) =~= s.seen);
    assert(s.pending + Seq::<Seq<char>>::empty() =~= s.pending);
}

/// Pushing one URL that was seen before changes nothing.
pub proof fn law_push_seen_url_changes_nothing(s: Frontier, url: Seq<char>)
    requires
        s.seen.contains(url),
    ensures
        s.push(seq![url]) == s,
        s.offer(url) == s,
{
    law_push_seen_changes_nothing(s, seq![url]);
}

/// Pushing the same batch a second time changes nothing.
pub proof fn law_push_again_changes_nothing(s: Frontier, urls: Seq<Seq<char>>)
    ensures
        s.push(urls).push(urls) == s.push(urls),
{
    law_seen_only_grows(s, urls);
    law_push_seen_changes_nothing(s.push(urls), urls);
}

/// Takes return the pending URLs from the back: `n` takes in a row return the last `n`
/// pending URLs, the most recently appended first, or all of them if there are fewer.
pub proof fn law_taken_in_reverse(s: Frontier, n: nat)
    ensures
        s.taken(n) == s.pending.reverse().take(
            if n <= s.pending.len() {
                n as int
            } else {
                s.pending.len() as int
            },
        ),
    decreases n,
{
    let len = s.pending.len();
    if n == 0 || len == 0 {
        assert(s.pending.reverse().take(0) == Seq::<Seq<char>>::empty());
    } else {
        let rest = s.rest();
        law_taken_in_reverse(rest, (n - 1) as nat);
        let k = if n <= len { n as int } else { len as int };
        let shorter = rest.pending.reverse().take(k - 1);
        assert(rest.taken((n - 1) as nat) == shorter);
        assert(seq![s.pending.last()] + shorter =~= s.pending.reverse().take(k));
    }
}

/// Last in, first out. After a batch was pushed, takes first return the new URLs of
/// that batch, the last one first, and only then what waited before the push, again the
/// most recently appended first.
pub proof fn law_lifo(s: Frontier, urls: Seq<Seq<char>>, n: nat)
    ensures
        n <= fresh(s.seen, urls).len() ==> s.push(urls).taken(n) == fresh(
            s.seen,
            urls,
        ).reverse().take(n as int),
        n >= fresh(s.seen, urls).len() ==> s.push(urls).taken(n) == fresh(
            s.seen,
            urls,
        ).reverse() + s.taken((n - fresh(s.seen, urls).len()) as nat),
{
    let new = fresh(s.seen, urls);
    let after = s.push(urls);
    law_taken_in_reverse(after, n);
    law_taken_in_reverse(s, (n - new.len()) as nat);
    assert(after.pending.reverse() =~= new.reverse() + s.pending.reverse());
    if n <= new.len() {
        assert(after.pending.reverse().take(n as int) =~= new.reverse().take(n as int));
    } else {
        let k = if n <= after.pending.len() { n as int } else { after.pending.len() as int };
        assert(after.pending.reverse().take(k) =~= new.reverse() + s.pending.reverse().take(
            k - new.len(),
        ));
    }
    if n == new.len() {
        assert(new.reverse().take(n as int) =~= new.reverse());
        assert(s.taken(0) == Seq::<Seq<char>>::empty());
        assert(new.reverse() + Seq::<Seq<char>>::empty() =~= new.reverse());
    }
}

/// Last in, first out, for a batch of URLs that are all new and all different: as many
/// takes as the batch has URLs return the batch in reverse order.
pub proof fn law_lifo_new_batch(s: Frontier, urls: Seq<Seq<char>>)
    requires
        urls.no_duplicates(),
        forall|i: int| 0 <= i < urls.len() ==> !s.seen.contains(#[trigger] urls[i]),
    ensures
        s.push(urls).taken(urls.len()) == urls.reverse(),
{
    lemma_fresh_all_new(s.seen, urls);
    law_lifo(s, urls, urls.len());
    assert(urls.reverse().take(urls.len() as int) == urls.reverse());
}

/// Last in, first out, for two pushes in a row: emptying the frontier returns the new
/// URLs of the second batch in reverse order, then those of the first batch in reverse
/// order, then what waited before in reverse order.
pub proof fn law_lifo_two_pushes(s: Frontier, first: Seq<Seq<char>>, second: Seq<Seq<char>>)
    ensures
        s.push(first).push(second).taken(s.push(first).push(second).pending.len()) == fresh(
            s.seen.union(first.to_set()),
            second,
        ).reverse() + fresh(s.seen, first).reverse() + s.pending.reverse(),
{
    let a = fresh(s.seen, first);
    let b = fresh(s.seen.union(first.to_set()), second);
    let after = s.push(first).push(second);
    law_taken_in_reverse(after, after.pending.len());
    assert(after.pending.reverse().take(after.pending.len() as int) =~= after.pending.reverse());
    assert(after.pending.reverse() =~= b.reverse() + a.reverse() + s.pending.reverse());
}

} // verus!
