//! The walk over a document's pages, one page outcome at a time.

use vstd::prelude::*;
use crate::report::{lemma_report_unique, lines_view, Report};
use crate::tagging::{adjective_occurrences, adjective_total, TaggedWord};
use crate::word_map::WordMap;

verus! {

/// What became of one page.
pub enum PageEvent {
    /// The page itself could not be read: the walk stops here.
    ReadFailed,
    /// No text could be extracted from the page: it is skipped.
    ExtractFailed,
    /// The tagger failed on the page's text: it is skipped.
    TagFailed,
    /// The tagger's output for the page's text.
    Tagged(Vec<TaggedWord>),
}

/// How many times `w` stands as an adjective in the outcome of one page.
pub open spec fn page_occurrences(e: PageEvent, w: Seq<char>) -> nat {
    match e {
        PageEvent::Tagged(v) => adjective_occurrences(v@, w),
        _ => 0,
    }
}

/// How many times `w` is counted by a walk that stops after `limit` pages,
/// where `pages[i]` is the outcome of page `i`: the walk ends at the limit, after
/// the last page, or at the first page that cannot be read.
pub open spec fn walk_occurrences(pages: Seq<PageEvent>, limit: nat, w: Seq<char>) -> nat
    decreases pages.len(),
{
    if pages.len() == 0 || limit == 0 {
        0
    } else {
        match pages[0] {
            PageEvent::ReadFailed => 0,
            _ => page_occurrences(pages[0], w) + walk_occurrences(
                pages.drop_first(),
                (limit - 1) as nat,
                w,
            ),
        }
    }
}

/// The number of pages a walk covers: the smaller of the limit asked for, if
/// any, and the page count.
pub open spec fn effective_limit_spec(page_limit: Option<usize>, page_count: usize) -> nat {
    match page_limit {
        Some(l) => if l < page_count {
            l as nat
        } else {
            page_count as nat
        },
        None => page_count as nat,
    }
}

/// A history of page outcomes ends the walk when its last page could not be read.
pub open spec fn ends_in_read_failure(h: Seq<PageEvent>) -> bool {
    h.len() > 0 && h.last() is ReadFailed
}

/// The number of pages to walk for an optional limit and a page count.
pub fn effective_limit(page_limit: Option<usize>, page_count: usize) -> (r: usize)
    ensures
        r as nat == effective_limit_spec(page_limit, page_count),
{
    match page_limit {
        Some(l) => if l < page_count {
            l
        } else {
            page_count
        },
        None => page_count,
    }
}

/// Handing one more page to a walk that has not ended adds that page's
/// occurrences.
proof fn lemma_walk_push(h: Seq<PageEvent>, e: PageEvent, limit: nat, w: Seq<char>)
    requires
        h.len() < limit,
        forall|i: int| 0 <= i < h.len() ==> !(h[i] is ReadFailed),
    ensures
        walk_occurrences(h.push(e), limit, w) == walk_occurrences(h, limit, w) + page_occurrences(
            e,
            w,
        ),
    decreases h.len(),
{
    let he = h.push(e);
    if h.len() > 0 {
        assert(he[0] == h[0]);
        assert(he.drop_first() =~= h.drop_first().push(e));
        assert forall|i: int| 0 <= i < h.drop_first().len() implies !(
        #[trigger] h.drop_first()[i] is ReadFailed) by {
            assert(h.drop_first()[i] == h[i + 1]);
        }
        lemma_walk_push(h.drop_first(), e, (limit - 1) as nat, w);
    } else {
        assert(he.drop_first() =~= Seq::<PageEvent>::empty());
        assert(walk_occurrences(he.drop_first(), (limit - 1) as nat, w) == 0);
    }
}

/// Only the pages that a walk reaches matter: the first `n` outcomes decide the
/// counts where `n` reaches the limit or ends at a page that cannot be read.
pub proof fn lemma_walk_prefix(pages: Seq<PageEvent>, n: nat, limit: nat, w: Seq<char>)
    requires
        n <= pages.len(),
        n >= limit || (n > 0 && pages[n - 1] is ReadFailed),
    ensures
        walk_occurrences(pages, limit, w) == walk_occurrences(pages.take(n as int), limit, w),
    decreases n,
{
    let t = pages.take(n as int);
    if n > 0 && limit > 0 {
        assert(t[0] == pages[0]);
        if !(pages[0] is ReadFailed) {
            assert(t.drop_first() =~= pages.drop_first().take(n - 1));
            if n - 1 < limit - 1 {
                assert(pages.drop_first()[n - 2] == pages[n - 1]);
            }
            lemma_walk_prefix(pages.drop_first(), (n - 1) as nat, (limit - 1) as nat, w);
        }
    }
}

/// Raising the page limit never lowers a word's count, so no word counted under
/// the lower limit is lost.
pub proof fn lemma_limit_monotone(pages: Seq<PageEvent>, l1: nat, l2: nat, w: Seq<char>)
    requires
        l1 <= l2,
    ensures
        walk_occurrences(pages, l1, w) <= walk_occurrences(pages, l2, w),
        walk_occurrences(pages, l1, w) > 0 ==> walk_occurrences(pages, l2, w) > 0,
    decreases pages.len(),
{
    if pages.len() > 0 && l1 > 0 && !(pages[0] is ReadFailed) {
        lemma_limit_monotone(pages.drop_first(), (l1 - 1) as nat, (l2 - 1) as nat, w);
    }
}

/// Pages without the word give it no count.
proof fn lemma_walk_zero(pages: Seq<PageEvent>, limit: nat, w: Seq<char>)
    requires
        forall|i: int| 0 <= i < pages.len() ==> page_occurrences(#[trigger] pages[i], w) == 0,
    ensures
        walk_occurrences(pages, limit, w) == 0,
    decreases pages.len(),
{
    if pages.len() > 0 && limit > 0 {
        assert forall|i: int| 0 <= i < pages.drop_first().len() implies page_occurrences(
            #[trigger] pages.drop_first()[i],
            w,
        ) == 0 by {
            assert(pages.drop_first()[i] == pages[i + 1]);
        }
        lemma_walk_zero(pages.drop_first(), (limit - 1) as nat, w);
    }
}

/// The state of a walk over a document's pages.
///
/// The caller asks for the next page with `next_page`, and hands the page's
/// outcome to `handle`; the walk keeps the adjective counts of the pages seen.
pub struct PageWalker {
    limit: usize,
    next: usize,
    halted: bool,
    words: WordMap,
    history: Ghost<Seq<PageEvent>>,
}

impl PageWalker {
    /// The outcomes handed in so far, page by page.
    pub closed spec fn history(&self) -> Seq<PageEvent> {
        self.history@
    }

    /// The number of pages the walk covers at most.
    pub closed spec fn limit(&self) -> nat {
        self.limit as nat
    }

    /// The counts recorded so far.
    pub closed spec fn words(&self) -> WordMap {
        self.words
    }

    /// The walk is over: a page could not be read, or the limit was reached.
    pub open spec fn finished(&self) -> bool {
        ends_in_read_failure(self.history()) || self.history().len() >= self.limit()
    }

    /// The history holds one outcome per page handed in, a page that cannot
    /// be read only last, and the counts are those of the history.
    pub closed spec fn wf(&self) -> bool {
        &&& self.words.wf()
        &&& self.next as nat == self.history@.len()
        &&& self.next <= self.limit
        &&& self.halted == ends_in_read_failure(self.history@)
        &&& forall|i: int| 0 <= i < self.history@.len() - 1 ==> !(self.history@[i] is ReadFailed)
        &&& forall|w: Seq<char>|
            #![trigger self.words.count(w)]
            self.words.count(w) == walk_occurrences(self.history@, self.limit as nat, w)
    }

    /// A walk over a document of `page_count` pages, stopping after `page_limit`
    /// pages where one is given.
    pub fn new(page_limit: Option<usize>, page_count: usize) -> (r: Self)
        ensures
            r.wf(),
            r.history() == Seq::<PageEvent>::empty(),
            r.limit() == effective_limit_spec(page_limit, page_count),
            r.words().total() == 0,
    {
        let w = WordMap::new();
        proof {
            assert forall|x: Seq<char>| #[trigger] w.count(x) == walk_occurrences(
                Seq::<PageEvent>::empty(),
                effective_limit_spec(page_limit, page_count),
                x,
            ) by {}
        }
        PageWalker {
            limit: effective_limit(page_limit, page_count),
            next: 0,
            halted: false,
            words: w,
            history: Ghost(Seq::empty()),
        }
    }

    /// The index of the page to read next, or `None` once the walk is over.
    pub fn next_page(&self) -> (r: Option<usize>)
        requires
            self.wf(),
        ensures
            self.finished() ==> r is None,
            !self.finished() ==> r == Some(self.history().len() as usize),
    {
        if self.halted || self.next >= self.limit {
            None
        } else {
            Some(self.next)
        }
    }

    /// Takes the outcome of the next page: a page that cannot be read ends the
    /// walk, a page whose text or tags failed adds nothing, and a tagged page adds
    /// its adjectives to the counts.
    pub fn handle(&mut self, event: PageEvent)
        requires
            old(self).wf(),
            !old(self).finished(),
            event matches PageEvent::Tagged(v) ==> old(self).words().total() + v@.len()
                <= usize::MAX,
        ensures
            final(self).wf(),
            final(self).history() == old(self).history().push(event),
            final(self).limit() == old(self).limit(),
            final(self).words().total() == old(self).words().total() + match event {
                PageEvent::Tagged(v) => adjective_total(v@),
                _ => 0,
            },
            forall|w: Seq<char>|
                #![trigger final(self).words().count(w)]
                final(self).words().count(w) == walk_occurrences(
                    final(self).history(),
                    final(self).limit(),
                    w,
                ),
    {
        let ghost h = self.history@;
        let ghost e = event;
        proof {
            assert forall|w: Seq<char>| #[trigger]
                walk_occurrences(h.push(e), self.limit as nat, w) == walk_occurrences(
                    h,
                    self.limit as nat,
                    w,
                ) + page_occurrences(e, w) by {
                lemma_walk_push(h, e, self.limit as nat, w);
            }
        }
        match event {
            PageEvent::ReadFailed => {
                self.halted = true;
                self.next = self.next + 1;
                proof {
                    self.history = Ghost(h.push(e));
                    assert forall|w: Seq<char>|
                        #![trigger self.words.count(w)]
                        self.words.count(w) == walk_occurrences(
                            self.history@,
                            self.limit as nat,
                            w,
                        ) by {
                        assert(walk_occurrences(self.history@, self.limit as nat, w)
                            == walk_occurrences(h, self.limit as nat, w) + page_occurrences(e, w));
                    }
                }
            },
            PageEvent::ExtractFailed | PageEvent::TagFailed => {
                self.next = self.next + 1;
                proof {
                    self.history = Ghost(h.push(e));
                    assert forall|w: Seq<char>|
                        #![trigger self.words.count(w)]
                        self.words.count(w) == walk_occurrences(
                            self.history@,
                            self.limit as nat,
                            w,
                        ) by {
                        assert(walk_occurrences(self.history@, self.limit as nat, w)
                            == walk_occurrences(h, self.limit as nat, w) + page_occurrences(e, w));
                    }
                }
            },
            PageEvent::Tagged(tagged) => {
                self.words.tag(&tagged);
                self.next = self.next + 1;
                proof {
                    self.history = Ghost(h.push(e));
                    assert forall|w: Seq<char>|
                        #![trigger self.words.count(w)]
                        self.words.count(w) == walk_occurrences(
                            self.history@,
                            self.limit as nat,
                            w,
                        ) by {
                        assert(walk_occurrences(self.history@, self.limit as nat, w)
                            == walk_occurrences(h, self.limit as nat, w) + page_occurrences(e, w));
                    }
                }
            },
        }
    }

    /// The counts recorded so far.
    pub fn word_map(&self) -> (r: &WordMap)
        ensures
            r == self.words(),
    {
        &self.words
    }

    /// The ranked report of the counts recorded so far.
    pub fn report(&self) -> (r: Report)
        requires
            self.wf(),
        ensures
            r.reports(self.words()@),
    {
        self.words.report()
    }
}

/// The counts of a walk are those of the pages it has seen: each word's count
/// is the number of its adjective occurrences on the pages processed.
pub proof fn lemma_counts_follow_pages(wk: &PageWalker, w: Seq<char>)
    requires
        wk.wf(),
    ensures
        wk.words().count(w) == walk_occurrences(wk.history(), wk.limit(), w),
        wk.words()@.contains_key(w) <==> wk.words().count(w) > 0,
{
    assert(wk.words.count(w) == walk_occurrences(wk.history@, wk.limit as nat, w));
}

/// A finished walk over a document whose pages' outcomes are `pages` counts each
/// word as `walk_occurrences` does over the whole document.
pub proof fn lemma_finished_walk(wk: &PageWalker, pages: Seq<PageEvent>, w: Seq<char>)
    requires
        wk.wf(),
        wk.finished(),
        wk.history().len() <= pages.len(),
        wk.history() == pages.take(wk.history().len() as int),
    ensures
        wk.words().count(w) == walk_occurrences(pages, wk.limit(), w),
{
    lemma_counts_follow_pages(wk, w);
    lemma_walk_prefix(pages, wk.history().len(), wk.limit(), w);
}

/// Two walks with the same limit over the same page outcomes hold the same
/// counts, and their reports have the same lines in the same order.
pub proof fn lemma_walk_deterministic(a: &PageWalker, b: &PageWalker, ra: Report, rb: Report)
    requires
        a.wf(),
        b.wf(),
        a.limit() == b.limit(),
        a.history() == b.history(),
        ra.reports(a.words()@),
        rb.reports(b.words()@),
    ensures
        a.words()@ == b.words()@,
        ra.lines() == rb.lines(),
{
    assert forall|w: Seq<char>| #[trigger] a.words().count(w) == b.words().count(w) by {
        lemma_counts_follow_pages(a, w);
        lemma_counts_follow_pages(b, w);
    }
    assert(a.words()@ =~= b.words()@);
    lemma_report_unique(a.words()@, ra, rb);
}

/// Where no processed page holds an adjective, the report says that no adjective
/// was found.
pub proof fn lemma_no_adjectives(wk: &PageWalker, r: Report)
    requires
        wk.wf(),
        r.reports(wk.words()@),
        forall|i: int, w: Seq<char>|
            0 <= i < wk.history().len() ==> #[trigger] page_occurrences(wk.history()[i], w) == 0,
    ensures
        r is NoAdjectives,
{
    assert forall|w: Seq<char>| !#[trigger] wk.words()@.contains_key(w) by {
        lemma_counts_follow_pages(wk, w);
        lemma_walk_zero(wk.history(), wk.limit(), w);
    }
    if let Report::Ranked(v) = r {
        assert(wk.words()@.contains_key(lines_view(v@)[0].0));
    }
}

} // verus!
