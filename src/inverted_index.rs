use vstd::prelude::*;

use std::sync::atomic::AtomicBool;

use crate::inverted_index_mmap::InvertedIndexMmap;
use crate::inverted_index_ram::InvertedIndexRam;
use crate::posting_list::{PostingElement, PostingListIterator, contains_id, weight_in};
use crate::search_context::{SearchContext, SearchError, candidates, is_top_k, partial_score, score};
use crate::sparse_vector::SparseVector;
use crate::types::{DimId, DimWeight, PointOffsetType, ScoredPointOffset, ranks_before};

verus! {

/// An inverted index on one of its two backends.
pub enum InvertedIndex {
    Ram(InvertedIndexRam),
    Mmap(InvertedIndexMmap),
}

impl InvertedIndex {
    pub open spec fn wf(&self) -> bool {
        match self {
            InvertedIndex::Ram(index) => index.wf(),
            InvertedIndex::Mmap(index) => index.wf(),
        }
    }

    /// The posting list of dimension `d`, if the index has it.
    pub open spec fn list(&self, d: DimId) -> Option<Seq<PostingElement>> {
        match self {
            InvertedIndex::Ram(index) => index.list(d),
            InvertedIndex::Mmap(index) => index.list(d),
        }
    }

    pub open spec fn vector_count(&self) -> usize {
        match self {
            InvertedIndex::Ram(index) => index.vector_count,
            InvertedIndex::Mmap(index) => index.vector_count,
        }
    }

    /// The terms of the first `n` query entries that take part in a search: one
    /// per entry with a nonzero weight whose dimension the index has, as that
    /// dimension's list and the query weight.
    pub open spec fn query_terms(&self, query: SparseVector, n: int) -> (Seq<Seq<PostingElement>>, Seq<DimWeight>)
        decreases n,
    {
        if n <= 0 {
            (Seq::empty(), Seq::empty())
        } else {
            let prev = self.query_terms(query, n - 1);
            let d = query.indices@[n - 1];
            let w = query.values@[n - 1];
            if w != 0 && self.list(d) is Some {
                (prev.0.push(self.list(d)->Some_0), prev.1.push(w))
            } else {
                prev
            }
        }
    }

    pub open spec fn query_lists(&self, query: SparseVector) -> Seq<Seq<PostingElement>> {
        self.query_terms(query, query.indices@.len() as int).0
    }

    pub open spec fn query_weights(&self, query: SparseVector) -> Seq<DimWeight> {
        self.query_terms(query, query.indices@.len() as int).1
    }

    /// A cursor over the list of dimension `id`, if the index has it.
    pub fn get(&self, id: &DimId) -> (r: Option<PostingListIterator<'_>>)
        requires
            self.wf(),
        ensures
            r is Some == self.list(*id) is Some,
            r matches Some(it) ==> it.elements@ == self.list(*id)->Some_0 && it.current_index == 0,
    {
        match self {
            InvertedIndex::Ram(index) => match index.get(id) {
                Some(posting_list) => Some(PostingListIterator::new(posting_list.elements.as_slice())),
                None => None,
            },
            InvertedIndex::Mmap(index) => match index.get(id) {
                Some(elements) => Some(PostingListIterator::new(elements)),
                None => None,
            },
        }
    }

    /// The best `top` points for `query`, best first, with their scores; skips the
    /// points that provably cannot enter the result. Fails only when `stopped` is
    /// raised while it runs.
    pub fn search(&self, query: &SparseVector, top: usize, stopped: &AtomicBool) -> (r: Result<
        Vec<ScoredPointOffset>,
        SearchError,
    >)
        requires
            self.wf(),
            query.wf(),
        ensures
            r matches Ok(v) ==> is_top_k(v@, top as int, self.query_lists(*query), self.query_weights(*query)),
            r matches Ok(v) ==> v@.len() <= top,
            r matches Ok(v) ==> forall|i: int, j: int|
                0 <= i < j < v@.len() ==> v@[i].score >= v@[j].score && v@[i].idx != v@[j].idx,
            top == 0 ==> (r matches Ok(v) && v@.len() == 0),
    {
        let search_context = SearchContext::new(query, top, self);
        let r = search_context.search(stopped);
        proof {
            if r is Ok {
                let v = r->Ok_0@;
                assert forall|i: int, j: int| 0 <= i < j < v.len() implies v[i].score >= v[j].score
                    && v[i].idx != v[j].idx by {
                    assert(ranks_before(v[i], v[j]));
                }
            }
        }
        r
    }

    /// The same answer as `search`, found by scoring every candidate.
    pub fn search_exhaustive(&self, query: &SparseVector, top: usize, stopped: &AtomicBool) -> (r: Result<
        Vec<ScoredPointOffset>,
        SearchError,
    >)
        requires
            self.wf(),
            query.wf(),
        ensures
            r matches Ok(v) ==> is_top_k(v@, top as int, self.query_lists(*query), self.query_weights(*query)),
            top == 0 ==> (r matches Ok(v) && v@.len() == 0),
    {
        let search_context = SearchContext::new(query, top, self);
        search_context.search_exhaustive(stopped)
    }

    /// Finalises the index before serving. Both backends are already in their
    /// final layout, so it changes nothing. The serving backend is finished and
    /// always succeeds; on the RAM backend it reports a raised `stopped` as an abort.
    pub fn build_index(&mut self, stopped: &AtomicBool) -> (r: Result<(), SearchError>)
        ensures
            *final(self) == *old(self),
            (*old(self)) is Mmap ==> r is Ok,
    {
        match self {
            InvertedIndex::Mmap(_) => Ok(()),
            InvertedIndex::Ram(_) => if stopped.load(std::sync::atomic::Ordering::Relaxed) {
                Err(SearchError::Cancelled)
            } else {
                Ok(())
            },
        }
    }

    /// The files that hold the index: none for the RAM backend.
    pub fn files(&self) -> (r: Vec<String>)
        ensures
            match self {
                InvertedIndex::Ram(_) => r@.len() == 0,
                InvertedIndex::Mmap(index) => r@.len() == 1 && r@[0]@ == index.path@,
            },
    {
        match self {
            InvertedIndex::Ram(_index) => Vec::new(),
            InvertedIndex::Mmap(index) => index.files(),
        }
    }

    /// Number of points with at least one posting.
    pub fn indexed_vector_count(&self) -> (r: usize)
        ensures
            r == self.vector_count(),
    {
        match self {
            InvertedIndex::Ram(index) => index.indexed_vector_count(),
            InvertedIndex::Mmap(index) => index.indexed_vector_count(),
        }
    }
}

/// The query's first `n` entries times the point's weights in the index; an entry
/// whose dimension no point has a posting in adds nothing.
pub open spec fn query_dot(index: InvertedIndex, query: SparseVector, p: PointOffsetType, n: int) -> int
    decreases n,
{
    if n <= 0 {
        0
    } else {
        query_dot(index, query, p, n - 1) + query.values@[n - 1] * match index.list(query.indices@[n - 1]) {
            Some(l) => weight_in(l, p),
            None => 0,
        }
    }
}

/// The query's first `n` entries reach point `p`: one with a nonzero weight has
/// `p` in its dimension's list.
pub open spec fn query_reaches(index: InvertedIndex, query: SparseVector, p: PointOffsetType, n: int) -> bool {
    exists|i: int|
        0 <= i < n && query.values@[i] != 0 && #[trigger] index.list(query.indices@[i]) is Some && contains_id(
            index.list(query.indices@[i])->Some_0,
            p,
        )
}

proof fn lemma_partial_score_push(
    lists: Seq<Seq<PostingElement>>,
    qw: Seq<DimWeight>,
    l: Seq<PostingElement>,
    w: DimWeight,
    p: PointOffsetType,
    m: int,
)
    requires
        0 <= m <= lists.len(),
        lists.len() == qw.len(),
    ensures
        partial_score(lists.push(l), qw.push(w), p, m) == partial_score(lists, qw, p, m),
    decreases m,
{
    if m > 0 {
        lemma_partial_score_push(lists, qw, l, w, p, m - 1);
    }
}

proof fn lemma_terms_dot(index: InvertedIndex, query: SparseVector, p: PointOffsetType, n: int)
    requires
        0 <= n <= query.indices@.len(),
        query.wf(),
    ensures
        index.query_terms(query, n).0.len() == index.query_terms(query, n).1.len(),
        score(index.query_terms(query, n).0, index.query_terms(query, n).1, p) == query_dot(index, query, p, n),
        candidates(index.query_terms(query, n).0).contains(p) == query_reaches(index, query, p, n),
    decreases n,
{
    if n > 0 {
        lemma_terms_dot(index, query, p, n - 1);
        let prev = index.query_terms(query, n - 1);
        let d = query.indices@[n - 1];
        let w = query.values@[n - 1];
        let cur = index.query_terms(query, n);
        if w != 0 && index.list(d) is Some {
            let l = index.list(d)->Some_0;
            lemma_partial_score_push(prev.0, prev.1, l, w, p, prev.0.len() as int);
            assert(cur.0[prev.0.len() as int] == l);
            if query_reaches(index, query, p, n) {
                let i = choose|i: int|
                    0 <= i < n && query.values@[i] != 0 && #[trigger] index.list(query.indices@[i]) is Some
                        && contains_id(index.list(query.indices@[i])->Some_0, p);
                if i < n - 1 {
                    assert(query_reaches(index, query, p, n - 1));
                    let j = choose|j: int| 0 <= j < prev.0.len() && contains_id(prev.0[j], p);
                    assert(cur.0[j] == prev.0[j]);
                }
            }
            if candidates(cur.0).contains(p) {
                let j = choose|j: int| 0 <= j < cur.0.len() && contains_id(cur.0[j], p);
                if j < prev.0.len() {
                    assert(cur.0[j] == prev.0[j]);
                    assert(candidates(prev.0).contains(p));
                    let i = choose|i: int|
                        0 <= i < n - 1 && query.values@[i] != 0 && #[trigger] index.list(query.indices@[i]) is Some
                            && contains_id(index.list(query.indices@[i])->Some_0, p);
                    assert(0 <= i < n);
                } else {
                    assert(0 <= n - 1 < n && query.values@[n - 1] != 0 && index.list(query.indices@[n - 1]) is Some);
                }
            }
            if candidates(prev.0).contains(p) {
                let j = choose|j: int| 0 <= j < prev.0.len() && contains_id(prev.0[j], p);
                assert(cur.0[j] == prev.0[j]);
            }
        } else {
            if query_reaches(index, query, p, n) {
                let i = choose|i: int|
                    0 <= i < n && query.values@[i] != 0 && #[trigger] index.list(query.indices@[i]) is Some
                        && contains_id(index.list(query.indices@[i])->Some_0, p);
                assert(i != n - 1);
                assert(query_reaches(index, query, p, n - 1));
            }
            if query_reaches(index, query, p, n - 1) {
                let i = choose|i: int|
                    0 <= i < n - 1 && query.values@[i] != 0 && #[trigger] index.list(query.indices@[i]) is Some
                        && contains_id(index.list(query.indices@[i])->Some_0, p);
                assert(0 <= i < n);
            }
        }
    }
}

/// What `search` ranks by is the plain dot product of the query with the point's
/// vector as the index holds it, over the query's entries; a candidate is a point
/// that some nonzero query entry reaches through its dimension's list.
pub proof fn lemma_search_score_is_dot_product(index: InvertedIndex, query: SparseVector, p: PointOffsetType)
    requires
        query.wf(),
    ensures
        score(index.query_lists(query), index.query_weights(query), p) == query_dot(
            index,
            query,
            p,
            query.indices@.len() as int,
        ),
        candidates(index.query_lists(query)).contains(p) == query_reaches(
            index,
            query,
            p,
            query.indices@.len() as int,
        ),
{
    lemma_terms_dot(index, query, p, query.indices@.len() as int);
}

} // verus!
