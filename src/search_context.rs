use vstd::prelude::*;

use std::sync::atomic::AtomicBool;

use crate::inverted_index::InvertedIndex;
use crate::posting_list::{PostingElement, PostingListIterator, contains_id, sorted_ids, weight_in, lemma_weight_at};
use crate::sparse_vector::SparseVector;
use crate::types::{DimId, DimWeight, PointOffsetType, ScoreType, ScoredPointOffset, ranks_before};

verus! {

/// Why a search produced no result.
#[derive(Clone, Copy, Debug, PartialEq, Eq, Structural)]
pub enum SearchError {
    /// The stop signal was raised before the search finished.
    Cancelled,
}

/// Largest magnitude of one weight product: 2^62.
pub open spec fn product_bound() -> int {
    0x4000_0000_0000_0000
}

/// Sum of the first `n` query terms' contributions to the score of `p`.
pub open spec fn partial_score(
    lists: Seq<Seq<PostingElement>>,
    qw: Seq<DimWeight>,
    p: PointOffsetType,
    n: int,
) -> int
    decreases n,
{
    if n <= 0 {
        0
    } else {
        partial_score(lists, qw, p, n - 1) + qw[n - 1] * weight_in(lists[n - 1], p)
    }
}

/// The score of `p`: its dot product with the query, over the query's terms.
pub open spec fn score(lists: Seq<Seq<PostingElement>>, qw: Seq<DimWeight>, p: PointOffsetType) -> int {
    partial_score(lists, qw, p, lists.len() as int)
}

/// A point that some query term's list holds.
pub open spec fn is_candidate(lists: Seq<Seq<PostingElement>>, p: PointOffsetType) -> bool {
    exists|j: int| 0 <= j < lists.len() && contains_id(lists[j], p)
}

pub open spec fn candidates(lists: Seq<Seq<PostingElement>>) -> Set<PointOffsetType> {
    Set::new(|p: PointOffsetType| is_candidate(lists, p))
}

pub open spec fn holds_id(res: Seq<ScoredPointOffset>, p: PointOffsetType) -> bool {
    exists|i: int| 0 <= i < res.len() && res[i].idx == p
}

/// Strictly in result order.
pub open spec fn sorted_by_rank(res: Seq<ScoredPointOffset>) -> bool {
    forall|i: int, j: int| 0 <= i < j < res.len() ==> ranks_before(res[i], res[j])
}

/// `a` comes before point `p` scored `s` in result order.
pub open spec fn ranks_before_point(a: ScoredPointOffset, s: int, p: PointOffsetType) -> bool {
    a.score > s || (a.score == s && a.idx < p)
}

/// `res` is the best `k` of the points in `pool`, best first, each with its score.
pub open spec fn top_k_of(
    res: Seq<ScoredPointOffset>,
    k: int,
    lists: Seq<Seq<PostingElement>>,
    qw: Seq<DimWeight>,
    pool: Set<PointOffsetType>,
) -> bool {
    &&& res.len() <= k
    &&& forall|i: int|
        0 <= i < res.len() ==> pool.contains(#[trigger] res[i].idx) && res[i].score == score(
            lists,
            qw,
            res[i].idx,
        )
    &&& sorted_by_rank(res)
    &&& forall|p: PointOffsetType|
        pool.contains(p) && !holds_id(res, p) ==> res.len() == k && (k > 0 ==> ranks_before_point(
            res.last(),
            score(lists, qw, p),
            p,
        ))
}

/// `res` is the exact answer to the query: the best `k` candidates, best first.
pub open spec fn is_top_k(
    res: Seq<ScoredPointOffset>,
    k: int,
    lists: Seq<Seq<PostingElement>>,
    qw: Seq<DimWeight>,
) -> bool {
    top_k_of(res, k, lists, qw, candidates(lists))
}

pub open spec fn cursors<'a>(its: Seq<PostingListIterator<'a>>) -> Seq<int> {
    its.map_values(|it: PostingListIterator<'a>| it.current_index as int)
}

pub open spec fn lists_of<'a>(its: Seq<PostingListIterator<'a>>) -> Seq<Seq<PostingElement>> {
    its.map_values(|it: PostingListIterator<'a>| it.elements@)
}

/// Points that some cursor has already moved past.
pub open spec fn processed(lists: Seq<Seq<PostingElement>>, cur: Seq<int>) -> Set<PointOffsetType> {
    Set::new(
        |p: PointOffsetType|
            exists|j: int, i: int|
                0 <= j < lists.len() && 0 <= i < cur[j] && #[trigger] lists[j][i].record_id == p,
    )
}

/// Entries not yet consumed by the first `n` cursors.
pub open spec fn remaining(lists: Seq<Seq<PostingElement>>, cur: Seq<int>, n: int) -> int
    decreases n,
{
    if n <= 0 {
        0
    } else {
        remaining(lists, cur, n - 1) + (lists[n - 1].len() - cur[n - 1])
    }
}

/// Sum of the bounds of the first `n` terms whose cursor is not exhausted.
pub open spec fn active_bound(lists: Seq<Seq<PostingElement>>, cur: Seq<int>, bounds: Seq<ScoreType>, n: int) -> int
    decreases n,
{
    if n <= 0 {
        0
    } else {
        active_bound(lists, cur, bounds, n - 1) + if cur[n - 1] < lists[n - 1].len() {
            bounds[n - 1] as int
        } else {
            0
        }
    }
}

proof fn lemma_product_bound(a: DimWeight, b: DimWeight)
    ensures
        -product_bound() <= a * b <= product_bound(),
{
    assert(-0x8000_0000 <= a < 0x8000_0000);
    assert(-0x4000_0000_0000_0000 <= a * b <= 0x4000_0000_0000_0000) by (nonlinear_arith)
        requires
            -0x8000_0000 <= a < 0x8000_0000,
            -0x8000_0000 <= b < 0x8000_0000,
    ;
}

proof fn lemma_remaining_decreases(lists: Seq<Seq<PostingElement>>, c0: Seq<int>, c1: Seq<int>, n: int, j0: int)
    requires
        0 <= n <= lists.len(),
        c0.len() == lists.len(),
        c1.len() == lists.len(),
        forall|j: int| 0 <= j < n ==> c0[j] <= #[trigger] c1[j] <= lists[j].len(),
    ensures
        0 <= remaining(lists, c1, n) <= remaining(lists, c0, n),
        0 <= j0 < n && c0[j0] < c1[j0] ==> remaining(lists, c1, n) < remaining(lists, c0, n),
    decreases n,
{
    if n > 0 {
        lemma_remaining_decreases(lists, c0, c1, n - 1, j0);
    }
}

proof fn lemma_partial_score_bound(lists: Seq<Seq<PostingElement>>, qw: Seq<DimWeight>, p: PointOffsetType, n: int)
    requires
        0 <= n <= lists.len(),
        qw.len() == lists.len(),
    ensures
        -n * product_bound() <= partial_score(lists, qw, p, n) <= n * product_bound(),
    decreases n,
{
    if n > 0 {
        lemma_partial_score_bound(lists, qw, p, n - 1);
        let l = lists[n - 1];
        if contains_id(l, p) {
            let i = choose|i: int| 0 <= i < l.len() && l[i].record_id == p;
            lemma_product_bound(qw[n - 1], l[i].weight);
        }
    }
}

/// A point no cursor has passed scores at most the bounds of the live cursors.
proof fn lemma_unprocessed_score_bound(
    lists: Seq<Seq<PostingElement>>,
    qw: Seq<DimWeight>,
    cur: Seq<int>,
    bounds: Seq<ScoreType>,
    p: PointOffsetType,
    n: int,
)
    requires
        0 <= n <= lists.len(),
        qw.len() == lists.len(),
        cur.len() == lists.len(),
        bounds.len() == lists.len(),
        forall|j: int| 0 <= j < lists.len() ==> 0 <= #[trigger] cur[j] <= lists[j].len(),
        forall|j: int| 0 <= j < lists.len() ==> 0 <= #[trigger] bounds[j],
        forall|j: int, i: int|
            0 <= j < lists.len() && 0 <= i < lists[j].len() ==> qw[j] * (#[trigger] lists[j][i]).weight
                <= bounds[j],
        forall|j: int| 0 <= j < lists.len() ==> sorted_ids(#[trigger] lists[j]),
        !processed(lists, cur).contains(p),
    ensures
        partial_score(lists, qw, p, n) <= active_bound(lists, cur, bounds, n),
    decreases n,
{
    if n > 0 {
        lemma_unprocessed_score_bound(lists, qw, cur, bounds, p, n - 1);
        let j = n - 1;
        let l = lists[j];
        if contains_id(l, p) {
            let i = choose|i: int| 0 <= i < l.len() && l[i].record_id == p;
            lemma_weight_at(l, i);
            assert(qw[j] * lists[j][i].weight <= bounds[j]);
            if i < cur[j] {
                assert(processed(lists, cur).contains(p));
            }
        }
    }
}

/// Whether `a` comes before `b` in result order.
fn outranks(a: &ScoredPointOffset, b: &ScoredPointOffset) -> (r: bool)
    ensures
        r == ranks_before(*a, *b),
{
    a.score > b.score || (a.score == b.score && a.idx < b.idx)
}

/// Puts `item` into the ranked buffer `buf`, which keeps at most `k` entries: the
/// entry that no longer fits, if any, is dropped.
pub fn insert_bounded(buf: &mut Vec<ScoredPointOffset>, item: ScoredPointOffset, k: usize)
    requires
        k > 0,
        old(buf)@.len() <= k,
        sorted_by_rank(old(buf)@),
        !holds_id(old(buf)@, item.idx),
    ensures
        sorted_by_rank(final(buf)@),
        final(buf)@.len() as int == if old(buf)@.len() < k {
            old(buf)@.len() + 1 as int
        } else {
            k as int
        },
        forall|i: int|
            0 <= i < final(buf)@.len() ==> final(buf)@[i] == item || old(buf)@.contains(final(buf)@[i]),
        forall|i: int|
            0 <= i < old(buf)@.len() && !holds_id(final(buf)@, #[trigger] old(buf)@[i].idx)
                ==> final(buf)@.len() == k && ranks_before(final(buf)@.last(), old(buf)@[i]),
        !holds_id(final(buf)@, item.idx)
            ==> final(buf)@.len() == k && ranks_before(final(buf)@.last(), item),
        old(buf)@.len() == k ==> final(buf)@.last() == old(buf)@.last()
            || ranks_before(final(buf)@.last(), old(buf)@.last()),
{
    let ghost b0 = buf@;
    let mut t: usize = 0;
    while t < buf.len() && !outranks(&item, &buf[t])
        invariant
            buf@ == b0,
            t <= buf@.len(),
            forall|i: int| 0 <= i < t ==> ranks_before(b0[i], item),
            sorted_by_rank(b0),
            !holds_id(b0, item.idx),
        decreases buf@.len() - t,
    {
        assert(b0[t as int].idx != item.idx);
        t = t + 1;
    }
    if t == k {
        assert(b0.len() == k);
        assert forall|i: int| 0 <= i < b0.len() implies holds_id(b0, #[trigger] b0[i].idx) by {}
        return;
    }
    buf.insert(t, item);
    let ghost b1 = buf@;
    assert(b1 =~= b0.insert(t as int, item));
    assert forall|i: int, j: int| 0 <= i < j < b1.len() implies ranks_before(b1[i], b1[j]) by {
        if j < t {
        } else if j == t {
        } else if i < t {
            assert(ranks_before(b0[i], item));
        } else if i == t {
            assert(ranks_before(item, b0[t as int]));
            assert(b1[j] == b0[j - 1]);
            if j - 1 > t {
                assert(ranks_before(b0[t as int], b0[j - 1]));
            }
        } else {
            assert(b1[i] == b0[i - 1]);
            assert(b1[j] == b0[j - 1]);
        }
    }
    if buf.len() > k {
        let _ = buf.pop();
        let ghost b2 = buf@;
        assert(b2 =~= b1.drop_last());
        assert(b0.len() == k);
        assert(t < k);
        assert(b2.last() == b1[k - 1]);
        assert forall|i: int|
            0 <= i < b0.len() && !holds_id(b2, #[trigger] b0[i].idx) implies ranks_before(b2.last(), b0[i]) by {
            if i < t {
                assert(b2[i] == b0[i]);
            } else if i < k - 1 {
                assert(b2[i + 1] == b0[i]);
            } else {
                assert(b1[k as int] == b0[k - 1]);
            }
        }
        assert(b2[t as int] == item);
        assert forall|i: int| 0 <= i < b2.len() implies b2[i] == item || b0.contains(b2[i]) by {
            if i < t {
                assert(b2[i] == b0[i]);
            } else if i > t {
                assert(b2[i] == b0[i - 1]);
            }
        }
        if t < k - 1 {
            assert(b2.last() == b0[k - 2]);
        }
    } else {
        assert forall|i: int| 0 <= i < b0.len() implies holds_id(b1, #[trigger] b0[i].idx) by {
            if i < t {
                assert(b1[i] == b0[i]);
            } else {
                assert(b1[i + 1] == b0[i]);
            }
        }
        assert(b1[t as int] == item);
        assert forall|i: int| 0 <= i < b1.len() implies b1[i] == item || b0.contains(b1[i]) by {
            if i < t {
                assert(b1[i] == b0[i]);
            } else if i > t {
                assert(b1[i] == b0[i - 1]);
            }
        }
    }
}

/// Every entry some cursor has passed lies below every entry still ahead of any cursor.
pub open spec fn behind_below_ahead(lists: Seq<Seq<PostingElement>>, cur: Seq<int>) -> bool {
    forall|j1: int, i1: int, j2: int, i2: int|
        0 <= j1 < lists.len() && 0 <= j2 < lists.len() && 0 <= i1 < cur[j1] && cur[j2] <= i2
            < lists[j2].len() ==> (#[trigger] lists[j1][i1]).record_id < (
        #[trigger] lists[j2][i2]).record_id
}

/// A list whose cursor is not on `m`, the smallest point ahead of all cursors,
/// does not hold `m`.
proof fn lemma_absent_from_list(lists: Seq<Seq<PostingElement>>, cur: Seq<int>, j: int, j0: int, m: PointOffsetType)
    requires
        cur.len() == lists.len(),
        0 <= j < lists.len(),
        0 <= j0 < lists.len(),
        forall|jj: int| 0 <= jj < lists.len() ==> 0 <= #[trigger] cur[jj] <= lists[jj].len(),
        sorted_ids(lists[j]),
        behind_below_ahead(lists, cur),
        cur[j0] < lists[j0].len(),
        lists[j0][cur[j0]].record_id == m,
        cur[j] < lists[j].len() ==> m < lists[j][cur[j]].record_id,
    ensures
        !contains_id(lists[j], m),
{
    if contains_id(lists[j], m) {
        let l = lists[j];
        let i = choose|i: int| 0 <= i < l.len() && l[i].record_id == m;
        if i < cur[j] {
            assert(lists[j][i].record_id < lists[j0][cur[j0]].record_id);
        } else if i > cur[j] {
            assert(l[cur[j]].record_id < l[i].record_id);
        }
    }
}

/// Adding one more point to the pool keeps the buffer the best `k` of it, given
/// what `insert_bounded` promises.
proof fn lemma_top_k_extend(
    r0: Seq<ScoredPointOffset>,
    r1: Seq<ScoredPointOffset>,
    k: int,
    lists: Seq<Seq<PostingElement>>,
    qw: Seq<DimWeight>,
    pool: Set<PointOffsetType>,
    item: ScoredPointOffset,
)
    requires
        k > 0,
        top_k_of(r0, k, lists, qw, pool),
        !pool.contains(item.idx),
        item.score == score(lists, qw, item.idx),
        sorted_by_rank(r1),
        r1.len() <= k,
        forall|i: int| 0 <= i < r1.len() ==> r1[i] == item || r0.contains(r1[i]),
        forall|i: int|
            0 <= i < r0.len() && !holds_id(r1, #[trigger] r0[i].idx)
                ==> r1.len() == k && ranks_before(r1.last(), r0[i]),
        !holds_id(r1, item.idx) ==> r1.len() == k && ranks_before(r1.last(), item),
        r0.len() == k ==> r1.last() == r0.last() || ranks_before(r1.last(), r0.last()),
        r1.len() >= r0.len(),
    ensures
        top_k_of(r1, k, lists, qw, pool.insert(item.idx)),
{
    let pool1 = pool.insert(item.idx);
    assert forall|i: int| 0 <= i < r1.len() implies pool1.contains(#[trigger] r1[i].idx) && r1[i].score
        == score(lists, qw, r1[i].idx) by {
        if r1[i] != item {
            let t = choose|t: int| 0 <= t < r0.len() && r0[t] == r1[i];
            assert(pool.contains(r0[t].idx));
        }
    }
    assert forall|p: PointOffsetType| pool1.contains(p) && !holds_id(r1, p) implies r1.len() == k
        && ranks_before_point(r1.last(), score(lists, qw, p), p) by {
        if p != item.idx {
            if holds_id(r0, p) {
                let t = choose|t: int| 0 <= t < r0.len() && r0[t].idx == p;
                assert(!holds_id(r1, r0[t].idx));
            } else {
                assert(r0.len() == k);
            }
        }
    }
}

/// Upper bound on what one term adds to any score: the largest product of the
/// query weight with a weight of the list, and never below zero.
fn term_bound(elements: &[PostingElement], q: DimWeight) -> (r: ScoreType)
    ensures
        0 <= r <= product_bound(),
        forall|i: int| 0 <= i < elements@.len() ==> q * (#[trigger] elements@[i]).weight <= r,
{
    let mut best: ScoreType = 0;
    let mut i: usize = 0;
    while i < elements.len()
        invariant
            0 <= best <= product_bound(),
            i <= elements@.len(),
            forall|t: int| 0 <= t < i ==> q * (#[trigger] elements@[t]).weight <= best,
        decreases elements@.len() - i,
    {
        proof {
            lemma_product_bound(q, elements@[i as int].weight);
        }
        let v: ScoreType = (q as ScoreType) * (elements[i].weight as ScoreType);
        if v > best {
            best = v;
        }
        i = i + 1;
    }
    best
}

/// Merges the cursors in point order and keeps the best `top` points. With `prune`,
/// stops as soon as no point still ahead can enter the result.
fn merge_top_k<'a>(
    iters: Vec<PostingListIterator<'a>>,
    weights: &Vec<DimWeight>,
    top: usize,
    stopped: &AtomicBool,
    prune: bool,
) -> (r: Result<Vec<ScoredPointOffset>, SearchError>)
    requires
        iters@.len() == weights@.len(),
        forall|j: int|
            0 <= j < iters@.len() ==> sorted_ids((#[trigger] iters@[j]).elements@)
                && iters@[j].current_index == 0,
    ensures
        r is Ok ==> is_top_k(r->Ok_0@, top as int, lists_of(iters@), weights@),
        top == 0 ==> (r matches Ok(v) && v@.len() == 0),
{
    let ghost lists = lists_of(iters@);
    let ghost qw = weights@;
    let mut iters = iters;
    let n = iters.len();
    let mut result: Vec<ScoredPointOffset> = Vec::new();
    if top == 0 {
        return Ok(result);
    }
    let mut bounds: Vec<ScoreType> = Vec::new();
    let mut j: usize = 0;
    while j < n
        invariant
            n == iters@.len() == weights@.len() == lists.len(),
            lists_of(iters@) == lists,
            bounds@.len() == j,
            j <= n,
            forall|jj: int| 0 <= jj < j ==> 0 <= #[trigger] bounds@[jj] <= product_bound(),
            forall|jj: int, i: int|
                0 <= jj < j && 0 <= i < lists[jj].len() ==> qw[jj] * (#[trigger] lists[jj][i]).weight
                    <= bounds@[jj],
            weights@ == qw,
        decreases n - j,
    {
        let b = term_bound(iters[j].elements, weights[j]);
        bounds.push(b);
        j = j + 1;
    }
    proof {
        assert(processed(lists, cursors(iters@)) =~= Set::empty());
    }
    loop
        invariant
            n == iters@.len() == weights@.len() == bounds@.len() == lists.len(),
            weights@ == qw,
            lists_of(iters@) == lists,
            top > 0,
            forall|jj: int| 0 <= jj < n ==> sorted_ids(#[trigger] lists[jj]),
            forall|jj: int| 0 <= jj < n ==> 0 <= #[trigger] cursors(iters@)[jj] <= lists[jj].len(),
            forall|jj: int| 0 <= jj < n ==> 0 <= #[trigger] bounds@[jj] <= product_bound(),
            forall|jj: int, i: int|
                0 <= jj < n && 0 <= i < lists[jj].len() ==> qw[jj] * (#[trigger] lists[jj][i]).weight
                    <= bounds@[jj],
            behind_below_ahead(lists, cursors(iters@)),
            top_k_of(result@, top as int, lists, qw, processed(lists, cursors(iters@))),
        ensures
            is_top_k(result@, top as int, lists, qw),
        decreases remaining(lists, cursors(iters@), n as int),
    {
        if stopped.load(std::sync::atomic::Ordering::Relaxed) {
            return Err(SearchError::Cancelled);
        }
        let ghost c0 = cursors(iters@);
        let mut found = false;
        let mut m: PointOffsetType = 0;
        let mut bound: ScoreType = 0;
        let ghost mut j0: int = 0;
        let mut j: usize = 0;
        while j < n
            invariant
                n == iters@.len() == lists.len() == bounds@.len(),
                lists_of(iters@) == lists,
                cursors(iters@) == c0,
                c0.len() == n,
                j <= n,
                forall|jj: int| 0 <= jj < n ==> 0 <= #[trigger] c0[jj] <= lists[jj].len(),
                forall|jj: int| 0 <= jj < n ==> 0 <= #[trigger] bounds@[jj] <= product_bound(),
                found <==> exists|jj: int| 0 <= jj < j && #[trigger] c0[jj] < lists[jj].len(),
                found ==> 0 <= j0 < j && c0[j0] < lists[j0].len() && lists[j0][c0[j0]].record_id == m,
                found ==> forall|jj: int|
                    0 <= jj < j && #[trigger] c0[jj] < lists[jj].len() ==> m <= lists[jj][c0[jj]].record_id,
                bound == active_bound(lists, c0, bounds@, j as int),
                0 <= bound <= j * product_bound(),
            decreases n - j,
        {
            let it = iters[j];
            assert(cursors(iters@)[j as int] == c0[j as int]);
            assert(lists_of(iters@)[j as int] == lists[j as int]);
            assert(it.elements@ == lists[j as int]);
            assert(it.current_index == c0[j as int]);
            if it.current_index < it.elements.len() {
                let id = it.elements[it.current_index].record_id;
                if !found || id < m {
                    m = id;
                    found = true;
                    proof {
                        j0 = j as int;
                    }
                }
                bound = bound + bounds[j];
            }
            j = j + 1;
        }
        if !found {
            proof {
                assert forall|jj: int| 0 <= jj < n implies #[trigger] c0[jj] == lists[jj].len() by {
                    if c0[jj] < lists[jj].len() {
                        assert(found);
                    }
                }
                assert forall|p: PointOffsetType| #[trigger] candidates(lists).contains(p) implies processed(
                    lists,
                    c0,
                ).contains(p) by {
                    let jj = choose|jj: int| 0 <= jj < lists.len() && contains_id(lists[jj], p);
                    let l = lists[jj];
                    let i = choose|i: int| 0 <= i < l.len() && l[i].record_id == p;
                    assert(lists[jj][i].record_id == p);
                }
                assert forall|p: PointOffsetType| #[trigger] processed(lists, c0).contains(p) implies candidates(
                    lists,
                ).contains(p) by {
                    let (jj, i) = choose|jj: int, i: int|
                        0 <= jj < lists.len() && 0 <= i < c0[jj] && #[trigger] lists[jj][i].record_id == p;
                    assert(0 <= i < lists[jj].len() && lists[jj][i].record_id == p);
                }
                assert(candidates(lists) =~= processed(lists, c0));
            }
            break;
        }
        if prune && result.len() == top && bound <= result[top - 1].score {
            proof {
                let pool = processed(lists, c0);
                let last = result@.last();
                assert(pool.contains(result@[top - 1].idx));
                assert forall|p: PointOffsetType| #[trigger] pool.contains(p) implies candidates(lists).contains(p) by {
                    let (jj, i) = choose|jj: int, i: int|
                        0 <= jj < lists.len() && 0 <= i < c0[jj] && #[trigger] lists[jj][i].record_id == p;
                    assert(0 <= i < lists[jj].len() && lists[jj][i].record_id == p);
                }
                assert forall|p: PointOffsetType|
                    candidates(lists).contains(p) && !holds_id(result@, p) implies result@.len() == top
                        && ranks_before_point(result@.last(), score(lists, qw, p), p) by {
                    if !pool.contains(p) {
                        lemma_unprocessed_score_bound(lists, qw, c0, bounds@, p, n as int);
                        let jj = choose|jj: int| 0 <= jj < lists.len() && contains_id(lists[jj], p);
                        let l = lists[jj];
                        let i = choose|i: int| 0 <= i < l.len() && l[i].record_id == p;
                        if i < c0[jj] {
                            assert(lists[jj][i].record_id == p);
                            assert(pool.contains(p));
                        }
                        let (j1, i1) = choose|j1: int, i1: int|
                            0 <= j1 < lists.len() && 0 <= i1 < c0[j1] && #[trigger] lists[j1][i1].record_id
                                == last.idx;
                        assert(lists[j1][i1].record_id < lists[jj][i].record_id);
                    }
                }
            }
            break;
        }
        let mut s: ScoreType = 0;
        let mut j: usize = 0;
        while j < n
            invariant
                n == iters@.len() == lists.len() == weights@.len(),
                weights@ == qw,
                lists_of(iters@) == lists,
                j <= n,
                c0.len() == n,
                forall|jj: int| 0 <= jj < n ==> sorted_ids(#[trigger] lists[jj]),
                forall|jj: int| 0 <= jj < n ==> 0 <= #[trigger] c0[jj] <= lists[jj].len(),
                behind_below_ahead(lists, c0),
                0 <= j0 < n && c0[j0] < lists[j0].len() && lists[j0][c0[j0]].record_id == m,
                forall|jj: int|
                    0 <= jj < n && #[trigger] c0[jj] < lists[jj].len() ==> m <= lists[jj][c0[jj]].record_id,
                cursors(iters@).len() == n,
                forall|jj: int|
                    0 <= jj < j ==> #[trigger] cursors(iters@)[jj] == c0[jj] + if c0[jj] < lists[jj].len()
                        && lists[jj][c0[jj]].record_id == m {
                        1int
                    } else {
                        0int
                    },
                forall|jj: int| j <= jj < n ==> #[trigger] cursors(iters@)[jj] == c0[jj],
                s == partial_score(lists, qw, m, j as int),
                -j * product_bound() <= s <= j * product_bound(),
            decreases n - j,
        {
            let ghost before = iters@;
            let mut it = iters[j];
            assert(cursors(before)[j as int] == c0[j as int]);
            assert(lists_of(before)[j as int] == lists[j as int]);
            assert(it.elements@ == lists[j as int]);
            assert(it.current_index == c0[j as int]);
            if it.current_index < it.elements.len() && it.elements[it.current_index].record_id == m {
                proof {
                    lemma_weight_at(lists[j as int], c0[j as int]);
                    lemma_product_bound(qw[j as int], lists[j as int][c0[j as int]].weight);
                }
                s = s + (weights[j] as ScoreType) * (it.elements[it.current_index].weight as ScoreType);
                it.advance();
                iters.set(j, it);
                assert(lists_of(iters@) =~= lists);
                assert forall|jj: int| 0 <= jj < n && jj != j implies #[trigger] cursors(iters@)[jj]
                    == cursors(before)[jj] by {
                    assert(iters@[jj] == before[jj]);
                }
                assert(cursors(iters@)[j as int] == c0[j as int] + 1);
            } else {
                proof {
                    lemma_absent_from_list(lists, c0, j as int, j0, m);
                }
            }
            j = j + 1;
        }
        let ghost c1 = cursors(iters@);
        proof {
            assert(c1[j0] == c0[j0] + 1);
            assert(c1.len() == n);
            assert forall|jj: int| 0 <= jj < n implies c0[jj] <= #[trigger] c1[jj] <= lists[jj].len() by {}
            lemma_remaining_decreases(lists, c0, c1, n as int, j0);
            assert(remaining(lists, c1, n as int) < remaining(lists, c0, n as int));
            let pool0 = processed(lists, c0);
            let pool1 = processed(lists, c1);
            assert(!pool0.contains(m)) by {
                if pool0.contains(m) {
                    let (jj, i) = choose|jj: int, i: int|
                        0 <= jj < lists.len() && 0 <= i < c0[jj] && #[trigger] lists[jj][i].record_id == m;
                    assert(lists[jj][i].record_id < lists[j0][c0[j0]].record_id);
                }
            }
            assert forall|p: PointOffsetType| pool1.contains(p) == (#[trigger] pool0.contains(p) || p == m) by {
                if pool0.contains(p) {
                    let (jj, i) = choose|jj: int, i: int|
                        0 <= jj < lists.len() && 0 <= i < c0[jj] && #[trigger] lists[jj][i].record_id == p;
                    assert(i < c1[jj]);
                }
                if p == m {
                    assert(lists[j0][c0[j0]].record_id == m && c0[j0] < c1[j0]);
                }
                if pool1.contains(p) {
                    let (jj, i) = choose|jj: int, i: int|
                        0 <= jj < lists.len() && 0 <= i < c1[jj] && #[trigger] lists[jj][i].record_id == p;
                    if i >= c0[jj] {
                        assert(i == c0[jj]);
                    }
                }
            }
            assert(pool1 =~= pool0.insert(m));
            assert forall|j1: int, i1: int, j2: int, i2: int|
                0 <= j1 < lists.len() && 0 <= j2 < lists.len() && 0 <= i1 < c1[j1] && c1[j2] <= i2
                    < lists[j2].len() implies (#[trigger] lists[j1][i1]).record_id < (
                #[trigger] lists[j2][i2]).record_id by {
                if c0[j2] < lists[j2].len() && lists[j2][c0[j2]].record_id == m {
                    assert(lists[j2][c0[j2]].record_id < lists[j2][i2].record_id);
                } else if c0[j2] < lists[j2].len() {
                    if c0[j2] < i2 {
                        assert(lists[j2][c0[j2]].record_id < lists[j2][i2].record_id);
                    }
                }
                if i1 >= c0[j1] {
                    assert(i1 == c0[j1]);
                    assert(lists[j1][i1].record_id == m);
                } else {
                    assert(lists[j1][i1].record_id < lists[j0][c0[j0]].record_id);
                }
            }
        }
        let ghost r0 = result@;
        proof {
            assert(!holds_id(r0, m)) by {
                if holds_id(r0, m) {
                    let t = choose|t: int| 0 <= t < r0.len() && r0[t].idx == m;
                    assert(processed(lists, c0).contains(r0[t].idx));
                }
            }
        }
        let item = ScoredPointOffset { idx: m, score: s };
        insert_bounded(&mut result, item, top);
        proof {
            lemma_top_k_extend(r0, result@, top as int, lists, qw, processed(lists, c0), item);
            assert(cursors(iters@) == c1);
        }
    }
    Ok(result)
}

/// One query's working state: a cursor and a query weight per term.
pub struct SearchContext<'a> {
    pub iterators: Vec<PostingListIterator<'a>>,
    pub weights: Vec<DimWeight>,
    pub top: usize,
}

impl<'a> SearchContext<'a> {
    pub open spec fn wf(&self) -> bool {
        &&& self.iterators@.len() == self.weights@.len()
        &&& forall|j: int|
            0 <= j < self.iterators@.len() ==> sorted_ids((#[trigger] self.iterators@[j]).elements@)
                && self.iterators@[j].current_index == 0
    }

    /// Opens a cursor for each query entry with a nonzero weight whose dimension the
    /// index has; the other entries cannot add to any score.
    pub fn new(query: &SparseVector, top: usize, index: &'a InvertedIndex) -> (r: SearchContext<'a>)
        requires
            index.wf(),
            query.wf(),
        ensures
            r.wf(),
            r.top == top,
            lists_of(r.iterators@) == index.query_lists(*query),
            r.weights@ == index.query_weights(*query),
    {
        let mut iterators: Vec<PostingListIterator<'a>> = Vec::new();
        let mut weights: Vec<DimWeight> = Vec::new();
        let mut i: usize = 0;
        while i < query.indices.len()
            invariant
                index.wf(),
                query.wf(),
                i <= query.indices@.len(),
                iterators@.len() == weights@.len(),
                lists_of(iterators@) == index.query_terms(*query, i as int).0,
                weights@ == index.query_terms(*query, i as int).1,
                forall|j: int|
                    0 <= j < iterators@.len() ==> sorted_ids((#[trigger] iterators@[j]).elements@)
                        && iterators@[j].current_index == 0,
                forall|j: int|
                    0 <= j < index.query_terms(*query, i as int).0.len() ==> sorted_ids(
                        #[trigger] index.query_terms(*query, i as int).0[j],
                    ),
            decreases query.indices@.len() - i,
        {
            let w = query.values[i];
            if w != 0 {
                match index.get(&query.indices[i]) {
                    Some(it) => {
                        proof {
                            lemma_index_lists_sorted(index, query.indices@[i as int]);
                        }
                        iterators.push(it);
                        weights.push(w);
                        assert(lists_of(iterators@) =~= index.query_terms(*query, i + 1).0);
                    },
                    None => {},
                }
            }
            i = i + 1;
        }
        SearchContext { iterators, weights, top }
    }

    /// The best `top` points, stopping early once no point still ahead of the
    /// cursors can enter the result.
    pub fn search(self, stopped: &AtomicBool) -> (r: Result<Vec<ScoredPointOffset>, SearchError>)
        requires
            self.wf(),
        ensures
            r matches Ok(v) ==> is_top_k(v@, self.top as int, lists_of(self.iterators@), self.weights@),
            self.top == 0 ==> (r matches Ok(v) && v@.len() == 0),
    {
        merge_top_k(self.iterators, &self.weights, self.top, stopped, true)
    }

    /// The best `top` points, scoring every candidate.
    pub fn search_exhaustive(self, stopped: &AtomicBool) -> (r: Result<Vec<ScoredPointOffset>, SearchError>)
        requires
            self.wf(),
        ensures
            r matches Ok(v) ==> is_top_k(v@, self.top as int, lists_of(self.iterators@), self.weights@),
            self.top == 0 ==> (r matches Ok(v) && v@.len() == 0),
    {
        merge_top_k(self.iterators, &self.weights, self.top, stopped, false)
    }
}

proof fn lemma_index_lists_sorted(index: &InvertedIndex, d: DimId)
    requires
        index.wf(),
        index.list(d) is Some,
    ensures
        sorted_ids(index.list(d)->Some_0),
{
    match index {
        InvertedIndex::Ram(r) => {
            assert(r.postings@[d as int].wf());
        },
        InvertedIndex::Mmap(m) => {
            let (s, e) = m.directory@[d as int];
        },
    }
}

proof fn lemma_same_id_same_entry(
    r: Seq<ScoredPointOffset>,
    k: int,
    lists: Seq<Seq<PostingElement>>,
    qw: Seq<DimWeight>,
    pool: Set<PointOffsetType>,
    i: int,
    j: int,
)
    requires
        top_k_of(r, k, lists, qw, pool),
        0 <= i < r.len(),
        0 <= j < r.len(),
        r[i].idx == r[j].idx,
    ensures
        i == j,
{
    if i < j {
        assert(ranks_before(r[i], r[j]));
    } else if j < i {
        assert(ranks_before(r[j], r[i]));
    }
}

proof fn lemma_top_k_prefix(
    r1: Seq<ScoredPointOffset>,
    r2: Seq<ScoredPointOffset>,
    k: int,
    lists: Seq<Seq<PostingElement>>,
    qw: Seq<DimWeight>,
    n: int,
)
    requires
        is_top_k(r1, k, lists, qw),
        is_top_k(r2, k, lists, qw),
        0 <= n <= r1.len(),
        n <= r2.len(),
    ensures
        forall|i: int| 0 <= i < n ==> r1[i] == r2[i],
    decreases n,
{
    if n > 0 {
        lemma_top_k_prefix(r1, r2, k, lists, qw, n - 1);
        let i = n - 1;
        let a = r1[i];
        let b = r2[i];
        let pool = candidates(lists);
        assert(pool.contains(r1[i].idx));
        assert(pool.contains(r2[i].idx));
        if a.idx != b.idx {
            if ranks_before(a, b) {
                if holds_id(r2, a.idx) {
                    let m = choose|m: int| 0 <= m < r2.len() && r2[m].idx == a.idx;
                    if m < i {
                        assert(r1[m] == r2[m]);
                        lemma_same_id_same_entry(r1, k, lists, qw, pool, m, i);
                    } else if m > i {
                        assert(ranks_before(r2[i], r2[m]));
                        assert(pool.contains(r2[m].idx));
                    }
                } else {
                    assert(r2.len() == k);
                    if i < r2.len() - 1 {
                        assert(ranks_before(r2[i], r2[r2.len() - 1]));
                    }
                }
            } else {
                if holds_id(r1, b.idx) {
                    let m = choose|m: int| 0 <= m < r1.len() && r1[m].idx == b.idx;
                    if m < i {
                        assert(r1[m] == r2[m]);
                        lemma_same_id_same_entry(r2, k, lists, qw, pool, m, i);
                    } else if m > i {
                        assert(ranks_before(r1[i], r1[m]));
                        assert(pool.contains(r1[m].idx));
                    }
                } else {
                    assert(r1.len() == k);
                    if i < r1.len() - 1 {
                        assert(ranks_before(r1[i], r1[r1.len() - 1]));
                    }
                }
            }
        }
    }
}

/// The exact answer is unique: two lists that both hold the best `k` candidates of
/// a query, best first, are equal. `search` and `search_exhaustive` both return
/// such a list, so pruning never changes the answer.
pub proof fn lemma_top_k_unique(
    r1: Seq<ScoredPointOffset>,
    r2: Seq<ScoredPointOffset>,
    k: int,
    lists: Seq<Seq<PostingElement>>,
    qw: Seq<DimWeight>,
)
    requires
        is_top_k(r1, k, lists, qw),
        is_top_k(r2, k, lists, qw),
    ensures
        r1 == r2,
{
    let pool = candidates(lists);
    if r1.len() < r2.len() {
        lemma_top_k_prefix(r1, r2, k, lists, qw, r1.len() as int);
        let x = r2[r1.len() as int];
        assert(pool.contains(x.idx));
        if holds_id(r1, x.idx) {
            let m = choose|m: int| 0 <= m < r1.len() && r1[m].idx == x.idx;
            assert(r1[m] == r2[m]);
            lemma_same_id_same_entry(r2, k, lists, qw, pool, m, r1.len() as int);
        }
    } else if r2.len() < r1.len() {
        lemma_top_k_prefix(r1, r2, k, lists, qw, r2.len() as int);
        let x = r1[r2.len() as int];
        assert(pool.contains(x.idx));
        if holds_id(r2, x.idx) {
            let m = choose|m: int| 0 <= m < r2.len() && r2[m].idx == x.idx;
            assert(r1[m] == r2[m]);
            lemma_same_id_same_entry(r1, k, lists, qw, pool, m, r2.len() as int);
        }
    } else {
        lemma_top_k_prefix(r1, r2, k, lists, qw, r1.len() as int);
        assert(r1 =~= r2);
    }
}

/// The point offsets that the first `n` lists hold.
pub open spec fn ids_in_lists(lists: Seq<Seq<PostingElement>>, n: int) -> Set<PointOffsetType>
    decreases n,
{
    if n <= 0 {
        Set::empty()
    } else {
        ids_in_lists(lists, n - 1).union(lists[n - 1].map_values(|e: PostingElement| e.record_id).to_set())
    }
}

proof fn lemma_ids_in_lists(lists: Seq<Seq<PostingElement>>, n: int)
    requires
        0 <= n <= lists.len(),
    ensures
        ids_in_lists(lists, n).finite(),
        forall|j: int, p: PointOffsetType|
            0 <= j < n && #[trigger] contains_id(lists[j], p) ==> ids_in_lists(lists, n).contains(p),
    decreases n,
{
    if n > 0 {
        lemma_ids_in_lists(lists, n - 1);
        let l = lists[n - 1];
        let ids = l.map_values(|e: PostingElement| e.record_id);
        vstd::seq_lib::seq_to_set_is_finite(ids);
        assert forall|j: int, p: PointOffsetType|
            0 <= j < n && #[trigger] contains_id(lists[j], p) implies ids_in_lists(lists, n).contains(p) by {
            if j == n - 1 {
                let i = choose|i: int| 0 <= i < l.len() && l[i].record_id == p;
                assert(ids[i] == p);
                assert(ids.contains(p));
            }
        }
    }
}

/// The exact answer holds `min(k, number of candidates)` points.
pub proof fn lemma_top_k_length(
    r: Seq<ScoredPointOffset>,
    k: int,
    lists: Seq<Seq<PostingElement>>,
    qw: Seq<DimWeight>,
)
    requires
        is_top_k(r, k, lists, qw),
    ensures
        candidates(lists).finite(),
        r.len() == if k < candidates(lists).len() {
            k
        } else {
            candidates(lists).len() as int
        },
{
    let pool = candidates(lists);
    let ids = r.map_values(|x: ScoredPointOffset| x.idx);
    assert forall|i: int, j: int| 0 <= i < ids.len() && 0 <= j < ids.len() && i != j implies ids[i] != ids[j] by {
        if ids[i] == ids[j] {
            lemma_same_id_same_entry(r, k, lists, qw, pool, i, j);
        }
    }
    assert(ids.no_duplicates());
    ids.unique_seq_to_set();
    assert(ids.to_set().subset_of(pool)) by {
        assert forall|p: PointOffsetType| ids.to_set().contains(p) implies pool.contains(p) by {
            let i = choose|i: int| 0 <= i < ids.len() && ids[i] == p;
            assert(pool.contains(r[i].idx));
        }
    }
    if r.len() < k {
        assert forall|p: PointOffsetType| pool.contains(p) implies ids.to_set().contains(p) by {
            if !holds_id(r, p) {
            } else {
                let i = choose|i: int| 0 <= i < r.len() && r[i].idx == p;
                assert(ids[i] == p);
            }
        }
        assert(pool =~= ids.to_set());
    } else {
        lemma_ids_in_lists(lists, lists.len() as int);
        assert(pool.subset_of(ids_in_lists(lists, lists.len() as int))) by {
            assert forall|p: PointOffsetType| pool.contains(p) implies ids_in_lists(lists, lists.len() as int).contains(p) by {
                let j = choose|j: int| 0 <= j < lists.len() && contains_id(lists[j], p);
            }
        }
        vstd::set_lib::lemma_len_subset(pool, ids_in_lists(lists, lists.len() as int));
        vstd::set_lib::lemma_len_subset(ids.to_set(), pool);
    }
}

} // verus!
