use vstd::prelude::*;

use crate::posting_list::{PostingElement, PostingList, contains_id, entries_map};
use crate::sparse_vector::{SparseVector, lemma_weight_at_index};
use crate::types::{DimId, DimWeight, PointOffsetType};

verus! {

/// Number of `true` entries.
pub open spec fn count_true(s: Seq<bool>) -> int
    decreases s.len(),
{
    if s.len() == 0 {
        0
    } else {
        count_true(s.drop_last()) + if s.last() {
            1int
        } else {
            0int
        }
    }
}

proof fn lemma_count_true_bounds(s: Seq<bool>)
    ensures
        0 <= count_true(s) <= s.len(),
    decreases s.len(),
{
    if s.len() > 0 {
        lemma_count_true_bounds(s.drop_last());
    }
}

proof fn lemma_count_true_update(s: Seq<bool>, i: int, b: bool)
    requires
        0 <= i < s.len(),
    ensures
        count_true(s.update(i, b)) == count_true(s) - (if s[i] {
            1int
        } else {
            0int
        }) + (if b {
            1int
        } else {
            0int
        }),
    decreases s.len(),
{
    let t = s.update(i, b);
    if i == s.len() - 1 {
        assert(t.drop_last() =~= s.drop_last());
    } else {
        assert(t.drop_last() =~= s.drop_last().update(i, b));
        lemma_count_true_update(s.drop_last(), i, b);
    }
}

proof fn lemma_count_true_push_false(s: Seq<bool>)
    ensures
        count_true(s.push(false)) == count_true(s),
{
    assert(s.push(false).drop_last() =~= s);
}

/// Whether some posting list of `postings` holds point `p`.
pub open spec fn indexed_in(postings: Seq<PostingList>, p: PointOffsetType) -> bool {
    exists|d: int| 0 <= d < postings.len() && #[trigger] contains_id(postings[d].elements@, p)
}

/// The mutable, build-time index: one posting list per dimension id.
pub struct InvertedIndexRam {
    /// Posting list of each dimension, indexed by dimension id.
    pub postings: Vec<PostingList>,
    /// For each point offset, whether the point has at least one posting.
    pub present: Vec<bool>,
    /// Number of points that have at least one posting.
    pub vector_count: usize,
}

impl InvertedIndexRam {
    pub open spec fn wf(&self) -> bool {
        &&& self.postings@.len() <= 0x1_0000_0000
        &&& self.present@.len() <= 0x1_0000_0000
        &&& forall|d: int| 0 <= d < self.postings@.len() ==> (#[trigger] self.postings@[d]).wf()
        &&& forall|p: PointOffsetType|
            (p < self.present@.len() && self.present@[p as int]) == #[trigger] indexed_in(
                self.postings@,
                p,
            )
        &&& self.vector_count == count_true(self.present@)
    }

    /// What the list of dimension `d` holds; empty for a dimension never seen.
    pub open spec fn posting_map(&self, d: DimId) -> Map<PointOffsetType, DimWeight> {
        posting_map_of(self.postings@, d)
    }

    pub fn new() -> (r: InvertedIndexRam)
        ensures
            r.wf(),
            r.postings@.len() == 0,
            r.vector_count == 0,
    {
        let r = InvertedIndexRam { postings: Vec::new(), present: Vec::new(), vector_count: 0 };
        assert(r.present@ =~= Seq::<bool>::empty());
        r
    }

    /// The entries of dimension `d`, or `None` where no point has a posting there.
    pub open spec fn list(&self, d: DimId) -> Option<Seq<PostingElement>> {
        if (d as int) < self.postings@.len() && self.postings@[d as int].elements@.len() > 0 {
            Some(self.postings@[d as int].elements@)
        } else {
            None
        }
    }

    /// The posting list of dimension `id`, or `None` where no point has a posting
    /// in that dimension.
    pub fn get(&self, id: &DimId) -> (r: Option<&PostingList>)
        ensures
            r is Some == self.list(*id) is Some,
            r matches Some(l) ==> l == &self.postings@[*id as int] && l.elements@ == self.list(*id)->Some_0,
    {
        if (*id as usize) < self.postings.len() && self.postings[*id as usize].elements.len() > 0 {
            Some(&self.postings[*id as usize])
        } else {
            None
        }
    }

    /// Number of distinct points with at least one posting.
    pub fn indexed_vector_count(&self) -> (r: usize)
        ensures
            r == self.vector_count,
    {
        self.vector_count
    }

    /// Removes the point from every posting list.
    pub fn remove(&mut self, id: PointOffsetType)
        requires
            old(self).wf(),
        ensures
            final(self).wf(),
            final(self).postings@.len() == old(self).postings@.len(),
            forall|d: DimId| #[trigger] final(self).posting_map(d) == old(self).posting_map(d).remove(id),
            !indexed_in(final(self).postings@, id),
            final(self).vector_count == old(self).vector_count - if indexed_in(old(self).postings@, id) {
                1int
            } else {
                0int
            },
    {
        let ghost start_postings = self.postings@;
        let n = self.postings.len();
        let mut d: usize = 0;
        while d < n
            invariant
                n == self.postings@.len() == start_postings.len(),
                start_postings == old(self).postings@,
                self.present == old(self).present,
                self.vector_count == old(self).vector_count,
                d <= n,
                forall|e: int| 0 <= e < n ==> (#[trigger] self.postings@[e]).wf(),
                forall|e: int| 0 <= e < d ==> entries_map((#[trigger] self.postings@[e]).elements@) == entries_map(
                    start_postings[e].elements@,
                ).remove(id),
                forall|e: int| d <= e < n ==> #[trigger] self.postings@[e] == start_postings[e],
            decreases n - d,
        {
            let _ = self.postings[d].remove(id);
            d = d + 1;
        }
        proof {
            assert forall|q: PointOffsetType| #[trigger] indexed_in(self.postings@, q) == (indexed_in(start_postings, q) && q != id) by {
                assert forall|e: int| 0 <= e < n implies #[trigger] contains_id(self.postings@[e].elements@, q)
                    == (contains_id(start_postings[e].elements@, q) && q != id) by {
                    assert(entries_map(self.postings@[e].elements@).contains_key(q) == contains_id(self.postings@[e].elements@, q));
                    assert(entries_map(start_postings[e].elements@).contains_key(q) == contains_id(start_postings[e].elements@, q));
                }
                if indexed_in(start_postings, q) && q != id {
                    let e = choose|e: int| 0 <= e < start_postings.len() && #[trigger] contains_id(start_postings[e].elements@, q);
                    assert(contains_id(self.postings@[e].elements@, q));
                }
            }
        }
        if (id as usize) < self.present.len() && self.present[id as usize] {
            proof {
                lemma_count_true_update(self.present@, id as int, false);
                lemma_count_true_bounds(self.present@.update(id as int, false));
            }
            self.present.set(id as usize, false);
            self.vector_count = self.vector_count - 1;
        }
        proof {
            assert forall|q: PointOffsetType|
                (q < self.present@.len() && self.present@[q as int]) == #[trigger] indexed_in(self.postings@, q) by {
                if q != id {
                    assert(indexed_in(start_postings, q) == indexed_in(old(self).postings@, q));
                }
            }
            assert forall|d: DimId| #[trigger] self.posting_map(d) == old(self).posting_map(d).remove(id) by {
                if (d as int) < n {
                    assert(self.postings@[d as int] == self.postings@[d as int]);
                } else {
                    assert(Map::<PointOffsetType, DimWeight>::empty().remove(id) =~= Map::empty());
                }
            }
        }
    }

    /// Indexes `vector` as point `id`, replacing whatever the point had: each nonzero
    /// weight goes into its dimension's list and the point leaves every other list.
    /// An empty vector leaves the index as it is.
    pub fn upsert(&mut self, id: PointOffsetType, vector: &SparseVector)
        requires
            old(self).wf(),
            vector.wf(),
        ensures
            final(self).wf(),
            vector.indices@.len() == 0 ==> final(self).postings@ == old(self).postings@
                && final(self).vector_count == old(self).vector_count,
            vector.indices@.len() > 0 ==> final(self).vector_count == old(self).vector_count - (if indexed_in(
                old(self).postings@,
                id,
            ) {
                1int
            } else {
                0int
            }) + (if exists|k: int| 0 <= k < vector.indices@.len() && vector.values@[k] != 0 {
                1int
            } else {
                0int
            }),
            vector.indices@.len() > 0 ==> forall|d: DimId|
                #[trigger] final(self).posting_map(d) == if vector.weight_at(d) != 0 {
                    old(self).posting_map(d).insert(id, vector.weight_at(d) as DimWeight)
                } else {
                    old(self).posting_map(d).remove(id)
                },
    {
        if vector.indices.len() == 0 {
            return;
        }
        self.remove(id);
        let ghost base_postings = self.postings@;
        let ghost base = entries_of(self.postings@);
        let ghost mid_present = self.present@;
        let ghost mid_count = self.vector_count;
        proof {
            assert forall|d: DimId| #[trigger] base(d) == old(self).posting_map(d).remove(id) by {
                assert(self.posting_map(d) == old(self).posting_map(d).remove(id));
            }
        }
        let mut inserted = false;
        let mut i: usize = 0;
        while i < vector.indices.len()
            invariant
                vector.wf(),
                i <= vector.indices@.len(),
                self.postings@.len() <= 0x1_0000_0000,
                base_postings.len() <= self.postings@.len(),
                forall|e: int| 0 <= e < self.postings@.len() ==> (#[trigger] self.postings@[e]).wf(),
                forall|d: DimId|
                    #[trigger] posting_map_of(self.postings@, d) == if exists|k: int|
                        0 <= k < i && vector.indices@[k] == d && vector.values@[k] != 0 {
                        base(d).insert(id, vector.weight_at(d) as DimWeight)
                    } else {
                        base(d)
                    },
                forall|d: DimId| #[trigger] base(d) == posting_map_of(base_postings, d),
                forall|d: DimId| #[trigger] base(d) == old(self).posting_map(d).remove(id),
                self.present@ == mid_present,
                self.vector_count == mid_count,
                mid_count == count_true(mid_present),
                mid_count == old(self).vector_count - (if indexed_in(old(self).postings@, id) {
                    1int
                } else {
                    0int
                }),
                forall|q: PointOffsetType|
                    (q < mid_present.len() && mid_present[q as int]) == #[trigger] indexed_in(base_postings, q),
                base_postings.len() <= 0x1_0000_0000,
                !indexed_in(base_postings, id),
                inserted == exists|k: int| 0 <= k < i && vector.values@[k] != 0,
            decreases vector.indices@.len() - i,
        {
            let d = vector.indices[i];
            let w = vector.values[i];
            proof {
                lemma_weight_at_index(*vector, i as int);
            }
            if w != 0 {
                while self.postings.len() <= d as usize
                    invariant
                        self.postings@.len() <= 0x1_0000_0000,
                        i < vector.indices@.len(),
                        self.present@ == mid_present,
                        self.vector_count == mid_count,
                        forall|e: int| 0 <= e < self.postings@.len() ==> (#[trigger] self.postings@[e]).wf(),
                        forall|dd: DimId|
                            #[trigger] posting_map_of(self.postings@, dd) == if exists|k: int|
                                0 <= k < i && vector.indices@[k] == dd && vector.values@[k] != 0 {
                                base(dd).insert(id, vector.weight_at(dd) as DimWeight)
                            } else {
                                base(dd)
                            },
                        base_postings.len() <= self.postings@.len(),
                    decreases d + 1 - self.postings@.len(),
                {
                    let ghost before = self.postings@;
                    self.postings.push(PostingList::new());
                    proof {
                        assert forall|dd: DimId| #[trigger] posting_map_of(self.postings@, dd) == posting_map_of(before, dd) by {
                            if dd as int == before.len() {
                                assert(entries_map(self.postings@[dd as int].elements@) =~= Map::empty());
                            } else if (dd as int) < before.len() {
                                assert(self.postings@[dd as int] == before[dd as int]);
                            }
                        }
                    }
                }
                let ghost before = self.postings@;
                self.postings[d as usize].upsert(PostingElement { record_id: id, weight: w });
                inserted = true;
                proof {
                    assert(self.postings@.len() == before.len());
                    assert(posting_map_of(self.postings@, d) == posting_map_of(before, d).insert(id, w));
                    assert(vector.weight_at(d) == w);
                    assert forall|dd: DimId|
                        #[trigger] posting_map_of(self.postings@, dd) == if exists|k: int|
                            0 <= k < i + 1 && vector.indices@[k] == dd && vector.values@[k] != 0 {
                            base(dd).insert(id, vector.weight_at(dd) as DimWeight)
                        } else {
                            base(dd)
                        } by {
                        if dd == d {
                            assert(0 <= i < i + 1 && vector.indices@[i as int] == dd && vector.values@[i as int] != 0);
                            if exists|k: int| 0 <= k < i && vector.indices@[k] == dd && vector.values@[k] != 0 {
                                let k = choose|k: int| 0 <= k < i && vector.indices@[k] == dd && vector.values@[k] != 0;
                                assert(vector.indices@[k] < vector.indices@[i as int]);
                            }
                            assert(posting_map_of(before, dd).insert(id, w) =~= base(dd).insert(id, w));
                        } else {
                            assert(self.postings@[dd as int] == before[dd as int] || dd as int >= before.len());
                            assert(posting_map_of(self.postings@, dd) == posting_map_of(before, dd));
                            if exists|k: int| 0 <= k < i + 1 && vector.indices@[k] == dd && vector.values@[k] != 0 {
                                let k = choose|k: int| 0 <= k < i + 1 && vector.indices@[k] == dd && vector.values@[k] != 0;
                                assert(k < i);
                            }
                        }
                    }
                }
            } else {
                proof {
                    assert forall|dd: DimId|
                        #[trigger] posting_map_of(self.postings@, dd) == if exists|k: int|
                            0 <= k < i + 1 && vector.indices@[k] == dd && vector.values@[k] != 0 {
                            base(dd).insert(id, vector.weight_at(dd) as DimWeight)
                        } else {
                            base(dd)
                        } by {
                        if exists|k: int| 0 <= k < i + 1 && vector.indices@[k] == dd && vector.values@[k] != 0 {
                            let k = choose|k: int| 0 <= k < i + 1 && vector.indices@[k] == dd && vector.values@[k] != 0;
                            assert(k < i);
                        }
                    }
                }
            }
            i = i + 1;
        }
        proof {
            assert forall|dd: DimId|
                #[trigger] self.posting_map(dd) == if vector.weight_at(dd) != 0 {
                    old(self).posting_map(dd).insert(id, vector.weight_at(dd) as DimWeight)
                } else {
                    old(self).posting_map(dd).remove(id)
                } by {
                assert(self.posting_map(dd) == posting_map_of(self.postings@, dd));
                assert(base(dd) == old(self).posting_map(dd).remove(id));
                if exists|k: int| 0 <= k < vector.indices@.len() && vector.indices@[k] == dd && vector.values@[k] != 0 {
                    let k = choose|k: int| 0 <= k < vector.indices@.len() && vector.indices@[k] == dd && vector.values@[k] != 0;
                    lemma_weight_at_index(*vector, k);
                    let om = old(self).posting_map(dd);
                    assert(om.remove(id).insert(id, vector.values@[k]) =~= om.insert(id, vector.values@[k]));
                } else if vector.has_dim(dd) {
                    let k = choose|k: int| 0 <= k < vector.indices@.len() && vector.indices@[k] == dd;
                    lemma_weight_at_index(*vector, k);
                }
            }
            assert forall|q: PointOffsetType| q != id implies #[trigger] indexed_in(self.postings@, q) == indexed_in(
                base_postings,
                q,
            ) by {
                lemma_indexed_via_maps(self.postings@, q);
                lemma_indexed_via_maps(base_postings, q);
                if indexed_in(base_postings, q) {
                    let dd = choose|dd: DimId| posting_map_of(base_postings, dd).contains_key(q);
                    assert(self.posting_map(dd).contains_key(q));
                }
                if indexed_in(self.postings@, q) {
                    let dd = choose|dd: DimId| posting_map_of(self.postings@, dd).contains_key(q);
                    assert(self.posting_map(dd) == posting_map_of(self.postings@, dd));
                    assert(base(dd).contains_key(q));
                }
            }
            lemma_indexed_via_maps(self.postings@, id);
            if inserted {
                let k = choose|k: int| 0 <= k < i && vector.values@[k] != 0;
                let dd = vector.indices@[k];
                assert(self.posting_map(dd) == posting_map_of(self.postings@, dd));
                assert(posting_map_of(self.postings@, dd).contains_key(id));
            } else {
                assert forall|dd: DimId| !posting_map_of(self.postings@, dd).contains_key(id) by {
                    assert(self.posting_map(dd) == posting_map_of(self.postings@, dd));
                    lemma_indexed_via_maps(base_postings, id);
                    assert(!base(dd).contains_key(id));
                }
            }
        }
        let ghost fin_postings = self.postings@;
        if inserted {
            while self.present.len() <= id as usize
                invariant
                    self.postings@ == fin_postings,
                    self.present@.len() <= 0x1_0000_0000,
                    self.vector_count == mid_count,
                    self.vector_count == count_true(self.present@),
                    forall|q: PointOffsetType|
                        (q < self.present@.len() && self.present@[q as int]) == (indexed_in(base_postings, q)),
                decreases id + 1 - self.present@.len(),
            {
                proof {
                    lemma_count_true_push_false(self.present@);
                }
                self.present.push(false);
            }
            proof {
                lemma_count_true_update(self.present@, id as int, true);
                lemma_count_true_bounds(self.present@.update(id as int, true));
            }
            self.present.set(id as usize, true);
            self.vector_count = self.vector_count + 1;
        }
        proof {
            assert forall|q: PointOffsetType|
                (q < self.present@.len() && self.present@[q as int]) == #[trigger] indexed_in(self.postings@, q) by {
                if q != id {
                    assert(indexed_in(fin_postings, q) == indexed_in(base_postings, q));
                }
            }
        }
    }
}

/// What dimension `d`'s list holds in `postings`; empty past the end.
pub open spec fn posting_map_of(postings: Seq<PostingList>, d: DimId) -> Map<PointOffsetType, DimWeight> {
    if d < postings.len() {
        entries_map(postings[d as int].elements@)
    } else {
        Map::empty()
    }
}

pub open spec fn entries_of(postings: Seq<PostingList>) -> spec_fn(DimId) -> Map<PointOffsetType, DimWeight> {
    |d: DimId| posting_map_of(postings, d)
}

proof fn lemma_indexed_via_maps(postings: Seq<PostingList>, q: PointOffsetType)
    requires
        postings.len() <= 0x1_0000_0000,
    ensures
        indexed_in(postings, q) == exists|d: DimId| #[trigger] posting_map_of(postings, d).contains_key(q),
{
    if indexed_in(postings, q) {
        let e = choose|e: int| 0 <= e < postings.len() && #[trigger] contains_id(postings[e].elements@, q);
        assert(posting_map_of(postings, e as DimId).contains_key(q));
    }
    if exists|d: DimId| #[trigger] posting_map_of(postings, d).contains_key(q) {
        let d = choose|d: DimId| #[trigger] posting_map_of(postings, d).contains_key(q);
        assert(contains_id(postings[d as int].elements@, q));
    }
}

/// The points with at least one posting.
pub open spec fn indexed_points(postings: Seq<PostingList>) -> Set<PointOffsetType> {
    Set::new(|p: PointOffsetType| indexed_in(postings, p))
}

/// The offsets whose entry in `s` is `true`.
pub open spec fn true_offsets(s: Seq<bool>) -> Set<PointOffsetType> {
    Set::new(|p: PointOffsetType| (p as int) < s.len() && s[p as int])
}

proof fn lemma_true_offsets_count(s: Seq<bool>)
    requires
        s.len() <= 0x1_0000_0000,
    ensures
        true_offsets(s).finite(),
        true_offsets(s).len() == count_true(s),
    decreases s.len(),
{
    if s.len() == 0 {
        assert(true_offsets(s) =~= Set::empty());
    } else {
        let t = s.drop_last();
        lemma_true_offsets_count(t);
        let last = (s.len() - 1) as PointOffsetType;
        assert(last as int == s.len() - 1);
        if s.last() {
            assert(true_offsets(s) =~= true_offsets(t).insert(last));
            assert(!true_offsets(t).contains(last));
        } else {
            assert(true_offsets(s) =~= true_offsets(t));
        }
    }
}

/// The indexed vector count of a RAM index is the number of distinct points that
/// have at least one posting.
pub proof fn lemma_count_is_indexed_points(r: InvertedIndexRam)
    requires
        r.wf(),
    ensures
        indexed_points(r.postings@).finite(),
        r.vector_count == indexed_points(r.postings@).len(),
{
    lemma_true_offsets_count(r.present@);
    assert(indexed_points(r.postings@) =~= true_offsets(r.present@));
}

/// Point `p` stands in the lists exactly as vector `v` says: in the list of each
/// dimension where `v` is nonzero, with `v`'s weight, and in no other list.
pub open spec fn holds_vector(r: InvertedIndexRam, p: PointOffsetType, v: SparseVector) -> bool {
    forall|d: DimId|
        #![trigger r.posting_map(d)]
        (r.posting_map(d).contains_key(p) <==> v.weight_at(d) != 0) && (v.weight_at(d) != 0
            ==> r.posting_map(d)[p] == v.weight_at(d) as DimWeight)
}

/// After `upsert(p, v)` with a nonempty `v`, the point stands in the lists as `v` says.
pub proof fn lemma_upsert_holds_vector(
    before: InvertedIndexRam,
    after: InvertedIndexRam,
    p: PointOffsetType,
    v: SparseVector,
)
    requires
        v.indices@.len() > 0,
        forall|d: DimId|
            #[trigger] after.posting_map(d) == if v.weight_at(d) != 0 {
                before.posting_map(d).insert(p, v.weight_at(d) as DimWeight)
            } else {
                before.posting_map(d).remove(p)
            },
    ensures
        holds_vector(after, p, v),
{
}

/// An update that touches only another point `q` (an `upsert` or `remove` of `q`)
/// leaves where `p` stands unchanged; with the previous law, a point's entries are
/// those of the last vector it was given, whatever came after for other points.
pub proof fn lemma_other_point_keeps_vector(
    before: InvertedIndexRam,
    after: InvertedIndexRam,
    p: PointOffsetType,
    q: PointOffsetType,
    v: SparseVector,
)
    requires
        holds_vector(before, p, v),
        q != p,
        forall|d: DimId| #[trigger] after.posting_map(d).remove(q) == before.posting_map(d).remove(q),
    ensures
        holds_vector(after, p, v),
{
    assert forall|d: DimId|
        #![trigger after.posting_map(d)]
        (after.posting_map(d).contains_key(p) <==> v.weight_at(d) != 0) && (v.weight_at(d) != 0
            ==> after.posting_map(d)[p] == v.weight_at(d) as DimWeight) by {
        assert(after.posting_map(d).remove(q) == before.posting_map(d).remove(q));
        assert(after.posting_map(d).remove(q).contains_key(p) == after.posting_map(d).contains_key(p));
        assert(before.posting_map(d).remove(q).contains_key(p) == before.posting_map(d).contains_key(p));
        if after.posting_map(d).contains_key(p) {
            assert(after.posting_map(d).remove(q)[p] == after.posting_map(d)[p]);
            assert(before.posting_map(d).remove(q)[p] == before.posting_map(d)[p]);
        }
    }
}

} // verus!
