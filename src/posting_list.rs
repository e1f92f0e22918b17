use vstd::prelude::*;

use crate::types::{DimWeight, PointOffsetType};

verus! {

/// One entry of a posting list: a point and its weight in the list's dimension.
#[derive(Clone, Copy, Debug, PartialEq, Eq, Structural)]
pub struct PostingElement {
    pub record_id: PointOffsetType,
    pub weight: DimWeight,
}

/// Entries strictly increasing by point offset (hence no point twice).
pub open spec fn sorted_ids(s: Seq<PostingElement>) -> bool {
    forall|i: int, j: int| 0 <= i < j < s.len() ==> s[i].record_id < s[j].record_id
}

pub open spec fn contains_id(s: Seq<PostingElement>, id: PointOffsetType) -> bool {
    exists|i: int| 0 <= i < s.len() && s[i].record_id == id
}

/// The weight of `id` in the list, zero where the list has no entry for it.
pub open spec fn weight_in(s: Seq<PostingElement>, id: PointOffsetType) -> int {
    if contains_id(s, id) {
        s[choose|i: int| 0 <= i < s.len() && s[i].record_id == id].weight as int
    } else {
        0
    }
}

/// What a list holds, as a map from point offset to weight.
pub open spec fn entries_map(s: Seq<PostingElement>) -> Map<PointOffsetType, DimWeight> {
    Map::new(|id: PointOffsetType| contains_id(s, id), |id: PointOffsetType| weight_in(s, id) as DimWeight)
}

/// In a sorted list the entry found at `i` is the one `weight_in` reads.
pub proof fn lemma_weight_at(s: Seq<PostingElement>, i: int)
    requires
        sorted_ids(s),
        0 <= i < s.len(),
    ensures
        contains_id(s, s[i].record_id),
        weight_in(s, s[i].record_id) == s[i].weight as int,
{
    assert(0 <= i < s.len() && s[i].record_id == s[i].record_id);
}

/// First position in `s` whose point offset is at least `id`, found by binary search
/// over the positions from `lo` on.
pub fn lower_bound(s: &[PostingElement], lo: usize, id: PointOffsetType) -> (r: usize)
    requires
        sorted_ids(s@),
        lo <= s@.len(),
    ensures
        lo <= r <= s@.len(),
        forall|i: int| lo <= i < r ==> s@[i].record_id < id,
        forall|i: int| r <= i < s@.len() ==> s@[i].record_id >= id,
{
    let mut a: usize = lo;
    let mut b: usize = s.len();
    while a < b
        invariant
            sorted_ids(s@),
            lo <= a <= b <= s@.len(),
            forall|i: int| lo <= i < a ==> s@[i].record_id < id,
            forall|i: int| b <= i < s@.len() ==> s@[i].record_id >= id,
        decreases b - a,
    {
        let mid: usize = a + (b - a) / 2;
        if s[mid].record_id < id {
            a = mid + 1;
        } else {
            b = mid;
        }
    }
    a
}

/// The entries of one dimension, kept sorted by point offset.
#[derive(Clone, Debug)]
pub struct PostingList {
    pub elements: Vec<PostingElement>,
}

impl PostingList {
    pub open spec fn wf(&self) -> bool {
        sorted_ids(self.elements@)
    }

    pub open spec fn view_map(&self) -> Map<PointOffsetType, DimWeight> {
        entries_map(self.elements@)
    }

    pub fn new() -> (r: PostingList)
        ensures
            r.wf(),
            r.elements@.len() == 0,
    {
        PostingList { elements: Vec::new() }
    }

    /// Inserts the entry, or replaces the weight of the entry already there for
    /// the same point; the list stays sorted.
    pub fn upsert(&mut self, element: PostingElement)
        requires
            old(self).wf(),
        ensures
            final(self).wf(),
            final(self).view_map() == old(self).view_map().insert(element.record_id, element.weight),
    {
        let ghost s0 = self.elements@;
        let pos = lower_bound(self.elements.as_slice(), 0, element.record_id);
        if pos < self.elements.len() && self.elements[pos].record_id == element.record_id {
            self.elements.set(pos, element);
            let ghost s1 = self.elements@;
            assert(sorted_ids(s1));
            assert forall|id: PointOffsetType|
                #![auto]
                contains_id(s1, id) == (contains_id(s0, id) || id == element.record_id) by {
                if contains_id(s0, id) {
                    let k = choose|i: int| 0 <= i < s0.len() && s0[i].record_id == id;
                    assert(s1[k].record_id == id);
                }
                if contains_id(s1, id) {
                    let k = choose|i: int| 0 <= i < s1.len() && s1[i].record_id == id;
                    assert(s0[k].record_id == id);
                }
            }
            assert forall|id: PointOffsetType| contains_id(s1, id) implies weight_in(s1, id) == if id
                == element.record_id {
                element.weight as int
            } else {
                weight_in(s0, id)
            } by {
                let k = choose|i: int| 0 <= i < s1.len() && s1[i].record_id == id;
                lemma_weight_at(s1, k);
                lemma_weight_at(s0, k);
            }
            assert(entries_map(s1) =~= entries_map(s0).insert(element.record_id, element.weight));
        } else {
            self.elements.insert(pos, element);
            let ghost s1 = self.elements@;
            assert(s1 =~= s0.insert(pos as int, element));
            assert(sorted_ids(s1));
            assert forall|id: PointOffsetType|
                #![auto]
                contains_id(s1, id) == (contains_id(s0, id) || id == element.record_id) by {
                if contains_id(s0, id) {
                    let k = choose|i: int| 0 <= i < s0.len() && s0[i].record_id == id;
                    if k < pos {
                        assert(s1[k].record_id == id);
                    } else {
                        assert(s1[k + 1].record_id == id);
                    }
                }
                if id == element.record_id {
                    assert(s1[pos as int].record_id == id);
                }
                if contains_id(s1, id) {
                    let k = choose|i: int| 0 <= i < s1.len() && s1[i].record_id == id;
                    if k < pos {
                        assert(s0[k].record_id == id);
                    } else if k > pos {
                        assert(s0[k - 1].record_id == id);
                    }
                }
            }
            assert forall|id: PointOffsetType| contains_id(s1, id) implies weight_in(s1, id) == if id
                == element.record_id {
                element.weight as int
            } else {
                weight_in(s0, id)
            } by {
                let k = choose|i: int| 0 <= i < s1.len() && s1[i].record_id == id;
                lemma_weight_at(s1, k);
                if k < pos {
                    lemma_weight_at(s0, k);
                } else if k > pos {
                    lemma_weight_at(s0, k - 1);
                }
            }
            assert(entries_map(s1) =~= entries_map(s0).insert(element.record_id, element.weight));
        }
    }

    /// Removes the entry of `record_id`, if any; returns whether there was one.
    pub fn remove(&mut self, record_id: PointOffsetType) -> (r: bool)
        requires
            old(self).wf(),
        ensures
            final(self).wf(),
            r == old(self).view_map().contains_key(record_id),
            final(self).view_map() == old(self).view_map().remove(record_id),
    {
        let ghost s0 = self.elements@;
        let pos = lower_bound(self.elements.as_slice(), 0, record_id);
        if pos < self.elements.len() && self.elements[pos].record_id == record_id {
            self.elements.remove(pos);
            let ghost s1 = self.elements@;
            assert(s1 =~= s0.remove(pos as int));
            assert(sorted_ids(s1));
            assert forall|id: PointOffsetType|
                #![auto]
                contains_id(s1, id) == (contains_id(s0, id) && id != record_id) by {
                if contains_id(s0, id) && id != record_id {
                    let k = choose|i: int| 0 <= i < s0.len() && s0[i].record_id == id;
                    if k < pos {
                        assert(s1[k].record_id == id);
                    } else {
                        assert(s1[k - 1].record_id == id);
                    }
                }
                if contains_id(s1, id) {
                    let k = choose|i: int| 0 <= i < s1.len() && s1[i].record_id == id;
                    if k < pos {
                        assert(s0[k].record_id == id);
                    } else {
                        assert(s0[k + 1].record_id == id);
                    }
                }
            }
            assert forall|id: PointOffsetType| contains_id(s1, id) implies weight_in(s1, id)
                == weight_in(s0, id) by {
                let k = choose|i: int| 0 <= i < s1.len() && s1[i].record_id == id;
                lemma_weight_at(s1, k);
                if k < pos {
                    lemma_weight_at(s0, k);
                } else {
                    lemma_weight_at(s0, k + 1);
                }
            }
            assert(s0[pos as int].record_id == record_id);
            assert(entries_map(s1) =~= entries_map(s0).remove(record_id));
            true
        } else {
            assert(!contains_id(s0, record_id));
            assert(entries_map(s0) =~= entries_map(s0).remove(record_id));
            false
        }
    }
}

} // verus!

verus! {

/// A cursor over a borrowed, sorted run of posting entries. It never changes the
/// entries it walks.
#[derive(Clone, Copy, Debug)]
pub struct PostingListIterator<'a> {
    pub elements: &'a [PostingElement],
    pub current_index: usize,
}

impl<'a> PostingListIterator<'a> {
    pub open spec fn wf(&self) -> bool {
        sorted_ids(self.elements@) && self.current_index <= self.elements@.len()
    }

    pub fn new(elements: &'a [PostingElement]) -> (r: PostingListIterator<'a>)
        ensures
            r.elements@ == elements@,
            r.current_index == 0,
    {
        PostingListIterator { elements, current_index: 0 }
    }

    /// The current entry, or `None` once the cursor has passed the last one.
    pub fn peek(&self) -> (r: Option<PostingElement>)
        requires
            self.current_index <= self.elements@.len(),
        ensures
            r == if self.current_index < self.elements@.len() {
                Some(self.elements@[self.current_index as int])
            } else {
                None::<PostingElement>
            },
    {
        if self.current_index < self.elements.len() {
            Some(self.elements[self.current_index])
        } else {
            None
        }
    }

    /// Consumes the current entry.
    pub fn advance(&mut self)
        requires
            old(self).current_index < old(self).elements@.len(),
        ensures
            final(self).elements@ == old(self).elements@,
            final(self).current_index == old(self).current_index + 1,
    {
        let n = self.elements.len();
        assert(self.current_index < n);
        self.current_index = self.current_index + 1;
    }

    /// Moves past every entry whose point offset is below `id` and returns the entry
    /// the cursor lands on; binary search over what is left.
    pub fn skip_to(&mut self, id: PointOffsetType) -> (r: Option<PostingElement>)
        requires
            old(self).wf(),
        ensures
            final(self).elements@ == old(self).elements@,
            final(self).wf(),
            old(self).current_index <= final(self).current_index,
            forall|i: int|
                old(self).current_index <= i < final(self).current_index
                    ==> old(self).elements@[i].record_id < id,
            final(self).current_index < final(self).elements@.len()
                ==> final(self).elements@[final(self).current_index as int].record_id >= id,
            r == if final(self).current_index < final(self).elements@.len() {
                Some(final(self).elements@[final(self).current_index as int])
            } else {
                None::<PostingElement>
            },
    {
        self.current_index = lower_bound(self.elements, self.current_index, id);
        self.peek()
    }

    /// Number of entries not yet consumed.
    pub fn len_to_end(&self) -> (r: usize)
        requires
            self.current_index <= self.elements@.len(),
        ensures
            r == self.elements@.len() - self.current_index,
    {
        self.elements.len() - self.current_index
    }
}

} // verus!
