use vstd::prelude::*;
use vstd::slice::slice_subrange;

use crate::inverted_index_ram::InvertedIndexRam;
use crate::posting_list::{PostingElement, sorted_ids};
use crate::types::DimId;

verus! {

/// The immutable serving index: every posting list stored back to back in one run,
/// with a directory giving each dimension's stretch of it.
pub struct InvertedIndexMmap {
    /// The file that holds this index.
    pub path: String,
    /// For each dimension id, the start and end of its list within `elements`.
    pub directory: Vec<(usize, usize)>,
    /// All posting lists, one after another.
    pub elements: Vec<PostingElement>,
    /// Number of points with at least one posting.
    pub vector_count: usize,
}

impl InvertedIndexMmap {
    pub open spec fn wf(&self) -> bool {
        &&& self.directory@.len() <= 0x1_0000_0000
        &&& forall|d: int|
            0 <= d < self.directory@.len() ==> {
                let (s, e) = #[trigger] self.directory@[d];
                &&& s <= e <= self.elements@.len()
                &&& sorted_ids(self.elements@.subrange(s as int, e as int))
            }
    }

    /// The stretch of `elements` that the directory gives dimension `d`.
    pub open spec fn run(&self, d: int) -> Seq<PostingElement> {
        let (s, e) = self.directory@[d];
        self.elements@.subrange(s as int, e as int)
    }

    /// The entries of dimension `d`, or `None` where no point has a posting there.
    pub open spec fn list(&self, d: DimId) -> Option<Seq<PostingElement>> {
        if (d as int) < self.directory@.len() && self.run(d as int).len() > 0 {
            Some(self.run(d as int))
        } else {
            None
        }
    }

    /// Lays the lists of a RAM index out back to back.
    pub fn from_ram(ram: &InvertedIndexRam, path: String) -> (r: InvertedIndexMmap)
        requires
            ram.wf(),
        ensures
            r.wf(),
            r.path@ == path@,
            r.directory@.len() == ram.postings@.len(),
            forall|d: int| 0 <= d < ram.postings@.len() ==> #[trigger] r.run(d) == ram.postings@[d].elements@,
            forall|d: DimId| #[trigger] r.list(d) == ram.list(d),
            r.vector_count == ram.vector_count,
    {
        let mut directory: Vec<(usize, usize)> = Vec::new();
        let mut elements: Vec<PostingElement> = Vec::new();
        let n = ram.postings.len();
        let mut d: usize = 0;
        while d < n
            invariant
                n == ram.postings@.len(),
                ram.wf(),
                d <= n,
                directory@.len() == d,
                forall|e: int|
                    0 <= e < d ==> {
                        let (s, t) = #[trigger] directory@[e];
                        &&& s <= t <= elements@.len()
                        &&& elements@.subrange(s as int, t as int) == ram.postings@[e].elements@
                    },
            decreases n - d,
        {
            let start = elements.len();
            let list = &ram.postings[d].elements;
            let mut i: usize = 0;
            while i < list.len()
                invariant
                    start <= elements@.len(),
                    i <= list@.len(),
                    elements@.len() == start + i,
                    elements@.subrange(start as int, elements@.len() as int) == list@.subrange(0, i as int),
                    directory@.len() == d,
                    forall|e: int|
                        0 <= e < d ==> {
                            let (s, t) = #[trigger] directory@[e];
                            &&& s <= t <= start
                            &&& elements@.subrange(s as int, t as int) == ram.postings@[e].elements@
                        },
                decreases list@.len() - i,
            {
                let ghost prev = elements@;
                elements.push(list[i]);
                proof {
                    assert(elements@.subrange(start as int, elements@.len() as int) =~= list@.subrange(
                        0,
                        i + 1,
                    ));
                    assert forall|e: int| 0 <= e < d implies {
                        let (s, t) = #[trigger] directory@[e];
                        elements@.subrange(s as int, t as int) == ram.postings@[e].elements@
                    } by {
                        let (s, t) = directory@[e];
                        assert(elements@.subrange(s as int, t as int) =~= prev.subrange(s as int, t as int));
                    }
                }
                i = i + 1;
            }
            assert(list@.subrange(0, list@.len() as int) =~= list@);
            directory.push((start, elements.len()));
            d = d + 1;
        }
        let r = InvertedIndexMmap { path, directory, elements, vector_count: ram.vector_count };
        assert forall|dd: int| 0 <= dd < ram.postings@.len() implies #[trigger] r.run(dd)
            == ram.postings@[dd].elements@ by {
            assert(r.directory@[dd] == directory@[dd]);
        }
        assert forall|dd: DimId| #[trigger] r.list(dd) == ram.list(dd) by {
            if (dd as int) < ram.postings@.len() {
                assert(r.run(dd as int) == ram.postings@[dd as int].elements@);
            }
        }
        assert forall|e: int| 0 <= e < r.directory@.len() implies {
            let (s, t) = #[trigger] r.directory@[e];
            &&& s <= t <= r.elements@.len()
            &&& sorted_ids(r.elements@.subrange(s as int, t as int))
        } by {
            assert(ram.postings@[e].wf());
        }
        r
    }

    /// The list of dimension `id`, read in place; `None` where no point has a
    /// posting in that dimension.
    pub fn get(&self, id: &DimId) -> (r: Option<&[PostingElement]>)
        requires
            self.wf(),
        ensures
            r is Some == self.list(*id) is Some,
            r matches Some(s) ==> s@ == self.list(*id)->Some_0,
    {
        if (*id as usize) < self.directory.len() {
            let (s, e) = self.directory[*id as usize];
            if s < e {
                Some(slice_subrange(self.elements.as_slice(), s, e))
            } else {
                None
            }
        } else {
            None
        }
    }

    /// The files that hold this index.
    pub fn files(&self) -> (r: Vec<String>)
        ensures
            r@.len() == 1,
            r@[0]@ == self.path@,
    {
        let mut v: Vec<String> = Vec::new();
        v.push(self.path.clone());
        v
    }

    /// Number of points with at least one posting.
    pub fn indexed_vector_count(&self) -> (r: usize)
        ensures
            r == self.vector_count,
    {
        self.vector_count
    }

    /// Within what the file layout can record: a list count and every list's
    /// length fit in 32 bits, and the whole file fits in memory.
    pub open spec fn fits_file(&self) -> bool {
        &&& self.directory@.len() <= u32::MAX
        &&& forall|d: int|
            0 <= d < self.directory@.len() ==> (#[trigger] self.directory@[d]).1 - self.directory@[d].0
                <= u32::MAX
        &&& 16 + 12 * self.directory@.len() + 8 * self.elements@.len() <= usize::MAX
    }

    /// Whether the directory stays inside `elements`, every run is sorted, and the
    /// index fits the file layout.
    pub fn fits_layout(&self) -> (r: bool)
        ensures
            r == (self.wf() && self.fits_file()),
    {
        let n = self.directory.len();
        let total = self.elements.len();
        if n as u128 > u32::MAX as u128 || 16 + 12 * (n as u128) + 8 * (total as u128) > usize::MAX as u128 {
            return false;
        }
        let mut d: usize = 0;
        while d < n
            invariant
                n == self.directory@.len(),
                total == self.elements@.len(),
                n <= u32::MAX,
                16 + 12 * n + 8 * total <= usize::MAX,
                d <= n,
                forall|dd: int|
                    0 <= dd < d ==> {
                        let (s, e) = #[trigger] self.directory@[dd];
                        &&& s <= e <= total
                        &&& e - s <= u32::MAX
                        &&& sorted_ids(self.elements@.subrange(s as int, e as int))
                    },
            decreases n - d,
        {
            let (s, e) = self.directory[d];
            if s > e || e > total || e - s > u32::MAX as usize {
                assert(!self.wf() || !self.fits_file()) by {
                    assert(self.directory@[d as int] == (s, e));
                }
                return false;
            }
            let mut i: usize = s + 1;
            while i < e
                invariant
                    s < i,
                    s <= e <= total,
                    i <= e || i == s + 1,
                    total == self.elements@.len(),
                    d < n,
                    n == self.directory@.len(),
                    self.directory@[d as int] == (s, e),
                    forall|a: int, b: int| s <= a < b < i && b < e ==> self.elements@[a].record_id < self.elements@[b].record_id,
                decreases e - i,
            {
                if self.elements[i - 1].record_id >= self.elements[i].record_id {
                    assert(!self.wf()) by {
                        let run = self.elements@.subrange(s as int, e as int);
                        assert(run[i - 1 - s] == self.elements@[i - 1]);
                        assert(run[i - s] == self.elements@[i as int]);
                        assert(self.directory@[d as int] == (s, e));
                    }
                    return false;
                }
                i = i + 1;
            }
            assert(sorted_ids(self.elements@.subrange(s as int, e as int))) by {
                let run = self.elements@.subrange(s as int, e as int);
                assert forall|a: int, b: int| 0 <= a < b < run.len() implies (#[trigger] run[a]).record_id
                    < (#[trigger] run[b]).record_id by {
                    assert(run[a] == self.elements@[s + a]);
                    assert(run[b] == self.elements@[s + b]);
                }
            }
            d = d + 1;
        }
        true
    }
}

} // verus!
