use vstd::prelude::*;
use vstd::bytes::{
    lemma_auto_spec_u32_to_from_le_bytes, lemma_auto_spec_u64_to_from_le_bytes, spec_u32_from_le_bytes,
    spec_u32_to_le_bytes, spec_u64_from_le_bytes, spec_u64_to_le_bytes, u32_from_le_bytes, u32_to_le_bytes,
    u64_from_le_bytes, u64_to_le_bytes,
};
use vstd::slice::slice_subrange;

use crate::inverted_index_mmap::InvertedIndexMmap;
use crate::inverted_index_ram::InvertedIndexRam;
use crate::posting_list::{PostingElement, sorted_ids};
use crate::types::DimId;

verus! {

// The file is a header, a directory and the posting records, all little-endian:
//   header:    format version (u32), number of lists (u32), indexed vector count (u64)
//   directory: per dimension id, byte offset of its run (u64) and entry count (u32)
//   records:   per entry, point offset (u32) and weight bits (u32)

/// Version written into the header; a file of another version is refused.
pub const FORMAT_VERSION: u32 = 1;

/// Bytes before the directory.
pub const HEADER_LEN: usize = 16;

/// Why a byte run is not an index file.
#[derive(Clone, Copy, Debug, PartialEq, Eq, Structural)]
pub enum LayoutError {
    /// Shorter than a header.
    Truncated,
    /// The header names another format version.
    UnsupportedVersion,
    /// The directory points outside the file, a list is out of order, or the
    /// vector count does not fit this machine.
    Corrupt,
}

pub open spec fn u32_at(b: Seq<u8>, i: int) -> u32 {
    spec_u32_from_le_bytes(b.subrange(i, i + 4))
}

pub open spec fn u64_at(b: Seq<u8>, i: int) -> u64 {
    spec_u64_from_le_bytes(b.subrange(i, i + 8))
}

pub open spec fn record_at(b: Seq<u8>, pos: int) -> PostingElement {
    PostingElement { record_id: u32_at(b, pos), weight: u32_at(b, pos + 4) as i32 }
}

/// The `count` records that start at byte `offset`.
pub open spec fn run_at(b: Seq<u8>, offset: int, count: int) -> Seq<PostingElement> {
    Seq::new(count as nat, |i: int| record_at(b, offset + 8 * i))
}

pub open spec fn list_count(b: Seq<u8>) -> int {
    u32_at(b, 4) as int
}

pub open spec fn entry_offset(b: Seq<u8>, d: int) -> int {
    u64_at(b, 16 + 12 * d) as int
}

pub open spec fn entry_count(b: Seq<u8>, d: int) -> int {
    u32_at(b, 16 + 12 * d + 8) as int
}

/// The run of the list of dimension `d`.
pub open spec fn list_at(b: Seq<u8>, d: int) -> Seq<PostingElement> {
    run_at(b, entry_offset(b, d), entry_count(b, d))
}

pub open spec fn entry_ok(b: Seq<u8>, d: int) -> bool {
    &&& entry_offset(b, d) + 8 * entry_count(b, d) <= b.len()
    &&& sorted_ids(list_at(b, d))
}

/// `b` is a well-formed index file of the current version.
pub open spec fn valid_layout(b: Seq<u8>) -> bool {
    &&& b.len() >= 16
    &&& u32_at(b, 0) == FORMAT_VERSION
    &&& 16 + 12 * list_count(b) <= b.len()
    &&& u64_at(b, 8) <= usize::MAX
    &&& forall|d: int| 0 <= d < list_count(b) ==> #[trigger] entry_ok(b, d)
}

/// `b` holds exactly the lists and vector count of `m`.
pub open spec fn encodes(m: InvertedIndexMmap, b: Seq<u8>) -> bool {
    &&& valid_layout(b)
    &&& list_count(b) == m.directory@.len()
    &&& u64_at(b, 8) == m.vector_count
    &&& forall|d: int| 0 <= d < list_count(b) ==> #[trigger] list_at(b, d) == m.run(d)
}

proof fn lemma_reads_stable(a: Seq<u8>, ext: Seq<u8>)
    ensures
        forall|i: int| 0 <= i && i + 4 <= a.len() ==> #[trigger] u32_at(a + ext, i) == u32_at(a, i),
        forall|i: int| 0 <= i && i + 8 <= a.len() ==> #[trigger] u64_at(a + ext, i) == u64_at(a, i),
{
    assert forall|i: int| 0 <= i && i + 4 <= a.len() implies #[trigger] u32_at(a + ext, i) == u32_at(a, i) by {
        assert((a + ext).subrange(i, i + 4) =~= a.subrange(i, i + 4));
    }
    assert forall|i: int| 0 <= i && i + 8 <= a.len() implies #[trigger] u64_at(a + ext, i) == u64_at(a, i) by {
        assert((a + ext).subrange(i, i + 8) =~= a.subrange(i, i + 8));
    }
}

fn push_u32(out: &mut Vec<u8>, x: u32)
    ensures
        final(out)@ == old(out)@ + spec_u32_to_le_bytes(x),
        final(out)@.len() == old(out)@.len() + 4,
        u32_at(final(out)@, old(out)@.len() as int) == x,
        forall|i: int| 0 <= i && i + 4 <= old(out)@.len() ==> #[trigger] u32_at(final(out)@, i) == u32_at(old(out)@, i),
        forall|i: int| 0 <= i && i + 8 <= old(out)@.len() ==> #[trigger] u64_at(final(out)@, i) == u64_at(old(out)@, i),
{
    let ghost a = out@;
    let mut bytes = u32_to_le_bytes(x);
    out.append(&mut bytes);
    proof {
        lemma_auto_spec_u32_to_from_le_bytes();
        lemma_reads_stable(a, spec_u32_to_le_bytes(x));
        assert(out@.subrange(a.len() as int, a.len() + 4int) =~= spec_u32_to_le_bytes(x));
    }
}

fn push_u64(out: &mut Vec<u8>, x: u64)
    ensures
        final(out)@ == old(out)@ + spec_u64_to_le_bytes(x),
        final(out)@.len() == old(out)@.len() + 8,
        u64_at(final(out)@, old(out)@.len() as int) == x,
        forall|i: int| 0 <= i && i + 4 <= old(out)@.len() ==> #[trigger] u32_at(final(out)@, i) == u32_at(old(out)@, i),
        forall|i: int| 0 <= i && i + 8 <= old(out)@.len() ==> #[trigger] u64_at(final(out)@, i) == u64_at(old(out)@, i),
{
    let ghost a = out@;
    let mut bytes = u64_to_le_bytes(x);
    out.append(&mut bytes);
    proof {
        lemma_auto_spec_u64_to_from_le_bytes();
        lemma_reads_stable(a, spec_u64_to_le_bytes(x));
        assert(out@.subrange(a.len() as int, a.len() + 8int) =~= spec_u64_to_le_bytes(x));
    }
}

fn read_u32(b: &[u8], i: usize) -> (r: u32)
    requires
        i + 4 <= b@.len(),
    ensures
        r == u32_at(b@, i as int),
{
    let n = b.len();
    assert(i + 4 <= n);
    u32_from_le_bytes(slice_subrange(b, i, i + 4))
}

fn read_u64(b: &[u8], i: usize) -> (r: u64)
    requires
        i + 8 <= b@.len(),
    ensures
        r == u64_at(b@, i as int),
{
    let n = b.len();
    assert(i + 8 <= n);
    u64_from_le_bytes(slice_subrange(b, i, i + 8))
}

/// Writes the index in the file layout: header, directory, then every record.
pub fn to_bytes(m: &InvertedIndexMmap) -> (r: Vec<u8>)
    requires
        m.wf(),
        m.fits_file(),
    ensures
        encodes(*m, r@),
        r@.len() == 16 + 12 * m.directory@.len() + 8 * m.elements@.len(),
        forall|d: int|
            0 <= d < m.directory@.len() ==> entry_offset(r@, d) == 16 + 12 * m.directory@.len() + 8 * (
            #[trigger] m.directory@[d]).0 && entry_count(r@, d) == m.directory@[d].1 - m.directory@[d].0,
        forall|k: int|
            0 <= k < m.elements@.len() ==> #[trigger] record_at(r@, 16 + 12 * m.directory@.len() + 8 * k)
                == m.elements@[k],
{
    let n = m.directory.len();
    let total = m.elements.len();
    let mut out: Vec<u8> = Vec::new();
    push_u32(&mut out, FORMAT_VERSION);
    push_u32(&mut out, n as u32);
    push_u64(&mut out, m.vector_count as u64);
    let data_start: u64 = 16 + 12 * (n as u64);
    let mut d: usize = 0;
    while d < n
        invariant
            m.wf(),
            n == m.directory@.len(),
            n <= u32::MAX,
            total == m.elements@.len(),
            16 + 12 * n + 8 * total <= usize::MAX,
            forall|dd: int| 0 <= dd < n ==> (#[trigger] m.directory@[dd]).1 - m.directory@[dd].0 <= u32::MAX,
            data_start == 16 + 12 * n,
            d <= n,
            out@.len() == 16 + 12 * d,
            u32_at(out@, 0) == FORMAT_VERSION,
            u32_at(out@, 4) == n,
            u64_at(out@, 8) == m.vector_count,
            forall|dd: int|
                0 <= dd < d ==> u64_at(out@, 16 + 12 * dd) == data_start + 8 * (#[trigger] m.directory@[dd]).0
                    && u32_at(out@, 16 + 12 * dd + 8) == m.directory@[dd].1 - m.directory@[dd].0,
        decreases n - d,
    {
        let ghost prev = out@;
        let (s, e) = m.directory[d];
        assert(s <= e <= total);
        push_u64(&mut out, data_start + 8 * (s as u64));
        push_u32(&mut out, (e - s) as u32);
        proof {
            assert forall|dd: int| 0 <= dd < d + 1 implies u64_at(out@, 16 + 12 * dd) == data_start + 8 * (
            #[trigger] m.directory@[dd]).0 && u32_at(out@, 16 + 12 * dd + 8) == m.directory@[dd].1
                - m.directory@[dd].0 by {
                if dd < d {
                    assert(u64_at(prev, 16 + 12 * dd) == data_start + 8 * m.directory@[dd].0);
                }
            }
        }
        d = d + 1;
    }
    let mut k: usize = 0;
    while k < total
        invariant
            m.wf(),
            n == m.directory@.len(),
            total == m.elements@.len(),
            16 + 12 * n + 8 * total <= usize::MAX,
            n <= u32::MAX,
            data_start == 16 + 12 * n,
            k <= total,
            out@.len() == data_start + 8 * k,
            u32_at(out@, 0) == FORMAT_VERSION,
            u32_at(out@, 4) == n,
            u64_at(out@, 8) == m.vector_count,
            forall|dd: int|
                0 <= dd < n ==> u64_at(out@, 16 + 12 * dd) == data_start + 8 * (#[trigger] m.directory@[dd]).0
                    && u32_at(out@, 16 + 12 * dd + 8) == m.directory@[dd].1 - m.directory@[dd].0,
            forall|kk: int| 0 <= kk < k ==> #[trigger] record_at(out@, data_start + 8 * kk) == m.elements@[kk],
        decreases total - k,
    {
        let ghost prev = out@;
        let element = m.elements[k];
        push_u32(&mut out, element.record_id);
        push_u32(&mut out, element.weight as u32);
        proof {
            let w = element.weight;
            assert((w as u32) as i32 == w) by (bit_vector);
            assert(record_at(out@, data_start + 8 * k) == element);
            assert forall|kk: int| 0 <= kk < k + 1 implies #[trigger] record_at(out@, data_start + 8 * kk)
                == m.elements@[kk] by {
                if kk < k {
                    assert(record_at(prev, data_start + 8 * kk) == m.elements@[kk]);
                }
            }
            assert forall|dd: int| 0 <= dd < n implies u64_at(out@, 16 + 12 * dd) == data_start + 8 * (
            #[trigger] m.directory@[dd]).0 && u32_at(out@, 16 + 12 * dd + 8) == m.directory@[dd].1
                - m.directory@[dd].0 by {
                assert(u64_at(prev, 16 + 12 * dd) == data_start + 8 * m.directory@[dd].0);
            }
        }
        k = k + 1;
    }
    proof {
        let b = out@;
        assert forall|dd: int| 0 <= dd < list_count(b) implies #[trigger] entry_ok(b, dd) && list_at(b, dd)
            == m.run(dd) by {
            let (s, e) = m.directory@[dd];
            assert(m.directory@[dd] == (s, e));
            assert(entry_offset(b, dd) == data_start + 8 * s);
            assert(entry_count(b, dd) == e - s);
            assert forall|i: int| 0 <= i < e - s implies #[trigger] list_at(b, dd)[i] == m.elements@.subrange(
                s as int,
                e as int,
            )[i] by {
                assert(data_start + 8 * s + 8 * i == data_start + 8 * (s + i));
                assert(record_at(b, data_start + 8 * (s + i)) == m.elements@[s + i]);
            }
            assert(list_at(b, dd) =~= m.elements@.subrange(s as int, e as int));
        }
        assert(b.len() >= 16);
        assert(list_count(b) == n);
        assert(16 + 12 * list_count(b) <= b.len());
        assert(u64_at(b, 8) <= usize::MAX);
        assert(valid_layout(b));
        assert(u64_at(b, 8) == m.vector_count);
        assert forall|d: int| 0 <= d < list_count(b) implies #[trigger] list_at(b, d) == m.run(d) by {
            assert(entry_ok(b, d));
        }
    }
    out
}

/// Reads an index file, refusing one of another version or one that does not
/// hold together.
pub fn from_bytes(b: &[u8], path: String) -> (r: Result<InvertedIndexMmap, LayoutError>)
    ensures
        r is Ok <==> valid_layout(b@),
        r matches Err(e) ==> e == if b@.len() < 16 {
            LayoutError::Truncated
        } else if u32_at(b@, 0) != FORMAT_VERSION {
            LayoutError::UnsupportedVersion
        } else {
            LayoutError::Corrupt
        },
        r matches Ok(m) ==> {
            &&& m.wf()
            &&& m.path@ == path@
            &&& m.directory@.len() == list_count(b@)
            &&& m.vector_count == u64_at(b@, 8)
            &&& forall|d: int| 0 <= d < list_count(b@) ==> m.run(d) == #[trigger] list_at(b@, d)
        },
{
    let len = b.len();
    if len < HEADER_LEN {
        return Err(LayoutError::Truncated);
    }
    if read_u32(b, 0) != FORMAT_VERSION {
        return Err(LayoutError::UnsupportedVersion);
    }
    let n32 = read_u32(b, 4);
    let n = n32 as usize;
    if 16 + 12 * (n32 as u64) > len as u64 {
        return Err(LayoutError::Corrupt);
    }
    let vector_count = read_u64(b, 8);
    if vector_count > usize::MAX as u64 {
        return Err(LayoutError::Corrupt);
    }
    let mut directory: Vec<(usize, usize)> = Vec::new();
    let mut elements: Vec<PostingElement> = Vec::new();
    let mut d: usize = 0;
    while d < n
        invariant
            len == b@.len(),
            len >= 16,
            u32_at(b@, 0) == FORMAT_VERSION,
            vector_count == u64_at(b@, 8),
            vector_count <= usize::MAX,
            n <= u32::MAX,
            n == list_count(b@),
            16 + 12 * n <= len,
            d <= n,
            directory@.len() == d,
            forall|dd: int| 0 <= dd < d ==> #[trigger] entry_ok(b@, dd),
            forall|dd: int|
                0 <= dd < d ==> {
                    let (s, e) = #[trigger] directory@[dd];
                    &&& s <= e <= elements@.len()
                    &&& elements@.subrange(s as int, e as int) == list_at(b@, dd)
                },
        decreases n - d,
    {
        let pos = 16 + 12 * d;
        let offset = read_u64(b, pos);
        let count = read_u32(b, pos + 8);
        if offset > len as u64 || (count as u64) * 8 > len as u64 - offset {
            assert(!entry_ok(b@, d as int));
            return Err(LayoutError::Corrupt);
        }
        let ghost run = list_at(b@, d as int);
        let start = elements.len();
        let mut i: usize = 0;
        while i < count as usize
            invariant
                len == b@.len(),
                len >= 16,
                u32_at(b@, 0) == FORMAT_VERSION,
                d < n,
                n == list_count(b@),
                offset + 8 * count <= len,
                count == entry_count(b@, d as int),
                offset == entry_offset(b@, d as int),
                run == list_at(b@, d as int),
                i <= count,
                start <= elements@.len(),
                elements@.len() == start + i,
                elements@.subrange(start as int, elements@.len() as int) == run.subrange(0, i as int),
                sorted_ids(run.subrange(0, i as int)),
                directory@.len() == d,
                forall|dd: int|
                    0 <= dd < d ==> {
                        let (s, e) = #[trigger] directory@[dd];
                        &&& s <= e <= start
                        &&& elements@.subrange(s as int, e as int) == list_at(b@, dd)
                    },
            decreases count - i,
        {
            let at = offset as usize + 8 * i;
            let record_id = read_u32(b, at);
            let weight = read_u32(b, at + 4) as i32;
            let element = PostingElement { record_id, weight };
            assert(element == run[i as int]);
            if i > 0 && elements[elements.len() - 1].record_id >= record_id {
                assert(elements@[elements@.len() - 1] == elements@.subrange(start as int, elements@.len() as int)[i - 1]);
                assert(run[i - 1].record_id >= run[i as int].record_id);
                assert(!sorted_ids(run));
                assert(!entry_ok(b@, d as int));
                return Err(LayoutError::Corrupt);
            }
            let ghost prev = elements@;
            elements.push(element);
            proof {
                assert(elements@.subrange(start as int, elements@.len() as int) =~= run.subrange(0, i + 1));
                let sub = run.subrange(0, i + 1);
                assert forall|a: int, c: int| 0 <= a < c < i + 1 implies (#[trigger] sub[a]).record_id
                    < (#[trigger] sub[c]).record_id by {
                    if c < i {
                        assert(run.subrange(0, i as int)[a] == run[a]);
                        assert(run.subrange(0, i as int)[c] == run[c]);
                    } else if a < i - 1 {
                        assert(run.subrange(0, i as int)[a] == run[a]);
                        assert(run.subrange(0, i as int)[i - 1] == run[i - 1]);
                    }
                }
                assert forall|dd: int| 0 <= dd < d implies {
                    let (s, e) = #[trigger] directory@[dd];
                    elements@.subrange(s as int, e as int) == list_at(b@, dd)
                } by {
                    let (s, e) = directory@[dd];
                    assert(elements@.subrange(s as int, e as int) =~= prev.subrange(s as int, e as int));
                }
            }
            i = i + 1;
        }
        assert(run.subrange(0, count as int) =~= run);
        assert(elements@.subrange(start as int, elements@.len() as int) == run);
        directory.push((start, elements.len()));
        d = d + 1;
    }
    let m = InvertedIndexMmap { path, directory, elements, vector_count: vector_count as usize };
    assert forall|dd: int| 0 <= dd < m.directory@.len() implies {
        let (s, e) = #[trigger] m.directory@[dd];
        &&& s <= e <= m.elements@.len()
        &&& sorted_ids(m.elements@.subrange(s as int, e as int))
    } by {
        assert(entry_ok(b@, dd));
        assert(m.directory@[dd] == directory@[dd]);
    }
    assert forall|dd: int| 0 <= dd < list_count(b@) implies m.run(dd) == #[trigger] list_at(b@, dd) by {
        assert(m.directory@[dd] == directory@[dd]);
    }
    Ok(m)
}

/// Writing an index and reading the bytes back gives the same lists, dimension by
/// dimension, and the same vector count.
pub proof fn lemma_layout_round_trip(m: InvertedIndexMmap, b: Seq<u8>, back: InvertedIndexMmap)
    requires
        encodes(m, b),
        back.directory@.len() == list_count(b),
        back.vector_count == u64_at(b, 8),
        forall|d: int| 0 <= d < list_count(b) ==> back.run(d) == #[trigger] list_at(b, d),
    ensures
        forall|d: u32| #[trigger] back.list(d) == m.list(d),
        back.vector_count == m.vector_count,
{
    assert forall|d: u32| #[trigger] back.list(d) == m.list(d) by {
        if (d as int) < list_count(b) {
            assert(back.run(d as int) == list_at(b, d as int));
        }
    }
}

/// Laying a RAM index out for serving, writing it and reading the bytes back gives,
/// for every dimension, the same ordered list as the RAM index (`None` for a
/// dimension no point has a posting in), and the same indexed vector count.
pub proof fn lemma_ram_layout_round_trip(
    ram: InvertedIndexRam,
    m: InvertedIndexMmap,
    b: Seq<u8>,
    back: InvertedIndexMmap,
)
    requires
        ram.wf(),
        forall|d: DimId| #[trigger] m.list(d) == ram.list(d),
        m.vector_count == ram.vector_count,
        encodes(m, b),
        back.directory@.len() == list_count(b),
        back.vector_count == u64_at(b, 8),
        forall|d: int| 0 <= d < list_count(b) ==> back.run(d) == #[trigger] list_at(b, d),
    ensures
        forall|d: DimId| #[trigger] back.list(d) == ram.list(d),
        back.vector_count == ram.vector_count,
{
    lemma_layout_round_trip(m, b, back);
    assert forall|d: DimId| #[trigger] back.list(d) == ram.list(d) by {
        assert(back.list(d) == m.list(d));
    }
}

} // verus!
