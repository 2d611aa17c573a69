//! The sample map: where each coded sample lies in `mdat`, built from a
//! track's chunk offset, sample-to-chunk and sample size tables.

use std::collections::VecDeque;
use vstd::prelude::*;
use vstd::set_lib::{lemma_int_range, lemma_len_subset, set_int_range};

use crate::boxes::ParseError;
use crate::bytes::{be_u32, read_u32_be};
use crate::moov::{MOOVBox, STCOBox, STSCBox, STSZBox, Streams, TRAKBox};

verus! {

/// One coded sample of the map: its size and whether it is video.
#[derive(Clone, Copy, Debug, PartialEq, Eq, Structural)]
pub struct SampleData {
    pub size: u32,
    pub is_video: bool,
}

/// The samples of one chunk, at one file offset.
#[derive(Clone, Debug)]
pub struct ChunkData {
    pub is_video: bool,
    pub offset: u32,
    pub sample_sizes: Vec<u32>,
}

/// The big-endian 32-bit words of `d`; trailing bytes that do not fill a word are ignored.
pub open spec fn be_words(d: Seq<u8>) -> Seq<u32> {
    Seq::new((d.len() / 4) as nat, |i: int| be_u32(d, 4 * i) as u32)
}

/// Reads the big-endian 32-bit words of `d`.
pub fn read_words(d: &[u8]) -> (r: Vec<u32>)
    ensures
        r@ == be_words(d@),
{
    let len = d.len();
    let n = len / 4;
    let mut r: Vec<u32> = Vec::new();
    let mut i: usize = 0;
    while i < n
        invariant
            len == d@.len(),
            n == d@.len() / 4,
            i <= n,
            r@ == be_words(d@).subrange(0, i as int),
        decreases n - i,
    {
        assert(4 * i + 4 <= d@.len()) by (nonlinear_arith)
            requires
                i < n,
                n == d@.len() / 4,
        ;
        let w = read_u32_be(d, 4 * i);
        r.push(w);
        i = i + 1;
        assert(r@ =~= be_words(d@).subrange(0, i as int));
    }
    assert(r@ =~= be_words(d@));
    r
}

/// An `stco` payload whose entry count matches the offsets it holds.
pub open spec fn stco_valid(d: Seq<u8>) -> bool {
    let w = be_words(d);
    w.len() >= 2 && w[1] == w.len() - 2
}

/// The chunk offsets of a valid `stco` payload.
pub open spec fn stco_offsets(d: Seq<u8>) -> Seq<u32> {
    be_words(d).subrange(2, be_words(d).len() as int)
}

/// Reads the chunk offsets of an `stco` box.
pub fn parse_stco(stco_box: &STCOBox) -> (r: Vec<u32>)
    requires
        stco_valid(stco_box.data@),
    ensures
        r@ == stco_offsets(stco_box.data@),
{
    let w = read_words(stco_box.data.as_slice());
    let mut r: Vec<u32> = Vec::new();
    let mut i: usize = 2;
    while i < w.len()
        invariant
            2 <= i <= w@.len(),
            r@ == w@.subrange(2, i as int),
        decreases w@.len() - i,
    {
        r.push(w[i]);
        i = i + 1;
        assert(r@ =~= w@.subrange(2, i as int));
    }
    r
}

/// The `(first_chunk, samples_per_chunk)` entries of an `stsc` payload.
pub open spec fn stsc_entries(d: Seq<u8>) -> Seq<(u32, u32)> {
    let w = be_words(d);
    Seq::new(((w.len() - 2) / 3) as nat, |j: int| (w[2 + 3 * j], w[3 + 3 * j]))
}

/// An `stsc` payload with a header, and an entry when there are chunks to describe.
pub open spec fn stsc_valid(d: Seq<u8>, chunks: nat) -> bool {
    be_words(d).len() >= 2 && (chunks > 0 ==> stsc_entries(d).len() >= 1)
}

/// Index of the entry with the largest `first_chunk` not above `chunk` (the
/// last such in table order), if any.
pub open spec fn stsc_pick(es: Seq<(u32, u32)>, chunk: int) -> Option<int>
    decreases es.len(),
{
    if es.len() == 0 {
        None
    } else {
        let j = es.len() - 1;
        let p = stsc_pick(es.drop_last(), chunk);
        if es[j].0 <= chunk && (p is None || es[p->0].0 <= es[j].0) {
            Some(j)
        } else {
            p
        }
    }
}

/// Samples per chunk for chunk number `chunk` (counted from one); the first
/// entry where no entry starts at or before it.
pub open spec fn samples_in_chunk(es: Seq<(u32, u32)>, chunk: int) -> u32 {
    match stsc_pick(es, chunk) {
        Some(j) => es[j].1,
        None => es[0].1,
    }
}

/// Each chunk offset with the number of samples of its chunk.
pub open spec fn stsc_counts(d: Seq<u8>, offsets: Seq<u32>) -> Seq<(u32, u32)> {
    Seq::new(offsets.len(), |i: int| (offsets[i], samples_in_chunk(stsc_entries(d), i + 1)))
}

/// Reads the entries of an `stsc` payload.
fn read_stsc_entries(d: &[u8]) -> (r: Vec<(u32, u32)>)
    requires
        be_words(d@).len() >= 2,
    ensures
        r@ == stsc_entries(d@),
{
    let w = read_words(d);
    let wl = w.len();
    let n = (wl - 2) / 3;
    let mut r: Vec<(u32, u32)> = Vec::new();
    let mut j: usize = 0;
    while j < n
        invariant
            wl == w@.len(),
            w@ == be_words(d@),
            n == (w@.len() - 2) / 3,
            j <= n,
            r@ == stsc_entries(d@).subrange(0, j as int),
        decreases n - j,
    {
        assert(3 * j + 5 <= w@.len()) by (nonlinear_arith)
            requires
                j < n,
                n == (w@.len() - 2) / 3,
                w@.len() >= 2,
        ;
        r.push((w[2 + 3 * j], w[3 + 3 * j]));
        j = j + 1;
        assert(r@ =~= stsc_entries(d@).subrange(0, j as int));
    }
    assert(r@ =~= stsc_entries(d@));
    r
}

/// The number of samples of chunk number `chunk` (counted from one).
fn samples_for_chunk(es: &Vec<(u32, u32)>, chunk: usize) -> (r: u32)
    requires
        es@.len() >= 1,
    ensures
        r == samples_in_chunk(es@, chunk as int),
{
    let mut best: Option<usize> = None;
    let mut j: usize = 0;
    while j < es.len()
        invariant
            j <= es@.len(),
            best is Some ==> best->0 < j,
            match best {
                Some(b) => stsc_pick(es@.subrange(0, j as int), chunk as int) == Some(b as int),
                None => stsc_pick(es@.subrange(0, j as int), chunk as int) is None,
            },
        decreases es@.len() - j,
    {
        let ghost part = es@.subrange(0, j + 1);
        assert(part.drop_last() =~= es@.subrange(0, j as int));
        assert(forall|k: int| 0 <= k <= j ==> part[k] == es@[k]);
        if es[j].0 as usize <= chunk {
            let better = match best {
                Some(b) => es[b].0 <= es[j].0,
                None => true,
            };
            if better {
                best = Some(j);
            }
        }
        j = j + 1;
    }
    assert(es@.subrange(0, es@.len() as int) =~= es@);
    match best {
        Some(b) => es[b].1,
        None => es[0].1,
    }
}

/// Pairs each chunk offset with the number of samples its chunk holds.
pub fn parse_stsc(stsc: &STSCBox, chunk_offsets: Vec<u32>) -> (r: Vec<(u32, u32)>)
    requires
        stsc_valid(stsc.data@, chunk_offsets@.len()),
    ensures
        r@ == stsc_counts(stsc.data@, chunk_offsets@),
{
    let es = read_stsc_entries(stsc.data.as_slice());
    let mut r: Vec<(u32, u32)> = Vec::new();
    let mut i: usize = 0;
    while i < chunk_offsets.len()
        invariant
            es@ == stsc_entries(stsc.data@),
            chunk_offsets@.len() > 0 ==> es@.len() >= 1,
            i <= chunk_offsets@.len(),
            r@ == stsc_counts(stsc.data@, chunk_offsets@).subrange(0, i as int),
        decreases chunk_offsets@.len() - i,
    {
        let n = samples_for_chunk(&es, i + 1);
        r.push((chunk_offsets[i], n));
        i = i + 1;
        assert(r@ =~= stsc_counts(stsc.data@, chunk_offsets@).subrange(0, i as int));
    }
    assert(r@ =~= stsc_counts(stsc.data@, chunk_offsets@));
    r
}

/// A chunk: media kind, file offset and the sizes of its samples.
pub struct ChunkModel {
    pub is_video: bool,
    pub offset: u32,
    pub sizes: Seq<u32>,
}

impl View for ChunkData {
    type V = ChunkModel;

    open spec fn view(&self) -> ChunkModel {
        ChunkModel { is_video: self.is_video, offset: self.offset, sizes: self.sample_sizes@ }
    }
}

/// The models of a sequence of chunks.
pub open spec fn chunk_models(v: Seq<ChunkData>) -> Seq<ChunkModel> {
    v.map_values(|c: ChunkData| c@)
}

/// The number of samples in the first `k` chunks of `cs`.
pub open spec fn count_before(cs: Seq<(u32, u32)>, k: int) -> int
    decreases k,
{
    if k <= 0 {
        0
    } else {
        count_before(cs, k - 1) + cs[k - 1].1
    }
}

/// The samples of fewer chunks are no more.
pub proof fn lemma_count_before_monotonic(cs: Seq<(u32, u32)>, j: int, k: int)
    requires
        0 <= j <= k,
    ensures
        count_before(cs, j) <= count_before(cs, k),
    decreases k - j,
{
    if j < k {
        lemma_count_before_monotonic(cs, j, k - 1);
    }
}

/// An `stsz` payload that gives a size to every sample of the chunks `cs`:
/// a default size, or a table long enough.
pub open spec fn stsz_fits(d: Seq<u8>, cs: Seq<(u32, u32)>) -> bool {
    let w = be_words(d);
    &&& w.len() >= 2
    &&& w[1] == 0 ==> w.len() >= 3 && count_before(cs, cs.len() as int) <= w.len() - 3
}

/// Chunk `k` of `cs` with the sample sizes that the `stsz` payload `d` gives it.
pub open spec fn stsz_chunk(d: Seq<u8>, cs: Seq<(u32, u32)>, k: int, is_video: bool) -> ChunkModel {
    let w = be_words(d);
    let n = cs[k].1 as int;
    let start = 3 + count_before(cs, k);
    ChunkModel {
        is_video,
        offset: cs[k].0,
        sizes: if w[1] != 0 {
            Seq::new(n as nat, |i: int| w[1])
        } else {
            w.subrange(start, start + n)
        },
    }
}

/// The chunks `cs` with the sample sizes of the `stsz` payload `d`.
pub open spec fn stsz_chunks(d: Seq<u8>, cs: Seq<(u32, u32)>, is_video: bool) -> Seq<ChunkModel> {
    Seq::new(cs.len(), |k: int| stsz_chunk(d, cs, k, is_video))
}

/// `n` copies of `x`.
fn repeat_u32(x: u32, n: u32) -> (r: Vec<u32>)
    ensures
        r@ == Seq::new(n as nat, |i: int| x),
{
    let mut r: Vec<u32> = Vec::new();
    let mut i: u32 = 0;
    while i < n
        invariant
            i <= n,
            r@ == Seq::new(i as nat, |k: int| x),
        decreases n - i,
    {
        r.push(x);
        i = i + 1;
        assert(r@ =~= Seq::new(i as nat, |k: int| x));
    }
    r
}

/// Copies `w[from..to]`.
fn copy_words(w: &Vec<u32>, from: usize, to: usize) -> (r: Vec<u32>)
    requires
        from <= to <= w@.len(),
    ensures
        r@ == w@.subrange(from as int, to as int),
{
    let mut r: Vec<u32> = Vec::new();
    let mut i: usize = from;
    while i < to
        invariant
            from <= i <= to,
            to <= w@.len(),
            r@ == w@.subrange(from as int, i as int),
        decreases to - i,
    {
        r.push(w[i]);
        i = i + 1;
        assert(r@ =~= w@.subrange(from as int, i as int));
    }
    r
}

/// Gives each chunk the sizes of its samples: the default size of the `stsz`
/// box when it is not zero, else the next entries of its table.
pub fn parse_stsz(
    stsz: &STSZBox,
    chunk_offsets_with_sample_count: Vec<(u32, u32)>,
    is_video: bool,
) -> (r: VecDeque<ChunkData>)
    requires
        stsz_fits(stsz.data@, chunk_offsets_with_sample_count@),
    ensures
        chunk_models(r@) == stsz_chunks(stsz.data@, chunk_offsets_with_sample_count@, is_video),
{
    let ghost d = stsz.data@;
    let cs = &chunk_offsets_with_sample_count;
    let w = read_words(stsz.data.as_slice());
    let wl = w.len();
    let general_size = w[1];
    let mut r: VecDeque<ChunkData> = VecDeque::new();
    let mut start: usize = 3;
    let mut k: usize = 0;
    while k < cs.len()
        invariant
            w@ == be_words(d),
            wl == w@.len(),
            stsz_fits(d, cs@),
            general_size == w@[1],
            k <= cs@.len(),
            general_size == 0 ==> start == 3 + count_before(cs@, k as int),
            chunk_models(r@) == stsz_chunks(d, cs@, is_video).subrange(0, k as int),
        decreases cs@.len() - k,
    {
        let (offset, n) = cs[k];
        let sample_sizes = if general_size != 0 {
            repeat_u32(general_size, n)
        } else {
            proof {
                lemma_count_before_monotonic(cs@, k + 1, cs@.len() as int);
                assert(count_before(cs@, k + 1) == count_before(cs@, k as int) + n);
            }
            let v = copy_words(&w, start, start + n as usize);
            start = start + n as usize;
            v
        };
        let c = ChunkData { is_video, offset, sample_sizes };
        assert(c@ == stsz_chunk(d, cs@, k as int, is_video));
        let ghost before = r@;
        r.push_back(c);
        k = k + 1;
        assert(chunk_models(r@) =~= stsz_chunks(d, cs@, is_video).subrange(0, k as int)) by {
            assert(r@ == before.push(c));
            assert(chunk_models(before.push(c)) =~= chunk_models(before).push(c@));
        }
    }
    assert(stsz_chunks(d, cs@, is_video).subrange(0, k as int) =~= stsz_chunks(d, cs@, is_video));
    r
}

/// Chunk `x` of `cs` comes before chunk `y` in file order: a lower offset, or
/// the same offset and an earlier place.
pub open spec fn comes_before(cs: Seq<ChunkModel>, x: int, y: int) -> bool {
    cs[x].offset < cs[y].offset || (cs[x].offset == cs[y].offset && x < y)
}

/// `order` lists the chunks of `cs` sorted stably by file offset.
pub open spec fn is_offset_order(cs: Seq<ChunkModel>, order: Seq<int>) -> bool {
    &&& order.len() == cs.len()
    &&& forall|k: int| 0 <= k < order.len() ==> 0 <= #[trigger] order[k] < cs.len()
    &&& forall|a: int, b: int|
        0 <= a < b < order.len() ==> comes_before(cs, #[trigger] order[a], #[trigger] order[b])
}

/// The samples of chunk `c`.
pub open spec fn chunk_samples(c: ChunkModel) -> Seq<SampleData> {
    c.sizes.map_values(|s: u32| SampleData { size: s, is_video: c.is_video })
}

/// The samples of the chunks of `cs`, taken in the order `order`.
pub open spec fn samples_in_order(cs: Seq<ChunkModel>, order: Seq<int>) -> Seq<SampleData>
    decreases order.len(),
{
    if order.len() == 0 {
        Seq::empty()
    } else {
        samples_in_order(cs, order.drop_last()) + chunk_samples(cs[order.last()])
    }
}

/// The sample map of chunks `cs`: their samples in file offset order, chunks at
/// the same offset in their given order.
pub open spec fn sample_map_of(cs: Seq<ChunkModel>, r: Seq<SampleData>) -> bool {
    exists|order: Seq<int>| is_offset_order(cs, order) && r == samples_in_order(cs, order)
}

/// Indices as integers.
pub open spec fn as_ints(v: Seq<usize>) -> Seq<int> {
    v.map_values(|x: usize| x as int)
}

/// The chunks of `cs` in file offset order.
fn offset_order(cs: &VecDeque<ChunkData>) -> (order: Vec<usize>)
    ensures
        is_offset_order(chunk_models(cs@), as_ints(order@)),
{
    let ghost m = chunk_models(cs@);
    let n = cs.len();
    let mut order: Vec<usize> = Vec::new();
    let mut i: usize = 0;
    while i < n
        invariant
            n == cs@.len(),
            m == chunk_models(cs@),
            i <= n,
            order@.len() == i,
            forall|k: int| 0 <= k < i ==> #[trigger] order@[k] < i,
            forall|a: int, b: int|
                0 <= a < b < i ==> comes_before(m, #[trigger] order@[a] as int, #[trigger] order@[b] as int),
        decreases n - i,
    {
        let key = cs[i].offset;
        let mut p: usize = i;
        let mut moving = true;
        while moving && p > 0
            invariant
                n == cs@.len(),
                m == chunk_models(cs@),
                i < n,
                key == m[i as int].offset,
                order@.len() == i,
                forall|k: int| 0 <= k < i ==> #[trigger] order@[k] < i,
                p <= i,
                forall|q: int| p <= q < i ==> m[#[trigger] order@[q] as int].offset > key,
                !moving ==> p > 0 && m[order@[p - 1] as int].offset <= key,
            decreases p + if moving { 1int } else { 0int },
        {
            let prev = order[p - 1];
            assert(prev < i);
            if cs[prev].offset > key {
                p = p - 1;
            } else {
                moving = false;
            }
        }
        let ghost old_order = order@;
        order.insert(p, i);
        proof {
            assert(forall|k: int| 0 <= k < p ==> order@[k] == old_order[k]);
            assert(order@[p as int] == i);
            assert(forall|k: int| p < k <= i ==> order@[k] == old_order[k - 1]);
            assert forall|a: int, b: int| 0 <= a < b < i + 1 implies comes_before(
                m,
                #[trigger] order@[a] as int,
                #[trigger] order@[b] as int,
            ) by {
                if b < p {
                } else if b == p {
                    if a < p - 1 {
                        assert(comes_before(m, old_order[a] as int, old_order[p - 1] as int));
                    }
                } else if a < p {
                    assert(comes_before(m, old_order[a] as int, old_order[b - 1] as int));
                } else if a == p {
                    assert(m[old_order[b - 1] as int].offset > key);
                } else {
                    assert(comes_before(m, old_order[a - 1] as int, old_order[b - 1] as int));
                }
            }
        }
        i = i + 1;
    }
    proof {
        let o = as_ints(order@);
        assert forall|a: int, b: int| 0 <= a < b < o.len() implies comes_before(
            m,
            #[trigger] o[a],
            #[trigger] o[b],
        ) by {
            assert(comes_before(m, order@[a] as int, order@[b] as int));
        }
        assert forall|k: int| 0 <= k < o.len() implies 0 <= #[trigger] o[k] < m.len() by {
            assert(order@[k] < n);
        }
    }
    order
}

/// Lays the samples of the chunks out in file offset order.
pub fn format_sample_data(chunk_data: VecDeque<ChunkData>) -> (r: VecDeque<SampleData>)
    ensures
        sample_map_of(chunk_models(chunk_data@), r@),
{
    let ghost m = chunk_models(chunk_data@);
    let order = offset_order(&chunk_data);
    let ghost o = as_ints(order@);
    let mut r: VecDeque<SampleData> = VecDeque::new();
    let mut k: usize = 0;
    assert(o.subrange(0, 0) =~= Seq::<int>::empty());
    while k < order.len()
        invariant
            m == chunk_models(chunk_data@),
            o == as_ints(order@),
            is_offset_order(m, o),
            k <= order@.len(),
            r@ == samples_in_order(m, o.subrange(0, k as int)),
        decreases order@.len() - k,
    {
        let c = order[k];
        assert(o[k as int] == c as int);
        let chunk = &chunk_data[c];
        let ghost before = r@;
        let mut j: usize = 0;
        while j < chunk.sample_sizes.len()
            invariant
                0 <= c < chunk_data@.len(),
                chunk == chunk_data@[c as int],
                j <= chunk.sample_sizes@.len(),
                r@ == before + chunk_samples(chunk@).subrange(0, j as int),
            decreases chunk.sample_sizes@.len() - j,
        {
            r.push_back(SampleData { size: chunk.sample_sizes[j], is_video: chunk.is_video });
            j = j + 1;
            assert(r@ =~= before + chunk_samples(chunk@).subrange(0, j as int));
        }
        proof {
            assert(chunk_samples(chunk@).subrange(0, j as int) =~= chunk_samples(chunk@));
            assert(m[c as int] == chunk@);
            assert(o.subrange(0, k + 1).drop_last() =~= o.subrange(0, k as int));
        }
        k = k + 1;
    }
    assert(o.subrange(0, k as int) =~= o);
    r
}

/// The chunks of track `t`, if its tables describe them.
pub open spec fn trak_chunks(t: TRAKBox) -> Option<Seq<ChunkModel>> {
    let stbl = t.media.minf.stbl;
    let offsets = stco_offsets(stbl.stco.data@);
    let counts = stsc_counts(stbl.stsc.data@, offsets);
    if stco_valid(stbl.stco.data@) && stsc_valid(stbl.stsc.data@, offsets.len())
        && stsz_fits(stbl.stsz.data@, counts) {
        Some(stsz_chunks(stbl.stsz.data@, counts, t.media.minf.header == Streams::Video))
    } else {
        None
    }
}

/// The chunks of all tracks `ts`, track after track.
pub open spec fn all_chunks(ts: Seq<TRAKBox>) -> Option<Seq<ChunkModel>>
    decreases ts.len(),
{
    if ts.len() == 0 {
        Some(Seq::empty())
    } else {
        match (all_chunks(ts.drop_last()), trak_chunks(ts.last())) {
            (Some(a), Some(b)) => Some(a + b),
            _ => None,
        }
    }
}

/// Whether the `stco` box holds as many offsets as it declares.
fn stco_ok(b: &STCOBox) -> (r: bool)
    ensures
        r == stco_valid(b.data@),
{
    let n = b.data.len() / 4;
    n >= 2 && read_u32_be(b.data.as_slice(), 4) as usize == n - 2
}

/// Whether the `stsc` box can describe `chunks` chunks.
fn stsc_ok(b: &STSCBox, chunks: usize) -> (r: bool)
    ensures
        r == stsc_valid(b.data@, chunks as nat),
{
    let n = b.data.len() / 4;
    n >= 2 && (chunks == 0 || (n - 2) / 3 >= 1)
}

/// Whether the `stsz` box gives a size to every sample of the chunks `cs`.
fn stsz_ok(b: &STSZBox, cs: &Vec<(u32, u32)>) -> (r: bool)
    ensures
        r == stsz_fits(b.data@, cs@),
{
    let n = b.data.len() / 4;
    if n < 2 {
        return false;
    }
    if read_u32_be(b.data.as_slice(), 4) != 0 {
        return true;
    }
    if n < 3 {
        return false;
    }
    let limit = (n - 3) as u64;
    assert(limit < 0x4000_0000_0000_0000);
    assert(be_words(b.data@)[1] == 0);
    let mut total: u64 = 0;
    let mut k: usize = 0;
    while k < cs.len()
        invariant
            k <= cs@.len(),
            limit == n - 3,
            n == b.data@.len() / 4,
            total == count_before(cs@, k as int),
            total <= limit,
            limit < 0x4000_0000_0000_0000,
            be_words(b.data@)[1] == 0,
            be_words(b.data@).len() == n,
        decreases cs@.len() - k,
    {
        assert(count_before(cs@, k + 1) == count_before(cs@, k as int) + cs@[k as int].1);
        total = total + cs[k].1 as u64;
        k = k + 1;
        if total > limit {
            proof {
                lemma_count_before_monotonic(cs@, k as int, cs@.len() as int);
            }
            return false;
        }
    }
    true
}

/// The chunks of track `t`, with the sizes of their samples.
fn trak_chunk_data(t: &TRAKBox) -> (r: Option<VecDeque<ChunkData>>)
    ensures
        match r {
            Some(v) => trak_chunks(*t) == Some(chunk_models(v@)),
            None => trak_chunks(*t) is None,
        },
{
    let stbl = &t.media.minf.stbl;
    if !stco_ok(&stbl.stco) {
        return None;
    }
    let offsets = parse_stco(&stbl.stco);
    if !stsc_ok(&stbl.stsc, offsets.len()) {
        return None;
    }
    let counts = parse_stsc(&stbl.stsc, offsets);
    if !stsz_ok(&stbl.stsz, &counts) {
        return None;
    }
    let is_video = match t.media.minf.header {
        Streams::Video => true,
        Streams::Audio => false,
    };
    Some(parse_stsz(&stbl.stsz, counts, is_video))
}

/// Builds the sample map of a movie: every sample of every track, in the order
/// they lie in `mdat`.
pub fn get_sample_map(moov_box: MOOVBox) -> (r: Result<VecDeque<SampleData>, ParseError>)
    ensures
        match r {
            Ok(v) => all_chunks(moov_box.traks@) is Some && sample_map_of(
                all_chunks(moov_box.traks@)->0,
                v@,
            ),
            Err(e) => all_chunks(moov_box.traks@) is None && e == ParseError::LengthOverflow,
        },
{
    let traks = &moov_box.traks;
    let mut chunk_data: VecDeque<ChunkData> = VecDeque::new();
    let mut i: usize = 0;
    assert(traks@.subrange(0, 0) =~= Seq::<TRAKBox>::empty());
    while i < traks.len()
        invariant
            i <= traks@.len(),
            traks@ == moov_box.traks@,
            all_chunks(traks@.subrange(0, i as int)) == Some(chunk_models(chunk_data@)),
        decreases traks@.len() - i,
    {
        assert(traks@.subrange(0, i + 1).drop_last() =~= traks@.subrange(0, i as int));
        assert(traks@.subrange(0, i + 1).last() == traks@[i as int]);
        let mut new_chunks = match trak_chunk_data(&traks[i]) {
            Some(v) => v,
            None => {
                proof {
                    assert(all_chunks(traks@.subrange(0, i + 1)) is None);
                    lemma_all_chunks_none(traks@, i as int + 1);
                }
                return Err(ParseError::LengthOverflow);
            },
        };
        let ghost before = chunk_data@;
        let ghost added = new_chunks@;
        chunk_data.append(&mut new_chunks);
        assert(chunk_models(chunk_data@) =~= chunk_models(before) + chunk_models(added));
        i = i + 1;
    }
    assert(traks@.subrange(0, i as int) =~= traks@);
    Ok(format_sample_data(chunk_data))
}

/// Tracks whose chunks cannot be built leave the whole movie without chunks.
proof fn lemma_all_chunks_none(ts: Seq<TRAKBox>, k: int)
    requires
        0 <= k <= ts.len(),
        all_chunks(ts.subrange(0, k)) is None,
    ensures
        all_chunks(ts) is None,
    decreases ts.len() - k,
{
    if k == ts.len() {
        assert(ts.subrange(0, k) =~= ts);
    } else {
        let short = ts.drop_last();
        assert(short.subrange(0, k) =~= ts.subrange(0, k));
        lemma_all_chunks_none(short, k);
    }
}

/// The sum of the sizes of samples `s`.
pub open spec fn total_size(s: Seq<SampleData>) -> int
    decreases s.len(),
{
    if s.len() == 0 {
        0
    } else {
        total_size(s.drop_last()) + s.last().size
    }
}

/// The sum of the values of `s`.
pub open spec fn sum_u32(s: Seq<u32>) -> int
    decreases s.len(),
{
    if s.len() == 0 {
        0
    } else {
        sum_u32(s.drop_last()) + s.last()
    }
}

/// The sum of `g` over chunks `cs`.
pub open spec fn chunks_sum(cs: Seq<ChunkModel>, g: spec_fn(ChunkModel) -> int) -> int
    decreases cs.len(),
{
    if cs.len() == 0 {
        0
    } else {
        chunks_sum(cs.drop_last(), g) + g(cs.last())
    }
}

/// The sum of `g` over the chunks of `cs` named by `order`.
pub open spec fn ordered_sum(cs: Seq<ChunkModel>, order: Seq<int>, g: spec_fn(ChunkModel) -> int) -> int
    decreases order.len(),
{
    if order.len() == 0 {
        0
    } else {
        ordered_sum(cs, order.drop_last(), g) + g(cs[order.last()])
    }
}

/// The total size of the samples in chunks `cs`, as their size tables give it.
pub open spec fn chunks_size(cs: Seq<ChunkModel>) -> int {
    chunks_sum(cs, |c: ChunkModel| sum_u32(c.sizes))
}

/// The number of samples in chunks `cs`.
pub open spec fn chunks_count(cs: Seq<ChunkModel>) -> int {
    chunks_sum(cs, |c: ChunkModel| c.sizes.len() as int)
}

proof fn lemma_total_concat(a: Seq<SampleData>, b: Seq<SampleData>)
    ensures
        total_size(a + b) == total_size(a) + total_size(b),
    decreases b.len(),
{
    if b.len() > 0 {
        assert((a + b).drop_last() =~= a + b.drop_last());
        lemma_total_concat(a, b.drop_last());
    }
}

proof fn lemma_chunk_samples_total(c: ChunkModel)
    ensures
        total_size(chunk_samples(c)) == sum_u32(c.sizes),
        chunk_samples(c).len() == c.sizes.len(),
    decreases c.sizes.len(),
{
    if c.sizes.len() > 0 {
        let c2 = ChunkModel { is_video: c.is_video, offset: c.offset, sizes: c.sizes.drop_last() };
        assert(chunk_samples(c).drop_last() =~= chunk_samples(c2));
        lemma_chunk_samples_total(c2);
    }
}

proof fn lemma_samples_in_order_totals(cs: Seq<ChunkModel>, order: Seq<int>)
    ensures
        total_size(samples_in_order(cs, order)) == ordered_sum(
            cs,
            order,
            |c: ChunkModel| sum_u32(c.sizes),
        ),
        samples_in_order(cs, order).len() == ordered_sum(
            cs,
            order,
            |c: ChunkModel| c.sizes.len() as int,
        ),
    decreases order.len(),
{
    if order.len() > 0 {
        lemma_samples_in_order_totals(cs, order.drop_last());
        lemma_total_concat(
            samples_in_order(cs, order.drop_last()),
            chunk_samples(cs[order.last()]),
        );
        lemma_chunk_samples_total(cs[order.last()]);
    }
}

proof fn lemma_ordered_sum_remove(
    cs: Seq<ChunkModel>,
    order: Seq<int>,
    p: int,
    g: spec_fn(ChunkModel) -> int,
)
    requires
        0 <= p < order.len(),
    ensures
        ordered_sum(cs, order, g) == ordered_sum(cs, order.remove(p), g) + g(cs[order[p]]),
    decreases order.len(),
{
    if p == order.len() - 1 {
        assert(order.remove(p) =~= order.drop_last());
    } else {
        let short = order.drop_last();
        lemma_ordered_sum_remove(cs, short, p, g);
        assert(short.remove(p) =~= order.remove(p).drop_last());
        assert(order.remove(p).last() == order.last());
    }
}

/// Summing over an arrangement of the first `m` chunks sums over those chunks.
proof fn lemma_ordered_sum_permutation(
    cs: Seq<ChunkModel>,
    order: Seq<int>,
    m: int,
    g: spec_fn(ChunkModel) -> int,
)
    requires
        0 <= m <= cs.len(),
        order.len() == m,
        order.no_duplicates(),
        forall|k: int| 0 <= k < order.len() ==> 0 <= #[trigger] order[k] < m,
    ensures
        ordered_sum(cs, order, g) == chunks_sum(cs.subrange(0, m), g),
    decreases m,
{
    if m == 0 {
        assert(cs.subrange(0, 0) =~= Seq::<ChunkModel>::empty());
    } else {
        let p = choose_index(order, m - 1);
        let rest = order.remove(p);
        order.remove_ensures(p);
        assert forall|k: int| 0 <= k < rest.len() implies 0 <= #[trigger] rest[k] < m - 1 by {
            if k < p {
                assert(order[k] != order[p]);
            } else {
                assert(order[k + 1] != order[p]);
            }
        }
        assert(rest.no_duplicates()) by {
            assert forall|i: int, j: int|
                0 <= i < rest.len() && 0 <= j < rest.len() && i != j implies rest[i] != rest[j] by {
                let oi = if i < p { i } else { i + 1 };
                let oj = if j < p { j } else { j + 1 };
                assert(rest[i] == order[oi]);
                assert(rest[j] == order[oj]);
            }
        }
        lemma_ordered_sum_permutation(cs, rest, m - 1, g);
        lemma_ordered_sum_remove(cs, order, p, g);
        assert(cs.subrange(0, m).drop_last() =~= cs.subrange(0, m - 1));
    }
}

/// The place of value `v` in `order`, which holds each of `0..m` once.
proof fn choose_index(order: Seq<int>, v: int) -> (p: int)
    requires
        order.no_duplicates(),
        0 <= v,
        order.len() == v + 1,
        forall|k: int| 0 <= k < order.len() ==> 0 <= #[trigger] order[k] <= v,
    ensures
        0 <= p < order.len(),
        order[p] == v,
{
    if !order.contains(v) {
        let s = order.to_set();
        order.unique_seq_to_set();
        lemma_int_range(0, v);
        assert(s.subset_of(set_int_range(0, v))) by {
            assert forall|x: int| s.contains(x) implies set_int_range(0, v).contains(x) by {
                let k = choose|k: int| 0 <= k < order.len() && order[k] == x;
                assert(order[k] != v);
            }
        }
        lemma_len_subset(s, set_int_range(0, v));
        assert(false);
    }
    choose|p: int| 0 <= p < order.len() && order[p] == v
}

/// The sample map holds every sample of the chunks once: its sizes add up to
/// the sizes the chunks' size tables give, and its length is their number of
/// samples.
pub proof fn lemma_sample_map_totals(cs: Seq<ChunkModel>, r: Seq<SampleData>)
    requires
        sample_map_of(cs, r),
    ensures
        total_size(r) == chunks_size(cs),
        r.len() == chunks_count(cs),
{
    let order = choose|order: Seq<int>| is_offset_order(cs, order) && r == samples_in_order(cs, order);
    assert(order.no_duplicates()) by {
        assert forall|i: int, j: int|
            0 <= i < order.len() && 0 <= j < order.len() && i != j implies order[i] != order[j] by {
            if i < j {
                assert(comes_before(cs, order[i], order[j]));
            } else {
                assert(comes_before(cs, order[j], order[i]));
            }
        }
    }
    assert(cs.subrange(0, cs.len() as int) =~= cs);
    lemma_samples_in_order_totals(cs, order);
    lemma_ordered_sum_permutation(cs, order, cs.len() as int, |c: ChunkModel| sum_u32(c.sizes));
    lemma_ordered_sum_permutation(cs, order, cs.len() as int, |c: ChunkModel| c.sizes.len() as int);
}

} // verus!
