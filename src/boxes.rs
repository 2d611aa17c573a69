//! Splitting a byte sequence into ISO base media boxes.

use vstd::prelude::*;
use vstd::slice::{slice_subrange, slice_to_vec};

use crate::bytes::{be_u32, read_u32_be};

verus! {

/// Why a container could not be parsed.
#[derive(Clone, Copy, Debug, PartialEq, Eq, Structural)]
pub enum ParseError {
    /// A required child box (its tag) is absent.
    MissingChild(u32),
    /// A child box with a tag that its container does not allow.
    UnknownTag(u32),
    /// A box header or table runs past the bytes that hold it.
    LengthOverflow,
    /// A sample table whose first child is not `stsd` (the tag found).
    NotStsd(u32),
    /// A stream shape this player does not handle (several `stts` entries).
    UnsupportedFeature,
}

/// A box: its declared size (header included), its tag and its payload.
pub struct BoxModel {
    pub size: u32,
    pub tag: u32,
    pub payload: Seq<u8>,
}

/// A box cut out of a byte sequence.
pub struct RawBox {
    pub size: u32,
    pub tag: u32,
    pub payload: Vec<u8>,
}

impl View for RawBox {
    type V = BoxModel;

    open spec fn view(&self) -> BoxModel {
        BoxModel { size: self.size, tag: self.tag, payload: self.payload@ }
    }
}

/// The models of a sequence of boxes.
pub open spec fn models(v: Seq<RawBox>) -> Seq<BoxModel> {
    v.map_values(|b: RawBox| b@)
}

/// The boxes that `d` holds back to back, or why it does not hold such a sequence.
pub open spec fn spec_split(d: Seq<u8>) -> Result<Seq<BoxModel>, ParseError>
    decreases d.len(),
{
    if d.len() == 0 {
        Ok(Seq::empty())
    } else if d.len() < 8 {
        Err(ParseError::LengthOverflow)
    } else {
        let size = be_u32(d, 0);
        if size < 8 || size > d.len() {
            Err(ParseError::LengthOverflow)
        } else {
            match spec_split(d.subrange(size, d.len() as int)) {
                Ok(rest) => Ok(
                    seq![BoxModel { size: size as u32, tag: be_u32(d, 4) as u32, payload: d.subrange(8, size) }]
                        + rest,
                ),
                Err(e) => Err(e),
            }
        }
    }
}

/// Copies `d[from..to]`.
pub fn copy_range(d: &[u8], from: usize, to: usize) -> (r: Vec<u8>)
    requires
        from <= to <= d@.len(),
    ensures
        r@ == d@.subrange(from as int, to as int),
{
    slice_to_vec(slice_subrange(d, from, to))
}

/// Cuts `d` into the boxes it holds back to back.
pub fn split_boxes(d: &[u8]) -> (r: Result<Vec<RawBox>, ParseError>)
    ensures
        match r {
            Ok(v) => spec_split(d@) == Ok::<Seq<BoxModel>, ParseError>(models(v@)),
            Err(e) => spec_split(d@) == Err::<Seq<BoxModel>, ParseError>(e),
        },
{
    let len = d.len();
    let mut pos: usize = 0;
    let mut out: Vec<RawBox> = Vec::new();
    proof {
        assert(d@.subrange(0, len as int) =~= d@);
        match spec_split(d@) {
            Ok(all) => {
                assert(models(out@) + all =~= all);
            },
            Err(e) => {},
        }
    }
    while pos < len
        invariant
            len == d@.len(),
            pos <= len,
            spec_split(d@) == match spec_split(d@.subrange(pos as int, len as int)) {
                Ok(rest) => Ok(models(out@) + rest),
                Err(e) => Err(e),
            },
        decreases len - pos,
    {
        let ghost rest = d@.subrange(pos as int, len as int);
        if len - pos < 8 {
            return Err(ParseError::LengthOverflow);
        }
        let size = read_u32_be(d, pos);
        assert(be_u32(rest, 0) == be_u32(d@, pos as int));
        if size < 8 || size as usize > len - pos {
            return Err(ParseError::LengthOverflow);
        }
        let tag = read_u32_be(d, pos + 4);
        assert(be_u32(rest, 4) == be_u32(d@, pos + 4));
        let payload = copy_range(d, pos + 8, pos + size as usize);
        let b = RawBox { size, tag, payload };
        proof {
            assert(rest.subrange(size as int, rest.len() as int) =~= d@.subrange(
                pos + size,
                len as int,
            ));
            assert(rest.subrange(8, size as int) =~= payload@);
        }
        let ghost before = models(out@);
        out.push(b);
        proof {
            assert(models(out@) =~= before.push(b@));
            match spec_split(d@.subrange(pos + size, len as int)) {
                Ok(tail) => {
                    assert(before + (seq![b@] + tail) =~= before.push(b@) + tail);
                },
                Err(e) => {},
            }
        }
        pos = pos + size as usize;
    }
    proof {
        assert(d@.subrange(pos as int, len as int) =~= Seq::<u8>::empty());
        assert(models(out@) + Seq::<BoxModel>::empty() =~= models(out@));
    }
    Ok(out)
}

/// The last box of `bs` with tag `tag`.
pub open spec fn last_tagged(bs: Seq<BoxModel>, tag: u32) -> Option<BoxModel>
    decreases bs.len(),
{
    if bs.len() == 0 {
        None
    } else if bs.last().tag == tag {
        Some(bs.last())
    } else {
        last_tagged(bs.drop_last(), tag)
    }
}

/// The boxes of `bs` with tag `tag`, in their order.
pub open spec fn all_tagged(bs: Seq<BoxModel>, tag: u32) -> Seq<BoxModel>
    decreases bs.len(),
{
    if bs.len() == 0 {
        Seq::empty()
    } else if bs.last().tag == tag {
        all_tagged(bs.drop_last(), tag).push(bs.last())
    } else {
        all_tagged(bs.drop_last(), tag)
    }
}

/// The failure of the first box of `bs` that `check` rejects, if any.
pub open spec fn first_failure(
    bs: Seq<BoxModel>,
    check: spec_fn(BoxModel) -> Option<ParseError>,
) -> Option<ParseError>
    decreases bs.len(),
{
    if bs.len() == 0 {
        None
    } else {
        match first_failure(bs.drop_last(), check) {
            Some(e) => Some(e),
            None => check(bs.last()),
        }
    }
}

/// A failure found in a prefix is the failure of the whole sequence.
pub proof fn lemma_first_failure_extends(
    bs: Seq<BoxModel>,
    k: int,
    check: spec_fn(BoxModel) -> Option<ParseError>,
)
    requires
        0 <= k <= bs.len(),
        first_failure(bs.subrange(0, k), check) is Some,
    ensures
        first_failure(bs, check) == first_failure(bs.subrange(0, k), check),
    decreases bs.len() - k,
{
    if k == bs.len() {
        assert(bs.subrange(0, k) =~= bs);
    } else {
        let short = bs.drop_last();
        assert(short.subrange(0, k) =~= bs.subrange(0, k));
        lemma_first_failure_extends(short, k, check);
    }
}

/// Index of the last box of `bs[from..]` with tag `tag`.
pub fn find_last(bs: &Vec<RawBox>, from: usize, tag: u32) -> (r: Option<usize>)
    requires
        from <= bs@.len(),
    ensures
        match r {
            Some(k) => from <= k < bs@.len() && last_tagged(
                models(bs@).subrange(from as int, bs@.len() as int),
                tag,
            ) == Some(models(bs@)[k as int]),
            None => last_tagged(models(bs@).subrange(from as int, bs@.len() as int), tag) is None,
        },
{
    let ghost ms = models(bs@);
    let mut i: usize = bs.len();
    while i > from
        invariant
            from <= i <= bs@.len(),
            ms == models(bs@),
            last_tagged(ms.subrange(from as int, bs@.len() as int), tag) == last_tagged(
                ms.subrange(from as int, i as int),
                tag,
            ),
        decreases i,
    {
        let ghost part = ms.subrange(from as int, i as int);
        assert(part.drop_last() =~= ms.subrange(from as int, i - 1));
        assert(part.last() == ms[i - 1]);
        if bs[i - 1].tag == tag {
            return Some(i - 1);
        }
        i = i - 1;
    }
    assert(ms.subrange(from as int, i as int) =~= Seq::<BoxModel>::empty());
    None
}

/// Facts on a sequence and the prefix one element longer than another.
pub proof fn lemma_prefix_step(ms: Seq<BoxModel>, from: int, i: int)
    requires
        0 <= from <= i < ms.len(),
    ensures
        ms.subrange(from, i + 1).drop_last() == ms.subrange(from, i),
        ms.subrange(from, i + 1).last() == ms[i],
        ms.subrange(from, i + 1).len() > 0,
{
    assert(ms.subrange(from, i + 1).drop_last() =~= ms.subrange(from, i));
}

} // verus!
