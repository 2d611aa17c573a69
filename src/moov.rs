//! The `moov` box tree: the boxes a player keeps and the parsers that build them.

use vstd::prelude::*;
use vstd::slice::slice_subrange;

use crate::boxes::{
    all_tagged, copy_range, find_last, first_failure, last_tagged, lemma_first_failure_extends,
    lemma_prefix_step, models, spec_split, split_boxes, BoxModel, ParseError, RawBox,
};
use crate::bytes::{
    be_u32, read_u32_be, TAG_AVC1, TAG_AVCC, TAG_CTTS, TAG_DINF, TAG_HDLR, TAG_MDHD, TAG_MDIA,
    TAG_MINF, TAG_MVHD, TAG_SMHD, TAG_STBL, TAG_STCO, TAG_STSC, TAG_STSD, TAG_STSS, TAG_STSZ,
    TAG_STTS, TAG_TKHD, TAG_TRAK, TAG_VMHD,
};

verus! {

/// The kind of media a track carries.
#[derive(Clone, Copy, Debug, PartialEq, Eq, Structural)]
pub enum Streams {
    Audio,
    Video,
}

#[derive(Clone, Debug)]
pub struct FTYPBox {
    pub size: u32,
    pub data: Vec<u8>,
}

#[derive(Clone, Debug)]
pub struct MVHDBox {
    pub size: u32,
    pub data: Vec<u8>,
}

/// The sample description box, with the `avcC` record of an `avc1` entry.
#[derive(Clone, Debug)]
pub struct STSDBox {
    pub size: u32,
    pub data: Vec<u8>,
    pub avcc: Option<Vec<u8>>,
}

#[derive(Clone, Debug)]
pub struct STTSBox {
    pub size: u32,
    pub data: Vec<u8>,
}

#[derive(Clone, Debug)]
pub struct CTTSBox {
    pub size: u32,
    pub data: Vec<u8>,
}

#[derive(Clone, Debug)]
pub struct STSCBox {
    pub size: u32,
    pub data: Vec<u8>,
}

#[derive(Clone, Debug)]
pub struct STSZBox {
    pub size: u32,
    pub data: Vec<u8>,
}

#[derive(Clone, Debug)]
pub struct STCOBox {
    pub size: u32,
    pub data: Vec<u8>,
}

#[derive(Clone, Debug)]
pub struct STSSBox {
    pub size: u32,
    pub data: Vec<u8>,
}

/// The sample table of a track.
#[derive(Clone, Debug)]
pub struct STBLBbox {
    pub size: u32,
    pub stsd: STSDBox,
    pub ctts: Option<CTTSBox>,
    pub stts: STTSBox,
    pub stsz: STSZBox,
    pub stco: STCOBox,
    pub stsc: STSCBox,
    pub stss: Option<STSSBox>,
}

#[derive(Clone, Debug)]
pub struct DINFBox {
    pub size: u32,
    pub data: Vec<u8>,
}

#[derive(Clone, Debug)]
pub struct VMHDBox {
    pub size: u32,
    pub data: Vec<u8>,
}

#[derive(Clone, Debug)]
pub struct SMHDBox {
    pub size: u32,
    pub data: Vec<u8>,
}

#[derive(Clone, Debug)]
pub struct MINFBox {
    pub size: u32,
    pub header: Streams,
    pub dinf: DINFBox,
    pub stbl: STBLBbox,
}

#[derive(Clone, Debug)]
pub struct HDLRBox {
    pub size: u32,
    pub data: Vec<u8>,
}

#[derive(Clone, Debug)]
pub struct MDHDBox {
    pub size: u32,
    pub data: Vec<u8>,
}

#[derive(Clone, Debug)]
pub struct MDIABox {
    pub size: u32,
    pub mdhd: MDHDBox,
    pub hdlr: HDLRBox,
    pub minf: MINFBox,
}

#[derive(Clone, Debug)]
pub struct TKHDBox {
    pub size: u32,
    pub data: Vec<u8>,
}

#[derive(Clone, Debug)]
pub struct TRAKBox {
    pub size: u32,
    pub tkhd: TKHDBox,
    pub media: MDIABox,
}

#[derive(Clone, Debug)]
pub struct MOOVBox {
    pub size: u32,
    pub mvhd: MVHDBox,
    pub traks: Vec<TRAKBox>,
}

/// `size` and `data` are those of box `b`, which is present.
pub open spec fn is_box(size: u32, data: Seq<u8>, b: Option<BoxModel>) -> bool {
    &&& b is Some
    &&& size == b->0.size
    &&& data == b->0.payload
}

/// The boxes of a container after its first `skip` children.
pub open spec fn children(d: Seq<u8>, skip: int) -> Seq<BoxModel> {
    let bs = spec_split(d)->Ok_0;
    bs.subrange(skip, bs.len() as int)
}

/// The `avcC` record inside an `stsd` payload whose first entry is `avc1`.
pub open spec fn avcc_of(p: Seq<u8>) -> Option<Seq<u8>> {
    if p.len() >= 102 && be_u32(p, 4) >= 1 && be_u32(p, 12) == TAG_AVC1 && be_u32(p, 98)
        == TAG_AVCC && be_u32(p, 94) >= 8 && 94 + be_u32(p, 94) <= p.len() {
        Some(p.subrange(102, 94 + be_u32(p, 94)))
    } else {
        None
    }
}

/// Finds the `avcC` record of an `stsd` payload.
pub fn find_avcc(p: &Vec<u8>) -> (r: Option<Vec<u8>>)
    ensures
        match r {
            Some(v) => avcc_of(p@) == Some(v@),
            None => avcc_of(p@) is None,
        },
{
    if p.len() < 102 {
        return None;
    }
    let entries = read_u32_be(p.as_slice(), 4);
    let format = read_u32_be(p.as_slice(), 12);
    let inner_tag = read_u32_be(p.as_slice(), 98);
    let inner_size = read_u32_be(p.as_slice(), 94);
    if entries >= 1 && format == TAG_AVC1 && inner_tag == TAG_AVCC && inner_size >= 8
        && inner_size as usize <= p.len() - 94 {
        Some(copy_range(p.as_slice(), 102, 94 + inner_size as usize))
    } else {
        None
    }
}

/// The children a sample table may hold after its `stsd`.
pub open spec fn stbl_check() -> spec_fn(BoxModel) -> Option<ParseError> {
    |b: BoxModel|
        if b.tag == TAG_STTS || b.tag == TAG_CTTS || b.tag == TAG_STSC || b.tag == TAG_STSZ
            || b.tag == TAG_STCO || b.tag == TAG_STSS {
            None
        } else {
            Some(ParseError::UnknownTag(b.tag))
        }
}

/// Why the payload `d` of an `stbl` box is rejected, if it is.
pub open spec fn stbl_failure(d: Seq<u8>) -> Option<ParseError> {
    match spec_split(d) {
        Err(e) => Some(e),
        Ok(bs) => if bs.len() == 0 {
            Some(ParseError::MissingChild(TAG_STSD))
        } else if bs[0].tag != TAG_STSD {
            Some(ParseError::NotStsd(bs[0].tag))
        } else if bs[0].payload.len() < 8 {
            Some(ParseError::LengthOverflow)
        } else {
            let rest = bs.subrange(1, bs.len() as int);
            match first_failure(rest, stbl_check()) {
                Some(e) => Some(e),
                None => if last_tagged(rest, TAG_STTS) is None {
                    Some(ParseError::MissingChild(TAG_STTS))
                } else if last_tagged(rest, TAG_STSZ) is None {
                    Some(ParseError::MissingChild(TAG_STSZ))
                } else if last_tagged(rest, TAG_STCO) is None {
                    Some(ParseError::MissingChild(TAG_STCO))
                } else if last_tagged(rest, TAG_STSC) is None {
                    Some(ParseError::MissingChild(TAG_STSC))
                } else {
                    None
                },
            }
        },
    }
}

/// `s` is the sample table of size `size` with the accepted payload `d`: each
/// table is the last child with its tag.
pub open spec fn stbl_built(s: STBLBbox, size: u32, d: Seq<u8>) -> bool {
    let stsd = spec_split(d)->Ok_0[0];
    let rest = children(d, 1);
    &&& s.size == size
    &&& s.stsd.size == stsd.size
    &&& s.stsd.data@ == stsd.payload
    &&& match s.stsd.avcc {
        Some(a) => avcc_of(stsd.payload) == Some(a@),
        None => avcc_of(stsd.payload) is None,
    }
    &&& is_box(s.stts.size, s.stts.data@, last_tagged(rest, TAG_STTS))
    &&& is_box(s.stsz.size, s.stsz.data@, last_tagged(rest, TAG_STSZ))
    &&& is_box(s.stco.size, s.stco.data@, last_tagged(rest, TAG_STCO))
    &&& is_box(s.stsc.size, s.stsc.data@, last_tagged(rest, TAG_STSC))
    &&& match s.ctts {
        Some(c) => is_box(c.size, c.data@, last_tagged(rest, TAG_CTTS)),
        None => last_tagged(rest, TAG_CTTS) is None,
    }
    &&& match s.stss {
        Some(c) => is_box(c.size, c.data@, last_tagged(rest, TAG_STSS)),
        None => last_tagged(rest, TAG_STSS) is None,
    }
}

/// Copies the payload of box `k` of `bs`.
fn payload_of(bs: &Vec<RawBox>, k: usize) -> (r: Vec<u8>)
    requires
        k < bs@.len(),
    ensures
        r@ == bs@[k as int].payload@,
{
    copy_range(bs[k].payload.as_slice(), 0, bs[k].payload.len())
}

/// Checks the children after the first against those a sample table may hold.
fn check_stbl_children(bs: &Vec<RawBox>) -> (r: Option<ParseError>)
    requires
        1 <= bs@.len(),
    ensures
        r == first_failure(models(bs@).subrange(1, bs@.len() as int), stbl_check()),
{
    let ghost ms = models(bs@);
    let mut i: usize = 1;
    while i < bs.len()
        invariant
            1 <= i <= bs@.len(),
            ms == models(bs@),
            first_failure(ms.subrange(1, i as int), stbl_check()) is None,
        decreases bs@.len() - i,
    {
        proof {
            lemma_prefix_step(ms, 1, i as int);
        }
        let t = bs[i].tag;
        if !(t == TAG_STTS || t == TAG_CTTS || t == TAG_STSC || t == TAG_STSZ || t == TAG_STCO
            || t == TAG_STSS) {
            proof {
                let whole = ms.subrange(1, bs@.len() as int);
                assert(whole.subrange(0, i as int) =~= ms.subrange(1, i + 1));
                lemma_first_failure_extends(whole, i as int, stbl_check());
            }
            return Some(ParseError::UnknownTag(t));
        }
        i = i + 1;
    }
    None
}

/// Parses the payload of an `stbl` box: an `stsd` first, then the sample tables.
pub fn get_stbl_box(size: u32, data: Vec<u8>) -> (r: Result<STBLBbox, ParseError>)
    ensures
        match r {
            Ok(s) => stbl_failure(data@) is None && stbl_built(s, size, data@),
            Err(e) => stbl_failure(data@) == Some(e),
        },
{
    let bs = match split_boxes(data.as_slice()) {
        Ok(v) => v,
        Err(e) => return Err(e),
    };
    let ghost ms = models(bs@);
    assert(ms.len() == bs@.len());
    if bs.len() == 0 {
        return Err(ParseError::MissingChild(TAG_STSD));
    }
    assert(ms[0] == bs@[0]@);
    if bs[0].tag != TAG_STSD {
        return Err(ParseError::NotStsd(bs[0].tag));
    }
    if bs[0].payload.len() < 8 {
        return Err(ParseError::LengthOverflow);
    }
    if let Some(e) = check_stbl_children(&bs) {
        return Err(e);
    }
    let stts = find_last(&bs, 1, TAG_STTS);
    let stsz = find_last(&bs, 1, TAG_STSZ);
    let stco = find_last(&bs, 1, TAG_STCO);
    let stsc = find_last(&bs, 1, TAG_STSC);
    let ctts = find_last(&bs, 1, TAG_CTTS);
    let stss = find_last(&bs, 1, TAG_STSS);
    let stts = match stts {
        Some(k) => STTSBox { size: bs[k].size, data: payload_of(&bs, k) },
        None => return Err(ParseError::MissingChild(TAG_STTS)),
    };
    let stsz = match stsz {
        Some(k) => STSZBox { size: bs[k].size, data: payload_of(&bs, k) },
        None => return Err(ParseError::MissingChild(TAG_STSZ)),
    };
    let stco = match stco {
        Some(k) => STCOBox { size: bs[k].size, data: payload_of(&bs, k) },
        None => return Err(ParseError::MissingChild(TAG_STCO)),
    };
    let stsc = match stsc {
        Some(k) => STSCBox { size: bs[k].size, data: payload_of(&bs, k) },
        None => return Err(ParseError::MissingChild(TAG_STSC)),
    };
    let ctts = match ctts {
        Some(k) => Some(CTTSBox { size: bs[k].size, data: payload_of(&bs, k) }),
        None => None,
    };
    let stss = match stss {
        Some(k) => Some(STSSBox { size: bs[k].size, data: payload_of(&bs, k) }),
        None => None,
    };
    let stsd = STSDBox {
        size: bs[0].size,
        data: payload_of(&bs, 0),
        avcc: find_avcc(&bs[0].payload),
    };
    Ok(STBLBbox { size, stsd, ctts, stts, stsz, stco, stsc, stss })
}

/// The media kind given by the last `vmhd` or `smhd` child of `bs`.
pub open spec fn media_kind(bs: Seq<BoxModel>) -> Option<Streams>
    decreases bs.len(),
{
    if bs.len() == 0 {
        None
    } else if bs.last().tag == TAG_VMHD {
        Some(Streams::Video)
    } else if bs.last().tag == TAG_SMHD {
        Some(Streams::Audio)
    } else {
        media_kind(bs.drop_last())
    }
}

/// The children a media information box may hold.
pub open spec fn minf_check() -> spec_fn(BoxModel) -> Option<ParseError> {
    |b: BoxModel|
        if b.tag == TAG_DINF || b.tag == TAG_VMHD || b.tag == TAG_SMHD {
            None
        } else if b.tag == TAG_STBL {
            stbl_failure(b.payload)
        } else {
            Some(ParseError::UnknownTag(b.tag))
        }
}

/// Why the payload `d` of a `minf` box is rejected, if it is.
pub open spec fn minf_failure(d: Seq<u8>) -> Option<ParseError> {
    match spec_split(d) {
        Err(e) => Some(e),
        Ok(bs) => match first_failure(bs, minf_check()) {
            Some(e) => Some(e),
            None => if media_kind(bs) is None {
                Some(ParseError::MissingChild(TAG_VMHD))
            } else if last_tagged(bs, TAG_DINF) is None {
                Some(ParseError::MissingChild(TAG_DINF))
            } else if last_tagged(bs, TAG_STBL) is None {
                Some(ParseError::MissingChild(TAG_STBL))
            } else {
                None
            },
        },
    }
}

/// `m` is the media information box of size `size` with the accepted payload `d`.
pub open spec fn minf_built(m: MINFBox, size: u32, d: Seq<u8>) -> bool {
    let bs = spec_split(d)->Ok_0;
    let stbl = last_tagged(bs, TAG_STBL)->0;
    &&& m.size == size
    &&& media_kind(bs) == Some(m.header)
    &&& is_box(m.dinf.size, m.dinf.data@, last_tagged(bs, TAG_DINF))
    &&& stbl_built(m.stbl, stbl.size, stbl.payload)
}

/// Parses the payload of a `minf` box.
pub fn get_minf_box(size: u32, data: Vec<u8>) -> (r: Result<MINFBox, ParseError>)
    ensures
        match r {
            Ok(m) => minf_failure(data@) is None && minf_built(m, size, data@),
            Err(e) => minf_failure(data@) == Some(e),
        },
{
    let bs = match split_boxes(data.as_slice()) {
        Ok(v) => v,
        Err(e) => return Err(e),
    };
    let ghost ms = models(bs@);
    let mut header: Option<Streams> = None;
    let mut stbl: Option<STBLBbox> = None;
    let mut i: usize = 0;
    assert(ms.subrange(0, 0) =~= Seq::<BoxModel>::empty());
    while i < bs.len()
        invariant
            i <= bs@.len(),
            ms == models(bs@),
            spec_split(data@) == Ok::<Seq<BoxModel>, ParseError>(ms),
            first_failure(ms.subrange(0, i as int), minf_check()) is None,
            header == media_kind(ms.subrange(0, i as int)),
            match stbl {
                Some(s) => {
                    let b = last_tagged(ms.subrange(0, i as int), TAG_STBL);
                    b is Some && stbl_built(s, b->0.size, b->0.payload)
                },
                None => last_tagged(ms.subrange(0, i as int), TAG_STBL) is None,
            },
        decreases bs@.len() - i,
    {
        proof {
            lemma_prefix_step(ms, 0, i as int);
        }
        let t = bs[i].tag;
        if t == TAG_VMHD {
            header = Some(Streams::Video);
        } else if t == TAG_SMHD {
            header = Some(Streams::Audio);
        } else if t == TAG_STBL {
            match get_stbl_box(bs[i].size, payload_of(&bs, i)) {
                Ok(s) => {
                    stbl = Some(s);
                },
                Err(e) => {
                    proof {
                        lemma_first_failure_extends(ms, i + 1, minf_check());
                    }
                    return Err(e);
                },
            }
        } else if t != TAG_DINF {
            proof {
                lemma_first_failure_extends(ms, i + 1, minf_check());
            }
            return Err(ParseError::UnknownTag(t));
        }
        i = i + 1;
    }
    assert(ms.subrange(0, bs@.len() as int) =~= ms);
    assert(spec_split(data@)->Ok_0 == ms);
    let header = match header {
        Some(h) => h,
        None => return Err(ParseError::MissingChild(TAG_VMHD)),
    };
    let dinf = match find_last(&bs, 0, TAG_DINF) {
        Some(k) => DINFBox { size: bs[k].size, data: payload_of(&bs, k) },
        None => return Err(ParseError::MissingChild(TAG_DINF)),
    };
    let stbl = match stbl {
        Some(s) => s,
        None => return Err(ParseError::MissingChild(TAG_STBL)),
    };
    Ok(MINFBox { size, header, dinf, stbl })
}

/// The children a media box may hold.
pub open spec fn mdia_check() -> spec_fn(BoxModel) -> Option<ParseError> {
    |b: BoxModel|
        if b.tag == TAG_MDHD || b.tag == TAG_HDLR {
            None
        } else if b.tag == TAG_MINF {
            minf_failure(b.payload)
        } else {
            Some(ParseError::UnknownTag(b.tag))
        }
}

/// Why the payload `d` of an `mdia` box is rejected, if it is.
pub open spec fn mdia_failure(d: Seq<u8>) -> Option<ParseError> {
    match spec_split(d) {
        Err(e) => Some(e),
        Ok(bs) => match first_failure(bs, mdia_check()) {
            Some(e) => Some(e),
            None => if last_tagged(bs, TAG_MDHD) is None {
                Some(ParseError::MissingChild(TAG_MDHD))
            } else if last_tagged(bs, TAG_HDLR) is None {
                Some(ParseError::MissingChild(TAG_HDLR))
            } else if last_tagged(bs, TAG_MINF) is None {
                Some(ParseError::MissingChild(TAG_MINF))
            } else {
                None
            },
        },
    }
}

/// `m` is the media box of size `size` with the accepted payload `d`.
pub open spec fn mdia_built(m: MDIABox, size: u32, d: Seq<u8>) -> bool {
    let bs = spec_split(d)->Ok_0;
    let minf = last_tagged(bs, TAG_MINF)->0;
    &&& m.size == size
    &&& is_box(m.mdhd.size, m.mdhd.data@, last_tagged(bs, TAG_MDHD))
    &&& is_box(m.hdlr.size, m.hdlr.data@, last_tagged(bs, TAG_HDLR))
    &&& minf_built(m.minf, minf.size, minf.payload)
}

/// Parses the payload of an `mdia` box.
pub fn get_mdia_box(size: u32, data: Vec<u8>) -> (r: Result<MDIABox, ParseError>)
    ensures
        match r {
            Ok(m) => mdia_failure(data@) is None && mdia_built(m, size, data@),
            Err(e) => mdia_failure(data@) == Some(e),
        },
{
    let bs = match split_boxes(data.as_slice()) {
        Ok(v) => v,
        Err(e) => return Err(e),
    };
    let ghost ms = models(bs@);
    let mut minf: Option<MINFBox> = None;
    let mut i: usize = 0;
    assert(ms.subrange(0, 0) =~= Seq::<BoxModel>::empty());
    while i < bs.len()
        invariant
            i <= bs@.len(),
            ms == models(bs@),
            spec_split(data@) == Ok::<Seq<BoxModel>, ParseError>(ms),
            first_failure(ms.subrange(0, i as int), mdia_check()) is None,
            match minf {
                Some(m) => {
                    let b = last_tagged(ms.subrange(0, i as int), TAG_MINF);
                    b is Some && minf_built(m, b->0.size, b->0.payload)
                },
                None => last_tagged(ms.subrange(0, i as int), TAG_MINF) is None,
            },
        decreases bs@.len() - i,
    {
        proof {
            lemma_prefix_step(ms, 0, i as int);
        }
        let t = bs[i].tag;
        if t == TAG_MINF {
            match get_minf_box(bs[i].size, payload_of(&bs, i)) {
                Ok(m) => {
                    minf = Some(m);
                },
                Err(e) => {
                    proof {
                        lemma_first_failure_extends(ms, i + 1, mdia_check());
                    }
                    return Err(e);
                },
            }
        } else if t != TAG_MDHD && t != TAG_HDLR {
            proof {
                lemma_first_failure_extends(ms, i + 1, mdia_check());
            }
            return Err(ParseError::UnknownTag(t));
        }
        i = i + 1;
    }
    assert(ms.subrange(0, bs@.len() as int) =~= ms);
    let mdhd = match find_last(&bs, 0, TAG_MDHD) {
        Some(k) => MDHDBox { size: bs[k].size, data: payload_of(&bs, k) },
        None => return Err(ParseError::MissingChild(TAG_MDHD)),
    };
    let hdlr = match find_last(&bs, 0, TAG_HDLR) {
        Some(k) => HDLRBox { size: bs[k].size, data: payload_of(&bs, k) },
        None => return Err(ParseError::MissingChild(TAG_HDLR)),
    };
    let minf = match minf {
        Some(m) => m,
        None => return Err(ParseError::MissingChild(TAG_MINF)),
    };
    Ok(MDIABox { size, mdhd, hdlr, minf })
}

/// The children of a track that are parsed further.
pub open spec fn trak_check() -> spec_fn(BoxModel) -> Option<ParseError> {
    |b: BoxModel|
        if b.tag == TAG_MDIA {
            mdia_failure(b.payload)
        } else {
            None
        }
}

/// Why the payload `d` of a `trak` box is rejected, if it is.
pub open spec fn trak_failure(d: Seq<u8>) -> Option<ParseError> {
    match spec_split(d) {
        Err(e) => Some(e),
        Ok(bs) => match first_failure(bs, trak_check()) {
            Some(e) => Some(e),
            None => if last_tagged(bs, TAG_TKHD) is None {
                Some(ParseError::MissingChild(TAG_TKHD))
            } else if last_tagged(bs, TAG_MDIA) is None {
                Some(ParseError::MissingChild(TAG_MDIA))
            } else {
                None
            },
        },
    }
}

/// `t` is the track box of size `size` with the accepted payload `d`.
pub open spec fn trak_built(t: TRAKBox, size: u32, d: Seq<u8>) -> bool {
    let bs = spec_split(d)->Ok_0;
    let mdia = last_tagged(bs, TAG_MDIA)->0;
    &&& t.size == size
    &&& is_box(t.tkhd.size, t.tkhd.data@, last_tagged(bs, TAG_TKHD))
    &&& mdia_built(t.media, mdia.size, mdia.payload)
}

/// Parses the payload of a `trak` box; children other than `tkhd` and `mdia` are skipped.
pub fn get_trak_box(size: u32, data: Vec<u8>) -> (r: Result<TRAKBox, ParseError>)
    ensures
        match r {
            Ok(t) => trak_failure(data@) is None && trak_built(t, size, data@),
            Err(e) => trak_failure(data@) == Some(e),
        },
{
    let bs = match split_boxes(data.as_slice()) {
        Ok(v) => v,
        Err(e) => return Err(e),
    };
    let ghost ms = models(bs@);
    let mut mdia: Option<MDIABox> = None;
    let mut i: usize = 0;
    assert(ms.subrange(0, 0) =~= Seq::<BoxModel>::empty());
    while i < bs.len()
        invariant
            i <= bs@.len(),
            ms == models(bs@),
            spec_split(data@) == Ok::<Seq<BoxModel>, ParseError>(ms),
            first_failure(ms.subrange(0, i as int), trak_check()) is None,
            match mdia {
                Some(m) => {
                    let b = last_tagged(ms.subrange(0, i as int), TAG_MDIA);
                    b is Some && mdia_built(m, b->0.size, b->0.payload)
                },
                None => last_tagged(ms.subrange(0, i as int), TAG_MDIA) is None,
            },
        decreases bs@.len() - i,
    {
        proof {
            lemma_prefix_step(ms, 0, i as int);
        }
        if bs[i].tag == TAG_MDIA {
            match get_mdia_box(bs[i].size, payload_of(&bs, i)) {
                Ok(m) => {
                    mdia = Some(m);
                },
                Err(e) => {
                    proof {
                        lemma_first_failure_extends(ms, i + 1, trak_check());
                    }
                    return Err(e);
                },
            }
        }
        i = i + 1;
    }
    assert(ms.subrange(0, bs@.len() as int) =~= ms);
    let tkhd = match find_last(&bs, 0, TAG_TKHD) {
        Some(k) => TKHDBox { size: bs[k].size, data: payload_of(&bs, k) },
        None => return Err(ParseError::MissingChild(TAG_TKHD)),
    };
    let media = match mdia {
        Some(m) => m,
        None => return Err(ParseError::MissingChild(TAG_MDIA)),
    };
    Ok(TRAKBox { size, tkhd, media })
}

/// The children of a movie box that are parsed further.
pub open spec fn moov_check() -> spec_fn(BoxModel) -> Option<ParseError> {
    |b: BoxModel|
        if b.tag == TAG_TRAK {
            trak_failure(b.payload)
        } else {
            None
        }
}

/// Why the payload `d` of a `moov` box is rejected, if it is.
pub open spec fn moov_failure(d: Seq<u8>) -> Option<ParseError> {
    match spec_split(d) {
        Err(e) => Some(e),
        Ok(bs) => match first_failure(bs, moov_check()) {
            Some(e) => Some(e),
            None => if last_tagged(bs, TAG_MVHD) is None {
                Some(ParseError::MissingChild(TAG_MVHD))
            } else {
                None
            },
        },
    }
}

/// `traks` are the tracks built from the boxes `tb`, one for one and in order.
pub open spec fn traks_built(traks: Seq<TRAKBox>, tb: Seq<BoxModel>) -> bool {
    &&& traks.len() == tb.len()
    &&& forall|j: int| 0 <= j < tb.len() ==> trak_built(#[trigger] traks[j], tb[j].size, tb[j].payload)
}

/// `m` is the movie box of size `size` with the accepted payload `d`: the last
/// `mvhd` and every `trak`, in order.
pub open spec fn moov_built(m: MOOVBox, size: u32, d: Seq<u8>) -> bool {
    let bs = spec_split(d)->Ok_0;
    &&& m.size == size
    &&& is_box(m.mvhd.size, m.mvhd.data@, last_tagged(bs, TAG_MVHD))
    &&& traks_built(m.traks@, all_tagged(bs, TAG_TRAK))
}

/// Parses the payload of a `moov` box; children other than `mvhd` and `trak` are skipped.
pub fn get_moov_box(size: u32, data: Vec<u8>) -> (r: Result<MOOVBox, ParseError>)
    ensures
        match r {
            Ok(m) => moov_failure(data@) is None && moov_built(m, size, data@),
            Err(e) => moov_failure(data@) == Some(e),
        },
{
    let bs = match split_boxes(data.as_slice()) {
        Ok(v) => v,
        Err(e) => return Err(e),
    };
    let ghost ms = models(bs@);
    let mut traks: Vec<TRAKBox> = Vec::new();
    let mut i: usize = 0;
    assert(ms.subrange(0, 0) =~= Seq::<BoxModel>::empty());
    while i < bs.len()
        invariant
            i <= bs@.len(),
            ms == models(bs@),
            spec_split(data@) == Ok::<Seq<BoxModel>, ParseError>(ms),
            first_failure(ms.subrange(0, i as int), moov_check()) is None,
            traks_built(traks@, all_tagged(ms.subrange(0, i as int), TAG_TRAK)),
        decreases bs@.len() - i,
    {
        proof {
            lemma_prefix_step(ms, 0, i as int);
        }
        if bs[i].tag == TAG_TRAK {
            match get_trak_box(bs[i].size, payload_of(&bs, i)) {
                Ok(t) => {
                    traks.push(t);
                },
                Err(e) => {
                    proof {
                        lemma_first_failure_extends(ms, i + 1, moov_check());
                    }
                    return Err(e);
                },
            }
        }
        i = i + 1;
    }
    assert(ms.subrange(0, bs@.len() as int) =~= ms);
    let mvhd = match find_last(&bs, 0, TAG_MVHD) {
        Some(k) => MVHDBox { size: bs[k].size, data: payload_of(&bs, k) },
        None => return Err(ParseError::MissingChild(TAG_MVHD)),
    };
    Ok(MOOVBox { size, mvhd, traks })
}

/// The text that `String::from_utf8_lossy` makes of a byte sequence.
pub uninterp spec fn lossy_utf8(b: Seq<u8>) -> Seq<char>;

/// Relies on `String::from_utf8_lossy`: the text of the bytes, with invalid
/// sequences replaced; ASCII bytes are kept one character each.
#[verifier::external_body]
fn lossy_text(b: &[u8]) -> (r: String)
    ensures
        r@ == lossy_utf8(b@),
        (forall|i: int| 0 <= i < b@.len() ==> b@[i] < 128) ==> r@ == b@.map_values(
            |c: u8| c as char,
        ),
{
    String::from_utf8_lossy(b).into_owned()
}

/// Reading boxes off the front of a byte buffer.
pub trait DrainToBox: View<V = Seq<u8>> + Sized {
    /// Removes and returns the payload of a box of size `box_size` whose header
    /// was already read.
    fn drain_box_data(&mut self, box_size: u32) -> (r: Vec<u8>)
        requires
            8 <= box_size,
            box_size - 8 <= old(self)@.len(),
        ensures
            r@ == old(self)@.subrange(0, box_size - 8),
            final(self)@ == old(self)@.subrange(box_size - 8, old(self)@.len() as int),
    ;

    /// Removes a box header and returns its size and its tag as text.
    fn get_next_box_size_and_title(&mut self) -> (r: (u32, String))
        requires
            old(self)@.len() >= 8,
        ensures
            r.0 as int == be_u32(old(self)@, 0),
            r.1@ == lossy_utf8(old(self)@.subrange(4, 8)),
            final(self)@ == old(self)@.subrange(8, old(self)@.len() as int),
    ;
}

impl DrainToBox for Vec<u8> {
    fn drain_box_data(&mut self, box_size: u32) -> (r: Vec<u8>) {
        let n = (box_size - 8) as usize;
        let head = copy_range(self.as_slice(), 0, n);
        let rest = copy_range(self.as_slice(), n, self.len());
        *self = rest;
        head
    }

    fn get_next_box_size_and_title(&mut self) -> (r: (u32, String)) {
        let size = read_u32_be(self.as_slice(), 0);
        let title = lossy_text(slice_subrange(self.as_slice(), 4, 8));
        let rest = copy_range(self.as_slice(), 8, self.len());
        *self = rest;
        (size, title)
    }
}

/// The four bytes of a tag, most significant first.
pub open spec fn tag_seq(t: u32) -> Seq<u8> {
    seq![(t >> 24u32) as u8, ((t >> 16u32) & 0xffu32) as u8, ((t >> 8u32) & 0xffu32) as u8, (t & 0xffu32) as u8]
}

fn tag_bytes(t: u32) -> (r: Vec<u8>)
    ensures
        r@ == tag_seq(t),
{
    let mut v: Vec<u8> = Vec::new();
    v.push((t >> 24) as u8);
    v.push(((t >> 16) & 0xff) as u8);
    v.push(((t >> 8) & 0xff) as u8);
    v.push((t & 0xff) as u8);
    assert(v@ =~= tag_seq(t));
    v
}

/// The text that describes a parse error.
pub open spec fn error_text(e: ParseError) -> Seq<char> {
    match e {
        ParseError::MissingChild(t) => "No "@ + lossy_utf8(tag_seq(t)) + " box found"@,
        ParseError::UnknownTag(t) => "Unknown sub-box, got "@ + lossy_utf8(tag_seq(t)),
        ParseError::LengthOverflow => "Box length runs past its data"@,
        ParseError::NotStsd(t) => "not stsd, got "@ + lossy_utf8(tag_seq(t)),
        ParseError::UnsupportedFeature => "Unsupported stream feature"@,
    }
}

impl ParseError {
    /// Describes the error in words.
    pub fn to_string(&self) -> (r: String)
        ensures
            r@ == error_text(*self),
    {
        match self {
            ParseError::MissingChild(t) => {
                let mut s = String::from_str("No ");
                let name = lossy_text(tag_bytes(*t).as_slice());
                s.append(name.as_str());
                s.append(" box found");
                s
            },
            ParseError::UnknownTag(t) => {
                let mut s = String::from_str("Unknown sub-box, got ");
                let name = lossy_text(tag_bytes(*t).as_slice());
                s.append(name.as_str());
                s
            },
            ParseError::LengthOverflow => String::from_str("Box length runs past its data"),
            ParseError::NotStsd(t) => {
                let mut s = String::from_str("not stsd, got ");
                let name = lossy_text(tag_bytes(*t).as_slice());
                s.append(name.as_str());
                s
            },
            ParseError::UnsupportedFeature => String::from_str("Unsupported stream feature"),
        }
    }
}

} // verus!
