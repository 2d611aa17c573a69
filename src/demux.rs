//! The demultiplexer as a state machine: it takes bytes of the stream, parses
//! `ftyp` and `moov`, then cuts `mdat` into coded samples ready for the
//! decoders, and stamps decoded output with presentation times.

use std::collections::VecDeque;
use vstd::prelude::*;

use crate::annexb::{annexb_of, avcc_parameter_sets, avcc_to_annexb, frame_nals, parameter_sets};
use crate::boxes::{copy_range, ParseError};
use crate::bytes::{be_u32, read_u32_be, TAG_FTYP, TAG_MDAT, TAG_MOOV};
use crate::moov::{get_moov_box, moov_built, moov_failure, FTYPBox, MOOVBox, Streams, TRAKBox};
use crate::sample_map::{all_chunks, get_sample_map, sample_map_of, SampleData};

verus! {

/// Width in pixels of the decoded video.
pub const VIDEO_WIDTH: usize = 640;

/// Height in pixels of the decoded video.
pub const VIDEO_HEIGHT: usize = 360;

/// Bytes in one decoded RGB24 frame.
pub const FRAME_BYTES: usize = VIDEO_WIDTH * VIDEO_HEIGHT * 3;

/// Bytes in one decoded audio block.
pub const AUDIO_BLOCK_BYTES: usize = 8192;

/// Bytes with their presentation time in milliseconds from the start of playback.
#[derive(Clone, Debug)]
pub struct BytesWithTimestamp {
    pub data: Vec<u8>,
    pub timestamp_in_ms: usize,
}

/// A message on the decoded audio channel.
#[derive(Clone, Debug)]
pub enum RawAudioMessage {
    AudioMessage(BytesWithTimestamp),
    Done,
}

/// A message on the decoded video channel.
#[derive(Clone, Debug)]
pub enum RawVideoMessage {
    VideoMessage(BytesWithTimestamp),
    FramesPerSecond(usize),
    Done,
}

/// What the demultiplexer asks of the code that drives it.
#[derive(Clone, Debug)]
pub enum DemuxAction {
    /// More stream bytes are needed.
    NeedMore,
    /// Progress was made with nothing to hand out.
    Skip,
    /// The video frame rate, to send before any frame.
    FramesPerSecond(usize),
    /// An Annex-B video packet for the H.264 decoder.
    VideoPacket(Vec<u8>),
    /// A coded audio sample for the AAC decoder.
    AudioPacket(Vec<u8>),
    /// The stream cannot be played.
    Failed(ParseError),
}

/// Adds, staying at `usize::MAX` rather than wrapping.
pub open spec fn add_capped(a: usize, b: usize) -> usize {
    if a + b > usize::MAX {
        usize::MAX
    } else {
        (a + b) as usize
    }
}

/// Adds, staying at `usize::MAX`.
fn add_capped_exec(a: usize, b: usize) -> (r: usize)
    ensures
        r == add_capped(a, b),
{
    if a > usize::MAX - b {
        usize::MAX
    } else {
        a + b
    }
}

/// The timescale of an `mdhd` payload.
pub open spec fn mdhd_timescale(d: Seq<u8>) -> Result<int, ParseError> {
    if d.len() < 1 {
        Err(ParseError::LengthOverflow)
    } else if d[0] == 0 {
        if d.len() < 16 {
            Err(ParseError::LengthOverflow)
        } else {
            Ok(be_u32(d, 12))
        }
    } else if d[0] == 1 {
        if d.len() < 24 {
            Err(ParseError::LengthOverflow)
        } else {
            Ok(be_u32(d, 20))
        }
    } else {
        Err(ParseError::UnsupportedFeature)
    }
}

/// The sample duration of an `stts` payload with its single entry.
pub open spec fn stts_delta(d: Seq<u8>) -> Result<int, ParseError> {
    if d.len() < 16 {
        Err(ParseError::LengthOverflow)
    } else if be_u32(d, 4) != 1 {
        Err(ParseError::UnsupportedFeature)
    } else {
        Ok(be_u32(d, 12))
    }
}

/// The frame rate of track `t`: its timescale over its sample duration.
pub open spec fn track_fps(t: TRAKBox) -> Result<int, ParseError> {
    match mdhd_timescale(t.media.mdhd.data@) {
        Err(e) => Err(e),
        Ok(ts) => match stts_delta(t.media.minf.stbl.stts.data@) {
            Err(e) => Err(e),
            Ok(delta) => if delta == 0 || ts / delta == 0 {
                Err(ParseError::UnsupportedFeature)
            } else {
                Ok(ts / delta)
            },
        },
    }
}

/// Computes the frame rate of a video track.
pub fn frames_per_second(t: &TRAKBox) -> (r: Result<u32, ParseError>)
    ensures
        match r {
            Ok(f) => track_fps(*t) == Ok::<int, ParseError>(f as int) && f >= 1,
            Err(e) => track_fps(*t) == Err::<int, ParseError>(e),
        },
{
    let mdhd = t.media.mdhd.data.as_slice();
    let stts = t.media.minf.stbl.stts.data.as_slice();
    if mdhd.len() < 1 {
        return Err(ParseError::LengthOverflow);
    }
    let timescale = if mdhd[0] == 0 {
        if mdhd.len() < 16 {
            return Err(ParseError::LengthOverflow);
        }
        read_u32_be(mdhd, 12)
    } else if mdhd[0] == 1 {
        if mdhd.len() < 24 {
            return Err(ParseError::LengthOverflow);
        }
        read_u32_be(mdhd, 20)
    } else {
        return Err(ParseError::UnsupportedFeature);
    };
    if stts.len() < 16 {
        return Err(ParseError::LengthOverflow);
    }
    if read_u32_be(stts, 4) != 1 {
        return Err(ParseError::UnsupportedFeature);
    }
    let delta = read_u32_be(stts, 12);
    if delta == 0 || timescale / delta == 0 {
        return Err(ParseError::UnsupportedFeature);
    }
    Ok(timescale / delta)
}

/// The NAL length size an `avcC` record declares: its low two bits of byte 4, plus one.
pub open spec fn avcc_nal_size(a: Seq<u8>) -> Option<u8> {
    if a.len() < 5 {
        None
    } else {
        Some(((a[4] & 3u8) + 1) as u8)
    }
}

/// The NAL length size and the first video frame rate of tracks `ts`, reading
/// them in order from NAL length size `nal`.
pub open spec fn tracks_summary(ts: Seq<TRAKBox>, nal: u8) -> Result<(u8, Option<int>), ParseError>
    decreases ts.len(),
{
    if ts.len() == 0 {
        Ok((nal, None))
    } else {
        match tracks_summary(ts.drop_last(), nal) {
            Err(e) => Err(e),
            Ok((n, fps)) => {
                let t = ts.last();
                let n2 = match t.media.minf.stbl.stsd.avcc {
                    Some(a) => avcc_nal_size(a@),
                    None => Some(n),
                };
                if n2 is None {
                    Err(ParseError::LengthOverflow)
                } else if fps is None && t.media.minf.header == Streams::Video {
                    match track_fps(t) {
                        Err(e) => Err(e),
                        Ok(f) => Ok((n2->0, Some(f))),
                    }
                } else {
                    Ok((n2->0, fps))
                }
            },
        }
    }
}

/// Reads the NAL length size and the first video frame rate off the tracks.
pub fn summarize_tracks(ts: &Vec<TRAKBox>, nal: u8) -> (r: Result<(u8, Option<u32>), ParseError>)
    ensures
        match r {
            Ok((n, f)) => tracks_summary(ts@, nal) == Ok::<(u8, Option<int>), ParseError>(
                (
                    n,
                    match f {
                        Some(x) => Some(x as int),
                        None => None,
                    },
                ),
            ),
            Err(e) => tracks_summary(ts@, nal) == Err::<(u8, Option<int>), ParseError>(e),
        },
        r matches Ok((_, Some(f))) ==> f >= 1,
{
    let mut n = nal;
    let mut fps: Option<u32> = None;
    let mut i: usize = 0;
    assert(ts@.subrange(0, 0) =~= Seq::<TRAKBox>::empty());
    while i < ts.len()
        invariant
            i <= ts@.len(),
            fps matches Some(f) ==> f >= 1,
            tracks_summary(ts@.subrange(0, i as int), nal) == Ok::<(u8, Option<int>), ParseError>(
                (
                    n,
                    match fps {
                        Some(x) => Some(x as int),
                        None => None,
                    },
                ),
            ),
        decreases ts@.len() - i,
    {
        let ghost part = ts@.subrange(0, i + 1);
        assert(part.drop_last() =~= ts@.subrange(0, i as int));
        assert(part.last() == ts@[i as int]);
        let t = &ts[i];
        match &t.media.minf.stbl.stsd.avcc {
            Some(a) => {
                if a.len() < 5 {
                    proof {
                        lemma_summary_error_stays(ts@, i + 1, nal);
                    }
                    return Err(ParseError::LengthOverflow);
                }
                let b = a[4];
                assert(b & 3u8 <= 3u8) by (bit_vector);
                n = (b & 3) + 1;
            },
            None => {},
        }
        if fps.is_none() {
            if let Streams::Video = t.media.minf.header {
                match frames_per_second(t) {
                    Ok(f) => {
                        fps = Some(f);
                    },
                    Err(e) => {
                        proof {
                            lemma_summary_error_stays(ts@, i + 1, nal);
                        }
                        return Err(e);
                    },
                }
            }
        }
        i = i + 1;
    }
    assert(ts@.subrange(0, i as int) =~= ts@);
    Ok((n, fps))
}

/// An error met on a prefix of the tracks is the error of all of them.
proof fn lemma_summary_error_stays(ts: Seq<TRAKBox>, k: int, nal: u8)
    requires
        0 <= k <= ts.len(),
        tracks_summary(ts.subrange(0, k), nal) is Err,
    ensures
        tracks_summary(ts, nal) == tracks_summary(ts.subrange(0, k), nal),
    decreases ts.len() - k,
{
    if k == ts.len() {
        assert(ts.subrange(0, k) =~= ts);
    } else {
        let short = ts.drop_last();
        assert(short.subrange(0, k) =~= ts.subrange(0, k));
        lemma_summary_error_stays(short, k, nal);
    }
}

/// The demultiplexer's state between steps.
pub struct Demultiplexer {
    /// Bytes that hold each NAL unit length in video samples.
    pub nal_length_size: u8,
    /// Milliseconds between video frames, once the frame rate is known.
    pub frame_interval_ms: Option<usize>,
    /// Milliseconds between decoded audio blocks.
    pub sample_interval_ms: usize,
    /// Received bytes; those before `pos` are consumed.
    pub buffer: Vec<u8>,
    pub pos: usize,
    pub ftyp: Option<FTYPBox>,
    /// The samples of `mdat` not yet cut, in order.
    pub sample_map: VecDeque<SampleData>,
    pub mdat_reached: bool,
    /// The video's parameter sets in Annex-B, for the decoder before any picture.
    pub parameter_sets: Option<Vec<u8>>,
    pub video_timestamp_in_ms: usize,
    pub audio_timestamp_in_ms: usize,
}

/// The bytes an optional buffer holds.
pub open spec fn opt_bytes(o: Option<Vec<u8>>) -> Option<Seq<u8>> {
    match o {
        Some(v) => Some(v@),
        None => None,
    }
}

/// The `avcC` record of the first video track of `ts` that has one.
pub open spec fn first_video_avcc(ts: Seq<TRAKBox>) -> Option<Seq<u8>>
    decreases ts.len(),
{
    if ts.len() == 0 {
        None
    } else {
        match first_video_avcc(ts.drop_last()) {
            Some(a) => Some(a),
            None => {
                let t = ts.last();
                if t.media.minf.header == Streams::Video && t.media.minf.stbl.stsd.avcc is Some {
                    Some(t.media.minf.stbl.stsd.avcc->0@)
                } else {
                    None
                }
            },
        }
    }
}

/// The Annex-B parameter sets of the first video track of `ts` with an `avcC`
/// record, when that record holds them whole.
pub open spec fn stream_parameter_sets(ts: Seq<TRAKBox>) -> Option<Seq<u8>> {
    match first_video_avcc(ts) {
        Some(a) => match parameter_sets(a) {
            Some(ps) => Some(frame_nals(ps)),
            None => None,
        },
        None => None,
    }
}

/// Finds the parameter sets of the first video track with an `avcC` record.
pub fn first_video_parameter_sets(ts: &Vec<TRAKBox>) -> (r: Option<Vec<u8>>)
    ensures
        opt_bytes(r) == stream_parameter_sets(ts@),
{
    let mut i: usize = 0;
    assert(ts@.subrange(0, 0) =~= Seq::<TRAKBox>::empty());
    while i < ts.len()
        invariant
            i <= ts@.len(),
            first_video_avcc(ts@.subrange(0, i as int)) is None,
        decreases ts@.len() - i,
    {
        let ghost part = ts@.subrange(0, i + 1);
        assert(part.drop_last() =~= ts@.subrange(0, i as int));
        assert(part.last() == ts@[i as int]);
        let t = &ts[i];
        if let Streams::Video = t.media.minf.header {
            if let Some(a) = &t.media.minf.stbl.stsd.avcc {
                proof {
                    lemma_first_video_avcc_stays(ts@, i + 1);
                }
                return avcc_parameter_sets(a.as_slice());
            }
        }
        i = i + 1;
    }
    assert(ts@.subrange(0, i as int) =~= ts@);
    None
}

/// A video `avcC` record found in a prefix of the tracks is the first of all of them.
proof fn lemma_first_video_avcc_stays(ts: Seq<TRAKBox>, k: int)
    requires
        0 <= k <= ts.len(),
        first_video_avcc(ts.subrange(0, k)) is Some,
    ensures
        first_video_avcc(ts) == first_video_avcc(ts.subrange(0, k)),
    decreases ts.len() - k,
{
    if k == ts.len() {
        assert(ts.subrange(0, k) =~= ts);
    } else {
        let short = ts.drop_last();
        assert(short.subrange(0, k) =~= ts.subrange(0, k));
        lemma_first_video_avcc_stays(short, k);
    }
}

/// `o` and `f` hold the same parse state: everything but the buffered bytes
/// and the timestamps.
pub open spec fn same_parse_state(o: Demultiplexer, f: Demultiplexer) -> bool {
    &&& f.nal_length_size == o.nal_length_size
    &&& f.frame_interval_ms == o.frame_interval_ms
    &&& f.sample_interval_ms == o.sample_interval_ms
    &&& f.ftyp == o.ftyp
    &&& f.sample_map@ == o.sample_map@
    &&& f.mdat_reached == o.mdat_reached
    &&& f.parameter_sets == o.parameter_sets
}

/// `f` has the bytes of `o` but its first `k`.
pub open spec fn consumed(o: Demultiplexer, f: Demultiplexer, k: int) -> bool {
    f.wf() && f.pending() == o.pending().subrange(k, o.pending().len() as int)
}

/// The outcome of a parsed `moov` box `m` of size `size`.
pub open spec fn moov_outcome(
    o: Demultiplexer,
    f: Demultiplexer,
    r: DemuxAction,
    m: MOOVBox,
    size: int,
) -> bool {
    match tracks_summary(m.traks@, o.nal_length_size) {
        Err(e) => r == DemuxAction::Failed(e) && f == o,
        Ok((nal, fps)) => match all_chunks(m.traks@) {
            None => r == DemuxAction::Failed(ParseError::LengthOverflow) && f == o,
            Some(cs) => {
                &&& consumed(o, f, size)
                &&& !f.mdat_reached
                &&& f.ftyp == o.ftyp
                &&& f.sample_interval_ms == o.sample_interval_ms
                &&& f.nal_length_size == nal
                &&& opt_bytes(f.parameter_sets) == stream_parameter_sets(m.traks@)
                &&& sample_map_of(cs, f.sample_map@)
                &&& match fps {
                    Some(x) => f.frame_interval_ms == Some((1000int / x) as usize) && r
                        == DemuxAction::FramesPerSecond(x as usize),
                    None => f.frame_interval_ms == o.frame_interval_ms && r == DemuxAction::Skip,
                }
            },
        },
    }
}

/// One step before `mdat`: read the next top-level box.
pub open spec fn header_step(o: Demultiplexer, f: Demultiplexer, r: DemuxAction) -> bool {
    let b = o.pending();
    if b.len() < 8 {
        r == DemuxAction::NeedMore && f == o
    } else {
        let size = be_u32(b, 0);
        let tag = be_u32(b, 4);
        if tag == TAG_MDAT {
            &&& r == DemuxAction::Skip
            &&& consumed(o, f, 8)
            &&& f.mdat_reached
            &&& f.nal_length_size == o.nal_length_size
            &&& f.frame_interval_ms == o.frame_interval_ms
            &&& f.sample_interval_ms == o.sample_interval_ms
            &&& f.ftyp == o.ftyp
            &&& f.sample_map@ == o.sample_map@
            &&& f.parameter_sets == o.parameter_sets
        } else if size < 8 {
            r == DemuxAction::Failed(ParseError::LengthOverflow) && f == o
        } else if b.len() < size {
            r == DemuxAction::NeedMore && f == o
        } else if tag == TAG_FTYP {
            &&& r == DemuxAction::Skip
            &&& consumed(o, f, size)
            &&& !f.mdat_reached
            &&& f.nal_length_size == o.nal_length_size
            &&& f.frame_interval_ms == o.frame_interval_ms
            &&& f.sample_interval_ms == o.sample_interval_ms
            &&& f.sample_map@ == o.sample_map@
            &&& f.parameter_sets == o.parameter_sets
            &&& f.ftyp is Some
            &&& f.ftyp->0.size == size
            &&& f.ftyp->0.data@ == b.subrange(8, size)
        } else if tag == TAG_MOOV {
            let p = b.subrange(8, size);
            match moov_failure(p) {
                Some(e) => r == DemuxAction::Failed(e) && f == o,
                None => exists|m: MOOVBox|
                    moov_built(m, size as u32, p) && #[trigger] moov_outcome(o, f, r, m, size),
            }
        } else {
            r == DemuxAction::Failed(ParseError::UnknownTag(tag as u32)) && f == o
        }
    }
}

/// One step in `mdat`: cut the next sample once all its bytes are there.
pub open spec fn sample_step(o: Demultiplexer, f: Demultiplexer, r: DemuxAction) -> bool {
    let q = o.sample_map@;
    let b = o.pending();
    if q.len() == 0 || q[0].size > b.len() {
        r == DemuxAction::NeedMore && f == o
    } else {
        let s = q[0];
        let sample = b.subrange(0, s.size as int);
        &&& consumed(o, f, s.size as int)
        &&& f.mdat_reached
        &&& f.nal_length_size == o.nal_length_size
        &&& f.frame_interval_ms == o.frame_interval_ms
        &&& f.sample_interval_ms == o.sample_interval_ms
        &&& f.ftyp == o.ftyp
        &&& f.parameter_sets == o.parameter_sets
        &&& f.sample_map@ == q.drop_first()
        &&& if s.is_video {
            let a = annexb_of(sample, o.nal_length_size as int);
            if a.len() == 0 {
                r == DemuxAction::Skip
            } else {
                match r {
                    DemuxAction::VideoPacket(v) => v@ == a,
                    _ => false,
                }
            }
        } else {
            match r {
                DemuxAction::AudioPacket(v) => v@ == sample,
                _ => false,
            }
        }
    }
}

/// Video frame `data` stamped from state `o` to state `f` as message `m`.
pub open spec fn video_stamped(
    o: Demultiplexer,
    f: Demultiplexer,
    data: Seq<u8>,
    m: RawVideoMessage,
) -> bool {
    &&& data.len() == FRAME_BYTES
    &&& o.frame_interval_ms is Some
    &&& match m {
        RawVideoMessage::VideoMessage(b) => b.data@ == data && b.timestamp_in_ms
            == o.video_timestamp_in_ms,
        _ => false,
    }
    &&& f.video_timestamp_in_ms == add_capped(
        o.video_timestamp_in_ms,
        o.frame_interval_ms->0,
    )
}

/// Audio block `data` stamped from state `o` to state `f` as message `m`.
pub open spec fn audio_stamped(
    o: Demultiplexer,
    f: Demultiplexer,
    data: Seq<u8>,
    m: RawAudioMessage,
) -> bool {
    &&& data.len() == AUDIO_BLOCK_BYTES
    &&& match m {
        RawAudioMessage::AudioMessage(b) => b.data@ == data && b.timestamp_in_ms
            == o.audio_timestamp_in_ms,
        _ => false,
    }
    &&& f.audio_timestamp_in_ms == add_capped(o.audio_timestamp_in_ms, o.sample_interval_ms)
}

impl Demultiplexer {
    /// The consumed prefix lies within the buffer.
    pub open spec fn wf(&self) -> bool {
        self.pos <= self.buffer@.len()
    }

    /// The received bytes not yet consumed.
    pub open spec fn pending(&self) -> Seq<u8> {
        self.buffer@.subrange(self.pos as int, self.buffer@.len() as int)
    }

    /// A demultiplexer before any byte, stamping audio blocks `sample_interval_ms` apart.
    pub fn new(sample_interval_ms: usize) -> (r: Self)
        ensures
            r.wf(),
            r.pending().len() == 0,
            r.nal_length_size == 4,
            r.frame_interval_ms is None,
            r.sample_interval_ms == sample_interval_ms,
            r.ftyp is None,
            r.sample_map@.len() == 0,
            !r.mdat_reached,
            r.parameter_sets is None,
            r.video_timestamp_in_ms == 0,
            r.audio_timestamp_in_ms == 0,
    {
        Demultiplexer {
            nal_length_size: 4,
            frame_interval_ms: None,
            sample_interval_ms,
            buffer: Vec::new(),
            pos: 0,
            ftyp: None,
            sample_map: VecDeque::new(),
            mdat_reached: false,
            parameter_sets: None,
            video_timestamp_in_ms: 0,
            audio_timestamp_in_ms: 0,
        }
    }

    /// Bit `bit_index` of `byte`, counted from the least significant.
    pub fn get_bit(&self, byte: u8, bit_index: u8) -> (r: u8)
        requires
            bit_index < 8,
        ensures
            r == (byte >> bit_index) & 1u8,
    {
        (byte >> bit_index) & 1
    }

    /// Converts an AVCC video sample to Annex-B with this stream's NAL length size.
    pub fn convert_avcc_to_annexb(&self, data: &[u8]) -> (r: Vec<u8>)
        ensures
            r@ == annexb_of(data@, self.nal_length_size as int),
    {
        avcc_to_annexb(data, self.nal_length_size)
    }

    /// Appends received stream bytes.
    pub fn feed(&mut self, chunk: &[u8])
        requires
            old(self).wf(),
        ensures
            final(self).wf(),
            final(self).pending() == old(self).pending() + chunk@,
            same_parse_state(*old(self), *final(self)),
            final(self).video_timestamp_in_ms == old(self).video_timestamp_in_ms,
            final(self).audio_timestamp_in_ms == old(self).audio_timestamp_in_ms,
    {
        let mut fresh = copy_range(self.buffer.as_slice(), self.pos, self.buffer.len());
        let ghost start = fresh@;
        let mut i: usize = 0;
        while i < chunk.len()
            invariant
                i <= chunk@.len(),
                fresh@ == start + chunk@.subrange(0, i as int),
            decreases chunk@.len() - i,
        {
            fresh.push(chunk[i]);
            i = i + 1;
            assert(fresh@ =~= start + chunk@.subrange(0, i as int));
        }
        assert(chunk@.subrange(0, i as int) =~= chunk@);
        self.buffer = fresh;
        self.pos = 0;
        assert(self.pending() =~= self.buffer@);
    }

    /// Does the next piece of work on the buffered bytes and says what the
    /// driver must do: before `mdat` it reads one top-level box, then it cuts
    /// one sample.
    pub fn next_action(&mut self) -> (r: DemuxAction)
        requires
            old(self).wf(),
        ensures
            final(self).wf(),
            final(self).video_timestamp_in_ms == old(self).video_timestamp_in_ms,
            final(self).audio_timestamp_in_ms == old(self).audio_timestamp_in_ms,
            !old(self).mdat_reached ==> header_step(*old(self), *final(self), r),
            old(self).mdat_reached ==> sample_step(*old(self), *final(self), r),
    {
        if self.mdat_reached {
            self.next_sample()
        } else {
            self.next_box()
        }
    }

    fn next_box(&mut self) -> (r: DemuxAction)
        requires
            old(self).wf(),
            !old(self).mdat_reached,
        ensures
            final(self).wf(),
            final(self).video_timestamp_in_ms == old(self).video_timestamp_in_ms,
            final(self).audio_timestamp_in_ms == old(self).audio_timestamp_in_ms,
            header_step(*old(self), *final(self), r),
    {
        let ghost b = self.pending();
        let len = self.buffer.len();
        let pos = self.pos;
        if len - pos < 8 {
            return DemuxAction::NeedMore;
        }
        let size = read_u32_be(self.buffer.as_slice(), pos);
        let tag = read_u32_be(self.buffer.as_slice(), pos + 4);
        assert(be_u32(b, 0) == size);
        assert(be_u32(b, 4) == tag);
        if tag == TAG_MDAT {
            self.pos = pos + 8;
            self.mdat_reached = true;
            assert(self.pending() =~= b.subrange(8, b.len() as int));
            return DemuxAction::Skip;
        }
        if size < 8 {
            return DemuxAction::Failed(ParseError::LengthOverflow);
        }
        if len - pos < size as usize {
            return DemuxAction::NeedMore;
        }
        let end = pos + size as usize;
        if tag == TAG_FTYP {
            let data = copy_range(self.buffer.as_slice(), pos + 8, end);
            assert(data@ =~= b.subrange(8, size as int));
            self.ftyp = Some(FTYPBox { size, data });
            self.pos = end;
            assert(self.pending() =~= b.subrange(size as int, b.len() as int));
            return DemuxAction::Skip;
        }
        if tag != TAG_MOOV {
            return DemuxAction::Failed(ParseError::UnknownTag(tag));
        }
        let payload = copy_range(self.buffer.as_slice(), pos + 8, end);
        assert(payload@ =~= b.subrange(8, size as int));
        let m = match get_moov_box(size, payload) {
            Ok(m) => m,
            Err(e) => return DemuxAction::Failed(e),
        };
        let ghost gm = m;
        let (nal, fps) = match summarize_tracks(&m.traks, self.nal_length_size) {
            Ok(x) => x,
            Err(e) => {
                assert(moov_outcome(*old(self), *self, DemuxAction::Failed(e), gm, size as int));
                return DemuxAction::Failed(e);
            },
        };
        let sets = first_video_parameter_sets(&m.traks);
        let map = match get_sample_map(m) {
            Ok(v) => v,
            Err(e) => {
                assert(moov_outcome(*old(self), *self, DemuxAction::Failed(e), gm, size as int));
                return DemuxAction::Failed(e);
            },
        };
        self.nal_length_size = nal;
        self.parameter_sets = sets;
        self.sample_map = map;
        self.pos = end;
        assert(self.pending() =~= b.subrange(size as int, b.len() as int));
        let r = match fps {
            Some(f) => {
                self.frame_interval_ms = Some((1000 / f) as usize);
                DemuxAction::FramesPerSecond(f as usize)
            },
            None => DemuxAction::Skip,
        };
        assert(moov_outcome(*old(self), *self, r, gm, size as int));
        r
    }

    fn next_sample(&mut self) -> (r: DemuxAction)
        requires
            old(self).wf(),
            old(self).mdat_reached,
        ensures
            final(self).wf(),
            final(self).video_timestamp_in_ms == old(self).video_timestamp_in_ms,
            final(self).audio_timestamp_in_ms == old(self).audio_timestamp_in_ms,
            sample_step(*old(self), *final(self), r),
    {
        let ghost b = self.pending();
        let ghost q = self.sample_map@;
        if self.sample_map.len() == 0 {
            return DemuxAction::NeedMore;
        }
        let s = self.sample_map[0];
        let pos = self.pos;
        if s.size as usize > self.buffer.len() - pos {
            return DemuxAction::NeedMore;
        }
        let end = pos + s.size as usize;
        let sample = copy_range(self.buffer.as_slice(), pos, end);
        assert(sample@ =~= b.subrange(0, s.size as int));
        let _ = self.sample_map.pop_front();
        assert(self.sample_map@ =~= q.drop_first());
        self.pos = end;
        assert(self.pending() =~= b.subrange(s.size as int, b.len() as int));
        if s.is_video {
            let a = avcc_to_annexb(sample.as_slice(), self.nal_length_size);
            if a.len() == 0 {
                DemuxAction::Skip
            } else {
                DemuxAction::VideoPacket(a)
            }
        } else {
            DemuxAction::AudioPacket(sample)
        }
    }

    /// Stamps a decoded RGB frame with the next video time. `None` when the
    /// frame does not hold `FRAME_BYTES` bytes or no frame rate is known.
    pub fn video_frame_message(&mut self, data: Vec<u8>) -> (r: Option<RawVideoMessage>)
        ensures
            r is Some <==> (data@.len() == FRAME_BYTES && old(self).frame_interval_ms is Some),
            r is Some ==> video_stamped(*old(self), *final(self), data@, r->0),
            same_parse_state(*old(self), *final(self)),
            final(self).buffer == old(self).buffer,
            final(self).pos == old(self).pos,
            final(self).audio_timestamp_in_ms == old(self).audio_timestamp_in_ms,
            r is None ==> final(self).video_timestamp_in_ms == old(self).video_timestamp_in_ms,
    {
        if data.len() != FRAME_BYTES {
            return None;
        }
        let interval = match self.frame_interval_ms {
            Some(i) => i,
            None => return None,
        };
        let t = self.video_timestamp_in_ms;
        self.video_timestamp_in_ms = add_capped_exec(t, interval);
        Some(RawVideoMessage::VideoMessage(BytesWithTimestamp { data, timestamp_in_ms: t }))
    }

    /// Stamps a decoded audio block with the next audio time. `None` when the
    /// block does not hold `AUDIO_BLOCK_BYTES` bytes.
    pub fn audio_sample_message(&mut self, data: Vec<u8>) -> (r: Option<RawAudioMessage>)
        ensures
            r is Some <==> data@.len() == AUDIO_BLOCK_BYTES,
            r is Some ==> audio_stamped(*old(self), *final(self), data@, r->0),
            same_parse_state(*old(self), *final(self)),
            final(self).buffer == old(self).buffer,
            final(self).pos == old(self).pos,
            final(self).video_timestamp_in_ms == old(self).video_timestamp_in_ms,
            r is None ==> final(self).audio_timestamp_in_ms == old(self).audio_timestamp_in_ms,
    {
        if data.len() != AUDIO_BLOCK_BYTES {
            return None;
        }
        let t = self.audio_timestamp_in_ms;
        self.audio_timestamp_in_ms = add_capped_exec(t, self.sample_interval_ms);
        Some(RawAudioMessage::AudioMessage(BytesWithTimestamp { data, timestamp_in_ms: t }))
    }
}

/// The presentation time of a video message (zero for control messages).
pub open spec fn video_time(m: RawVideoMessage) -> int {
    match m {
        RawVideoMessage::VideoMessage(b) => b.timestamp_in_ms as int,
        _ => 0,
    }
}

/// The presentation time of an audio message (zero for `Done`).
pub open spec fn audio_time(m: RawAudioMessage) -> int {
    match m {
        RawAudioMessage::AudioMessage(b) => b.timestamp_in_ms as int,
        _ => 0,
    }
}

/// Video timestamps never decrease: of two frames stamped one after the
/// other, with any steps between that do not turn the video clock back (as
/// `feed`, `next_action` and audio stamping do not), the second is no earlier.
/// Every video message holds `FRAME_BYTES` bytes.
pub proof fn lemma_video_timestamps_monotonic(
    s1: Demultiplexer,
    s2: Demultiplexer,
    s3: Demultiplexer,
    s4: Demultiplexer,
    d1: Seq<u8>,
    d2: Seq<u8>,
    m1: RawVideoMessage,
    m2: RawVideoMessage,
)
    requires
        video_stamped(s1, s2, d1, m1),
        s2.video_timestamp_in_ms <= s3.video_timestamp_in_ms,
        video_stamped(s3, s4, d2, m2),
    ensures
        video_time(m1) <= video_time(m2),
        d1.len() == VIDEO_WIDTH * VIDEO_HEIGHT * 3,
        d2.len() == VIDEO_WIDTH * VIDEO_HEIGHT * 3,
{
}

/// Audio timestamps never decrease, as video timestamps do not.
pub proof fn lemma_audio_timestamps_monotonic(
    s1: Demultiplexer,
    s2: Demultiplexer,
    s3: Demultiplexer,
    s4: Demultiplexer,
    d1: Seq<u8>,
    d2: Seq<u8>,
    m1: RawAudioMessage,
    m2: RawAudioMessage,
)
    requires
        audio_stamped(s1, s2, d1, m1),
        s2.audio_timestamp_in_ms <= s3.audio_timestamp_in_ms,
        audio_stamped(s3, s4, d2, m2),
    ensures
        audio_time(m1) <= audio_time(m2),
{
}

} // verus!
