//! The terminal graphics encoder: sizes and places the picture on the
//! terminal and wraps each RGB frame in the graphics escape sequence.

use base64::{engine::general_purpose, Engine as _};
use vstd::prelude::*;

use crate::demux::{BytesWithTimestamp, RawVideoMessage};

verus! {

/// The terminal window: its text grid and its size in pixels.
#[derive(Clone, Copy, Debug, PartialEq, Eq, Structural)]
pub struct TerminalSize {
    pub cols: u16,
    pub rows: u16,
    pub x_pixels: u16,
    pub y_pixels: u16,
}

/// Why an encoder cannot be set up.
#[derive(Clone, Copy, Debug, PartialEq, Eq, Structural)]
pub enum EncoderError {
    /// The terminal reported a zero size, or cells under one pixel.
    InvalidTerminalSize,
    /// The video has no pixels.
    InvalidVideoSize,
}

/// A message on the encoded video channel.
#[derive(Clone, Debug)]
pub enum EncodedVideoMessage {
    EncodedVideoMessage(BytesWithTimestamp),
    Done,
}

/// The text that base64's standard padded engine makes of a byte sequence.
pub uninterp spec fn base64_of(b: Seq<u8>) -> Seq<u8>;

/// Relies on `base64::engine::general_purpose::STANDARD.encode`: the padded
/// standard-alphabet encoding, four characters for each three bytes begun.
#[verifier::external_body]
fn encode_rgb(rgb: &[u8]) -> (r: Vec<u8>)
    requires
        4 * (rgb@.len() / 3) + 4 <= usize::MAX,
    ensures
        r@ == base64_of(rgb@),
        r@.len() == 4 * ((rgb@.len() + 2) / 3),
{
    general_purpose::STANDARD.encode(rgb).into_bytes()
}

/// The decimal digits of `n`, in ASCII.
pub open spec fn decimal(n: nat) -> Seq<u8>
    decreases n,
{
    if n < 10 {
        seq![(48 + n) as u8]
    } else {
        decimal(n / 10).push((48 + n % 10) as u8)
    }
}

/// Writes `n` in decimal ASCII digits.
pub fn decimal_bytes(n: u64) -> (r: Vec<u8>)
    ensures
        r@ == decimal(n as nat),
    decreases n,
{
    if n < 10 {
        let mut v: Vec<u8> = Vec::new();
        v.push((48 + n) as u8);
        assert(v@ =~= decimal(n as nat));
        v
    } else {
        let mut v = decimal_bytes(n / 10);
        v.push((48 + n % 10) as u8);
        v
    }
}

/// Control pairs `k=v` joined by commas.
pub open spec fn join_pairs(ps: Seq<(Seq<u8>, Seq<u8>)>) -> Seq<u8>
    decreases ps.len(),
{
    if ps.len() == 0 {
        Seq::empty()
    } else if ps.len() == 1 {
        ps[0].0 + seq![61u8] + ps[0].1
    } else {
        join_pairs(ps.drop_last()) + seq![44u8] + ps.last().0 + seq![61u8] + ps.last().1
    }
}

/// The byte sequences of key/value pairs.
pub open spec fn pair_views(v: Seq<(Vec<u8>, Vec<u8>)>) -> Seq<(Seq<u8>, Seq<u8>)> {
    v.map_values(|p: (Vec<u8>, Vec<u8>)| (p.0@, p.1@))
}

/// The escape sequence that shows an image: `ESC _ G`, the control data, `;`,
/// the payload, `ESC \`.
pub open spec fn envelope(control: Seq<u8>, payload: Seq<u8>) -> Seq<u8> {
    seq![27u8, 95u8, 71u8] + control + seq![59u8] + payload + seq![27u8, 92u8]
}

/// Cells the picture spans: the full height of the terminal, or the full width
/// when that is narrower, keeping the video's aspect ratio.
pub open spec fn display_cells(w: int, h: int, t: TerminalSize) -> (int, int) {
    let cw = (t.x_pixels / t.cols) as int;
    let ch = (t.y_pixels / t.rows) as int;
    let c = t.rows as int * ch * w / h / cw;
    if c <= t.cols {
        (c, t.rows as int)
    } else {
        let r = t.cols as int * cw * h / w / ch;
        (t.cols as int, if r <= t.rows { r } else { t.rows as int })
    }
}

/// The one byte `b`.
fn byte(b: u8) -> (r: Vec<u8>)
    ensures
        r@ == seq![b],
{
    let mut v: Vec<u8> = Vec::new();
    v.push(b);
    assert(v@ =~= seq![b]);
    v
}

/// Appends `b` to `v`.
fn append_bytes(v: &mut Vec<u8>, b: &[u8])
    ensures
        final(v)@ == old(v)@ + b@,
{
    let ghost start = v@;
    let mut i: usize = 0;
    while i < b.len()
        invariant
            i <= b@.len(),
            v@ == start + b@.subrange(0, i as int),
        decreases b@.len() - i,
    {
        v.push(b[i]);
        i = i + 1;
        assert(v@ =~= start + b@.subrange(0, i as int));
    }
    assert(b@.subrange(0, i as int) =~= b@);
}

/// Places video frames of `width` by `height` pixels on a terminal.
pub struct Encoder {
    pub width: usize,
    pub height: usize,
    /// Terminal size in pixels.
    pub term_width: u16,
    pub term_height: u16,
    pub display_cols: u32,
    pub display_rows: u32,
    pub x_offset: u32,
    pub y_offset: u32,
}

impl Encoder {
    /// Sizes the picture to the terminal `term`: it fills the rows (or the
    /// columns) and is centered horizontally; vertically it is centered, or
    /// placed at `forced_y_offset` pixels when one is given.
    pub fn new(width: usize, height: usize, term: TerminalSize, forced_y_offset: Option<u32>) -> (r:
        Result<Encoder, EncoderError>)
        ensures
            match r {
                Ok(e) => {
                    let cw = term.x_pixels / term.cols;
                    let ch = term.y_pixels / term.rows;
                    let (dc, dr) = display_cells(width as int, height as int, term);
                    &&& term.cols > 0 && term.rows > 0 && cw > 0 && ch > 0
                    &&& width > 0 && height > 0
                    &&& e.width == width && e.height == height
                    &&& e.term_width == term.x_pixels && e.term_height == term.y_pixels
                    &&& e.display_cols == dc && e.display_rows == dr
                    &&& e.x_offset == (term.cols * cw - dc * cw) / 2
                    &&& e.y_offset == match forced_y_offset {
                        Some(y) => y as int,
                        None => (term.rows * ch - dr * ch) / 2,
                    }
                },
                Err(EncoderError::InvalidTerminalSize) => term.cols == 0 || term.rows == 0
                    || term.x_pixels / term.cols == 0 || term.y_pixels / term.rows == 0,
                Err(EncoderError::InvalidVideoSize) => term.cols > 0 && term.rows > 0
                    && term.x_pixels / term.cols > 0 && term.y_pixels / term.rows > 0 && (width
                    == 0 || height == 0),
            },
    {
        if term.cols == 0 || term.rows == 0 {
            return Err(EncoderError::InvalidTerminalSize);
        }
        let cw = term.x_pixels / term.cols;
        let ch = term.y_pixels / term.rows;
        if cw == 0 || ch == 0 {
            return Err(EncoderError::InvalidTerminalSize);
        }
        if width == 0 || height == 0 {
            return Err(EncoderError::InvalidVideoSize);
        }
        let cols = term.cols as u128;
        let rows = term.rows as u128;
        let w = width as u128;
        let h = height as u128;
        assert(rows * (ch as u128) <= 65535) by (nonlinear_arith)
            requires
                ch == term.y_pixels / term.rows,
                rows == term.rows,
                rows > 0,
        ;
        assert(rows * (ch as u128) * w <= 65535 * 0xffff_ffff_ffff_ffff) by (nonlinear_arith)
            requires
                rows * (ch as u128) <= 65535,
                w <= 0xffff_ffff_ffff_ffff,
        ;
        let c = rows * (ch as u128) * w / h / (cw as u128);
        let (dc, dr) = if c <= cols {
            (c as u32, term.rows as u32)
        } else {
            assert(cols * (cw as u128) <= 65535) by (nonlinear_arith)
                requires
                    cw == term.x_pixels / term.cols,
                    cols == term.cols,
                    cols > 0,
            ;
            assert(cols * (cw as u128) * h <= 65535 * 0xffff_ffff_ffff_ffff) by (nonlinear_arith)
                requires
                    cols * (cw as u128) <= 65535,
                    h <= 0xffff_ffff_ffff_ffff,
            ;
            let r = cols * (cw as u128) * h / w / (ch as u128);
            (term.cols as u32, if r <= rows { r as u32 } else { term.rows as u32 })
        };
        assert((dc as int) * (cw as int) <= (term.cols as int) * (cw as int)) by (nonlinear_arith)
            requires
                dc <= term.cols,
        ;
        assert((dr as int) * (ch as int) <= (term.rows as int) * (ch as int)) by (nonlinear_arith)
            requires
                dr <= term.rows,
        ;
        assert((term.cols as int) * (cw as int) <= 65535) by (nonlinear_arith)
            requires
                cw == term.x_pixels / term.cols,
                term.cols > 0,
        ;
        assert((term.rows as int) * (ch as int) <= 65535) by (nonlinear_arith)
            requires
                ch == term.y_pixels / term.rows,
                term.rows > 0,
        ;
        let full_w = term.cols as u32 * cw as u32;
        let full_h = term.rows as u32 * ch as u32;
        let x_offset = (full_w - dc * cw as u32) / 2;
        let y_offset = match forced_y_offset {
            Some(y) => y,
            None => (full_h - dr * ch as u32) / 2,
        };
        Ok(Encoder {
            width,
            height,
            term_width: term.x_pixels,
            term_height: term.y_pixels,
            display_cols: dc,
            display_rows: dr,
            x_offset,
            y_offset,
        })
    }

    /// Joins control pairs as `k=v` separated by commas.
    pub fn encode_control_data(&self, control_data: &Vec<(Vec<u8>, Vec<u8>)>) -> (r: Vec<u8>)
        ensures
            r@ == join_pairs(pair_views(control_data@)),
    {
        let ghost ps = pair_views(control_data@);
        let mut out: Vec<u8> = Vec::new();
        let mut i: usize = 0;
        assert(ps.subrange(0, 0) =~= Seq::<(Seq<u8>, Seq<u8>)>::empty());
        while i < control_data.len()
            invariant
                i <= control_data@.len(),
                ps == pair_views(control_data@),
                out@ == join_pairs(ps.subrange(0, i as int)),
            decreases control_data@.len() - i,
        {
            let ghost part = ps.subrange(0, i + 1);
            assert(part.drop_last() =~= ps.subrange(0, i as int));
            assert(part.last() == ps[i as int]);
            if i > 0 {
                out.push(44);
            }
            append_bytes(&mut out, control_data[i].0.as_slice());
            out.push(61);
            append_bytes(&mut out, control_data[i].1.as_slice());
            i = i + 1;
            proof {
                if i == 1 {
                    assert(part.len() == 1);
                    assert(part[0] == ps[0]);
                    assert(out@ =~= join_pairs(part));
                } else {
                    assert(out@ =~= join_pairs(part));
                }
            }
        }
        assert(ps.subrange(0, i as int) =~= ps);
        out
    }

    /// The control pairs of this encoder's frames.
    pub open spec fn control_pairs(&self) -> Seq<(Seq<u8>, Seq<u8>)> {
        seq![
            (seq![102u8], seq![50u8, 52u8]),
            (seq![115u8], decimal(self.width as nat)),
            (seq![118u8], decimal(self.height as nat)),
            (seq![99u8], decimal(self.display_cols as nat)),
            (seq![114u8], decimal(self.display_rows as nat)),
            (seq![116u8], seq![100u8]),
            (seq![97u8], seq![84u8]),
            (seq![88u8], decimal(self.x_offset as nat)),
            (seq![89u8], decimal(self.y_offset as nat)),
        ]
    }

    /// The control data of this encoder's frames: `f=24`, `s`, `v`, `c`, `r`,
    /// `t=d`, `a=T`, `X`, `Y`.
    pub fn control_data(&self) -> (r: Vec<u8>)
        ensures
            r@ == join_pairs(self.control_pairs()),
    {
        let mut pairs: Vec<(Vec<u8>, Vec<u8>)> = Vec::new();
        pairs.push((byte(102), decimal_bytes(24)));
        pairs.push((byte(115), decimal_bytes(self.width as u64)));
        pairs.push((byte(118), decimal_bytes(self.height as u64)));
        pairs.push((byte(99), decimal_bytes(self.display_cols as u64)));
        pairs.push((byte(114), decimal_bytes(self.display_rows as u64)));
        pairs.push((byte(116), byte(100)));
        pairs.push((byte(97), byte(84)));
        pairs.push((byte(88), decimal_bytes(self.x_offset as u64)));
        pairs.push((byte(89), decimal_bytes(self.y_offset as u64)));
        assert(decimal(24) =~= seq![50u8, 52u8]) by {
            assert(decimal(2) == seq![50u8]);
        }
        assert(pair_views(pairs@) =~= self.control_pairs());
        self.encode_control_data(&pairs)
    }

    /// Wraps an RGB frame in the graphics escape sequence; the time stays.
    pub fn encode_frame(&self, encoded_control_data: Vec<u8>, frame: BytesWithTimestamp) -> (r:
        BytesWithTimestamp)
        requires
            4 * (frame.data@.len() / 3) + 4 <= usize::MAX,
        ensures
            r.data@ == envelope(encoded_control_data@, base64_of(frame.data@)),
            r.timestamp_in_ms == frame.timestamp_in_ms,
    {
        let payload = encode_rgb(frame.data.as_slice());
        let mut buffer: Vec<u8> = Vec::new();
        buffer.push(27);
        buffer.push(95);
        buffer.push(71);
        append_bytes(&mut buffer, encoded_control_data.as_slice());
        buffer.push(59);
        append_bytes(&mut buffer, payload.as_slice());
        buffer.push(27);
        buffer.push(92);
        assert(buffer@ =~= envelope(encoded_control_data@, base64_of(frame.data@)));
        BytesWithTimestamp { data: buffer, timestamp_in_ms: frame.timestamp_in_ms }
    }

    /// Encodes one message of the decoded video channel: a frame becomes its
    /// escape sequence, `Done` is passed on, a frame rate needs no output.
    pub fn encode(&self, message: RawVideoMessage) -> (r: Option<EncodedVideoMessage>)
        requires
            message matches RawVideoMessage::VideoMessage(f) ==> 4 * (f.data@.len() / 3) + 4
                <= usize::MAX,
        ensures
            match message {
                RawVideoMessage::VideoMessage(f) => match r {
                    Some(EncodedVideoMessage::EncodedVideoMessage(e)) => e.data@ == envelope(
                        join_pairs(self.control_pairs()),
                        base64_of(f.data@),
                    ) && e.timestamp_in_ms == f.timestamp_in_ms,
                    _ => false,
                },
                RawVideoMessage::FramesPerSecond(_) => r is None,
                RawVideoMessage::Done => r == Some(EncodedVideoMessage::Done),
            },
    {
        match message {
            RawVideoMessage::VideoMessage(f) => {
                let control = self.control_data();
                Some(EncodedVideoMessage::EncodedVideoMessage(self.encode_frame(control, f)))
            },
            RawVideoMessage::FramesPerSecond(_) => None,
            RawVideoMessage::Done => Some(EncodedVideoMessage::Done),
        }
    }
}

/// Every encoded frame begins with `1B 5F 47` and ends with `1B 5C`, and what
/// lies between the `;` after the control data and that end is the base64
/// text of the frame's bytes, four characters for each three bytes begun.
pub proof fn lemma_envelope_layout(control: Seq<u8>, data: Seq<u8>)
    ensures
        ({
            let e = envelope(control, base64_of(data));
            let p = base64_of(data);
            &&& e.subrange(0, 3) == seq![27u8, 95u8, 71u8]
            &&& e.subrange(e.len() - 2, e.len() as int) == seq![27u8, 92u8]
            &&& e[3 + control.len() as int] == 59u8
            &&& e.subrange(4 + control.len() as int, e.len() - 2) == p
            &&& e.len() == 6 + control.len() + p.len()
        }),
{
    let e = envelope(control, base64_of(data));
    let p = base64_of(data);
    assert(e.subrange(0, 3) =~= seq![27u8, 95u8, 71u8]);
    assert(e.subrange(e.len() - 2, e.len() as int) =~= seq![27u8, 92u8]);
    assert(e.subrange(4 + control.len() as int, e.len() - 2) =~= p);
}

} // verus!
