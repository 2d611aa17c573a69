//! Playback decisions: pacing items against a clock started by the first
//! item, the bytes the sinks write, and closing a channel after `Done`.

use vstd::prelude::*;

verus! {

/// Milliseconds to wait before emitting an item stamped `timestamp_in_ms`
/// when `elapsed_ms` have passed since the clock started.
pub open spec fn spec_wait(timestamp_in_ms: int, elapsed_ms: int) -> int {
    if timestamp_in_ms > elapsed_ms {
        timestamp_in_ms - elapsed_ms
    } else {
        0
    }
}

/// A reference clock that starts with the first item.
pub struct PlaybackClock {
    /// The reading of the driver's monotonic clock, in milliseconds, when the
    /// first item came.
    pub start_ms: Option<u64>,
}

impl PlaybackClock {
    /// A clock that has not started.
    pub fn new() -> (r: Self)
        ensures
            r.start_ms is None,
    {
        PlaybackClock { start_ms: None }
    }

    /// The wait before emitting an item stamped `timestamp_in_ms`, at reading
    /// `now_ms`: the time left until its stamp, or none when it is due or late.
    /// The first item starts the clock.
    pub fn delay_for(&mut self, now_ms: u64, timestamp_in_ms: u64) -> (r: u64)
        ensures
            final(self).start_ms == Some(
                match old(self).start_ms {
                    Some(s) => s,
                    None => now_ms,
                },
            ),
            r == spec_wait(
                timestamp_in_ms as int,
                if now_ms >= final(self).start_ms->0 {
                    now_ms - final(self).start_ms->0
                } else {
                    0
                },
            ),
    {
        let start = match self.start_ms {
            Some(s) => s,
            None => now_ms,
        };
        self.start_ms = Some(start);
        let elapsed = if now_ms >= start {
            now_ms - start
        } else {
            0
        };
        if timestamp_in_ms > elapsed {
            timestamp_in_ms - elapsed
        } else {
            0
        }
    }
}

/// The bytes that put an encoded frame on screen: cursor home, then the frame.
pub open spec fn screen_bytes(frame: Seq<u8>) -> Seq<u8> {
    seq![27u8, 91u8, 72u8] + frame
}

/// The video sink: it paces encoded frames and draws each over the last.
pub struct TerminalAdapter {
    pub clock: PlaybackClock,
}

impl TerminalAdapter {
    /// A sink whose clock has not started.
    pub fn new() -> (r: Self)
        ensures
            r.clock.start_ms is None,
    {
        TerminalAdapter { clock: PlaybackClock::new() }
    }

    /// The bytes to write for an encoded frame.
    pub fn frame_bytes(&self, frame: &[u8]) -> (r: Vec<u8>)
        ensures
            r@ == screen_bytes(frame@),
    {
        let mut v: Vec<u8> = Vec::new();
        v.push(27);
        v.push(91);
        v.push(72);
        let ghost start = v@;
        let mut i: usize = 0;
        while i < frame.len()
            invariant
                i <= frame@.len(),
                v@ == start + frame@.subrange(0, i as int),
            decreases frame@.len() - i,
        {
            v.push(frame[i]);
            i = i + 1;
            assert(v@ =~= start + frame@.subrange(0, i as int));
        }
        assert(v@ =~= screen_bytes(frame@));
        v
    }
}

/// The interleaved form of a planar block: four-byte samples of the first
/// half (left) and of the second half (right), alternating.
pub open spec fn interleaved(p: Seq<u8>) -> Seq<u8> {
    let half = p.len() / 2;
    let n = half / 4;
    Seq::new(
        8 * n,
        |j: int|
            if j % 8 < 4 {
                p[4 * (j / 8) + j % 8]
            } else {
                p[half + 4 * (j / 8) + j % 8 - 4]
            },
    )
}

/// Re-interleaves a planar stereo block of little-endian floats as `L0 R0 L1 R1 …`.
pub fn planar_to_interleaved(planar_data: &[u8]) -> (r: Vec<u8>)
    ensures
        r@ == interleaved(planar_data@),
{
    let len = planar_data.len();
    let half = len / 2;
    let n = half / 4;
    let mut out: Vec<u8> = Vec::new();
    let mut i: usize = 0;
    while i < n
        invariant
            len == planar_data@.len(),
            half == len / 2,
            n == half / 4,
            i <= n,
            out@ == interleaved(planar_data@).subrange(0, 8 * i as int),
        decreases n - i,
    {
        let ghost before = out@;
        assert(4 * i + 4 <= half && half + 4 * i + 4 <= len) by (nonlinear_arith)
            requires
                i < n,
                n == half / 4,
                half == len / 2,
        ;
        let mut k: usize = 0;
        while k < 8
            invariant
                k <= 8,
                i < n,
                4 * i + 4 <= half,
                half + 4 * i + 4 <= len,
                len == planar_data@.len(),
                half == len / 2,
                n == half / 4,
                out@.len() == 8 * i + k,
                forall|j: int| 0 <= j < 8 * i ==> out@[j] == before[j],
                before.len() == 8 * i,
                forall|j: int|
                    8 * i <= j < 8 * i + k ==> #[trigger] out@[j] == interleaved(planar_data@)[j],
            decreases 8 - k,
        {
            let b = if k < 4 {
                planar_data[4 * i + k]
            } else {
                planar_data[half + 4 * i + k - 4]
            };
            proof {
                let j = 8 * i + k;
                assert(j / 8 == i && j % 8 == k) by (nonlinear_arith)
                    requires
                        j == 8 * i + k,
                        k < 8,
                ;
                assert(8 * n >= 8 * i + 8) by (nonlinear_arith)
                    requires
                        i < n,
                ;
            }
            out.push(b);
            k = k + 1;
        }
        assert(out@ =~= interleaved(planar_data@).subrange(0, 8 * (i + 1) as int));
        i = i + 1;
    }
    assert(out@ =~= interleaved(planar_data@));
    out
}

/// The outgoing end of a channel: once `Done` is sent, nothing more goes out.
pub struct OutputChannel {
    pub closed: bool,
}

/// The messages that pass an output channel fresh at the start, given by
/// whether each attempted message is a `Done`.
pub open spec fn delivered(attempts: Seq<bool>) -> Seq<bool>
    decreases attempts.len(),
{
    if attempts.len() == 0 {
        Seq::empty()
    } else if attempts.drop_last().contains(true) {
        delivered(attempts.drop_last())
    } else {
        delivered(attempts.drop_last()).push(attempts.last())
    }
}

/// A channel carries at most one `Done`, and no message after it: whatever is
/// attempted, every delivered message but the last is not a `Done`.
pub proof fn lemma_done_is_last(attempts: Seq<bool>)
    ensures
        forall|i: int| 0 <= i < delivered(attempts).len() - 1 ==> !#[trigger] delivered(attempts)[i],
        attempts.contains(true) ==> delivered(attempts).len() > 0 && delivered(attempts).last(),
    decreases attempts.len(),
{
    if attempts.len() > 0 {
        let short = attempts.drop_last();
        lemma_done_is_last(short);
        if !short.contains(true) {
            let d = delivered(short);
            assert forall|i: int| 0 <= i < d.len() implies !#[trigger] d[i] by {
                lemma_none_delivered_done(short, i);
            }
            if attempts.contains(true) {
                let w = choose|w: int| 0 <= w < attempts.len() && attempts[w];
                if w < attempts.len() - 1 {
                    assert(short[w]);
                }
            }
        }
    }
}

/// Without a `Done` among the attempts, none is delivered.
proof fn lemma_none_delivered_done(attempts: Seq<bool>, i: int)
    requires
        !attempts.contains(true),
        0 <= i < delivered(attempts).len(),
    ensures
        !delivered(attempts)[i],
    decreases attempts.len(),
{
    let short = attempts.drop_last();
    assert(!short.contains(true)) by {
        if short.contains(true) {
            let w = choose|w: int| 0 <= w < short.len() && short[w];
            assert(attempts[w]);
        }
    }
    if i < delivered(short).len() {
        lemma_none_delivered_done(short, i);
    } else {
        assert(!attempts[attempts.len() - 1]);
    }
}

impl OutputChannel {
    /// A channel on which nothing was sent.
    pub fn new() -> (r: Self)
        ensures
            !r.closed,
    {
        OutputChannel { closed: false }
    }

    /// Whether a message (a `Done` when `is_done`) may be sent now; sending a
    /// `Done` closes the channel.
    pub fn may_send(&mut self, is_done: bool) -> (r: bool)
        ensures
            r == !old(self).closed,
            final(self).closed == (old(self).closed || is_done),
    {
        if self.closed {
            false
        } else {
            self.closed = is_done;
            true
        }
    }
}

} // verus!
