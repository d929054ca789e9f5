//! The audio callback's decisions and the playback position.

use vstd::prelude::*;

verus! {

/// A position counts frames in units of 1/65536.
pub const FP_SCALE: u64 = 65536;

/// The position word of a frame, modulo 2^64.
pub open spec fn position_of(frame: usize) -> u64 {
    (frame as nat * FP_SCALE as nat % 0x1_0000_0000_0000_0000) as u64
}

/// The frame that a position word lies in.
pub open spec fn frame_of(position: u64) -> usize {
    (position / FP_SCALE) as usize
}

/// The position word of a frame.
pub fn position_at(frame: usize) -> (position: u64)
    ensures
        position == position_of(frame),
{
    (frame as u64).wrapping_mul(FP_SCALE)
}

/// The frame that a position word lies in.
pub fn frame_at(position: u64) -> (frame: usize)
    ensures
        frame == frame_of(position),
{
    (position / FP_SCALE) as usize
}

/// A frame below 2^48 is read back from its position word.
pub proof fn law_position_reads_back(frame: usize)
    requires
        frame < 0x1_0000_0000_0000,
    ensures
        frame_of(position_of(frame)) == frame,
{
    let scaled = frame as nat * FP_SCALE as nat;
    vstd::arithmetic::div_mod::lemma_small_mod(scaled, 0x1_0000_0000_0000_0000);
    assert(scaled as int / FP_SCALE as int == frame);
}

/// What a callback fills its block with.
#[derive(Clone, Copy, PartialEq, Eq, Structural)]
pub enum CallbackMode {
    /// Silence.
    Silence,
    /// The samples at the position, as they are.
    Direct,
    /// Samples passed through the stretcher.
    Stretched,
}

/// Silence while paused, where there is nothing to play, or where the stretcher is taken;
/// otherwise the stretcher if there is one.
pub fn callback_mode(
    playing: bool,
    total_frames: usize,
    has_stretcher: bool,
    stretcher_free: bool,
) -> (mode: CallbackMode)
    ensures
        mode == CallbackMode::Silence <==> !playing || total_frames == 0 || (has_stretcher
            && !stretcher_free),
        mode == CallbackMode::Stretched <==> playing && total_frames > 0 && has_stretcher
            && stretcher_free,
        mode == CallbackMode::Direct <==> playing && total_frames > 0 && !has_stretcher,
{
    if !playing || total_frames == 0 {
        CallbackMode::Silence
    } else if !has_stretcher {
        CallbackMode::Direct
    } else if stretcher_free {
        CallbackMode::Stretched
    } else {
        CallbackMode::Silence
    }
}

/// Number of whole frames in a buffer; a channel count of 0 is read as 1.
pub fn whole_frames(len: usize, channels: usize) -> (frames: usize)
    ensures
        frames == len as int / (if channels == 0 { 1 } else { channels as int }),
{
    if channels == 0 {
        len
    } else {
        len / channels
    }
}

/// The block that starts at sample `start`: silence from the end of the buffer on.
pub open spec fn block_at<T>(buf: Seq<T>, start: int, len: nat, silence: T) -> Seq<T> {
    Seq::new(
        len,
        |i: int|
            if start + i < buf.len() {
                buf[start + i]
            } else {
                silence
            },
    )
}

/// Samples of the buffer that a block holds.
pub open spec fn copied(buf_len: int, start: int, len: int) -> int {
    if start >= buf_len {
        0
    } else if len < buf_len - start {
        len
    } else {
        buf_len - start
    }
}

/// Fills a block with the samples from `frame` on. Returns the frame to go on with, and
/// whether the end has been reached.
pub fn play_direct<T: Copy>(
    data: &mut [T],
    buf: &[T],
    channels: usize,
    frame: usize,
    silence: T,
) -> (out: (usize, bool))
    requires
        channels > 0,
        frame * channels <= usize::MAX,
    ensures
        final(data)@ == block_at(buf@, frame * channels, old(data)@.len(), silence),
        out.0 == frame + copied(
            buf@.len() as int,
            frame * channels,
            old(data)@.len() as int,
        ) / channels as int,
        out.1 == (out.0 >= buf@.len() as int / channels as int),
{
    assert(buf.len() <= usize::MAX);
    let start: usize = frame * channels;
    let len: usize = data.len();
    let available: usize = if start < buf.len() {
        buf.len() - start
    } else {
        0
    };
    let to_copy: usize = if len < available {
        len
    } else {
        available
    };
    let ghost want = block_at(buf@, start as int, data@.len(), silence);
    let mut i: usize = 0;
    while i < len
        invariant
            i <= len,
            len == data@.len(),
            data@.len() == old(data)@.len(),
            want == block_at(buf@, start as int, len as nat, silence),
            to_copy <= len,
            to_copy > 0 ==> start + to_copy <= buf@.len() <= usize::MAX,
            to_copy < len ==> start + to_copy >= buf@.len(),
            forall|k: int| 0 <= k < i ==> data@[k] == want[k],
        decreases len - i,
    {
        if i < to_copy {
            data[i] = buf[start + i];
        } else {
            data[i] = silence;
        }
        i += 1;
    }
    assert(data@ =~= want);
    proof {
        let whole = to_copy as int / channels as int;
        vstd::arithmetic::div_mod::lemma_fundamental_div_mod(to_copy as int, channels as int);
        vstd::arithmetic::div_mod::lemma_mod_bound(to_copy as int, channels as int);
        vstd::arithmetic::div_mod::lemma_div_pos_is_pos(to_copy as int, channels as int);
        if to_copy > 0 {
            assert((frame + whole) * channels <= start + to_copy) by (nonlinear_arith)
                requires
                    start == frame * channels,
                    channels * whole <= to_copy,
            ;
            assert(frame + whole <= (frame + whole) * channels) by (nonlinear_arith)
                requires
                    channels >= 1,
                    frame >= 0,
                    whole >= 0,
            ;
        } else {
            assert(whole == 0) by (nonlinear_arith)
                requires
                    channels * whole <= 0,
                    channels > 0,
                    whole >= 0,
            ;
        }
    }
    let new_frame: usize = frame + to_copy / channels;
    (new_frame, new_frame >= buf.len() / channels)
}

/// Playback has no gaps: a block of whole frames that ends within the buffer, and the block
/// that goes on at the frame returned for it, are one longer block.
pub proof fn law_blocks_join<T>(
    buf: Seq<T>,
    channels: int,
    frame: int,
    first: nat,
    second: nat,
    silence: T,
)
    requires
        channels > 0,
        frame >= 0,
        first as int % channels == 0,
        frame * channels + first <= buf.len(),
    ensures
        ({
            let next = frame + copied(buf.len() as int, frame * channels, first as int) / channels;
            block_at(buf, frame * channels, first, silence) + block_at(
                buf,
                next * channels,
                second,
                silence,
            ) == block_at(buf, frame * channels, first + second, silence)
        }),
{
    let start = frame * channels;
    let whole = first as int / channels;
    assert(start >= 0) by (nonlinear_arith)
        requires
            start == frame * channels,
            frame >= 0,
            channels > 0,
    ;
    assert(copied(buf.len() as int, start, first as int) == first);
    vstd::arithmetic::div_mod::lemma_fundamental_div_mod(first as int, channels);
    assert((frame + whole) * channels == start + first) by (nonlinear_arith)
        requires
            start == frame * channels,
            first == channels * whole,
    ;
    let next = frame + whole;
    assert(block_at(buf, start, first, silence) + block_at(buf, next * channels, second, silence)
        =~= block_at(buf, start, first + second, silence));
}

/// How far the stretcher has been fed.
pub struct RtCursor {
    /// Next frame of the buffer to feed.
    pub feed_frame: usize,
    /// The final block has been fed.
    pub done: bool,
}

/// What to do for the part of a block that is still empty.
#[derive(Clone, Copy, PartialEq, Eq, Structural)]
pub enum RtStep {
    /// Take this many frames from the stretcher.
    Retrieve { frames: usize },
    /// Feed the stretcher.
    Feed,
    /// Fill up with silence; `stop` ends playback.
    Silence { stop: bool },
}

impl RtCursor {
    pub fn new(start_frame: usize) -> (cursor: RtCursor)
        ensures
            cursor.feed_frame == start_frame,
            !cursor.done,
    {
        RtCursor { feed_frame: start_frame, done: false }
    }

    /// Decides on the next step: what the stretcher has ready is taken first, then it is fed
    /// as long as there is something to feed. `available` below 0 says that it has finished.
    pub fn step(&self, available: i32, filled: usize, wanted: usize, total_frames: usize) -> (step:
        RtStep)
        requires
            filled < wanted,
        ensures
            available > 0 ==> step == (RtStep::Retrieve {
                frames: if available < wanted - filled {
                    available as usize
                } else {
                    (wanted - filled) as usize
                },
            }),
            available <= 0 && (self.done || self.feed_frame >= total_frames) ==> step == (
            RtStep::Silence { stop: available < 0 }),
            available <= 0 && !self.done && self.feed_frame < total_frames ==> step
                == RtStep::Feed,
    {
        if available > 0 {
            let left: usize = wanted - filled;
            let frames: usize = if (available as usize) < left {
                available as usize
            } else {
                left
            };
            RtStep::Retrieve { frames }
        } else if self.done || self.feed_frame >= total_frames {
            RtStep::Silence { stop: available < 0 }
        } else {
            RtStep::Feed
        }
    }

    /// The frames to feed next, from the first up to the second, and whether they are the last:
    /// as many as the stretcher requires, at least one, as far as there are any.
    pub fn next_block(&mut self, required: usize, total_frames: usize) -> (block: (usize, usize, bool))
        requires
            old(self).feed_frame < total_frames,
        ensures
            block.0 == old(self).feed_frame,
            block.1 == final(self).feed_frame,
            final(self).feed_frame == next_feed(
                old(self).feed_frame as int,
                required,
                total_frames as int,
            ),
            block.0 < block.1 <= total_frames,
            block.2 == (block.1 == total_frames),
            final(self).done == (old(self).done || block.2),
    {
        let from: usize = self.feed_frame;
        let n: usize = if required > 1 {
            required
        } else {
            1
        };
        let to: usize = if n < total_frames - from {
            from + n
        } else {
            total_frames
        };
        let last: bool = to >= total_frames;
        self.feed_frame = to;
        if last {
            self.done = true;
        }
        (from, to, last)
    }
}

pub open spec fn at_least_one(n: usize) -> int {
    if n > 1 {
        n as int
    } else {
        1
    }
}

/// Where a block that starts at `from` ends.
pub open spec fn next_feed(from: int, required: usize, total_frames: int) -> int {
    if from + at_least_one(required) < total_frames {
        from + at_least_one(required)
    } else {
        total_frames
    }
}

/// Frames of silence with which a stretcher is primed: what it requires, at least one.
pub fn prime_frames(required: usize) -> (frames: usize)
    ensures
        frames == at_least_one(required),
{
    if required > 1 {
        required
    } else {
        1
    }
}

/// Where feeding stands after blocks for which the stretcher required `required`.
pub open spec fn fed_until(start: int, required: Seq<usize>, total_frames: int) -> int
    decreases required.len(),
{
    if required.len() == 0 {
        start
    } else {
        next_feed(
            fed_until(start, required.drop_last(), total_frames),
            required.last(),
            total_frames,
        )
    }
}

/// Feeding block after block comes to the end of the buffer, after one block per frame at the
/// latest, and never goes past it.
pub proof fn law_feeding_reaches_the_end(start: int, required: Seq<usize>, total_frames: int)
    requires
        start <= total_frames,
    ensures
        start <= fed_until(start, required, total_frames) <= total_frames,
        required.len() >= total_frames - start ==> fed_until(start, required, total_frames)
            == total_frames,
        fed_until(start, required, total_frames) < total_frames ==> fed_until(
            start,
            required,
            total_frames,
        ) >= start + required.len(),
    decreases required.len(),
{
    if required.len() > 0 {
        law_feeding_reaches_the_end(start, required.drop_last(), total_frames);
    }
}

/// Whether the position is reported again after this time, given whether it was playing the
/// last time: the report goes on until one pause has been reported.
pub fn keep_reporting(playing: bool, was_playing: bool) -> (keep: bool)
    ensures
        keep == (playing || was_playing),
{
    playing || was_playing
}

/// A position counts 65536 units to the frame, as long as that can be counted.
pub proof fn law_position_counts_frames(frame: usize)
    ensures
        frame < 0x1_0000_0000_0000 ==> position_of(frame) == frame * 65536,
{
    if frame < 0x1_0000_0000_0000 {
        vstd::arithmetic::div_mod::lemma_small_mod(
            frame as nat * FP_SCALE as nat,
            0x1_0000_0000_0000_0000,
        );
    }
}

/// The frame of a position is the last one that it has reached.
pub proof fn law_frame_is_the_last_one_reached(position: u64)
    requires
        position as int / 65536 <= usize::MAX,
    ensures
        frame_of(position) * 65536 <= position < (frame_of(position) + 1) * 65536,
{
}

/// A block plays the buffer from its start on, sample by sample, and is silent past the end; as
/// many samples count as copied as come from the buffer.
pub proof fn law_block_plays_the_buffer<T>(
    buf: Seq<T>,
    start: int,
    len: nat,
    silence: T,
    i: int,
)
    requires
        start >= 0,
        0 <= i < len,
    ensures
        block_at(buf, start, len, silence).len() == len,
        start + i < buf.len() ==> block_at(buf, start, len, silence)[i] == buf[start + i],
        start + i >= buf.len() ==> block_at(buf, start, len, silence)[i] == silence,
        i < copied(buf.len() as int, start, len as int) <==> start + i < buf.len(),
        0 <= copied(buf.len() as int, start, len as int) <= len,
{
}

/// Each block feeds what the stretcher requires, at least one frame, unless fewer are left: then
/// it feeds those.
pub proof fn law_blocks_feed_what_is_required(from: int, required: usize, total_frames: int)
    requires
        from < total_frames,
    ensures
        ({
            let fed = next_feed(from, required, total_frames) - from;
            &&& fed <= total_frames - from
            &&& fed < total_frames - from ==> fed == required || (required == 0 && fed == 1)
            &&& fed == total_frames - from ==> fed <= required || fed == 1
        }),
        required > 0 ==> at_least_one(required) == required,
        at_least_one(0) == 1,
{
}

} // verus!
