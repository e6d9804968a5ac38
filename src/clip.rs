//! Building an audio clip: the request window, the sample-accurate
//! windowing of decoded buffers, and the assembly of segments into one
//! WAV file.
//!
//! Request and segment times are microseconds. Inside a segment, time is
//! counted in units of 1/9,000,000 s, which holds both microseconds (9
//! units) and 90 kHz timestamp ticks (100 units) exactly.

use vstd::prelude::*;
use crate::error::ServiceError;
use crate::ts::{extract_adts_from_ts, ts_packet_size, adts_extraction_of, packet_size_of};
use crate::wav::{encode_wav_i16, wav_file, wav_format_fits};

verus! {

/// The longest clip, in microseconds.
pub const MAX_DURATION_US: i64 = 30_000_000;

/// Time units per second inside a segment.
pub const UNITS_PER_SECOND: u128 = 9_000_000;

/// A validated clip window, in microseconds.
#[derive(Clone, Copy, Debug, PartialEq, Eq, Structural)]
pub struct ClipWindow {
    pub start_us: u64,
    pub duration_us: u64,
}

impl ClipWindow {
    /// The end of the window.
    pub fn end_us(&self) -> (r: u64)
        requires
            self.start_us + self.duration_us <= u64::MAX,
        ensures
            r == self.start_us + self.duration_us,
    {
        self.start_us + self.duration_us
    }
}

pub open spec fn clamp0(x: int) -> int {
    if x < 0 {
        0
    } else {
        x
    }
}

/// The clip length a request asks for: both bounds clamped to 0 or more,
/// at most 30 s.
pub open spec fn effective_duration(start_us: int, end_us: int) -> int {
    let d = clamp0(end_us) - clamp0(start_us);
    if d < MAX_DURATION_US {
        d
    } else {
        MAX_DURATION_US as int
    }
}

/// Validates a clip request: ids must not be negative, and the window,
/// with both bounds clamped to 0 or more and its length capped at 30 s,
/// must not be empty.
pub fn validate_clip_request(
    anime_id: i64,
    episode_index: i64,
    video_index: i64,
    start_us: i64,
    end_us: i64,
) -> (r: Result<ClipWindow, ServiceError>)
    ensures
        anime_id < 0 || episode_index < 0 || video_index < 0 || effective_duration(
            start_us as int,
            end_us as int,
        ) <= 0 <==> r == Err::<ClipWindow, ServiceError>(ServiceError::InvalidInput),
        r matches Ok(w) ==> w.start_us == clamp0(start_us as int) && w.duration_us
            == effective_duration(start_us as int, end_us as int),
        r is Err ==> r == Err::<ClipWindow, ServiceError>(ServiceError::InvalidInput),
{
    if anime_id < 0 || episode_index < 0 || video_index < 0 {
        return Err(ServiceError::InvalidInput);
    }
    let safe_start: i64 = if start_us < 0 {
        0
    } else {
        start_us
    };
    let safe_end: i64 = if end_us < 0 {
        0
    } else {
        end_us
    };
    let span = safe_end - safe_start;
    let duration = if span < MAX_DURATION_US {
        span
    } else {
        MAX_DURATION_US
    };
    if duration <= 0 {
        return Err(ServiceError::InvalidInput);
    }
    Ok(ClipWindow { start_us: safe_start as u64, duration_us: duration as u64 })
}

/// A request whose end is not past its start is refused, and an accepted
/// window never exceeds 30 s and never starts before 0.
pub proof fn lemma_clip_window(start_us: int, end_us: int)
    ensures
        end_us <= start_us ==> effective_duration(start_us, end_us) <= 0,
        effective_duration(start_us, end_us) <= MAX_DURATION_US,
        effective_duration(start_us, end_us) <= clamp0(end_us) - clamp0(start_us),
{
}

/// The instant a segment's samples count from, in units: its first
/// timestamp (90 kHz ticks, 100 units each) unless timing is forced to the
/// segment start, else the segment's start (microseconds, 9 units each).
pub open spec fn time_base(first_pts: Option<u64>, force_segment_start: bool, segment_start_us: u64) -> int {
    match first_pts {
        Some(t) if !force_segment_start => t * 100,
        _ => segment_start_us * 9,
    }
}

/// The first frame at or after instant `t` (in units), counting frames at
/// `rate` from `base`: floor((t - base) * rate), 0 when `t` is not after
/// `base`.
pub open spec fn frame_floor(t: int, base: int, rate: int) -> int {
    if t <= base {
        0
    } else {
        (t - base) * rate / (UNITS_PER_SECOND as int)
    }
}

/// ceil((t - base) * rate), 0 when `t` is not after `base`.
pub open spec fn frame_ceil(t: int, base: int, rate: int) -> int {
    if t <= base {
        0
    } else {
        ((t - base) * rate + UNITS_PER_SECOND - 1) / (UNITS_PER_SECOND as int)
    }
}

/// `x` clamped to `[0, hi]`.
pub open spec fn clamp(x: int, hi: int) -> int {
    if x < 0 {
        0
    } else if x > hi {
        hi
    } else {
        x
    }
}

/// Decoded samples of one segment.
pub struct DecodedSamples {
    pub samples: Vec<i16>,
    pub sample_rate: u32,
    pub channels: usize,
}

/// The windowing state of one segment's decode: the window and the time
/// base in units, the frames seen so far, the samples kept, the format of
/// the first buffer and whether the window's end has been reached.
pub struct SegmentDecoder {
    pub target_start: u128,
    pub target_end: u128,
    pub base: u128,
    pub segment_start: u128,
    pub cursor_frames: u64,
    pub samples: Vec<i16>,
    pub format: Option<(u32, usize)>,
    pub done: bool,
}

impl SegmentDecoder {
    /// The times fit the frame arithmetic, and the samples kept are whole
    /// frames of the format of the first buffer (none before it).
    pub open spec fn wf(&self) -> bool {
        &&& self.target_start < 0x1_0000_0000_0000_0000_0000
        &&& self.target_end < 0x1_0000_0000_0000_0000_0000
        &&& self.base < 0x1_0000_0000_0000_0000_0000
        &&& self.segment_start < 0x1_0000_0000_0000_0000_0000
        &&& match self.format {
            None => self.samples@.len() == 0,
            Some(f) => f.1 > 0 && (self.samples@.len() as int) % (f.1 as int) == 0,
        }
    }

    /// The first frame of the window, at `rate`.
    pub open spec fn first_frame(&self, rate: u32) -> int {
        frame_floor(self.target_start as int, self.base as int, rate as int)
    }

    /// The frame the window ends before, at `rate`.
    pub open spec fn end_frame(&self, rate: u32) -> int {
        frame_ceil(self.target_end as int, self.base as int, rate as int)
    }

    /// The frame count at which decoding stops, at `rate`.
    pub open spec fn stop_frame(&self, rate: u32) -> int {
        frame_ceil(self.target_end as int, self.segment_start as int, rate as int)
    }

    /// Starts windowing a segment that starts at `segment_start_us` for the
    /// window `[target_start_us, target_end_us)`.
    pub fn new(
        segment_start_us: u64,
        target_start_us: u64,
        target_end_us: u64,
        first_pts: Option<u64>,
        force_segment_start: bool,
    ) -> (r: SegmentDecoder)
        ensures
            r.target_start == target_start_us * 9,
            r.target_end == target_end_us * 9,
            r.segment_start == segment_start_us * 9,
            r.base == time_base(first_pts, force_segment_start, segment_start_us),
            r.cursor_frames == 0,
            r.samples@.len() == 0,
            r.format is None,
            !r.done,
            r.wf(),
    {
        let base: u128 = match first_pts {
            Some(t) if !force_segment_start => t as u128 * 100,
            _ => segment_start_us as u128 * 9,
        };
        SegmentDecoder {
            target_start: target_start_us as u128 * 9,
            target_end: target_end_us as u128 * 9,
            base,
            segment_start: segment_start_us as u128 * 9,
            cursor_frames: 0,
            samples: Vec::new(),
            format: None,
            done: false,
        }
    }

    /// Reads one decoded buffer of interleaved samples. A buffer whose rate
    /// or channel count differs from the first one fails with
    /// `FormatChanged`. Otherwise the frames of the buffer that fall in the
    /// window are kept, the frame count advances past the buffer (an empty
    /// buffer changes nothing but the format), and decoding is done once the
    /// frame count reaches the window's end measured from the segment start.
    pub fn push_buffer(&mut self, buf: &[i16], rate: u32, channels: usize) -> (r: Result<(), ServiceError>)
        requires
            old(self).wf(),
            channels > 0,
            (buf@.len() as int) % (channels as int) == 0,
        ensures
            final(self).wf(),
            final(self).target_start == old(self).target_start,
            final(self).target_end == old(self).target_end,
            final(self).base == old(self).base,
            final(self).segment_start == old(self).segment_start,
            old(self).format matches Some(f) && f != (rate, channels) ==> r == Err::<(), ServiceError>(
                ServiceError::FormatChanged) && *final(self) == *old(self),
            !(old(self).format matches Some(f) && f != (rate, channels)) ==> {
                let frames = (buf@.len() as int) / (channels as int);
                let cur = old(self).cursor_frames as int;
                let s = clamp(old(self).first_frame(rate) - cur, frames);
                let e = clamp(old(self).end_frame(rate) - cur, frames);
                let next = if cur + frames > u64::MAX {
                    u64::MAX as int
                } else {
                    cur + frames
                };
                &&& r is Ok
                &&& final(self).format == Some((rate, channels))
                &&& frames == 0 ==> final(self).cursor_frames == old(self).cursor_frames
                    && final(self).samples@ == old(self).samples@ && final(self).done == old(self).done
                &&& frames > 0 ==> {
                    &&& final(self).samples@ == old(self).samples@ + (if e > s {
                        buf@.subrange(s * channels, e * channels)
                    } else {
                        Seq::empty()
                    })
                    &&& final(self).cursor_frames == next
                    &&& final(self).done == (old(self).done || next >= old(self).stop_frame(rate))
                }
            },
    {
        match self.format {
            Some(f) => {
                if f.0 != rate || f.1 != channels {
                    return Err(ServiceError::FormatChanged);
                }
            },
            None => {},
        }
        self.format = Some((rate, channels));
        let frames = buf.len() / channels;
        if frames == 0 {
            proof {
                vstd::arithmetic::div_mod::lemma_mod_multiples_basic(0, channels as int);
            }
            return Ok(());
        }
        let r = rate as u128;
        let cur = self.cursor_frames as u128;
        let ff = if self.target_start <= self.base {
            0
        } else {
            let d = self.target_start - self.base;
            proof {
                lemma_product_fits(d, r);
            }
            d * r / UNITS_PER_SECOND
        };
        let ef = if self.target_end <= self.base {
            0
        } else {
            let d = self.target_end - self.base;
            proof {
                lemma_product_fits(d, r);
            }
            (d * r + UNITS_PER_SECOND - 1) / UNITS_PER_SECOND
        };
        let fr = frames as u128;
        let s: u128 = if ff <= cur {
            0
        } else if ff - cur > fr {
            fr
        } else {
            ff - cur
        };
        let e: u128 = if ef <= cur {
            0
        } else if ef - cur > fr {
            fr
        } else {
            ef - cur
        };
        if e > s {
            let su = s as usize;
            let eu = e as usize;
            proof {
                assert(eu * channels <= buf@.len()) by (nonlinear_arith)
                    requires
                        eu <= frames,
                        frames == (buf@.len() as int) / (channels as int),
                        channels > 0,
                ;
                assert(su * channels <= eu * channels) by (nonlinear_arith)
                    requires
                        su <= eu,
                ;
            }
            let piece = &buf[su * channels..eu * channels];
            let ghost old_len = self.samples@.len() as int;
            append_samples(&mut self.samples, piece);
            proof {
                lemma_whole_frames(old_len, su as int, eu as int, channels as int);
            }
        }
        let next: u64 = if frames as u128 > u64::MAX as u128 - cur {
            u64::MAX
        } else {
            (cur + fr) as u64
        };
        self.cursor_frames = next;
        let stop = if self.target_end <= self.segment_start {
            0
        } else {
            let d = self.target_end - self.segment_start;
            proof {
                lemma_product_fits(d, r);
            }
            (d * r + UNITS_PER_SECOND - 1) / UNITS_PER_SECOND
        };
        if next as u128 >= stop {
            self.done = true;
        }
        Ok(())
    }

    /// The segment's samples, or none when no buffer was decoded or none of
    /// its frames fell in the window.
    pub fn finish(self) -> (r: Option<DecodedSamples>)
        requires
            self.wf(),
        ensures
            r matches Some(d) ==> d.channels > 0 && (d.samples@.len() as int) % (d.channels as int)
                == 0,
            match self.format {
                None => r is None,
                Some(f) => if self.samples@.len() == 0 {
                    r is None
                } else {
                    r matches Some(d) && d.samples@ == self.samples@ && d.sample_rate == f.0
                        && d.channels == f.1
                },
            },
    {
        match self.format {
            None => None,
            Some(f) => {
                if self.samples.len() == 0 {
                    None
                } else {
                    Some(DecodedSamples { samples: self.samples, sample_rate: f.0, channels: f.1 })
                }
            },
        }
    }
}

fn append_samples(out: &mut Vec<i16>, src: &[i16])
    ensures
        final(out)@ == old(out)@ + src@,
{
    let ghost before = out@;
    let mut k: usize = 0;
    while k < src.len()
        invariant
            k <= src@.len(),
            out@ == before + src@.subrange(0, k as int),
        decreases src@.len() - k,
    {
        out.push(src[k]);
        proof {
            assert(src@.subrange(0, k + 1) == src@.subrange(0, k as int).push(src@[k as int]));
        }
        k = k + 1;
    }
    proof {
        assert(src@.subrange(0, src@.len() as int) == src@);
    }
}

/// What reading or decoding one packet gave.
#[derive(Clone, Copy, Debug, PartialEq, Eq, Structural)]
pub enum PacketEvent {
    /// A packet was read.
    Read,
    /// Reading hit the end of the input (an I/O error from the reader).
    ReadEnd,
    /// The reader asks for a decoder reset.
    ReadResetRequired,
    /// Any other reading error.
    ReadFailed,
    /// A packet was decoded.
    Decoded,
    /// The packet was corrupt.
    DecodeCorrupt,
    /// A transient I/O error while decoding the packet.
    DecodeIo,
    /// Any other decoding error, a reset request included.
    DecodeFailed,
}

/// What the decode loop does next.
#[derive(Clone, Copy, Debug, PartialEq, Eq, Structural)]
pub enum DecodeAction {
    /// Use the packet or buffer.
    Proceed,
    /// Drop this packet and read the next.
    Skip,
    /// End the segment with what was decoded.
    Finish,
    /// Fail the segment.
    Abort,
}

/// Per-packet errors are skipped; the end of the input ends the segment;
/// a reset request or any other error aborts it.
pub open spec fn action_of(e: PacketEvent) -> DecodeAction {
    match e {
        PacketEvent::Read | PacketEvent::Decoded => DecodeAction::Proceed,
        PacketEvent::DecodeCorrupt | PacketEvent::DecodeIo => DecodeAction::Skip,
        PacketEvent::ReadEnd => DecodeAction::Finish,
        PacketEvent::ReadResetRequired | PacketEvent::ReadFailed | PacketEvent::DecodeFailed => {
            DecodeAction::Abort
        },
    }
}

/// The decode loop's response to one packet event.
pub fn decode_action(e: PacketEvent) -> (r: DecodeAction)
    ensures
        r == action_of(e),
{
    match e {
        PacketEvent::Read | PacketEvent::Decoded => DecodeAction::Proceed,
        PacketEvent::DecodeCorrupt | PacketEvent::DecodeIo => DecodeAction::Skip,
        PacketEvent::ReadEnd => DecodeAction::Finish,
        PacketEvent::ReadResetRequired | PacketEvent::ReadFailed | PacketEvent::DecodeFailed => {
            DecodeAction::Abort
        },
    }
}

proof fn lemma_whole_frames(len: int, s: int, e: int, c: int)
    requires
        0 <= len,
        0 <= s <= e,
        0 < c,
        len % c == 0,
    ensures
        (len + (e * c - s * c)) % c == 0,
{
    vstd::arithmetic::div_mod::lemma_fundamental_div_mod(len, c);
    let q = len / c;
    assert(len + (e * c - s * c) == (q + e - s) * c) by (nonlinear_arith)
        requires
            len == c * q + len % c,
            len % c == 0,
    ;
    vstd::arithmetic::div_mod::lemma_mod_multiples_basic(q + e - s, c);
}

proof fn lemma_product_fits(d: u128, r: u128)
    requires
        d < 0x1_0000_0000_0000_0000_0000,
        r <= u32::MAX,
    ensures
        d * r + UNITS_PER_SECOND <= u128::MAX,
{
    assert(d * r <= 0x1_0000_0000_0000_0000_0000 * 0x1_0000_0000) by (nonlinear_arith)
        requires
            d < 0x1_0000_0000_0000_0000_0000,
            r <= u32::MAX,
    ;
}

/// The frames of `[0, n)` that lie in the window `[ff, ef)`.
pub open spec fn window_overlap(ff: int, ef: int, n: int) -> int {
    (if ef < n { ef } else { n }) - (if ff < n { ff } else { n })
}

/// Windowing buffer by buffer keeps exactly the frames of the window: a
/// buffer of `frames` frames at frame `cur` adds the frames of the window
/// that it covers, so over buffers read from frame 0 the frames kept are
/// those of the window below the frame count.
pub proof fn lemma_window_accounting(ff: int, ef: int, cur: int, frames: int)
    requires
        0 <= ff <= ef,
        0 <= cur,
        0 <= frames,
    ensures
        ({
            let s = clamp(ff - cur, frames);
            let e = clamp(ef - cur, frames);
            window_overlap(ff, ef, cur + frames) == window_overlap(ff, ef, cur) + (if e > s {
                e - s
            } else {
                0
            })
        }),
{
}

proof fn lemma_floor_bounds(x: int, d: int)
    requires
        0 <= x,
        0 < d,
    ensures
        d * (x / d) <= x < d * (x / d) + d,
{
    vstd::arithmetic::div_mod::lemma_fundamental_div_mod(x, d);
    vstd::arithmetic::div_mod::lemma_mod_bound(x, d);
}

/// Once a segment's buffers cover the window, the frames kept are the
/// window's length times the rate, rounded outward: never fewer, and fewer
/// than two frames more (at most one at each end of the window).
pub proof fn lemma_window_length(ts: int, te: int, base: int, rate: int)
    requires
        base <= ts <= te,
        0 < rate,
    ensures
        ({
            let ff = frame_floor(ts, base, rate);
            let ef = frame_ceil(te, base, rate);
            let u = UNITS_PER_SECOND as int;
            &&& ff <= ef
            &&& (te - ts) * rate <= u * (ef - ff)
            &&& u * (ef - ff) < (te - ts) * rate + 2 * u
        }),
{
    let u = UNITS_PER_SECOND as int;
    let a = (ts - base) * rate;
    let b = (te - base) * rate;
    assert(0 <= a <= b) by (nonlinear_arith)
        requires
            base <= ts <= te,
            0 < rate,
            a == (ts - base) * rate,
            b == (te - base) * rate,
    ;
    assert(b - a == (te - ts) * rate) by (nonlinear_arith)
        requires
            a == (ts - base) * rate,
            b == (te - base) * rate,
    ;
    lemma_floor_bounds(a, u);
    lemma_floor_bounds(b + u - 1, u);
    let ff = frame_floor(ts, base, rate);
    let ef = frame_ceil(te, base, rate);
    if ts > base {
        assert(ff == a / u);
    } else {
        assert(a == 0) by (nonlinear_arith)
            requires
                ts == base,
                a == (ts - base) * rate,
        ;
        assert(a / u == 0);
    }
    if te > base {
        assert(ef == (b + u - 1) / u);
    } else {
        assert(b == 0) by (nonlinear_arith)
            requires
                te == base,
                b == (te - base) * rate,
        ;
        assert((b + u - 1) / u == 0);
    }
}

/// A segment's bytes ready for the decoder: its own bytes with the
/// hint from the URL, or the ADTS stream demultiplexed from a transport
/// stream with the hint `aac`.
pub struct PreparedAudio {
    pub data: Vec<u8>,
    pub hint_extension: Option<String>,
    /// First timestamp, in 90 kHz ticks.
    pub first_pts: Option<u64>,
    pub force_segment_start: bool,
}

/// The characters of "aac".
pub open spec fn aac() -> Seq<char> {
    seq!['a', 'a', 'c']
}

/// Prepares a segment's bytes: a transport stream whose demultiplexing
/// yields ADTS frames becomes that ADTS stream; anything else passes
/// through with its hint and no timestamp.
pub fn prepare_segment_audio(data: Vec<u8>, hint_extension: Option<String>) -> (r: PreparedAudio)
    ensures
        ({
            let passthrough = r.data@ == data@ && r.hint_extension == hint_extension
                && r.first_pts is None && !r.force_segment_start;
            match packet_size_of(data@) {
                Some(size) => {
                    let (a, pts, force) = adts_extraction_of(data@, size as int);
                    if a.len() > 0 {
                        &&& r.data@ == a
                        &&& r.hint_extension matches Some(h) && h@ == aac()
                        &&& r.first_pts == pts
                        &&& r.force_segment_start == force
                    } else {
                        passthrough
                    }
                },
                None => passthrough,
            }
        }),
{
    match ts_packet_size(data.as_slice()) {
        Some(packet_size) => {
            let extraction = extract_adts_from_ts(data.as_slice(), packet_size);
            if extraction.data.len() > 0 {
                let hint = String::from_str("aac");
                proof {
                    reveal_strlit("aac");
                }
                return PreparedAudio {
                    data: extraction.data,
                    hint_extension: Some(hint),
                    first_pts: if extraction.force_segment_start {
                        None
                    } else {
                        extraction.first_pts
                    },
                    force_segment_start: extraction.force_segment_start,
                };
            }
        },
        None => {},
    }
    PreparedAudio { data, hint_extension, first_pts: None, force_segment_start: false }
}

/// An encrypted segment cannot be decoded.
pub fn check_segment(segment: &crate::playlist::SegmentSelection) -> (r: Result<(), ServiceError>)
    ensures
        segment.encrypted <==> r == Err::<(), ServiceError>(ServiceError::Encrypted),
        !segment.encrypted <==> r is Ok,
{
    if segment.encrypted {
        Err(ServiceError::Encrypted)
    } else {
        Ok(())
    }
}

/// A clip needs at least one segment.
pub fn check_selection(segments: &Vec<crate::playlist::SegmentSelection>) -> (r: Result<(), ServiceError>)
    ensures
        segments@.len() == 0 <==> r == Err::<(), ServiceError>(ServiceError::SegmentSelectionEmpty),
        segments@.len() > 0 <==> r is Ok,
{
    if segments.len() == 0 {
        Err(ServiceError::SegmentSelectionEmpty)
    } else {
        Ok(())
    }
}

/// The samples of a clip gathered segment by segment, in playlist order,
/// with the format of the first segment that produced any.
pub struct ClipAssembler {
    pub samples: Vec<i16>,
    pub format: Option<(u32, usize)>,
}

impl ClipAssembler {
    pub fn new() -> (r: ClipAssembler)
        ensures
            r.samples@.len() == 0,
            r.format is None,
    {
        ClipAssembler { samples: Vec::new(), format: None }
    }

    /// Adds one segment's samples. A segment that produced none changes
    /// nothing; one whose rate or channel count differs from the first
    /// fails with `FormatMismatch` and changes nothing.
    pub fn add_segment(&mut self, decoded: Option<DecodedSamples>) -> (r: Result<(), ServiceError>)
        ensures
            match decoded {
                None => r is Ok && *final(self) == *old(self),
                Some(d) => match old(self).format {
                    Some(f) if f != (d.sample_rate, d.channels) => r == Err::<(), ServiceError>(
                        ServiceError::FormatMismatch,
                    ) && *final(self) == *old(self),
                    _ => r is Ok && final(self).format == Some((d.sample_rate, d.channels))
                        && final(self).samples@ == old(self).samples@ + d.samples@,
                },
            },
    {
        match decoded {
            None => Ok(()),
            Some(d) => {
                match self.format {
                    Some(f) => {
                        if f.0 != d.sample_rate || f.1 != d.channels {
                            return Err(ServiceError::FormatMismatch);
                        }
                    },
                    None => {},
                }
                self.format = Some((d.sample_rate, d.channels));
                append_samples(&mut self.samples, d.samples.as_slice());
                Ok(())
            },
        }
    }

    /// The WAV file of the clip: `NoAudioDecoded` when no segment produced
    /// samples, `UnsupportedCodec` when the format does not fit a WAV
    /// header, `ClipTooLarge` when the data does not fit one.
    pub fn finish(&self) -> (r: Result<Vec<u8>, ServiceError>)
        ensures
            match self.format {
                None => r == Err::<Vec<u8>, ServiceError>(ServiceError::NoAudioDecoded),
                Some(f) => if self.samples@.len() == 0 {
                    r == Err::<Vec<u8>, ServiceError>(ServiceError::NoAudioDecoded)
                } else if f.1 > u16::MAX || !wav_format_fits(f.0, f.1 as u16) {
                    r == Err::<Vec<u8>, ServiceError>(ServiceError::UnsupportedCodec)
                } else if self.samples@.len() * 2 > u32::MAX - 36 {
                    r == Err::<Vec<u8>, ServiceError>(ServiceError::ClipTooLarge)
                } else {
                    r matches Ok(b) && b@ == wav_file(self.samples@, f.0, f.1 as u16)
                },
            },
    {
        match self.format {
            None => Err(ServiceError::NoAudioDecoded),
            Some(f) => {
                if self.samples.len() == 0 {
                    return Err(ServiceError::NoAudioDecoded);
                }
                if f.1 > 65535 {
                    return Err(ServiceError::UnsupportedCodec);
                }
                let channels = f.1 as u16;
                let rate = f.0 as u64;
                let ch = channels as u64;
                proof {
                    assert(rate * ch <= 0xffff_ffff * 0xffff) by (nonlinear_arith)
                        requires
                            rate <= 0xffff_ffff,
                            ch <= 0xffff,
                    ;
                }
                if rate * ch * 2 > u32::MAX as u64 || ch * 2 > 65535 {
                    return Err(ServiceError::UnsupportedCodec);
                }
                encode_wav_i16(self.samples.as_slice(), f.0, channels)
            },
        }
    }
}

} // verus!
