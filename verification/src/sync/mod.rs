//! Audio/video synchronisation on the receiver: compares how far video
//! (90 kHz RTP clock) and audio (48 kHz samples) have progressed since their
//! first observation and nudges the audio playback rate when they drift
//! apart.

use vstd::prelude::*;

verus! {

/// Audio playback rate relative to nominal: 1.0, 1.02 or 0.98.
#[derive(Debug, Clone, Copy, PartialEq, Eq, Structural)]
pub enum RateAdjustment {
    /// Play at the nominal rate (factor 1.0).
    Nominal,
    /// Video is ahead: play audio 2% faster (factor 1.02).
    SpeedUp,
    /// Audio is ahead: play audio 2% slower (factor 0.98).
    SlowDown,
}

/// Largest sample count whose conversion to milliseconds fits in 64 bits.
pub const MAX_AUDIO_SAMPLES: u64 = 18_446_744_073_709_551;

/// Milliseconds of video between two RTP timestamps, modulo 2^32 ticks.
pub open spec fn video_elapsed_ms(first: u32, last: u32) -> int {
    ((last as int - first as int) % 0x1_0000_0000) * 1000 / 90000
}

/// Milliseconds of audio between two sample counts (zero if it went back).
pub open spec fn audio_elapsed_ms(first: u64, last: u64) -> int {
    (if last >= first {
        last - first
    } else {
        0
    }) * 1000 / 48000
}

/// The rate after comparing `video_ms` with `audio_ms`: unchanged with less
/// than 500 ms of either; faster past 50 ms of video lead, slower past 50 ms
/// of audio lead, nominal within 20 ms, unchanged in between.
pub open spec fn rate_after(video_ms: int, audio_ms: int, current: RateAdjustment) -> RateAdjustment {
    if video_ms < 500 || audio_ms < 500 {
        current
    } else if video_ms - audio_ms > 50 {
        RateAdjustment::SpeedUp
    } else if video_ms - audio_ms < -50 {
        RateAdjustment::SlowDown
    } else if -20 < video_ms - audio_ms < 20 {
        RateAdjustment::Nominal
    } else {
        current
    }
}

pub struct SyncState {
    first_video_rtp_ts: Option<u32>,
    first_audio_samples: Option<u64>,
    last_video_rtp_ts: u32,
    audio_samples_played: u64,
    rate_adjustment: RateAdjustment,
}

impl Default for SyncState {
    fn default() -> (s: Self)
        ensures
            s.wf(),
            s.first_video() == None::<u32>,
            s.first_audio() == None::<u64>,
            s.rate() == RateAdjustment::Nominal,
    {
        SyncState::new()
    }
}

impl SyncState {
    pub closed spec fn first_video(&self) -> Option<u32> {
        self.first_video_rtp_ts
    }

    pub closed spec fn first_audio(&self) -> Option<u64> {
        self.first_audio_samples
    }

    pub closed spec fn last_video(&self) -> u32 {
        self.last_video_rtp_ts
    }

    pub closed spec fn audio_played(&self) -> u64 {
        self.audio_samples_played
    }

    pub closed spec fn rate(&self) -> RateAdjustment {
        self.rate_adjustment
    }

    pub closed spec fn wf(&self) -> bool {
        &&& self.audio_samples_played <= MAX_AUDIO_SAMPLES
        &&& (self.first_audio_samples matches Some(a) ==> a <= MAX_AUDIO_SAMPLES)
    }

    pub fn new() -> (s: Self)
        ensures
            s.wf(),
            s.first_video() == None::<u32>,
            s.first_audio() == None::<u64>,
            s.last_video() == 0,
            s.audio_played() == 0,
            s.rate() == RateAdjustment::Nominal,
    {
        SyncState {
            first_video_rtp_ts: None,
            first_audio_samples: None,
            last_video_rtp_ts: 0,
            audio_samples_played: 0,
            rate_adjustment: RateAdjustment::Nominal,
        }
    }

    pub fn rate_adjustment(&self) -> (r: RateAdjustment)
        ensures
            r == self.rate(),
    {
        self.rate_adjustment
    }

    /// Records the total samples played; the first nonzero count becomes
    /// the audio baseline.
    pub fn report_audio_played(&mut self, samples: u64)
        requires
            old(self).wf(),
            samples <= MAX_AUDIO_SAMPLES,
        ensures
            final(self).wf(),
            final(self).first_audio() == (if old(self).first_audio() is None && samples > 0 {
                Some(samples)
            } else {
                old(self).first_audio()
            }),
            final(self).audio_played() == samples,
            final(self).first_video() == old(self).first_video(),
            final(self).last_video() == old(self).last_video(),
            final(self).rate() == old(self).rate(),
    {
        if self.first_audio_samples.is_none() && samples > 0 {
            self.first_audio_samples = Some(samples);
        }
        self.audio_samples_played = samples;
    }

    /// Records the RTP timestamp of a rendered frame (the first becomes the
    /// video baseline) and re-evaluates the drift once both baselines exist.
    pub fn report_video_rendered(&mut self, rtp_ts: u32)
        requires
            old(self).wf(),
        ensures
            final(self).wf(),
            final(self).first_video() == (if old(self).first_video() is None {
                Some(rtp_ts)
            } else {
                old(self).first_video()
            }),
            final(self).last_video() == rtp_ts,
            final(self).first_audio() == old(self).first_audio(),
            final(self).audio_played() == old(self).audio_played(),
            final(self).rate() == match (final(self).first_video(), old(self).first_audio()) {
                (Some(v), Some(a)) => rate_after(
                    video_elapsed_ms(v, rtp_ts),
                    audio_elapsed_ms(a, old(self).audio_played()),
                    old(self).rate(),
                ),
                _ => old(self).rate(),
            },
    {
        if self.first_video_rtp_ts.is_none() {
            self.first_video_rtp_ts = Some(rtp_ts);
        }
        self.last_video_rtp_ts = rtp_ts;
        self.update_drift();
    }

    fn update_drift(&mut self)
        requires
            old(self).wf(),
        ensures
            final(self).wf(),
            final(self).first_video() == old(self).first_video(),
            final(self).last_video() == old(self).last_video(),
            final(self).first_audio() == old(self).first_audio(),
            final(self).audio_played() == old(self).audio_played(),
            final(self).rate() == match (old(self).first_video(), old(self).first_audio()) {
                (Some(v), Some(a)) => rate_after(
                    video_elapsed_ms(v, old(self).last_video()),
                    audio_elapsed_ms(a, old(self).audio_played()),
                    old(self).rate(),
                ),
                _ => old(self).rate(),
            },
    {
        let base_video = match self.first_video_rtp_ts {
            Some(v) => v,
            None => return ,
        };
        let base_audio = match self.first_audio_samples {
            Some(a) => a,
            None => return ,
        };
        let video_elapsed_ts = self.last_video_rtp_ts.wrapping_sub(base_video) as u64;
        let audio_elapsed_samples = self.audio_samples_played.saturating_sub(base_audio);

        let video_ms = video_elapsed_ts * 1000 / 90000;
        let audio_ms = audio_elapsed_samples * 1000 / 48000;
        proof {
            assert(video_elapsed_ts == (self.last_video_rtp_ts as int - base_video as int)
                % 0x1_0000_0000);
        }

        if video_ms < 500 || audio_ms < 500 {
            return ;
        }
        let drift_ms = video_ms as i64 - audio_ms as i64;
        if drift_ms > 50 {
            self.rate_adjustment = RateAdjustment::SpeedUp;
        } else if drift_ms < -50 {
            self.rate_adjustment = RateAdjustment::SlowDown;
        } else if drift_ms > -20 && drift_ms < 20 {
            self.rate_adjustment = RateAdjustment::Nominal;
        }
    }
}

/// Once both streams have played at least 500 ms since their baselines, a
/// rendered frame sets the audio rate from the drift `d` (video ms less
/// audio ms): 2% faster when video leads by more than 50 ms, 2% slower when
/// audio leads by more than 50 ms, nominal when `|d| < 20`, and as it was
/// when `20 <= |d| <= 50`.  With less than 500 ms of either, or before the
/// first audio, the rate stays as it was.
pub proof fn drift_sets_rate(before: SyncState, rtp_ts: u32, after: SyncState)
    requires
        after.first_video() == (if before.first_video() is None {
            Some(rtp_ts)
        } else {
            before.first_video()
        }),
        after.rate() == match (after.first_video(), before.first_audio()) {
            (Some(v), Some(a)) => rate_after(
                video_elapsed_ms(v, rtp_ts),
                audio_elapsed_ms(a, before.audio_played()),
                before.rate(),
            ),
            _ => before.rate(),
        },
    ensures
        before.first_audio() is None ==> after.rate() == before.rate(),
        before.first_audio() is Some ==> {
            let vm = video_elapsed_ms(after.first_video()->0, rtp_ts);
            let am = audio_elapsed_ms(before.first_audio()->0, before.audio_played());
            let d = vm - am;
            &&& (vm < 500 || am < 500) ==> after.rate() == before.rate()
            &&& (vm >= 500 && am >= 500 && d > 50) ==> after.rate() == RateAdjustment::SpeedUp
            &&& (vm >= 500 && am >= 500 && d < -50) ==> after.rate() == RateAdjustment::SlowDown
            &&& (vm >= 500 && am >= 500 && -20 < d < 20) ==> after.rate()
                == RateAdjustment::Nominal
            &&& (vm >= 500 && am >= 500 && 20 <= d <= 50) ==> after.rate() == before.rate()
            &&& (vm >= 500 && am >= 500 && -50 <= d <= -20) ==> after.rate() == before.rate()
        },
{
}

/// Elapsed times are whole milliseconds, rounded down: video counts 90 RTP
/// ticks per millisecond (the ticks taken modulo 2^32, so a wrapped
/// timestamp still moves forward), audio 48 samples per millisecond, and
/// audio whose count went back counts as none.
pub proof fn elapsed_ms_units(first_v: u32, last_v: u32, first_a: u64, last_a: u64)
    ensures
        ({
            let ticks = if last_v >= first_v {
                last_v - first_v
            } else {
                last_v + 0x1_0000_0000 - first_v
            };
            let ms = video_elapsed_ms(first_v, last_v);
            ms * 90 <= ticks < (ms + 1) * 90
        }),
        last_a >= first_a ==> audio_elapsed_ms(first_a, last_a) * 48 <= last_a - first_a < (
        audio_elapsed_ms(first_a, last_a) + 1) * 48,
        last_a < first_a ==> audio_elapsed_ms(first_a, last_a) == 0,
{
    let ticks: int = if last_v >= first_v {
        last_v - first_v
    } else {
        last_v + 0x1_0000_0000 - first_v
    };
    assert((last_v as int - first_v as int) % 0x1_0000_0000 == ticks);
    lemma_floor_scaled(ticks, 90);
    if last_a >= first_a {
        lemma_floor_scaled(last_a - first_a, 48);
    }
}

/// `x * 1000 / (1000 * k)` is `x / k` rounded down.
proof fn lemma_floor_scaled(x: int, k: int)
    requires
        x >= 0,
        k == 90 || k == 48,
    ensures
        (x * 1000 / (1000 * k)) * k <= x < (x * 1000 / (1000 * k) + 1) * k,
{
    let d = 1000 * k;
    let q = x * 1000 / d;
    vstd::arithmetic::div_mod::lemma_fundamental_div_mod(x * 1000, d);
    vstd::arithmetic::div_mod::lemma_mod_pos_bound(x * 1000, d);
    let r = (x * 1000) % d;
    assert(q * k <= x < (q + 1) * k) by (nonlinear_arith)
        requires
            x * 1000 == d * q + r,
            0 <= r < d,
            d == 1000 * k,
            k > 0,
    ;
}

} // verus!


