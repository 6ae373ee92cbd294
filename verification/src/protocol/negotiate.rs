//! Session negotiation: the sender offers video, audio and transport
//! parameters, the receiver answers with its limits, and both settle on the
//! smaller of each.  The JSON encoding of the messages is done where serde
//! is available.

use vstd::prelude::*;

verus! {

#[derive(Debug, Clone, PartialEq)]
pub struct Offer {
    pub video: OfferVideo,
    pub audio: OfferAudio,
    pub transport: OfferTransport,
}

#[derive(Debug, Clone, PartialEq)]
pub struct OfferVideo {
    pub codec: String,
    pub width: u32,
    pub height: u32,
    pub fps: u32,
    pub bitrate: u32,
}

#[derive(Debug, Clone, PartialEq)]
pub struct OfferAudio {
    pub codec: String,
    pub sample_rate: u32,
    pub channels: u16,
    pub bitrate: u32,
}

#[derive(Debug, Clone, PartialEq)]
pub struct OfferTransport {
    pub udp_port: u16,
    pub fec_group_size: usize,
}

#[derive(Debug, Clone, PartialEq)]
pub struct Answer {
    pub video: AnswerVideo,
    pub audio: AnswerAudio,
    pub transport: AnswerTransport,
}

#[derive(Debug, Clone, PartialEq)]
pub struct AnswerVideo {
    pub codec: String,
    pub max_width: u32,
    pub max_height: u32,
    pub max_fps: u32,
}

#[derive(Debug, Clone, PartialEq)]
pub struct AnswerAudio {
    pub codec: String,
    pub sample_rate: u32,
    pub channels: u16,
}

#[derive(Debug, Clone, PartialEq)]
pub struct AnswerTransport {
    pub udp_port: u16,
}

#[derive(Debug, Clone)]
pub enum NegotiateMessage {
    Offer(Offer),
    Answer(Answer),
}

#[derive(Debug, Clone, Copy, PartialEq, Eq, Structural)]
pub struct NegotiatedParams {
    pub video_width: u32,
    pub video_height: u32,
    pub video_fps: u32,
    pub video_bitrate: u32,
    pub audio_sample_rate: u32,
    pub audio_channels: u16,
    pub audio_bitrate: u32,
    pub sender_udp_port: u16,
    pub receiver_udp_port: u16,
    pub fec_group_size: usize,
}

pub open spec fn min_u32(a: u32, b: u32) -> u32 {
    if a <= b {
        a
    } else {
        b
    }
}

pub open spec fn min_u16(a: u16, b: u16) -> u16 {
    if a <= b {
        a
    } else {
        b
    }
}

impl NegotiatedParams {
    /// The parameters both sides use: for resolution, frame rate, sample
    /// rate and channels the smaller of what is offered and what the
    /// receiver accepts; bitrates and the FEC group size as offered; each
    /// side's own UDP port.
    pub fn resolve(offer: &Offer, answer: &Answer) -> (p: Self)
        ensures
            p.video_width == min_u32(offer.video.width, answer.video.max_width),
            p.video_height == min_u32(offer.video.height, answer.video.max_height),
            p.video_fps == min_u32(offer.video.fps, answer.video.max_fps),
            p.video_bitrate == offer.video.bitrate,
            p.audio_sample_rate == min_u32(offer.audio.sample_rate, answer.audio.sample_rate),
            p.audio_channels == min_u16(offer.audio.channels, answer.audio.channels),
            p.audio_bitrate == offer.audio.bitrate,
            p.sender_udp_port == offer.transport.udp_port,
            p.receiver_udp_port == answer.transport.udp_port,
            p.fec_group_size == offer.transport.fec_group_size,
    {
        NegotiatedParams {
            video_width: if offer.video.width <= answer.video.max_width {
                offer.video.width
            } else {
                answer.video.max_width
            },
            video_height: if offer.video.height <= answer.video.max_height {
                offer.video.height
            } else {
                answer.video.max_height
            },
            video_fps: if offer.video.fps <= answer.video.max_fps {
                offer.video.fps
            } else {
                answer.video.max_fps
            },
            video_bitrate: offer.video.bitrate,
            audio_sample_rate: if offer.audio.sample_rate <= answer.audio.sample_rate {
                offer.audio.sample_rate
            } else {
                answer.audio.sample_rate
            },
            audio_channels: if offer.audio.channels <= answer.audio.channels {
                offer.audio.channels
            } else {
                answer.audio.channels
            },
            audio_bitrate: offer.audio.bitrate,
            sender_udp_port: offer.transport.udp_port,
            receiver_udp_port: answer.transport.udp_port,
            fec_group_size: offer.transport.fec_group_size,
        }
    }
}

/// The negotiated parameters never exceed what either side stated: the
/// resolution, frame rate, sample rate and channel count are within both
/// the offer and the answer.
pub proof fn resolved_within_both(offer: Offer, answer: Answer, p: NegotiatedParams)
    requires
        p.video_width == min_u32(offer.video.width, answer.video.max_width),
        p.video_height == min_u32(offer.video.height, answer.video.max_height),
        p.video_fps == min_u32(offer.video.fps, answer.video.max_fps),
        p.audio_sample_rate == min_u32(offer.audio.sample_rate, answer.audio.sample_rate),
        p.audio_channels == min_u16(offer.audio.channels, answer.audio.channels),
    ensures
        p.video_width <= offer.video.width && p.video_width <= answer.video.max_width,
        p.video_height <= offer.video.height && p.video_height <= answer.video.max_height,
        p.video_fps <= offer.video.fps && p.video_fps <= answer.video.max_fps,
        p.audio_sample_rate <= offer.audio.sample_rate && p.audio_sample_rate
            <= answer.audio.sample_rate,
        p.audio_channels <= offer.audio.channels && p.audio_channels <= answer.audio.channels,
        p.video_width == offer.video.width || p.video_width == answer.video.max_width,
{
}

} // verus!
