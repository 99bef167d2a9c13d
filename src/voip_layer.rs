//! The messages of the voice layer built on the router.
use vstd::prelude::*;

verus! {

/// The channel layout of an audio stream.
#[derive(Copy, Clone, PartialEq, Eq, Structural, Hash, Debug)]
pub enum Channels {
    Mono,
    Stereo,
}

/// The microphone settings that a peer announces, so that others can decode
/// its voice.
#[derive(Copy, Clone, PartialEq, Eq, Structural, Debug)]
pub struct MicrophoneConfigInfo {
    pub channels: u16,
    pub sample_rate: u32,
}

impl MicrophoneConfigInfo {
    /// The key of the decoder for this stream: its sample rate and layout.
    /// Only one or two channels are supported.
    pub fn as_tuple(&self) -> (r: (u32, Channels))
        requires
            self.channels == 1 || self.channels == 2,
        ensures
            r.0 == self.sample_rate,
            r.1 == (if self.channels == 1 {
                Channels::Mono
            } else {
                Channels::Stereo
            }),
    {
        if self.channels == 1 {
            (self.sample_rate, Channels::Mono)
        } else {
            (self.sample_rate, Channels::Stereo)
        }
    }
}

/// One encoded frame of voice.
pub struct VoipMessage {
    data: Vec<u8>,
}

impl VoipMessage {
    pub closed spec fn data_view(&self) -> Seq<u8> {
        self.data@
    }

    /// The message that carries the encoded frame `data`.
    pub fn new(data: Vec<u8>) -> (r: VoipMessage)
        ensures
            r.data_view() == data@,
    {
        VoipMessage { data }
    }

    /// The encoded frame.
    pub fn data(&self) -> (r: &Vec<u8>)
        ensures
            r@ == self.data_view(),
    {
        &self.data
    }
}

} // verus!
