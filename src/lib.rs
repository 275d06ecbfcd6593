//! Noise suppression for mono audio streams: the wire codec for sample
//! payloads, the rate adapter that lets a fixed-rate frame denoiser serve a
//! lower sample rate, and the framing pipeline that feeds one denoiser
//! instance frame by frame.
pub mod codec;
pub mod rate;
pub mod stream;
