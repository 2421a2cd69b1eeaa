//! The verified core of the klattsch formant speech synthesizer: input
//! normalization, the phoneme-string lexer, the compile plan, phoneme banks
//! and tables, the time-sorted event schedule and its playhead, the live
//! event channel, the noise generator's integer core, and the RIFF/WAVE
//! byte layout.

pub mod banks;
pub mod compile;
pub mod live;
pub mod noise;
pub mod normalize;
pub mod number;
pub mod phonemes;
pub mod schedule;
pub mod text;
pub mod tokenize;
pub mod wav;
