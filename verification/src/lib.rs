//! Splits interleaved multichannel WAV recordings into one mono WAV file per channel.
//!
//! The library holds every rule of the extraction: which files are read, how a WAV file is laid
//! out, which recordings belong together, how frames are split and what the output files are
//! called and start with. It performs no input or output. Where a decision depends on what a
//! file holds, the library says which bytes it wants next and is handed them.
pub mod bytes;
pub mod chunks;
pub mod demux;
pub mod error;
pub mod format;
pub mod frames;
pub mod header;
pub mod inputs;
pub mod laws;
pub mod output;
pub mod parse;
pub mod paths;
pub mod progress;
pub mod run;
pub mod samples;
pub mod survey;
pub mod text;
