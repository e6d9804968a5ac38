//! Audio-clip and dictionary-lookup cores of a reader application.
//!
//! The audio side turns an HLS playlist and a time window into a PCM WAV
//! clip: segment selection, MPEG-TS demultiplexing into ADTS, sample-accurate
//! windowing and WAV encoding. The lookup side turns a text and a cursor into
//! ranked, grouped dictionary matches with furigana, over a term store whose
//! dictionaries and rows follow the rules here.

pub mod error;
pub mod text;

pub mod playlist;
pub mod ts;
pub mod clip;
pub mod wav;

pub mod lookup;
pub mod furigana;
pub mod registry;
pub mod import;

pub mod language;
