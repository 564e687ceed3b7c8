//! The bookkeeping core of a multi-track spectrogram and waveform viewer.

pub mod analysis;
pub mod axis;
pub mod colorize;
pub mod decimal;
pub mod envelope;
pub mod format_info;
pub mod greys;
pub mod id_ch;
pub mod img_mgr;
pub mod labels;
pub mod mipmap;
pub mod output_device;
pub mod player;
pub mod playback;
pub mod pow2;
pub mod slice;
pub mod stft;
pub mod track;
pub mod tuple_hasher;
