//! An MP4 muxer for H.264 / H.265 elementary streams: status codes of the
//! box-writing engine, Annex-B bitstream parsing, the timing model and the
//! per-session sample-table bookkeeping, all with verified contracts.
pub mod annexb;
pub mod audio;
pub mod status;
pub mod timing;
pub mod track;
