//! `transmux` — media container muxing primitives with machine-checked
//! contracts: ISOBMFF box codecs, MPEG-4 descriptors, KLV metadata, NAL
//! classification, legacy MPEG headers, RTP payload helpers and the neutral
//! media intermediate representation.
#![allow(unused_imports)]

pub mod annexb;
pub mod avcc;
pub mod box_types;
pub mod bytes;
pub mod error;
pub mod hls;
pub mod init_segment;
pub mod ir;
pub mod klv;
pub mod media;
pub mod media_playlist;
pub mod movie_fragment;
pub mod mp4esds;
pub mod mpeg_legacy;
pub mod mpegh;
pub mod nal;
pub mod opus;
pub mod pipeline;
pub mod progressive;
pub mod progressive_demux;
pub mod rebase;
pub mod rtp;
pub mod sdp;
pub mod text;
