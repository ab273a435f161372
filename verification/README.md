# transmux

A Verus-verified media container library: ISOBMFF box codecs, CMAF
initialisation and media segment builders, fragmented-MP4 demux, MPEG-4
descriptors, KLV (SMPTE 336M / MISB ST 0601) metadata, H.264/HEVC NAL
classification, legacy MPEG audio/video headers, RTP payload formats
(H.264, AAC, KLV) with SDP, HLS master and media playlists, and timeline
rebasing over a neutral media model.

Every public function carries a `requires`/`ensures` contract over spec
functions and views, and Verus proves the bodies against them.

## Layout

- `src/bytes.rs`, `src/box_types.rs` — big-endian fields and the box header.
- `src/init_segment.rs`, `src/movie_fragment.rs`, `src/mp4esds.rs`,
  `src/opus.rs`, `src/mpegh.rs` — box and descriptor codecs, with
  serialize/parse round-trip lemmas.
- `src/ir/` — the media model: codec configurations, samples, tracks, media.
- `src/pipeline.rs` — CMAF initialisation and media segments.
- `src/progressive.rs`, `src/progressive_demux.rs` — single-file MP4 with
  full sample tables, and reading one back.
- `src/media.rs` — sample entry to codec configuration, fMP4 demux, CMAF mux.
- `src/rebase.rs` — timeline re-origin, offset and gap transforms.
- `src/annexb.rs`, `src/nal.rs`, `src/avcc.rs` — NAL framing and
  keyframe/random-access classification.
- `src/klv.rs` — BER lengths and OIDs, local sets, the UAS checksum.
- `src/rtp.rs`, `src/sdp.rs` — RTP packetisation and reassembly, base64/hex,
  SDP media blocks.
- `src/text.rs`, `src/hls.rs` — character-level parsing helpers and the HLS
  master playlist renderer/parser with its round-trip law.
- `src/media_playlist.rs` — HLS media playlists (VOD, live, low-latency
  parts, preload hints, rendition reports, delta updates) with durations as
  decimal text: renderer, parser, the decimal floating-point grammar, and the
  law that parsing reads rendered text back as the same playlist.
- `tests/` — the test suite, run against the compiled library.
- `app/` — ordinary Rust around the library: media playlists with `f64`
  durations (formatting and reading the decimal text, the part-hold-back
  floor) and the CMAF-HLS packager that turns tick counts into seconds.
