//! Compact binary encoding for animations of mostly-identical fixed-length
//! byte buffers ("frames").
//!
//! The crate has four parts: a zero-run-length byte codec ([`codec`]), a
//! sparse region diff between equal-length buffers ([`diff`]), a packer that
//! stores the first frame as a diff against an all-zero buffer and every
//! frame as a diff against that reconstructed base ([`pack`]), and an emitter
//! that renders the packed arrays as constant declarations in two dialects
//! ([`emit`]).  [`schedule`] holds the fixed playback order of the frames.
//!
//! Every function carries a contract pinning its result; the codec and diff
//! round trips are proved as laws (`lemma_rle_round_trip`,
//! `lemma_apply_diff_round_trip`), and `lemma_diff_of_unique` shows that a
//! frame's stored diff depends only on the base buffer and that frame.

pub mod codec;
pub mod diff;
pub mod emit;
pub mod pack;
pub mod schedule;
