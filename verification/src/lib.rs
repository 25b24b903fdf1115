//! Decoder for a length-prefix binary tree encoding.
//!
//! The format serializes single bytes, byte strings and nested lists without
//! an external schema: every encoded value starts with a tag byte whose range
//! decides how the rest is read. Decoding is strict: any read past a declared
//! boundary, and any trailing bytes after a whole-input decode, are errors.

use vstd::prelude::*;

mod data;
mod decode;
mod encoding;
mod source;

pub use data::BufferError;
pub use data::Error;
pub use data::ParsedData;
pub use data::SpecData;
pub use data::views_of;
pub use source::Blob;
pub use source::spec_read_byte;
pub use source::spec_read_slice;

pub use decode::be_bound;
pub use decode::be_value;
pub use decode::decode_blob_portion_at_position;
pub use decode::decode_whole_blob;
pub use decode::lemma_spec_decode_advances;
pub use decode::spec_decode;
pub use decode::spec_decode_list;
pub use data::lemma_views_of_push;
pub use decode::lemma_be_bound_mono;
pub use decode::lemma_be_bound_pos;
pub use decode::lemma_be_value_bound;
pub use encoding::be_bytes;
pub use encoding::lemma_be_bytes_len;
pub use encoding::lemma_be_bytes_value;
pub use encoding::lemma_decode_encode;
pub use encoding::lemma_decode_encode_seq;
pub use encoding::lemma_encode_len_pos;
pub use encoding::lemma_encode_seq_first;
pub use encoding::lemma_encode_seq_push;
pub use encoding::lemma_long_string_threshold;
pub use encoding::lemma_round_trip;
pub use encoding::lemma_single_byte;
pub use encoding::lemma_wf_seq_first;
pub use encoding::list_header;
pub use encoding::spec_encode;
pub use encoding::spec_encode_seq;
pub use encoding::spec_wf;
pub use encoding::spec_wf_seq;
pub use encoding::string_header;
pub use source::clip_to_usize;

verus! {

/// First tag of the short-string class; bytes below encode themselves.
pub const BORDER_A: u8 = 0x80;

/// First tag of the long-string class.
pub const BORDER_B: u8 = 0xb8;

/// First tag of the short-list class.
pub const BORDER_C: u8 = 0xc0;

/// First tag of the long-list class.
pub const BORDER_D: u8 = 0xf8;

} // verus!
