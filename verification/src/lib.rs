//! A reliable, resumable file-transfer library: a content-addressed chunk
//! store, a binary message codec, a gap-detection sync engine, and a
//! role-aware protocol state machine.

use vstd::prelude::*;

mod digest;
mod error;
mod messages;
mod protocol;
mod storage;
mod util;

pub use digest::{content_digest, digest_of, hex_digest, hex_of, hex_str};
pub use error::ProtocolError;
pub use messages::{
    decode_message, encode_message, lemma_codec_round_trip, msg_enc, msg_wf, parse_msg, Message,
    MessageView,
};
pub use protocol::{
    gen_channel_id, is_status, is_terminal, msgs_view, process_effect, range_msgs, ranges_msgs,
    spec_is_terminal, transition, Protocol, Role, State,
};
pub use storage::{
    assemble, chunk_count, chunk_of, file_complete, gap_report, import_chunks, known_count,
    lemma_gap_report_unique, lemma_import_reassembles, lemma_store_chunk_last_write_wins,
    ChunkStore, StoreModel,
};
pub use util::str_eq;

verus! {

/// Maximum size of one stored chunk, in bytes.
pub const CHUNK_SIZE: usize = 4096;

} // verus!
