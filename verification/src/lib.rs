//! A content-addressed file store with Merkle membership proofs.
//!
//! The library covers the commitment scheme (root-hash construction over an
//! unordered set of leaf digests, membership-proof generation and proof
//! verification) and the length-prefixed binary wire protocol that carries
//! digests, proofs and file payloads between a client and a server.

use vstd::prelude::*;

mod codec;
mod errors;
mod hash;
mod merkle;
mod protocol;

pub use errors::FumError;
pub use hash::{Digest, compute_sha256, sha256_of, lex_lt, lex_leq, DIGEST_LEN};
pub use hash::{digest, digest_from_hex, hex_of, hex_to_bytes, hex_val, is_hex_seq};
pub use hash::lemma_hex_round_trip;
pub use codec::{
    be_to_u32, bytes_frame, dec_bytes_at, dec_u32_at, decode_bytes, decode_string, decode_u32,
    encode_bytes, encode_string, encode_u32, lemma_bytes_round_trip, lemma_string_round_trip,
    lemma_u32_round_trip, string_frame, u32_to_be,
};
pub use merkle::{
    combine_of, combined_hash, fold_proof, get_proof, lemma_combine_commutes,
    lemma_proof_entries_len, lemma_root_of_permutation, pair_sibling, proof_entries,
    proof_round_trip, root_hash, root_of, sorted_leaves, verify_proof, views,
};
pub use protocol::{
    DOWNLOAD_OP, FileItem, LISTDIRS_OP, LISTFILES_OP, Opcode, UPLOAD_OP, UploadOp,
    dec_upload_at, decode_upload_request, encode_upload_request, item_views, items_body,
    parse_opcode, upload_request,
};
pub use protocol::{
    batch_dir_name, batch_proof, batch_root, check_download, dec_digests_at,
    dec_download_request_at, dec_download_response_at, dec_list_at, dec_strings_at,
    decode_download_request, decode_download_response, decode_list_response, digests_body,
    download_request, download_response, encode_download_request, encode_download_response,
    encode_list_response, encode_listfiles_request, leaf_hashes, leaves_of, list_files_response,
    list_response, listfiles_request, string_views, strings_body,
};

verus! {

} // verus!
