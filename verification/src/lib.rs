//! A small asset-bundling codec: an LZ-style single-pass byte compressor
//! with its exact decoder, a deterministic AES-CTR keystream cipher, and a
//! layered encode/decode pipeline (compress, encrypt, base-58 text
//! encoding) for file payloads and path names.
//!
//! The compressed token format is modelled once, by
//! [`stream::decode_stream`]: [`compress::compress`] guarantees that its
//! output decodes from an empty buffer to exactly the input, and
//! [`decompress::decompress`] guarantees that it returns exactly what
//! `decode_stream` says, so the round trip holds for every byte buffer.
//! The cipher's transform is [`crypt::ctr_transform`];
//! [`crypt::lemma_ctr_transform_involutive`] proves it is its own inverse
//! for every key and every buffer. On top of both,
//! [`asset_bundling_options::AssetBundlingOptions`] encodes payloads and
//! path segments and proves that decoding inverts encoding under every
//! combination of the compress and encrypt flags.

pub mod asset_bundler;
pub mod asset_bundling_options;
pub mod compress;
pub mod crypt;
pub mod decompress;
pub mod errors;
pub mod paths;
pub mod stream;
pub mod text;
