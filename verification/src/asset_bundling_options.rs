//! The pipeline configuration and the layered encode/decode pipeline.
//!
//! A configuration decides three things: whether path names are encoded,
//! whether payloads are encrypted (which needs a key), and whether they are
//! compressed first. Encryption is "ready" only when it is switched on and a
//! key is present; a flag without readiness is a silent no-op, not an error.
//! Compression is applied only when encryption is ready — a deliberate,
//! preserved rule of the format, not a defect: with encryption off, payloads
//! and path bytes pass through unchanged (path bytes still get the base-58
//! rendering).

use vstd::prelude::*;

use vstd::string::{StrSliceExecFns, StringSliceAdditionalSpecFns};
use vstd::utf8::encode_utf8;

use crate::compress::compress;
use crate::crypt::{ctr_transform, decrypt_ctr, encrypt_ctr, lemma_ctr_transform_involutive};
use crate::decompress::decompress;
use crate::errors::BundleError;
use crate::paths::{
    join_bytes, join_with, lemma_join_b58_bytes, lemma_join_split, lemma_split_join, replace_byte,
    replace_bytes, split_bytes, split_on,
};
use crate::stream::{decode_stream, DecodeOutcome};
use crate::text::{
    b58_bytes_of, b58_decode, b58_encode, is_b58_byte, lemma_ascii_valid_utf8, lemma_b58_byte_facts,
    utf8_to_string,
};

verus! {

/// Equal UTF-8 encodings come from equal strings.
proof fn lemma_encode_utf8_injective(a: Seq<char>, b: Seq<char>)
    requires
        encode_utf8(a) == encode_utf8(b),
    ensures
        a == b,
{
    vstd::utf8::encode_utf8_decode_utf8(a);
    vstd::utf8::encode_utf8_decode_utf8(b);
}

/// What the bundling pipeline is allowed to do, owned by the caller and
/// read-only to the codecs.
#[derive(Debug, Clone)]
pub struct AssetBundlingOptions {
    /// Whether path names are obfuscated in the bundle.
    pub encode_file_names: bool,
    /// Whether payloads and encoded names are encrypted.
    pub encryption_on: bool,
    /// The AES-128 key; encryption is a no-op without it.
    pub encryption_key: Option<[u8; 16]>,
    /// Whether payloads and encoded names are compressed before encryption.
    pub compress_on: bool,
    /// The file name of the bundle beside the executable.
    pub asset_bundle_name: String,
}

impl Default for AssetBundlingOptions {
    fn default() -> (r: Self)
        ensures
            !r.encode_file_names,
            !r.encryption_on,
            r.encryption_key is None,
            !r.compress_on,
            r.asset_bundle_name@ == "assets.bin"@,
    {
        AssetBundlingOptions {
            encode_file_names: false,
            encryption_on: false,
            encryption_key: None,
            compress_on: false,
            asset_bundle_name: "assets.bin".to_owned(),
        }
    }
}

impl AssetBundlingOptions {
    /// Encryption can actually happen: switched on and keyed.
    pub open spec fn encryption_ready(self) -> bool {
        self.encryption_on && self.encryption_key is Some
    }

    /// The configured key bytes (meaningful only when a key is present).
    pub open spec fn key_seq(self) -> Seq<u8> {
        self.encryption_key->Some_0@
    }

    /// Switches encryption on with the given key.
    pub fn set_encryption_key(&mut self, key: [u8; 16])
        ensures
            final(self).encryption_on,
            final(self).encryption_key == Some(key),
            final(self).encode_file_names == old(self).encode_file_names,
            final(self).compress_on == old(self).compress_on,
            final(self).asset_bundle_name == old(self).asset_bundle_name,
    {
        self.encryption_on = true;
        self.encryption_key = Some(key);
    }

    /// Whether encryption is switched on and keyed.
    pub fn is_encryption_ready(&self) -> (r: bool)
        ensures
            r == self.encryption_ready(),
    {
        self.encryption_on && self.encryption_key.is_some()
    }

    /// The eager check made before any bundling work begins: encryption
    /// requested without a key is the one configuration error.
    pub fn validate_encryption(&self) -> (r: Result<(), BundleError>)
        ensures
            r is Ok <==> !(self.encryption_on && self.encryption_key is None),
            r is Err ==> r == Err::<(), BundleError>(BundleError::KeyMissing),
    {
        if self.encryption_on && self.encryption_key.is_none() {
            Err(BundleError::KeyMissing)
        } else {
            Ok(())
        }
    }

    /// Encrypts when encryption is ready, else reports `None`.
    pub fn try_encrypt(&self, plain: &[u8]) -> (r: Option<Vec<u8>>)
        ensures
            match r {
                Some(v) => self.encryption_ready() && v@ == ctr_transform(self.key_seq(), plain@),
                None => !self.encryption_ready(),
            },
    {
        if self.encryption_on {
            if let Some(k) = self.encryption_key {
                return Some(encrypt_ctr(&k, plain));
            }
        }
        None
    }

    /// Decrypts when encryption is ready, else reports `None`. The cipher is
    /// its own inverse, so this is the same transform as `try_encrypt`.
    pub fn try_decrypt(&self, encrypted: &[u8]) -> (r: Option<Vec<u8>>)
        ensures
            match r {
                Some(v) => self.encryption_ready() && v@ == ctr_transform(
                    self.key_seq(),
                    encrypted@,
                ),
                None => !self.encryption_ready(),
            },
    {
        if self.encryption_on {
            if let Some(k) = self.encryption_key {
                return Some(decrypt_ctr(&k, encrypted));
            }
        }
        None
    }

    /// `stored` is a well-formed stored form of `plain` under this
    /// configuration: compressed (when enabled) then encrypted when
    /// encryption is ready, and `plain` itself otherwise.
    pub open spec fn payload_encoding(self, plain: Seq<u8>, stored: Seq<u8>) -> bool {
        if self.encryption_ready() {
            if self.compress_on {
                exists|c: Seq<u8>|
                    decode_stream(c, Seq::<u8>::empty()) == DecodeOutcome::Done(plain) && stored
                        == #[trigger] ctr_transform(self.key_seq(), c)
            } else {
                stored == ctr_transform(self.key_seq(), plain)
            }
        } else {
            stored == plain
        }
    }

    /// Law: a stored form determines its payload. Two plaintexts with the
    /// same stored form under one configuration are equal, so decoding can
    /// invert encoding: the keystream cancels under XOR, and a compressed
    /// stream decodes to exactly one buffer.
    pub proof fn lemma_payload_encoding_functional(
        self,
        plain1: Seq<u8>,
        plain2: Seq<u8>,
        stored: Seq<u8>,
    )
        requires
            self.payload_encoding(plain1, stored),
            self.payload_encoding(plain2, stored),
        ensures
            plain1 == plain2,
    {
        if self.encryption_ready() {
            if self.compress_on {
                let c1 = choose|c: Seq<u8>|
                    decode_stream(c, Seq::<u8>::empty()) == DecodeOutcome::Done(plain1) && stored
                        == #[trigger] ctr_transform(self.key_seq(), c);
                let c2 = choose|c: Seq<u8>|
                    decode_stream(c, Seq::<u8>::empty()) == DecodeOutcome::Done(plain2) && stored
                        == #[trigger] ctr_transform(self.key_seq(), c);
                lemma_ctr_transform_involutive(self.key_seq(), c1);
                lemma_ctr_transform_involutive(self.key_seq(), c2);
                assert(c1 == c2);
            } else {
                lemma_ctr_transform_involutive(self.key_seq(), plain1);
                lemma_ctr_transform_involutive(self.key_seq(), plain2);
            }
        }
    }

    /// Turns raw payload bytes into their stored form: compress (when
    /// enabled) and encrypt when encryption is ready, else hand the bytes
    /// back unchanged — compression alone never applies.
    pub fn encode_payload(&self, data: &[u8]) -> (r: Vec<u8>)
        ensures
            self.payload_encoding(data@, r@),
            !self.encryption_ready() ==> r@ == data@,
    {
        if self.encryption_on {
            if let Some(k) = self.encryption_key {
                if self.compress_on {
                    let c = compress(data);
                    let out = encrypt_ctr(&k, c.as_slice());
                    proof {
                        assert(out@ == ctr_transform(self.key_seq(), c@));
                    }
                    return out;
                } else {
                    return encrypt_ctr(&k, data);
                }
            }
        }
        vstd::slice::slice_to_vec(data)
    }

    /// Turns stored bytes back into the raw payload: decrypt and then
    /// decompress (when enabled) when encryption is ready, else hand the
    /// bytes back unchanged. Whatever `encode_payload` produced decodes to
    /// the original bytes; a stored form that is no valid compressed stream
    /// is rejected with the decoder's error.
    pub fn decode_payload(&self, data: &[u8]) -> (r: Result<Vec<u8>, BundleError>)
        ensures
            !self.encryption_ready() ==> (r matches Ok(v) && v@ == data@),
            (self.encryption_ready() && !self.compress_on) ==> (r matches Ok(v) && v@
                == ctr_transform(self.key_seq(), data@)),
            (self.encryption_ready() && self.compress_on) ==> (match decode_stream(
                ctr_transform(self.key_seq(), data@),
                Seq::<u8>::empty(),
            ) {
                DecodeOutcome::Done(v) => r matches Ok(rv) && rv@ == v,
                DecodeOutcome::Truncated => r == Err::<Vec<u8>, BundleError>(BundleError::Format),
                DecodeOutcome::TooBig => r == Err::<Vec<u8>, BundleError>(BundleError::Format),
                DecodeOutcome::BadRef => r == Err::<Vec<u8>, BundleError>(
                    BundleError::Backreference,
                ),
            }),
            forall|p: Seq<u8>|
                self.payload_encoding(p, data@) ==> (r matches Ok(v) && v@ == p),
    {
        let result: Result<Vec<u8>, BundleError> = if self.encryption_on
            && self.encryption_key.is_some() {
            let k = self.encryption_key.unwrap();
            let d = decrypt_ctr(&k, data);
            if self.compress_on {
                decompress(d.as_slice())
            } else {
                Ok(d)
            }
        } else {
            Ok(vstd::slice::slice_to_vec(data))
        };
        proof {
            assert forall|p: Seq<u8>| self.payload_encoding(p, data@) implies (result matches Ok(v)
                && v@ == p) by {
                if self.encryption_ready() {
                    if self.compress_on {
                        let c = choose|c: Seq<u8>|
                            decode_stream(c, Seq::<u8>::empty()) == DecodeOutcome::Done(p) && data@
                                == ctr_transform(self.key_seq(), c);
                        lemma_ctr_transform_involutive(self.key_seq(), c);
                        assert(ctr_transform(self.key_seq(), data@) == c);
                    } else {
                        lemma_ctr_transform_involutive(self.key_seq(), p);
                    }
                }
            }
        }
        result
    }

    /// `tok` is a well-formed token for segment bytes `plain`: the base-58
    /// rendering of a stored form of `plain`.
    pub open spec fn segment_bytes_encoding(self, plain: Seq<u8>, tok: Seq<u8>) -> bool {
        &&& (forall|j: int| 0 <= j < tok.len() ==> is_b58_byte(#[trigger] tok[j]))
        &&& exists|stored: Seq<u8>|
            #[trigger] b58_bytes_of(stored) == tok && self.payload_encoding(plain, stored)
    }

    /// Encodes one path segment, given as bytes: stored form, then base-58.
    fn encode_segment_bytes(&self, seg: &[u8]) -> (r: Vec<u8>)
        ensures
            self.segment_bytes_encoding(seg@, r@),
    {
        let stored = self.encode_payload(seg);
        let tok = b58_encode(stored.as_slice());
        proof {
            assert(b58_bytes_of(stored@) == tok@ && self.payload_encoding(seg@, stored@));
        }
        tok
    }

    /// Decodes one path segment token, given as bytes: base-58 back to the
    /// stored form, then the payload decoder.
    fn decode_segment_bytes(&self, tok: &[u8]) -> (r: Result<Vec<u8>, BundleError>)
        ensures
            forall|p: Seq<u8>|
                self.segment_bytes_encoding(p, tok@) ==> (r matches Ok(v) && v@ == p),
            (r == Err::<Vec<u8>, BundleError>(BundleError::DecodeAlphabet)) <==> !(forall|j: int|
                0 <= j < tok@.len() ==> is_b58_byte(#[trigger] tok@[j])),
    {
        match b58_decode(tok) {
            None => Err(BundleError::DecodeAlphabet),
            Some(stored) => {
                let r = self.decode_payload(stored.as_slice());
                proof {
                    assert forall|p: Seq<u8>| self.segment_bytes_encoding(p, tok@) implies (
                    r matches Ok(v) && v@ == p) by {
                        let st = choose|st: Seq<u8>|
                            #[trigger] b58_bytes_of(st) == tok@ && self.payload_encoding(p, st);
                        assert(stored@ == st);
                    }
                }
                match r {
                    Ok(v) => Ok(v),
                    Err(e) => Err(e),
                }
            },
        }
    }

    /// `t` is a well-formed token string for the segment string `s`.
    pub open spec fn segment_encoding(self, s: Seq<char>, t: Seq<char>) -> bool {
        self.segment_bytes_encoding(encode_utf8(s), encode_utf8(t))
    }

    /// Encodes one path segment: UTF-8 bytes through the stored-form
    /// pipeline, rendered base-58. Never fails; the token is plain ASCII.
    pub fn try_encode_string(&self, s: &str) -> (r: Result<String, BundleError>)
        ensures
            r matches Ok(t) && self.segment_encoding(s@, t@),
    {
        let bytes = s.as_bytes_vec();
        let tok = self.encode_segment_bytes(bytes.as_slice());
        proof {
            assert forall|i: int| 0 <= i < tok@.len() implies #[trigger] tok@[i] < 128 by {
                assert(is_b58_byte(tok@[i]));
                lemma_b58_byte_facts(tok@[i]);
            }
            lemma_ascii_valid_utf8(tok@);
        }
        match utf8_to_string(tok) {
            Some(t) => Ok(t),
            None => {
                proof {
                    assert(false);
                }
                Err(BundleError::TextDecode)
            },
        }
    }

    /// Decodes one path segment token: exactly inverts `try_encode_string`.
    /// Rejects a character outside the base-58 alphabet with
    /// `DecodeAlphabet`, a stored form that is no valid compressed stream
    /// with the decoder's error, and non-UTF-8 plain bytes with
    /// `TextDecode`.
    pub fn try_decode_string(&self, t: &str) -> (r: Result<String, BundleError>)
        ensures
            forall|s: Seq<char>| self.segment_encoding(s, t@) ==> (r matches Ok(v) && v@ == s),
            (r == Err::<String, BundleError>(BundleError::DecodeAlphabet)) <==> !(forall|j: int|
                0 <= j < encode_utf8(t@).len() ==> is_b58_byte(#[trigger] encode_utf8(t@)[j])),
    {
        let tb = t.as_bytes_vec();
        match self.decode_segment_bytes(tb.as_slice()) {
            Err(e) => {
                proof {
                    assert forall|s: Seq<char>| self.segment_encoding(s, t@) implies false by {
                        assert(tb@ == encode_utf8(t@));
                    }
                }
                Err(e)
            },
            Ok(p) => {
                match utf8_to_string(p) {
                    Some(v) => {
                        proof {
                            assert forall|s: Seq<char>| self.segment_encoding(s, t@) implies v@
                                == s by {
                                assert(tb@ == encode_utf8(t@));
                                lemma_encode_utf8_injective(v@, s);
                            }
                        }
                        Ok(v)
                    },
                    None => {
                        proof {
                            assert forall|s: Seq<char>| self.segment_encoding(s, t@) implies false by {
                                assert(tb@ == encode_utf8(t@));
                                vstd::utf8::encode_utf8_valid_utf8(s);
                            }
                        }
                        Err(BundleError::TextDecode)
                    },
                }
            },
        }
    }

    /// `t` is a well-formed token string for the whole path whose UTF-8
    /// bytes are `pbytes`: backslashes normalized to `/`, each segment
    /// between separators encoded independently, the tokens rejoined with
    /// `/` in original order.
    pub open spec fn path_encoding(self, pbytes: Seq<u8>, t: Seq<char>) -> bool {
        let segs = split_bytes(replace_bytes(pbytes, 92, 47), 47);
        exists|toks: Seq<Seq<u8>>|
            #![trigger join_bytes(toks, 47)]
            toks.len() == segs.len() && (forall|i: int|
                0 <= i < segs.len() ==> self.segment_bytes_encoding(segs[i], #[trigger] toks[i]))
                && encode_utf8(t) == join_bytes(toks, 47)
    }

    /// Under a valid path encoding of `t`, the tokens are exactly the
    /// segments of `t` itself, and the plain segments rejoin to the path.
    proof fn lemma_path_decode_witness(self, p: Seq<char>, t: Seq<char>)
        requires
            self.path_encoding(encode_utf8(p), t),
            replace_bytes(encode_utf8(p), 92, 47) == encode_utf8(p),
        ensures
            ({
                let segs = split_bytes(encode_utf8(p), 47);
                let toks = split_bytes(replace_bytes(encode_utf8(t), 92, 47), 47);
                &&& toks.len() == segs.len()
                &&& forall|i: int|
                    0 <= i < segs.len() ==> self.segment_bytes_encoding(
                        #[trigger] segs[i],
                        toks[i],
                    )
                &&& join_bytes(segs, 47) == encode_utf8(p)
            }),
    {
        let segs = split_bytes(encode_utf8(p), 47);
        let toks_w = choose|toks: Seq<Seq<u8>>|
            #![trigger join_bytes(toks, 47)]
            toks.len() == segs.len() && (forall|i: int|
                0 <= i < segs.len() ==> self.segment_bytes_encoding(segs[i], #[trigger] toks[i]))
                && encode_utf8(t) == join_bytes(toks, 47);
        assert forall|i: int, j: int|
            0 <= i < toks_w.len() && 0 <= j < toks_w[i].len() implies is_b58_byte(
            #[trigger] toks_w[i][j],
        ) by {
            assert(self.segment_bytes_encoding(segs[i], toks_w[i]));
        }
        assert forall|i: int, j: int|
            0 <= i < toks_w.len() && 0 <= j < toks_w[i].len() implies #[trigger] toks_w[i][j]
            != 47 by {
            lemma_b58_byte_facts(toks_w[i][j]);
        }
        crate::paths::lemma_split_len_pos(encode_utf8(p), 47);
        lemma_split_join(toks_w, 47);
        lemma_join_b58_bytes(toks_w, 47);
        let tb = encode_utf8(t);
        assert forall|k: int| 0 <= k < tb.len() implies #[trigger] tb[k] != 92 by {
            assert(join_bytes(toks_w, 47)[k] == 47 || is_b58_byte(join_bytes(toks_w, 47)[k]));
            if is_b58_byte(tb[k]) {
                lemma_b58_byte_facts(tb[k]);
            }
        }
        assert(replace_bytes(tb, 92, 47) =~= tb);
        assert(split_bytes(replace_bytes(tb, 92, 47), 47) == toks_w);
        lemma_join_split(encode_utf8(p), 47);
    }

    /// Encodes a whole path: backslashes become `/`, each segment is
    /// encoded independently, and the tokens are rejoined with `/` in
    /// original order. Never fails; the token path is plain ASCII.
    pub fn try_encode_path(&self, p: &str) -> (r: Result<String, BundleError>)
        ensures
            r matches Ok(t) && self.path_encoding(encode_utf8(p@), t@),
    {
        let bytes = p.as_bytes_vec();
        let replaced = replace_byte(bytes.as_slice(), 92, 47);
        let segs = split_on(replaced.as_slice(), 47);
        let ghost segs_spec = split_bytes(replace_bytes(encode_utf8(p@), 92, 47), 47);
        let mut toks: Vec<Vec<u8>> = Vec::new();
        let n = segs.len();
        let mut k: usize = 0;
        while k < n
            invariant
                k <= n,
                n == segs@.len(),
                segs.deep_view() == segs_spec,
                toks@.len() == k,
                toks.deep_view().len() == k,
                forall|i: int|
                    0 <= i < k ==> self.segment_bytes_encoding(
                        segs_spec[i],
                        #[trigger] toks.deep_view()[i],
                    ),
            decreases n - k,
        {
            let ghost old_toks = toks.deep_view();
            let tok = self.encode_segment_bytes(segs[k].as_slice());
            toks.push(tok);
            proof {
                assert(segs@[k as int]@ == segs_spec[k as int]);
                assert(toks.deep_view() =~~= old_toks.push(toks@[k as int]@));
            }
            k = k + 1;
        }
        let joined = join_with(&toks, 47);
        proof {
            assert forall|i: int, j: int|
                0 <= i < toks.deep_view().len() && 0 <= j < toks.deep_view()[i].len() implies is_b58_byte(
                #[trigger] toks.deep_view()[i][j],
            ) by {
                assert(self.segment_bytes_encoding(segs_spec[i], toks.deep_view()[i]));
            }
            lemma_join_b58_bytes(toks.deep_view(), 47);
            assert forall|i: int| 0 <= i < joined@.len() implies #[trigger] joined@[i] < 128 by {
                assert(joined@[i] == 47 || is_b58_byte(joined@[i]));
                if is_b58_byte(joined@[i]) {
                    lemma_b58_byte_facts(joined@[i]);
                }
            }
            lemma_ascii_valid_utf8(joined@);
        }
        match utf8_to_string(joined) {
            Some(t) => {
                proof {
                    assert(encode_utf8(t@) == join_bytes(toks.deep_view(), 47));
                }
                Ok(t)
            },
            None => {
                proof {
                    assert(false);
                }
                Err(BundleError::TextDecode)
            },
        }
    }

    /// Decodes a whole path: splits the token string on `/`, decodes each
    /// token independently, and rejoins the plain segments with `/` in
    /// original order. Exactly inverts `try_encode_path` for paths without
    /// backslashes (a backslash is normalized away by encoding and comes
    /// back as `/`).
    pub fn try_decode_path(&self, t: &str) -> (r: Result<String, BundleError>)
        ensures
            forall|p: Seq<char>|
                (self.path_encoding(encode_utf8(p), t@) && replace_bytes(encode_utf8(p), 92, 47)
                    == encode_utf8(p)) ==> (r matches Ok(v) && v@ == p),
    {
        let tb = t.as_bytes_vec();
        let replaced = replace_byte(tb.as_slice(), 92, 47);
        let toks = split_on(replaced.as_slice(), 47);
        let ghost toks_spec = split_bytes(replace_bytes(encode_utf8(t@), 92, 47), 47);
        let mut segs: Vec<Vec<u8>> = Vec::new();
        let n = toks.len();
        let mut k: usize = 0;
        while k < n
            invariant
                k <= n,
                n == toks@.len(),
                toks.deep_view() == toks_spec,
                toks_spec == split_bytes(replace_bytes(encode_utf8(t@), 92, 47), 47),
                toks_spec.len() == n,
                segs@.len() == k,
                segs.deep_view().len() == k,
                forall|i: int, pl: Seq<u8>|
                    0 <= i < k && #[trigger] self.segment_bytes_encoding(pl, toks_spec[i])
                        ==> segs.deep_view()[i] == pl,
            decreases n - k,
        {
            let ghost old_segs = segs.deep_view();
            match self.decode_segment_bytes(toks[k].as_slice()) {
                Ok(sv) => {
                    segs.push(sv);
                    proof {
                        assert(toks@[k as int]@ == toks_spec[k as int]);
                        assert(segs.deep_view() =~~= old_segs.push(segs@[k as int]@));
                    }
                },
                Err(e) => {
                    proof {
                        assert forall|p: Seq<char>|
                            (self.path_encoding(encode_utf8(p), t@) && replace_bytes(
                                encode_utf8(p),
                                92,
                                47,
                            ) == encode_utf8(p)) implies false by {
                            self.lemma_path_decode_witness(p, t@);
                            let sp = split_bytes(encode_utf8(p), 47);
                            assert(toks_spec.len() == sp.len());
                            assert(0 <= k < sp.len());
                            assert(self.segment_bytes_encoding(sp[k as int], toks_spec[k as int]));
                            assert(toks@[k as int]@ == toks_spec[k as int]);
                        }
                    }
                    return Err(e);
                },
            }
            k = k + 1;
        }
        proof {
            crate::paths::lemma_split_len_pos(replace_bytes(encode_utf8(t@), 92, 47), 47);
        }
        let joined = join_with(&segs, 47);
        match utf8_to_string(joined) {
            Some(v) => {
                proof {
                    assert forall|p: Seq<char>|
                        (self.path_encoding(encode_utf8(p), t@) && replace_bytes(
                            encode_utf8(p),
                            92,
                            47,
                        ) == encode_utf8(p)) implies v@ == p by {
                        self.lemma_path_decode_witness(p, t@);
                        let sp = split_bytes(encode_utf8(p), 47);
                        assert forall|i: int| 0 <= i < n implies segs.deep_view()[i]
                            == #[trigger] sp[i] by {
                            assert(self.segment_bytes_encoding(sp[i], toks_spec[i]));
                        }
                        assert(segs.deep_view() =~~= sp);
                        assert(encode_utf8(v@) == encode_utf8(p));
                        lemma_encode_utf8_injective(v@, p);
                    }
                }
                Ok(v)
            },
            None => {
                proof {
                    assert forall|p: Seq<char>|
                        (self.path_encoding(encode_utf8(p), t@) && replace_bytes(
                            encode_utf8(p),
                            92,
                            47,
                        ) == encode_utf8(p)) implies false by {
                        self.lemma_path_decode_witness(p, t@);
                        let sp = split_bytes(encode_utf8(p), 47);
                        assert forall|i: int| 0 <= i < n implies segs.deep_view()[i]
                            == #[trigger] sp[i] by {
                            assert(self.segment_bytes_encoding(sp[i], toks_spec[i]));
                        }
                        assert(segs.deep_view() =~~= sp);
                        vstd::utf8::encode_utf8_valid_utf8(p);
                    }
                }
                Err(BundleError::TextDecode)
            },
        }
    }
}

} // verus!
