use asset_bundle_codec::asset_bundling_options::AssetBundlingOptions;
use asset_bundle_codec::compress::{compress, compress_into};
use asset_bundle_codec::crypt::{decrypt_ctr, encrypt_ctr, increment_counter};
use asset_bundle_codec::decompress::{decompress, decompress_into};
use asset_bundle_codec::errors::BundleError;
use aes::cipher::{generic_array::GenericArray, BlockEncrypt, KeyInit};

const KEY: [u8; 16] = [1, 2, 3, 4, 5, 6, 7, 8, 9, 10, 11, 12, 13, 14, 15, 16];

fn roundtrip(data: &[u8]) {
    let packed = compress(data);
    let unpacked = decompress(&packed).expect("compressed stream must decode");
    assert_eq!(unpacked, data);
}

#[test]
fn compress_roundtrip_empty() {
    roundtrip(b"");
}

#[test]
fn compress_roundtrip_short() {
    roundtrip(b"a");
    roundtrip(b"ab");
    roundtrip(b"abc");
}

#[test]
fn compress_roundtrip_repetitive() {
    roundtrip(&[7u8; 1000]);
    roundtrip(b"abcabcabcabcabcabcabcabcabcabc");
    let mut v = Vec::new();
    for i in 0..500u32 {
        v.push((i % 7) as u8);
    }
    roundtrip(&v);
}

#[test]
fn compress_roundtrip_pseudo_random() {
    // A fixed linear-congruential byte soup: incompressible but exact.
    let mut x: u64 = 0x2545_f491_4f6c_dd1d;
    let mut v = Vec::new();
    for _ in 0..4096 {
        x = x.wrapping_mul(6364136223846793005).wrapping_add(1442695040888963407);
        v.push((x >> 33) as u8);
    }
    roundtrip(&v);
}

#[test]
fn compress_roundtrip_long_literal_run() {
    // More than 15 literals forces the length continuation bytes.
    let mut v: Vec<u8> = (0u16..300).map(|i| (i % 251) as u8).collect();
    v.extend_from_slice(&[9u8; 64]); // and a long match afterwards
    roundtrip(&v);
}

#[test]
fn compress_empty_yields_single_zero_control_byte() {
    assert_eq!(compress(b""), vec![0x00]);
    assert_eq!(decompress(&[0x00]).unwrap(), Vec::<u8>::new());
}

#[test]
fn compress_repeated_bytes_emits_duplicate_block() {
    // 10 times 'a': one literal, then a back-reference of distance 1 and
    // length 9, then the terminal block.
    let packed = compress(&[b'a'; 10]);
    assert_eq!(packed, vec![0x15, b'a', 1, 0, 0x00]);
    assert!(packed.len() < 10);
}

#[test]
fn compress_into_appends_after_existing_bytes() {
    let mut out = vec![0xAA, 0xBB];
    compress_into(b"hello world hello world", &mut out);
    assert_eq!(&out[..2], &[0xAA, 0xBB]);
    let mut decoded = Vec::new();
    decompress_into(&out[2..], &mut decoded).unwrap();
    assert_eq!(decoded, b"hello world hello world");
}

#[test]
fn decompress_rejects_out_of_range_backreference() {
    // Zero literals, then a distance of 1 with nothing produced yet.
    let stream = [0x00, 0x01, 0x00];
    assert_eq!(decompress(&stream), Err(BundleError::Backreference));
}

#[test]
fn decompress_rejects_truncated_stream() {
    // The control byte promises one literal byte that never comes.
    assert_eq!(decompress(&[0x10]), Err(BundleError::Format));
    // Missing distance byte after the literal section.
    assert_eq!(decompress(&[0x10, b'x', 0x01]), Err(BundleError::Format));
}

#[test]
fn cipher_is_its_own_inverse() {
    for data in [
        &b""[..],
        &b"x"[..],
        &b"0123456789abcdef"[..],
        &[0u8; 33][..],
        &b"a longer message that is not a multiple of sixteen bytes"[..],
    ] {
        let once = encrypt_ctr(&KEY, data);
        assert_eq!(once.len(), data.len());
        let twice = encrypt_ctr(&KEY, &once);
        assert_eq!(twice, data);
        assert_eq!(decrypt_ctr(&KEY, &once), data);
    }
}

#[test]
fn cipher_matches_direct_aes_ctr() {
    // Recompute the first keystream block with the aes crate directly.
    let iv: [u8; 16] = [57, 206, 202, 7, 215, 17, 43, 219, 131, 171, 7, 214, 85, 12, 129, 176];
    let cipher = aes::Aes128::new(GenericArray::from_slice(&KEY));
    let mut block = GenericArray::clone_from_slice(&iv);
    cipher.encrypt_block(&mut block);
    let plain = [0u8; 16];
    let ours = encrypt_ctr(&KEY, &plain);
    assert_eq!(ours.as_slice(), block.as_slice());
    assert_ne!(ours.as_slice(), &iv[..]);
}

#[test]
fn counter_increments_big_endian_with_carry() {
    let mut c = vec![0, 0, 0, 255];
    increment_counter(&mut c);
    assert_eq!(c, vec![0, 0, 1, 0]);
    let mut c = vec![255, 255];
    increment_counter(&mut c);
    assert_eq!(c, vec![0, 0]);
    let mut c = vec![1, 2, 3];
    increment_counter(&mut c);
    assert_eq!(c, vec![1, 2, 4]);
}

fn all_option_combos() -> Vec<AssetBundlingOptions> {
    let mut combos = Vec::new();
    for &compress_on in &[false, true] {
        for &encrypt in &[false, true] {
            let mut opts = AssetBundlingOptions::default();
            opts.compress_on = compress_on;
            if encrypt {
                opts.set_encryption_key(KEY);
            }
            combos.push(opts);
        }
    }
    combos
}

#[test]
fn payload_roundtrips_under_every_combo() {
    for opts in all_option_combos() {
        for data in [&b""[..], &b"tiny"[..], &[42u8; 500][..]] {
            let stored = opts.encode_payload(data);
            let back = opts.decode_payload(&stored).expect("stored payload must decode");
            assert_eq!(back, data);
        }
    }
}

#[test]
fn payload_passes_through_unchanged_without_encryption() {
    // compress=true alone is a silent no-op: the documented asymmetry.
    let mut opts = AssetBundlingOptions::default();
    opts.compress_on = true;
    let data = b"this would compress well well well well well";
    assert_eq!(opts.encode_payload(data), data);
    assert_eq!(opts.decode_payload(data).unwrap(), data);
    assert_eq!(opts.try_encrypt(data), None);
    assert_eq!(opts.try_decrypt(data), None);
}

#[test]
fn try_encrypt_and_try_decrypt_invert_when_ready() {
    let mut opts = AssetBundlingOptions::default();
    opts.set_encryption_key(KEY);
    assert!(opts.is_encryption_ready());
    let data = b"some payload";
    let enc = opts.try_encrypt(data).expect("ready");
    assert_ne!(enc.as_slice(), &data[..]);
    let dec = opts.try_decrypt(&enc).expect("ready");
    assert_eq!(dec, data);
}

#[test]
fn encryption_needs_both_flag_and_key() {
    let mut opts = AssetBundlingOptions::default();
    assert!(!opts.is_encryption_ready());
    opts.encryption_on = true;
    assert!(!opts.is_encryption_ready());
    assert_eq!(opts.validate_encryption(), Err(BundleError::KeyMissing));
    opts.encryption_key = Some(KEY);
    assert!(opts.is_encryption_ready());
    assert_eq!(opts.validate_encryption(), Ok(()));
}

#[test]
fn segment_roundtrips_under_every_combo() {
    for opts in all_option_combos() {
        for s in ["", "plain", "w ith spa ces", "ünïcodé → 🚀 ノ", "0OIl not in alphabet"] {
            let token = opts.try_encode_string(s).unwrap();
            let back = opts.try_decode_string(&token).unwrap();
            assert_eq!(back, s);
        }
    }
}

#[test]
fn plain_segment_token_is_direct_base58() {
    // Without encryption the token is exactly the base-58 of the UTF-8
    // bytes, which pins the wrapper against handing its input back.
    let opts = AssetBundlingOptions::default();
    let token = opts.try_encode_string("hello").unwrap();
    assert_eq!(token, bs58::encode(b"hello").into_string());
    assert_ne!(token, "hello");
}

#[test]
fn token_with_character_outside_alphabet_is_rejected() {
    for opts in all_option_combos() {
        assert_eq!(opts.try_decode_string("0"), Err(BundleError::DecodeAlphabet));
        assert_eq!(opts.try_decode_string("ab!cd"), Err(BundleError::DecodeAlphabet));
        assert_eq!(opts.try_decode_string("xIx"), Err(BundleError::DecodeAlphabet));
    }
}

#[test]
fn token_decoding_to_invalid_utf8_is_rejected() {
    // 0xFF alone is never valid UTF-8; without encryption the decoded
    // segment bytes are exactly the base-58 payload.
    let opts = AssetBundlingOptions::default();
    let token = bs58::encode(&[0xFFu8]).into_string();
    assert_eq!(opts.try_decode_string(&token), Err(BundleError::TextDecode));
}

#[test]
fn path_roundtrips_with_three_segments_in_order() {
    for opts in all_option_combos() {
        let encoded = opts.try_encode_path("a/b/c").unwrap();
        assert_eq!(encoded.matches('/').count(), 2);
        let decoded = opts.try_decode_path(&encoded).unwrap();
        assert_eq!(decoded, "a/b/c");
        let segments: Vec<&str> = decoded.split('/').collect();
        assert_eq!(segments, vec!["a", "b", "c"]);
    }
}

#[test]
fn path_backslashes_are_normalized_to_slashes() {
    let opts = AssetBundlingOptions::default();
    let encoded = opts.try_encode_path("a\\b/c").unwrap();
    assert_eq!(opts.try_decode_path(&encoded).unwrap(), "a/b/c");
}

#[test]
fn decompress_into_backreference_reaches_prior_output() {
    // Zero literals, distance 2, match length 4: the copy feeds on bytes
    // that were in the output before this call and on its own output.
    let mut out = b"ab".to_vec();
    decompress_into(&[0x00, 0x02, 0x00], &mut out).unwrap();
    assert_eq!(out, b"ababab");
}
