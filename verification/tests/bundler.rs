use asset_bundle_codec::asset_bundler::AssetBundler;
use asset_bundle_codec::asset_bundling_options::AssetBundlingOptions;
use asset_bundle_codec::errors::BundleError;

#[test]
fn bundler_defaults() {
    let b = AssetBundler::default();
    assert_eq!(b.asset_folder, "assets");
    assert!(!b.options.encryption_on);
    assert!(!b.options.compress_on);
    assert!(!b.options.encode_file_names);
    assert_eq!(b.options.encryption_key, None);
    assert_eq!(b.options.asset_bundle_name, "assets.bin");
}

#[test]
fn bundler_takes_a_custom_folder() {
    let mut b = AssetBundler::default();
    b.with_asset_folder(String::from("content"));
    assert_eq!(b.asset_folder, "content");
}

#[test]
fn bundler_wraps_options() {
    let mut opts = AssetBundlingOptions::default();
    opts.compress_on = true;
    opts.encode_file_names = true;
    let b = AssetBundler::from(opts);
    assert!(b.options.compress_on);
    assert!(b.options.encode_file_names);
    assert_eq!(b.asset_folder, "assets");
}

#[test]
fn bundler_validation_demands_a_key_eagerly() {
    let mut b = AssetBundler::default();
    assert_eq!(b.validate(), Ok(()));
    b.options.encryption_on = true;
    assert_eq!(b.validate(), Err(BundleError::KeyMissing));
    b.options.encryption_key = Some([0u8; 16]);
    assert_eq!(b.validate(), Ok(()));
}

#[test]
fn errors_describe_themselves() {
    assert!(BundleError::Format.message().contains("truncated"));
    assert!(BundleError::KeyMissing.message().contains("key"));
    assert_ne!(BundleError::Backreference.message(), BundleError::DecodeAlphabet.message());
}
