//! The bundling configuration: which folder to bundle and under which
//! options. Walking the folder and writing the archive container are the
//! caller's concern; the bundler only holds the settings and the eager
//! configuration check.

use vstd::prelude::*;

use crate::asset_bundling_options::AssetBundlingOptions;
use crate::errors::BundleError;

verus! {

/// Settings for building one bundle: the source folder and the codec
/// options.
pub struct AssetBundler {
    pub options: AssetBundlingOptions,
    pub asset_folder: String,
}

impl Default for AssetBundler {
    fn default() -> (r: Self)
        ensures
            !r.options.encryption_ready(),
            !r.options.compress_on,
            !r.options.encode_file_names,
            r.asset_folder@ == "assets"@,
    {
        AssetBundler { options: AssetBundlingOptions::default(), asset_folder: "assets".to_owned() }
    }
}

impl From<AssetBundlingOptions> for AssetBundler {
    /// Wraps the options with the conventional source folder.
    fn from(options: AssetBundlingOptions) -> (r: Self)
        ensures
            r.asset_folder@ == "assets"@,
    {
        AssetBundler { options, asset_folder: "assets".to_owned() }
    }
}

impl vstd::std_specs::convert::FromSpecImpl<AssetBundlingOptions> for AssetBundler {
    open spec fn obeys_from_spec() -> bool {
        false
    }

    open spec fn from_spec(options: AssetBundlingOptions) -> AssetBundler {
        vstd::pervasive::arbitrary()
    }
}

/// Sets the folder whose files the bundle will hold.
impl AssetBundler {
    pub fn with_asset_folder(&mut self, path: String)
        ensures
            final(self).asset_folder == path,
            final(self).options == old(self).options,
    {
        self.asset_folder = path;
    }

    /// The eager check made before any bundling work: encryption requested
    /// without a key aborts the whole operation with `KeyMissing` before a
    /// single file is touched.
    pub fn validate(&self) -> (r: Result<(), BundleError>)
        ensures
            r is Ok <==> !(self.options.encryption_on && self.options.encryption_key is None),
            r is Err ==> r == Err::<(), BundleError>(BundleError::KeyMissing),
    {
        self.options.validate_encryption()
    }
}

} // verus!
