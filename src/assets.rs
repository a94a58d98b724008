//! Importing a file into the vault as an asset.
use vstd::prelude::*;

verus! {

/// Where an imported asset comes from: a file on disk, or bytes with a file name.
#[derive(Debug, Clone, PartialEq, Eq)]
pub enum AssetSource {
    Path { path: String },
    Bytes { bytes: Vec<u8>, file_name: String },
}

#[derive(Debug, Clone, PartialEq, Eq)]
pub struct ImportAssetArgs {
    pub vault_id: String,
    pub target_path: String,
    pub source: AssetSource,
}

} // verus!
