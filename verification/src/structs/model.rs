//! Model data of a record.
use vstd::prelude::*;

use super::shared::RawString;

verus! {

/// The model a record uses: its path, its texture data and its alternate textures.
#[derive(Debug)]
pub struct ModelData {
    pub path: RawString,
    pub texture_data: ModelTextureData,
    pub alternate_textures: [u8; 1],
}

/// The texture data of a model; nothing of it is read.
#[derive(Debug)]
pub struct ModelTextureData {}

} // verus!
