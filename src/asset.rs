use vstd::prelude::*;

verus! {

/// A still image stored in a container: an id, its size in pixels and its
/// compressed bytes.
#[derive(Debug, Clone)]
pub struct Asset {
    pub id: u32,
    pub width: u32,
    pub height: u32,
    pub data: Vec<u8>,
}

/// What an [`Asset`] holds, as mathematical values.
pub struct AssetModel {
    pub id: u32,
    pub width: u32,
    pub height: u32,
    pub data: Seq<u8>,
}

impl View for Asset {
    type V = AssetModel;

    open spec fn view(&self) -> AssetModel {
        AssetModel { id: self.id, width: self.width, height: self.height, data: self.data@ }
    }
}

impl Asset {
    pub fn new(id: u32, width: u32, height: u32, data: Vec<u8>) -> (r: Self)
        ensures
            r@ == (AssetModel { id, width, height, data: data@ }),
    {
        Asset { id, width, height, data }
    }

    /// Size of the compressed bytes.
    pub fn data_size(&self) -> (r: usize)
        ensures
            r == self.data@.len(),
    {
        self.data.len()
    }
}

} // verus!
