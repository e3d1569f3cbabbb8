//! The keys under which blob images, fonts and rasterization requests go.

use vstd::prelude::*;

verus! {

/// The namespace that a client's keys live in.
#[derive(Clone, Copy, Debug, PartialEq, Eq, Hash, Structural)]
pub struct IdNamespace(pub u32);

/// Names one blob image.
#[derive(Clone, Copy, Debug, PartialEq, Eq, Hash, Structural)]
pub struct ImageKey(pub IdNamespace, pub u32);

/// Names one font.
#[derive(Clone, Copy, Debug, PartialEq, Eq, Hash, Structural)]
pub struct FontKey(pub IdNamespace, pub u32);

/// The edge length of a tile, in device units.
pub type TileSize = u16;

/// The position of a tile in the grid of tiles of an image.
#[derive(Clone, Copy, Debug, PartialEq, Eq, Hash, Structural)]
pub struct TileOffset {
    pub x: u16,
    pub y: u16,
}

/// Names one rasterization: an image and, where it is tiled, one of its tiles.
#[derive(Clone, Copy, Debug, PartialEq, Eq, Hash)]
pub struct BlobImageRequest {
    pub key: ImageKey,
    pub tile: Option<TileOffset>,
}

impl ImageKey {
    pub fn new(namespace: IdNamespace, key: u32) -> (k: ImageKey)
        ensures
            k == ImageKey(namespace, key),
    {
        ImageKey(namespace, key)
    }

    /// The key as one integer: the namespace in the high half, the index in
    /// the low half.
    pub open spec fn spec_code(&self) -> u64 {
        (self.0.0 as u64 * 0x1_0000_0000 + self.1 as u64) as u64
    }

    /// The key as one integer, under which the store files the image.
    #[verifier::when_used_as_spec(spec_code)]
    pub fn code(&self) -> (c: u64)
        ensures
            c == self.spec_code(),
    {
        self.0.0 as u64 * 0x1_0000_0000 + self.1 as u64
    }

    /// Different keys have different codes.
    pub proof fn lemma_code_injective(a: ImageKey, b: ImageKey)
        ensures
            a.spec_code() == b.spec_code() <==> a == b,
    {
    }
}

impl FontKey {
    pub fn new(namespace: IdNamespace, key: u32) -> (k: FontKey)
        ensures
            k == FontKey(namespace, key),
    {
        FontKey(namespace, key)
    }
}

impl TileOffset {
    pub fn new(x: u16, y: u16) -> (t: TileOffset)
        ensures
            t == (TileOffset { x, y }),
    {
        TileOffset { x, y }
    }
}

/// The tile of a request as one integer: zero for an untiled image, else one
/// more than the tile's position in row-major order over the whole grid.
pub open spec fn tile_code(tile: Option<TileOffset>) -> u64 {
    match tile {
        None => 0,
        Some(t) => (1 + t.x as u64 * 0x1_0000 + t.y as u64) as u64,
    }
}

impl BlobImageRequest {
    /// The request as one integer: the image's code above the tile's code.
    pub open spec fn spec_code(&self) -> u128 {
        (self.key.spec_code() as u128 * 0x2_0000_0000 + tile_code(self.tile) as u128) as u128
    }

    /// The request as one integer, under which its record is filed.
    #[verifier::when_used_as_spec(spec_code)]
    pub fn code(&self) -> (c: u128)
        ensures
            c == self.spec_code(),
    {
        let tile: u64 = match self.tile {
            None => 0,
            Some(t) => 1 + t.x as u64 * 0x1_0000 + t.y as u64,
        };
        self.key.code() as u128 * 0x2_0000_0000 + tile as u128
    }

    /// Different requests have different codes.
    pub proof fn lemma_code_injective(a: BlobImageRequest, b: BlobImageRequest)
        ensures
            a.spec_code() == b.spec_code() <==> a == b,
    {
        ImageKey::lemma_code_injective(a.key, b.key);
        if a.spec_code() == b.spec_code() {
            assert(tile_code(a.tile) < 0x2_0000_0000);
            assert(tile_code(b.tile) < 0x2_0000_0000);
            assert(a.key.spec_code() == b.key.spec_code());
            assert(tile_code(a.tile) == tile_code(b.tile));
            assert(a.tile == b.tile);
        }
    }

    /// Whether `self` and `other` name the same rasterization.
    pub fn same_as(&self, other: &BlobImageRequest) -> (r: bool)
        ensures
            r == (*self == *other),
    {
        proof {
            Self::lemma_code_injective(*self, *other);
        }
        self.code() == other.code()
    }
}

} // verus!
