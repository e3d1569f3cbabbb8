use blob_renderer::keys::{BlobImageRequest, FontKey, IdNamespace, ImageKey, TileOffset};

#[test]
fn image_key_code_has_the_namespace_in_the_high_half() {
    assert_eq!(ImageKey::new(IdNamespace(0), 0).code(), 0);
    assert_eq!(ImageKey::new(IdNamespace(0), 5).code(), 5);
    assert_eq!(ImageKey::new(IdNamespace(1), 0).code(), 0x1_0000_0000);
    assert_eq!(ImageKey::new(IdNamespace(3), 7).code(), 0x3_0000_0007);
    assert_eq!(ImageKey::new(IdNamespace(u32::MAX), u32::MAX).code(), u64::MAX);
}

#[test]
fn request_code_has_the_tile_below_the_image() {
    let key = ImageKey::new(IdNamespace(0), 1);
    assert_eq!(BlobImageRequest { key, tile: None }.code(), 0x2_0000_0000);
    assert_eq!(
        BlobImageRequest { key, tile: Some(TileOffset::new(0, 0)) }.code(),
        0x2_0000_0001
    );
    assert_eq!(
        BlobImageRequest { key, tile: Some(TileOffset::new(2, 3)) }.code(),
        0x2_0002_0004
    );
    assert_eq!(
        BlobImageRequest { key, tile: Some(TileOffset::new(u16::MAX, u16::MAX)) }.code(),
        0x3_0000_0000
    );
    let key = ImageKey::new(IdNamespace(u32::MAX), u32::MAX);
    assert_eq!(
        BlobImageRequest { key, tile: Some(TileOffset::new(u16::MAX, u16::MAX)) }.code(),
        0xffff_ffff_ffff_ffffu128 * 0x2_0000_0000 + 0x1_0000_0000
    );
}

#[test]
fn request_codes_tell_requests_apart() {
    let a = ImageKey::new(IdNamespace(1), 2);
    let b = ImageKey::new(IdNamespace(2), 1);
    let requests = [
        BlobImageRequest { key: a, tile: None },
        BlobImageRequest { key: a, tile: Some(TileOffset::new(0, 0)) },
        BlobImageRequest { key: a, tile: Some(TileOffset::new(0, 1)) },
        BlobImageRequest { key: a, tile: Some(TileOffset::new(1, 0)) },
        BlobImageRequest { key: b, tile: None },
        BlobImageRequest { key: b, tile: Some(TileOffset::new(0, 0)) },
    ];
    for (i, x) in requests.iter().enumerate() {
        for (j, y) in requests.iter().enumerate() {
            assert_eq!(x.code() == y.code(), i == j);
            assert_eq!(x.same_as(y), i == j);
            assert_eq!(x == y, i == j);
        }
    }
}

#[test]
fn keys_are_made_of_their_parts() {
    assert_eq!(FontKey::new(IdNamespace(4), 5), FontKey(IdNamespace(4), 5));
    assert_eq!(ImageKey::new(IdNamespace(4), 5), ImageKey(IdNamespace(4), 5));
    assert_eq!(TileOffset::new(4, 5), TileOffset { x: 4, y: 5 });
}
