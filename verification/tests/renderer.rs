use std::sync::Arc;

use blob_renderer::buffer::{create_index_reader, BufWriter};
use blob_renderer::geometry::{Box2d, DeviceUintPoint, DeviceUintRect, DeviceUintSize};
use blob_renderer::keys::{BlobImageRequest, FontKey, IdNamespace, ImageKey, TileOffset};
use blob_renderer::merge::MergeError;
use blob_renderer::renderer::{
    BlobImageDescriptor, BlobImageError, BlobImageResult, ImageFormat, Moz2dImageRenderer,
    RasterizedBlobImage, RenderJob, RequestError, UpdateError,
};

fn bx(x1: u32, y1: u32, x2: u32, y2: u32) -> Box2d {
    Box2d { x1, y1, x2, y2 }
}

fn rect(x: u32, y: u32, w: u32, h: u32) -> DeviceUintRect {
    DeviceUintRect::new(DeviceUintPoint::new(x, y), DeviceUintSize::new(w, h))
}

/// Appends an entry with the payload `payload` that lists the fonts `keys`.
fn entry(w: &mut BufWriter, bounds: Box2d, payload: &[u8], keys: &[u32]) {
    let mut data = payload.to_vec();
    data.extend_from_slice(&(keys.len() as u64).to_le_bytes());
    for key in keys {
        data.extend_from_slice(&1u32.to_le_bytes());
        data.extend_from_slice(&key.to_le_bytes());
    }
    w.new_entry(8 + 8 * keys.len(), bounds, &data);
}

/// The bounds and the payloads of the entries of `buf`.
fn payloads(buf: &[u8]) -> Vec<(Box2d, Vec<u8>)> {
    let mut index = create_index_reader(buf);
    let mut out = Vec::new();
    let mut begin = 0;
    while index.pos < index.buf.len() {
        let (end, extra_end, bounds) = index.read_entry();
        out.push((bounds, buf[begin..end].to_vec()));
        begin = extra_end;
    }
    out
}

fn image(index: u32) -> ImageKey {
    ImageKey::new(IdNamespace(1), index)
}

fn whole(index: u32) -> BlobImageRequest {
    BlobImageRequest { key: image(index), tile: None }
}

fn descriptor() -> BlobImageDescriptor {
    BlobImageDescriptor { width: 4, height: 2, format: ImageFormat::BGRA8 }
}

fn pixels(byte: u8) -> BlobImageResult {
    Ok(RasterizedBlobImage { width: 4, height: 2, data: vec![byte; 32] })
}

fn one_entry() -> Vec<u8> {
    let mut w = BufWriter::new();
    entry(&mut w, bx(0, 0, 5, 5), &[1, 2, 3], &[7]);
    w.finish()
}

#[test]
fn request_hands_out_the_stored_commands() {
    let mut r = Moz2dImageRenderer::new();
    let mut w = BufWriter::new();
    entry(&mut w, bx(0, 0, 5, 5), &[1, 2, 3], &[7, 8]);
    entry(&mut w, bx(0, 0, 5, 5), &[], &[]);
    entry(&mut w, bx(0, 0, 5, 5), &[4], &[7]);
    let commands = w.finish();
    r.add(image(1), commands.clone(), Some(256));
    let job = r.request(whole(1), &descriptor(), None);
    assert_eq!(job.request, whole(1));
    assert_eq!(job.descriptor, descriptor());
    assert_eq!(*job.commands, commands);
    assert_eq!(job.tile_size, Some(256));
    assert_eq!(
        job.fonts,
        vec![FontKey(IdNamespace(1), 7), FontKey(IdNamespace(1), 8), FontKey(IdNamespace(1), 7)]
    );
}

#[test]
fn request_shares_the_commands_with_the_store() {
    let mut r = Moz2dImageRenderer::new();
    r.add(image(1), one_entry(), None);
    let first = r.request(whole(1), &descriptor(), None);
    assert_eq!(Arc::strong_count(&first.commands), 2);
    let tile = BlobImageRequest { key: image(1), tile: Some(TileOffset::new(0, 1)) };
    let second = r.request(tile, &descriptor(), Some(rect(0, 0, 1, 1)));
    assert_eq!(second.request, tile);
    assert!(Arc::ptr_eq(&first.commands, &second.commands));
    assert_eq!(Arc::strong_count(&first.commands), 3);
}

#[test]
fn add_replaces_what_was_stored() {
    let mut r = Moz2dImageRenderer::new();
    r.add(image(1), one_entry(), Some(16));
    let mut w = BufWriter::new();
    entry(&mut w, bx(1, 1, 2, 2), &[9], &[]);
    let other = w.finish();
    r.add(image(1), other.clone(), None);
    let job = r.request(whole(1), &descriptor(), None);
    assert_eq!(*job.commands, other);
    assert_eq!(job.tile_size, None);
}

#[test]
fn request_is_refused_without_the_image() {
    let mut r = Moz2dImageRenderer::new();
    r.add(image(1), one_entry(), None);
    let refused = r.try_request(whole(2), &descriptor(), None);
    assert_eq!(refused.err(), Some(RequestError::MissingImageKey));
    // nothing was recorded
    assert_eq!(r.resolve(whole(2)), Some(Err(BlobImageError::InvalidKey)));
}

#[test]
fn request_is_refused_twice() {
    let mut r = Moz2dImageRenderer::new();
    r.add(image(1), one_entry(), None);
    assert!(r.try_request(whole(1), &descriptor(), None).is_ok());
    let refused = r.try_request(whole(1), &descriptor(), None);
    assert_eq!(refused.err(), Some(RequestError::AlreadyRequested));
    // also once the result has come in and waits to be resolved
    assert_eq!(r.receive(whole(9), whole(1), pixels(1)), None);
    let refused = r.try_request(whole(1), &descriptor(), None);
    assert_eq!(refused.err(), Some(RequestError::AlreadyRequested));
    // the request is still on record, with its result
    assert_eq!(r.resolve(whole(1)), Some(pixels(1)));
    // and can be issued again once it is resolved
    assert!(r.try_request(whole(1), &descriptor(), None).is_ok());
}

#[test]
fn request_is_refused_for_malformed_commands() {
    let mut r = Moz2dImageRenderer::new();
    r.add(image(1), vec![1, 2, 3], None);
    let mut w = BufWriter::new();
    w.new_entry(0, bx(0, 0, 1, 1), &[1, 2, 3, 4]);
    r.add(image(2), w.finish(), None);
    for index in [1, 2] {
        let refused = r.try_request(whole(index), &descriptor(), None);
        assert_eq!(refused.err(), Some(RequestError::MalformedCommands));
        assert_eq!(r.resolve(whole(index)), Some(Err(BlobImageError::InvalidKey)));
    }
}

#[test]
fn update_merges_into_the_stored_commands() {
    let mut r = Moz2dImageRenderer::new();
    let mut w = BufWriter::new();
    entry(&mut w, bx(0, 0, 5, 5), &[1], &[]);
    entry(&mut w, bx(12, 12, 14, 14), &[2], &[]);
    entry(&mut w, bx(50, 50, 60, 60), &[3], &[]);
    r.add(image(1), w.finish(), Some(64));
    let mut w = BufWriter::new();
    entry(&mut w, bx(11, 11, 12, 12), &[4, 4], &[5]);
    r.update(image(1), w.finish(), Some(rect(10, 10, 10, 10)));
    let job = r.request(whole(1), &descriptor(), None);
    assert_eq!(
        payloads(&job.commands),
        vec![
            (bx(0, 0, 5, 5), vec![1]),
            (bx(50, 50, 60, 60), vec![3]),
            (bx(11, 11, 12, 12), vec![4, 4]),
        ]
    );
    assert_eq!(job.tile_size, Some(64));
    assert_eq!(job.fonts, vec![FontKey(IdNamespace(1), 5)]);
}

#[test]
fn update_leaves_a_job_its_commands() {
    let mut r = Moz2dImageRenderer::new();
    let before = one_entry();
    r.add(image(1), before.clone(), None);
    let job = r.request(whole(1), &descriptor(), None);
    let mut w = BufWriter::new();
    entry(&mut w, bx(11, 11, 12, 12), &[4, 4], &[]);
    assert_eq!(r.try_update(image(1), w.finish(), Some(rect(10, 10, 10, 10))), Ok(()));
    assert_eq!(*job.commands, before);
    assert_eq!(Arc::strong_count(&job.commands), 1);
}

#[test]
fn update_is_refused_without_the_image() {
    let mut r = Moz2dImageRenderer::new();
    r.add(image(1), one_entry(), None);
    assert_eq!(
        r.try_update(image(2), one_entry(), Some(rect(10, 10, 10, 10))),
        Err(UpdateError::MissingImageKey)
    );
    assert_eq!(r.try_update(image(2), one_entry(), None), Err(UpdateError::MissingImageKey));
}

#[test]
fn update_is_refused_without_a_dirty_rectangle() {
    let mut r = Moz2dImageRenderer::new();
    r.add(image(1), one_entry(), None);
    assert_eq!(r.try_update(image(1), one_entry(), None), Err(UpdateError::MissingDirtyRect));
}

#[test]
fn update_that_does_not_merge_leaves_the_store_as_it_is() {
    let mut r = Moz2dImageRenderer::new();
    let stored = one_entry();
    r.add(image(1), stored.clone(), None);
    let empty = BufWriter::new().finish();
    // the one entry lies inside the dirty rectangle: nothing would be left
    assert_eq!(
        r.try_update(image(1), empty.clone(), Some(rect(0, 0, 10, 10))),
        Err(UpdateError::Merge(MergeError::EmptyResult))
    );
    assert_eq!(
        r.try_update(image(1), vec![0; 3], Some(rect(0, 0, 10, 10))),
        Err(UpdateError::Merge(MergeError::MalformedBuffer))
    );
    assert_eq!(
        r.try_update(image(1), empty, Some(rect(1, u32::MAX, 1, 1))),
        Err(UpdateError::Merge(MergeError::DirtyRectOverflow))
    );
    let mut w = BufWriter::new();
    entry(&mut w, bx(50, 50, 60, 60), &[4], &[]);
    assert_eq!(
        r.try_update(image(1), w.finish(), Some(rect(20, 20, 10, 10))),
        Err(UpdateError::Merge(MergeError::UncontainedItemLeft))
    );
    let job = r.request(whole(1), &descriptor(), None);
    assert_eq!(*job.commands, stored);
}

#[test]
fn delete_forgets_the_image() {
    let mut r = Moz2dImageRenderer::new();
    r.add(image(1), one_entry(), None);
    r.add(image(2), one_entry(), None);
    r.delete(image(1));
    assert_eq!(
        r.try_request(whole(1), &descriptor(), None).err(),
        Some(RequestError::MissingImageKey)
    );
    assert!(r.try_request(whole(2), &descriptor(), None).is_ok());
    // deleting what is not there does nothing
    r.delete(image(1));
    r.delete(image(3));
    assert_eq!(
        r.try_update(image(1), one_entry(), Some(rect(0, 0, 1, 1))),
        Err(UpdateError::MissingImageKey)
    );
}

#[test]
fn invalid_resolve_never_waits() {
    let mut r = Moz2dImageRenderer::new();
    assert_eq!(r.resolve(whole(1)), Some(Err(BlobImageError::InvalidKey)));
    r.add(image(1), one_entry(), None);
    assert_eq!(r.resolve(whole(1)), Some(Err(BlobImageError::InvalidKey)));
    r.request(whole(1), &descriptor(), None);
    let tile = BlobImageRequest { key: image(1), tile: Some(TileOffset::new(0, 0)) };
    assert_eq!(r.resolve(tile), Some(Err(BlobImageError::InvalidKey)));
}

#[test]
fn resolve_waits_for_a_pending_request() {
    let mut r = Moz2dImageRenderer::new();
    r.add(image(1), one_entry(), None);
    r.request(whole(1), &descriptor(), None);
    assert_eq!(r.resolve(whole(1)), None);
    assert_eq!(r.resolve(whole(1)), None);
    assert_eq!(r.receive(whole(1), whole(1), pixels(7)), Some(pixels(7)));
    // resolved: the request is off the record
    assert_eq!(r.resolve(whole(1)), Some(Err(BlobImageError::InvalidKey)));
}

#[test]
fn results_that_come_in_out_of_order_are_kept() {
    let mut r = Moz2dImageRenderer::new();
    r.add(image(1), one_entry(), None);
    r.add(image(2), one_entry(), None);
    r.request(whole(1), &descriptor(), None);
    r.request(whole(2), &descriptor(), None);
    // the second is asked for first, the first comes in first
    assert_eq!(r.resolve(whole(2)), None);
    assert_eq!(r.receive(whole(2), whole(1), pixels(1)), None);
    assert_eq!(r.receive(whole(2), whole(2), pixels(2)), Some(pixels(2)));
    assert_eq!(r.resolve(whole(1)), Some(pixels(1)));
    assert_eq!(r.resolve(whole(1)), Some(Err(BlobImageError::InvalidKey)));
    assert_eq!(r.resolve(whole(2)), Some(Err(BlobImageError::InvalidKey)));
}

#[test]
fn a_failed_rasterization_is_kept_like_any_result() {
    let mut r = Moz2dImageRenderer::new();
    r.add(image(1), one_entry(), None);
    r.request(whole(1), &descriptor(), None);
    r.request(BlobImageRequest { key: image(1), tile: Some(TileOffset::new(1, 1)) }, &descriptor(), None);
    let failed: BlobImageResult = Err(BlobImageError::Other("Unknown error".to_string()));
    let tile = BlobImageRequest { key: image(1), tile: Some(TileOffset::new(1, 1)) };
    assert_eq!(r.receive(tile, whole(1), failed.clone()), None);
    assert_eq!(r.receive(tile, tile, pixels(3)), Some(pixels(3)));
    assert_eq!(r.resolve(whole(1)), Some(failed));
}

#[test]
fn a_closed_channel_is_an_error() {
    assert_eq!(
        Moz2dImageRenderer::channel_closed(),
        Err(BlobImageError::Other("Channel closed".to_string()))
    );
}

#[test]
fn output_len_is_width_by_height_by_bytes_per_pixel() {
    let formats = [
        (ImageFormat::R8, 1),
        (ImageFormat::R16, 2),
        (ImageFormat::BGRA8, 4),
        (ImageFormat::RGBAF32, 16),
        (ImageFormat::RG8, 2),
        (ImageFormat::RG16, 4),
        (ImageFormat::RGBAI32, 16),
        (ImageFormat::RGBA8, 4),
    ];
    for (format, bytes_per_pixel) in formats {
        let d = BlobImageDescriptor { width: 3, height: 5, format };
        assert_eq!(d.output_len(), Some(15 * bytes_per_pixel));
    }
    let d = BlobImageDescriptor { width: 0, height: 5, format: ImageFormat::BGRA8 };
    assert_eq!(d.output_len(), Some(0));
    let d = BlobImageDescriptor { width: 1024, height: 768, format: ImageFormat::BGRA8 };
    assert_eq!(d.output_len(), Some(3145728));
}

#[test]
fn output_len_stops_at_thirty_two_bits() {
    let d = BlobImageDescriptor { width: 65535, height: 65537, format: ImageFormat::R8 };
    assert_eq!(d.output_len(), Some(4294967295));
    let d = BlobImageDescriptor { width: 65536, height: 65536, format: ImageFormat::R8 };
    assert_eq!(d.output_len(), None);
    let d = BlobImageDescriptor { width: 32768, height: 32768, format: ImageFormat::BGRA8 };
    assert_eq!(d.output_len(), None);
    let d = BlobImageDescriptor { width: 32768, height: 32767, format: ImageFormat::BGRA8 };
    assert_eq!(d.output_len(), Some(4294836224));
    let d = BlobImageDescriptor { width: u32::MAX, height: u32::MAX, format: ImageFormat::RGBAF32 };
    assert_eq!(d.output_len(), None);
}

fn job(descriptor: BlobImageDescriptor) -> RenderJob {
    let mut r = Moz2dImageRenderer::new();
    r.add(image(1), one_entry(), None);
    r.request(whole(1), &descriptor, None)
}

#[test]
fn output_buffer_is_zeroed() {
    assert_eq!(job(descriptor()).output_buffer(), Some(vec![0u8; 32]));
    let none = BlobImageDescriptor { width: 65536, height: 65536, format: ImageFormat::R8 };
    assert_eq!(job(none).output_buffer(), None);
}

#[test]
fn finish_reports_the_outcome_of_the_job() {
    let done = job(descriptor()).finish(true, vec![5; 32]);
    assert_eq!(done, (whole(1), pixels(5)));
    let failed = job(descriptor()).finish(false, vec![5; 32]);
    assert_eq!(
        failed,
        (whole(1), Err(BlobImageError::Other("Unknown error".to_string())))
    );
}
