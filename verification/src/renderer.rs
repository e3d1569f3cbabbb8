//! The store of blob images and the record of their rasterization requests.
//!
//! The store keeps one command buffer per image key. A request for a
//! rasterization is recorded as pending, handed out as a job, and resolved
//! when its result has come in; results that come in for other requests
//! while one is awaited are kept until they are asked for.

use std::collections::HashMap;
use std::sync::Arc;
use vstd::prelude::*;
use vstd::pervasive::unreached;
use crate::buffer::{buffer_entries, canonical_buffer, encoded, Entry};
use crate::fonts::{buffer_fonts, fonts_ok, referenced_fonts};
use crate::geometry::DeviceUintRect;
use crate::keys::{BlobImageRequest, FontKey, ImageKey, TileSize};
use crate::merge::{merge_outcome, try_merge_blob_images, MergeError};

verus! {

/// The serialized drawing commands of a blob image.
pub type BlobImageData = Vec<u8>;

/// The pixels of a rasterized blob image.
#[derive(Clone, Debug, PartialEq, Eq)]
pub struct RasterizedBlobImage {
    pub width: u32,
    pub height: u32,
    pub data: Vec<u8>,
}

/// Why a rasterization gave no pixels.
#[derive(Clone, Debug, PartialEq, Eq)]
pub enum BlobImageError {
    Oom,
    InvalidKey,
    InvalidData,
    Other(String),
}

/// What a rasterization gave.
pub type BlobImageResult = Result<RasterizedBlobImage, BlobImageError>;

/// The format of a series of pixels, in driver terms.
#[derive(Clone, Copy, Debug, PartialEq, Eq, Structural)]
pub enum ImageFormat {
    /// One channel, byte storage.
    R8,
    /// One channel, short storage.
    R16,
    /// Four channels, byte storage.
    BGRA8,
    /// Four channels, float storage.
    RGBAF32,
    /// Two channels, byte storage.
    RG8,
    /// Two channels, short storage.
    RG16,
    /// Four channels, signed integer storage.
    RGBAI32,
    /// Four channels, byte storage.
    RGBA8,
}

/// The size of the image to rasterize and the format of its pixels.
#[derive(Clone, Copy, Debug, PartialEq, Eq, Structural)]
pub struct BlobImageDescriptor {
    pub width: u32,
    pub height: u32,
    pub format: ImageFormat,
}

/// Why the commands of an image were not updated.
#[derive(Clone, Copy, Debug, PartialEq, Eq, Structural)]
pub enum UpdateError {
    /// No image is stored under the key.
    MissingImageKey,
    /// No dirty rectangle came with the new commands.
    MissingDirtyRect,
    /// The new commands do not merge with the stored ones.
    Merge(MergeError),
}

/// Why a rasterization was not requested.
#[derive(Clone, Copy, Debug, PartialEq, Eq, Structural)]
pub enum RequestError {
    /// The same request is pending or waits to be resolved.
    AlreadyRequested,
    /// No image is stored under the key.
    MissingImageKey,
    /// The stored commands are no command buffer, or the extra data of one of
    /// their entries is no list of font keys.
    MalformedCommands,
}

/// A rasterization to carry out: what a worker needs for it, and the fonts
/// that have to be registered before it starts.
pub struct RenderJob {
    pub request: BlobImageRequest,
    pub descriptor: BlobImageDescriptor,
    /// The commands of the image, shared with the store.
    pub commands: Arc<Vec<u8>>,
    pub tile_size: Option<TileSize>,
    /// The fonts that the commands refer to, entry by entry.
    pub fonts: Vec<FontKey>,
}

/// What the store keeps of an image.
pub struct StoredBlob {
    pub commands: Seq<u8>,
    pub tile_size: Option<TileSize>,
}

/// The store of blob images and the record of their requests.
pub struct Moz2dImageRenderer {
    /// The commands and the tile size of each image, by the code of its key.
    blob_commands: HashMap<u64, (Arc<Vec<u8>>, Option<TileSize>)>,
    /// The requests of the current frame that are not resolved yet, by their
    /// codes: `None` for one that is pending, its result for one whose
    /// result has come in.
    rendered_images: HashMap<u128, Option<BlobImageResult>>,
}

impl Moz2dImageRenderer {
    /// The stored images, by their keys.
    pub closed spec fn blobs(&self) -> Map<ImageKey, StoredBlob> {
        Map::new(
            |key: ImageKey| self.blob_commands@.contains_key(key.spec_code()),
            |key: ImageKey|
                StoredBlob {
                    commands: self.blob_commands@[key.spec_code()].0@,
                    tile_size: self.blob_commands@[key.spec_code()].1,
                },
        )
    }

    /// The requests that were issued and not resolved yet: each with its
    /// result, where that has come in.
    pub closed spec fn requests(&self) -> Map<BlobImageRequest, Option<BlobImageResult>> {
        Map::new(
            |request: BlobImageRequest| self.rendered_images@.contains_key(request.spec_code()),
            |request: BlobImageRequest| self.rendered_images@[request.spec_code()],
        )
    }

    /// A renderer that stores no image and awaits no result.
    pub fn new() -> (r: Moz2dImageRenderer)
        ensures
            r.blobs() == Map::<ImageKey, StoredBlob>::empty(),
            r.requests() == Map::<BlobImageRequest, Option<BlobImageResult>>::empty(),
    {
        let r = Moz2dImageRenderer { blob_commands: HashMap::new(), rendered_images: HashMap::new() };
        assert(r.blobs() =~= Map::<ImageKey, StoredBlob>::empty());
        assert(r.requests() =~= Map::<BlobImageRequest, Option<BlobImageResult>>::empty());
        r
    }

    /// Stores `data` as the commands of the image `key`, in place of what was
    /// stored for it.
    pub fn add(&mut self, key: ImageKey, data: BlobImageData, tiling: Option<TileSize>)
        ensures
            final(self).blobs() == old(self).blobs().insert(
                key,
                StoredBlob { commands: data@, tile_size: tiling },
            ),
            final(self).requests() == old(self).requests(),
    {
        self.blob_commands.insert(key.code(), (Arc::new(data), tiling));
        proof {
            assert forall|k: ImageKey| k.spec_code() == key.spec_code() implies k == key by {
                ImageKey::lemma_code_injective(k, key);
            }
            assert(self.blobs() =~= old(self).blobs().insert(
                key,
                StoredBlob { commands: data@, tile_size: tiling },
            ));
        }
    }

    /// Forgets the image `key`, if it is stored.
    pub fn delete(&mut self, key: ImageKey)
        ensures
            final(self).blobs() == old(self).blobs().remove(key),
            final(self).requests() == old(self).requests(),
    {
        let code = key.code();
        self.blob_commands.remove(&code);
        proof {
            assert forall|k: ImageKey| k.spec_code() == key.spec_code() implies k == key by {
                ImageKey::lemma_code_injective(k, key);
            }
            assert(self.blobs() =~= old(self).blobs().remove(key));
        }
    }
}

/// What an update of the image `key` with the commands `data` along
/// `dirty_rect` stores: the entries of the merged commands, or why nothing is
/// updated.
pub open spec fn update_outcome(
    blobs: Map<ImageKey, StoredBlob>,
    key: ImageKey,
    data: Seq<u8>,
    dirty_rect: Option<DeviceUintRect>,
) -> Result<Seq<Entry>, UpdateError> {
    if !blobs.contains_key(key) {
        Err(UpdateError::MissingImageKey)
    } else {
        match dirty_rect {
            None => Err(UpdateError::MissingDirtyRect),
            Some(rect) => match merge_outcome(blobs[key].commands, data, rect) {
                Ok(entries) => Ok(entries),
                Err(e) => Err(UpdateError::Merge(e)),
            },
        }
    }
}

/// Whether `request` can be issued, or why not.
pub open spec fn request_outcome(
    requests: Map<BlobImageRequest, Option<BlobImageResult>>,
    blobs: Map<ImageKey, StoredBlob>,
    request: BlobImageRequest,
) -> Result<(), RequestError> {
    if requests.contains_key(request) {
        Err(RequestError::AlreadyRequested)
    } else if !blobs.contains_key(request.key) {
        Err(RequestError::MissingImageKey)
    } else if !fonts_ok(blobs[request.key].commands) {
        Err(RequestError::MalformedCommands)
    } else {
        Ok(())
    }
}

/// What resolving `request` does to the record of requests, and what it
/// answers at once: an error for a request that is not on record, the result
/// of one whose result has come in, and nothing yet for one that is pending.
pub open spec fn resolve_step(
    requests: Map<BlobImageRequest, Option<BlobImageResult>>,
    request: BlobImageRequest,
) -> (Map<BlobImageRequest, Option<BlobImageResult>>, Option<BlobImageResult>) {
    if !requests.contains_key(request) {
        (requests, Some(Err(BlobImageError::InvalidKey)))
    } else {
        match requests[request] {
            Some(result) => (requests.remove(request), Some(result)),
            None => (requests, None),
        }
    }
}

/// What the result `result` of `request`, coming in while `awaited` is being
/// resolved, does to the record of requests, and what it answers: the result
/// itself where it is the awaited one, and nothing yet where it is kept for
/// another request.
pub open spec fn receive_step(
    requests: Map<BlobImageRequest, Option<BlobImageResult>>,
    awaited: BlobImageRequest,
    request: BlobImageRequest,
    result: BlobImageResult,
) -> (Map<BlobImageRequest, Option<BlobImageResult>>, Option<BlobImageResult>) {
    if request == awaited {
        (requests.remove(awaited), Some(result))
    } else {
        (requests.insert(request, Some(result)), None)
    }
}

/// Calls `Arc::clone`. Trusted, not proved: that the clone points to what
/// `commands` points to, and so holds the same bytes.
#[verifier::external_body]
fn share(commands: &Arc<Vec<u8>>) -> (shared: Arc<Vec<u8>>)
    ensures
        shared == *commands,
{
    Arc::clone(commands)
}

impl Moz2dImageRenderer {
    /// Merges `data`, which holds what repaints `dirty_rect`, into the
    /// commands of the image `key`, or says why not and leaves the store as
    /// it is.
    pub fn try_update(
        &mut self,
        key: ImageKey,
        data: BlobImageData,
        dirty_rect: Option<DeviceUintRect>,
    ) -> (r: Result<(), UpdateError>)
        ensures
            match update_outcome(old(self).blobs(), key, data@, dirty_rect) {
                Ok(entries) => {
                    &&& r is Ok
                    &&& final(self).blobs() == old(self).blobs().insert(
                        key,
                        StoredBlob {
                            commands: encoded(entries),
                            tile_size: old(self).blobs()[key].tile_size,
                        },
                    )
                    &&& canonical_buffer(encoded(entries))
                    &&& buffer_entries(encoded(entries)) == entries
                },
                Err(e) => r == Err::<(), UpdateError>(e) && final(self).blobs() == old(
                    self,
                ).blobs(),
            },
            final(self).requests() == old(self).requests(),
    {
        let code = key.code();
        let (merged, tiling) = match self.blob_commands.get(&code) {
            Some(record) => {
                let rect = match dirty_rect {
                    Some(rect) => rect,
                    None => {
                        return Err(UpdateError::MissingDirtyRect);
                    },
                };
                match try_merge_blob_images(record.0.as_slice(), data.as_slice(), rect) {
                    Ok(merged) => (merged, record.1),
                    Err(e) => {
                        return Err(UpdateError::Merge(e));
                    },
                }
            },
            None => {
                return Err(UpdateError::MissingImageKey);
            },
        };
        let ghost stored = StoredBlob { commands: merged@, tile_size: tiling };
        self.blob_commands.insert(code, (merged, tiling));
        proof {
            assert forall|k: ImageKey| k.spec_code() == key.spec_code() implies k == key by {
                ImageKey::lemma_code_injective(k, key);
            }
            assert(self.blobs() =~= old(self).blobs().insert(key, stored));
        }
        Ok(())
    }

    /// Merges `data`, which holds what repaints `dirty_rect`, into the
    /// commands of the image `key`.
    ///
    /// The image must be stored, the dirty rectangle must be there, and the
    /// commands must merge: see [`update_outcome`] and
    /// [`Moz2dImageRenderer::try_update`].
    pub fn update(
        &mut self,
        key: ImageKey,
        data: BlobImageData,
        dirty_rect: Option<DeviceUintRect>,
    )
        requires
            update_outcome(old(self).blobs(), key, data@, dirty_rect) is Ok,
        ensures
            final(self).blobs() == old(self).blobs().insert(
                key,
                StoredBlob {
                    commands: encoded(
                        update_outcome(old(self).blobs(), key, data@, dirty_rect)->Ok_0,
                    ),
                    tile_size: old(self).blobs()[key].tile_size,
                },
            ),
            canonical_buffer(
                encoded(update_outcome(old(self).blobs(), key, data@, dirty_rect)->Ok_0),
            ),
            buffer_entries(
                encoded(update_outcome(old(self).blobs(), key, data@, dirty_rect)->Ok_0),
            ) == update_outcome(old(self).blobs(), key, data@, dirty_rect)->Ok_0,
            final(self).requests() == old(self).requests(),
    {
        match self.try_update(key, data, dirty_rect) {
            Ok(()) => {},
            Err(_) => unreached(),
        }
    }

    /// Records `request` as pending and hands out the job that carries it
    /// out, or says why not and leaves the record as it is.
    ///
    /// The fonts of the job are to be registered before the job is handed to
    /// a worker.
    pub fn try_request(
        &mut self,
        request: BlobImageRequest,
        descriptor: &BlobImageDescriptor,
        _dirty_rect: Option<DeviceUintRect>,
    ) -> (r: Result<RenderJob, RequestError>)
        ensures
            match request_outcome(old(self).requests(), old(self).blobs(), request) {
                Ok(_) => {
                    &&& r matches Ok(job)
                    &&& job.request == request
                    &&& job.descriptor == *descriptor
                    &&& job.commands@ == old(self).blobs()[request.key].commands
                    &&& job.tile_size == old(self).blobs()[request.key].tile_size
                    &&& job.fonts@ == buffer_fonts(old(self).blobs()[request.key].commands)
                    &&& final(self).requests() == old(self).requests().insert(request, None)
                },
                Err(e) => {
                    &&& r matches Err(f)
                    &&& f == e
                    &&& final(self).requests() == old(self).requests()
                },
            },
            final(self).blobs() == old(self).blobs(),
    {
        let code = request.code();
        if self.rendered_images.contains_key(&code) {
            return Err(RequestError::AlreadyRequested);
        }
        let key_code = request.key.code();
        let (commands, tile_size) = match self.blob_commands.get(&key_code) {
            Some(blob) => (share(&blob.0), blob.1),
            None => {
                return Err(RequestError::MissingImageKey);
            },
        };
        let fonts = match referenced_fonts(commands.as_slice()) {
            Some(fonts) => fonts,
            None => {
                return Err(RequestError::MalformedCommands);
            },
        };
        // A pending request is on record without a result. This tells it
        // from a request that was never issued, which is not on record:
        // to wait for the result of such a one would be to wait forever.
        self.rendered_images.insert(code, None);
        proof {
            assert forall|q: BlobImageRequest| q.spec_code() == request.spec_code() implies q
                == request by {
                BlobImageRequest::lemma_code_injective(q, request);
            }
            assert(self.requests() =~= old(self).requests().insert(request, None));
        }
        Ok(RenderJob { request, descriptor: *descriptor, commands, tile_size, fonts })
    }

    /// Records `request` as pending and hands out the job that carries it
    /// out.
    ///
    /// The request must not be on record, its image must be stored, and the
    /// stored commands must list their fonts: see [`request_outcome`] and
    /// [`Moz2dImageRenderer::try_request`].
    pub fn request(
        &mut self,
        request: BlobImageRequest,
        descriptor: &BlobImageDescriptor,
        _dirty_rect: Option<DeviceUintRect>,
    ) -> (job: RenderJob)
        requires
            request_outcome(old(self).requests(), old(self).blobs(), request) is Ok,
        ensures
            job.request == request,
            job.descriptor == *descriptor,
            job.commands@ == old(self).blobs()[request.key].commands,
            job.tile_size == old(self).blobs()[request.key].tile_size,
            job.fonts@ == buffer_fonts(old(self).blobs()[request.key].commands),
            final(self).requests() == old(self).requests().insert(request, None),
            final(self).blobs() == old(self).blobs(),
    {
        match self.try_request(request, descriptor, _dirty_rect) {
            Ok(job) => job,
            Err(_) => unreached(),
        }
    }

    /// Begins to resolve `request`. Answers at once where it can: with the
    /// invalid-key error where the request is not on record, and with the
    /// result where it has come in, which takes the request off the record.
    /// Answers `None` where the request is pending: its result is then to be
    /// awaited, and what comes in meanwhile is to be handed to
    /// [`Moz2dImageRenderer::receive`].
    pub fn resolve(&mut self, request: BlobImageRequest) -> (r: Option<BlobImageResult>)
        ensures
            final(self).requests() == resolve_step(old(self).requests(), request).0,
            r == resolve_step(old(self).requests(), request).1,
            final(self).blobs() == old(self).blobs(),
    {
        let code = request.code();
        match self.rendered_images.get(&code) {
            None => {
                return Some(Err(BlobImageError::InvalidKey));
            },
            Some(entry) => {
                // None means we haven't yet received the result.
                if entry.is_none() {
                    return None;
                }
            },
        }
        let result = self.rendered_images.remove(&code);
        proof {
            assert forall|q: BlobImageRequest| q.spec_code() == request.spec_code() implies q
                == request by {
                BlobImageRequest::lemma_code_injective(q, request);
            }
            assert(self.requests() =~= old(self).requests().remove(request));
        }
        match result {
            Some(Some(result)) => Some(result),
            _ => unreached(),
        }
    }

    /// Takes in the result `result` of `request` while `awaited` is being
    /// resolved. Where it is the awaited one, takes the request off the
    /// record and answers with the result. Else keeps the result on record
    /// for its own request and answers `None`: the wait goes on.
    pub fn receive(
        &mut self,
        awaited: BlobImageRequest,
        request: BlobImageRequest,
        result: BlobImageResult,
    ) -> (r: Option<BlobImageResult>)
        ensures
            final(self).requests() == receive_step(
                old(self).requests(),
                awaited,
                request,
                result,
            ).0,
            r == receive_step(old(self).requests(), awaited, request, result).1,
            final(self).blobs() == old(self).blobs(),
    {
        if request.same_as(&awaited) {
            // There it is!
            let code = awaited.code();
            self.rendered_images.remove(&code);
            proof {
                assert forall|q: BlobImageRequest| q.spec_code() == awaited.spec_code() implies q
                    == awaited by {
                    BlobImageRequest::lemma_code_injective(q, awaited);
                }
                assert(self.requests() =~= old(self).requests().remove(awaited));
            }
            return Some(result);
        }
        let ghost kept = Some(result);
        self.rendered_images.insert(request.code(), Some(result));
        proof {
            assert forall|q: BlobImageRequest| q.spec_code() == request.spec_code() implies q
                == request by {
                BlobImageRequest::lemma_code_injective(q, request);
            }
            assert(self.requests() =~= old(self).requests().insert(request, kept));
        }
        None
    }

    /// What resolving answers where the results stop coming in before the
    /// awaited one.
    pub fn channel_closed() -> (r: BlobImageResult)
        ensures
            r matches Err(BlobImageError::Other(text)) && text@ == "Channel closed"@,
    {
        Err(BlobImageError::Other("Channel closed".to_owned()))
    }
}

/// Where a request stands.
pub enum RequestState {
    /// Not on record: never issued, or resolved.
    Unrequested,
    /// On record without a result: its job has not reported yet.
    Pending,
    /// On record with its result, which waits to be asked for.
    Ready,
}

/// Where `request` stands in the record `requests`.
pub open spec fn state_of(
    requests: Map<BlobImageRequest, Option<BlobImageResult>>,
    request: BlobImageRequest,
) -> RequestState {
    if !requests.contains_key(request) {
        RequestState::Unrequested
    } else if requests[request] is None {
        RequestState::Pending
    } else {
        RequestState::Ready
    }
}

/// A request goes from unrequested to pending when it is issued, from
/// pending to ready when its result comes in while another is awaited, and
/// off the record when its result is handed out: at once where it is ready,
/// and as soon as the result comes in where it is awaited. No step moves
/// another request than the one it is about.
pub proof fn lemma_request_states(
    requests: Map<BlobImageRequest, Option<BlobImageResult>>,
    request: BlobImageRequest,
    awaited: BlobImageRequest,
    other: BlobImageRequest,
    result: BlobImageResult,
)
    requires
        other != request,
    ensures
        state_of(requests.insert(request, None), request) is Pending,
        state_of(requests.insert(request, None), other) == state_of(requests, other),
        state_of(requests, request) is Unrequested ==> resolve_step(requests, request).0
            == requests,
        state_of(requests, request) is Pending ==> resolve_step(requests, request).0 == requests
            && resolve_step(requests, request).1 is None,
        state_of(requests, request) is Ready ==> state_of(
            resolve_step(requests, request).0,
            request,
        ) is Unrequested && resolve_step(requests, request).1 == requests[request],
        state_of(resolve_step(requests, request).0, other) == state_of(requests, other),
        request != awaited ==> state_of(
            receive_step(requests, awaited, request, result).0,
            request,
        ) is Ready && receive_step(requests, awaited, request, result).1 is None,
        request == awaited ==> state_of(
            receive_step(requests, awaited, request, result).0,
            request,
        ) is Unrequested && receive_step(requests, awaited, request, result).1 == Some(result),
        state_of(receive_step(requests, awaited, request, result).0, other) == state_of(
            requests,
            other,
        ),
{
}

/// Resolving a request that is not on record, because it was never issued or
/// was resolved before, answers at once with the invalid-key error and
/// records nothing.
pub proof fn lemma_unrequested_is_invalid(
    requests: Map<BlobImageRequest, Option<BlobImageResult>>,
    request: BlobImageRequest,
)
    requires
        !requests.contains_key(request),
    ensures
        resolve_step(requests, request) == (
            requests,
            Some(Err::<RasterizedBlobImage, BlobImageError>(BlobImageError::InvalidKey)),
        ),
{
}

/// A pending request stays pending while results of other requests come in.
pub proof fn lemma_pending_until_received(
    requests: Map<BlobImageRequest, Option<BlobImageResult>>,
    awaited: BlobImageRequest,
    other: BlobImageRequest,
    result: BlobImageResult,
)
    requires
        other != awaited,
        requests.contains_key(awaited) && requests[awaited] is None,
    ensures
        ({
            let kept = receive_step(requests, awaited, other, result);
            &&& kept.1 is None
            &&& kept.0.contains_key(awaited) && kept.0[awaited] is None
            &&& kept.0.contains_key(other) && kept.0[other] == Some(result)
            &&& resolve_step(kept.0, awaited).1 is None
        }),
{
}

/// Results may come in in another order than they are asked for. With two
/// requests `first` and `second` pending, resolving `second` has to wait;
/// the result of `first`, coming in meanwhile, is kept and the wait goes on;
/// the result of `second` then ends the wait; and resolving `first`
/// afterwards answers at once with the result that was kept. Both requests
/// are then off the record.
pub proof fn lemma_results_out_of_order(
    requests: Map<BlobImageRequest, Option<BlobImageResult>>,
    first: BlobImageRequest,
    second: BlobImageRequest,
    first_result: BlobImageResult,
    second_result: BlobImageResult,
)
    requires
        first != second,
        requests.contains_key(first) && requests[first] is None,
        requests.contains_key(second) && requests[second] is None,
    ensures
        ({
            let begun = resolve_step(requests, second);
            let kept = receive_step(begun.0, second, first, first_result);
            let ended = receive_step(kept.0, second, second, second_result);
            let after = resolve_step(ended.0, first);
            &&& begun.1 is None
            &&& kept.1 is None
            &&& ended.1 == Some(second_result)
            &&& after.1 == Some(first_result)
            &&& after.0 == requests.remove(first).remove(second)
        }),
{
    let begun = resolve_step(requests, second);
    let kept = receive_step(begun.0, second, first, first_result);
    let ended = receive_step(kept.0, second, second, second_result);
    let after = resolve_step(ended.0, first);
    assert(after.0 =~= requests.remove(first).remove(second));
}

impl ImageFormat {
    /// The number of bytes that one pixel takes in the format.
    pub open spec fn spec_bytes_per_pixel(self) -> u32 {
        match self {
            ImageFormat::R8 => 1,
            ImageFormat::R16 => 2,
            ImageFormat::BGRA8 => 4,
            ImageFormat::RGBAF32 => 16,
            ImageFormat::RG8 => 2,
            ImageFormat::RG16 => 4,
            ImageFormat::RGBAI32 => 16,
            ImageFormat::RGBA8 => 4,
        }
    }

    /// Calls `webrender_api::ImageFormat::bytes_per_pixel` on the format of
    /// the same name. Trusted, not proved: that it gives 1 for `R8`, 2 for
    /// `R16` and `RG8`, 4 for `BGRA8`, `RG16` and `RGBA8`, and 16 for
    /// `RGBAF32` and `RGBAI32`.
    #[verifier::external_body]
    pub(crate) fn bytes_per_pixel(self) -> (n: u32)
        ensures
            n == self.spec_bytes_per_pixel(),
    {
        let format = match self {
            ImageFormat::R8 => webrender_api::ImageFormat::R8,
            ImageFormat::R16 => webrender_api::ImageFormat::R16,
            ImageFormat::BGRA8 => webrender_api::ImageFormat::BGRA8,
            ImageFormat::RGBAF32 => webrender_api::ImageFormat::RGBAF32,
            ImageFormat::RG8 => webrender_api::ImageFormat::RG8,
            ImageFormat::RG16 => webrender_api::ImageFormat::RG16,
            ImageFormat::RGBAI32 => webrender_api::ImageFormat::RGBAI32,
            ImageFormat::RGBA8 => webrender_api::ImageFormat::RGBA8,
        };
        format.bytes_per_pixel() as u32
    }
}

impl BlobImageDescriptor {
    /// The number of bytes that the pixels of the image take, where it fits
    /// in thirty-two bits.
    pub open spec fn spec_output_len(&self) -> Option<usize> {
        if self.width * self.height * self.format.spec_bytes_per_pixel() <= u32::MAX {
            Some((self.width * self.height * self.format.spec_bytes_per_pixel()) as usize)
        } else {
            None
        }
    }

    /// The number of bytes that the pixels of the image take, or `None` where
    /// it does not fit in thirty-two bits.
    #[verifier::when_used_as_spec(spec_output_len)]
    pub fn output_len(&self) -> (len: Option<usize>)
        ensures
            len == self.spec_output_len(),
    {
        let bytes_per_pixel = self.format.bytes_per_pixel();
        assert(self.width * self.height <= 0xffff_ffff * 0xffff_ffff) by (nonlinear_arith)
            requires
                self.width <= 0xffff_ffff,
                self.height <= 0xffff_ffff,
        ;
        let pixels: u64 = self.width as u64 * self.height as u64;
        if pixels > u32::MAX as u64 {
            assert(pixels * bytes_per_pixel >= pixels) by (nonlinear_arith)
                requires
                    bytes_per_pixel >= 1,
                    pixels >= 0,
            ;
            return None;
        }
        let bytes: u64 = pixels * bytes_per_pixel as u64;
        if bytes > u32::MAX as u64 {
            return None;
        }
        Some(bytes as usize)
    }
}

impl RenderJob {
    /// A buffer of zeros for the pixels of the image, or `None` where its
    /// size is not representable.
    pub fn output_buffer(&self) -> (output: Option<Vec<u8>>)
        ensures
            match output {
                Some(buffer) => self.descriptor.spec_output_len() == Some(buffer@.len() as usize)
                    && forall|i: int| 0 <= i < buffer@.len() ==> buffer@[i] == 0,
                None => self.descriptor.spec_output_len() is None,
            },
    {
        match self.descriptor.output_len() {
            Some(buf_size) => Some(vec![0u8; buf_size]),
            None => None,
        }
    }

    /// The message that reports the outcome of the job: its request with the
    /// pixels in `output`, where the rasterizer succeeded, and with an error
    /// where it failed.
    pub fn finish(self, succeeded: bool, output: Vec<u8>) -> (message: (
        BlobImageRequest,
        BlobImageResult,
    ))
        ensures
            message.0 == self.request,
            succeeded ==> message.1 == Ok::<RasterizedBlobImage, BlobImageError>(
                RasterizedBlobImage {
                    width: self.descriptor.width,
                    height: self.descriptor.height,
                    data: output,
                },
            ),
            !succeeded ==> (message.1 matches Err(BlobImageError::Other(text)) && text@
                == "Unknown error"@),
    {
        let result = if succeeded {
            Ok(
                RasterizedBlobImage {
                    width: self.descriptor.width,
                    height: self.descriptor.height,
                    data: output,
                },
            )
        } else {
            Err(BlobImageError::Other("Unknown error".to_owned()))
        };
        (self.request, result)
    }
}

} // verus!
