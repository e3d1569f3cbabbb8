//! Merging a partial re-recording of a blob image into its command buffer.
//!
//! The new buffer holds what repaints the dirty rectangle. Old entries inside
//! the dirty rectangle go; old entries outside it stay where they are; an old
//! entry that crosses its border is a synchronization point, at which the
//! next run of new entries comes in, up to and including the next new entry
//! that crosses the border.

use std::sync::Arc;
use vstd::prelude::*;
use vstd::pervasive::unreached;
use vstd::slice::slice_subrange;
use crate::buffer::{
    buffer_entries, canonical_buffer, create_index_reader, encoded, entry_begin, index_of,
    is_valid_buffer, lemma_canonical_is_encoded, lemma_entry_slice, record_count, valid_buffer,
    BufWriter, Entry,
};
use crate::geometry::{Box2d, DeviceUintRect, Placement};

verus! {

/// Why two buffers do not merge.
#[derive(Clone, Copy, Debug, PartialEq, Eq, Structural)]
pub enum MergeError {
    /// A far edge of the dirty rectangle is not representable.
    DirtyRectOverflow,
    /// The old or the new buffer is no command buffer.
    MalformedBuffer,
    /// At a synchronization point, a new entry lies outside the dirty
    /// rectangle.
    NewBoundsOutsideDirtyRect,
    /// After the last old entry, a new entry is left that is not contained in
    /// the dirty rectangle.
    UncontainedItemLeft,
    /// Nothing is left of the image, which should have been deleted instead.
    EmptyResult,
}

/// Where the scan for the next synchronization point stops that starts at
/// `new[j]`: behind the first entry from there on that crosses the border of
/// `dirty`, or at the end of `new` where there is none. Entries inside
/// `dirty` are passed over; one outside of it fails the scan.
pub open spec fn sync_scan(new: Seq<Entry>, dirty: Box2d, j: int) -> Result<int, MergeError>
    decreases new.len() - j,
{
    if j < 0 || j >= new.len() {
        Ok(j)
    } else {
        match new[j].bounds.spec_placement(&dirty) {
            Placement::Contained => sync_scan(new, dirty, j + 1),
            Placement::Overlapping => Ok(j + 1),
            Placement::Outside => Err(MergeError::NewBoundsOutsideDirtyRect),
        }
    }
}

/// Every entry of `new` from `new[j]` on lies inside `dirty`.
pub open spec fn all_contained_from(new: Seq<Entry>, dirty: Box2d, j: int) -> bool {
    forall|k: int| j <= k < new.len() ==> (#[trigger] new[k]).bounds.spec_contained_by(&dirty)
}

/// `prefix` followed by what `rest` holds, where it holds entries.
pub open spec fn prepend(prefix: Seq<Entry>, rest: Result<Seq<Entry>, MergeError>) -> Result<
    Seq<Entry>,
    MergeError,
> {
    match rest {
        Ok(entries) => Ok(prefix + entries),
        Err(e) => Err(e),
    }
}

/// The merge of the old entries from `old[i]` on with the new entries from
/// `new[j]` on.
pub open spec fn merge_from(old: Seq<Entry>, new: Seq<Entry>, dirty: Box2d, i: int, j: int)
    -> Result<Seq<Entry>, MergeError>
    decreases old.len() - i,
{
    if i < 0 || i >= old.len() {
        if all_contained_from(new, dirty, j) {
            Ok(new.subrange(j, new.len() as int))
        } else {
            Err(MergeError::UncontainedItemLeft)
        }
    } else {
        match old[i].bounds.spec_placement(&dirty) {
            Placement::Contained => merge_from(old, new, dirty, i + 1, j),
            Placement::Overlapping => match sync_scan(new, dirty, j) {
                Ok(next) => prepend(new.subrange(j, next), merge_from(old, new, dirty, i + 1, next)),
                Err(e) => Err(e),
            },
            Placement::Outside => prepend(seq![old[i]], merge_from(old, new, dirty, i + 1, j)),
        }
    }
}

/// The entries of the merge of `old` with `new` along `dirty`.
pub open spec fn merged_entries(old: Seq<Entry>, new: Seq<Entry>, dirty: Box2d) -> Result<
    Seq<Entry>,
    MergeError,
> {
    match merge_from(old, new, dirty, 0, 0) {
        Ok(entries) => if entries.len() == 0 {
            Err(MergeError::EmptyResult)
        } else {
            Ok(entries)
        },
        Err(e) => Err(e),
    }
}

/// The entries of the merge of the buffers `old` and `new` along the dirty
/// rectangle `dirty_rect`, or why they do not merge.
pub open spec fn merge_outcome(old: Seq<u8>, new: Seq<u8>, dirty_rect: DeviceUintRect) -> Result<
    Seq<Entry>,
    MergeError,
> {
    if !dirty_rect.representable() {
        Err(MergeError::DirtyRectOverflow)
    } else if !valid_buffer(old) || !valid_buffer(new) {
        Err(MergeError::MalformedBuffer)
    } else {
        merged_entries(buffer_entries(old), buffer_entries(new), dirty_rect.spec_to_box())
    }
}

/// The number of entries from `old[i]` on that `dirty` does not touch.
pub open spec fn untouched_count(old: Seq<Entry>, dirty: Box2d, i: int) -> nat
    decreases old.len() - i,
{
    if i < 0 || i >= old.len() {
        0
    } else if old[i].bounds.spec_placement(&dirty) == Placement::Outside {
        1 + untouched_count(old, dirty, i + 1)
    } else {
        untouched_count(old, dirty, i + 1)
    }
}

/// `entry` is an entry of `old` that `dirty` does not touch, or an entry of
/// `new`.
pub open spec fn merged_from_either(
    old: Seq<Entry>,
    new: Seq<Entry>,
    dirty: Box2d,
    entry: Entry,
) -> bool {
    ||| exists|n: int|
        0 <= n < old.len() && #[trigger] old[n] == entry && entry.bounds.spec_placement(&dirty)
            == Placement::Outside
    ||| exists|n: int| 0 <= n < new.len() && #[trigger] new[n] == entry
}

/// Merges the command buffer `old` with the command buffer `new`, which holds
/// what repaints `dirty_rect`, or says why they do not merge.
///
/// The result is the command buffer that holds the entries of
/// [`merge_outcome`], and nothing else.
pub fn try_merge_blob_images(old: &[u8], new: &[u8], dirty_rect: DeviceUintRect) -> (r: Result<
    Arc<Vec<u8>>,
    MergeError,
>)
    ensures
        match merge_outcome(old@, new@, dirty_rect) {
            Ok(entries) => {
                &&& r matches Ok(merged)
                &&& merged@ == encoded(entries)
                &&& canonical_buffer(merged@)
                &&& buffer_entries(merged@) == entries
            },
            Err(e) => r matches Err(f) && f == e,
        },
{
    let dirty = match dirty_rect.to_box() {
        Some(b) => b,
        None => {
            return Err(MergeError::DirtyRectOverflow);
        },
    };
    if !is_valid_buffer(old) || !is_valid_buffer(new) {
        return Err(MergeError::MalformedBuffer);
    }
    let ghost old_entries = buffer_entries(old@);
    let ghost new_entries = buffer_entries(new@);
    let ghost whole = merge_from(old_entries, new_entries, dirty, 0, 0);
    assert(old@.len() == old.len() && new@.len() == new.len());

    let mut result = BufWriter::new();

    let mut index = create_index_reader(old);
    let mut new_index = create_index_reader(new);

    // loop over both new and old entries merging them
    // both new and old must have the same number of entries that
    // overlap but are not contained by the dirty rect
    let mut begin: usize = 0;
    let mut new_begin: usize = 0;
    let ghost mut i: int = 0;
    let ghost mut j: int = 0;
    proof {
        assert(result.entries() + whole->Ok_0 =~= whole->Ok_0);
    }
    while index.pos < index.buf.len()
        invariant
            valid_buffer(old@),
            valid_buffer(new@),
            old_entries == buffer_entries(old@),
            new_entries == buffer_entries(new@),
            whole == merge_from(old_entries, new_entries, dirty, 0, 0),
            merge_outcome(old@, new@, dirty_rect) == merged_entries(
                old_entries,
                new_entries,
                dirty,
            ),
            old@.len() <= usize::MAX,
            new@.len() <= usize::MAX,
            index.buf@ == index_of(old@),
            index.pos == 32 * i,
            0 <= i <= record_count(index_of(old@)),
            begin == entry_begin(index_of(old@), i),
            new_index.buf@ == index_of(new@),
            new_index.pos == 32 * j,
            0 <= j <= record_count(index_of(new@)),
            new_begin == entry_begin(index_of(new@), j),
            result.wf(),
            whole == prepend(
                result.entries(),
                merge_from(old_entries, new_entries, dirty, i, j),
            ),
        decreases index.buf.len() - index.pos,
    {
        proof {
            lemma_entry_slice(old@, i);
        }
        let (extra, end, bounds) = index.read_entry();
        let ghost before = result.entries();
        match bounds.placement(&dirty) {
            Placement::Contained => {
                // skip these items as they will be replaced with items from new
            },
            Placement::Overlapping => {
                // this is a sync point between the old and new lists
                // find matching rect in new list.
                let ghost j0 = j;
                proof {
                    assert(before + new_entries.subrange(j0, j) =~= before);
                }
                while new_index.pos < new_index.buf.len()
                    invariant_except_break
                        sync_scan(new_entries, dirty, j0) == sync_scan(
                            new_entries,
                            dirty,
                            j,
                        ),
                    invariant
                        valid_buffer(new@),
                        new_entries == buffer_entries(new@),
                        whole == merge_from(old_entries, new_entries, dirty, 0, 0),
                        merge_outcome(old@, new@, dirty_rect) == merged_entries(
                            old_entries,
                            new_entries,
                            dirty,
                        ),
                        new@.len() <= usize::MAX,
                        new_index.buf@ == index_of(new@),
                        new_index.pos == 32 * j,
                        0 <= j0 <= j <= record_count(index_of(new@)),
                        new_begin == entry_begin(index_of(new@), j),
                        result.wf(),
                        result.entries() == before + new_entries.subrange(j0, j),
                        0 <= i < old_entries.len(),
                        old_entries[i].bounds.spec_placement(&dirty)
                            == Placement::Overlapping,
                        whole == prepend(
                            before,
                            merge_from(old_entries, new_entries, dirty, i, j0),
                        ),
                    ensures
                        sync_scan(new_entries, dirty, j0) == Ok::<int, MergeError>(j),
                    decreases new_index.buf.len() - new_index.pos,
                {
                    proof {
                        lemma_entry_slice(new@, j);
                    }
                    let (new_extra, new_end, new_bounds) = new_index.read_entry();
                    match new_bounds.placement(&dirty) {
                        Placement::Contained => {
                            result.new_entry(
                                new_end - new_extra,
                                new_bounds,
                                slice_subrange(new, new_begin, new_end),
                            );
                        },
                        Placement::Overlapping => {
                            // the sequence points of old and new need not come in
                            // the same order: an earlier update may have moved
                            // them. Only their number has to be the same.
                            result.new_entry(
                                new_end - new_extra,
                                new_bounds,
                                slice_subrange(new, new_begin, new_end),
                            );
                            new_begin = new_end;
                            proof {
                                assert(before + new_entries.subrange(j0, j + 1) =~= (before
                                    + new_entries.subrange(j0, j)).push(new_entries[j]));
                                j = j + 1;
                            }
                            break ;
                        },
                        Placement::Outside => {
                            return Err(MergeError::NewBoundsOutsideDirtyRect);
                        },
                    }
                    new_begin = new_end;
                    proof {
                        assert(before + new_entries.subrange(j0, j + 1) =~= (before
                            + new_entries.subrange(j0, j)).push(new_entries[j]));
                        j = j + 1;
                    }
                }
                proof {
                    lemma_prepend_twice(
                        before,
                        new_entries.subrange(j0, j),
                        merge_from(old_entries, new_entries, dirty, i + 1, j),
                    );
                }
            },
            Placement::Outside => {
                result.new_entry(end - extra, bounds, slice_subrange(old, begin, end));
                proof {
                    lemma_prepend_twice(
                        before,
                        seq![old_entries[i]],
                        merge_from(old_entries, new_entries, dirty, i + 1, j),
                    );
                    assert(before + seq![old_entries[i]] =~= before.push(old_entries[i]));
                }
            },
        }
        begin = end;
        proof {
            i = i + 1;
        }
    }
    // include any remaining new items
    while new_index.pos < new_index.buf.len()
        invariant
            valid_buffer(new@),
            new_entries == buffer_entries(new@),
            whole == merge_from(old_entries, new_entries, dirty, 0, 0),
            merge_outcome(old@, new@, dirty_rect) == merged_entries(
                old_entries,
                new_entries,
                dirty,
            ),
            old@.len() <= usize::MAX,
            new@.len() <= usize::MAX,
            i >= old_entries.len(),
            new_index.buf@ == index_of(new@),
            new_index.pos == 32 * j,
            0 <= j <= record_count(index_of(new@)),
            new_begin == entry_begin(index_of(new@), j),
            result.wf(),
            whole == prepend(
                result.entries(),
                merge_from(old_entries, new_entries, dirty, i, j),
            ),
        decreases new_index.buf.len() - new_index.pos,
    {
        proof {
            lemma_entry_slice(new@, j);
            lemma_leftover_step(old_entries, new_entries, dirty, i, j);
        }
        let ghost before = result.entries();
        let (new_extra, new_end, new_bounds) = new_index.read_entry();
        if new_bounds.contained_by(&dirty) {
            result.new_entry(
                new_end - new_extra,
                new_bounds,
                slice_subrange(new, new_begin, new_end),
            );
        } else {
            return Err(MergeError::UncontainedItemLeft);
        }
        new_begin = new_end;
        proof {
            lemma_prepend_twice(
                before,
                seq![new_entries[j]],
                merge_from(old_entries, new_entries, dirty, i, j + 1),
            );
            assert(before + seq![new_entries[j]] =~= before.push(new_entries[j]));
            j = j + 1;
        }
    }
    proof {
        assert(new_entries.subrange(j, new_entries.len() as int) =~= Seq::<Entry>::empty());
        assert(result.entries() + Seq::<Entry>::empty() =~= result.entries());
    }
    if result.len() == 0 {
        // nothing is left of this blob: it should just have been deleted
        return Err(MergeError::EmptyResult);
    }
    Ok(Arc::new(result.finish()))
}

/// Merges the command buffer `old` with the command buffer `new`, which holds
/// what repaints `dirty_rect`.
///
/// The two buffers must merge: see [`merge_outcome`] and
/// [`try_merge_blob_images`].
pub fn merge_blob_images(old: &[u8], new: &[u8], dirty_rect: DeviceUintRect) -> (merged: Arc<
    Vec<u8>,
>)
    requires
        merge_outcome(old@, new@, dirty_rect) is Ok,
    ensures
        merged@ == encoded(merge_outcome(old@, new@, dirty_rect)->Ok_0),
        canonical_buffer(merged@),
        buffer_entries(merged@) == merge_outcome(old@, new@, dirty_rect)->Ok_0,
{
    match try_merge_blob_images(old, new, dirty_rect) {
        Ok(merged) => merged,
        Err(_) => unreached(),
    }
}

/// A scan fails in one way only: on a new entry outside the dirty rectangle.
/// Where it succeeds, it stops between where it started and the end of `new`.
pub proof fn lemma_sync_scan_result(new: Seq<Entry>, dirty: Box2d, j: int)
    requires
        0 <= j <= new.len(),
    ensures
        match sync_scan(new, dirty, j) {
            Ok(next) => j <= next <= new.len(),
            Err(e) => e == MergeError::NewBoundsOutsideDirtyRect,
        },
    decreases new.len() - j,
{
    if j < new.len() && new[j].bounds.spec_placement(&dirty) == Placement::Contained {
        lemma_sync_scan_result(new, dirty, j + 1);
    }
}

/// The walk over the old entries fails in two ways only: on a new entry
/// outside the dirty rectangle at a synchronization point, and on a new entry
/// that is left in the end and is not inside the dirty rectangle.
pub proof fn lemma_merge_from_errors(
    old: Seq<Entry>,
    new: Seq<Entry>,
    dirty: Box2d,
    i: int,
    j: int,
)
    requires
        0 <= i,
        0 <= j <= new.len(),
    ensures
        merge_from(old, new, dirty, i, j) matches Err(e) ==> e
            == MergeError::NewBoundsOutsideDirtyRect || e == MergeError::UncontainedItemLeft,
    decreases old.len() - i,
{
    if i < old.len() {
        match old[i].bounds.spec_placement(&dirty) {
            Placement::Contained => {
                lemma_merge_from_errors(old, new, dirty, i + 1, j);
            },
            Placement::Overlapping => {
                lemma_sync_scan_result(new, dirty, j);
                match sync_scan(new, dirty, j) {
                    Ok(next) => {
                        lemma_merge_from_errors(old, new, dirty, i + 1, next);
                    },
                    Err(_) => {},
                }
            },
            Placement::Outside => {
                lemma_merge_from_errors(old, new, dirty, i + 1, j);
            },
        }
    }
}

/// Each way in which two buffers do not merge has its own reason: the dirty
/// rectangle, the shape of the buffers, the walk, or the lack of a result.
pub proof fn lemma_merge_outcome_errors(old: Seq<u8>, new: Seq<u8>, dirty_rect: DeviceUintRect)
    ensures
        merge_outcome(old, new, dirty_rect) == Err::<Seq<Entry>, MergeError>(
            MergeError::DirtyRectOverflow,
        ) <==> !dirty_rect.representable(),
        merge_outcome(old, new, dirty_rect) == Err::<Seq<Entry>, MergeError>(
            MergeError::MalformedBuffer,
        ) <==> dirty_rect.representable() && !(valid_buffer(old) && valid_buffer(new)),
        merge_outcome(old, new, dirty_rect) == Err::<Seq<Entry>, MergeError>(
            MergeError::EmptyResult,
        ) <==> dirty_rect.representable() && valid_buffer(old) && valid_buffer(new) && merge_from(
            buffer_entries(old),
            buffer_entries(new),
            dirty_rect.spec_to_box(),
            0,
            0,
        ) == Ok::<Seq<Entry>, MergeError>(Seq::empty()),
{
    let whole = merge_from(
        buffer_entries(old),
        buffer_entries(new),
        dirty_rect.spec_to_box(),
        0,
        0,
    );
    lemma_merge_from_errors(
        buffer_entries(old),
        buffer_entries(new),
        dirty_rect.spec_to_box(),
        0,
        0,
    );
    match whole {
        Ok(entries) => {
            if entries.len() == 0 {
                assert(entries =~= Seq::<Entry>::empty());
            }
        },
        Err(_) => {},
    }
}

/// Prepending in two steps is prepending the concatenation.
proof fn lemma_prepend_twice(
    a: Seq<Entry>,
    b: Seq<Entry>,
    rest: Result<Seq<Entry>, MergeError>,
)
    ensures
        prepend(a, prepend(b, rest)) == prepend(a + b, rest),
{
    match rest {
        Ok(entries) => {
            assert(a + (b + entries) =~= (a + b) + entries);
        },
        Err(_) => {},
    }
}

/// One more contained entry behind the last old entry is appended.
proof fn lemma_leftover_step(old: Seq<Entry>, new: Seq<Entry>, dirty: Box2d, i: int, j: int)
    requires
        i >= old.len(),
        0 <= j < new.len(),
    ensures
        new[j].bounds.spec_contained_by(&dirty) ==> merge_from(old, new, dirty, i, j) == prepend(
            seq![new[j]],
            merge_from(old, new, dirty, i, j + 1),
        ),
        !new[j].bounds.spec_contained_by(&dirty) ==> merge_from(old, new, dirty, i, j) == Err::<
            Seq<Entry>,
            MergeError,
        >(MergeError::UncontainedItemLeft),
{
    if new[j].bounds.spec_contained_by(&dirty) {
        if all_contained_from(new, dirty, j + 1) {
            assert(all_contained_from(new, dirty, j));
            assert(new.subrange(j, new.len() as int) =~= seq![new[j]] + new.subrange(
                j + 1,
                new.len() as int,
            ));
        } else {
            assert(!all_contained_from(new, dirty, j));
        }
    } else {
        assert(!all_contained_from(new, dirty, j));
    }
}

/// With nothing new, the old entries from `old[i]` on that the dirty
/// rectangle does not touch all stay.
proof fn lemma_untouched_stay(old: Seq<Entry>, dirty: Box2d, i: int)
    requires
        0 <= i <= old.len(),
        forall|k: int|
            0 <= k < old.len() ==> (#[trigger] old[k]).bounds.spec_placement(&dirty)
                == Placement::Outside,
    ensures
        merge_from(old, Seq::<Entry>::empty(), dirty, i, 0) == Ok::<Seq<Entry>, MergeError>(
            old.subrange(i, old.len() as int),
        ),
    decreases old.len() - i,
{
    let none = Seq::<Entry>::empty();
    if i < old.len() {
        lemma_untouched_stay(old, dirty, i + 1);
        assert(seq![old[i]] + old.subrange(i + 1, old.len() as int) =~= old.subrange(
            i,
            old.len() as int,
        ));
    } else {
        assert(none.subrange(0, none.len() as int) =~= old.subrange(i, old.len() as int));
    }
}

/// Merging a buffer with a new buffer that holds no entry, along a dirty
/// rectangle that touches none of its entries, gives its entries back, the
/// same ones in the same order; and where they fill its data region, the
/// same bytes. (A buffer without entries does not merge: nothing would be
/// left.)
pub proof fn lemma_merge_identity(old: Seq<u8>, new: Seq<u8>, dirty_rect: DeviceUintRect)
    requires
        dirty_rect.representable(),
        valid_buffer(old),
        valid_buffer(new),
        buffer_entries(new).len() == 0,
        buffer_entries(old).len() > 0,
        forall|k: int|
            0 <= k < buffer_entries(old).len() ==> (#[trigger] buffer_entries(
                old,
            )[k]).bounds.spec_placement(&dirty_rect.spec_to_box()) == Placement::Outside,
    ensures
        merge_outcome(old, new, dirty_rect) == Ok::<Seq<Entry>, MergeError>(buffer_entries(old)),
        canonical_buffer(old) ==> encoded(buffer_entries(old)) == old,
{
    let entries = buffer_entries(old);
    assert(buffer_entries(new) =~= Seq::<Entry>::empty());
    lemma_untouched_stay(entries, dirty_rect.spec_to_box(), 0);
    assert(entries.subrange(0, entries.len() as int) =~= entries);
    if canonical_buffer(old) {
        lemma_canonical_is_encoded(old);
    }
}

/// With nothing new, of old entries that all lie inside the dirty rectangle
/// none stays.
proof fn lemma_contained_go(old: Seq<Entry>, dirty: Box2d, i: int)
    requires
        0 <= i <= old.len(),
        forall|k: int|
            0 <= k < old.len() ==> (#[trigger] old[k]).bounds.spec_contained_by(&dirty),
    ensures
        merge_from(old, Seq::<Entry>::empty(), dirty, i, 0) == Ok::<Seq<Entry>, MergeError>(
            Seq::<Entry>::empty(),
        ),
    decreases old.len() - i,
{
    let none = Seq::<Entry>::empty();
    if i < old.len() {
        lemma_contained_go(old, dirty, i + 1);
    } else {
        assert(none.subrange(0, none.len() as int) =~= none);
    }
}

/// A buffer whose entries all lie inside the dirty rectangle does not merge
/// with a new buffer that holds no entry: the result would be empty.
pub proof fn lemma_merge_replacement(old: Seq<u8>, new: Seq<u8>, dirty_rect: DeviceUintRect)
    requires
        dirty_rect.representable(),
        valid_buffer(old),
        valid_buffer(new),
        buffer_entries(new).len() == 0,
        forall|k: int|
            0 <= k < buffer_entries(old).len() ==> (#[trigger] buffer_entries(
                old,
            )[k]).bounds.spec_contained_by(&dirty_rect.spec_to_box()),
    ensures
        merge_outcome(old, new, dirty_rect) == Err::<Seq<Entry>, MergeError>(
            MergeError::EmptyResult,
        ),
{
    assert(buffer_entries(new) =~= Seq::<Entry>::empty());
    lemma_contained_go(buffer_entries(old), dirty_rect.spec_to_box(), 0);
}

/// Two synchronization points merge with two new entries that cross the
/// border, whichever of the two old entries each of them once was: the first
/// new one comes in at the first point, the second at the second, and the old
/// entries that the dirty rectangle does not touch stay where they are. The
/// merge has as many entries as the old buffer.
pub proof fn lemma_merge_reordered(old: Seq<u8>, new: Seq<u8>, dirty_rect: DeviceUintRect)
    requires
        dirty_rect.representable(),
        valid_buffer(old),
        valid_buffer(new),
        buffer_entries(old).len() == 4,
        buffer_entries(new).len() == 2,
        buffer_entries(old)[0].bounds.spec_placement(&dirty_rect.spec_to_box())
            == Placement::Outside,
        buffer_entries(old)[1].bounds.spec_placement(&dirty_rect.spec_to_box())
            == Placement::Overlapping,
        buffer_entries(old)[2].bounds.spec_placement(&dirty_rect.spec_to_box())
            == Placement::Outside,
        buffer_entries(old)[3].bounds.spec_placement(&dirty_rect.spec_to_box())
            == Placement::Overlapping,
        buffer_entries(new)[0].bounds.spec_placement(&dirty_rect.spec_to_box())
            == Placement::Overlapping,
        buffer_entries(new)[1].bounds.spec_placement(&dirty_rect.spec_to_box())
            == Placement::Overlapping,
    ensures
        merge_outcome(old, new, dirty_rect) == Ok::<Seq<Entry>, MergeError>(
            seq![
                buffer_entries(old)[0],
                buffer_entries(new)[0],
                buffer_entries(old)[2],
                buffer_entries(new)[1],
            ],
        ),
{
    let dirty = dirty_rect.spec_to_box();
    let old = buffer_entries(old);
    let new = buffer_entries(new);
    assert(sync_scan(new, dirty, 0) == Ok::<int, MergeError>(1));
    assert(sync_scan(new, dirty, 1) == Ok::<int, MergeError>(2));
    assert(all_contained_from(new, dirty, 2));
    assert(new.subrange(2, 2) =~= Seq::<Entry>::empty());
    assert(merge_from(old, new, dirty, 4, 2) == Ok::<Seq<Entry>, MergeError>(Seq::empty()));
    assert(new.subrange(1, 2) + Seq::<Entry>::empty() =~= seq![new[1]]);
    assert(merge_from(old, new, dirty, 3, 1) == Ok::<Seq<Entry>, MergeError>(seq![new[1]]));
    assert(seq![old[2]] + seq![new[1]] =~= seq![old[2], new[1]]);
    assert(merge_from(old, new, dirty, 2, 1) == Ok::<Seq<Entry>, MergeError>(
        seq![old[2], new[1]],
    ));
    assert(new.subrange(0, 1) + seq![old[2], new[1]] =~= seq![new[0], old[2], new[1]]);
    assert(merge_from(old, new, dirty, 1, 0) == Ok::<Seq<Entry>, MergeError>(
        seq![new[0], old[2], new[1]],
    ));
    assert(seq![old[0]] + seq![new[0], old[2], new[1]] =~= seq![old[0], new[0], old[2], new[1]]);
    assert(merge_from(old, new, dirty, 0, 0) == Ok::<Seq<Entry>, MergeError>(
        seq![old[0], new[0], old[2], new[1]],
    ));
}

/// Where the walk succeeds, it keeps the old entries that the dirty
/// rectangle does not touch and takes in every new entry that is left.
proof fn lemma_merge_from_count(old: Seq<Entry>, new: Seq<Entry>, dirty: Box2d, i: int, j: int)
    requires
        0 <= i,
        0 <= j <= new.len(),
    ensures
        merge_from(old, new, dirty, i, j) matches Ok(entries) ==> entries.len() == untouched_count(
            old,
            dirty,
            i,
        ) + new.len() - j,
    decreases old.len() - i,
{
    if i < old.len() {
        match old[i].bounds.spec_placement(&dirty) {
            Placement::Contained => {
                lemma_merge_from_count(old, new, dirty, i + 1, j);
            },
            Placement::Overlapping => {
                lemma_sync_scan_result(new, dirty, j);
                match sync_scan(new, dirty, j) {
                    Ok(next) => {
                        lemma_merge_from_count(old, new, dirty, i + 1, next);
                    },
                    Err(_) => {},
                }
            },
            Placement::Outside => {
                lemma_merge_from_count(old, new, dirty, i + 1, j);
            },
        }
    }
}

/// A merge has as many entries as there are old entries that the dirty
/// rectangle does not touch and new entries: none of these is lost, and none
/// comes in twice.
pub proof fn lemma_merged_count(old: Seq<u8>, new: Seq<u8>, dirty_rect: DeviceUintRect)
    ensures
        merge_outcome(old, new, dirty_rect) matches Ok(entries) ==> entries.len()
            == untouched_count(buffer_entries(old), dirty_rect.spec_to_box(), 0) + buffer_entries(
            new,
        ).len(),
{
    lemma_merge_from_count(
        buffer_entries(old),
        buffer_entries(new),
        dirty_rect.spec_to_box(),
        0,
        0,
    );
}

/// Where the scan from `new[j]` succeeds, no entry that it passes lies
/// outside the dirty rectangle.
proof fn lemma_scanned_are_inside(new: Seq<Entry>, dirty: Box2d, j: int)
    requires
        0 <= j <= new.len(),
    ensures
        sync_scan(new, dirty, j) matches Ok(next) ==> j <= next <= new.len() && forall|n: int|
            j <= n < next ==> (#[trigger] new[n]).bounds.spec_placement(&dirty)
                != Placement::Outside,
    decreases new.len() - j,
{
    if j < new.len() && new[j].bounds.spec_placement(&dirty) == Placement::Contained {
        lemma_scanned_are_inside(new, dirty, j + 1);
    }
}

/// Where the walk from `old[i]` and `new[j]` succeeds, every entry that it
/// puts out is an old entry that the dirty rectangle does not touch or a new
/// entry, and no new entry from `new[j]` on lies outside the dirty rectangle.
proof fn lemma_merge_from_sources(old: Seq<Entry>, new: Seq<Entry>, dirty: Box2d, i: int, j: int)
    requires
        0 <= i,
        0 <= j <= new.len(),
    ensures
        merge_from(old, new, dirty, i, j) matches Ok(entries) ==> {
            &&& forall|n: int|
                0 <= n < entries.len() ==> merged_from_either(old, new, dirty, #[trigger] entries[n])
            &&& forall|n: int|
                j <= n < new.len() ==> (#[trigger] new[n]).bounds.spec_placement(&dirty)
                    != Placement::Outside
        },
    decreases old.len() - i,
{
    if i >= old.len() {
        if all_contained_from(new, dirty, j) {
            let rest = new.subrange(j, new.len() as int);
            assert forall|n: int| 0 <= n < rest.len() implies merged_from_either(
                old,
                new,
                dirty,
                #[trigger] rest[n],
            ) by {
                assert(rest[n] == new[j + n]);
            }
            assert forall|n: int| j <= n < new.len() implies (#[trigger] new[n]).bounds.spec_placement(
                &dirty,
            ) != Placement::Outside by {
                assert(new[n].bounds.spec_contained_by(&dirty));
            }
        }
    } else {
        match old[i].bounds.spec_placement(&dirty) {
            Placement::Contained => {
                lemma_merge_from_sources(old, new, dirty, i + 1, j);
            },
            Placement::Overlapping => {
                lemma_scanned_are_inside(new, dirty, j);
                match sync_scan(new, dirty, j) {
                    Ok(next) => {
                        lemma_merge_from_sources(old, new, dirty, i + 1, next);
                        match merge_from(old, new, dirty, i + 1, next) {
                            Ok(rest) => {
                                let run = new.subrange(j, next);
                                let entries = run + rest;
                                assert forall|n: int|
                                    0 <= n < entries.len() implies merged_from_either(
                                    old,
                                    new,
                                    dirty,
                                    #[trigger] entries[n],
                                ) by {
                                    if n < run.len() {
                                        assert(entries[n] == new[j + n]);
                                    } else {
                                        assert(entries[n] == rest[n - run.len()]);
                                    }
                                }
                            },
                            Err(_) => {},
                        }
                    },
                    Err(_) => {},
                }
            },
            Placement::Outside => {
                lemma_merge_from_sources(old, new, dirty, i + 1, j);
                match merge_from(old, new, dirty, i + 1, j) {
                    Ok(rest) => {
                        let entries = seq![old[i]] + rest;
                        assert forall|n: int| 0 <= n < entries.len() implies merged_from_either(
                            old,
                            new,
                            dirty,
                            #[trigger] entries[n],
                        ) by {
                            if n == 0 {
                                assert(entries[n] == old[i]);
                            } else {
                                assert(entries[n] == rest[n - 1]);
                            }
                        }
                    },
                    Err(_) => {},
                }
            },
        }
    }
}

/// Where two buffers merge, the merge makes nothing up and lets nothing in
/// that does not repaint the dirty rectangle: each of its entries is an old
/// entry that the dirty rectangle does not touch or a new entry, as it was;
/// and every new entry lies inside the dirty rectangle or crosses its border.
pub proof fn lemma_merged_sources(old: Seq<u8>, new: Seq<u8>, dirty_rect: DeviceUintRect)
    ensures
        merge_outcome(old, new, dirty_rect) matches Ok(entries) ==> {
            &&& forall|n: int|
                0 <= n < entries.len() ==> merged_from_either(
                    buffer_entries(old),
                    buffer_entries(new),
                    dirty_rect.spec_to_box(),
                    #[trigger] entries[n],
                )
            &&& forall|n: int|
                0 <= n < buffer_entries(new).len() ==> (#[trigger] buffer_entries(
                    new,
                )[n]).bounds.spec_placement(&dirty_rect.spec_to_box()) != Placement::Outside
        },
{
    lemma_merge_from_sources(
        buffer_entries(old),
        buffer_entries(new),
        dirty_rect.spec_to_box(),
        0,
        0,
    );
}

/// A scan that passes only entries inside the dirty rectangle before it meets
/// one outside of it fails.
proof fn lemma_scan_meets_outside(new: Seq<Entry>, dirty: Box2d, from: int, k: int)
    requires
        0 <= from <= k < new.len(),
        forall|n: int| from <= n < k ==> (#[trigger] new[n]).bounds.spec_contained_by(&dirty),
        new[k].bounds.spec_placement(&dirty) == Placement::Outside,
    ensures
        sync_scan(new, dirty, from) == Err::<int, MergeError>(
            MergeError::NewBoundsOutsideDirtyRect,
        ),
    decreases k - from,
{
    if from < k {
        lemma_scan_meets_outside(new, dirty, from + 1, k);
    }
}

/// A new entry that lies outside the dirty rectangle and is met by the scan
/// from a synchronization point keeps the buffers from merging.
///
/// The walk has come to the old entry `i`, which crosses the border, and to
/// the new entry `j`, and has put out `prefix`. From `j` on the scan passes
/// entries inside the dirty rectangle, until it meets the new entry `k`, which
/// is outside.
pub proof fn lemma_merge_new_outside(
    old: Seq<u8>,
    new: Seq<u8>,
    dirty_rect: DeviceUintRect,
    prefix: Seq<Entry>,
    i: int,
    j: int,
    k: int,
)
    requires
        dirty_rect.representable(),
        valid_buffer(old),
        valid_buffer(new),
        merge_from(buffer_entries(old), buffer_entries(new), dirty_rect.spec_to_box(), 0, 0)
            == prepend(
            prefix,
            merge_from(buffer_entries(old), buffer_entries(new), dirty_rect.spec_to_box(), i, j),
        ),
        0 <= i < buffer_entries(old).len(),
        buffer_entries(old)[i].bounds.spec_placement(&dirty_rect.spec_to_box())
            == Placement::Overlapping,
        0 <= j <= k < buffer_entries(new).len(),
        forall|n: int|
            j <= n < k ==> (#[trigger] buffer_entries(new)[n]).bounds.spec_contained_by(
                &dirty_rect.spec_to_box(),
            ),
        buffer_entries(new)[k].bounds.spec_placement(&dirty_rect.spec_to_box())
            == Placement::Outside,
    ensures
        merge_outcome(old, new, dirty_rect) == Err::<Seq<Entry>, MergeError>(
            MergeError::NewBoundsOutsideDirtyRect,
        ),
{
    lemma_scan_meets_outside(buffer_entries(new), dirty_rect.spec_to_box(), j, k);
}

/// The old entries before the first synchronization point are put out or
/// dropped, and the walk comes to that point with every new entry still to
/// come.
proof fn lemma_first_sync_reached(old: Seq<Entry>, new: Seq<Entry>, dirty: Box2d, i: int, from: int)
    requires
        0 <= from <= i < old.len(),
        forall|n: int|
            0 <= n < i ==> (#[trigger] old[n]).bounds.spec_placement(&dirty)
                != Placement::Overlapping,
    ensures
        exists|prefix: Seq<Entry>|
            merge_from(old, new, dirty, from, 0) == prepend(
                prefix,
                merge_from(old, new, dirty, i, 0),
            ),
    decreases i - from,
{
    if from < i {
        lemma_first_sync_reached(old, new, dirty, i, from + 1);
        let rest = choose|prefix: Seq<Entry>|
            merge_from(old, new, dirty, from + 1, 0) == prepend(
                prefix,
                merge_from(old, new, dirty, i, 0),
            );
        if old[from].bounds.spec_placement(&dirty) == Placement::Outside {
            lemma_prepend_twice(seq![old[from]], rest, merge_from(old, new, dirty, i, 0));
            assert(merge_from(old, new, dirty, from, 0) == prepend(
                seq![old[from]] + rest,
                merge_from(old, new, dirty, i, 0),
            ));
        } else {
            assert(merge_from(old, new, dirty, from, 0) == prepend(
                rest,
                merge_from(old, new, dirty, i, 0),
            ));
        }
    } else {
        let none = Seq::<Entry>::empty();
        match merge_from(old, new, dirty, i, 0) {
            Ok(entries) => {
                assert(none + entries =~= entries);
            },
            Err(_) => {},
        }
        assert(merge_from(old, new, dirty, from, 0) == prepend(
            none,
            merge_from(old, new, dirty, i, 0),
        ));
    }
}

/// A new entry that lies outside the dirty rectangle and that no new entry
/// crossing the border comes before keeps the buffers from merging, where
/// any old entry crosses the border: the scan from the first synchronization
/// point meets it.
pub proof fn lemma_merge_new_outside_at_first(
    old: Seq<u8>,
    new: Seq<u8>,
    dirty_rect: DeviceUintRect,
    i: int,
    k: int,
)
    requires
        dirty_rect.representable(),
        valid_buffer(old),
        valid_buffer(new),
        0 <= i < buffer_entries(old).len(),
        buffer_entries(old)[i].bounds.spec_placement(&dirty_rect.spec_to_box())
            == Placement::Overlapping,
        0 <= k < buffer_entries(new).len(),
        forall|n: int|
            0 <= n < k ==> (#[trigger] buffer_entries(new)[n]).bounds.spec_contained_by(
                &dirty_rect.spec_to_box(),
            ),
        buffer_entries(new)[k].bounds.spec_placement(&dirty_rect.spec_to_box())
            == Placement::Outside,
    ensures
        merge_outcome(old, new, dirty_rect) == Err::<Seq<Entry>, MergeError>(
            MergeError::NewBoundsOutsideDirtyRect,
        ),
{
    let dirty = dirty_rect.spec_to_box();
    let old_entries = buffer_entries(old);
    let new_entries = buffer_entries(new);
    let first = choose|first: int|
        0 <= first <= i && old_entries[first].bounds.spec_placement(&dirty)
            == Placement::Overlapping && forall|n: int|
            0 <= n < first ==> (#[trigger] old_entries[n]).bounds.spec_placement(&dirty)
                != Placement::Overlapping;
    lemma_first_overlapping(old_entries, dirty, i);
    lemma_first_sync_reached(old_entries, new_entries, dirty, first, 0);
    let prefix = choose|prefix: Seq<Entry>|
        merge_from(old_entries, new_entries, dirty, 0, 0) == prepend(
            prefix,
            merge_from(old_entries, new_entries, dirty, first, 0),
        );
    lemma_merge_new_outside(old, new, dirty_rect, prefix, first, 0, k);
}

/// Where an entry crosses the border, one is the first to do so.
proof fn lemma_first_overlapping(old: Seq<Entry>, dirty: Box2d, i: int)
    requires
        0 <= i < old.len(),
        old[i].bounds.spec_placement(&dirty) == Placement::Overlapping,
    ensures
        exists|first: int|
            0 <= first <= i && old[first].bounds.spec_placement(&dirty) == Placement::Overlapping
                && forall|n: int|
                0 <= n < first ==> (#[trigger] old[n]).bounds.spec_placement(&dirty)
                    != Placement::Overlapping,
    decreases i,
{
    if exists|n: int|
        0 <= n < i && (#[trigger] old[n]).bounds.spec_placement(&dirty) == Placement::Overlapping {
        let n = choose|n: int|
            0 <= n < i && (#[trigger] old[n]).bounds.spec_placement(&dirty)
                == Placement::Overlapping;
        lemma_first_overlapping(old, dirty, n);
        let first = choose|first: int|
            0 <= first <= n && old[first].bounds.spec_placement(&dirty) == Placement::Overlapping
                && forall|m: int|
                0 <= m < first ==> (#[trigger] old[m]).bounds.spec_placement(&dirty)
                    != Placement::Overlapping;
        assert(0 <= first <= i);
    } else {
        assert(forall|n: int|
            0 <= n < i ==> (#[trigger] old[n]).bounds.spec_placement(&dirty)
                != Placement::Overlapping);
    }
}

} // verus!
