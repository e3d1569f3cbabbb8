//! The fonts that the entries of a command buffer refer to.
//!
//! The extra data of an entry is a count followed by that many font keys.

use vstd::prelude::*;
use vstd::slice::slice_subrange;
use crate::buffer::{
    buffer_entries, create_index_reader, encoded, entry_begin, font_key_at, index_of,
    is_valid_buffer, lemma_entry_slice, record_count, valid_buffer, BufReader, Entry,
};
use crate::geometry::DeviceUintRect;
use crate::keys::FontKey;
use crate::merge::{lemma_merged_sources, merge_outcome, merged_from_either};
use crate::wire::{word_at, WORD_SIZE};

verus! {

/// The width in bytes of a font key.
pub const FONT_KEY_SIZE: usize = 8;

/// The number of font keys that the extra data `extra` announces.
pub open spec fn font_count(extra: Seq<u8>) -> int {
    word_at(extra, 0)
}

/// `extra` holds a count and as many font keys as the count says.
pub open spec fn font_list_ok(extra: Seq<u8>) -> bool {
    extra.len() >= 8 && 8 + 8 * font_count(extra) <= extra.len()
}

/// The font keys that the extra data `extra` lists, in order.
pub open spec fn font_keys(extra: Seq<u8>) -> Seq<FontKey> {
    Seq::new(font_count(extra) as nat, |k: int| font_key_at(extra, 8 + 8 * k))
}

/// The font keys that the first `k` of `entries` list, in order.
pub open spec fn fonts_upto(entries: Seq<Entry>, k: int) -> Seq<FontKey>
    decreases k,
{
    if k <= 0 {
        Seq::empty()
    } else {
        fonts_upto(entries, k - 1) + font_keys(entries[k - 1].extra)
    }
}

/// `b` is a command buffer, and the extra data of each of its entries is a
/// list of font keys.
pub open spec fn fonts_ok(b: Seq<u8>) -> bool {
    &&& valid_buffer(b)
    &&& forall|k: int|
        0 <= k < buffer_entries(b).len() ==> font_list_ok((#[trigger] buffer_entries(b)[k]).extra)
}

/// The font keys that the entries of the command buffer `b` list, entry by
/// entry, each as often as it is listed.
pub open spec fn buffer_fonts(b: Seq<u8>) -> Seq<FontKey> {
    fonts_upto(buffer_entries(b), buffer_entries(b).len() as int)
}

/// Merging keeps the font lists whole: where the entries of two buffers list
/// their fonts and the buffers merge, the entries of the merged buffer list
/// their fonts.
pub proof fn lemma_merge_keeps_font_lists(old: Seq<u8>, new: Seq<u8>, dirty_rect: DeviceUintRect)
    requires
        fonts_ok(old),
        fonts_ok(new),
        merge_outcome(old, new, dirty_rect) is Ok,
        valid_buffer(encoded(merge_outcome(old, new, dirty_rect)->Ok_0)),
        buffer_entries(encoded(merge_outcome(old, new, dirty_rect)->Ok_0)) == merge_outcome(
            old,
            new,
            dirty_rect,
        )->Ok_0,
    ensures
        fonts_ok(encoded(merge_outcome(old, new, dirty_rect)->Ok_0)),
{
    let entries = merge_outcome(old, new, dirty_rect)->Ok_0;
    lemma_merged_sources(old, new, dirty_rect);
    assert forall|k: int| 0 <= k < entries.len() implies font_list_ok(
        (#[trigger] entries[k]).extra,
    ) by {
        assert(merged_from_either(
            buffer_entries(old),
            buffer_entries(new),
            dirty_rect.spec_to_box(),
            entries[k],
        ));
    }
}

/// Appends to `fonts` the font keys that the extra data under `extra_data`
/// lists. Returns whether the extra data is such a list; where it is not,
/// `fonts` stays as it is.
pub fn collect_fonts(mut extra_data: BufReader, fonts: &mut Vec<FontKey>) -> (ok: bool)
    requires
        extra_data.pos == 0,
    ensures
        ok == font_list_ok(extra_data.buf@),
        final(fonts)@ == if ok {
            old(fonts)@ + font_keys(extra_data.buf@)
        } else {
            old(fonts)@
        },
{
    let len = extra_data.buf.len();
    if len < WORD_SIZE {
        return false;
    }
    let font_count = extra_data.read_word();
    if font_count > ((len - WORD_SIZE) / FONT_KEY_SIZE) as u64 {
        return false;
    }
    let ghost extra = extra_data.buf@;
    let mut k: u64 = 0;
    while k < font_count
        invariant
            extra_data.buf@ == extra,
            extra.len() == len,
            font_count == self::font_count(extra),
            8 + 8 * font_count <= len,
            k <= font_count,
            extra_data.pos == 8 + 8 * k,
            fonts@ == old(fonts)@ + font_keys(extra).subrange(0, k as int),
        decreases font_count - k,
    {
        let key = extra_data.read_font_key();
        fonts.push(key);
        proof {
            assert(font_keys(extra).subrange(0, k + 1) =~= font_keys(extra).subrange(
                0,
                k as int,
            ).push(font_keys(extra)[k as int]));
        }
        k = k + 1;
    }
    proof {
        assert(font_keys(extra).subrange(0, k as int) =~= font_keys(extra));
    }
    true
}

/// The font keys that the entries of the command buffer `commands` list,
/// entry by entry, or `None` where `commands` is no command buffer or the
/// extra data of an entry is no list of font keys.
pub fn referenced_fonts(commands: &[u8]) -> (r: Option<Vec<FontKey>>)
    ensures
        match r {
            Some(fonts) => fonts_ok(commands@) && fonts@ == buffer_fonts(commands@),
            None => !fonts_ok(commands@),
        },
{
    if !is_valid_buffer(commands) {
        return None;
    }
    let mut fonts: Vec<FontKey> = Vec::new();
    let mut index = create_index_reader(commands);
    let ghost entries = buffer_entries(commands@);
    let ghost mut k: int = 0;
    assert(commands@.len() == commands.len());
    while index.pos < index.buf.len()
        invariant
            valid_buffer(commands@),
            commands@.len() <= usize::MAX,
            entries == buffer_entries(commands@),
            index.buf@ == index_of(commands@),
            index.pos == 32 * k,
            0 <= k <= record_count(index_of(commands@)),
            entries.len() == record_count(index_of(commands@)),
            fonts@ == fonts_upto(entries, k),
            forall|n: int| 0 <= n < k ==> font_list_ok((#[trigger] entries[n]).extra),
        decreases index.buf.len() - index.pos,
    {
        proof {
            lemma_entry_slice(commands@, k);
        }
        let (end, extra_end, _) = index.read_entry();
        let extra = slice_subrange(commands, end, extra_end);
        proof {
            let begin = entry_begin(index_of(commands@), k);
            let data = commands@.subrange(begin, extra_end as int);
            assert(extra@ =~= data.subrange(end - begin, data.len() as int));
            assert(extra@ == entries[k].extra);
        }
        if !collect_fonts(BufReader::new(extra), &mut fonts) {
            return None;
        }
        proof {
            k = k + 1;
        }
    }
    Some(fonts)
}

} // verus!
