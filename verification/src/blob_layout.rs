//! What it means for a blob to hold given tags, and what the reader makes of
//! such a blob. These are statements about every blob, proved once; the reader
//! itself is in `boot_info`.

use crate::boot_info::{
    blob_tags, extent, header_of, header_valid, le_u32, tag_area, tag_at, tag_fits, tags_from,
    TagView, END_TAG_TYPE, TAG_HEADER_LEN,
};
use vstd::prelude::*;

verus! {

/// Where tag `i` starts when `tags` lie back to back, each on its extent: the
/// sum of the extents of the tags before it. With `i == tags.len()`, the
/// length of the whole stream.
pub open spec fn offset_of(tags: Seq<TagView>, i: int) -> int
    decreases i,
{
    if i <= 0 {
        0
    } else {
        offset_of(tags, i - 1) + extent(tags[i - 1].size as int)
    }
}

/// Whether the stream `area` holds `tag` at offset `at`, whole.
pub open spec fn holds_tag(area: Seq<u8>, at: int, tag: TagView) -> bool {
    tag_fits(area, at) && tag_at(area, at) == tag
}

/// Whether `area` holds tag `i` of `tags` where the tags before it leave off,
/// and that tag does not end the stream.
pub open spec fn holds_open_tag(area: Seq<u8>, tags: Seq<TagView>, i: int) -> bool {
    holds_tag(area, offset_of(tags, i), tags[i]) && tags[i].type_id != END_TAG_TYPE
}

/// Whether `area` holds the first `n` tags of `tags` back to back from its
/// start, none of them a terminating tag.
pub open spec fn holds_open_run(area: Seq<u8>, tags: Seq<TagView>, n: int) -> bool {
    forall|i: int| 0 <= i < n ==> #[trigger] holds_open_tag(area, tags, i)
}

/// Whether `area` holds all of `tags` back to back from its start, the last
/// of them a terminating tag and no other.
pub open spec fn holds_stream(area: Seq<u8>, tags: Seq<TagView>) -> bool {
    &&& tags.len() > 0
    &&& holds_open_run(area, tags, tags.len() - 1)
    &&& holds_tag(area, offset_of(tags, tags.len() - 1), tags.last())
    &&& tags.last().type_id == END_TAG_TYPE
}

/// Whether `bytes` is a blob that encodes `tags`: its header is valid and its
/// stream holds the tags back to back, the terminating tag last. A blob whose
/// `total_size` is the sum of the extents of its tags is the plain case; bytes
/// after the terminating tag do no harm.
pub open spec fn encodes(bytes: Seq<u8>, tags: Seq<TagView>) -> bool {
    header_valid(bytes) && holds_stream(tag_area(bytes), tags)
}

proof fn lemma_walk_of_encoded(area: Seq<u8>, tags: Seq<TagView>, k: int)
    requires
        holds_stream(area, tags),
        0 <= k < tags.len(),
    ensures
        tags_from(area, offset_of(tags, k)) == Some(tags.subrange(k, tags.len() as int)),
    decreases tags.len() - k,
{
    let n = tags.len() as int;
    if k == n - 1 {
        assert(tags.subrange(k, n) =~= seq![tags[k]]);
    } else {
        lemma_walk_of_encoded(area, tags, k + 1);
        assert(holds_open_tag(area, tags, k));
        assert(offset_of(tags, k + 1) == offset_of(tags, k) + extent(tags[k].size as int));
        assert(tags.subrange(k, n) =~= seq![tags[k]] + tags.subrange(k + 1, n));
    }
}

/// Walking a blob that encodes `tags` yields exactly those tags, in order,
/// and ends at the terminating tag.
pub proof fn lemma_encoded_tags_are_read_back(bytes: Seq<u8>, tags: Seq<TagView>)
    requires
        encodes(bytes, tags),
    ensures
        blob_tags(bytes) == Some(tags),
{
    lemma_walk_of_encoded(tag_area(bytes), tags, 0);
    assert(tags.subrange(0, tags.len() as int) =~= tags);
}

proof fn lemma_walk_of_open_run(area: Seq<u8>, tags: Seq<TagView>, n: int, k: int)
    requires
        0 <= k <= n <= tags.len(),
        holds_open_run(area, tags, n),
        !tag_fits(area, offset_of(tags, n)),
    ensures
        tags_from(area, offset_of(tags, k)) is None,
    decreases n - k,
{
    if k < n {
        lemma_walk_of_open_run(area, tags, n, k + 1);
        assert(holds_open_tag(area, tags, k));
        assert(offset_of(tags, k + 1) == offset_of(tags, k) + extent(tags[k].size as int));
    }
}

/// A blob without a terminating tag is malformed: where the stream holds
/// `tags`, none of them terminating, and leaves no room for a further tag,
/// the walk fails.
pub proof fn lemma_missing_terminator_is_malformed(bytes: Seq<u8>, tags: Seq<TagView>)
    requires
        header_valid(bytes),
        holds_open_run(tag_area(bytes), tags, tags.len() as int),
        offset_of(tags, tags.len() as int) + TAG_HEADER_LEN > tag_area(bytes).len(),
    ensures
        blob_tags(bytes) is None,
{
    lemma_walk_of_open_run(tag_area(bytes), tags, tags.len() as int, 0);
}

/// A blob whose tags claim more room than `total_size` is malformed: where
/// the stream holds the tags before the last, none of them terminating, and
/// the size that the last one declares carries it past the end of the
/// stream, the walk fails.
pub proof fn lemma_overrun_is_malformed(bytes: Seq<u8>, tags: Seq<TagView>)
    requires
        header_valid(bytes),
        tags.len() > 0,
        holds_open_run(tag_area(bytes), tags, tags.len() - 1),
        le_u32(tag_area(bytes), offset_of(tags, tags.len() - 1) + 4) == tags.last().size,
        offset_of(tags, tags.len() - 1) + tags.last().size > tag_area(bytes).len(),
    ensures
        blob_tags(bytes) is None,
{
    lemma_walk_of_open_run(tag_area(bytes), tags, tags.len() - 1, 0);
}

/// Whether tag `i` of `tags` lies whole at its place in a stream that starts
/// at offset `at` of `area`, and ends that stream exactly if it is the last.
spec fn in_place(area: Seq<u8>, at: int, tags: Seq<TagView>, i: int) -> bool {
    &&& holds_tag(area, at + offset_of(tags, i), tags[i])
    &&& tags[i].type_id == END_TAG_TYPE <==> i == tags.len() - 1
}

proof fn lemma_offset_after_first(first: TagView, rest: Seq<TagView>, i: int)
    requires
        0 <= i <= rest.len(),
    ensures
        offset_of(seq![first] + rest, i + 1) == extent(first.size as int) + offset_of(rest, i),
    decreases i,
{
    let tags = seq![first] + rest;
    if i > 0 {
        lemma_offset_after_first(first, rest, i - 1);
        assert(tags[i] == rest[i - 1]);
    } else {
        assert(tags[0] == first);
        assert(offset_of(tags, 0) == 0);
    }
}

proof fn lemma_walk_puts_in_place(area: Seq<u8>, at: int, tags: Seq<TagView>)
    requires
        tags_from(area, at) == Some(tags),
    ensures
        tags.len() > 0,
        forall|i: int| 0 <= i < tags.len() ==> #[trigger] in_place(area, at, tags, i),
    decreases area.len() + TAG_HEADER_LEN - at,
{
    let tag = tag_at(area, at);
    if tag.type_id == END_TAG_TYPE {
        assert(tags =~= seq![tag]);
        assert(in_place(area, at, tags, 0));
    } else {
        let next = at + extent(tag.size as int);
        let rest = tags_from(area, next)->0;
        assert(tags == seq![tag] + rest);
        lemma_walk_puts_in_place(area, next, rest);
        assert forall|i: int| 0 <= i < tags.len() implies #[trigger] in_place(area, at, tags, i) by {
            if i == 0 {
                assert(tags[0] == tag);
            } else {
                assert(in_place(area, next, rest, i - 1));
                assert(tags[i] == rest[i - 1]);
                lemma_offset_after_first(tag, rest, i - 1);
            }
        }
    }
}

/// What a walk yields is what the blob encodes: the tags that are read lie in
/// the stream back to back, each whole, and the terminating tag is the last
/// of them and the only one.
pub proof fn lemma_read_tags_are_encoded(bytes: Seq<u8>, tags: Seq<TagView>)
    requires
        blob_tags(bytes) == Some(tags),
    ensures
        encodes(bytes, tags),
{
    let area = tag_area(bytes);
    lemma_walk_puts_in_place(area, 0, tags);
    assert forall|i: int| 0 <= i < tags.len() - 1 implies #[trigger] holds_open_tag(
        area,
        tags,
        i,
    ) by {
        assert(in_place(area, 0, tags, i));
    }
    assert(in_place(area, 0, tags, tags.len() - 1));
}

/// Every tag starts on a multiple of 8.
pub proof fn lemma_offsets_are_aligned(tags: Seq<TagView>, i: int)
    ensures
        offset_of(tags, i) % 8 == 0,
    decreases i,
{
    if i > 0 {
        lemma_offsets_are_aligned(tags, i - 1);
    }
}

/// What holds of every tag that a walk yields: it is at least as long as its
/// type/size pair and as long as that pair and its payload together, it
/// starts on a multiple of 8, it ends within `total_size`, and it is the
/// terminating tag exactly if it is the last.
pub proof fn lemma_read_tags_keep_the_layout(bytes: Seq<u8>, tags: Seq<TagView>, i: int)
    requires
        blob_tags(bytes) == Some(tags),
        0 <= i < tags.len(),
    ensures
        tags[i].size >= TAG_HEADER_LEN,
        tags[i].size == TAG_HEADER_LEN + tags[i].payload.len(),
        offset_of(tags, i) % 8 == 0,
        offset_of(tags, i) + tags[i].size <= header_of(bytes).total_size,
        tags[i].type_id == END_TAG_TYPE <==> i == tags.len() - 1,
{
    lemma_walk_puts_in_place(tag_area(bytes), 0, tags);
    assert(in_place(tag_area(bytes), 0, tags, i));
    lemma_offsets_are_aligned(tags, i);
}

} // verus!
