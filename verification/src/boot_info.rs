//! Reader for the boot information blob that the boot loader leaves in memory.
//!
//! Layout, all integers little-endian:
//!
//! | bytes   | content                                                  |
//! |---------|----------------------------------------------------------|
//! | 0..4    | `total_size`: length of the tag stream, a multiple of 8  |
//! | 4..8    | reserved, zero                                           |
//! | 8..     | the tag stream, `total_size` bytes                       |
//!
//! A tag is a `type_id` and a `size` (four bytes each) followed by `size - 8`
//! bytes of payload; the next tag starts at the next multiple of 8. The stream
//! ends with a tag of type 0 and size 8.
//!
//! Nothing is read before it is bounds-checked, and no structure is laid over
//! the raw memory: the reader walks a byte slice and decodes integers itself.

use crate::error::ErrorKind;
use vstd::prelude::*;
use vstd::slice::slice_subrange;

verus! {

/// Length of the blob header: `total_size` and the reserved word.
pub const HEADER_LEN: usize = 8;

/// Length of the type/size pair that starts every tag.
pub const TAG_HEADER_LEN: usize = 8;

/// Type of the tag that ends the stream.
pub const END_TAG_TYPE: u32 = 0;

/// End of the low memory that is identity-mapped before paging is set up.
pub const LOW_MEMORY_END: u64 = 0x20_0000;

/// Highest address at which a blob may start: one page below `LOW_MEMORY_END`.
pub const MAX_BLOB_ADDRESS: u64 = 0x1f_f000;

/// The two words at the start of a blob.
#[derive(Clone, Copy, Debug, PartialEq, Eq, Structural)]
pub struct BootInfoHeader {
    /// Length of the tag stream that follows the header.
    pub total_size: u32,
    pub reserved: u32,
}

/// A tag as the mathematical record it stands for.
pub struct TagView {
    pub type_id: u32,
    pub size: u32,
    pub payload: Seq<u8>,
}

/// One record of the tag stream. `payload` borrows from the blob.
#[derive(Clone, Copy, Debug, PartialEq, Eq)]
pub struct Tag<'a> {
    pub type_id: u32,
    pub size: u32,
    pub payload: &'a [u8],
}

impl<'a> View for Tag<'a> {
    type V = TagView;

    open spec fn view(&self) -> TagView {
        TagView { type_id: self.type_id, size: self.size, payload: self.payload@ }
    }
}

/// The little-endian `u32` in `bytes[at..at + 4]`.
pub open spec fn le_u32(bytes: Seq<u8>, at: int) -> u32 {
    (bytes[at] as int + 0x100 * (bytes[at + 1] as int) + 0x1_0000 * (bytes[at + 2] as int)
        + 0x100_0000 * (bytes[at + 3] as int)) as u32
}

/// `size` rounded up to the next multiple of 8: the room a tag takes in the stream.
pub open spec fn extent(size: int) -> int {
    (size + 7) / 8 * 8
}

/// The header that `bytes` starts with.
pub open spec fn header_of(bytes: Seq<u8>) -> BootInfoHeader {
    BootInfoHeader { total_size: le_u32(bytes, 0), reserved: le_u32(bytes, 4) }
}

/// Whether `bytes` starts with a header that can be trusted: both words are
/// there, `total_size` is a multiple of 8, the reserved word is zero, and the
/// tag stream that `total_size` announces lies within `bytes`.
pub open spec fn header_valid(bytes: Seq<u8>) -> bool {
    &&& bytes.len() >= HEADER_LEN
    &&& header_of(bytes).total_size % 8 == 0
    &&& header_of(bytes).reserved == 0
    &&& HEADER_LEN + header_of(bytes).total_size <= bytes.len()
}

/// The tag stream of a blob with a valid header.
pub open spec fn tag_area(bytes: Seq<u8>) -> Seq<u8> {
    bytes.subrange(HEADER_LEN as int, HEADER_LEN + header_of(bytes).total_size)
}

/// Whether a whole tag lies in `area` at offset `at`: its type/size pair is
/// within the stream, its size covers that pair, and it ends within the stream.
pub open spec fn tag_fits(area: Seq<u8>, at: int) -> bool {
    &&& 0 <= at
    &&& at + TAG_HEADER_LEN <= area.len()
    &&& le_u32(area, at + 4) >= TAG_HEADER_LEN
    &&& at + le_u32(area, at + 4) <= area.len()
}

/// The tag that `area` holds at offset `at`.
pub open spec fn tag_at(area: Seq<u8>, at: int) -> TagView {
    TagView {
        type_id: le_u32(area, at),
        size: le_u32(area, at + 4),
        payload: area.subrange(at + TAG_HEADER_LEN, at + le_u32(area, at + 4)),
    }
}

/// The tags of `area` from offset `at` up to and including the terminating
/// tag, or `None` where a tag does not fit or the stream ends without one.
pub open spec fn tags_from(area: Seq<u8>, at: int) -> Option<Seq<TagView>>
    decreases area.len() + TAG_HEADER_LEN - at,
{
    if tag_fits(area, at) {
        let tag = tag_at(area, at);
        if tag.type_id == END_TAG_TYPE {
            Some(seq![tag])
        } else {
            match tags_from(area, at + extent(tag.size as int)) {
                Some(rest) => Some(seq![tag] + rest),
                None => None,
            }
        }
    } else {
        None
    }
}

/// The tags of a whole blob, header included in `bytes`.
pub open spec fn blob_tags(bytes: Seq<u8>) -> Option<Seq<TagView>> {
    if header_valid(bytes) {
        tags_from(tag_area(bytes), 0)
    } else {
        None
    }
}

/// The records that a sequence of tags stands for.
pub open spec fn tag_views<'a>(tags: Seq<Tag<'a>>) -> Seq<TagView> {
    tags.map_values(|t: Tag<'a>| t@)
}

/// The first tag of `tags` whose type is `type_id`, if there is one.
pub open spec fn first_of_type(tags: Seq<TagView>, type_id: u32) -> Option<TagView>
    decreases tags.len(),
{
    if tags.len() == 0 {
        None
    } else if tags[0].type_id == type_id {
        Some(tags[0])
    } else {
        first_of_type(tags.subrange(1, tags.len() as int), type_id)
    }
}

/// Whether tag `i` of `tags` has type `type_id` and no tag before it has.
pub open spec fn is_first_of_type(tags: Seq<TagView>, type_id: u32, i: int) -> bool {
    &&& 0 <= i < tags.len()
    &&& tags[i].type_id == type_id
    &&& forall|j: int| 0 <= j < i ==> (#[trigger] tags[j]).type_id != type_id
}

/// `first_of_type` gives the tag of the wanted type that stands first, and
/// `None` exactly if no tag is of that type.
pub proof fn lemma_first_of_type_is_first(tags: Seq<TagView>, type_id: u32)
    ensures
        match first_of_type(tags, type_id) {
            Some(tag) => exists|i: int| #[trigger]
                is_first_of_type(tags, type_id, i) && tags[i] == tag,
            None => forall|i: int| 0 <= i < tags.len() ==> (#[trigger] tags[i]).type_id != type_id,
        },
    decreases tags.len(),
{
    if tags.len() > 0 {
        if tags[0].type_id == type_id {
            assert(is_first_of_type(tags, type_id, 0));
        } else {
            let tail = tags.subrange(1, tags.len() as int);
            lemma_first_of_type_is_first(tail, type_id);
            match first_of_type(tail, type_id) {
                Some(tag) => {
                    let i = choose|i: int| #[trigger]
                        is_first_of_type(tail, type_id, i) && tail[i] == tag;
                    assert forall|j: int| 0 <= j < i + 1 implies (#[trigger] tags[j]).type_id
                        != type_id by {
                        if j > 0 {
                            assert(tags[j] == tail[j - 1]);
                        }
                    }
                    assert(tags[i + 1] == tail[i]);
                    assert(is_first_of_type(tags, type_id, i + 1));
                },
                None => {
                    assert forall|i: int| 0 <= i < tags.len() implies (#[trigger] tags[i]).type_id
                        != type_id by {
                        if i > 0 {
                            assert(tags[i] == tail[i - 1]);
                        }
                    }
                },
            }
        }
    }
}

/// `front` followed by what a walk of the rest of the stream gives.
spec fn after(front: Seq<TagView>, rest: Option<Seq<TagView>>) -> Option<Seq<TagView>> {
    match rest {
        Some(tags) => Some(front + tags),
        None => None,
    }
}

/// One step of a walk: the tags from `at` on are the tag at `at`, followed,
/// unless it ends the stream, by the tags from the next offset on.
proof fn lemma_walk_step(front: Seq<TagView>, area: Seq<u8>, at: int)
    requires
        tag_fits(area, at),
    ensures
        ({
            let tag = tag_at(area, at);
            after(front, tags_from(area, at)) == if tag.type_id == END_TAG_TYPE {
                Some(front.push(tag))
            } else {
                after(front.push(tag), tags_from(area, at + extent(tag.size as int)))
            }
        }),
{
    let tag = tag_at(area, at);
    assert(front + seq![tag] =~= front.push(tag));
    if tag.type_id != END_TAG_TYPE {
        match tags_from(area, at + extent(tag.size as int)) {
            Some(rest) => {
                assert(front + (seq![tag] + rest) =~= front.push(tag) + rest);
            },
            None => {},
        }
    }
}

/// What a walk that succeeds starts with, and what is left after its first tag.
proof fn lemma_walk_unfolds(area: Seq<u8>, at: int)
    requires
        tags_from(area, at) is Some,
    ensures
        ({
            let tags = tags_from(area, at)->0;
            let tag = tag_at(area, at);
            &&& tag_fits(area, at)
            &&& tags.len() > 0
            &&& tags[0] == tag
            &&& tag.type_id == END_TAG_TYPE ==> tags.drop_first() == Seq::<TagView>::empty()
            &&& tag.type_id != END_TAG_TYPE ==> tags_from(area, at + extent(tag.size as int))
                == Some(tags.drop_first())
        }),
{
    let tag = tag_at(area, at);
    if tag.type_id == END_TAG_TYPE {
        assert(seq![tag].drop_first() =~= Seq::<TagView>::empty());
    } else {
        let rest = tags_from(area, at + extent(tag.size as int))->0;
        assert((seq![tag] + rest).drop_first() =~= rest);
    }
}

/// Looking for a type in a sequence with one more tag at its end.
proof fn lemma_first_of_type_push(tags: Seq<TagView>, tag: TagView, type_id: u32)
    ensures
        first_of_type(tags.push(tag), type_id) == match first_of_type(tags, type_id) {
            Some(found) => Some(found),
            None => if tag.type_id == type_id {
                Some(tag)
            } else {
                None
            },
        },
    decreases tags.len(),
{
    let longer = tags.push(tag);
    if tags.len() == 0 {
        assert(longer.subrange(1, longer.len() as int) =~= Seq::<TagView>::empty());
    } else {
        let tail = tags.subrange(1, tags.len() as int);
        assert(longer.subrange(1, longer.len() as int) =~= tail.push(tag));
        lemma_first_of_type_push(tail, tag, type_id);
    }
}

fn read_le_u32(bytes: &[u8], at: usize) -> (value: u32)
    requires
        at + 4 <= bytes@.len(),
    ensures
        value == le_u32(bytes@, at as int),
{
    let b0: u32 = bytes[at] as u32;
    let b1: u32 = bytes[at + 1] as u32;
    let b2: u32 = bytes[at + 2] as u32;
    let b3: u32 = bytes[at + 3] as u32;
    b0 + 0x100 * b1 + 0x1_0000 * b2 + 0x100_0000 * b3
}

/// Whether a blob may be read at `address`: only identity-mapped low memory
/// can be reached this early, and the blob is 8-byte aligned.
pub open spec fn address_ok(address: u64) -> bool {
    address % 8 == 0 && address <= MAX_BLOB_ADDRESS
}

/// The number of bytes that may be read from `address` on: up to the end of
/// the identity-mapped low memory.
pub fn mapped_window(address: u64) -> (r: Result<usize, ErrorKind>)
    ensures
        match r {
            Ok(len) => address_ok(address) && len == LOW_MEMORY_END - address,
            Err(e) => e == ErrorKind::MalformedBootInfo && !address_ok(address),
        },
{
    if address % 8 != 0 || address > MAX_BLOB_ADDRESS {
        return Err(ErrorKind::MalformedBootInfo);
    }
    Ok((LOW_MEMORY_END - address) as usize)
}

/// A blob whose header has been checked. It holds the tag stream, which has
/// not been walked yet: tags are checked one by one as a reader reaches them.
#[derive(Clone, Copy, Debug)]
pub struct BootInfoBlob<'a> {
    area: &'a [u8],
}

impl<'a> View for BootInfoBlob<'a> {
    type V = Seq<u8>;

    /// The bytes of the tag stream.
    closed spec fn view(&self) -> Seq<u8> {
        self.area@
    }
}

impl<'a> BootInfoBlob<'a> {
    #[verifier::type_invariant]
    spec fn well_formed(self) -> bool {
        self.area@.len() % 8 == 0 && self.area@.len() <= u32::MAX
    }

    /// The tags of the blob in order, the terminating tag last; `None` where
    /// the stream is malformed.
    pub open spec fn tag_sequence(&self) -> Option<Seq<TagView>> {
        tags_from(self@, 0)
    }

    /// Checks the header at the start of `bytes` and hands back the blob,
    /// positioned at its first tag. `bytes` is the memory from the blob's
    /// address on, as far as it may be read.
    pub fn parse(bytes: &'a [u8]) -> (r: Result<BootInfoBlob<'a>, ErrorKind>)
        ensures
            match r {
                Ok(blob) => header_valid(bytes@) && blob@ == tag_area(bytes@),
                Err(e) => e == ErrorKind::MalformedBootInfo && !header_valid(bytes@),
            },
    {
        if bytes.len() < HEADER_LEN {
            return Err(ErrorKind::MalformedBootInfo);
        }
        let total_size: u32 = read_le_u32(bytes, 0);
        let reserved: u32 = read_le_u32(bytes, 4);
        if total_size % 8 != 0 || reserved != 0 {
            return Err(ErrorKind::MalformedBootInfo);
        }
        if total_size as usize > bytes.len() - HEADER_LEN {
            return Err(ErrorKind::MalformedBootInfo);
        }
        let area: &'a [u8] = slice_subrange(bytes, HEADER_LEN, HEADER_LEN + total_size as usize);
        Ok(BootInfoBlob { area })
    }

    /// The header that was read: `total_size` is the length of the tag
    /// stream, and the reserved word is zero.
    pub fn header(&self) -> (header: BootInfoHeader)
        ensures
            header == (BootInfoHeader { total_size: self@.len() as u32, reserved: 0 }),
            header.total_size == self@.len(),
    {
        BootInfoHeader { total_size: self.total_size(), reserved: 0 }
    }

    /// The length of the tag stream, as the header gives it.
    pub fn total_size(&self) -> (n: u32)
        ensures
            n == self@.len(),
    {
        proof {
            use_type_invariant(self);
        }
        self.area.len() as u32
    }

    /// A reader at the first tag. Each call starts the walk over.
    pub fn reader(&self) -> (c: BootInfoReader<'a>)
        ensures
            c.area() == self@,
            c.offset() == 0,
            !c.halted(),
            c.remaining() == self.tag_sequence(),
    {
        proof {
            use_type_invariant(self);
        }
        BootInfoReader { area: self.area, offset: 0, halted: false }
    }

    /// All the tags in order, the terminating tag last.
    pub fn tags(&self) -> (r: Result<Vec<Tag<'a>>, ErrorKind>)
        ensures
            match r {
                Ok(tags) => self.tag_sequence() == Some(tag_views(tags@)),
                Err(e) => e == ErrorKind::MalformedBootInfo && self.tag_sequence() is None,
            },
    {
        let mut reader: BootInfoReader<'a> = self.reader();
        let mut tags: Vec<Tag<'a>> = Vec::new();
        assert(tag_views(tags@) + tags_from(self@, 0)->0 =~= tags_from(self@, 0)->0);
        loop
            invariant
                reader.area() == self@,
                self.tag_sequence() == after(tag_views(tags@), reader.remaining()),
            decreases
                    if reader.halted() {
                        0
                    } else {
                        reader.area().len() + TAG_HEADER_LEN - reader.offset()
                    },
        {
            proof {
                use_type_invariant(&reader);
                if !reader.halted() && tag_fits(reader.area(), reader.offset()) {
                    lemma_walk_step(tag_views(tags@), reader.area(), reader.offset());
                }
            }
            let ghost seen = tag_views(tags@);
            match reader.next_tag() {
                None => {
                    assert(seen + Seq::<TagView>::empty() =~= seen);
                    return Ok(tags);
                },
                Some(Err(e)) => {
                    return Err(e);
                },
                Some(Ok(tag)) => {
                    tags.push(tag);
                    proof {
                        use_type_invariant(&reader);
                        assert(tag_views(tags@) =~= seen.push(tag@));
                        assert(seen.push(tag@) + Seq::<TagView>::empty() =~= seen.push(tag@));
                    }
                },
            }
        }
    }

    /// The first tag of the given type, or `None` if the stream holds no such
    /// tag. The whole stream is walked, so a malformed stream is an error
    /// even where a tag of that type comes before the fault.
    pub fn find_tag(&self, type_id: u32) -> (r: Result<Option<Tag<'a>>, ErrorKind>)
        ensures
            match r {
                Ok(found) => {
                    &&& self.tag_sequence() matches Some(tags)
                    &&& match found {
                        Some(tag) => first_of_type(tags, type_id) == Some(tag@),
                        None => first_of_type(tags, type_id) is None,
                    }
                },
                Err(e) => e == ErrorKind::MalformedBootInfo && self.tag_sequence() is None,
            },
    {
        let mut reader: BootInfoReader<'a> = self.reader();
        let mut found: Option<Tag<'a>> = None;
        let ghost mut seen: Seq<TagView> = Seq::empty();
        assert(seen + tags_from(self@, 0)->0 =~= tags_from(self@, 0)->0);
        loop
            invariant
                reader.area() == self@,
                self.tag_sequence() == after(seen, reader.remaining()),
                match found {
                    Some(tag) => first_of_type(seen, type_id) == Some(tag@),
                    None => first_of_type(seen, type_id) is None,
                },
            decreases
                    if reader.halted() {
                        0
                    } else {
                        reader.area().len() + TAG_HEADER_LEN - reader.offset()
                    },
        {
            proof {
                use_type_invariant(&reader);
                if !reader.halted() && tag_fits(reader.area(), reader.offset()) {
                    lemma_walk_step(seen, reader.area(), reader.offset());
                }
            }
            match reader.next_tag() {
                None => {
                    assert(seen + Seq::<TagView>::empty() =~= seen);
                    return Ok(found);
                },
                Some(Err(e)) => {
                    return Err(e);
                },
                Some(Ok(tag)) => {
                    proof {
                        use_type_invariant(&reader);
                        lemma_first_of_type_push(seen, tag@, type_id);
                        seen = seen.push(tag@);
                        assert(seen + Seq::<TagView>::empty() =~= seen);
                    }
                    if found.is_none() && tag.type_id == type_id {
                        found = Some(tag);
                    }
                },
            }
        }
    }
}

/// A cursor over the tag stream. It checks and yields one tag per step and
/// halts after the terminating tag, or after the first tag that does not fit.
#[derive(Clone, Copy, Debug)]
pub struct BootInfoReader<'a> {
    area: &'a [u8],
    offset: usize,
    halted: bool,
}

impl<'a> BootInfoReader<'a> {
    #[verifier::type_invariant]
    spec fn well_formed(self) -> bool {
        &&& self.area@.len() % 8 == 0
        &&& self.area@.len() <= u32::MAX
        &&& self.offset % 8 == 0
        &&& self.offset <= self.area@.len()
    }

    /// The tag stream that the reader walks.
    pub closed spec fn area(&self) -> Seq<u8> {
        self.area@
    }

    /// Offset in the stream of the tag that the next step reads.
    pub closed spec fn offset(&self) -> int {
        self.offset as int
    }

    /// Whether the reader has yielded its last item.
    pub closed spec fn halted(&self) -> bool {
        self.halted
    }

    /// What is left to yield: the tags from the reader's position on, `None`
    /// where the rest of the stream is malformed. Nothing is left once halted.
    pub open spec fn remaining(&self) -> Option<Seq<TagView>> {
        if self.halted() {
            Some(Seq::empty())
        } else {
            tags_from(self.area(), self.offset())
        }
    }

    /// Reads the tag at the reader's position and moves past it.
    ///
    /// Yields `None` once halted. Otherwise yields the tag at that position if
    /// it fits, halting if it is the terminating tag, and the error if it
    /// does not fit, halting too: a stream that runs out without a
    /// terminating tag is an error, not an end.
    pub fn next_tag(&mut self) -> (r: Option<Result<Tag<'a>, ErrorKind>>)
        ensures
            final(self).area() == old(self).area(),
            old(self).halted() ==> r is None && *final(self) == *old(self),
            !old(self).halted() && tag_fits(old(self).area(), old(self).offset()) ==> {
                let tag = tag_at(old(self).area(), old(self).offset());
                &&& r matches Some(Ok(t))
                &&& t@ == tag
                &&& final(self).halted() == (tag.type_id == END_TAG_TYPE)
                &&& final(self).offset() == if tag.type_id == END_TAG_TYPE {
                    old(self).offset()
                } else {
                    old(self).offset() + extent(tag.size as int)
                }
            },
            !old(self).halted() && !tag_fits(old(self).area(), old(self).offset()) ==> {
                &&& r == Some(Err::<Tag<'a>, ErrorKind>(ErrorKind::MalformedBootInfo))
                &&& final(self).halted()
                &&& final(self).offset() == old(self).offset()
            },
            old(self).remaining() matches Some(tags) ==> if tags.len() == 0 {
                r is None
            } else {
                &&& r matches Some(Ok(t))
                &&& t@ == tags[0]
                &&& final(self).remaining() == Some(tags.drop_first())
            },
    {
        proof {
            use_type_invariant(&*self);
            if !self.halted && tags_from(self.area@, self.offset as int) is Some {
                lemma_walk_unfolds(self.area@, self.offset as int);
            }
        }
        if self.halted {
            return None;
        }
        let len: usize = self.area.len();
        let at: usize = self.offset;
        if len - at < TAG_HEADER_LEN {
            self.halted = true;
            return Some(Err(ErrorKind::MalformedBootInfo));
        }
        let type_id: u32 = read_le_u32(self.area, at);
        let size: u32 = read_le_u32(self.area, at + 4);
        if size < TAG_HEADER_LEN as u32 || size as usize > len - at {
            self.halted = true;
            return Some(Err(ErrorKind::MalformedBootInfo));
        }
        let payload: &'a [u8] = slice_subrange(self.area, at + TAG_HEADER_LEN, at + size as usize);
        if type_id == END_TAG_TYPE {
            self.halted = true;
        } else {
            self.offset = at + (size as usize + 7) / 8 * 8;
        }
        Some(Ok(Tag { type_id, size, payload }))
    }
}

} // verus!
