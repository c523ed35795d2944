use boot_memory::boot_info::{BootInfoBlob, Tag};
use boot_memory::chunk_allocator::ChunkAllocator;
use boot_memory::error::ErrorKind;

/// A small generator of numbers that looks random and is the same on every run.
struct Numbers(u64);

impl Numbers {
    fn next(&mut self) -> u64 {
        self.0 = self.0.wrapping_mul(6364136223846793005).wrapping_add(1442695040888963407);
        self.0 >> 33
    }

    fn below(&mut self, bound: u64) -> usize {
        (self.next() % bound) as usize
    }
}

/// First fit, written down plainly over one `bool` per chunk.
fn model_allocate(
    used: &mut [bool],
    chunk_size: usize,
    size: usize,
    align: usize,
) -> Result<(usize, usize), ErrorKind> {
    let count = (size + chunk_size - 1) / chunk_size;
    for start in 0..used.len() + 1 {
        if start + count > used.len() {
            break;
        }
        if (start * chunk_size) % align != 0 {
            continue;
        }
        if used[start..start + count].iter().all(|chunk| !chunk) {
            for chunk in &mut used[start..start + count] {
                *chunk = true;
            }
            return Ok((start * chunk_size, count));
        }
    }
    Err(ErrorKind::OutOfMemory)
}

fn model_deallocate(
    used: &mut [bool],
    chunk_size: usize,
    offset: usize,
    size: usize,
) -> Result<(), ErrorKind> {
    let count = (size + chunk_size - 1) / chunk_size;
    let start = offset / chunk_size;
    if offset % chunk_size != 0 || start + count > used.len() {
        return Err(ErrorKind::InvalidFree);
    }
    if !used[start..start + count].iter().all(|chunk| *chunk) {
        return Err(ErrorKind::InvalidFree);
    }
    for chunk in &mut used[start..start + count] {
        *chunk = false;
    }
    Ok(())
}

fn pack(used: &[bool]) -> Vec<u8> {
    let mut bytes = vec![0u8; (used.len() + 7) / 8];
    for (chunk, in_use) in used.iter().enumerate() {
        if *in_use {
            bytes[chunk / 8] |= 1 << (chunk % 8);
        }
    }
    bytes
}

#[test]
fn allocator_agrees_with_a_plain_first_fit() {
    let chunk_size = 64;
    let chunk_count = 37;
    let mut bitmap = vec![0xa5u8; 5];
    let mut allocator = ChunkAllocator::init(chunk_size * chunk_count, &mut bitmap, chunk_size);
    let mut used = vec![false; chunk_count];
    let mut live: Vec<(usize, usize)> = Vec::new();
    let mut numbers = Numbers(7);
    let aligns = [1, 2, 64, 128, 192, 256, 1024];

    for _ in 0..4000 {
        match numbers.below(5) {
            0 | 1 => {
                let size = numbers.below(400);
                let align = aligns[numbers.below(aligns.len() as u64)];
                let expected = model_allocate(&mut used, chunk_size, size, align);
                assert_eq!(allocator.allocate(size, align), expected);
                if let Ok((offset, _)) = expected {
                    live.push((offset, size));
                }
            }
            2 | 3 => {
                if !live.is_empty() {
                    let (offset, size) = live.swap_remove(numbers.below(live.len() as u64));
                    assert_eq!(model_deallocate(&mut used, chunk_size, offset, size), Ok(()));
                    assert_eq!(allocator.deallocate(offset, size), Ok(()));
                }
            }
            _ => {
                let offset = numbers.below(3000);
                let size = numbers.below(300);
                if live.iter().all(|(o, s)| *o != offset || *s != size) {
                    let mut scratch = used.clone();
                    let expected = model_deallocate(&mut scratch, chunk_size, offset, size);
                    if expected.is_err() {
                        assert_eq!(allocator.deallocate(offset, size), expected);
                    }
                }
            }
        }
        assert_eq!(allocator.bitmap(), &pack(&used)[..]);
    }

    while let Some((offset, size)) = live.pop() {
        assert_eq!(allocator.deallocate(offset, size), Ok(()));
    }
    assert_eq!(allocator.bitmap(), &[0u8; 5]);
}

#[test]
fn reader_reads_back_what_was_encoded() {
    let mut numbers = Numbers(11);
    for _ in 0..300 {
        let count = numbers.below(6);
        let mut tags: Vec<(u32, Vec<u8>)> = Vec::new();
        for _ in 0..count {
            let type_id = 1 + numbers.below(21) as u32;
            let payload: Vec<u8> = (0..numbers.below(40)).map(|_| numbers.below(256) as u8).collect();
            tags.push((type_id, payload));
        }
        tags.push((0, Vec::new()));

        let mut stream = Vec::new();
        for (type_id, payload) in &tags {
            stream.extend_from_slice(&type_id.to_le_bytes());
            stream.extend_from_slice(&(8 + payload.len() as u32).to_le_bytes());
            stream.extend_from_slice(payload);
            while stream.len() % 8 != 0 {
                stream.push(numbers.below(256) as u8);
            }
        }
        let mut bytes = Vec::new();
        bytes.extend_from_slice(&(stream.len() as u32).to_le_bytes());
        bytes.extend_from_slice(&[0; 4]);
        bytes.extend_from_slice(&stream);

        let blob = BootInfoBlob::parse(&bytes).unwrap();
        let read = blob.tags().unwrap();
        let expected: Vec<Tag> = tags
            .iter()
            .map(|(type_id, payload)| Tag {
                type_id: *type_id,
                size: 8 + payload.len() as u32,
                payload: &payload[..],
            })
            .collect();
        assert_eq!(read, expected);

        // Without its last 8 bytes the stream has no terminating tag.
        let cut = stream.len() - 8;
        let mut short = Vec::new();
        short.extend_from_slice(&(cut as u32).to_le_bytes());
        short.extend_from_slice(&[0; 4]);
        short.extend_from_slice(&stream[..cut]);
        let blob = BootInfoBlob::parse(&short).unwrap();
        assert_eq!(blob.tags().err(), Some(ErrorKind::MalformedBootInfo));
    }
}
