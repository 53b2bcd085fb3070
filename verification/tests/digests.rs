use dedoop::digest::{
    full_hash, hashes_by_mmap, partial_blocks, partial_hash, Digest, MMAP_THRESHOLD, PARTIAL_SIZE,
};
use dedoop::order::SortKey;
use dedoop::path::FilePath;
use dedoop::resolve::hash_of_path;

#[test]
fn the_digest_of_nothing_is_known() {
    assert_eq!(
        full_hash(b"").to_hex(),
        "af1349b9f5f9a1a6a0404dea36dcc9499bcb25c9adc112b7cc9a93cae41f3262"
    );
    assert_eq!(partial_hash(&vec![]).to_hex(), full_hash(b"").to_hex());
}

#[test]
fn contents_are_hashed_with_blake3() {
    let content: Vec<u8> = (0..100_000u32).map(|i| (i % 251) as u8).collect();
    let expected = blake3::hash(&content);
    assert_eq!(full_hash(&content).bytes, *expected.as_bytes());
    assert_eq!(full_hash(&content).to_hex(), expected.to_hex().to_string());
    assert_ne!(full_hash(&content[1..]).bytes, *expected.as_bytes());
}

#[test]
fn samples_are_hashed_one_after_the_other() {
    let blocks = vec![b"start".to_vec(), b"middle".to_vec(), b"end".to_vec()];
    assert_eq!(partial_hash(&blocks).bytes, *blake3::hash(b"startmiddleend").as_bytes());
    assert_eq!(partial_hash(&blocks).bytes, full_hash(b"startmiddleend").bytes);
}

#[test]
fn paths_are_hashed_as_text() {
    let plain = FilePath { bytes: b"/a/b".to_vec() };
    assert_eq!(hash_of_path(&plain).bytes, *blake3::hash(b"/a/b").as_bytes());
    let odd = FilePath { bytes: vec![b'/', 0xff] };
    assert_eq!(hash_of_path(&odd).bytes, *blake3::hash("/\u{fffd}".as_bytes()).as_bytes());
}

#[test]
fn digests_come_in_the_order_of_their_texts() {
    let mut digests: Vec<Digest> = (0..50u8).map(|i| full_hash(&[i])).collect();
    let mut same = [7u8; 32];
    digests.push(Digest { bytes: same });
    same[31] = 8;
    digests.push(Digest { bytes: same });
    for a in &digests {
        for b in &digests {
            assert_eq!(a.at_most(b), a.to_hex() <= b.to_hex());
        }
    }
}

fn offsets(size: u64) -> Vec<(u64, usize)> {
    partial_blocks(size).iter().map(|b| (b.offset, b.len)).collect()
}

#[test]
fn samples_lie_at_start_middle_and_end() {
    let k: u64 = PARTIAL_SIZE as u64;
    assert_eq!(k, 65536);
    assert_eq!(offsets(0), vec![(0, 0)]);
    assert_eq!(offsets(10), vec![(0, 10)]);
    assert_eq!(offsets(k), vec![(0, 65536)]);
    assert_eq!(offsets(k + 1), vec![(0, 65536), (1, 65536)]);
    assert_eq!(offsets(3 * k), vec![(0, 65536), (2 * k, 65536)]);
    assert_eq!(
        offsets(3 * k + 1),
        vec![(0, 65536), (3 * k / 2 - k / 2, 65536), (2 * k + 1, 65536)]
    );
    assert_eq!(
        offsets(1_000_000),
        vec![(0, 65536), (467_232, 65536), (934_464, 65536)]
    );
}

#[test]
fn samples_lie_within_the_file() {
    for size in [0u64, 1, 65535, 65536, 65537, 131072, 196608, 196609, 1 << 40, u64::MAX] {
        for block in partial_blocks(size) {
            assert!(block.offset as u128 + block.len as u128 <= size as u128);
        }
    }
}

#[test]
fn samples_cover_short_files() {
    for size in [1u64, 65536, 65537, 100_000, 131072] {
        let mut covered = vec![false; size as usize];
        for block in partial_blocks(size) {
            for i in 0..block.len {
                covered[block.offset as usize + i] = true;
            }
        }
        assert!(covered.iter().all(|c| *c));
    }
}

#[test]
fn large_files_are_mapped() {
    assert_eq!(MMAP_THRESHOLD, 16384);
    assert!(!hashes_by_mmap(16383));
    assert!(hashes_by_mmap(16384));
}

#[test]
fn reading_as_planned_gives_the_samples() {
    let content: Vec<u8> = (0..300_000u32).map(|i| (i % 253) as u8).collect();
    let blocks: Vec<Vec<u8>> = partial_blocks(content.len() as u64)
        .iter()
        .map(|b| content[b.offset as usize..b.offset as usize + b.len].to_vec())
        .collect();
    let mut samples = content[..65536].to_vec();
    samples.extend_from_slice(&content[150_000 - 32_768..150_000 + 32_768]);
    samples.extend_from_slice(&content[300_000 - 65_536..]);
    assert_eq!(partial_hash(&blocks).bytes, *blake3::hash(&samples).as_bytes());
}
