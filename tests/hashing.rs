use xxhsum::driver::{hash_source, HashError};
use xxhsum::hasher::{Digest, HashKind, Hasher, InvalidSeed};
use xxhsum::reader::ChunkedReader;
use xxhsum::source::{Reply, ScriptedSource, SourceError};

fn hash_bytes(hasher: &mut Hasher, bytes: &[u8]) -> Result<Digest, HashError> {
    let mut reader: ChunkedReader<ScriptedSource, 4096> =
        ChunkedReader::new(ScriptedSource::from_bytes(bytes.to_vec()));
    hash_source(hasher, &mut reader)
}

fn sample(len: usize) -> Vec<u8> {
    (0..len).map(|i| (i * 31 + 7) as u8).collect()
}

#[test]
fn empty_input_xxh32_seed_zero() {
    let mut hasher = Hasher::new(HashKind::Xxh32, 0).unwrap();
    assert_eq!(hash_bytes(&mut hasher, &[]), Ok(Digest::Bits32(0x02CC5D05)));
}

#[test]
fn empty_input_xxh64_seed_zero() {
    let mut hasher = Hasher::new(HashKind::Xxh64, 0).unwrap();
    assert_eq!(hash_bytes(&mut hasher, &[]), Ok(Digest::Bits64(0xEF46DB3751D8E999)));
}

#[test]
fn empty_input_xxh3_64_seed_zero() {
    let mut hasher = Hasher::new(HashKind::Xxh3_64, 0).unwrap();
    assert_eq!(hash_bytes(&mut hasher, &[]), Ok(Digest::Bits64(0x2D06800538D394C2)));
}

#[test]
fn streamed_digests_match_one_shot_hashes() {
    for len in [0usize, 1, 3, 17, 240, 241, 1000, 4096, 5000, 10000] {
        let data = sample(len);
        for seed in [0u64, 1, 0xDEAD_BEEF] {
            let mut h = Hasher::new(HashKind::Xxh3, seed).unwrap();
            assert_eq!(
                hash_bytes(&mut h, &data),
                Ok(Digest::Bits128(xxhash_rust::xxh3::xxh3_128_with_seed(&data, seed)))
            );
            let mut h = Hasher::new(HashKind::Xxh3_64, seed).unwrap();
            assert_eq!(
                hash_bytes(&mut h, &data),
                Ok(Digest::Bits64(xxhash_rust::xxh3::xxh3_64_with_seed(&data, seed)))
            );
            let mut h = Hasher::new(HashKind::Xxh64, seed).unwrap();
            assert_eq!(
                hash_bytes(&mut h, &data),
                Ok(Digest::Bits64(xxhash_rust::xxh64::xxh64(&data, seed)))
            );
            let mut h = Hasher::new(HashKind::Xxh32, seed).unwrap();
            assert_eq!(
                hash_bytes(&mut h, &data),
                Ok(Digest::Bits32(xxhash_rust::xxh32::xxh32(&data, seed as u32)))
            );
        }
    }
}

#[test]
fn chunk_boundaries_do_not_change_the_digest() {
    let data = sample(300);
    let replies: Vec<Reply> = data.chunks(7).map(|c| Reply::Data(c.to_vec())).collect();
    let mut reader: ChunkedReader<ScriptedSource, 64> =
        ChunkedReader::new(ScriptedSource::new(replies));
    let mut hasher = Hasher::new(HashKind::Xxh64, 5).unwrap();
    assert_eq!(
        hash_source(&mut hasher, &mut reader),
        Ok(Digest::Bits64(xxhash_rust::xxh64::xxh64(&data, 5)))
    );
}

#[test]
fn reset_hasher_matches_fresh_one() {
    for kind in [HashKind::Xxh3, HashKind::Xxh3_64, HashKind::Xxh64, HashKind::Xxh32] {
        let a = sample(777);
        let b: Vec<u8> = b"second source".to_vec();
        let mut reused = Hasher::new(kind, 42).unwrap();
        hash_bytes(&mut reused, &a).unwrap();
        let second = hash_bytes(&mut reused, &b).unwrap();
        let mut fresh = Hasher::new(kind, 42).unwrap();
        assert_eq!(second, hash_bytes(&mut fresh, &b).unwrap());
    }
}

#[test]
fn manual_update_digest_reset() {
    let mut hasher = Hasher::new(HashKind::Xxh32, 3).unwrap();
    hasher.update(b"abc");
    hasher.update(b"def");
    assert_eq!(hasher.digest(), Digest::Bits32(xxhash_rust::xxh32::xxh32(b"abcdef", 3)));
    assert_eq!(hasher.digest(), Digest::Bits32(xxhash_rust::xxh32::xxh32(b"abcdef", 3)));
    hasher.reset();
    assert_eq!(hasher.digest(), Digest::Bits32(xxhash_rust::xxh32::xxh32(b"", 3)));
}

#[test]
fn different_seeds_give_different_digests() {
    let data = b"the same bytes".to_vec();
    for kind in [HashKind::Xxh3, HashKind::Xxh3_64, HashKind::Xxh64, HashKind::Xxh32] {
        let mut one = Hasher::new(kind, 1).unwrap();
        let mut two = Hasher::new(kind, 2).unwrap();
        assert_ne!(hash_bytes(&mut one, &data), hash_bytes(&mut two, &data));
    }
}

#[test]
fn xxh32_refuses_seed_above_32_bits() {
    assert_eq!(
        Hasher::new(HashKind::Xxh32, 4294967296).err(),
        Some(InvalidSeed { seed: 4294967296 })
    );
    assert!(Hasher::new(HashKind::Xxh32, 4294967295).is_ok());
    assert!(Hasher::new(HashKind::Xxh64, 4294967296).is_ok());
    assert!(Hasher::new(HashKind::Xxh3, u64::MAX).is_ok());
}

#[test]
fn read_failure_is_reported() {
    let source = ScriptedSource::new(vec![
        Reply::Data(vec![1, 2, 3]),
        Reply::Interrupt,
        Reply::Fail("device error".to_string()),
    ]);
    let mut reader: ChunkedReader<ScriptedSource, 2> = ChunkedReader::new(source);
    let mut hasher = Hasher::new(HashKind::Xxh64, 0).unwrap();
    assert_eq!(
        hash_source(&mut hasher, &mut reader),
        Err(HashError::Read(SourceError::Failed("device error".to_string())))
    );
}

#[test]
fn kind_names_parse_in_any_case() {
    assert_eq!(HashKind::parse("xxh3"), Some(HashKind::Xxh3));
    assert_eq!(HashKind::parse("XXH3_64"), Some(HashKind::Xxh3_64));
    assert_eq!(HashKind::parse("Xxh64"), Some(HashKind::Xxh64));
    assert_eq!(HashKind::parse("xXh32"), Some(HashKind::Xxh32));
    assert_eq!(HashKind::parse("xxh128"), None);
    assert_eq!(HashKind::parse(""), None);
    assert_eq!(HashKind::parse("xxh3 "), None);
    assert_eq!("XXH32".parse::<HashKind>(), Ok(HashKind::Xxh32));
    assert_eq!("md5".parse::<HashKind>(), Err(()));
}

#[test]
fn from_str_matches_names_only() {
    assert_eq!("XXH3".parse::<HashKind>(), Ok(HashKind::Xxh3));
    assert_eq!("Xxh3_64".parse::<HashKind>(), Ok(HashKind::Xxh3_64));
    assert_eq!("xXh64".parse::<HashKind>(), Ok(HashKind::Xxh64));
    assert_eq!("XXH32".parse::<HashKind>(), Ok(HashKind::Xxh32));
    for bad in ["xxh128", "xxh3 ", "", "xxh", "xxh3-64"] {
        assert_eq!(bad.parse::<HashKind>(), Err(()));
    }
}

#[test]
fn xxh32_update_with_large_chunk_matches_one_shot() {
    let data: Vec<u8> = (0..(3 * 0x10_0000 + 5)).map(|i: usize| (i % 253) as u8).collect();
    let mut hasher = Hasher::new(HashKind::Xxh32, 9).unwrap();
    hasher.update(&data);
    assert_eq!(hasher.digest(), Digest::Bits32(xxhash_rust::xxh32::xxh32(&data, 9)));
}
