use xxhsum::driver::{digest_text, hash_source, DigestText};
use xxhsum::hasher::{Digest, HashKind, Hasher};
use xxhsum::reader::ChunkedReader;
use xxhsum::source::ScriptedSource;
use xxhsum::uuid::uuid_of_digest;

fn looks_like_v4(text: &str) -> bool {
    let b = text.as_bytes();
    if b.len() != 36 {
        return false;
    }
    for (i, c) in b.iter().enumerate() {
        let ok = match i {
            8 | 13 | 18 | 23 => *c == b'-',
            14 => *c == b'4',
            19 => matches!(*c, b'8' | b'9' | b'a' | b'b'),
            _ => c.is_ascii_digit() || (b'a'..=b'f').contains(c),
        };
        if !ok {
            return false;
        }
    }
    true
}

#[test]
fn uuid_of_zero_digest() {
    assert_eq!(uuid_of_digest(0), "00000000-0000-4000-8000-000000000000");
}

#[test]
fn uuid_of_full_digest() {
    assert_eq!(uuid_of_digest(u128::MAX), "ffffffff-ffff-4fff-bfff-ffffffffffff");
}

#[test]
fn uuid_takes_bytes_least_significant_first() {
    assert_eq!(
        uuid_of_digest(0x0123456789abcdef0011223344556677),
        "77665544-3322-4100-afcd-ab8967452301"
    );
}

#[test]
fn uuid_of_hashed_file_is_stable_and_version_4() {
    let mut hasher = Hasher::new(HashKind::Xxh3, 7).unwrap();
    let mut texts = Vec::new();
    for _ in 0..2 {
        let mut reader: ChunkedReader<ScriptedSource, 4096> =
            ChunkedReader::new(ScriptedSource::from_bytes(b"some file contents".to_vec()));
        match hash_source(&mut hasher, &mut reader) {
            Ok(Digest::Bits128(h)) => texts.push(uuid_of_digest(h)),
            other => panic!("unexpected {:?}", other),
        }
    }
    assert_eq!(texts[0], texts[1]);
    assert!(looks_like_v4(&texts[0]));
}

#[test]
fn uuid_marks_hold_for_many_digests() {
    let mut x: u128 = 0x9E3779B97F4A7C15F39CC0605CEDC834;
    for _ in 0..200 {
        x = x.wrapping_mul(0x2545F4914F6CDD1D).wrapping_add(0x1405_7B7E_F767_814F);
        assert!(looks_like_v4(&uuid_of_digest(x)));
    }
}

#[test]
fn digest_text_picks_uuid_only_for_128_bits() {
    match digest_text(Digest::Bits128(0), true) {
        DigestText::Uuid(t) => assert_eq!(t, "00000000-0000-4000-8000-000000000000"),
        DigestText::Number(_) => panic!("expected a UUID"),
    }
    assert!(matches!(digest_text(Digest::Bits128(5), false), DigestText::Number(5)));
    assert!(matches!(digest_text(Digest::Bits64(7), true), DigestText::Number(7)));
    assert!(matches!(digest_text(Digest::Bits32(46947589), true), DigestText::Number(46947589)));
}
