use vstd::prelude::*;

verus! {

/// The lower-case hex digit of `n`, for `n` below 16.
pub open spec fn hex_digit(n: u8) -> char {
    seq!['0', '1', '2', '3', '4', '5', '6', '7', '8', '9', 'a', 'b', 'c', 'd', 'e', 'f'][n as int]
}

/// `bytes` in lower-case hex, high digit first, two digits per byte.
pub open spec fn hex_of(bytes: Seq<u8>) -> Seq<char>
    decreases bytes.len(),
{
    if bytes.len() == 0 {
        Seq::empty()
    } else {
        let b = bytes.last();
        hex_of(bytes.drop_last()) + seq![hex_digit(b >> 4), hex_digit(b & 0x0f)]
    }
}

/// The canonical text of a UUID: its 16 bytes in hex, in groups of
/// 8-4-4-4-12 digits separated by `-`.
pub open spec fn uuid_text(b: Seq<u8>) -> Seq<char> {
    hex_of(b.subrange(0, 4)) + seq!['-'] + hex_of(b.subrange(4, 6)) + seq!['-'] + hex_of(
        b.subrange(6, 8),
    ) + seq!['-'] + hex_of(b.subrange(8, 10)) + seq!['-'] + hex_of(b.subrange(10, 16))
}

/// `b` with the version nibble (high half of byte 6) set to 4 and the two
/// top bits of byte 8 set to the RFC 4122 variant `10`.
pub open spec fn with_v4_marks(b: Seq<u8>) -> Seq<u8> {
    b.update(6, (b[6] & 0x0f) | 0x40).update(8, (b[8] & 0x3f) | 0x80)
}

/// The 16 bytes of `x`, least significant first.
pub open spec fn le_bytes(x: u128) -> Seq<u8> {
    Seq::new(16, |i: int| ((x >> ((8 * i) as u32)) & 0xff) as u8)
}

/// Relies on `lolid::Uuid::v4_from`, which sets the version and variant bits
/// of the given bytes, and on `lolid::Uuid::to_str`, which writes the 16 bytes
/// as lower-case hex in 8-4-4-4-12 groups joined by `-`.
#[verifier::external_body]
fn v4_text(bytes: [u8; 16]) -> (r: String)
    ensures
        r@ == uuid_text(with_v4_marks(bytes@)),
{
    lolid::Uuid::v4_from(bytes).to_str().as_str().to_string()
}

/// The version-4 UUID text of a 128-bit digest, whose bytes are taken least
/// significant first.
pub fn uuid_of_digest(hash: u128) -> (r: String)
    ensures
        r@ == uuid_text(with_v4_marks(le_bytes(hash))),
{
    let mut bytes = [0u8; 16];
    let mut i: usize = 0;
    while i < 16
        invariant
            i <= 16,
            bytes@.len() == 16,
            forall|j: int| 0 <= j < i ==> bytes@[j] == le_bytes(hash)[j],
        decreases 16 - i,
    {
        bytes[i] = ((hash >> ((8 * i) as u32)) & 0xff) as u8;
        i = i + 1;
    }
    assert(bytes@ =~= le_bytes(hash));
    v4_text(bytes)
}

proof fn lemma_hex_of(bytes: Seq<u8>)
    ensures
        hex_of(bytes).len() == 2 * bytes.len(),
        forall|k: int|
            0 <= k < bytes.len() ==> hex_of(bytes)[2 * k] == hex_digit(#[trigger] bytes[k] >> 4)
                && hex_of(bytes)[2 * k + 1] == hex_digit(bytes[k] & 0x0f),
    decreases bytes.len(),
{
    if bytes.len() > 0 {
        let front = bytes.drop_last();
        lemma_hex_of(front);
        assert forall|k: int| 0 <= k < bytes.len() implies hex_of(bytes)[2 * k] == hex_digit(
            #[trigger] bytes[k] >> 4,
        ) && hex_of(bytes)[2 * k + 1] == hex_digit(bytes[k] & 0x0f) by {
            if k < front.len() {
                assert(front[k] == bytes[k]);
            }
        };
    }
}

/// The UUID text of a digest depends on the digest alone, and always marks
/// version 4 and the RFC 4122 variant: 36 characters in groups of 8-4-4-4-12,
/// with `4` at index 14 and one of `8`, `9`, `a`, `b` at index 19.
pub proof fn lemma_uuid_marks_version_4(hash: u128, other: u128)
    ensures
        uuid_text(with_v4_marks(le_bytes(hash))).len() == 36,
        uuid_text(with_v4_marks(le_bytes(hash)))[8] == '-',
        uuid_text(with_v4_marks(le_bytes(hash)))[13] == '-',
        uuid_text(with_v4_marks(le_bytes(hash)))[18] == '-',
        uuid_text(with_v4_marks(le_bytes(hash)))[23] == '-',
        uuid_text(with_v4_marks(le_bytes(hash)))[14] == '4',
        uuid_text(with_v4_marks(le_bytes(hash)))[19] == '8'
            || uuid_text(with_v4_marks(le_bytes(hash)))[19] == '9'
            || uuid_text(with_v4_marks(le_bytes(hash)))[19] == 'a'
            || uuid_text(with_v4_marks(le_bytes(hash)))[19] == 'b',
        hash == other ==> uuid_text(with_v4_marks(le_bytes(hash))) == uuid_text(
            with_v4_marks(le_bytes(other)),
        ),
{
    let b = with_v4_marks(le_bytes(hash));
    let b6 = le_bytes(hash)[6];
    let b8 = le_bytes(hash)[8];
    lemma_hex_of(b.subrange(0, 4));
    lemma_hex_of(b.subrange(4, 6));
    lemma_hex_of(b.subrange(6, 8));
    lemma_hex_of(b.subrange(8, 10));
    lemma_hex_of(b.subrange(10, 16));
    assert(b.subrange(6, 8)[0] == (b6 & 0x0f) | 0x40);
    assert(b.subrange(8, 10)[0] == (b8 & 0x3f) | 0x80);
    assert((((b6 & 0x0f) | 0x40) >> 4) == 4u8) by (bit_vector);
    let v = ((b8 & 0x3f) | 0x80) >> 4;
    assert(8u8 <= (((b8 & 0x3f) | 0x80) >> 4) <= 11u8) by (bit_vector);
    assert(hex_of(b.subrange(6, 8))[0] == hex_digit(4));
    assert(hex_of(b.subrange(8, 10))[0] == hex_digit(v));
}

} // verus!
