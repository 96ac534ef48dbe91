use vstd::prelude::*;
use crate::hasher::{Digest, Hasher, digest_of};
use crate::uuid::{le_bytes, uuid_of_digest, uuid_text, with_v4_marks};
use crate::reader::{ChunkedReader, delivered, lemma_delivered_concat};
use crate::source::{ByteSource, ReadStep, SourceError};

verus! {

/// Why a source could not be hashed.
#[derive(Debug, PartialEq, Eq)]
pub enum HashError {
    /// A read failed.
    Read(SourceError),
    /// The source delivered more than `u64::MAX` bytes.
    TooLong,
}

/// Hashes everything that `reader` delivers until its source ends, then
/// resets `hasher` for the next source.
///
/// The digest covers what the hasher held before the call followed by every
/// byte read. A read failure is handed back at once, with no digest and
/// without the reset.
pub fn hash_source<T: ByteSource, const N: usize>(
    hasher: &mut Hasher,
    reader: &mut ChunkedReader<T, N>,
) -> (r: Result<Digest, HashError>)
    requires
        N > 0,
        old(hasher).wf(),
    ensures
        final(hasher).wf(),
        final(hasher).kind() == old(hasher).kind(),
        final(hasher).seed() == old(hasher).seed(),
        final(reader).modelled() == old(reader).modelled(),
        old(reader).modelled() ==> final(reader).replies().len() > old(reader).replies().len(),
        old(reader).modelled() ==> final(reader).replies().subrange(
            0,
            old(reader).replies().len() as int,
        ) == old(reader).replies(),
        old(reader).modelled() ==> ({
            let steps = final(reader).replies().skip(old(reader).replies().len() as int);
            &&& r is Ok <==> (steps.last() is End && delivered(steps).len() <= u64::MAX)
            &&& r matches Ok(d) ==> d == digest_of(
                old(hasher).kind(),
                old(hasher).seed(),
                old(hasher).input() + old(reader).remaining(),
            ) && final(hasher).input() == Seq::<u8>::empty() && delivered(steps)
                == old(reader).remaining() && final(reader).remaining().len() == 0
            &&& r == Err::<Digest, HashError>(HashError::TooLong) ==> delivered(steps).len()
                > u64::MAX
            &&& r matches Err(HashError::Read(e)) ==> (steps.last() == ReadStep::Failed(e) || (
            steps.last() is Interrupted && e == SourceError::Interrupted))
            &&& (steps.last() is Failed || steps.last() is Interrupted) ==> r matches Err(
                HashError::Read(_),
            )
        }),
        old(reader).modelled() && old(reader).reliable() && old(reader).remaining().len()
            <= u64::MAX ==> r is Ok,
{
    let ghost r0 = reader.replies().len();
    let ghost rem0 = reader.remaining();
    let ghost model = reader.modelled();
    let ghost rel0 = reader.reliable();
    let ghost input0 = hasher.input();
    let mut fed: u64 = 0;
    loop
        invariant
            N > 0,
            r0 == old(reader).replies().len(),
            rem0 == old(reader).remaining(),
            model == old(reader).modelled(),
            rel0 == old(reader).reliable(),
            reader.modelled() == model,
            input0 == old(hasher).input(),
            hasher.wf(),
            hasher.kind() == old(hasher).kind(),
            hasher.seed() == old(hasher).seed(),
            model ==> reader.replies().len() >= r0,
            model ==> reader.replies().subrange(0, r0 as int) == old(reader).replies(),
            model ==> fed == delivered(reader.replies().skip(r0 as int)).len(),
            model ==> delivered(reader.replies().skip(r0 as int)) == rem0.take(fed as int),
            model ==> reader.remaining() == rem0.skip(fed as int),
            model ==> fed <= rem0.len(),
            model && rel0 ==> reader.reliable(),
            hasher.input() == input0 + rem0.take(fed as int) || !model,
    decreases u64::MAX - fed,
    {
        let ghost before = reader.replies();
        match reader.next() {
            Ok(Some(chunk)) => {
                let n = chunk.len();
                let ghost cv = chunk@;
                if n as u64 > u64::MAX - fed {
                    proof {
                        if model {
                            lemma_call_appended(before, reader.replies(), r0 as int);
                        }
                    }
                    return Err(HashError::TooLong);
                }
                hasher.update(chunk);
                proof {
                    if model {
                        lemma_call_appended(before, reader.replies(), r0 as int);
                        assert(rem0.take(fed + n) =~= rem0.take(fed as int) + cv);
                        assert(rem0.skip(fed as int).skip(n as int) =~= rem0.skip(fed + n));
                        assert(hasher.input() =~= input0 + rem0.take(fed + n));
                    }
                }
                fed = fed + n as u64;
            },
            Ok(None) => {
                proof {
                    if model {
                        lemma_call_appended(before, reader.replies(), r0 as int);
                        assert(rem0.take(fed as int) =~= rem0);
                    }
                }
                let d = hasher.digest();
                hasher.reset();
                return Ok(d);
            },
            Err(e) => {
                proof {
                    if model {
                        lemma_call_appended(before, reader.replies(), r0 as int);
                    }
                }
                return Err(HashError::Read(e));
            },
        }
    }
}

proof fn lemma_call_appended(before: Seq<ReadStep>, after: Seq<ReadStep>, r0: int)
    requires
        0 <= r0 <= before.len(),
        after.len() > before.len(),
        after.subrange(0, before.len() as int) == before,
    ensures
        after.skip(r0) == before.skip(r0) + after.skip(before.len() as int),
        delivered(after.skip(r0)) == delivered(before.skip(r0)) + delivered(
            after.skip(before.len() as int),
        ),
        after.skip(r0).last() == after.skip(before.len() as int).last(),
        after.subrange(0, r0) == before.subrange(0, r0),
{
    let call = after.skip(before.len() as int);
    assert(after.skip(r0) =~= before.skip(r0) + call) by {
        assert forall|i: int| 0 <= i < before.len() - r0 implies after.skip(r0)[i] == before.skip(
            r0,
        )[i] by {
            assert(after.subrange(0, before.len() as int)[r0 + i] == before[r0 + i]);
        };
    };
    lemma_delivered_concat(before.skip(r0), call);
    assert(after.subrange(0, r0) =~= before.subrange(0, r0)) by {
        assert forall|i: int| 0 <= i < r0 implies after.subrange(0, r0)[i] == before.subrange(
            0,
            r0,
        )[i] by {
            assert(after.subrange(0, before.len() as int)[i] == before[i]);
        };
    };
}

/// How a digest is printed.
pub enum DigestText {
    /// As a version-4 UUID.
    Uuid(String),
    /// As a decimal number.
    Number(u128),
}

/// The printed form of `digest`: a 128-bit digest as a UUID when `uuid` is
/// set, every other digest as its number (the flag means nothing to them).
pub fn digest_text(digest: Digest, uuid: bool) -> (r: DigestText)
    ensures
        match digest {
            Digest::Bits128(h) => if uuid {
                r matches DigestText::Uuid(t) && t@ == uuid_text(with_v4_marks(le_bytes(h)))
            } else {
                r == DigestText::Number(h)
            },
            Digest::Bits64(h) => r == DigestText::Number(h as u128),
            Digest::Bits32(h) => r == DigestText::Number(h as u128),
        },
{
    match digest {
        Digest::Bits128(h) => if uuid {
            DigestText::Uuid(uuid_of_digest(h))
        } else {
            DigestText::Number(h)
        },
        Digest::Bits64(h) => DigestText::Number(h as u128),
        Digest::Bits32(h) => DigestText::Number(h as u128),
    }
}

/// A hasher that was reset gives, for the next source, the digest that a
/// fresh hasher of the same algorithm and seed gives for it.
pub proof fn lemma_reset_hasher_matches_fresh(reused: Hasher, fresh: Hasher, data: Seq<u8>)
    requires
        reused.wf(),
        fresh.wf(),
        reused.kind() == fresh.kind(),
        reused.seed() == fresh.seed(),
        reused.input() == Seq::<u8>::empty(),
        fresh.input() == Seq::<u8>::empty(),
    ensures
        digest_of(reused.kind(), reused.seed(), reused.input() + data) == digest_of(
            fresh.kind(),
            fresh.seed(),
            fresh.input() + data,
        ),
        digest_of(reused.kind(), reused.seed(), reused.input() + data) == digest_of(
            fresh.kind(),
            fresh.seed(),
            data,
        ),
{
    assert(reused.input() + data =~= data);
}

} // verus!
