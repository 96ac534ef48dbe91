use vstd::prelude::*;
use vstd::string::StringSliceAdditionalSpecFns;

verus! {

#[verifier::external_type_specification]
#[verifier::external_body]
pub struct ExXxh3(xxhash_rust::xxh3::Xxh3);

#[verifier::external_type_specification]
#[verifier::external_body]
pub struct ExXxh64(xxhash_rust::xxh64::Xxh64);

#[verifier::external_type_specification]
#[verifier::external_body]
pub struct ExXxh32(xxhash_rust::xxh32::Xxh32);

/// The bytes fed to an XXH3 state since it was made or last reset.
pub uninterp spec fn xxh3_input(h: xxhash_rust::xxh3::Xxh3) -> Seq<u8>;

/// The seed that an XXH3 state was made with.
pub uninterp spec fn xxh3_seed(h: xxhash_rust::xxh3::Xxh3) -> u64;

/// The bytes fed to an XXH64 state since it was made or last reset.
pub uninterp spec fn xxh64_input(h: xxhash_rust::xxh64::Xxh64) -> Seq<u8>;

/// The seed that an XXH64 state was made or last reset with.
pub uninterp spec fn xxh64_seed(h: xxhash_rust::xxh64::Xxh64) -> u64;

/// The bytes fed to an XXH32 state since it was made or last reset.
pub uninterp spec fn xxh32_input(h: xxhash_rust::xxh32::Xxh32) -> Seq<u8>;

/// The seed that an XXH32 state was made or last reset with.
pub uninterp spec fn xxh32_seed(h: xxhash_rust::xxh32::Xxh32) -> u32;

/// The 128-bit XXH3 hash of `data` under `seed`.
pub uninterp spec fn xxh3_128_of(seed: u64, data: Seq<u8>) -> u128;

/// The 64-bit XXH3 hash of `data` under `seed`.
pub uninterp spec fn xxh3_64_of(seed: u64, data: Seq<u8>) -> u64;

/// The XXH64 hash of `data` under `seed`.
pub uninterp spec fn xxh64_of(seed: u64, data: Seq<u8>) -> u64;

/// The XXH32 hash of `data` under `seed`.
pub uninterp spec fn xxh32_of(seed: u32, data: Seq<u8>) -> u32;

/// Relies on `xxhash_rust::xxh3::Xxh3::with_seed`: a state with no input that keeps `seed`.
pub assume_specification[ xxhash_rust::xxh3::Xxh3::with_seed ](seed: u64) -> (r: xxhash_rust::xxh3::Xxh3)
    ensures
        xxh3_input(r) == Seq::<u8>::empty(),
        xxh3_seed(r) == seed,
;

/// Relies on `xxhash_rust::xxh3::Xxh3::update`: appends `input` to what the state has hashed.
pub assume_specification[ xxhash_rust::xxh3::Xxh3::update ](h: &mut xxhash_rust::xxh3::Xxh3, input: &[u8])
    ensures
        xxh3_input(*final(h)) == xxh3_input(*old(h)) + input@,
        xxh3_seed(*final(h)) == xxh3_seed(*old(h)),
;

/// Relies on `xxhash_rust::xxh3::Xxh3::digest`: the 64-bit hash of everything fed under the seed.
pub assume_specification[ xxhash_rust::xxh3::Xxh3::digest ](h: &xxhash_rust::xxh3::Xxh3) -> (r: u64)
    ensures
        r == xxh3_64_of(xxh3_seed(*h), xxh3_input(*h)),
;

/// Relies on `xxhash_rust::xxh3::Xxh3::digest128`: the 128-bit hash of everything fed under the seed.
pub assume_specification[ xxhash_rust::xxh3::Xxh3::digest128 ](h: &xxhash_rust::xxh3::Xxh3) -> (r: u128)
    ensures
        r == xxh3_128_of(xxh3_seed(*h), xxh3_input(*h)),
;

/// Relies on `xxhash_rust::xxh3::Xxh3::reset`: drops the input and keeps the seed (and its secret).
pub assume_specification[ xxhash_rust::xxh3::Xxh3::reset ](h: &mut xxhash_rust::xxh3::Xxh3)
    ensures
        xxh3_input(*final(h)) == Seq::<u8>::empty(),
        xxh3_seed(*final(h)) == xxh3_seed(*old(h)),
;

/// Relies on `xxhash_rust::xxh64::Xxh64::new`: a state with no input under `seed`.
pub assume_specification[ xxhash_rust::xxh64::Xxh64::new ](seed: u64) -> (r: xxhash_rust::xxh64::Xxh64)
    ensures
        xxh64_input(r) == Seq::<u8>::empty(),
        xxh64_seed(r) == seed,
;

/// Relies on `xxhash_rust::xxh64::Xxh64::update`: appends `input` to what the state has hashed.
pub assume_specification[ xxhash_rust::xxh64::Xxh64::update ](h: &mut xxhash_rust::xxh64::Xxh64, input: &[u8])
    ensures
        xxh64_input(*final(h)) == xxh64_input(*old(h)) + input@,
        xxh64_seed(*final(h)) == xxh64_seed(*old(h)),
;

/// Relies on `xxhash_rust::xxh64::Xxh64::digest`: the hash of everything fed under the seed.
pub assume_specification[ xxhash_rust::xxh64::Xxh64::digest ](h: &xxhash_rust::xxh64::Xxh64) -> (r: u64)
    ensures
        r == xxh64_of(xxh64_seed(*h), xxh64_input(*h)),
;

/// Relies on `xxhash_rust::xxh64::Xxh64::reset`: drops the input and starts over under `seed`.
pub assume_specification[ xxhash_rust::xxh64::Xxh64::reset ](h: &mut xxhash_rust::xxh64::Xxh64, seed: u64)
    ensures
        xxh64_input(*final(h)) == Seq::<u8>::empty(),
        xxh64_seed(*final(h)) == seed,
;

/// Relies on `xxhash_rust::xxh32::Xxh32::new`: a state with no input under `seed`.
pub assume_specification[ xxhash_rust::xxh32::Xxh32::new ](seed: u32) -> (r: xxhash_rust::xxh32::Xxh32)
    ensures
        xxh32_input(r) == Seq::<u8>::empty(),
        xxh32_seed(r) == seed,
;

/// Relies on `xxhash_rust::xxh32::Xxh32::update`: appends `input` to what the state has hashed.
/// Its length arithmetic is 32-bit, so one call takes fewer than
/// `u32::MAX - 15` bytes.
pub assume_specification[ xxhash_rust::xxh32::Xxh32::update ](h: &mut xxhash_rust::xxh32::Xxh32, input: &[u8])
    requires
        input@.len() + 15 <= u32::MAX,
    ensures
        xxh32_input(*final(h)) == xxh32_input(*old(h)) + input@,
        xxh32_seed(*final(h)) == xxh32_seed(*old(h)),
;

/// Relies on `xxhash_rust::xxh32::Xxh32::digest`: the hash of everything fed under the seed.
pub assume_specification[ xxhash_rust::xxh32::Xxh32::digest ](h: &xxhash_rust::xxh32::Xxh32) -> (r: u32)
    ensures
        r == xxh32_of(xxh32_seed(*h), xxh32_input(*h)),
;

/// Relies on `xxhash_rust::xxh32::Xxh32::reset`: drops the input and starts over under `seed`.
pub assume_specification[ xxhash_rust::xxh32::Xxh32::reset ](h: &mut xxhash_rust::xxh32::Xxh32, seed: u32)
    ensures
        xxh32_input(*final(h)) == Seq::<u8>::empty(),
        xxh32_seed(*final(h)) == seed,
;

/// The most bytes handed to one XXH32 update.
pub const XXH32_PIECE: usize = 0x10_0000;

/// The hash algorithm of one run.
#[allow(non_camel_case_types)]
#[derive(Debug, Clone, Copy, PartialEq, Eq, Structural)]
pub enum HashKind {
    /// XXH3 with a 128-bit digest.
    Xxh3,
    /// XXH3 with a 64-bit digest.
    Xxh3_64,
    /// XXH64.
    Xxh64,
    /// XXH32, whose seed must fit in 32 bits.
    Xxh32,
}

/// `b` with an ASCII capital letter turned to lower case.
pub open spec fn ascii_lower(b: u8) -> u8 {
    if 0x41 <= b <= 0x5a {
        (b + 0x20) as u8
    } else {
        b
    }
}

/// `a` and `b` are equal once ASCII letters are folded to lower case.
pub open spec fn same_ignoring_ascii_case(a: Seq<u8>, b: Seq<u8>) -> bool {
    a.len() == b.len() && forall|i: int| 0 <= i < a.len() ==> ascii_lower(#[trigger] a[i]) == ascii_lower(b[i])
}

/// The name of each algorithm, in ASCII.
pub open spec fn kind_name(kind: HashKind) -> Seq<u8> {
    match kind {
        HashKind::Xxh3 => seq![0x78u8, 0x78, 0x68, 0x33],
        HashKind::Xxh3_64 => seq![0x78u8, 0x78, 0x68, 0x33, 0x5f, 0x36, 0x34],
        HashKind::Xxh64 => seq![0x78u8, 0x78, 0x68, 0x36, 0x34],
        HashKind::Xxh32 => seq![0x78u8, 0x78, 0x68, 0x33, 0x32],
    }
}

/// The algorithm whose name `text` spells, in any mix of cases.
pub open spec fn kind_named(text: Seq<u8>) -> Option<HashKind> {
    if same_ignoring_ascii_case(text, kind_name(HashKind::Xxh3)) {
        Some(HashKind::Xxh3)
    } else if same_ignoring_ascii_case(text, kind_name(HashKind::Xxh3_64)) {
        Some(HashKind::Xxh3_64)
    } else if same_ignoring_ascii_case(text, kind_name(HashKind::Xxh32)) {
        Some(HashKind::Xxh32)
    } else if same_ignoring_ascii_case(text, kind_name(HashKind::Xxh64)) {
        Some(HashKind::Xxh64)
    } else {
        None
    }
}

fn lower_byte(b: u8) -> (r: u8)
    ensures
        r == ascii_lower(b),
{
    if 0x41 <= b && b <= 0x5a {
        b + 0x20
    } else {
        b
    }
}

fn matches_name(text: &[u8], name: &[u8]) -> (r: bool)
    ensures
        r == same_ignoring_ascii_case(text@, name@),
{
    if text.len() != name.len() {
        return false;
    }
    let mut i: usize = 0;
    while i < text.len()
        invariant
            i <= text@.len(),
            text@.len() == name@.len(),
            forall|j: int| 0 <= j < i ==> ascii_lower(#[trigger] text@[j]) == ascii_lower(name@[j]),
        decreases text@.len() - i,
    {
        if lower_byte(text[i]) != lower_byte(name[i]) {
            return false;
        }
        i = i + 1;
    }
    true
}

impl HashKind {
    /// The algorithm named by `text`: `xxh3`, `xxh3_64`, `xxh64` or `xxh32`,
    /// with ASCII letters in any case.
    pub fn parse(text: &str) -> (r: Option<HashKind>)
        ensures
            r == kind_named(text.spec_bytes()),
    {
        let bytes = text.as_bytes();
        let xxh3: Vec<u8> = vec![0x78u8, 0x78, 0x68, 0x33];
        let xxh3_64: Vec<u8> = vec![0x78u8, 0x78, 0x68, 0x33, 0x5f, 0x36, 0x34];
        let xxh32: Vec<u8> = vec![0x78u8, 0x78, 0x68, 0x33, 0x32];
        let xxh64: Vec<u8> = vec![0x78u8, 0x78, 0x68, 0x36, 0x34];
        assert(xxh3@ == kind_name(HashKind::Xxh3));
        assert(xxh3_64@ == kind_name(HashKind::Xxh3_64));
        assert(xxh32@ == kind_name(HashKind::Xxh32));
        assert(xxh64@ == kind_name(HashKind::Xxh64));
        if matches_name(bytes, xxh3.as_slice()) {
            Some(HashKind::Xxh3)
        } else if matches_name(bytes, xxh3_64.as_slice()) {
            Some(HashKind::Xxh3_64)
        } else if matches_name(bytes, xxh32.as_slice()) {
            Some(HashKind::Xxh32)
        } else if matches_name(bytes, xxh64.as_slice()) {
            Some(HashKind::Xxh64)
        } else {
            None
        }
    }
}

impl core::str::FromStr for HashKind {
    type Err = ();

    fn from_str(text: &str) -> (r: Result<HashKind, ()>)
        ensures
            r matches Ok(k) ==> kind_named(text.spec_bytes()) == Some(k),
            r is Err ==> kind_named(text.spec_bytes()) is None,
    {
        match HashKind::parse(text) {
            Some(kind) => Ok(kind),
            None => Err(()),
        }
    }
}

/// A finished hash, as wide as its algorithm makes it.
#[derive(Debug, Clone, Copy, PartialEq, Eq, Structural)]
pub enum Digest {
    Bits128(u128),
    Bits64(u64),
    Bits32(u32),
}

/// A seed that the chosen algorithm cannot take.
#[derive(Debug, Clone, Copy, PartialEq, Eq, Structural)]
pub struct InvalidSeed {
    pub seed: u64,
}

/// The digest that `kind` gives for `data` under `seed`.
pub open spec fn digest_of(kind: HashKind, seed: u64, data: Seq<u8>) -> Digest {
    match kind {
        HashKind::Xxh3 => Digest::Bits128(xxh3_128_of(seed, data)),
        HashKind::Xxh3_64 => Digest::Bits64(xxh3_64_of(seed, data)),
        HashKind::Xxh64 => Digest::Bits64(xxh64_of(seed, data)),
        HashKind::Xxh32 => Digest::Bits32(xxh32_of(seed as u32, data)),
    }
}

/// `kind` cannot be seeded with `seed`.
pub open spec fn seed_out_of_range(kind: HashKind, seed: u64) -> bool {
    kind == HashKind::Xxh32 && seed > u32::MAX
}

/// A running hash of one of the four algorithms, reused from one input to
/// the next.
pub enum Hasher {
    Xxh3(xxhash_rust::xxh3::Xxh3),
    Xxh3_64(xxhash_rust::xxh3::Xxh3),
    Xxh64(xxhash_rust::xxh64::Xxh64, u64),
    Xxh32(xxhash_rust::xxh32::Xxh32, u32),
}

impl Hasher {
    pub open spec fn kind(&self) -> HashKind {
        match self {
            Hasher::Xxh3(_) => HashKind::Xxh3,
            Hasher::Xxh3_64(_) => HashKind::Xxh3_64,
            Hasher::Xxh64(..) => HashKind::Xxh64,
            Hasher::Xxh32(..) => HashKind::Xxh32,
        }
    }

    /// The seed the hasher was made with.
    pub open spec fn seed(&self) -> u64 {
        match self {
            Hasher::Xxh3(h) => xxh3_seed(*h),
            Hasher::Xxh3_64(h) => xxh3_seed(*h),
            Hasher::Xxh64(_, s) => *s,
            Hasher::Xxh32(_, s) => *s as u64,
        }
    }

    /// The bytes fed since the hasher was made or last reset.
    pub open spec fn input(&self) -> Seq<u8> {
        match self {
            Hasher::Xxh3(h) => xxh3_input(*h),
            Hasher::Xxh3_64(h) => xxh3_input(*h),
            Hasher::Xxh64(h, _) => xxh64_input(*h),
            Hasher::Xxh32(h, _) => xxh32_input(*h),
        }
    }

    /// The state runs under the seed that the hasher keeps for resets.
    pub open spec fn wf(&self) -> bool {
        match self {
            Hasher::Xxh64(h, s) => xxh64_seed(*h) == *s,
            Hasher::Xxh32(h, s) => xxh32_seed(*h) == *s,
            _ => true,
        }
    }

    /// A hasher of `kind` under `seed`, with no input yet; XXH32 refuses a
    /// seed above `u32::MAX`.
    pub fn new(kind: HashKind, seed: u64) -> (r: Result<Hasher, InvalidSeed>)
        ensures
            r is Err <==> seed_out_of_range(kind, seed),
            r matches Err(e) ==> e.seed == seed,
            r matches Ok(h) ==> h.wf() && h.kind() == kind && h.seed() == seed
                && h.input() == Seq::<u8>::empty(),
    {
        match kind {
            HashKind::Xxh3 => Ok(Hasher::Xxh3(xxhash_rust::xxh3::Xxh3::with_seed(seed))),
            HashKind::Xxh3_64 => Ok(Hasher::Xxh3_64(xxhash_rust::xxh3::Xxh3::with_seed(seed))),
            HashKind::Xxh64 => Ok(Hasher::Xxh64(xxhash_rust::xxh64::Xxh64::new(seed), seed)),
            HashKind::Xxh32 => {
                if seed > u32::MAX as u64 {
                    Err(InvalidSeed { seed })
                } else {
                    let s = seed as u32;
                    Ok(Hasher::Xxh32(xxhash_rust::xxh32::Xxh32::new(s), s))
                }
            },
        }
    }

    /// Feeds `chunk` to the hash.
    pub fn update(&mut self, chunk: &[u8])
        requires
            old(self).wf(),
        ensures
            final(self).wf(),
            final(self).kind() == old(self).kind(),
            final(self).seed() == old(self).seed(),
            final(self).input() == old(self).input() + chunk@,
    {
        match self {
            Hasher::Xxh3(h) => h.update(chunk),
            Hasher::Xxh3_64(h) => h.update(chunk),
            Hasher::Xxh64(h, _) => h.update(chunk),
            Hasher::Xxh32(h, _) => {
                let ghost h0 = *h;
                let len = chunk.len();
                let mut i: usize = 0;
                while i < len
                    invariant
                        i <= len,
                        len == chunk@.len(),
                        xxh32_seed(*h) == xxh32_seed(h0),
                        xxh32_input(*h) == xxh32_input(h0) + chunk@.take(i as int),
                    decreases len - i,
                {
                    let end = if len - i > XXH32_PIECE {
                        i + XXH32_PIECE
                    } else {
                        len
                    };
                    let piece = vstd::slice::slice_subrange(chunk, i, end);
                    h.update(piece);
                    assert(chunk@.take(end as int) =~= chunk@.take(i as int) + piece@);
                    i = end;
                }
                assert(chunk@.take(len as int) =~= chunk@);
            },
        }
    }

    /// The hash of everything fed since the last reset; the state is kept.
    pub fn digest(&self) -> (r: Digest)
        requires
            self.wf(),
        ensures
            r == digest_of(self.kind(), self.seed(), self.input()),
    {
        match self {
            Hasher::Xxh3(h) => Digest::Bits128(h.digest128()),
            Hasher::Xxh3_64(h) => Digest::Bits64(h.digest()),
            Hasher::Xxh64(h, _) => Digest::Bits64(h.digest()),
            Hasher::Xxh32(h, _) => Digest::Bits32(h.digest()),
        }
    }

    /// Forgets the input and starts over under the same seed.
    pub fn reset(&mut self)
        requires
            old(self).wf(),
        ensures
            final(self).wf(),
            final(self).kind() == old(self).kind(),
            final(self).seed() == old(self).seed(),
            final(self).input() == Seq::<u8>::empty(),
    {
        match self {
            Hasher::Xxh3(h) => h.reset(),
            Hasher::Xxh3_64(h) => h.reset(),
            Hasher::Xxh64(h, s) => h.reset(*s),
            Hasher::Xxh32(h, s) => h.reset(*s),
        }
    }
}

} // verus!
