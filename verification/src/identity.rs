//! The node's Ed25519 identity and its persisted form.

use vstd::prelude::*;

use crate::text::digits_are_hex;
use crate::text::hex_bytes;
use crate::text::hex_decode;
use crate::text::hex_digit;
use crate::text::hex_encode;
use crate::text::hex_round_trip;
use crate::text::hex_text;
use crate::text::holds_digits;
use crate::text::is_digits;
use crate::text::pairs_spell_bytes;

verus! {

/// Length of a secret seed in bytes.
pub const SEED_LEN: usize = 32;

/// Length of an event identifier in bytes.
pub const ID_LEN: usize = 16;

/// What went wrong, for the caller to report as an input or output error.
#[derive(Clone, Copy, Debug, PartialEq, Eq, Structural)]
pub enum IoErrorKind {
    InvalidData,
}

/// An input or output error with its message.
#[derive(Debug)]
pub struct IoError {
    pub kind: IoErrorKind,
    pub message: String,
}

/// Invalid data, described by `msg`.
pub fn io_err(msg: &str) -> (e: IoError)
    ensures
        e.kind == IoErrorKind::InvalidData,
        e.message@ == msg@,
{
    IoError { kind: IoErrorKind::InvalidData, message: msg.to_owned() }
}

/// Unicode's `White_Space` property.
pub open spec fn is_white_space(c: char) -> bool {
    ||| 0x09 <= c as int <= 0x0d
    ||| c as int == 0x20
    ||| c as int == 0x85
    ||| c as int == 0xa0
    ||| c as int == 0x1680
    ||| 0x2000 <= c as int <= 0x200a
    ||| c as int == 0x2028
    ||| c as int == 0x2029
    ||| c as int == 0x202f
    ||| c as int == 0x205f
    ||| c as int == 0x3000
}

/// A text without its leading white space.
pub open spec fn trim_start(s: Seq<char>) -> Seq<char>
    decreases s.len(),
{
    if s.len() > 0 && is_white_space(s.first()) {
        trim_start(s.drop_first())
    } else {
        s
    }
}

/// A text without its trailing white space.
pub open spec fn trim_end(s: Seq<char>) -> Seq<char>
    decreases s.len(),
{
    if s.len() > 0 && is_white_space(s.last()) {
        trim_end(s.drop_last())
    } else {
        s
    }
}

/// [`str::trim`]: the text without leading and trailing white space, which is Unicode's.
pub assume_specification[ str::trim ](s: &str) -> (r: &str)
    ensures
        r@ == trim_end(trim_start(s@)),
;

/// An Ed25519 signing key of `ed25519_dalek`.
#[verifier::external_type_specification]
#[verifier::external_body]
pub struct ExSigningKey(ed25519_dalek::SigningKey);

/// The key that `SigningKey::from_bytes` makes of a seed.
pub uninterp spec fn ed25519_signing_key(seed: Seq<u8>) -> ed25519_dalek::SigningKey;

/// The bytes of the public key that belongs to a seed.
pub uninterp spec fn ed25519_public_key(seed: Seq<u8>) -> Seq<u8>;

/// `SigningKey::from_bytes`: the key depends on the seed alone.
#[verifier::external_body]
fn signing_key_of(seed: &[u8; SEED_LEN]) -> (key: ed25519_dalek::SigningKey)
    ensures
        key == ed25519_signing_key(seed@),
{
    ed25519_dalek::SigningKey::from_bytes(seed)
}

/// `SigningKey::verifying_key` of the key that `SigningKey::from_bytes` makes of a seed, as bytes:
/// the public key depends on the seed alone.
#[verifier::external_body]
fn public_key_of(seed: &[u8; SEED_LEN]) -> (bytes: [u8; 32])
    ensures
        bytes@ == ed25519_public_key(seed@),
{
    ed25519_dalek::SigningKey::from_bytes(seed).verifying_key().to_bytes()
}

/// `RngCore::fill_bytes` of `rand`'s `OsRng`: fresh random bytes of the operating system, of
/// which nothing is known. The call panics where the system has no randomness to give.
#[verifier::external_body]
fn os_random<const N: usize>() -> (bytes: [u8; N]) {
    let mut bytes = [0u8; N];
    rand::RngCore::fill_bytes(&mut rand::rngs::OsRng, &mut bytes);
    bytes
}

/// Whether bytes are ones that the operating system gave as random.
pub closed spec fn is_random<const N: usize>(bytes: [u8; N]) -> bool {
    call_ensures(os_random::<N>, (), bytes)
}

/// Whether an identifier was drawn at random.
pub open spec fn is_random_id(id: Seq<u8>) -> bool {
    exists|bytes: [u8; ID_LEN]| #[trigger] is_random(bytes) && id == bytes@
}

/// Whether a seed was drawn at random.
pub open spec fn is_random_seed(seed: Seq<u8>) -> bool {
    exists|bytes: [u8; SEED_LEN]| #[trigger] is_random(bytes) && seed == bytes@
}

/// Random 16-byte identifier.
pub fn random_id() -> (id: Vec<u8>)
    ensures
        is_random_id(id@),
        id@.len() == ID_LEN,
{
    let bytes: [u8; ID_LEN] = os_random::<ID_LEN>();
    assert(is_random(bytes));
    vstd::slice::slice_to_vec(bytes.as_slice())
}

/// Whether a text is 64 hexadecimal digits, white space around it aside.
pub open spec fn is_seed_hex(s: Seq<char>) -> bool {
    let t = trim_end(trim_start(s));
    is_digits(t) && t.len() == 2 * SEED_LEN
}

/// The bytes of a seed written in hex.
pub open spec fn seed_of_hex(s: Seq<char>) -> Seq<u8> {
    hex_bytes(trim_end(trim_start(s)))
}

/// The node's Ed25519 identity, held as the secret seed of its key.
pub struct NodeIdentity {
    seed: [u8; SEED_LEN],
}

impl View for NodeIdentity {
    type V = Seq<u8>;

    /// The secret seed.
    closed spec fn view(&self) -> Seq<u8> {
        self.seed@
    }
}

impl NodeIdentity {
    /// Generates a fresh in-memory identity. Not persisted.
    pub fn ephemeral() -> (id: NodeIdentity)
        ensures
            is_random_seed(id@),
            id@.len() == SEED_LEN,
    {
        let seed: [u8; SEED_LEN] = os_random::<SEED_LEN>();
        assert(is_random(seed));
        NodeIdentity::from_seed(seed)
    }

    /// The identity of a 32-byte secret seed.
    pub fn from_seed(seed: [u8; SEED_LEN]) -> (id: NodeIdentity)
        ensures
            id@ == seed@,
    {
        NodeIdentity { seed }
    }

    /// Builds an identity from a 32-byte hex seed (64 hex chars), around which white space is
    /// allowed.
    pub fn from_seed_hex(seed_hex: &str) -> (r: Result<NodeIdentity, IoError>)
        ensures
            r is Ok <==> is_seed_hex(seed_hex@),
            r matches Ok(id) ==> id@ == seed_of_hex(seed_hex@) && id@.len() == SEED_LEN,
            r matches Err(e) ==> {
                &&& e.kind == IoErrorKind::InvalidData
                &&& e.message@ == "seed must be 32 bytes (64 hex chars)"@
            },
    {
        let digits: &str = seed_hex.trim();
        if !holds_digits(digits) {
            return Err(io_err("seed must be 32 bytes (64 hex chars)"));
        }
        proof {
            if digits@.len() == 2 * SEED_LEN {
                digits_are_hex(digits@);
            }
        }
        let bytes: Vec<u8> = match hex_decode(digits) {
            Some(b) => b,
            None => return Err(io_err("seed must be 32 bytes (64 hex chars)")),
        };
        if bytes.len() != SEED_LEN {
            return Err(io_err("seed must be 32 bytes (64 hex chars)"));
        }
        let mut seed: [u8; SEED_LEN] = [0u8; SEED_LEN];
        let mut i: usize = 0;
        while i < SEED_LEN
            invariant
                0 <= i <= SEED_LEN,
                bytes@.len() == SEED_LEN,
                forall|k: int| 0 <= k < i ==> seed@[k] == bytes@[k],
            decreases SEED_LEN - i,
        {
            seed[i] = bytes[i];
            i = i + 1;
        }
        assert(seed@ =~= bytes@);
        Ok(NodeIdentity::from_seed(seed))
    }

    /// Hex of the 32-byte secret seed. Sensitive: never log this.
    pub fn seed_hex(&self) -> (r: String)
        ensures
            r@ == hex_text(self@),
            r@.len() == 2 * SEED_LEN,
    {
        hex_encode(self.seed.as_slice())
    }

    /// Chooses the identity to run with: the seed `env_seed` of the environment, else the
    /// persisted `stored_seed`, else a fresh one whose seed is to be persisted.
    pub fn load_or_create(env_seed: Option<&str>, stored_seed: Option<&str>) -> (r: Result<
        LoadedIdentity,
        IoError,
    >)
        ensures
            ({
                let given = if env_seed is Some {
                    env_seed
                } else {
                    stored_seed
                };
                match given {
                    Some(text) => {
                        &&& r is Ok <==> is_seed_hex(text@)
                        &&& r matches Ok(loaded) ==> {
                            &&& loaded.identity@ == seed_of_hex(text@)
                            &&& loaded.to_store is None
                        }
                        &&& r matches Err(e) ==> {
                            &&& e.kind == IoErrorKind::InvalidData
                            &&& e.message@ == "seed must be 32 bytes (64 hex chars)"@
                        }
                    },
                    None => {
                        &&& r is Ok
                        &&& is_random_seed(r->Ok_0.identity@)
                        &&& r->Ok_0.identity@.len() == SEED_LEN
                        &&& r->Ok_0.to_store is Some
                        &&& r->Ok_0.to_store->0@ == hex_text(r->Ok_0.identity@)
                    },
                }
            }),
    {
        let given: Option<&str> = match env_seed {
            Some(text) => Some(text),
            None => stored_seed,
        };
        match given {
            Some(text) => match NodeIdentity::from_seed_hex(text) {
                Ok(identity) => Ok(LoadedIdentity { identity, to_store: None }),
                Err(e) => Err(e),
            },
            None => {
                let identity = NodeIdentity::ephemeral();
                let seed: String = identity.seed_hex();
                Ok(LoadedIdentity { identity, to_store: Some(seed) })
            },
        }
    }

    /// Raw 32-byte public key.
    pub fn pubkey(&self) -> (r: Vec<u8>)
        ensures
            r@ == ed25519_public_key(self@),
            r@.len() == 32,
    {
        let key: [u8; 32] = public_key_of(&self.seed);
        vstd::slice::slice_to_vec(key.as_slice())
    }

    /// Hex of the public key (safe to log, unlike the secret).
    pub fn pubkey_hex(&self) -> (r: String)
        ensures
            r@ == hex_text(ed25519_public_key(self@)),
            r@.len() == 64,
    {
        let key: Vec<u8> = self.pubkey();
        hex_encode(key.as_slice())
    }

    /// Signing key, for producing event signatures.
    pub fn signing_key(&self) -> (key: ed25519_dalek::SigningKey)
        ensures
            key == ed25519_signing_key(self@),
    {
        signing_key_of(&self.seed)
    }
}

/// An identity to run with, and the seed to persist where it is new.
pub struct LoadedIdentity {
    pub identity: NodeIdentity,
    pub to_store: Option<String>,
}

proof fn lemma_hex_is_trimmed(bytes: Seq<u8>)
    ensures
        trim_end(trim_start(hex_text(bytes))) == hex_text(bytes),
{
    let s = hex_text(bytes);
    if s.len() > 0 {
        assert(!is_white_space(s[0]));
        assert(!is_white_space(s[s.len() - 1]));
    }
}

/// A seed written as hex reads back as the same seed.
pub proof fn seed_hex_round_trip(seed: Seq<u8>)
    requires
        seed.len() == SEED_LEN,
    ensures
        is_seed_hex(hex_text(seed)),
        seed_of_hex(hex_text(seed)) == seed,
{
    lemma_hex_is_trimmed(seed);
    hex_round_trip(seed);
}

/// White space around a seed does not matter.
pub proof fn seed_padding_is_ignored(before: Seq<char>, seed: Seq<u8>, after: Seq<char>)
    requires
        seed.len() == SEED_LEN,
        forall|i: int| 0 <= i < before.len() ==> is_white_space(#[trigger] before[i]),
        forall|i: int| 0 <= i < after.len() ==> is_white_space(#[trigger] after[i]),
    ensures
        is_seed_hex(before + hex_text(seed) + after),
        seed_of_hex(before + hex_text(seed) + after) == seed,
{
    let s = hex_text(seed);
    assert(!is_white_space(s[0]) && !is_white_space(s[s.len() - 1]));
    lemma_trim_start(before, s + after);
    assert(before + s + after =~= before + (s + after));
    lemma_trim_end(s, after);
    seed_hex_round_trip(seed);
    lemma_hex_is_trimmed(seed);
}

proof fn lemma_trim_start(before: Seq<char>, s: Seq<char>)
    requires
        s.len() > 0,
        !is_white_space(s[0]),
        forall|i: int| 0 <= i < before.len() ==> is_white_space(#[trigger] before[i]),
    ensures
        trim_start(before + s) == s,
    decreases before.len(),
{
    if before.len() == 0 {
        assert(before + s =~= s);
    } else {
        assert((before + s).drop_first() =~= before.drop_first() + s);
        lemma_trim_start(before.drop_first(), s);
    }
}

proof fn lemma_trim_end(s: Seq<char>, after: Seq<char>)
    requires
        s.len() > 0,
        !is_white_space(s.last()),
        forall|i: int| 0 <= i < after.len() ==> is_white_space(#[trigger] after[i]),
    ensures
        trim_end(s + after) == s,
    decreases after.len(),
{
    if after.len() == 0 {
        assert(s + after =~= s);
    } else {
        assert((s + after).drop_last() =~= s + after.drop_last());
        lemma_trim_end(s, after.drop_last());
    }
}

/// Any 64 hexadecimal digits, in either case, are a seed, white space around them aside, and spell
/// its bytes two by two.
pub proof fn digits_spell_the_seed(before: Seq<char>, digits: Seq<char>, after: Seq<char>)
    requires
        digits.len() == 64,
        forall|i: int| 0 <= i < digits.len() ==> hex_digit(#[trigger] digits[i]) is Some,
        forall|i: int| 0 <= i < before.len() ==> is_white_space(#[trigger] before[i]),
        forall|i: int| 0 <= i < after.len() ==> is_white_space(#[trigger] after[i]),
    ensures
        ({
            let text = before + digits + after;
            &&& is_seed_hex(text)
            &&& seed_of_hex(text).len() == 32
            &&& forall|i: int|
                0 <= i < 32 ==> #[trigger] seed_of_hex(text)[i] == 16 * hex_digit(digits[2 * i])->0
                    + hex_digit(digits[2 * i + 1])->0
        }),
{
    assert(hex_digit(digits[0]) is Some && hex_digit(digits[63]) is Some);
    assert(!is_white_space(digits[0]) && !is_white_space(digits[63]));
    lemma_trim_start(before, digits + after);
    assert(before + digits + after =~= before + (digits + after));
    lemma_trim_end(digits, after);
    digits_are_hex(digits);
    pairs_spell_bytes(digits);
    let seed = seed_of_hex(before + digits + after);
    assert(seed == hex_bytes(digits));
    assert forall|i: int| 0 <= i < 32 implies #[trigger] seed[i] == 16 * hex_digit(digits[2 * i])->0
        + hex_digit(digits[2 * i + 1])->0 by {
        assert(hex_digit(digits[2 * i]) is Some);
        assert(digits[2 * i] != '+');
    }
}

proof fn lemma_trim_start_splits(s: Seq<char>) -> (k: int)
    ensures
        0 <= k <= s.len(),
        trim_start(s) == s.skip(k),
        forall|i: int| 0 <= i < k ==> is_white_space(#[trigger] s[i]),
    decreases s.len(),
{
    if s.len() > 0 && is_white_space(s.first()) {
        let k = lemma_trim_start_splits(s.drop_first());
        assert(s.drop_first().skip(k) =~= s.skip(k + 1));
        assert forall|i: int| 0 <= i < k + 1 implies is_white_space(#[trigger] s[i]) by {
            if i > 0 {
                assert(s.drop_first()[i - 1] == s[i]);
            }
        }
        k + 1
    } else {
        assert(s.skip(0) =~= s);
        0
    }
}

proof fn lemma_trim_end_splits(s: Seq<char>) -> (k: int)
    ensures
        0 <= k <= s.len(),
        trim_end(s) == s.take(k),
        forall|i: int| k <= i < s.len() ==> is_white_space(#[trigger] s[i]),
    decreases s.len(),
{
    if s.len() > 0 && is_white_space(s.last()) {
        let k = lemma_trim_end_splits(s.drop_last());
        assert(s.drop_last().take(k) =~= s.take(k));
        assert forall|i: int| k <= i < s.len() implies is_white_space(#[trigger] s[i]) by {
            if i < s.len() - 1 {
                assert(s.drop_last()[i] == s[i]);
            }
        }
        k
    } else {
        assert(s.take(s.len() as int) =~= s);
        s.len() as int
    }
}

/// Nothing else is a seed: one is 64 hexadecimal digits with nothing but white space around them.
pub proof fn seeds_are_64_digits(s: Seq<char>)
    requires
        is_seed_hex(s),
    ensures
        exists|from: int|
            {
                &&& 0 <= from <= s.len() - 64
                &&& #[trigger] s.subrange(from, from + 64).len() == 64
                &&& forall|i: int|
                    0 <= i < from || from + 64 <= i < s.len() ==> is_white_space(#[trigger] s[i])
                &&& forall|i: int| from <= i < from + 64 ==> hex_digit(#[trigger] s[i]) is Some
            },
{
    let from = lemma_trim_start_splits(s);
    let rest = trim_start(s);
    let n = lemma_trim_end_splits(rest);
    let digits = rest.take(n);
    assert(digits.len() == 64 && n == 64);
    assert(s.subrange(from, from + 64) =~= digits);
    assert forall|i: int| 0 <= i < from || from + 64 <= i < s.len() implies is_white_space(
        #[trigger] s[i],
    ) by {
        if i >= from {
            assert(rest[i - from] == s[i]);
        }
    }
    assert forall|i: int| from <= i < from + 64 implies hex_digit(#[trigger] s[i]) is Some by {
        assert(digits[i - from] == s[i]);
    }
}

/// Random identifiers and seeds are bytes that the operating system gave as random, and nothing
/// else is.
pub proof fn random_values_are_drawn(bytes: Seq<u8>)
    ensures
        is_random_id(bytes) <==> exists|drawn: [u8; ID_LEN]| #[trigger]
            is_random(drawn) && bytes == drawn@,
        is_random_seed(bytes) <==> exists|drawn: [u8; SEED_LEN]| #[trigger]
            is_random(drawn) && bytes == drawn@,
{
}

proof fn lemma_random_is_drawn<const N: usize>(bytes: [u8; N])
    ensures
        is_random(bytes) <==> call_ensures(os_random::<N>, (), bytes),
{
}

/// A seed is 32 bytes long, an identifier 16.
pub proof fn seeds_and_identifiers_have_their_length()
    ensures
        SEED_LEN == 32,
        ID_LEN == 16,
{
}

} // verus!
