//! API credentials: generation of a random secret, its one-way hash,
//! and the constant-time authorization check, together with the
//! administrative operations that maintain the registry.

use vstd::prelude::*;
use sha2::Digest;
use crate::config::{config_wf, lookup, Config};

verus! {

/// The SHA-256 digest of a string's bytes; a function of the hashed
/// characters alone.
pub uninterp spec fn sha256_of(s: Seq<char>) -> Seq<u8>;

/// Relies on sha2's `Sha256` (`Digest::new`, `update`, `finalize`): the
/// 32-byte digest depends on the hashed bytes alone.
#[verifier::external_body]
fn sha256_str(s: &str) -> (r: Vec<u8>)
    ensures
        r@ == sha256_of(s@),
        r@.len() == 32,
{
    let mut h = sha2::Sha256::new();
    h.update(s.as_bytes());
    h.finalize().to_vec()
}

/// The lowercase hex digit of a value below sixteen.
pub open spec fn hex_digit(d: int) -> char {
    if d == 0 {
        '0'
    } else if d == 1 {
        '1'
    } else if d == 2 {
        '2'
    } else if d == 3 {
        '3'
    } else if d == 4 {
        '4'
    } else if d == 5 {
        '5'
    } else if d == 6 {
        '6'
    } else if d == 7 {
        '7'
    } else if d == 8 {
        '8'
    } else if d == 9 {
        '9'
    } else if d == 10 {
        'a'
    } else if d == 11 {
        'b'
    } else if d == 12 {
        'c'
    } else if d == 13 {
        'd'
    } else if d == 14 {
        'e'
    } else {
        'f'
    }
}

/// Lowercase hex encoding: two digits per byte, high nibble first.
pub open spec fn hex_of(b: Seq<u8>) -> Seq<char>
    decreases b.len(),
{
    if b.len() == 0 {
        Seq::empty()
    } else {
        seq![hex_digit((b[0] >> 4) as int), hex_digit((b[0] & 0x0f) as int)] + hex_of(b.skip(1))
    }
}

/// Relies on `hex::encode`: lowercase hex, two digits per byte, high
/// nibble first.
#[verifier::external_body]
fn hex_encode(b: &Vec<u8>) -> (r: String)
    ensures
        r@ == hex_of(b@),
{
    hex::encode(b)
}

/// A lowercase hex digit character.
pub open spec fn is_hex_char(c: char) -> bool {
    ('0' <= c && c <= '9') || ('a' <= c && c <= 'f')
}

/// Hex encoding yields two digits per byte.
pub proof fn lemma_hex_of_len(b: Seq<u8>)
    ensures
        hex_of(b).len() == 2 * b.len(),
        forall|i: int| 0 <= i < hex_of(b).len() ==> is_hex_char(#[trigger] hex_of(b)[i]),
    decreases b.len(),
{
    if b.len() > 0 {
        lemma_hex_of_len(b.skip(1));
        let h = b[0];
        assert(0 <= (h >> 4) < 16 && 0 <= (h & 0x0f) < 16) by (bit_vector);
        assert forall|i: int| 0 <= i < hex_of(b).len() implies is_hex_char(
            #[trigger] hex_of(b)[i],
        ) by {
            if i >= 2 {
                assert(hex_of(b)[i] == hex_of(b.skip(1))[i - 2]);
            }
        }
    }
}

/// The base64 encoding of bytes under the URL-safe alphabet without
/// padding; a function of the bytes alone.
pub uninterp spec fn b64url_of(b: Seq<u8>) -> Seq<char>;

/// A character of the URL-safe base64 alphabet.
pub open spec fn is_b64url_char(c: char) -> bool {
    ('A' <= c && c <= 'Z') || ('a' <= c && c <= 'z') || ('0' <= c && c <= '9') || c == '-' || c
        == '_'
}

/// Relies on base64's `URL_SAFE_NO_PAD` engine: the encoding depends on
/// the bytes alone, uses the URL-safe alphabet `A-Za-z0-9-_`, carries no
/// padding, and spends four characters on every three bytes, rounded up.
#[verifier::external_body]
fn b64url_encode(b: &Vec<u8>) -> (r: String)
    requires
        b@.len() <= 0x1000_0000,
    ensures
        r@ == b64url_of(b@),
        r@.len() == (b@.len() * 4 + 2) / 3,
        forall|i: int| 0 <= i < r@.len() ==> is_b64url_char(#[trigger] r@[i]),
{
    base64::Engine::encode(&base64::engine::general_purpose::URL_SAFE_NO_PAD, b)
}

/// Relies on rand's `OsRng` (`RngCore::fill_bytes`): 32 bytes of
/// operating-system randomness; nothing is promised of their values.
#[verifier::external_body]
fn random_key_bytes() -> (r: Vec<u8>)
    ensures
        r@.len() == 32,
{
    let mut key = [0u8; 32];
    rand::RngCore::fill_bytes(&mut rand::rngs::OsRng, &mut key);
    key.to_vec()
}

/// Relies on `constant_time_eq::constant_time_eq`: true exactly when
/// the byte strings are equal, in time independent of where they
/// differ; equal UTF-8 bytes mean equal strings.
#[verifier::external_body]
fn ct_str_eq(a: &str, b: &str) -> (r: bool)
    ensures
        r == (a@ == b@),
{
    constant_time_eq::constant_time_eq(a.as_bytes(), b.as_bytes())
}

/// The one-way hash under which a secret is stored: the lowercase hex
/// encoding of its SHA-256 digest.
pub open spec fn key_hash(secret: Seq<char>) -> Seq<char> {
    hex_of(sha256_of(secret))
}

/// Generates a fresh API secret: 256 random bits, base64-encoded with
/// the URL-safe alphabet and no padding.
pub fn generate_api_key() -> (r: String)
    ensures
        r@.len() == 43,
        forall|i: int| 0 <= i < r@.len() ==> is_b64url_char(#[trigger] r@[i]),
{
    let bytes = random_key_bytes();
    b64url_encode(&bytes)
}

/// Hashes an API secret for storage.
pub fn hash_api_key(key: &str) -> (r: String)
    ensures
        r@ == key_hash(key@),
        r@.len() == 64,
        forall|i: int| 0 <= i < r@.len() ==> is_hex_char(#[trigger] r@[i]),
{
    let d = sha256_str(key);
    proof {
        lemma_hex_of_len(d@);
    }
    hex_encode(&d)
}

/// Some stored credential's hash is the presented secret's hash.
pub open spec fn authorized(c: Config, secret: Seq<char>) -> bool {
    exists|i: int|
        0 <= i < c.api_keys@.len() && (#[trigger] c.api_keys@[i]).value@ == key_hash(secret)
}

/// Checks a presented secret against every stored credential hash. The
/// secret is hashed and every stored hash is compared, each comparison
/// in constant time and none skipped, so the timing does not tell "no
/// keys configured" from "wrong key" from "right key elsewhere"; an
/// empty credential set rejects.
pub fn validate_api_key(config: &Config, api_key: &str) -> (r: bool)
    ensures
        r == authorized(*config, api_key@),
{
    let hashed = hash_api_key(api_key);
    let mut found = false;
    let mut i: usize = 0;
    while i < config.api_keys.len()
        invariant
            i <= config.api_keys@.len(),
            hashed@ == key_hash(api_key@),
            found == exists|k: int|
                0 <= k < i && (#[trigger] config.api_keys@[k]).value@ == key_hash(api_key@),
        decreases config.api_keys@.len() - i,
    {
        let m = ct_str_eq(config.api_keys[i].value.as_str(), hashed.as_str());
        proof {
            if m {
                assert(config.api_keys@[i as int].value@ == key_hash(api_key@));
            }
        }
        found = found || m;
        i = i + 1;
    }
    found
}

/// With no credentials stored, every presented secret is rejected,
/// the empty one included.
pub proof fn lemma_no_credentials_reject(c: Config, secret: Seq<char>)
    requires
        c.api_keys@.len() == 0,
    ensures
        !authorized(c, secret),
{
}

/// After the credential under `name` is removed — the state change
/// `remove_api_key` promises — a secret authorizes no longer, provided
/// no credential under another name carried its hash.
pub proof fn lemma_removed_credential_rejected(
    before: Config,
    after: Config,
    name: Seq<char>,
    secret: Seq<char>,
)
    requires
        config_wf(after),
        lookup(after.api_keys@, name) is None,
        forall|n: Seq<char>|
            n != name ==> lookup(after.api_keys@, n) == lookup(before.api_keys@, n),
        forall|n: Seq<char>|
            n != name ==> lookup(before.api_keys@, n) != Some(key_hash(secret)),
    ensures
        !authorized(after, secret),
{
    if authorized(after, secret) {
        let i = choose|i: int|
            0 <= i < after.api_keys@.len() && (#[trigger] after.api_keys@[i]).value@ == key_hash(
                secret,
            );
        crate::config::lemma_entry_found(after.api_keys@, i);
        assert(lookup(after.api_keys@, after.api_keys@[i].name@) == Some(key_hash(secret)));
    }
}

/// Stores a fresh credential under `name` and hands back the plaintext
/// secret, the only time it is visible: it authorizes against the new
/// state at once.
pub fn handle_config_generate_key(config: &mut Config, name: String) -> (key: String)
    requires
        config_wf(*old(config)),
    ensures
        config_wf(*final(config)),
        key@.len() == 43,
        lookup(final(config).api_keys@, name@) == Some(key_hash(key@)),
        forall|n: Seq<char>|
            n != name@ ==> lookup(final(config).api_keys@, n) == lookup(
                old(config).api_keys@,
                n,
            ),
        authorized(*final(config), key@),
        final(config).projects@ == old(config).projects@,
        final(config).port == old(config).port,
        final(config).listen_address == old(config).listen_address,
{
    let key = generate_api_key();
    let hashed = hash_api_key(key.as_str());
    let ghost gname = name@;
    config.add_api_key(name, hashed);
    proof {
        crate::config::lemma_lookup_some_exists(config.api_keys@, gname);
    }
    key
}

/// Removes the credential under `name`; an unknown name changes
/// nothing.
pub fn handle_config_remove_key(config: &mut Config, name: &str)
    requires
        config_wf(*old(config)),
    ensures
        config_wf(*final(config)),
        lookup(final(config).api_keys@, name@) is None,
        forall|n: Seq<char>|
            n != name@ ==> lookup(final(config).api_keys@, n) == lookup(
                old(config).api_keys@,
                n,
            ),
        final(config).projects@ == old(config).projects@,
        final(config).port == old(config).port,
        final(config).listen_address == old(config).listen_address,
{
    let _removed = config.remove_api_key(name);
}

/// Registers a project under `name`, replacing an earlier registration
/// of that name.
pub fn handle_config_add_project(config: &mut Config, name: String, path: String)
    requires
        config_wf(*old(config)),
    ensures
        config_wf(*final(config)),
        lookup(final(config).projects@, name@) == Some(path@),
        forall|n: Seq<char>|
            n != name@ ==> lookup(final(config).projects@, n) == lookup(
                old(config).projects@,
                n,
            ),
        final(config).api_keys@ == old(config).api_keys@,
        final(config).port == old(config).port,
        final(config).listen_address == old(config).listen_address,
{
    config.add_project(name, path);
}

/// Removes the project under `name`, saying whether it existed; a
/// missing name leaves the registry as it was.
pub fn handle_config_remove_project(config: &mut Config, name: &str) -> (found: bool)
    requires
        config_wf(*old(config)),
    ensures
        config_wf(*final(config)),
        found == (lookup(old(config).projects@, name@) is Some),
        !found ==> final(config).projects@ == old(config).projects@,
        lookup(final(config).projects@, name@) is None,
        forall|n: Seq<char>|
            n != name@ ==> lookup(final(config).projects@, n) == lookup(
                old(config).projects@,
                n,
            ),
        final(config).api_keys@ == old(config).api_keys@,
        final(config).port == old(config).port,
        final(config).listen_address == old(config).listen_address,
{
    config.remove_project(name).is_some()
}

/// Sets the port the service listens on.
pub fn handle_config_set_port(config: &mut Config, port: u16)
    ensures
        final(config).port == port,
        final(config).projects@ == old(config).projects@,
        final(config).api_keys@ == old(config).api_keys@,
        final(config).listen_address == old(config).listen_address,
{
    config.port = port;
}

/// Sets the address the service listens on.
pub fn handle_config_set_address(config: &mut Config, address: String)
    ensures
        final(config).listen_address == address,
        final(config).projects@ == old(config).projects@,
        final(config).api_keys@ == old(config).api_keys@,
        final(config).port == old(config).port,
{
    config.listen_address = address;
}

} // verus!
