//! Key derivation, authenticated encryption and random material.

use vstd::prelude::*;
use aes_gcm::aead::rand_core::RngCore;
use aes_gcm::aead::Aead;
use aes_gcm::KeyInit;
use crate::b64;
use crate::error::AppError;
use crate::rules::{all_from_pools, covers, nonempty_pools, pool_views};
use crate::text;

verus! {

pub const KEY_LEN: usize = 32;
pub const NONCE_LEN: usize = 12;
pub const SALT_LEN: usize = 16;

/// Argon2id parameters, tuned to stay interactive (about 0.3 s) on a typical
/// laptop while keeping a real memory-hard cost for offline guessing.
#[derive(Debug, Clone)]
pub struct KdfParams {
    pub algo: String,
    pub m_cost: u32,
    pub t_cost: u32,
    pub p_cost: u32,
    /// Base64 of the salt.
    pub salt: String,
}

impl Default for KdfParams {
    fn default() -> (p: Self)
        ensures
            p.algo@ == "argon2id"@,
            p.m_cost == 19456,
            p.t_cost == 2,
            p.p_cost == 1,
            p.salt@.len() == 0,
    {
        KdfParams { algo: "argon2id".to_owned(), m_cost: 19456, t_cost: 2, p_cost: 1, salt: String::new() }
    }
}

/// `N` bytes from the operating system's random source (`OsRng`). They are
/// random, so nothing is claimed about them.
#[verifier::external_body]
pub fn random_bytes<const N: usize>() -> [u8; N] {
    let mut buffer = [0u8; N];
    aes_gcm::aead::OsRng.fill_bytes(&mut buffer);
    buffer
}

/// A random index below `n`, taken from the first of four random bytes.
pub fn random_index(n: usize) -> (r: usize)
    requires
        n > 0,
    ensures
        r < n,
{
    let bytes = random_bytes::<4>();
    bytes[0] as usize % n
}

} // verus!

verus! {

// ---------------------------------------------------------------------------
// Salt, key derivation and authenticated encryption
// ---------------------------------------------------------------------------

/// A new random salt, base64.
pub fn new_salt() -> (r: String)
    ensures
        exists|salt: Seq<u8>| salt.len() == SALT_LEN && r@ == b64::encode_spec(salt),
{
    let salt = random_bytes::<SALT_LEN>();
    b64::encode(&salt)
}

/// What Argon2id (version 0x13, a 32-byte output) derives from a password
/// and a salt with the given memory, time and parallelism costs; a function
/// of these alone.
pub uninterp spec fn argon2id_key(password: Seq<u8>, salt: Seq<u8>, m_cost: u32, t_cost: u32, p_cost: u32) -> Seq<u8>;

/// Whether `argon2::Params::new` accepts the costs (with a 32-byte output):
/// at least eight memory blocks and eight per lane, at least one pass, and
/// between one and 2^24 - 1 lanes.
pub open spec fn argon2_params_ok(m_cost: u32, t_cost: u32, p_cost: u32) -> bool {
    &&& m_cost >= 8
    &&& m_cost as int >= 8 * p_cost as int
    &&& t_cost >= 1
    &&& 1 <= p_cost <= 0xFF_FFFF
}

/// Whether `hash_password_into` takes a password and a salt of these
/// lengths: a salt of 8 bytes up to 2^32 - 1, a password up to 2^32 - 1.
pub open spec fn argon2_input_ok(password_len: nat, salt_len: nat) -> bool {
    &&& 8 <= salt_len <= 0xFFFF_FFFF
    &&& password_len <= 0xFFFF_FFFF
}

/// Why the key could not be derived, with argon2's message.
pub enum KdfFailure {
    /// `argon2::Params::new` refused the costs.
    Params(String),
    /// `Argon2::hash_password_into` failed (a salt or password of a length
    /// the algorithm does not take).
    Hash(String),
}

/// `argon2::Params::new(m, t, p, Some(32))`, `Argon2::new(Argon2id, V0x13,
/// params)` and `hash_password_into`: the costs are refused exactly as
/// `Params::new` checks them; then the hash fails exactly for a salt or
/// password length that `verify_inputs` refuses (the 32-byte output passes
/// every output check); otherwise the key is Argon2id of the password and the
/// salt. `Params::new` computes `p * 8` in `u32`, so a parallelism of 2^29 or
/// more is left out. Not stated: the working memory (`m_cost` KiB) is
/// allocated, and a machine without that much memory aborts.
#[verifier::external_body]
fn argon2id_hash(password: &[u8], salt: &[u8], m_cost: u32, t_cost: u32, p_cost: u32) -> (r: Result<[u8; KEY_LEN], KdfFailure>)
    requires
        p_cost < 0x2000_0000,
    ensures
        r matches Ok(k) ==> k@ == argon2id_key(password@, salt@, m_cost, t_cost, p_cost),
        (r matches Err(KdfFailure::Params(_))) == !argon2_params_ok(m_cost, t_cost, p_cost),
        (r matches Err(KdfFailure::Hash(_))) == (argon2_params_ok(m_cost, t_cost, p_cost) && !argon2_input_ok(
            password@.len(),
            salt@.len(),
        )),
{
    let params = match argon2::Params::new(m_cost, t_cost, p_cost, Some(KEY_LEN)) {
        Ok(params) => params,
        Err(err) => return Err(KdfFailure::Params(err.to_string())),
    };
    let argon = argon2::Argon2::new(argon2::Algorithm::Argon2id, argon2::Version::V0x13, params);
    let mut out = [0u8; KEY_LEN];
    match argon.hash_password_into(password, salt, &mut out) {
        Ok(()) => Ok(out),
        Err(err) => Err(KdfFailure::Hash(err.to_string())),
    }
}

fn crypto_error(prefix: &str, m: &String) -> (e: AppError)
    ensures
        e matches AppError::Crypto(s) && s@ == prefix@ + m@,
{
    let mut v = text::chars_of(prefix);
    text::push_str(&mut v, m.as_str());
    AppError::Crypto(text::string_of(&v))
}

/// Whether a key can be derived from a password and stored parameters: the
/// salt decodes, and Argon2 takes the costs and the lengths.
pub open spec fn derivable(password: Seq<char>, params: KdfParams) -> bool {
    match b64::decode_spec(vstd::utf8::encode_utf8(params.salt@)) {
        Err(_) => false,
        Ok(salt) => argon2_params_ok(params.m_cost, params.t_cost, params.p_cost) && argon2_input_ok(
            vstd::utf8::encode_utf8(password).len(),
            salt.len(),
        ),
    }
}

/// The key derived from a password and stored parameters.
pub open spec fn derived_key(password: Seq<char>, params: KdfParams) -> Seq<u8> {
    argon2id_key(
        vstd::utf8::encode_utf8(password),
        b64::decode_spec(vstd::utf8::encode_utf8(params.salt@))->Ok_0,
        params.m_cost,
        params.t_cost,
        params.p_cost,
    )
}

/// The key of a vault: Argon2id of the password's UTF-8 bytes and the
/// decoded salt, with the stored costs.
pub fn derive_key(password: &str, params: &KdfParams) -> (r: Result<[u8; KEY_LEN], AppError>)
    ensures
        derivable(password@, *params) <==> r is Ok,
        r matches Ok(k) ==> k@ == derived_key(password@, *params),
        match b64::decode_spec(vstd::utf8::encode_utf8(params.salt@)) {
            Err(b) => r matches Err(AppError::Crypto(m)) && m@ == "盐值解码失败："@ + b64::invalid_message(b),
            Ok(salt) => {
                &&& params.p_cost >= 0x2000_0000 ==> (r matches Err(AppError::Crypto(m)) && m@
                    == "KDF 参数无效：too many threads"@)
                &&& !argon2_params_ok(params.m_cost, params.t_cost, params.p_cost) ==> (r matches Err(
                    AppError::Crypto(m),
                ) && text::starts_with(m@, "KDF 参数无效："@))
                &&& argon2_params_ok(params.m_cost, params.t_cost, params.p_cost) && !argon2_input_ok(
                    vstd::utf8::encode_utf8(password@).len(),
                    salt.len(),
                ) ==> (r matches Err(AppError::Crypto(m)) && text::starts_with(m@, "密钥派生失败："@))
                &&& r matches Err(e) ==> e matches AppError::Crypto(_)
            },
        },
{
    let salt = match b64::decode(params.salt.as_str()) {
        Ok(salt) => salt,
        Err(err) => {
            return Err(crypto_error("盐值解码失败：", &err));
        },
    };
    if params.p_cost >= 0x2000_0000 {
        // argon2 refuses more than 2^24 - 1 lanes, and would overflow here.
        let e = crypto_error("KDF 参数无效：", &text::string_of(&text::chars_of("too many threads")));
        proof {
            reveal_strlit("KDF 参数无效：");
            reveal_strlit("too many threads");
            reveal_strlit("KDF 参数无效：too many threads");
        }
        assert(e matches AppError::Crypto(m) && m@.take(9) =~= "KDF 参数无效："@);
        assert(e matches AppError::Crypto(m) && m@ =~= "KDF 参数无效：too many threads"@);
        return Err(e);
    }
    match argon2id_hash(password.as_bytes(), salt.as_slice(), params.m_cost, params.t_cost, params.p_cost) {
        Ok(key) => Ok(key),
        Err(KdfFailure::Params(err)) => {
            let e = crypto_error("KDF 参数无效：", &err);
            proof {
                reveal_strlit("KDF 参数无效：");
            }
            assert(e matches AppError::Crypto(m) && m@.take(9) =~= "KDF 参数无效："@);
            Err(e)
        },
        Err(KdfFailure::Hash(err)) => {
            let e = crypto_error("密钥派生失败：", &err);
            proof {
                reveal_strlit("密钥派生失败：");
            }
            assert(e matches AppError::Crypto(m) && m@.take(7) =~= "密钥派生失败："@);
            Err(e)
        },
    }
}

/// Largest plaintext AES-GCM encrypts (`aes_gcm::P_MAX`, 2^36 bytes).
pub open spec fn aes_plaintext_max() -> nat {
    0x10_0000_0000
}

/// What AES-256-GCM makes of a plaintext under a key and a nonce, without
/// associated data: the ciphertext followed by the 16-byte tag; a function
/// of the three alone.
pub uninterp spec fn aes_gcm_seal(key: Seq<u8>, nonce: Seq<u8>, plaintext: Seq<u8>) -> Seq<u8>;

/// What AES-256-GCM decryption makes of a ciphertext: the plaintext, or
/// nothing when the tag does not authenticate it.
pub uninterp spec fn aes_gcm_open(key: Seq<u8>, nonce: Seq<u8>, ciphertext: Seq<u8>) -> Option<Seq<u8>>;

/// `Aes256Gcm::encrypt`: the sealed text; it fails exactly for a plaintext
/// longer than `P_MAX` (the only check of `encrypt_in_place_detached`).
#[verifier::external_body]
fn aes_seal(key: &[u8; KEY_LEN], nonce: &[u8; NONCE_LEN], plaintext: &[u8]) -> (r: Result<Vec<u8>, String>)
    ensures
        r matches Ok(c) ==> c@ == aes_gcm_seal(key@, nonce@, plaintext@),
        r is Ok <==> plaintext@.len() <= aes_plaintext_max(),
{
    let cipher = aes_gcm::Aes256Gcm::new(aes_gcm::Key::<aes_gcm::Aes256Gcm>::from_slice(key));
    cipher.encrypt(aes_gcm::Nonce::from_slice(nonce), plaintext).map_err(|err| err.to_string())
}

/// `Aes256Gcm::decrypt` with a 12-byte nonce: the opened text; a text sealed
/// under the same key and nonce opens to the plaintext it was sealed from
/// (the round trip the crate documents).
#[verifier::external_body]
fn aes_open(key: &[u8; KEY_LEN], nonce: &[u8], ciphertext: &[u8]) -> (r: Option<Vec<u8>>)
    requires
        nonce@.len() == NONCE_LEN,
    ensures
        r is Some == aes_gcm_open(key@, nonce@, ciphertext@) is Some,
        r matches Some(v) ==> aes_gcm_open(key@, nonce@, ciphertext@) == Some(v@),
        r is None ==> forall|p: Seq<u8>|
            p.len() <= aes_plaintext_max() ==> #[trigger] aes_gcm_seal(key@, nonce@, p) != ciphertext@,
        r matches Some(v) ==> forall|p: Seq<u8>|
            p.len() <= aes_plaintext_max() && #[trigger] aes_gcm_seal(key@, nonce@, p) == ciphertext@ ==> v@ == p,
{
    let cipher = aes_gcm::Aes256Gcm::new(aes_gcm::Key::<aes_gcm::Aes256Gcm>::from_slice(key));
    cipher.decrypt(aes_gcm::Nonce::from_slice(nonce), ciphertext).ok()
}

/// Encrypts with a fresh random nonce; both come back in base64.
pub fn encrypt(key: &[u8; KEY_LEN], plaintext: &[u8]) -> (r: Result<(String, String), AppError>)
    ensures
        plaintext@.len() <= aes_plaintext_max() ==> (r matches Ok((n, c)) && exists|nonce: Seq<u8>|
            nonce.len() == NONCE_LEN && n@ == b64::encode_spec(nonce) && c@ == b64::encode_spec(
                aes_gcm_seal(key@, nonce, plaintext@),
            )),
        plaintext@.len() > aes_plaintext_max() ==> (r matches Err(AppError::Crypto(m)) && text::starts_with(m@, "加密失败："@)),
{
    let nonce = random_bytes::<NONCE_LEN>();
    match aes_seal(key, &nonce, plaintext) {
        Ok(ciphertext) => Ok((b64::encode(&nonce), b64::encode(ciphertext.as_slice()))),
        Err(err) => {
            let e = crypto_error("加密失败：", &err);
            proof {
                reveal_strlit("加密失败：");
            }
            assert(e matches AppError::Crypto(m) && m@.take(5) =~= "加密失败："@);
            Err(e)
        },
    }
}

/// What decrypting base64 nonce and ciphertext gives: a decoding error, a
/// nonce of the wrong length, the opened plaintext, or a wrong password when
/// the tag does not authenticate the ciphertext.
pub open spec fn decrypted(key: Seq<u8>, nonce: Seq<char>, ciphertext: Seq<char>, r: Result<Vec<u8>, AppError>) -> bool {
    match (b64::decode_spec(vstd::utf8::encode_utf8(nonce)), b64::decode_spec(vstd::utf8::encode_utf8(ciphertext))) {
        (Err(b), _) => r matches Err(AppError::Crypto(m)) && m@ == "随机数解码失败："@ + b64::invalid_message(b),
        (Ok(_), Err(b)) => r matches Err(AppError::Crypto(m)) && m@ == "密文解码失败："@ + b64::invalid_message(b),
        (Ok(n), Ok(c)) => if n.len() != NONCE_LEN {
            r matches Err(AppError::Crypto(m)) && m@ == "随机数长度不正确"@
        } else {
            match aes_gcm_open(key, n, c) {
                Some(p) => r matches Ok(v) && v@ == p,
                None => r matches Err(AppError::InvalidPassword),
            }
        },
    }
}

/// Decrypts base64 nonce and ciphertext. A failed authentication means a
/// wrong password or a tampered file; both are reported as a wrong password.
pub fn decrypt(key: &[u8; KEY_LEN], nonce: &str, ciphertext: &str) -> (r: Result<Vec<u8>, AppError>)
    ensures
        decrypted(key@, nonce@, ciphertext@, r),
        // What a write gives back on a read: what `encrypt` produced opens,
        // with the same key, to the plaintext.
        forall|nb: Seq<u8>, p: Seq<u8>|
            nb.len() == NONCE_LEN && p.len() <= aes_plaintext_max() && nonce@ == b64::encode_spec(nb) && ciphertext@
                == #[trigger] b64::encode_spec(aes_gcm_seal(key@, nb, p)) ==> (r matches Ok(v) && v@ == p),
{
    proof {
        assert forall|nb: Seq<u8>, p: Seq<u8>|
            nb.len() == NONCE_LEN && p.len() <= aes_plaintext_max() && nonce@ == b64::encode_spec(nb) && ciphertext@
                == #[trigger] b64::encode_spec(aes_gcm_seal(key@, nb, p)) implies b64::decode_spec(vstd::utf8::encode_utf8(nonce@))
            == Ok::<Seq<u8>, u8>(nb) && b64::decode_spec(vstd::utf8::encode_utf8(ciphertext@)) == Ok::<Seq<u8>, u8>(aes_gcm_seal(key@, nb, p)) by {
            b64::law_decode_inverts_encode(nb);
            b64::law_decode_inverts_encode(aes_gcm_seal(key@, nb, p));
        }
    }
    let nonce_bytes = match b64::decode(nonce) {
        Ok(v) => v,
        Err(err) => {
            return Err(crypto_error("随机数解码失败：", &err));
        },
    };
    let data = match b64::decode(ciphertext) {
        Ok(v) => v,
        Err(err) => {
            return Err(crypto_error("密文解码失败：", &err));
        },
    };
    if nonce_bytes.len() != NONCE_LEN {
        return Err(AppError::Crypto(text::string_of(&text::chars_of("随机数长度不正确"))));
    }
    match aes_open(key, nonce_bytes.as_slice(), data.as_slice()) {
        Some(plain) => Ok(plain),
        None => Err(AppError::InvalidPassword),
    }
}

} // verus!

verus! {

// ---------------------------------------------------------------------------
// Password generation
// ---------------------------------------------------------------------------

#[derive(Debug, Clone)]
pub struct GeneratorOptions {
    pub length: usize,
    pub upper: bool,
    pub lower: bool,
    pub digits: bool,
    pub symbols: bool,
    pub avoid_ambiguous: bool,
    /// SAP passwords historically cap out at 40 characters, so this is offered
    /// as a soft guard rail.
    pub max_length: Option<usize>,
}

impl Default for GeneratorOptions {
    fn default() -> (o: Self)
        ensures
            o.length == 20,
            o.upper && o.lower && o.digits && o.symbols,
            !o.avoid_ambiguous,
            o.max_length == Some(40usize),
    {
        GeneratorOptions {
            length: 20,
            upper: true,
            lower: true,
            digits: true,
            symbols: true,
            avoid_ambiguous: false,
            max_length: Some(40),
        }
    }
}

/// `n` consecutive byte values from `lo`.
pub open spec fn byte_range(lo: u8, n: nat) -> Seq<u8> {
    Seq::new(n, |i: int| (lo + i) as u8)
}

pub open spec fn upper_bytes() -> Seq<u8> {
    byte_range(65, 26)
}

pub open spec fn lower_bytes() -> Seq<u8> {
    byte_range(97, 26)
}

pub open spec fn digit_bytes() -> Seq<u8> {
    byte_range(48, 10)
}

/// `!@#$%^&*()-_=+[]{};:,.?`
pub open spec fn symbol_bytes() -> Seq<u8> {
    seq![33u8, 64, 35, 36, 37, 94, 38, 42, 40, 41, 45, 95, 61, 43, 91, 93, 123, 125, 59, 58, 44, 46, 63]
}

/// ``O0oIl1|`'"``: characters that look alike.
pub open spec fn ambiguous_bytes() -> Seq<u8> {
    seq![79u8, 48, 111, 73, 108, 49, 124, 96, 39, 34]
}

/// The pool without the look-alike characters.
pub open spec fn unambiguous(p: Seq<u8>) -> Seq<u8>
    decreases p.len(),
{
    if p.len() == 0 {
        seq![]
    } else {
        unambiguous(p.drop_last()) + if ambiguous_bytes().contains(p.last()) { seq![] } else { seq![p.last()] }
    }
}

/// The chosen character classes, in the order upper, lower, digits, symbols,
/// look-alikes left out when asked; empty pools dropped.
pub open spec fn option_pools(o: GeneratorOptions) -> Seq<Seq<u8>> {
    let pick = |p: Seq<u8>| if o.avoid_ambiguous { unambiguous(p) } else { p };
    nonempty_pools(
        (if o.upper { seq![pick(upper_bytes())] } else { seq![] }) + (if o.lower { seq![pick(lower_bytes())] } else { seq![] })
            + (if o.digits { seq![pick(digit_bytes())] } else { seq![] }) + (if o.symbols { seq![pick(symbol_bytes())] } else { seq![] }),
    )
}

/// The length asked for, within 4 to 128, and within the cap when one of at
/// least 4 is set.
pub open spec fn option_length(o: GeneratorOptions) -> int {
    let l: int = if o.length < 4 { 4 } else if o.length > 128 { 128 } else { o.length as int };
    match o.max_length {
        Some(m) => if m >= 4 && m < l { m as int } else { l },
        None => l,
    }
}

fn byte_range_exec(lo: u8, n: u8) -> (r: Vec<u8>)
    requires
        lo + n <= 256,
    ensures
        r@ == byte_range(lo, n as nat),
{
    let mut r: Vec<u8> = Vec::new();
    let mut i: u8 = 0;
    while i < n
        invariant
            i <= n,
            lo + n <= 256,
            r@ == byte_range(lo, i as nat),
        decreases n - i,
    {
        r.push(lo + i);
        i += 1;
        assert(r@ =~= byte_range(lo, i as nat));
    }
    r
}

fn unambiguous_exec(p: &Vec<u8>) -> (r: Vec<u8>)
    ensures
        r@ == unambiguous(p@),
{
    let amb: Vec<u8> = vec![79u8, 48, 111, 73, 108, 49, 124, 96, 39, 34];
    assert(amb@ =~= ambiguous_bytes());
    let mut r: Vec<u8> = Vec::new();
    let mut i: usize = 0;
    assert(p@.take(0) =~= Seq::<u8>::empty());
    while i < p.len()
        invariant
            i <= p.len(),
            amb@ == ambiguous_bytes(),
            r@ == unambiguous(p@.take(i as int)),
        decreases p.len() - i,
    {
        assert(p@.take(i + 1).drop_last() =~= p@.take(i as int));
        assert(p@.take(i + 1).last() == p@[i as int]);
        let b = p[i];
        let mut found = false;
        let mut k: usize = 0;
        while k < amb.len()
            invariant
                k <= amb.len(),
                found == (exists|j: int| 0 <= j < k && amb@[j] == b),
            decreases amb.len() - k,
        {
            if amb[k] == b {
                found = true;
            }
            k += 1;
        }
        let ghost before = r@;
        if !found {
            r.push(b);
        }
        assert(r@ =~= before + if ambiguous_bytes().contains(b) { Seq::<u8>::empty() } else { seq![b] });
        i += 1;
    }
    assert(p@.take(p.len() as int) =~= p@);
    r
}

fn add_pool(pools: &mut Vec<Vec<u8>>, pool: Vec<u8>)
    ensures
        pool_views(final(pools)@) == pool_views(old(pools)@).push(pool@),
{
    let ghost before = pool_views(pools@);
    pools.push(pool);
    assert(pool_views(pools@) =~= before.push(pool@));
}

fn option_pools_exec(o: &GeneratorOptions) -> (r: Vec<Vec<u8>>)
    ensures
        pool_views(r@) == option_pools(*o),
{
    let mut raw: Vec<Vec<u8>> = Vec::new();
    let pick = |p: Vec<u8>| -> (q: Vec<u8>)
        ensures
            q@ == (if o.avoid_ambiguous { unambiguous(p@) } else { p@ }),
    {
        if o.avoid_ambiguous {
            unambiguous_exec(&p)
        } else {
            p
        }
    };
    let ghost e = Seq::<Seq<u8>>::empty();
    assert(pool_views(raw@) =~= e);
    if o.upper {
        add_pool(&mut raw, pick(byte_range_exec(65, 26)));
    }
    let ghost a = pool_views(raw@);
    if o.lower {
        add_pool(&mut raw, pick(byte_range_exec(97, 26)));
    }
    let ghost b = pool_views(raw@);
    if o.digits {
        add_pool(&mut raw, pick(byte_range_exec(48, 10)));
    }
    let ghost c = pool_views(raw@);
    if o.symbols {
        let sym: Vec<u8> = vec![33u8, 64, 35, 36, 37, 94, 38, 42, 40, 41, 45, 95, 61, 43, 91, 93, 123, 125, 59, 58, 44, 46, 63];
        assert(sym@ =~= symbol_bytes());
        add_pool(&mut raw, pick(sym));
    }
    let ghost all = pool_views(raw@);
    let ghost pickf = |p: Seq<u8>| if o.avoid_ambiguous { unambiguous(p) } else { p };
    assert(all =~= (if o.upper { seq![pickf(upper_bytes())] } else { seq![] }) + (if o.lower { seq![pickf(lower_bytes())] } else { seq![] })
        + (if o.digits { seq![pickf(digit_bytes())] } else { seq![] }) + (if o.symbols { seq![pickf(symbol_bytes())] } else { seq![] }));
    let mut out: Vec<Vec<u8>> = Vec::new();
    let mut i: usize = 0;
    assert(all.take(0) =~= Seq::<Seq<u8>>::empty());
    assert(pool_views(out@) =~= Seq::<Seq<u8>>::empty());
    while i < raw.len()
        invariant
            i <= raw.len(),
            all == pool_views(raw@),
            pool_views(out@) == nonempty_pools(all.take(i as int)),
        decreases raw.len() - i,
    {
        assert(all.take(i + 1).drop_last() =~= all.take(i as int));
        assert(all.take(i + 1).last() == raw@[i as int]@);
        if raw[i].len() > 0 {
            let ghost before = pool_views(out@);
            let copy = text_bytes_copy(&raw[i]);
            out.push(copy);
            assert(pool_views(out@) =~= before + seq![raw@[i as int]@]);
        } else {
            assert(pool_views(out@) =~= pool_views(out@) + Seq::<Seq<u8>>::empty());
        }
        i += 1;
    }
    assert(all.take(raw.len() as int) =~= all);
    out
}

fn text_bytes_copy(v: &Vec<u8>) -> (r: Vec<u8>)
    ensures
        r@ == v@,
{
    let mut r: Vec<u8> = Vec::new();
    let mut i: usize = 0;
    while i < v.len()
        invariant
            i <= v.len(),
            r@ == v@.take(i as int),
        decreases v.len() - i,
    {
        r.push(v[i]);
        i += 1;
        assert(r@ =~= v@.take(i as int));
    }
    assert(v@.take(v.len() as int) =~= v@);
    r
}

proof fn lemma_pools_ascii(o: GeneratorOptions)
    ensures
        forall|q: int, k: int| 0 <= q < option_pools(o).len() && 0 <= k < option_pools(o)[q].len() ==> #[trigger] option_pools(o)[q][k] < 128,
        forall|q: int| 0 <= q < option_pools(o).len() ==> #[trigger] option_pools(o)[q].len() > 0,
        option_pools(o).len() <= 4,
{
    let pickf = |p: Seq<u8>| if o.avoid_ambiguous { unambiguous(p) } else { p };
    let raw = (if o.upper { seq![pickf(upper_bytes())] } else { seq![] }) + (if o.lower { seq![pickf(lower_bytes())] } else { seq![] })
        + (if o.digits { seq![pickf(digit_bytes())] } else { seq![] }) + (if o.symbols { seq![pickf(symbol_bytes())] } else { seq![] });
    assert forall|q: int, k: int| 0 <= q < raw.len() && 0 <= k < raw[q].len() implies #[trigger] raw[q][k] < 128 by {
        lemma_unambiguous_sub(upper_bytes(), raw[q][k]);
        lemma_unambiguous_sub(lower_bytes(), raw[q][k]);
        lemma_unambiguous_sub(digit_bytes(), raw[q][k]);
        lemma_unambiguous_sub(symbol_bytes(), raw[q][k]);
        assert(raw[q].contains(raw[q][k]));
    }
    lemma_nonempty_pools_props(raw);
}

proof fn lemma_unambiguous_sub(p: Seq<u8>, b: u8)
    ensures
        unambiguous(p).contains(b) ==> p.contains(b),
    decreases p.len(),
{
    if p.len() > 0 {
        lemma_unambiguous_sub(p.drop_last(), b);
        if unambiguous(p).contains(b) {
            let k = choose|k: int| 0 <= k < unambiguous(p).len() && unambiguous(p)[k] == b;
            if k < unambiguous(p.drop_last()).len() {
                assert(unambiguous(p.drop_last()).contains(b));
                let j = choose|j: int| 0 <= j < p.drop_last().len() && p.drop_last()[j] == b;
                assert(p[j] == b);
            } else {
                assert(p[p.len() - 1] == b);
            }
        }
    }
}

proof fn lemma_nonempty_pools_props(ps: Seq<Seq<u8>>)
    requires
        forall|q: int, k: int| 0 <= q < ps.len() && 0 <= k < ps[q].len() ==> #[trigger] ps[q][k] < 128,
    ensures
        forall|q: int, k: int| 0 <= q < nonempty_pools(ps).len() && 0 <= k < nonempty_pools(ps)[q].len() ==> #[trigger] nonempty_pools(ps)[q][k] < 128,
        forall|q: int| 0 <= q < nonempty_pools(ps).len() ==> #[trigger] nonempty_pools(ps)[q].len() > 0,
        nonempty_pools(ps).len() <= ps.len(),
    decreases ps.len(),
{
    if ps.len() > 0 {
        lemma_nonempty_pools_props(ps.drop_last());
        let rest = nonempty_pools(ps.drop_last());
        assert forall|q: int, k: int| 0 <= q < nonempty_pools(ps).len() && 0 <= k < nonempty_pools(ps)[q].len() implies #[trigger] nonempty_pools(ps)[q][k] < 128 by {
            if q < rest.len() {
                assert(nonempty_pools(ps)[q] == rest[q]);
            } else {
                assert(nonempty_pools(ps)[q] == ps.last());
                assert(ps[ps.len() - 1][k] < 128);
            }
        }
        assert forall|q: int| 0 <= q < nonempty_pools(ps).len() implies #[trigger] nonempty_pools(ps)[q].len() > 0 by {
            if q < rest.len() {
                assert(nonempty_pools(ps)[q] == rest[q]);
            }
        }
    }
}

/// A random password: one character of every chosen class, the rest from
/// all of them, shuffled; an error when no class is chosen.
pub fn generate_password(options: &GeneratorOptions) -> (r: Result<String, AppError>)
    ensures
        option_pools(*options).len() == 0 ==> (r matches Err(AppError::Msg(m)) && m@ == "至少需要选择一种字符类型"@),
        option_pools(*options).len() > 0 ==> (r matches Ok(pw) && exists|out: Seq<u8>|
            out.len() == option_length(*options) && all_from_pools(out, option_pools(*options)) && covers(
                out,
                option_pools(*options),
            ) && pw@ == text::ascii_chars(out)),
{
    let pools = option_pools_exec(options);
    let ghost ps = option_pools(*options);
    proof {
        lemma_pools_ascii(*options);
    }
    if pools.len() == 0 {
        return Err(AppError::Msg(text::string_of(&text::chars_of("至少需要选择一种字符类型"))));
    }
    let mut length: usize = if options.length < 4 {
        4
    } else if options.length > 128 {
        128
    } else {
        options.length
    };
    match options.max_length {
        Some(max) => {
            if max >= 4 && max < length {
                length = max;
            }
        },
        None => {},
    }
    let combined = crate::rules::combine(&pools, Ghost(ps));
    let mut out = crate::rules::draw(&pools, &combined, length, Ghost(ps));
    // Fisher-Yates, so the guaranteed characters are not always first.
    let mut index: usize = out.len();
    while index > 1
        invariant
            index <= out.len(),
            out.len() == length,
            all_from_pools(out@, ps),
            covers(out@, ps),
        decreases index,
    {
        index -= 1;
        let swap = random_index(index + 1);
        let ghost before = out@;
        crate::rules::swap_bytes(&mut out, index, swap);
        proof {
            crate::rules::lemma_swap_keeps(before, out@, index as int, swap as int, ps);
        }
    }
    proof {
        reveal(all_from_pools);
        assert forall|i: int| 0 <= i < out@.len() implies out@[i] < 128 by {
            assert(crate::rules::in_some_pool(out@[i], ps));
            let q = choose|q: int| 0 <= q < ps.len() && #[trigger] ps[q].contains(out@[i]);
            let k = choose|k: int| 0 <= k < ps[q].len() && ps[q][k] == out@[i];
            assert(ps[q][k] < 128);
        }
    }
    let pw = text::from_utf8_lossy(out.as_slice());
    Ok(pw)
}

} // verus!

verus! {

// ---------------------------------------------------------------------------
// Password strength: the counting part
// ---------------------------------------------------------------------------

pub open spec fn has_char(p: Seq<char>, f: spec_fn(char) -> bool) -> bool {
    exists|i: int| 0 <= i < p.len() && f(#[trigger] p[i])
}

/// How many of the four character classes a password uses: ASCII lower
/// case, ASCII upper case, ASCII digits, and anything that is not
/// alphanumeric (a symbol).
pub open spec fn class_count(p: Seq<char>) -> nat {
    (if has_char(p, |c: char| text::is_lower(c)) { 1nat } else { 0nat })
        + (if has_char(p, |c: char| text::is_upper(c)) { 1nat } else { 0nat })
        + (if has_char(p, |c: char| text::is_digit(c)) { 1nat } else { 0nat })
        + (if has_char(p, |c: char| !text::unicode_alphanumeric(c)) { 1nat } else { 0nat })
}

/// The advice on a password: a length of at least 12, three classes or
/// more, and a symbol in a password made of letters and digits only.
pub open spec fn strength_suggestions(p: Seq<char>) -> Seq<Seq<char>> {
    (if p.len() < 12 { seq!["长度建议至少 12 位"@] } else { seq![] })
        + (if class_count(p) < 3 { seq!["混用大小写、数字和符号"@] } else { seq![] })
        + (if p.len() > 0 && !has_char(p, |c: char| !text::unicode_alphanumeric(c)) {
            seq!["加入符号可显著提升强度"@]
        } else {
            seq![]
        })
}

/// The character classes a password uses (see [`class_count`]), its length
/// in characters, and the advice on it (see [`strength_suggestions`]). The
/// entropy estimate built from them is a floating-point figure and is made
/// by the caller.
pub fn strength_profile(password: &str) -> (r: (u8, usize, Vec<String>))
    ensures
        r.0 as nat == class_count(password@),
        r.1 == password@.len(),
        crate::model::strings_view(r.2@) == strength_suggestions(password@),
{
    let p = text::chars_of(password);
    let mut lower = false;
    let mut upper = false;
    let mut digit = false;
    let mut symbol = false;
    let mut i: usize = 0;
    while i < p.len()
        invariant
            i <= p.len(),
            p@ == password@,
            lower == exists|k: int| 0 <= k < i && text::is_lower(#[trigger] p@[k]),
            upper == exists|k: int| 0 <= k < i && text::is_upper(#[trigger] p@[k]),
            digit == exists|k: int| 0 <= k < i && text::is_digit(#[trigger] p@[k]),
            symbol == exists|k: int| 0 <= k < i && !text::unicode_alphanumeric(#[trigger] p@[k]),
        decreases p.len() - i,
    {
        let c = p[i];
        if 'a' <= c && c <= 'z' {
            lower = true;
        }
        if 'A' <= c && c <= 'Z' {
            upper = true;
        }
        if '0' <= c && c <= '9' {
            digit = true;
        }
        if !text::char_is_alphanumeric(c) {
            symbol = true;
        }
        i += 1;
    }
    assert(lower == has_char(password@, |c: char| text::is_lower(c)));
    assert(upper == has_char(password@, |c: char| text::is_upper(c)));
    assert(digit == has_char(password@, |c: char| text::is_digit(c)));
    assert(symbol == has_char(password@, |c: char| !text::unicode_alphanumeric(c)));
    let classes: u8 = (if lower { 1u8 } else { 0u8 }) + (if upper { 1u8 } else { 0u8 }) + (if digit { 1u8 } else { 0u8 }) + (
    if symbol { 1u8 } else { 0u8 });
    let mut hints: Vec<String> = Vec::new();
    if p.len() < 12 {
        hints.push(text::string_of(&text::chars_of("长度建议至少 12 位")));
    }
    if classes < 3 {
        hints.push(text::string_of(&text::chars_of("混用大小写、数字和符号")));
    }
    if p.len() > 0 && !symbol {
        hints.push(text::string_of(&text::chars_of("加入符号可显著提升强度")));
    }
    assert(crate::model::strings_view(hints@) =~= strength_suggestions(password@));
    (classes, p.len(), hints)
}

} // verus!
