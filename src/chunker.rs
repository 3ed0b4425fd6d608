use aes_gcm::aead::{Aead, KeyInit};
use aes_gcm::{Aes256Gcm, Key, Nonce};
use rand_core::{OsRng, RngCore};
use sha2::{Digest, Sha256};
use vstd::prelude::*;

verus! {

/// The SHA-256 digest of a byte string.
pub uninterp spec fn sha256_of(data: Seq<u8>) -> Seq<u8>;

/// Relies on sha2::Sha256: the digest of `data`, which depends on the bytes alone.
#[verifier::external_body]
fn sha256(data: &[u8]) -> (r: [u8; 32])
    ensures
        r@ == sha256_of(data@),
{
    Sha256::digest(data).into()
}

/// The root reported for an empty chunk list: thirty-two zero bytes.
pub open spec fn zero_root() -> Seq<u8> {
    Seq::new(32, |i: int| 0u8)
}

/// Parent `i` of a tree level: the digest of the pair at `2i`, `2i + 1`; a
/// trailing node without a partner is paired with itself.
pub open spec fn parent_of(level: Seq<Seq<u8>>, i: int) -> Seq<u8> {
    let left = level[2 * i];
    let right = if 2 * i + 1 < level.len() {
        level[2 * i + 1]
    } else {
        left
    };
    sha256_of(left + right)
}

/// The level above `level`: one parent per pair, rounding up.
pub open spec fn next_level(level: Seq<Seq<u8>>) -> Seq<Seq<u8>> {
    Seq::new(((level.len() + 1) / 2) as nat, |i: int| parent_of(level, i))
}

/// The root of the tree whose lowest level is `level`.
pub open spec fn root_of_level(level: Seq<Seq<u8>>) -> Seq<u8>
    decreases level.len(),
{
    if level.len() == 0 {
        zero_root()
    } else if level.len() == 1 {
        level[0]
    } else {
        root_of_level(next_level(level))
    }
}

/// The leaves of the tree over `chunks`: their digests, in order.
pub open spec fn leaf_hashes(chunks: Seq<Seq<u8>>) -> Seq<Seq<u8>> {
    chunks.map_values(|c: Seq<u8>| sha256_of(c))
}

/// The Merkle root of an ordered list of chunks.
pub open spec fn merkle_root_of(chunks: Seq<Seq<u8>>) -> Seq<u8> {
    root_of_level(leaf_hashes(chunks))
}

/// The byte strings held in a list of vectors.
pub open spec fn byte_views(v: Seq<Vec<u8>>) -> Seq<Seq<u8>> {
    v.map_values(|c: Vec<u8>| c@)
}

/// The byte strings held in a list of digests.
pub open spec fn digest_views(v: Seq<[u8; 32]>) -> Seq<Seq<u8>> {
    v.map_values(|d: [u8; 32]| d@)
}

/// A single chunk's root is its own digest.
pub proof fn lemma_merkle_root_single(c: Seq<u8>)
    ensures
        merkle_root_of(seq![c]) == sha256_of(c),
{
    assert(leaf_hashes(seq![c]) =~= seq![sha256_of(c)]);
}

/// Two chunks give the digest of their two digests joined.
pub proof fn lemma_merkle_root_pair(a: Seq<u8>, b: Seq<u8>)
    ensures
        merkle_root_of(seq![a, b]) == sha256_of(sha256_of(a) + sha256_of(b)),
{
    let leaves = leaf_hashes(seq![a, b]);
    assert(leaves =~= seq![sha256_of(a), sha256_of(b)]);
    let up = next_level(leaves);
    assert(up =~= seq![sha256_of(sha256_of(a) + sha256_of(b))]);
    assert(root_of_level(leaves) == root_of_level(up));
}

/// No chunks give the all-zero root.
pub proof fn lemma_merkle_root_empty()
    ensures
        merkle_root_of(Seq::empty()) == zero_root(),
{
}

/// Three chunks: the third digest is paired with itself, and the root is the
/// digest of the two parents joined.
pub proof fn lemma_merkle_root_triple(a: Seq<u8>, b: Seq<u8>, c: Seq<u8>)
    ensures
        merkle_root_of(seq![a, b, c]) == sha256_of(
            sha256_of(sha256_of(a) + sha256_of(b)) + sha256_of(sha256_of(c) + sha256_of(c)),
        ),
{
    let leaves = leaf_hashes(seq![a, b, c]);
    assert(leaves =~= seq![sha256_of(a), sha256_of(b), sha256_of(c)]);
    let p = sha256_of(sha256_of(a) + sha256_of(b));
    let q = sha256_of(sha256_of(c) + sha256_of(c));
    let up = next_level(leaves);
    assert(up =~= seq![p, q]);
    assert(next_level(up) =~= seq![sha256_of(p + q)]);
    assert(root_of_level(leaves) == root_of_level(up));
    assert(root_of_level(up) == root_of_level(next_level(up)));
}

/// How many chunks of length `k` cover `n` bytes: the ceiling of `n / k`;
/// none for a length of zero.
pub open spec fn chunk_count(n: nat, k: nat) -> nat {
    if n == 0 || k == 0 {
        0
    } else {
        ((n + k - 1) / (k as int)) as nat
    }
}

/// Chunk `j` of `data` cut into pieces of length `k`: bytes `j*k` up to
/// `(j+1)*k`, cut short at the end of the data.
pub open spec fn piece(data: Seq<u8>, k: nat, j: int) -> Seq<u8> {
    let end = if (j + 1) * k <= data.len() {
        (j + 1) * k
    } else {
        data.len() as int
    };
    data.subrange(j * k, end)
}

/// `data` cut into consecutive chunks of length `k`, the last one possibly
/// shorter; no chunks when `k` is zero.
pub open spec fn split_spec(data: Seq<u8>, k: nat) -> Seq<Seq<u8>> {
    Seq::new(chunk_count(data.len(), k), |j: int| piece(data, k, j))
}

/// The chunk count is `i` whenever `i` chunks of length `k` reach the end of
/// `n` bytes and `i - 1` of them do not.
proof fn lemma_count_exact(n: nat, k: nat, i: nat)
    requires
        k > 0,
        i * k >= n,
        i > 0 ==> (i - 1) * k < n,
    ensures
        chunk_count(n, k) == i,
{
    if n > 0 {
        assert(i > 0);
        assert((i - 1) * k == i * k - k) by (nonlinear_arith);
        vstd::arithmetic::div_mod::lemma_fundamental_div_mod_converse(
            (n + k - 1) as int,
            k as int,
            i as int,
            (n + k - 1 - i * k) as int,
        );
    }
}

/// Every chunk but the last has length `k`; the last holds the remaining
/// `n mod k` bytes, or `k` of them when `k` divides `n`; there are
/// `ceil(n / k)` chunks, and none for empty data.
pub proof fn lemma_chunk_lengths(data: Seq<u8>, k: nat)
    requires
        k > 0,
    ensures
        split_spec(data, k).len() == chunk_count(data.len(), k),
        data.len() == 0 ==> split_spec(data, k).len() == 0,
        forall|j: int|
            0 <= j < split_spec(data, k).len() - 1 ==> #[trigger] split_spec(data, k)[j].len()
                == k,
        data.len() > 0 ==> split_spec(data, k).last().len() == if data.len() % k == 0 {
            k
        } else {
            data.len() % k
        },
{
    let n = data.len() as int;
    let c = chunk_count(data.len(), k) as int;
    let kk = k as int;
    if n > 0 {
        vstd::arithmetic::div_mod::lemma_fundamental_div_mod(n + kk - 1, kk);
        let q = (n + kk - 1) / kk;
        let r = (n + kk - 1) % kk;
        assert(c == q);
        assert(c * k == n + k - 1 - r);
        assert forall|j: int| 0 <= j < c - 1 implies #[trigger] split_spec(data, k)[j].len() == k by {
            assert((j + 1) * k <= (c - 1) * k) by (nonlinear_arith)
                requires
                    0 <= j < c - 1,
                    k > 0,
            ;
            assert((c - 1) * k == c * k - k) by (nonlinear_arith);
            assert(j * k + k == (j + 1) * k) by (nonlinear_arith);
        }
        assert((c - 1) * k == c * k - k) by (nonlinear_arith);
        assert(c * k >= n);
        assert((c - 1) * k < n);
        assert(c >= 1) by (nonlinear_arith)
            requires
                c * kk >= n,
                n > 0,
                kk > 0,
        ;
        let rem = n - (c - 1) * kk;
        assert(split_spec(data, k)[c - 1].len() == rem);
        if rem < kk {
            vstd::arithmetic::div_mod::lemma_fundamental_div_mod_converse(n, kk, c - 1, rem);
        } else {
            vstd::arithmetic::div_mod::lemma_fundamental_div_mod_converse(n, kk, c, 0);
        }
    }
}

/// Why a chunking operation failed.
#[derive(Debug)]
pub enum ChunkerError {
    /// Reading the input failed.
    Io(String),
    /// No key is configured, or the cipher refused to seal a chunk.
    Crypto(String),
    /// A sealed chunk did not verify under the configured key: wrong key,
    /// or altered ciphertext or nonce. No plaintext is released.
    Authentication(String),
}

/// The message of the error given when a chunk is sealed or opened without a key.
pub open spec fn no_cipher_message() -> Seq<char> {
    "No cipher configured"@
}

/// The message of the error given when the cipher refuses a chunk: one too
/// long to seal, or a sealed chunk that does not verify.
pub open spec fn cipher_failure_message() -> Seq<char> {
    "aead::Error"@
}

/// `r` is the authentication failure carrying `message`.
pub open spec fn is_authentication_error<T>(r: Result<T, ChunkerError>, message: Seq<char>) -> bool {
    r matches Err(ChunkerError::Authentication(m)) && m@ == message
}

/// The message of the error given when no random nonce could be drawn.
pub open spec fn nonce_failure_message() -> Seq<char> {
    "random source unavailable"@
}

/// `r` is the crypto error carrying `message`.
pub open spec fn is_crypto_error<T>(r: Result<T, ChunkerError>, message: Seq<char>) -> bool {
    r matches Err(ChunkerError::Crypto(m)) && m@ == message
}

/// A sealed chunk: its position, the nonce it was sealed with, and the
/// ciphertext followed by the authentication tag.
#[derive(Debug)]
pub struct EncryptedChunk {
    pub index: u64,
    pub nonce: [u8; 12],
    pub ciphertext: Vec<u8>,
}

/// What processing a file's contents gives: the plain chunks with their
/// digests, or the sealed chunks when a key is configured.
pub enum ProcessOutput {
    Raw { chunks: Vec<Vec<u8>>, hashes: Vec<[u8; 32]> },
    Encrypted(Vec<EncryptedChunk>),
}

/// The longest plaintext that AES-GCM seals: 2^36 bytes.
pub const MAX_SEALED_LEN: u64 = 68719476736;

/// The length of the authentication tag that follows each ciphertext.
pub const TAG_LEN: u64 = 16;

/// AES-256-GCM with no associated data: the ciphertext and tag of `plaintext`
/// under `key` and `nonce`.
pub uninterp spec fn aes256_gcm_seal(key: Seq<u8>, nonce: Seq<u8>, plaintext: Seq<u8>) -> Seq<u8>;

/// Relies on aes_gcm's Aes256Gcm through aead::Aead::encrypt, with no associated data:
/// it fails only above the cipher's plaintext limit of 2^36 bytes, and the result is the
/// ciphertext followed by a 16-byte tag, a function of key, nonce and plaintext.
#[verifier::external_body]
fn aes256_gcm_encrypt(key: &[u8; 32], nonce: &[u8; 12], plaintext: &[u8]) -> (r: Option<Vec<u8>>)
    requires
        plaintext@.len() <= MAX_SEALED_LEN,
    ensures
        r is Some,
        r->0@ == aes256_gcm_seal(key@, nonce@, plaintext@),
        r->0@.len() == plaintext@.len() + TAG_LEN,
{
    let cipher = Aes256Gcm::new(Key::<Aes256Gcm>::from_slice(key));
    cipher.encrypt(Nonce::from_slice(nonce), plaintext).ok()
}

/// `ciphertext` is the sealing of `plaintext` under `key` and `nonce`, within
/// the lengths this library seals.
pub open spec fn opens_to(key: Seq<u8>, nonce: Seq<u8>, ciphertext: Seq<u8>, plaintext: Seq<u8>) -> bool {
    &&& plaintext.len() <= MAX_SEALED_LEN
    &&& ciphertext.len() <= MAX_SEALED_LEN + TAG_LEN
    &&& aes256_gcm_seal(key, nonce, plaintext) == ciphertext
}

/// Relies on aes_gcm's Aes256Gcm through aead::Aead::decrypt, with no associated data:
/// it recomputes the tag and returns the plaintext only when the tag verifies, which is
/// exactly when sealing that plaintext under the same key and nonce gives `ciphertext`.
#[verifier::external_body]
fn aes256_gcm_decrypt(key: &[u8; 32], nonce: &[u8; 12], ciphertext: &[u8]) -> (r: Option<Vec<u8>>)
    requires
        ciphertext@.len() <= MAX_SEALED_LEN + TAG_LEN,
    ensures
        r is Some ==> r->0@.len() + TAG_LEN == ciphertext@.len(),
        r is Some ==> aes256_gcm_seal(key@, nonce@, r->0@) == ciphertext@,
        forall|m: Seq<u8>|
            #[trigger] aes256_gcm_seal(key@, nonce@, m) == ciphertext@ ==> r is Some && r->0@ == m,
{
    let cipher = Aes256Gcm::new(Key::<Aes256Gcm>::from_slice(key));
    cipher.decrypt(Nonce::from_slice(nonce), ciphertext).ok()
}

/// Relies on rand_core's OsRng (the operating system's generator) through
/// RngCore::try_fill_bytes: twelve random bytes, or nothing when the source fails.
#[verifier::external_body]
fn random_nonce() -> (r: Option<[u8; 12]>) {
    let mut nonce = [0u8; 12];
    match OsRng.try_fill_bytes(&mut nonce) {
        Ok(()) => Some(nonce),
        Err(_) => None,
    }
}

/// `e` is `chunk` sealed at position `index` under `key`, with the nonce that `e` carries.
pub open spec fn seals(key: Seq<u8>, index: u64, chunk: Seq<u8>, e: EncryptedChunk) -> bool {
    &&& e.index == index
    &&& chunk.len() <= MAX_SEALED_LEN
    &&& e.ciphertext@ == aes256_gcm_seal(key, e.nonce@, chunk)
    &&& e.ciphertext@.len() == chunk.len() + TAG_LEN
}

/// `v` holds each of `chunks` sealed under `key` at its own position, in order.
pub open spec fn seals_all(key: Seq<u8>, chunks: Seq<Seq<u8>>, v: Seq<EncryptedChunk>) -> bool {
    &&& v.len() == chunks.len()
    &&& forall|i: int| 0 <= i < v.len() ==> seals(key, i as u64, chunks[i], #[trigger] v[i])
}

/// What opening `e` under `key` gives: the plaintext that `e` seals, which is
/// one tag shorter than the ciphertext, and an authentication failure when
/// there is none.
pub open spec fn opening(key: Seq<u8>, e: EncryptedChunk, r: Result<Vec<u8>, ChunkerError>) -> bool {
    &&& r matches Ok(p) ==> opens_to(key, e.nonce@, e.ciphertext@, p@)
    &&& forall|m: Seq<u8>|
        #[trigger] opens_to(key, e.nonce@, e.ciphertext@, m) ==> (r matches Ok(p) && p@ == m)
    &&& r matches Ok(p) ==> p@.len() + TAG_LEN == e.ciphertext@.len()
    &&& r is Err ==> is_authentication_error(r, cipher_failure_message())
}

/// Decryption undoes encryption: opening a chunk sealed under a key, with
/// whatever nonce was drawn, gives back exactly the original bytes.
pub proof fn lemma_decrypt_inverts_encrypt(
    key: Seq<u8>,
    index: u64,
    chunk: Seq<u8>,
    e: EncryptedChunk,
    r: Result<Vec<u8>, ChunkerError>,
)
    requires
        seals(key, index, chunk, e),
        opening(key, e, r),
    ensures
        r matches Ok(p) && p@ == chunk,
{
    assert(opens_to(key, e.nonce@, e.ciphertext@, chunk));
}

/// A chunk longer than `m` is only cut from more than `m` bytes with a chunk
/// length above `m`.
proof fn lemma_long_piece(data: Seq<u8>, k: nat, j: int)
    requires
        k > 0,
        0 <= j < split_spec(data, k).len(),
        split_spec(data, k)[j].len() > MAX_SEALED_LEN,
    ensures
        k > MAX_SEALED_LEN,
        data.len() > MAX_SEALED_LEN,
{
    lemma_chunk_lengths(data, k);
    let c = split_spec(data, k).len() as int;
    let n = data.len() as int;
    let kk = k as int;
    vstd::arithmetic::div_mod::lemma_fundamental_div_mod(n + kk - 1, kk);
    assert((c - 1) * kk == c * kk - kk) by (nonlinear_arith);
    assert(j * kk <= (c - 1) * kk) by (nonlinear_arith)
        requires
            0 <= j <= c - 1,
            kk > 0,
    ;
    assert(j * kk >= 0) by (nonlinear_arith)
        requires
            j >= 0,
            kk > 0,
    ;
    assert((j + 1) * kk == j * kk + kk) by (nonlinear_arith);
}

/// Data and chunk length both above the sealing limit: then the first chunk
/// already cannot be sealed.
pub open spec fn oversized(n: nat, k: nat) -> bool {
    k > MAX_SEALED_LEN && n > MAX_SEALED_LEN
}

/// Non-empty data cut with a positive length has a first chunk, of the chunk
/// length or the whole data, whichever is shorter.
proof fn lemma_first_piece(data: Seq<u8>, k: nat)
    requires
        k > 0,
        data.len() > 0,
    ensures
        split_spec(data, k).len() > 0,
        split_spec(data, k)[0].len() == if k <= data.len() {
            k as int
        } else {
            data.len() as int
        },
{
    let n = data.len() as int;
    let kk = k as int;
    vstd::arithmetic::div_mod::lemma_fundamental_div_mod(n + kk - 1, kk);
    let q = (n + kk - 1) / kk;
    if q <= 0 {
        assert(kk * q <= 0) by (nonlinear_arith)
            requires
                q <= 0,
                kk > 0,
        ;
    }
    assert(0 * kk == 0 && (0 + 1) * kk == kk) by (nonlinear_arith);
}

/// Configuration of the chunking pipeline: the chunk length and, when
/// present, the AES-256 key used to seal chunks.
pub struct Chunker {
    chunk_size: usize,
    key: Option<[u8; 32]>,
}

impl Chunker {
    /// The configured chunk length.
    pub closed spec fn size(&self) -> nat {
        self.chunk_size as nat
    }

    /// The configured key, if any.
    pub closed spec fn key(&self) -> Option<Seq<u8>> {
        match self.key {
            Some(k) => Some(k@),
            None => None,
        }
    }

    /// A chunker without a key: it splits and hashes but cannot seal.
    pub fn new(chunk_size: usize) -> (r: Self)
        ensures
            r.size() == chunk_size,
            r.key() is None,
    {
        Chunker { chunk_size, key: None }
    }

    /// A chunker that seals chunks under `key_bytes`.
    pub fn with_key(chunk_size: usize, key_bytes: &[u8; 32]) -> (r: Self)
        ensures
            r.size() == chunk_size,
            r.key() == Some(key_bytes@),
    {
        Chunker { chunk_size, key: Some(*key_bytes) }
    }

    /// The configured chunk length.
    pub fn chunk_size(&self) -> (r: usize)
        ensures
            r == self.size(),
    {
        self.chunk_size
    }

    /// `data` cut into chunks of the configured length, in order; the last
    /// chunk may be shorter, and empty data or a length of zero gives no chunks.
    pub fn split_bytes(&self, data: &[u8]) -> (r: Vec<Vec<u8>>)
        ensures
            byte_views(r@) == split_spec(data@, self.size()),
    {
        let k = self.chunk_size;
        let n = data.len();
        let mut chunks: Vec<Vec<u8>> = Vec::new();
        if k == 0 {
            assert(byte_views(chunks@) =~= split_spec(data@, self.size()));
            return chunks;
        }
        let mut start: usize = 0;
        assert(chunks@.len() * k == 0) by (nonlinear_arith)
            requires
                chunks@.len() == 0,
        ;
        while start < n
            invariant
                k == self.size(),
                k > 0,
                n == data@.len(),
                start <= n,
                start == if chunks@.len() * k <= n {
                    chunks@.len() * k
                } else {
                    n as int
                },
                chunks@.len() > 0 ==> (chunks@.len() - 1) * k < n,
                forall|j: int|
                    0 <= j < chunks@.len() ==> #[trigger] chunks@[j]@ == piece(data@, k as nat, j),
            decreases n - start,
        {
            let i = chunks.len();
            let end = if n - start > k {
                start + k
            } else {
                n
            };
            assert(start == i * k);
            assert((i + 1) * k == i * k + k) by (nonlinear_arith);
            let mut c: Vec<u8> = Vec::new();
            let mut t: usize = start;
            while t < end
                invariant
                    start <= t <= end,
                    end <= n == data@.len(),
                    c@ == data@.subrange(start as int, t as int),
                decreases end - t,
            {
                c.push(data[t]);
                assert(data@.subrange(start as int, t + 1) =~= data@.subrange(
                    start as int,
                    t as int,
                ).push(data@[t as int]));
                t = t + 1;
            }
            assert(data@.subrange(start as int, end as int) =~= piece(data@, k as nat, i as int));
            chunks.push(c);
            start = end;
        }
        proof {
            lemma_count_exact(n as nat, k as nat, chunks@.len());
        }
        assert(byte_views(chunks@) =~= split_spec(data@, self.size()));
        chunks
    }

    /// Seals `chunk` at position `index` under the configured key with the given nonce.
    pub fn encrypt_chunk_with_nonce(&self, index: u64, chunk: &[u8], nonce: [u8; 12]) -> (r: Result<
        EncryptedChunk,
        ChunkerError,
    >)
        ensures
            self.key() is None ==> is_crypto_error(r, no_cipher_message()),
            self.key() is Some && chunk@.len() > MAX_SEALED_LEN ==> is_crypto_error(
                r,
                cipher_failure_message(),
            ),
            self.key() is Some && chunk@.len() <= MAX_SEALED_LEN ==> (r matches Ok(e) && e.nonce
                == nonce && seals(self.key()->0, index, chunk@, e)),
    {
        let key = match &self.key {
            Some(k) => k,
            None => {
                return Err(ChunkerError::Crypto("No cipher configured".to_string()));
            },
        };
        if chunk.len() as u64 > MAX_SEALED_LEN {
            return Err(ChunkerError::Crypto("aead::Error".to_string()));
        }
        match aes256_gcm_encrypt(key, &nonce, chunk) {
            Some(ciphertext) => Ok(EncryptedChunk { index, nonce, ciphertext }),
            None => Err(ChunkerError::Crypto("aead::Error".to_string())),
        }
    }

    /// Seals `chunk` at position `index` under the configured key with a fresh
    /// random nonce.
    pub fn encrypt_chunk(&self, index: u64, chunk: &[u8]) -> (r: Result<EncryptedChunk, ChunkerError>)
        ensures
            self.key() is None ==> is_crypto_error(r, no_cipher_message()),
            self.key() is Some && chunk@.len() > MAX_SEALED_LEN ==> is_crypto_error(
                r,
                cipher_failure_message(),
            ),
            self.key() is Some && chunk@.len() <= MAX_SEALED_LEN ==> (r matches Ok(e) && seals(
                self.key()->0,
                index,
                chunk@,
                e,
            )) || is_crypto_error(r, nonce_failure_message()),
    {
        if self.key.is_none() {
            return Err(ChunkerError::Crypto("No cipher configured".to_string()));
        }
        if chunk.len() as u64 > MAX_SEALED_LEN {
            return Err(ChunkerError::Crypto("aead::Error".to_string()));
        }
        match random_nonce() {
            Some(nonce) => self.encrypt_chunk_with_nonce(index, chunk, nonce),
            None => Err(ChunkerError::Crypto("random source unavailable".to_string())),
        }
    }

    /// Opens a sealed chunk under the configured key; no plaintext is given
    /// back unless the tag verifies.
    pub fn decrypt_chunk(&self, enc: &EncryptedChunk) -> (r: Result<Vec<u8>, ChunkerError>)
        ensures
            self.key() is None ==> is_crypto_error(r, no_cipher_message()),
            self.key() is Some ==> opening(self.key()->0, *enc, r),
    {
        let key = match &self.key {
            Some(k) => k,
            None => {
                return Err(ChunkerError::Crypto("No cipher configured".to_string()));
            },
        };
        if enc.ciphertext.len() as u64 > MAX_SEALED_LEN + TAG_LEN {
            return Err(ChunkerError::Authentication("aead::Error".to_string()));
        }
        match aes256_gcm_decrypt(key, &enc.nonce, enc.ciphertext.as_slice()) {
            Some(plaintext) => Ok(plaintext),
            None => Err(ChunkerError::Authentication("aead::Error".to_string())),
        }
    }

    /// Splits `data`; with a key, seals every chunk at its position, and
    /// without one, gives the chunks together with their digests.
    pub fn process_bytes(&self, data: &[u8]) -> (r: Result<ProcessOutput, ChunkerError>)
        ensures
            self.key() is None ==> (r matches Ok(ProcessOutput::Raw { chunks, hashes }) && byte_views(
                chunks@,
            ) == split_spec(data@, self.size()) && digest_views(hashes@) == leaf_hashes(
                split_spec(data@, self.size()),
            )),
            self.key() is Some && !oversized(data@.len(), self.size()) ==> (r matches Ok(
                ProcessOutput::Encrypted(v),
            ) && seals_all(self.key()->0, split_spec(data@, self.size()), v@)) || is_crypto_error(
                r,
                nonce_failure_message(),
            ),
            self.key() is Some && oversized(data@.len(), self.size()) ==> is_crypto_error(
                r,
                cipher_failure_message(),
            ),
            self.key() is Some && data@.len() == 0 ==> (r matches Ok(ProcessOutput::Encrypted(v))
                && v@.len() == 0),
    {
        let raw = self.split_bytes(data);
        let ghost pieces = split_spec(data@, self.size());
        assert(byte_views(raw@).len() == raw@.len());
        if self.key.is_some() {
            let mut enc: Vec<EncryptedChunk> = Vec::new();
            let mut i: usize = 0;
            while i < raw.len()
                invariant
                    self.key() is Some,
                    raw@.len() > 0 ==> self.size() > 0,
                    byte_views(raw@) == pieces,
                    pieces == split_spec(data@, self.size()),
                    i <= raw@.len(),
                    enc@.len() == i,
                    forall|j: int|
                        0 <= j < i ==> seals(self.key()->0, j as u64, pieces[j], #[trigger] enc@[j]),
                decreases raw@.len() - i,
            {
                assert(raw@[i as int]@ == pieces[i as int]);
                let e = match self.encrypt_chunk(i as u64, raw[i].as_slice()) {
                    Ok(e) => e,
                    Err(err) => {
                        proof {
                            assert(byte_views(raw@).len() == raw@.len());
                            if raw@[i as int]@.len() > MAX_SEALED_LEN {
                                lemma_long_piece(data@, self.size(), i as int);
                            }
                            if oversized(data@.len(), self.size()) {
                                lemma_first_piece(data@, self.size());
                                if i > 0 {
                                    assert(seals(self.key()->0, 0, pieces[0], enc@[0]));
                                }
                            }
                        }
                        return Err(err);
                    },
                };
                enc.push(e);
                i = i + 1;
            }
            proof {
                if oversized(data@.len(), self.size()) {
                    lemma_first_piece(data@, self.size());
                    assert(seals(self.key()->0, 0, pieces[0], enc@[0]));
                }
            }
            Ok(ProcessOutput::Encrypted(enc))
        } else {
            let mut hashes: Vec<[u8; 32]> = Vec::new();
            let mut i: usize = 0;
            while i < raw.len()
                invariant
                    byte_views(raw@) == pieces,
                    i <= raw@.len(),
                    hashes@.len() == i,
                    forall|j: int| 0 <= j < i ==> #[trigger] hashes@[j]@ == sha256_of(pieces[j]),
                decreases raw@.len() - i,
            {
                assert(raw@[i as int]@ == pieces[i as int]);
                hashes.push(Self::hash(raw[i].as_slice()));
                i = i + 1;
            }
            assert(digest_views(hashes@) =~= leaf_hashes(pieces));
            Ok(ProcessOutput::Raw { chunks: raw, hashes })
        }
    }

    /// The SHA-256 digest of `data`.
    pub fn hash(data: &[u8]) -> (r: [u8; 32])
        ensures
            r@ == sha256_of(data@),
    {
        sha256(data)
    }

    /// The Merkle root over the digests of `chunks`; all zeros for no chunks.
    pub fn merkle_root(&self, chunks: &[Vec<u8>]) -> (r: [u8; 32])
        ensures
            r@ == merkle_root_of(byte_views(chunks@)),
    {
        let mut hashes: Vec<[u8; 32]> = Vec::new();
        let mut i: usize = 0;
        while i < chunks.len()
            invariant
                i <= chunks@.len(),
                hashes@.len() == i,
                forall|j: int| 0 <= j < i ==> #[trigger] hashes@[j]@ == sha256_of(chunks@[j]@),
            decreases chunks@.len() - i,
        {
            hashes.push(Self::hash(chunks[i].as_slice()));
            i = i + 1;
        }
        assert(digest_views(hashes@) =~= leaf_hashes(byte_views(chunks@)));
        if hashes.len() == 0 {
            let zero = [0u8; 32];
            assert(zero@ =~= zero_root());
            return zero;
        }
        while hashes.len() > 1
            invariant
                hashes@.len() >= 1,
                root_of_level(digest_views(hashes@)) == merkle_root_of(byte_views(chunks@)),
            decreases hashes@.len(),
        {
            let n = hashes.len();
            let half = n / 2 + n % 2;
            let mut up: Vec<[u8; 32]> = Vec::new();
            let mut p: usize = 0;
            while p < half
                invariant
                    n == hashes@.len(),
                    half == (n + 1) / 2,
                    p <= half,
                    up@.len() == p,
                    forall|j: int|
                        0 <= j < p ==> #[trigger] up@[j]@ == parent_of(digest_views(hashes@), j),
                decreases half - p,
            {
                let left = hashes[2 * p];
                let right = if 2 * p + 1 < n {
                    hashes[2 * p + 1]
                } else {
                    left
                };
                let joined = join_digests(&left, &right);
                let parent = Self::hash(joined.as_slice());
                up.push(parent);
                p = p + 1;
            }
            assert(digest_views(up@) =~= next_level(digest_views(hashes@)));
            hashes = up;
        }
        hashes[0]
    }
}

/// The 64 bytes of `a` followed by `b`.
fn join_digests(a: &[u8; 32], b: &[u8; 32]) -> (r: Vec<u8>)
    ensures
        r@ == a@ + b@,
{
    let mut r: Vec<u8> = Vec::new();
    let mut i: usize = 0;
    while i < 32
        invariant
            i <= 32,
            r@ == a@.subrange(0, i as int),
        decreases 32 - i,
    {
        r.push(a[i]);
        assert(a@.subrange(0, i + 1) =~= a@.subrange(0, i as int).push(a@[i as int]));
        i = i + 1;
    }
    assert(a@.subrange(0, 32) =~= a@);
    let mut j: usize = 0;
    while j < 32
        invariant
            j <= 32,
            r@ == a@ + b@.subrange(0, j as int),
        decreases 32 - j,
    {
        r.push(b[j]);
        assert(b@.subrange(0, j + 1) =~= b@.subrange(0, j as int).push(b@[j as int]));
        j = j + 1;
    }
    assert(b@.subrange(0, 32) =~= b@);
    r
}

} // verus!
